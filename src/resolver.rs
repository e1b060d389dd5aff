use vstd::prelude::*;

use crate::aur::{
    is_constrained, is_constrained_dep, multiinfo_tag, strings_view, InfoResponse, PackageInfo,
    ResolveError, API_VERSION,
};
use crate::batch::{
    fitting_count, is_oversized, lemma_request_len_single, request_len, MAX_REQUEST_LEN,
};
use crate::order::{
    depends_on, has_install_order, install_order, is_chain, is_install_order, lemma_root_is_last,
    reaches, record_names,
};

verus! {

/// The working state of one resolution, as the contracts see it.
pub struct ResolverView {
    pub root: Seq<char>,
    /// Names found but not yet asked for.
    pub pending: Seq<Seq<char>>,
    /// Names already asked for.
    pub visited: Seq<Seq<char>>,
    /// Entries received, one per name.
    pub records: Seq<PackageInfo>,
    /// Dependencies with a version constraint, which are not followed.
    pub diagnostics: Seq<Seq<char>>,
}

/// `pending` after queueing, in order, each dependency of `deps` that is
/// unconstrained and neither asked for nor queued yet.
pub open spec fn queue_deps(
    pending: Seq<Seq<char>>,
    visited: Seq<Seq<char>>,
    deps: Seq<Seq<char>>,
) -> Seq<Seq<char>>
    decreases deps.len(),
{
    if deps.len() == 0 {
        pending
    } else {
        let p = queue_deps(pending, visited, deps.drop_last());
        let d = deps.last();
        if !is_constrained(d) && !visited.contains(d) && !p.contains(d) {
            p.push(d)
        } else {
            p
        }
    }
}

/// The dependencies that carry a version constraint, in order.
pub open spec fn constrained_only(deps: Seq<Seq<char>>) -> Seq<Seq<char>> {
    deps.filter(|d: Seq<char>| is_constrained(d))
}

impl ResolverView {
    /// An entry is kept when its name was asked for and has no entry yet.
    pub open spec fn accepts(self, info: PackageInfo) -> bool {
        self.visited.contains(info.name@) && !record_names(self.records).contains(info.name@)
    }

    /// The state after receiving one entry: a kept entry queues its new
    /// unconstrained dependencies and records its constrained ones.
    pub open spec fn absorb_info(self, info: PackageInfo) -> ResolverView {
        if self.accepts(info) {
            ResolverView {
                root: self.root,
                pending: queue_deps(self.pending, self.visited, info.spec_depends()),
                visited: self.visited,
                records: self.records.push(info),
                diagnostics: self.diagnostics + constrained_only(info.spec_depends()),
            }
        } else {
            self
        }
    }

    /// The state after receiving `infos`, in order.
    pub open spec fn absorb(self, infos: Seq<PackageInfo>) -> ResolverView
        decreases infos.len(),
    {
        if infos.len() == 0 {
            self
        } else {
            self.absorb(infos.drop_last()).absorb_info(infos.last())
        }
    }

    /// `x` is an unconstrained dependency of a received entry.
    pub open spec fn found(self, x: Seq<char>) -> bool {
        exists|k: int|
            0 <= k < self.records.len() && #[trigger] self.records[k].spec_depends().contains(x)
                && !is_constrained(x)
    }

    /// Names are asked for once and queued once; each entry answers a name
    /// that was asked for; each name was found from the root, and each
    /// entry is reached from the root's entry.
    pub open spec fn wf(self) -> bool {
        &&& self.visited.no_duplicates()
        &&& self.pending.no_duplicates()
        &&& forall|x: Seq<char>| self.pending.contains(x) ==> !self.visited.contains(x)
        &&& record_names(self.records).no_duplicates()
        &&& forall|x: Seq<char>|
            record_names(self.records).contains(x) ==> self.visited.contains(x)
        &&& forall|x: Seq<char>|
            self.visited.contains(x) || self.pending.contains(x) ==> x == self.root || self.found(
                x,
            )
        &&& forall|x: Seq<char>|
            record_names(self.records).contains(x) ==> reaches(self.records, self.root, x)
    }

    /// The state after asking for the first `k` pending names.
    pub open spec fn take(self, k: int) -> ResolverView {
        ResolverView {
            root: self.root,
            pending: self.pending.subrange(k, self.pending.len() as int),
            visited: self.visited + self.pending.subrange(0, k),
            records: self.records,
            diagnostics: self.diagnostics,
        }
    }
}

proof fn lemma_queue_deps(pending: Seq<Seq<char>>, visited: Seq<Seq<char>>, deps: Seq<Seq<char>>)
    requires
        pending.no_duplicates(),
        forall|x: Seq<char>| pending.contains(x) ==> !visited.contains(x),
    ensures
        queue_deps(pending, visited, deps).no_duplicates(),
        forall|x: Seq<char>|
            queue_deps(pending, visited, deps).contains(x) ==> !visited.contains(x),
        forall|x: Seq<char>|
            #[trigger] queue_deps(pending, visited, deps).contains(x) ==> pending.contains(x) || (
            deps.contains(x) && !is_constrained(x)),
        forall|x: Seq<char>|
            pending.contains(x) ==> #[trigger] queue_deps(pending, visited, deps).contains(x),
    decreases deps.len(),
{
    if deps.len() > 0 {
        let rest = deps.drop_last();
        lemma_queue_deps(pending, visited, rest);
        let p = queue_deps(pending, visited, rest);
        let d = deps.last();
        assert forall|x: Seq<char>| rest.contains(x) implies deps.contains(x) by {
            let i = choose|i: int| 0 <= i < rest.len() && rest[i] == x;
            assert(deps[i] == x);
        }
        assert(deps[deps.len() - 1] == d);
        if !is_constrained(d) && !visited.contains(d) && !p.contains(d) {
            let q = p.push(d);
            assert forall|x: Seq<char>| q.contains(x) implies p.contains(x) || x == d by {
                let i = choose|i: int| 0 <= i < q.len() && q[i] == x;
                if i < p.len() {
                    assert(p[i] == x);
                }
            }
            assert forall|x: Seq<char>| p.contains(x) implies q.contains(x) by {
                let i = choose|i: int| 0 <= i < p.len() && p[i] == x;
                assert(q[i] == x);
            }
        }
    }
}

proof fn lemma_depends_grow(recs: Seq<PackageInfo>, info: PackageInfo, a: Seq<char>, b: Seq<char>)
    requires
        depends_on(recs, a, b),
    ensures
        depends_on(recs.push(info), a, b),
{
    let n = recs.push(info);
    let i = choose|i: int| 0 <= i < record_names(recs).len() && record_names(recs)[i] == b;
    assert(record_names(n)[i] == b);
    let k = choose|k: int|
        0 <= k < recs.len() && #[trigger] recs[k].name@ == a && recs[k].spec_depends().contains(b);
    assert(n[k] == recs[k]);
}

proof fn lemma_reaches_grow(recs: Seq<PackageInfo>, info: PackageInfo, root: Seq<char>, x: Seq<char>)
    requires
        reaches(recs, root, x),
    ensures
        reaches(recs.push(info), root, x),
{
    let c = choose|c: Seq<Seq<char>>|
        c.len() >= 1 && c[0] == root && #[trigger] c.last() == x && is_chain(recs, c);
    assert forall|i: int| 0 <= i < c.len() - 1 implies #[trigger] depends_on(
        recs.push(info),
        c[i],
        c[i + 1],
    ) by {
        lemma_depends_grow(recs, info, c[i], c[i + 1]);
    }
    assert(is_chain(recs.push(info), c));
}

proof fn lemma_absorb_info_wf(s: ResolverView, info: PackageInfo)
    requires
        s.wf(),
    ensures
        s.absorb_info(info).wf(),
{
    if s.accepts(info) {
        let t = s.absorb_info(info);
        let n = info.name@;
        let deps = info.spec_depends();
        let last = s.records.len() as int;
        lemma_queue_deps(s.pending, s.visited, deps);
        assert(t.records[last] == info);
        assert(record_names(t.records) =~= record_names(s.records).push(n));
        assert forall|x: Seq<char>| s.found(x) implies t.found(x) by {
            let k = choose|k: int|
                0 <= k < s.records.len() && #[trigger] s.records[k].spec_depends().contains(x)
                    && !is_constrained(x);
            assert(t.records[k] == s.records[k]);
        }
        assert forall|x: Seq<char>| t.pending.contains(x) implies x == t.root || t.found(x) by {
            if !s.pending.contains(x) {
                assert(t.records[last].spec_depends().contains(x));
            }
        }
        assert forall|x: Seq<char>|
            record_names(t.records).contains(x) implies t.visited.contains(x) by {
            let i = choose|i: int|
                0 <= i < record_names(t.records).len() && record_names(t.records)[i] == x;
            if i < last {
                assert(record_names(s.records)[i] == x);
            }
        }
        // the new entry is reached from the root
        if n == s.root {
            let c = seq![n];
            assert(c.last() == n);
            assert(is_chain(t.records, c));
            assert(reaches(t.records, s.root, n));
        } else {
            assert(s.found(n));
            let k = choose|k: int|
                0 <= k < s.records.len() && #[trigger] s.records[k].spec_depends().contains(n)
                    && !is_constrained(n);
            let m = s.records[k].name@;
            assert(record_names(s.records)[k] == m);
            assert(record_names(s.records).contains(m));
            assert(reaches(s.records, s.root, m));
            let c = choose|c: Seq<Seq<char>>|
                c.len() >= 1 && c[0] == s.root && #[trigger] c.last() == m && is_chain(
                    s.records,
                    c,
                );
            let c2 = c.push(n);
            assert(record_names(t.records)[last] == n);
            assert(t.records[k].name@ == m);
            assert(depends_on(t.records, m, n));
            assert forall|i: int| 0 <= i < c2.len() - 1 implies #[trigger] depends_on(
                t.records,
                c2[i],
                c2[i + 1],
            ) by {
                if i < c.len() - 1 {
                    assert(depends_on(s.records, c[i], c[i + 1]));
                    lemma_depends_grow(s.records, info, c[i], c[i + 1]);
                    assert(c2[i] == c[i] && c2[i + 1] == c[i + 1]);
                } else {
                    assert(c2[i] == m && c2[i + 1] == n);
                }
            }
            assert(c2.last() == n);
            assert(reaches(t.records, s.root, n));
        }
        assert forall|x: Seq<char>|
            record_names(t.records).contains(x) implies reaches(t.records, t.root, x) by {
            if x != n {
                let i = choose|i: int|
                    0 <= i < record_names(t.records).len() && record_names(t.records)[i] == x;
                assert(record_names(s.records)[i] == x);
                assert(record_names(s.records).contains(x));
                lemma_reaches_grow(s.records, info, s.root, x);
            }
        }
    }
}

/// Once any entry was received, the root's entry was received: a root that
/// gets no entry leaves the resolution with no entry at all.
pub proof fn lemma_root_is_record(s: ResolverView)
    requires
        s.wf(),
        s.records.len() > 0,
    ensures
        record_names(s.records).contains(s.root),
{
    let x = s.records[0].name@;
    assert(record_names(s.records)[0] == x);
    assert(record_names(s.records).contains(x));
    let c = choose|c: Seq<Seq<char>>|
        c.len() >= 1 && c[0] == s.root && #[trigger] c.last() == x && is_chain(s.records, c);
    if c.len() > 1 {
        let z: int = 0;
        assert(depends_on(s.records, c[z], c[z + 1]));
        let k = choose|k: int|
            0 <= k < s.records.len() && #[trigger] s.records[k].name@ == c[0]
                && s.records[k].spec_depends().contains(c[1]);
        assert(record_names(s.records)[k] == s.root);
    }
}

/// When every name asked for received an entry, an install order of the
/// entries lists exactly the names asked for, each once.
pub proof fn lemma_order_lists_visited(s: ResolverView, o: Seq<Seq<char>>)
    requires
        s.wf(),
        forall|x: Seq<char>| s.visited.contains(x) ==> record_names(s.records).contains(x),
        is_install_order(o, s.records),
    ensures
        o.no_duplicates(),
        forall|x: Seq<char>| o.contains(x) <==> s.visited.contains(x),
{
}

/// Apart from the root, no name with a version constraint is ever queued
/// or asked for.
pub proof fn lemma_constrained_never_asked(s: ResolverView, x: Seq<char>)
    requires
        s.wf(),
        s.visited.contains(x) || s.pending.contains(x),
        x != s.root,
    ensures
        !is_constrained(x),
{
    assert(s.found(x));
}

/// A dependency with a version constraint of a received entry is kept as a
/// diagnostic and is not queued (unless it is the root itself, which is
/// asked for in any case).
pub proof fn lemma_constrained_kept_aside(s: ResolverView, info: PackageInfo, d: Seq<char>)
    requires
        s.wf(),
        s.accepts(info),
        info.spec_depends().contains(d),
        is_constrained(d),
        d != s.root,
    ensures
        s.absorb_info(info).diagnostics.contains(d),
        !s.absorb_info(info).pending.contains(d),
{
    let deps = info.spec_depends();
    let pred = |x: Seq<char>| is_constrained(x);
    deps.filter_lemma(pred);
    let i = choose|i: int| 0 <= i < deps.len() && deps[i] == d;
    assert(constrained_only(deps).contains(d));
    let f = constrained_only(deps);
    let j = choose|j: int| 0 <= j < f.len() && f[j] == d;
    assert(s.absorb_info(info).diagnostics[s.diagnostics.len() + j] == d);
    lemma_queue_deps(s.pending, s.visited, deps);
    if s.pending.contains(d) {
        lemma_constrained_never_asked(s, d);
    }
}

/// Taking in answers keeps the root and the names asked for, keeps the
/// entries already received, and adds only entries of the answers; an
/// entry answering a name that was asked for leaves that name with an entry.
pub proof fn lemma_absorb_records(s: ResolverView, infos: Seq<PackageInfo>)
    ensures
        s.absorb(infos).root == s.root,
        s.absorb(infos).visited == s.visited,
        s.absorb(infos).records.len() >= s.records.len(),
        forall|k: int| 0 <= k < s.records.len() ==> s.absorb(infos).records[k] == s.records[k],
        forall|k: int|
            s.records.len() <= k < s.absorb(infos).records.len() ==> exists|i: int|
                0 <= i < infos.len() && infos[i] == #[trigger] s.absorb(infos).records[k],
        forall|i: int|
            0 <= i < infos.len() && s.visited.contains(#[trigger] infos[i].name@) ==> record_names(
                s.absorb(infos).records,
            ).contains(infos[i].name@),
    decreases infos.len(),
{
    if infos.len() > 0 {
        let rest = infos.drop_last();
        lemma_absorb_records(s, rest);
        let m = s.absorb(rest);
        let info = infos.last();
        let t = m.absorb_info(info);
        assert(s.absorb(infos) == t);
        assert forall|k: int| s.records.len() <= k < t.records.len() implies exists|i: int|
            0 <= i < infos.len() && infos[i] == #[trigger] t.records[k] by {
            if k < m.records.len() {
                let i = choose|i: int| 0 <= i < rest.len() && rest[i] == m.records[k];
                assert(infos[i] == rest[i]);
            } else {
                assert(t.records[k] == info);
                assert(infos[infos.len() - 1] == info);
            }
        }
        assert forall|x: Seq<char>| record_names(m.records).contains(x) implies record_names(
            t.records,
        ).contains(x) by {
            let j = choose|j: int| 0 <= j < record_names(m.records).len() && record_names(m.records)[j] == x;
            assert(record_names(t.records)[j] == x);
        }
        assert forall|i: int|
            0 <= i < infos.len() && s.visited.contains(#[trigger] infos[i].name@) implies record_names(
            t.records,
        ).contains(infos[i].name@) by {
            if i < rest.len() {
                assert(rest[i] == infos[i]);
                assert(record_names(m.records).contains(rest[i].name@));
            } else {
                assert(infos[i] == info);
                if !record_names(m.records).contains(info.name@) {
                    assert(m.accepts(info));
                    assert(record_names(t.records)[m.records.len() as int] == info.name@);
                }
            }
        }
    }
}

/// Taking in answers keeps the state well formed.
pub proof fn lemma_absorb_wf(s: ResolverView, infos: Seq<PackageInfo>)
    requires
        s.wf(),
    ensures
        s.absorb(infos).wf(),
    decreases infos.len(),
{
    if infos.len() > 0 {
        lemma_absorb_wf(s, infos.drop_last());
        lemma_absorb_info_wf(s.absorb(infos.drop_last()), infos.last());
    }
}

proof fn lemma_take_wf(s: ResolverView, k: int)
    requires
        s.wf(),
        0 <= k <= s.pending.len(),
    ensures
        s.take(k).wf(),
{
    let t = s.take(k);
    let head = s.pending.subrange(0, k);
    let tail = s.pending.subrange(k, s.pending.len() as int);
    assert(s.pending =~= head + tail);
    assert forall|x: Seq<char>| t.visited.contains(x) <==> (s.visited.contains(x) || head.contains(x)) by {
        if t.visited.contains(x) {
            let i = choose|i: int| 0 <= i < t.visited.len() && t.visited[i] == x;
            if i >= s.visited.len() {
                assert(head[i - s.visited.len()] == x);
            }
        }
        if head.contains(x) {
            let i = choose|i: int| 0 <= i < head.len() && head[i] == x;
            assert(t.visited[s.visited.len() + i] == x);
        }
        if s.visited.contains(x) {
            let i = choose|i: int| 0 <= i < s.visited.len() && s.visited[i] == x;
            assert(t.visited[i] == x);
        }
    }
    assert forall|x: Seq<char>| head.contains(x) || tail.contains(x) implies s.pending.contains(x) by {
        if head.contains(x) {
            let i = choose|i: int| 0 <= i < head.len() && head[i] == x;
            assert(s.pending[i] == x);
        } else {
            let i = choose|i: int| 0 <= i < tail.len() && tail[i] == x;
            assert(s.pending[k + i] == x);
        }
    }
    assert forall|x: Seq<char>| tail.contains(x) implies !head.contains(x) by {
        let i = choose|i: int| 0 <= i < tail.len() && tail[i] == x;
        if head.contains(x) {
            let j = choose|j: int| 0 <= j < head.len() && head[j] == x;
            assert(s.pending[j] == s.pending[k + i]);
        }
    }
    assert(t.visited.no_duplicates()) by {
        assert forall|a: int, b: int| 0 <= a < t.visited.len() && 0 <= b < t.visited.len() && a != b
            implies t.visited[a] != t.visited[b] by {
            let sv = s.visited.len() as int;
            if a < sv && b >= sv {
                assert(head[b - sv] == t.visited[b]);
                assert(s.visited.contains(t.visited[a]));
                assert(head.contains(t.visited[b]));
            } else if a >= sv && b < sv {
                assert(head[a - sv] == t.visited[a]);
                assert(s.visited.contains(t.visited[b]));
                assert(head.contains(t.visited[a]));
            } else if a >= sv && b >= sv {
                assert(s.pending[a - sv] == t.visited[a]);
                assert(s.pending[b - sv] == t.visited[b]);
            }
        }
    }
    assert(tail.no_duplicates()) by {
        assert forall|a: int, b: int| 0 <= a < tail.len() && 0 <= b < tail.len() && a != b
            implies tail[a] != tail[b] by {
            assert(s.pending[k + a] == tail[a]);
            assert(s.pending[k + b] == tail[b]);
        }
    }
    assert(forall|x: Seq<char>| t.pending.contains(x) ==> !t.visited.contains(x));
    assert forall|x: Seq<char>| record_names(t.records).contains(x) implies t.visited.contains(x) by {
        assert(s.visited.contains(x));
        let i = choose|i: int| 0 <= i < s.visited.len() && s.visited[i] == x;
        assert(t.visited[i] == x);
    }
    assert forall|x: Seq<char>| t.visited.contains(x) || t.pending.contains(x) implies x == t.root
        || t.found(x) by {
        if t.visited.contains(x) {
            assert(s.visited.contains(x) || head.contains(x));
            if head.contains(x) {
                assert(s.pending.contains(x));
            }
        } else {
            assert(tail.contains(x));
            assert(s.pending.contains(x));
        }
        assert(t.records == s.records);
        if s.found(x) {
            let k = choose|k: int|
                0 <= k < s.records.len() && #[trigger] s.records[k].spec_depends().contains(x)
                    && !is_constrained(x);
            assert(t.records[k].spec_depends().contains(x));
        }
    }
}

/// The working state of one resolution: it hands out the next batch of names
/// to ask for, takes in the answers, and orders what was found.
pub struct Resolver {
    root: String,
    pending: Vec<String>,
    visited: Vec<String>,
    records: Vec<PackageInfo>,
    diagnostics: Vec<String>,
}

impl View for Resolver {
    type V = ResolverView;

    closed spec fn view(&self) -> ResolverView {
        ResolverView {
            root: self.root@,
            pending: strings_view(self.pending@),
            visited: strings_view(self.visited@),
            records: self.records@,
            diagnostics: strings_view(self.diagnostics@),
        }
    }
}

/// Whether `v` holds `s`.
pub fn contains_name(v: &Vec<String>, s: &String) -> (r: bool)
    ensures
        r == strings_view(v@).contains(s@),
{
    let mut i: usize = 0;
    while i < v.len()
        invariant
            i <= v@.len(),
            forall|u: int| 0 <= u < i ==> v@[u]@ != s@,
        decreases v@.len() - i,
    {
        if v[i] == *s {
            proof {
                assert(strings_view(v@)[i as int] == s@);
            }
            return true;
        }
        i += 1;
    }
    proof {
        assert forall|u: int| 0 <= u < v@.len() implies strings_view(v@)[u] != s@ by {}
    }
    false
}

impl Resolver {
    /// A resolution that starts from `root`.
    pub fn new(root: &str) -> (r: Resolver)
        ensures
            r@.root == root@,
            r@.pending == seq![root@],
            r@.visited.len() == 0,
            r@.records.len() == 0,
            r@.diagnostics.len() == 0,
            r@.wf(),
    {
        let mut pending: Vec<String> = Vec::new();
        pending.push(root.to_owned());
        let r = Resolver {
            root: root.to_owned(),
            pending,
            visited: Vec::new(),
            records: Vec::new(),
            diagnostics: Vec::new(),
        };
        proof {
            assert(r@.pending =~= seq![root@]);
            assert forall|x: Seq<char>| r@.pending.contains(x) implies x == r@.root by {
                let i = choose|i: int| 0 <= i < r@.pending.len() && r@.pending[i] == x;
                assert(r@.pending[0] == root@);
            }
        }
        r
    }

    /// Whether no name waits to be asked for.
    pub fn is_done(&self) -> (r: bool)
        ensures
            r == (self@.pending.len() == 0),
    {
        self.pending.len() == 0
    }

    /// The dependencies seen so far that carry a version constraint.
    pub fn diagnostics(&self) -> (r: &Vec<String>)
        ensures
            strings_view(r@) == self@.diagnostics,
    {
        &self.diagnostics
    }

    /// Takes the next batch: as many pending names, in order, as fit in
    /// one request, which are then counted as asked for.
    pub fn next_batch(&mut self) -> (r: Result<Vec<String>, ResolveError>)
        requires
            old(self)@.wf(),
        ensures
            final(self)@.wf(),
            r is Err <==> (old(self)@.pending.len() > 0 && is_oversized(old(self)@.pending[0])),
            r matches Err(e) ==> (e matches ResolveError::NameTooLong(n) && n@
                == old(self)@.pending[0] && final(self)@ == old(self)@),
            r matches Ok(b) ==> {
                &&& final(self)@ == old(self)@.take(b@.len() as int)
                &&& b@.len() <= old(self)@.pending.len()
                &&& strings_view(b@) == old(self)@.pending.subrange(0, b@.len() as int)
                &&& (old(self)@.pending.len() > 0 ==> b@.len() > 0)
                &&& b@.len() > 0 ==> request_len(strings_view(b@)) <= MAX_REQUEST_LEN
                &&& b@.len() < old(self)@.pending.len() ==> request_len(
                    old(self)@.pending.subrange(0, b@.len() as int + 1),
                ) > MAX_REQUEST_LEN
            },
    {
        let k = fitting_count(&self.pending, 0, MAX_REQUEST_LEN);
        proof {
            assert(strings_view(self.pending@.subrange(0, k as int)) =~= self@.pending.subrange(
                0,
                k as int,
            ));
            if k < self.pending@.len() {
                assert(strings_view(self.pending@.subrange(0, k + 1)) =~= self@.pending.subrange(
                    0,
                    k + 1,
                ));
            }
            if k > 0 {
                lemma_request_len_single(self@.pending.subrange(0, k as int), 0);
                assert(seq![self@.pending.subrange(0, k as int)[0]] =~= seq![self@.pending[0]]);
            }
        }
        if k == 0 && self.pending.len() > 0 {
            proof {
                assert(self@.pending.subrange(0, 1) =~= seq![self@.pending[0]]);
            }
            return Err(ResolveError::NameTooLong(self.pending[0].clone()));
        }
        let ghost before = self@;
        let mut batch = self.pending.split_off(k);
        std::mem::swap(&mut batch, &mut self.pending);
        let mut i: usize = 0;
        while i < batch.len()
            invariant
                i <= batch@.len(),
                strings_view(batch@) == before.pending.subrange(0, k as int),
                self.root@ == before.root,
                strings_view(self.pending@) == before.pending.subrange(k as int, before.pending.len() as int),
                self.records@ == before.records,
                strings_view(self.diagnostics@) == before.diagnostics,
                strings_view(self.visited@) =~= before.visited + strings_view(batch@).subrange(0, i as int),
            decreases batch@.len() - i,
        {
            let item = batch[i].clone();
            let ghost vis = self.visited@;
            self.visited.push(item);
            proof {
                assert(strings_view(self.visited@) =~= strings_view(vis).push(item@));
                assert(strings_view(batch@).subrange(0, i + 1) =~= strings_view(batch@).subrange(0, i as int).push(item@));
            }
            i += 1;
            proof {
                assert(strings_view(self.visited@) =~= before.visited + strings_view(batch@).subrange(0, i as int));
            }
        }
        proof {
            assert(strings_view(batch@).subrange(0, batch@.len() as int) =~= strings_view(batch@));
            lemma_take_wf(before, k as int);
            assert(self@ =~= before.take(k as int));
            if before.pending.len() > 0 {
                assert(before.pending.subrange(0, 1) =~= seq![before.pending[0]]);
            }
        }
        Ok(batch)
    }

    fn has_record(&self, name: &String) -> (r: bool)
        ensures
            r == record_names(self@.records).contains(name@),
    {
        let mut i: usize = 0;
        while i < self.records.len()
            invariant
                i <= self.records@.len(),
                forall|u: int| 0 <= u < i ==> self.records@[u].name@ != name@,
            decreases self.records@.len() - i,
        {
            if self.records[i].name == *name {
                proof {
                    assert(record_names(self@.records)[i as int] == name@);
                }
                return true;
            }
            i += 1;
        }
        proof {
            assert forall|u: int| 0 <= u < self.records@.len() implies record_names(
                self@.records,
            )[u] != name@ by {}
        }
        false
    }

    fn absorb_info(&mut self, info: PackageInfo)
        ensures
            final(self)@ == old(self)@.absorb_info(info),
    {
        if !contains_name(&self.visited, &info.name) || self.has_record(&info.name) {
            return;
        }
        let deps = info.get_depends();
        let ghost dv = strings_view(deps@);
        let ghost before = self@;
        let mut i: usize = 0;
        while i < deps.len()
            invariant
                i <= deps@.len(),
                dv == strings_view(deps@),
                self.root@ == before.root,
                self.records@ == before.records,
                strings_view(self.visited@) == before.visited,
                strings_view(self.pending@) == queue_deps(
                    before.pending,
                    before.visited,
                    dv.subrange(0, i as int),
                ),
                strings_view(self.diagnostics@) == before.diagnostics + constrained_only(
                    dv.subrange(0, i as int),
                ),
            decreases deps@.len() - i,
        {
            let ghost pre = dv.subrange(0, i as int);
            let ghost pend = self.pending@;
            let ghost diag = self.diagnostics@;
            proof {
                assert(dv.subrange(0, i + 1).drop_last() =~= pre);
                assert(dv.subrange(0, i + 1).last() == deps@[i as int]@);
                assert(dv[i as int] == deps@[i as int]@);
            }
            let d = &deps[i];
            let constrained = is_constrained_dep(d);
            proof {
                let full = dv.subrange(0, i + 1);
                assert(full =~= pre.push(dv[i as int]));
                pre.lemma_filter_push(dv[i as int], |x: Seq<char>| is_constrained(x));
            }
            if constrained {
                let item = d.clone();
                self.diagnostics.push(item);
                proof {
                    assert(strings_view(self.diagnostics@) =~= strings_view(diag).push(item@));
                    assert(constrained_only(dv.subrange(0, i + 1)) =~= constrained_only(pre).push(
                        item@,
                    ));
                    assert(before.diagnostics + constrained_only(dv.subrange(0, i + 1)) =~= (
                    before.diagnostics + constrained_only(pre)).push(item@));
                }
            } else {
                proof {
                    assert(constrained_only(dv.subrange(0, i + 1)) =~= constrained_only(pre));
                }
                if !contains_name(&self.visited, d) && !contains_name(&self.pending, d) {
                    let item = d.clone();
                    self.pending.push(item);
                    proof {
                        assert(strings_view(self.pending@) =~= strings_view(pend).push(item@));
                    }
                }
            }
            i += 1;
        }
        proof {
            assert(dv.subrange(0, deps@.len() as int) =~= dv);
        }
        self.records.push(info);
    }

    /// Takes in one answer of the service. A wrong protocol version or
    /// result type ends the resolution and leaves the state as it was;
    /// otherwise each entry is taken in, in order.
    pub fn handle_response(&mut self, resp: InfoResponse) -> (r: Result<(), ResolveError>)
        requires
            old(self)@.wf(),
        ensures
            final(self)@.wf(),
            r is Ok <==> (resp.version == API_VERSION && resp.type_field@ == multiinfo_tag()),
            resp.version != API_VERSION ==> r == Err::<(), ResolveError>(
                ResolveError::WrongVersion(resp.version),
            ),
            resp.version == API_VERSION && resp.type_field@ != multiinfo_tag() ==> (r matches Err(
                ResolveError::WrongType(t),
            ) && t@ == resp.type_field@),
            r is Err ==> final(self)@ == old(self)@,
            r is Ok ==> final(self)@ == old(self)@.absorb(resp.results@),
    {
        match resp.validate() {
            Err(e) => {
                return Err(e);
            },
            Ok(()) => {},
        }
        let ghost infos = resp.results@;
        let ghost start = self@;
        proof {
            assert(infos.len() == resp.results.len());
        }
        let mut results = resp.results;
        let mut taken: usize = 0;
        while results.len() > 0
            invariant
                taken <= infos.len(),
                infos.len() <= usize::MAX,
                results@ == infos.subrange(taken as int, infos.len() as int),
                self@ == start.absorb(infos.subrange(0, taken as int)),
            decreases results@.len(),
        {
            let info = results.remove(0);
            proof {
                assert(infos.subrange(0, taken + 1).drop_last() =~= infos.subrange(0, taken as int));
                assert(infos.subrange(0, taken + 1).last() == info);
            }
            self.absorb_info(info);
            taken += 1;
            proof {
                assert(results@ =~= infos.subrange(taken as int, infos.len() as int));
            }
        }
        proof {
            assert(infos.subrange(0, infos.len() as int) =~= infos);
            lemma_absorb_wf(start, infos);
        }
        Ok(())
    }

    /// The install order of the entries received: each after its
    /// unconstrained dependencies among them, the root last. With no entry
    /// at all the root is not in the index, and the order is the root
    /// alone.
    pub fn finish(&self) -> (r: Result<Vec<String>, ResolveError>)
        requires
            self@.wf(),
        ensures
            self@.records.len() == 0 ==> (r matches Ok(o) && strings_view(o@) == seq![self@.root]),
            self@.records.len() > 0 ==> (r is Ok <==> has_install_order(self@.records)),
            self@.records.len() > 0 ==> (r matches Ok(o) ==> is_install_order(
                strings_view(o@),
                self@.records,
            )),
            r matches Ok(o) ==> (o@.len() > 0 && o@.last()@ == self@.root),
            r matches Err(e) ==> (e matches ResolveError::CircularDependency(n) && record_names(
                self@.records,
            ).contains(n@)),
    {
        if self.records.len() == 0 {
            let mut only: Vec<String> = Vec::new();
            only.push(self.root.clone());
            proof {
                assert(strings_view(only@) =~= seq![self@.root]);
            }
            return Ok(only);
        }
        let order = match install_order(&self.records) {
            Ok(o) => o,
            Err(e) => {
                return Err(e);
            },
        };
        proof {
            lemma_root_is_record(self@);
            lemma_root_is_last(self@.records, self@.root, strings_view(order@));
        }
        if order.len() == 0 || order[order.len() - 1] != self.root {
            return Err(ResolveError::InconsistentOrder);
        }
        Ok(order)
    }
}

} // verus!
