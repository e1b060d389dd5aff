use vstd::prelude::*;

use crate::aur::{opt_strings_view, strings_view, InfoResponse, PackageInfo, ResolveError, API_VERSION};
use crate::batch::{copy_range, is_oversized};
use crate::order::{has_install_order, is_install_order, record_names};
use crate::resolver::{
    contains_name, lemma_absorb_records, lemma_absorb_wf, lemma_order_lists_visited, Resolver,
    ResolverView,
};

verus! {

/// Every dependency listed by an entry of `index`.
pub open spec fn all_deps(index: Seq<PackageInfo>) -> Seq<Seq<char>> {
    index.map_values(|p: PackageInfo| p.spec_depends()).flatten()
}

/// Each received entry has the name and dependencies of an entry of `index`.
pub open spec fn drawn_from(records: Seq<PackageInfo>, index: Seq<PackageInfo>) -> bool {
    forall|k: int|
        0 <= k < records.len() ==> exists|j: int|
            0 <= j < index.len() && index[j].name@ == (#[trigger] records[k]).name@
                && index[j].spec_depends() == records[k].spec_depends()
}

/// Each name asked for that `index` has an entry for was received.
pub open spec fn answered(s: ResolverView, index: Seq<PackageInfo>) -> bool {
    forall|x: Seq<char>|
        s.visited.contains(x) && record_names(index).contains(x) ==> record_names(
            s.records,
        ).contains(x)
}

proof fn lemma_flatten_contains(ss: Seq<Seq<Seq<char>>>, j: int, x: Seq<char>)
    requires
        0 <= j < ss.len(),
        ss[j].contains(x),
    ensures
        ss.flatten().contains(x),
    decreases ss.len(),
{
    let rest = ss.drop_first();
    if j == 0 {
        let i = choose|i: int| 0 <= i < ss[0].len() && ss[0][i] == x;
        assert(ss.flatten() == ss.first() + rest.flatten());
        assert(ss.flatten()[i] == x);
    } else {
        assert(rest[j - 1] == ss[j]);
        lemma_flatten_contains(rest, j - 1, x);
        let i = choose|i: int| 0 <= i < rest.flatten().len() && rest.flatten()[i] == x;
        assert(ss.flatten() == ss.first() + rest.flatten());
        assert(ss.flatten()[ss.first().len() + i] == x);
    }
}

/// The names asked for are no more than the root and the dependencies
/// listed in `index`.
proof fn lemma_visited_bounded(s: ResolverView, index: Seq<PackageInfo>)
    requires
        s.wf(),
        drawn_from(s.records, index),
    ensures
        s.visited.len() + s.pending.len() <= 1 + all_deps(index).len(),
{
    let u = seq![s.root] + all_deps(index);
    let both = s.visited + s.pending;
    assert forall|x: Seq<char>| both.contains(x) implies u.contains(x) by {
        let i = choose|i: int| 0 <= i < both.len() && both[i] == x;
        if i < s.visited.len() {
            assert(s.visited[i] == x);
            assert(s.visited.contains(x));
        } else {
            assert(s.pending[i - s.visited.len()] == x);
            assert(s.pending.contains(x));
        }
        if x == s.root {
            assert(u[0] == x);
        } else {
            assert(s.found(x));
            let k = choose|k: int|
                0 <= k < s.records.len() && #[trigger] s.records[k].spec_depends().contains(x)
                    && !crate::aur::is_constrained(x);
            let j = choose|j: int|
                0 <= j < index.len() && index[j].name@ == (#[trigger] s.records[k]).name@
                    && index[j].spec_depends() == s.records[k].spec_depends();
            let ss = index.map_values(|p: PackageInfo| p.spec_depends());
            assert(ss[j] == index[j].spec_depends());
            lemma_flatten_contains(ss, j, x);
            let t = choose|t: int| 0 <= t < all_deps(index).len() && all_deps(index)[t] == x;
            assert(u[t + 1] == x);
        }
    }
    assert(both.no_duplicates()) by {
        assert forall|a: int, b: int| 0 <= a < both.len() && 0 <= b < both.len() && a != b implies both[a]
            != both[b] by {
            let sv = s.visited.len() as int;
            if a < sv && b >= sv {
                assert(both[a] == s.visited[a]);
                assert(both[b] == s.pending[b - sv]);
                assert(s.visited.contains(both[a]));
                assert(s.pending.contains(both[b]));
            } else if a >= sv && b < sv {
                assert(both[b] == s.visited[b]);
                assert(both[a] == s.pending[a - sv]);
                assert(s.visited.contains(both[b]));
                assert(s.pending.contains(both[a]));
            } else if a < sv && b < sv {
                assert(both[a] == s.visited[a]);
                assert(both[b] == s.visited[b]);
            } else {
                assert(both[a] == s.pending[a - sv]);
                assert(both[b] == s.pending[b - sv]);
            }
        }
    }
    both.unique_seq_to_set();
    u.lemma_cardinality_of_set();
    vstd::seq_lib::seq_to_set_is_finite(u);
    assert(both.to_set().subset_of(u.to_set()));
    vstd::set_lib::lemma_len_subset(both.to_set(), u.to_set());
}

fn copy_list(v: &Option<Vec<String>>) -> (r: Option<Vec<String>>)
    ensures
        opt_strings_view(r) == opt_strings_view(*v),
{
    match v {
        Some(d) => Some(copy_range(d, 0, d.len())),
        None => None,
    }
}

fn copy_info(p: &PackageInfo) -> (r: PackageInfo)
    ensures
        r.name@ == p.name@,
        r.spec_depends() == p.spec_depends(),
{
    PackageInfo {
        name: p.name.clone(),
        depends: copy_list(&p.depends),
        make_depends: copy_list(&p.make_depends),
    }
}

/// The entries of `index` named in `batch`, in index order.
fn answer(batch: &Vec<String>, index: &Vec<PackageInfo>) -> (r: Vec<PackageInfo>)
    ensures
        forall|e: int|
            0 <= e < r@.len() ==> exists|j: int|
                0 <= j < index@.len() && index@[j].name@ == (#[trigger] r@[e]).name@
                    && index@[j].spec_depends() == r@[e].spec_depends(),
        forall|j: int|
            0 <= j < index@.len() && strings_view(batch@).contains(#[trigger] index@[j].name@)
                ==> exists|e: int| 0 <= e < r@.len() && r@[e].name@ == index@[j].name@,
{
    let mut r: Vec<PackageInfo> = Vec::new();
    let mut j: usize = 0;
    while j < index.len()
        invariant
            j <= index@.len(),
            forall|e: int|
                0 <= e < r@.len() ==> exists|j: int|
                    0 <= j < index@.len() && index@[j].name@ == (#[trigger] r@[e]).name@
                        && index@[j].spec_depends() == r@[e].spec_depends(),
            forall|i: int|
                0 <= i < j && strings_view(batch@).contains(#[trigger] index@[i].name@) ==> exists|
                    e: int,
                | 0 <= e < r@.len() && r@[e].name@ == index@[i].name@,
        decreases index@.len() - j,
    {
        let ghost old_r = r@;
        if contains_name(batch, &index[j].name) {
            let c = copy_info(&index[j]);
            r.push(c);
            proof {
                assert(r@[r@.len() - 1] == c);
            }
        }
        proof {
            assert forall|e: int| 0 <= e < old_r.len() implies r@[e] == old_r[e] by {}
            assert forall|i: int|
                0 <= i < j + 1 && strings_view(batch@).contains(#[trigger] index@[i].name@) implies exists|
                e: int,
            | 0 <= e < r@.len() && r@[e].name@ == index@[i].name@ by {
                if i < j {
                    let e = choose|e: int| 0 <= e < old_r.len() && old_r[e].name@ == index@[i].name@;
                    assert(r@[e] == old_r[e]);
                } else {
                    assert(r@[r@.len() - 1].name@ == index@[i].name@);
                }
            }
        }
        j += 1;
    }
    r
}

proof fn lemma_step(
    s0: ResolverView,
    s1: ResolverView,
    batch: Seq<Seq<char>>,
    found: Seq<PackageInfo>,
    index: Seq<PackageInfo>,
)
    requires
        s0.wf(),
        drawn_from(s0.records, index),
        answered(s0, index),
        s1 == s0.take(batch.len() as int),
        batch == s0.pending.subrange(0, batch.len() as int),
        batch.len() <= s0.pending.len(),
        s1.wf(),
        forall|e: int|
            0 <= e < found.len() ==> exists|j: int|
                0 <= j < index.len() && index[j].name@ == (#[trigger] found[e]).name@
                    && index[j].spec_depends() == found[e].spec_depends(),
        forall|j: int|
            0 <= j < index.len() && batch.contains(#[trigger] index[j].name@) ==> exists|e: int|
                0 <= e < found.len() && found[e].name@ == index[j].name@,
    ensures
        s1.absorb(found).root == s0.root,
        s1.absorb(found).visited == s1.visited,
        s1.absorb(found).wf(),
        drawn_from(s1.absorb(found).records, index),
        answered(s1.absorb(found), index),
        s1.absorb(found).visited.len() + s1.absorb(found).pending.len() <= 1 + all_deps(index).len(),
{
    lemma_absorb_records(s1, found);
    lemma_absorb_wf(s1, found);
    let s2 = s1.absorb(found);
    assert forall|k: int| 0 <= k < s2.records.len() implies exists|j: int|
        0 <= j < index.len() && index[j].name@ == (#[trigger] s2.records[k]).name@
            && index[j].spec_depends() == s2.records[k].spec_depends() by {
        if k >= s1.records.len() {
            let i = choose|i: int| 0 <= i < found.len() && found[i] == s2.records[k];
            assert(found[i] == s2.records[k]);
        } else {
            assert(s2.records[k] == s0.records[k]);
            assert(exists|j: int|
                0 <= j < index.len() && index[j].name@ == (#[trigger] s0.records[k]).name@
                    && index[j].spec_depends() == s0.records[k].spec_depends());
        }
    }
    assert forall|x: Seq<char>|
        s2.visited.contains(x) && record_names(index).contains(x) implies record_names(
        s2.records,
    ).contains(x) by {
        let i = choose|i: int| 0 <= i < s2.visited.len() && s2.visited[i] == x;
        if i < s0.visited.len() {
            assert(s0.visited[i] == x);
            assert(record_names(s0.records).contains(x));
            let q = choose|q: int|
                0 <= q < record_names(s0.records).len() && record_names(s0.records)[q] == x;
            assert(s2.records[q] == s0.records[q]);
            assert(record_names(s2.records)[q] == x);
        } else {
            let bi = i - s0.visited.len();
            assert(batch[bi] == x);
            assert(batch.contains(x));
            let j = choose|j: int| 0 <= j < record_names(index).len() && record_names(index)[j] == x;
            assert(index[j].name@ == x);
            let e = choose|e: int| 0 <= e < found.len() && found[e].name@ == index[j].name@;
            assert(s1.visited.contains(found[e].name@));
        }
    }
    lemma_visited_bounded(s2, index);
}

/// When `index` has an entry for every name that a resolution against it
/// asked for, an install order of what it received lists exactly those
/// names, each once.
pub proof fn lemma_index_order_lists_visited(
    s: ResolverView,
    index: Seq<PackageInfo>,
    o: Seq<Seq<char>>,
)
    requires
        s.wf(),
        answered(s, index),
        forall|x: Seq<char>| s.visited.contains(x) ==> record_names(index).contains(x),
        is_install_order(o, s.records),
    ensures
        o.no_duplicates(),
        forall|x: Seq<char>| o.contains(x) <==> s.visited.contains(x),
{
    lemma_order_lists_visited(s, o);
}

/// Resolves `root` against `index`, which stands for the service: each
/// batch is answered with the entries of `index` named in it. Returns the
/// result of the resolution and its final state.
pub fn resolve_in_index(root: &str, index: &Vec<PackageInfo>) -> (r: (
    Result<Vec<String>, ResolveError>,
    Resolver,
))
    ensures
        r.1@.wf(),
        r.1@.root == root@,
        drawn_from(r.1@.records, index@),
        answered(r.1@, index@),
        r.0 matches Err(ResolveError::NameTooLong(n)) ==> (r.1@.pending.contains(n@) && is_oversized(
            n@,
        )),
        !(r.0 matches Err(ResolveError::NameTooLong(_))) ==> {
            &&& r.1@.pending.len() == 0
            &&& r.1@.records.len() == 0 ==> (r.0 matches Ok(o) && strings_view(o@) == seq![root@])
            &&& r.1@.records.len() > 0 ==> (r.0 is Ok <==> has_install_order(r.1@.records))
            &&& r.1@.records.len() > 0 ==> (r.0 matches Ok(o) ==> is_install_order(
                strings_view(o@),
                r.1@.records,
            ))
            &&& r.0 matches Ok(o) ==> (o@.len() > 0 && o@.last()@ == root@)
            &&& r.0 matches Err(e) ==> (e matches ResolveError::CircularDependency(n)
                && record_names(r.1@.records).contains(n@))
        },
{
    let mut resolver = Resolver::new(root);
    let ghost bound = 1 + all_deps(index@).len();
    proof {
        lemma_visited_bounded(resolver@, index@);
    }
    while !resolver.is_done()
        invariant
            resolver@.wf(),
            resolver@.root == root@,
            drawn_from(resolver@.records, index@),
            answered(resolver@, index@),
            bound == 1 + all_deps(index@).len(),
            resolver@.visited.len() + resolver@.pending.len() <= bound,
        decreases bound - resolver@.visited.len(),
    {
        let ghost s0 = resolver@;
        let batch = match resolver.next_batch() {
            Ok(b) => b,
            Err(e) => {
                proof {
                    assert(s0.pending.contains(s0.pending[0]));
                }
                return (Err(e), resolver);
            },
        };
        let ghost s1 = resolver@;
        let found = answer(&batch, index);
        let ghost fv = found@;
        let resp = InfoResponse {
            version: API_VERSION,
            type_field: "multiinfo".to_owned(),
            resultcount: 0,
            results: found,
        };
        proof {
            reveal_strlit("multiinfo");
            assert(resp.type_field@ =~= crate::aur::multiinfo_tag());
        }
        match resolver.handle_response(resp) {
            Ok(()) => {},
            Err(e) => {
                return (Err(e), resolver);
            },
        }
        proof {
            lemma_step(s0, s1, strings_view(batch@), fv, index@);
            assert(resolver@ == s1.absorb(fv));
            assert(s1.visited.len() == s0.visited.len() + batch@.len());
        }
    }
    let r = resolver.finish();
    (r, resolver)
}

} // verus!
