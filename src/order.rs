use vstd::prelude::*;

use crate::aur::{is_constrained, is_constrained_dep, strings_view, PackageInfo, ResolveError};

verus! {

/// The names of the records, in their order.
pub open spec fn record_names(recs: Seq<PackageInfo>) -> Seq<Seq<char>> {
    recs.map_values(|r: PackageInfo| r.name@)
}

/// `p` names a record with the unconstrained dependency `d`, and `d` names
/// a record too: `d` has to be installed before `p`.
pub open spec fn depends_on(recs: Seq<PackageInfo>, p: Seq<char>, d: Seq<char>) -> bool {
    &&& !is_constrained(d)
    &&& record_names(recs).contains(d)
    &&& exists|k: int|
        0 <= k < recs.len() && #[trigger] recs[k].name@ == p && recs[k].spec_depends().contains(d)
}

/// `o` lists every record name once, each after all of its dependencies.
pub open spec fn is_install_order(o: Seq<Seq<char>>, recs: Seq<PackageInfo>) -> bool {
    &&& o.no_duplicates()
    &&& forall|x: Seq<char>| o.contains(x) <==> record_names(recs).contains(x)
    &&& forall|j: int, d: Seq<char>|
        0 <= j < o.len() && #[trigger] depends_on(recs, o[j], d) ==> exists|i: int|
            0 <= i < j && o[i] == d
}

/// Some install order of the records exists: their dependencies have no cycle.
pub open spec fn has_install_order(recs: Seq<PackageInfo>) -> bool {
    exists|o: Seq<Seq<char>>| is_install_order(o, recs)
}

/// Each element of `c` depends on the next one.
pub open spec fn is_chain(recs: Seq<PackageInfo>, c: Seq<Seq<char>>) -> bool {
    forall|i: int| 0 <= i < c.len() - 1 ==> #[trigger] depends_on(recs, c[i], c[i + 1])
}

/// The names of the records at the given indices.
pub open spec fn names_at(recs: Seq<PackageInfo>, idx: Seq<usize>) -> Seq<Seq<char>> {
    idx.map_values(|k: usize| recs[k as int].name@)
}

/// Record `k` has an unconstrained dependency among the records at `idx`.
pub open spec fn is_blocked(recs: Seq<PackageInfo>, idx: Seq<usize>, k: int) -> bool {
    exists|d: Seq<char>|
        #[trigger] recs[k].spec_depends().contains(d) && !is_constrained(d) && names_at(
            recs,
            idx,
        ).contains(d)
}

/// Every index of `idx` is below `n`.
pub open spec fn indices_in(idx: Seq<usize>, n: int) -> bool {
    forall|t: int| 0 <= t < idx.len() ==> idx[t] < n
}

fn names_among(records: &Vec<PackageInfo>, idx: &Vec<usize>, name: &String) -> (r: bool)
    requires
        indices_in(idx@, records@.len() as int),
    ensures
        r == names_at(records@, idx@).contains(name@),
{
    let mut t: usize = 0;
    while t < idx.len()
        invariant
            indices_in(idx@, records@.len() as int),
            t <= idx@.len(),
            forall|u: int| 0 <= u < t ==> records@[idx@[u] as int].name@ != name@,
        decreases idx@.len() - t,
    {
        if records[idx[t]].name == *name {
            proof {
                assert(names_at(records@, idx@)[t as int] == name@);
            }
            return true;
        }
        t += 1;
    }
    proof {
        assert forall|u: int| 0 <= u < idx@.len() implies names_at(records@, idx@)[u] != name@ by {}
    }
    false
}

fn blocked(records: &Vec<PackageInfo>, idx: &Vec<usize>, k: usize) -> (r: bool)
    requires
        k < records@.len(),
        indices_in(idx@, records@.len() as int),
    ensures
        r == is_blocked(records@, idx@, k as int),
{
    let deps = records[k].get_depends();
    let ghost dv = strings_view(deps@);
    let mut i: usize = 0;
    while i < deps.len()
        invariant
            k < records@.len(),
            indices_in(idx@, records@.len() as int),
            dv == strings_view(deps@),
            dv == records@[k as int].spec_depends(),
            i <= deps@.len(),
            forall|u: int|
                0 <= u < i ==> is_constrained(dv[u]) || !names_at(records@, idx@).contains(dv[u]),
        decreases deps@.len() - i,
    {
        if !is_constrained_dep(&deps[i]) && names_among(records, idx, &deps[i]) {
            proof {
                assert(dv[i as int] == deps@[i as int]@);
                assert(records@[k as int].spec_depends().contains(dv[i as int]));
            }
            return true;
        }
        proof {
            assert(dv[i as int] == deps@[i as int]@);
        }
        i += 1;
    }
    false
}

/// Some position of `o` at or after `k` holds an element of `s`, and none
/// before `k` does: returns the first such position.
proof fn lemma_first_in(o: Seq<Seq<char>>, s: Seq<Seq<char>>, k: int) -> (p: int)
    requires
        0 <= k <= o.len(),
        exists|j: int| k <= j < o.len() && s.contains(#[trigger] o[j]),
        forall|j: int| 0 <= j < k ==> !s.contains(#[trigger] o[j]),
    ensures
        k <= p < o.len(),
        s.contains(o[p]),
        forall|j: int| 0 <= j < p ==> !s.contains(#[trigger] o[j]),
    decreases o.len() - k,
{
    if s.contains(o[k]) {
        k
    } else {
        lemma_first_in(o, s, k + 1)
    }
}

/// When every record left is held back by another one left, no install
/// order exists.
proof fn lemma_stuck_has_no_order(recs: Seq<PackageInfo>, idx: Seq<usize>)
    requires
        idx.len() > 0,
        indices_in(idx, recs.len() as int),
        forall|t: int| 0 <= t < idx.len() ==> is_blocked(recs, idx, #[trigger] idx[t] as int),
    ensures
        !has_install_order(recs),
{
    if has_install_order(recs) {
        let o = choose|o: Seq<Seq<char>>| is_install_order(o, recs);
        let s = names_at(recs, idx);
        let k0 = idx[0] as int;
        assert(record_names(recs)[k0] == s[0]);
        assert(record_names(recs).contains(s[0]));
        assert(o.contains(s[0]));
        let j0 = choose|j: int| 0 <= j < o.len() && o[j] == s[0];
        assert(s.contains(o[j0]));
        let p = lemma_first_in(o, s, 0);
        let t = choose|t: int| 0 <= t < s.len() && s[t] == o[p];
        let k = idx[t] as int;
        assert(is_blocked(recs, idx, k));
        let d = choose|d: Seq<char>|
            #[trigger] recs[k].spec_depends().contains(d) && !is_constrained(d) && s.contains(d);
        let td = choose|td: int| 0 <= td < s.len() && s[td] == d;
        assert(record_names(recs)[idx[td] as int] == d);
        assert(record_names(recs).contains(d));
        assert(recs[k].name@ == o[p]);
        assert(depends_on(recs, o[p], d));
        let i = choose|i: int| 0 <= i < p && o[i] == d;
        assert(!s.contains(o[i]));
    }
}

/// In an install order, the last element of a chain comes before its first.
proof fn lemma_chain_before(o: Seq<Seq<char>>, recs: Seq<PackageInfo>, c: Seq<Seq<char>>, a: int)
    requires
        is_install_order(o, recs),
        c.len() >= 2,
        is_chain(recs, c),
        0 <= a < o.len(),
        o[a] == c[0],
    ensures
        exists|b: int| 0 <= b < a && o[b] == c.last(),
    decreases c.len(),
{
    let z: int = 0;
    assert(depends_on(recs, c[z], c[z + 1]));
    assert(depends_on(recs, o[a], c[1]));
    let i = choose|i: int| 0 <= i < a && o[i] == c[1];
    if c.len() > 2 {
        let rest = c.drop_first();
        assert forall|k: int| 0 <= k < rest.len() - 1 implies #[trigger] depends_on(
            recs,
            rest[k],
            rest[k + 1],
        ) by {
            let k1 = k + 1;
            assert(depends_on(recs, c[k1], c[k1 + 1]));
        }
        lemma_chain_before(o, recs, rest, i);
        let b = choose|b: int| 0 <= b < i && o[b] == rest.last();
        assert(o[b] == c.last());
    }
}

/// A package that depends on itself, directly or through a chain of records,
/// leaves no install order.
pub proof fn lemma_cycle_has_no_order(recs: Seq<PackageInfo>, c: Seq<Seq<char>>)
    requires
        c.len() >= 2,
        is_chain(recs, c),
        c.last() == c[0],
    ensures
        !has_install_order(recs),
{
    if has_install_order(recs) {
        let o = choose|o: Seq<Seq<char>>| is_install_order(o, recs);
        let z: int = 0;
        assert(depends_on(recs, c[z], c[z + 1]));
        let k = choose|k: int|
            0 <= k < recs.len() && #[trigger] recs[k].name@ == c[0] && recs[k].spec_depends().contains(c[1]);
        assert(record_names(recs)[k] == c[0]);
        assert(o.contains(c[0]));
        let a = choose|a: int| 0 <= a < o.len() && o[a] == c[0];
        lemma_chain_before(o, recs, c, a);
    }
}

/// `x` is reached from `root` by following dependencies between records.
pub open spec fn reaches(recs: Seq<PackageInfo>, root: Seq<char>, x: Seq<char>) -> bool {
    exists|c: Seq<Seq<char>>|
        c.len() >= 1 && c[0] == root && #[trigger] c.last() == x && is_chain(recs, c)
}

/// When every record is reached from `root` and `root` names a record,
/// every install order ends with `root`.
pub proof fn lemma_root_is_last(recs: Seq<PackageInfo>, root: Seq<char>, o: Seq<Seq<char>>)
    requires
        is_install_order(o, recs),
        record_names(recs).contains(root),
        forall|x: Seq<char>| record_names(recs).contains(x) ==> reaches(recs, root, x),
    ensures
        o.len() > 0,
        o.last() == root,
{
    assert(o.contains(root));
    let a = choose|a: int| 0 <= a < o.len() && o[a] == root;
    let x = o.last();
    if x != root {
        assert(o.contains(x));
        assert(reaches(recs, root, x));
        let c = choose|c: Seq<Seq<char>>|
            c.len() >= 1 && c[0] == root && #[trigger] c.last() == x && is_chain(recs, c);
        lemma_chain_before(o, recs, c, a);
        let b = choose|b: int| 0 <= b < a && o[b] == x;
        assert(o[o.len() - 1] == x);
    }
}

/// Orders the records so that each comes after its unconstrained
/// dependencies among them, taking at each step the first record that no
/// record left holds back.
pub fn install_order(records: &Vec<PackageInfo>) -> (r: Result<Vec<String>, ResolveError>)
    requires
        record_names(records@).no_duplicates(),
    ensures
        r is Ok <==> has_install_order(records@),
        r matches Ok(o) ==> is_install_order(strings_view(o@), records@),
        r matches Err(e) ==> (e matches ResolveError::CircularDependency(n) && record_names(
            records@,
        ).contains(n@)),
{
    let n = records.len();
    let ghost recs = records@;
    let ghost names = record_names(recs);
    let mut remaining: Vec<usize> = Vec::new();
    let mut i: usize = 0;
    while i < n
        invariant
            n == recs.len(),
            i <= n,
            remaining@ =~= Seq::new(i as nat, |t: int| t as usize),
        decreases n - i,
    {
        remaining.push(i);
        i += 1;
    }
    let mut order: Vec<String> = Vec::new();
    proof {
        assert forall|k: int| 0 <= k < n implies (remaining@.contains(k as usize)
            <==> !strings_view(order@).contains(#[trigger] recs[k].name@)) by {
            assert(remaining@[k] == k as usize);
        }
    }
    while remaining.len() > 0
        invariant
            records@ == recs,
            names == record_names(recs),
            n == recs.len(),
            names.no_duplicates(),
            indices_in(remaining@, n as int),
            remaining@.no_duplicates(),
            forall|k: int|
                0 <= k < n ==> (remaining@.contains(k as usize) <==> !strings_view(
                    order@,
                ).contains(#[trigger] recs[k].name@)),
            forall|x: Seq<char>| strings_view(order@).contains(x) ==> names.contains(x),
            strings_view(order@).no_duplicates(),
            forall|j: int, d: Seq<char>|
                0 <= j < order@.len() && #[trigger] depends_on(recs, strings_view(order@)[j], d)
                    ==> exists|i: int| 0 <= i < j && strings_view(order@)[i] == d,
        decreases remaining@.len(),
    {
        let mut t: usize = 0;
        while t < remaining.len() && blocked(records, &remaining, remaining[t])
            invariant
                records@ == recs,
                indices_in(remaining@, n as int),
                n == recs.len(),
                t <= remaining@.len(),
                forall|u: int|
                    0 <= u < t ==> is_blocked(recs, remaining@, #[trigger] remaining@[u] as int),
            decreases remaining@.len() - t,
        {
            t += 1;
        }
        if t == remaining.len() {
            proof {
                lemma_stuck_has_no_order(recs, remaining@);
                assert(names[remaining@[0] as int] == recs[remaining@[0] as int].name@);
            }
            return Err(ResolveError::CircularDependency(records[remaining[0]].name.clone()));
        }
        let ghost old_rem = remaining@;
        let ghost old_order = strings_view(order@);
        let k = remaining.swap_remove(t);
        let name = records[k].name.clone();
        order.push(name);
        proof {
            let ov = strings_view(order@);
            assert(ov =~= old_order.push(recs[k as int].name@));
            assert(names[k as int] == recs[k as int].name@);
            assert forall|kk: int| 0 <= kk < n implies (remaining@.contains(kk as usize)
                <==> !ov.contains(#[trigger] recs[kk].name@)) by {
                if remaining@.contains(kk as usize) {
                    let w = choose|w: int| 0 <= w < remaining@.len() && remaining@[w] == kk as usize;
                    if w == t {
                        assert(old_rem[old_rem.len() - 1] == kk as usize);
                    } else {
                        assert(old_rem[w] == kk as usize);
                    }
                    assert(kk != k);
                    assert(names[kk] != names[k as int]);
                    if ov.contains(recs[kk].name@) {
                        let z = choose|z: int| 0 <= z < ov.len() && ov[z] == recs[kk].name@;
                        if z < old_order.len() {
                            assert(old_order.contains(recs[kk].name@));
                        }
                    }
                } else {
                    if old_rem.contains(kk as usize) {
                        let w = choose|w: int| 0 <= w < old_rem.len() && old_rem[w] == kk as usize;
                        if w != t {
                            if w == old_rem.len() - 1 {
                                assert(remaining@[t as int] == kk as usize);
                            } else {
                                assert(remaining@[w] == kk as usize);
                            }
                        }
                        assert(kk == k);
                        assert(ov[old_order.len() as int] == recs[kk].name@);
                    } else {
                        assert(old_order.contains(recs[kk].name@));
                        let z = choose|z: int|
                            0 <= z < old_order.len() && old_order[z] == recs[kk].name@;
                        assert(ov[z] == recs[kk].name@);
                    }
                }
            }
            assert(indices_in(remaining@, n as int)) by {
                assert forall|u: int| 0 <= u < remaining@.len() implies remaining@[u] < n by {
                    if u == t {
                        assert(old_rem[old_rem.len() - 1] == remaining@[u]);
                    } else {
                        assert(old_rem[u] == remaining@[u]);
                    }
                }
            }
            assert(remaining@.no_duplicates()) by {
                assert forall|a: int, b: int|
                    0 <= a < remaining@.len() && 0 <= b < remaining@.len() && a != b implies
                    remaining@[a] != remaining@[b] by {
                    let a0 = if a == t { old_rem.len() - 1 } else { a };
                    let b0 = if b == t { old_rem.len() - 1 } else { b };
                    assert(old_rem[a0] == remaining@[a]);
                    assert(old_rem[b0] == remaining@[b]);
                }
            }
            assert forall|x: Seq<char>| ov.contains(x) implies names.contains(x) by {
                let z = choose|z: int| 0 <= z < ov.len() && ov[z] == x;
                if z < old_order.len() {
                    assert(old_order.contains(x));
                }
            }
            assert(ov.no_duplicates()) by {
                assert(!old_order.contains(recs[k as int].name@)) by {
                    assert(old_rem[t as int] == k);
                }
            }
            assert forall|j: int, d: Seq<char>|
                0 <= j < ov.len() && #[trigger] depends_on(recs, ov[j], d) implies exists|i: int|
                0 <= i < j && ov[i] == d by {
                if j < old_order.len() {
                    assert(ov[j] == old_order[j]);
                    assert(depends_on(recs, old_order[j], d));
                    let i = choose|i: int| 0 <= i < j && old_order[i] == d;
                    assert(ov[i] == d);
                } else {
                    let kk = choose|kk: int|
                        0 <= kk < recs.len() && #[trigger] recs[kk].name@ == ov[j]
                            && recs[kk].spec_depends().contains(d);
                    assert(names[kk] == names[k as int]);
                    assert(kk == k);
                    assert(!names_at(recs, old_rem).contains(d));
                    let kd = choose|kd: int| 0 <= kd < names.len() && names[kd] == d;
                    assert(recs[kd].name@ == d);
                    if old_rem.contains(kd as usize) {
                        let w = choose|w: int| 0 <= w < old_rem.len() && old_rem[w] == kd as usize;
                        assert(names_at(recs, old_rem)[w] == d);
                    }
                    assert(old_order.contains(d));
                    let i = choose|i: int| 0 <= i < old_order.len() && old_order[i] == d;
                    assert(ov[i] == d);
                }
            }
        }
    }
    proof {
        let ov = strings_view(order@);
        assert forall|x: Seq<char>| names.contains(x) implies ov.contains(x) by {
            let kx = choose|kx: int| 0 <= kx < names.len() && names[kx] == x;
            assert(recs[kx].name@ == x);
            assert(!remaining@.contains(kx as usize));
        }
        assert(is_install_order(ov, recs));
    }
    Ok(order)
}

} // verus!
