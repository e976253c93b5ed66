use vstd::prelude::*;
use vstd::multiset::Multiset;

use crate::component::{deps_of, ids, unique_ids, Component};
use crate::errors::{CustomError, UnplacedNode};

verus! {

/// The `k`-th dependency of node `i` names an earlier node of `s`.
pub open spec fn dep_sat(s: Seq<Component>, i: int, k: int) -> bool {
    exists|j: int| 0 <= j < i && s[j].dir@ == deps_of(s[i])[k]
}

/// Dependency-first order: every dependency id of a node names an earlier
/// node of the sequence.
pub open spec fn dep_first(s: Seq<Component>) -> bool {
    forall|i: int, k: int|
        #![trigger dep_sat(s, i, k)]
        0 <= i < s.len() && 0 <= k < deps_of(s[i]).len() ==> dep_sat(s, i, k)
}

/// A registry can be sorted: some permutation of it is dependency-first.
pub open spec fn sortable(s: Seq<Component>) -> bool {
    exists|t: Seq<Component>|
        #[trigger] t.to_multiset() == s.to_multiset() && dep_first(t)
}

/// The dependency ids of `ds` that are not among `placed_ids`.
pub open spec fn unsat_deps(ds: Seq<Seq<char>>, placed_ids: Seq<Seq<char>>) -> Seq<Seq<char>> {
    ds.filter(|d: Seq<char>| !placed_ids.contains(d))
}

/// The node still has a dependency outside `pids`.
pub open spec fn node_unsat(c: Component, pids: Seq<Seq<char>>) -> bool {
    exists|q: int| 0 <= q < deps_of(c).len() && !pids.contains(deps_of(c)[q])
}

/// A report entry describes the component `c`, given the placed ids.
pub open spec fn report_entry_matches(
    u: UnplacedNode,
    c: Component,
    placed_ids: Seq<Seq<char>>,
) -> bool {
    &&& u.dir@ == c.dir@
    &&& u.unsatisfied.deep_view() == unsat_deps(deps_of(c), placed_ids)
    &&& u.unsatisfied@.len() > 0
}

/// The entry describes some unplaced component of the registry.
pub open spec fn entry_described(
    inp: Seq<Component>,
    placed: Seq<Component>,
    u: UnplacedNode,
) -> bool {
    exists|i: int|
        0 <= i < inp.len() && !ids(placed).contains(inp[i].dir@) && report_entry_matches(
            u,
            inp[i],
            ids(placed),
        )
}

/// Some report entry carries the dir `d`.
pub open spec fn dir_listed(rep: Seq<UnplacedNode>, d: Seq<char>) -> bool {
    exists|k: int| 0 <= k < rep.len() && rep[k].dir@ == d
}

/// The cycle report is exact with respect to some dependency-first placeable
/// part `placed` of the registry: it lists precisely the components left
/// over, each with its unsatisfied dependency ids, and each listed component
/// indeed has one.
pub open spec fn cycle_report_for(
    inp: Seq<Component>,
    placed: Seq<Component>,
    rep: Seq<UnplacedNode>,
) -> bool {
    &&& dep_first(placed)
    &&& placed.to_multiset().subset_of(inp.to_multiset())
    &&& rep.len() > 0
    &&& forall|k: int|
        #![trigger rep[k]]
        0 <= k < rep.len() ==> entry_described(inp, placed, rep[k])
    &&& forall|i: int|
        #![trigger inp[i]]
        0 <= i < inp.len() && !ids(placed).contains(inp[i].dir@) ==> dir_listed(rep, inp[i].dir@)
}

/// What a `CycleError` payload promises: exactness against some placeable
/// part of the registry.
pub open spec fn valid_cycle_report(inp: Seq<Component>, rep: Seq<UnplacedNode>) -> bool {
    exists|placed: Seq<Component>| #[trigger] cycle_report_for(inp, placed, rep)
}

/// Whether `v` holds the id `x`.
pub fn contains_id(v: &Vec<String>, x: &String) -> (r: bool)
    ensures
        r == v.deep_view().contains(x@),
{
    let mut i: usize = 0;
    while i < v.len()
        invariant
            i <= v.len(),
            forall|j: int| 0 <= j < i ==> v.deep_view()[j] != x@,
        decreases v.len() - i,
    {
        if v[i].eq(x) {
            assert(v.deep_view()[i as int] == x@);
            return true;
        }
        i = i + 1;
    }
    false
}

/// Whether every id of `deps` is among `placed`.
fn deps_subset(deps: &Vec<String>, placed: &Vec<String>) -> (r: bool)
    ensures
        r == forall|k: int|
            0 <= k < deps.deep_view().len() ==> placed.deep_view().contains(
                #[trigger] deps.deep_view()[k],
            ),
{
    let mut k: usize = 0;
    while k < deps.len()
        invariant
            k <= deps.len(),
            forall|j: int| 0 <= j < k ==> placed.deep_view().contains(#[trigger] deps.deep_view()[j]),
        decreases deps.len() - k,
    {
        if !contains_id(placed, &deps[k]) {
            assert(!placed.deep_view().contains(deps.deep_view()[k as int]));
            return false;
        }
        k = k + 1;
    }
    true
}

/// Under unique ids, splitting the registry into two parts keeps their dirs
/// apart: no dir occurs on both sides.
proof fn lemma_partition_distinct(inp: Seq<Component>, left: Seq<Component>, right: Seq<Component>)
    requires
        unique_ids(inp),
        left.to_multiset().add(right.to_multiset()) == inp.to_multiset(),
    ensures
        forall|i: int, k: int|
            0 <= i < left.len() && 0 <= k < right.len() ==> #[trigger] left[i].dir@
                != #[trigger] right[k].dir@,
        forall|i: int| 0 <= i < left.len() ==> inp.contains(#[trigger] left[i]),
        forall|k: int| 0 <= k < right.len() ==> inp.contains(#[trigger] right[k]),
{
    broadcast use vstd::seq_lib::group_to_multiset_ensures;
    broadcast use vstd::multiset::group_multiset_axioms;

    assert(inp.no_duplicates()) by {
        assert forall|i: int, j: int| 0 <= i < inp.len() && 0 <= j < inp.len() && i != j implies
            inp[i] != inp[j] by {
            assert(inp[i].dir@ != inp[j].dir@);
        }
    }
    inp.lemma_multiset_has_no_duplicates();
    assert forall|i: int| 0 <= i < left.len() implies inp.contains(#[trigger] left[i]) by {
        assert(left.to_multiset().count(left[i]) > 0);
        assert(inp.to_multiset().count(left[i]) > 0);
    }
    assert forall|k: int| 0 <= k < right.len() implies inp.contains(#[trigger] right[k]) by {
        assert(right.to_multiset().count(right[k]) > 0);
        assert(inp.to_multiset().count(right[k]) > 0);
    }
    assert forall|i: int, k: int|
        0 <= i < left.len() && 0 <= k < right.len() implies #[trigger] left[i].dir@
        != #[trigger] right[k].dir@ by {
        if left[i].dir@ == right[k].dir@ {
            // both stand in the registry; unique ids make them the same value
            let ii = choose|ii: int| 0 <= ii < inp.len() && inp[ii] == left[i];
            let kk = choose|kk: int| 0 <= kk < inp.len() && inp[kk] == right[k];
            assert(inp[ii].dir@ == inp[kk].dir@);
            assert(ii == kk);
            assert(left[i] == right[k]);
            assert(left.to_multiset().count(left[i]) > 0);
            assert(right.to_multiset().count(left[i]) > 0);
            assert(inp.to_multiset().count(left[i]) >= 2);
        }
    }
}

/// The smallest index at or after `i` whose dir is not among `pids`.
proof fn first_unplaced_from(t: Seq<Component>, pids: Seq<Seq<char>>, i: int) -> (k: int)
    requires
        0 <= i <= t.len(),
        forall|j: int| 0 <= j < i ==> pids.contains(#[trigger] t[j].dir@),
        exists|j: int| i <= j < t.len() && !pids.contains(#[trigger] t[j].dir@),
    ensures
        i <= k < t.len(),
        !pids.contains(t[k].dir@),
        forall|j: int| 0 <= j < k ==> pids.contains(#[trigger] t[j].dir@),
    decreases t.len() - i,
{
    if !pids.contains(t[i].dir@) {
        i
    } else {
        let j0 = choose|j: int| i <= j < t.len() && !pids.contains(#[trigger] t[j].dir@);
        assert(j0 != i);
        first_unplaced_from(t, pids, i + 1)
    }
}

/// Appending a node whose dependencies all lie among the ids of `s` keeps
/// the order dependency-first.
proof fn lemma_dep_first_push(s: Seq<Component>, v: Component)
    requires
        dep_first(s),
        forall|k: int|
            #![trigger deps_of(v)[k]]
            0 <= k < deps_of(v).len() ==> ids(s).contains(deps_of(v)[k]),
    ensures
        dep_first(s.push(v)),
{
    let t = s.push(v);
    assert forall|i: int, k: int|
        #![trigger dep_sat(t, i, k)]
        0 <= i < t.len() && 0 <= k < deps_of(t[i]).len() implies dep_sat(t, i, k) by {
        if i < s.len() {
            assert(t[i] == s[i]);
            assert(0 <= k < deps_of(s[i]).len());
            assert(dep_sat(s, i, k));
            let j = choose|j: int| 0 <= j < i && s[j].dir@ == deps_of(s[i])[k];
            assert(t[j].dir@ == deps_of(t[i])[k]);
        } else {
            assert(t[i] == v);
            assert(ids(s).contains(deps_of(v)[k]));
            let j = choose|j: int| 0 <= j < ids(s).len() && ids(s)[j] == deps_of(v)[k];
            assert(t[j].dir@ == deps_of(t[i])[k]);
        }
    }
}

/// If the sort cannot make progress — every remaining node still has an
/// unsatisfied dependency — then no permutation of the registry is
/// dependency-first.
proof fn lemma_no_progress_unsortable(
    inp: Seq<Component>,
    res: Seq<Component>,
    non: Seq<Component>,
)
    requires
        unique_ids(inp),
        res.to_multiset().add(non.to_multiset()) == inp.to_multiset(),
        non.len() > 0,
        forall|k: int|
            #![trigger non[k]]
            0 <= k < non.len() ==> node_unsat(non[k], ids(res)),
    ensures
        !sortable(inp),
{
    broadcast use vstd::seq_lib::group_to_multiset_ensures;
    broadcast use vstd::multiset::group_multiset_axioms;

    lemma_partition_distinct(inp, res, non);
    if sortable(inp) {
        let t = choose|t: Seq<Component>|
            #[trigger] t.to_multiset() == inp.to_multiset() && dep_first(t);
        // some index of t carries a dir outside the placed ids
        let c0 = non[0];
        assert(non.to_multiset().count(c0) > 0);
        assert(t.to_multiset().count(c0) > 0);
        assert(t.contains(c0));
        let i0 = choose|i0: int| 0 <= i0 < t.len() && t[i0] == c0;
        assert(!ids(res).contains(t[i0].dir@)) by {
            if ids(res).contains(c0.dir@) {
                let ri = choose|ri: int| 0 <= ri < res.len() && ids(res)[ri] == c0.dir@;
                assert(res[ri].dir@ == non[0].dir@);
                assert(false);
            }
        }
        let k = first_unplaced_from(t, ids(res), 0);
        // t[k] belongs to the remainder
        assert(t.to_multiset().count(t[k]) > 0);
        assert(inp.to_multiset().count(t[k]) > 0);
        assert(res.to_multiset().count(t[k]) + non.to_multiset().count(t[k]) > 0);
        if res.to_multiset().count(t[k]) > 0 {
            assert(res.contains(t[k]));
            let ri = choose|ri: int| 0 <= ri < res.len() && res[ri] == t[k];
            assert(ids(res)[ri] == t[k].dir@);
            assert(ids(res).contains(t[k].dir@));
            assert(false);
        }
        assert(non.to_multiset().count(t[k]) > 0);
        assert(non.contains(t[k]));
        let nk = choose|nk: int| 0 <= nk < non.len() && non[nk] == t[k];
        assert(node_unsat(non[nk], ids(res)));
        let q = choose|q: int|
            0 <= q < deps_of(non[nk]).len() && !ids(res).contains(deps_of(non[nk])[q]);
        let d = deps_of(t[k])[q];
        assert(!ids(res).contains(d));
        // dependency-first gives an earlier node named d, which is placed
        assert(dep_sat(t, k, q));
        let j = choose|j: int| 0 <= j < k && t[j].dir@ == deps_of(t[k])[q];
        assert(ids(res).contains(t[j].dir@));
        assert(false);
    }
}

/// Topologically sorts the registry, dependencies first. On success the
/// result is a permutation of the input in which every dependency precedes
/// each node that requires it; it succeeds exactly when such a permutation
/// exists. Otherwise every still-unplaced node is reported together with its
/// unsatisfied dependency ids.
#[verifier::loop_isolation(false)]
pub fn toposort(inp: Vec<Component>) -> (r: Result<Vec<Component>, CustomError>)
    requires
        unique_ids(inp@),
    ensures
        r is Ok ==> r->Ok_0@.to_multiset() == inp@.to_multiset() && dep_first(r->Ok_0@),
        r is Ok <==> sortable(inp@),
        r is Err ==> r->Err_0 is CycleError && valid_cycle_report(inp@, r->Err_0->CycleError_0@),
{
    broadcast use vstd::seq_lib::group_to_multiset_ensures;
    broadcast use vstd::multiset::group_multiset_axioms;

    let ghost inp0 = inp@;
    let mut rem = inp;
    let mut res: Vec<Component> = Vec::new();
    let mut placed: Vec<String> = Vec::new();
    proof {
        assert(res@.to_multiset().add(rem@.to_multiset()) =~= inp0.to_multiset());
        assert(ids(res@) =~= placed.deep_view());
    }
    loop
        invariant
            ids(res@) == placed.deep_view(),
            dep_first(res@),
            res@.to_multiset().add(rem@.to_multiset()) == inp0.to_multiset(),
        decreases rem@.len(),
    {
        if rem.len() == 0 {
            proof {
                assert(rem@.to_multiset() =~= Multiset::<Component>::empty());
                assert(res@.to_multiset() =~= inp0.to_multiset());
                assert(sortable(inp0));
            }
            return Ok(res);
        }
        let ghost res0 = res@;
        let ghost rem0 = rem@;
        let mut non: Vec<Component> = Vec::new();
        let mut progressed = false;
        while rem.len() > 0
            invariant
                ids(res@) == placed.deep_view(),
                dep_first(res@),
                res@.to_multiset().add(non@.to_multiset()).add(rem@.to_multiset())
                    == inp0.to_multiset(),
                res@.len() + non@.len() + rem@.len() == res0.len() + rem0.len(),
                res@.len() >= res0.len(),
                !progressed ==> res@ == res0,
                progressed ==> res@.len() > res0.len(),
                !progressed ==> forall|k: int|
                    #![trigger non@[k]]
                    0 <= k < non@.len() ==> node_unsat(non@[k], placed.deep_view()),
            decreases rem@.len(),
        {
            let ghost remp = rem@;
            let v = rem.remove(0);
            proof {
                assert(remp[0] == v);
                assert(remp.to_multiset().count(v) > 0);
                assert(rem@.to_multiset() =~= remp.to_multiset().remove(v));
            }
            if deps_subset(&v.dependencies, &placed) {
                let ghost resp = res@;
                let ghost placedp = placed.deep_view();
                placed.push(v.dir.clone());
                res.push(v);
                progressed = true;
                proof {
                    assert(res@ =~= resp.push(v));
                    assert(placed.deep_view() =~= placedp.push(v.dir@));
                    assert(ids(res@) =~= placed.deep_view());
                    assert forall|k: int|
                        #![trigger deps_of(v)[k]]
                        0 <= k < deps_of(v).len() implies ids(resp).contains(deps_of(v)[k]) by {
                        assert(v.dependencies.deep_view()[k] == deps_of(v)[k]);
                        assert(placedp.contains(v.dependencies.deep_view()[k]));
                    }
                    lemma_dep_first_push(resp, v);
                    assert(res@.to_multiset() =~= resp.to_multiset().insert(v));
                    assert(res@.to_multiset().add(non@.to_multiset()).add(rem@.to_multiset())
                        =~= inp0.to_multiset());
                }
            } else {
                let ghost nonp = non@;
                let ghost unplaced = v;
                non.push(v);
                proof {
                    assert(non@ =~= nonp.push(unplaced));
                    assert(non@.to_multiset() =~= nonp.to_multiset().insert(unplaced));
                    assert(res@.to_multiset().add(non@.to_multiset()).add(rem@.to_multiset())
                        =~= inp0.to_multiset());
                    if !progressed {
                        assert forall|k: int|
                            #![trigger non@[k]]
                            0 <= k < non@.len() implies node_unsat(non@[k], placed.deep_view())
                            by {
                            if k < nonp.len() {
                                assert(non@[k] == nonp[k]);
                                assert(node_unsat(nonp[k], placed.deep_view()));
                            } else {
                                assert(non@[k] == unplaced);
                                let q0 = choose|q0: int|
                                    !(0 <= q0 < unplaced.dependencies.deep_view().len()
                                        ==> placed.deep_view().contains(
                                        unplaced.dependencies.deep_view()[q0],
                                    ));
                                assert(0 <= q0 < deps_of(unplaced).len()
                                    && !placed.deep_view().contains(deps_of(unplaced)[q0]));
                                assert(node_unsat(unplaced, placed.deep_view()));
                            }
                        }
                    }
                }
            }
        }
        if !progressed {
            let ghost pset = placed.deep_view();
            let ghost nonv = non@;
            proof {
                assert(rem@.to_multiset() =~= Multiset::<Component>::empty());
                assert(res@.to_multiset().add(nonv.to_multiset()) =~= inp0.to_multiset());
                assert(nonv.len() > 0);
            }
            let mut rep: Vec<UnplacedNode> = Vec::new();
            while non.len() > 0
                invariant
                    rep@.len() + non@.len() == nonv.len(),
                    non@ == nonv.skip(rep@.len() as int),
                    forall|k: int|
                        #![trigger rep@[k]]
                        0 <= k < rep@.len() ==> report_entry_matches(rep@[k], nonv[k], pset),
                decreases non@.len(),
            {
                let ghost done = rep@.len() as int;
                let c = non.remove(0);
                proof {
                    assert(c == nonv[done]);
                    assert(non@ =~= nonv.skip(done + 1));
                }
                let mut unsat: Vec<String> = Vec::new();
                let mut q: usize = 0;
                while q < c.dependencies.len()
                    invariant
                        q <= c.dependencies.len(),
                        unsat.deep_view() == unsat_deps(deps_of(c).take(q as int), pset),
                    decreases c.dependencies.len() - q,
                {
                    let ghost up = unsat.deep_view();
                    let hit = contains_id(&placed, &c.dependencies[q]);
                    if !hit {
                        unsat.push(c.dependencies[q].clone());
                    }
                    proof {
                        reveal(Seq::filter);
                        let pre = deps_of(c).take(q as int);
                        let cur = deps_of(c).take(q as int + 1);
                        assert(cur.drop_last() =~= pre);
                        assert(cur.last() == deps_of(c)[q as int]);
                        assert(deps_of(c)[q as int] == c.dependencies.deep_view()[q as int]);
                        if !hit {
                            assert(unsat.deep_view() =~= up.push(deps_of(c)[q as int]));
                            assert(unsat.deep_view() =~= unsat_deps(cur, pset));
                        } else {
                            assert(unsat.deep_view() =~= unsat_deps(cur, pset));
                        }
                    }
                    q = q + 1;
                }
                proof {
                    assert(deps_of(c).take(c.dependencies@.len() as int) =~= deps_of(c));
                }
                proof {
                    // the node indeed has an unsatisfied dependency
                    assert(node_unsat(nonv[done], pset));
                    let q0 = choose|q0: int|
                        0 <= q0 < deps_of(nonv[done]).len() && !pset.contains(
                            deps_of(nonv[done])[q0],
                        );
                    deps_of(c).lemma_filter_contains(|d: Seq<char>| !pset.contains(d), q0);
                    assert(unsat.deep_view().contains(deps_of(c)[q0]));
                    assert(unsat.deep_view().len() > 0);
                    assert(unsat@.len() == unsat.deep_view().len());
                }
                let entry = UnplacedNode { dir: c.dir, unsatisfied: unsat };
                let ghost repp = rep@;
                rep.push(entry);
                proof {
                    assert(rep@ =~= repp.push(entry));
                    assert(report_entry_matches(rep@[done], nonv[done], pset));
                }
            }
            proof {
                lemma_no_progress_unsortable(inp0, res@, nonv);
                lemma_partition_distinct(inp0, res@, nonv);
                assert(res@.to_multiset().subset_of(inp0.to_multiset())) by {
                    assert forall|x: Component|
                        res@.to_multiset().count(x) <= inp0.to_multiset().count(x) by {
                        assert(inp0.to_multiset().count(x) == res@.to_multiset().count(x)
                            + nonv.to_multiset().count(x));
                    }
                }
                assert forall|k: int| #![trigger rep@[k]] 0 <= k < rep@.len()
                    implies entry_described(inp0, res@, rep@[k]) by {
                    assert(inp0.contains(nonv[k]));
                    let i = choose|i: int| 0 <= i < inp0.len() && inp0[i] == nonv[k];
                    assert(!ids(res@).contains(inp0[i].dir@)) by {
                        if ids(res@).contains(nonv[k].dir@) {
                            let ri = choose|ri: int|
                                0 <= ri < res@.len() && ids(res@)[ri] == nonv[k].dir@;
                            assert(res@[ri].dir@ == nonv[k].dir@);
                            assert(false);
                        }
                    }
                    assert(report_entry_matches(rep@[k], inp0[i], ids(res@)));
                }
                assert forall|i: int|
                    #![trigger inp0[i]]
                    0 <= i < inp0.len() && !ids(res@).contains(inp0[i].dir@)
                    implies dir_listed(rep@, inp0[i].dir@) by {
                    assert(inp0.to_multiset().count(inp0[i]) > 0);
                    if res@.to_multiset().count(inp0[i]) > 0 {
                        assert(res@.contains(inp0[i]));
                        let ri = choose|ri: int| 0 <= ri < res@.len() && res@[ri] == inp0[i];
                        assert(ids(res@)[ri] == inp0[i].dir@);
                        assert(false);
                    }
                    assert(nonv.to_multiset().count(inp0[i]) > 0);
                    assert(nonv.contains(inp0[i]));
                    let k = choose|k: int| 0 <= k < nonv.len() && nonv[k] == inp0[i];
                    assert(report_entry_matches(rep@[k], nonv[k], pset));
                    assert(rep@[k].dir@ == inp0[i].dir@);
                }
                assert(cycle_report_for(inp0, res@, rep@));
                assert(valid_cycle_report(inp0, rep@));
            }
            return Err(CustomError::CycleError(rep));
        }
        rem = non;
    }
}

/// Sorts a component registry into dependency-first order, or fails with the
/// cycle diagnosis.
pub fn toposort_components(inp: Vec<Component>) -> (r: Result<Vec<Component>, CustomError>)
    requires
        unique_ids(inp@),
    ensures
        r is Ok ==> r->Ok_0@.to_multiset() == inp@.to_multiset() && dep_first(r->Ok_0@),
        r is Ok <==> sortable(inp@),
        r is Err ==> r->Err_0 is CycleError && valid_cycle_report(inp@, r->Err_0->CycleError_0@),
{
    toposort(inp)
}

} // verus!
