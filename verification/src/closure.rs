use vstd::prelude::*;

use crate::component::{dep_edge, deps_of, has_id, ids, unique_ids, Component};
use crate::errors::CustomError;
use crate::toposort::{dep_first, dep_sat, sortable, toposort, valid_cycle_report};

verus! {

/// A dependency path: consecutive ids joined by dependency edges, starting
/// at a root id.
pub open spec fn valid_path(inp: Seq<Component>, roots: Seq<Seq<char>>, p: Seq<Seq<char>>) -> bool {
    &&& p.len() >= 1
    &&& roots.contains(p[0])
    &&& forall|k: int| #![trigger p[k]] 0 <= k < p.len() - 1 ==> dep_edge(inp, p[k], p[k + 1])
}

/// `id` is required by the root set: some dependency path from a root ends
/// at it. Roots themselves are reached by the one-element path.
pub open spec fn reaches(inp: Seq<Component>, roots: Seq<Seq<char>>, id: Seq<char>) -> bool {
    exists|p: Seq<Seq<char>>| #[trigger] valid_path(inp, roots, p) && p.last() == id
}

/// Whether the forward-closure query emits the node with this id: it must
/// exist, be required by the root set, and not be an excluded original root.
pub open spec fn dep_included(
    inp: Seq<Component>,
    roots: Seq<Seq<char>>,
    include_roots: bool,
    id: Seq<char>,
) -> bool {
    &&& has_id(inp, id)
    &&& reaches(inp, roots, id)
    &&& (include_roots || !roots.contains(id))
}

/// Some component of the registry declares `id` as a dependency.
pub open spec fn declared_dep(inp: Seq<Component>, id: Seq<char>) -> bool {
    exists|i: int| 0 <= i < inp.len() && deps_of(#[trigger] inp[i]).contains(id)
}

/// `id` is referenced: requested as a query root or declared by some
/// component as a dependency.
pub open spec fn referenced(inp: Seq<Component>, roots: Seq<Seq<char>>, id: Seq<char>) -> bool {
    roots.contains(id) || declared_dep(inp, id)
}

/// Every referenced id names a component of the registry.
pub open spec fn refs_present(inp: Seq<Component>, roots: Seq<Seq<char>>) -> bool {
    forall|id: Seq<char>|
        #![trigger referenced(inp, roots, id)]
        referenced(inp, roots, id) ==> has_id(inp, id)
}

/// Every declared dependency id names a component of the registry.
pub open spec fn deps_present(inp: Seq<Component>) -> bool {
    forall|id: Seq<char>|
        #![trigger declared_dep(inp, id)]
        declared_dep(inp, id) ==> has_id(inp, id)
}

/// The `MissingDepError` payload of the forward query: exactly the
/// referenced ids that are absent from the registry, each once.
pub open spec fn missing_ref_report_ok(
    inp: Seq<Component>,
    roots: Seq<Seq<char>>,
    v: Seq<Seq<char>>,
) -> bool {
    &&& v.no_duplicates()
    &&& forall|k: int|
        #![trigger v[k]]
        0 <= k < v.len() ==> referenced(inp, roots, v[k]) && !has_id(inp, v[k])
    &&& forall|id: Seq<char>|
        #![trigger referenced(inp, roots, id)]
        referenced(inp, roots, id) && !has_id(inp, id) ==> v.contains(id)
}

/// The `MissingDepError` payload of the reverse query: exactly the declared
/// dependency ids that are absent from the registry, each once.
pub open spec fn missing_dep_report_ok(inp: Seq<Component>, v: Seq<Seq<char>>) -> bool {
    &&& v.no_duplicates()
    &&& forall|k: int|
        #![trigger v[k]]
        0 <= k < v.len() ==> declared_dep(inp, v[k]) && !has_id(inp, v[k])
    &&& forall|id: Seq<char>|
        #![trigger declared_dep(inp, id)]
        declared_dep(inp, id) && !has_id(inp, id) ==> v.contains(id)
}

/// `id`'s component transitively depends on a root: a dependency path of at
/// least one edge leads from it to a root id.
pub open spec fn affects(inp: Seq<Component>, roots: Seq<Seq<char>>, id: Seq<char>) -> bool {
    exists|p: Seq<Seq<char>>| #[trigger] down_path(inp, roots, p) && p[0] == id
}

/// A downward path: consecutive dependency edges ending at a root id.
pub open spec fn down_path(inp: Seq<Component>, roots: Seq<Seq<char>>, p: Seq<Seq<char>>) -> bool {
    &&& p.len() >= 2
    &&& roots.contains(p.last())
    &&& forall|k: int| #![trigger p[k]] 0 <= k < p.len() - 1 ==> dep_edge(inp, p[k], p[k + 1])
}

/// Whether the reverse-closure query emits the node with this id.
pub open spec fn dept_included(
    inp: Seq<Component>,
    roots: Seq<Seq<char>>,
    include_roots: bool,
    id: Seq<char>,
) -> bool {
    affects(inp, roots, id) || (roots.contains(id) && include_roots)
}

/// The `MissingComponentError` payload holds exactly the requested root ids
/// that name no component, each once.
pub open spec fn missing_root_report_ok(
    inp: Seq<Component>,
    roots: Seq<Seq<char>>,
    v: Seq<Seq<char>>,
) -> bool {
    &&& v.no_duplicates()
    &&& forall|k: int|
        #![trigger v[k]]
        0 <= k < v.len() ==> roots.contains(v[k]) && !has_id(inp, v[k])
    &&& forall|k: int|
        #![trigger roots[k]]
        0 <= k < roots.len() && !has_id(inp, roots[k]) ==> v.contains(roots[k])
}

/// All requested roots name components of the registry.
pub open spec fn roots_present(inp: Seq<Component>, roots: Seq<Seq<char>>) -> bool {
    forall|k: int| #![trigger roots[k]] 0 <= k < roots.len() ==> has_id(inp, roots[k])
}

// ------------------------------------------------------------------
// small path lemmas

pub proof fn lemma_reaches_root(inp: Seq<Component>, roots: Seq<Seq<char>>, id: Seq<char>)
    requires
        roots.contains(id),
    ensures
        reaches(inp, roots, id),
{
    let p = seq![id];
    assert(p[0] == id && p.last() == id);
    assert(valid_path(inp, roots, p));
}

pub proof fn lemma_reaches_step(
    inp: Seq<Component>,
    roots: Seq<Seq<char>>,
    m: Seq<char>,
    id: Seq<char>,
)
    requires
        reaches(inp, roots, m),
        dep_edge(inp, m, id),
    ensures
        reaches(inp, roots, id),
{
    let p = choose|p: Seq<Seq<char>>| #[trigger] valid_path(inp, roots, p) && p.last() == m;
    let p2 = p.push(id);
    assert(p2[0] == p[0]);
    assert forall|k: int| 0 <= k < p2.len() - 1 implies dep_edge(inp, #[trigger] p2[k], p2[k + 1]) by {
        if k < p.len() - 1 {
            assert(p2[k] == p[k] && p2[k + 1] == p[k + 1]);
        } else {
            assert(p2[k] == p.last() && p2[k + 1] == id);
        }
    }
    assert(valid_path(inp, roots, p2) && p2.last() == id);
}

/// A path of two or more ids also reaches its next-to-last id.
proof fn lemma_reaches_penult(inp: Seq<Component>, roots: Seq<Seq<char>>, p: Seq<Seq<char>>)
    requires
        valid_path(inp, roots, p),
        p.len() >= 2,
    ensures
        reaches(inp, roots, p[p.len() - 2]),
        dep_edge(inp, p[p.len() - 2], p.last()),
{
    let q = p.take(p.len() - 1);
    assert(q[0] == p[0]);
    assert forall|k: int| 0 <= k < q.len() - 1 implies dep_edge(inp, #[trigger] q[k], q[k + 1]) by {
        assert(q[k] == p[k] && q[k + 1] == p[k + 1]);
    }
    assert(valid_path(inp, roots, q) && q.last() == p[p.len() - 2]);
    assert(dep_edge(inp, p[p.len() - 2], p[p.len() - 1]));
}

pub proof fn lemma_affects_base(
    inp: Seq<Component>,
    roots: Seq<Seq<char>>,
    id: Seq<char>,
    d: Seq<char>,
)
    requires
        dep_edge(inp, id, d),
        roots.contains(d),
    ensures
        affects(inp, roots, id),
{
    let p = seq![id, d];
    assert(p[0] == id && p.last() == d);
    assert forall|k: int| 0 <= k < p.len() - 1 implies dep_edge(inp, #[trigger] p[k], p[k + 1]) by {
        assert(k == 0 && p[0] == id && p[1] == d);
    }
    assert(down_path(inp, roots, p));
}

pub proof fn lemma_affects_step(
    inp: Seq<Component>,
    roots: Seq<Seq<char>>,
    id: Seq<char>,
    d: Seq<char>,
)
    requires
        dep_edge(inp, id, d),
        affects(inp, roots, d),
    ensures
        affects(inp, roots, id),
{
    let p = choose|p: Seq<Seq<char>>| #[trigger] down_path(inp, roots, p) && p[0] == d;
    let p2 = seq![id] + p;
    assert(p2[0] == id);
    assert(p2.last() == p.last());
    assert forall|k: int| 0 <= k < p2.len() - 1 implies dep_edge(inp, #[trigger] p2[k], p2[k + 1]) by {
        if k == 0 {
            assert(p2[0] == id && p2[1] == p[0]);
        } else {
            assert(p2[k] == p[k - 1] && p2[k + 1] == p[k]);
        }
    }
    assert(down_path(inp, roots, p2));
}

// ------------------------------------------------------------------
// executable set helpers over id vectors

use crate::toposort::contains_id;

/// Removes the single occurrence of `x`, if present.
#[verifier::loop_isolation(false)]
fn remove_from(v: &mut Vec<String>, x: &String) -> (r: bool)
    requires
        old(v).deep_view().no_duplicates(),
    ensures
        r == old(v).deep_view().contains(x@),
        final(v).deep_view().no_duplicates(),
        forall|y: Seq<char>|
            #![trigger final(v).deep_view().contains(y)]
            final(v).deep_view().contains(y) <==> (old(v).deep_view().contains(y) && y != x@),
{
    let ghost v0 = v.deep_view();
    let mut i: usize = 0;
    while i < v.len()
        invariant
            i <= v.len(),
            v.deep_view() == v0,
            forall|j: int| 0 <= j < i ==> v0[j] != x@,
        decreases v.len() - i,
    {
        if v[i].eq(x) {
            assert(v0[i as int] == x@);
            assert(v0.contains(x@));
            v.remove(i);
            proof {
                assert(v.deep_view() =~= v0.take(i as int) + v0.skip(i as int + 1));
                assert forall|y: Seq<char>|
                    #![trigger v.deep_view().contains(y)]
                    v.deep_view().contains(y) <==> (v0.contains(y) && y != x@) by {
                    let w = v.deep_view();
                    if w.contains(y) {
                        let j = choose|j: int| 0 <= j < w.len() && w[j] == y;
                        if j < i {
                            assert(v0[j] == y);
                        } else {
                            assert(v0[j + 1] == y);
                        }
                        assert(v0.contains(y));
                        if y == x@ {
                            if j < i as int {
                                assert(v0[j] == x@);
                                assert(false);
                            } else {
                                assert(v0[j + 1] == x@);
                                assert(v0[i as int] == x@);
                                assert(v0[j + 1] != v0[i as int]);
                                assert(false);
                            }
                        }
                    }
                    if v0.contains(y) && y != x@ {
                        let j = choose|j: int| 0 <= j < v0.len() && v0[j] == y;
                        assert(j != i as int);
                        if j < i as int {
                            assert(w[j] == y);
                        } else {
                            assert(w[j - 1] == y);
                        }
                    }
                }
                assert(v.deep_view().no_duplicates()) by {
                    let w = v.deep_view();
                    assert forall|a: int, b: int| 0 <= a < b < w.len() implies w[a] != w[b] by {
                        if a < i as int {
                            assert(w[a] == v0[a]);
                        } else {
                            assert(w[a] == v0[a + 1]);
                        }
                        if b < i as int {
                            assert(w[b] == v0[b]);
                        } else {
                            assert(w[b] == v0[b + 1]);
                        }
                    }
                }
            }
            return true;
        }
        i = i + 1;
    }
    proof {
        assert(!v0.contains(x@));
    }
    false
}

/// Adds `x` unless it is already present.
#[verifier::loop_isolation(false)]
fn push_unique(v: &mut Vec<String>, x: &String)
    requires
        old(v).deep_view().no_duplicates(),
    ensures
        final(v).deep_view().no_duplicates(),
        forall|y: Seq<char>|
            #![trigger final(v).deep_view().contains(y)]
            final(v).deep_view().contains(y) <==> (old(v).deep_view().contains(y) || y == x@),
{
    let ghost v0 = v.deep_view();
    if !contains_id(v, x) {
        v.push(x.clone());
        proof {
            assert(v.deep_view() =~= v0.push(x@));
            assert forall|y: Seq<char>|
                #![trigger v.deep_view().contains(y)]
                v.deep_view().contains(y) <==> (v0.contains(y) || y == x@) by {
                let w = v.deep_view();
                if w.contains(y) {
                    let j = choose|j: int| 0 <= j < w.len() && w[j] == y;
                    if j < v0.len() {
                        assert(v0[j] == y);
                    }
                }
                if v0.contains(y) {
                    let j = choose|j: int| 0 <= j < v0.len() && v0[j] == y;
                    assert(v.deep_view()[j] == y);
                }
                if y == x@ {
                    assert(v.deep_view()[v0.len() as int] == x@);
                }
            }
            assert(v.deep_view().no_duplicates()) by {
                let w = v.deep_view();
                assert forall|a: int, b: int| 0 <= a < b < w.len() implies w[a] != w[b] by {
                    if b < v0.len() {
                        assert(w[a] == v0[a] && w[b] == v0[b]);
                    } else {
                        assert(w[b] == x@ && w[a] == v0[a]);
                        assert(!v0.contains(x@));
                    }
                }
            }
        }
    }
}

/// Whether any id of `deps` is among `seen`.
fn any_dep_in(deps: &Vec<String>, seen: &Vec<String>) -> (r: bool)
    ensures
        r == exists|k: int|
            0 <= k < deps.deep_view().len() && seen.deep_view().contains(
                #[trigger] deps.deep_view()[k],
            ),
{
    let mut k: usize = 0;
    while k < deps.len()
        invariant
            k <= deps.len(),
            forall|j: int|
                0 <= j < k ==> !seen.deep_view().contains(#[trigger] deps.deep_view()[j]),
        decreases deps.len() - k,
    {
        if contains_id(seen, &deps[k]) {
            assert(seen.deep_view().contains(deps.deep_view()[k as int]));
            return true;
        }
        k = k + 1;
    }
    false
}

/// Reverses a component vector.
fn reverse_components(inp: Vec<Component>) -> (r: Vec<Component>)
    ensures
        r@ == inp@.reverse(),
{
    let ghost inp0 = inp@;
    let mut work = inp;
    let mut out: Vec<Component> = Vec::new();
    while work.len() > 0
        invariant
            work@.len() <= inp0.len(),
            work@ == inp0.take(work@.len() as int),
            out@ == inp0.skip(work@.len() as int).reverse(),
        decreases work@.len(),
    {
        let ghost wl = work@.len() as int;
        let x = work.pop().unwrap();
        out.push(x);
        proof {
            assert(work@ =~= inp0.take(wl - 1));
            assert(x == inp0[wl - 1]);
            assert(out@ =~= inp0.skip(wl - 1).reverse());
        }
    }
    proof {
        assert(work@.len() == 0);
        assert(out@ =~= inp0.reverse());
    }
    out
}

// ------------------------------------------------------------------
// permutation and membership lemmas

/// A permutation of a registry with unique ids has unique ids, the same
/// length, and the same members.
pub proof fn lemma_perm_unique(inp: Seq<Component>, t: Seq<Component>)
    requires
        unique_ids(inp),
        t.to_multiset() == inp.to_multiset(),
    ensures
        unique_ids(t),
        t.len() == inp.len(),
        forall|x: Component| #![trigger t.contains(x)] t.contains(x) <==> inp.contains(x),
{
    broadcast use vstd::seq_lib::group_to_multiset_ensures;
    broadcast use vstd::multiset::group_multiset_axioms;

    assert(t.len() == t.to_multiset().len());
    assert(inp.len() == inp.to_multiset().len());
    assert(inp.no_duplicates()) by {
        assert forall|i: int, j: int| 0 <= i < inp.len() && 0 <= j < inp.len() && i != j implies
            inp[i] != inp[j] by {
            assert(inp[i].dir@ != inp[j].dir@);
        }
    }
    inp.lemma_multiset_has_no_duplicates();
    assert forall|x: Component| #![trigger t.contains(x)] t.contains(x) <==> inp.contains(x) by {
        assert(t.contains(x) ==> t.to_multiset().count(x) > 0);
        assert(inp.contains(x) ==> inp.to_multiset().count(x) > 0);
    }
    assert forall|x: Component| t.to_multiset().contains(x) implies t.to_multiset().count(x)
        == 1 by {
        assert(inp.to_multiset().count(x) > 0);
    }
    t.lemma_multiset_has_no_duplicates_conv();
    assert forall|i: int, j: int| 0 <= i < j < t.len() implies t[i].dir@ != t[j].dir@ by {
        if t[i].dir@ == t[j].dir@ {
            assert(t[i] != t[j]);
            assert(t.contains(t[i]) && t.contains(t[j]));
            assert(inp.contains(t[i]) && inp.contains(t[j]));
            let a = choose|a: int| 0 <= a < inp.len() && inp[a] == t[i];
            let b = choose|b: int| 0 <= b < inp.len() && inp[b] == t[j];
            assert(inp[a].dir@ == inp[b].dir@);
            assert(a == b);
            assert(false);
        }
    }
}

/// The ids of a sequence hold `id` exactly when some component carries it.
pub proof fn lemma_ids_contains(s: Seq<Component>)
    ensures
        forall|id: Seq<char>| #![trigger ids(s).contains(id)] ids(s).contains(id) <==> has_id(
            s,
            id,
        ),
{
    assert forall|id: Seq<char>| #![trigger ids(s).contains(id)] ids(s).contains(id) <==> has_id(
        s,
        id,
    ) by {
        if ids(s).contains(id) {
            let j = choose|j: int| 0 <= j < ids(s).len() && ids(s)[j] == id;
            assert(s[j].dir@ == id);
        }
        if has_id(s, id) {
            let j = choose|j: int| 0 <= j < s.len() && s[j].dir@ == id;
            assert(ids(s)[j] == id);
        }
    }
}

/// Two permuted registries hold the same ids.
pub proof fn lemma_has_id_perm(inp: Seq<Component>, t: Seq<Component>)
    requires
        t.to_multiset() == inp.to_multiset(),
    ensures
        forall|id: Seq<char>| #![trigger has_id(t, id)] has_id(t, id) <==> has_id(inp, id),
{
    broadcast use vstd::seq_lib::group_to_multiset_ensures;
    broadcast use vstd::multiset::group_multiset_axioms;

    assert forall|id: Seq<char>| #![trigger has_id(t, id)] has_id(t, id) <==> has_id(inp, id) by {
        if has_id(t, id) {
            let j = choose|j: int| 0 <= j < t.len() && t[j].dir@ == id;
            assert(t.to_multiset().count(t[j]) > 0);
            assert(inp.contains(t[j]));
            let i = choose|i: int| 0 <= i < inp.len() && inp[i] == t[j];
            assert(inp[i].dir@ == id);
        }
        if has_id(inp, id) {
            let i = choose|i: int| 0 <= i < inp.len() && inp[i].dir@ == id;
            assert(inp.to_multiset().count(inp[i]) > 0);
            assert(t.contains(inp[i]));
            let j = choose|j: int| 0 <= j < t.len() && t[j] == inp[i];
            assert(t[j].dir@ == id);
        }
    }
}

/// A member of the registry gives an edge for each of its dependencies.
pub proof fn lemma_edge_from_member(inp: Seq<Component>, c: Component, d: Seq<char>)
    requires
        inp.contains(c),
        deps_of(c).contains(d),
    ensures
        dep_edge(inp, c.dir@, d),
{
    let i = choose|i: int| 0 <= i < inp.len() && inp[i] == c;
    assert(inp[i].dir@ == c.dir@ && deps_of(inp[i]).contains(d));
}

/// Under unique ids, an edge out of `c.dir` comes from `c` itself.
pub proof fn lemma_edge_unique_node(inp: Seq<Component>, c: Component, d: Seq<char>)
    requires
        unique_ids(inp),
        inp.contains(c),
        dep_edge(inp, c.dir@, d),
    ensures
        deps_of(c).contains(d),
{
    let i = choose|i: int|
        0 <= i < inp.len() && inp[i].dir@ == c.dir@ && deps_of(inp[i]).contains(d);
    let j = choose|j: int| 0 <= j < inp.len() && inp[j] == c;
    assert(inp[i].dir@ == inp[j].dir@);
    assert(i == j);
}

/// Filtering after a push keeps the element exactly when the predicate
/// holds of it.
pub proof fn lemma_filter_push(s: Seq<Component>, pred: spec_fn(Component) -> bool, v: Component)
    ensures
        s.push(v).filter(pred) == if pred(v) {
            s.filter(pred).push(v)
        } else {
            s.filter(pred)
        },
{
    reveal(Seq::filter);
    assert(s.push(v).drop_last() =~= s);
    assert(s.push(v).last() == v);
}

// ------------------------------------------------------------------
// the referenced-but-absent check

/// The ids of the registry, cloned in order.
fn dir_list(inp: &Vec<Component>) -> (r: Vec<String>)
    ensures
        r.deep_view() == ids(inp@),
{
    let mut r: Vec<String> = Vec::new();
    let mut i: usize = 0;
    while i < inp.len()
        invariant
            i <= inp@.len(),
            r.deep_view() == ids(inp@).take(i as int),
        decreases inp@.len() - i,
    {
        let ghost pre = r.deep_view();
        r.push(inp[i].dir.clone());
        proof {
            assert(r.deep_view() =~= pre.push(inp@[i as int].dir@));
            assert(r.deep_view() =~= ids(inp@).take(i as int + 1));
        }
        i = i + 1;
    }
    proof {
        assert(r.deep_view() =~= ids(inp@));
    }
    r
}

/// `id` is declared by a component before row `i`, or by row `i` among its
/// first `q` dependencies.
spec fn scanned_declared(inp: Seq<Component>, i: int, q: int, id: Seq<char>) -> bool {
    (exists|i2: int| 0 <= i2 < i && deps_of(#[trigger] inp[i2]).contains(id)) || (0 <= i
        < inp.len() && deps_of(inp[i]).take(q).contains(id))
}

/// Adds every declared dependency id that names no component, each once.
#[verifier::loop_isolation(false)]
fn collect_missing_deps(inp: &Vec<Component>, dirvec: &Vec<String>, missing: &mut Vec<String>)
    requires
        dirvec.deep_view() == ids(inp@),
        old(missing).deep_view().no_duplicates(),
    ensures
        final(missing).deep_view().no_duplicates(),
        forall|id: Seq<char>|
            #![trigger final(missing).deep_view().contains(id)]
            final(missing).deep_view().contains(id) <==> (old(missing).deep_view().contains(id)
                || (declared_dep(inp@, id) && !has_id(inp@, id))),
{
    proof {
        lemma_ids_contains(inp@);
    }
    let ghost m0 = old(missing).deep_view();
    let mut i: usize = 0;
    while i < inp.len()
        invariant
            i <= inp@.len(),
            missing.deep_view().no_duplicates(),
            forall|id: Seq<char>|
                #![trigger missing.deep_view().contains(id)]
                missing.deep_view().contains(id) <==> (m0.contains(id) || (scanned_declared(
                    inp@,
                    i as int,
                    0,
                    id,
                ) && !has_id(inp@, id))),
        decreases inp@.len() - i,
    {
        let deps = &inp[i].dependencies;
        let mut q: usize = 0;
        while q < deps.len()
            invariant
                q <= deps@.len(),
                i < inp@.len(),
                deps == &inp@[i as int].dependencies,
                missing.deep_view().no_duplicates(),
                forall|id: Seq<char>|
                    #![trigger missing.deep_view().contains(id)]
                    missing.deep_view().contains(id) <==> (m0.contains(id) || (scanned_declared(
                        inp@,
                        i as int,
                        q as int,
                        id,
                    ) && !has_id(inp@, id))),
            decreases deps@.len() - q,
        {
            let ghost d = deps_of(inp@[i as int])[q as int];
            proof {
                assert(deps.deep_view()[q as int] == d);
            }
            if !contains_id(dirvec, &deps[q]) {
                proof {
                    assert(!ids(inp@).contains(d));
                    assert(!has_id(inp@, d));
                }
                push_unique(missing, &deps[q]);
            } else {
                proof {
                    assert(ids(inp@).contains(d));
                    assert(has_id(inp@, d));
                }
            }
            proof {
                assert forall|id: Seq<char>|
                    #![trigger deps_of(inp@[i as int]).take(q as int + 1).contains(id)]
                    deps_of(inp@[i as int]).take(q as int + 1).contains(id) <==> (deps_of(
                    inp@[i as int],
                ).take(q as int).contains(id) || id == d) by {
                    let u = deps_of(inp@[i as int]).take(q as int + 1);
                    if u.contains(id) {
                        let w = choose|w: int| 0 <= w < u.len() && u[w] == id;
                        if w < q {
                            assert(deps_of(inp@[i as int]).take(q as int)[w] == id);
                        }
                    }
                    if deps_of(inp@[i as int]).take(q as int).contains(id) {
                        let w = choose|w: int|
                            0 <= w < q && deps_of(inp@[i as int]).take(q as int)[w] == id;
                        assert(u[w] == id);
                    }
                    if id == d {
                        assert(u[q as int] == id);
                    }
                }
                assert forall|id: Seq<char>|
                    #![trigger missing.deep_view().contains(id)]
                    missing.deep_view().contains(id) <==> (m0.contains(id) || (scanned_declared(
                        inp@,
                        i as int,
                        q as int + 1,
                        id,
                    ) && !has_id(inp@, id))) by {
                    assert(deps_of(inp@[i as int]).take(q as int + 1).contains(id) <==> (deps_of(
                        inp@[i as int],
                    ).take(q as int).contains(id) || id == d));
                }
            }
            q = q + 1;
        }
        proof {
            assert(deps_of(inp@[i as int]).take(deps@.len() as int) =~= deps_of(inp@[i as int]));
            assert forall|id: Seq<char>|
                #![trigger missing.deep_view().contains(id)]
                missing.deep_view().contains(id) <==> (m0.contains(id) || (scanned_declared(
                    inp@,
                    i as int + 1,
                    0,
                    id,
                ) && !has_id(inp@, id))) by {
                assert(scanned_declared(inp@, i as int + 1, 0, id) <==> scanned_declared(
                    inp@,
                    i as int,
                    deps@.len() as int,
                    id,
                )) by {
                    if scanned_declared(inp@, i as int + 1, 0, id) {
                        if exists|i2: int|
                            0 <= i2 < i + 1 && deps_of(#[trigger] inp@[i2]).contains(id) {
                            let i2 = choose|i2: int|
                                0 <= i2 < i + 1 && deps_of(#[trigger] inp@[i2]).contains(id);
                            if i2 == i as int {
                                assert(deps_of(inp@[i as int]).take(deps@.len() as int).contains(
                                    id,
                                ));
                            }
                        }
                    }
                    if scanned_declared(inp@, i as int, deps@.len() as int, id) {
                        if deps_of(inp@[i as int]).take(deps@.len() as int).contains(id) {
                            assert(deps_of(inp@[i as int]).contains(id));
                        }
                    }
                }
            }
        }
        i = i + 1;
    }
    proof {
        assert forall|id: Seq<char>|
            #![trigger missing.deep_view().contains(id)]
            missing.deep_view().contains(id) <==> (m0.contains(id) || (declared_dep(inp@, id)
                && !has_id(inp@, id))) by {
            assert(scanned_declared(inp@, inp@.len() as int, 0, id) <==> declared_dep(inp@, id))
                by {
                if declared_dep(inp@, id) {
                    let i2 = choose|i2: int|
                        0 <= i2 < inp@.len() && deps_of(#[trigger] inp@[i2]).contains(id);
                    assert(0 <= i2 < inp@.len() && deps_of(inp@[i2]).contains(id));
                }
            }
        }
    }
}

/// Collects every referenced id that names no component: requested roots
/// and declared dependencies alike, each once.
#[verifier::loop_isolation(false)]
fn collect_missing_refs(inp: &Vec<Component>, dirs: &Vec<String>) -> (r: Vec<String>)
    ensures
        r.deep_view().no_duplicates(),
        forall|id: Seq<char>|
            #![trigger r.deep_view().contains(id)]
            r.deep_view().contains(id) <==> (referenced(inp@, dirs.deep_view(), id) && !has_id(
                inp@,
                id,
            )),
{
    let ghost inp0 = inp@;
    let ghost roots = dirs.deep_view();
    let dirvec = dir_list(inp);
    proof {
        lemma_ids_contains(inp0);
    }
    let mut missing: Vec<String> = Vec::new();
    let mut i: usize = 0;
    while i < dirs.len()
        invariant
            i <= dirs.len(),
            missing.deep_view().no_duplicates(),
            forall|id: Seq<char>|
                #![trigger missing.deep_view().contains(id)]
                missing.deep_view().contains(id) <==> ((exists|k: int|
                    0 <= k < i && roots[k] == id) && !has_id(inp0, id)),
        decreases dirs.len() - i,
    {
        let ghost mpre = missing.deep_view();
        if !contains_id(&dirvec, &dirs[i]) {
            proof {
                assert(!has_id(inp0, roots[i as int]));
            }
            push_unique(&mut missing, &dirs[i]);
        } else {
            proof {
                assert(has_id(inp0, roots[i as int]));
            }
        }
        proof {
            assert forall|id: Seq<char>|
                #![trigger missing.deep_view().contains(id)]
                missing.deep_view().contains(id) <==> ((exists|k: int|
                    0 <= k < i + 1 && roots[k] == id) && !has_id(inp0, id)) by {
                if missing.deep_view().contains(id) {
                    if !mpre.contains(id) {
                        assert(id == roots[i as int]);
                    }
                }
                if (exists|k: int| 0 <= k < i + 1 && roots[k] == id) && !has_id(inp0, id) {
                    let k = choose|k: int| 0 <= k < i + 1 && roots[k] == id;
                    if k < i {
                        assert(mpre.contains(id));
                    }
                }
            }
        }
        i = i + 1;
    }
    collect_missing_deps(inp, &dirvec, &mut missing);
    proof {
        assert forall|id: Seq<char>|
            #![trigger missing.deep_view().contains(id)]
            missing.deep_view().contains(id) <==> (referenced(inp0, roots, id) && !has_id(
                inp0,
                id,
            )) by {
            if roots.contains(id) {
                let k = choose|k: int| 0 <= k < roots.len() && roots[k] == id;
            }
        }
    }
    missing
}

// ------------------------------------------------------------------
// the reverse closure: transitive dependents

/// The predicate deciding which nodes the reverse-closure query emits.
pub open spec fn dept_pred(
    inp: Seq<Component>,
    roots: Seq<Seq<char>>,
    include_roots: bool,
) -> spec_fn(Component) -> bool {
    |c: Component| dept_included(inp, roots, include_roots, c.dir@)
}

/// The result is some dependency-first permutation of the registry,
/// filtered to the emitted nodes.
pub open spec fn dept_result_ok(
    inp: Seq<Component>,
    roots: Seq<Seq<char>>,
    include_roots: bool,
    out: Seq<Component>,
) -> bool {
    exists|t: Seq<Component>|
        #[trigger] t.to_multiset() == inp.to_multiset() && dep_first(t) && out == t.filter(
            dept_pred(inp, roots, include_roots),
        )
}

/// Every appended node is an affected member of the scanned prefix.
spec fn apps_ok(
    inp: Seq<Component>,
    roots: Seq<Seq<char>>,
    t: Seq<Component>,
    scanned: int,
    apps: Seq<Component>,
) -> bool {
    forall|x: int|
        #![trigger apps[x]]
        0 <= x < apps.len() ==> affects(inp, roots, apps[x].dir@) && exists|j: int|
            0 <= j < scanned && t[j] == apps[x]
}

/// A scanned node was appended exactly when it is affected.
spec fn scanned_iff_app(
    inp: Seq<Component>,
    roots: Seq<Seq<char>>,
    t: Seq<Component>,
    scanned: int,
    apps: Seq<Component>,
) -> bool {
    forall|j: int|
        #![trigger t[j]]
        0 <= j < scanned ==> (affects(inp, roots, t[j].dir@) <==> ids(apps).contains(t[j].dir@))
}

/// The seen set holds the roots and the dirs of the appended nodes.
spec fn seen_matches(roots: Seq<Seq<char>>, apps: Seq<Component>, sn: Seq<Seq<char>>) -> bool {
    forall|id: Seq<char>|
        #![trigger sn.contains(id)]
        sn.contains(id) <==> (roots.contains(id) || ids(apps).contains(id))
}

/// Emits, in dependency-first order, every component that transitively
/// depends on one of the requested roots — and, when asked, the requested
/// roots themselves. A declared dependency that names no component fails the
/// query up front, naming every such id; an otherwise sound registry that
/// cannot be sorted fails with the cycle diagnosis, and a requested root
/// that names no component fails with the full list of unknown roots.
#[verifier::loop_isolation(false)]
pub fn transitive_dependents(
    inp: Vec<Component>,
    dirs: &Vec<String>,
    include_roots: bool,
) -> (r: Result<Vec<Component>, CustomError>)
    requires
        unique_ids(inp@),
    ensures
        r is Ok <==> deps_present(inp@) && sortable(inp@) && roots_present(
            inp@,
            dirs.deep_view(),
        ),
        r is Ok ==> dept_result_ok(inp@, dirs.deep_view(), include_roots, r->Ok_0@),
        r is Err ==> r->Err_0 is CycleError || r->Err_0 is MissingComponentError
            || r->Err_0 is MissingDepError,
        (r is Err && r->Err_0 is MissingDepError) <==> !deps_present(inp@),
        r is Err && r->Err_0 is MissingDepError ==> missing_dep_report_ok(
            inp@,
            r->Err_0->MissingDepError_0.deep_view(),
        ),
        (r is Err && r->Err_0 is CycleError) <==> deps_present(inp@) && !sortable(inp@),
        r is Err && r->Err_0 is CycleError ==> valid_cycle_report(
            inp@,
            r->Err_0->CycleError_0@,
        ),
        (r is Err && r->Err_0 is MissingComponentError) <==> deps_present(inp@) && sortable(inp@)
            && !roots_present(inp@, dirs.deep_view()),
        r is Err && r->Err_0 is MissingComponentError ==> missing_root_report_ok(
            inp@,
            dirs.deep_view(),
            r->Err_0->MissingComponentError_0.deep_view(),
        ),
{
    broadcast use vstd::seq_lib::group_to_multiset_ensures;
    broadcast use vstd::multiset::group_multiset_axioms;

    let ghost inp0 = inp@;
    let ghost roots = dirs.deep_view();

    // every declared dependency must name a component
    let predirs = dir_list(&inp);
    proof {
        lemma_ids_contains(inp0);
    }
    let mut absent: Vec<String> = Vec::new();
    collect_missing_deps(&inp, &predirs, &mut absent);
    if absent.len() > 0 {
        proof {
            let id0 = absent.deep_view()[0];
            assert(absent.deep_view().contains(id0));
            assert(declared_dep(inp0, id0) && !has_id(inp0, id0));
            assert(!deps_present(inp0));
            assert forall|k: int|
                #![trigger absent.deep_view()[k]]
                0 <= k < absent.deep_view().len() implies declared_dep(
                inp0,
                absent.deep_view()[k],
            ) && !has_id(inp0, absent.deep_view()[k]) by {
                assert(absent.deep_view().contains(absent.deep_view()[k]));
            }
        }
        return Err(CustomError::MissingDepError(absent));
    }
    proof {
        assert(deps_present(inp0)) by {
            assert forall|id: Seq<char>| #![trigger declared_dep(inp0, id)] declared_dep(
                inp0,
                id,
            ) implies has_id(inp0, id) by {
                if !has_id(inp0, id) {
                    assert(absent.deep_view().contains(id));
                    assert(absent.deep_view().len() == 0);
                }
            }
        }
    }

    let sorted = match toposort(inp) {
        Ok(s) => s,
        Err(e) => {
            return Err(e);
        },
    };
    let ghost t = sorted@;
    proof {
        lemma_perm_unique(inp0, t);
        lemma_ids_contains(t);
        lemma_has_id_perm(inp0, t);
    }
    let n = sorted.len();

    // collect the dirs of the registry for the missing-roots check
    let mut dirvec: Vec<String> = Vec::new();
    let mut i: usize = 0;
    while i < n
        invariant
            i <= n,
            dirvec.deep_view() == ids(t).take(i as int),
        decreases n - i,
    {
        let ghost dv = dirvec.deep_view();
        dirvec.push(sorted[i].dir.clone());
        proof {
            assert(dirvec.deep_view() =~= dv.push(t[i as int].dir@));
            assert(dirvec.deep_view() =~= ids(t).take(i as int + 1));
        }
        i = i + 1;
    }
    proof {
        assert(dirvec.deep_view() =~= ids(t));
    }

    // every requested root must name a component
    let mut missing: Vec<String> = Vec::new();
    let mut i: usize = 0;
    while i < dirs.len()
        invariant
            i <= dirs.len(),
            missing.deep_view().no_duplicates(),
            forall|k: int|
                #![trigger missing.deep_view()[k]]
                0 <= k < missing.deep_view().len() ==> roots.contains(missing.deep_view()[k])
                    && !has_id(inp0, missing.deep_view()[k]),
            forall|k: int|
                #![trigger roots[k]]
                0 <= k < i && !has_id(inp0, roots[k]) ==> missing.deep_view().contains(roots[k]),
        decreases dirs.len() - i,
    {
        let ghost mpre = missing.deep_view();
        if !contains_id(&dirvec, &dirs[i]) {
            proof {
                assert(!ids(t).contains(roots[i as int]));
                assert(!has_id(inp0, roots[i as int]));
            }
            push_unique(&mut missing, &dirs[i]);
            proof {
                assert forall|k: int|
                    #![trigger missing.deep_view()[k]]
                    0 <= k < missing.deep_view().len() implies roots.contains(
                    missing.deep_view()[k],
                ) && !has_id(inp0, missing.deep_view()[k]) by {
                    let y = missing.deep_view()[k];
                    assert(missing.deep_view().contains(y));
                    if !mpre.contains(y) {
                        assert(y == roots[i as int]);
                    }
                }
            }
        } else {
            proof {
                assert(ids(t).contains(roots[i as int]));
            }
        }
        i = i + 1;
    }
    if missing.len() > 0 {
        proof {
            assert(missing.deep_view().len() > 0);
            let y = missing.deep_view()[0];
            assert(!has_id(inp0, y) && roots.contains(y));
            let k0 = choose|k0: int| 0 <= k0 < roots.len() && roots[k0] == y;
            assert(!roots_present(inp0, roots));
        }
        return Err(CustomError::MissingComponentError(missing));
    }
    proof {
        assert(roots_present(inp0, roots)) by {
            assert forall|k: int| #![trigger roots[k]] 0 <= k < roots.len() implies has_id(
                inp0,
                roots[k],
            ) by {
                if !has_id(inp0, roots[k]) {
                    assert(missing.deep_view().contains(roots[k]));
                    assert(missing.deep_view().len() == 0);
                }
            }
        }
    }

    // forward scan in dependency-first order
    let mut work = reverse_components(sorted);
    let mut seen: Vec<String> = Vec::new();
    let mut i: usize = 0;
    while i < dirs.len()
        invariant
            i <= dirs.len(),
            seen.deep_view().no_duplicates(),
            forall|id: Seq<char>|
                #![trigger seen.deep_view().contains(id)]
                seen.deep_view().contains(id) <==> exists|k: int|
                    0 <= k < i && roots[k] == id,
        decreases dirs.len() - i,
    {
        push_unique(&mut seen, &dirs[i]);
        proof {
            assert forall|id: Seq<char>|
                #![trigger seen.deep_view().contains(id)]
                seen.deep_view().contains(id) <==> exists|k: int|
                    0 <= k < i + 1 && roots[k] == id by {
                if seen.deep_view().contains(id) {
                    if id == roots[i as int] {
                        assert(roots[i as int] == id);
                    }
                }
                if exists|k: int| 0 <= k < i + 1 && roots[k] == id {
                    let k = choose|k: int| 0 <= k < i + 1 && roots[k] == id;
                }
            }
        }
        i = i + 1;
    }
    let mut result: Vec<Component> = Vec::new();
    let ghost mut apps: Seq<Component> = Seq::empty();
    proof {
        assert(seen_matches(roots, apps, seen.deep_view())) by {
            assert forall|id: Seq<char>|
                #![trigger seen.deep_view().contains(id)]
                seen.deep_view().contains(id) <==> (roots.contains(id) || ids(apps).contains(id))
                by {
                if roots.contains(id) {
                    let k = choose|k: int| 0 <= k < roots.len() && roots[k] == id;
                }
            }
        }
        assert(result@ =~= t.take(0).filter(dept_pred(inp0, roots, include_roots))) by {
            reveal(Seq::filter);
            assert(t.take(0) =~= Seq::<Component>::empty());
        }
    }
    while work.len() > 0
        invariant
            work@.len() <= n,
            n == t.len(),
            work@ == t.skip(n - work@.len()).reverse(),
            seen.deep_view().no_duplicates(),
            seen_matches(roots, apps, seen.deep_view()),
            apps_ok(inp0, roots, t, n - work@.len(), apps),
            scanned_iff_app(inp0, roots, t, n - work@.len(), apps),
            result@ == t.take(n - work@.len()).filter(dept_pred(inp0, roots, include_roots)),
        decreases work@.len(),
    {
        let ghost scanned = n - work@.len();
        let ghost appsp = apps;
        let item = work.pop().unwrap();
        proof {
            assert(t.skip(scanned).reverse().len() == t.skip(scanned).len());
            assert(t.skip(scanned).reverse().last() == t.skip(scanned)[0]);
            assert(item == t[scanned]);
            assert(work@ =~= t.skip(scanned + 1).reverse());
            assert(t.contains(item));
            assert(inp0.contains(item));
            // the dirs of appended nodes lie in the scanned prefix, so they
            // differ from this one
            assert(!ids(apps).contains(item.dir@)) by {
                if ids(apps).contains(item.dir@) {
                    let x = choose|x: int| 0 <= x < ids(apps).len() && ids(apps)[x] == item.dir@;
                    assert(apps[x].dir@ == item.dir@);
                    let j = choose|j: int| 0 <= j < scanned && t[j] == apps[x];
                    assert(t[j].dir@ == t[scanned].dir@);
                    assert(false);
                }
            }
        }
        let hit = any_dep_in(&item.dependencies, &seen);
        proof {
            if hit {
                // the node is affected: its dependency leads to a root or to
                // an affected node
                let kd = choose|kd: int|
                    0 <= kd < item.dependencies.deep_view().len() && seen.deep_view().contains(
                        item.dependencies.deep_view()[kd],
                    );
                let d = deps_of(item)[kd];
                assert(deps_of(item).contains(d));
                lemma_edge_from_member(inp0, item, d);
                assert(seen.deep_view().contains(d));
                if roots.contains(d) {
                    lemma_affects_base(inp0, roots, item.dir@, d);
                } else {
                    assert(ids(apps).contains(d));
                    let x = choose|x: int| 0 <= x < ids(apps).len() && ids(apps)[x] == d;
                    assert(apps[x].dir@ == d);
                    assert(affects(inp0, roots, apps[x].dir@));
                    lemma_affects_step(inp0, roots, item.dir@, d);
                }
                assert(affects(inp0, roots, item.dir@));
            } else {
                // no dependency is in the seen set, so the node is unaffected
                if affects(inp0, roots, item.dir@) {
                    let p = choose|p: Seq<Seq<char>>|
                        #[trigger] down_path(inp0, roots, p) && p[0] == item.dir@;
                    assert(dep_edge(inp0, p[0], p[1]));
                    lemma_edge_unique_node(inp0, item, p[1]);
                    let d = p[1];
                    let kd = choose|kd: int|
                        0 <= kd < deps_of(item).len() && deps_of(item)[kd] == d;
                    if p.len() == 2 {
                        assert(roots.contains(d));
                        assert(seen.deep_view().contains(d));
                        assert(item.dependencies.deep_view()[kd] == d);
                        assert(false);
                    } else {
                        let p2 = p.skip(1);
                        assert(down_path(inp0, roots, p2)) by {
                            assert(p2.last() == p.last());
                            assert forall|k: int| 0 <= k < p2.len() - 1 implies dep_edge(
                                inp0,
                                #[trigger] p2[k],
                                p2[k + 1],
                            ) by {
                                assert(p2[k] == p[k + 1] && p2[k + 1] == p[k + 2]);
                            }
                        }
                        assert(p2[0] == d);
                        assert(affects(inp0, roots, d));
                        // its node stands earlier in the order, already scanned
                        assert(dep_sat(t, scanned, kd));
                        let j = choose|j: int| 0 <= j < scanned && t[j].dir@ == deps_of(
                            t[scanned],
                        )[kd];
                        assert(t[j].dir@ == d);
                        assert(ids(apps).contains(d));
                        assert(seen.deep_view().contains(d));
                        assert(item.dependencies.deep_view()[kd] == d);
                        assert(false);
                    }
                }
            }
        }
        if hit {
            proof {
                apps = apps.push(item);
            }
            push_unique(&mut seen, &item.dir);
            let ghost respre = result@;
            result.push(item);
            proof {
                assert(ids(apps) =~= ids(appsp).push(item.dir@));
                assert forall|id: Seq<char>|
                    #![trigger ids(apps).contains(id)]
                    ids(apps).contains(id) <==> (ids(appsp).contains(id) || id == item.dir@) by {
                    if ids(apps).contains(id) {
                        let x = choose|x: int| 0 <= x < ids(apps).len() && ids(apps)[x] == id;
                        if x < appsp.len() {
                            assert(ids(appsp)[x] == id);
                        }
                    }
                    if ids(appsp).contains(id) {
                        let x = choose|x: int| 0 <= x < ids(appsp).len() && ids(appsp)[x] == id;
                        assert(ids(apps)[x] == id);
                    }
                    if id == item.dir@ {
                        assert(ids(apps)[appsp.len() as int] == item.dir@);
                    }
                }
                assert(seen_matches(roots, apps, seen.deep_view()));
                assert(apps_ok(inp0, roots, t, scanned + 1, apps)) by {
                    assert forall|x: int| #![trigger apps[x]] 0 <= x < apps.len() implies affects(
                        inp0,
                        roots,
                        apps[x].dir@,
                    ) && exists|j: int| 0 <= j < scanned + 1 && t[j] == apps[x] by {
                        if x < appsp.len() {
                            assert(apps[x] == appsp[x]);
                            let j = choose|j: int| 0 <= j < scanned && t[j] == appsp[x];
                            assert(t[j] == apps[x]);
                        } else {
                            assert(apps[x] == item);
                            assert(t[scanned] == apps[x]);
                        }
                    }
                }
                assert(scanned_iff_app(inp0, roots, t, scanned + 1, apps)) by {
                    assert forall|j: int| #![trigger t[j]] 0 <= j < scanned + 1 implies (affects(
                        inp0,
                        roots,
                        t[j].dir@,
                    ) <==> ids(apps).contains(t[j].dir@)) by {
                        if j < scanned {
                            if ids(apps).contains(t[j].dir@) && !ids(appsp).contains(t[j].dir@) {
                                assert(t[j].dir@ == item.dir@);
                                assert(false);
                            }
                        }
                    }
                }
                assert(t.take(scanned + 1) =~= t.take(scanned).push(t[scanned]));
                lemma_filter_push(t.take(scanned), dept_pred(inp0, roots, include_roots), item);
                assert(dept_pred(inp0, roots, include_roots)(item));
                assert(result@ =~= respre.push(item));
                assert(result@ == t.take(scanned + 1).filter(
                    dept_pred(inp0, roots, include_roots),
                ));
            }
        } else {
            let emit = if include_roots {
                contains_id(&seen, &item.dir)
            } else {
                false
            };
            proof {
                // with no affecting dependency, the node is emitted only as a
                // requested root
                assert(seen.deep_view().contains(item.dir@) ==> roots.contains(item.dir@));
                if roots.contains(item.dir@) {
                    assert(seen.deep_view().contains(item.dir@));
                }
                assert(emit == dept_pred(inp0, roots, include_roots)(item));
            }
            if emit {
                let ghost respre = result@;
                result.push(item);
                proof {
                    assert(t.take(scanned + 1) =~= t.take(scanned).push(t[scanned]));
                    lemma_filter_push(
                        t.take(scanned),
                        dept_pred(inp0, roots, include_roots),
                        item,
                    );
                    assert(result@ =~= respre.push(item));
                    assert(result@ == t.take(scanned + 1).filter(
                        dept_pred(inp0, roots, include_roots),
                    ));
                }
            } else {
                proof {
                    assert(t.take(scanned + 1) =~= t.take(scanned).push(t[scanned]));
                    lemma_filter_push(
                        t.take(scanned),
                        dept_pred(inp0, roots, include_roots),
                        item,
                    );
                    assert(result@ == t.take(scanned + 1).filter(
                        dept_pred(inp0, roots, include_roots),
                    ));
                }
            }
            proof {
                assert(scanned_iff_app(inp0, roots, t, scanned + 1, apps)) by {
                    assert forall|j: int| #![trigger t[j]] 0 <= j < scanned + 1 implies (affects(
                        inp0,
                        roots,
                        t[j].dir@,
                    ) <==> ids(apps).contains(t[j].dir@)) by {
                        if j == scanned {
                            assert(!affects(inp0, roots, t[j].dir@));
                            assert(!ids(apps).contains(t[j].dir@));
                        }
                    }
                }
                assert(apps_ok(inp0, roots, t, scanned + 1, apps)) by {
                    assert forall|x: int| #![trigger apps[x]] 0 <= x < apps.len() implies affects(
                        inp0,
                        roots,
                        apps[x].dir@,
                    ) && exists|j: int| 0 <= j < scanned + 1 && t[j] == apps[x] by {
                        let j = choose|j: int| 0 <= j < scanned && t[j] == apps[x];
                        assert(t[j] == apps[x]);
                    }
                }
            }
        }
    }
    proof {
        assert(t.take(n as int) =~= t);
        assert(result@ == t.filter(dept_pred(inp0, roots, include_roots)));
        assert(dept_result_ok(inp0, roots, include_roots, result@));
    }
    Ok(result)
}

// ------------------------------------------------------------------
// the forward closure: transitive dependencies

/// The predicate deciding which nodes the forward-closure query emits.
pub open spec fn dep_pred(
    inp: Seq<Component>,
    roots: Seq<Seq<char>>,
    include_roots: bool,
) -> spec_fn(Component) -> bool {
    |c: Component| dep_included(inp, roots, include_roots, c.dir@)
}

/// The result is some dependency-first permutation of the registry filtered
/// to the emitted nodes — reversed into consumer-first order on request.
pub open spec fn dep_result_ok(
    inp: Seq<Component>,
    roots: Seq<Seq<char>>,
    include_roots: bool,
    reverse_order: bool,
    out: Seq<Component>,
) -> bool {
    exists|t: Seq<Component>|
        #[trigger] t.to_multiset() == inp.to_multiset() && dep_first(t) && out == if reverse_order {
            t.filter(dep_pred(inp, roots, include_roots)).reverse()
        } else {
            t.filter(dep_pred(inp, roots, include_roots))
        }
}

/// Some already-processed node declares `id` as a dependency.
spec fn dep_of_hit(hits: Seq<Component>, id: Seq<char>) -> bool {
    exists|x: int| 0 <= x < hits.len() && deps_of(hits[x]).contains(id)
}

/// The needed set holds exactly the ids that are still wanted: roots and
/// dependencies of processed nodes whose own node was not yet processed.
spec fn needed_matches(
    roots: Seq<Seq<char>>,
    hits: Seq<Component>,
    nd: Seq<Seq<char>>,
) -> bool {
    forall|id: Seq<char>|
        #![trigger nd.contains(id)]
        nd.contains(id) <==> ((roots.contains(id) || dep_of_hit(hits, id)) && !ids(hits).contains(
            id,
        ))
}

/// Every processed node is a reached member of the scanned suffix.
spec fn hits_ok(
    inp: Seq<Component>,
    roots: Seq<Seq<char>>,
    t: Seq<Component>,
    wlen: int,
    hits: Seq<Component>,
) -> bool {
    forall|x: int|
        #![trigger hits[x]]
        0 <= x < hits.len() ==> reaches(inp, roots, hits[x].dir@) && exists|j: int|
            wlen <= j < t.len() && t[j] == hits[x]
}

/// A scanned node was processed exactly when it is reached.
spec fn scanned_iff_hit(
    inp: Seq<Component>,
    roots: Seq<Seq<char>>,
    t: Seq<Component>,
    wlen: int,
    hits: Seq<Component>,
) -> bool {
    forall|j: int|
        #![trigger t[j]]
        wlen <= j < t.len() ==> (reaches(inp, roots, t[j].dir@) <==> ids(hits).contains(t[j].dir@))
}

/// When nothing is wanted any more, every id a path can reach belongs to a
/// processed node.
proof fn lemma_empty_needed_hit(
    inp: Seq<Component>,
    roots: Seq<Seq<char>>,
    hits: Seq<Component>,
    p: Seq<Seq<char>>,
)
    requires
        unique_ids(inp),
        forall|x: int| #![trigger hits[x]] 0 <= x < hits.len() ==> inp.contains(hits[x]),
        forall|id: Seq<char>| #![trigger roots.contains(id)] roots.contains(id) ==> ids(
            hits,
        ).contains(id),
        forall|id: Seq<char>| #![trigger dep_of_hit(hits, id)] dep_of_hit(hits, id) ==> ids(
            hits,
        ).contains(id),
        valid_path(inp, roots, p),
    ensures
        ids(hits).contains(p.last()),
    decreases p.len(),
{
    if p.len() == 1 {
        assert(roots.contains(p[0]));
    } else {
        let q = p.take(p.len() - 1);
        assert(q[0] == p[0]);
        assert forall|k: int| 0 <= k < q.len() - 1 implies dep_edge(inp, #[trigger] q[k], q[k + 1])
            by {
            assert(q[k] == p[k] && q[k + 1] == p[k + 1]);
        }
        assert(valid_path(inp, roots, q));
        lemma_empty_needed_hit(inp, roots, hits, q);
        let m = q.last();
        assert(m == p[p.len() - 2]);
        let x = choose|x: int| 0 <= x < ids(hits).len() && ids(hits)[x] == m;
        assert(hits[x].dir@ == m);
        assert(dep_edge(inp, p[p.len() - 2], p.last()));
        lemma_edge_unique_node(inp, hits[x], p.last());
        assert(dep_of_hit(hits, p.last()));
    }
}

/// Filtering keeps nothing when the predicate holds of no element.
proof fn lemma_filter_none(s: Seq<Component>, pred: spec_fn(Component) -> bool)
    requires
        forall|i: int| 0 <= i < s.len() ==> !pred(#[trigger] s[i]),
    ensures
        s.filter(pred) == Seq::<Component>::empty(),
    decreases s.len(),
{
    reveal(Seq::filter);
    if s.len() > 0 {
        lemma_filter_none(s.drop_last(), pred);
        assert(!pred(s.last()));
    }
}

/// Filtering commutes with reversal.
proof fn lemma_filter_reverse(s: Seq<Component>, pred: spec_fn(Component) -> bool)
    ensures
        s.reverse().filter(pred) == s.filter(pred).reverse(),
    decreases s.len(),
{
    broadcast use vstd::seq::Seq::filter_distributes_over_add;

    reveal(Seq::filter);
    if s.len() == 0 {
        assert(s.reverse() =~= s);
    } else {
        let u = s.drop_last();
        let x = s.last();
        lemma_filter_reverse(u, pred);
        assert(s.reverse() =~= seq![x] + u.reverse());
        assert((seq![x] + u.reverse()).filter(pred) == seq![x].filter(pred) + u.reverse().filter(
            pred,
        ));
        assert(seq![x].drop_last() =~= Seq::<Component>::empty());
        assert(Seq::<Component>::empty().filter(pred) =~= Seq::<Component>::empty());
        if pred(x) {
            assert(seq![x].filter(pred) =~= seq![x]);
            assert(s.filter(pred) == u.filter(pred).push(x));
            assert(s.filter(pred).reverse() =~= seq![x] + u.filter(pred).reverse());
        } else {
            assert(seq![x].filter(pred) =~= Seq::<Component>::empty());
            assert(s.filter(pred) == u.filter(pred));
            assert(s.reverse().filter(pred) =~= u.reverse().filter(pred));
        }
    }
}

/// Emits every component that one of the requested roots transitively
/// requires — and, when asked, the roots themselves — in dependency-first
/// order, or reversed on request. A requested id or declared dependency
/// that names no component fails the query up front, naming every such id;
/// a registry whose references are all present but cannot be sorted fails
/// with the cycle diagnosis.
#[verifier::loop_isolation(false)]
#[verifier::rlimit(100)]
pub fn transitive_dependencies(
    inp: Vec<Component>,
    dirs: &Vec<String>,
    include_roots: bool,
    reverse_order: bool,
) -> (r: Result<Vec<Component>, CustomError>)
    requires
        unique_ids(inp@),
    ensures
        r is Ok <==> sortable(inp@) && refs_present(inp@, dirs.deep_view()),
        r is Ok ==> dep_result_ok(
            inp@,
            dirs.deep_view(),
            include_roots,
            reverse_order,
            r->Ok_0@,
        ),
        r is Err ==> r->Err_0 is CycleError || r->Err_0 is MissingDepError,
        (r is Err && r->Err_0 is CycleError) <==> refs_present(inp@, dirs.deep_view())
            && !sortable(inp@),
        r is Err && r->Err_0 is CycleError ==> valid_cycle_report(inp@, r->Err_0->CycleError_0@),
        (r is Err && r->Err_0 is MissingDepError) <==> !refs_present(inp@, dirs.deep_view()),
        r is Err && r->Err_0 is MissingDepError ==> missing_ref_report_ok(
            inp@,
            dirs.deep_view(),
            r->Err_0->MissingDepError_0.deep_view(),
        ),
{
    broadcast use vstd::seq_lib::group_to_multiset_ensures;
    broadcast use vstd::multiset::group_multiset_axioms;

    let ghost inp0 = inp@;
    let ghost roots = dirs.deep_view();

    // every referenced id — requested root or declared dependency — must
    // name a component
    let missing = collect_missing_refs(&inp, dirs);
    if missing.len() > 0 {
        proof {
            let id0 = missing.deep_view()[0];
            assert(missing.deep_view().contains(id0));
            assert(referenced(inp0, roots, id0) && !has_id(inp0, id0));
            assert(!refs_present(inp0, roots));
            assert forall|k: int|
                #![trigger missing.deep_view()[k]]
                0 <= k < missing.deep_view().len() implies referenced(
                inp0,
                roots,
                missing.deep_view()[k],
            ) && !has_id(inp0, missing.deep_view()[k]) by {
                assert(missing.deep_view().contains(missing.deep_view()[k]));
            }
        }
        return Err(CustomError::MissingDepError(missing));
    }
    proof {
        assert(refs_present(inp0, roots)) by {
            assert forall|id: Seq<char>| #![trigger referenced(inp0, roots, id)] referenced(
                inp0,
                roots,
                id,
            ) implies has_id(inp0, id) by {
                if !has_id(inp0, id) {
                    assert(missing.deep_view().contains(id));
                    assert(missing.deep_view().len() == 0);
                }
            }
        }
    }

    let sorted = match toposort(inp) {
        Ok(s) => s,
        Err(e) => {
            return Err(e);
        },
    };
    let ghost t = sorted@;
    proof {
        lemma_perm_unique(inp0, t);
        lemma_ids_contains(t);
        lemma_has_id_perm(inp0, t);
    }
    let n = sorted.len();

    let mut needed: Vec<String> = Vec::new();
    let mut i: usize = 0;
    while i < dirs.len()
        invariant
            i <= dirs.len(),
            needed.deep_view().no_duplicates(),
            forall|id: Seq<char>|
                #![trigger needed.deep_view().contains(id)]
                needed.deep_view().contains(id) <==> exists|k: int|
                    0 <= k < i && roots[k] == id,
        decreases dirs.len() - i,
    {
        push_unique(&mut needed, &dirs[i]);
        proof {
            assert forall|id: Seq<char>|
                #![trigger needed.deep_view().contains(id)]
                needed.deep_view().contains(id) <==> exists|k: int|
                    0 <= k < i + 1 && roots[k] == id by {
                if needed.deep_view().contains(id) {
                    if id == roots[i as int] {
                        assert(roots[i as int] == id);
                    }
                }
                if exists|k: int| 0 <= k < i + 1 && roots[k] == id {
                    let k = choose|k: int| 0 <= k < i + 1 && roots[k] == id;
                }
            }
        }
        i = i + 1;
    }
    let mut work = sorted;
    let mut result: Vec<Component> = Vec::new();
    let ghost mut hits: Seq<Component> = Seq::empty();
    proof {
        assert(needed_matches(roots, hits, needed.deep_view())) by {
            assert forall|id: Seq<char>|
                #![trigger needed.deep_view().contains(id)]
                needed.deep_view().contains(id) <==> ((roots.contains(id) || dep_of_hit(hits, id))
                    && !ids(hits).contains(id)) by {
                if roots.contains(id) {
                    let k = choose|k: int| 0 <= k < roots.len() && roots[k] == id;
                }
            }
        }
        assert(result@ =~= t.skip(n as int).reverse().filter(
            dep_pred(inp0, roots, include_roots),
        )) by {
            reveal(Seq::filter);
            assert(t.skip(n as int) =~= Seq::<Component>::empty());
            assert(t.skip(n as int).reverse() =~= Seq::<Component>::empty());
        }
        assert(t.take(n as int) =~= t);
        assert(work@ == t.take(n as int));
    }
    while work.len() > 0 && needed.len() > 0
        invariant
            work@.len() <= n,
            n == t.len(),
            work@ == t.take(work@.len() as int),
            needed.deep_view().no_duplicates(),
            needed_matches(roots, hits, needed.deep_view()),
            hits_ok(inp0, roots, t, work@.len() as int, hits),
            scanned_iff_hit(inp0, roots, t, work@.len() as int, hits),
            result@ == t.skip(work@.len() as int).reverse().filter(
                dep_pred(inp0, roots, include_roots),
            ),
        decreases work@.len(),
    {
        let ghost wlen = work@.len() as int;
        let ghost hitsp = hits;
        let item = work.pop().unwrap();
        let ghost pos = wlen - 1;
        proof {
            assert(item == t[pos]);
            assert(work@ =~= t.take(pos));
            assert(t.contains(item));
            assert(inp0.contains(item));
            // no processed node shares this dir
            assert(!ids(hitsp).contains(item.dir@)) by {
                if ids(hitsp).contains(item.dir@) {
                    let x = choose|x: int|
                        0 <= x < ids(hitsp).len() && ids(hitsp)[x] == item.dir@;
                    assert(hitsp[x].dir@ == item.dir@);
                    let j = choose|j: int| wlen <= j < t.len() && t[j] == hitsp[x];
                    assert(t[j].dir@ == t[pos].dir@);
                    assert(false);
                }
            }
            // no dependency of this node names a processed node or itself
            assert forall|kd: int| 0 <= kd < deps_of(item).len() implies !ids(hitsp).contains(
                #[trigger] deps_of(item)[kd],
            ) && deps_of(item)[kd] != item.dir@ by {
                let d = deps_of(item)[kd];
                assert(dep_sat(t, pos, kd));
                let j = choose|j: int| 0 <= j < pos && t[j].dir@ == deps_of(t[pos])[kd];
                if ids(hitsp).contains(d) {
                    let x = choose|x: int| 0 <= x < ids(hitsp).len() && ids(hitsp)[x] == d;
                    let j2 = choose|j2: int| wlen <= j2 < t.len() && t[j2] == hitsp[x];
                    assert(t[j2].dir@ == t[j].dir@);
                    assert(false);
                }
                assert(t[j].dir@ != t[pos].dir@);
            }
        }
        let was_needed = remove_from(&mut needed, &item.dir);
        proof {
            if was_needed {
                // a wanted node is reached
                assert(roots.contains(item.dir@) || dep_of_hit(hitsp, item.dir@));
                if roots.contains(item.dir@) {
                    lemma_reaches_root(inp0, roots, item.dir@);
                } else {
                    let x = choose|x: int|
                        0 <= x < hitsp.len() && deps_of(hitsp[x]).contains(item.dir@);
                    let j = choose|j: int| wlen <= j < t.len() && t[j] == hitsp[x];
                    assert(t.contains(hitsp[x]));
                    assert(inp0.contains(hitsp[x]));
                    lemma_edge_from_member(inp0, hitsp[x], item.dir@);
                    lemma_reaches_step(inp0, roots, hitsp[x].dir@, item.dir@);
                }
                assert(reaches(inp0, roots, item.dir@));
            } else {
                // an unwanted node is unreached
                if reaches(inp0, roots, item.dir@) {
                    let p = choose|p: Seq<Seq<char>>|
                        #[trigger] valid_path(inp0, roots, p) && p.last() == item.dir@;
                    if p.len() == 1 {
                        assert(roots.contains(item.dir@));
                        assert(!needed.deep_view().contains(item.dir@));
                        assert(ids(hitsp).contains(item.dir@));
                        assert(false);
                    } else {
                        lemma_reaches_penult(inp0, roots, p);
                        let m = p[p.len() - 2];
                        assert(dep_edge(inp0, m, item.dir@));
                        let im = choose|im: int|
                            0 <= im < inp0.len() && inp0[im].dir@ == m && deps_of(
                                inp0[im],
                            ).contains(item.dir@);
                        assert(inp0.contains(inp0[im]));
                        assert(t.contains(inp0[im]));
                        let jm = choose|jm: int| 0 <= jm < t.len() && t[jm] == inp0[im];
                        let kd = choose|kd: int|
                            0 <= kd < deps_of(t[jm]).len() && deps_of(t[jm])[kd] == item.dir@;
                        assert(dep_sat(t, jm, kd));
                        let j0 = choose|j0: int|
                            0 <= j0 < jm && t[j0].dir@ == deps_of(t[jm])[kd];
                        assert(t[j0].dir@ == t[pos].dir@);
                        assert(j0 == pos);
                        assert(jm > pos);
                        assert(reaches(inp0, roots, t[jm].dir@));
                        assert(ids(hitsp).contains(m));
                        let x = choose|x: int| 0 <= x < ids(hitsp).len() && ids(hitsp)[x] == m;
                        assert(hitsp[x].dir@ == m);
                        let jx = choose|jx: int| wlen <= jx < t.len() && t[jx] == hitsp[x];
                        assert(t.contains(hitsp[x]));
                        assert(inp0.contains(hitsp[x]));
                        lemma_edge_unique_node(inp0, hitsp[x], item.dir@);
                        assert(dep_of_hit(hitsp, item.dir@));
                        assert(!needed.deep_view().contains(item.dir@));
                        assert(ids(hitsp).contains(item.dir@));
                        assert(false);
                    }
                }
            }
        }
        if was_needed {
            let keep = include_roots || !contains_id(dirs, &item.dir);
            proof {
                // the node is emitted exactly when the query includes it:
                // it exists, is reached, and is not an excluded root
                assert(has_id(inp0, item.dir@)) by {
                    let a = choose|a: int| 0 <= a < inp0.len() && inp0[a] == item;
                }
                assert(keep == dep_pred(inp0, roots, include_roots)(item));
            }
            // extend the needed set with this node's dependencies
            let ghost ndpost = needed.deep_view();
            let mut q: usize = 0;
            while q < item.dependencies.len()
                invariant
                    q <= item.dependencies.len(),
                    needed.deep_view().no_duplicates(),
                    forall|id: Seq<char>|
                        #![trigger needed.deep_view().contains(id)]
                        needed.deep_view().contains(id) <==> (ndpost.contains(id) || deps_of(
                            item,
                        ).take(q as int).contains(id)),
                decreases item.dependencies.len() - q,
            {
                push_unique(&mut needed, &item.dependencies[q]);
                proof {
                    assert(deps_of(item)[q as int] == item.dependencies.deep_view()[q as int]);
                    assert forall|id: Seq<char>|
                        #![trigger deps_of(item).take(q as int + 1).contains(id)]
                        deps_of(item).take(q as int + 1).contains(id) <==> (deps_of(item).take(
                        q as int,
                    ).contains(id) || id == deps_of(item)[q as int]) by {
                        let u = deps_of(item).take(q as int + 1);
                        if u.contains(id) {
                            let w = choose|w: int| 0 <= w < u.len() && u[w] == id;
                            if w < q {
                                assert(deps_of(item).take(q as int)[w] == id);
                            }
                        }
                        if deps_of(item).take(q as int).contains(id) {
                            let w = choose|w: int|
                                0 <= w < q && deps_of(item).take(q as int)[w] == id;
                            assert(u[w] == id);
                        }
                        if id == deps_of(item)[q as int] {
                            assert(u[q as int] == id);
                        }
                    }
                }
                q = q + 1;
            }
            proof {
                assert(deps_of(item).take(item.dependencies@.len() as int) =~= deps_of(item));
                hits = hitsp.push(item);
                assert(ids(hits) =~= ids(hitsp).push(item.dir@));
                assert forall|id: Seq<char>|
                    ids(hits).contains(id) <==> (ids(hitsp).contains(id) || id == item.dir@) by {
                    if ids(hits).contains(id) {
                        let x = choose|x: int| 0 <= x < ids(hits).len() && ids(hits)[x] == id;
                        if x < hitsp.len() {
                            assert(ids(hitsp)[x] == id);
                        }
                    }
                    if ids(hitsp).contains(id) {
                        let x = choose|x: int| 0 <= x < ids(hitsp).len() && ids(hitsp)[x] == id;
                        assert(ids(hits)[x] == id);
                    }
                    if id == item.dir@ {
                        assert(ids(hits)[hitsp.len() as int] == item.dir@);
                    }
                }
                assert forall|id: Seq<char>|
                    dep_of_hit(hits, id) <==> (dep_of_hit(hitsp, id) || deps_of(item).contains(
                    id,
                )) by {
                    if dep_of_hit(hits, id) {
                        let x = choose|x: int|
                            0 <= x < hits.len() && deps_of(hits[x]).contains(id);
                        if x < hitsp.len() {
                            assert(deps_of(hitsp[x]).contains(id));
                        } else {
                            assert(hits[x] == item);
                        }
                    }
                    if dep_of_hit(hitsp, id) {
                        let x = choose|x: int|
                            0 <= x < hitsp.len() && deps_of(hitsp[x]).contains(id);
                        assert(deps_of(hits[x]).contains(id));
                    }
                    if deps_of(item).contains(id) {
                        assert(deps_of(hits[hitsp.len() as int]).contains(id));
                    }
                }
                assert(needed_matches(roots, hits, needed.deep_view())) by {
                    assert forall|id: Seq<char>|
                        #![trigger needed.deep_view().contains(id)]
                        needed.deep_view().contains(id) <==> ((roots.contains(id) || dep_of_hit(
                            hits,
                            id,
                        )) && !ids(hits).contains(id)) by {
                        if deps_of(item).contains(id) {
                            let kd = choose|kd: int|
                                0 <= kd < deps_of(item).len() && deps_of(item)[kd] == id;
                            assert(!ids(hitsp).contains(id) && id != item.dir@);
                        }
                    }
                }
                assert(hits_ok(inp0, roots, t, pos, hits)) by {
                    assert forall|x: int| #![trigger hits[x]] 0 <= x < hits.len() implies reaches(
                        inp0,
                        roots,
                        hits[x].dir@,
                    ) && exists|j: int| pos <= j < t.len() && t[j] == hits[x] by {
                        if x < hitsp.len() {
                            assert(hits[x] == hitsp[x]);
                            let j = choose|j: int| wlen <= j < t.len() && t[j] == hitsp[x];
                            assert(pos <= j < t.len() && t[j] == hits[x]);
                        } else {
                            assert(hits[x] == item);
                            assert(t[pos] == hits[x]);
                        }
                    }
                }
                assert(scanned_iff_hit(inp0, roots, t, pos, hits)) by {
                    assert forall|j: int| #![trigger t[j]] pos <= j < t.len() implies (reaches(
                        inp0,
                        roots,
                        t[j].dir@,
                    ) <==> ids(hits).contains(t[j].dir@)) by {
                        if j > pos {
                            if ids(hits).contains(t[j].dir@) && !ids(hitsp).contains(t[j].dir@) {
                                assert(t[j].dir@ == item.dir@);
                                assert(false);
                            }
                        }
                    }
                }
            }
            let ghost respre = result@;
            if keep {
                result.push(item);
            }
            proof {
                assert(t.skip(pos).reverse() =~= t.skip(pos + 1).reverse().push(t[pos]));
                lemma_filter_push(
                    t.skip(pos + 1).reverse(),
                    dep_pred(inp0, roots, include_roots),
                    item,
                );
                if keep {
                    assert(result@ =~= respre.push(item));
                }
                assert(result@ == t.skip(pos).reverse().filter(
                    dep_pred(inp0, roots, include_roots),
                ));
            }
        } else {
            proof {
                assert forall|y: Seq<char>|
                    #![trigger needed.deep_view().contains(y)]
                    needed.deep_view().contains(y) <==> ((roots.contains(y) || dep_of_hit(
                        hits,
                        y,
                    )) && !ids(hits).contains(y)) by {
                    if y == item.dir@ {
                        assert(!needed.deep_view().contains(y));
                    }
                }
                assert(needed_matches(roots, hits, needed.deep_view()));
                assert(hits_ok(inp0, roots, t, pos, hits)) by {
                    assert forall|x: int| #![trigger hits[x]] 0 <= x < hits.len() implies reaches(
                        inp0,
                        roots,
                        hits[x].dir@,
                    ) && exists|j: int| pos <= j < t.len() && t[j] == hits[x] by {
                        let j = choose|j: int| wlen <= j < t.len() && t[j] == hitsp[x];
                        assert(pos <= j < t.len() && t[j] == hits[x]);
                    }
                }
                assert(scanned_iff_hit(inp0, roots, t, pos, hits)) by {
                    assert forall|j: int| #![trigger t[j]] pos <= j < t.len() implies (reaches(
                        inp0,
                        roots,
                        t[j].dir@,
                    ) <==> ids(hits).contains(t[j].dir@)) by {
                        if j == pos {
                            assert(!reaches(inp0, roots, t[pos].dir@));
                            assert(!ids(hits).contains(t[pos].dir@));
                        }
                    }
                }
                assert(t.skip(pos).reverse() =~= t.skip(pos + 1).reverse().push(t[pos]));
                lemma_filter_push(
                    t.skip(pos + 1).reverse(),
                    dep_pred(inp0, roots, include_roots),
                    item,
                );
                assert(!dep_pred(inp0, roots, include_roots)(item));
                assert(result@ == t.skip(pos).reverse().filter(
                    dep_pred(inp0, roots, include_roots),
                ));
            }
        }
    }
    let ghost wfin = work@.len() as int;
    proof {
        // nothing is wanted any more: with every referenced id present, a
        // full scan leaves the needed set empty
        assert forall|id: Seq<char>| !(#[trigger] needed.deep_view().contains(id)) by {
            if needed.deep_view().contains(id) {
                assert(needed@.len() > 0);
                assert(wfin == 0);
                // the id is reached
                if roots.contains(id) {
                    lemma_reaches_root(inp0, roots, id);
                } else {
                    assert(dep_of_hit(hits, id));
                    let x = choose|x: int| 0 <= x < hits.len() && deps_of(hits[x]).contains(id);
                    let j = choose|j: int| wfin <= j < t.len() && t[j] == hits[x];
                    assert(t.contains(hits[x]));
                    assert(inp0.contains(hits[x]));
                    lemma_edge_from_member(inp0, hits[x], id);
                    lemma_reaches_step(inp0, roots, hits[x].dir@, id);
                }
                assert(reaches(inp0, roots, id));
                // yet its component was never processed, so no component
                // carries it
                if has_id(inp0, id) {
                    assert(has_id(t, id));
                    let j = choose|j: int| 0 <= j < t.len() && t[j].dir@ == id;
                    assert(reaches(inp0, roots, t[j].dir@));
                    assert(ids(hits).contains(id));
                    assert(false);
                }
                // but an absent wanted id is a referenced absent id
                assert(referenced(inp0, roots, id)) by {
                    if !roots.contains(id) {
                        let x = choose|x: int|
                            0 <= x < hits.len() && deps_of(hits[x]).contains(id);
                        let j = choose|j: int| wfin <= j < t.len() && t[j] == hits[x];
                        assert(t.contains(hits[x]));
                        assert(inp0.contains(hits[x]));
                        let a = choose|a: int| 0 <= a < inp0.len() && inp0[a] == hits[x];
                        assert(deps_of(inp0[a]).contains(id));
                        assert(declared_dep(inp0, id));
                    }
                }
                assert(has_id(inp0, id));
                assert(false);
            }
        }
    }
    proof {
        // nothing is wanted: every processed-node dir covers the closure
        assert forall|id: Seq<char>| #![trigger roots.contains(id)] roots.contains(id) implies ids(
            hits,
        ).contains(id) by {
            assert(!needed.deep_view().contains(id));
        }
        assert forall|id: Seq<char>|
            #![trigger dep_of_hit(hits, id)]
            dep_of_hit(hits, id) implies ids(hits).contains(id) by {
            assert(!needed.deep_view().contains(id));
        }
        assert forall|x: int| #![trigger hits[x]] 0 <= x < hits.len() implies inp0.contains(
            hits[x],
        ) by {
            let j = choose|j: int| wfin <= j < t.len() && t[j] == hits[x];
            assert(t.contains(hits[x]));
        }
        // nothing in the unscanned prefix is emitted
        assert forall|i2: int| 0 <= i2 < t.take(wfin).reverse().len() implies !dep_pred(
            inp0,
            roots,
            include_roots,
        )(#[trigger] t.take(wfin).reverse()[i2]) by {
            let c = t.take(wfin).reverse()[i2];
            let j = wfin - 1 - i2;
            assert(c == t[j]);
            if reaches(inp0, roots, c.dir@) {
                let p = choose|p: Seq<Seq<char>>|
                    #[trigger] valid_path(inp0, roots, p) && p.last() == c.dir@;
                lemma_empty_needed_hit(inp0, roots, hits, p);
                let x = choose|x: int| 0 <= x < ids(hits).len() && ids(hits)[x] == c.dir@;
                assert(hits[x].dir@ == c.dir@);
                let jx = choose|jx: int| wfin <= jx < t.len() && t[jx] == hits[x];
                assert(t[jx].dir@ == t[j].dir@);
                assert(false);
            }
        }
        lemma_filter_none(t.take(wfin).reverse(), dep_pred(inp0, roots, include_roots));
        assert(t.reverse() =~= t.skip(wfin).reverse() + t.take(wfin).reverse());
        broadcast use vstd::seq::Seq::filter_distributes_over_add;

        assert(t.reverse().filter(dep_pred(inp0, roots, include_roots)) == t.skip(
            wfin,
        ).reverse().filter(dep_pred(inp0, roots, include_roots)) + t.take(wfin).reverse().filter(
            dep_pred(inp0, roots, include_roots),
        ));
        assert(result@ =~= t.reverse().filter(dep_pred(inp0, roots, include_roots)));
        lemma_filter_reverse(t, dep_pred(inp0, roots, include_roots));
    }
    if reverse_order {
        proof {
            assert(result@ == t.filter(dep_pred(inp0, roots, include_roots)).reverse());
            assert(dep_result_ok(inp0, roots, include_roots, reverse_order, result@));
        }
        Ok(result)
    } else {
        let ordered = reverse_components(result);
        proof {
            assert(ordered@ == t.filter(dep_pred(inp0, roots, include_roots)).reverse().reverse());
            assert(ordered@ =~= t.filter(dep_pred(inp0, roots, include_roots)));
            assert(dep_result_ok(inp0, roots, include_roots, reverse_order, ordered@));
        }
        Ok(ordered)
    }
}

} // verus!
