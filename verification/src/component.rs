use vstd::prelude::*;

use crate::lexorder::{lexf, sort_ids};
use crate::toposort::contains_id;

verus! {

/// The open bag of extra fields of a component record. The core never reads
/// inside it; it is carried through every computation unchanged.
#[verifier::external_type_specification]
#[verifier::external_body]
pub struct ExValue(serde_json::Value);

/// Relies on serde_json::Map::new and serde_json::Value::Object: builds the
/// empty extra-field bag for a freshly constructed component.
#[verifier::external_body]
pub fn empty_extra() -> serde_json::Value {
    serde_json::Value::Object(serde_json::Map::new())
}

/// A node of the dependency graph: a unique directory id, the ids it depends
/// on, the hash fields filled in by the hasher, and the preserved extra
/// fields.
pub struct Component {
    pub dir: String,
    pub dependencies: Vec<String>,
    pub commit_sha: Option<String>,
    pub commit_sha_short: Option<String>,
    pub tree_sha: Option<String>,
    pub tree_sha_short: Option<String>,
    pub rem: serde_json::Value,
}

impl Component {
    /// The distinct dependency ids, each kept at its first occurrence.
    pub fn depset(&self) -> (r: Vec<String>)
        ensures
            r.deep_view().no_duplicates(),
            forall|id: Seq<char>|
                #![trigger r.deep_view().contains(id)]
                r.deep_view().contains(id) <==> deps_of(*self).contains(id),
    {
        let mut r: Vec<String> = Vec::new();
        let mut i: usize = 0;
        while i < self.dependencies.len()
            invariant
                i <= self.dependencies.len(),
                r.deep_view().no_duplicates(),
                forall|id: Seq<char>|
                    #![trigger r.deep_view().contains(id)]
                    r.deep_view().contains(id) <==> deps_of(*self).take(i as int).contains(id),
            decreases self.dependencies.len() - i,
        {
            let ghost pre = r.deep_view();
            if !contains_id(&r, &self.dependencies[i]) {
                r.push(self.dependencies[i].clone());
                proof {
                    assert(r.deep_view() =~= pre.push(deps_of(*self)[i as int]));
                }
            }
            proof {
                assert forall|id: Seq<char>|
                    #![trigger r.deep_view().contains(id)]
                    r.deep_view().contains(id) <==> deps_of(*self).take(i as int + 1).contains(id)
                    by {
                    let u = deps_of(*self).take(i as int + 1);
                    if r.deep_view().contains(id) {
                        let j = choose|j: int|
                            0 <= j < r.deep_view().len() && r.deep_view()[j] == id;
                        if j < pre.len() {
                            assert(pre[j] == id);
                            assert(pre.contains(id));
                            let w = choose|w: int|
                                0 <= w < i && deps_of(*self).take(i as int)[w] == id;
                            assert(u[w] == id);
                        } else {
                            assert(u[i as int] == id);
                        }
                    }
                    if u.contains(id) {
                        let w = choose|w: int| 0 <= w < u.len() && u[w] == id;
                        if w < i {
                            assert(deps_of(*self).take(i as int)[w] == id);
                            assert(deps_of(*self).take(i as int).contains(id));
                            assert(pre.contains(id));
                            let j2 = choose|j2: int| 0 <= j2 < pre.len() && pre[j2] == id;
                            assert(r.deep_view()[j2] == id);
                            assert(r.deep_view().contains(id));
                        } else {
                            assert(u[w] == deps_of(*self)[i as int]);
                            if pre.contains(deps_of(*self)[i as int]) {
                                let j2 = choose|j2: int| 0 <= j2 < pre.len() && pre[j2] == id;
                                assert(r.deep_view()[j2] == id);
                            } else {
                                assert(r.deep_view()[pre.len() as int] == id);
                            }
                            assert(r.deep_view().contains(id));
                        }
                    }
                }
            }
            i = i + 1;
        }
        proof {
            assert(deps_of(*self).take(self.dependencies@.len() as int) =~= deps_of(*self));
        }
        r
    }

    /// The dependency ids in the canonical lexicographic order.
    pub fn depsorted(&self) -> (r: Vec<String>)
        ensures
            r.deep_view() == deps_of(*self).sort_by(lexf()),
    {
        sort_ids(&self.dependencies)
    }

    /// A fresh component as it stands in a loaded registry: no hash fields,
    /// no extra fields.
    pub fn new(dir: String, dependencies: Vec<String>) -> (r: Component)
        ensures
            r.dir@ == dir@,
            r.dependencies == dependencies,
            r.commit_sha is None,
            r.commit_sha_short is None,
            r.tree_sha is None,
            r.tree_sha_short is None,
    {
        Component {
            dir,
            dependencies,
            commit_sha: None,
            commit_sha_short: None,
            tree_sha: None,
            tree_sha_short: None,
            rem: empty_extra(),
        }
    }
}

/// The dependency ids of a component, as sequences of characters.
pub open spec fn deps_of(c: Component) -> Seq<Seq<char>> {
    c.dependencies.deep_view()
}

/// The ids of a registry, in registry order.
pub open spec fn ids(s: Seq<Component>) -> Seq<Seq<char>> {
    s.map_values(|c: Component| c.dir@)
}

/// Whether some component of the registry carries the given id.
pub open spec fn has_id(s: Seq<Component>, id: Seq<char>) -> bool {
    exists|i: int| 0 <= i < s.len() && s[i].dir@ == id
}

/// Every id occurs at most once in the registry.
pub open spec fn unique_ids(s: Seq<Component>) -> bool {
    forall|i: int, j: int| 0 <= i < j < s.len() ==> s[i].dir@ != s[j].dir@
}

/// There is an edge from `a` to `b`: the component named `a` declares the
/// dependency `b`.
pub open spec fn dep_edge(s: Seq<Component>, a: Seq<char>, b: Seq<char>) -> bool {
    exists|i: int| 0 <= i < s.len() && s[i].dir@ == a && deps_of(s[i]).contains(b)
}

} // verus!
