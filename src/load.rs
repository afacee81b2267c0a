//! Taking over the nodes a loader read: checking them, giving every child
//! name that has no node of its own a placeholder leaf, and counting.
use vstd::prelude::*;
use crate::model::{ALGORITHM_UNDEFINED, Model, ModelStore, StoreError, child_names, contains_name, find, kind_consistent, total_slots, unique_names};
use crate::engine::{kinds_consistent, lemma_slots_push};
use crate::store::copy_names;
use crate::refcount::{lemma_recount_wf, lemma_slots_of_prefix, same_shape, update_reference_count};

verus! {

/// Some node of `ms` lists `n` as a child.
pub open spec fn is_child_name(ms: Seq<Model>, n: Seq<char>) -> bool {
    exists|i: int, k: int| 0 <= i < ms.len() && 0 <= k < child_names(ms[i]).len() && #[trigger] child_names(ms[i])[k] == n
}

/// `t` holds the nodes of `d` first, unchanged but for counts, then one
/// placeholder leaf for each child name that `d` gives no node.
pub open spec fn completed_table(d: Seq<Model>, t: Seq<Model>) -> bool {
    &&& t.len() >= d.len()
    &&& forall|j: int| 0 <= j < d.len() ==> (#[trigger] t[j]).name == d[j].name
        && t[j].algorithm == d[j].algorithm && t[j].children == d[j].children
    &&& forall|j: int| d.len() <= j < t.len() ==> (#[trigger] t[j]).children is None
        && t[j].algorithm is Some && t[j].algorithm->Some_0@ == ALGORITHM_UNDEFINED@
        && is_child_name(d, t[j].name@) && !contains_name(d, t[j].name@)
}

/// Whether every node of `models` has exactly one of algorithm and children.
fn all_kinds_consistent(models: &Vec<Model>) -> (r: bool)
    ensures
        r == kinds_consistent(models@),
{
    let mut i: usize = 0;
    while i < models.len()
        invariant
            i <= models.len(),
            forall|j: int| 0 <= j < i ==> kind_consistent(#[trigger] models@[j]),
        decreases models.len() - i,
    {
        if models[i].algorithm.is_some() == models[i].children.is_some() {
            return false;
        }
        i = i + 1;
    }
    true
}

/// Whether no two nodes of `models` share a name.
fn all_names_unique(models: &Vec<Model>) -> (r: bool)
    ensures
        r == unique_names(models@),
{
    let mut i: usize = 0;
    while i < models.len()
        invariant
            i <= models.len(),
            forall|x: int, y: int| 0 <= x < i && 0 <= y < i && x != y ==> #[trigger] models@[x].name@ != #[trigger] models@[y].name@,
        decreases models.len() - i,
    {
        let mut j: usize = 0;
        while j < i
            invariant
                i < models.len(),
                j <= i,
                forall|x: int, y: int| 0 <= x < i && 0 <= y < i && x != y ==> #[trigger] models@[x].name@ != #[trigger] models@[y].name@,
                forall|y: int| 0 <= y < j ==> #[trigger] models@[y].name@ != models@[i as int].name@,
            decreases i - j,
        {
            if models[j].name.eq(&models[i].name) {
                return false;
            }
            j = j + 1;
        }
        i = i + 1;
    }
    true
}

/// Whether the nodes of `models` hold fewer than `u64::MAX` child slots.
fn slots_fit(models: &Vec<Model>) -> (r: bool)
    ensures
        r == (total_slots(models@) < u64::MAX),
{
    let mut total: u64 = 0;
    let mut j: usize = 0;
    while j < models.len()
        invariant
            j <= models.len(),
            total == total_slots(models@.take(j as int)),
            total < u64::MAX,
        decreases models.len() - j,
    {
        proof {
            assert(models@.take(j + 1).drop_last() =~= models@.take(j as int));
        }
        let len: usize = match &models[j].children {
            Some(ch) => ch.len(),
            None => 0,
        };
        if len as u64 >= u64::MAX - total {
            proof {
                lemma_slots_of_prefix(models@, j + 1);
            }
            return false;
        }
        total = total + len as u64;
        j = j + 1;
    }
    assert(models@.take(j as int) =~= models@);
    true
}

impl ModelStore {
    /// Builds a store from the nodes a loader read and the root's name. Each
    /// node must have exactly one of algorithm and children, and names must
    /// be unique. A child name with no node of its own gets a placeholder
    /// leaf; the root must name a node; counts are computed.
    pub fn load(declared: Vec<Model>, root_name: String) -> (r: Result<ModelStore, StoreError>)
        ensures
            r == Err::<ModelStore, StoreError>(StoreError::KindConflict) <==> !kinds_consistent(declared@),
            r == Err::<ModelStore, StoreError>(StoreError::DuplicateName) <==> kinds_consistent(declared@)
                && !unique_names(declared@),
            r == Err::<ModelStore, StoreError>(StoreError::CapacityExceeded) <==> kinds_consistent(declared@)
                && unique_names(declared@) && total_slots(declared@) >= u64::MAX,
            r == Err::<ModelStore, StoreError>(StoreError::NotFound) <==> kinds_consistent(declared@)
                && unique_names(declared@) && total_slots(declared@) < u64::MAX
                && !contains_name(declared@, root_name@) && !is_child_name(declared@, root_name@),
            r is Ok <==> kinds_consistent(declared@) && unique_names(declared@)
                && total_slots(declared@) < u64::MAX
                && (contains_name(declared@, root_name@) || is_child_name(declared@, root_name@)),
            r is Ok ==> r->Ok_0.wf() && r->Ok_0.root_name == root_name
                && completed_table(declared@, r->Ok_0.models@),
    {
        if !all_kinds_consistent(&declared) {
            return Err(StoreError::KindConflict);
        }
        if !all_names_unique(&declared) {
            return Err(StoreError::DuplicateName);
        }
        if !slots_fit(&declared) {
            return Err(StoreError::CapacityExceeded);
        }
        let ghost d = declared@;
        let n0 = declared.len();
        let mut models = declared;
        proof {
            assert(models@.take(n0 as int) =~= d);
        }
        let mut i: usize = 0;
        while i < n0
            invariant
                n0 == d.len(),
                i <= n0,
                kinds_consistent(d),
                unique_names(d),
                total_slots(d) < u64::MAX,
                completed_table(d, models@),
                unique_names(models@),
                total_slots(models@) == total_slots(d),
                forall|j: int, k: int| 0 <= j < i && 0 <= k < child_names(models@[j]).len()
                    ==> contains_name(models@, #[trigger] child_names(models@[j])[k]),
            decreases n0 - i,
        {
            let kids: Vec<String> = match &models[i].children {
                Some(ch) => copy_names(ch),
                None => Vec::new(),
            };
            let ghost cn = child_names(d[i as int]);
            proof {
                assert(child_names(models@[i as int]) == cn);
                assert(kids@.map_values(|s: String| s@) =~= cn);
            }
            let mut k: usize = 0;
            while k < kids.len()
                invariant
                    n0 == d.len(),
                    i < n0,
                    k <= kids.len(),
                    kids@.map_values(|s: String| s@) == cn,
                    cn == child_names(d[i as int]),
                    kinds_consistent(d),
                    unique_names(d),
                    completed_table(d, models@),
                    unique_names(models@),
                    total_slots(models@) == total_slots(d),
                    forall|j: int, q: int| 0 <= j < i && 0 <= q < child_names(models@[j]).len()
                        ==> contains_name(models@, #[trigger] child_names(models@[j])[q]),
                    forall|q: int| 0 <= q < k ==> contains_name(models@, #[trigger] cn[q]),
                decreases kids.len() - k,
            {
                assert(cn[k as int] == kids@[k as int]@);
                if find(&models, kids[k].as_str()).is_none() {
                    let ghost before = models@;
                    let leaf = Model {
                        name: kids[k].clone(),
                        algorithm: Some(String::from_str(ALGORITHM_UNDEFINED)),
                        children: None,
                        ref_count: 0,
                    };
                    models.push(leaf);
                    proof {
                        let c = cn[k as int];
                        lemma_slots_push(before, leaf);
                        assert(child_names(leaf).len() == 0);
                        assert(is_child_name(d, c)) by {
                            assert(child_names(d[i as int])[k as int] == c);
                        }
                        assert(!contains_name(d, c)) by {
                            if contains_name(d, c) {
                                let x = choose|x: int| 0 <= x < d.len() && #[trigger] d[x].name@ == c;
                                assert(before[x].name == d[x].name);
                            }
                        }
                        assert(models@[before.len() as int] == leaf);
                        assert forall|x: int| 0 <= x < before.len() implies #[trigger] models@[x] == before[x] by {}
                        assert forall|x: int, y: int| 0 <= x < models@.len() && 0 <= y < models@.len() && x != y
                            implies #[trigger] models@[x].name@ != #[trigger] models@[y].name@ by {
                            if x == before.len() {
                                assert(models@[y] == before[y]);
                            } else if y == before.len() {
                                assert(models@[x] == before[x]);
                            } else {
                                assert(models@[x] == before[x]);
                                assert(models@[y] == before[y]);
                            }
                        }
                        assert forall|n: Seq<char>| contains_name(before, n) implies contains_name(models@, n) by {
                            let x = choose|x: int| 0 <= x < before.len() && #[trigger] before[x].name@ == n;
                            assert(models@[x] == before[x]);
                        }
                        assert(contains_name(models@, c)) by {
                            assert(models@[before.len() as int].name@ == c);
                        }
                        assert forall|j: int, q: int| 0 <= j < i && 0 <= q < child_names(models@[j]).len()
                            implies contains_name(models@, #[trigger] child_names(models@[j])[q]) by {
                            assert(models@[j] == before[j]);
                            assert(contains_name(before, child_names(before[j])[q]));
                        }
                        assert forall|q: int| 0 <= q < k + 1 implies contains_name(models@, #[trigger] cn[q]) by {
                            if q < k {
                                assert(contains_name(before, cn[q]));
                            }
                        }
                    }
                }
                k = k + 1;
            }
            proof {
                assert forall|j: int, q: int| 0 <= j < i + 1 && 0 <= q < child_names(models@[j]).len()
                    implies contains_name(models@, #[trigger] child_names(models@[j])[q]) by {
                    if j == i {
                        assert(child_names(models@[j]) == cn);
                        assert(contains_name(models@, cn[q]));
                    }
                }
            }
            i = i + 1;
        }
        let ghost t = models@;
        proof {
            assert forall|j: int| 0 <= j < t.len() implies kind_consistent(#[trigger] t[j]) by {
                if j < d.len() {
                    assert(kind_consistent(d[j]));
                }
            }
            assert forall|j: int, q: int| 0 <= j < t.len() && 0 <= q < child_names(t[j]).len()
                implies contains_name(t, #[trigger] child_names(t[j])[q]) by {
                if j >= d.len() {
                    assert(child_names(t[j]).len() == 0);
                }
            }
            if contains_name(d, root_name@) {
                let x = choose|x: int| 0 <= x < d.len() && #[trigger] d[x].name@ == root_name@;
                assert(t[x].name == d[x].name);
            }
            if is_child_name(d, root_name@) {
                let (x, q) = choose|x: int, q: int| 0 <= x < d.len() && 0 <= q < child_names(d[x]).len()
                    && #[trigger] child_names(d[x])[q] == root_name@;
                assert(child_names(t[x]) == child_names(d[x]));
                assert(contains_name(t, child_names(t[x])[q]));
            }
            if contains_name(t, root_name@) {
                let x = choose|x: int| 0 <= x < t.len() && #[trigger] t[x].name@ == root_name@;
                if x < d.len() {
                    assert(d[x].name == t[x].name);
                }
            }
        }
        if find(&models, root_name.as_str()).is_none() {
            return Err(StoreError::NotFound);
        }
        update_reference_count(&mut models);
        proof {
            lemma_recount_wf(t, models@);
            assert forall|j: int| 0 <= j < t.len() implies #[trigger] same_shape(t[j], models@[j]) by {}
        }
        Ok(ModelStore { models, root_name })
    }
}

} // verus!
