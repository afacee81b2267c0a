//! The node record, the store's error type, and the spec-level vocabulary
//! shared by the other modules.
use vstd::prelude::*;

verus! {

/// A named node. A leaf carries `algorithm`, an internal node carries
/// `children`; `ref_count` caches how many child slots name this node.
pub struct Model {
    pub name: String,
    pub algorithm: Option<String>,
    pub children: Option<Vec<String>>,
    pub ref_count: u64,
}

/// Why a request on the store was refused.
#[derive(Debug, Clone, Copy, PartialEq, Eq, Structural)]
pub enum StoreError {
    /// A named node does not exist.
    NotFound,
    /// The parent does not list the child that was to be unlinked from it.
    NotAChild,
    /// The node is a leaf where an internal node with a child list is needed.
    NotInternal,
    /// The node is internal where a leaf with an algorithm is needed.
    NotLeaf,
    /// A node has both an algorithm and a child list, or neither.
    KindConflict,
    /// Two nodes were handed over under the same name.
    DuplicateName,
    /// The store already holds as many child slots as a count can record.
    CapacityExceeded,
}

/// The algorithm label of a leaf that has not been given one yet.
pub const ALGORITHM_UNDEFINED: &'static str = "algorithm undefined";

/// The node table together with the name of the tree's root.
pub struct ModelStore {
    pub models: Vec<Model>,
    pub root_name: String,
}

impl ModelStore {
    /// The table is in the consistent state that every operation keeps.
    pub open spec fn wf(&self) -> bool {
        store_wf(self.models@)
    }
}

/// The names listed by `m`, in order; empty for a leaf.
pub open spec fn child_names(m: Model) -> Seq<Seq<char>> {
    match m.children {
        Some(c) => c@.map_values(|s: String| s@),
        None => Seq::empty(),
    }
}

/// The node names of a store, in storage order.
pub open spec fn names_of(ms: Seq<Model>) -> Seq<Seq<char>> {
    ms.map_values(|m: Model| m.name@)
}

/// Some node of `ms` is called `n`.
pub open spec fn contains_name(ms: Seq<Model>, n: Seq<char>) -> bool {
    exists|i: int| 0 <= i < ms.len() && #[trigger] ms[i].name@ == n
}

/// How many entries of `s` equal `n`.
pub open spec fn occurrences(s: Seq<Seq<char>>, n: Seq<char>) -> nat
    decreases s.len(),
{
    if s.len() == 0 {
        0
    } else {
        occurrences(s.drop_last(), n) + if s.last() == n {
            1nat
        } else {
            0nat
        }
    }
}

/// How many child slots, over every node of `ms`, name `n`.
pub open spec fn references(ms: Seq<Model>, n: Seq<char>) -> nat
    decreases ms.len(),
{
    if ms.len() == 0 {
        0
    } else {
        references(ms.drop_last(), n) + occurrences(child_names(ms.last()), n)
    }
}

/// How many child slots the nodes of `ms` hold in all.
pub open spec fn total_slots(ms: Seq<Model>) -> nat
    decreases ms.len(),
{
    if ms.len() == 0 {
        0
    } else {
        total_slots(ms.drop_last()) + child_names(ms.last()).len()
    }
}

/// Exactly one of `algorithm` and `children` is present.
pub open spec fn kind_consistent(m: Model) -> bool {
    m.algorithm.is_some() != m.children.is_some()
}

/// The node `n` exists and lists children.
pub open spec fn is_internal_at(ms: Seq<Model>, n: Seq<char>) -> bool {
    exists|i: int| 0 <= i < ms.len() && #[trigger] ms[i].name@ == n && ms[i].children.is_some()
}

/// No two nodes share a name.
pub open spec fn unique_names(ms: Seq<Model>) -> bool {
    forall|i: int, j: int| 0 <= i < ms.len() && 0 <= j < ms.len() && i != j
        ==> #[trigger] ms[i].name@ != #[trigger] ms[j].name@
}

/// Every child slot names a node of the store.
pub open spec fn children_resolve(ms: Seq<Model>) -> bool {
    forall|i: int, k: int| 0 <= i < ms.len() && 0 <= k < child_names(ms[i]).len()
        ==> contains_name(ms, #[trigger] child_names(ms[i])[k])
}

/// Every cached count equals the number of slots that name the node.
pub open spec fn counts_current(ms: Seq<Model>) -> bool {
    forall|i: int| 0 <= i < ms.len() ==> (#[trigger] ms[i]).ref_count == references(ms, ms[i].name@)
}

/// The consistent state that every completed operation leaves behind.
pub open spec fn store_wf(ms: Seq<Model>) -> bool {
    &&& unique_names(ms)
    &&& forall|i: int| 0 <= i < ms.len() ==> kind_consistent(#[trigger] ms[i])
    &&& children_resolve(ms)
    &&& counts_current(ms)
    &&& total_slots(ms) < u64::MAX
}

/// Where the node called `n` stands in `ms`, if anywhere.
pub open spec fn position_of(ms: Seq<Model>, n: Seq<char>, p: Option<usize>) -> bool {
    match p {
        Some(i) => i < ms.len() && ms[i as int].name@ == n,
        None => !contains_name(ms, n),
    }
}

/// Finds the node called `name`.
pub fn find(models: &Vec<Model>, name: &str) -> (r: Option<usize>)
    ensures
        position_of(models@, name@, r),
{
    let key = String::from_str(name);
    let mut i: usize = 0;
    while i < models.len()
        invariant
            i <= models.len(),
            key@ == name@,
            forall|j: int| 0 <= j < i ==> models@[j].name@ != name@,
        decreases models.len() - i,
    {
        if models[i].name.eq(&key) {
            return Some(i);
        }
        i = i + 1;
    }
    None
}

} // verus!
