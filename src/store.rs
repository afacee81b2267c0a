//! The operations a caller performs on a `ModelStore`: adding and deleting
//! edges, switching a node's kind, setting an algorithm, and the queries.
use vstd::prelude::*;
use crate::model::{ALGORITHM_UNDEFINED, is_internal_at, Model, ModelStore, StoreError, child_names, contains_name, find, kind_consistent, references, store_wf, total_slots};
use crate::edit::{add_node_to_parent, added_table, deleted_table, lemma_references_update, lists_child, remove_node_from_parent};
use crate::engine::lemma_slots_update;
use crate::naming::{first_free_candidate, new_node_candidate, suggest_new_name_add};
use crate::refcount::{lemma_recount_wf, same_shape, update_reference_count};

verus! {

/// What a caller learns of one node.
pub struct NodeInfo {
    pub name: String,
    pub ref_count: u64,
    pub has_children: bool,
}

/// `b` is `a` with the kind of the node `n` switched: a leaf becomes an
/// internal node with no children, an internal node becomes a leaf with the
/// undefined algorithm. Counts aside.
pub open spec fn toggled_table(a: Seq<Model>, b: Seq<Model>, n: Seq<char>) -> bool {
    &&& b.len() == a.len()
    &&& forall|j: int| 0 <= j < a.len() ==> (#[trigger] b[j]).name == a[j].name
    &&& forall|j: int| 0 <= j < a.len() && a[j].name@ != n ==> (#[trigger] b[j]).algorithm == a[j].algorithm
        && b[j].children == a[j].children
    &&& forall|j: int| 0 <= j < a.len() && a[j].name@ == n && a[j].children is None
        ==> (#[trigger] b[j]).algorithm is None && b[j].children is Some && child_names(b[j]).len() == 0
    &&& forall|j: int| 0 <= j < a.len() && a[j].name@ == n && a[j].children is Some
        ==> (#[trigger] b[j]).children is None && b[j].algorithm is Some
        && b[j].algorithm->Some_0@ == ALGORITHM_UNDEFINED@
}

/// `b` is `a` with the algorithm of the node `n` set to `alg`.
pub open spec fn algorithm_set(a: Seq<Model>, b: Seq<Model>, n: Seq<char>, alg: Seq<char>) -> bool {
    &&& b.len() == a.len()
    &&& forall|j: int| 0 <= j < a.len() ==> (#[trigger] b[j]).name == a[j].name
        && b[j].children == a[j].children && b[j].ref_count == a[j].ref_count
    &&& forall|j: int| 0 <= j < a.len() && a[j].name@ != n ==> (#[trigger] b[j]).algorithm == a[j].algorithm
    &&& forall|j: int| 0 <= j < a.len() && a[j].name@ == n ==> (#[trigger] b[j]).algorithm is Some
        && b[j].algorithm->Some_0@ == alg
}

/// Some node called `n` is a leaf.
pub open spec fn is_leaf_at(ms: Seq<Model>, n: Seq<char>) -> bool {
    exists|i: int| 0 <= i < ms.len() && #[trigger] ms[i].name@ == n && ms[i].children is None
}

proof fn lemma_only_index(ms: Seq<Model>, i: int, n: Seq<char>)
    requires
        store_wf(ms),
        0 <= i < ms.len(),
        ms[i].name@ == n,
    ensures
        forall|j: int| 0 <= j < ms.len() ==> (#[trigger] ms[j].name@ == n <==> j == i),
{
    assert forall|j: int| 0 <= j < ms.len() implies (#[trigger] ms[j].name@ == n <==> j == i) by {
        if j != i && ms[j].name@ == n {
            assert(ms[i].name@ != ms[j].name@);
        }
    }
}

/// Switching a leaf to an internal node and back leaves a leaf again, with
/// the undefined algorithm and no child list; at each step the node has
/// exactly one of algorithm and children.
pub proof fn lemma_toggle_round_trip(a: Seq<Model>, b: Seq<Model>, c: Seq<Model>, n: Seq<char>)
    requires
        store_wf(a),
        toggled_table(a, b, n),
        toggled_table(b, c, n),
        is_leaf_at(a, n),
    ensures
        forall|j: int| 0 <= j < c.len() && (#[trigger] c[j]).name@ == n ==> kind_consistent(b[j])
            && kind_consistent(c[j]) && c[j].children is None && c[j].algorithm is Some
            && c[j].algorithm->Some_0@ == ALGORITHM_UNDEFINED@,
{
    assert forall|j: int| 0 <= j < c.len() && (#[trigger] c[j]).name@ == n implies kind_consistent(b[j])
        && kind_consistent(c[j]) && c[j].children is None && c[j].algorithm is Some
        && c[j].algorithm->Some_0@ == ALGORITHM_UNDEFINED@ by {
        assert(b[j].name == a[j].name);
        assert(c[j].name == b[j].name);
        if a[j].children is Some {
            let i = choose|i: int| 0 <= i < a.len() && #[trigger] a[i].name@ == n && a[i].children is None;
            assert(a[i].name@ != a[j].name@);
        }
    }
}

/// A copy of a list of names.
pub(crate) fn copy_names(v: &Vec<String>) -> (r: Vec<String>)
    ensures
        r@.map_values(|s: String| s@) == v@.map_values(|s: String| s@),
{
    let mut r: Vec<String> = Vec::new();
    let mut k: usize = 0;
    while k < v.len()
        invariant
            k <= v.len(),
            r@.len() == k,
            forall|j: int| 0 <= j < k ==> (#[trigger] r@[j])@ == v@[j]@,
        decreases v.len() - k,
    {
        r.push(v[k].clone());
        k = k + 1;
    }
    assert(r@.map_values(|s: String| s@) =~= v@.map_values(|s: String| s@));
    r
}

impl ModelStore {
    /// Adds a fresh leaf under `parent_name` and returns its name: the first
    /// free one of "new node", "new node1", "new node2", ...
    pub fn add_node(&mut self, parent_name: &str) -> (r: Result<String, StoreError>)
        requires
            old(self).wf(),
        ensures
            final(self).wf(),
            final(self).root_name == old(self).root_name,
            r is Ok <==> is_internal_at(old(self).models@, parent_name@)
                && total_slots(old(self).models@) + 1 < u64::MAX,
            r == Err::<String, StoreError>(StoreError::NotFound)
                <==> !contains_name(old(self).models@, parent_name@),
            r == Err::<String, StoreError>(StoreError::NotInternal)
                <==> contains_name(old(self).models@, parent_name@)
                && !is_internal_at(old(self).models@, parent_name@),
            r is Err ==> final(self).models@ == old(self).models@,
            r is Ok ==> (exists|k: nat| r->Ok_0@ == new_node_candidate(k) && first_free_candidate(old(self).models@, k))
                && added_table(old(self).models@, final(self).models@, parent_name@, r->Ok_0@),
    {
        let new_name = suggest_new_name_add(&self.models);
        proof {
            let k = choose|k: nat| new_name@ == new_node_candidate(k) && first_free_candidate(self.models@, k);
        }
        match add_node_to_parent(parent_name, new_name.as_str(), &mut self.models) {
            Ok(()) => Ok(new_name),
            Err(e) => Err(e),
        }
    }

    /// Unlinks `name` from `parent_name`; the node itself goes too when that
    /// edge was its only reference.
    pub fn delete_node(&mut self, parent_name: &str, name: &str) -> (r: Result<(), StoreError>)
        requires
            old(self).wf(),
        ensures
            final(self).wf(),
            final(self).root_name == old(self).root_name,
            r == Err::<(), StoreError>(StoreError::NotFound) <==> !contains_name(old(self).models@, name@)
                || !contains_name(old(self).models@, parent_name@),
            r == Err::<(), StoreError>(StoreError::NotInternal) <==> contains_name(old(self).models@, name@)
                && contains_name(old(self).models@, parent_name@)
                && !is_internal_at(old(self).models@, parent_name@),
            r == Err::<(), StoreError>(StoreError::NotAChild) <==> contains_name(old(self).models@, name@)
                && is_internal_at(old(self).models@, parent_name@)
                && !lists_child(old(self).models@, parent_name@, name@),
            r is Ok <==> contains_name(old(self).models@, name@)
                && lists_child(old(self).models@, parent_name@, name@),
            r is Err ==> final(self).models@ == old(self).models@,
            r is Ok ==> deleted_table(old(self).models@, final(self).models@, parent_name@, name@),
    {
        remove_node_from_parent(parent_name, name, &mut self.models)
    }

    /// Switches the node `name` between leaf and internal node.
    pub fn toggle_has_children(&mut self, name: &str) -> (r: Result<(), StoreError>)
        requires
            old(self).wf(),
        ensures
            final(self).wf(),
            final(self).root_name == old(self).root_name,
            r is Ok <==> contains_name(old(self).models@, name@),
            r is Err ==> r->Err_0 == StoreError::NotFound && final(self).models@ == old(self).models@,
            r is Ok ==> toggled_table(old(self).models@, final(self).models@, name@),
    {
        let ghost a = self.models@;
        let i = match find(&self.models, name) {
            Some(i) => i,
            None => {
                return Err(StoreError::NotFound);
            },
        };
        proof {
            lemma_only_index(a, i as int, name@);
        }
        let mut m = self.models.remove(i);
        if m.children.is_some() {
            m.children = None;
            m.algorithm = Some(String::from_str(ALGORITHM_UNDEFINED));
        } else {
            m.children = Some(Vec::new());
            m.algorithm = None;
            assert(child_names(m) =~= Seq::<Seq<char>>::empty());
        }
        self.models.insert(i, m);
        let ghost b = self.models@;
        proof {
            assert(b =~= a.update(i as int, m));
            lemma_slots_update(a, i as int, m);
            assert(child_names(m).len() == 0);
            assert forall|j: int| 0 <= j < b.len() implies kind_consistent(#[trigger] b[j]) by {
                assert(kind_consistent(a[j]));
            }
            assert forall|j: int, k: int| 0 <= j < b.len() && 0 <= k < child_names(b[j]).len()
                implies contains_name(b, #[trigger] child_names(b[j])[k]) by {
                let c = child_names(a[j])[k];
                assert(contains_name(a, c));
                let q = choose|q: int| 0 <= q < a.len() && #[trigger] a[q].name@ == c;
                assert(b[q].name@ == c);
            }
        }
        update_reference_count(&mut self.models);
        proof {
            lemma_recount_wf(b, self.models@);
            assert forall|j: int| 0 <= j < b.len() implies #[trigger] same_shape(b[j], self.models@[j]) by {}
        }
        Ok(())
    }

    /// Sets the algorithm of the leaf `name`. An internal node is refused, as
    /// a node never carries both an algorithm and children.
    pub fn update_algorithm(&mut self, name: &str, algorithm: &str) -> (r: Result<(), StoreError>)
        requires
            old(self).wf(),
        ensures
            final(self).wf(),
            final(self).root_name == old(self).root_name,
            r is Ok <==> is_leaf_at(old(self).models@, name@),
            r == Err::<(), StoreError>(StoreError::NotFound) <==> !contains_name(old(self).models@, name@),
            r == Err::<(), StoreError>(StoreError::NotLeaf) <==> contains_name(old(self).models@, name@)
                && !is_leaf_at(old(self).models@, name@),
            r is Err ==> final(self).models@ == old(self).models@,
            r is Ok ==> algorithm_set(old(self).models@, final(self).models@, name@, algorithm@),
    {
        let ghost a = self.models@;
        let i = match find(&self.models, name) {
            Some(i) => i,
            None => {
                return Err(StoreError::NotFound);
            },
        };
        proof {
            lemma_only_index(a, i as int, name@);
        }
        if self.models[i].children.is_some() {
            return Err(StoreError::NotLeaf);
        }
        let mut m = self.models.remove(i);
        m.algorithm = Some(String::from_str(algorithm));
        self.models.insert(i, m);
        let ghost b = self.models@;
        proof {
            assert(b =~= a.update(i as int, m));
            lemma_slots_update(a, i as int, m);
            assert forall|n: Seq<char>| #[trigger] references(b, n) == references(a, n) by {
                lemma_references_update(a, i as int, m, n);
            }
            assert forall|j: int| 0 <= j < b.len() implies kind_consistent(#[trigger] b[j]) by {
                assert(kind_consistent(a[j]));
            }
            assert forall|j: int, k: int| 0 <= j < b.len() && 0 <= k < child_names(b[j]).len()
                implies contains_name(b, #[trigger] child_names(b[j])[k]) by {
                let c = child_names(a[j])[k];
                assert(contains_name(a, c));
                let q = choose|q: int| 0 <= q < a.len() && #[trigger] a[q].name@ == c;
                assert(b[q].name@ == c);
            }
            assert forall|j: int| 0 <= j < b.len() implies (#[trigger] b[j]).ref_count == references(b, b[j].name@) by {
                assert(a[j].ref_count == references(a, a[j].name@));
            }
        }
        Ok(())
    }

    /// The name of the tree's root.
    pub fn query_root_name(&self) -> (r: String)
        ensures
            r@ == self.root_name@,
    {
        self.root_name.clone()
    }

    /// The name, count and kind of the node `name`.
    pub fn query_node(&self, name: &str) -> (r: Result<NodeInfo, StoreError>)
        ensures
            r is Ok <==> contains_name(self.models@, name@),
            r is Err ==> r->Err_0 == StoreError::NotFound,
            r is Ok ==> exists|i: int| 0 <= i < self.models@.len() && #[trigger] self.models@[i].name@ == name@
                && r->Ok_0.name@ == name@ && r->Ok_0.ref_count == self.models@[i].ref_count
                && r->Ok_0.has_children == self.models@[i].children is Some,
    {
        match find(&self.models, name) {
            Some(i) => Ok(NodeInfo {
                name: self.models[i].name.clone(),
                ref_count: self.models[i].ref_count,
                has_children: self.models[i].children.is_some(),
            }),
            None => Err(StoreError::NotFound),
        }
    }

    /// The child names of `parent_name`, in order.
    pub fn query_children(&self, parent_name: &str) -> (r: Result<Vec<String>, StoreError>)
        requires
            self.wf(),
        ensures
            r is Ok <==> is_internal_at(self.models@, parent_name@),
            r == Err::<Vec<String>, StoreError>(StoreError::NotFound) <==> !contains_name(self.models@, parent_name@),
            r == Err::<Vec<String>, StoreError>(StoreError::NotInternal) <==> contains_name(self.models@, parent_name@)
                && !is_internal_at(self.models@, parent_name@),
            r is Ok ==> exists|i: int| 0 <= i < self.models@.len() && #[trigger] self.models@[i].name@ == parent_name@
                && r->Ok_0@.map_values(|s: String| s@) == child_names(self.models@[i]),
    {
        let i = match find(&self.models, parent_name) {
            Some(i) => i,
            None => {
                return Err(StoreError::NotFound);
            },
        };
        proof {
            lemma_only_index(self.models@, i as int, parent_name@);
        }
        match &self.models[i].children {
            Some(ch) => Ok(copy_names(ch)),
            None => Err(StoreError::NotInternal),
        }
    }

    /// The algorithm of the leaf `name`.
    pub fn query_algorithm(&self, name: &str) -> (r: Result<String, StoreError>)
        requires
            self.wf(),
        ensures
            r is Ok <==> is_leaf_at(self.models@, name@),
            r == Err::<String, StoreError>(StoreError::NotFound) <==> !contains_name(self.models@, name@),
            r == Err::<String, StoreError>(StoreError::NotLeaf) <==> contains_name(self.models@, name@)
                && !is_leaf_at(self.models@, name@),
            r is Ok ==> exists|i: int| 0 <= i < self.models@.len() && #[trigger] self.models@[i].name@ == name@
                && self.models@[i].algorithm is Some && r->Ok_0@ == self.models@[i].algorithm->Some_0@,
    {
        let i = match find(&self.models, name) {
            Some(i) => i,
            None => {
                return Err(StoreError::NotFound);
            },
        };
        proof {
            lemma_only_index(self.models@, i as int, name@);
            assert(kind_consistent(self.models@[i as int]));
        }
        if self.models[i].children.is_some() {
            return Err(StoreError::NotLeaf);
        }
        match &self.models[i].algorithm {
            Some(alg) => Ok(alg.clone()),
            None => Err(StoreError::NotLeaf),
        }
    }

    /// How many child slots name `name`; zero for a name the store does not
    /// hold, such as one deleted a moment ago.
    pub fn query_ref_count(&self, name: &str) -> (r: u64)
        requires
            self.wf(),
        ensures
            contains_name(self.models@, name@) ==> r == references(self.models@, name@),
            !contains_name(self.models@, name@) ==> r == 0,
    {
        match find(&self.models, name) {
            Some(i) => self.models[i].ref_count,
            None => 0,
        }
    }
}

} // verus!
