//! Structural edits on the node table: relinking child lists, renaming,
//! adding and removing edges. Each public operation here leaves the table
//! well formed and its counts recomputed.
use vstd::prelude::*;
use crate::model::{is_internal_at, Model, ModelStore, StoreError, child_names, children_resolve, contains_name, find, kind_consistent, total_slots, unique_names};
use crate::naming::{first_free_marked, suggest_new_name_dupe, with_markers};
use crate::refcount::{lemma_recount_wf, same_shape, same_shapes, update_reference_count};

verus! {

/// `s` with every entry equal to `from` replaced by `to`.
pub open spec fn rename_in(s: Seq<Seq<char>>, from: Seq<char>, to: Seq<char>) -> Seq<Seq<char>> {
    s.map_values(|c: Seq<char>| if c == from { to } else { c })
}

/// `b` is `a` with its child list relinked from `from` to `to`.
pub open spec fn relinked(a: Model, b: Model, from: Seq<char>, to: Seq<char>) -> bool {
    &&& b.name == a.name
    &&& b.algorithm == a.algorithm
    &&& b.ref_count == a.ref_count
    &&& b.children.is_some() == a.children.is_some()
    &&& child_names(b) == rename_in(child_names(a), from, to)
}

/// Totals depend only on how many children each node lists.
pub(crate) proof fn lemma_slots_pointwise(a: Seq<Model>, b: Seq<Model>)
    requires
        a.len() == b.len(),
        forall|i: int| 0 <= i < a.len() ==> child_names(#[trigger] a[i]).len() == child_names(b[i]).len(),
    ensures
        total_slots(a) == total_slots(b),
    decreases a.len(),
{
    if a.len() > 0 {
        assert(child_names(a[a.len() - 1]).len() == child_names(b[b.len() - 1]).len());
        lemma_slots_pointwise(a.drop_last(), b.drop_last());
    }
}

/// Replacing one node changes the total by the difference of the two lists.
pub(crate) proof fn lemma_slots_update(ms: Seq<Model>, i: int, m: Model)
    requires
        0 <= i < ms.len(),
    ensures
        total_slots(ms.update(i, m)) + child_names(ms[i]).len() == total_slots(ms) + child_names(m).len(),
    decreases ms.len(),
{
    if i == ms.len() - 1 {
        assert(ms.update(i, m).drop_last() =~= ms.drop_last());
    } else {
        assert(ms.update(i, m).drop_last() =~= ms.drop_last().update(i, m));
        lemma_slots_update(ms.drop_last(), i, m);
    }
}

/// Removing one node lowers the total by the length of its list.
pub(crate) proof fn lemma_slots_remove(ms: Seq<Model>, i: int)
    requires
        0 <= i < ms.len(),
    ensures
        total_slots(ms.remove(i)) + child_names(ms[i]).len() == total_slots(ms),
    decreases ms.len(),
{
    if i == ms.len() - 1 {
        assert(ms.remove(i) =~= ms.drop_last());
    } else {
        assert(ms.remove(i).drop_last() =~= ms.drop_last().remove(i));
        lemma_slots_remove(ms.drop_last(), i);
    }
}

/// Appending a node raises the total by the length of its list.
pub(crate) proof fn lemma_slots_push(ms: Seq<Model>, m: Model)
    ensures
        total_slots(ms.push(m)) == total_slots(ms) + child_names(m).len(),
{
    assert(ms.push(m).drop_last() =~= ms);
}

/// Rewrites `from` to `to` in one child list.
fn relink_list(ch: &mut Vec<String>, from: &String, to: &String)
    ensures
        final(ch)@.map_values(|s: String| s@) == rename_in(old(ch)@.map_values(|s: String| s@), from@, to@),
{
    let ghost start = ch@.map_values(|s: String| s@);
    let mut k: usize = 0;
    while k < ch.len()
        invariant
            k <= ch.len(),
            start.len() == ch@.len(),
            forall|j: int| 0 <= j < k ==> (#[trigger] ch@[j])@ == (if start[j] == from@ { to@ } else { start[j] }),
            forall|j: int| k <= j < ch@.len() ==> (#[trigger] ch@[j])@ == start[j],
        decreases ch.len() - k,
    {
        if ch[k].eq(from) {
            ch[k] = to.clone();
        }
        k = k + 1;
    }
    assert(ch@.map_values(|s: String| s@) =~= rename_in(start, from@, to@));
}

/// Rewrites every child slot of every node that names `old_name` so that it
/// names `new_name`. Node names, algorithms and counts are left as they are.
pub fn replace_old_name_no_children(old_name: &str, new_name: &str, models: &mut Vec<Model>)
    ensures
        final(models)@.len() == old(models)@.len(),
        forall|i: int| 0 <= i < final(models)@.len()
            ==> relinked(old(models)@[i], #[trigger] final(models)@[i], old_name@, new_name@),
{
    let from = String::from_str(old_name);
    let to = String::from_str(new_name);
    let ghost start = models@;
    let mut i: usize = 0;
    while i < models.len()
        invariant
            i <= models.len(),
            start.len() == models@.len(),
            from@ == old_name@,
            to@ == new_name@,
            forall|j: int| 0 <= j < i ==> relinked(start[j], #[trigger] models@[j], old_name@, new_name@),
            forall|j: int| i <= j < models@.len() ==> #[trigger] models@[j] == start[j],
        decreases models.len() - i,
    {
        let mut m = models.remove(i);
        let ghost before = m;
        match m.children {
            Some(ref mut ch) => {
                relink_list(ch, &from, &to);
            },
            None => {
                assert(rename_in(Seq::empty(), old_name@, new_name@) =~= Seq::empty());
            },
        }
        models.insert(i, m);
        i = i + 1;
    }
}

/// `b` keeps the algorithm and kind of `a`, and its child list is the list
/// of `a` relinked from `from` to `to`.
pub open spec fn relinked_body(a: Model, b: Model, from: Seq<char>, to: Seq<char>) -> bool {
    &&& b.algorithm == a.algorithm
    &&& b.children.is_some() == a.children.is_some()
    &&& child_names(b) == rename_in(child_names(a), from, to)
}

/// `b` is the table `a` in which the node `from` is now called `to`, and every
/// child slot that named `from` names `to`.
pub open spec fn renamed_table(a: Seq<Model>, b: Seq<Model>, from: Seq<char>, to: Seq<char>) -> bool {
    &&& a.len() == b.len()
    &&& forall|j: int| 0 <= j < a.len() ==> relinked_body(#[trigger] a[j], b[j], from, to)
    &&& forall|j: int| 0 <= j < a.len() ==> (#[trigger] b[j]).name@ == (if a[j].name@ == from { to } else { a[j].name@ })
}

/// `b` is the table `a` without the node `from`, every child slot that named
/// `from` now naming `to`.
pub open spec fn merged_table(a: Seq<Model>, b: Seq<Model>, from: Seq<char>, to: Seq<char>) -> bool {
    exists|i: int| 0 <= i < a.len() && #[trigger] a[i].name@ == from && renamed_table(a.remove(i), b, from, to)
}

/// Every node has exactly one of algorithm and children.
pub open spec fn kinds_consistent(ms: Seq<Model>) -> bool {
    forall|i: int| 0 <= i < ms.len() ==> kind_consistent(#[trigger] ms[i])
}

/// Renaming a node to a free name keeps the table's structural facts.
pub(crate) proof fn lemma_renamed_keeps(a: Seq<Model>, b: Seq<Model>, from: Seq<char>, to: Seq<char>)
    requires
        unique_names(a),
        children_resolve(a),
        kinds_consistent(a),
        contains_name(a, from),
        !contains_name(a, to),
        renamed_table(a, b, from, to),
    ensures
        unique_names(b),
        children_resolve(b),
        kinds_consistent(b),
        total_slots(b) == total_slots(a),
{
    let i = choose|i: int| 0 <= i < a.len() && #[trigger] a[i].name@ == from;
    assert forall|j: int| 0 <= j < a.len() implies child_names(#[trigger] a[j]).len() == child_names(b[j]).len() by {
        assert(relinked_body(a[j], b[j], from, to));
    }
    lemma_slots_pointwise(a, b);
    assert forall|p: int, q: int| 0 <= p < b.len() && 0 <= q < b.len() && p != q
        implies #[trigger] b[p].name@ != #[trigger] b[q].name@ by {
        if a[p].name@ == to {
            assert(contains_name(a, to));
        }
        if a[q].name@ == to {
            assert(contains_name(a, to));
        }
    }
    assert forall|j: int| 0 <= j < b.len() implies kind_consistent(#[trigger] b[j]) by {
        assert(relinked_body(a[j], b[j], from, to));
        assert(kind_consistent(a[j]));
    }
    assert forall|j: int, k: int| 0 <= j < b.len() && 0 <= k < child_names(b[j]).len()
        implies contains_name(b, #[trigger] child_names(b[j])[k]) by {
        assert(relinked_body(a[j], b[j], from, to));
        let c = child_names(a[j])[k];
        assert(contains_name(a, c));
        if c == from {
            assert(b[i].name@ == to);
        } else {
            let p = choose|p: int| 0 <= p < a.len() && #[trigger] a[p].name@ == c;
            assert(b[p].name@ == c);
        }
    }
}

/// Merging a leaf onto another existing node keeps the table's structural facts.
pub(crate) proof fn lemma_merged_keeps(a: Seq<Model>, b: Seq<Model>, from: Seq<char>, to: Seq<char>)
    requires
        unique_names(a),
        children_resolve(a),
        kinds_consistent(a),
        contains_name(a, to),
        from != to,
        forall|j: int| 0 <= j < a.len() && (#[trigger] a[j]).name@ == from ==> a[j].children.is_none(),
        merged_table(a, b, from, to),
    ensures
        unique_names(b),
        children_resolve(b),
        kinds_consistent(b),
        total_slots(b) == total_slots(a),
{
    let i = choose|i: int| 0 <= i < a.len() && #[trigger] a[i].name@ == from && renamed_table(a.remove(i), b, from, to);
    let r = a.remove(i);
    lemma_slots_remove(a, i);
    assert forall|j: int| 0 <= j < r.len() implies child_names(#[trigger] r[j]).len() == child_names(b[j]).len() by {
        assert(relinked_body(r[j], b[j], from, to));
    }
    lemma_slots_pointwise(r, b);
    assert forall|j: int| 0 <= j < r.len() implies #[trigger] b[j].name@ == r[j].name@ by {
        if j < i {
            assert(r[j] == a[j]);
        } else {
            assert(r[j] == a[j + 1]);
        }
    }
    assert forall|p: int, q: int| 0 <= p < b.len() && 0 <= q < b.len() && p != q
        implies #[trigger] b[p].name@ != #[trigger] b[q].name@ by {
        assert(b[p].name@ == r[p].name@);
        assert(b[q].name@ == r[q].name@);
        let pp = if p < i { p } else { p + 1 };
        let qq = if q < i { q } else { q + 1 };
        assert(r[p] == a[pp]);
        assert(r[q] == a[qq]);
    }
    assert forall|j: int| 0 <= j < b.len() implies kind_consistent(#[trigger] b[j]) by {
        assert(relinked_body(r[j], b[j], from, to));
        let jj = if j < i { j } else { j + 1 };
        assert(r[j] == a[jj]);
        assert(kind_consistent(a[jj]));
    }
    let t = choose|t: int| 0 <= t < a.len() && #[trigger] a[t].name@ == to;
    let tt = if t < i { t } else { t - 1 };
    assert(b[tt].name@ == r[tt].name@);
    assert(r[tt] == a[t]);
    assert forall|j: int, k: int| 0 <= j < b.len() && 0 <= k < child_names(b[j]).len()
        implies contains_name(b, #[trigger] child_names(b[j])[k]) by {
        assert(relinked_body(r[j], b[j], from, to));
        let jj = if j < i { j } else { j + 1 };
        assert(r[j] == a[jj]);
        let c = child_names(a[jj])[k];
        assert(contains_name(a, c));
        if c == from {
            assert(b[tt].name@ == to);
        } else {
            let p = choose|p: int| 0 <= p < a.len() && #[trigger] a[p].name@ == c;
            let pp = if p < i { p } else { p - 1 };
            assert(r[pp] == a[p]);
            assert(b[pp].name@ == c);
        }
    }
}

/// Renames the node `old_name` to the free name `new_processed_name` and
/// relinks every child slot that named it.
pub fn replace_old_name_has_children(old_name: &str, new_processed_name: &str, models: &mut Vec<Model>)
    requires
        unique_names(old(models)@),
        contains_name(old(models)@, old_name@),
        !contains_name(old(models)@, new_processed_name@),
    ensures
        renamed_table(old(models)@, final(models)@, old_name@, new_processed_name@),
        forall|j: int| 0 <= j < old(models)@.len() ==> (#[trigger] final(models)@[j]).ref_count == old(models)@[j].ref_count,
{
    let ghost start = models@;
    let i = match find(models, old_name) {
        Some(i) => i,
        None => {
            return;
        },
    };
    let mut m = models.remove(i);
    m.name = String::from_str(new_processed_name);
    models.insert(i, m);
    let ghost mid = models@;
    replace_old_name_no_children(old_name, new_processed_name, models);
    assert forall|j: int| 0 <= j < start.len() implies #[trigger] models@[j].name@ == (if start[j].name@ == old_name@ {
        new_processed_name@
    } else {
        start[j].name@
    }) by {
        assert(relinked(mid[j], models@[j], old_name@, new_processed_name@));
        if j != i {
            assert(start[j].name@ != start[i as int].name@);
        }
    }
    assert forall|j: int| 0 <= j < start.len() implies relinked_body(#[trigger] start[j], models@[j], old_name@, new_processed_name@) by {
        assert(relinked(mid[j], models@[j], old_name@, new_processed_name@));
    }
}

/// Where the root stands after the node `from` became `to`.
pub open spec fn root_after(root: Seq<char>, from: Seq<char>, to: Seq<char>) -> Seq<char> {
    if root == from {
        to
    } else {
        root
    }
}

proof fn lemma_renamed_then_recounted(a: Seq<Model>, b: Seq<Model>, c: Seq<Model>, from: Seq<char>, to: Seq<char>)
    requires
        renamed_table(a, b, from, to),
        same_shapes(b, c),
    ensures
        renamed_table(a, c, from, to),
{
    assert forall|j: int| 0 <= j < a.len() implies relinked_body(#[trigger] a[j], c[j], from, to) by {
        assert(same_shape(b[j], c[j]));
        assert(relinked_body(a[j], b[j], from, to));
    }
    assert forall|j: int| 0 <= j < a.len() implies (#[trigger] c[j]).name@ == (if a[j].name@ == from { to } else { a[j].name@ }) by {
        assert(same_shape(b[j], c[j]));
    }
}

/// Points the root at `new_name` where it was `old_name`.
fn follow_root(state: &mut ModelStore, old_name: &str, new_name: &str)
    ensures
        final(state).models == old(state).models,
        final(state).root_name@ == root_after(old(state).root_name@, old_name@, new_name@),
{
    let from = String::from_str(old_name);
    if state.root_name.eq(&from) {
        state.root_name = String::from_str(new_name);
    }
}

/// Renames the node `old_name` to the free name `new_processed_name`,
/// relinks its parents, and recounts.
pub fn update_dup_name_has_children_backend(old_name: &str, new_processed_name: &str, state: &mut ModelStore)
    requires
        old(state).wf(),
        contains_name(old(state).models@, old_name@),
        !contains_name(old(state).models@, new_processed_name@),
    ensures
        final(state).wf(),
        renamed_table(old(state).models@, final(state).models@, old_name@, new_processed_name@),
        final(state).root_name@ == root_after(old(state).root_name@, old_name@, new_processed_name@),
{
    let ghost start = state.models@;
    replace_old_name_has_children(old_name, new_processed_name, &mut state.models);
    let ghost mid = state.models@;
    proof {
        lemma_renamed_keeps(start, mid, old_name@, new_processed_name@);
    }
    update_reference_count(&mut state.models);
    proof {
        lemma_recount_wf(mid, state.models@);
        lemma_renamed_then_recounted(start, mid, state.models@, old_name@, new_processed_name@);
    }
    follow_root(state, old_name, new_processed_name);
}

/// Renames the node `old_name` to the free name `new_name`; the same work as
/// a disambiguated rename.
pub fn update_non_dup_name_backend(old_name: &str, new_name: &str, state: &mut ModelStore)
    requires
        old(state).wf(),
        contains_name(old(state).models@, old_name@),
        !contains_name(old(state).models@, new_name@),
    ensures
        final(state).wf(),
        renamed_table(old(state).models@, final(state).models@, old_name@, new_name@),
        final(state).root_name@ == root_after(old(state).root_name@, old_name@, new_name@),
{
    update_dup_name_has_children_backend(old_name, new_name, state);
}

/// Merges the leaf `old_name` onto the existing node `new_name`: the leaf is
/// dropped, its parents are relinked to `new_name`, and counts are redone.
pub fn update_dup_name_no_children_backend(old_name: &str, new_name: &str, state: &mut ModelStore)
    requires
        old(state).wf(),
        contains_name(old(state).models@, old_name@),
        contains_name(old(state).models@, new_name@),
        old_name@ != new_name@,
        !is_internal_at(old(state).models@, old_name@),
    ensures
        final(state).wf(),
        merged_table(old(state).models@, final(state).models@, old_name@, new_name@),
        final(state).root_name@ == root_after(old(state).root_name@, old_name@, new_name@),
{
    let ghost start = state.models@;
    let i = match find(&state.models, old_name) {
        Some(i) => i,
        None => {
            return;
        },
    };
    let _dropped = state.models.remove(i);
    let ghost removed = state.models@;
    replace_old_name_no_children(old_name, new_name, &mut state.models);
    let ghost mid = state.models@;
    proof {
        assert forall|j: int| 0 <= j < removed.len() implies relinked_body(#[trigger] removed[j], mid[j], old_name@, new_name@) by {
            assert(relinked(removed[j], mid[j], old_name@, new_name@));
        }
        assert forall|j: int| 0 <= j < removed.len() implies (#[trigger] mid[j]).name@ == (if removed[j].name@ == old_name@ {
            new_name@
        } else {
            removed[j].name@
        }) by {
            assert(relinked(removed[j], mid[j], old_name@, new_name@));
            let jj = if j < i { j } else { j + 1 };
            assert(removed[j] == start[jj]);
        }
        assert(start[i as int].name@ == old_name@);
        assert(merged_table(start, mid, old_name@, new_name@));
        assert forall|j: int| 0 <= j < start.len() && (#[trigger] start[j]).name@ == old_name@ implies start[j].children.is_none() by {
            if start[j].children.is_some() {
                assert(is_internal_at(start, old_name@));
            }
        }
        lemma_merged_keeps(start, mid, old_name@, new_name@);
    }
    update_reference_count(&mut state.models);
    proof {
        lemma_recount_wf(mid, state.models@);
        lemma_renamed_then_recounted(removed, mid, state.models@, old_name@, new_name@);
        assert(renamed_table(start.remove(i as int), state.models@, old_name@, new_name@));
    }
    follow_root(state, old_name, new_name);
}

/// What a rename did: the name the node now has, and whether anything changed.
pub struct UpdateNameResponse {
    pub new_name: String,
    pub requires_update: bool,
}

impl ModelStore {
    /// Renames the node `name` to `new_name`, resolving a clash with an
    /// existing node: a leaf merges onto it, an internal node takes the
    /// requested name followed by as many duplicate markers as make it free.
    pub fn update_node_name(&mut self, name: &str, new_name: &str) -> (r: Result<UpdateNameResponse, StoreError>)
        requires
            old(self).wf(),
        ensures
            final(self).wf(),
            r is Err <==> name@ != new_name@ && !contains_name(old(self).models@, name@),
            r is Err ==> r->Err_0 == StoreError::NotFound && *final(self) == *old(self),
            name@ == new_name@ ==> r is Ok && r->Ok_0.new_name@ == new_name@ && !r->Ok_0.requires_update
                && *final(self) == *old(self),
            name@ != new_name@ && r is Ok ==> r->Ok_0.requires_update
                && final(self).root_name@ == root_after(old(self).root_name@, name@, r->Ok_0.new_name@),
            name@ != new_name@ && r is Ok && !contains_name(old(self).models@, new_name@)
                ==> r->Ok_0.new_name@ == new_name@
                && renamed_table(old(self).models@, final(self).models@, name@, new_name@),
            name@ != new_name@ && r is Ok && contains_name(old(self).models@, new_name@)
                && !is_internal_at(old(self).models@, name@)
                ==> r->Ok_0.new_name@ == new_name@
                && merged_table(old(self).models@, final(self).models@, name@, new_name@),
            name@ != new_name@ && r is Ok && contains_name(old(self).models@, new_name@)
                && is_internal_at(old(self).models@, name@)
                ==> (exists|k: nat| r->Ok_0.new_name@ == with_markers(new_name@, k)
                    && first_free_marked(old(self).models@, new_name@, k))
                && renamed_table(old(self).models@, final(self).models@, name@, r->Ok_0.new_name@),
    {
        let same = String::from_str(name).eq(&String::from_str(new_name));
        if same {
            return Ok(UpdateNameResponse { new_name: String::from_str(new_name), requires_update: false });
        }
        let i = match find(&self.models, name) {
            Some(i) => i,
            None => {
                return Err(StoreError::NotFound);
            },
        };
        if find(&self.models, new_name).is_none() {
            update_non_dup_name_backend(name, new_name, self);
            return Ok(UpdateNameResponse { new_name: String::from_str(new_name), requires_update: true });
        }
        if self.models[i].children.is_some() {
            let processed = suggest_new_name_dupe(new_name, &self.models);
            proof {
                let k = choose|k: nat| processed@ == with_markers(new_name@, k) && first_free_marked(self.models@, new_name@, k);
                assert(contains_name(self.models@, name@));
            }
            update_dup_name_has_children_backend(name, processed.as_str(), self);
            Ok(UpdateNameResponse { new_name: processed, requires_update: true })
        } else {
            proof {
                assert forall|j: int| 0 <= j < self.models@.len() && #[trigger] self.models@[j].name@ == name@
                    implies self.models@[j].children.is_none() by {
                    if j != i {
                        assert(self.models@[i as int].name@ == name@);
                    }
                }
            }
            update_dup_name_no_children_backend(name, new_name, self);
            Ok(UpdateNameResponse { new_name: String::from_str(new_name), requires_update: true })
        }
    }
}

} // verus!
