//! Adding and removing parent-child edges.
use vstd::prelude::*;
use crate::model::{ALGORITHM_UNDEFINED, is_internal_at, Model, StoreError, child_names, contains_name, find, kind_consistent, children_resolve, occurrences, references, store_wf, total_slots, unique_names};
use crate::engine::{kinds_consistent, lemma_slots_push, lemma_slots_remove, lemma_slots_update};
use crate::refcount::{lemma_recount_wf, lemma_slots_of_prefix, same_shape, same_shapes, update_reference_count};

verus! {

/// `b` is `a` with `n` appended to the child list of `p` and a fresh leaf
/// called `n` appended to the table, counts aside.
pub open spec fn added_table(a: Seq<Model>, b: Seq<Model>, p: Seq<char>, n: Seq<char>) -> bool {
    &&& b.len() == a.len() + 1
    &&& forall|j: int| 0 <= j < a.len() ==> {
        &&& (#[trigger] b[j]).name == a[j].name
        &&& b[j].algorithm == a[j].algorithm
        &&& b[j].children.is_some() == a[j].children.is_some()
        &&& child_names(b[j]) == if a[j].name@ == p { child_names(a[j]).push(n) } else { child_names(a[j]) }
    }
    &&& b[a.len() as int].name@ == n
    &&& b[a.len() as int].children.is_none()
    &&& b[a.len() as int].algorithm is Some
    &&& b[a.len() as int].algorithm->Some_0@ == ALGORITHM_UNDEFINED@
}

/// The number of child slots in the table.
fn slot_total(models: &Vec<Model>) -> (r: u64)
    requires
        total_slots(models@) < u64::MAX,
    ensures
        r == total_slots(models@),
{
    let mut r: u64 = 0;
    let mut j: usize = 0;
    while j < models.len()
        invariant
            j <= models.len(),
            total_slots(models@) < u64::MAX,
            r == total_slots(models@.take(j as int)),
        decreases models.len() - j,
    {
        proof {
            lemma_slots_of_prefix(models@, j + 1);
            assert(models@.take(j + 1).drop_last() =~= models@.take(j as int));
        }
        match &models[j].children {
            Some(ch) => {
                r = r + ch.len() as u64;
            },
            None => {},
        }
        j = j + 1;
    }
    assert(models@.take(j as int) =~= models@);
    r
}

/// A new leaf with the undefined algorithm.
fn placeholder_leaf(name: &str) -> (m: Model)
    ensures
        m.name@ == name@,
        m.children.is_none(),
        m.algorithm is Some,
        m.algorithm->Some_0@ == ALGORITHM_UNDEFINED@,
{
    Model {
        name: String::from_str(name),
        algorithm: Some(String::from_str(ALGORITHM_UNDEFINED)),
        children: None,
        ref_count: 0,
    }
}

/// Inserts a fresh leaf called `new_name` and lists it last among the
/// children of `parent_name`, then recounts.
pub fn add_node_to_parent(parent_name: &str, new_name: &str, models: &mut Vec<Model>) -> (r: Result<(), StoreError>)
    requires
        store_wf(old(models)@),
        !contains_name(old(models)@, new_name@),
    ensures
        store_wf(final(models)@),
        r is Ok <==> is_internal_at(old(models)@, parent_name@) && total_slots(old(models)@) + 1 < u64::MAX,
        r == Err::<(), StoreError>(StoreError::NotFound) <==> !contains_name(old(models)@, parent_name@),
        r == Err::<(), StoreError>(StoreError::NotInternal) <==> contains_name(old(models)@, parent_name@)
            && !is_internal_at(old(models)@, parent_name@),
        r is Err ==> final(models)@ == old(models)@,
        r is Ok ==> added_table(old(models)@, final(models)@, parent_name@, new_name@),
{
    let ghost a = models@;
    let p = match find(models, parent_name) {
        Some(p) => p,
        None => {
            return Err(StoreError::NotFound);
        },
    };
    if models[p].children.is_none() {
        proof {
            assert forall|i: int| 0 <= i < a.len() && #[trigger] a[i].name@ == parent_name@ implies a[i].children.is_none() by {
                if i != p {
                    assert(a[p as int].name@ == parent_name@);
                }
            }
        }
        return Err(StoreError::NotInternal);
    }
    let total = slot_total(models);
    if total >= u64::MAX - 1 {
        return Err(StoreError::CapacityExceeded);
    }
    let mut parent = models.remove(p);
    let ghost old_parent = parent;
    match parent.children {
        Some(ref mut ch) => {
            ch.push(String::from_str(new_name));
        },
        None => {},
    }
    assert(child_names(parent) =~= child_names(old_parent).push(new_name@));
    models.insert(p, parent);
    let ghost a1 = models@;
    assert(a1 =~= a.update(p as int, parent));
    models.push(placeholder_leaf(new_name));
    let ghost b = models@;
    proof {
        lemma_slots_update(a, p as int, parent);
        lemma_slots_push(a1, b.last());
        assert(b.last().children.is_none());
        assert forall|j: int| 0 <= j < a.len() implies #[trigger] b[j] == (if j == p { parent } else { a[j] }) by {}
        assert forall|j: int| 0 <= j < a.len() implies (#[trigger] a[j]).name@ == parent_name@ <==> j == p by {
            if j != p && a[j].name@ == parent_name@ {
                assert(a[p as int].name@ == parent_name@);
            }
        }
        assert(b[a.len() as int].name@ == new_name@);
        assert forall|x: int, y: int| 0 <= x < b.len() && 0 <= y < b.len() && x != y
            implies #[trigger] b[x].name@ != #[trigger] b[y].name@ by {
            if x == a.len() {
                assert(!contains_name(a, new_name@));
                assert(b[y].name@ == a[y].name@);
            } else if y == a.len() {
                assert(!contains_name(a, new_name@));
                assert(b[x].name@ == a[x].name@);
            } else {
                assert(b[x].name@ == a[x].name@);
                assert(b[y].name@ == a[y].name@);
            }
        }
        assert forall|j: int| 0 <= j < b.len() implies kind_consistent(#[trigger] b[j]) by {
            if j < a.len() {
                assert(kind_consistent(a[j]));
            }
        }
        assert forall|j: int, k: int| 0 <= j < b.len() && 0 <= k < child_names(b[j]).len()
            implies contains_name(b, #[trigger] child_names(b[j])[k]) by {
            let c = child_names(b[j])[k];
            if j == p && k == child_names(a[j]).len() {
                assert(b[a.len() as int].name@ == c);
            } else {
                assert(j < a.len());
                assert(c == child_names(a[j])[k]);
                assert(contains_name(a, c));
                let q = choose|q: int| 0 <= q < a.len() && #[trigger] a[q].name@ == c;
                assert(b[q].name@ == c);
            }
        }
    }
    update_reference_count(models);
    proof {
        lemma_recount_wf(b, models@);
        assert forall|j: int| 0 <= j < b.len() implies #[trigger] same_shape(b[j], models@[j]) by {}
        assert(is_internal_at(a, parent_name@));
    }
    Ok(())
}

/// `s` with every entry equal to `n` left out, order kept.
pub open spec fn without(s: Seq<Seq<char>>, n: Seq<char>) -> Seq<Seq<char>>
    decreases s.len(),
{
    if s.len() == 0 {
        s
    } else if s.last() == n {
        without(s.drop_last(), n)
    } else {
        without(s.drop_last(), n).push(s.last())
    }
}

/// `b` is `a` with every slot naming `n` taken out of the list of `p`.
pub open spec fn unlinked(a: Seq<Model>, b: Seq<Model>, p: Seq<char>, n: Seq<char>) -> bool {
    &&& b.len() == a.len()
    &&& forall|j: int| 0 <= j < a.len() ==> {
        &&& (#[trigger] b[j]).name == a[j].name
        &&& b[j].algorithm == a[j].algorithm
        &&& b[j].children.is_some() == a[j].children.is_some()
        &&& child_names(b[j]) == if a[j].name@ == p { without(child_names(a[j]), n) } else { child_names(a[j]) }
    }
}

/// `b` is `a` after the edge from `p` to `n` went away: `n` is unlinked from
/// `p`, and the node `n` itself is dropped when that edge was its only
/// reference. Counts aside.
pub open spec fn deleted_table(a: Seq<Model>, b: Seq<Model>, p: Seq<char>, n: Seq<char>) -> bool {
    exists|a1: Seq<Model>| #[trigger] unlinked(a, a1, p, n) && if references(a, n) == 1 {
        exists|q: int| 0 <= q < a1.len() && #[trigger] a1[q].name@ == n && same_shapes(a1.remove(q), b)
    } else {
        same_shapes(a1, b)
    }
}

pub(crate) proof fn lemma_without(s: Seq<Seq<char>>, n: Seq<char>)
    ensures
        without(s, n).len() <= s.len(),
        forall|k: int| 0 <= k < without(s, n).len() ==> #[trigger] without(s, n)[k] != n && s.contains(without(s, n)[k]),
        occurrences(without(s, n), n) == 0,
    decreases s.len(),
{
    if s.len() > 0 {
        let d = s.drop_last();
        lemma_without(d, n);
        let w = without(d, n);
        assert forall|k: int| 0 <= k < without(s, n).len() implies #[trigger] without(s, n)[k] != n && s.contains(without(s, n)[k]) by {
            if k < w.len() {
                assert(without(s, n)[k] == w[k]);
                let x = choose|x: int| 0 <= x < d.len() && d[x] == w[k];
                assert(s[x] == d[x]);
            } else {
                assert(s[s.len() - 1] == s.last());
            }
        }
        if s.last() != n {
            assert(w.push(s.last()).drop_last() =~= w);
        }
    }
}

pub(crate) proof fn lemma_occurrences_contains(s: Seq<Seq<char>>, n: Seq<char>)
    ensures
        occurrences(s, n) > 0 <==> s.contains(n),
    decreases s.len(),
{
    if s.len() > 0 {
        let d = s.drop_last();
        lemma_occurrences_contains(d, n);
        if d.contains(n) {
            let x = choose|x: int| 0 <= x < d.len() && d[x] == n;
            assert(s[x] == n);
        }
        if s.contains(n) && s.last() != n {
            let x = choose|x: int| 0 <= x < s.len() && s[x] == n;
            assert(d[x] == n);
        }
    }
}

pub(crate) proof fn lemma_references_update(ms: Seq<Model>, i: int, m: Model, n: Seq<char>)
    requires
        0 <= i < ms.len(),
    ensures
        references(ms.update(i, m), n) + occurrences(child_names(ms[i]), n)
            == references(ms, n) + occurrences(child_names(m), n),
    decreases ms.len(),
{
    if i == ms.len() - 1 {
        assert(ms.update(i, m).drop_last() =~= ms.drop_last());
    } else {
        assert(ms.update(i, m).drop_last() =~= ms.drop_last().update(i, m));
        lemma_references_update(ms.drop_last(), i, m, n);
    }
}

pub(crate) proof fn lemma_references_at_least(ms: Seq<Model>, j: int, n: Seq<char>)
    requires
        0 <= j < ms.len(),
    ensures
        references(ms, n) >= occurrences(child_names(ms[j]), n),
    decreases ms.len(),
{
    if j < ms.len() - 1 {
        lemma_references_at_least(ms.drop_last(), j, n);
    }
}

/// The entries of `ch` other than `name`, and whether `name` was among them.
fn without_name(ch: &Vec<String>, name: &String) -> (r: (Vec<String>, bool))
    ensures
        r.0@.map_values(|s: String| s@) == without(ch@.map_values(|s: String| s@), name@),
        r.1 == ch@.map_values(|s: String| s@).contains(name@),
{
    let ghost s = ch@.map_values(|s: String| s@);
    let mut kept: Vec<String> = Vec::new();
    let mut found = false;
    let mut k: usize = 0;
    while k < ch.len()
        invariant
            k <= ch.len(),
            s == ch@.map_values(|s: String| s@),
            kept@.map_values(|s: String| s@) == without(s.take(k as int), name@),
            found == s.take(k as int).contains(name@),
        decreases ch.len() - k,
    {
        let ghost t = s.take(k + 1);
        assert(t.drop_last() =~= s.take(k as int));
        assert(t.last() == ch@[k as int]@);
        proof {
            lemma_occurrences_contains(t, name@);
            lemma_occurrences_contains(s.take(k as int), name@);
        }
        if ch[k].eq(name) {
            found = true;
        } else {
            kept.push(ch[k].clone());
            assert(kept@.map_values(|s: String| s@) =~= without(s.take(k as int), name@).push(ch@[k as int]@));
        }
        k = k + 1;
    }
    assert(s.take(k as int) =~= s);
    (kept, found)
}

/// Unlinks `name` from `parent_name` (every slot of it), drops the node
/// `name` when that edge was its only reference, then recounts.
pub fn remove_node_from_parent(parent_name: &str, name: &str, models: &mut Vec<Model>) -> (r: Result<(), StoreError>)
    requires
        store_wf(old(models)@),
    ensures
        store_wf(final(models)@),
        r == Err::<(), StoreError>(StoreError::NotFound) <==> !contains_name(old(models)@, name@)
            || !contains_name(old(models)@, parent_name@),
        r == Err::<(), StoreError>(StoreError::NotInternal) <==> contains_name(old(models)@, name@)
            && contains_name(old(models)@, parent_name@) && !is_internal_at(old(models)@, parent_name@),
        r == Err::<(), StoreError>(StoreError::NotAChild) <==> contains_name(old(models)@, name@)
            && is_internal_at(old(models)@, parent_name@) && !lists_child(old(models)@, parent_name@, name@),
        r is Ok <==> contains_name(old(models)@, name@) && lists_child(old(models)@, parent_name@, name@),
        r is Err ==> final(models)@ == old(models)@,
        r is Ok ==> deleted_table(old(models)@, final(models)@, parent_name@, name@),
{
    let ghost a = models@;
    let key = String::from_str(name);
    let ni = match find(models, name) {
        Some(i) => i,
        None => {
            return Err(StoreError::NotFound);
        },
    };
    let p = match find(models, parent_name) {
        Some(p) => p,
        None => {
            return Err(StoreError::NotFound);
        },
    };
    proof {
        assert forall|i: int| 0 <= i < a.len() implies (#[trigger] a[i].name@ == parent_name@) <==> i == p by {
            if i != p && a[i].name@ == parent_name@ {
                assert(a[p as int].name@ == parent_name@);
            }
        }
        assert forall|i: int| 0 <= i < a.len() implies (#[trigger] a[i].name@ == name@) <==> i == ni by {
            if i != ni && a[i].name@ == name@ {
                assert(a[ni as int].name@ == name@);
            }
        }
    }
    let (kept, found) = match &models[p].children {
        Some(ch) => without_name(ch, &key),
        None => {
            return Err(StoreError::NotInternal);
        },
    };
    if !found {
        return Err(StoreError::NotAChild);
    }
    let drop_node = models[ni].ref_count == 1;
    let mut parent = models.remove(p);
    let ghost old_parent = parent;
    parent.children = Some(kept);
    models.insert(p, parent);
    let ghost a1 = models@;
    proof {
        assert(a1 =~= a.update(p as int, parent));
        lemma_slots_update(a, p as int, parent);
        lemma_without(child_names(old_parent), name@);
        lemma_references_update(a, p as int, parent, name@);
        lemma_occurrences_contains(child_names(old_parent), name@);
        assert(unlinked(a, a1, parent_name@, name@));
    }
    if drop_node {
        let _dropped = models.remove(ni);
        proof {
            assert(references(a1, name@) == 0);
            lemma_slots_remove(a1, ni as int);
        }
    }
    let ghost b = models@;
    proof {
        lemma_unlinked_keeps(a, a1, parent_name@, name@);
        if drop_node {
            lemma_drop_unreferenced(a1, ni as int, name@);
            assert(a1.remove(ni as int) == b);
        } else {
            assert(a1 == b);
        }
    }
    update_reference_count(models);
    proof {
        lemma_recount_wf(b, models@);
        assert(a[ni as int].ref_count == references(a, name@));
        assert(lists_child(a, parent_name@, name@));
        if drop_node {
            assert(a1[ni as int].name@ == name@);
            assert(same_shapes(a1.remove(ni as int), models@));
        } else {
            assert(same_shapes(a1, models@));
        }
        assert(deleted_table(a, models@, parent_name@, name@));
    }
    Ok(())
}

proof fn lemma_unlinked_keeps(a: Seq<Model>, a1: Seq<Model>, p: Seq<char>, n: Seq<char>)
    requires
        store_wf(a),
        unlinked(a, a1, p, n),
    ensures
        unique_names(a1),
        kinds_consistent(a1),
        children_resolve(a1),
{
    assert forall|x: int, y: int| 0 <= x < a1.len() && 0 <= y < a1.len() && x != y
        implies #[trigger] a1[x].name@ != #[trigger] a1[y].name@ by {
        assert(a1[x].name == a[x].name);
        assert(a1[y].name == a[y].name);
    }
    assert forall|j: int| 0 <= j < a1.len() implies kind_consistent(#[trigger] a1[j]) by {
        assert(kind_consistent(a[j]));
    }
    assert forall|j: int, k: int| 0 <= j < a1.len() && 0 <= k < child_names(a1[j]).len()
        implies contains_name(a1, #[trigger] child_names(a1[j])[k]) by {
        let c = child_names(a1[j])[k];
        if a[j].name@ == p {
            lemma_without(child_names(a[j]), n);
            let x = choose|x: int| 0 <= x < child_names(a[j]).len() && child_names(a[j])[x] == c;
            assert(contains_name(a, child_names(a[j])[x]));
        } else {
            assert(contains_name(a, child_names(a[j])[k]));
        }
        let q = choose|q: int| 0 <= q < a.len() && #[trigger] a[q].name@ == c;
        assert(a1[q].name == a[q].name);
    }
}

proof fn lemma_drop_unreferenced(a1: Seq<Model>, q: int, n: Seq<char>)
    requires
        unique_names(a1),
        kinds_consistent(a1),
        children_resolve(a1),
        0 <= q < a1.len(),
        a1[q].name@ == n,
        references(a1, n) == 0,
    ensures
        unique_names(a1.remove(q)),
        kinds_consistent(a1.remove(q)),
        children_resolve(a1.remove(q)),
{
    let b = a1.remove(q);
    assert forall|j: int| 0 <= j < b.len() implies #[trigger] b[j] == a1[if j < q { j } else { j + 1 }] by {}
    assert forall|x: int, y: int| 0 <= x < b.len() && 0 <= y < b.len() && x != y
        implies #[trigger] b[x].name@ != #[trigger] b[y].name@ by {
        assert(b[x] == a1[if x < q { x } else { x + 1 }]);
        assert(b[y] == a1[if y < q { y } else { y + 1 }]);
    }
    assert forall|j: int| 0 <= j < b.len() implies kind_consistent(#[trigger] b[j]) by {
        assert(b[j] == a1[if j < q { j } else { j + 1 }]);
    }
    assert forall|j: int, k: int| 0 <= j < b.len() && 0 <= k < child_names(b[j]).len()
        implies contains_name(b, #[trigger] child_names(b[j])[k]) by {
        let jj = if j < q { j } else { j + 1 };
        assert(b[j] == a1[jj]);
        let c = child_names(a1[jj])[k];
        assert(contains_name(a1, c));
        lemma_references_at_least(a1, jj, n);
        lemma_occurrences_contains(child_names(a1[jj]), n);
        assert(child_names(a1[jj]).contains(c));
        assert(c != n);
        let x = choose|x: int| 0 <= x < a1.len() && #[trigger] a1[x].name@ == c;
        let xx = if x < q { x } else { x - 1 };
        assert(b[xx] == a1[x]);
    }
}

/// The node `p` lists `n` among its children.
pub open spec fn lists_child(ms: Seq<Model>, p: Seq<char>, n: Seq<char>) -> bool {
    exists|i: int| 0 <= i < ms.len() && #[trigger] ms[i].name@ == p && child_names(ms[i]).contains(n)
}

} // verus!
