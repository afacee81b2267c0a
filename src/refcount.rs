//! The reference counter: a full rescan of the store that rewrites every
//! node's cached count.
use vstd::prelude::*;
use crate::model::{Model, child_names, children_resolve, contains_name, kind_consistent, occurrences, references, store_wf, total_slots, unique_names};

verus! {

/// `a` and `b` are the same node apart from the cached count.
pub open spec fn same_shape(a: Model, b: Model) -> bool {
    &&& a.name == b.name
    &&& a.algorithm == b.algorithm
    &&& a.children == b.children
}

/// `b` holds the nodes of `a`, in the same order, apart from the cached counts.
pub open spec fn same_shapes(a: Seq<Model>, b: Seq<Model>) -> bool {
    &&& a.len() == b.len()
    &&& forall|i: int| 0 <= i < a.len() ==> same_shape(#[trigger] a[i], b[i])
}

pub(crate) proof fn lemma_occurrences_bound(s: Seq<Seq<char>>, n: Seq<char>)
    ensures
        occurrences(s, n) <= s.len(),
    decreases s.len(),
{
    if s.len() > 0 {
        lemma_occurrences_bound(s.drop_last(), n);
    }
}

pub(crate) proof fn lemma_references_bound(ms: Seq<Model>, n: Seq<char>)
    ensures
        references(ms, n) <= total_slots(ms),
    decreases ms.len(),
{
    if ms.len() > 0 {
        lemma_references_bound(ms.drop_last(), n);
        lemma_occurrences_bound(child_names(ms.last()), n);
    }
}

pub(crate) proof fn lemma_slots_of_prefix(ms: Seq<Model>, j: int)
    requires
        0 <= j <= ms.len(),
    ensures
        total_slots(ms.take(j)) <= total_slots(ms),
    decreases ms.len(),
{
    if j == ms.len() {
        assert(ms.take(j) =~= ms);
    } else {
        assert(ms.drop_last().take(j) =~= ms.take(j));
        lemma_slots_of_prefix(ms.drop_last(), j);
    }
}

/// Counts and totals depend on the children alone.
pub(crate) proof fn lemma_same_shapes(a: Seq<Model>, b: Seq<Model>, n: Seq<char>)
    requires
        same_shapes(a, b),
    ensures
        references(a, n) == references(b, n),
        total_slots(a) == total_slots(b),
    decreases a.len(),
{
    if a.len() > 0 {
        assert(same_shape(a[a.len() - 1], b[b.len() - 1]));
        lemma_same_shapes(a.drop_last(), b.drop_last(), n);
    }
}

/// Recounting keeps every well-formedness fact that does not involve counts.
pub(crate) proof fn lemma_recount_keeps(a: Seq<Model>, b: Seq<Model>)
    requires
        same_shapes(a, b),
    ensures
        total_slots(a) == total_slots(b),
        unique_names(a) ==> unique_names(b),
        (forall|i: int| 0 <= i < a.len() ==> kind_consistent(#[trigger] a[i])) ==> (forall|i: int|
            0 <= i < b.len() ==> kind_consistent(#[trigger] b[i])),
        children_resolve(a) ==> children_resolve(b),
        forall|n: Seq<char>| contains_name(a, n) == contains_name(b, n),
        forall|n: Seq<char>| #[trigger] references(a, n) == references(b, n),
{
    lemma_same_shapes(a, b, Seq::empty());
    assert forall|n: Seq<char>| #[trigger] references(a, n) == references(b, n) by {
        lemma_same_shapes(a, b, n);
    }
    assert forall|n: Seq<char>| contains_name(a, n) == contains_name(b, n) by {
        if contains_name(a, n) {
            let i = choose|i: int| 0 <= i < a.len() && #[trigger] a[i].name@ == n;
            assert(same_shape(a[i], b[i]));
        }
        if contains_name(b, n) {
            let i = choose|i: int| 0 <= i < b.len() && #[trigger] b[i].name@ == n;
            assert(same_shape(a[i], b[i]));
        }
    }
    if unique_names(a) {
        assert forall|i: int, j: int| 0 <= i < b.len() && 0 <= j < b.len() && i != j
            implies #[trigger] b[i].name@ != #[trigger] b[j].name@ by {
            assert(same_shape(a[i], b[i]));
            assert(same_shape(a[j], b[j]));
        }
    }
    if forall|i: int| 0 <= i < a.len() ==> kind_consistent(#[trigger] a[i]) {
        assert forall|i: int| 0 <= i < b.len() implies kind_consistent(#[trigger] b[i]) by {
            assert(same_shape(a[i], b[i]));
        }
    }
    if children_resolve(a) {
        assert forall|i: int, k: int| 0 <= i < b.len() && 0 <= k < child_names(b[i]).len()
            implies contains_name(b, #[trigger] child_names(b[i])[k]) by {
            assert(same_shape(a[i], b[i]));
            assert(child_names(a[i]) == child_names(b[i]));
        }
    }
}

/// Counts the child slots of `models` that name `name`.
fn count_references(models: &Vec<Model>, name: &String) -> (c: u64)
    requires
        total_slots(models@) <= u64::MAX,
    ensures
        c == references(models@, name@),
{
    let mut c: u64 = 0;
    let mut j: usize = 0;
    while j < models.len()
        invariant
            j <= models.len(),
            total_slots(models@) <= u64::MAX,
            c == references(models@.take(j as int), name@),
        decreases models.len() - j,
    {
        let ghost before = models@.take(j as int);
        let ghost m = models@[j as int];
        proof {
            lemma_references_bound(before, name@);
            lemma_slots_of_prefix(models@, j + 1);
            assert(models@.take(j + 1).drop_last() =~= before);
            assert(models@.take(j + 1).last() == m);
        }
        match &models[j].children {
            Some(ch) => {
                let mut k: usize = 0;
                while k < ch.len()
                    invariant
                        k <= ch.len(),
                        child_names(m) == ch@.map_values(|s: String| s@),
                        references(before, name@) <= total_slots(before),
                        total_slots(before) + ch.len() <= u64::MAX,
                        c == references(before, name@) + occurrences(child_names(m).take(k as int), name@),
                    decreases ch.len() - k,
                {
                    proof {
                        assert(child_names(m).take(k + 1).drop_last() =~= child_names(m).take(k as int));
                        lemma_occurrences_bound(child_names(m).take(k as int), name@);
                    }
                    if ch[k].eq(name) {
                        c = c + 1;
                    }
                    k = k + 1;
                }
                proof {
                    assert(child_names(m).take(k as int) =~= child_names(m));
                }
            },
            None => {},
        }
        j = j + 1;
    }
    proof {
        assert(models@.take(j as int) =~= models@);
    }
    c
}

/// Rewrites every node's cached count to the number of child slots, over the
/// whole store, that name it. Nothing else changes.
pub fn update_reference_count(models: &mut Vec<Model>)
    requires
        total_slots(old(models)@) <= u64::MAX,
    ensures
        same_shapes(old(models)@, final(models)@),
        forall|i: int| 0 <= i < final(models)@.len()
            ==> (#[trigger] final(models)@[i]).ref_count == references(old(models)@, old(models)@[i].name@),
{
    let ghost start = models@;
    let mut i: usize = 0;
    while i < models.len()
        invariant
            i <= models.len(),
            same_shapes(start, models@),
            total_slots(start) <= u64::MAX,
            forall|j: int| 0 <= j < i ==> (#[trigger] models@[j]).ref_count == references(start, start[j].name@),
        decreases models.len() - i,
    {
        proof {
            lemma_same_shapes(start, models@, Seq::empty());
            lemma_same_shapes(start, models@, models@[i as int].name@);
            assert(same_shape(start[i as int], models@[i as int]));
        }
        let c = count_references(models, &models[i].name);
        models[i].ref_count = c;
        proof {
            assert forall|j: int| 0 <= j < models@.len() implies same_shape(#[trigger] start[j], models@[j]) by {
            }
        }
        i = i + 1;
    }
}

/// After a recount a store whose other facts hold is well formed.
pub(crate) proof fn lemma_recount_wf(a: Seq<Model>, b: Seq<Model>)
    requires
        same_shapes(a, b),
        forall|i: int| 0 <= i < b.len() ==> (#[trigger] b[i]).ref_count == references(a, a[i].name@),
        unique_names(a),
        forall|i: int| 0 <= i < a.len() ==> kind_consistent(#[trigger] a[i]),
        children_resolve(a),
        total_slots(a) < u64::MAX,
    ensures
        store_wf(b),
{
    lemma_recount_keeps(a, b);
    assert forall|i: int| 0 <= i < b.len() implies (#[trigger] b[i]).ref_count == references(b, b[i].name@) by {
        assert(same_shape(a[i], b[i]));
    }
}

} // verus!
