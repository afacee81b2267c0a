//! Fresh names: the disambiguated name of a renamed internal node, and the
//! name of a newly added leaf. Both search the store as it stands and take
//! the first free candidate.
use vstd::prelude::*;
use crate::model::{Model, contains_name, find, names_of};

verus! {

/// Appended to a requested name, as often as needed, when it is taken.
pub const DUPLICATE_MARKER: &'static str = " (duplicate)";

/// The name a new node gets when it is free.
pub const NEW_NODE_BASE: &'static str = "new node";

/// The characters of the duplicate marker.
pub open spec fn marker() -> Seq<char> {
    DUPLICATE_MARKER@
}

/// `base` followed by `k` copies of the duplicate marker.
pub open spec fn with_markers(base: Seq<char>, k: nat) -> Seq<char>
    decreases k,
{
    if k == 0 {
        base
    } else {
        with_markers(base, (k - 1) as nat) + marker()
    }
}

/// The character of the decimal digit `d`.
pub open spec fn digit_char(d: nat) -> char {
    if d == 0 { '0' } else if d == 1 { '1' } else if d == 2 { '2' } else if d == 3 { '3' }
    else if d == 4 { '4' } else if d == 5 { '5' } else if d == 6 { '6' } else if d == 7 { '7' }
    else if d == 8 { '8' } else { '9' }
}

/// The decimal digits of `n`, most significant first, without leading zeros.
pub open spec fn decimal(n: nat) -> Seq<char>
    decreases n,
{
    if n < 10 {
        seq![digit_char(n)]
    } else {
        decimal(n / 10).push(digit_char(n % 10))
    }
}

/// The `k`-th candidate for a new node: the base, then the base with 1, 2, ...
pub open spec fn new_node_candidate(k: nat) -> Seq<char> {
    if k == 0 {
        NEW_NODE_BASE@
    } else {
        NEW_NODE_BASE@ + decimal(k)
    }
}

/// `k` is the least count of markers after `base` that gives a free name.
pub open spec fn first_free_marked(ms: Seq<Model>, base: Seq<char>, k: nat) -> bool {
    &&& !contains_name(ms, with_markers(base, k))
    &&& forall|j: nat| j < k ==> contains_name(ms, #[trigger] with_markers(base, j))
}

/// `k` is the least index of a free new-node candidate.
pub open spec fn first_free_candidate(ms: Seq<Model>, k: nat) -> bool {
    &&& !contains_name(ms, new_node_candidate(k))
    &&& forall|j: nat| j < k ==> contains_name(ms, #[trigger] new_node_candidate(j))
}

proof fn lemma_marked_len(base: Seq<char>, k: nat)
    ensures
        with_markers(base, k).len() >= base.len() + k,
    decreases k,
{
    reveal_strlit(" (duplicate)");
    if k > 0 {
        lemma_marked_len(base, (k - 1) as nat);
    }
}

proof fn lemma_name_length_bound(ms: Seq<Model>) -> (m: nat)
    ensures
        forall|i: int| 0 <= i < ms.len() ==> (#[trigger] ms[i]).name@.len() <= m,
    decreases ms.len(),
{
    if ms.len() == 0 {
        0
    } else {
        let b = lemma_name_length_bound(ms.drop_last());
        let l = ms.last().name@.len();
        let m = if b > l { b } else { l };
        assert forall|i: int| 0 <= i < ms.len() implies (#[trigger] ms[i]).name@.len() <= m by {
            if i < ms.len() - 1 {
                assert(ms.drop_last()[i] == ms[i]);
            }
        }
        m
    }
}

/// Proposes a free name for an internal node that was asked to take the
/// taken name `new_name`: the duplicate marker is appended until the name is free.
pub fn suggest_new_name_dupe(new_name: &str, models: &Vec<Model>) -> (r: String)
    ensures
        exists|k: nat| r@ == with_markers(new_name@, k) && first_free_marked(models@, new_name@, k),
{
    let ghost bound = lemma_name_length_bound(models@);
    let mut cand = String::from_str(new_name);
    let ghost mut k: nat = 0;
    loop
        invariant
            cand@ == with_markers(new_name@, k),
            forall|i: int| 0 <= i < models@.len() ==> (#[trigger] models@[i]).name@.len() <= bound,
            forall|j: nat| j < k ==> contains_name(models@, #[trigger] with_markers(new_name@, j)),
        decreases bound + 1 - k,
    {
        match find(models, cand.as_str()) {
            None => {
                return cand;
            },
            Some(i) => {
                proof {
                    lemma_marked_len(new_name@, k);
                    assert(models@[i as int].name@.len() <= bound);
                    assert(k <= bound);
                }
            },
        }
        cand.append(DUPLICATE_MARKER);
        proof {
            assert forall|j: nat| j < k + 1 implies contains_name(models@, #[trigger] with_markers(new_name@, j)) by {
                if j < k {
                }
            }
            k = k + 1;
        }
    }
}

proof fn lemma_decimal_nonempty(n: nat)
    ensures
        decimal(n).len() >= 1,
        n >= 10 ==> decimal(n).len() >= 2,
    decreases n,
{
    if n >= 10 {
        lemma_decimal_nonempty(n / 10);
    }
}

proof fn lemma_decimal_injective(a: nat, b: nat)
    requires
        decimal(a) == decimal(b),
    ensures
        a == b,
    decreases a + b,
{
    lemma_decimal_nonempty(a);
    lemma_decimal_nonempty(b);
    if a >= 10 && b >= 10 {
        assert(decimal(a).drop_last() =~= decimal(a / 10));
        assert(decimal(b).drop_last() =~= decimal(b / 10));
        lemma_decimal_injective(a / 10, b / 10);
        assert(a / 10 == b / 10);
        assert(decimal(a).last() == digit_char(a % 10));
        assert(decimal(b).last() == digit_char(b % 10));
        assert(a % 10 == b % 10);
        assert(a == (a / 10) * 10 + a % 10);
        assert(b == (b / 10) * 10 + b % 10);
        assert(a == b);
    } else if a < 10 && b < 10 {
        assert(decimal(a) == seq![digit_char(a)]);
        assert(decimal(b) == seq![digit_char(b)]);
        assert(seq![digit_char(a)][0] == digit_char(a));
        assert(seq![digit_char(b)][0] == digit_char(b));
    } else {
        assert(decimal(a).len() != decimal(b).len());
    }
}

proof fn lemma_candidate_injective(a: nat, b: nat)
    requires
        new_node_candidate(a) == new_node_candidate(b),
    ensures
        a == b,
{
    lemma_decimal_nonempty(a);
    lemma_decimal_nonempty(b);
    if a != 0 && b != 0 {
        assert(decimal(a) =~= new_node_candidate(a).subrange(NEW_NODE_BASE@.len() as int, new_node_candidate(a).len() as int));
        assert(decimal(b) =~= new_node_candidate(b).subrange(NEW_NODE_BASE@.len() as int, new_node_candidate(b).len() as int));
        lemma_decimal_injective(a, b);
    } else if a == 0 && b != 0 {
        assert(new_node_candidate(a).len() != new_node_candidate(b).len());
    } else if a != 0 && b == 0 {
        assert(new_node_candidate(a).len() != new_node_candidate(b).len());
    }
}

fn digit_str(d: usize) -> (r: &'static str)
    requires
        d < 10,
    ensures
        r@ == seq![digit_char(d as nat)],
{
    proof {
        reveal_strlit("0"); reveal_strlit("1"); reveal_strlit("2"); reveal_strlit("3");
        reveal_strlit("4"); reveal_strlit("5"); reveal_strlit("6"); reveal_strlit("7");
        reveal_strlit("8"); reveal_strlit("9");
    }
    if d == 0 { "0" } else if d == 1 { "1" } else if d == 2 { "2" } else if d == 3 { "3" }
    else if d == 4 { "4" } else if d == 5 { "5" } else if d == 6 { "6" } else if d == 7 { "7" }
    else if d == 8 { "8" } else { "9" }
}

/// Appends the decimal digits of `n` to `s`.
fn push_decimal(s: &mut String, n: usize)
    ensures
        final(s)@ == old(s)@ + decimal(n as nat),
    decreases n,
{
    if n >= 10 {
        push_decimal(s, n / 10);
    }
    s.append(digit_str(n % 10));
    proof {
        if n >= 10 {
            assert(final(s)@ =~= old(s)@ + decimal(n as nat));
        }
    }
}

/// The `k`-th new-node candidate.
fn new_node_name(k: usize) -> (r: String)
    ensures
        r@ == new_node_candidate(k as nat),
{
    let mut s = String::from_str(NEW_NODE_BASE);
    if k > 0 {
        push_decimal(&mut s, k);
    }
    s
}

/// Proposes a name for a new node: the base name if free, else the base
/// followed by the least positive number that makes it free.
pub fn suggest_new_name_add(models: &Vec<Model>) -> (r: String)
    ensures
        exists|k: nat| r@ == new_node_candidate(k) && first_free_candidate(models@, k),
{
    broadcast use vstd::seq_lib::seq_to_set_is_finite;
    let ghost names = names_of(models@).to_set();
    proof {
        names_of(models@).lemma_cardinality_of_set();
    }
    let mut k: usize = 0;
    let ghost mut tried: Set<Seq<char>> = Set::empty();
    loop
        invariant
            names == names_of(models@).to_set(),
            names.finite(),
            names.len() <= models@.len(),
            tried.finite(),
            tried.len() == k,
            tried.subset_of(names),
            forall|x: Seq<char>| tried.contains(x) ==> exists|j: nat| j < k && x == #[trigger] new_node_candidate(j),
            forall|j: nat| j < k ==> contains_name(models@, #[trigger] new_node_candidate(j)),
        decreases models@.len() - k,
    {
        let cand = new_node_name(k);
        if find(models, cand.as_str()).is_none() {
            return cand;
        }
        proof {
            let c = new_node_candidate(k as nat);
            let i = choose|i: int| 0 <= i < models@.len() && #[trigger] models@[i].name@ == c;
            assert(names_of(models@)[i] == c);
            assert(names.contains(c));
            if tried.contains(c) {
                let j = choose|j: nat| j < k && c == #[trigger] new_node_candidate(j);
                lemma_candidate_injective(j, k as nat);
            }
            let t2 = tried.insert(c);
            vstd::set_lib::lemma_len_subset(t2, names);
            assert(t2.len() == k + 1);
            assert forall|x: Seq<char>| t2.contains(x) implies exists|j: nat| j < k + 1 && x == #[trigger] new_node_candidate(j) by {
                if x == c {
                    assert(x == new_node_candidate(k as nat));
                }
            }
            tried = t2;
        }
        let total = models.len();
        assert(k + 1 <= total);
        k = k + 1;
    }
}

} // verus!
