use vstd::prelude::*;
use vstd::arithmetic::mul::lemma_mul_inequality;
use vstd::set_lib::lemma_len_subset;

use crate::search::Decision;

verus! {

/// Powers of 1000, the base of the positional measure below.
pub open spec fn pow1000(n: nat) -> nat
    decreases n,
{
    if n == 0 {
        1
    } else {
        1000 * pow1000((n - 1) as nat)
    }
}

pub proof fn lemma_pow1000_pos(n: nat)
    ensures
        pow1000(n) >= 1,
    decreases n,
{
    if n > 0 {
        lemma_pow1000_pos((n - 1) as nat);
    }
}

/// Every decision on the stack keeps at most 729 untried alternatives.
pub open spec fn stack_alternatives_bounded(ds: Seq<Decision>) -> bool {
    forall|l: int| 0 <= l < ds.len() ==> (#[trigger] ds[l]).potential_rows@.len() <= 729
}

/// The digit of the stack at position `i`: the number of untried
/// alternatives of the decision there, or 999 beyond the stack's depth.
/// A commit turns a 999 digit into a smaller one; consuming an alternative
/// shrinks a digit while everything deeper returns to 999. Either way the
/// stack decreases in the ordering given by `search_measure`.
pub open spec fn stack_digit(ds: Seq<Decision>, i: int) -> nat {
    if 0 <= i < ds.len() {
        ds[i].potential_rows@.len()
    } else {
        999
    }
}

/// The tail of the positional measure from digit `i` on.
pub open spec fn measure_from(ds: Seq<Decision>, i: int) -> nat
    decreases 730 - i,
{
    if i >= 730 || i < 0 {
        0
    } else {
        stack_digit(ds, i) * pow1000((729 - i) as nat) + measure_from(ds, i + 1)
    }
}

/// The search stack read as a 730-digit number in base 1000: decisions
/// contribute their alternative counts, unused depth contributes the
/// maximal digit.
pub open spec fn search_measure(ds: Seq<Decision>) -> nat {
    measure_from(ds, 0)
}

proof fn lemma_measure_from_bound(ds: Seq<Decision>, i: int)
    requires
        stack_alternatives_bounded(ds),
        0 <= i <= 730,
    ensures
        measure_from(ds, i) < pow1000((730 - i) as nat),
    decreases 730 - i,
{
    if i < 730 {
        lemma_measure_from_bound(ds, i + 1);
        let p = pow1000((729 - i) as nat);
        lemma_pow1000_pos((729 - i) as nat);
        assert(stack_digit(ds, i) <= 999);
        lemma_mul_inequality(stack_digit(ds, i) as int, 999, p as int);
        assert(pow1000((730 - i) as nat) == 1000 * p);
    }
}

proof fn lemma_measure_lt_from(ds1: Seq<Decision>, ds2: Seq<Decision>, i0: int, i: int)
    requires
        stack_alternatives_bounded(ds1),
        stack_alternatives_bounded(ds2),
        0 <= i <= i0 < 730,
        forall|x: int| i <= x < i0 ==> stack_digit(ds1, x) == stack_digit(ds2, x),
        stack_digit(ds1, i0) < stack_digit(ds2, i0),
    ensures
        measure_from(ds1, i) < measure_from(ds2, i),
    decreases i0 - i,
{
    if i == i0 {
        let p = pow1000((729 - i) as nat);
        lemma_pow1000_pos((729 - i) as nat);
        lemma_measure_from_bound(ds1, i + 1);
        lemma_measure_from_bound(ds2, i + 1);
        lemma_mul_inequality(stack_digit(ds1, i) as int + 1, stack_digit(ds2, i) as int, p as int);
        assert(stack_digit(ds1, i) * p + p == (stack_digit(ds1, i) + 1) * p) by {
            assert((stack_digit(ds1, i) + 1) * p == stack_digit(ds1, i) * p + 1 * p)
                by (nonlinear_arith);
        }
    } else {
        lemma_measure_lt_from(ds1, ds2, i0, i + 1);
    }
}

/// If two stacks agree on every digit below position `i0` and the first
/// has a smaller digit at `i0`, the first stack's measure is smaller.
pub proof fn lemma_search_measure_lt(ds1: Seq<Decision>, ds2: Seq<Decision>, i0: int)
    requires
        stack_alternatives_bounded(ds1),
        stack_alternatives_bounded(ds2),
        0 <= i0 < 730,
        forall|x: int| 0 <= x < i0 ==> stack_digit(ds1, x) == stack_digit(ds2, x),
        stack_digit(ds1, i0) < stack_digit(ds2, i0),
    ensures
        search_measure(ds1) < search_measure(ds2),
{
    lemma_measure_lt_from(ds1, ds2, i0, 0);
}

/// The set of machine integers below `n`.
pub open spec fn usize_range_set(n: nat) -> Set<usize>
    decreases n,
{
    if n == 0 {
        Set::empty()
    } else {
        usize_range_set((n - 1) as nat).insert((n - 1) as usize)
    }
}

pub proof fn lemma_usize_range_set(n: nat)
    requires
        n <= usize::MAX,
    ensures
        usize_range_set(n).finite(),
        usize_range_set(n).len() <= n,
        forall|x: usize| usize_range_set(n).contains(x) <==> (x as nat) < n,
    decreases n,
{
    if n > 0 {
        lemma_usize_range_set((n - 1) as nat);
    }
}

/// A set of machine integers all below `n` is finite and holds at most `n`
/// elements.
pub proof fn lemma_bounded_set_len(s: Set<usize>, n: nat)
    requires
        n <= usize::MAX,
        forall|ch: usize| s.contains(ch) ==> (ch as nat) < n,
    ensures
        s.finite(),
        s.len() <= n,
{
    lemma_usize_range_set(n);
    assert(s.subset_of(usize_range_set(n)));
    lemma_len_subset(s, usize_range_set(n));
}

/// A strictly ascending sequence of machine integers below `n` has at most
/// `n` entries.
pub proof fn lemma_ascending_seq_len(s: Seq<usize>, n: nat)
    requires
        n <= usize::MAX,
        forall|i: int, j: int| 0 <= i < j < s.len() ==> s[i] < s[j],
        forall|i: int| 0 <= i < s.len() ==> (#[trigger] s[i] as nat) < n,
    ensures
        s.len() <= n,
{
    assert(s.no_duplicates());
    s.unique_seq_to_set();
    assert forall|ch: usize| s.to_set().contains(ch) implies (ch as nat) < n by {
        let i = choose|i: int| 0 <= i < s.len() && s[i] == ch;
        assert((s[i] as nat) < n);
    }
    lemma_bounded_set_len(s.to_set(), n);
}

/// The selected choices of a stack of pairwise distinct decisions form a
/// set as large as the stack is deep.
pub proof fn lemma_sel_set_len(ds: Seq<Decision>)
    requires
        forall|l1: int, l2: int|
            0 <= l1 < l2 < ds.len() ==> (#[trigger] ds[l1]).selected_row != (
            #[trigger] ds[l2]).selected_row,
    ensures
        crate::search::sel_set(ds).finite(),
        crate::search::sel_set(ds).len() == ds.len(),
    decreases ds.len(),
{
    let s = crate::search::sel_set(ds);
    if ds.len() == 0 {
        assert forall|ch: usize| !s.contains(ch) by {}
        assert(s =~= Set::empty());
    } else {
        let prefix = ds.drop_last();
        lemma_sel_set_len(prefix);
        let sp = crate::search::sel_set(prefix);
        let last = ds.last().selected_row;
        assert forall|ch: usize| s.contains(ch) implies sp.insert(last).contains(ch) by {
            let l = choose|l: int| 0 <= l < ds.len() && (#[trigger] ds[l]).selected_row == ch;
            if l < ds.len() - 1 {
                assert(prefix[l].selected_row == ch);
                assert(sp.contains(ch));
            }
        }
        assert forall|ch: usize| sp.contains(ch) implies s.contains(ch) by {
            let l = choose|l: int|
                0 <= l < prefix.len() && (#[trigger] prefix[l]).selected_row == ch;
            assert(ds[l].selected_row == ch);
        }
        assert(s =~= sp.insert(last));
        assert(!sp.contains(last)) by {
            if sp.contains(last) {
                let l = choose|l: int|
                    0 <= l < prefix.len() && (#[trigger] prefix[l]).selected_row == last;
                assert(ds[l].selected_row == ds[ds.len() - 1].selected_row);
            }
        }
    }
}

} // verus!
