//! The step model: what one recorded unit of algorithm progress looks like,
//! and what it means for a whole trace of swap steps to faithfully replay a
//! run of an in-place sorting algorithm.

use vstd::prelude::*;
use vstd::seq_lib::lemma_multiset_commutative;
use vstd::string::StringExecFns;

use crate::decimal::{i64_to_string, spec_decimal, spec_decimal_int, u64_to_string};

verus! {

/// One recorded unit of algorithm progress.  Every variant carries a full
/// snapshot of the buffer it concerns, so a client can render the state of
/// the sort at that moment without replaying anything.
#[derive(Debug, PartialEq)]
pub enum StepAction {
    /// Two elements of a single contiguous buffer were exchanged; `snapshot`
    /// is the full state of that buffer immediately after the exchange.
    Swap { from: usize, to: usize, snapshot: Vec<i64> },
    /// A divide-and-conquer algorithm partitioned a sub-sequence into two
    /// halves, captured verbatim.
    Split { left: Vec<i64>, right: Vec<i64> },
    /// One element was appended to a merged output buffer during a combine
    /// phase; `merged` is that buffer's state at this point.
    Merge { merged: Vec<i64> },
}

/// The explanation text a step carries on the wire, describing the
/// operation in terms of its values and indices.
pub open spec fn spec_explanation(step: StepAction) -> Seq<char>
    recommends
        step matches StepAction::Swap { from, to, snapshot } ==> from < snapshot@.len() && to
            < snapshot@.len(),
        step matches StepAction::Merge { merged } ==> merged@.len() > 0,
{
    match step {
        StepAction::Swap { from, to, snapshot } => "Swap "@ + spec_decimal_int(
            snapshot@[to as int] as int,
        ) + " (index: "@ + spec_decimal(to as nat) + ") with "@ + spec_decimal_int(
            snapshot@[from as int] as int,
        ) + " (index: "@ + spec_decimal(from as nat) + ")"@,
        StepAction::Split { .. } => "Split the list in two"@,
        StepAction::Merge { merged } => "Merge "@ + spec_decimal_int(merged@.last() as int)
            + " into the result"@,
    }
}

impl StepAction {
    /// The human-readable explanation of this step.  A `Swap` names the
    /// two exchanged values and their indices, a `Merge` names the value
    /// it appended; their indices must be in bounds and a `Merge` must
    /// carry at least one element, as every step the engine records does.
    pub fn explanation(&self) -> (r: String)
        requires
            self matches StepAction::Swap { from, to, snapshot } ==> from < snapshot@.len() && to
                < snapshot@.len(),
            self matches StepAction::Merge { merged } ==> merged@.len() > 0,
        ensures
            r@ == spec_explanation(*self),
    {
        match self {
            StepAction::Swap { from, to, snapshot } => {
                let r = String::from_str("Swap ").concat(i64_to_string(snapshot[*to]).as_str())
                    .concat(" (index: ").concat(u64_to_string(*to as u64).as_str()).concat(
                    ") with ",
                ).concat(i64_to_string(snapshot[*from]).as_str()).concat(" (index: ").concat(
                    u64_to_string(*from as u64).as_str(),
                ).concat(")");
                proof {
                    assert(r@ =~= spec_explanation(*self));
                }
                r
            },
            StepAction::Split { .. } => String::from_str("Split the list in two"),
            StepAction::Merge { merged } => {
                let last = merged[merged.len() - 1];
                let r = String::from_str("Merge ").concat(i64_to_string(last).as_str()).concat(
                    " into the result",
                );
                proof {
                    assert(r@ =~= spec_explanation(*self));
                }
                r
            },
        }
    }
}

/// The sequence is ordered ascending by value.
pub open spec fn seq_sorted(s: Seq<i64>) -> bool {
    forall|i: int, j: int| 0 <= i <= j < s.len() ==> s[i] <= s[j]
}

/// The sequence with the elements at positions `a` and `b` exchanged.
pub open spec fn swap_seq(s: Seq<i64>, a: int, b: int) -> Seq<i64> {
    s.update(a, s[b]).update(b, s[a])
}

/// `step` is a `Swap` that validly records an exchange performed on the
/// buffer state `prev`: its indices are in bounds and its snapshot is
/// exactly `prev` with those two elements exchanged.
pub open spec fn swap_step_ok(prev: Seq<i64>, step: StepAction) -> bool {
    &&& step matches StepAction::Swap { from, to, snapshot }
    &&& from < prev.len()
    &&& to < prev.len()
    &&& snapshot@ == swap_seq(prev, from as int, to as int)
}

/// The buffer state just before step `k` of a swap trace that started from
/// `init`: each snapshot is a full buffer state, so the state before step
/// `k` is the snapshot carried by step `k - 1`.
pub open spec fn swap_trace_state(init: Seq<i64>, steps: Seq<StepAction>, k: int) -> Seq<i64> {
    if k == 0 {
        init
    } else {
        steps[k - 1]->snapshot@
    }
}

/// The trace `steps` is a chronological record of in-place exchanges that
/// transforms `init` into `fin`: every step is a valid swap of the state
/// left behind by its predecessor, and the last snapshot (or `init`, for an
/// empty trace) is `fin`.
pub open spec fn swap_trace_ok(init: Seq<i64>, steps: Seq<StepAction>, fin: Seq<i64>) -> bool
    decreases steps.len(),
{
    if steps.len() == 0 {
        fin == init
    } else {
        let mid = swap_trace_state(init, steps, steps.len() - 1);
        &&& swap_trace_ok(init, steps.drop_last(), mid)
        &&& swap_step_ok(mid, steps.last())
        &&& fin == steps.last()->snapshot@
    }
}

/// The triangle number `0 + 1 + ... + (n - 1)`: the largest number of
/// exchanges a quadratic sorting algorithm can perform on `n` elements.
pub open spec fn tri(n: nat) -> nat
    decreases n,
{
    if n <= 1 {
        0
    } else {
        ((n - 1) + tri((n - 1) as nat)) as nat
    }
}

/// Triangle numbers grow monotonically.
pub proof fn lemma_tri_mono(a: nat, b: nat)
    requires
        a <= b,
    ensures
        tri(a) <= tri(b),
    decreases b,
{
    if a < b && b > 1 {
        lemma_tri_mono(a, (b - 1) as nat);
    }
}

/// The triangle number is at most quadratic: `tri(n) <= n * n`.
pub proof fn lemma_tri_le_square(n: nat)
    ensures
        tri(n) <= n * n,
    decreases n,
{
    if n > 1 {
        lemma_tri_le_square((n - 1) as nat);
        assert((n - 1) + (n - 1) * (n - 1) <= n * n) by (nonlinear_arith);
    }
}

/// The number of steps a merge sort of `n` elements records: one `Split`
/// per recursive call on more than one element, plus one `Merge` per
/// element appended during a combine phase.  The count depends only on the
/// length, never on the values.
pub open spec fn merge_trace_count(n: nat) -> nat
    decreases n,
{
    if n <= 1 {
        0
    } else {
        (1 + merge_trace_count(n / 2) + merge_trace_count((n - n / 2) as nat) + n) as nat
    }
}

/// The ceiling of the base-2 logarithm: the recursion depth of a merge
/// sort of `n` elements.
pub open spec fn log2_ceil(n: nat) -> nat
    decreases n,
{
    if n <= 1 {
        0
    } else {
        1 + log2_ceil(((n + 1) / 2) as nat)
    }
}

/// The ceiling logarithm grows monotonically.
pub proof fn lemma_log2_ceil_mono(a: nat, b: nat)
    requires
        a <= b,
    ensures
        log2_ceil(a) <= log2_ceil(b),
    decreases b,
{
    if a > 1 {
        lemma_log2_ceil_mono(((a + 1) / 2) as nat, ((b + 1) / 2) as nat);
    }
}

/// A merge sort of `n` elements records `O(n log n)` steps: at most
/// `2 * n * log2_ceil(n)` of them.
pub proof fn lemma_merge_trace_count_bound(n: nat)
    ensures
        merge_trace_count(n) <= 2 * n * log2_ceil(n),
    decreases n,
{
    if n > 1 {
        let a = n / 2;
        let b = (n - n / 2) as nat;
        lemma_merge_trace_count_bound(a);
        lemma_merge_trace_count_bound(b);
        lemma_log2_ceil_mono(a, b);
        assert(b == ((n + 1) / 2) as nat);
        assert(log2_ceil(n) == 1 + log2_ceil(b));
        let lg = log2_ceil(n);
        assert(log2_ceil(a) <= lg - 1);
        assert(log2_ceil(b) == lg - 1);
        assert(2 * a * log2_ceil(a) <= 2 * a * (lg - 1)) by (nonlinear_arith)
            requires
                log2_ceil(a) <= lg - 1,
                0 <= a,
        ;
        assert(2 * b * log2_ceil(b) == 2 * b * (lg - 1)) by (nonlinear_arith)
            requires
                log2_ceil(b) == lg - 1,
        ;
        assert(2 * a * (lg - 1) + 2 * b * (lg - 1) == 2 * n * (lg - 1)) by (nonlinear_arith)
            requires
                a + b == n,
        ;
        assert(merge_trace_count(n) <= 1 + 2 * n * (lg - 1) + n);
        assert(1 + 2 * n * (lg - 1) + n <= 2 * n * lg) by (nonlinear_arith)
            requires
                n >= 1,
                lg >= 1,
        ;
    }
}

/// A merge sort of more than one element always records steps: more of
/// them than the input has elements.
pub proof fn lemma_merge_trace_count_lower(n: nat)
    requires
        n >= 2,
    ensures
        merge_trace_count(n) > n,
{
}

/// `post` is `pre` with zero or more steps appended.
pub open spec fn extends_trace(post: Seq<StepAction>, pre: Seq<StepAction>) -> bool {
    &&& post.len() >= pre.len()
    &&& post.subrange(0, pre.len() as int) == pre
}

/// Appending steps extends a trace.
pub proof fn lemma_extends_push(s: Seq<StepAction>, step: StepAction)
    ensures
        extends_trace(s.push(step), s),
{
    assert(s.push(step).subrange(0, s.len() as int) =~= s);
}

/// Extending a trace twice extends it.
pub proof fn lemma_extends_trans(a: Seq<StepAction>, b: Seq<StepAction>, c: Seq<StepAction>)
    requires
        extends_trace(b, a),
        extends_trace(c, b),
    ensures
        extends_trace(c, a),
{
    assert forall|k: int| 0 <= k < a.len() implies c.subrange(0, a.len() as int)[k] == a[k] by {
        assert(b.subrange(0, a.len() as int)[k] == b[k]);
        assert(c.subrange(0, b.len() as int)[k] == c[k]);
    }
    assert(c.subrange(0, a.len() as int) =~= a);
}

/// The steps of `steps` from position `from` on are the `Merge` steps of
/// one combine phase that produced `result`: step `from + j` carries the
/// first `j + 1` elements of `result`, so the recorded partial results
/// grow monotonically into `result`.
pub open spec fn merge_append_steps_ok(steps: Seq<StepAction>, from: int, result: Seq<i64>) -> bool {
    forall|k: int|
        from <= k < steps.len() ==> ((#[trigger] steps[k]) matches StepAction::Merge { merged }
            && merged@ == result.subrange(0, k - from + 1))
}

/// Every step of `steps` from position `from` on is a `Split` or a
/// `Merge`: the shape of a divide-and-conquer trace, which never exchanges
/// elements in place.
pub open spec fn split_merge_steps_only(steps: Seq<StepAction>, from: int) -> bool {
    forall|k: int|
        from <= k < steps.len() ==> ((#[trigger] steps[k]) is Split || steps[k] is Merge)
}

/// Every `Swap` of the trace exchanges a pair of adjacent positions,
/// moving a value one place to the right: the shape of a bubble-sort
/// exchange of positions `i - 1` and `i`.
pub open spec fn swaps_upward_adjacent(steps: Seq<StepAction>) -> bool {
    forall|k: int|
        0 <= k < steps.len() ==> ((#[trigger] steps[k]) matches StepAction::Swap { from, to, .. }
            ==> to == from + 1)
}

/// Every `Swap` of the trace exchanges a pair of adjacent positions,
/// moving a value one place to the left: the shape of an insertion-sort
/// shift of position `j` down to `j - 1`.
pub open spec fn swaps_downward_adjacent(steps: Seq<StepAction>) -> bool {
    forall|k: int|
        0 <= k < steps.len() ==> ((#[trigger] steps[k]) matches StepAction::Swap { from, to, .. }
            ==> from == to + 1)
}

/// Every `Swap` of the trace brings an element leftward from strictly
/// further right: the shape of a selection-sort exchange of a position
/// with the strictly later position of the suffix minimum.
pub open spec fn swaps_rightward(steps: Seq<StepAction>) -> bool {
    forall|k: int|
        0 <= k < steps.len() ==> ((#[trigger] steps[k]) matches StepAction::Swap { from, to, .. }
            ==> from < to)
}

/// The pair of positions each recorded exchange names, in trace order.
/// Under [`swap_trace_ok`] the snapshots are determined by these pairs,
/// so pinning the pairs pins the whole trace.
pub open spec fn trace_positions(steps: Seq<StepAction>) -> Seq<(usize, usize)> {
    steps.map_values(|st: StepAction| (st->Swap_from, st->Swap_to))
}

/// Recording one more exchange appends its position pair.
pub proof fn lemma_trace_positions_push(steps: Seq<StepAction>, step: StepAction)
    ensures
        trace_positions(steps.push(step)) == trace_positions(steps).push(
            (step->Swap_from, step->Swap_to),
        ),
{
    assert(trace_positions(steps.push(step)) =~= trace_positions(steps).push(
        (step->Swap_from, step->Swap_to),
    ));
}

/// One step flattened to its kind and the buffers it carries: 0 with the
/// two halves for a `Split`, 1 with the partial result for a `Merge`, and
/// 2 with the snapshot for a `Swap`.
pub open spec fn step_entry(step: StepAction) -> (int, Seq<i64>, Seq<i64>) {
    match step {
        StepAction::Swap { from, to, snapshot } => (2, snapshot@, Seq::empty()),
        StepAction::Split { left, right } => (0, left@, right@),
        StepAction::Merge { merged } => (1, merged@, Seq::empty()),
    }
}

/// Every step of the trace flattened by [`step_entry`], in trace order.
pub open spec fn trace_entries(steps: Seq<StepAction>) -> Seq<(int, Seq<i64>, Seq<i64>)> {
    steps.map_values(|st: StepAction| step_entry(st))
}

/// The flattened view of an extended trace splits at the older trace's
/// end.
pub proof fn lemma_trace_entries_chain(a: Seq<StepAction>, b: Seq<StepAction>, n: int)
    requires
        0 <= n <= a.len(),
        extends_trace(b, a),
    ensures
        trace_entries(b).skip(n) == trace_entries(a).skip(n) + trace_entries(b).skip(
            a.len() as int,
        ),
{
    let lhs = trace_entries(b).skip(n);
    let rhs = trace_entries(a).skip(n) + trace_entries(b).skip(a.len() as int);
    assert forall|k: int| 0 <= k < lhs.len() implies lhs[k] == rhs[k] by {
        if k < a.len() - n {
            assert(b.subrange(0, a.len() as int)[n + k] == b[n + k]);
        }
    }
    assert(lhs =~= rhs);
}

/// The `from` positions of the trace's swaps strictly increase: each
/// position is the target of at most one exchange, visited left to right,
/// as selection sort fixes one position per pass.
pub open spec fn swap_from_increasing(steps: Seq<StepAction>) -> bool {
    forall|k1: int, k2: int|
        0 <= k1 < k2 < steps.len() ==> (#[trigger] steps[k1])->Swap_from
            < (#[trigger] steps[k2])->Swap_from
}

/// A sort's output is uniquely determined by its contract: two ascending
/// sequences holding the same multiset of values are the same sequence.
/// Duplicates are interchangeable, so no secondary key is needed.
pub proof fn lemma_sorted_permutation_unique(a: Seq<i64>, b: Seq<i64>)
    requires
        seq_sorted(a),
        seq_sorted(b),
        a.to_multiset() == b.to_multiset(),
    ensures
        a == b,
    decreases a.len(),
{
    broadcast use vstd::seq_lib::group_to_multiset_ensures;
    broadcast use vstd::multiset::group_multiset_axioms;

    assert(a.to_multiset().len() == a.len());
    assert(b.to_multiset().len() == b.len());
    if a.len() == 0 {
        assert(a =~= b);
    } else {
        assert(a.contains(a[0]));
        assert(a.to_multiset().count(a[0]) > 0);
        assert(b.to_multiset().count(a[0]) > 0);
        assert(b.contains(a[0]));
        let i = choose|i: int| 0 <= i < b.len() && b[i] == a[0];
        assert(b[0] <= a[0]);
        assert(b.contains(b[0]));
        assert(b.to_multiset().count(b[0]) > 0);
        assert(a.to_multiset().count(b[0]) > 0);
        assert(a.contains(b[0]));
        let j = choose|j: int| 0 <= j < a.len() && a[j] == b[0];
        assert(a[0] <= b[0]);
        assert(a[0] == b[0]);
        assert(a.drop_first() =~= a.remove(0));
        assert(b.drop_first() =~= b.remove(0));
        assert(a.drop_first().to_multiset() == b.drop_first().to_multiset());
        assert(seq_sorted(a.drop_first()));
        assert(seq_sorted(b.drop_first()));
        lemma_sorted_permutation_unique(a.drop_first(), b.drop_first());
        assert forall|k: int| 0 <= k < a.len() implies a[k] == b[k] by {
            if k > 0 {
                assert(a.drop_first()[k - 1] == b.drop_first()[k - 1]);
            }
        }
        assert(a =~= b);
    }
}

/// A trace whose older part holds only `Split` and `Merge` steps and whose
/// extension does too holds only such steps from the older start onward.
pub proof fn lemma_split_merge_glue(s1: Seq<StepAction>, s2: Seq<StepAction>, from: int)
    requires
        0 <= from <= s1.len(),
        extends_trace(s2, s1),
        split_merge_steps_only(s1, from),
        split_merge_steps_only(s2, s1.len() as int),
    ensures
        split_merge_steps_only(s2, from),
{
    assert forall|k: int| from <= k < s2.len() implies ((#[trigger] s2[k]) is Split
        || s2[k] is Merge) by {
        if k < s1.len() {
            assert(s2.subrange(0, s1.len() as int)[k] == s2[k]);
            assert(s1[k] is Split || s1[k] is Merge);
        }
    }
}

/// Exchanging two elements leaves the sequence's multiset of values intact.
pub proof fn lemma_swap_seq_multiset(s: Seq<i64>, a: int, b: int)
    requires
        0 <= a < s.len(),
        0 <= b < s.len(),
    ensures
        swap_seq(s, a, b).to_multiset() == s.to_multiset(),
{
    broadcast use vstd::seq_lib::group_to_multiset_ensures;
    broadcast use vstd::seq_lib::to_multiset_update;
    broadcast use vstd::multiset::group_multiset_axioms;

    let s1 = s.update(a, s[b]);
    let s2 = s1.update(b, s[a]);
    assert(s.contains(s[a]));
    assert(s1.contains(s1[b]));
    assert(s1.to_multiset() == s.to_multiset().insert(s[b]).remove(s[a]));
    assert(s2.to_multiset() == s1.to_multiset().insert(s[a]).remove(s1[b]));
    assert(s2.to_multiset() =~= s.to_multiset());
}

/// Appending a valid swap of the current state to a valid swap trace yields
/// a valid swap trace ending in the new step's snapshot.
pub proof fn lemma_swap_trace_push(
    init: Seq<i64>,
    steps: Seq<StepAction>,
    cur: Seq<i64>,
    step: StepAction,
)
    requires
        swap_trace_ok(init, steps, cur),
        swap_step_ok(cur, step),
    ensures
        swap_trace_ok(init, steps.push(step), step->snapshot@),
{
    let steps2 = steps.push(step);
    assert(steps2.drop_last() =~= steps);
    assert(swap_trace_state(init, steps2, steps2.len() - 1) == cur);
}

/// `(a + b).to_multiset()` is the sum of the two parts' multisets.
pub proof fn lemma_concat_multiset(a: Seq<i64>, b: Seq<i64>)
    ensures
        (a + b).to_multiset() == a.to_multiset().add(b.to_multiset()),
{
    lemma_multiset_commutative(a, b);
}

/// Exchange the elements of `v` at positions `a` and `b`.
pub fn swap_elements(v: &mut Vec<i64>, a: usize, b: usize)
    requires
        a < old(v)@.len(),
        b < old(v)@.len(),
    ensures
        final(v)@ == swap_seq(old(v)@, a as int, b as int),
        final(v)@.to_multiset() == old(v)@.to_multiset(),
        final(v)@.len() == old(v)@.len(),
{
    let x = v[a];
    let y = v[b];
    v[a] = y;
    v[b] = x;
    proof {
        assert(v@ =~= swap_seq(old(v)@, a as int, b as int));
        lemma_swap_seq_multiset(old(v)@, a as int, b as int);
    }
}

/// Copy of a value buffer, with its contents pinned down.
pub fn clone_values(v: &Vec<i64>) -> (r: Vec<i64>)
    ensures
        r@ == v@,
{
    let r = v.clone();
    proof {
        assert(r@ =~= v@);
    }
    r
}

} // verus!
