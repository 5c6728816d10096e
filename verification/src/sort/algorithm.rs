//! The sorting engine: four algorithms, each returning the sorted list
//! together with the chronological trace of the steps it performed.

use vstd::prelude::*;

use crate::sort::step::{
    clone_values, extends_trace, lemma_concat_multiset, lemma_extends_push, lemma_extends_trans,
    lemma_split_merge_glue, lemma_swap_trace_push, lemma_tri_mono, merge_append_steps_ok,
    merge_trace_count, seq_sorted, split_merge_steps_only, swap_elements, swap_from_increasing,
    swap_seq, swap_step_ok, swap_trace_ok, swaps_downward_adjacent, swaps_rightward, swaps_upward_adjacent,
    lemma_trace_entries_chain, lemma_trace_positions_push, trace_entries, trace_positions, tri,
    StepAction,
};

verus! {

/// The sorting algorithm a request selects.
#[derive(Debug, Clone, Copy, PartialEq, Eq, Structural)]
pub enum Algorithm {
    Bubble,
    Merge,
    Insertion,
    Selection,
}

impl Default for Algorithm {
    /// The algorithm used when a request does not name one.
    fn default() -> (r: Self)
        ensures
            r == Algorithm::Bubble,
    {
        Algorithm::Bubble
    }
}

/// Everything a run of `alg` on `input` guarantees of its `output` and
/// recorded `steps`.
///
/// The output is always an ascending permutation of the input, and an
/// input of at most one element comes back unchanged with an empty trace.
///
/// Beyond that, the trace is pinned down completely.  The three in-place
/// algorithms record a replayable chain of `Swap` steps, each of the
/// shape that algorithm performs, whose exchange positions are exactly
/// those of that algorithm's model ([`bubble_model`], [`insertion_model`],
/// [`selection_model`]) — so there are none at all on input that is
/// already sorted, and at most a quadratic (for selection sort, linear)
/// number.  Merge sort's output and its trace of `Split` and `Merge`
/// steps are exactly those of [`merge_sort_model`]: a length that depends
/// only on the input's length, beginning with the top-level split and
/// ending with the `Merge` steps that grow the final result element by
/// element.
pub open spec fn run_post(
    alg: Algorithm,
    input: Seq<i64>,
    output: Seq<i64>,
    steps: Seq<StepAction>,
) -> bool {
    &&& output.len() == input.len()
    &&& output.to_multiset() == input.to_multiset()
    &&& seq_sorted(output)
    &&& input.len() <= 1 ==> output == input && steps.len() == 0
    &&& (alg == Algorithm::Bubble || alg == Algorithm::Insertion || alg == Algorithm::Selection)
        ==> swap_trace_ok(input, steps, output)
    &&& (alg == Algorithm::Bubble || alg == Algorithm::Insertion) ==> steps.len() <= tri(
        input.len() as nat,
    )
    &&& alg == Algorithm::Selection ==> steps.len() <= input.len()
    &&& (alg == Algorithm::Bubble || alg == Algorithm::Insertion || alg == Algorithm::Selection)
        && seq_sorted(input) ==> steps.len() == 0 && output == input
    &&& alg == Algorithm::Bubble ==> swaps_upward_adjacent(steps) && output == bubble_model(
        input,
        input.len() as int,
    ).0 && trace_positions(steps) == bubble_model(input, input.len() as int).1
    &&& alg == Algorithm::Insertion ==> swaps_downward_adjacent(steps) && output
        == insertion_model(input, input.len() as int).0 && trace_positions(steps)
        == insertion_model(input, input.len() as int).1
    &&& alg == Algorithm::Selection ==> swaps_rightward(steps) && swap_from_increasing(steps)
        && output == selection_model(input, input.len() as int).0 && trace_positions(steps)
        == selection_model(input, input.len() as int).1
    &&& alg == Algorithm::Merge ==> output == merge_sort_model(input).0 && trace_entries(steps)
        == merge_sort_model(input).1
    &&& alg == Algorithm::Merge ==> steps.len() == merge_trace_count(input.len() as nat)
    &&& alg == Algorithm::Merge ==> split_merge_steps_only(steps, 0)
    &&& alg == Algorithm::Merge && input.len() > 1 ==> (steps[0] matches StepAction::Split {
        left,
        right,
    } && left@ == input.subrange(0, input.len() as int / 2) && right@ == input.subrange(
        input.len() as int / 2,
        input.len() as int,
    ))
    &&& alg == Algorithm::Merge && input.len() > 1 ==> merge_append_steps_ok(
        steps,
        steps.len() - input.len(),
        output,
    )
}

impl Algorithm {
    /// Run the selected algorithm over `list`, returning the sorted list
    /// together with the chronological trace of recorded steps; see
    /// [`run_post`] for everything the pair guarantees.
    pub fn run(&self, list: Vec<i64>) -> (r: (Vec<i64>, Vec<StepAction>))
        ensures
            run_post(*self, list@, r.0@, r.1@),
    {
        if list.len() <= 1 {
            proof {
                if list@.len() == 1 {
                    let e = Seq::<(usize, usize)>::empty();
                    assert(bubble_model(list@, 1) == (list@, e));
                    assert(insertion_model(list@, 0) == (list@, e));
                    assert(insertion_shift(list@, 0) == (list@, e));
                    assert(insertion_model(list@, 1).1 =~= e);
                    assert(insertion_model(list@, 1).0 == list@);
                    assert(selection_model(list@, 0) == (list@, e));
                    assert(selection_scan(list@, 0, 1) == 0);
                    assert(selection_model(list@, 1) == (list@, e));
                } else {
                    assert(bubble_model(list@, 0).1 == Seq::<(usize, usize)>::empty());
                }
                assert(trace_positions(Seq::<StepAction>::empty()) =~= Seq::<
                    (usize, usize),
                >::empty());
                assert(trace_entries(Seq::<StepAction>::empty()) =~= Seq::<
                    (int, Seq<i64>, Seq<i64>),
                >::empty());
            }
            return (list, Vec::new());
        }
        match self {
            Algorithm::Bubble => {
                let mut values = list;
                let steps = bubble_sort(&mut values);
                (values, steps)
            },
            Algorithm::Merge => {
                let mut steps: Vec<StepAction> = Vec::new();
                let values = merge_sort(&list, &mut steps);
                proof {
                    assert(trace_entries(steps@).skip(0) =~= trace_entries(steps@));
                }
                (values, steps)
            },
            Algorithm::Insertion => {
                let mut values = list;
                let steps = insertion_sort(&mut values);
                (values, steps)
            },
            Algorithm::Selection => {
                let mut values = list;
                let steps = selection_sort(&mut values);
                (values, steps)
            },
        }
    }
}

/// One insertion shift: the element at position `j` of `s` moves left one
/// place at a time while its predecessor is strictly greater, one
/// exchange of `(j, j - 1)` per move.  Yields the buffer afterwards and
/// the exchanges in order.
pub open spec fn insertion_shift(s: Seq<i64>, j: int) -> (Seq<i64>, Seq<(usize, usize)>)
    decreases j when j >= 0
{
    if j <= 0 || s[j - 1] <= s[j] {
        (s, Seq::empty())
    } else {
        let moved = swap_seq(s, j, j - 1);
        let (fin, rest) = insertion_shift(moved, j - 1);
        (fin, seq![(j as usize, (j - 1) as usize)] + rest)
    }
}

/// The buffer and the exchanges after insertion sort has processed
/// positions `0 .. i` of `s`, in order.
pub open spec fn insertion_model(s: Seq<i64>, i: int) -> (Seq<i64>, Seq<(usize, usize)>)
    decreases i when i >= 0
{
    if i <= 0 {
        (s, Seq::empty())
    } else {
        let (st, ps) = insertion_model(s, i - 1);
        let (fin, more) = insertion_shift(st, i - 1);
        (fin, ps + more)
    }
}

/// Insertion sort: for each position `i` from 0 upward, shift the element
/// leftward while its predecessor is strictly greater, recording one `Swap`
/// per shift.  The recorded exchanges are exactly those of
/// [`insertion_model`].
#[verifier::rlimit(50)]
fn insertion_sort(list: &mut Vec<i64>) -> (steps: Vec<StepAction>)
    ensures
        final(list)@.len() == old(list)@.len(),
        final(list)@.to_multiset() == old(list)@.to_multiset(),
        seq_sorted(final(list)@),
        swap_trace_ok(old(list)@, steps@, final(list)@),
        swaps_downward_adjacent(steps@),
        final(list)@ == insertion_model(old(list)@, old(list)@.len() as int).0,
        trace_positions(steps@) == insertion_model(old(list)@, old(list)@.len() as int).1,
        steps@.len() <= tri(old(list)@.len() as nat),
        seq_sorted(old(list)@) ==> steps@.len() == 0 && final(list)@ == old(list)@,
{
    let n = list.len();
    let mut steps: Vec<StepAction> = Vec::new();
    for i in 0..n
        invariant
            list@.len() == n,
            list@.to_multiset() == old(list)@.to_multiset(),
            seq_sorted(list@.subrange(0, i as int)),
            swap_trace_ok(old(list)@, steps@, list@),
            swaps_downward_adjacent(steps@),
            list@ == insertion_model(old(list)@, i as int).0,
            trace_positions(steps@) == insertion_model(old(list)@, i as int).1,
            steps@.len() <= tri(i as nat),
            seq_sorted(old(list)@) ==> steps@.len() == 0 && list@ == old(list)@,
    {
        let ghost steps_start = steps@.len();
        let mut j = i;
        proof {
            assert forall|a: int, b: int|
                0 <= a < b <= i as int && b != j as int implies list@[a] <= list@[b] by {
                assert(list@[a] == list@.subrange(0, i as int)[a]);
                assert(list@[b] == list@.subrange(0, i as int)[b]);
            }
        }
        while j > 0 && list[j - 1] > list[j]
            invariant
                0 <= j <= i < n,
                list@.len() == n,
                list@.to_multiset() == old(list)@.to_multiset(),
                forall|a: int, b: int|
                    0 <= a < b <= i as int && b != j as int ==> #[trigger] list@[a]
                        <= #[trigger] list@[b],
                swap_trace_ok(old(list)@, steps@, list@),
                swaps_downward_adjacent(steps@),
                insertion_model(old(list)@, i as int + 1).0 == insertion_shift(
                    list@,
                    j as int,
                ).0,
                insertion_model(old(list)@, i as int + 1).1 == trace_positions(steps@)
                    + insertion_shift(list@, j as int).1,
                steps@.len() == steps_start + (i - j),
                steps_start <= tri(i as nat),
                seq_sorted(old(list)@) ==> steps@.len() == 0 && list@ == old(list)@,
            decreases j,
        {
            let ghost prev = list@;
            swap_elements(list, j, j - 1);
            let snap = clone_values(list);
            let step = StepAction::Swap { from: j, to: j - 1, snapshot: snap };
            proof {
                assert(swap_step_ok(prev, step));
                lemma_swap_trace_push(old(list)@, steps@, prev, step);
                lemma_trace_positions_push(steps@, step);
                assert(insertion_shift(prev, j as int).1 == seq![(j, (j - 1) as usize)]
                    + insertion_shift(list@, j as int - 1).1);
                assert(trace_positions(steps@).push((j, (j - 1) as usize)) + insertion_shift(
                    list@,
                    j as int - 1,
                ).1 =~= trace_positions(steps@) + insertion_shift(prev, j as int).1);
            }
            steps.push(step);
            j = j - 1;
        }
        proof {
            let pre = list@.subrange(0, i as int + 1);
            assert forall|a: int, b: int| 0 <= a <= b < pre.len() implies pre[a] <= pre[b] by {
                assert(pre[a] == list@[a]);
                assert(pre[b] == list@[b]);
                if a < b && b == j as int && j > 0 {
                    if a < j as int - 1 {
                        assert(list@[a] <= list@[j as int - 1]);
                    }
                    assert(list@[j as int - 1] <= list@[j as int]);
                }
            }
            assert(seq_sorted(pre));
            assert(steps@.len() <= tri((i + 1) as nat));
            assert(trace_positions(steps@) + insertion_shift(list@, j as int).1 =~= trace_positions(
                steps@,
            ));
        }
    }
    proof {
        assert(list@.subrange(0, n as int) =~= list@);
    }
    steps
}

/// One bubble pass over positions `i - 1 .. length` of `s`: walking left
/// to right, each adjacent out-of-order pair is exchanged as encountered,
/// and `fi` tracks the index of the last exchange.  Yields the buffer
/// after the pass, the exchanges in order, and the final exchange index.
pub open spec fn bubble_pass(s: Seq<i64>, i: int, length: int, fi: int) -> (
    Seq<i64>,
    Seq<(usize, usize)>,
    int,
)
    decreases length - i when i >= 1
{
    if i >= length {
        (s, Seq::empty(), fi)
    } else if s[i - 1] > s[i] {
        let moved = swap_seq(s, i - 1, i);
        let (fin, rest, f) = bubble_pass(moved, i + 1, length, i);
        (fin, seq![((i - 1) as usize, i as usize)] + rest, f)
    } else {
        bubble_pass(s, i + 1, length, fi)
    }
}

/// The final exchange index of a pass never reaches the pass bound.
proof fn lemma_bubble_pass_fi(s: Seq<i64>, i: int, length: int, fi: int)
    requires
        1 <= i <= length,
        0 <= fi < length,
    ensures
        0 <= bubble_pass(s, i, length, fi).2 < length,
    decreases length - i,
{
    if i < length {
        if s[i - 1] > s[i] {
            lemma_bubble_pass_fi(swap_seq(s, i - 1, i), i + 1, length, i);
        } else {
            lemma_bubble_pass_fi(s, i + 1, length, fi);
        }
    }
}

/// The buffer and the exchanges of a bubble sort of `s` whose pass bound
/// starts at `length`, in order: after each pass the bound shrinks to the
/// index of the pass's last exchange, and the sort stops when the bound
/// drops to one or below.
pub open spec fn bubble_model(s: Seq<i64>, length: int) -> (Seq<i64>, Seq<(usize, usize)>)
    decreases length when length >= 0 via bubble_model_decreases
{
    if length <= 1 {
        (s, Seq::empty())
    } else {
        let (st, ps, fi) = bubble_pass(s, 1, length, 0);
        let (fin, more) = bubble_model(st, fi);
        (fin, ps + more)
    }
}

#[via_fn]
proof fn bubble_model_decreases(s: Seq<i64>, length: int) {
    if length > 1 {
        lemma_bubble_pass_fi(s, 1, length, 0);
    }
}

/// Bubble sort with the last-swap optimization: repeated left-to-right
/// passes exchange adjacent out-of-order pairs, recording one `Swap` per
/// exchange; after each pass the comparison range shrinks to the index of
/// the last exchange (not merely by one), and the sort stops when that
/// bound drops to one or below.  The recorded exchanges are exactly those
/// of [`bubble_model`].
#[verifier::rlimit(80)]
fn bubble_sort(list: &mut Vec<i64>) -> (steps: Vec<StepAction>)
    ensures
        final(list)@.len() == old(list)@.len(),
        final(list)@.to_multiset() == old(list)@.to_multiset(),
        seq_sorted(final(list)@),
        swap_trace_ok(old(list)@, steps@, final(list)@),
        swaps_upward_adjacent(steps@),
        final(list)@ == bubble_model(old(list)@, old(list)@.len() as int).0,
        trace_positions(steps@) == bubble_model(old(list)@, old(list)@.len() as int).1,
        steps@.len() <= tri(old(list)@.len() as nat),
        seq_sorted(old(list)@) ==> steps@.len() == 0 && final(list)@ == old(list)@,
{
    let n = list.len();
    let mut steps: Vec<StepAction> = Vec::new();
    let mut length = n;
    proof {
        assert(trace_positions(steps@) =~= Seq::<(usize, usize)>::empty());
        assert(trace_positions(steps@) + bubble_model(list@, n as int).1 =~= bubble_model(
            list@,
            n as int,
        ).1);
    }
    while length > 1
        invariant
            length <= n,
            list@.len() == n,
            list@.to_multiset() == old(list)@.to_multiset(),
            forall|a: int, b: int|
                length as int <= a <= b < n as int ==> #[trigger] list@[a] <= #[trigger] list@[b],
            forall|a: int, b: int|
                0 <= a < length as int <= b < n as int ==> #[trigger] list@[a]
                    <= #[trigger] list@[b],
            swap_trace_ok(old(list)@, steps@, list@),
            swaps_upward_adjacent(steps@),
            bubble_model(old(list)@, n as int).0 == bubble_model(list@, length as int).0,
            bubble_model(old(list)@, n as int).1 == trace_positions(steps@) + bubble_model(
                list@,
                length as int,
            ).1,
            steps@.len() + tri(length as nat) <= tri(n as nat),
            seq_sorted(old(list)@) ==> steps@.len() == 0 && list@ == old(list)@,
        decreases length,
    {
        let ghost steps_start = steps@.len();
        let ghost p0 = list@;
        let ghost tp0 = trace_positions(steps@);
        let mut final_index: usize = 0;
        for i in 1..length
            invariant
                2 <= length <= n,
                list@.len() == n,
                1 <= i <= length,
                final_index < i,
                list@.to_multiset() == old(list)@.to_multiset(),
                forall|a: int, b: int|
                    length as int <= a <= b < n as int ==> #[trigger] list@[a]
                        <= #[trigger] list@[b],
                forall|a: int, b: int|
                    0 <= a < length as int <= b < n as int ==> #[trigger] list@[a]
                        <= #[trigger] list@[b],
                forall|a: int| 0 <= a < i as int ==> #[trigger] list@[a] <= list@[i as int - 1],
                forall|a: int, b: int|
                    final_index as int <= a <= b < i as int ==> #[trigger] list@[a]
                        <= #[trigger] list@[b],
                final_index > 0 ==> forall|a: int|
                    0 <= a < final_index as int ==> #[trigger] list@[a]
                        <= list@[final_index as int],
                swap_trace_ok(old(list)@, steps@, list@),
                swaps_upward_adjacent(steps@),
                bubble_pass(p0, 1, length as int, 0).0 == bubble_pass(
                    list@,
                    i as int,
                    length as int,
                    final_index as int,
                ).0,
                bubble_pass(p0, 1, length as int, 0).2 == bubble_pass(
                    list@,
                    i as int,
                    length as int,
                    final_index as int,
                ).2,
                tp0 + bubble_pass(p0, 1, length as int, 0).1 == trace_positions(steps@)
                    + bubble_pass(list@, i as int, length as int, final_index as int).1,
                steps@.len() <= steps_start + (i - 1),
                steps_start + tri(length as nat) <= tri(n as nat),
                seq_sorted(old(list)@) ==> steps@.len() == 0 && list@ == old(list)@
                    && final_index == 0,
        {
            if list[i - 1] > list[i] {
                let ghost prev = list@;
                swap_elements(list, i - 1, i);
                let snap = clone_values(list);
                let step = StepAction::Swap { from: i - 1, to: i, snapshot: snap };
                proof {
                    assert(swap_step_ok(prev, step));
                    lemma_swap_trace_push(old(list)@, steps@, prev, step);
                    lemma_trace_positions_push(steps@, step);
                    assert(bubble_pass(prev, i as int, length as int, final_index as int).1
                        == seq![((i - 1) as usize, i as usize)] + bubble_pass(
                        list@,
                        i as int + 1,
                        length as int,
                        i as int,
                    ).1);
                    assert(trace_positions(steps@).push(((i - 1) as usize, i as usize))
                        + bubble_pass(list@, i as int + 1, length as int, i as int).1
                        =~= trace_positions(steps@) + bubble_pass(
                        prev,
                        i as int,
                        length as int,
                        final_index as int,
                    ).1);
                }
                steps.push(step);
                final_index = i;
            }
        }
        proof {
            let fi = final_index as int;
            let l0 = length as int;
            assert forall|a: int, b: int| 0 <= a < fi <= b < n as int implies list@[a]
                <= list@[b] by {
                if b < l0 {
                    assert(list@[a] <= list@[fi]);
                    assert(list@[fi] <= list@[b]);
                }
            }
            lemma_tri_mono(final_index as nat, (length - 1) as nat);
            assert(bubble_pass(list@, l0, l0, fi).1 =~= Seq::<(usize, usize)>::empty());
            assert(trace_positions(steps@) + bubble_pass(list@, l0, l0, fi).1 =~= trace_positions(
                steps@,
            ));
            assert(bubble_pass(p0, 1, l0, 0) == (list@, bubble_pass(p0, 1, l0, 0).1, fi));
            assert(tp0 + bubble_pass(p0, 1, l0, 0).1 == trace_positions(steps@));
            assert(bubble_model(p0, l0).0 == bubble_model(list@, fi).0);
            assert(bubble_model(p0, l0).1 == bubble_pass(p0, 1, l0, 0).1 + bubble_model(
                list@,
                fi,
            ).1);
            assert(tp0 + (bubble_pass(p0, 1, l0, 0).1 + bubble_model(list@, fi).1)
                =~= (tp0 + bubble_pass(p0, 1, l0, 0).1) + bubble_model(list@, fi).1);
            assert(bubble_model(old(list)@, n as int).1 == trace_positions(steps@) + bubble_model(
                list@,
                fi,
            ).1);
        }
        length = final_index;
    }
    proof {
        assert forall|a: int, b: int| 0 <= a <= b < n as int implies list@[a] <= list@[b] by {
            if a < length as int && b >= length as int {
                assert(list@[a] <= list@[b]);
            }
        }
        assert(bubble_model(list@, length as int).1 == Seq::<(usize, usize)>::empty());
        assert(trace_positions(steps@) + bubble_model(list@, length as int).1 =~= trace_positions(
            steps@,
        ));
    }
    steps
}

/// The position a selection scan settles on: starting from the candidate
/// `smallest`, walk the positions `right ..` and move to any strictly
/// smaller element, so the earliest position of the minimum wins.
pub open spec fn selection_scan(s: Seq<i64>, smallest: int, right: int) -> int
    decreases s.len() - right when right <= s.len()
{
    if right >= s.len() {
        smallest
    } else if s[right] < s[smallest] {
        selection_scan(s, right, right + 1)
    } else {
        selection_scan(s, smallest, right + 1)
    }
}

/// The buffer and the exchanges after selection sort has fixed positions
/// `0 .. left` of `s`, in order: one exchange per position whose suffix
/// minimum sat strictly further right, and none otherwise.
pub open spec fn selection_model(s: Seq<i64>, left: int) -> (Seq<i64>, Seq<(usize, usize)>)
    decreases left when left >= 0
{
    if left <= 0 {
        (s, Seq::empty())
    } else {
        let (st, ps) = selection_model(s, left - 1);
        let m = selection_scan(st, left - 1, left);
        if m == left - 1 {
            (st, ps)
        } else {
            (swap_seq(st, left - 1, m), ps.push(((left - 1) as usize, m as usize)))
        }
    }
}

/// Selection sort: for each position `left` from 0 upward, scan the suffix
/// for its minimum; if the minimum is not already at `left`, exchange the
/// two and record exactly one `Swap` (no step when no exchange is needed).
/// The recorded exchanges are exactly those of [`selection_model`].
#[verifier::rlimit(50)]
fn selection_sort(list: &mut Vec<i64>) -> (steps: Vec<StepAction>)
    ensures
        final(list)@.len() == old(list)@.len(),
        final(list)@.to_multiset() == old(list)@.to_multiset(),
        seq_sorted(final(list)@),
        swap_trace_ok(old(list)@, steps@, final(list)@),
        swaps_rightward(steps@),
        swap_from_increasing(steps@),
        final(list)@ == selection_model(old(list)@, old(list)@.len() as int).0,
        trace_positions(steps@) == selection_model(old(list)@, old(list)@.len() as int).1,
        steps@.len() <= old(list)@.len(),
        seq_sorted(old(list)@) ==> steps@.len() == 0 && final(list)@ == old(list)@,
{
    let n = list.len();
    let mut steps: Vec<StepAction> = Vec::new();
    for left in 0..n
        invariant
            list@.len() == n,
            list@.to_multiset() == old(list)@.to_multiset(),
            forall|a: int, b: int|
                0 <= a <= b < left as int ==> #[trigger] list@[a] <= #[trigger] list@[b],
            forall|a: int, b: int|
                0 <= a < left as int <= b < n ==> #[trigger] list@[a] <= #[trigger] list@[b],
            swap_trace_ok(old(list)@, steps@, list@),
            swaps_rightward(steps@),
            swap_from_increasing(steps@),
            list@ == selection_model(old(list)@, left as int).0,
            trace_positions(steps@) == selection_model(old(list)@, left as int).1,
            forall|k: int| 0 <= k < steps@.len() ==> (#[trigger] steps@[k])->Swap_from < left as int,
            steps@.len() <= left,
            seq_sorted(old(list)@) ==> steps@.len() == 0 && list@ == old(list)@,
    {
        let mut smallest = left;
        for right in (left + 1)..n
            invariant
                left < n,
                left <= smallest < n,
                list@.len() == n,
                forall|t: int| left as int <= t < right as int ==> list@[smallest as int] <= #[trigger] list@[t],
                smallest == left || list@[smallest as int] < list@[left as int],
                selection_scan(list@, left as int, left as int + 1) == selection_scan(
                    list@,
                    smallest as int,
                    right as int,
                ),
        {
            if list[right] < list[smallest] {
                smallest = right;
            }
        }
        proof {
            assert(selection_scan(list@, left as int, left as int + 1) == smallest as int);
            assert(selection_model(old(list)@, left as int + 1).0 == (if smallest == left {
                list@
            } else {
                swap_seq(list@, left as int, smallest as int)
            }));
        }
        if left != smallest {
            let ghost prev = list@;
            swap_elements(list, left, smallest);
            let snap = clone_values(list);
            let step = StepAction::Swap { from: left, to: smallest, snapshot: snap };
            proof {
                assert(swap_step_ok(prev, step));
                lemma_swap_trace_push(old(list)@, steps@, prev, step);
                lemma_trace_positions_push(steps@, step);
            }
            steps.push(step);
        }
    }
    steps
}

/// Copy of the half-open range `[from, to)` of `v`.
fn subvec(v: &Vec<i64>, from: usize, to: usize) -> (r: Vec<i64>)
    requires
        from <= to <= v@.len(),
    ensures
        r@ == v@.subrange(from as int, to as int),
{
    let mut r: Vec<i64> = Vec::new();
    for k in from..to
        invariant
            from <= k <= to <= v@.len(),
            r@ == v@.subrange(from as int, k as int),
    {
        r.push(v[k]);
        proof {
            assert(r@ =~= v@.subrange(from as int, k as int + 1));
        }
    }
    r
}

/// The merge of two sequences: repeatedly take the smaller head, the left
/// one on ties, then whatever remains of either side.
pub open spec fn spec_merge(l: Seq<i64>, r: Seq<i64>) -> Seq<i64>
    decreases l.len() + r.len(),
{
    if l.len() == 0 {
        r
    } else if r.len() == 0 {
        l
    } else if l[0] <= r[0] {
        seq![l[0]] + spec_merge(l.drop_first(), r)
    } else {
        seq![r[0]] + spec_merge(l, r.drop_first())
    }
}

/// Combine phase of merge sort: repeatedly move the smaller head of the
/// two sorted inputs (the left one on ties) to the merged buffer,
/// recording one `Merge` step carrying the partially merged buffer after
/// every single append, including the final drain of either side.
#[verifier::rlimit(80)]
fn merge(l: &Vec<i64>, r: &Vec<i64>, steps: &mut Vec<StepAction>) -> (merged: Vec<i64>)
    requires
        seq_sorted(l@),
        seq_sorted(r@),
        l@.len() + r@.len() <= usize::MAX,
    ensures
        merged@.len() == l@.len() + r@.len(),
        merged@.to_multiset() == (l@ + r@).to_multiset(),
        seq_sorted(merged@),
        merged@ == spec_merge(l@, r@),
        final(steps)@.len() == old(steps)@.len() + merged@.len(),
        extends_trace(final(steps)@, old(steps)@),
        merge_append_steps_ok(final(steps)@, old(steps)@.len() as int, merged@),
{
    let mut merged: Vec<i64> = Vec::new();
    let mut li: usize = 0;
    let mut ri: usize = 0;
    let ghost base = old(steps)@.len() as int;
    proof {
        assert(merged@.to_multiset() =~= (l@.subrange(0, 0) + r@.subrange(0, 0)).to_multiset())
            by {
            broadcast use vstd::seq_lib::group_to_multiset_ensures;

            assert(l@.subrange(0, 0) + r@.subrange(0, 0) =~= Seq::<i64>::empty());
        }
        assert(old(steps)@.subrange(0, old(steps)@.len() as int) =~= old(steps)@);
        assert(l@.skip(0) =~= l@);
        assert(r@.skip(0) =~= r@);
        assert(merged@ + spec_merge(l@, r@) =~= spec_merge(l@, r@));
    }
    while li < l.len() && ri < r.len()
        invariant
            li <= l@.len(),
            ri <= r@.len(),
            l@.len() + r@.len() <= usize::MAX,
            seq_sorted(l@),
            seq_sorted(r@),
            merged@.len() == li + ri,
            merged@.to_multiset() == (l@.subrange(0, li as int) + r@.subrange(
                0,
                ri as int,
            )).to_multiset(),
            seq_sorted(merged@),
            merged@ + spec_merge(l@.skip(li as int), r@.skip(ri as int)) == spec_merge(l@, r@),
            forall|t: int|
                0 <= t < merged@.len() && li < l@.len() ==> #[trigger] merged@[t]
                    <= l@[li as int],
            forall|t: int|
                0 <= t < merged@.len() && ri < r@.len() ==> #[trigger] merged@[t]
                    <= r@[ri as int],
            base == old(steps)@.len(),
            steps@.len() == old(steps)@.len() + merged@.len(),
            extends_trace(steps@, old(steps)@),
            merge_append_steps_ok(steps@, base, merged@),
        decreases l@.len() - li + r@.len() - ri,
    {
        let ghost m0 = merged@;
        if l[li] <= r[ri] {
            merged.push(l[li]);
            proof {
                merge_multiset_shift_left(l@, r@, li as int, ri as int, m0);
                assert(l@.skip(li as int).drop_first() =~= l@.skip(li as int + 1));
                assert(m0 + (seq![l@[li as int]] + spec_merge(
                    l@.skip(li as int + 1),
                    r@.skip(ri as int),
                )) =~= merged@ + spec_merge(l@.skip(li as int + 1), r@.skip(ri as int)));
            }
            li = li + 1;
        } else {
            merged.push(r[ri]);
            proof {
                merge_multiset_shift_right(l@, r@, li as int, ri as int, m0);
                assert(r@.skip(ri as int).drop_first() =~= r@.skip(ri as int + 1));
                assert(m0 + (seq![r@[ri as int]] + spec_merge(
                    l@.skip(li as int),
                    r@.skip(ri as int + 1),
                )) =~= merged@ + spec_merge(l@.skip(li as int), r@.skip(ri as int + 1)));
            }
            ri = ri + 1;
        }
        proof {
            assert(m0 =~= merged@.subrange(0, m0.len() as int));
        }
        let ghost s0 = steps@;
        record_merge_step(steps, &merged, Ghost(base), Ghost(m0));
        proof {
            lemma_extends_trans(old(steps)@, s0, steps@);
        }
    }
    while li < l.len()
        invariant
            li <= l@.len(),
            ri <= r@.len(),
            (li as int) < l@.len() ==> ri == r@.len(),
            l@.len() + r@.len() <= usize::MAX,
            seq_sorted(l@),
            seq_sorted(r@),
            merged@.len() == li + ri,
            merged@.to_multiset() == (l@.subrange(0, li as int) + r@.subrange(
                0,
                ri as int,
            )).to_multiset(),
            seq_sorted(merged@),
            merged@ + spec_merge(l@.skip(li as int), r@.skip(ri as int)) == spec_merge(l@, r@),
            forall|t: int|
                0 <= t < merged@.len() && li < l@.len() ==> #[trigger] merged@[t]
                    <= l@[li as int],
            forall|t: int|
                0 <= t < merged@.len() && ri < r@.len() ==> #[trigger] merged@[t]
                    <= r@[ri as int],
            base == old(steps)@.len(),
            steps@.len() == old(steps)@.len() + merged@.len(),
            extends_trace(steps@, old(steps)@),
            merge_append_steps_ok(steps@, base, merged@),
        decreases l@.len() - li,
    {
        let ghost m0 = merged@;
        merged.push(l[li]);
        proof {
            merge_multiset_shift_left(l@, r@, li as int, ri as int, m0);
            assert(l@.skip(li as int).drop_first() =~= l@.skip(li as int + 1));
            assert(spec_merge(l@.skip(li as int), r@.skip(ri as int)) == seq![l@[li as int]]
                + spec_merge(l@.skip(li as int + 1), r@.skip(ri as int))) by {
                if r@.skip(ri as int).len() == 0 {
                    assert(spec_merge(l@.skip(li as int + 1), r@.skip(ri as int)) =~= l@.skip(
                        li as int,
                    ).drop_first());
                    assert(seq![l@[li as int]] + l@.skip(li as int).drop_first() =~= l@.skip(
                        li as int,
                    ));
                }
            }
            assert(m0 + (seq![l@[li as int]] + spec_merge(
                l@.skip(li as int + 1),
                r@.skip(ri as int),
            )) =~= merged@ + spec_merge(l@.skip(li as int + 1), r@.skip(ri as int)));
        }
        li = li + 1;
        proof {
            assert(m0 =~= merged@.subrange(0, m0.len() as int));
        }
        let ghost s0 = steps@;
        record_merge_step(steps, &merged, Ghost(base), Ghost(m0));
        proof {
            lemma_extends_trans(old(steps)@, s0, steps@);
        }
    }
    while ri < r.len()
        invariant
            li == l@.len(),
            ri <= r@.len(),
            l@.len() + r@.len() <= usize::MAX,
            seq_sorted(l@),
            seq_sorted(r@),
            merged@.len() == li + ri,
            merged@.to_multiset() == (l@.subrange(0, li as int) + r@.subrange(
                0,
                ri as int,
            )).to_multiset(),
            seq_sorted(merged@),
            merged@ + spec_merge(l@.skip(li as int), r@.skip(ri as int)) == spec_merge(l@, r@),
            forall|t: int|
                0 <= t < merged@.len() && ri < r@.len() ==> #[trigger] merged@[t]
                    <= r@[ri as int],
            base == old(steps)@.len(),
            steps@.len() == old(steps)@.len() + merged@.len(),
            extends_trace(steps@, old(steps)@),
            merge_append_steps_ok(steps@, base, merged@),
        decreases r@.len() - ri,
    {
        let ghost m0 = merged@;
        merged.push(r[ri]);
        proof {
            merge_multiset_shift_right(l@, r@, li as int, ri as int, m0);
            assert(r@.skip(ri as int).drop_first() =~= r@.skip(ri as int + 1));
            assert(spec_merge(l@.skip(li as int), r@.skip(ri as int)) == seq![r@[ri as int]]
                + spec_merge(l@.skip(li as int), r@.skip(ri as int + 1))) by {
                if l@.skip(li as int).len() == 0 {
                    assert(spec_merge(l@.skip(li as int), r@.skip(ri as int)) == r@.skip(
                        ri as int,
                    ));
                    assert(spec_merge(l@.skip(li as int), r@.skip(ri as int + 1)) == r@.skip(
                        ri as int + 1,
                    ));
                    assert(seq![r@[ri as int]] + r@.skip(ri as int).drop_first() =~= r@.skip(
                        ri as int,
                    ));
                }
            }
            assert(m0 + (seq![r@[ri as int]] + spec_merge(
                l@.skip(li as int),
                r@.skip(ri as int + 1),
            )) =~= merged@ + spec_merge(l@.skip(li as int), r@.skip(ri as int + 1)));
        }
        ri = ri + 1;
        proof {
            assert(m0 =~= merged@.subrange(0, m0.len() as int));
        }
        let ghost s0 = steps@;
        record_merge_step(steps, &merged, Ghost(base), Ghost(m0));
        proof {
            lemma_extends_trans(old(steps)@, s0, steps@);
        }
    }
    proof {
        assert(l@.subrange(0, li as int) =~= l@);
        assert(r@.subrange(0, ri as int) =~= r@);
        assert(l@.skip(li as int).len() == 0);
        assert(r@.skip(ri as int).len() == 0);
        assert(merged@ + spec_merge(l@.skip(li as int), r@.skip(ri as int)) =~= merged@);
    }
    merged
}

/// After one element is appended to the merged buffer, its multiset is
/// still the sum of the two consumed input prefixes.
proof fn merge_multiset_shift_left(l: Seq<i64>, r: Seq<i64>, li: int, ri: int, m0: Seq<i64>)
    requires
        0 <= li < l.len(),
        0 <= ri <= r.len(),
        m0.to_multiset() == (l.subrange(0, li) + r.subrange(0, ri)).to_multiset(),
    ensures
        m0.push(l[li]).to_multiset() == (l.subrange(0, li + 1) + r.subrange(0, ri)).to_multiset(),
{
    broadcast use vstd::seq_lib::group_to_multiset_ensures;
    broadcast use vstd::multiset::group_multiset_axioms;

    lemma_concat_multiset(l.subrange(0, li), r.subrange(0, ri));
    lemma_concat_multiset(l.subrange(0, li + 1), r.subrange(0, ri));
    assert(l.subrange(0, li + 1) =~= l.subrange(0, li).push(l[li]));
    assert(m0.push(l[li]).to_multiset() =~= (l.subrange(0, li + 1) + r.subrange(
        0,
        ri,
    )).to_multiset());
}

/// Mirror image of `merge_multiset_shift_left` for the right input.
proof fn merge_multiset_shift_right(l: Seq<i64>, r: Seq<i64>, li: int, ri: int, m0: Seq<i64>)
    requires
        0 <= li <= l.len(),
        0 <= ri < r.len(),
        m0.to_multiset() == (l.subrange(0, li) + r.subrange(0, ri)).to_multiset(),
    ensures
        m0.push(r[ri]).to_multiset() == (l.subrange(0, li) + r.subrange(0, ri + 1)).to_multiset(),
{
    broadcast use vstd::seq_lib::group_to_multiset_ensures;
    broadcast use vstd::multiset::group_multiset_axioms;

    lemma_concat_multiset(l.subrange(0, li), r.subrange(0, ri));
    lemma_concat_multiset(l.subrange(0, li), r.subrange(0, ri + 1));
    assert(r.subrange(0, ri + 1) =~= r.subrange(0, ri).push(r[ri]));
    assert(m0.push(r[ri]).to_multiset() =~= (l.subrange(0, li) + r.subrange(
        0,
        ri + 1,
    )).to_multiset());
}

/// The sorted buffer and the recorded steps of a merge sort of `s`, each
/// step flattened by [`step_entry`](crate::sort::step::step_entry): the
/// top-level split, the left half's steps, the right half's steps, then
/// one merge append per element of the combined result.
pub open spec fn merge_sort_model(s: Seq<i64>) -> (Seq<i64>, Seq<(int, Seq<i64>, Seq<i64>)>)
    decreases s.len(),
{
    if s.len() <= 1 {
        (s, Seq::empty())
    } else {
        let mid = s.len() as int / 2;
        let left = s.subrange(0, mid);
        let right = s.subrange(mid, s.len() as int);
        let (ls, el) = merge_sort_model(left);
        let (rs, er) = merge_sort_model(right);
        let m = spec_merge(ls, rs);
        (
            m,
            seq![(0int, left, right)] + el + er + Seq::new(
                m.len(),
                |k: int| (1int, m.subrange(0, k + 1), Seq::<i64>::empty()),
            ),
        )
    }
}

/// Merge sort: split the buffer at its midpoint, recording one `Split`
/// step whenever the sub-sequence holds more than one element (nested
/// splits included, with no special case for halves of one element), sort
/// both halves recursively, then combine them with [`merge`].  The
/// recorded steps are exactly those of [`merge_sort_model`].
#[verifier::rlimit(80)]
fn merge_sort(m: &Vec<i64>, steps: &mut Vec<StepAction>) -> (r: Vec<i64>)
    ensures
        r@.len() == m@.len(),
        r@.to_multiset() == m@.to_multiset(),
        seq_sorted(r@),
        r@ == merge_sort_model(m@).0,
        trace_entries(final(steps)@).skip(old(steps)@.len() as int) == merge_sort_model(m@).1,
        final(steps)@.len() == old(steps)@.len() + merge_trace_count(m@.len() as nat),
        extends_trace(final(steps)@, old(steps)@),
        split_merge_steps_only(final(steps)@, old(steps)@.len() as int),
        m@.len() <= 1 ==> final(steps)@ == old(steps)@ && r@ == m@,
        m@.len() > 1 ==> (final(steps)@[old(steps)@.len() as int] matches StepAction::Split {
            left,
            right,
        } && left@ == m@.subrange(0, m@.len() as int / 2) && right@ == m@.subrange(
            m@.len() as int / 2,
            m@.len() as int,
        )),
        m@.len() > 1 ==> merge_append_steps_ok(
            final(steps)@,
            final(steps)@.len() - m@.len(),
            r@,
        ),
    decreases m@.len(),
{
    if m.len() <= 1 {
        let r = clone_values(m);
        proof {
            assert(steps@.subrange(0, steps@.len() as int) =~= steps@);
            assert(trace_entries(steps@).skip(steps@.len() as int) =~= Seq::<
                (int, Seq<i64>, Seq<i64>),
            >::empty());
        }
        return r;
    }
    let mid = m.len() / 2;
    let left = subvec(m, 0, mid);
    let right = subvec(m, mid, m.len());
    let step = StepAction::Split {
        left: clone_values(&left),
        right: clone_values(&right),
    };
    let ghost s0 = steps@;
    proof {
        lemma_extends_push(steps@, step);
    }
    steps.push(step);
    let ghost s1 = steps@;
    let ls = merge_sort(&left, steps);
    let ghost s2 = steps@;
    let rs = merge_sort(&right, steps);
    let ghost s3 = steps@;
    let r = merge(&ls, &rs, steps);
    proof {
        lemma_extends_trans(s0, s1, s2);
        lemma_extends_trans(s0, s2, s3);
        lemma_extends_trans(s0, s3, steps@);
        lemma_extends_trans(s1, s2, s3);
        lemma_extends_trans(s1, s3, steps@);
        lemma_concat_multiset(ls@, rs@);
        lemma_concat_multiset(left@, right@);
        assert(left@ + right@ =~= m@);
        assert(r@.to_multiset() == m@.to_multiset());
        assert(split_merge_steps_only(s1, s0.len() as int)) by {
            assert(s1[s0.len() as int] is Split);
        }
        lemma_split_merge_glue(s1, s2, s0.len() as int);
        lemma_split_merge_glue(s2, s3, s0.len() as int);
        assert(split_merge_steps_only(steps@, s3.len() as int)) by {
            assert forall|k: int| s3.len() <= k < steps@.len() implies ((#[trigger] steps@[k])
                is Split || steps@[k] is Merge) by {
                assert(steps@[k] matches StepAction::Merge { merged });
            }
        }
        lemma_split_merge_glue(s3, steps@, s0.len() as int);
        assert(split_merge_steps_only(steps@, s0.len() as int));
        assert(steps@[s0.len() as int] == step) by {
            assert(steps@.subrange(0, s1.len() as int)[s0.len() as int] == steps@[s0.len() as int]);
        }
        lemma_extends_trans(s2, s3, steps@);
        lemma_trace_entries_chain(s1, steps@, s0.len() as int);
        lemma_trace_entries_chain(s2, steps@, s1.len() as int);
        lemma_trace_entries_chain(s3, steps@, s2.len() as int);
        assert(trace_entries(s1).skip(s0.len() as int) =~= seq![(0int, left@, right@)]) by {
            assert(s1[s0.len() as int] == step);
        }
        let appends = Seq::new(
            r@.len() as nat,
            |k: int| (1int, r@.subrange(0, k + 1), Seq::<i64>::empty()),
        );
        assert(trace_entries(steps@).skip(s3.len() as int) =~= appends) by {
            assert forall|k: int|
                0 <= k < trace_entries(steps@).skip(s3.len() as int).len() implies trace_entries(
                steps@,
            ).skip(s3.len() as int)[k] == appends[k] by {
                assert(steps@[s3.len() + k] matches StepAction::Merge { merged } && merged@
                    == r@.subrange(0, k + 1));
            }
        }
        assert(trace_entries(steps@).skip(s0.len() as int) =~= merge_sort_model(m@).1);
    }
    r
}

/// Record one `Merge` step carrying the current state of the merged
/// buffer, which has just grown by one element from `m0`.
fn record_merge_step(
    steps: &mut Vec<StepAction>,
    merged: &Vec<i64>,
    Ghost(base): Ghost<int>,
    Ghost(m0): Ghost<Seq<i64>>,
)
    requires
        merged@.len() == m0.len() + 1,
        m0 == merged@.subrange(0, m0.len() as int),
        0 <= base <= old(steps)@.len(),
        old(steps)@.len() == base + m0.len(),
        merge_append_steps_ok(old(steps)@, base, m0),
    ensures
        final(steps)@.len() == old(steps)@.len() + 1,
        extends_trace(final(steps)@, old(steps)@),
        merge_append_steps_ok(final(steps)@, base, merged@),
{
    let snap = clone_values(merged);
    let step = StepAction::Merge { merged: snap };
    proof {
        lemma_extends_push(steps@, step);
        let s2 = steps@.push(step);
        assert forall|k: int| base <= k < s2.len() implies ((#[trigger] s2[k])
            matches StepAction::Merge { merged: m } && m@ == merged@.subrange(0, k - base + 1)) by {
            if k < steps@.len() {
                assert(s2[k] == steps@[k]);
                assert(steps@[k] matches StepAction::Merge { merged: m } && m@ == m0.subrange(
                    0,
                    k - base + 1,
                ));
                assert(m0.subrange(0, k - base + 1) =~= merged@.subrange(0, k - base + 1));
            } else {
                assert(merged@.subrange(0, k - base + 1) =~= merged@);
            }
        }
    }
    steps.push(step);
}

} // verus!
