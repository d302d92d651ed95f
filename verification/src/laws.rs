//! What holds of every table that is filled, padded and extended as this
//! crate does it.

use crate::algebra::lemma_inverse_or_zero_is_unique;
use crate::ram_table::{
    has_max_clock_row, is_filled, is_max_clock_row, is_padded, max_clock_row, padded_row,
    rows_wf, RamRow,
};
use crate::trace::{
    contiguous, layout, lemma_layout_is_contiguous, lemma_layout_is_permutation, ProcessorRow,
};
use crate::field::{b_add, b_sub, is_inverse_or_zero, lemma_reduce_add, reduce, P};
use vstd::prelude::*;

verus! {

/// The accesses that the first `n` rows of a table record.
pub open spec fn accesses(rows: Seq<RamRow>, n: int) -> Seq<ProcessorRow> {
    Seq::new(n as nat, |i: int| rows[i].access())
}

/// A filled table records every access of the trace exactly once: it has
/// one row per row of the trace, and every triple of clock, address and
/// value occurs among its rows as often as it occurs in the trace.
pub proof fn law_filled_table_is_permutation(
    trace: Seq<ProcessorRow>,
    before: Seq<RamRow>,
    after: Seq<RamRow>,
)
    requires
        is_filled(trace, before, after),
    ensures
        accesses(after, trace.len() as int).len() == trace.len(),
        accesses(after, trace.len() as int) == layout(trace),
        accesses(after, trace.len() as int).to_multiset() =~= trace.to_multiset(),
{
    lemma_layout_is_permutation(trace);
    assert(accesses(after, trace.len() as int) =~= layout(trace));
}

/// In a filled table the rows of one address form one contiguous block:
/// between two rows of the same address there is no row of another.
pub proof fn law_filled_addresses_are_contiguous(
    trace: Seq<ProcessorRow>,
    before: Seq<RamRow>,
    after: Seq<RamRow>,
)
    requires
        is_filled(trace, before, after),
    ensures
        forall|i: int, j: int, k: int|
            0 <= i <= j <= k < trace.len() && after[i].ramp == after[k].ramp ==> after[j].ramp
                == after[i].ramp,
{
    lemma_layout_is_permutation(trace);
    lemma_layout_is_contiguous(trace);
    let laid = layout(trace);
    assert(contiguous(laid));
    assert forall|i: int, j: int, k: int|
        0 <= i <= j <= k < trace.len() && after[i].ramp == after[k].ramp implies after[j].ramp
        == after[i].ramp by {
        assert(after[i].access() == laid[i]);
        assert(after[j].access() == laid[j]);
        assert(after[k].access() == laid[k]);
    }
}

/// Whether the helper columns of a row fit the row that follows it: the
/// address inverse inverts the difference of the addresses or is zero with
/// it, the clock inverse does the same for the difference of the clocks
/// less one, and the stored Bézout coefficients stay where the address
/// stays.
pub open spec fn step_consistent(current: RamRow, next: RamRow) -> bool {
    &&& is_inverse_or_zero(b_sub(next.ramp, current.ramp), current.iord)
    &&& is_inverse_or_zero(b_sub(b_sub(next.clk, current.clk), 1), current.clk_di)
    &&& current.ramp == next.ramp ==> current.bcpc0 == next.bcpc0 && current.bcpc1
        == next.bcpc1
}

/// Whether the helper columns of every row fit the row that follows it.
pub open spec fn consistent(rows: Seq<RamRow>) -> bool {
    forall|i: int| 0 <= i < rows.len() - 1 ==> step_consistent(rows[i], #[trigger] rows[i + 1])
}

/// In a filled table the helper columns of every row of the trace fit the
/// row that follows it.
pub proof fn law_filled_table_is_consistent(
    trace: Seq<ProcessorRow>,
    before: Seq<RamRow>,
    after: Seq<RamRow>,
)
    requires
        is_filled(trace, before, after),
    ensures
        consistent(after.take(trace.len() as int)),
{
    lemma_layout_is_permutation(trace);
    let laid = layout(trace);
    let rows = after.take(trace.len() as int);
    assert forall|i: int| 0 <= i < rows.len() - 1 implies step_consistent(
        rows[i],
        #[trigger] rows[i + 1],
    ) by {
        assert(after[i].access() == laid[i]);
        assert(after[i + 1].access() == laid[i + 1]);
    }
}

/// A clock that advances by one has a difference less one of zero, and so
/// has an address that stays; zero fits both as the inverse.
proof fn lemma_unit_step(clk: u64, next_clk: u64, ramp: u64)
    requires
        clk < P,
        next_clk == b_add(clk, 1),
        ramp < P,
    ensures
        is_inverse_or_zero(b_sub(ramp, ramp), 0),
        is_inverse_or_zero(b_sub(b_sub(next_clk, clk), 1), 0),
{
}

/// The columns of a row of the padded table that stands between the row
/// with the last clock cycle and the end of the padding.
proof fn lemma_padding_row(before: Seq<RamRow>, n: int, r: int, i: int, patch: u64)
    requires
        0 < n <= before.len(),
        0 <= r < n,
        before[r].clk == n - 1,
        before[r].clk < P,
        r <= i <= r + before.len() - n,
    ensures
        ({
            let row = padded_row(before, n, r, i, patch);
            let end = r + before.len() - n;
            &&& row.clk == reduce(n - 1 + (i - r))
            &&& row.clk < P
            &&& row.ramp == before[r].ramp
            &&& row.ramv == before[r].ramv
            &&& row.bcpc0 == before[r].bcpc0
            &&& row.bcpc1 == before[r].bcpc1
            &&& i == end && r + 1 < n ==> row.iord == before[r].iord && row.clk_di == patch
            &&& !(i == end && r + 1 < n) ==> row.iord == 0 && row.clk_di == 0
        }),
{
}

/// Padding keeps the helper columns fitting: where they fit between the
/// real rows of a table, they fit between all rows of the padded table.
pub proof fn law_padding_keeps_consistency(before: Seq<RamRow>, n: int, r: int, after: Seq<RamRow>)
    requires
        0 < n <= before.len(),
        rows_wf(before),
        is_max_clock_row(before, n, r),
        is_padded(before, n, r, after),
        consistent(before.take(n)),
    ensures
        consistent(after),
{
    let filled = before.take(n);
    let gap = before.len() - n;
    let end = r + gap;
    let patch = after[end].clk_di;
    assert(before[r].wf());
    assert forall|i: int| 0 <= i < after.len() - 1 implies step_consistent(
        after[i],
        #[trigger] after[i + 1],
    ) by {
        let current = after[i];
        let next = after[i + 1];
        assert(current == padded_row(before, n, r, i, patch));
        assert(next == padded_row(before, n, r, i + 1, patch));
        if i + 1 < r {
            assert(step_consistent(filled[i], filled[i + 1]));
        } else if i + 1 == r {
            lemma_padding_row(before, n, r, r, patch);
            assert(step_consistent(filled[i], filled[i + 1]));
            assert(current == before[i]);
        } else if i < end {
            lemma_padding_row(before, n, r, i, patch);
            lemma_padding_row(before, n, r, i + 1, patch);
            lemma_reduce_add(n - 1 + (i - r), 1);
            lemma_unit_step(current.clk, next.clk, current.ramp);
        } else if i == end {
            lemma_padding_row(before, n, r, i, patch);
            assert(step_consistent(filled[r], filled[r + 1]));
            assert(next == before[r + 1]);
            assert(current.clk == reduce(before.len() - 1));
        } else {
            assert(step_consistent(filled[i - gap], filled[i - gap + 1]));
            assert(current == before[i - gap]);
            assert(next == before[i - gap + 1]);
        }
    }
}

/// Padding a table that is already at its full height changes nothing but
/// the inverse columns of the row with the last clock cycle. Where that row
/// is the last row, both are set to zero. Where rows follow it, its address
/// inverse stays, and its clock inverse fits the clock of the row after it.
pub proof fn law_padding_full_table(before: Seq<RamRow>, r: int, after: Seq<RamRow>)
    requires
        0 < before.len(),
        rows_wf(before),
        is_max_clock_row(before, before.len() as int, r),
        is_padded(before, before.len() as int, r, after),
    ensures
        after.len() == before.len(),
        forall|i: int| 0 <= i < after.len() && i != r ==> after[i] == before[i],
        after[r] == (RamRow { iord: after[r].iord, clk_di: after[r].clk_di, ..before[r] }),
        r + 1 == before.len() ==> after[r].iord == 0 && after[r].clk_di == 0,
        r + 1 < before.len() ==> after[r].iord == before[r].iord && is_inverse_or_zero(
            b_sub(b_sub(after[r + 1].clk, after[r].clk), 1),
            after[r].clk_di,
        ),
{
    let n = before.len() as int;
    let patch = after[r].clk_di;
    assert(before[r].wf());
    assert forall|i: int| 0 <= i < after.len() && i != r implies after[i] == before[i] by {
        assert(after[i] == padded_row(before, n, r, i, patch));
    }
    assert(after[r] == padded_row(before, n, r, r, patch));
    if r + 1 < n {
        assert(after[r + 1] == padded_row(before, n, r, r + 1, patch));
    }
}

/// The last row of the padding holds the last clock cycle of the padded
/// table; where no real row follows it, it is the last row of the table and
/// its inverse columns are zero.
proof fn lemma_end_of_padding(before: Seq<RamRow>, n: int, r: int, once: Seq<RamRow>)
    requires
        0 < n <= before.len() <= P,
        rows_wf(before),
        is_max_clock_row(before, n, r),
        is_padded(before, n, r, once),
    ensures
        once[r + before.len() - n].clk == before.len() - 1,
        r + 1 == n ==> r + before.len() - n == before.len() - 1 && once[before.len() - 1].iord
            == 0 && once[before.len() - 1].clk_di == 0,
{
    let end = r + before.len() - n;
    let patch = once[end].clk_di;
    assert(before[r].wf());
    assert(once[end] == padded_row(before, n, r, end, patch));
    lemma_padding_row(before, n, r, end, patch);
    assert(reduce(before.len() - 1) == before.len() - 1);
}

/// What the first padding leaves at the row of the padded table that
/// holds its last clock cycle: a clock inverse that fits the row after it,
/// or, where it is the last row, inverse columns that are zero.
proof fn lemma_after_first_padding(
    before: Seq<RamRow>,
    n: int,
    r: int,
    once: Seq<RamRow>,
    found: int,
)
    requires
        0 < n <= before.len(),
        rows_wf(before),
        rows_wf(once),
        consistent(before.take(n)),
        is_max_clock_row(before, n, r),
        is_padded(before, n, r, once),
        is_max_clock_row(once, once.len() as int, found),
    ensures
        found + 1 < once.len() ==> is_inverse_or_zero(
            b_sub(b_sub(once[found + 1].clk, once[found].clk), 1),
            once[found].clk_di,
        ),
        found + 1 == once.len() ==> once[found].iord == 0 && once[found].clk_di == 0,
{
    let height = before.len() as int;
    let end = r + height - n;
    // a row holds the clock `height - 1`, so the height is at most the prime
    assert(once[found].wf());
    if found + 1 < height {
        law_padding_keeps_consistency(before, n, r, once);
        assert(step_consistent(once[found], once[found + 1]));
    } else {
        // the last row holds the last clock cycle: it is the end of the padding
        lemma_end_of_padding(before, n, r, once);
        if end < found {
            assert(once[end].clk != height - 1);
        }
    }
}

/// Padding a full table changes nothing where the row with the last clock
/// cycle has a clock inverse that fits the row after it, or is the last
/// row and has inverse columns that are zero.
proof fn lemma_second_padding(once: Seq<RamRow>, found: int, twice: Seq<RamRow>)
    requires
        0 < once.len(),
        rows_wf(once),
        is_max_clock_row(once, once.len() as int, found),
        is_padded(once, once.len() as int, found, twice),
        found + 1 < once.len() ==> is_inverse_or_zero(
            b_sub(b_sub(once[found + 1].clk, once[found].clk), 1),
            once[found].clk_di,
        ),
        found + 1 == once.len() ==> once[found].iord == 0 && once[found].clk_di == 0,
    ensures
        twice == once,
{
    law_padding_full_table(once, found, twice);
    if found + 1 < once.len() {
        assert(twice[found + 1] == once[found + 1]);
        lemma_inverse_or_zero_is_unique(
            b_sub(b_sub(once[found + 1].clk, once[found].clk), 1),
            once[found].clk_di,
            twice[found].clk_di,
        );
    }
    assert(twice[found] == once[found]);
    assert forall|i: int| 0 <= i < once.len() implies twice[i] == once[i] by {}
    assert(twice =~= once);
}

/// Padding a second time is a no-op. A table whose helper columns fit
/// between its real rows is padded; the padded table, now taken as full,
/// is padded again: the second padding changes nothing.
pub proof fn law_padding_twice(
    before: Seq<RamRow>,
    n: int,
    once: Seq<RamRow>,
    twice: Seq<RamRow>,
)
    requires
        0 < n <= before.len(),
        rows_wf(before),
        rows_wf(once),
        consistent(before.take(n)),
        has_max_clock_row(before, n),
        is_padded(before, n, max_clock_row(before, n), once),
        has_max_clock_row(once, once.len() as int),
        is_padded(once, once.len() as int, max_clock_row(once, once.len() as int), twice),
    ensures
        twice == once,
{
    let r = max_clock_row(before, n);
    let found = max_clock_row(once, once.len() as int);
    assert(is_max_clock_row(before, n, r));
    assert(is_max_clock_row(once, once.len() as int, found));
    lemma_after_first_padding(before, n, r, once, found);
    lemma_second_padding(once, found, twice);
}

/// Padding a table that was filled from a trace, and padding it again as a
/// full table, changes nothing the second time.
pub proof fn law_padding_filled_table_twice(
    trace: Seq<ProcessorRow>,
    blank: Seq<RamRow>,
    filled: Seq<RamRow>,
    once: Seq<RamRow>,
    twice: Seq<RamRow>,
)
    requires
        0 < trace.len(),
        is_filled(trace, blank, filled),
        rows_wf(filled),
        rows_wf(once),
        has_max_clock_row(filled, trace.len() as int),
        is_padded(filled, trace.len() as int, max_clock_row(filled, trace.len() as int), once),
        has_max_clock_row(once, once.len() as int),
        is_padded(once, once.len() as int, max_clock_row(once, once.len() as int), twice),
    ensures
        twice == once,
{
    law_filled_table_is_consistent(trace, blank, filled);
    law_padding_twice(filled, trace.len() as int, once, twice);
}

} // verus!
