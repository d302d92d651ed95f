//! The traces of a machine that treats its memory as a memory, and what
//! the constraints say of their tables.

use crate::bezout::{
    bezout_fault_of, bezout_identity_of, bezout_of, canonical_coefficients,
};
use crate::challenges::RamTableChallenges;
use crate::constraints::{initial_constraints, terminal_constraints, transition_constraints};
use crate::extension::extension;
use crate::field::{b_add, x_zero};
use crate::ram_table::{
    has_max_clock_row, is_filled, is_max_clock_row, is_padded, max_clock_row, rows_wf, RamRow,
};
use crate::terminal::law_built_table_satisfies_terminal_constraint;
use crate::trace::{
    addresses, block, blocks, distinct, layout, lemma_addresses, lemma_block_is_not_empty,
    lemma_block_rows, lemma_blocks_rows, lemma_first_of_block, lemma_layout_is_permutation,
    lemma_layout_rows, trace_wf, ProcessorRow,
};
use crate::vanishing::{
    law_built_table_satisfies_initial_constraints,
    law_built_table_satisfies_transition_constraints, law_padding_keeps_discipline, pair_at,
    step_disciplined,
};
use vstd::prelude::*;

verus! {

/// Whether the accesses to one address are those of a memory: the first
/// one finds the value zero, the clock grows from each to the next, and
/// the value only changes from one to the next where the clock advances by
/// one.
pub open spec fn block_disciplined(rows: Seq<ProcessorRow>) -> bool {
    &&& rows.len() > 0 ==> rows[0].ramv == 0
    &&& forall|k: int|
        0 <= k < rows.len() - 1 ==> {
            &&& rows[k].clk < (#[trigger] rows[k + 1]).clk
            &&& rows[k].ramv != rows[k + 1].ramv ==> rows[k + 1].clk == b_add(rows[k].clk, 1)
        }
}

/// Whether a trace is the record of a run on a machine with a memory: the
/// clock counts the cycles from zero, the run starts at the address zero,
/// and the accesses to every address are those of a memory.
pub open spec fn is_run(trace: Seq<ProcessorRow>) -> bool {
    &&& 0 < trace.len()
    &&& trace_wf(trace)
    &&& forall|i: int| 0 <= i < trace.len() ==> (#[trigger] trace[i]).clk == i
    &&& trace[0].ramp == 0
    &&& forall|address: u64| block_disciplined(#[trigger] block(trace, address))
}

/// Whether an access and the one that follows it in a table are those of
/// a memory: at the same address the clock grows, and the value only
/// changes where the clock advances by one; a new address starts with the
/// value zero.
pub open spec fn accesses_disciplined(current: ProcessorRow, next: ProcessorRow) -> bool {
    &&& current.ramp == next.ramp ==> current.clk < next.clk
    &&& current.ramp == next.ramp && current.ramv != next.ramv ==> next.clk == b_add(
        current.clk,
        1,
    )
    &&& current.ramp != next.ramp ==> next.ramv == 0
}

/// In the blocks of distinct addresses, none of them empty and each one
/// the accesses of a memory, every access and the one after it are those
/// of a memory.
pub proof fn lemma_blocks_are_disciplined(trace: Seq<ProcessorRow>, addrs: Seq<u64>)
    requires
        distinct(addrs),
        forall|j: int| 0 <= j < addrs.len() ==> block(trace, #[trigger] addrs[j]).len() > 0,
        forall|address: u64| block_disciplined(#[trigger] block(trace, address)),
    ensures
        forall|i: int|
            0 <= i < blocks(trace, addrs).len() - 1 ==> accesses_disciplined(
                blocks(trace, addrs)[i],
                #[trigger] blocks(trace, addrs)[i + 1],
            ),
    decreases addrs.len(),
{
    if addrs.len() > 0 {
        let front = addrs.drop_last();
        let a = addrs.last();
        let head = blocks(trace, front);
        let tail = block(trace, a);
        let rows = blocks(trace, addrs);
        assert(rows == head + tail);
        assert forall|j: int| 0 <= j < front.len() implies block(
            trace,
            #[trigger] front[j],
        ).len() > 0 by {
            assert(front[j] == addrs[j]);
        }
        lemma_blocks_are_disciplined(trace, front);
        lemma_blocks_rows(trace, front);
        lemma_block_rows(trace, a);
        assert(block_disciplined(tail));
        assert forall|i: int| 0 <= i < rows.len() - 1 implies accesses_disciplined(
            rows[i],
            #[trigger] rows[i + 1],
        ) by {
            if i + 1 < head.len() {
                assert(rows[i] == head[i] && rows[i + 1] == head[i + 1]);
            } else if i + 1 == head.len() {
                assert(rows[i] == head[i]);
                assert(rows[i + 1] == tail[0]);
                let m = choose|m: int| 0 <= m < front.len() && front[m] == head[i].ramp;
                assert(addrs[m] != addrs[addrs.len() - 1]);
            } else {
                let k = i - head.len();
                assert(rows[i] == tail[k]);
                assert(rows[i + 1] == tail[k + 1]);
            }
        }
    }
}

/// In the table of a run, regrouped by address, every access and the one
/// after it are those of a memory.
pub proof fn lemma_layout_of_run_is_disciplined(trace: Seq<ProcessorRow>)
    requires
        is_run(trace),
    ensures
        layout(trace).len() == trace.len(),
        forall|i: int|
            0 <= i < trace.len() - 1 ==> accesses_disciplined(
                layout(trace)[i],
                #[trigger] layout(trace)[i + 1],
            ),
{
    let addrs = addresses(trace);
    lemma_addresses(trace);
    lemma_layout_is_permutation(trace);
    assert forall|j: int| 0 <= j < addrs.len() implies block(trace, #[trigger] addrs[j]).len()
        > 0 by {
        let i = choose|i: int| 0 <= i < trace.len() && trace[i].ramp == addrs[j];
        lemma_block_is_not_empty(trace, addrs[j], i);
    }
    lemma_blocks_are_disciplined(trace, addrs);
}

/// Where one of the first `n` rows holds the last clock cycle, one of them
/// is the first to hold it.
pub proof fn lemma_first_max_clock_row(rows: Seq<RamRow>, n: int, j: int)
    requires
        0 <= j < n,
        rows[j].clk == n - 1,
    ensures
        has_max_clock_row(rows, n),
    decreases j,
{
    if exists|i: int| 0 <= i < j && rows[i].clk == n - 1 {
        let i = choose|i: int| 0 <= i < j && rows[i].clk == n - 1;
        lemma_first_max_clock_row(rows, n, i);
    } else {
        assert(is_max_clock_row(rows, n, j));
    }
}

/// A table that is filled from the trace of a run holds the last clock
/// cycle of the run, so that it can be padded.
pub proof fn law_table_of_a_run_can_be_padded(
    trace: Seq<ProcessorRow>,
    blank: Seq<RamRow>,
    filled: Seq<RamRow>,
)
    requires
        is_run(trace),
        is_filled(trace, blank, filled),
    ensures
        has_max_clock_row(filled, trace.len() as int),
{
    broadcast use vstd::seq_lib::to_multiset_contains;

    let n = trace.len() as int;
    let laid = layout(trace);
    let last = trace[n - 1];
    lemma_layout_is_permutation(trace);
    assert(trace.contains(last));
    assert(trace.to_multiset().count(last) > 0);
    assert(laid.to_multiset().count(last) > 0);
    assert(laid.contains(last));
    let j = choose|j: int| 0 <= j < laid.len() && laid[j] == last;
    assert(filled[j].access() == laid[j]);
    lemma_first_max_clock_row(filled, n, j);
}

/// The table of a run satisfies its constraints.
///
/// A table is filled from the trace of a run, padded and extended. The
/// Bézout coefficients of its addresses are without fault, the first has
/// fewer terms than there are addresses and the second no more. Then the
/// initial constraints evaluate to zero on the first row, the terminal
/// constraint on the last row, and all fourteen transition constraints on
/// every two neighbouring rows.
pub proof fn law_table_of_a_run_satisfies_constraints(
    trace: Seq<ProcessorRow>,
    blank: Seq<RamRow>,
    filled: Seq<RamRow>,
    padded: Seq<RamRow>,
    challenges: RamTableChallenges,
)
    requires
        is_run(trace),
        is_filled(trace, blank, filled),
        rows_wf(filled),
        bezout_fault_of(addresses(trace)) is None,
        bezout_identity_of(addresses(trace)),
        canonical_coefficients(bezout_of(addresses(trace)).1),
        canonical_coefficients(bezout_of(addresses(trace)).2),
        bezout_of(addresses(trace)).1.len() < addresses(trace).len(),
        bezout_of(addresses(trace)).2.len() <= addresses(trace).len(),
        is_padded(
            filled,
            trace.len() as int,
            max_clock_row(filled, trace.len() as int),
            padded,
        ),
        rows_wf(padded),
        challenges.wf(),
    ensures
        has_max_clock_row(filled, trace.len() as int),
        forall|k: int|
            0 <= k < 9 ==> #[trigger] initial_constraints(
                padded[0],
                extension(padded, challenges)[0],
                challenges,
            )[k] == x_zero(),
        forall|i: int, k: int|
            0 <= i < padded.len() - 1 && 0 <= k < 14 ==> #[trigger] transition_constraints(
                pair_at(padded, extension(padded, challenges), i),
                challenges,
            )[k] == x_zero(),
        terminal_constraints(extension(padded, challenges)[padded.len() - 1])[0] == x_zero(),
{
    let n = trace.len() as int;
    let laid = layout(trace);
    let r = max_clock_row(filled, n);
    let front = filled.take(n);
    law_table_of_a_run_can_be_padded(trace, blank, filled);
    lemma_layout_of_run_is_disciplined(trace);
    lemma_layout_rows(trace);
    assert(is_max_clock_row(filled, n, r));
    // the real rows follow the discipline of a memory
    assert forall|i: int| 0 <= i < front.len() - 1 implies step_disciplined(
        front[i],
        #[trigger] front[i + 1],
    ) by {
        assert(filled[i].access() == laid[i]);
        assert(filled[i + 1].access() == laid[i + 1]);
        assert(accesses_disciplined(laid[i], laid[i + 1]));
    }
    // the row with the last clock cycle is the last of its address
    if r + 1 < n {
        assert(filled[r].access() == laid[r]);
        assert(filled[r + 1].access() == laid[r + 1]);
        assert(accesses_disciplined(laid[r], laid[r + 1]));
        assert(trace.contains(laid[r + 1]));
        let at = choose|at: int| 0 <= at < trace.len() && trace[at] == laid[r + 1];
        assert(trace[at].clk == at);
    }
    law_padding_keeps_discipline(filled, n, r, padded);
    assert forall|i: int, k: int|
        0 <= i < padded.len() - 1 && 0 <= k < 14 implies #[trigger] transition_constraints(
        pair_at(padded, extension(padded, challenges), i),
        challenges,
    )[k] == x_zero() by {
        law_built_table_satisfies_transition_constraints(
            trace,
            blank,
            filled,
            padded,
            challenges,
            i,
        );
    }
    // the run starts at the clock zero, at the address zero, with the value zero
    lemma_first_of_block(trace);
    assert(block_disciplined(block(trace, trace[0].ramp)));
    assert(trace[0] == (ProcessorRow { clk: 0, ramp: 0, ramv: 0 }));
    assert(padded[0].wf());
    law_built_table_satisfies_initial_constraints(trace, blank, filled, padded, challenges);
    law_built_table_satisfies_terminal_constraint(trace, blank, filled, padded, challenges);
}

} // verus!
