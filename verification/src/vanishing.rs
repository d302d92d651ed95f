//! The relations of the table hold of what this crate builds: on the rows
//! of a filled, padded and extended table the constraints evaluate to zero.

use crate::algebra::{
    lemma_add_then_sub, lemma_b_mul_commutes, lemma_difference_is_zero, lemma_lift_respects,
    lemma_mul_commutes, lemma_mul_one, lemma_mul_zero, lemma_results_wf, lemma_sub_self,
    lemma_x_difference_is_zero, lemma_zero_is_neutral,
};
use crate::challenges::RamTableChallenges;
use crate::constraints::{
    bc0_updates_correctly, bc1_updates_correctly, bcpc0_only_changes_with_ramp,
    bcpc1_only_changes_with_ramp, clk_di_is_0_or_inverse_of_clk_diff, clk_di_is_inverse,
    clk_diff_is_0_or_inverse_of_clk_di, clk_diff_minus_one, clock_jump_update,
    clock_jumps_here,
    fd_updates_correctly,
    initial_constraints, iord_is_0_or_inverse_of_ramp_diff, is_inverse_or_zero_pair,
    ramp_changes,
    ramp_changes_or_ramv_stays_or_clk_increases_by_1, ramp_diff,
    ramp_diff_is_0_or_inverse_of_iord, ramp_stays, ramp_stays_or_ramv_becomes_0,
    rp_updates_correctly, rpcjd_updates_correctly, rppa_updates_correctly,
    transition_constraints, RowPair,
};
use crate::extension::{
    compressed_row, ext_rows_wf, extension, first_ext_row, lemma_extension_rows, next_ext_row,
    perm_arg_factor, ramp_factor, ExtRamRow,
};
use crate::field::{b_add, b_sub, x_add, x_lift, x_mul, x_one, x_sub, x_zero, XWord};
use crate::laws::{
    consistent, law_filled_table_is_consistent, law_padding_keeps_consistency, step_consistent,
};
use crate::ram_table::{
    has_max_clock_row, is_filled, is_max_clock_row, is_padded, max_clock_row, padded_row,
    rows_wf, RamRow,
};
use crate::bezout::bezout_of;
use crate::ram_table::lemma_index_of_distinct;
use crate::trace::{
    addresses, layout, lemma_addresses, lemma_first_address, lemma_first_of_block,
    lemma_first_of_blocks, ProcessorRow,
};
use vstd::prelude::*;

verus! {

/// Whether the value of a row follows the discipline of a memory: a new
/// address starts with the value zero, and at an unchanged address the
/// value only changes where the clock advances by one.
pub open spec fn step_disciplined(current: RamRow, next: RamRow) -> bool {
    &&& current.ramp != next.ramp ==> next.ramv == 0
    &&& current.ramp == next.ramp && current.ramv != next.ramv ==> next.clk == b_add(
        current.clk,
        1,
    )
}

/// Whether the value column of a table follows the discipline of a memory
/// from every row to the next.
pub open spec fn disciplined(rows: Seq<RamRow>) -> bool {
    forall|i: int| 0 <= i < rows.len() - 1 ==> step_disciplined(rows[i], #[trigger] rows[i + 1])
}

/// Whether a row pair is a step of an extended table: the helper columns
/// of the current row fit the next row, and the extension columns of the
/// next row follow from the current ones.
pub open spec fn is_step(rows: RowPair, challenges: RamTableChallenges) -> bool {
    &&& rows.wf()
    &&& challenges.wf()
    &&& step_consistent(rows.current, rows.next)
    &&& rows.next_ext == next_ext_row(rows.current, rows.current_ext, rows.next, challenges)
}

/// The `i`-th row of a table and the row after it, each with its
/// extension columns.
pub open spec fn pair_at(rows: Seq<RamRow>, ext: Seq<ExtRamRow>, i: int) -> RowPair {
    RowPair { current: rows[i], current_ext: ext[i], next: rows[i + 1], next_ext: ext[i + 1] }
}

/// In a step, `ramp_changes` is one and `ramp_stays` is zero where the
/// address changes; where it stays, it is the other way round, and the
/// address difference and the address inverse are zero.
pub proof fn lemma_address_step(rows: RowPair)
    requires
        rows.wf(),
        is_inverse_or_zero_pair(rows),
    ensures
        rows.current.ramp != rows.next.ramp ==> ramp_changes(rows) == x_one() && ramp_stays(rows)
            == x_zero(),
        rows.current.ramp == rows.next.ramp ==> ramp_diff(rows) == x_zero() && x_lift(
            rows.current.iord,
        ) == x_zero() && ramp_changes(rows) == x_zero() && ramp_stays(rows) == x_one(),
{
    lemma_sub_self(x_one());
    lemma_zero_is_neutral(x_one());
    let difference = b_sub(rows.next.ramp, rows.current.ramp);
    lemma_lift_respects(rows.next.ramp, rows.current.ramp);
    lemma_difference_is_zero(rows.next.ramp, rows.current.ramp);
    lemma_lift_respects(difference, rows.current.iord);
    lemma_mul_zero(x_lift(rows.current.iord));
}

/// In a step, the clock difference less one and the clock inverse are both
/// zero where the clock advances by one; everywhere else the clock inverse
/// inverts that difference.
pub proof fn lemma_clock_step(rows: RowPair)
    requires
        rows.wf(),
        is_inverse_or_zero_pair(rows),
    ensures
        clk_diff_minus_one(rows) == x_lift(b_sub(b_sub(rows.next.clk, rows.current.clk), 1)),
        b_sub(b_sub(rows.next.clk, rows.current.clk), 1) == 0 ==> clk_diff_minus_one(rows)
            == x_zero() && x_lift(rows.current.clk_di) == x_zero() && b_sub(
            rows.next.clk,
            rows.current.clk,
        ) == 1,
        b_sub(b_sub(rows.next.clk, rows.current.clk), 1) != 0 ==> clk_di_is_inverse(rows)
            == x_zero() && x_mul(clk_diff_minus_one(rows), x_lift(rows.current.clk_di))
            == x_one() && b_sub(rows.next.clk, rows.current.clk) != 1,
{
    lemma_sub_self(x_one());
    let difference = b_sub(rows.next.clk, rows.current.clk);
    let less_one = b_sub(difference, 1);
    lemma_lift_respects(rows.next.clk, rows.current.clk);
    lemma_lift_respects(difference, 1);
    lemma_difference_is_zero(difference, 1);
    lemma_lift_respects(less_one, rows.current.clk_di);
    lemma_lift_respects(rows.current.clk_di, less_one);
    lemma_b_mul_commutes(less_one, rows.current.clk_di);
}

/// The two relations on the address inverse hold of every step.
pub proof fn lemma_address_inverse_relations_vanish(rows: RowPair)
    requires
        rows.wf(),
        is_inverse_or_zero_pair(rows),
    ensures
        iord_is_0_or_inverse_of_ramp_diff(rows) == x_zero(),
        ramp_diff_is_0_or_inverse_of_iord(rows) == x_zero(),
{
    lemma_address_step(rows);
    lemma_sub_self(x_one());
    lemma_mul_zero(x_lift(rows.current.iord));
    lemma_mul_zero(ramp_diff(rows));
    lemma_mul_zero(x_sub(ramp_changes(rows), x_one()));
}

/// The two relations on the clock inverse hold of every step.
pub proof fn lemma_clock_inverse_relations_vanish(rows: RowPair)
    requires
        rows.wf(),
        is_inverse_or_zero_pair(rows),
    ensures
        clk_di_is_0_or_inverse_of_clk_diff(rows) == x_zero(),
        clk_diff_is_0_or_inverse_of_clk_di(rows) == x_zero(),
{
    lemma_clock_step(rows);
    lemma_mul_zero(x_lift(rows.current.clk_di));
    lemma_mul_zero(clk_diff_minus_one(rows));
    lemma_mul_zero(clk_di_is_inverse(rows));
}

/// The two relations on the value hold of every step that follows the
/// discipline of a memory.
pub proof fn lemma_value_relations_vanish(rows: RowPair)
    requires
        rows.wf(),
        is_inverse_or_zero_pair(rows),
        step_disciplined(rows.current, rows.next),
    ensures
        ramp_stays_or_ramv_becomes_0(rows) == x_zero(),
        ramp_changes_or_ramv_stays_or_clk_increases_by_1(rows) == x_zero(),
{
    lemma_sub_self(x_lift(rows.next.ramv));
    lemma_address_step(rows);
    lemma_sub_self(x_one());
    lemma_mul_zero(ramp_diff(rows));
    lemma_mul_zero(x_lift(rows.next.ramv));
    let changes_less_one = x_sub(ramp_changes(rows), x_one());
    let value_diff = x_sub(x_lift(rows.next.ramv), x_lift(rows.current.ramv));
    let clock_step = x_sub(x_lift(rows.next.clk), x_add(x_lift(rows.current.clk), x_one()));
    lemma_mul_zero(value_diff);
    lemma_mul_zero(changes_less_one);
    lemma_mul_zero(clock_step);
    lemma_mul_zero(x_mul(changes_less_one, value_diff));
    if rows.current.ramp == rows.next.ramp && rows.current.ramv != rows.next.ramv {
        lemma_lift_respects(rows.current.clk, 1);
        lemma_sub_self(x_lift(rows.next.clk));
    }
}

/// The relations on the stored Bézout coefficients hold of every step.
pub proof fn lemma_stored_coefficient_relations_vanish(rows: RowPair)
    requires
        rows.wf(),
        step_consistent(rows.current, rows.next),
    ensures
        bcpc0_only_changes_with_ramp(rows) == x_zero(),
        bcpc1_only_changes_with_ramp(rows) == x_zero(),
{
    lemma_sub_self(x_lift(rows.next.bcpc0));
    lemma_sub_self(x_lift(rows.next.bcpc1));
    lemma_address_step(rows);
    lemma_mul_zero(x_sub(x_lift(rows.next.bcpc0), x_lift(rows.current.bcpc0)));
    lemma_mul_zero(x_sub(x_lift(rows.next.bcpc1), x_lift(rows.current.bcpc1)));
    lemma_mul_zero(ramp_stays(rows));
}

/// A relation of the form `ramp_diff * updated + ramp_stays * kept` holds
/// where `updated` is zero if the address changes and `kept` is zero if it
/// stays.
pub proof fn lemma_update_or_keep(rows: RowPair, updated: XWord, kept: XWord)
    requires
        rows.wf(),
        is_inverse_or_zero_pair(rows),
        rows.current.ramp != rows.next.ramp ==> updated == x_zero(),
        rows.current.ramp == rows.next.ramp ==> kept == x_zero(),
    ensures
        x_add(x_mul(ramp_diff(rows), updated), x_mul(ramp_stays(rows), kept)) == x_zero(),
{
    lemma_zero_is_neutral(x_zero());
    lemma_address_step(rows);
    lemma_mul_zero(ramp_diff(rows));
    lemma_mul_zero(ramp_stays(rows));
    lemma_mul_zero(updated);
    lemma_mul_zero(kept);
}

/// The relations on the running product of the addresses, on its formal
/// derivative and on the two running Bézout coefficients hold of every
/// step.
pub proof fn lemma_bezout_relations_vanish(rows: RowPair, challenges: RamTableChallenges)
    requires
        is_step(rows, challenges),
    ensures
        rp_updates_correctly(rows, challenges) == x_zero(),
        fd_updates_correctly(rows, challenges) == x_zero(),
        bc0_updates_correctly(rows, challenges) == x_zero(),
        bc1_updates_correctly(rows, challenges) == x_zero(),
{
    let indeterminate = challenges.bezout_relation_indeterminate;
    let factor = x_sub(indeterminate, x_lift(rows.next.ramp));
    let now = rows.current_ext;
    let then = rows.next_ext;
    assert(factor == ramp_factor(rows.next, challenges));

    lemma_sub_self(then.rp);
    lemma_update_or_keep(rows, x_sub(then.rp, x_mul(now.rp, factor)), x_sub(then.rp, now.rp));

    lemma_sub_self(then.fd);
    lemma_results_wf(factor, now.fd);
    lemma_add_then_sub(x_mul(factor, now.fd), now.rp);
    lemma_update_or_keep(
        rows,
        x_sub(x_sub(then.fd, now.rp), x_mul(factor, now.fd)),
        x_sub(then.fd, now.fd),
    );

    lemma_sub_self(then.bc0);
    lemma_mul_commutes(now.bc0, indeterminate);
    lemma_results_wf(indeterminate, now.bc0);
    lemma_add_then_sub(x_mul(indeterminate, now.bc0), x_lift(rows.next.bcpc0));
    lemma_update_or_keep(
        rows,
        x_sub(x_sub(then.bc0, x_mul(indeterminate, now.bc0)), x_lift(rows.next.bcpc0)),
        x_sub(then.bc0, now.bc0),
    );

    lemma_sub_self(then.bc1);
    lemma_mul_commutes(now.bc1, indeterminate);
    lemma_results_wf(indeterminate, now.bc1);
    lemma_add_then_sub(x_mul(indeterminate, now.bc1), x_lift(rows.next.bcpc1));
    lemma_update_or_keep(
        rows,
        x_sub(x_sub(then.bc1, x_mul(indeterminate, now.bc1)), x_lift(rows.next.bcpc1)),
        x_sub(then.bc1, now.bc1),
    );
}

/// The relation on the running product of the permutation argument holds
/// of every step.
pub proof fn lemma_permutation_relation_vanishes(rows: RowPair, challenges: RamTableChallenges)
    requires
        is_step(rows, challenges),
    ensures
        rppa_updates_correctly(rows, challenges) == x_zero(),
{
    assert(rows.next_ext.rppa == x_mul(
        rows.current_ext.rppa,
        perm_arg_factor(rows.next, challenges),
    ));
    lemma_sub_self(rows.next_ext.rppa);
}

/// With fitting inverse columns, the selector of a clock jump is one where
/// the address stays and the clock does not advance by exactly one, and
/// zero everywhere else.
pub proof fn lemma_clock_jump_selector(rows: RowPair)
    requires
        rows.wf(),
        is_inverse_or_zero_pair(rows),
    ensures
        rows.current.ramp == rows.next.ramp && b_sub(rows.next.clk, rows.current.clk) != 1
            ==> clock_jumps_here(rows) == x_one(),
        rows.current.ramp != rows.next.ramp || b_sub(rows.next.clk, rows.current.clk) == 1
            ==> clock_jumps_here(rows) == x_zero(),
{
    lemma_clock_step(rows);
    lemma_address_step(rows);
    lemma_difference_is_zero(b_sub(rows.next.clk, rows.current.clk), 1);
    lemma_mul_zero(x_lift(rows.current.clk_di));
    lemma_mul_zero(ramp_stays(rows));
    lemma_mul_zero(x_one());
    lemma_mul_one(x_one());
}

/// What the relation on the running product of the clock jump differences
/// says, with fitting inverse columns.
///
/// Where the clock advances by exactly one or the address changes, the
/// relation is the change of the product: it is zero exactly where the
/// product is kept. Where the address stays and the clock does not advance
/// by exactly one, it is the product less the old product times the
/// difference between the challenge and the clock difference: it is zero
/// exactly where the product has taken up the clock difference.
pub proof fn law_clock_jump_relation(rows: RowPair, challenges: RamTableChallenges)
    requires
        rows.wf(),
        challenges.wf(),
        is_inverse_or_zero_pair(rows),
    ensures
        rows.current.ramp != rows.next.ramp || b_sub(rows.next.clk, rows.current.clk) == 1 ==> {
            &&& rpcjd_updates_correctly(rows, challenges) == x_sub(
                rows.next_ext.rpcjd,
                rows.current_ext.rpcjd,
            )
            &&& (rpcjd_updates_correctly(rows, challenges) == x_zero()) <==> (rows.next_ext.rpcjd
                == rows.current_ext.rpcjd)
        },
        rows.current.ramp == rows.next.ramp && b_sub(rows.next.clk, rows.current.clk) != 1 ==> {
            &&& rpcjd_updates_correctly(rows, challenges) == x_sub(
                rows.next_ext.rpcjd,
                clock_jump_update(rows, challenges),
            )
            &&& (rpcjd_updates_correctly(rows, challenges) == x_zero()) <==> (rows.next_ext.rpcjd
                == clock_jump_update(rows, challenges))
        },
        transition_constraints(rows, challenges)[12] == rpcjd_updates_correctly(rows, challenges),
{
    let now = rows.current_ext.rpcjd;
    let then = rows.next_ext.rpcjd;
    let kept = x_sub(then, now);
    let updated = x_sub(then, clock_jump_update(rows, challenges));
    lemma_clock_jump_selector(rows);
    lemma_lift_respects(rows.next.clk, rows.current.clk);
    lemma_results_wf(then, now);
    lemma_results_wf(then, clock_jump_update(rows, challenges));
    lemma_results_wf(
        now,
        x_sub(
            challenges.all_clock_jump_differences_multi_perm_indeterminate,
            x_lift(b_sub(rows.next.clk, rows.current.clk)),
        ),
    );
    lemma_sub_self(x_one());
    lemma_zero_is_neutral(x_one());
    lemma_mul_one(kept);
    lemma_mul_one(updated);
    lemma_mul_zero(kept);
    lemma_mul_zero(updated);
    lemma_zero_is_neutral(kept);
    lemma_zero_is_neutral(updated);
    lemma_x_difference_is_zero(then, now);
    lemma_x_difference_is_zero(then, clock_jump_update(rows, challenges));
}

/// The relation on the running product of the clock jump differences
/// holds of every step.
pub proof fn lemma_clock_jump_relation_vanishes(rows: RowPair, challenges: RamTableChallenges)
    requires
        is_step(rows, challenges),
    ensures
        rpcjd_updates_correctly(rows, challenges) == x_zero(),
{
    law_clock_jump_relation(rows, challenges);
    lemma_difference_is_zero(b_sub(rows.next.clk, rows.current.clk), 1);
}

/// All fourteen transition constraints evaluate to zero on every step of
/// an extended table that follows the discipline of a memory.
pub proof fn law_transition_constraints_vanish(rows: RowPair, challenges: RamTableChallenges)
    requires
        is_step(rows, challenges),
        step_disciplined(rows.current, rows.next),
    ensures
        transition_constraints(rows, challenges).len() == 14,
        forall|k: int|
            0 <= k < 14 ==> #[trigger] transition_constraints(rows, challenges)[k] == x_zero(),
{
    lemma_address_inverse_relations_vanish(rows);
    lemma_clock_inverse_relations_vanish(rows);
    lemma_value_relations_vanish(rows);
    lemma_stored_coefficient_relations_vanish(rows);
    lemma_bezout_relations_vanish(rows, challenges);
    lemma_clock_jump_relation_vanishes(rows, challenges);
    lemma_permutation_relation_vanishes(rows, challenges);
}

/// The extension columns of a well-formed table are well-formed, row by
/// row.
pub proof fn lemma_extension_row_wf(rows: Seq<RamRow>, challenges: RamTableChallenges, i: int)
    requires
        rows_wf(rows),
        challenges.wf(),
        0 <= i < rows.len(),
    ensures
        extension(rows, challenges).len() == rows.len(),
        extension(rows, challenges)[i].wf(),
    decreases i,
{
    lemma_extension_rows(rows, challenges);
    let ext = extension(rows, challenges);
    let row = rows[i];
    assert(row.wf());
    lemma_results_wf(challenges.processor_perm_indeterminate, compressed_row(row, challenges));
    lemma_results_wf(challenges.bezout_relation_indeterminate, x_lift(row.ramp));
    if i == 0 {
        lemma_results_wf(x_one(), perm_arg_factor(row, challenges));
    } else {
        lemma_extension_row_wf(rows, challenges, i - 1);
        let previous = rows[i - 1];
        let before = ext[i - 1];
        assert(ext[i - 1 + 1] == next_ext_row(previous, before, row, challenges));
        let indeterminate = challenges.bezout_relation_indeterminate;
        let factor = ramp_factor(row, challenges);
        lemma_results_wf(before.rp, factor);
        lemma_results_wf(x_mul(factor, before.fd), before.rp);
        lemma_results_wf(x_mul(before.bc0, indeterminate), x_lift(row.bcpc0));
        lemma_results_wf(x_mul(before.bc1, indeterminate), x_lift(row.bcpc1));
        lemma_results_wf(
            before.rpcjd,
            x_sub(
                challenges.all_clock_jump_differences_multi_perm_indeterminate,
                x_lift(b_sub(row.clk, previous.clk)),
            ),
        );
        lemma_results_wf(before.rppa, perm_arg_factor(row, challenges));
    }
}

/// The extension columns of a well-formed table are well-formed.
pub proof fn lemma_extension_wf(rows: Seq<RamRow>, challenges: RamTableChallenges)
    requires
        rows_wf(rows),
        challenges.wf(),
    ensures
        extension(rows, challenges).len() == rows.len(),
        ext_rows_wf(extension(rows, challenges)),
{
    lemma_extension_rows(rows, challenges);
    assert forall|i: int| 0 <= i < rows.len() implies (#[trigger] extension(
        rows,
        challenges,
    )[i]).wf() by {
        lemma_extension_row_wf(rows, challenges, i);
    }
}

/// All fourteen transition constraints evaluate to zero on every two
/// neighbouring rows of a table and its extension, where the helper
/// columns of the table fit and its values follow the discipline of a
/// memory.
pub proof fn law_transition_constraints_vanish_on_table(
    rows: Seq<RamRow>,
    challenges: RamTableChallenges,
    i: int,
)
    requires
        rows_wf(rows),
        challenges.wf(),
        consistent(rows),
        disciplined(rows),
        0 <= i < rows.len() - 1,
    ensures
        forall|k: int|
            0 <= k < 14 ==> #[trigger] transition_constraints(
                pair_at(rows, extension(rows, challenges), i),
                challenges,
            )[k] == x_zero(),
{
    let ext = extension(rows, challenges);
    let pair = pair_at(rows, ext, i);
    lemma_extension_rows(rows, challenges);
    lemma_extension_wf(rows, challenges);
    assert(rows[i].wf() && rows[i + 1].wf());
    assert(ext[i].wf() && ext[i + 1].wf());
    assert(step_consistent(rows[i], rows[i + 1]));
    assert(step_disciplined(rows[i], rows[i + 1]));
    assert(ext[i + 1] == next_ext_row(rows[i], ext[i], rows[i + 1], challenges));
    assert(is_step(pair, challenges));
    law_transition_constraints_vanish(pair, challenges);
}

/// The initial constraints evaluate to zero on the first row of a table
/// and its extension, where that row holds the clock zero, the address
/// zero, the value zero and zero as its first stored Bézout coefficient.
pub proof fn law_initial_constraints_vanish(rows: Seq<RamRow>, challenges: RamTableChallenges)
    requires
        rows.len() > 0,
        rows[0].wf(),
        challenges.wf(),
        rows[0].clk == 0,
        rows[0].ramp == 0,
        rows[0].ramv == 0,
        rows[0].bcpc0 == 0,
    ensures
        initial_constraints(rows[0], extension(rows, challenges)[0], challenges).len() == 9,
        forall|k: int|
            0 <= k < 9 ==> #[trigger] initial_constraints(
                rows[0],
                extension(rows, challenges)[0],
                challenges,
            )[k] == x_zero(),
{
    lemma_extension_rows(rows, challenges);
    let row = rows[0];
    let ext = extension(rows, challenges)[0];
    assert(ext == first_ext_row(row, challenges));
    let perm = challenges.processor_perm_indeterminate;
    lemma_mul_zero(challenges.clk_weight);
    lemma_mul_zero(challenges.ramp_weight);
    lemma_mul_zero(challenges.ramv_weight);
    lemma_zero_is_neutral(x_zero());
    assert(compressed_row(row, challenges) == x_zero());
    lemma_zero_is_neutral(perm);
    lemma_mul_one(perm);
    assert(ext.rppa == perm);
    lemma_sub_self(perm);
    lemma_zero_is_neutral(challenges.bezout_relation_indeterminate);
    lemma_sub_self(challenges.bezout_relation_indeterminate);
    lemma_sub_self(x_one());
    lemma_sub_self(x_lift(row.bcpc1));
}

/// Padding keeps the discipline of a memory: where the real rows of a
/// table follow it, and the row with the last clock cycle is the last of
/// its address, all rows of the padded table follow it.
pub proof fn law_padding_keeps_discipline(before: Seq<RamRow>, n: int, r: int, after: Seq<RamRow>)
    requires
        0 < n <= before.len(),
        is_max_clock_row(before, n, r),
        is_padded(before, n, r, after),
        disciplined(before.take(n)),
        r + 1 < n ==> before[r + 1].ramp != before[r].ramp,
    ensures
        disciplined(after),
{
    let filled = before.take(n);
    let gap = before.len() - n;
    let end = r + gap;
    let patch = after[end].clk_di;
    assert forall|i: int| 0 <= i < after.len() - 1 implies step_disciplined(
        after[i],
        #[trigger] after[i + 1],
    ) by {
        assert(after[i] == padded_row(before, n, r, i, patch));
        assert(after[i + 1] == padded_row(before, n, r, i + 1, patch));
        if i + 1 <= r {
            assert(step_disciplined(filled[i], filled[i + 1]));
        } else if i < end {
        } else if i == end {
            assert(step_disciplined(filled[r], filled[r + 1]));
        } else {
            assert(step_disciplined(filled[i - gap], filled[i - gap + 1]));
        }
    }
}

/// A table that is filled from a trace, padded and extended satisfies all
/// fourteen transition constraints between every two neighbouring rows,
/// where the values of the padded table follow the discipline of a memory.
pub proof fn law_built_table_satisfies_transition_constraints(
    trace: Seq<ProcessorRow>,
    blank: Seq<RamRow>,
    filled: Seq<RamRow>,
    padded: Seq<RamRow>,
    challenges: RamTableChallenges,
    i: int,
)
    requires
        0 < trace.len(),
        is_filled(trace, blank, filled),
        rows_wf(filled),
        has_max_clock_row(filled, trace.len() as int),
        is_padded(
            filled,
            trace.len() as int,
            max_clock_row(filled, trace.len() as int),
            padded,
        ),
        rows_wf(padded),
        disciplined(padded),
        challenges.wf(),
        0 <= i < padded.len() - 1,
    ensures
        forall|k: int|
            0 <= k < 14 ==> #[trigger] transition_constraints(
                pair_at(padded, extension(padded, challenges), i),
                challenges,
            )[k] == x_zero(),
{
    let n = trace.len() as int;
    law_filled_table_is_consistent(trace, blank, filled);
    law_padding_keeps_consistency(filled, n, max_clock_row(filled, n), padded);
    law_transition_constraints_vanish_on_table(padded, challenges, i);
}

/// The initial constraints evaluate to zero on the first row of a table
/// that is filled from a trace, padded and extended, where the trace
/// starts at the clock zero with the address zero and the value zero, and
/// the first Bézout coefficient has fewer terms than there are addresses.
pub proof fn law_built_table_satisfies_initial_constraints(
    trace: Seq<ProcessorRow>,
    blank: Seq<RamRow>,
    filled: Seq<RamRow>,
    padded: Seq<RamRow>,
    challenges: RamTableChallenges,
)
    requires
        0 < trace.len(),
        trace[0] == (ProcessorRow { clk: 0, ramp: 0, ramv: 0 }),
        is_filled(trace, blank, filled),
        bezout_of(addresses(trace)).1.len() < addresses(trace).len(),
        has_max_clock_row(filled, trace.len() as int),
        is_padded(
            filled,
            trace.len() as int,
            max_clock_row(filled, trace.len() as int),
            padded,
        ),
        padded[0].wf(),
        challenges.wf(),
    ensures
        forall|k: int|
            0 <= k < 9 ==> #[trigger] initial_constraints(
                padded[0],
                extension(padded, challenges)[0],
                challenges,
            )[k] == x_zero(),
{
    let n = trace.len() as int;
    let addrs = addresses(trace);
    let r = max_clock_row(filled, n);
    lemma_first_address(trace);
    lemma_first_of_block(trace);
    lemma_first_of_blocks(trace, addrs);
    lemma_addresses(trace);
    lemma_index_of_distinct(addrs, 0);
    assert(layout(trace)[0] == trace[0]);
    assert(filled[0].access() == trace[0]);
    assert(filled[0].bcpc0 == 0);
    assert(is_max_clock_row(filled, n, r));
    let end = r + filled.len() - n;
    assert(padded[0] == padded_row(filled, n, r, 0, padded[end].clk_di));
    law_initial_constraints_vanish(padded, challenges);
}

} // verus!
