//! The Bézout relation on the last row: the terminal constraint evaluates
//! to zero on a table that is filled from a trace, padded and extended.

use crate::algebra::{lemma_mul_one, lemma_mul_zero, lemma_results_wf, lemma_sub_self, lemma_zero_is_neutral};
use crate::bezout::{
    bezout_columns, bezout_fault_of, bezout_identity_at, bezout_identity_of, bezout_of,
    canonical_coefficients, formal_derivative, roots_polynomial,
};
use crate::challenges::RamTableChallenges;
use crate::constraints::terminal_constraints;
use crate::evaluation::{
    derivative_of_factors, horner, lemma_horner_resized, lemma_value_of_roots_polynomial,
    product_of_factors, value_at,
};
use crate::extension::{extension, first_ext_row, lemma_extension_rows, next_ext_row, ramp_factor};
use crate::field::{x_add, x_lift, x_mul, x_one, x_sub, x_zero, P};
use crate::ram_table::{
    address_index, entry_for, has_max_clock_row, is_filled, is_max_clock_row, is_padded,
    lemma_index_of_distinct, max_clock_row, padded_row, RamRow,
};
use crate::trace::{
    addresses, block, blocks, distinct, layout, lemma_addresses, lemma_block_is_not_empty,
    lemma_block_rows, lemma_blocks_rows, lemma_layout_is_permutation, trace_wf, ProcessorRow,
};
use vstd::prelude::*;

verus! {

/// Whether the rows of a table go through the given addresses in their
/// order: the first row is at the first address, the last row at the last,
/// every row is at the address of the row before it or at the next one, and
/// every row holds the pair of Bézout entries of its address.
pub open spec fn staged(rows: Seq<RamRow>, addrs: Seq<u64>, columns: (Seq<u64>, Seq<u64>)) -> bool {
    &&& rows.len() > 0
    &&& addrs.len() > 0
    &&& distinct(addrs)
    &&& columns.0.len() == addrs.len()
    &&& columns.1.len() == addrs.len()
    &&& forall|i: int|
        0 <= i < rows.len() ==> {
            &&& addrs.contains((#[trigger] rows[i]).ramp)
            &&& rows[i].bcpc0 == entry_for(columns.0, addrs, rows[i].ramp)
            &&& rows[i].bcpc1 == entry_for(columns.1, addrs, rows[i].ramp)
        }
    &&& address_index(addrs, rows[0].ramp) == 0
    &&& forall|i: int|
        0 <= i < rows.len() - 1 ==> {
            let step = address_index(addrs, (#[trigger] rows[i + 1]).ramp) - address_index(
                addrs,
                rows[i].ramp,
            );
            step == 0 || step == 1
        }
    &&& address_index(addrs, rows[rows.len() - 1].ramp) == addrs.len() - 1
}

/// The place of a value among values that hold it is a place at which it
/// stands.
pub proof fn lemma_address_index(addrs: Seq<u64>, address: u64)
    requires
        addrs.contains(address),
    ensures
        0 <= address_index(addrs, address) < addrs.len(),
        addrs[address_index(addrs, address)] == address,
{
}

/// In the extension of a staged table, the running columns of a row are
/// the values that belong to the address of the row: the product of the
/// linear factors of the addresses up to it, the derivative of that
/// product, and the two Bézout coefficients from their leading entries
/// down to the entry of the address.
pub proof fn lemma_running_columns(
    rows: Seq<RamRow>,
    addrs: Seq<u64>,
    columns: (Seq<u64>, Seq<u64>),
    challenges: RamTableChallenges,
    i: int,
)
    requires
        staged(rows, addrs, columns),
        canonical_coefficients(addrs),
        canonical_coefficients(columns.0),
        canonical_coefficients(columns.1),
        challenges.wf(),
        0 <= i < rows.len(),
    ensures
        ({
            let ext = extension(rows, challenges)[i];
            let j = address_index(addrs, rows[i].ramp);
            let z = challenges.bezout_relation_indeterminate;
            &&& ext.rp == product_of_factors(addrs.take(j + 1), z)
            &&& ext.fd == derivative_of_factors(addrs.take(j + 1), z)
            &&& ext.bc0 == horner(columns.0, addrs.len() - 1 - j, z)
            &&& ext.bc1 == horner(columns.1, addrs.len() - 1 - j, z)
        }),
    decreases i,
{
    let z = challenges.bezout_relation_indeterminate;
    let m = addrs.len() as int;
    let j = address_index(addrs, rows[i].ramp);
    lemma_extension_rows(rows, challenges);
    assert(addrs.contains(rows[i].ramp));
    lemma_address_index(addrs, rows[i].ramp);
    let upto = addrs.take(j + 1);
    assert(upto.drop_last() =~= addrs.take(j));
    assert(upto.last() == rows[i].ramp);
    if i == 0 {
        assert(addrs.take(0) =~= Seq::<u64>::empty());
        assert(extension(rows, challenges)[0] == first_ext_row(rows[0], challenges));
        assert(product_of_factors(upto, z) == x_mul(
            product_of_factors(upto.drop_last(), z),
            x_sub(z, x_lift(upto.last())),
        ));
        assert(derivative_of_factors(upto, z) == x_add(
            x_mul(x_sub(z, x_lift(upto.last())), derivative_of_factors(upto.drop_last(), z)),
            product_of_factors(upto.drop_last(), z),
        ));
        assert(product_of_factors(upto.drop_last(), z) == x_one());
        assert(derivative_of_factors(upto.drop_last(), z) == x_zero());
        assert(horner(columns.0, m - 1, z) == x_add(
            x_mul(horner(columns.0, m - 1 + 1, z), z),
            x_lift(columns.0[m - 1]),
        ));
        assert(horner(columns.1, m - 1, z) == x_add(
            x_mul(horner(columns.1, m - 1 + 1, z), z),
            x_lift(columns.1[m - 1]),
        ));
        let delta = x_sub(z, x_lift(rows[0].ramp));
        lemma_results_wf(z, x_lift(rows[0].ramp));
        lemma_mul_one(delta);
        lemma_mul_zero(delta);
        lemma_zero_is_neutral(x_one());
        lemma_mul_zero(z);
        assert(rows[0].bcpc0 == columns.0[m - 1] && rows[0].bcpc1 == columns.1[m - 1]);
        lemma_zero_is_neutral(x_lift(rows[0].bcpc0));
        lemma_zero_is_neutral(x_lift(rows[0].bcpc1));
    } else {
        lemma_running_columns(rows, addrs, columns, challenges, i - 1);
        let ext = extension(rows, challenges);
        let before = address_index(addrs, rows[i - 1].ramp);
        assert(addrs.contains(rows[i - 1].ramp));
        lemma_address_index(addrs, rows[i - 1].ramp);
        assert(rows[i - 1 + 1] == rows[i]);
        assert(ext[i - 1 + 1] == next_ext_row(rows[i - 1], ext[i - 1], rows[i], challenges));
        assert(j - before == 0 || j - before == 1);
        if j == before {
            assert(rows[i].ramp == rows[i - 1].ramp);
        } else {
            assert(rows[i].ramp != rows[i - 1].ramp);
            assert(addrs.take(j) == addrs.take(before + 1));
            assert(ramp_factor(rows[i], challenges) == x_sub(z, x_lift(upto.last())));
            assert(product_of_factors(upto, z) == x_mul(
                product_of_factors(upto.drop_last(), z),
                x_sub(z, x_lift(upto.last())),
            ));
            assert(derivative_of_factors(upto, z) == x_add(
                x_mul(x_sub(z, x_lift(upto.last())), derivative_of_factors(upto.drop_last(), z)),
                product_of_factors(upto.drop_last(), z),
            ));
            assert(rows[i].bcpc0 == columns.0[m - 1 - j]);
            assert(rows[i].bcpc1 == columns.1[m - 1 - j]);
            assert(horner(columns.0, m - 1 - j, z) == x_add(
                x_mul(horner(columns.0, m - 1 - j + 1, z), z),
                x_lift(columns.0[m - 1 - j]),
            ));
            assert(horner(columns.1, m - 1 - j, z) == x_add(
                x_mul(horner(columns.1, m - 1 - j + 1, z), z),
                x_lift(columns.1[m - 1 - j]),
            ));
        }
    }
}

/// The terminal constraint evaluates to zero on the last row of a staged
/// table and its extension, where the two columns of Bézout entries hold
/// the Bézout coefficients of the addresses, none of them cut off, and the
/// greatest common divisor is one.
pub proof fn law_terminal_constraint_vanishes_on_staged_table(
    rows: Seq<RamRow>,
    addrs: Seq<u64>,
    challenges: RamTableChallenges,
)
    requires
        staged(rows, addrs, bezout_columns(addrs)),
        canonical_coefficients(addrs),
        canonical_coefficients(bezout_of(addrs).1),
        canonical_coefficients(bezout_of(addrs).2),
        bezout_fault_of(addrs) is None,
        bezout_of(addrs).2.len() <= addrs.len(),
        bezout_identity_of(addrs),
        challenges.wf(),
    ensures
        terminal_constraints(extension(rows, challenges)[rows.len() - 1]).len() == 1,
        terminal_constraints(extension(rows, challenges)[rows.len() - 1])[0] == x_zero(),
{
    let z = challenges.bezout_relation_indeterminate;
    let m = addrs.len();
    let (gcd, u, v) = bezout_of(addrs);
    let columns = bezout_columns(addrs);
    let last = rows.len() - 1;
    let ext = extension(rows, challenges)[last];
    let p = roots_polynomial(addrs);
    assert(canonical_coefficients(columns.0));
    assert(canonical_coefficients(columns.1));
    lemma_running_columns(rows, addrs, columns, challenges, last);
    assert(addrs.take(m as int) =~= addrs);
    lemma_horner_resized(u, m, z, 0);
    lemma_horner_resized(v, m, z, 0);
    lemma_value_of_roots_polynomial(addrs, z);
    assert(bezout_identity_at(p, formal_derivative(p), gcd, u, v, z));
    // the value of the constant one
    assert(gcd == seq![1u64]);
    assert(horner(gcd, 1, z) == x_zero());
    lemma_mul_zero(z);
    lemma_zero_is_neutral(x_one());
    assert(value_at(gcd, z) == x_one());
    lemma_sub_self(x_one());
}

/// Among distinct values, a value has the same place in the whole as in
/// the part without the last value, unless it is the last value.
pub proof fn lemma_index_in_front(addrs: Seq<u64>, address: u64)
    requires
        distinct(addrs),
        addrs.len() > 0,
        addrs.drop_last().contains(address),
    ensures
        address_index(addrs, address) == address_index(addrs.drop_last(), address),
        address_index(addrs, address) < addrs.len() - 1,
{
    let front = addrs.drop_last();
    let k = address_index(front, address);
    assert(0 <= k < front.len() && front[k] == address);
    assert(addrs[k] == address);
    lemma_index_of_distinct(addrs, k);
}

/// The blocks of distinct addresses, none of them empty, go through the
/// addresses in their order.
pub proof fn lemma_blocks_are_staged(trace: Seq<ProcessorRow>, addrs: Seq<u64>)
    requires
        distinct(addrs),
        addrs.len() > 0,
        forall|j: int| 0 <= j < addrs.len() ==> block(trace, #[trigger] addrs[j]).len() > 0,
    ensures
        ({
            let rows = blocks(trace, addrs);
            &&& rows.len() > 0
            &&& forall|i: int| 0 <= i < rows.len() ==> addrs.contains((#[trigger] rows[i]).ramp)
            &&& address_index(addrs, rows[0].ramp) == 0
            &&& forall|i: int|
                0 <= i < rows.len() - 1 ==> {
                    let step = address_index(addrs, (#[trigger] rows[i + 1]).ramp)
                        - address_index(addrs, rows[i].ramp);
                    step == 0 || step == 1
                }
            &&& address_index(addrs, rows[rows.len() - 1].ramp) == addrs.len() - 1
        }),
    decreases addrs.len(),
{
    let front = addrs.drop_last();
    let a = addrs.last();
    let head = blocks(trace, front);
    let tail = block(trace, a);
    let rows = blocks(trace, addrs);
    let top = addrs.len() - 1;
    assert(rows == head + tail);
    assert(tail.len() > 0) by {
        assert(addrs[top] == a);
    }
    lemma_blocks_rows(trace, addrs);
    lemma_blocks_rows(trace, front);
    lemma_block_rows(trace, a);
    lemma_index_of_distinct(addrs, top);
    assert forall|i: int| head.len() <= i < rows.len() implies address_index(
        addrs,
        (#[trigger] rows[i]).ramp,
    ) == top by {
        assert(rows[i] == tail[i - head.len()]);
    }
    assert forall|i: int| 0 <= i < head.len() implies address_index(
        addrs,
        (#[trigger] rows[i]).ramp,
    ) == address_index(front, head[i].ramp) && address_index(addrs, rows[i].ramp) < top by {
        assert(rows[i] == head[i]);
        lemma_index_in_front(addrs, head[i].ramp);
    }
    if front.len() > 0 {
        assert forall|j: int| 0 <= j < front.len() implies block(
            trace,
            #[trigger] front[j],
        ).len() > 0 by {
            assert(front[j] == addrs[j]);
        }
        lemma_blocks_are_staged(trace, front);
        assert forall|i: int| 0 <= i < rows.len() - 1 implies ({
            let step = address_index(addrs, (#[trigger] rows[i + 1]).ramp) - address_index(
                addrs,
                rows[i].ramp,
            );
            step == 0 || step == 1
        }) by {
            if i + 1 < head.len() {
                assert(head[i + 1] == rows[i + 1]);
            } else if i + 1 == head.len() {
                assert(rows[i] == head[head.len() - 1]);
            }
        }
    } else {
        assert(head =~= Seq::<ProcessorRow>::empty());
    }
}

/// The rows of a filled table go through the addresses of the trace in
/// the order of their first access.
pub proof fn law_filled_table_is_staged(
    trace: Seq<ProcessorRow>,
    before: Seq<RamRow>,
    after: Seq<RamRow>,
)
    requires
        0 < trace.len(),
        is_filled(trace, before, after),
    ensures
        staged(
            after.take(trace.len() as int),
            addresses(trace),
            bezout_columns(addresses(trace)),
        ),
{
    let addrs = addresses(trace);
    let laid = layout(trace);
    let rows = after.take(trace.len() as int);
    lemma_addresses(trace);
    lemma_layout_is_permutation(trace);
    assert(addrs.contains(trace[0].ramp));
    assert forall|j: int| 0 <= j < addrs.len() implies block(trace, #[trigger] addrs[j]).len()
        > 0 by {
        let i = choose|i: int| 0 <= i < trace.len() && trace[i].ramp == addrs[j];
        lemma_block_is_not_empty(trace, addrs[j], i);
    }
    lemma_blocks_are_staged(trace, addrs);
    assert forall|i: int| 0 <= i < rows.len() implies (#[trigger] rows[i]).access() == laid[i]
        && rows[i].bcpc0 == entry_for(bezout_columns(addrs).0, addrs, laid[i].ramp)
        && rows[i].bcpc1 == entry_for(bezout_columns(addrs).1, addrs, laid[i].ramp) by {
        assert(rows[i] == after[i]);
    }
    assert forall|i: int| 0 <= i < rows.len() - 1 implies ({
        let step = address_index(addrs, (#[trigger] rows[i + 1]).ramp) - address_index(
            addrs,
            rows[i].ramp,
        );
        step == 0 || step == 1
    }) by {
        assert(rows[i].access() == laid[i]);
        assert(rows[i + 1].access() == laid[i + 1]);
    }
    assert(rows[0].access() == laid[0]);
    assert(rows[rows.len() - 1].access() == laid[laid.len() - 1]);
    assert forall|i: int| 0 <= i < rows.len() implies addrs.contains((#[trigger] rows[i]).ramp) by {
        assert(rows[i].access() == laid[i]);
    }
}

/// Padding keeps the stages: the rows of the padded table go through the
/// same addresses in the same order as the real rows of the table.
pub proof fn law_padding_keeps_stages(
    before: Seq<RamRow>,
    n: int,
    r: int,
    after: Seq<RamRow>,
    addrs: Seq<u64>,
    columns: (Seq<u64>, Seq<u64>),
)
    requires
        0 < n <= before.len(),
        is_max_clock_row(before, n, r),
        is_padded(before, n, r, after),
        staged(before.take(n), addrs, columns),
    ensures
        staged(after, addrs, columns),
{
    let filled = before.take(n);
    let gap = before.len() - n;
    let end = r + gap;
    let patch = after[end].clk_di;
    assert forall|i: int| 0 <= i < after.len() implies ({
        let from = if i < r {
            i
        } else if i <= end {
            r
        } else {
            i - gap
        };
        &&& (#[trigger] after[i]).ramp == filled[from].ramp
        &&& after[i].bcpc0 == filled[from].bcpc0
        &&& after[i].bcpc1 == filled[from].bcpc1
    }) by {
        assert(after[i] == padded_row(before, n, r, i, patch));
    }
    assert forall|i: int| 0 <= i < after.len() implies {
        &&& addrs.contains((#[trigger] after[i]).ramp)
        &&& after[i].bcpc0 == entry_for(columns.0, addrs, after[i].ramp)
        &&& after[i].bcpc1 == entry_for(columns.1, addrs, after[i].ramp)
    } by {
        let from = if i < r {
            i
        } else if i <= end {
            r
        } else {
            i - gap
        };
        assert(addrs.contains(filled[from].ramp));
    }
    assert forall|i: int| 0 <= i < after.len() - 1 implies ({
        let step = address_index(addrs, (#[trigger] after[i + 1]).ramp) - address_index(
            addrs,
            after[i].ramp,
        );
        step == 0 || step == 1
    }) by {
        if i + 1 <= r {
            assert(filled[i + 1].ramp == after[i + 1].ramp);
            assert(filled[i].ramp == after[i].ramp);
        } else if i < end {
            assert(after[i].ramp == filled[r].ramp);
            assert(after[i + 1].ramp == filled[r].ramp);
        } else if i == end {
            assert(after[i].ramp == filled[r].ramp);
            assert(after[i + 1].ramp == filled[r + 1].ramp);
        } else {
            assert(after[i].ramp == filled[i - gap].ramp);
            assert(after[i + 1].ramp == filled[i - gap + 1].ramp);
        }
    }
    assert(after[0].ramp == filled[0].ramp);
    assert(after[after.len() - 1].ramp == filled[n - 1].ramp);
}

/// The terminal constraint evaluates to zero on the last row of a table
/// that is filled from a trace, padded and extended, where the second
/// Bézout coefficient has no more terms than there are addresses.
pub proof fn law_built_table_satisfies_terminal_constraint(
    trace: Seq<ProcessorRow>,
    blank: Seq<RamRow>,
    filled: Seq<RamRow>,
    padded: Seq<RamRow>,
    challenges: RamTableChallenges,
)
    requires
        0 < trace.len(),
        trace_wf(trace),
        is_filled(trace, blank, filled),
        bezout_fault_of(addresses(trace)) is None,
        bezout_identity_of(addresses(trace)),
        canonical_coefficients(bezout_of(addresses(trace)).1),
        canonical_coefficients(bezout_of(addresses(trace)).2),
        bezout_of(addresses(trace)).2.len() <= addresses(trace).len(),
        has_max_clock_row(filled, trace.len() as int),
        is_padded(
            filled,
            trace.len() as int,
            max_clock_row(filled, trace.len() as int),
            padded,
        ),
        challenges.wf(),
    ensures
        terminal_constraints(extension(padded, challenges)[padded.len() - 1])[0] == x_zero(),
{
    let n = trace.len() as int;
    let addrs = addresses(trace);
    lemma_addresses(trace);
    assert forall|j: int| 0 <= j < addrs.len() implies #[trigger] addrs[j] < P by {
        let i = choose|i: int| 0 <= i < trace.len() && trace[i].ramp == addrs[j];
        assert(trace[i].wf());
    }
    law_filled_table_is_staged(trace, blank, filled);
    law_padding_keeps_stages(
        filled,
        n,
        max_clock_row(filled, n),
        padded,
        addrs,
        bezout_columns(addrs),
    );
    law_terminal_constraint_vanishes_on_staged_table(padded, addrs, challenges);
}

} // verus!
