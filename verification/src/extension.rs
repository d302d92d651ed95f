//! The extension columns of the RAM table: running products and sums over
//! the extension field that condense the whole table into its last row.

use crate::challenges::RamTableChallenges;
use crate::field::{b_sub, bfe_sub, x_add, x_lift, x_mul, x_one, x_sub, XWord};
use crate::ram_table::{rows_wf, RamRow, RamTable};
use vstd::prelude::*;

verus! {

/// The extension columns of one row of the RAM table.
#[derive(Clone, Copy, Debug, PartialEq, Eq, Structural)]
pub struct ExtRamRow {
    /// The running product of the linear factors of the addresses seen.
    pub rp: XWord,
    /// The formal derivative of that running product.
    pub fd: XWord,
    /// The first Bézout coefficient, evaluated as far as its stored
    /// coefficients were seen.
    pub bc0: XWord,
    /// The second Bézout coefficient, evaluated likewise.
    pub bc1: XWord,
    /// The running product of all clock jump differences.
    pub rpcjd: XWord,
    /// The running product of the permutation argument with the processor
    /// table.
    pub rppa: XWord,
}

impl ExtRamRow {
    /// Whether all six columns are well-formed extension field elements.
    pub open spec fn wf(self) -> bool {
        &&& self.rp.wf()
        &&& self.fd.wf()
        &&& self.bc0.wf()
        &&& self.bc1.wf()
        &&& self.rpcjd.wf()
        &&& self.rppa.wf()
    }
}

/// The extension columns of the RAM table, one row per row of the table.
#[derive(Clone, Debug)]
pub struct ExtRamTable {
    pub rows: Vec<ExtRamRow>,
}

/// Whether every row holds well-formed extension field elements.
pub open spec fn ext_rows_wf(rows: Seq<ExtRamRow>) -> bool {
    forall|i: int| 0 <= i < rows.len() ==> (#[trigger] rows[i]).wf()
}

/// The value with which a permutation argument's running product starts.
pub open spec fn perm_arg_initial() -> XWord {
    x_one()
}

/// The clock, the address and the value of a row in one scalar: their sum,
/// each weighted with its challenge.
pub open spec fn compressed_row(row: RamRow, challenges: RamTableChallenges) -> XWord {
    x_add(
        x_add(
            x_mul(x_lift(row.clk), challenges.clk_weight),
            x_mul(x_lift(row.ramp), challenges.ramp_weight),
        ),
        x_mul(x_lift(row.ramv), challenges.ramv_weight),
    )
}

/// The factor that a row contributes to the permutation argument with the
/// processor table.
pub open spec fn perm_arg_factor(row: RamRow, challenges: RamTableChallenges) -> XWord {
    x_sub(challenges.processor_perm_indeterminate, compressed_row(row, challenges))
}

/// The linear factor of a row's address at the Bézout challenge.
pub open spec fn ramp_factor(row: RamRow, challenges: RamTableChallenges) -> XWord {
    x_sub(challenges.bezout_relation_indeterminate, x_lift(row.ramp))
}

/// The extension columns of the first row of a table.
pub open spec fn first_ext_row(row: RamRow, challenges: RamTableChallenges) -> ExtRamRow {
    ExtRamRow {
        rp: ramp_factor(row, challenges),
        fd: x_one(),
        bc0: x_lift(row.bcpc0),
        bc1: x_lift(row.bcpc1),
        rpcjd: perm_arg_initial(),
        rppa: x_mul(perm_arg_initial(), perm_arg_factor(row, challenges)),
    }
}

/// The extension columns of a row, from the row before it and that row's
/// extension columns.
///
/// Where the address changes, the running product takes up the linear
/// factor of the new address, its derivative follows the product rule, and
/// the two Bézout coefficients take up their next stored coefficients by
/// Horner's rule. Where the address stays and the clock does not advance by
/// exactly one, the clock jump difference is taken up in its running
/// product. The permutation argument takes up every row.
pub open spec fn next_ext_row(
    previous: RamRow,
    previous_ext: ExtRamRow,
    row: RamRow,
    challenges: RamTableChallenges,
) -> ExtRamRow {
    let changed = previous.ramp != row.ramp;
    let indeterminate = challenges.bezout_relation_indeterminate;
    let factor = ramp_factor(row, challenges);
    let jump = x_lift(b_sub(row.clk, previous.clk));
    ExtRamRow {
        rp: if changed {
            x_mul(previous_ext.rp, factor)
        } else {
            previous_ext.rp
        },
        fd: if changed {
            x_add(x_mul(factor, previous_ext.fd), previous_ext.rp)
        } else {
            previous_ext.fd
        },
        bc0: if changed {
            x_add(x_mul(previous_ext.bc0, indeterminate), x_lift(row.bcpc0))
        } else {
            previous_ext.bc0
        },
        bc1: if changed {
            x_add(x_mul(previous_ext.bc1, indeterminate), x_lift(row.bcpc1))
        } else {
            previous_ext.bc1
        },
        rpcjd: if !changed && jump != x_one() {
            x_mul(
                previous_ext.rpcjd,
                x_sub(challenges.all_clock_jump_differences_multi_perm_indeterminate, jump),
            )
        } else {
            previous_ext.rpcjd
        },
        rppa: x_mul(previous_ext.rppa, perm_arg_factor(row, challenges)),
    }
}

/// The extension columns of a whole table.
pub open spec fn extension(rows: Seq<RamRow>, challenges: RamTableChallenges) -> Seq<ExtRamRow>
    decreases rows.len(),
{
    if rows.len() == 0 {
        Seq::empty()
    } else if rows.len() == 1 {
        seq![first_ext_row(rows[0], challenges)]
    } else {
        let earlier = extension(rows.drop_last(), challenges);
        earlier.push(
            next_ext_row(rows[rows.len() - 2], earlier.last(), rows[rows.len() - 1], challenges),
        )
    }
}

/// The extension has one row per row of the table; its first row is that of
/// the table's first row, and every later row follows from the row before.
pub proof fn lemma_extension_rows(rows: Seq<RamRow>, challenges: RamTableChallenges)
    ensures
        extension(rows, challenges).len() == rows.len(),
        rows.len() > 0 ==> extension(rows, challenges)[0] == first_ext_row(rows[0], challenges),
        forall|i: int|
            0 <= i < rows.len() - 1 ==> #[trigger] extension(rows, challenges)[i + 1]
                == next_ext_row(rows[i], extension(rows, challenges)[i], rows[i + 1], challenges),
    decreases rows.len(),
{
    if rows.len() > 1 {
        let shorter = rows.drop_last();
        lemma_extension_rows(shorter, challenges);
        let earlier = extension(shorter, challenges);
        let all = extension(rows, challenges);
        assert forall|i: int| 0 <= i < rows.len() - 1 implies #[trigger] all[i + 1] == next_ext_row(
            rows[i],
            all[i],
            rows[i + 1],
            challenges,
        ) by {
            if i + 1 < shorter.len() {
                assert(all[i + 1] == earlier[i + 1]);
                assert(all[i] == earlier[i]);
                assert(shorter[i] == rows[i] && shorter[i + 1] == rows[i + 1]);
            }
        }
    }
}

/// The compression of a row into one scalar.
pub fn compress_row(row: &RamRow, challenges: &RamTableChallenges) -> (c: XWord)
    requires
        row.wf(),
        challenges.wf(),
    ensures
        c == compressed_row(*row, *challenges),
        c.wf(),
{
    let clk = XWord::lift(row.clk).times(challenges.clk_weight);
    let ramp = XWord::lift(row.ramp).times(challenges.ramp_weight);
    let ramv = XWord::lift(row.ramv).times(challenges.ramv_weight);
    clk.plus(ramp).plus(ramv)
}

/// The extension columns of the first row of a table.
pub fn extend_first_row(row: &RamRow, challenges: &RamTableChallenges) -> (ext: ExtRamRow)
    requires
        row.wf(),
        challenges.wf(),
    ensures
        ext == first_ext_row(*row, *challenges),
        ext.wf(),
{
    let factor = challenges.processor_perm_indeterminate.minus(compress_row(row, challenges));
    ExtRamRow {
        rp: challenges.bezout_relation_indeterminate.minus(XWord::lift(row.ramp)),
        fd: XWord::one(),
        bc0: XWord::lift(row.bcpc0),
        bc1: XWord::lift(row.bcpc1),
        rpcjd: XWord::one(),
        rppa: XWord::one().times(factor),
    }
}

/// The extension columns of a row, from the row before it and that row's
/// extension columns.
pub fn extend_row(
    previous: &RamRow,
    previous_ext: &ExtRamRow,
    row: &RamRow,
    challenges: &RamTableChallenges,
) -> (ext: ExtRamRow)
    requires
        previous.wf(),
        previous_ext.wf(),
        row.wf(),
        challenges.wf(),
    ensures
        ext == next_ext_row(*previous, *previous_ext, *row, *challenges),
        ext.wf(),
{
    let indeterminate = challenges.bezout_relation_indeterminate;
    let mut ext = *previous_ext;
    if previous.ramp != row.ramp {
        let factor = indeterminate.minus(XWord::lift(row.ramp));
        ext.fd = factor.times(previous_ext.fd).plus(previous_ext.rp);
        ext.rp = previous_ext.rp.times(factor);
        ext.bc0 = previous_ext.bc0.times(indeterminate).plus(XWord::lift(row.bcpc0));
        ext.bc1 = previous_ext.bc1.times(indeterminate).plus(XWord::lift(row.bcpc1));
    } else {
        let jump = bfe_sub(row.clk, previous.clk);
        if jump != 1 {
            ext.rpcjd = previous_ext.rpcjd.times(
                challenges.all_clock_jump_differences_multi_perm_indeterminate.minus(
                    XWord::lift(jump),
                ),
            );
        }
    }
    let factor = challenges.processor_perm_indeterminate.minus(compress_row(row, challenges));
    ext.rppa = previous_ext.rppa.times(factor);
    ext
}

impl RamTable {
    /// The extension columns of the table for the given challenges.
    pub fn extend(&self, challenges: &RamTableChallenges) -> (ext: ExtRamTable)
        requires
            rows_wf(self.rows@),
            challenges.wf(),
        ensures
            ext.rows@ == extension(self.rows@, *challenges),
            ext.rows.len() == self.rows.len(),
            ext_rows_wf(ext.rows@),
    {
        let mut rows: Vec<ExtRamRow> = Vec::new();
        let mut i: usize = 0;
        assert(self.rows@.take(0) =~= Seq::empty());
        while i < self.rows.len()
            invariant
                i <= self.rows.len(),
                rows_wf(self.rows@),
                challenges.wf(),
                rows@ == extension(self.rows@.take(i as int), *challenges),
                rows.len() == i,
                ext_rows_wf(rows@),
            decreases self.rows.len() - i,
        {
            proof {
                assert(self.rows@.take(i + 1).drop_last() =~= self.rows@.take(i as int));
                assert(self.rows@[i as int].wf());
            }
            let ext = if i == 0 {
                extend_first_row(&self.rows[i], challenges)
            } else {
                assert(self.rows@[i - 1].wf());
                assert(rows@[i - 1].wf());
                extend_row(&self.rows[i - 1], &rows[i - 1], &self.rows[i], challenges)
            };
            proof {
                if i == 0 {
                    assert(rows@.push(ext) =~= seq![first_ext_row(self.rows@[0], *challenges)]);
                }
            }
            rows.push(ext);
            i += 1;
        }
        proof {
            assert(self.rows@.take(self.rows.len() as int) =~= self.rows@);
        }
        ExtRamTable { rows }
    }
}

} // verus!
