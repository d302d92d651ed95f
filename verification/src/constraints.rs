//! The polynomial relations that a correct table satisfies, as circuits
//! over the columns of one row or of two neighbouring rows.

use crate::challenges::{RamTableChallengeId, RamTableChallenges};
use crate::extension::{compressed_row, ExtRamRow, ExtRamTable};
use crate::field::{
    b_sub, is_inverse_or_zero, x_add, x_lift, x_mul, x_one, x_sub, x_zero, XWord, P,
};
use crate::vanishing::law_clock_jump_relation;
use crate::ram_table::RamRow;
use vstd::prelude::*;

verus! {

/// The base columns of the RAM table.
#[derive(Clone, Copy, Debug, PartialEq, Eq, Hash, Structural)]
pub enum RamBaseTableColumn {
    CLK,
    RAMP,
    RAMV,
    InverseOfRampDifference,
    BezoutCoefficientPolynomialCoefficient0,
    BezoutCoefficientPolynomialCoefficient1,
    InverseOfClkDiffMinusOne,
}

/// The extension columns of the RAM table.
#[derive(Clone, Copy, Debug, PartialEq, Eq, Hash, Structural)]
pub enum RamExtTableColumn {
    RunningProductOfRAMP,
    FormalDerivative,
    BezoutCoefficient0,
    BezoutCoefficient1,
    AllClockJumpDifferencesPermArg,
    RunningProductPermArg,
}

impl RamRow {
    /// The entry of the row in the given column.
    pub open spec fn column(self, column: RamBaseTableColumn) -> u64 {
        match column {
            RamBaseTableColumn::CLK => self.clk,
            RamBaseTableColumn::RAMP => self.ramp,
            RamBaseTableColumn::RAMV => self.ramv,
            RamBaseTableColumn::InverseOfRampDifference => self.iord,
            RamBaseTableColumn::BezoutCoefficientPolynomialCoefficient0 => self.bcpc0,
            RamBaseTableColumn::BezoutCoefficientPolynomialCoefficient1 => self.bcpc1,
            RamBaseTableColumn::InverseOfClkDiffMinusOne => self.clk_di,
        }
    }

    /// The entry of the row in the given column.
    pub fn get(&self, column: RamBaseTableColumn) -> (entry: u64)
        ensures
            entry == self.column(column),
            self.wf() ==> entry < P,
    {
        match column {
            RamBaseTableColumn::CLK => self.clk,
            RamBaseTableColumn::RAMP => self.ramp,
            RamBaseTableColumn::RAMV => self.ramv,
            RamBaseTableColumn::InverseOfRampDifference => self.iord,
            RamBaseTableColumn::BezoutCoefficientPolynomialCoefficient0 => self.bcpc0,
            RamBaseTableColumn::BezoutCoefficientPolynomialCoefficient1 => self.bcpc1,
            RamBaseTableColumn::InverseOfClkDiffMinusOne => self.clk_di,
        }
    }
}

impl ExtRamRow {
    /// The entry of the row in the given column.
    pub open spec fn column(self, column: RamExtTableColumn) -> XWord {
        match column {
            RamExtTableColumn::RunningProductOfRAMP => self.rp,
            RamExtTableColumn::FormalDerivative => self.fd,
            RamExtTableColumn::BezoutCoefficient0 => self.bc0,
            RamExtTableColumn::BezoutCoefficient1 => self.bc1,
            RamExtTableColumn::AllClockJumpDifferencesPermArg => self.rpcjd,
            RamExtTableColumn::RunningProductPermArg => self.rppa,
        }
    }

    /// The entry of the row in the given column.
    pub fn get(&self, column: RamExtTableColumn) -> (entry: XWord)
        ensures
            entry == self.column(column),
            self.wf() ==> entry.wf(),
    {
        match column {
            RamExtTableColumn::RunningProductOfRAMP => self.rp,
            RamExtTableColumn::FormalDerivative => self.fd,
            RamExtTableColumn::BezoutCoefficient0 => self.bc0,
            RamExtTableColumn::BezoutCoefficient1 => self.bc1,
            RamExtTableColumn::AllClockJumpDifferencesPermArg => self.rpcjd,
            RamExtTableColumn::RunningProductPermArg => self.rppa,
        }
    }
}

/// A row of the table with its extension columns, and the row after it
/// with its own. A relation on a single row reads the first two only.
#[derive(Clone, Copy, Debug, PartialEq, Eq, Structural)]
pub struct RowPair {
    pub current: RamRow,
    pub current_ext: ExtRamRow,
    pub next: RamRow,
    pub next_ext: ExtRamRow,
}

impl RowPair {
    /// Whether all four rows hold well-formed field elements.
    pub open spec fn wf(self) -> bool {
        &&& self.current.wf()
        &&& self.current_ext.wf()
        &&& self.next.wf()
        &&& self.next_ext.wf()
    }
}

/// A polynomial in the columns of a row pair and in the challenges.
#[derive(Debug, PartialEq, Eq)]
pub enum ConstraintCircuit {
    /// A constant of the base field.
    Constant(u64),
    /// One of the challenges.
    Challenge(RamTableChallengeId),
    /// A base column of the current row.
    BaseRow(RamBaseTableColumn),
    /// An extension column of the current row.
    ExtRow(RamExtTableColumn),
    /// A base column of the next row.
    NextBaseRow(RamBaseTableColumn),
    /// An extension column of the next row.
    NextExtRow(RamExtTableColumn),
    /// The sum of two polynomials.
    Sum(Box<ConstraintCircuit>, Box<ConstraintCircuit>),
    /// The difference of two polynomials.
    Difference(Box<ConstraintCircuit>, Box<ConstraintCircuit>),
    /// The product of two polynomials.
    Product(Box<ConstraintCircuit>, Box<ConstraintCircuit>),
}

impl ConstraintCircuit {
    /// Whether every constant of the circuit is a canonical field element.
    pub open spec fn wf(self) -> bool
        decreases self,
    {
        match self {
            ConstraintCircuit::Constant(c) => c < P,
            ConstraintCircuit::Sum(a, b) => a.wf() && b.wf(),
            ConstraintCircuit::Difference(a, b) => a.wf() && b.wf(),
            ConstraintCircuit::Product(a, b) => a.wf() && b.wf(),
            _ => true,
        }
    }

    /// Whether the circuit reads no column of the next row.
    pub open spec fn single_row(self) -> bool
        decreases self,
    {
        match self {
            ConstraintCircuit::NextBaseRow(_) => false,
            ConstraintCircuit::NextExtRow(_) => false,
            ConstraintCircuit::Sum(a, b) => a.single_row() && b.single_row(),
            ConstraintCircuit::Difference(a, b) => a.single_row() && b.single_row(),
            ConstraintCircuit::Product(a, b) => a.single_row() && b.single_row(),
            _ => true,
        }
    }

    /// The value of the polynomial on a row pair and a set of challenges.
    pub open spec fn value(self, rows: RowPair, challenges: RamTableChallenges) -> XWord
        decreases self,
    {
        match self {
            ConstraintCircuit::Constant(c) => x_lift(c),
            ConstraintCircuit::Challenge(id) => challenges.challenge(id),
            ConstraintCircuit::BaseRow(column) => x_lift(rows.current.column(column)),
            ConstraintCircuit::ExtRow(column) => rows.current_ext.column(column),
            ConstraintCircuit::NextBaseRow(column) => x_lift(rows.next.column(column)),
            ConstraintCircuit::NextExtRow(column) => rows.next_ext.column(column),
            ConstraintCircuit::Sum(a, b) => x_add(
                a.value(rows, challenges),
                b.value(rows, challenges),
            ),
            ConstraintCircuit::Difference(a, b) => x_sub(
                a.value(rows, challenges),
                b.value(rows, challenges),
            ),
            ConstraintCircuit::Product(a, b) => x_mul(
                a.value(rows, challenges),
                b.value(rows, challenges),
            ),
        }
    }

    /// Evaluates the polynomial on a row pair and a set of challenges.
    pub fn evaluate(&self, rows: &RowPair, challenges: &RamTableChallenges) -> (v: XWord)
        requires
            self.wf(),
            rows.wf(),
            challenges.wf(),
        ensures
            v == self.value(*rows, *challenges),
            v.wf(),
        decreases self,
    {
        match self {
            ConstraintCircuit::Constant(c) => XWord::lift(*c),
            ConstraintCircuit::Challenge(id) => challenges.get_challenge(*id),
            ConstraintCircuit::BaseRow(column) => XWord::lift(rows.current.get(*column)),
            ConstraintCircuit::ExtRow(column) => rows.current_ext.get(*column),
            ConstraintCircuit::NextBaseRow(column) => XWord::lift(rows.next.get(*column)),
            ConstraintCircuit::NextExtRow(column) => rows.next_ext.get(*column),
            ConstraintCircuit::Sum(a, b) => a.evaluate(rows, challenges).plus(
                b.evaluate(rows, challenges),
            ),
            ConstraintCircuit::Difference(a, b) => a.evaluate(rows, challenges).minus(
                b.evaluate(rows, challenges),
            ),
            ConstraintCircuit::Product(a, b) => a.evaluate(rows, challenges).times(
                b.evaluate(rows, challenges),
            ),
        }
    }

    /// A copy of the circuit.
    pub fn duplicate(&self) -> (c: ConstraintCircuit)
        ensures
            c == *self,
        decreases self,
    {
        match self {
            ConstraintCircuit::Constant(c) => ConstraintCircuit::Constant(*c),
            ConstraintCircuit::Challenge(id) => ConstraintCircuit::Challenge(*id),
            ConstraintCircuit::BaseRow(column) => ConstraintCircuit::BaseRow(*column),
            ConstraintCircuit::ExtRow(column) => ConstraintCircuit::ExtRow(*column),
            ConstraintCircuit::NextBaseRow(column) => ConstraintCircuit::NextBaseRow(*column),
            ConstraintCircuit::NextExtRow(column) => ConstraintCircuit::NextExtRow(*column),
            ConstraintCircuit::Sum(a, b) => ConstraintCircuit::Sum(
                Box::new(a.duplicate()),
                Box::new(b.duplicate()),
            ),
            ConstraintCircuit::Difference(a, b) => ConstraintCircuit::Difference(
                Box::new(a.duplicate()),
                Box::new(b.duplicate()),
            ),
            ConstraintCircuit::Product(a, b) => ConstraintCircuit::Product(
                Box::new(a.duplicate()),
                Box::new(b.duplicate()),
            ),
        }
    }

    /// The sum of this polynomial and another.
    pub fn plus(self, other: ConstraintCircuit) -> (c: ConstraintCircuit)
        ensures
            c == ConstraintCircuit::Sum(Box::new(self), Box::new(other)),
            c.wf() == (self.wf() && other.wf()),
            c.single_row() == (self.single_row() && other.single_row()),
            forall|rows: RowPair, challenges: RamTableChallenges| #[trigger]
                c.value(rows, challenges) == x_add(
                    self.value(rows, challenges),
                    other.value(rows, challenges),
                ),
    {
        ConstraintCircuit::Sum(Box::new(self), Box::new(other))
    }

    /// The difference of this polynomial and another.
    pub fn minus(self, other: ConstraintCircuit) -> (c: ConstraintCircuit)
        ensures
            c == ConstraintCircuit::Difference(Box::new(self), Box::new(other)),
            c.wf() == (self.wf() && other.wf()),
            c.single_row() == (self.single_row() && other.single_row()),
            forall|rows: RowPair, challenges: RamTableChallenges| #[trigger]
                c.value(rows, challenges) == x_sub(
                    self.value(rows, challenges),
                    other.value(rows, challenges),
                ),
    {
        ConstraintCircuit::Difference(Box::new(self), Box::new(other))
    }

    /// The product of this polynomial and another.
    pub fn times(self, other: ConstraintCircuit) -> (c: ConstraintCircuit)
        ensures
            c == ConstraintCircuit::Product(Box::new(self), Box::new(other)),
            c.wf() == (self.wf() && other.wf()),
            c.single_row() == (self.single_row() && other.single_row()),
            forall|rows: RowPair, challenges: RamTableChallenges| #[trigger]
                c.value(rows, challenges) == x_mul(
                    self.value(rows, challenges),
                    other.value(rows, challenges),
                ),
    {
        ConstraintCircuit::Product(Box::new(self), Box::new(other))
    }
}

/// The values of a list of circuits on a row pair and a set of challenges.
pub open spec fn values_of(
    circuits: Seq<ConstraintCircuit>,
    rows: RowPair,
    challenges: RamTableChallenges,
) -> Seq<XWord> {
    Seq::new(circuits.len(), |k: int| circuits[k].value(rows, challenges))
}

/// Whether every circuit of a list is well-formed.
pub open spec fn circuits_wf(circuits: Seq<ConstraintCircuit>) -> bool {
    forall|k: int| 0 <= k < circuits.len() ==> (#[trigger] circuits[k]).wf()
}

/// Whether no circuit of a list reads a column of the next row.
pub open spec fn circuits_single_row(circuits: Seq<ConstraintCircuit>) -> bool {
    forall|k: int| 0 <= k < circuits.len() ==> (#[trigger] circuits[k]).single_row()
}

/// What must vanish on the first row of a table: the clock, the address,
/// the value, the first stored Bézout coefficient and the first running
/// Bézout coefficient are zero; the second running Bézout coefficient is
/// the stored one; the formal derivative is one; the running product of
/// the addresses is the Bézout challenge; the running product of the
/// permutation argument is its challenge.
pub open spec fn initial_constraints(
    row: RamRow,
    ext: ExtRamRow,
    challenges: RamTableChallenges,
) -> Seq<XWord> {
    seq![
        x_lift(row.clk),
        x_lift(row.ramp),
        x_lift(row.ramv),
        x_lift(row.bcpc0),
        ext.bc0,
        x_sub(ext.bc1, x_lift(row.bcpc1)),
        x_sub(ext.fd, x_one()),
        x_sub(ext.rp, challenges.bezout_relation_indeterminate),
        x_sub(ext.rppa, challenges.processor_perm_indeterminate),
    ]
}

/// What must vanish on the last row of a table: the Bézout relation
/// between the running product of the addresses and its derivative.
pub open spec fn terminal_constraints(ext: ExtRamRow) -> Seq<XWord> {
    seq![x_sub(x_add(x_mul(ext.bc0, ext.rp), x_mul(ext.bc1, ext.fd)), x_one())]
}

/// The difference between the next address and the current one.
pub open spec fn ramp_diff(rows: RowPair) -> XWord {
    x_sub(x_lift(rows.next.ramp), x_lift(rows.current.ramp))
}

/// The address difference times the address inverse: one where the address
/// changes, zero where it stays.
pub open spec fn ramp_changes(rows: RowPair) -> XWord {
    x_mul(ramp_diff(rows), x_lift(rows.current.iord))
}

/// One less `ramp_changes`: zero where the address changes, one where it
/// stays.
pub open spec fn ramp_stays(rows: RowPair) -> XWord {
    x_sub(x_one(), ramp_changes(rows))
}

/// The difference between the next clock and the current one, less one.
pub open spec fn clk_diff_minus_one(rows: RowPair) -> XWord {
    x_sub(x_sub(x_lift(rows.next.clk), x_lift(rows.current.clk)), x_one())
}

/// The clock inverse times `clk_diff_minus_one`, less one: zero where the
/// clock inverse inverts that difference.
pub open spec fn clk_di_is_inverse(rows: RowPair) -> XWord {
    x_sub(x_mul(x_lift(rows.current.clk_di), clk_diff_minus_one(rows)), x_one())
}

/// The address inverse is zero or inverts the address difference.
pub open spec fn iord_is_0_or_inverse_of_ramp_diff(rows: RowPair) -> XWord {
    x_mul(x_lift(rows.current.iord), x_sub(ramp_changes(rows), x_one()))
}

/// The address difference is zero or is inverted by the address inverse.
pub open spec fn ramp_diff_is_0_or_inverse_of_iord(rows: RowPair) -> XWord {
    x_mul(ramp_diff(rows), x_sub(ramp_changes(rows), x_one()))
}

/// The address stays or the next value is zero.
pub open spec fn ramp_stays_or_ramv_becomes_0(rows: RowPair) -> XWord {
    x_mul(ramp_diff(rows), x_lift(rows.next.ramv))
}

/// The address changes, or the value stays, or the clock advances by one.
pub open spec fn ramp_changes_or_ramv_stays_or_clk_increases_by_1(rows: RowPair) -> XWord {
    x_mul(
        x_mul(
            x_sub(ramp_changes(rows), x_one()),
            x_sub(x_lift(rows.next.ramv), x_lift(rows.current.ramv)),
        ),
        x_sub(x_lift(rows.next.clk), x_add(x_lift(rows.current.clk), x_one())),
    )
}

/// The first stored Bézout coefficient only changes with the address.
pub open spec fn bcpc0_only_changes_with_ramp(rows: RowPair) -> XWord {
    x_mul(ramp_stays(rows), x_sub(x_lift(rows.next.bcpc0), x_lift(rows.current.bcpc0)))
}

/// The second stored Bézout coefficient only changes with the address.
pub open spec fn bcpc1_only_changes_with_ramp(rows: RowPair) -> XWord {
    x_mul(ramp_stays(rows), x_sub(x_lift(rows.next.bcpc1), x_lift(rows.current.bcpc1)))
}

/// The running product of the addresses takes up the factor of a new
/// address and is kept where the address stays.
pub open spec fn rp_updates_correctly(rows: RowPair, challenges: RamTableChallenges) -> XWord {
    x_add(
        x_mul(
            ramp_diff(rows),
            x_sub(
                rows.next_ext.rp,
                x_mul(
                    rows.current_ext.rp,
                    x_sub(challenges.bezout_relation_indeterminate, x_lift(rows.next.ramp)),
                ),
            ),
        ),
        x_mul(ramp_stays(rows), x_sub(rows.next_ext.rp, rows.current_ext.rp)),
    )
}

/// The formal derivative follows the product rule where the address
/// changes and is kept where the address stays.
pub open spec fn fd_updates_correctly(rows: RowPair, challenges: RamTableChallenges) -> XWord {
    x_add(
        x_mul(
            ramp_diff(rows),
            x_sub(
                x_sub(rows.next_ext.fd, rows.current_ext.rp),
                x_mul(
                    x_sub(challenges.bezout_relation_indeterminate, x_lift(rows.next.ramp)),
                    rows.current_ext.fd,
                ),
            ),
        ),
        x_mul(ramp_stays(rows), x_sub(rows.next_ext.fd, rows.current_ext.fd)),
    )
}

/// The first running Bézout coefficient takes up the next stored
/// coefficient where the address changes and is kept where it stays.
pub open spec fn bc0_updates_correctly(rows: RowPair, challenges: RamTableChallenges) -> XWord {
    x_add(
        x_mul(
            ramp_diff(rows),
            x_sub(
                x_sub(
                    rows.next_ext.bc0,
                    x_mul(challenges.bezout_relation_indeterminate, rows.current_ext.bc0),
                ),
                x_lift(rows.next.bcpc0),
            ),
        ),
        x_mul(ramp_stays(rows), x_sub(rows.next_ext.bc0, rows.current_ext.bc0)),
    )
}

/// The second running Bézout coefficient takes up the next stored
/// coefficient where the address changes and is kept where it stays.
pub open spec fn bc1_updates_correctly(rows: RowPair, challenges: RamTableChallenges) -> XWord {
    x_add(
        x_mul(
            ramp_diff(rows),
            x_sub(
                x_sub(
                    rows.next_ext.bc1,
                    x_mul(challenges.bezout_relation_indeterminate, rows.current_ext.bc1),
                ),
                x_lift(rows.next.bcpc1),
            ),
        ),
        x_mul(ramp_stays(rows), x_sub(rows.next_ext.bc1, rows.current_ext.bc1)),
    )
}

/// The clock inverse is zero or inverts the clock difference less one.
pub open spec fn clk_di_is_0_or_inverse_of_clk_diff(rows: RowPair) -> XWord {
    x_mul(x_lift(rows.current.clk_di), clk_di_is_inverse(rows))
}

/// The clock difference less one is zero or is inverted by the clock
/// inverse.
pub open spec fn clk_diff_is_0_or_inverse_of_clk_di(rows: RowPair) -> XWord {
    x_mul(clk_diff_minus_one(rows), clk_di_is_inverse(rows))
}

/// The selector of a clock jump: `ramp_stays` times the clock difference
/// less one times the clock inverse. With fitting inverse columns it is one
/// where the address stays and the clock does not advance by exactly one,
/// and zero everywhere else.
pub open spec fn clock_jumps_here(rows: RowPair) -> XWord {
    x_mul(ramp_stays(rows), x_mul(clk_diff_minus_one(rows), x_lift(rows.current.clk_di)))
}

/// The running product of the clock jump differences takes up the clock
/// difference where the selector of a clock jump is one, and is kept where
/// it is zero.
pub open spec fn rpcjd_updates_correctly(rows: RowPair, challenges: RamTableChallenges) -> XWord {
    let jump = clock_jumps_here(rows);
    let clk_diff = x_sub(x_lift(rows.next.clk), x_lift(rows.current.clk));
    x_add(
        x_mul(x_sub(x_one(), jump), x_sub(rows.next_ext.rpcjd, rows.current_ext.rpcjd)),
        x_mul(
            jump,
            x_sub(
                rows.next_ext.rpcjd,
                x_mul(
                    rows.current_ext.rpcjd,
                    x_sub(
                        challenges.all_clock_jump_differences_multi_perm_indeterminate,
                        clk_diff,
                    ),
                ),
            ),
        ),
    )
}

/// Whether the two inverse columns of the current row fit the next row.
pub open spec fn is_inverse_or_zero_pair(rows: RowPair) -> bool {
    &&& is_inverse_or_zero(
        b_sub(rows.next.ramp, rows.current.ramp),
        rows.current.iord,
    )
    &&& is_inverse_or_zero(
        b_sub(b_sub(rows.next.clk, rows.current.clk), 1),
        rows.current.clk_di,
    )
}

/// The old running product of the clock jump differences times the
/// difference between the challenge and the clock difference.
pub open spec fn clock_jump_update(rows: RowPair, challenges: RamTableChallenges) -> XWord {
    x_mul(
        rows.current_ext.rpcjd,
        x_sub(
            challenges.all_clock_jump_differences_multi_perm_indeterminate,
            x_lift(b_sub(rows.next.clk, rows.current.clk)),
        ),
    )
}

/// What the value of the relation on the running product of the clock
/// jump differences says of a row pair: where the clock advances by
/// exactly one or the address changes, the value is zero exactly where the
/// product is kept; where the address stays and the clock does not advance
/// by exactly one, it is zero exactly where the product has taken up the
/// clock difference.
pub open spec fn clock_jump_relation_reads(
    value: XWord,
    rows: RowPair,
    challenges: RamTableChallenges,
) -> bool {
    &&& rows.current.ramp != rows.next.ramp || b_sub(rows.next.clk, rows.current.clk) == 1 ==> (
    (value == x_zero()) <==> (rows.next_ext.rpcjd == rows.current_ext.rpcjd))
    &&& rows.current.ramp == rows.next.ramp && b_sub(rows.next.clk, rows.current.clk) != 1 ==> (
    (value == x_zero()) <==> (rows.next_ext.rpcjd == clock_jump_update(rows, challenges)))
}

/// The running product of the permutation argument takes up the next row.
pub open spec fn rppa_updates_correctly(rows: RowPair, challenges: RamTableChallenges) -> XWord {
    x_sub(
        rows.next_ext.rppa,
        x_mul(
            rows.current_ext.rppa,
            x_sub(challenges.processor_perm_indeterminate, compressed_row(rows.next, challenges)),
        ),
    )
}

/// What must vanish on every pair of neighbouring rows: fourteen
/// relations, each of which has its own description.
pub open spec fn transition_constraints(rows: RowPair, challenges: RamTableChallenges) -> Seq<
    XWord,
> {
    seq![
        iord_is_0_or_inverse_of_ramp_diff(rows),
        ramp_diff_is_0_or_inverse_of_iord(rows),
        ramp_stays_or_ramv_becomes_0(rows),
        ramp_changes_or_ramv_stays_or_clk_increases_by_1(rows),
        bcpc0_only_changes_with_ramp(rows),
        bcpc1_only_changes_with_ramp(rows),
        rp_updates_correctly(rows, challenges),
        fd_updates_correctly(rows, challenges),
        bc0_updates_correctly(rows, challenges),
        bc1_updates_correctly(rows, challenges),
        clk_di_is_0_or_inverse_of_clk_diff(rows),
        clk_diff_is_0_or_inverse_of_clk_di(rows),
        rpcjd_updates_correctly(rows, challenges),
        rppa_updates_correctly(rows, challenges),
    ]
}

/// The circuit that reads a base column of the current row.
fn base(column: RamBaseTableColumn) -> (c: ConstraintCircuit)
    ensures
        c == ConstraintCircuit::BaseRow(column),
{
    ConstraintCircuit::BaseRow(column)
}

/// The circuit that reads an extension column of the current row.
fn ext(column: RamExtTableColumn) -> (c: ConstraintCircuit)
    ensures
        c == ConstraintCircuit::ExtRow(column),
{
    ConstraintCircuit::ExtRow(column)
}

/// The circuit that reads a base column of the next row.
fn next_base(column: RamBaseTableColumn) -> (c: ConstraintCircuit)
    ensures
        c == ConstraintCircuit::NextBaseRow(column),
{
    ConstraintCircuit::NextBaseRow(column)
}

/// The circuit that reads an extension column of the next row.
fn next_ext(column: RamExtTableColumn) -> (c: ConstraintCircuit)
    ensures
        c == ConstraintCircuit::NextExtRow(column),
{
    ConstraintCircuit::NextExtRow(column)
}

/// The circuit that reads a challenge.
fn challenge(id: RamTableChallengeId) -> (c: ConstraintCircuit)
    ensures
        c == ConstraintCircuit::Challenge(id),
{
    ConstraintCircuit::Challenge(id)
}

/// The constant one.
fn one() -> (c: ConstraintCircuit)
    ensures
        c == ConstraintCircuit::Constant(1),
{
    ConstraintCircuit::Constant(1)
}

impl ExtRamTable {
    /// The relations that hold on the first row of a table.
    pub fn ext_initial_constraints_as_circuits() -> (circuits: Vec<ConstraintCircuit>)
        ensures
            circuits.len() == 9,
            circuits_wf(circuits@),
            circuits_single_row(circuits@),
            forall|rows: RowPair, challenges: RamTableChallenges| #[trigger]
                values_of(circuits@, rows, challenges) == initial_constraints(
                    rows.current,
                    rows.current_ext,
                    challenges,
                ),
    {
        let clk_is_0 = base(RamBaseTableColumn::CLK);
        let ramp_is_0 = base(RamBaseTableColumn::RAMP);
        let ramv_is_0 = base(RamBaseTableColumn::RAMV);
        let bcpc0_is_0 = base(RamBaseTableColumn::BezoutCoefficientPolynomialCoefficient0);
        let bc0_is_0 = ext(RamExtTableColumn::BezoutCoefficient0);
        let bc1_is_bcpc1 = ext(RamExtTableColumn::BezoutCoefficient1).minus(
            base(RamBaseTableColumn::BezoutCoefficientPolynomialCoefficient1),
        );
        let fd_is_1 = ext(RamExtTableColumn::FormalDerivative).minus(one());
        let rp_is_initialized = ext(RamExtTableColumn::RunningProductOfRAMP).minus(
            challenge(RamTableChallengeId::BezoutRelationIndeterminate),
        );
        let rppa_is_initialized = ext(RamExtTableColumn::RunningProductPermArg).minus(
            challenge(RamTableChallengeId::ProcessorPermIndeterminate),
        );
        let mut circuits: Vec<ConstraintCircuit> = Vec::new();
        circuits.push(clk_is_0);
        circuits.push(ramp_is_0);
        circuits.push(ramv_is_0);
        circuits.push(bcpc0_is_0);
        circuits.push(bc0_is_0);
        circuits.push(bc1_is_bcpc1);
        circuits.push(fd_is_1);
        circuits.push(rp_is_initialized);
        circuits.push(rppa_is_initialized);
        proof {
            assert forall|rows: RowPair, challenges: RamTableChallenges| #[trigger]
                values_of(circuits@, rows, challenges) == initial_constraints(
                    rows.current,
                    rows.current_ext,
                    challenges,
                ) by {
                assert(values_of(circuits@, rows, challenges) =~= initial_constraints(
                    rows.current,
                    rows.current_ext,
                    challenges,
                ));
            }
        }
        circuits
    }

    /// The relations that hold on every single row of a table: there are
    /// none.
    pub fn ext_consistency_constraints_as_circuits() -> (circuits: Vec<ConstraintCircuit>)
        ensures
            circuits.len() == 0,
    {
        Vec::new()
    }

    /// The relations that hold between every two neighbouring rows of a
    /// table.
    pub fn ext_transition_constraints_as_circuits() -> (circuits: Vec<ConstraintCircuit>)
        ensures
            circuits.len() == 14,
            circuits_wf(circuits@),
            forall|rows: RowPair, challenges: RamTableChallenges| #[trigger]
                values_of(circuits@, rows, challenges) == transition_constraints(rows, challenges),
            forall|rows: RowPair, challenges: RamTableChallenges|
                rows.wf() && challenges.wf() && is_inverse_or_zero_pair(rows)
                    ==> clock_jump_relation_reads(
                    #[trigger] circuits@[12].value(rows, challenges),
                    rows,
                    challenges,
                ),
    {
        let mut circuits: Vec<ConstraintCircuit> = Vec::new();
        circuits.push(circuit_iord_is_0_or_inverse_of_ramp_diff());
        circuits.push(circuit_ramp_diff_is_0_or_inverse_of_iord());
        circuits.push(circuit_ramp_stays_or_ramv_becomes_0());
        circuits.push(circuit_ramp_changes_or_ramv_stays_or_clk_increases_by_1());
        circuits.push(circuit_bcpc0_only_changes_with_ramp());
        circuits.push(circuit_bcpc1_only_changes_with_ramp());
        circuits.push(circuit_rp_updates_correctly());
        circuits.push(circuit_fd_updates_correctly());
        circuits.push(circuit_bc0_updates_correctly());
        circuits.push(circuit_bc1_updates_correctly());
        circuits.push(circuit_clk_di_is_0_or_inverse_of_clk_diff());
        circuits.push(circuit_clk_diff_is_0_or_inverse_of_clk_di());
        circuits.push(circuit_rpcjd_updates_correctly());
        circuits.push(circuit_rppa_updates_correctly());
        proof {
            assert forall|rows: RowPair, challenges: RamTableChallenges| #[trigger]
                values_of(circuits@, rows, challenges) == transition_constraints(
                    rows,
                    challenges,
                ) by {
                let values = values_of(circuits@, rows, challenges);
                let wanted = transition_constraints(rows, challenges);
                assert(values.len() == 14 && wanted.len() == 14);
                assert(values[0] == circuits@[0].value(rows, challenges));
                assert(values[1] == circuits@[1].value(rows, challenges));
                assert(values[2] == circuits@[2].value(rows, challenges));
                assert(values[3] == circuits@[3].value(rows, challenges));
                assert(values[4] == circuits@[4].value(rows, challenges));
                assert(values[5] == circuits@[5].value(rows, challenges));
                assert(values[6] == circuits@[6].value(rows, challenges));
                assert(values[7] == circuits@[7].value(rows, challenges));
                assert(values[8] == circuits@[8].value(rows, challenges));
                assert(values[9] == circuits@[9].value(rows, challenges));
                assert(values[10] == circuits@[10].value(rows, challenges));
                assert(values[11] == circuits@[11].value(rows, challenges));
                assert(values[12] == circuits@[12].value(rows, challenges));
                assert(values[13] == circuits@[13].value(rows, challenges));
                assert(values =~= wanted);
            }
            assert forall|rows: RowPair, challenges: RamTableChallenges|
                rows.wf() && challenges.wf() && is_inverse_or_zero_pair(
                    rows,
                ) implies clock_jump_relation_reads(
                #[trigger] circuits@[12].value(rows, challenges),
                rows,
                challenges,
            ) by {
                law_clock_jump_relation(rows, challenges);
            }
        }
        circuits
    }

    /// The relation that holds on the last row of a table.
    pub fn ext_terminal_constraints_as_circuits() -> (circuits: Vec<ConstraintCircuit>)
        ensures
            circuits.len() == 1,
            circuits_wf(circuits@),
            circuits_single_row(circuits@),
            forall|rows: RowPair, challenges: RamTableChallenges| #[trigger]
                values_of(circuits@, rows, challenges) == terminal_constraints(rows.current_ext),
    {
        let rp = ext(RamExtTableColumn::RunningProductOfRAMP);
        let fd = ext(RamExtTableColumn::FormalDerivative);
        let bc0 = ext(RamExtTableColumn::BezoutCoefficient0);
        let bc1 = ext(RamExtTableColumn::BezoutCoefficient1);
        let bezout_relation_holds = bc0.times(rp).plus(bc1.times(fd)).minus(one());
        let mut circuits: Vec<ConstraintCircuit> = Vec::new();
        circuits.push(bezout_relation_holds);
        proof {
            assert forall|rows: RowPair, challenges: RamTableChallenges| #[trigger]
                values_of(circuits@, rows, challenges) == terminal_constraints(
                    rows.current_ext,
                ) by {
                assert(values_of(circuits@, rows, challenges) =~= terminal_constraints(
                    rows.current_ext,
                ));
            }
        }
        circuits
    }
}

/// The circuit of `ramp_diff`.
fn circuit_ramp_diff() -> (c: ConstraintCircuit)
    ensures
        c.wf(),
        forall|rows: RowPair, challenges: RamTableChallenges| #[trigger]
            c.value(rows, challenges) == ramp_diff(rows),
{
    next_base(RamBaseTableColumn::RAMP).minus(base(RamBaseTableColumn::RAMP))
}

/// The circuit of `ramp_changes`.
fn circuit_ramp_changes() -> (c: ConstraintCircuit)
    ensures
        c.wf(),
        forall|rows: RowPair, challenges: RamTableChallenges| #[trigger]
            c.value(rows, challenges) == ramp_changes(rows),
{
    circuit_ramp_diff().times(base(RamBaseTableColumn::InverseOfRampDifference))
}

/// The circuit of `ramp_stays`.
fn circuit_ramp_stays() -> (c: ConstraintCircuit)
    ensures
        c.wf(),
        forall|rows: RowPair, challenges: RamTableChallenges| #[trigger]
            c.value(rows, challenges) == ramp_stays(rows),
{
    one().minus(circuit_ramp_changes())
}

/// The circuit of `clk_diff_minus_one`.
fn circuit_clk_diff_minus_one() -> (c: ConstraintCircuit)
    ensures
        c.wf(),
        forall|rows: RowPair, challenges: RamTableChallenges| #[trigger]
            c.value(rows, challenges) == clk_diff_minus_one(rows),
{
    next_base(RamBaseTableColumn::CLK).minus(base(RamBaseTableColumn::CLK)).minus(one())
}

/// The circuit of `clk_di_is_inverse`.
fn circuit_clk_di_is_inverse() -> (c: ConstraintCircuit)
    ensures
        c.wf(),
        forall|rows: RowPair, challenges: RamTableChallenges| #[trigger]
            c.value(rows, challenges) == clk_di_is_inverse(rows),
{
    base(RamBaseTableColumn::InverseOfClkDiffMinusOne).times(circuit_clk_diff_minus_one()).minus(one())
}

/// The circuit of `iord_is_0_or_inverse_of_ramp_diff`.
fn circuit_iord_is_0_or_inverse_of_ramp_diff() -> (c: ConstraintCircuit)
    ensures
        c.wf(),
        forall|rows: RowPair, challenges: RamTableChallenges| #[trigger]
            c.value(rows, challenges) == iord_is_0_or_inverse_of_ramp_diff(rows),
{
    base(RamBaseTableColumn::InverseOfRampDifference).times(circuit_ramp_changes().minus(one()))
}

/// The circuit of `ramp_diff_is_0_or_inverse_of_iord`.
fn circuit_ramp_diff_is_0_or_inverse_of_iord() -> (c: ConstraintCircuit)
    ensures
        c.wf(),
        forall|rows: RowPair, challenges: RamTableChallenges| #[trigger]
            c.value(rows, challenges) == ramp_diff_is_0_or_inverse_of_iord(rows),
{
    circuit_ramp_diff().times(circuit_ramp_changes().minus(one()))
}

/// The circuit of `ramp_stays_or_ramv_becomes_0`.
fn circuit_ramp_stays_or_ramv_becomes_0() -> (c: ConstraintCircuit)
    ensures
        c.wf(),
        forall|rows: RowPair, challenges: RamTableChallenges| #[trigger]
            c.value(rows, challenges) == ramp_stays_or_ramv_becomes_0(rows),
{
    circuit_ramp_diff().times(next_base(RamBaseTableColumn::RAMV))
}

/// The circuit of `ramp_changes_or_ramv_stays_or_clk_increases_by_1`.
fn circuit_ramp_changes_or_ramv_stays_or_clk_increases_by_1() -> (c: ConstraintCircuit)
    ensures
        c.wf(),
        forall|rows: RowPair, challenges: RamTableChallenges| #[trigger]
            c.value(rows, challenges) == ramp_changes_or_ramv_stays_or_clk_increases_by_1(rows),
{
    let ramv_diff = next_base(RamBaseTableColumn::RAMV).minus(base(RamBaseTableColumn::RAMV));
    let clk_step = next_base(RamBaseTableColumn::CLK).minus(base(RamBaseTableColumn::CLK).plus(one()));
    circuit_ramp_changes().minus(one()).times(ramv_diff).times(clk_step)
}

/// The circuit of `bcpc0_only_changes_with_ramp`.
fn circuit_bcpc0_only_changes_with_ramp() -> (c: ConstraintCircuit)
    ensures
        c.wf(),
        forall|rows: RowPair, challenges: RamTableChallenges| #[trigger]
            c.value(rows, challenges) == bcpc0_only_changes_with_ramp(rows),
{
    let column = RamBaseTableColumn::BezoutCoefficientPolynomialCoefficient0;
    circuit_ramp_stays().times(next_base(column).minus(base(column)))
}

/// The circuit of `bcpc1_only_changes_with_ramp`.
fn circuit_bcpc1_only_changes_with_ramp() -> (c: ConstraintCircuit)
    ensures
        c.wf(),
        forall|rows: RowPair, challenges: RamTableChallenges| #[trigger]
            c.value(rows, challenges) == bcpc1_only_changes_with_ramp(rows),
{
    let column = RamBaseTableColumn::BezoutCoefficientPolynomialCoefficient1;
    circuit_ramp_stays().times(next_base(column).minus(base(column)))
}

/// The circuit of `rp_updates_correctly`.
fn circuit_rp_updates_correctly() -> (c: ConstraintCircuit)
    ensures
        c.wf(),
        forall|rows: RowPair, challenges: RamTableChallenges| #[trigger]
            c.value(rows, challenges) == rp_updates_correctly(rows, challenges),
{
    let factor = challenge(RamTableChallengeId::BezoutRelationIndeterminate).minus(next_base(RamBaseTableColumn::RAMP));
    let column = RamExtTableColumn::RunningProductOfRAMP;
    let updated = next_ext(column).minus(ext(column).times(factor));
    let kept = next_ext(column).minus(ext(column));
    circuit_ramp_diff().times(updated).plus(circuit_ramp_stays().times(kept))
}

/// The circuit of `fd_updates_correctly`.
fn circuit_fd_updates_correctly() -> (c: ConstraintCircuit)
    ensures
        c.wf(),
        forall|rows: RowPair, challenges: RamTableChallenges| #[trigger]
            c.value(rows, challenges) == fd_updates_correctly(rows, challenges),
{
    let factor = challenge(RamTableChallengeId::BezoutRelationIndeterminate).minus(next_base(RamBaseTableColumn::RAMP));
    let column = RamExtTableColumn::FormalDerivative;
    let updated = next_ext(column).minus(ext(RamExtTableColumn::RunningProductOfRAMP)).minus(
        factor.times(ext(column)),
    );
    let kept = next_ext(column).minus(ext(column));
    circuit_ramp_diff().times(updated).plus(circuit_ramp_stays().times(kept))
}

/// The circuit of `bc0_updates_correctly`.
fn circuit_bc0_updates_correctly() -> (c: ConstraintCircuit)
    ensures
        c.wf(),
        forall|rows: RowPair, challenges: RamTableChallenges| #[trigger]
            c.value(rows, challenges) == bc0_updates_correctly(rows, challenges),
{
    let indeterminate = challenge(RamTableChallengeId::BezoutRelationIndeterminate);
    let column = RamExtTableColumn::BezoutCoefficient0;
    let stored = next_base(RamBaseTableColumn::BezoutCoefficientPolynomialCoefficient0);
    let updated = next_ext(column).minus(indeterminate.times(ext(column))).minus(stored);
    let kept = next_ext(column).minus(ext(column));
    circuit_ramp_diff().times(updated).plus(circuit_ramp_stays().times(kept))
}

/// The circuit of `bc1_updates_correctly`.
fn circuit_bc1_updates_correctly() -> (c: ConstraintCircuit)
    ensures
        c.wf(),
        forall|rows: RowPair, challenges: RamTableChallenges| #[trigger]
            c.value(rows, challenges) == bc1_updates_correctly(rows, challenges),
{
    let indeterminate = challenge(RamTableChallengeId::BezoutRelationIndeterminate);
    let column = RamExtTableColumn::BezoutCoefficient1;
    let stored = next_base(RamBaseTableColumn::BezoutCoefficientPolynomialCoefficient1);
    let updated = next_ext(column).minus(indeterminate.times(ext(column))).minus(stored);
    let kept = next_ext(column).minus(ext(column));
    circuit_ramp_diff().times(updated).plus(circuit_ramp_stays().times(kept))
}

/// The circuit of `clk_di_is_0_or_inverse_of_clk_diff`.
fn circuit_clk_di_is_0_or_inverse_of_clk_diff() -> (c: ConstraintCircuit)
    ensures
        c.wf(),
        forall|rows: RowPair, challenges: RamTableChallenges| #[trigger]
            c.value(rows, challenges) == clk_di_is_0_or_inverse_of_clk_diff(rows),
{
    base(RamBaseTableColumn::InverseOfClkDiffMinusOne).times(circuit_clk_di_is_inverse())
}

/// The circuit of `clk_diff_is_0_or_inverse_of_clk_di`.
fn circuit_clk_diff_is_0_or_inverse_of_clk_di() -> (c: ConstraintCircuit)
    ensures
        c.wf(),
        forall|rows: RowPair, challenges: RamTableChallenges| #[trigger]
            c.value(rows, challenges) == clk_diff_is_0_or_inverse_of_clk_di(rows),
{
    circuit_clk_diff_minus_one().times(circuit_clk_di_is_inverse())
}

/// The circuit of `clock_jumps_here`.
fn circuit_clock_jumps_here() -> (c: ConstraintCircuit)
    ensures
        c.wf(),
        forall|rows: RowPair, challenges: RamTableChallenges| #[trigger]
            c.value(rows, challenges) == clock_jumps_here(rows),
{
    let inverted = circuit_clk_diff_minus_one().times(
        base(RamBaseTableColumn::InverseOfClkDiffMinusOne),
    );
    circuit_ramp_stays().times(inverted)
}

/// The circuit of `rpcjd_updates_correctly`.
fn circuit_rpcjd_updates_correctly() -> (c: ConstraintCircuit)
    ensures
        c.wf(),
        forall|rows: RowPair, challenges: RamTableChallenges| #[trigger]
            c.value(rows, challenges) == rpcjd_updates_correctly(rows, challenges),
{
    let column = RamExtTableColumn::AllClockJumpDifferencesPermArg;
    let indeterminate = challenge(RamTableChallengeId::AllClockJumpDifferencesMultiPermIndeterminate);
    let clk_diff = next_base(RamBaseTableColumn::CLK).minus(base(RamBaseTableColumn::CLK));
    let kept = next_ext(column).minus(ext(column));
    let updated = next_ext(column).minus(ext(column).times(indeterminate.minus(clk_diff)));
    one().minus(circuit_clock_jumps_here()).times(kept).plus(
        circuit_clock_jumps_here().times(updated),
    )
}

/// The circuit of `rppa_updates_correctly`.
fn circuit_rppa_updates_correctly() -> (c: ConstraintCircuit)
    ensures
        c.wf(),
        forall|rows: RowPair, challenges: RamTableChallenges| #[trigger]
            c.value(rows, challenges) == rppa_updates_correctly(rows, challenges),
{
    let clk = next_base(RamBaseTableColumn::CLK).times(challenge(RamTableChallengeId::ClkWeight));
    let ramp = next_base(RamBaseTableColumn::RAMP).times(challenge(RamTableChallengeId::RampWeight));
    let ramv = next_base(RamBaseTableColumn::RAMV).times(challenge(RamTableChallengeId::RamvWeight));
    let compressed = clk.plus(ramp).plus(ramv);
    let column = RamExtTableColumn::RunningProductPermArg;
    let factor = challenge(RamTableChallengeId::ProcessorPermIndeterminate).minus(compressed);
    next_ext(column).minus(ext(column).times(factor))
}

} // verus!
