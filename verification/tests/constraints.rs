use triton_vm::challenges::{RamTableChallengeId, RamTableChallenges};
use triton_vm::constraints::{
    ConstraintCircuit, RamBaseTableColumn, RamExtTableColumn, RowPair,
};
use triton_vm::extension::{compress_row, extend_first_row, extend_row, ExtRamRow, ExtRamTable};
use triton_vm::field::XWord;
use triton_vm::ram_table::{RamRow, RamTable};
use triton_vm::trace::{AlgebraicExecutionTrace, ProcessorRow};

fn some_challenges() -> RamTableChallenges {
    RamTableChallenges {
        bezout_relation_indeterminate: XWord::new(2, 0, 0),
        processor_perm_indeterminate: XWord::new(3, 1, 0),
        clk_weight: XWord::new(5, 0, 0),
        ramv_weight: XWord::new(7, 0, 0),
        ramp_weight: XWord::new(11, 0, 0),
        all_clock_jump_differences_multi_perm_indeterminate: XWord::new(13, 0, 1),
    }
}

fn some_rows() -> RowPair {
    let ext = |k: u64| ExtRamRow {
        rp: XWord::new(k, 1, 0),
        fd: XWord::new(k + 1, 0, 0),
        bc0: XWord::new(k + 2, 0, 0),
        bc1: XWord::new(k + 3, 0, 0),
        rpcjd: XWord::new(k + 4, 0, 0),
        rppa: XWord::new(k + 5, 0, 0),
    };
    RowPair {
        current: RamRow { clk: 1, ramp: 2, ramv: 3, iord: 4, bcpc0: 5, bcpc1: 6, clk_di: 7 },
        current_ext: ext(10),
        next: RamRow { clk: 21, ramp: 22, ramv: 23, iord: 24, bcpc0: 25, bcpc1: 26, clk_di: 27 },
        next_ext: ext(30),
    }
}

fn built(trace: Vec<ProcessorRow>, height: usize) -> RamTable {
    let n = trace.len();
    let aet = AlgebraicExecutionTrace { processor_matrix: trace, hash_matrix: vec![] };
    let mut table = RamTable::new(height);
    RamTable::fill_trace(&mut table, &aet).unwrap();
    RamTable::pad_trace(&mut table, n);
    table
}

fn transition_values(table: &RamTable, ch: &RamTableChallenges, i: usize) -> Vec<XWord> {
    let ext = table.extend(ch);
    let rows = RowPair {
        current: table.rows[i],
        current_ext: ext.rows[i],
        next: table.rows[i + 1],
        next_ext: ext.rows[i + 1],
    };
    ExtRamTable::ext_transition_constraints_as_circuits()
        .iter()
        .map(|c| c.evaluate(&rows, ch))
        .collect()
}

#[test]
fn challenges_by_name() {
    let ch = some_challenges();
    assert_eq!(ch.get_challenge(RamTableChallengeId::BezoutRelationIndeterminate), XWord::new(2, 0, 0));
    assert_eq!(ch.get_challenge(RamTableChallengeId::ProcessorPermIndeterminate), XWord::new(3, 1, 0));
    assert_eq!(ch.get_challenge(RamTableChallengeId::ClkWeight), XWord::new(5, 0, 0));
    assert_eq!(ch.get_challenge(RamTableChallengeId::RamvWeight), XWord::new(7, 0, 0));
    assert_eq!(ch.get_challenge(RamTableChallengeId::RampWeight), XWord::new(11, 0, 0));
    assert_eq!(
        ch.get_challenge(RamTableChallengeId::AllClockJumpDifferencesMultiPermIndeterminate),
        XWord::new(13, 0, 1)
    );
}

#[test]
fn challenges_are_numbered_in_order() {
    assert_eq!(RamTableChallengeId::COUNT, 6);
    assert_eq!(RamTableChallengeId::BezoutRelationIndeterminate.index(), 0);
    assert_eq!(RamTableChallengeId::ProcessorPermIndeterminate.index(), 1);
    assert_eq!(RamTableChallengeId::ClkWeight.index(), 2);
    assert_eq!(RamTableChallengeId::RamvWeight.index(), 3);
    assert_eq!(RamTableChallengeId::RampWeight.index(), 4);
    assert_eq!(RamTableChallengeId::AllClockJumpDifferencesMultiPermIndeterminate.index(), 5);
}

#[test]
fn columns_by_name() {
    let rows = some_rows();
    assert_eq!(rows.current.get(RamBaseTableColumn::CLK), 1);
    assert_eq!(rows.current.get(RamBaseTableColumn::RAMP), 2);
    assert_eq!(rows.current.get(RamBaseTableColumn::RAMV), 3);
    assert_eq!(rows.current.get(RamBaseTableColumn::InverseOfRampDifference), 4);
    assert_eq!(rows.current.get(RamBaseTableColumn::BezoutCoefficientPolynomialCoefficient0), 5);
    assert_eq!(rows.current.get(RamBaseTableColumn::BezoutCoefficientPolynomialCoefficient1), 6);
    assert_eq!(rows.current.get(RamBaseTableColumn::InverseOfClkDiffMinusOne), 7);
    assert_eq!(rows.next_ext.get(RamExtTableColumn::RunningProductOfRAMP), XWord::new(30, 1, 0));
    assert_eq!(rows.next_ext.get(RamExtTableColumn::FormalDerivative), XWord::new(31, 0, 0));
    assert_eq!(rows.next_ext.get(RamExtTableColumn::BezoutCoefficient0), XWord::new(32, 0, 0));
    assert_eq!(rows.next_ext.get(RamExtTableColumn::BezoutCoefficient1), XWord::new(33, 0, 0));
    assert_eq!(rows.next_ext.get(RamExtTableColumn::AllClockJumpDifferencesPermArg), XWord::new(34, 0, 0));
    assert_eq!(rows.next_ext.get(RamExtTableColumn::RunningProductPermArg), XWord::new(35, 0, 0));
}

#[test]
fn circuits_evaluate_their_leaves() {
    let rows = some_rows();
    let ch = some_challenges();
    assert_eq!(ConstraintCircuit::Constant(9).evaluate(&rows, &ch), XWord::new(9, 0, 0));
    assert_eq!(
        ConstraintCircuit::Challenge(RamTableChallengeId::ProcessorPermIndeterminate).evaluate(&rows, &ch),
        XWord::new(3, 1, 0)
    );
    assert_eq!(ConstraintCircuit::BaseRow(RamBaseTableColumn::RAMV).evaluate(&rows, &ch), XWord::new(3, 0, 0));
    assert_eq!(
        ConstraintCircuit::NextBaseRow(RamBaseTableColumn::RAMV).evaluate(&rows, &ch),
        XWord::new(23, 0, 0)
    );
    assert_eq!(
        ConstraintCircuit::ExtRow(RamExtTableColumn::RunningProductOfRAMP).evaluate(&rows, &ch),
        XWord::new(10, 1, 0)
    );
    assert_eq!(
        ConstraintCircuit::NextExtRow(RamExtTableColumn::RunningProductOfRAMP).evaluate(&rows, &ch),
        XWord::new(30, 1, 0)
    );
}

#[test]
fn circuits_evaluate_sums_differences_and_products() {
    let rows = some_rows();
    let ch = some_challenges();
    let clk = || ConstraintCircuit::BaseRow(RamBaseTableColumn::CLK);
    let next_clk = || ConstraintCircuit::NextBaseRow(RamBaseTableColumn::CLK);
    let rp = || ConstraintCircuit::ExtRow(RamExtTableColumn::RunningProductOfRAMP);
    assert_eq!(next_clk().plus(clk()).evaluate(&rows, &ch), XWord::new(22, 0, 0));
    assert_eq!(next_clk().minus(clk()).evaluate(&rows, &ch), XWord::new(20, 0, 0));
    assert_eq!(next_clk().times(rp()).evaluate(&rows, &ch), XWord::new(210, 21, 0));
    let nested = next_clk().minus(clk()).times(rp().plus(ConstraintCircuit::Constant(1)));
    assert_eq!(nested.evaluate(&rows, &ch), XWord::new(220, 20, 0));
}

#[test]
fn a_copy_of_a_circuit_is_equal_to_it() {
    let circuit = ConstraintCircuit::BaseRow(RamBaseTableColumn::CLK)
        .times(ConstraintCircuit::Constant(3))
        .minus(ConstraintCircuit::NextExtRow(RamExtTableColumn::FormalDerivative));
    assert_eq!(circuit.duplicate(), circuit);
    assert_eq!(
        circuit,
        ConstraintCircuit::Difference(
            Box::new(ConstraintCircuit::Product(
                Box::new(ConstraintCircuit::BaseRow(RamBaseTableColumn::CLK)),
                Box::new(ConstraintCircuit::Constant(3)),
            )),
            Box::new(ConstraintCircuit::NextExtRow(RamExtTableColumn::FormalDerivative)),
        )
    );
}

#[test]
fn terminal_constraint_by_the_formula() {
    let rows = some_rows();
    let ch = some_challenges();
    let terminal = ExtRamTable::ext_terminal_constraints_as_circuits();
    // bc0 * rp + bc1 * fd - 1 = 12 (10 + x) + 13 * 11 - 1
    assert_eq!(terminal[0].evaluate(&rows, &ch), XWord::new(262, 12, 0));
}

#[test]
fn initial_constraints_by_the_formula() {
    let rows = some_rows();
    let ch = some_challenges();
    let values: Vec<XWord> = ExtRamTable::ext_initial_constraints_as_circuits()
        .iter()
        .map(|c| c.evaluate(&rows, &ch))
        .collect();
    assert_eq!(
        values,
        vec![
            XWord::new(1, 0, 0),
            XWord::new(2, 0, 0),
            XWord::new(3, 0, 0),
            XWord::new(5, 0, 0),
            XWord::new(12, 0, 0),
            XWord::new(7, 0, 0),
            XWord::new(10, 0, 0),
            XWord::new(8, 1, 0),
            XWord::new(12, triton_vm::field::P - 1, 0),
        ]
    );
}

#[test]
fn transition_constraints_by_the_formula() {
    let rows = some_rows();
    let ch = some_challenges();
    let values: Vec<XWord> = ExtRamTable::ext_transition_constraints_as_circuits()
        .iter()
        .map(|c| c.evaluate(&rows, &ch))
        .collect();
    let lift = |v: u64| XWord::new(v, 0, 0);
    // ramp_diff = 20, ramp_changes = 80, clk_diff - 1 = 19, clk_di * 19 - 1 = 132
    assert_eq!(values[0], lift(4 * 79));
    assert_eq!(values[1], lift(20 * 79));
    assert_eq!(values[2], lift(20 * 23));
    assert_eq!(values[3], lift(79 * 20 * 19));
    assert_eq!(values[4], lift(1).minus(lift(80)).times(lift(20)));
    assert_eq!(values[5], lift(1).minus(lift(80)).times(lift(20)));
    assert_eq!(values[10], lift(7 * 132));
    assert_eq!(values[11], lift(19 * 132));
    let compressed = lift(21 * 5 + 22 * 11 + 23 * 7);
    assert_eq!(
        values[13],
        rows.next_ext.rppa.minus(rows.current_ext.rppa.times(ch.processor_perm_indeterminate.minus(compressed)))
    );
    // the selector of a clock jump is (1 - 80) * (19 * 7), the clock difference is 20
    let kept = rows.next_ext.rpcjd.minus(rows.current_ext.rpcjd);
    let indeterminate = ch.all_clock_jump_differences_multi_perm_indeterminate;
    let updated = rows.next_ext.rpcjd.minus(rows.current_ext.rpcjd.times(indeterminate.minus(lift(20))));
    let selector = lift(1).minus(lift(80)).times(lift(19 * 7));
    assert_eq!(
        values[12],
        lift(1).minus(selector).times(kept).plus(selector.times(updated))
    );
}

#[test]
fn rows_are_compressed_with_the_three_weights() {
    let row = RamRow { clk: 2, ramp: 3, ramv: 4, iord: 0, bcpc0: 0, bcpc1: 0, clk_di: 0 };
    assert_eq!(compress_row(&row, &some_challenges()), XWord::new(2 * 5 + 3 * 11 + 4 * 7, 0, 0));
}

#[test]
fn extension_of_a_row_where_the_address_stays() {
    let ch = some_challenges();
    let first = RamRow { clk: 0, ramp: 0, ramv: 0, iord: 0, bcpc0: 0, bcpc1: 1, clk_di: 0 };
    let ext = extend_first_row(&first, &ch);
    let second = RamRow { clk: 1, ..first };
    let same = extend_row(&first, &ext, &second, &ch);
    assert_eq!(same.rp, ext.rp);
    assert_eq!(same.fd, ext.fd);
    assert_eq!(same.bc0, ext.bc0);
    assert_eq!(same.bc1, ext.bc1);
    assert_eq!(same.rpcjd, ext.rpcjd);
    assert_eq!(same.rppa, ext.rppa.times(ch.processor_perm_indeterminate.minus(XWord::new(5, 0, 0))));
    let third = RamRow { clk: 5, ..first };
    let jumped = extend_row(&second, &same, &third, &ch);
    assert_eq!(
        jumped.rpcjd,
        ch.all_clock_jump_differences_multi_perm_indeterminate.minus(XWord::new(4, 0, 0))
    );
}

#[test]
fn all_relations_hold_where_the_address_changes() {
    let access = |clk, ramp, ramv| ProcessorRow { clk, ramp, ramv };
    let table = built(vec![access(0, 0, 0), access(1, 6, 0), access(2, 6, 9), access(3, 6, 9)], 4);
    let ch = some_challenges();
    for i in 0..3 {
        assert_eq!(transition_values(&table, &ch, i), vec![XWord::zero(); 14], "row {i}");
    }
}

#[test]
fn clock_jump_relation_holds_at_an_address_change_with_a_jump() {
    let access = |clk, ramp, ramv| ProcessorRow { clk, ramp, ramv };
    // Regrouped: (0,4,0), (2,4,0), (1,8,0): from clock 2 to clock 1 the address changes.
    let table = built(vec![access(0, 4, 0), access(1, 8, 0), access(2, 4, 0)], 3);
    let ch = some_challenges();
    assert_eq!(
        table.rows.iter().map(|r| (r.clk, r.ramp)).collect::<Vec<_>>(),
        vec![(0, 4), (2, 4), (1, 8)]
    );
    assert_eq!(transition_values(&table, &ch, 0)[12], XWord::zero());
    assert_eq!(transition_values(&table, &ch, 1)[12], XWord::zero());
}

#[test]
fn clock_jump_relation_tells_a_kept_product_from_an_updated_one() {
    let ch = some_challenges();
    let beta = ch.all_clock_jump_differences_multi_perm_indeterminate;
    let row = |clk, ramp| RamRow { clk, ramp, ramv: 0, iord: 0, bcpc0: 0, bcpc1: 1, clk_di: 0 };
    let first = row(0, 1);
    let ext = extend_first_row(&first, &ch);
    let relation = |next: RamRow, current: RamRow, rpcjd: XWord| {
        let next_ext = ExtRamRow { rpcjd, ..extend_row(&current, &ext, &next, &ch) };
        let rows = RowPair { current, current_ext: ext, next, next_ext };
        ExtRamTable::ext_transition_constraints_as_circuits()[12].evaluate(&rows, &ch)
    };
    // a unit clock step at the address one: zero exactly where the product is kept
    assert_eq!(relation(row(1, 1), first, ext.rpcjd), XWord::zero());
    assert_ne!(relation(row(1, 1), first, ext.rpcjd.times(beta.minus(XWord::lift(1)))), XWord::zero());
    // a clock step of three at the same address: zero exactly where the product is updated
    let inverse_of_two = (triton_vm::field::P + 1) / 2;
    let jumping = RamRow { clk_di: inverse_of_two, ..first };
    assert_eq!(
        relation(row(3, 1), jumping, ext.rpcjd.times(beta.minus(XWord::lift(3)))),
        XWord::zero()
    );
    assert_ne!(relation(row(3, 1), jumping, ext.rpcjd), XWord::zero());
}

#[test]
fn table_of_a_run_satisfies_its_constraints() {
    let access = |clk, ramp, ramv| ProcessorRow { clk, ramp, ramv };
    let trace = vec![
        access(0, 0, 0),
        access(1, 0, 0),
        access(2, 5, 0),
        access(3, 5, 4),
        access(4, 5, 4),
        access(5, 0, 0),
        access(6, 9, 0),
    ];
    let table = built(trace, 16);
    assert_eq!(
        table.rows.iter().map(|r| (r.clk, r.ramp, r.ramv)).collect::<Vec<_>>(),
        vec![
            (0, 0, 0),
            (1, 0, 0),
            (5, 0, 0),
            (2, 5, 0),
            (3, 5, 4),
            (4, 5, 4),
            (6, 9, 0),
            (7, 9, 0),
            (8, 9, 0),
            (9, 9, 0),
            (10, 9, 0),
            (11, 9, 0),
            (12, 9, 0),
            (13, 9, 0),
            (14, 9, 0),
            (15, 9, 0),
        ]
    );
    let ch = some_challenges();
    let ext = table.extend(&ch);
    for i in 0..15 {
        let values = transition_values(&table, &ch, i);
        for (k, value) in values.iter().enumerate() {
            assert_eq!(*value, XWord::zero(), "row {i}, relation {k}");
        }
    }
    let first = RowPair {
        current: table.rows[0],
        current_ext: ext.rows[0],
        next: table.rows[0],
        next_ext: ext.rows[0],
    };
    for circuit in ExtRamTable::ext_initial_constraints_as_circuits() {
        assert_eq!(circuit.evaluate(&first, &ch), XWord::zero());
    }
    let last = RowPair {
        current: table.rows[15],
        current_ext: ext.rows[15],
        next: table.rows[15],
        next_ext: ext.rows[15],
    };
    for circuit in ExtRamTable::ext_terminal_constraints_as_circuits() {
        assert_eq!(circuit.evaluate(&last, &ch), XWord::zero());
    }
}

#[test]
fn table_of_a_run_with_rows_moved_to_the_end() {
    let access = |clk, ramp, ramv| ProcessorRow { clk, ramp, ramv };
    let trace = vec![access(0, 0, 0), access(1, 3, 0), access(2, 3, 8), access(3, 0, 0)];
    let table = built(trace, 8);
    assert_eq!(
        table.rows.iter().map(|r| (r.clk, r.ramp, r.ramv)).collect::<Vec<_>>(),
        vec![(0, 0, 0), (3, 0, 0), (4, 0, 0), (5, 0, 0), (6, 0, 0), (7, 0, 0), (1, 3, 0), (2, 3, 8)]
    );
    let ch = some_challenges();
    let ext = table.extend(&ch);
    for i in 0..7 {
        let values = transition_values(&table, &ch, i);
        for (k, value) in values.iter().enumerate() {
            assert_eq!(*value, XWord::zero(), "row {i}, relation {k}");
        }
    }
    let last = RowPair {
        current: table.rows[7],
        current_ext: ext.rows[7],
        next: table.rows[7],
        next_ext: ext.rows[7],
    };
    for circuit in ExtRamTable::ext_terminal_constraints_as_circuits() {
        assert_eq!(circuit.evaluate(&last, &ch), XWord::zero());
    }
}
