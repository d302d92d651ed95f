use triton_vm::challenges::RamTableChallenges;
use triton_vm::constraints::{ConstraintCircuit, RowPair};
use triton_vm::extension::{ExtRamRow, ExtRamTable};
use triton_vm::field::{XWord, P};
use triton_vm::ram_table::{RamRow, RamTable};
use triton_vm::trace::{AlgebraicExecutionTrace, ProcessorRow};
use twenty_first::math::b_field_element::BFieldElement;
use twenty_first::math::traits::Inverse;

fn access(clk: u64, ramp: u64, ramv: u64) -> ProcessorRow {
    ProcessorRow { clk, ramp, ramv }
}

fn trace_of(rows: Vec<ProcessorRow>) -> AlgebraicExecutionTrace {
    AlgebraicExecutionTrace { processor_matrix: rows, hash_matrix: vec![] }
}

fn challenges() -> RamTableChallenges {
    RamTableChallenges {
        bezout_relation_indeterminate: XWord::new(11, 12, 13),
        processor_perm_indeterminate: XWord::new(21, 22, 23),
        clk_weight: XWord::new(31, 32, 33),
        ramv_weight: XWord::new(41, 42, 43),
        ramp_weight: XWord::new(51, 52, 53),
        all_clock_jump_differences_multi_perm_indeterminate: XWord::new(61, 62, 63),
    }
}

fn inverse(a: u64) -> u64 {
    BFieldElement::new(a).inverse_or_zero().value()
}

fn triples(table: &RamTable, n: usize) -> Vec<(u64, u64, u64)> {
    table.rows[..n].iter().map(|r| (r.clk, r.ramp, r.ramv)).collect()
}

fn pair(table: &RamTable, ext: &ExtRamTable, i: usize, j: usize) -> RowPair {
    RowPair {
        current: table.rows[i],
        current_ext: ext.rows[i],
        next: table.rows[j],
        next_ext: ext.rows[j],
    }
}

fn values(circuits: &[ConstraintCircuit], rows: &RowPair) -> Vec<XWord> {
    circuits.iter().map(|c| c.evaluate(rows, &challenges())).collect()
}

#[test]
fn two_blocks_are_built_from_three_accesses() {
    let aet = trace_of(vec![access(0, 5, 0), access(1, 5, 7), access(2, 9, 0)]);
    let mut table = RamTable::new(3);
    let jumps = RamTable::fill_trace(&mut table, &aet).unwrap();
    assert_eq!(triples(&table, 3), vec![(0, 5, 0), (1, 5, 7), (2, 9, 0)]);
    assert!(jumps.is_empty());
    assert_eq!(table.rows[0].iord, 0);
    assert_ne!(table.rows[1].iord, 0);
    assert_eq!(table.rows[1].iord, inverse(4));
    assert_eq!(table.rows[0].clk_di, 0);
    assert_eq!(table.rows[1].clk_di, 0);
    assert_eq!(table.rows[0].bcpc0, table.rows[1].bcpc0);
    assert_eq!(table.rows[0].bcpc1, table.rows[1].bcpc1);
    assert_ne!(
        (table.rows[1].bcpc0, table.rows[1].bcpc1),
        (table.rows[2].bcpc0, table.rows[2].bcpc1)
    );
}

#[test]
fn bezout_entries_of_two_addresses() {
    // (x - 5)(x - 9) = x^2 - 14x + 45 and its derivative 2x - 14 satisfy
    // u (x^2 - 14x + 45) + v (2x - 14) = 1 with u = -1/4 and v = (x - 7)/8.
    let aet = trace_of(vec![access(0, 5, 0), access(1, 5, 7), access(2, 9, 0)]);
    let mut table = RamTable::new(3);
    RamTable::fill_trace(&mut table, &aet).unwrap();
    let minus_quarter = (BFieldElement::new(0) - BFieldElement::new(4).inverse()).value();
    let eighth = inverse(8);
    let minus_seven_eighths =
        (BFieldElement::new(0) - BFieldElement::new(7) * BFieldElement::new(8).inverse()).value();
    assert_eq!(table.rows[0].bcpc0, 0);
    assert_eq!(table.rows[0].bcpc1, eighth);
    assert_eq!(table.rows[2].bcpc0, minus_quarter);
    assert_eq!(table.rows[2].bcpc1, minus_seven_eighths);
}

#[test]
fn terminal_constraint_vanishes_on_two_blocks() {
    let aet = trace_of(vec![access(0, 5, 0), access(1, 5, 7), access(2, 9, 0)]);
    let mut table = RamTable::new(3);
    RamTable::fill_trace(&mut table, &aet).unwrap();
    let ext = table.extend(&challenges());
    let terminal = ExtRamTable::ext_terminal_constraints_as_circuits();
    assert_eq!(terminal.len(), 1);
    assert_eq!(values(&terminal, &pair(&table, &ext, 2, 2)), vec![XWord::zero()]);
}

#[test]
fn single_access_has_constant_bezout_coefficients() {
    let aet = trace_of(vec![access(0, 0, 0)]);
    let mut table = RamTable::new(1);
    let jumps = RamTable::fill_trace(&mut table, &aet).unwrap();
    assert!(jumps.is_empty());
    assert_eq!(table.rows[0], RamRow { clk: 0, ramp: 0, ramv: 0, iord: 0, bcpc0: 0, bcpc1: 1, clk_di: 0 });
    let ext = table.extend(&challenges());
    assert_eq!(ext.rows.len(), 1);
    assert_eq!(ext.rows[0].rp, challenges().bezout_relation_indeterminate);
    assert_eq!(ext.rows[0].fd, XWord::one());
    assert_eq!(ext.rows[0].bc0, XWord::zero());
    assert_eq!(ext.rows[0].bc1, XWord::one());
    let terminal = ExtRamTable::ext_terminal_constraints_as_circuits();
    assert_eq!(values(&terminal, &pair(&table, &ext, 0, 0)), vec![XWord::zero()]);
    let initial = ExtRamTable::ext_initial_constraints_as_circuits();
    assert_eq!(initial.len(), 9);
    assert_eq!(values(&initial, &pair(&table, &ext, 0, 0)), vec![XWord::zero(); 9]);
}

#[test]
fn clock_jump_of_three_is_reported_and_folded_once() {
    let aet = trace_of(vec![
        access(0, 0, 0),
        access(1, 0, 0),
        access(2, 1, 0),
        access(3, 1, 0),
        access(4, 0, 0),
        access(5, 1, 0),
        access(6, 1, 0),
        access(7, 0, 0),
    ]);
    let mut table = RamTable::new(8);
    let jumps = RamTable::fill_trace(&mut table, &aet).unwrap();
    assert_eq!(
        triples(&table, 8),
        vec![
            (0, 0, 0),
            (1, 0, 0),
            (4, 0, 0),
            (7, 0, 0),
            (2, 1, 0),
            (3, 1, 0),
            (5, 1, 0),
            (6, 1, 0)
        ]
    );
    assert_eq!(jumps, vec![3, 3, 2]);
    assert_eq!(table.rows[2].clk_di, inverse(2));
    assert_eq!(table.rows[5].clk_di, inverse(1));

    let ch = challenges();
    let ext = table.extend(&ch);
    let indeterminate = ch.all_clock_jump_differences_multi_perm_indeterminate;
    assert_eq!(ext.rows[0].rpcjd, XWord::one());
    assert_eq!(ext.rows[1].rpcjd, XWord::one());
    let once = indeterminate.minus(XWord::lift(3));
    assert_eq!(ext.rows[2].rpcjd, once);
    let twice = once.times(indeterminate.minus(XWord::lift(3)));
    assert_eq!(ext.rows[3].rpcjd, twice);
    assert_eq!(ext.rows[4].rpcjd, twice);
    assert_eq!(ext.rows[5].rpcjd, twice);
    assert_eq!(ext.rows[6].rpcjd, twice.times(indeterminate.minus(XWord::lift(2))));
    assert_eq!(ext.rows[7].rpcjd, ext.rows[6].rpcjd);
}

#[test]
fn one_jump_between_clock_four_and_seven() {
    let aet = trace_of(vec![access(4, 3, 0), access(7, 3, 0)]);
    let mut table = RamTable::new(2);
    let jumps = RamTable::fill_trace(&mut table, &aet).unwrap();
    assert_eq!(jumps, vec![3]);
    let ch = challenges();
    let ext = table.extend(&ch);
    assert_eq!(ext.rows[0].rpcjd, XWord::one());
    assert_eq!(
        ext.rows[1].rpcjd,
        ch.all_clock_jump_differences_multi_perm_indeterminate.minus(XWord::lift(3))
    );
}

#[test]
fn address_change_is_no_clock_jump() {
    let aet = trace_of(vec![access(0, 1, 0), access(1, 1, 0), access(2, 2, 0), access(3, 1, 0)]);
    let mut table = RamTable::new(4);
    let jumps = RamTable::fill_trace(&mut table, &aet).unwrap();
    assert_eq!(triples(&table, 4), vec![(0, 1, 0), (1, 1, 0), (3, 1, 0), (2, 2, 0)]);
    assert_eq!(jumps, vec![2]);
    // From clock 3 back to clock 2 the difference less one is -2.
    assert_eq!(table.rows[2].clk_di, inverse(P - 2));
    assert_eq!(table.rows[2].iord, 1);
}

#[test]
fn rows_beyond_the_trace_are_left_alone() {
    let aet = trace_of(vec![access(0, 2, 0), access(1, 3, 0)]);
    let marker = RamRow { clk: 9, ramp: 8, ramv: 7, iord: 6, bcpc0: 5, bcpc1: 4, clk_di: 3 };
    let mut table = RamTable { rows: vec![marker; 4] };
    RamTable::fill_trace(&mut table, &aet).unwrap();
    assert_eq!(triples(&table, 2), vec![(0, 2, 0), (1, 3, 0)]);
    assert_eq!(table.rows[1].iord, 6);
    assert_eq!(table.rows[1].clk_di, 3);
    assert_eq!(table.rows[2], marker);
    assert_eq!(table.rows[3], marker);
}

#[test]
fn padding_moves_trailing_rows_to_the_end() {
    // The row with the last clock cycle, 3, stands at index 1.
    let aet = trace_of(vec![access(0, 0, 0), access(1, 4, 0), access(2, 4, 5), access(3, 0, 0)]);
    let mut table = RamTable::new(8);
    RamTable::fill_trace(&mut table, &aet).unwrap();
    assert_eq!(triples(&table, 4), vec![(0, 0, 0), (3, 0, 0), (1, 4, 0), (2, 4, 5)]);
    let built = table.clone();
    RamTable::pad_trace(&mut table, 4);

    assert_eq!(table.rows.len(), 8);
    assert_eq!(table.rows[0], built.rows[0]);
    assert_eq!(table.rows[1], RamRow { iord: 0, clk_di: 0, ..built.rows[1] });
    for (i, clk) in [(2, 4), (3, 5), (4, 6)] {
        assert_eq!(table.rows[i], RamRow { clk, iord: 0, clk_di: 0, ..built.rows[1] });
    }
    assert_eq!(
        table.rows[5],
        RamRow { clk: 7, iord: built.rows[1].iord, clk_di: inverse(P - 7), ..built.rows[1] }
    );
    assert_eq!(table.rows[5].iord, inverse(4));
    assert_eq!(table.rows[6], built.rows[2]);
    assert_eq!(table.rows[7], built.rows[3]);
}

#[test]
fn padding_without_trailing_rows() {
    let aet = trace_of(vec![access(0, 0, 0), access(1, 0, 3), access(2, 0, 3), access(3, 0, 3)]);
    let mut table = RamTable::new(8);
    RamTable::fill_trace(&mut table, &aet).unwrap();
    let built = table.clone();
    RamTable::pad_trace(&mut table, 4);
    for i in 0..3 {
        assert_eq!(table.rows[i], built.rows[i]);
    }
    assert_eq!(table.rows[3], RamRow { iord: 0, clk_di: 0, ..built.rows[3] });
    for (i, clk) in [(4, 4), (5, 5), (6, 6), (7, 7)] {
        assert_eq!(table.rows[i], RamRow { clk, iord: 0, clk_di: 0, ..built.rows[3] });
    }
}

#[test]
fn padding_twice_changes_nothing_more() {
    let aet = trace_of(vec![access(0, 0, 0), access(1, 4, 0), access(2, 4, 5), access(3, 0, 0)]);
    let mut table = RamTable::new(8);
    RamTable::fill_trace(&mut table, &aet).unwrap();
    RamTable::pad_trace(&mut table, 4);
    let padded = table.clone();
    RamTable::pad_trace(&mut table, 8);
    assert_eq!(table.rows, padded.rows);
}

#[test]
fn padding_a_full_table_keeps_its_rows() {
    let aet = trace_of(vec![access(0, 0, 0), access(1, 4, 0), access(2, 4, 5), access(3, 0, 0)]);
    let mut table = RamTable::new(4);
    RamTable::fill_trace(&mut table, &aet).unwrap();
    let built = table.clone();
    RamTable::pad_trace(&mut table, 4);
    assert_eq!(table.rows, built.rows);
}

#[test]
fn the_last_clock_cycle_is_searched_among_the_real_rows() {
    let rows = vec![
        RamRow { clk: 0, ramp: 0, ramv: 0, iord: 0, bcpc0: 0, bcpc1: 1, clk_di: 0 },
        RamRow { clk: 5, ramp: 0, ramv: 0, iord: 0, bcpc0: 0, bcpc1: 1, clk_di: 0 },
        RamRow::zero(),
    ];
    let table = RamTable { rows: rows.clone() };
    assert_eq!(table.find_max_clock_row(2), None);
    assert_eq!(table.find_max_clock_row(1), Some(0));
    assert_eq!(table.rows, rows);
}

#[test]
fn extension_columns_of_a_small_table() {
    let aet = trace_of(vec![access(0, 0, 0), access(1, 6, 0)]);
    let mut table = RamTable::new(2);
    RamTable::fill_trace(&mut table, &aet).unwrap();
    let ch = challenges();
    let ext = table.extend(&ch);
    let alpha = ch.bezout_relation_indeterminate;
    let first = ExtRamRow {
        rp: alpha,
        fd: XWord::one(),
        bc0: XWord::lift(table.rows[0].bcpc0),
        bc1: XWord::lift(table.rows[0].bcpc1),
        rpcjd: XWord::one(),
        rppa: ch.processor_perm_indeterminate,
    };
    assert_eq!(ext.rows[0], first);
    let factor = alpha.minus(XWord::lift(6));
    let compressed = XWord::lift(1).times(ch.clk_weight).plus(XWord::lift(6).times(ch.ramp_weight));
    let second = ExtRamRow {
        rp: alpha.times(factor),
        fd: factor.plus(alpha),
        bc0: first.bc0.times(alpha).plus(XWord::lift(table.rows[1].bcpc0)),
        bc1: first.bc1.times(alpha).plus(XWord::lift(table.rows[1].bcpc1)),
        rpcjd: XWord::one(),
        rppa: first.rppa.times(ch.processor_perm_indeterminate.minus(compressed)),
    };
    assert_eq!(ext.rows[1], second);
}

#[test]
fn transition_constraints_vanish_on_a_padded_table() {
    let aet = trace_of(vec![access(0, 0, 0), access(1, 5, 0), access(2, 5, 3), access(3, 0, 0)]);
    let mut table = RamTable::new(8);
    RamTable::fill_trace(&mut table, &aet).unwrap();
    RamTable::pad_trace(&mut table, 4);
    assert_eq!(
        table.rows.iter().map(|r| (r.clk, r.ramp)).collect::<Vec<_>>(),
        vec![(0, 0), (3, 0), (4, 0), (5, 0), (6, 0), (7, 0), (1, 5), (2, 5)]
    );
    let ext = table.extend(&challenges());
    let transition = ExtRamTable::ext_transition_constraints_as_circuits();
    assert_eq!(transition.len(), 14);
    for i in 0..7 {
        assert_eq!(
            values(&transition, &pair(&table, &ext, i, i + 1)),
            vec![XWord::zero(); 14],
            "row {i}"
        );
    }
    let initial = ExtRamTable::ext_initial_constraints_as_circuits();
    assert_eq!(values(&initial, &pair(&table, &ext, 0, 0)), vec![XWord::zero(); 9]);
    let terminal = ExtRamTable::ext_terminal_constraints_as_circuits();
    assert_eq!(values(&terminal, &pair(&table, &ext, 7, 7)), vec![XWord::zero()]);
}

#[test]
fn no_consistency_constraints() {
    assert!(ExtRamTable::ext_consistency_constraints_as_circuits().is_empty());
}

fn interleaved_trace() -> Vec<ProcessorRow> {
    let addresses = [7, 3, 7, 0, 3, 3, 9, 0, 7, 9, 1, 3];
    addresses
        .iter()
        .enumerate()
        .map(|(clk, &ramp)| access(clk as u64, ramp, 100 + clk as u64))
        .collect()
}

#[test]
fn filled_rows_are_a_rearrangement_of_the_trace() {
    let trace = interleaved_trace();
    let mut table = RamTable::new(trace.len());
    RamTable::fill_trace(&mut table, &trace_of(trace.clone())).unwrap();
    assert_eq!(table.rows.len(), trace.len());
    let mut built = triples(&table, trace.len());
    let mut recorded: Vec<(u64, u64, u64)> = trace.iter().map(|r| (r.clk, r.ramp, r.ramv)).collect();
    built.sort();
    recorded.sort();
    assert_eq!(built, recorded);
}

#[test]
fn every_address_forms_one_block() {
    let trace = interleaved_trace();
    let mut table = RamTable::new(trace.len());
    RamTable::fill_trace(&mut table, &trace_of(trace.clone())).unwrap();
    let addresses: Vec<u64> = table.rows.iter().map(|r| r.ramp).collect();
    assert_eq!(addresses, vec![7, 7, 7, 3, 3, 3, 3, 0, 0, 9, 9, 1]);
    let clocks: Vec<u64> = table.rows.iter().map(|r| r.clk).collect();
    assert_eq!(clocks, vec![0, 2, 8, 1, 4, 5, 11, 3, 7, 6, 9, 10]);
    for i in 0..addresses.len() {
        for k in i..addresses.len() {
            if addresses[i] == addresses[k] {
                assert!((i..=k).all(|j| addresses[j] == addresses[i]));
            }
        }
    }
}
