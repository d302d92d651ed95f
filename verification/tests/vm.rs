use triton_vm::trace::{AlgebraicExecutionTrace, ProcessorRow};
use triton_vm::vm::{route_output, Instruction, Program, Simulation, VMOutput};

fn plain(opcode: u64) -> Instruction {
    Instruction { opcode, arg: None }
}

fn with_arg(opcode: u64, arg: u64) -> Instruction {
    Instruction { opcode, arg: Some(arg) }
}

#[test]
fn instructions_of_two_words_stand_twice() {
    let program = Program::new(&[with_arg(1, 5), plain(14), with_arg(1, 7), plain(0)]);
    assert_eq!(
        program.instructions,
        vec![with_arg(1, 5), with_arg(1, 5), plain(14), with_arg(1, 7), with_arg(1, 7), plain(0)]
    );
    assert_eq!(program.len(), 6);
    assert!(!program.is_empty());
}

#[test]
fn the_empty_program() {
    let program = Program::new(&[]);
    assert_eq!(program.len(), 0);
    assert!(program.is_empty());
    assert_eq!(program.to_bwords(), Vec::<u64>::new());
    assert_eq!(program.into_iter().next(), None);
}

#[test]
fn instruction_sizes() {
    assert_eq!(plain(3).size(), 1);
    assert_eq!(with_arg(3, 4).size(), 2);
}

#[test]
fn words_of_a_program() {
    let program = Program::new(&[with_arg(1, 5), plain(14), with_arg(1, 7), plain(0)]);
    assert_eq!(program.to_bwords(), vec![1, 5, 14, 1, 7, 0]);
}

#[test]
fn iterating_skips_the_second_copy() {
    let program = Program::new(&[with_arg(1, 5), plain(14), with_arg(1, 7)]);
    let mut iter = program.into_iter();
    assert_eq!(iter.next(), Some(with_arg(1, 5)));
    assert_eq!(iter.next(), Some(plain(14)));
    assert_eq!(iter.next(), Some(with_arg(1, 7)));
    assert_eq!(iter.next(), None);
    assert_eq!(iter.next(), None);
}

#[test]
fn a_cut_off_program_ends_the_iteration() {
    let program = Program { instructions: vec![plain(2), with_arg(1, 5)] };
    let mut iter = program.clone().into_iter();
    assert_eq!(iter.next(), Some(plain(2)));
    assert_eq!(iter.next(), Some(with_arg(1, 5)));
    assert_eq!(iter.next(), None);
    assert_eq!(program.to_bwords(), vec![2, 1, 5]);
}

#[test]
fn a_run_starts_with_the_initial_state() {
    let initial = ProcessorRow { clk: 0, ramp: 0, ramv: 0 };
    let simulation = Simulation::start(initial);
    assert_eq!(simulation.aet.processor_matrix, vec![initial]);
    assert!(simulation.aet.hash_matrix.is_empty());
    assert!(simulation.stdout.is_empty());
}

#[test]
fn steps_are_recorded_in_order() {
    let row = |clk| ProcessorRow { clk, ramp: 0, ramv: 0 };
    let mut simulation = Simulation::start(row(0));
    simulation.record_step(None, row(1));
    simulation.record_step(Some(VMOutput::WriteOutputSymbol(14)), row(2));
    simulation.record_step(Some(VMOutput::XlixTrace(vec![vec![1, 2], vec![3, 4]])), row(3));
    simulation.record_step(Some(VMOutput::WriteOutputSymbol(15)), row(4));
    simulation.record_step(Some(VMOutput::XlixTrace(vec![vec![5, 6]])), row(5));
    let (aet, stdout, fault) = simulation.finish(None::<String>);
    assert_eq!(aet.processor_matrix, vec![row(0), row(1), row(2), row(3), row(4), row(5)]);
    assert_eq!(aet.hash_matrix, vec![vec![1, 2], vec![3, 4], vec![5, 6]]);
    assert_eq!(stdout, vec![14, 15]);
    assert_eq!(fault, None);
}

#[test]
fn a_fault_keeps_the_trace_so_far() {
    let row = |clk| ProcessorRow { clk, ramp: 0, ramv: 0 };
    let mut simulation = Simulation::start(row(0));
    simulation.record_step(Some(VMOutput::WriteOutputSymbol(9)), row(1));
    let (aet, stdout, fault) = simulation.finish(Some("st0 must be 1.".to_string()));
    assert_eq!(aet.processor_matrix, vec![row(0), row(1)]);
    assert_eq!(stdout, vec![9]);
    assert_eq!(fault, Some("st0 must be 1.".to_string()));
}

#[test]
fn only_written_words_reach_the_output() {
    let mut stdout = vec![1];
    route_output(&mut stdout, &None);
    route_output(&mut stdout, &Some(VMOutput::XlixTrace(vec![vec![7]])));
    route_output(&mut stdout, &Some(VMOutput::WriteOutputSymbol(2)));
    assert_eq!(stdout, vec![1, 2]);
}

#[test]
fn the_default_program_is_empty() {
    let program = Program::default();
    assert_eq!(program.len(), 0);
    assert!(program.is_empty());
    assert_eq!(program.instructions, vec![]);
}

#[test]
fn the_default_trace_is_empty() {
    let aet = AlgebraicExecutionTrace::default();
    assert!(aet.processor_matrix.is_empty());
    assert!(aet.hash_matrix.is_empty());
}

#[test]
fn a_step_that_went_well_is_recorded() {
    let row = |clk| ProcessorRow { clk, ramp: 0, ramv: 0 };
    let mut simulation = Simulation::start(row(0));
    let fault = simulation.after_step(Ok::<_, String>((Some(VMOutput::WriteOutputSymbol(5)), row(1))));
    assert_eq!(fault, None);
    let fault = simulation.after_step(Ok::<_, String>((Some(VMOutput::XlixTrace(vec![vec![8]])), row(2))));
    assert_eq!(fault, None);
    assert_eq!(simulation.aet.processor_matrix, vec![row(0), row(1), row(2)]);
    assert_eq!(simulation.aet.hash_matrix, vec![vec![8]]);
    assert_eq!(simulation.stdout, vec![5]);
}

#[test]
fn a_step_that_failed_ends_the_run_and_changes_nothing() {
    let row = |clk| ProcessorRow { clk, ramp: 0, ramv: 0 };
    let mut simulation = Simulation::start(row(0));
    simulation.after_step(Ok::<_, String>((Some(VMOutput::WriteOutputSymbol(5)), row(1))));
    let fault = simulation.after_step(Err("st0 must be 1.".to_string()));
    assert_eq!(fault, Some("st0 must be 1.".to_string()));
    assert_eq!(simulation.aet.processor_matrix, vec![row(0), row(1)]);
    assert!(simulation.aet.hash_matrix.is_empty());
    assert_eq!(simulation.stdout, vec![5]);
}
