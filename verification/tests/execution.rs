use rustbf::ast::{BFPProgram, BFProgram};
use rustbf::machine::Machine;
use rustbf::sem::RunError;

const FUEL: u64 = 1_000_000;

/// Run the source on both engines over the same initial tape and input and
/// check that tape, pointer, and output agree.
fn run_both(src: &str, tape: Vec<u8>, input: Vec<u8>) -> (Machine, Result<u64, RunError>) {
    let p = BFProgram::parse(src).unwrap();
    let o = BFPProgram::compile(&p);

    let mut raw = Machine::new(tape.len());
    raw.memory = tape.clone();
    raw.queue_input(input.clone());
    let raw_res = raw.run(&p, FUEL);

    let mut opt = Machine::new(tape.len());
    opt.memory = tape;
    opt.queue_input(input);
    let opt_res = opt.run_optimized(&o, FUEL);

    match (&raw_res, &opt_res) {
        (Ok(_), Ok(_)) => {
            assert_eq!(raw.memory, opt.memory);
            assert_eq!(raw.data_ptr, opt.data_ptr);
            assert_eq!(raw.output, opt.output);
        }
        (Err(a), Err(b)) => assert_eq!(a, b),
        _ => panic!("raw {:?} and optimized {:?} disagree", raw_res, opt_res),
    }
    (opt, opt_res)
}

#[test]
fn increment_wraps_at_255() {
    let (m, r) = run_both("+", vec![255], vec![]);
    assert!(r.is_ok());
    assert_eq!(m.memory[0], 0);
}

#[test]
fn decrement_wraps_at_0() {
    let (m, r) = run_both("-", vec![0], vec![]);
    assert!(r.is_ok());
    assert_eq!(m.memory[0], 255);
}

#[test]
fn multiply_loop_distributes_the_cell() {
    let (m, r) = run_both("[->+>+<<]", vec![3, 0, 0], vec![]);
    assert!(r.is_ok());
    assert_eq!(m.memory, vec![0, 3, 3]);
    assert_eq!(m.data_ptr, 0);
}

#[test]
fn multiply_loop_reduces_products_modulo_256() {
    // 100 iterations adding 3: 300 is 44 modulo 256
    let (m, r) = run_both("[->+++<]", vec![100, 0], vec![]);
    assert!(r.is_ok());
    assert_eq!(m.memory, vec![0, 44]);
}

#[test]
fn multiply_loop_on_zero_cell_is_a_no_op() {
    let (m, r) = run_both("[->+<]", vec![0, 9], vec![]);
    assert!(r.is_ok());
    assert_eq!(m.memory, vec![0, 9]);
}

#[test]
fn scan_loop_stops_at_first_zero() {
    let (m, r) = run_both("[>]", vec![1, 1, 1, 0], vec![]);
    assert!(r.is_ok());
    assert_eq!(m.data_ptr, 3);
    assert_eq!(m.memory, vec![1, 1, 1, 0]);
}

#[test]
fn clear_loop_zeroes_any_value() {
    for v in [1u8, 7, 100, 255] {
        let (m, r) = run_both("[-]", vec![v], vec![]);
        assert!(r.is_ok());
        assert_eq!(m.memory[0], 0);
    }
}

#[test]
fn read_consumes_input_bytes_in_order() {
    let (m, r) = run_both(",>,>,", vec![0, 0, 0], vec![10, 20, 30]);
    assert!(r.is_ok());
    assert_eq!(m.memory, vec![10, 20, 30]);
}

#[test]
fn read_at_end_of_input_is_a_reported_failure() {
    let (m, r) = run_both(",", vec![7], vec![]);
    assert_eq!(r, Err(RunError::EndOfInput));
    // the failure is reported, not papered over with a zero or a stale cell
    assert_eq!(m.memory[0], 7);
}

#[test]
fn read_past_the_last_byte_fails() {
    let (_, r) = run_both(",,", vec![0], vec![42]);
    assert_eq!(r, Err(RunError::EndOfInput));
}

#[test]
fn write_emits_the_current_cell() {
    let (m, r) = run_both(".+.", vec![65], vec![]);
    assert!(r.is_ok());
    assert_eq!(m.output, vec![65, 66]);
}

#[test]
fn moving_left_of_the_tape_faults() {
    let (_, r) = run_both("<", vec![0, 0], vec![]);
    assert_eq!(r, Err(RunError::OutOfBounds));
}

#[test]
fn moving_right_off_the_tape_faults() {
    let (_, r) = run_both(">>", vec![0, 0], vec![]);
    assert_eq!(r, Err(RunError::OutOfBounds));
}

#[test]
fn scan_loop_runs_off_the_tape() {
    let (_, r) = run_both("[>]", vec![1, 1], vec![]);
    assert_eq!(r, Err(RunError::OutOfBounds));
}

#[test]
fn nested_loops_clear_a_row() {
    let (m, r) = run_both("[[-]>]", vec![5, 3, 2, 0], vec![]);
    assert!(r.is_ok());
    assert_eq!(m.memory, vec![0, 0, 0, 0]);
    assert_eq!(m.data_ptr, 3);
}

#[test]
fn a_small_program_prints_a_letter() {
    // 8 × 8 + 1 = 65, the letter A
    let (m, r) = run_both("++++++++[>++++++++<-]>+.", vec![0, 0], vec![]);
    assert!(r.is_ok());
    assert_eq!(m.output, vec![65]);
}

#[test]
fn endless_loop_runs_out_of_fuel() {
    let p = BFProgram::parse("+[]").unwrap();
    let mut m = Machine::new(1);
    assert_eq!(m.run(&p, 1000), Err(RunError::OutOfFuel));
    let o = BFPProgram::compile(&p);
    let mut m2 = Machine::new(1);
    assert_eq!(m2.run_optimized(&o, 1000), Err(RunError::OutOfFuel));
}

#[test]
fn leftover_fuel_is_returned() {
    let p = BFProgram::parse("[-]").unwrap();
    let mut m = Machine::new(1);
    m.memory[0] = 4;
    // four iterations spend four units of fuel
    assert_eq!(m.run(&p, 100), Ok(96));
}

#[test]
fn echo_loop_copies_input_until_zero() {
    // read a byte, then write and read again while it is nonzero
    let (m, r) = run_both(",[.,]", vec![0, 0], vec![104, 105, 0]);
    assert!(r.is_ok());
    assert_eq!(m.output, vec![104, 105]);
}

#[test]
fn queued_input_is_read_after_earlier_bytes() {
    let p = BFProgram::parse(",.,.").unwrap();
    let mut m = Machine::new(1);
    m.queue_input(vec![1]);
    m.queue_input(vec![2]);
    assert!(m.run(&p, FUEL).is_ok());
    assert_eq!(m.output, vec![1, 2]);
}
