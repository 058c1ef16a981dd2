use rustbf::ast::{BFPCommand, BFPProgram, BFProgram};

fn compile_src(src: &str) -> BFPProgram {
    let p = BFProgram::parse(src).unwrap();
    BFPProgram::compile(&p)
}

#[test]
fn straight_line_coalesces_into_one_update() {
    let o = compile_src("+++>++<->>");
    let root = o.blocks.last().unwrap();
    assert_eq!(root.len(), 1);
    match &root[0] {
        BFPCommand::Update(d) => {
            // net: cell 0 gains 2, cell 1 gains 2, pointer moves right twice
            assert_eq!(d.data_ptr, 2);
            let mut mem = d.memory.clone();
            mem.sort();
            assert_eq!(mem, vec![(0i128, 2u8), (1i128, 2u8)]);
        }
        _ => panic!("expected one coalesced update"),
    }
}

#[test]
fn cancelling_adjustments_leave_no_entry() {
    // +- nets to nothing at all, >< to a pure pointer round trip
    let o = compile_src("+-><");
    let root = o.blocks.last().unwrap();
    assert_eq!(root.len(), 0);
}

#[test]
fn pure_pointer_motion_becomes_shift() {
    let o = compile_src(">>>");
    let root = o.blocks.last().unwrap();
    assert_eq!(root.len(), 1);
    assert!(matches!(root[0], BFPCommand::Shift(3)));
}

#[test]
fn clear_loop_becomes_zero_cell() {
    let o = compile_src("[-]");
    let root = o.blocks.last().unwrap();
    assert_eq!(root.len(), 1);
    assert!(matches!(root[0], BFPCommand::ZeroCell));
}

#[test]
fn single_target_multiply_loop() {
    let o = compile_src("[->+<]");
    let root = o.blocks.last().unwrap();
    assert_eq!(root.len(), 1);
    assert!(matches!(root[0], BFPCommand::MultiplySingle(1, 1)));
}

#[test]
fn two_target_multiply_loop() {
    let o = compile_src("[->+>+<<]");
    let root = o.blocks.last().unwrap();
    assert_eq!(root.len(), 1);
    match &root[0] {
        BFPCommand::Multiply(mem) => {
            assert_eq!(mem.as_slice(), &[(1i128, 1u8), (2i128, 1u8)]);
        }
        _ => panic!("expected a multiply-accumulate"),
    }
}

#[test]
fn scan_loops_become_scans() {
    let right = compile_src("[>]");
    assert!(matches!(right.blocks.last().unwrap()[0], BFPCommand::ScanZero(1)));
    let left2 = compile_src("[<<]");
    assert!(matches!(left2.blocks.last().unwrap()[0], BFPCommand::ScanZero(-2)));
}

#[test]
fn increment_loop_stays_generic() {
    // the driving cell steps by plus one, not minus one: no closed form
    let o = compile_src("[+]");
    let root = o.blocks.last().unwrap();
    assert_eq!(root.len(), 1);
    assert!(matches!(root[0], BFPCommand::Loop(_)));
}

#[test]
fn io_breaks_the_batch() {
    let o = compile_src("+.+");
    let root = o.blocks.last().unwrap();
    assert_eq!(root.len(), 3);
    assert!(matches!(root[0], BFPCommand::Update(_)));
    assert!(matches!(root[1], BFPCommand::Write));
    assert!(matches!(root[2], BFPCommand::Update(_)));
}

#[test]
fn loop_with_io_body_stays_generic() {
    let o = compile_src("[.]");
    let root = o.blocks.last().unwrap();
    assert_eq!(root.len(), 1);
    assert!(matches!(root[0], BFPCommand::Loop(_)));
}
