use risc16::loader::{load_rom, LoadErrorKind};
use risc16::machine::{Fault, Machine};
use risc16::num::IntErrorKind;
use risc16::session::{main_from_str, run_from_str, test_batch, test_batch_par};

fn final_regs(code: &str) -> [i16; 8] {
    let out = test_batch(10000, code, &vec![vec![]]).unwrap();
    out[0]
}

fn run(code: &str, max: u32) -> (Machine, Result<(), Fault>) {
    let (rom, labels) = load_rom(code).unwrap();
    let mut m = Machine::new(max);
    let r = m.execute(&rom, &labels);
    (m, r)
}

#[test]
fn movi_addi_halt() {
    let (m, r) = run("movi 1,5\naddi 2,1,3\nhalt", 100);
    assert_eq!(r, Ok(()));
    assert_eq!(m.registers, [0, 5, 8, 0, 0, 0, 0, 0]);
    assert_eq!(m.instr_count, 2);
    assert_eq!(m.pc, 2);
}

#[test]
fn movi_addi_halt_summary() {
    let (trace, state) = run_from_str(100, "movi 1,5\naddi 2,1,3\nhalt").unwrap();
    assert_eq!(trace, "");
    assert_eq!(state, "PC: 2, Instr. count: 2, regs: [0, 5, 8, 0, 0, 0, 0, 0]\n");
}

#[test]
fn branch_on_equal_falls_through_when_unequal() {
    let out = test_batch(100, "loop: addi 1,1,1\nbeq 1,0,loop\nhalt", &vec![vec![(1, -3)]]).unwrap();
    assert_eq!(out[0], [0, -2, 0, 0, 0, 0, 0, 0]);
}

#[test]
fn counting_loop_runs_three_times() {
    let code = "loop: addi 1,1,1\nbeq 1,0,end\nbeq 0,0,loop\nend: halt";
    let (rom, labels) = load_rom(code).unwrap();
    let mut m = Machine::new(1000);
    m.registers[1] = -3;
    assert_eq!(m.execute(&rom, &labels), Ok(()));
    assert_eq!(m.registers[1], 0);
    assert_eq!(m.instr_count, 8);
    assert_eq!(m.pc, 3);
}

#[test]
fn budget_exhausted_after_exactly_the_budget() {
    let (m, r) = run("loop: nop\nbeq 0,0,loop", 10);
    assert_eq!(r, Err(Fault::BudgetExceeded));
    assert_eq!(m.instr_count, 10);
    let (trace, state) = run_from_str(10, "loop: nop\nbeq 0,0,loop").unwrap();
    assert_eq!(
        trace,
        "Error! Reaching max instruction count, missing HALT or infinite loop ?\n"
    );
    assert_eq!(state, "PC: 0, Instr. count: 10, regs: [0, 0, 0, 0, 0, 0, 0, 0]\n");
}

#[test]
fn halt_reached_with_budget_spent() {
    let (m, r) = run("nop\nnop\nhalt", 2);
    assert_eq!(r, Ok(()));
    assert_eq!(m.instr_count, 2);
}

#[test]
fn store_out_of_memory_faults() {
    let (m, r) = run("sw 0,0,300\nmovi 1,5\nhalt", 100);
    assert_eq!(r, Err(Fault::MemoryOutOfBounds));
    assert_eq!(m.registers[1], 0);
    assert_eq!(m.instr_count, 0);
    let (trace, _) = run_from_str(100, "sw 0,0,300\nmovi 1,5\nhalt").unwrap();
    assert_eq!(
        trace,
        "/!\\ Immediate Too BIG : 300\nError! Index of memory out of bounds.\n"
    );
}

#[test]
fn add_wraps_around() {
    assert_eq!(final_regs("movi 1,0x7fff\nmovi 2,1\nadd 3,1,2\nhalt")[3], -32768);
    assert_eq!(final_regs("movi 1,-32768\nmovi 2,-1\nadd 3,1,2\nhalt")[3], 32767);
}

#[test]
fn addi_wraps_around() {
    let (trace, state) = run_from_str(100, "movi 1,32767\naddi 2,1,1\nhalt").unwrap();
    assert_eq!(trace, "");
    assert_eq!(state, "PC: 2, Instr. count: 2, regs: [0, 7fff, 8000, 0, 0, 0, 0, 0]\n");
}

#[test]
fn nand_of_registers() {
    assert_eq!(final_regs("movi 1,-1\nmovi 2,-1\nnand 3,1,2\nhalt")[3], 0);
    assert_eq!(final_regs("nand 3,1,2\nhalt")[3], -1);
    assert_eq!(final_regs("movi 1,12\nmovi 2,10\nnand 3,1,2\nhalt")[3], !(12i16 & 10));
}

#[test]
fn register_zero_stays_zero() {
    assert_eq!(final_regs("movi 0,5\nhalt"), [0; 8]);
    assert_eq!(final_regs("movi 1,9\naddi 0,1,7\nadd 2,0,1\nhalt")[2], 9);
}

#[test]
fn register_zero_override_cleared_by_halt() {
    let out = test_batch(100, "halt", &vec![vec![(0, 4)]]).unwrap();
    assert_eq!(out[0][0], 0);
}

#[test]
fn jalr_links_pre_jump_pc() {
    let (m, r) = run("movi 1,3\njalr 2,1\nhalt\nhalt", 100);
    assert_eq!(r, Ok(()));
    assert_eq!(m.registers[2], 2);
    assert_eq!(m.pc, 3);
    assert_eq!(m.instr_count, 2);
}

#[test]
fn jalr_same_register_jumps_to_old_value() {
    let (m, r) = run("movi 1,3\njalr 1,1\nmovi 3,1\nhalt", 100);
    assert_eq!(r, Ok(()));
    assert_eq!(m.registers[1], 2);
    assert_eq!(m.registers[3], 0);
    assert_eq!(m.pc, 3);
}

#[test]
fn reset_goes_back_to_start() {
    let (m, r) = run("addi 1,1,1\nbeq 1,2,end\nreset\nend: halt", 100);
    assert_eq!(r, Err(Fault::BudgetExceeded));
    assert_eq!(m.registers[0], 0);
    let out = test_batch(100, "addi 1,1,1\nbeq 1,2,end\nreset\nend: halt", &vec![vec![(2, 3)]]).unwrap();
    assert_eq!(out[0][1], 3);
}

#[test]
fn negative_jump_leaves_program() {
    let (m, r) = run("movi 1,-1\njalr 2,1\nhalt", 100);
    assert_eq!(r, Err(Fault::MissingHalt));
    assert_eq!(m.registers[2], 2);
    assert_eq!(m.instr_count, 2);
}

#[test]
fn missing_halt_at_end_of_program() {
    let (trace, state) = run_from_str(100, "nop").unwrap();
    assert_eq!(trace, "Error! Reaching end of ROM, missing HALT\n");
    assert_eq!(state, "PC: 1, Instr. count: 1, regs: [0, 0, 0, 0, 0, 0, 0, 0]\n");
}

#[test]
fn empty_source_faults_at_once() {
    let (trace, state) = run_from_str(100, "").unwrap();
    assert_eq!(trace, "Error! Reaching end of ROM, missing HALT\n");
    assert_eq!(state, "PC: 0, Instr. count: 0, regs: [0, 0, 0, 0, 0, 0, 0, 0]\n");
}

#[test]
fn bad_immediate_faults() {
    let (_, r) = run("addi 1,1,zz\nhalt", 100);
    assert_eq!(r, Err(Fault::BadImmediate));
    let (_, r) = run("movi 1,-0x5\nhalt", 100);
    assert_eq!(r, Err(Fault::BadImmediate));
}

#[test]
fn unresolved_jump_faults() {
    let (trace, _) = run_from_str(100, "beq 0,0,nowhere\nhalt").unwrap();
    assert_eq!(trace, "Impossible to parse jump\nError! Impossible to parse jump\n");
}

#[test]
fn unresolved_jump_not_taken_is_fine() {
    let (_, r) = run("movi 1,1\nbeq 0,1,nowhere\nhalt", 100);
    assert_eq!(r, Ok(()));
}

#[test]
fn register_out_of_bounds_faults() {
    let (_, r) = run("add 8,1,2\nhalt", 100);
    assert_eq!(r, Err(Fault::RegisterOutOfBounds));
    let (trace, _) = run_from_str(100, "jalr 1,9\nhalt").unwrap();
    assert_eq!(trace, "Error! Index of register out of bounds.\n");
}

#[test]
fn literal_syntaxes() {
    assert_eq!(final_regs("movi 1,0x10\nhalt")[1], 16);
    assert_eq!(final_regs("movi 1,0b101\nhalt")[1], 5);
    assert_eq!(final_regs("movi 1,70000\nhalt")[1], 4464);
    assert_eq!(final_regs("movi 1,0x-5\nhalt")[1], -5);
    assert_eq!(final_regs("movi 1,+12\nhalt")[1], 12);
    assert_eq!(final_regs("movi 1,0xffff\nhalt")[1], -1);
}

#[test]
fn literal_beyond_i32_is_rejected() {
    let (_, r) = run("movi 1,2147483648\nhalt", 100);
    assert_eq!(r, Err(Fault::BadImmediate));
    assert_eq!(final_regs("movi 1,-2147483648\nhalt")[1], 0);
}

#[test]
fn lui_shifts_left_five() {
    assert_eq!(final_regs("lui 1,3\nhalt")[1], 96);
    let (trace, state) = run_from_str(100, "lui 1,2000\nhalt").unwrap();
    assert_eq!(trace, "/!\\ Immediate Too BIG : 2000\n");
    assert_eq!(state, "PC: 1, Instr. count: 1, regs: [0, fa00, 0, 0, 0, 0, 0, 0]\n");
}

#[test]
fn store_then_load() {
    assert_eq!(final_regs("movi 1,7\nsw 1,0,5\nlw 2,0,5\nhalt")[2], 7);
    let (m, _) = run("movi 1,7\nmovi 2,3\nsw 1,2,-1\nhalt", 100);
    assert_eq!(m.ram[2], 7);
}

#[test]
fn load_below_memory_faults() {
    let (_, r) = run("lw 1,0,-1\nhalt", 100);
    assert_eq!(r, Err(Fault::MemoryOutOfBounds));
}

#[test]
fn branch_to_literal_index() {
    assert_eq!(final_regs("beq 0,0,2\nmovi 1,1\nhalt")[1], 0);
}

#[test]
fn long_jump_warns() {
    let (trace, _) = run_from_str(100, "beq 0,0,100\nhalt").unwrap();
    assert_eq!(
        trace,
        "WARNING, Jump too long: \"100\" of size 99\nError! Reaching end of ROM, missing HALT\n"
    );
}

#[test]
fn oversized_addi_warns_and_continues() {
    let (trace, state) = run_from_str(100, "addi 1,0,100\nhalt").unwrap();
    assert_eq!(trace, "/!\\ Immediate Too BIG : 100\n");
    assert_eq!(state, "PC: 1, Instr. count: 1, regs: [0, 64, 0, 0, 0, 0, 0, 0]\n");
}

#[test]
fn negative_registers_shown_in_two_complement() {
    let (_, state) = run_from_str(100, "movi 1,-3\nhalt").unwrap();
    assert_eq!(state, "PC: 1, Instr. count: 1, regs: [0, fffd, 0, 0, 0, 0, 0, 0]\n");
}

#[test]
fn main_from_str_appends_state() {
    assert_eq!(
        main_from_str("movi 1,5\nhalt"),
        "PC: 1, Instr. count: 1, regs: [0, 5, 0, 0, 0, 0, 0, 0]\n"
    );
    assert_eq!(
        main_from_str("nop"),
        "Error! Reaching end of ROM, missing HALT\nPC: 1, Instr. count: 1, regs: [0, 0, 0, 0, 0, 0, 0, 0]\n"
    );
}

#[test]
fn main_from_str_reports_load_error() {
    assert_eq!(main_from_str("bad"), "Error! Error: Instruction unknown: bad\n");
}

#[test]
fn run_from_str_reports_load_error() {
    let e = run_from_str(100, "add 1,2").unwrap_err();
    assert_eq!(e.kind, LoadErrorKind::WrongArity);
    assert_eq!(e.message(), "Wrong number of arguments: add 1,2");
    let e = run_from_str(100, "add 1,x,2").unwrap_err();
    assert_eq!(e.kind, LoadErrorKind::BadRegister(IntErrorKind::InvalidDigit));
}

#[test]
fn batch_sequential_and_parallel_agree() {
    let code = "loop: addi 1,1,1\nbeq 1,0,end\nbeq 0,0,loop\nend: add 3,1,2\nhalt";
    let tests = vec![
        vec![(1, -3), (2, 10)],
        vec![(1, -1)],
        vec![],
        vec![(2, 70000), (2, 5), (1, -2)],
    ];
    let seq = test_batch(1000, code, &tests).unwrap();
    let par = test_batch_par(1000, code, &tests).unwrap();
    assert_eq!(seq, par);
    assert_eq!(par.len(), 4);
    assert_eq!(par[0], [0, 0, 10, 10, 0, 0, 0, 0]);
    assert_eq!(par[1], [0, 0, 0, 0, 0, 0, 0, 0]);
    assert_eq!(par[3], [0, 0, 5, 5, 0, 0, 0, 0]);
}

#[test]
fn batch_entries_do_not_share_state() {
    let code = "lw 2,0,9\naddi 2,2,1\nsw 2,0,9\nadd 3,1,2\nhalt";
    let tests = vec![vec![(1, 100)], vec![(1, 200)], vec![(1, 300)]];
    let par = test_batch_par(100, code, &tests).unwrap();
    assert_eq!(par[0][3], 101);
    assert_eq!(par[1][3], 201);
    assert_eq!(par[2][3], 301);
    assert_eq!(test_batch(100, code, &tests).unwrap(), par);
}

#[test]
fn batch_load_error() {
    let e = test_batch_par(100, "movi 1", &vec![vec![]]).unwrap_err();
    assert_eq!(e.kind, LoadErrorKind::WrongArity);
}

#[test]
fn batch_entry_faults_independently() {
    let code = "beq 1,0,end\nsw 0,0,300\nend: movi 2,1\nhalt";
    let tests = vec![vec![(1, 1)], vec![]];
    let par = test_batch_par(100, code, &tests).unwrap();
    assert_eq!(par[0][2], 0);
    assert_eq!(par[1][2], 1);
}

#[test]
fn reset_state_clears_machine() {
    let (mut m, _) = run("movi 1,5\nsw 1,0,3\nhalt", 100);
    m.reset_state();
    assert_eq!(m.registers, [0; 8]);
    assert_eq!(m.ram[3], 0);
    assert_eq!(m.pc, 0);
    assert_eq!(m.instr_count, 0);
    assert_eq!(m.buffer, "");
    assert_eq!(m.max_instr, 100);
}
