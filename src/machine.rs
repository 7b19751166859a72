//! The machine state and what each instruction does to it.
use vstd::prelude::*;
use crate::num::{decimal, literal_value, parse_literal, push_decimal, wrap16};
use crate::program::{instrs_view, lookup, Instr, InstrV, LabelTable};
use crate::text::{chars_of, push_chars, push_str};

verus! {

/// Why a run stops without reaching `halt`.
#[derive(Clone, Copy, Debug, PartialEq, Eq, Structural)]
pub enum Fault {
    /// The program counter left the program.
    MissingHalt,
    /// The instruction budget ran out.
    BudgetExceeded,
    /// An immediate operand is no number.
    BadImmediate,
    /// A branch target is neither a label nor a number.
    UnresolvedJump,
    RegisterOutOfBounds,
    MemoryOutOfBounds,
}

pub open spec fn fault_text(f: Fault) -> Seq<char> {
    match f {
        Fault::MissingHalt => "Reaching end of ROM, missing HALT"@,
        Fault::BudgetExceeded => "Reaching max instruction count, missing HALT or infinite loop ?"@,
        Fault::BadImmediate => "Error processing label/imm"@,
        Fault::UnresolvedJump => "Impossible to parse jump"@,
        Fault::RegisterOutOfBounds => "Index of register out of bounds."@,
        Fault::MemoryOutOfBounds => "Index of memory out of bounds."@,
    }
}

impl Fault {
    pub fn message(&self) -> (r: String)
        ensures
            r@ == fault_text(*self),
    {
        let mut out = String::new();
        match self {
            Fault::MissingHalt => push_str(&mut out, "Reaching end of ROM, missing HALT"),
            Fault::BudgetExceeded => push_str(
                &mut out,
                "Reaching max instruction count, missing HALT or infinite loop ?",
            ),
            Fault::BadImmediate => push_str(&mut out, "Error processing label/imm"),
            Fault::UnresolvedJump => push_str(&mut out, "Impossible to parse jump"),
            Fault::RegisterOutOfBounds => push_str(&mut out, "Index of register out of bounds."),
            Fault::MemoryOutOfBounds => push_str(&mut out, "Index of memory out of bounds."),
        }
        assert(out@ =~= fault_text(*self));
        out
    }
}

/// Where control goes after an instruction.
#[derive(Clone, Copy, Debug, PartialEq, Eq, Structural)]
pub enum Flow {
    /// On to the following instruction.
    Next,
    /// Stop: the program is done.
    Halt,
    /// On to the instruction at this index.
    Jump(usize),
    /// A jump to a negative index, where no instruction is.
    Leave,
}

/// The state of one run.
#[derive(Debug)]
pub struct Machine {
    pub registers: [i16; 8],
    pub pc: usize,
    pub ram: [i16; 256],
    pub instr_count: u32,
    pub max_instr: u32,
    pub buffer: String,
}

pub struct MachineV {
    pub regs: Seq<i16>,
    pub pc: nat,
    pub ram: Seq<i16>,
    pub count: nat,
    pub max: nat,
    pub trace: Seq<char>,
}

impl View for Machine {
    type V = MachineV;

    open spec fn view(&self) -> MachineV {
        MachineV {
            regs: self.registers@,
            pc: self.pc as nat,
            ram: self.ram@,
            count: self.instr_count as nat,
            max: self.max_instr as nat,
            trace: self.buffer@,
        }
    }
}

impl MachineV {
    pub open spec fn wf(self) -> bool {
        self.regs.len() == 8 && self.ram.len() == 256
    }

    pub open spec fn set_reg(self, r: int, v: int) -> MachineV {
        MachineV { regs: self.regs.update(r, v as i16), ..self }
    }

    pub open spec fn note(self, text: Seq<char>) -> MachineV {
        MachineV { trace: self.trace + text, ..self }
    }
}

/// The warning for an immediate that does not fit its field.
pub open spec fn imm_warning(imm: int) -> Seq<char> {
    "/!\\ Immediate Too BIG : "@ + decimal(imm) + "\n"@
}

/// Whether an immediate fits the signed 7-bit field.
pub open spec fn fits7(imm: int) -> bool {
    -64 <= imm <= 63
}

/// The warning for a branch farther than the signed 7-bit field reaches.
pub open spec fn jump_warning(target: Seq<char>, dist: int) -> Seq<char> {
    "WARNING, Jump too long: \""@ + target + "\" of size "@ + decimal(dist) + "\n"@
}

pub open spec fn jump_flow(target: int) -> Flow {
    if target < 0 {
        Flow::Leave
    } else {
        Flow::Jump(target as usize)
    }
}

/// The bitwise complement of the bitwise and.
pub open spec fn nand16(a: i16, b: i16) -> i16 {
    !(a & b)
}

/// `add` and `nand`: three registers.
pub open spec fn alu_spec(m: MachineV, nand: bool, d: usize, s: usize, t: usize) -> (
    MachineV,
    Result<Flow, Fault>,
) {
    if s >= 8 || t >= 8 || d >= 8 {
        (m, Err(Fault::RegisterOutOfBounds))
    } else {
        let a = m.regs[s as int];
        let b = m.regs[t as int];
        if nand {
            (MachineV { regs: m.regs.update(d as int, nand16(a, b)), ..m }, Ok(Flow::Next))
        } else {
            (m.set_reg(d as int, wrap16(a + b)), Ok(Flow::Next))
        }
    }
}

/// `addi`, `lw` and `sw`: two registers and a 7-bit immediate.
pub open spec fn imm7_spec(m: MachineV, op: InstrV) -> (MachineV, Result<Flow, Fault>) {
    let (d, s, text) = match op {
        InstrV::Addi(d, s, x) => (d, s, x),
        InstrV::Lw(d, s, x) => (d, s, x),
        InstrV::Sw(d, s, x) => (d, s, x),
        _ => (0, 0, Seq::empty()),
    };
    match literal_value(text) {
        None => (m, Err(Fault::BadImmediate)),
        Some(imm) => {
            let m1 = if fits7(imm) {
                m
            } else {
                m.note(imm_warning(imm))
            };
            if s >= 8 {
                (m1, Err(Fault::RegisterOutOfBounds))
            } else {
                let base = m1.regs[s as int];
                let addr = base + imm;
                match op {
                    InstrV::Addi(..) => if d >= 8 {
                        (m1, Err(Fault::RegisterOutOfBounds))
                    } else {
                        (m1.set_reg(d as int, wrap16(addr)), Ok(Flow::Next))
                    },
                    InstrV::Lw(..) => if d >= 8 {
                        (m1, Err(Fault::RegisterOutOfBounds))
                    } else if !(0 <= addr < 256) {
                        (m1, Err(Fault::MemoryOutOfBounds))
                    } else {
                        (m1.set_reg(d as int, m1.ram[addr] as int), Ok(Flow::Next))
                    },
                    _ => if !(0 <= addr < 256) {
                        (m1, Err(Fault::MemoryOutOfBounds))
                    } else if d >= 8 {
                        (m1, Err(Fault::RegisterOutOfBounds))
                    } else {
                        (
                            MachineV { ram: m1.ram.update(addr, m1.regs[d as int]), ..m1 },
                            Ok(Flow::Next),
                        )
                    },
                }
            }
        },
    }
}

/// `movi` and `lui`: one register and an immediate.
pub open spec fn imm10_spec(m: MachineV, upper: bool, d: usize, text: Seq<char>) -> (
    MachineV,
    Result<Flow, Fault>,
) {
    match literal_value(text) {
        None => (m, Err(Fault::BadImmediate)),
        Some(imm) => {
            let m1 = if upper && !(0 <= imm <= 1023) {
                m.note(imm_warning(imm))
            } else {
                m
            };
            if d >= 8 {
                (m1, Err(Fault::RegisterOutOfBounds))
            } else if upper {
                (m1.set_reg(d as int, wrap16(imm * 32)), Ok(Flow::Next))
            } else {
                (m1.set_reg(d as int, imm), Ok(Flow::Next))
            }
        },
    }
}

/// `beq`: when the registers are equal, go to the label or the index that
/// the operand names.
pub open spec fn beq_spec(
    m: MachineV,
    labels: Seq<(Seq<char>, nat)>,
    d: usize,
    s: usize,
    text: Seq<char>,
) -> (MachineV, Result<Flow, Fault>) {
    if s >= 8 || d >= 8 {
        (m, Err(Fault::RegisterOutOfBounds))
    } else if m.regs[s as int] != m.regs[d as int] {
        (m, Ok(Flow::Next))
    } else {
        let target: Option<int> = match lookup(labels, text) {
            Some(l) => Some(l as int),
            None => literal_value(text),
        };
        match target {
            None => (m.note("Impossible to parse jump\n"@), Err(Fault::UnresolvedJump)),
            Some(t) => {
                let dist = t - (m.pc + 1);
                let m1 = if fits7(dist) {
                    m
                } else {
                    m.note(jump_warning(text, dist))
                };
                (m1, Ok(jump_flow(t)))
            },
        }
    }
}

/// `jalr`: link the next index into `d`, then go to the index held in `s`.
pub open spec fn jalr_spec(m: MachineV, d: usize, s: usize) -> (MachineV, Result<Flow, Fault>) {
    if s >= 8 || d >= 8 {
        (m, Err(Fault::RegisterOutOfBounds))
    } else {
        let target = m.regs[s as int];
        (m.set_reg(d as int, wrap16(m.pc as int + 1)), Ok(jump_flow(target as int)))
    }
}

/// What one instruction does to the machine, and where control goes next.
pub open spec fn exec_spec(m: MachineV, i: InstrV, labels: Seq<(Seq<char>, nat)>) -> (
    MachineV,
    Result<Flow, Fault>,
) {
    match i {
        InstrV::Nop => (m, Ok(Flow::Next)),
        InstrV::Halt => (m, Ok(Flow::Halt)),
        InstrV::Reset => jalr_spec(m, 0, 0),
        InstrV::Add(d, s, t) => alu_spec(m, false, d, s, t),
        InstrV::Nand(d, s, t) => alu_spec(m, true, d, s, t),
        InstrV::Addi(..) => imm7_spec(m, i),
        InstrV::Lw(..) => imm7_spec(m, i),
        InstrV::Sw(..) => imm7_spec(m, i),
        InstrV::Movi(d, x) => imm10_spec(m, false, d, x),
        InstrV::Lui(d, x) => imm10_spec(m, true, d, x),
        InstrV::Beq(d, s, x) => beq_spec(m, labels, d, s, x),
        InstrV::Jalr(d, s) => jalr_spec(m, d, s),
    }
}

/// How a step leaves the run.
#[derive(Clone, Copy, Debug, PartialEq, Eq, Structural)]
pub enum Status {
    Running,
    Halted,
    Faulted(Fault),
}

/// One step of a run: fetch the instruction at the program counter and
/// execute it, clear register 0, then count the instruction and move on.
/// `halt` stops the run before the budget is consulted.
pub open spec fn step_spec(prog: Seq<InstrV>, labels: Seq<(Seq<char>, nat)>, m: MachineV) -> (
    MachineV,
    Status,
) {
    if m.pc >= prog.len() {
        (m, Status::Faulted(Fault::MissingHalt))
    } else if prog[m.pc as int] is Halt {
        (m.set_reg(0, 0), Status::Halted)
    } else if m.count >= m.max {
        (m, Status::Faulted(Fault::BudgetExceeded))
    } else {
        let (m1, r) = exec_spec(m, prog[m.pc as int], labels);
        match r {
            Err(f) => (m1, Status::Faulted(f)),
            Ok(flow) => {
                let m2 = MachineV { count: m1.count + 1, ..m1.set_reg(0, 0) };
                match flow {
                    Flow::Next => (MachineV { pc: m2.pc + 1, ..m2 }, Status::Running),
                    Flow::Jump(t) => (MachineV { pc: t as nat, ..m2 }, Status::Running),
                    Flow::Leave => (m2, Status::Faulted(Fault::MissingHalt)),
                    Flow::Halt => (m2, Status::Halted),
                }
            },
        }
    }
}

/// A whole run: steps until the program halts or faults.
pub open spec fn run_spec(prog: Seq<InstrV>, labels: Seq<(Seq<char>, nat)>, m: MachineV) -> (
    MachineV,
    Result<(), Fault>,
)
    decreases m.max - m.count,
{
    let (m1, st) = step_spec(prog, labels, m);
    match st {
        Status::Running => run_spec(prog, labels, m1),
        Status::Halted => (m1, Ok(())),
        Status::Faulted(f) => (m1, Err(f)),
    }
}

/// A fresh machine: everything zero, an empty trace.
pub open spec fn initial(max: nat) -> MachineV {
    MachineV {
        regs: Seq::new(8, |i: int| 0i16),
        pc: 0,
        ram: Seq::new(256, |i: int| 0i16),
        count: 0,
        max: max,
        trace: Seq::empty(),
    }
}

proof fn lemma_wrap16_add(a: int, b: int)
    requires
        -32768 <= a <= 32767,
        -32768 <= b <= 32767,
    ensures
        wrap16(a + b) == if a + b > 32767 {
            a + b - 65536
        } else if a + b < -32768 {
            a + b + 65536
        } else {
            a + b
        },
{
}

proof fn lemma_wrap16_range(v: int)
    ensures
        -32768 <= wrap16(v) <= 32767,
{
}

impl Machine {
    /// A fresh machine with an instruction budget of `max_instr`.
    pub fn new(max_instr: u32) -> (r: Machine)
        ensures
            r@ == initial(max_instr as nat),
    {
        let r = Machine {
            registers: [0; 8],
            pc: 0,
            ram: [0; 256],
            instr_count: 0,
            max_instr,
            buffer: String::new(),
        };
        assert(r.registers@ =~= Seq::new(8, |i: int| 0i16));
        assert(r.ram@ =~= Seq::new(256, |i: int| 0i16));
        r
    }

    /// Back to a fresh machine, keeping the budget.
    pub fn reset_state(&mut self)
        ensures
            final(self)@ == initial(old(self).max_instr as nat),
    {
        self.registers = [0; 8];
        self.pc = 0;
        self.ram = [0; 256];
        self.instr_count = 0;
        self.buffer = String::new();
        assert(self.registers@ =~= Seq::new(8, |i: int| 0i16));
        assert(self.ram@ =~= Seq::new(256, |i: int| 0i16));
    }

    fn note_imm(&mut self, imm: i16)
        ensures
            final(self)@ == old(self)@.note(imm_warning(imm as int)),
    {
        push_str(&mut self.buffer, "/!\\ Immediate Too BIG : ");
        push_decimal(&mut self.buffer, imm as i128);
        push_str(&mut self.buffer, "\n");
        assert(self.buffer@ =~= old(self).buffer@ + imm_warning(imm as int));
    }

    /// `add d, s, t`: `d` gets `s + t`, wrapping at 16 bits.
    pub fn add(&mut self, d: usize, s: usize, t: usize) -> (r: Result<Flow, Fault>)
        ensures
            (final(self)@, r) == alu_spec(old(self)@, false, d, s, t),
    {
        if s >= 8 || t >= 8 || d >= 8 {
            return Err(Fault::RegisterOutOfBounds);
        }
        let v = self.registers[s].wrapping_add(self.registers[t]);
        proof {
            lemma_wrap16_add(self.registers[s as int] as int, self.registers[t as int] as int);
        }
        self.registers[d] = v;
        Ok(Flow::Next)
    }

    /// `nand d, s, t`: `d` gets the complement of `s & t`.
    pub fn nand(&mut self, d: usize, s: usize, t: usize) -> (r: Result<Flow, Fault>)
        ensures
            (final(self)@, r) == alu_spec(old(self)@, true, d, s, t),
    {
        if s >= 8 || t >= 8 || d >= 8 {
            return Err(Fault::RegisterOutOfBounds);
        }
        let a = self.registers[s];
        let b = self.registers[t];
        let v = !(a & b);
        assert(-32768 <= !(a & b) <= 32767) by (bit_vector);
        self.registers[d] = v;
        Ok(Flow::Next)
    }

    /// `addi d, s, imm`: `d` gets `s + imm`, wrapping; an immediate beyond 7
    /// bits is noted in the trace.
    pub fn addi(&mut self, d: usize, s: usize, text: &String) -> (r: Result<Flow, Fault>)
        ensures
            (final(self)@, r) == imm7_spec(old(self)@, InstrV::Addi(d, s, text@)),
    {
        let imm = match parse_literal(&chars_of(text.as_str())) {
            None => return Err(Fault::BadImmediate),
            Some(v) => v,
        };
        if imm > 63 || imm < -64 {
            self.note_imm(imm);
        }
        if s >= 8 || d >= 8 {
            return Err(Fault::RegisterOutOfBounds);
        }
        let v = self.registers[s].wrapping_add(imm);
        proof {
            lemma_wrap16_add(self.registers[s as int] as int, imm as int);
        }
        self.registers[d] = v;
        Ok(Flow::Next)
    }

    /// `movi d, imm`: `d` gets the immediate.
    pub fn movi(&mut self, d: usize, text: &String) -> (r: Result<Flow, Fault>)
        ensures
            (final(self)@, r) == imm10_spec(old(self)@, false, d, text@),
    {
        let imm = match parse_literal(&chars_of(text.as_str())) {
            None => return Err(Fault::BadImmediate),
            Some(v) => v,
        };
        if d >= 8 {
            return Err(Fault::RegisterOutOfBounds);
        }
        self.registers[d] = imm;
        Ok(Flow::Next)
    }

    /// `lui d, imm`: `d` gets the immediate shifted left by 5, wrapping; an
    /// immediate beyond 10 bits is noted in the trace.
    pub fn lui(&mut self, d: usize, text: &String) -> (r: Result<Flow, Fault>)
        ensures
            (final(self)@, r) == imm10_spec(old(self)@, true, d, text@),
    {
        let imm = match parse_literal(&chars_of(text.as_str())) {
            None => return Err(Fault::BadImmediate),
            Some(v) => v,
        };
        if imm > 1023 || imm < 0 {
            self.note_imm(imm);
        }
        if d >= 8 {
            return Err(Fault::RegisterOutOfBounds);
        }
        let v = crate::num::wrap_i16(imm as i64 * 32);
        self.registers[d] = v;
        Ok(Flow::Next)
    }

    /// `lw d, s, imm`: `d` gets the memory word at `s + imm`.
    pub fn lw(&mut self, d: usize, s: usize, text: &String) -> (r: Result<Flow, Fault>)
        ensures
            (final(self)@, r) == imm7_spec(old(self)@, InstrV::Lw(d, s, text@)),
    {
        let imm = match parse_literal(&chars_of(text.as_str())) {
            None => return Err(Fault::BadImmediate),
            Some(v) => v,
        };
        if imm > 63 || imm < -64 {
            self.note_imm(imm);
        }
        if s >= 8 || d >= 8 {
            return Err(Fault::RegisterOutOfBounds);
        }
        let addr: i32 = self.registers[s] as i32 + imm as i32;
        if addr < 0 || addr >= 256 {
            return Err(Fault::MemoryOutOfBounds);
        }
        self.registers[d] = self.ram[addr as usize];
        Ok(Flow::Next)
    }

    /// `sw d, s, imm`: the memory word at `s + imm` gets `d`.
    pub fn sw(&mut self, d: usize, s: usize, text: &String) -> (r: Result<Flow, Fault>)
        ensures
            (final(self)@, r) == imm7_spec(old(self)@, InstrV::Sw(d, s, text@)),
    {
        let imm = match parse_literal(&chars_of(text.as_str())) {
            None => return Err(Fault::BadImmediate),
            Some(v) => v,
        };
        if imm > 63 || imm < -64 {
            self.note_imm(imm);
        }
        if s >= 8 {
            return Err(Fault::RegisterOutOfBounds);
        }
        let addr: i32 = self.registers[s] as i32 + imm as i32;
        if addr < 0 || addr >= 256 {
            return Err(Fault::MemoryOutOfBounds);
        }
        if d >= 8 {
            return Err(Fault::RegisterOutOfBounds);
        }
        self.ram[addr as usize] = self.registers[d];
        Ok(Flow::Next)
    }

    /// `beq d, s, target`: when `d` equals `s`, go to the label or index
    /// that `target` names; a far branch is noted in the trace.
    pub fn beq(&mut self, labels: &LabelTable, d: usize, s: usize, text: &String) -> (r: Result<
        Flow,
        Fault,
    >)
        ensures
            (final(self)@, r) == beq_spec(old(self)@, labels@, d, s, text@),
    {
        if s >= 8 || d >= 8 {
            return Err(Fault::RegisterOutOfBounds);
        }
        if self.registers[s] != self.registers[d] {
            return Ok(Flow::Next);
        }
        let target: i128 = match labels.get(text) {
            Some(l) => l as i128,
            None => match parse_literal(&chars_of(text.as_str())) {
                Some(v) => v as i128,
                None => {
                    push_str(&mut self.buffer, "Impossible to parse jump\n");
                    return Err(Fault::UnresolvedJump);
                },
            },
        };
        let dist: i128 = target - (self.pc as i128 + 1);
        if dist < -64 || dist > 63 {
            push_str(&mut self.buffer, "WARNING, Jump too long: \"");
            push_chars(&mut self.buffer, &chars_of(text.as_str()));
            push_str(&mut self.buffer, "\" of size ");
            push_decimal(&mut self.buffer, dist);
            push_str(&mut self.buffer, "\n");
            assert(self.buffer@ =~= old(self).buffer@ + jump_warning(text@, dist as int));
        }
        if target < 0 {
            Ok(Flow::Leave)
        } else {
            Ok(Flow::Jump(target as usize))
        }
    }

    /// `jalr d, s`: `d` gets the index after this one, then control goes to
    /// the index held in `s`.
    pub fn jalr(&mut self, d: usize, s: usize) -> (r: Result<Flow, Fault>)
        ensures
            (final(self)@, r) == jalr_spec(old(self)@, d, s),
    {
        if s >= 8 || d >= 8 {
            return Err(Fault::RegisterOutOfBounds);
        }
        let target = self.registers[s];
        let low: u64 = (self.pc as u64) % 65536;
        let link = crate::num::wrap_i16(low as i64 + 1);
        proof {
            lemma_wrap16_mod(self.pc as int);
        }
        self.registers[d] = link;
        if target < 0 {
            Ok(Flow::Leave)
        } else {
            Ok(Flow::Jump(target as usize))
        }
    }

    /// Executes one instruction.
    pub fn execute_instr(&mut self, instr: &Instr, labels: &LabelTable) -> (r: Result<Flow, Fault>)
        ensures
            (final(self)@, r) == exec_spec(old(self)@, instr@, labels@),
    {
        match instr {
            Instr::Nop => Ok(Flow::Next),
            Instr::Halt => Ok(Flow::Halt),
            Instr::Reset => self.jalr(0, 0),
            Instr::Add(d, s, t) => self.add(*d, *s, *t),
            Instr::Addi(d, s, x) => self.addi(*d, *s, x),
            Instr::Nand(d, s, t) => self.nand(*d, *s, *t),
            Instr::Movi(d, x) => self.movi(*d, x),
            Instr::Lui(d, x) => self.lui(*d, x),
            Instr::Lw(d, s, x) => self.lw(*d, *s, x),
            Instr::Sw(d, s, x) => self.sw(*d, *s, x),
            Instr::Beq(d, s, x) => self.beq(labels, *d, *s, x),
            Instr::Jalr(d, s) => self.jalr(*d, *s),
        }
    }

    /// Runs one step: see `step_spec`.
    pub fn step(&mut self, rom: &Vec<Instr>, labels: &LabelTable) -> (r: Status)
        ensures
            (final(self)@, r) == step_spec(instrs_view(rom@), labels@, old(self)@),
    {
        if self.pc >= rom.len() {
            return Status::Faulted(Fault::MissingHalt);
        }
        let instr = &rom[self.pc];
        if let Instr::Halt = instr {
            self.registers[0] = 0;
            return Status::Halted;
        }
        if self.instr_count >= self.max_instr {
            return Status::Faulted(Fault::BudgetExceeded);
        }
        match self.execute_instr(instr, labels) {
            Err(f) => Status::Faulted(f),
            Ok(flow) => {
                self.registers[0] = 0;
                self.instr_count = self.instr_count + 1;
                match flow {
                    Flow::Next => {
                        self.pc = self.pc + 1;
                        Status::Running
                    },
                    Flow::Jump(t) => {
                        self.pc = t;
                        Status::Running
                    },
                    Flow::Leave => Status::Faulted(Fault::MissingHalt),
                    Flow::Halt => Status::Halted,
                }
            },
        }
    }

    /// Runs `rom` from the current state until it halts or faults.
    pub fn execute(&mut self, rom: &Vec<Instr>, labels: &LabelTable) -> (r: Result<(), Fault>)
        ensures
            (final(self)@, r) == run_spec(instrs_view(rom@), labels@, old(self)@),
    {
        loop
            invariant
                run_spec(instrs_view(rom@), labels@, self@) == run_spec(
                    instrs_view(rom@),
                    labels@,
                    old(self)@,
                ),
            decreases self.max_instr - self.instr_count,
        {
            match self.step(rom, labels) {
                Status::Running => {},
                Status::Halted => {
                    return Ok(());
                },
                Status::Faulted(f) => {
                    return Err(f);
                },
            }
        }
    }
}

proof fn lemma_wrap16_mod(pc: int)
    requires
        pc >= 0,
    ensures
        wrap16(pc % 65536 + 1) == wrap16(pc + 1),
{
    assert((pc % 65536 + 1 + 32768) % 65536 == (pc + 1 + 32768) % 65536) by (nonlinear_arith)
        requires pc >= 0,
    ;
}

/// `add`, `addi` and `nand` never fail on valid registers and stay within 16
/// bits: a sum that overflows wraps around modulo 2^16.
pub proof fn lemma_arith_wraps(
    m: MachineV,
    labels: Seq<(Seq<char>, nat)>,
    d: usize,
    s: usize,
    t: usize,
    imm: Seq<char>,
)
    requires
        m.wf(),
        d < 8,
        s < 8,
        t < 8,
    ensures
        ({
            let (m1, r) = exec_spec(m, InstrV::Add(d, s, t), labels);
            let sum = m.regs[s as int] + m.regs[t as int];
            &&& r == Ok::<Flow, Fault>(Flow::Next)
            &&& m1.regs[d as int] as int == wrap16(sum)
            &&& -32768 <= wrap16(sum) <= 32767
            &&& (wrap16(sum) - sum) % 65536 == 0
        }),
        ({
            let (m1, r) = exec_spec(m, InstrV::Nand(d, s, t), labels);
            &&& r == Ok::<Flow, Fault>(Flow::Next)
            &&& m1.regs[d as int] == nand16(m.regs[s as int], m.regs[t as int])
        }),
        literal_value(imm) matches Some(v) ==> ({
            let (m1, r) = exec_spec(m, InstrV::Addi(d, s, imm), labels);
            let sum = m.regs[s as int] + v;
            &&& r == Ok::<Flow, Fault>(Flow::Next)
            &&& m1.regs[d as int] as int == wrap16(sum)
            &&& -32768 <= wrap16(sum) <= 32767
            &&& (wrap16(sum) - sum) % 65536 == 0
        }),
{
    let sum = m.regs[s as int] + m.regs[t as int];
    let a = m.regs[s as int];
    let b = m.regs[t as int];
    assert(exec_spec(m, InstrV::Nand(d, s, t), labels) == alu_spec(m, true, d, s, t));
    lemma_wrap16_range(sum);
    lemma_wrap16_add(m.regs[s as int] as int, m.regs[t as int] as int);
    if let Some(v) = literal_value(imm) {
        lemma_wrap16_range(m.regs[s as int] + v);
        lemma_wrap16_add(m.regs[s as int] as int, v);
    }
}

proof fn lemma_exec_wf(m: MachineV, i: InstrV, labels: Seq<(Seq<char>, nat)>)
    requires
        m.wf(),
    ensures
        exec_spec(m, i, labels).0.wf(),
{
    match i {
        InstrV::Addi(..) => {
            assert(exec_spec(m, i, labels) == imm7_spec(m, i));
        },
        InstrV::Lw(..) => {
            assert(exec_spec(m, i, labels) == imm7_spec(m, i));
        },
        InstrV::Sw(..) => {
            assert(exec_spec(m, i, labels) == imm7_spec(m, i));
        },
        _ => {},
    }
}

/// Register 0 reads as zero after every instruction that completes,
/// whatever the instruction wrote into it.
pub proof fn lemma_r0_zero(prog: Seq<InstrV>, labels: Seq<(Seq<char>, nat)>, m: MachineV)
    requires
        m.wf(),
    ensures
        ({
            let (m1, st) = step_spec(prog, labels, m);
            (st is Running || st is Halted) ==> m1.regs[0] == 0
        }),
{
    if m.pc < prog.len() {
        lemma_exec_wf(m, prog[m.pc as int], labels);
    }
}

/// `jalr d, s` links the index after the jump, taken before the jump, and
/// the next step runs the instruction that `s` held the index of, even when
/// `d` and `s` are the same register.
pub proof fn lemma_jalr_links(
    prog: Seq<InstrV>,
    labels: Seq<(Seq<char>, nat)>,
    m: MachineV,
    d: usize,
    s: usize,
)
    requires
        m.wf(),
        m.pc < prog.len(),
        prog[m.pc as int] == InstrV::Jalr(d, s),
        0 < d < 8,
        s < 8,
        m.regs[s as int] >= 0,
        m.count < m.max,
    ensures
        ({
            let (m1, st) = step_spec(prog, labels, m);
            &&& st == Status::Running
            &&& m1.regs[d as int] as int == wrap16(m.pc as int + 1)
            &&& m1.pc == m.regs[s as int]
            &&& step_spec(prog, labels, m1) == step_spec(
                prog,
                labels,
                MachineV { pc: m.regs[s as int] as nat, ..m1 },
            )
        }),
{
    lemma_wrap16_range(m.pc as int + 1);
}

} // verus!
