//! Whole runs from source text: one program once, or one program against many
//! initial register sets.
use vstd::prelude::*;
use crate::loader::{load_rom, load_spec, LoadError};
use crate::machine::{fault_text, initial, run_spec, Fault, Machine, MachineV};
use crate::num::{decimal, hex16, push_decimal, push_hex16, wrap16, wrap_i16};
use crate::program::{instrs_view, Instr, InstrV, LabelTable};
use crate::text::push_str;
use rayon::iter::{IntoParallelRefIterator, ParallelIterator};

verus! {

/// The register values in hexadecimal, separated by `, `.
pub open spec fn regs_hex(r: Seq<i16>) -> Seq<char>
    decreases r.len(),
{
    if r.len() == 0 {
        Seq::empty()
    } else if r.len() == 1 {
        hex16(r[0])
    } else {
        regs_hex(r.drop_last()) + ", "@ + hex16(r.last())
    }
}

/// The one-line summary of a machine state.
pub open spec fn state_text(m: MachineV) -> Seq<char> {
    "PC: "@ + decimal(m.pc as int) + ", Instr. count: "@ + decimal(m.count as int) + ", regs: ["@
        + regs_hex(m.regs) + "]\n"@
}

/// The trace of a finished run: what the run wrote, then the fault if any.
pub open spec fn closing_trace(m: MachineV, r: Result<(), Fault>) -> Seq<char> {
    match r {
        Ok(()) => m.trace,
        Err(f) => m.trace + "Error! "@ + fault_text(f) + "\n"@,
    }
}

impl Machine {
    /// The one-line summary of the state: program counter, instruction count
    /// and registers.
    pub fn print_state(&self) -> (r: String)
        ensures
            r@ == state_text(self@),
    {
        let mut out = String::new();
        push_str(&mut out, "PC: ");
        push_decimal(&mut out, self.pc as i128);
        push_str(&mut out, ", Instr. count: ");
        push_decimal(&mut out, self.instr_count as i128);
        push_str(&mut out, ", regs: [");
        let ghost head = out@;
        let mut i: usize = 0;
        assert(self.registers@.take(0) =~= Seq::<i16>::empty());
        while i < 8
            invariant
                i <= 8,
                self.registers@.len() == 8,
                out@ == head + regs_hex(self.registers@.take(i as int)),
            decreases 8 - i,
        {
            let ghost t = self.registers@.take(i + 1);
            assert(t.drop_last() =~= self.registers@.take(i as int));
            if i > 0 {
                push_str(&mut out, ", ");
            }
            push_hex16(&mut out, self.registers[i]);
            i += 1;
            assert(out@ =~= head + regs_hex(self.registers@.take(i as int)));
        }
        assert(self.registers@.take(8) =~= self.registers@);
        push_str(&mut out, "]\n");
        assert(out@ =~= state_text(self@));
        out
    }

    /// Appends the state summary to the trace.
    pub fn display_state(&mut self)
        ensures
            final(self)@ == old(self)@.note(state_text(old(self)@)),
    {
        let s = self.print_state();
        let c = crate::text::chars_of(s.as_str());
        crate::text::push_chars(&mut self.buffer, &c);
    }

    /// Appends the fault of a finished run, if any, to the trace.
    pub fn close(&mut self, r: Result<(), Fault>)
        ensures
            final(self)@ == (MachineV { trace: closing_trace(old(self)@, r), ..old(self)@ }),
    {
        if let Err(f) = r {
            push_str(&mut self.buffer, "Error! ");
            let msg = f.message();
            let c = crate::text::chars_of(msg.as_str());
            crate::text::push_chars(&mut self.buffer, &c);
            push_str(&mut self.buffer, "\n");
            assert(self.buffer@ =~= closing_trace(old(self)@, r));
        }
    }
}

/// Runs a source text once from a fresh machine with a budget of
/// `max_instr` instructions. Returns the trace, closed by the fault if the
/// run faulted, and the summary of the final state; or the load error.
pub fn run_from_str(max_instr: u32, code: &str) -> (r: Result<(String, String), LoadError>)
    ensures
        match load_spec(code@) {
            Err(e) => r matches Err(x) && x@ == e,
            Ok((is, ls)) => {
                let (m, res) = run_spec(is, ls, initial(max_instr as nat));
                r matches Ok((trace, state)) && trace@ == closing_trace(m, res) && state@
                    == state_text(m)
            },
        },
{
    match load_rom(code) {
        Err(e) => Err(e),
        Ok((rom, labels)) => {
            let mut m = Machine::new(max_instr);
            let res = m.execute(&rom, &labels);
            m.close(res);
            let state = m.print_state();
            Ok((m.buffer, state))
        },
    }
}

pub const DEFAULT_BUDGET: u32 = 100000;

/// Runs a source text once with the default budget and returns the trace,
/// closed by the fault if any and then by the final state; a text that does
/// not load gives its error instead.
pub fn main_from_str(code: &str) -> (r: String)
    ensures
        match load_spec(code@) {
            Err(e) => r@ == "Error! "@ + crate::loader::kind_text(e.kind) + ": "@ + e.line
                + "\n"@,
            Ok((is, ls)) => {
                let (m, res) = run_spec(is, ls, initial(DEFAULT_BUDGET as nat));
                r@ == closing_trace(m, res) + state_text(m)
            },
        },
{
    match load_rom(code) {
        Err(e) => {
            let mut out = String::new();
            push_str(&mut out, "Error! ");
            let msg = e.message();
            let c = crate::text::chars_of(msg.as_str());
            crate::text::push_chars(&mut out, &c);
            push_str(&mut out, "\n");
            assert(out@ =~= "Error! "@ + crate::loader::kind_text(e.kind) + ": "@ + e.line@
                + "\n"@);
            out
        },
        Ok((rom, labels)) => {
            let mut m = Machine::new(DEFAULT_BUDGET);
            let res = m.execute(&rom, &labels);
            m.close(res);
            m.display_state();
            m.buffer
        },
    }
}

/// Whether every override names one of the eight registers.
pub open spec fn overrides_valid(ov: Seq<(i32, i32)>) -> bool {
    forall|k: int| 0 <= k < ov.len() ==> 0 <= #[trigger] ov[k].0 < 8
}

/// The machine after the overrides, in order: each sets a register to its
/// value cut to 16 bits.
pub open spec fn apply_overrides(m: MachineV, ov: Seq<(i32, i32)>) -> MachineV
    decreases ov.len(),
{
    if ov.len() == 0 {
        m
    } else {
        apply_overrides(m, ov.drop_last()).set_reg(ov.last().0 as int, wrap16(ov.last().1 as int))
    }
}

/// The final registers of one run from a fresh machine with `ov` applied.
#[verifier::opaque]
pub open spec fn entry_spec(
    prog: Seq<InstrV>,
    labels: Seq<(Seq<char>, nat)>,
    max: nat,
    ov: Seq<(i32, i32)>,
) -> Seq<i16> {
    run_spec(prog, labels, apply_overrides(initial(max), ov)).0.regs
}

/// The final registers of the runs one after another, in order.
pub open spec fn batch_spec(
    prog: Seq<InstrV>,
    labels: Seq<(Seq<char>, nat)>,
    max: nat,
    tests: Seq<Seq<(i32, i32)>>,
) -> Seq<Seq<i16>>
    decreases tests.len(),
{
    if tests.len() == 0 {
        Seq::empty()
    } else {
        batch_spec(prog, labels, max, tests.drop_last()).push(
            entry_spec(prog, labels, max, tests.last()),
        )
    }
}

/// Applies register overrides to a machine.
pub fn apply(m: &mut Machine, ov: &Vec<(i32, i32)>)
    requires
        overrides_valid(ov@),
    ensures
        final(m)@ == apply_overrides(old(m)@, ov@),
{
    let mut i: usize = 0;
    assert(ov@.take(0) =~= Seq::<(i32, i32)>::empty());
    while i < ov.len()
        invariant
            i <= ov.len(),
            overrides_valid(ov@),
            m@ == apply_overrides(old(m)@, ov@.take(i as int)),
        decreases ov.len() - i,
    {
        let (r, v) = ov[i];
        assert(ov@.take(i + 1).drop_last() =~= ov@.take(i as int));
        assert(0 <= ov@[i as int].0 < 8);
        m.registers[r as usize] = wrap_i16(v as i64);
        i += 1;
    }
    assert(ov@.take(i as int) =~= ov@);
}

/// One run of an assembled program from a fresh machine with the overrides
/// applied; the final registers.
pub fn run_entry(rom: &Vec<Instr>, labels: &LabelTable, max_instr: u32, ov: &Vec<(i32, i32)>) -> (r: [i16; 8])
    requires
        overrides_valid(ov@),
    ensures
        r@ == entry_spec(instrs_view(rom@), labels@, max_instr as nat, ov@),
{
    let mut m = Machine::new(max_instr);
    apply(&mut m, ov);
    let _ = m.execute(rom, labels);
    proof {
        reveal(entry_spec);
    }
    m.registers
}

/// The overrides of each run, as values.
pub open spec fn tests_view(tests: Seq<Vec<(i32, i32)>>) -> Seq<Seq<(i32, i32)>> {
    tests.map_values(|t: Vec<(i32, i32)>| t@)
}

pub open spec fn all_valid(tests: Seq<Vec<(i32, i32)>>) -> bool {
    forall|i: int| 0 <= i < tests.len() ==> overrides_valid(#[trigger] tests[i]@)
}

/// Relies on rayon's `par_iter().map(..).collect()` into a `Vec`: one result
/// for each input, in the order of the inputs.
#[verifier::external_body]
fn run_all_par(
    rom: &Vec<Instr>,
    labels: &LabelTable,
    max_instr: u32,
    tests: &Vec<Vec<(i32, i32)>>,
) -> (r: Vec<[i16; 8]>)
    requires
        all_valid(tests@),
    ensures
        r@.len() == tests@.len(),
        forall|i: int|
            0 <= i < tests@.len() ==> #[trigger] r@[i]@ == entry_spec(
                instrs_view(rom@),
                labels@,
                max_instr as nat,
                tests@[i]@,
            ),
{
    tests.par_iter().map(|t| run_entry(rom, labels, max_instr, t)).collect()
}

proof fn lemma_batch_step(
    prog: Seq<InstrV>,
    labels: Seq<(Seq<char>, nat)>,
    max: nat,
    tv: Seq<Seq<(i32, i32)>>,
    i: int,
)
    requires
        0 <= i < tv.len(),
    ensures
        batch_spec(prog, labels, max, tv.take(i + 1)) == batch_spec(prog, labels, max, tv.take(i)).push(
            entry_spec(prog, labels, max, tv[i]),
        ),
{
    assert(tv.take(i + 1).drop_last() =~= tv.take(i));
}

/// Loads a source text, then runs it once for each set of register
/// overrides, one run after another, each on a fresh machine.
/// Returns the final registers of each run, in order, or the load error.
pub fn test_batch(max_instr: u32, code: &str, tests: &Vec<Vec<(i32, i32)>>) -> (r: Result<
    Vec<[i16; 8]>,
    LoadError,
>)
    requires
        all_valid(tests@),
    ensures
        match load_spec(code@) {
            Err(e) => r matches Err(x) && x@ == e,
            Ok((is, ls)) => r matches Ok(v) && v@.len() == tests@.len() && forall|i: int|
                0 <= i < tests@.len() ==> #[trigger] v@[i]@ == batch_spec(
                    is,
                    ls,
                    max_instr as nat,
                    tests_view(tests@),
                )[i],
        },
{
    let (rom, labels) = match load_rom(code) {
        Err(e) => return Err(e),
        Ok(p) => p,
    };
    let ghost prog = instrs_view(rom@);
    let ghost tv = tests_view(tests@);
    let mut out: Vec<[i16; 8]> = Vec::new();
    let mut i: usize = 0;
    assert(tv.take(0) =~= Seq::<Seq<(i32, i32)>>::empty());
    while i < tests.len()
        invariant
            i <= tests.len(),
            all_valid(tests@),
            tv == tests_view(tests@),
            prog == instrs_view(rom@),
            out@.len() == i,
            batch_spec(prog, labels@, max_instr as nat, tv.take(i as int)).len() == i,
            forall|k: int|
                0 <= k < i ==> #[trigger] out@[k]@ == batch_spec(
                    prog,
                    labels@,
                    max_instr as nat,
                    tv.take(i as int),
                )[k],
        decreases tests.len() - i,
    {
        assert(tv[i as int] == tests@[i as int]@);
        assert(overrides_valid(tests@[i as int]@));
        let regs = run_entry(&rom, &labels, max_instr, &tests[i]);
        proof {
            lemma_batch_step(prog, labels@, max_instr as nat, tv, i as int);
        }
        let ghost b1 = batch_spec(prog, labels@, max_instr as nat, tv.take(i + 1));
        let ghost old_out = out@;
        out.push(regs);
        assert forall|k: int| 0 <= k < i + 1 implies #[trigger] out@[k]@ == b1[k] by {
            if k < i {
                assert(out@[k] == old_out[k]);
                assert(old_out[k]@ == batch_spec(prog, labels@, max_instr as nat, tv.take(i as int))[k]);
                assert(b1[k] == batch_spec(prog, labels@, max_instr as nat, tv.take(i as int))[k]);
            } else {
                assert(out@[k] == regs);
                assert(regs@ == entry_spec(prog, labels@, max_instr as nat, tv[i as int]));
                assert(b1[k] == entry_spec(prog, labels@, max_instr as nat, tv[i as int]));
            }
        }
        i += 1;
    }
    assert(tv.take(i as int) =~= tv);
    Ok(out)
}

/// Loads a source text, then runs it once for each set of register
/// overrides, the runs spread over a thread pool, each on a machine of its
/// own. Returns the final registers of each run, in order, or the load error.
pub fn test_batch_par(max_instr: u32, code: &str, tests: &Vec<Vec<(i32, i32)>>) -> (r: Result<
    Vec<[i16; 8]>,
    LoadError,
>)
    requires
        all_valid(tests@),
    ensures
        match load_spec(code@) {
            Err(e) => r matches Err(x) && x@ == e,
            Ok((is, ls)) => r matches Ok(v) && v@.len() == tests@.len() && forall|i: int|
                0 <= i < tests@.len() ==> #[trigger] v@[i]@ == entry_spec(
                    is,
                    ls,
                    max_instr as nat,
                    tests@[i]@,
                ),
        },
{
    let (rom, labels) = match load_rom(code) {
        Err(e) => return Err(e),
        Ok(p) => p,
    };
    Ok(run_all_par(&rom, &labels, max_instr, tests))
}

/// Running the same program on the same overrides one after another or each
/// on its own gives the same final registers: every run of a batch ends as
/// the lone run on its overrides would.
pub proof fn lemma_batch_deterministic(
    prog: Seq<InstrV>,
    labels: Seq<(Seq<char>, nat)>,
    max: nat,
    tests: Seq<Seq<(i32, i32)>>,
)
    ensures
        batch_spec(prog, labels, max, tests).len() == tests.len(),
        forall|i: int|
            0 <= i < tests.len() ==> #[trigger] batch_spec(prog, labels, max, tests)[i]
                == entry_spec(prog, labels, max, tests[i]),
    decreases tests.len(),
{
    if tests.len() > 0 {
        lemma_batch_deterministic(prog, labels, max, tests.drop_last());
    }
}

} // verus!
