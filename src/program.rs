//! Decoded instructions and the label table.
use vstd::prelude::*;
use crate::num::{decimal, push_decimal};
use crate::text::{chars_of, push_chars, string_of};

verus! {

/// The opcodes of the instruction set.
#[derive(Clone, Copy, Debug, PartialEq, Eq, Structural)]
pub enum Opcode {
    Nop,
    Halt,
    Reset,
    Add,
    Addi,
    Nand,
    Movi,
    Lui,
    Lw,
    Sw,
    Beq,
    Jalr,
}

/// The mnemonic of each opcode, as source text writes it.
pub open spec fn opcode_name(o: Opcode) -> Seq<char> {
    match o {
        Opcode::Nop => seq!['n', 'o', 'p'],
        Opcode::Halt => seq!['h', 'a', 'l', 't'],
        Opcode::Reset => seq!['r', 'e', 's', 'e', 't'],
        Opcode::Add => seq!['a', 'd', 'd'],
        Opcode::Addi => seq!['a', 'd', 'd', 'i'],
        Opcode::Nand => seq!['n', 'a', 'n', 'd'],
        Opcode::Movi => seq!['m', 'o', 'v', 'i'],
        Opcode::Lui => seq!['l', 'u', 'i'],
        Opcode::Lw => seq!['l', 'w'],
        Opcode::Sw => seq!['s', 'w'],
        Opcode::Beq => seq!['b', 'e', 'q'],
        Opcode::Jalr => seq!['j', 'a', 'l', 'r'],
    }
}

pub open spec fn all_opcodes() -> Seq<Opcode> {
    seq![
        Opcode::Nop,
        Opcode::Halt,
        Opcode::Reset,
        Opcode::Add,
        Opcode::Addi,
        Opcode::Nand,
        Opcode::Movi,
        Opcode::Lui,
        Opcode::Lw,
        Opcode::Sw,
        Opcode::Beq,
        Opcode::Jalr,
    ]
}

/// The opcode whose mnemonic is `s`, if any.
pub open spec fn opcode_of(s: Seq<char>) -> Option<Opcode> {
    if exists|o: Opcode| opcode_name(o) == s {
        Some(choose|o: Opcode| opcode_name(o) == s)
    } else {
        None
    }
}

impl Opcode {
    pub fn name(&self) -> (r: Vec<char>)
        ensures
            r@ == opcode_name(*self),
    {
        let r = match self {
            Opcode::Nop => vec!['n', 'o', 'p'],
            Opcode::Halt => vec!['h', 'a', 'l', 't'],
            Opcode::Reset => vec!['r', 'e', 's', 'e', 't'],
            Opcode::Add => vec!['a', 'd', 'd'],
            Opcode::Addi => vec!['a', 'd', 'd', 'i'],
            Opcode::Nand => vec!['n', 'a', 'n', 'd'],
            Opcode::Movi => vec!['m', 'o', 'v', 'i'],
            Opcode::Lui => vec!['l', 'u', 'i'],
            Opcode::Lw => vec!['l', 'w'],
            Opcode::Sw => vec!['s', 'w'],
            Opcode::Beq => vec!['b', 'e', 'q'],
            Opcode::Jalr => vec!['j', 'a', 'l', 'r'],
        };
        assert(r@ =~= opcode_name(*self));
        r
    }

    /// The opcode whose mnemonic is `s`, if any.
    pub fn from_chars(s: &Vec<char>) -> (r: Option<Opcode>)
        ensures
            r == opcode_of(s@),
    {
        proof {
            lemma_names_distinct();
        }
        let ops: Vec<Opcode> = vec![
            Opcode::Nop,
            Opcode::Halt,
            Opcode::Reset,
            Opcode::Add,
            Opcode::Addi,
            Opcode::Nand,
            Opcode::Movi,
            Opcode::Lui,
            Opcode::Lw,
            Opcode::Sw,
            Opcode::Beq,
            Opcode::Jalr,
        ];
        assert(ops@ =~= all_opcodes());
        let mut i: usize = 0;
        while i < ops.len()
            invariant
                i <= ops.len(),
                ops@ == all_opcodes(),
                forall|j: int| 0 <= j < i ==> opcode_name(#[trigger] all_opcodes()[j]) != s@,
            decreases ops.len() - i,
        {
            let o = ops[i];
            let name = o.name();
            if chars_eq(&name, s) {
                return Some(o);
            }
            i += 1;
        }
        proof {
            assert forall|o: Opcode| opcode_name(o) != s@ by {
                lemma_opcode_listed(o);
            }
        }
        None
    }
}

proof fn lemma_opcode_listed(o: Opcode)
    ensures
        exists|j: int| 0 <= j < 12 && all_opcodes()[j] == o,
{
    match o {
        Opcode::Nop => assert(all_opcodes()[0] == o),
        Opcode::Halt => assert(all_opcodes()[1] == o),
        Opcode::Reset => assert(all_opcodes()[2] == o),
        Opcode::Add => assert(all_opcodes()[3] == o),
        Opcode::Addi => assert(all_opcodes()[4] == o),
        Opcode::Nand => assert(all_opcodes()[5] == o),
        Opcode::Movi => assert(all_opcodes()[6] == o),
        Opcode::Lui => assert(all_opcodes()[7] == o),
        Opcode::Lw => assert(all_opcodes()[8] == o),
        Opcode::Sw => assert(all_opcodes()[9] == o),
        Opcode::Beq => assert(all_opcodes()[10] == o),
        Opcode::Jalr => assert(all_opcodes()[11] == o),
    }
}

/// No two opcodes share a mnemonic.
pub proof fn lemma_names_distinct()
    ensures
        forall|a: Opcode, b: Opcode| opcode_name(a) == opcode_name(b) ==> a == b,
{
    assert forall|a: Opcode, b: Opcode| opcode_name(a) == opcode_name(b) implies a == b by {
        if opcode_name(a) == opcode_name(b) && a != b {
            let x = opcode_name(a);
            let y = opcode_name(b);
            assert(x.len() == y.len());
            assert(x[0] == y[0]);
            assert(x[1] == y[1]);
            assert(x[x.len() - 1] == y[y.len() - 1]);
        }
    }
}

pub fn chars_eq(a: &Vec<char>, b: &Vec<char>) -> (r: bool)
    ensures
        r == (a@ == b@),
{
    if a.len() != b.len() {
        return false;
    }
    let mut i: usize = 0;
    while i < a.len()
        invariant
            i <= a.len() == b.len(),
            forall|j: int| 0 <= j < i ==> a@[j] == b@[j],
        decreases a.len() - i,
    {
        if a[i] != b[i] {
            return false;
        }
        i += 1;
    }
    assert(a@ =~= b@);
    true
}

/// A decoded instruction: its opcode together with its typed arguments.
/// Registers are indices; an operand is the literal or label text.
#[derive(Debug)]
pub enum Instr {
    Nop,
    Halt,
    Reset,
    Add(usize, usize, usize),
    Addi(usize, usize, String),
    Nand(usize, usize, usize),
    Movi(usize, String),
    Lui(usize, String),
    Lw(usize, usize, String),
    Sw(usize, usize, String),
    Beq(usize, usize, String),
    Jalr(usize, usize),
}

/// The mathematical value of an instruction.
pub enum InstrV {
    Nop,
    Halt,
    Reset,
    Add(usize, usize, usize),
    Addi(usize, usize, Seq<char>),
    Nand(usize, usize, usize),
    Movi(usize, Seq<char>),
    Lui(usize, Seq<char>),
    Lw(usize, usize, Seq<char>),
    Sw(usize, usize, Seq<char>),
    Beq(usize, usize, Seq<char>),
    Jalr(usize, usize),
}

impl View for Instr {
    type V = InstrV;

    open spec fn view(&self) -> InstrV {
        match self {
            Instr::Nop => InstrV::Nop,
            Instr::Halt => InstrV::Halt,
            Instr::Reset => InstrV::Reset,
            Instr::Add(a, b, c) => InstrV::Add(*a, *b, *c),
            Instr::Addi(a, b, s) => InstrV::Addi(*a, *b, s@),
            Instr::Nand(a, b, c) => InstrV::Nand(*a, *b, *c),
            Instr::Movi(a, s) => InstrV::Movi(*a, s@),
            Instr::Lui(a, s) => InstrV::Lui(*a, s@),
            Instr::Lw(a, b, s) => InstrV::Lw(*a, *b, s@),
            Instr::Sw(a, b, s) => InstrV::Sw(*a, *b, s@),
            Instr::Beq(a, b, s) => InstrV::Beq(*a, *b, s@),
            Instr::Jalr(a, b) => InstrV::Jalr(*a, *b),
        }
    }
}

/// The values of a sequence of instructions.
pub open spec fn instrs_view(v: Seq<Instr>) -> Seq<InstrV> {
    v.map_values(|i: Instr| i@)
}

pub open spec fn opcode_of_instr(i: InstrV) -> Opcode {
    match i {
        InstrV::Nop => Opcode::Nop,
        InstrV::Halt => Opcode::Halt,
        InstrV::Reset => Opcode::Reset,
        InstrV::Add(..) => Opcode::Add,
        InstrV::Addi(..) => Opcode::Addi,
        InstrV::Nand(..) => Opcode::Nand,
        InstrV::Movi(..) => Opcode::Movi,
        InstrV::Lui(..) => Opcode::Lui,
        InstrV::Lw(..) => Opcode::Lw,
        InstrV::Sw(..) => Opcode::Sw,
        InstrV::Beq(..) => Opcode::Beq,
        InstrV::Jalr(..) => Opcode::Jalr,
    }
}

/// Registers joined by commas, as `1,2,3`.
pub open spec fn regs_text(r: Seq<usize>) -> Seq<char>
    decreases r.len(),
{
    if r.len() == 0 {
        Seq::empty()
    } else if r.len() == 1 {
        decimal(r[0] as int)
    } else {
        regs_text(r.drop_last()) + seq![','] + decimal(r.last() as int)
    }
}

/// The argument text of an instruction.
pub open spec fn args_text(i: InstrV) -> Seq<char> {
    match i {
        InstrV::Add(a, b, c) => regs_text(seq![a, b, c]),
        InstrV::Nand(a, b, c) => regs_text(seq![a, b, c]),
        InstrV::Jalr(a, b) => regs_text(seq![a, b]),
        InstrV::Addi(a, b, s) => regs_text(seq![a, b]) + seq![','] + s,
        InstrV::Lw(a, b, s) => regs_text(seq![a, b]) + seq![','] + s,
        InstrV::Sw(a, b, s) => regs_text(seq![a, b]) + seq![','] + s,
        InstrV::Beq(a, b, s) => regs_text(seq![a, b]) + seq![','] + s,
        InstrV::Movi(a, s) => regs_text(seq![a]) + seq![','] + s,
        InstrV::Lui(a, s) => regs_text(seq![a]) + seq![','] + s,
        _ => Seq::empty(),
    }
}

/// An instruction as a source line: mnemonic, a space, its arguments.
pub open spec fn instr_text(i: InstrV) -> Seq<char> {
    opcode_name(opcode_of_instr(i)) + seq![' '] + args_text(i)
}

/// The label declarations in order: each name with the instruction index it
/// was given. A later declaration of a name overrides an earlier one.
#[derive(Debug)]
pub struct LabelTable {
    entries: Vec<(String, usize)>,
}

/// The index that the last declaration of `name` in `t` gives, if any.
pub open spec fn lookup(t: Seq<(Seq<char>, nat)>, name: Seq<char>) -> Option<nat>
    decreases t.len(),
{
    if t.len() == 0 {
        None
    } else if t.last().0 == name {
        Some(t.last().1)
    } else {
        lookup(t.drop_last(), name)
    }
}

/// Whether the declaration at `k` is overridden by a later one.
pub open spec fn shadowed(t: Seq<(Seq<char>, nat)>, k: int) -> bool {
    exists|j: int| k < j < t.len() && t[j].0 == t[k].0
}

impl View for LabelTable {
    type V = Seq<(Seq<char>, nat)>;

    closed spec fn view(&self) -> Seq<(Seq<char>, nat)> {
        self.entries@.map_values(|e: (String, usize)| (e.0@, e.1 as nat))
    }
}

impl LabelTable {
    pub fn new() -> (r: LabelTable)
        ensures
            r@ == Seq::<(Seq<char>, nat)>::empty(),
    {
        let r = LabelTable { entries: Vec::new() };
        assert(r@ =~= Seq::<(Seq<char>, nat)>::empty());
        r
    }

    pub fn len(&self) -> (r: usize)
        ensures
            r == self@.len(),
    {
        self.entries.len()
    }

    /// Records that `name` labels instruction `index`.
    pub fn declare(&mut self, name: String, index: usize)
        ensures
            final(self)@ == old(self)@.push((name@, index as nat)),
    {
        self.entries.push((name, index));
        assert(self@ =~= old(self)@.push((name@, index as nat)));
    }

    pub fn name_at(&self, k: usize) -> (r: &String)
        requires
            k < self@.len(),
        ensures
            r@ == self@[k as int].0,
    {
        &self.entries[k].0
    }

    pub fn index_at(&self, k: usize) -> (r: usize)
        requires
            k < self@.len(),
        ensures
            r as nat == self@[k as int].1,
    {
        self.entries[k].1
    }

    /// The instruction index that `name` stands for.
    pub fn get(&self, name: &String) -> (r: Option<usize>)
        ensures
            match r {
                Some(i) => lookup(self@, name@) == Some(i as nat),
                None => lookup(self@, name@) is None,
            },
    {
        let mut k: usize = self.entries.len();
        assert(self@.take(k as int) =~= self@);
        while k > 0
            invariant
                k <= self@.len(),
                lookup(self@, name@) == lookup(self@.take(k as int), name@),
            decreases k,
        {
            let ghost t = self@.take(k as int);
            assert(t.drop_last() =~= self@.take(k - 1));
            if self.entries[k - 1].0 == *name {
                return Some(self.entries[k - 1].1);
            }
            k -= 1;
        }
        None
    }

    /// Whether the declaration at `k` is overridden by a later one.
    pub fn is_shadowed(&self, k: usize) -> (r: bool)
        requires
            k < self@.len(),
        ensures
            r == shadowed(self@, k as int),
    {
        let n = self.entries.len();
        assert(self@.len() == n);
        let mut j: usize = k + 1;
        while j < self.entries.len()
            invariant
                k < j <= self@.len(),
                forall|m: int| k < m < j ==> self@[m].0 != self@[k as int].0,
            decreases self@.len() - j,
        {
            if self.entries[j].0 == self.entries[k].0 {
                assert(self@[j as int].0 == self@[k as int].0);
                return true;
            }
            j += 1;
        }
        false
    }
}

fn push_regs(out: &mut String, regs: &Vec<usize>)
    ensures
        final(out)@ == old(out)@ + regs_text(regs@),
{
    let mut i: usize = 0;
    assert(regs@.take(0) =~= Seq::<usize>::empty());
    while i < regs.len()
        invariant
            i <= regs.len(),
            out@ == old(out)@ + regs_text(regs@.take(i as int)),
        decreases regs.len() - i,
    {
        assert(regs@.take(i + 1).drop_last() =~= regs@.take(i as int));
        if i > 0 {
            out.push(',');
        }
        push_decimal(out, regs[i] as i128);
        i += 1;
        assert(out@ =~= old(out)@ + regs_text(regs@.take(i as int)));
    }
    assert(regs@.take(i as int) =~= regs@);
}

impl Instr {
    pub fn opcode(&self) -> (r: Opcode)
        ensures
            r == opcode_of_instr(self@),
    {
        match self {
            Instr::Nop => Opcode::Nop,
            Instr::Halt => Opcode::Halt,
            Instr::Reset => Opcode::Reset,
            Instr::Add(..) => Opcode::Add,
            Instr::Addi(..) => Opcode::Addi,
            Instr::Nand(..) => Opcode::Nand,
            Instr::Movi(..) => Opcode::Movi,
            Instr::Lui(..) => Opcode::Lui,
            Instr::Lw(..) => Opcode::Lw,
            Instr::Sw(..) => Opcode::Sw,
            Instr::Beq(..) => Opcode::Beq,
            Instr::Jalr(..) => Opcode::Jalr,
        }
    }

    /// The instruction as a source line: `mnemonic args`.
    pub fn text(&self) -> (r: String)
        ensures
            r@ == instr_text(self@),
    {
        let mut out = string_of(&self.opcode().name());
        out.push(' ');
        let ghost head = out@;
        match self {
            Instr::Add(a, b, c) | Instr::Nand(a, b, c) => {
                let v = vec![*a, *b, *c];
                push_regs(&mut out, &v);
                assert(v@ =~= seq![*a, *b, *c]);
            },
            Instr::Jalr(a, b) => {
                let v = vec![*a, *b];
                push_regs(&mut out, &v);
                assert(v@ =~= seq![*a, *b]);
            },
            Instr::Addi(a, b, x) | Instr::Lw(a, b, x) | Instr::Sw(a, b, x) | Instr::Beq(a, b, x) => {
                let v = vec![*a, *b];
                push_regs(&mut out, &v);
                assert(v@ =~= seq![*a, *b]);
                out.push(',');
                push_chars(&mut out, &chars_of(x.as_str()));
            },
            Instr::Movi(a, x) | Instr::Lui(a, x) => {
                let v = vec![*a];
                push_regs(&mut out, &v);
                assert(v@ =~= seq![*a]);
                out.push(',');
                push_chars(&mut out, &chars_of(x.as_str()));
            },
            _ => {},
        }
        assert(out@ =~= instr_text(self@));
        out
    }
}

} // verus!
