//! The assembler: from source text to instructions and labels.
use vstd::prelude::*;
use crate::num::{parse_unsigned, parse_usize, IntErrorKind};
use crate::program::{instr_text, instrs_view, opcode_of, shadowed, Instr, InstrV, LabelTable, Opcode};
use crate::text::{
    chars_of, is_space, is_space_char, push_chars, push_str, slice, split, split_chars, string_of,
    trim, trim_chars, trim_start,
};

verus! {

/// Why a line does not decode.
#[derive(Clone, Copy, Debug, PartialEq, Eq, Structural)]
pub enum LoadErrorKind {
    UnknownOpcode,
    WrongArity,
    BadRegister(IntErrorKind),
}

/// A line that does not decode, with the text that was decoded.
#[derive(Debug)]
pub struct LoadError {
    pub kind: LoadErrorKind,
    pub line: String,
}

pub struct LoadErrorV {
    pub kind: LoadErrorKind,
    pub line: Seq<char>,
}

impl View for LoadError {
    type V = LoadErrorV;

    open spec fn view(&self) -> LoadErrorV {
        LoadErrorV { kind: self.kind, line: self.line@ }
    }
}

pub open spec fn kind_text(k: LoadErrorKind) -> Seq<char> {
    match k {
        LoadErrorKind::UnknownOpcode => "Error: Instruction unknown"@,
        LoadErrorKind::WrongArity => "Wrong number of arguments"@,
        LoadErrorKind::BadRegister(IntErrorKind::Empty) => "cannot parse integer from empty string"@,
        LoadErrorKind::BadRegister(IntErrorKind::InvalidDigit) => "invalid digit found in string"@,
        LoadErrorKind::BadRegister(IntErrorKind::PosOverflow) => "number too large to fit in target type"@,
    }
}

impl LoadError {
    /// The error as text: what went wrong, then the offending line.
    pub fn message(&self) -> (r: String)
        ensures
            r@ == kind_text(self.kind) + ": "@ + self.line@,
    {
        let mut out = String::new();
        match self.kind {
            LoadErrorKind::UnknownOpcode => push_str(&mut out, "Error: Instruction unknown"),
            LoadErrorKind::WrongArity => push_str(&mut out, "Wrong number of arguments"),
            LoadErrorKind::BadRegister(IntErrorKind::Empty) => push_str(
                &mut out,
                "cannot parse integer from empty string",
            ),
            LoadErrorKind::BadRegister(IntErrorKind::InvalidDigit) => push_str(
                &mut out,
                "invalid digit found in string",
            ),
            LoadErrorKind::BadRegister(IntErrorKind::PosOverflow) => push_str(
                &mut out,
                "number too large to fit in target type",
            ),
        }
        push_str(&mut out, ": ");
        let line = crate::text::chars_of(self.line.as_str());
        push_chars(&mut out, &line);
        out
    }
}

/// The index of the first whitespace character of `t`, or its length.
pub open spec fn first_space(t: Seq<char>) -> nat
    decreases t.len(),
{
    if t.len() == 0 || is_space(t[0]) {
        0
    } else {
        1 + first_space(t.drop_first())
    }
}

/// Where a `//` comment starts in `l`, or its length.
pub open spec fn comment_start(l: Seq<char>) -> nat
    decreases l.len(),
{
    if l.len() < 2 {
        l.len()
    } else if l[0] == '/' && l[1] == '/' {
        0
    } else {
        1 + comment_start(l.drop_first())
    }
}

/// The last `:` among the first `k` characters of `t`.
pub open spec fn last_colon(t: Seq<char>, k: int) -> Option<int>
    decreases k,
{
    if k <= 0 {
        None
    } else if t[k - 1] == ':' {
        Some(k - 1)
    } else {
        last_colon(t, k - 1)
    }
}

pub open spec fn remove_colons(t: Seq<char>) -> Seq<char>
    decreases t.len(),
{
    if t.len() == 0 {
        t
    } else if t.last() == ':' {
        remove_colons(t.drop_last())
    } else {
        remove_colons(t.drop_last()).push(t.last())
    }
}

/// What a source line holds, once its comment is cut and it is trimmed.
pub enum LineKind {
    Blank,
    /// A line that ends in `:` declares the name for the next instruction.
    Label(Seq<char>),
    /// `name:instruction`: the name, then the instruction text.
    Labelled(Seq<char>, Seq<char>),
    Plain(Seq<char>),
}

#[verifier::opaque]
pub open spec fn classify(l: Seq<char>) -> LineKind {
    let t = trim(l.take(comment_start(l) as int));
    if t.len() == 0 {
        LineKind::Blank
    } else if t.last() == ':' {
        LineKind::Label(remove_colons(t))
    } else {
        match last_colon(t, first_space(t) as int) {
            Some(j) => LineKind::Labelled(t.take(j), trim(t.skip(j + 1))),
            None => LineKind::Plain(t),
        }
    }
}

/// Parses the first `n` comma-separated fields as register indices.
pub open spec fn parse_regs(parts: Seq<Seq<char>>, n: nat) -> Result<Seq<usize>, IntErrorKind>
    decreases n,
{
    if n == 0 {
        Ok(Seq::empty())
    } else {
        match parse_regs(parts, (n - 1) as nat) {
            Err(e) => Err(e),
            Ok(v) => match parse_unsigned(trim(parts[n - 1])) {
                Err(e) => Err(e),
                Ok(x) => Ok(v.push(x as usize)),
            },
        }
    }
}

/// The register fields of an argument list with `regs` registers, followed by
/// one operand when `operand` holds.
pub open spec fn read_fields(parts: Seq<Seq<char>>, regs: nat, operand: bool) -> Result<
    Seq<usize>,
    LoadErrorKind,
> {
    let n = if parts.len() < regs {
        parts.len()
    } else {
        regs
    };
    match parse_regs(parts, n) {
        Err(e) => Err(LoadErrorKind::BadRegister(e)),
        Ok(v) => if parts.len() != regs + (if operand {
            1nat
        } else {
            0nat
        }) {
            Err(LoadErrorKind::WrongArity)
        } else {
            Ok(v)
        },
    }
}

/// Decodes the arguments of `op` from its comma-separated argument text.
pub open spec fn decode_args(op: Opcode, args: Seq<char>) -> Result<InstrV, LoadErrorKind> {
    let parts = split(args, ',');
    match op {
        Opcode::Nop => Ok(InstrV::Nop),
        Opcode::Halt => Ok(InstrV::Halt),
        Opcode::Reset => Ok(InstrV::Reset),
        Opcode::Add | Opcode::Nand => match read_fields(parts, 3, false) {
            Err(e) => Err(e),
            Ok(r) => Ok(
                if op == Opcode::Add {
                    InstrV::Add(r[0], r[1], r[2])
                } else {
                    InstrV::Nand(r[0], r[1], r[2])
                },
            ),
        },
        Opcode::Jalr => match read_fields(parts, 2, false) {
            Err(e) => Err(e),
            Ok(r) => Ok(InstrV::Jalr(r[0], r[1])),
        },
        Opcode::Movi | Opcode::Lui => match read_fields(parts, 1, true) {
            Err(e) => Err(e),
            Ok(r) => Ok(
                if op == Opcode::Movi {
                    InstrV::Movi(r[0], trim(parts[1]))
                } else {
                    InstrV::Lui(r[0], trim(parts[1]))
                },
            ),
        },
        _ => match read_fields(parts, 2, true) {
            Err(e) => Err(e),
            Ok(r) => Ok(
                match op {
                    Opcode::Addi => InstrV::Addi(r[0], r[1], trim(parts[2])),
                    Opcode::Lw => InstrV::Lw(r[0], r[1], trim(parts[2])),
                    Opcode::Sw => InstrV::Sw(r[0], r[1], trim(parts[2])),
                    _ => InstrV::Beq(r[0], r[1], trim(parts[2])),
                },
            ),
        },
    }
}

/// Decodes an instruction line (already trimmed): the mnemonic up to the
/// first whitespace, then the arguments after it.
#[verifier::opaque]
pub open spec fn decode_line(t: Seq<char>) -> Result<InstrV, LoadErrorKind> {
    let k = first_space(t) as int;
    match opcode_of(t.take(k)) {
        None => Err(LoadErrorKind::UnknownOpcode),
        Some(op) => decode_args(op, trim_start(t.skip(k))),
    }
}

/// The outcome of loading a sequence of lines: instructions and label
/// declarations, or the first error.
pub open spec fn load_lines(lines: Seq<Seq<char>>) -> Result<
    (Seq<InstrV>, Seq<(Seq<char>, nat)>),
    LoadErrorV,
>
    decreases lines.len(),
{
    if lines.len() == 0 {
        Ok((Seq::empty(), Seq::empty()))
    } else {
        match load_lines(lines.drop_last()) {
            Err(e) => Err(e),
            Ok((is, ls)) => match classify(lines.last()) {
                LineKind::Blank => Ok((is, ls)),
                LineKind::Label(name) => Ok((is, ls.push((name, is.len())))),
                LineKind::Labelled(name, rest) => match decode_line(rest) {
                    Ok(i) => Ok((is.push(i), ls.push((name, is.len())))),
                    Err(k) => Err(LoadErrorV { kind: k, line: rest }),
                },
                LineKind::Plain(t) => match decode_line(t) {
                    Ok(i) => Ok((is.push(i), ls)),
                    Err(k) => Err(LoadErrorV { kind: k, line: t }),
                },
            },
        }
    }
}

/// The outcome of loading a source text, read line by line.
pub open spec fn load_spec(src: Seq<char>) -> Result<
    (Seq<InstrV>, Seq<(Seq<char>, nat)>),
    LoadErrorV,
> {
    load_lines(split(src, '\n'))
}

fn find_first_space(t: &Vec<char>) -> (r: usize)
    ensures
        r == first_space(t@),
        r <= t.len(),
{
    let mut i: usize = 0;
    assert(t@.skip(0) =~= t@);
    while i < t.len() && !is_space_char(t[i])
        invariant
            i <= t.len(),
            first_space(t@) == i + first_space(t@.skip(i as int)),
        decreases t.len() - i,
    {
        assert(t@.skip(i as int).drop_first() =~= t@.skip(i + 1));
        i += 1;
    }
    i
}

fn find_comment(l: &Vec<char>) -> (r: usize)
    ensures
        r == comment_start(l@),
        r <= l.len(),
{
    let mut i: usize = 0;
    assert(l@.skip(0) =~= l@);
    while l.len() >= 2 && i < l.len() - 1 && !(l[i] == '/' && l[i + 1] == '/')
        invariant
            i <= l.len(),
            comment_start(l@) == i + comment_start(l@.skip(i as int)),
        decreases l.len() - i,
    {
        assert(l@.skip(i as int).drop_first() =~= l@.skip(i + 1));
        i += 1;
    }
    if l.len() < 2 || i >= l.len() - 1 {
        l.len()
    } else {
        i
    }
}

fn find_last_colon(t: &Vec<char>, k: usize) -> (r: Option<usize>)
    requires
        k <= t.len(),
    ensures
        match r {
            Some(j) => last_colon(t@, k as int) == Some(j as int),
            None => last_colon(t@, k as int) is None,
        },
        r matches Some(j) ==> j < k,
{
    let mut j: usize = k;
    while j > 0
        invariant
            j <= k <= t.len(),
            last_colon(t@, k as int) == last_colon(t@, j as int),
        decreases j,
    {
        if t[j - 1] == ':' {
            return Some(j - 1);
        }
        j -= 1;
    }
    None
}

fn without_colons(t: &Vec<char>) -> (r: Vec<char>)
    ensures
        r@ == remove_colons(t@),
{
    let mut r: Vec<char> = Vec::new();
    let mut i: usize = 0;
    assert(t@.take(0) =~= Seq::<char>::empty());
    while i < t.len()
        invariant
            i <= t.len(),
            r@ == remove_colons(t@.take(i as int)),
        decreases t.len() - i,
    {
        assert(t@.take(i + 1).drop_last() =~= t@.take(i as int));
        if t[i] != ':' {
            r.push(t[i]);
        }
        i += 1;
    }
    assert(t@.take(i as int) =~= t@);
    r
}

/// Parses the first `n` fields as register indices.
fn parse_regs_exec(parts: &Vec<Vec<char>>, n: usize) -> (r: Result<Vec<usize>, IntErrorKind>)
    requires
        n <= parts.len(),
    ensures
        match r {
            Ok(v) => parse_regs(parts@.map_values(|p: Vec<char>| p@), n as nat) == Ok::<
                Seq<usize>,
                IntErrorKind,
            >(v@),
            Err(e) => parse_regs(parts@.map_values(|p: Vec<char>| p@), n as nat) == Err::<
                Seq<usize>,
                IntErrorKind,
            >(e),
        },
{
    let ghost ps = parts@.map_values(|p: Vec<char>| p@);
    let mut v: Vec<usize> = Vec::new();
    let mut i: usize = 0;
    while i < n
        invariant
            i <= n <= parts.len(),
            ps == parts@.map_values(|p: Vec<char>| p@),
            parse_regs(ps, i as nat) == Ok::<Seq<usize>, IntErrorKind>(v@),
        decreases n - i,
    {
        let field = trim_chars(&parts[i]);
        assert(ps[i as int] == parts@[i as int]@);
        match parse_usize(&field) {
            Err(e) => {
                proof {
                    lemma_parse_regs_err(ps, (i + 1) as nat, n as nat);
                }
                return Err(e);
            },
            Ok(x) => {
                v.push(x);
            },
        }
        i += 1;
    }
    Ok(v)
}

proof fn lemma_parse_regs_err(ps: Seq<Seq<char>>, i: nat, n: nat)
    requires
        i <= n,
        parse_regs(ps, i) is Err,
    ensures
        parse_regs(ps, n) == parse_regs(ps, i),
    decreases n - i,
{
    if i < n {
        lemma_parse_regs_err(ps, i, (n - 1) as nat);
    }
}

/// Reads `regs` register fields and, when `operand` holds, one operand field.
fn read_fields_exec(parts: &Vec<Vec<char>>, regs: usize, operand: bool) -> (r: Result<
    Vec<usize>,
    LoadErrorKind,
>)
    requires
        regs <= 3,
    ensures
        match r {
            Ok(v) => read_fields(parts@.map_values(|p: Vec<char>| p@), regs as nat, operand)
                == Ok::<Seq<usize>, LoadErrorKind>(v@),
            Err(e) => read_fields(parts@.map_values(|p: Vec<char>| p@), regs as nat, operand)
                == Err::<Seq<usize>, LoadErrorKind>(e),
        },
{
    let n = if parts.len() < regs {
        parts.len()
    } else {
        regs
    };
    match parse_regs_exec(parts, n) {
        Err(e) => Err(LoadErrorKind::BadRegister(e)),
        Ok(v) => {
            let want: usize = if operand {
                regs + 1
            } else {
                regs
            };
            if parts.len() != want {
                Err(LoadErrorKind::WrongArity)
            } else {
                Ok(v)
            }
        },
    }
}

proof fn lemma_parse_regs_len(ps: Seq<Seq<char>>, n: nat)
    ensures
        parse_regs(ps, n) matches Ok(v) ==> v.len() == n,
    decreases n,
{
    if n > 0 {
        lemma_parse_regs_len(ps, (n - 1) as nat);
    }
}

fn decode_args_exec(op: Opcode, args: &Vec<char>) -> (r: Result<Instr, LoadErrorKind>)
    ensures
        match r {
            Ok(i) => decode_args(op, args@) == Ok::<InstrV, LoadErrorKind>(i@),
            Err(e) => decode_args(op, args@) == Err::<InstrV, LoadErrorKind>(e),
        },
{
    let parts = split_chars(args, ',');
    let ghost ps = parts@.map_values(|p: Vec<char>| p@);
    assert(ps =~= split(args@, ','));
    match op {
        Opcode::Nop => Ok(Instr::Nop),
        Opcode::Halt => Ok(Instr::Halt),
        Opcode::Reset => Ok(Instr::Reset),
        Opcode::Add | Opcode::Nand => match read_fields_exec(&parts, 3, false) {
            Err(e) => Err(e),
            Ok(r) => {
                proof {
                    lemma_parse_regs_len(ps, 3);
                }
                if op == Opcode::Add {
                    Ok(Instr::Add(r[0], r[1], r[2]))
                } else {
                    Ok(Instr::Nand(r[0], r[1], r[2]))
                }
            },
        },
        Opcode::Jalr => match read_fields_exec(&parts, 2, false) {
            Err(e) => Err(e),
            Ok(r) => {
                proof {
                    lemma_parse_regs_len(ps, 2);
                }
                Ok(Instr::Jalr(r[0], r[1]))
            },
        },
        Opcode::Movi | Opcode::Lui => match read_fields_exec(&parts, 1, true) {
            Err(e) => Err(e),
            Ok(r) => {
                proof {
                    lemma_parse_regs_len(ps, 1);
                }
                let operand = string_of(&trim_chars(&parts[1]));
                if op == Opcode::Movi {
                    Ok(Instr::Movi(r[0], operand))
                } else {
                    Ok(Instr::Lui(r[0], operand))
                }
            },
        },
        _ => match read_fields_exec(&parts, 2, true) {
            Err(e) => Err(e),
            Ok(r) => {
                proof {
                    lemma_parse_regs_len(ps, 2);
                }
                let operand = string_of(&trim_chars(&parts[2]));
                match op {
                    Opcode::Addi => Ok(Instr::Addi(r[0], r[1], operand)),
                    Opcode::Lw => Ok(Instr::Lw(r[0], r[1], operand)),
                    Opcode::Sw => Ok(Instr::Sw(r[0], r[1], operand)),
                    _ => Ok(Instr::Beq(r[0], r[1], operand)),
                }
            },
        },
    }
}

/// Decodes one trimmed instruction line.
pub fn decode_instr(t: &Vec<char>) -> (r: Result<Instr, LoadErrorKind>)
    ensures
        match r {
            Ok(i) => decode_line(t@) == Ok::<InstrV, LoadErrorKind>(i@),
            Err(e) => decode_line(t@) == Err::<InstrV, LoadErrorKind>(e),
        },
{
    reveal(decode_line);
    let k = find_first_space(t);
    let word = slice(t, 0, k);
    assert(word@ =~= t@.take(k as int));
    match Opcode::from_chars(&word) {
        None => Err(LoadErrorKind::UnknownOpcode),
        Some(op) => {
            let rest = slice(t, k, t.len());
            assert(rest@ =~= t@.skip(k as int));
            let args = trim_start_chars(&rest);
            decode_args_exec(op, &args)
        },
    }
}

fn trim_start_chars(v: &Vec<char>) -> (r: Vec<char>)
    ensures
        r@ == trim_start(v@),
{
    let mut i: usize = 0;
    assert(v@.skip(0) =~= v@);
    while i < v.len() && is_space_char(v[i])
        invariant
            i <= v.len(),
            trim_start(v@) == trim_start(v@.skip(i as int)),
        decreases v.len() - i,
    {
        assert(v@.skip(i as int).drop_first() =~= v@.skip(i + 1));
        i += 1;
    }
    let r = slice(v, i, v.len());
    assert(r@ =~= v@.skip(i as int));
    r
}

/// A classified line, holding the pieces it was cut into.
enum Line {
    Blank,
    Label(Vec<char>),
    Labelled(Vec<char>, Vec<char>),
    Plain(Vec<char>),
}

spec fn line_is(l: Line, k: LineKind) -> bool {
    match (l, k) {
        (Line::Blank, LineKind::Blank) => true,
        (Line::Label(a), LineKind::Label(b)) => a@ == b,
        (Line::Labelled(a, x), LineKind::Labelled(b, y)) => a@ == b && x@ == y,
        (Line::Plain(a), LineKind::Plain(b)) => a@ == b,
        _ => false,
    }
}

fn classify_line(l: &Vec<char>) -> (r: Line)
    ensures
        line_is(r, classify(l@)),
{
    reveal(classify);
    let c = find_comment(l);
    let code = slice(l, 0, c);
    assert(code@ =~= l@.take(c as int));
    let t = trim_chars(&code);
    if t.len() == 0 {
        Line::Blank
    } else if t[t.len() - 1] == ':' {
        Line::Label(without_colons(&t))
    } else {
        let k = find_first_space(&t);
        match find_last_colon(&t, k) {
            Some(j) => {
                let name = slice(&t, 0, j);
                assert(name@ =~= t@.take(j as int));
                let rest = slice(&t, j + 1, t.len());
                assert(rest@ =~= t@.skip(j + 1));
                let rest = trim_chars(&rest);
                Line::Labelled(name, rest)
            },
            None => Line::Plain(t),
        }
    }
}

proof fn lemma_load_err_stays(lines: Seq<Seq<char>>, i: int)
    requires
        0 <= i <= lines.len(),
        load_lines(lines.take(i)) is Err,
    ensures
        load_lines(lines) == load_lines(lines.take(i)),
    decreases lines.len() - i,
{
    if i < lines.len() {
        assert(lines.take(i + 1).drop_last() =~= lines.take(i));
        lemma_load_err_stays(lines, i + 1);
    } else {
        assert(lines.take(i) =~= lines);
    }
}

/// Assembles a source text into its instructions and label declarations.
///
/// Lines are read one by one: a `//` comment runs to the end of its line, a
/// line ending in `:` names the next instruction, `name:` before an
/// instruction names that instruction, and blank lines are skipped. The
/// first line that does not decode fails the whole load.
pub fn load_rom(content: &str) -> (r: Result<(Vec<Instr>, LabelTable), LoadError>)
    ensures
        match r {
            Ok((is, ls)) => load_spec(content@) == Ok::<
                (Seq<InstrV>, Seq<(Seq<char>, nat)>),
                LoadErrorV,
            >((instrs_view(is@), ls@)),
            Err(e) => load_spec(content@) == Err::<
                (Seq<InstrV>, Seq<(Seq<char>, nat)>),
                LoadErrorV,
            >(e@),
        },
{
    let src = crate::text::chars_of(content);
    let lines = split_chars(&src, '\n');
    let ghost ls = split(src@, '\n');
    let mut instrs: Vec<Instr> = Vec::new();
    let mut labels = LabelTable::new();
    let mut i: usize = 0;
    assert(ls.take(0) =~= Seq::<Seq<char>>::empty());
    assert(instrs_view(instrs@) =~= Seq::<InstrV>::empty());
    while i < lines.len()
        invariant
            i <= lines.len() == ls.len(),
            ls == split(src@, '\n'),
            src@ == content@,
            forall|k: int| 0 <= k < lines@.len() ==> #[trigger] lines@[k]@ == ls[k],
            load_lines(ls.take(i as int)) == Ok::<
                (Seq<InstrV>, Seq<(Seq<char>, nat)>),
                LoadErrorV,
            >((instrs_view(instrs@), labels@)),
        decreases lines.len() - i,
    {
        let ghost prev = ls.take(i as int);
        let ghost cur = ls.take(i + 1);
        assert(cur.drop_last() =~= prev);
        assert(cur.last() == lines@[i as int]@);
        let n = instrs.len();
        let ghost iv = instrs_view(instrs@);
        match classify_line(&lines[i]) {
            Line::Blank => {},
            Line::Label(name) => {
                labels.declare(string_of(&name), n);
            },
            Line::Labelled(name, rest) => {
                match decode_instr(&rest) {
                    Ok(ins) => {
                        labels.declare(string_of(&name), n);
                        instrs.push(ins);
                        assert(instrs_view(instrs@) =~= iv.push(ins@));
                    },
                    Err(k) => {
                        proof {
                            lemma_load_err_stays(ls, i + 1);
                        }
                        return Err(LoadError { kind: k, line: string_of(&rest) });
                    },
                }
            },
            Line::Plain(t) => {
                match decode_instr(&t) {
                    Ok(ins) => {
                        instrs.push(ins);
                        assert(instrs_view(instrs@) =~= iv.push(ins@));
                    },
                    Err(k) => {
                        proof {
                            lemma_load_err_stays(ls, i + 1);
                        }
                        return Err(LoadError { kind: k, line: string_of(&t) });
                    },
                }
            },
        }
        i += 1;
    }
    proof {
        assert(ls.take(i as int) =~= ls);
    }
    Ok((instrs, labels))
}

/// The lines after the first `k` label declarations are put back: a
/// declaration that a later one overrides is left out, a name for an
/// instruction is written before it as `name: `, and a name past the last
/// instruction gets a line `name:` of its own at the end.
pub open spec fn attach_labels(
    lines: Seq<Seq<char>>,
    n: nat,
    ls: Seq<(Seq<char>, nat)>,
    k: nat,
) -> Seq<Seq<char>>
    decreases k,
{
    if k == 0 {
        lines
    } else {
        let prev = attach_labels(lines, n, ls, (k - 1) as nat);
        let (name, idx) = ls[k - 1];
        if shadowed(ls, k - 1) {
            prev
        } else if idx < n {
            prev.update(idx as int, name + ": "@ + prev[idx as int])
        } else {
            prev.push(name + ":"@)
        }
    }
}

/// A loaded program as source lines, one per instruction, with its labels.
pub open spec fn render_lines(is: Seq<InstrV>, ls: Seq<(Seq<char>, nat)>) -> Seq<Seq<char>> {
    attach_labels(Seq::new(is.len(), |j: int| instr_text(is[j])), is.len(), ls, ls.len())
}

/// Lines joined with newlines between them.
pub open spec fn join_lines(ls: Seq<Seq<char>>) -> Seq<char>
    decreases ls.len(),
{
    if ls.len() == 0 {
        Seq::empty()
    } else if ls.len() == 1 {
        ls[0]
    } else {
        join_lines(ls.drop_last()) + seq!['\n'] + ls.last()
    }
}

/// A loaded program as source text.
pub open spec fn render(is: Seq<InstrV>, ls: Seq<(Seq<char>, nat)>) -> Seq<char> {
    join_lines(render_lines(is, ls))
}

/// The source lines of a loaded program: each instruction in its normal
/// form, with the labels put back.
pub fn format_code(instr: &Vec<Instr>, labels: &LabelTable) -> (r: Vec<String>)
    ensures
        r@.len() == render_lines(instrs_view(instr@), labels@).len(),
        forall|k: int|
            0 <= k < r@.len() ==> #[trigger] r@[k]@ == render_lines(
                instrs_view(instr@),
                labels@,
            )[k],
{
    let ghost is = instrs_view(instr@);
    let ghost base = Seq::new(is.len(), |j: int| instr_text(is[j]));
    let n = instr.len();
    let mut lines: Vec<String> = Vec::new();
    let mut j: usize = 0;
    while j < n
        invariant
            j <= n == instr.len(),
            is == instrs_view(instr@),
            base == Seq::new(is.len(), |j: int| instr_text(is[j])),
            lines@.len() == j,
            forall|m: int| 0 <= m < j ==> #[trigger] lines@[m]@ == base[m],
        decreases n - j,
    {
        lines.push(instr[j].text());
        j += 1;
    }
    let mut k: usize = 0;
    while k < labels.len()
        invariant
            k <= labels@.len(),
            n == is.len(),
            lines@.len() == attach_labels(base, n as nat, labels@, k as nat).len(),
            lines@.len() >= n,
            forall|m: int|
                0 <= m < lines@.len() ==> #[trigger] lines@[m]@ == attach_labels(
                    base,
                    n as nat,
                    labels@,
                    k as nat,
                )[m],
        decreases labels@.len() - k,
    {
        let ghost prev = attach_labels(base, n as nat, labels@, k as nat);
        let ghost next = attach_labels(base, n as nat, labels@, (k + 1) as nat);
        let ghost old_lines = lines@;
        if !labels.is_shadowed(k) {
            let idx = labels.index_at(k);
            let mut s = string_of(&chars_of(labels.name_at(k).as_str()));
            if idx < n {
                push_str(&mut s, ": ");
                push_chars(&mut s, &chars_of(lines[idx].as_str()));
                lines[idx] = s;
                assert forall|m: int| 0 <= m < lines@.len() implies #[trigger] lines@[m]@ == next[m] by {
                    if m != idx {
                        assert(lines@[m] == old_lines[m]);
                    }
                }
            } else {
                push_str(&mut s, ":");
                lines.push(s);
                assert forall|m: int| 0 <= m < lines@.len() implies #[trigger] lines@[m]@ == next[m] by {
                    if m < old_lines.len() {
                        assert(lines@[m] == old_lines[m]);
                    }
                }
            }
        }
        k += 1;
    }
    lines
}

/// Loads a source text and writes it back in normal form: one instruction
/// per line, labels put back; or the load error.
pub fn load_rom_text(code: &str) -> (r: Result<String, LoadError>)
    ensures
        match load_spec(code@) {
            Err(e) => r matches Err(x) && x@ == e,
            Ok((is, ls)) => r matches Ok(t) && t@ == render(is, ls),
        },
{
    let (instr, labels) = match load_rom(code) {
        Err(e) => return Err(e),
        Ok(p) => p,
    };
    let lines = format_code(&instr, &labels);
    let ghost rl = render_lines(instrs_view(instr@), labels@);
    let mut out = String::new();
    let mut i: usize = 0;
    assert(rl.take(0) =~= Seq::<Seq<char>>::empty());
    while i < lines.len()
        invariant
            i <= lines@.len() == rl.len(),
            forall|m: int| 0 <= m < lines@.len() ==> #[trigger] lines@[m]@ == rl[m],
            out@ == join_lines(rl.take(i as int)),
        decreases lines.len() - i,
    {
        assert(rl.take(i + 1).drop_last() =~= rl.take(i as int));
        if i > 0 {
            out.push('\n');
        }
        push_chars(&mut out, &chars_of(lines[i].as_str()));
        i += 1;
        assert(out@ =~= join_lines(rl.take(i as int)));
    }
    assert(rl.take(i as int) =~= rl);
    Ok(out)
}

/// The instruction text of a line, when the line holds an instruction.
pub open spec fn instr_part(k: LineKind) -> Option<Seq<char>> {
    match k {
        LineKind::Labelled(_, rest) => Some(rest),
        LineKind::Plain(t) => Some(t),
        _ => None,
    }
}

/// How many of `lines` hold an instruction.
pub open spec fn count_instrs(lines: Seq<Seq<char>>) -> nat
    decreases lines.len(),
{
    if lines.len() == 0 {
        0
    } else {
        count_instrs(lines.drop_last()) + if instr_part(classify(lines.last())) is Some {
            1nat
        } else {
            0nat
        }
    }
}

proof fn lemma_count_prefix(lines: Seq<Seq<char>>, i: int, j: int)
    requires
        0 <= i <= j <= lines.len(),
    ensures
        count_instrs(lines.take(i)) <= count_instrs(lines.take(j)),
        (forall|m: int| i <= m < j ==> instr_part(classify(#[trigger] lines[m])) is None) ==> count_instrs(
            lines.take(i),
        ) == count_instrs(lines.take(j)),
    decreases j - i,
{
    if i < j {
        lemma_count_prefix(lines, i, j - 1);
        assert(lines.take(j).drop_last() =~= lines.take(j - 1));
    }
}

/// What a successful load records about each line.
proof fn lemma_load_lines(lines: Seq<Seq<char>>)
    requires
        load_lines(lines) is Ok,
    ensures
        ({
            let (is, ls) = load_lines(lines)->Ok_0;
            &&& is.len() == count_instrs(lines)
            &&& forall|i: int|
                0 <= i < lines.len() ==> (#[trigger] classify(lines[i]) matches LineKind::Label(
                    name,
                ) ==> exists|e: int|
                    0 <= e < ls.len() && ls[e] == (name, count_instrs(lines.take(i))))
            &&& forall|i: int|
                0 <= i < lines.len() ==> (#[trigger] instr_part(classify(lines[i])) matches Some(t)
                    ==> count_instrs(lines.take(i)) < is.len() && decode_line(t) == Ok::<
                    InstrV,
                    LoadErrorKind,
                >(is[count_instrs(lines.take(i)) as int]))
        }),
    decreases lines.len(),
{
    if lines.len() > 0 {
        let init = lines.drop_last();
        lemma_load_lines(init);
        let (is0, ls0) = load_lines(init)->Ok_0;
        let (is, ls) = load_lines(lines)->Ok_0;
        let n = lines.len() - 1;
        assert(lines.take(n) =~= init);
        assert forall|i: int| 0 <= i < n implies lines.take(i) == init.take(i) by {
            assert(lines.take(i) =~= init.take(i));
        }
        assert forall|i: int|
            0 <= i < lines.len() implies (#[trigger] classify(lines[i]) matches LineKind::Label(name)
            ==> exists|e: int| 0 <= e < ls.len() && ls[e] == (name, count_instrs(lines.take(i)))) by {
            if let LineKind::Label(name) = classify(lines[i]) {
                if i < n {
                    assert(init[i] == lines[i]);
                    let e = choose|e: int|
                        0 <= e < ls0.len() && ls0[e] == (name, count_instrs(init.take(i)));
                    assert(ls[e] == ls0[e]);
                } else {
                    assert(ls[ls0.len() as int] == (name, is0.len()));
                }
            }
        }
        assert forall|i: int|
            0 <= i < lines.len() implies (#[trigger] instr_part(classify(lines[i])) matches Some(t)
            ==> count_instrs(lines.take(i)) < is.len() && decode_line(t) == Ok::<
                InstrV,
                LoadErrorKind,
            >(is[count_instrs(lines.take(i)) as int])) by {
            if let Some(t) = instr_part(classify(lines[i])) {
                if i < n {
                    assert(init[i] == lines[i]);
                    assert(is[count_instrs(init.take(i)) as int] == is0[count_instrs(
                        init.take(i),
                    ) as int]);
                }
            }
        }
    } else {
        assert(load_lines(lines) == Ok::<(Seq<InstrV>, Seq<(Seq<char>, nat)>), LoadErrorV>(
            (Seq::empty(), Seq::empty()),
        ));
    }
}

/// A label on a line of its own names the instruction that follows it: in
/// a source that loads, each such declaration is recorded with the index of
/// the next instruction line after it, or with the program length when no
/// instruction follows.
pub proof fn lemma_bare_label_index(src: Seq<char>, i: int)
    requires
        load_spec(src) is Ok,
        0 <= i < split(src, '\n').len(),
        classify(split(src, '\n')[i]) is Label,
    ensures
        ({
            let lines = split(src, '\n');
            let (is, ls) = load_spec(src)->Ok_0;
            let name = classify(lines[i])->Label_0;
            let k = count_instrs(lines.take(i));
            &&& exists|e: int| 0 <= e < ls.len() && ls[e] == (name, k)
            &&& k <= is.len()
            &&& forall|j: int|
                i < j < lines.len() && count_instrs(lines.take(j)) == k ==> (
                #[trigger] instr_part(classify(lines[j])) matches Some(t) ==> decode_line(t) == Ok::<
                    InstrV,
                    LoadErrorKind,
                >(is[k as int]))
            &&& (forall|j: int| i < j < lines.len() ==> instr_part(classify(#[trigger] lines[j])) is None)
                ==> k == is.len()
        }),
{
    let lines = split(src, '\n');
    lemma_load_lines(lines);
    let k = count_instrs(lines.take(i));
    assert(lines.take(lines.len() as int) =~= lines);
    lemma_count_prefix(lines, i, lines.len() as int);
    assert(classify(lines[i]) matches LineKind::Label(name));
    if forall|j: int| i < j < lines.len() ==> instr_part(classify(#[trigger] lines[j])) is None {
        assert forall|m: int| i <= m < lines.len() implies instr_part(classify(#[trigger] lines[m])) is None by {
            if m > i {
            }
        }
    }
}

} // verus!
