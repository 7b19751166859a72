//! Reading back the normal form: a loaded program written out by
//! `load_rom_text` loads again to the same instructions and labels.
use vstd::prelude::*;
use crate::loader::{
    classify, decode_line, first_space, load_lines, load_spec, parse_regs, read_fields, LineKind,
    LoadErrorKind,
};
use crate::num::{digit_char, digit_value, digits, decimal, fold_digits, parse_unsigned};
use crate::loader::{attach_labels, join_lines, render};
use crate::program::{
    lookup, shadowed, args_text, instr_text, lemma_names_distinct, opcode_name, opcode_of, opcode_of_instr, regs_text,
    InstrV, Opcode,
};
use crate::loader::{comment_start, last_colon};
use crate::text::{is_space, lemma_split_nonempty, split, trim, trim_end, trim_start};

verus! {

pub open spec fn no_char(s: Seq<char>, c: char) -> bool {
    forall|k: int| 0 <= k < s.len() ==> s[k] != c
}

/// Neither end of `s` is whitespace.
pub open spec fn is_trimmed(s: Seq<char>) -> bool {
    s.len() == 0 || (!is_space(s[0]) && !is_space(s.last()))
}

/// An operand as the loader leaves it: trimmed, and without commas.
pub open spec fn operand_ok(s: Seq<char>) -> bool {
    no_char(s, ',') && is_trimmed(s)
}

pub open spec fn instr_operand_ok(i: InstrV) -> bool {
    match i {
        InstrV::Addi(_, _, x) => operand_ok(x),
        InstrV::Lw(_, _, x) => operand_ok(x),
        InstrV::Sw(_, _, x) => operand_ok(x),
        InstrV::Beq(_, _, x) => operand_ok(x),
        InstrV::Movi(_, x) => operand_ok(x),
        InstrV::Lui(_, x) => operand_ok(x),
        _ => true,
    }
}

proof fn lemma_trim_start_shape(s: Seq<char>)
    ensures
        exists|j: int| 0 <= j <= s.len() && trim_start(s) == s.skip(j),
        trim_start(s).len() == 0 || !is_space(trim_start(s)[0]),
    decreases s.len(),
{
    if s.len() > 0 && is_space(s[0]) {
        lemma_trim_start_shape(s.drop_first());
        let j = choose|j: int|
            0 <= j <= s.drop_first().len() && trim_start(s.drop_first()) == s.drop_first().skip(j);
        assert(s.drop_first().skip(j) =~= s.skip(j + 1));
    } else {
        assert(s.skip(0) =~= s);
    }
}

proof fn lemma_trim_end_shape(s: Seq<char>)
    ensures
        exists|j: int| 0 <= j <= s.len() && trim_end(s) == s.take(j),
        trim_end(s).len() == 0 || !is_space(trim_end(s).last()),
    decreases s.len(),
{
    if s.len() > 0 && is_space(s.last()) {
        lemma_trim_end_shape(s.drop_last());
        let j = choose|j: int|
            0 <= j <= s.drop_last().len() && trim_end(s.drop_last()) == s.drop_last().take(j);
        assert(s.drop_last().take(j) =~= s.take(j));
    } else {
        assert(s.take(s.len() as int) =~= s);
    }
}

/// `trim` gives a trimmed piece of its argument.
proof fn lemma_trim_ok(s: Seq<char>, c: char)
    ensures
        is_trimmed(trim(s)),
        no_char(s, c) ==> no_char(trim(s), c),
{
    lemma_trim_start_shape(s);
    let a = trim_start(s);
    lemma_trim_end_shape(a);
    let i = choose|j: int| 0 <= j <= s.len() && trim_start(s) == s.skip(j);
    let k = choose|j: int| 0 <= j <= a.len() && trim_end(a) == a.take(j);
    let t = trim(s);
    assert(t == a.take(k));
    if t.len() > 0 {
        assert(t[0] == a[0]);
    }
    if no_char(s, c) {
        assert forall|m: int| 0 <= m < t.len() implies t[m] != c by {
            assert(t[m] == s[i + m]);
        }
    }
}

proof fn lemma_trimmed_fixed(s: Seq<char>)
    requires
        is_trimmed(s),
    ensures
        trim(s) == s,
        trim_start(s) == s,
{
}

/// The pieces of a split never hold the separator.
proof fn lemma_split_pieces(s: Seq<char>, sep: char)
    ensures
        forall|k: int| 0 <= k < split(s, sep).len() ==> no_char(#[trigger] split(s, sep)[k], sep),
        split(s, sep).len() >= 1,
    decreases s.len(),
{
    if s.len() > 0 {
        lemma_split_pieces(s.drop_last(), sep);
        let init = split(s.drop_last(), sep);
        if s.last() != sep {
            let l = init.last().push(s.last());
            assert(no_char(l, sep)) by {
                assert forall|m: int| 0 <= m < l.len() implies l[m] != sep by {
                    if m < init.last().len() {
                        assert(no_char(init[init.len() - 1], sep));
                    }
                }
            }
        }
    }
}

/// Splitting text without the separator gives the text itself.
proof fn lemma_split_none(s: Seq<char>, sep: char)
    requires
        no_char(s, sep),
    ensures
        split(s, sep) == seq![s],
    decreases s.len(),
{
    if s.len() > 0 {
        lemma_split_none(s.drop_last(), sep);
        assert(s.last() != sep);
        assert(s.drop_last().push(s.last()) =~= s);
        assert(seq![s.drop_last()].update(0, s) =~= seq![s]);
    } else {
        assert(s =~= Seq::<char>::empty());
    }
}

/// A separator between two texts splits between their pieces.
proof fn lemma_split_concat(x: Seq<char>, y: Seq<char>, sep: char)
    ensures
        split(x + seq![sep] + y, sep) == split(x, sep) + split(y, sep),
    decreases y.len(),
{
    lemma_split_pieces(x, sep);
    lemma_split_pieces(y, sep);
    let xs = x + seq![sep];
    if y.len() == 0 {
        assert(xs + y =~= xs);
        assert(xs.drop_last() =~= x);
        assert(split(y, sep) =~= seq![Seq::<char>::empty()]);
        assert(split(x, sep).push(Seq::empty()) =~= split(x, sep) + split(y, sep));
    } else {
        let y0 = y.drop_last();
        lemma_split_concat(x, y0, sep);
        lemma_split_pieces(y0, sep);
        assert((xs + y).drop_last() =~= xs + y0);
        assert((xs + y).last() == y.last());
        let a = split(x, sep);
        let b = split(y0, sep);
        if y.last() == sep {
            assert((a + b).push(Seq::empty()) =~= a + b.push(Seq::empty()));
        } else {
            assert((a + b).update((a + b).len() - 1, (a + b).last().push(y.last())) =~= a
                + b.update(b.len() - 1, b.last().push(y.last())));
        }
    }
}

proof fn lemma_digit_char(d: nat)
    requires
        d < 10,
    ensures
        digit_value(digit_char(d), 10) == Some(d),
        !is_space(digit_char(d)),
        digit_char(d) != ',' && digit_char(d) != '+' && digit_char(d) != '-',
{
}

/// Decimal digits read back to their value.
proof fn lemma_digits_read_back(n: nat, limit: int)
    requires
        n <= limit,
    ensures
        fold_digits(digits(n, 10), 10, limit) == Ok::<int, crate::num::IntErrorKind>(n as int),
        digits(n, 10).len() >= 1,
        forall|k: int|
            0 <= k < digits(n, 10).len() ==> !is_space(#[trigger] digits(n, 10)[k]) && digits(
                n,
                10,
            )[k] != ',' && digits(n, 10)[k] != '+' && digits(n, 10)[k] != '-',
    decreases n,
{
    let s = digits(n, 10);
    if n < 10 {
        lemma_digit_char(n);
        assert(s == seq![digit_char(n)]);
        assert(s.drop_last() =~= Seq::<char>::empty());
        assert(fold_digits(s.drop_last(), 10, limit) == Ok::<int, crate::num::IntErrorKind>(0));
    } else {
        let q = n / 10;
        let r = n % 10;
        assert(q * 10 + r == n && q <= n && r < 10) by (nonlinear_arith)
            requires
                q == n / 10,
                r == n % 10,
        ;
        lemma_digits_read_back(q, limit);
        lemma_digit_char(r);
        assert(s == digits(q, 10).push(digit_char(r)));
        assert(s.drop_last() =~= digits(q, 10));
        assert(s.last() == digit_char(r));
        assert forall|k: int| 0 <= k < s.len() implies !is_space(#[trigger] s[k]) && s[k] != ','
            && s[k] != '+' && s[k] != '-' by {
            if k < s.len() - 1 {
                assert(s[k] == digits(q, 10)[k]);
            }
        }
    }
}

proof fn lemma_parse_decimal(n: usize)
    ensures
        parse_unsigned(trim(decimal(n as int))) == Ok::<int, crate::num::IntErrorKind>(n as int),
        no_char(decimal(n as int), ','),
        is_trimmed(decimal(n as int)),
        decimal(n as int).len() >= 1,
{
    lemma_digits_read_back(n as nat, usize::MAX as int);
    let s = decimal(n as int);
    assert(is_trimmed(s));
    lemma_trimmed_fixed(s);
}

/// Register fields written by `regs_text` split into one piece each.
proof fn lemma_regs_split(r: Seq<usize>)
    requires
        r.len() >= 1,
    ensures
        split(regs_text(r), ',') == Seq::new(r.len(), |k: int| decimal(r[k] as int)),
        regs_text(r).len() >= 1,
        !is_space(regs_text(r)[0]),
        !is_space(regs_text(r).last()),
    decreases r.len(),
{
    lemma_parse_decimal(r.last());
    if r.len() == 1 {
        lemma_split_none(decimal(r[0] as int), ',');
        assert(seq![decimal(r[0] as int)] =~= Seq::new(1, |k: int| decimal(r[k] as int)));
    } else {
        let r0 = r.drop_last();
        lemma_regs_split(r0);
        lemma_split_concat(regs_text(r0), decimal(r.last() as int), ',');
        lemma_split_none(decimal(r.last() as int), ',');
        assert(Seq::new(r0.len(), |k: int| decimal(r0[k] as int)) + seq![decimal(r.last() as int)]
            =~= Seq::new(r.len(), |k: int| decimal(r[k] as int)));
        let t = regs_text(r);
        assert(t == regs_text(r0) + seq![','] + decimal(r.last() as int));
        assert(t[0] == regs_text(r0)[0]);
    }
}

proof fn lemma_parse_regs_back(r: Seq<usize>, extra: Seq<Seq<char>>, n: nat)
    requires
        n <= r.len(),
    ensures
        parse_regs(Seq::new(r.len(), |k: int| decimal(r[k] as int)) + extra, n) == Ok::<
            Seq<usize>,
            crate::num::IntErrorKind,
        >(r.take(n as int)),
    decreases n,
{
    let ps = Seq::new(r.len(), |k: int| decimal(r[k] as int)) + extra;
    if n == 0 {
        assert(r.take(0) =~= Seq::<usize>::empty());
    } else {
        lemma_parse_regs_back(r, extra, (n - 1) as nat);
        lemma_parse_decimal(r[n - 1]);
        assert(ps[n - 1] == decimal(r[n - 1] as int));
        assert(r.take(n - 1).push(r[n - 1]) =~= r.take(n as int));
    }
}

/// The first whitespace of `a + b`, when `a` has none and `b` starts with one.
proof fn lemma_first_space_concat(a: Seq<char>, b: Seq<char>)
    requires
        forall|k: int| 0 <= k < a.len() ==> !is_space(#[trigger] a[k]),
        b.len() > 0 ==> is_space(b[0]),
    ensures
        first_space(a + b) == a.len(),
    decreases a.len(),
{
    if a.len() > 0 {
        lemma_first_space_concat(a.drop_first(), b);
        assert((a + b).drop_first() =~= a.drop_first() + b);
    } else {
        assert(a + b =~= b);
    }
}

proof fn lemma_opcode_back(o: Opcode)
    ensures
        opcode_of(opcode_name(o)) == Some(o),
        opcode_name(o).len() >= 1,
        forall|k: int| 0 <= k < opcode_name(o).len() ==> !is_space(#[trigger] opcode_name(o)[k]),
{
    lemma_names_distinct();
    assert(exists|p: Opcode| opcode_name(p) == opcode_name(o));
}

/// Where the mnemonic of a normal-form line ends and its arguments start.
proof fn lemma_line_parts(i: InstrV)
    ensures
        ({
            let name = opcode_name(opcode_of_instr(i));
            let t = instr_text(i);
            &&& opcode_of(name) == Some(opcode_of_instr(i))
            &&& first_space(t) == name.len()
            &&& t.take(name.len() as int) == name
            &&& t.skip(name.len() as int) == seq![' '] + args_text(i)
            &&& t.len() > name.len()
            &&& t[0] == name[0]
            &&& !is_space(t[0])
        }),
{
    let o = opcode_of_instr(i);
    let name = opcode_name(o);
    let args = args_text(i);
    let t = instr_text(i);
    lemma_opcode_back(o);
    assert(t =~= name + (seq![' '] + args));
    lemma_first_space_concat(name, seq![' '] + args);
    assert(t.take(name.len() as int) =~= name);
    assert(t.skip(name.len() as int) =~= seq![' '] + args);
}

proof fn lemma_skip_space(args: Seq<char>)
    requires
        args.len() > 0,
        !is_space(args[0]),
    ensures
        trim_start(seq![' '] + args) == args,
{
    let s = seq![' '] + args;
    assert(s[0] == ' ');
    assert(is_space(' '));
    assert(s.drop_first() =~= args);
    assert(trim_start(args) == args);
}

proof fn lemma_round_trip_bare(i: InstrV)
    requires
        i is Nop || i is Halt || i is Reset,
    ensures
        decode_line(trim(instr_text(i))) == Ok::<InstrV, LoadErrorKind>(i),
{
    reveal(decode_line);
    lemma_line_parts(i);
    let o = opcode_of_instr(i);
    let name = opcode_name(o);
    lemma_opcode_back(o);
    let t = instr_text(i);
    assert(args_text(i) =~= Seq::<char>::empty());
    assert(t =~= name.push(' '));
    assert(t.drop_last() =~= name);
    assert(trim_end(name) == name);
    assert(trim_end(t) == name);
    assert(trim_start(t) == t);
    lemma_first_space_concat(name, Seq::<char>::empty());
    assert(name + Seq::<char>::empty() =~= name);
    assert(name.take(name.len() as int) =~= name);
    assert(name.skip(name.len() as int) =~= Seq::<char>::empty());
}

proof fn lemma_round_trip_regs(i: InstrV, r: Seq<usize>)
    requires
        (i matches InstrV::Add(a, b, c) && r == seq![a, b, c]) || (i matches InstrV::Nand(a, b, c)
            && r == seq![a, b, c]) || (i matches InstrV::Jalr(a, b) && r == seq![a, b]),
    ensures
        decode_line(trim(instr_text(i))) == Ok::<InstrV, LoadErrorKind>(i),
{
    reveal(decode_line);
    lemma_line_parts(i);
    let t = instr_text(i);
    let args = args_text(i);
    lemma_regs_split(r);
    assert(args == regs_text(r));
    lemma_parse_regs_back(r, Seq::empty(), r.len());
    assert(Seq::new(r.len(), |k: int| decimal(r[k] as int)) + Seq::<Seq<char>>::empty() =~= Seq::new(
        r.len(),
        |k: int| decimal(r[k] as int),
    ));
    assert(r.take(r.len() as int) =~= r);
    lemma_skip_space(args);
    assert(t.last() == args.last());
    assert(trim(t) == t);
}

proof fn lemma_operand_args(r: Seq<usize>, x: Seq<char>)
    requires
        operand_ok(x),
        1 <= r.len() <= 2,
    ensures
        ({
            let args = regs_text(r) + seq![','] + x;
            let ps = split(args, ',');
            &&& read_fields(ps, r.len(), true) == Ok::<Seq<usize>, LoadErrorKind>(r)
            &&& ps.len() == r.len() + 1
            &&& trim(ps[r.len() as int]) == x
            &&& args.len() > 0
            &&& !is_space(args[0])
            &&& !is_space(args.last())
        }),
{
    let args = regs_text(r) + seq![','] + x;
    lemma_regs_split(r);
    lemma_split_concat(regs_text(r), x, ',');
    lemma_split_none(x, ',');
    let ps = Seq::new(r.len(), |k: int| decimal(r[k] as int)) + seq![x];
    assert(split(args, ',') == ps);
    lemma_parse_regs_back(r, seq![x], r.len());
    assert(r.take(r.len() as int) =~= r);
    lemma_trimmed_fixed(x);
    assert(ps[r.len() as int] == x);
    assert(args[0] == regs_text(r)[0]);
    if x.len() > 0 {
        assert(args.last() == x.last());
    } else {
        assert(args.last() == ',');
    }
}

proof fn lemma_round_trip_operand(i: InstrV, r: Seq<usize>, x: Seq<char>)
    requires
        operand_ok(x),
        1 <= r.len() <= 2,
        args_text(i) == regs_text(r) + seq![','] + x,
        i == (match opcode_of_instr(i) {
            Opcode::Addi => InstrV::Addi(r[0], r[1], x),
            Opcode::Lw => InstrV::Lw(r[0], r[1], x),
            Opcode::Sw => InstrV::Sw(r[0], r[1], x),
            Opcode::Beq => InstrV::Beq(r[0], r[1], x),
            Opcode::Movi => InstrV::Movi(r[0], x),
            _ => InstrV::Lui(r[0], x),
        }),
        r.len() == (if i is Movi || i is Lui {
            1nat
        } else {
            2nat
        }),
    ensures
        decode_line(trim(instr_text(i))) == Ok::<InstrV, LoadErrorKind>(i),
{
    reveal(decode_line);
    lemma_line_parts(i);
    lemma_operand_args(r, x);
    let t = instr_text(i);
    let args = args_text(i);
    lemma_skip_space(args);
    assert(t.last() == args.last());
    assert(trim(t) == t);
}

/// Decoding the normal form of an instruction whose operand is as the loader
/// leaves it gives the instruction back.
pub proof fn lemma_instr_round_trip(i: InstrV)
    requires
        instr_operand_ok(i),
    ensures
        decode_line(trim(instr_text(i))) == Ok::<InstrV, LoadErrorKind>(i),
{
    match i {
        InstrV::Nop | InstrV::Halt | InstrV::Reset => lemma_round_trip_bare(i),
        InstrV::Add(a, b, c) => lemma_round_trip_regs(i, seq![a, b, c]),
        InstrV::Nand(a, b, c) => lemma_round_trip_regs(i, seq![a, b, c]),
        InstrV::Jalr(a, b) => lemma_round_trip_regs(i, seq![a, b]),
        InstrV::Addi(a, b, x) | InstrV::Lw(a, b, x) | InstrV::Sw(a, b, x) | InstrV::Beq(a, b, x) => {
            let r = seq![a, b];
            assert(args_text(i) == regs_text(r) + seq![','] + x);
            lemma_round_trip_operand(i, r, x);
        },
        InstrV::Movi(a, x) | InstrV::Lui(a, x) => {
            let r = seq![a];
            assert(args_text(i) == regs_text(r) + seq![','] + x);
            lemma_round_trip_operand(i, r, x);
        },
    }
}

/// A decoded operand is trimmed and holds no comma.
proof fn lemma_decoded_operand_ok(t: Seq<char>)
    requires
        decode_line(t) is Ok,
    ensures
        instr_operand_ok(decode_line(t)->Ok_0),
{
    reveal(decode_line);
    let k = first_space(t) as int;
    let op = opcode_of(t.take(k))->Some_0;
    let args = trim_start(t.skip(k));
    let ps = split(args, ',');
    lemma_split_pieces(args, ',');
    if ps.len() >= 2 {
        lemma_trim_ok(ps[1], ',');
    }
    if ps.len() >= 3 {
        lemma_trim_ok(ps[2], ',');
    }
}

proof fn lemma_loaded_operands_ok(lines: Seq<Seq<char>>)
    requires
        load_lines(lines) is Ok,
    ensures
        forall|k: int|
            0 <= k < load_lines(lines)->Ok_0.0.len() ==> instr_operand_ok(
                #[trigger] load_lines(lines)->Ok_0.0[k],
            ),
    decreases lines.len(),
{
    if lines.len() > 0 {
        lemma_loaded_operands_ok(lines.drop_last());
        let is0 = load_lines(lines.drop_last())->Ok_0.0;
        let is = load_lines(lines)->Ok_0.0;
        match classify(lines.last()) {
            LineKind::Labelled(_, rest) => {
                lemma_decoded_operand_ok(rest);
                assert forall|k: int| 0 <= k < is.len() implies instr_operand_ok(#[trigger] is[k]) by {
                    if k < is0.len() {
                        assert(is[k] == is0[k]);
                    }
                }
            },
            LineKind::Plain(t) => {
                lemma_decoded_operand_ok(t);
                assert forall|k: int| 0 <= k < is.len() implies instr_operand_ok(#[trigger] is[k]) by {
                    if k < is0.len() {
                        assert(is[k] == is0[k]);
                    }
                }
            },
            _ => {},
        }
    }
}

/// Each instruction of a loaded program, written in normal form by
/// `Instr::text` and decoded again, gives the same instruction back.
pub proof fn lemma_reload_instructions(src: Seq<char>)
    requires
        load_spec(src) is Ok,
    ensures
        forall|k: int|
            0 <= k < load_spec(src)->Ok_0.0.len() ==> decode_line(
                trim(instr_text(#[trigger] load_spec(src)->Ok_0.0[k])),
            ) == Ok::<InstrV, LoadErrorKind>(load_spec(src)->Ok_0.0[k]),
{
    let lines = split(src, '\n');
    lemma_loaded_operands_ok(lines);
    let is = load_spec(src)->Ok_0.0;
    assert forall|k: int| 0 <= k < is.len() implies decode_line(trim(instr_text(#[trigger] is[k])))
        == Ok::<InstrV, LoadErrorKind>(is[k]) by {
        lemma_instr_round_trip(is[k]);
    }
}

/// No `//` in `s`.
pub open spec fn no_comment(s: Seq<char>) -> bool {
    forall|k: int| 0 <= k < s.len() - 1 ==> !(#[trigger] s[k] == '/' && s[k + 1] == '/')
}

/// `x` stands in `s` at some position.
pub open spec fn is_sub(x: Seq<char>, s: Seq<char>) -> bool {
    exists|a: int| 0 <= a && a + x.len() <= s.len() && x == #[trigger] s.subrange(a, a + x.len())
}

proof fn lemma_sub_at(x: Seq<char>, s: Seq<char>, a: int)
    requires
        0 <= a,
        a + x.len() <= s.len(),
        x == s.subrange(a, a + x.len()),
    ensures
        is_sub(x, s),
{
}

proof fn lemma_sub_inherits(x: Seq<char>, s: Seq<char>, c: char)
    requires
        is_sub(x, s),
    ensures
        no_char(s, c) ==> no_char(x, c),
        no_comment(s) ==> no_comment(x),
{
    let a = choose|a: int| 0 <= a && a + x.len() <= s.len() && x == #[trigger] s.subrange(a, a + x.len());
    if no_char(s, c) {
        assert forall|k: int| 0 <= k < x.len() implies x[k] != c by {
            assert(x[k] == s[a + k]);
        }
    }
    if no_comment(s) {
        assert forall|k: int| 0 <= k < x.len() - 1 implies !(#[trigger] x[k] == '/' && x[k + 1]
            == '/') by {
            assert(x[k] == s[a + k]);
            assert(x[k + 1] == s[a + k + 1]);
        }
    }
}

proof fn lemma_sub_trans(x: Seq<char>, y: Seq<char>, s: Seq<char>)
    requires
        is_sub(x, y),
        is_sub(y, s),
    ensures
        is_sub(x, s),
{
    let a = choose|a: int| 0 <= a && a + x.len() <= y.len() && x == #[trigger] y.subrange(a, a + x.len());
    let b = choose|b: int| 0 <= b && b + y.len() <= s.len() && y == #[trigger] s.subrange(b, b + y.len());
    assert(x =~= s.subrange(a + b, a + b + x.len()));
}

proof fn lemma_sub_skip(s: Seq<char>, i: int)
    requires
        0 <= i <= s.len(),
    ensures
        is_sub(s.skip(i), s),
        is_sub(s.take(i), s),
{
    assert(s.skip(i) == s.subrange(i, i + s.skip(i).len()));
    assert(s.take(i) == s.subrange(0, 0 + s.take(i).len() as int));
}

/// `trim` and `trim_start` give pieces of their argument; a trimmed piece
/// ends where the argument ends when that end is no whitespace.
proof fn lemma_trim_sub(s: Seq<char>)
    ensures
        is_sub(trim(s), s),
        is_sub(trim_start(s), s),
        trim_start(s).len() > 0 ==> trim_start(s).last() == s.last(),
        s.len() > 0 && !is_space(s.last()) && trim(s).len() > 0 ==> trim(s).last() == s.last(),
{
    lemma_trim_start_shape(s);
    let a = trim_start(s);
    lemma_trim_end_shape(a);
    let i = choose|j: int| 0 <= j <= s.len() && trim_start(s) == s.skip(j);
    let k = choose|j: int| 0 <= j <= a.len() && trim_end(a) == a.take(j);
    lemma_sub_skip(s, i);
    lemma_sub_skip(a, k);
    lemma_sub_trans(trim(s), a, s);
    if s.len() > 0 && !is_space(s.last()) && a.len() > 0 {
        assert(a.last() == s.last());
        assert(trim_end(a) == a);
    }
}

/// The text before a comment holds no `//`.
proof fn lemma_comment_free(l: Seq<char>)
    ensures
        comment_start(l) <= l.len(),
        no_comment(l.take(comment_start(l) as int)),
    decreases l.len(),
{
    if l.len() >= 2 && !(l[0] == '/' && l[1] == '/') {
        let r = l.drop_first();
        lemma_comment_free(r);
        let c = comment_start(l) as int;
        let x = l.take(c);
        let y = r.take(c - 1);
        assert forall|k: int| 0 <= k < x.len() - 1 implies !(#[trigger] x[k] == '/' && x[k + 1]
            == '/') by {
            if k > 0 {
                assert(x[k] == y[k - 1]);
                assert(x[k + 1] == y[k]);
            }
        }
    } else if l.len() < 2 {
        assert(l.take(l.len() as int) =~= l);
    }
}

/// Text without `//` holds no comment.
proof fn lemma_no_comment_start(l: Seq<char>)
    requires
        no_comment(l),
    ensures
        comment_start(l) == l.len(),
    decreases l.len(),
{
    if l.len() >= 2 {
        assert(!(l[0] == '/' && l[1] == '/'));
        let r = l.drop_first();
        assert(no_comment(r)) by {
            assert forall|k: int| 0 <= k < r.len() - 1 implies !(#[trigger] r[k] == '/' && r[k + 1]
                == '/') by {
                assert(r[k] == l[k + 1]);
            }
        }
        lemma_no_comment_start(r);
    }
}

/// Every piece of a split stands in the text; the last one ends it.
proof fn lemma_split_subs(s: Seq<char>, sep: char)
    ensures
        forall|k: int| 0 <= k < split(s, sep).len() ==> is_sub(#[trigger] split(s, sep)[k], s),
        split(s, sep).len() >= 1,
        split(s, sep).last() == s.skip(s.len() - split(s, sep).last().len()),
    decreases s.len(),
{
    lemma_split_nonempty(s, sep);
    if s.len() == 0 {
        assert(split(s, sep)[0] =~= s.subrange(0, 0));
        lemma_sub_at(split(s, sep)[0], s, 0);
    } else {
        let s0 = s.drop_last();
        lemma_split_subs(s0, sep);
        let init = split(s0, sep);
        let ps = split(s, sep);
        assert(is_sub(s0, s)) by {
            lemma_sub_skip(s, s.len() - 1);
            assert(s0 == s.take(s.len() - 1));
        }
        if s.last() == sep {
            assert forall|k: int| 0 <= k < ps.len() implies is_sub(#[trigger] ps[k], s) by {
                if k < init.len() {
                    lemma_sub_trans(ps[k], s0, s);
                } else {
                    assert(ps[k] =~= s.subrange(0, 0));
                    lemma_sub_at(ps[k], s, 0);
                }
            }
            assert(ps.last() =~= s.skip(s.len() as int));
        } else {
            let l0 = init.last();
            let a = s0.len() - l0.len();
            assert(ps.last() =~= s.skip(a));
            assert forall|k: int| 0 <= k < ps.len() implies is_sub(#[trigger] ps[k], s) by {
                if k < init.len() - 1 {
                    assert(ps[k] == init[k]);
                    lemma_sub_trans(ps[k], s0, s);
                } else {
                    lemma_sub_skip(s, a);
                }
            }
        }
    }
}

/// An operand that a source line can carry back: no newline, no `//`, and
/// no `:` at its end.
pub open spec fn operand_clean(x: Seq<char>) -> bool {
    operand_ok(x) && no_char(x, '\n') && no_comment(x) && (x.len() > 0 ==> x.last() != ':')
}

pub open spec fn instr_clean(i: InstrV) -> bool {
    match i {
        InstrV::Addi(_, _, x) => operand_clean(x),
        InstrV::Lw(_, _, x) => operand_clean(x),
        InstrV::Sw(_, _, x) => operand_clean(x),
        InstrV::Beq(_, _, x) => operand_clean(x),
        InstrV::Movi(_, x) => operand_clean(x),
        InstrV::Lui(_, x) => operand_clean(x),
        _ => true,
    }
}

/// What an instruction text that the loader decodes looks like.
pub open spec fn line_clean(t: Seq<char>) -> bool {
    no_char(t, '\n') && no_comment(t) && t.len() > 0 && t.last() != ':' && !is_space(t.last())
}

proof fn lemma_decoded_clean(t: Seq<char>)
    requires
        decode_line(t) is Ok,
        line_clean(t),
    ensures
        instr_clean(decode_line(t)->Ok_0),
{
    lemma_decoded_operand_ok(t);
    reveal(decode_line);
    let k = first_space(t) as int;
    lemma_first_space_le(t);
    let u = t.skip(k);
    let args = trim_start(u);
    lemma_sub_skip(t, k);
    lemma_trim_sub(u);
    lemma_sub_trans(args, u, t);
    let ps = split(args, ',');
    lemma_split_subs(args, ',');
    let m = ps.len() - 1;
    let p = ps[m];
    lemma_sub_trans(p, args, t);
    lemma_trim_sub(p);
    lemma_sub_trans(trim(p), p, t);
    lemma_sub_inherits(trim(p), t, '\n');
    if trim(p).len() > 0 {
        assert(p.len() > 0);
        assert(p.last() == args.last());
        assert(u.last() == t.last());
        assert(args.last() == t.last());
    }
}

/// The instruction text of a classified line.
proof fn lemma_classified_clean(l: Seq<char>)
    requires
        no_char(l, '\n'),
    ensures
        classify(l) matches LineKind::Plain(t) ==> line_clean(t),
        classify(l) matches LineKind::Labelled(_, rest) ==> (rest.len() > 0 ==> line_clean(rest)),
{
    reveal(classify);
    let c = l.take(comment_start(l) as int);
    lemma_comment_free(l);
    lemma_sub_skip(l, comment_start(l) as int);
    let t = trim(c);
    lemma_trim_sub(c);
    lemma_trim_ok(c, '\n');
    lemma_sub_trans(t, c, l);
    lemma_sub_inherits(t, l, '\n');
    lemma_sub_inherits(t, c, '\n');
    if t.len() > 0 && t.last() != ':' {
        if let Some(j) = last_colon(t, first_space(t) as int) {
            lemma_last_colon_range(t, first_space(t) as int);
            lemma_first_space_le(t);
            let v = t.skip(j + 1);
            let rest = trim(v);
            lemma_sub_skip(t, j + 1);
            lemma_trim_sub(v);
            lemma_sub_trans(rest, v, t);
            lemma_sub_inherits(rest, t, '\n');
            if rest.len() > 0 {
                assert(v.last() == t.last());
            }
        }
    }
}

proof fn lemma_first_space_le(t: Seq<char>)
    ensures
        first_space(t) <= t.len(),
    decreases t.len(),
{
    if t.len() > 0 && !is_space(t[0]) {
        lemma_first_space_le(t.drop_first());
    }
}

proof fn lemma_last_colon_range(t: Seq<char>, k: int)
    ensures
        last_colon(t, k) matches Some(j) ==> 0 <= j < k,
    decreases k,
{
    if k > 0 {
        lemma_last_colon_range(t, k - 1);
    }
}

/// Every instruction that a load produces is clean.
proof fn lemma_loaded_clean(lines: Seq<Seq<char>>)
    requires
        load_lines(lines) is Ok,
        forall|k: int| 0 <= k < lines.len() ==> no_char(#[trigger] lines[k], '\n'),
    ensures
        forall|k: int|
            0 <= k < load_lines(lines)->Ok_0.0.len() ==> instr_clean(
                #[trigger] load_lines(lines)->Ok_0.0[k],
            ),
    decreases lines.len(),
{
    if lines.len() > 0 {
        let init = lines.drop_last();
        assert forall|k: int| 0 <= k < init.len() implies no_char(#[trigger] init[k], '\n') by {
            assert(init[k] == lines[k]);
        }
        lemma_loaded_clean(init);
        let is0 = load_lines(init)->Ok_0.0;
        let is = load_lines(lines)->Ok_0.0;
        assert(no_char(lines[lines.len() - 1], '\n'));
        lemma_classified_clean(lines.last());
        match classify(lines.last()) {
            LineKind::Labelled(_, rest) => {
                reveal(decode_line);
                if rest.len() == 0 {
                    assert(rest.take(first_space(rest) as int) =~= Seq::<char>::empty());
                    lemma_names_distinct();
                    assert(opcode_of(Seq::<char>::empty()) is None) by {
                        assert forall|o: Opcode| opcode_name(o) != Seq::<char>::empty() by {
                            lemma_opcode_back(o);
                        }
                    }
                }
                lemma_decoded_clean(rest);
                assert forall|k: int| 0 <= k < is.len() implies instr_clean(#[trigger] is[k]) by {
                    if k < is0.len() {
                        assert(is[k] == is0[k]);
                    }
                }
            },
            LineKind::Plain(t) => {
                lemma_decoded_clean(t);
                assert forall|k: int| 0 <= k < is.len() implies instr_clean(#[trigger] is[k]) by {
                    if k < is0.len() {
                        assert(is[k] == is0[k]);
                    }
                }
            },
            _ => {},
        }
    }
}

/// A character that cannot start a comment, end a label or separate words.
pub open spec fn tame(c: char) -> bool {
    c != '/' && c != ':' && !is_space(c)
}

pub open spec fn all_tame(s: Seq<char>) -> bool {
    forall|k: int| 0 <= k < s.len() ==> tame(#[trigger] s[k])
}

proof fn lemma_concat_no_comment(a: Seq<char>, b: Seq<char>)
    requires
        no_comment(a),
        no_comment(b),
        !(a.len() > 0 && b.len() > 0 && a.last() == '/' && b[0] == '/'),
    ensures
        no_comment(a + b),
{
    let s = a + b;
    assert forall|k: int| 0 <= k < s.len() - 1 implies !(#[trigger] s[k] == '/' && s[k + 1]
        == '/') by {
        if k < a.len() - 1 {
            assert(s[k] == a[k] && s[k + 1] == a[k + 1]);
        } else if k == a.len() - 1 {
            assert(s[k] == a.last() && s[k + 1] == b[0]);
        } else {
            assert(s[k] == b[k - a.len()] && s[k + 1] == b[k + 1 - a.len()]);
        }
    }
}

proof fn lemma_concat_no_char(a: Seq<char>, b: Seq<char>, c: char)
    requires
        no_char(a, c),
        no_char(b, c),
    ensures
        no_char(a + b, c),
{
    assert forall|k: int| 0 <= k < (a + b).len() implies (a + b)[k] != c by {
        if k < a.len() {
            assert((a + b)[k] == a[k]);
        } else {
            assert((a + b)[k] == b[k - a.len()]);
        }
    }
}

proof fn lemma_tame_text(s: Seq<char>)
    requires
        all_tame(s),
    ensures
        no_comment(s),
        no_char(s, '\n'),
        no_char(s, ':'),
        no_char(s, '/'),
        forall|k: int| 0 <= k < s.len() ==> !is_space(#[trigger] s[k]),
{
    assert(is_space('\n'));
    assert forall|k: int| 0 <= k < s.len() - 1 implies !(#[trigger] s[k] == '/' && s[k + 1]
        == '/') by {
        assert(tame(s[k]));
    }
    assert forall|k: int| 0 <= k < s.len() implies s[k] != '\n' by {
        assert(tame(s[k]));
    }
}

proof fn lemma_tame_concat(a: Seq<char>, b: Seq<char>)
    requires
        all_tame(a),
        all_tame(b),
    ensures
        all_tame(a + b),
{
    assert forall|k: int| 0 <= k < (a + b).len() implies tame(#[trigger] (a + b)[k]) by {
        if k < a.len() {
            assert((a + b)[k] == a[k]);
        } else {
            assert((a + b)[k] == b[k - a.len()]);
        }
    }
}

proof fn lemma_digits_tame(n: nat)
    ensures
        all_tame(digits(n, 10)),
    decreases n,
{
    let s = digits(n, 10);
    if n < 10 {
        assert(s == seq![digit_char(n)]);
        assert(tame(s[0]));
    } else {
        let q = n / 10;
        let r = n % 10;
        assert(r < 10 && q < n) by (nonlinear_arith)
            requires
                q == n / 10,
                r == n % 10,
                n >= 10,
        ;
        lemma_digits_tame(q);
        assert(s == digits(q, 10).push(digit_char(r)));
        assert(tame(digit_char(r)));
        assert forall|k: int| 0 <= k < s.len() implies tame(#[trigger] s[k]) by {
            if k < s.len() - 1 {
                assert(s[k] == digits(q, 10)[k]);
            }
        }
    }
}

proof fn lemma_regs_tame(r: Seq<usize>)
    ensures
        all_tame(regs_text(r)),
    decreases r.len(),
{
    if r.len() == 1 {
        lemma_digits_tame(r[0] as nat);
        assert(decimal(r[0] as int) == digits(r[0] as nat, 10));
    } else if r.len() > 1 {
        lemma_regs_tame(r.drop_last());
        lemma_digits_tame(r.last() as nat);
        assert(decimal(r.last() as int) == digits(r.last() as nat, 10));
        assert(all_tame(seq![',']));
        lemma_tame_concat(regs_text(r.drop_last()), seq![',']);
        lemma_tame_concat(regs_text(r.drop_last()) + seq![','], decimal(r.last() as int));
    }
}

proof fn lemma_name_tame(o: Opcode)
    ensures
        all_tame(opcode_name(o)),
{
    let s = opcode_name(o);
    assert forall|k: int| 0 <= k < s.len() implies tame(#[trigger] s[k]) by {
        let c = s[k];
        assert(97 <= c as u32 <= 122);
    }
}

/// What a normal-form line of a clean instruction looks like.
pub open spec fn text_facts(i: InstrV) -> bool {
    let l = instr_text(i);
    let tl = trim(l);
    let name = opcode_name(opcode_of_instr(i));
    &&& no_char(l, '\n')
    &&& no_comment(l)
    &&& tl.len() > 0
    &&& !is_space(tl[0])
    &&& !is_space(tl.last())
    &&& tl.last() != ':'
    &&& trim_end(l) == tl
    &&& trim_start(l) == l
    &&& name.len() <= tl.len()
    &&& tl.take(name.len() as int) == name
    &&& first_space(tl) == name.len()
}

proof fn lemma_text_facts_bare(i: InstrV)
    requires
        i is Nop || i is Halt || i is Reset,
    ensures
        text_facts(i),
{
    let o = opcode_of_instr(i);
    let name = opcode_name(o);
    let l = instr_text(i);
    lemma_opcode_back(o);
    lemma_name_tame(o);
    lemma_tame_text(name);
    assert(args_text(i) =~= Seq::<char>::empty());
    assert(l =~= name + seq![' ']);
    assert(l.drop_last() =~= name);
    assert(is_space(' '));
    assert(trim_end(name) == name);
    assert(trim_end(l) == name);
    assert(trim_start(l) == l);
    assert(trim(l) == name);
    lemma_first_space_concat(name, Seq::<char>::empty());
    assert(name + Seq::<char>::empty() =~= name);
    assert(name.take(name.len() as int) =~= name);
    assert(no_char(seq![' '], '\n'));
    lemma_concat_no_char(name, seq![' '], '\n');
    assert(no_char(seq![' '], '/'));
    lemma_concat_no_char(name, seq![' '], '/');
    assert forall|k: int| 0 <= k < l.len() - 1 implies !(#[trigger] l[k] == '/' && l[k + 1]
        == '/') by {
        assert(l[k] != '/');
    }
}

proof fn lemma_text_facts_args(i: InstrV, h: Seq<char>, x: Seq<char>)
    requires
        !(i is Nop || i is Halt || i is Reset),
        args_text(i) == h + x,
        all_tame(h),
        h.len() > 0,
        operand_clean(x),
    ensures
        text_facts(i),
{
    let o = opcode_of_instr(i);
    let name = opcode_name(o);
    let l = instr_text(i);
    lemma_line_parts(i);
    lemma_name_tame(o);
    lemma_tame_text(name);
    lemma_tame_text(h);
    let a = name + seq![' '] + h;
    assert(l =~= a + x);
    assert(no_char(seq![' '], '\n'));
    assert(no_char(seq![' '], '/'));
    lemma_concat_no_char(name, seq![' '], '\n');
    lemma_concat_no_char(name + seq![' '], h, '\n');
    lemma_concat_no_char(a, x, '\n');
    lemma_concat_no_char(name, seq![' '], '/');
    lemma_concat_no_char(name + seq![' '], h, '/');
    assert(no_comment(a)) by {
        assert forall|k: int| 0 <= k < a.len() - 1 implies !(#[trigger] a[k] == '/' && a[k + 1]
            == '/') by {
            assert(a[k] != '/');
        }
    }
    assert(a.last() == h.last());
    assert(tame(h.last()));
    lemma_concat_no_comment(a, x);
    if x.len() > 0 {
        assert(l.last() == x.last());
    } else {
        assert(l.last() == h.last());
    }
    assert(!is_space(l[0]));
    lemma_trimmed_fixed(l);
    assert(trim_end(l) == l);
}

proof fn lemma_text_facts(i: InstrV)
    requires
        instr_clean(i),
    ensures
        text_facts(i),
{
    match i {
        InstrV::Nop | InstrV::Halt | InstrV::Reset => lemma_text_facts_bare(i),
        InstrV::Add(a, b, c) | InstrV::Nand(a, b, c) => {
            let r = seq![a, b, c];
            lemma_regs_tame(r);
            lemma_regs_split(r);
            assert(args_text(i) =~= regs_text(r) + Seq::<char>::empty());
            lemma_text_facts_args(i, regs_text(r), Seq::empty());
        },
        InstrV::Jalr(a, b) => {
            let r = seq![a, b];
            lemma_regs_tame(r);
            lemma_regs_split(r);
            assert(args_text(i) =~= regs_text(r) + Seq::<char>::empty());
            lemma_text_facts_args(i, regs_text(r), Seq::empty());
        },
        InstrV::Addi(a, b, x) | InstrV::Lw(a, b, x) | InstrV::Sw(a, b, x) | InstrV::Beq(a, b, x) => {
            let r = seq![a, b];
            lemma_regs_tame(r);
            assert(all_tame(seq![',']));
            lemma_tame_concat(regs_text(r), seq![',']);
            assert(args_text(i) == (regs_text(r) + seq![',']) + x);
            lemma_text_facts_args(i, regs_text(r) + seq![','], x);
        },
        InstrV::Movi(a, x) | InstrV::Lui(a, x) => {
            let r = seq![a];
            lemma_regs_tame(r);
            assert(all_tame(seq![',']));
            lemma_tame_concat(regs_text(r), seq![',']);
            assert(args_text(i) == (regs_text(r) + seq![',']) + x);
            lemma_text_facts_args(i, regs_text(r) + seq![','], x);
        },
    }
}

/// A label name that can stand before an instruction on its line: no
/// whitespace and no `//`.
pub open spec fn attached_name_ok(nm: Seq<char>) -> bool {
    (forall|k: int| 0 <= k < nm.len() ==> !is_space(#[trigger] nm[k])) && no_comment(nm)
}

/// A label name that can stand on a line of its own: no colon, no newline,
/// no `//`, and no whitespace in front.
pub open spec fn bare_name_ok(nm: Seq<char>) -> bool {
    no_char(nm, ':') && no_char(nm, '\n') && no_comment(nm) && (nm.len() == 0 || !is_space(nm[0]))
}

proof fn lemma_last_colon_none(t: Seq<char>, k: int)
    requires
        k <= t.len(),
        forall|m: int| 0 <= m < k ==> #[trigger] t[m] != ':',
    ensures
        last_colon(t, k) is None,
    decreases k,
{
    if k > 0 {
        lemma_last_colon_none(t, k - 1);
    }
}

proof fn lemma_trim_end_concat(a: Seq<char>, b: Seq<char>)
    requires
        trim_end(b).len() > 0,
    ensures
        trim_end(a + b) == a + trim_end(b),
    decreases b.len(),
{
    if b.len() > 0 && is_space(b.last()) {
        assert((a + b).drop_last() =~= a + b.drop_last());
        lemma_trim_end_concat(a, b.drop_last());
    } else if b.len() > 0 {
        assert((a + b).last() == b.last());
    }
}

proof fn lemma_remove_no_colons(nm: Seq<char>)
    requires
        no_char(nm, ':'),
    ensures
        crate::loader::remove_colons(nm) == nm,
    decreases nm.len(),
{
    if nm.len() > 0 {
        lemma_remove_no_colons(nm.drop_last());
        assert(nm.drop_last().push(nm.last()) =~= nm);
    }
}

/// A normal-form instruction line reads back as a plain instruction line.
proof fn lemma_classify_plain(i: InstrV)
    requires
        instr_clean(i),
    ensures
        classify(instr_text(i)) == LineKind::Plain(trim(instr_text(i))),
{
    reveal(classify);
    lemma_text_facts(i);
    let l = instr_text(i);
    let tl = trim(l);
    let name = opcode_name(opcode_of_instr(i));
    lemma_no_comment_start(l);
    assert(l.take(l.len() as int) =~= l);
    lemma_name_tame(opcode_of_instr(i));
    lemma_tame_text(name);
    assert forall|m: int| 0 <= m < name.len() implies #[trigger] tl[m] != ':' by {
        assert(tl[m] == tl.take(name.len() as int)[m]);
    }
    lemma_last_colon_none(tl, name.len() as int);
}

/// `name: instruction` reads back as that name on that instruction.
proof fn lemma_classify_labelled(nm: Seq<char>, i: InstrV)
    requires
        instr_clean(i),
        attached_name_ok(nm),
    ensures
        classify(nm + ": "@ + instr_text(i)) == LineKind::Labelled(nm, trim(instr_text(i))),
{
    reveal(classify);
    reveal_strlit(": ");
    lemma_text_facts(i);
    let l = instr_text(i);
    let tl = trim(l);
    let head = nm + seq![':', ' '];
    let line = nm + ": "@ + l;
    assert(": "@ =~= seq![':', ' ']);
    assert(line =~= head + l);
    assert(no_comment(head)) by {
        assert(no_comment(seq![':', ' ']));
        lemma_concat_no_comment(nm, seq![':', ' ']);
    }
    lemma_concat_no_comment(head, l);
    lemma_no_comment_start(line);
    assert(line.take(line.len() as int) =~= line);
    assert(trim_end(l) == tl);
    lemma_trim_end_concat(head, l);
    assert(!is_space(head[0]));
    let t = head + tl;
    assert(trim(line) == t) by {
        assert(trim_start(line) == line);
        assert(trim_end(line) == head + tl);
    }
    assert(t.last() == tl.last());
    assert(is_space(' '));
    let nc = nm + seq![':'];
    assert forall|k: int| 0 <= k < nc.len() implies !is_space(#[trigger] nc[k]) by {
        if k < nm.len() {
            assert(nc[k] == nm[k]);
        }
    }
    assert(t =~= nc + (seq![' '] + tl));
    lemma_first_space_concat(nc, seq![' '] + tl);
    assert(t[nm.len() as int] == ':');
    assert(last_colon(t, nm.len() as int + 1) == Some(nm.len() as int));
    assert(t.take(nm.len() as int) =~= nm);
    assert(t.skip(nm.len() as int + 1) =~= seq![' '] + tl);
    lemma_skip_space(tl);
    assert(trim_start(tl) == tl);
    lemma_trimmed_fixed(tl);
}

/// `name:` on a line of its own reads back as that name.
proof fn lemma_classify_bare(nm: Seq<char>)
    requires
        bare_name_ok(nm),
    ensures
        classify(nm + ":"@) == LineKind::Label(nm),
{
    reveal(classify);
    reveal_strlit(":");
    let line = nm + ":"@;
    assert(":"@ =~= seq![':']);
    assert(line =~= nm.push(':'));
    assert(no_comment(seq![':']));
    lemma_concat_no_comment(nm, seq![':']);
    lemma_no_comment_start(line);
    assert(line.take(line.len() as int) =~= line);
    assert(!is_space(':'));
    assert(!is_space(line[0]));
    lemma_trimmed_fixed(line);
    assert(line.drop_last() =~= nm);
    lemma_remove_no_colons(nm);
}

/// The prefix that the first `k` declarations put before instruction line `j`.
pub open spec fn label_prefix(ls: Seq<(Seq<char>, nat)>, k: nat, j: int) -> Seq<char>
    decreases k,
{
    if k == 0 {
        Seq::empty()
    } else {
        let p = label_prefix(ls, (k - 1) as nat, j);
        if !shadowed(ls, k - 1) && ls[k - 1].1 == j {
            ls[k - 1].0 + ": "@ + p
        } else {
            p
        }
    }
}

/// The declarations among the first `k` that get a line of their own after
/// the last instruction, in order.
pub open spec fn trail(ls: Seq<(Seq<char>, nat)>, n: nat, k: nat) -> Seq<int>
    decreases k,
{
    if k == 0 {
        Seq::empty()
    } else {
        let t = trail(ls, n, (k - 1) as nat);
        if !shadowed(ls, k - 1) && ls[k - 1].1 >= n {
            t.push(k - 1)
        } else {
            t
        }
    }
}

proof fn lemma_attach_shape(base: Seq<Seq<char>>, n: nat, ls: Seq<(Seq<char>, nat)>, k: nat)
    requires
        base.len() == n,
        k <= ls.len(),
    ensures
        attach_labels(base, n, ls, k) == Seq::new(n, |j: int| label_prefix(ls, k, j) + base[j])
            + Seq::new(trail(ls, n, k).len(), |m: int| ls[trail(ls, n, k)[m]].0 + ":"@),
    decreases k,
{
    if k == 0 {
        assert(Seq::new(n, |j: int| label_prefix(ls, 0, j) + base[j]) =~= base) by {
            assert forall|j: int| 0 <= j < n implies label_prefix(ls, 0, j) + base[j] == base[j] by {
                assert(Seq::<char>::empty() + base[j] =~= base[j]);
            }
        }
        assert(Seq::new(trail(ls, n, 0).len(), |m: int| ls[trail(ls, n, 0)[m]].0 + ":"@)
            =~= Seq::<Seq<char>>::empty());
        assert(attach_labels(base, n, ls, 0) =~= base + Seq::<Seq<char>>::empty());
    } else {
        lemma_attach_shape(base, n, ls, (k - 1) as nat);
        let e = k - 1;
        let a0 = Seq::new(n, |j: int| label_prefix(ls, (k - 1) as nat, j) + base[j]);
        let t0 = trail(ls, n, (k - 1) as nat);
        let b0 = Seq::new(t0.len(), |m: int| ls[t0[m]].0 + ":"@);
        let a1 = Seq::new(n, |j: int| label_prefix(ls, k, j) + base[j]);
        let t1 = trail(ls, n, k);
        let b1 = Seq::new(t1.len(), |m: int| ls[t1[m]].0 + ":"@);
        let prev = attach_labels(base, n, ls, (k - 1) as nat);
        let (name, idx) = ls[e];
        if shadowed(ls, e) {
            assert(a1 =~= a0);
            assert(b1 =~= b0);
        } else if idx < n {
            assert(prev[idx as int] == a0[idx as int]);
            assert(a1 =~= a0.update(idx as int, name + ": "@ + a0[idx as int])) by {
                assert forall|j: int| 0 <= j < n implies a1[j] == a0.update(
                    idx as int,
                    name + ": "@ + a0[idx as int],
                )[j] by {
                    if j == idx {
                        assert(name + ": "@ + (label_prefix(ls, (k - 1) as nat, j) + base[j]) =~= (
                        name + ": "@ + label_prefix(ls, (k - 1) as nat, j)) + base[j]);
                    }
                }
            }
            assert(b1 =~= b0);
            assert(prev.update(idx as int, name + ": "@ + prev[idx as int]) =~= a1 + b1);
        } else {
            assert(a1 =~= a0);
            assert(b1 =~= b0.push(name + ":"@));
            assert((a0 + b0).push(name + ":"@) =~= a1 + b1);
        }
    }
}

/// Whether declaration `e` is in force and names instruction line `j`.
pub open spec fn labels_line(ls: Seq<(Seq<char>, nat)>, e: int, j: int) -> bool {
    0 <= e < ls.len() && !shadowed(ls, e) && ls[e].1 == j
}

/// With at most one declaration in force per line, the prefix of a line is
/// that declaration's name, or nothing.
proof fn lemma_prefix_single(ls: Seq<(Seq<char>, nat)>, k: nat, j: int)
    requires
        k <= ls.len(),
        forall|e1: int, e2: int|
            labels_line(ls, e1, j) && labels_line(ls, e2, j) ==> e1 == e2,
    ensures
        forall|e: int| 0 <= e < k && labels_line(ls, e, j) ==> label_prefix(ls, k, j) == ls[e].0
            + ": "@,
        (forall|e: int| 0 <= e < k ==> !labels_line(ls, e, j)) ==> label_prefix(ls, k, j)
            == Seq::<char>::empty(),
    decreases k,
{
    if k > 0 {
        lemma_prefix_single(ls, (k - 1) as nat, j);
        let e = k - 1;
        if labels_line(ls, e, j) {
            assert(forall|e2: int| 0 <= e2 < k - 1 ==> !labels_line(ls, e2, j));
            assert(ls[e].0 + ": "@ + Seq::<char>::empty() =~= ls[e].0 + ": "@);
        }
    }
}

/// The trail holds exactly the declarations in force past the last line.
proof fn lemma_trail_members(ls: Seq<(Seq<char>, nat)>, n: nat, k: nat)
    requires
        k <= ls.len(),
    ensures
        forall|m: int|
            0 <= m < trail(ls, n, k).len() ==> 0 <= #[trigger] trail(ls, n, k)[m] < k && !shadowed(
                ls,
                trail(ls, n, k)[m],
            ) && ls[trail(ls, n, k)[m]].1 >= n,
        forall|e: int|
            0 <= e < k && !shadowed(ls, e) && ls[e].1 >= n ==> exists|m: int|
                0 <= m < trail(ls, n, k).len() && #[trigger] trail(ls, n, k)[m] == e,
    decreases k,
{
    if k > 0 {
        lemma_trail_members(ls, n, (k - 1) as nat);
        let t0 = trail(ls, n, (k - 1) as nat);
        let t = trail(ls, n, k);
        assert forall|e: int| 0 <= e < k && !shadowed(ls, e) && ls[e].1 >= n implies exists|m: int|
            0 <= m < t.len() && #[trigger] t[m] == e by {
            if e < k - 1 {
                let m = choose|m: int| 0 <= m < t0.len() && #[trigger] t0[m] == e;
                assert(t[m] == t0[m]);
            } else {
                assert(t[t.len() - 1] == e);
            }
        }
    }
}

/// Lines without newlines, joined and split again, give the same lines.
proof fn lemma_split_join(r: Seq<Seq<char>>)
    requires
        r.len() >= 1,
        forall|j: int| 0 <= j < r.len() ==> no_char(#[trigger] r[j], '\n'),
    ensures
        split(join_lines(r), '\n') == r,
    decreases r.len(),
{
    if r.len() == 1 {
        lemma_split_none(r[0], '\n');
        assert(seq![r[0]] =~= r);
    } else {
        let r0 = r.drop_last();
        assert forall|j: int| 0 <= j < r0.len() implies no_char(#[trigger] r0[j], '\n') by {
            assert(r0[j] == r[j]);
        }
        lemma_split_join(r0);
        lemma_split_concat(join_lines(r0), r.last(), '\n');
        lemma_split_none(r.last(), '\n');
        assert(r0 + seq![r.last()] =~= r);
    }
}

/// Every declaration that a load records names an index up to the
/// number of instructions.
proof fn lemma_labels_bounded(lines: Seq<Seq<char>>)
    requires
        load_lines(lines) is Ok,
    ensures
        forall|e: int|
            0 <= e < load_lines(lines)->Ok_0.1.len() ==> (#[trigger] load_lines(lines)->Ok_0.1[e]).1
                <= load_lines(lines)->Ok_0.0.len(),
    decreases lines.len(),
{
    if lines.len() > 0 {
        lemma_labels_bounded(lines.drop_last());
        let (is0, ls0) = load_lines(lines.drop_last())->Ok_0;
        let (is, ls) = load_lines(lines)->Ok_0;
        assert forall|e: int| 0 <= e < ls.len() implies (#[trigger] ls[e]).1 <= is.len() by {
            if e < ls0.len() {
                assert(ls[e] == ls0[e]);
            }
        }
    }
}

/// Labels that the normal form carries back: each name in force fits where
/// it is written, and no instruction has two names in force.
pub open spec fn labels_fit(n: nat, ls: Seq<(Seq<char>, nat)>) -> bool {
    &&& forall|e: int|
        0 <= e < ls.len() && !shadowed(ls, e) ==> (if ls[e].1 < n {
            attached_name_ok(#[trigger] ls[e].0)
        } else {
            bare_name_ok(ls[e].0)
        })
    &&& forall|e1: int, e2: int, j: int|
        0 <= j < n && #[trigger] labels_line(ls, e1, j) && #[trigger] labels_line(ls, e2, j) ==> e1
            == e2
}

/// The declaration in force on instruction line `j`, if any.
pub open spec fn line_label(ls: Seq<(Seq<char>, nat)>, j: int) -> Option<int> {
    if exists|e: int| labels_line(ls, e, j) {
        Some(choose|e: int| labels_line(ls, e, j))
    } else {
        None
    }
}

/// The declarations that reading back the first `p` normal-form lines makes.
pub open spec fn reread_labels(ls: Seq<(Seq<char>, nat)>, n: nat, p: nat) -> Seq<(Seq<char>, nat)>
    decreases p,
{
    if p == 0 {
        Seq::empty()
    } else {
        let r = reread_labels(ls, n, (p - 1) as nat);
        if p <= n {
            match line_label(ls, p - 1) {
                Some(e) => r.push((ls[e].0, (p - 1) as nat)),
                None => r,
            }
        } else {
            r.push((ls[trail(ls, n, ls.len())[p - 1 - n]].0, n))
        }
    }
}

pub open spec fn normal_lines(is: Seq<InstrV>, ls: Seq<(Seq<char>, nat)>) -> Seq<Seq<char>> {
    Seq::new(is.len(), |j: int| label_prefix(ls, ls.len(), j) + instr_text(is[j])) + Seq::new(
        trail(ls, is.len(), ls.len()).len(),
        |m: int| ls[trail(ls, is.len(), ls.len())[m]].0 + ":"@,
    )
}

proof fn lemma_reread(is: Seq<InstrV>, ls: Seq<(Seq<char>, nat)>, p: nat)
    requires
        forall|k: int| 0 <= k < is.len() ==> instr_clean(#[trigger] is[k]),
        labels_fit(is.len(), ls),
        p <= normal_lines(is, ls).len(),
    ensures
        load_lines(normal_lines(is, ls).take(p as int)) == Ok::<
            (Seq<InstrV>, Seq<(Seq<char>, nat)>),
            crate::loader::LoadErrorV,
        >((is.take(if p < is.len() { p as int } else { is.len() as int }), reread_labels(ls, is.len(), p))),
    decreases p,
{
    let r = normal_lines(is, ls);
    let n = is.len();
    if p == 0 {
        assert(r.take(0) =~= Seq::<Seq<char>>::empty());
        assert(is.take(0) =~= Seq::<InstrV>::empty());
    } else {
        lemma_reread(is, ls, (p - 1) as nat);
        assert(r.take(p as int).drop_last() =~= r.take(p - 1));
        assert(r.take(p as int).last() == r[p - 1]);
        let q = p - 1;
        if q < n {
            let i = is[q];
            lemma_instr_round_trip(i);
            assert(is.take(q).push(i) =~= is.take(p as int));
            lemma_prefix_single(ls, ls.len(), q);
            assert(r[q] == label_prefix(ls, ls.len(), q) + instr_text(i));
            match line_label(ls, q) {
                Some(e) => {
                    assert(labels_line(ls, e, q));
                    assert(label_prefix(ls, ls.len(), q) == ls[e].0 + ": "@);
                    assert(attached_name_ok(ls[e].0));
                    lemma_classify_labelled(ls[e].0, i);
                },
                None => {
                    assert(label_prefix(ls, ls.len(), q) == Seq::<char>::empty());
                    assert(r[q] =~= instr_text(i));
                    lemma_classify_plain(i);
                },
            }
        } else {
            let t = trail(ls, n, ls.len());
            lemma_trail_members(ls, n, ls.len());
            let e = t[q - n];
            assert(r[q] == ls[e].0 + ":"@);
            assert(!shadowed(ls, e) && ls[e].1 >= n);
            assert(bare_name_ok(ls[e].0));
            lemma_classify_bare(ls[e].0);
            assert(is.take(n as int) =~= is);
        }
    }
}

/// What `lookup` finds: the declaration of the name that is in force.
proof fn lemma_lookup_in_force(t: Seq<(Seq<char>, nat)>, nm: Seq<char>)
    ensures
        lookup(t, nm) matches Some(v) ==> exists|k: int|
            0 <= k < t.len() && !shadowed(t, k) && #[trigger] t[k] == (nm, v),
        lookup(t, nm) is None ==> forall|k: int| 0 <= k < t.len() ==> (#[trigger] t[k]).0 != nm,
    decreases t.len(),
{
    if t.len() > 0 {
        let t0 = t.drop_last();
        lemma_lookup_in_force(t0, nm);
        if t.last().0 == nm {
            assert(t[t.len() - 1] == (nm, t.last().1));
            assert(!shadowed(t, t.len() - 1));
        } else {
            if let Some(v) = lookup(t0, nm) {
                let k = choose|k: int| 0 <= k < t0.len() && !shadowed(t0, k) && #[trigger] t0[k] == (nm, v);
                assert(t[k] == t0[k]);
                assert(!shadowed(t, k)) by {
                    if shadowed(t, k) {
                        let j = choose|j: int| k < j < t.len() && t[j].0 == t[k].0;
                        if j < t0.len() {
                            assert(t0[j] == t[j]);
                        }
                    }
                }
            } else {
                assert forall|k: int| 0 <= k < t.len() implies (#[trigger] t[k]).0 != nm by {
                    if k < t0.len() {
                        assert(t[k] == t0[k]);
                    }
                }
            }
        }
    }
}

/// The declarations read back come from those in force, and all of these
/// come back.
proof fn lemma_reread_entries(ls: Seq<(Seq<char>, nat)>, n: nat, p: nat)
    requires
        forall|e: int| 0 <= e < ls.len() ==> (#[trigger] ls[e]).1 <= n,
        labels_fit(n, ls),
        p <= n + trail(ls, n, ls.len()).len(),
    ensures
        forall|k: int|
            0 <= k < reread_labels(ls, n, p).len() ==> exists|e: int|
                0 <= e < ls.len() && !shadowed(ls, e) && #[trigger] reread_labels(ls, n, p)[k]
                    == ls[e],
        forall|e: int|
            0 <= e < ls.len() && !shadowed(ls, e) && ls[e].1 < n && ls[e].1 < p ==> exists|k: int|
                0 <= k < reread_labels(ls, n, p).len() && #[trigger] reread_labels(ls, n, p)[k]
                    == ls[e],
        forall|m: int|
            0 <= m < p - n ==> exists|k: int|
                0 <= k < reread_labels(ls, n, p).len() && reread_labels(ls, n, p)[k] == ls[
                    #[trigger] trail(ls, n, ls.len())[m]],
    decreases p,
{
    if p > 0 {
        let q = (p - 1) as nat;
        lemma_reread_entries(ls, n, q);
        let r0 = reread_labels(ls, n, q);
        let r = reread_labels(ls, n, p);
        let t = trail(ls, n, ls.len());
        lemma_trail_members(ls, n, ls.len());
        assert forall|k: int| 0 <= k < r0.len() implies r[k] == r0[k] by {}
        if p <= n {
            if let Some(e) = line_label(ls, q as int) {
                assert(labels_line(ls, e, q as int));
                assert(r[r.len() - 1] == ls[e]);
            }
            assert forall|k: int| 0 <= k < r.len() implies exists|e: int|
                0 <= e < ls.len() && !shadowed(ls, e) && #[trigger] r[k] == ls[e] by {
                if k < r0.len() {
                    assert(r[k] == r0[k]);
                } else {
                    let e = line_label(ls, q as int)->Some_0;
                    assert(labels_line(ls, e, q as int));
                }
            }
            assert forall|e: int|
                0 <= e < ls.len() && !shadowed(ls, e) && ls[e].1 < n && ls[e].1 < p implies exists|k: int|
                0 <= k < r.len() && #[trigger] r[k] == ls[e] by {
                if ls[e].1 < q {
                    let k = choose|k: int| 0 <= k < r0.len() && #[trigger] r0[k] == ls[e];
                    assert(r[k] == r0[k]);
                } else {
                    assert(labels_line(ls, e, q as int));
                    let e2 = line_label(ls, q as int)->Some_0;
                    assert(labels_line(ls, e2, q as int));
                    assert(e2 == e);
                    assert(r[r.len() - 1] == ls[e]);
                }
            }
        } else {
            let e = t[q - n];
            assert(!shadowed(ls, e) && ls[e].1 >= n);
            assert(ls[e].1 == n);
            assert(r[r.len() - 1] == ls[e]);
            assert forall|k: int| 0 <= k < r.len() implies exists|e: int|
                0 <= e < ls.len() && !shadowed(ls, e) && #[trigger] r[k] == ls[e] by {
                if k < r0.len() {
                    assert(r[k] == r0[k]);
                }
            }
            assert forall|m: int| 0 <= m < p - n implies exists|k: int|
                0 <= k < r.len() && r[k] == ls[#[trigger] t[m]] by {
                if m < q - n {
                    let k = choose|k: int| 0 <= k < r0.len() && r0[k] == ls[t[m]];
                    assert(r[k] == r0[k]);
                } else {
                    assert(r[r.len() - 1] == ls[t[m]]);
                }
            }
        }
    }
}

proof fn lemma_in_force_unique(ls: Seq<(Seq<char>, nat)>, e1: int, e2: int)
    requires
        0 <= e1 < ls.len(),
        0 <= e2 < ls.len(),
        !shadowed(ls, e1),
        !shadowed(ls, e2),
        ls[e1].0 == ls[e2].0,
    ensures
        e1 == e2,
{
    if e1 < e2 {
        assert(e1 < e2 < ls.len() && ls[e2].0 == ls[e1].0);
    } else if e2 < e1 {
        assert(e2 < e1 < ls.len() && ls[e1].0 == ls[e2].0);
    }
}

proof fn lemma_normal_lines_plain(is: Seq<InstrV>, ls: Seq<(Seq<char>, nat)>)
    requires
        forall|k: int| 0 <= k < is.len() ==> instr_clean(#[trigger] is[k]),
        labels_fit(is.len(), ls),
    ensures
        forall|j: int|
            0 <= j < normal_lines(is, ls).len() ==> no_char(#[trigger] normal_lines(is, ls)[j], '\n'),
{
    let r = normal_lines(is, ls);
    let n = is.len();
    let t = trail(ls, n, ls.len());
    lemma_trail_members(ls, n, ls.len());
    reveal_strlit(": ");
    reveal_strlit(":");
    assert(": "@ =~= seq![':', ' ']);
    assert(":"@ =~= seq![':']);
    assert(is_space('\n'));
    assert forall|j: int| 0 <= j < r.len() implies no_char(#[trigger] r[j], '\n') by {
        if j < n {
            lemma_text_facts(is[j]);
            lemma_prefix_single(ls, ls.len(), j);
            let lp = label_prefix(ls, ls.len(), j);
            if let Some(e) = line_label(ls, j) {
                assert(labels_line(ls, e, j));
                assert(attached_name_ok(ls[e].0));
                assert(no_char(ls[e].0, '\n'));
                assert(no_char(seq![':', ' '], '\n'));
                lemma_concat_no_char(ls[e].0, seq![':', ' '], '\n');
            } else {
                assert(lp == Seq::<char>::empty());
            }
            lemma_concat_no_char(lp, instr_text(is[j]), '\n');
        } else {
            let e = t[j - n];
            assert(bare_name_ok(ls[e].0));
            assert(no_char(seq![':'], '\n'));
            lemma_concat_no_char(ls[e].0, seq![':'], '\n');
        }
    }
}

/// Loading a source, writing the program back in normal form and loading
/// that text again gives the same instructions, and every name labels the
/// same instruction as before. This holds when the labels in force can be
/// written back (`labels_fit`): no instruction carries two of them, a name
/// written before an instruction has no whitespace and no `//`, and a name
/// on a line of its own has no colon, no `//` and no whitespace in front.
pub proof fn lemma_round_trip(src: Seq<char>)
    requires
        load_spec(src) is Ok,
        labels_fit(load_spec(src)->Ok_0.0.len(), load_spec(src)->Ok_0.1),
    ensures
        ({
            let (is, ls) = load_spec(src)->Ok_0;
            let back = load_spec(render(is, ls));
            &&& back is Ok
            &&& back->Ok_0.0 == is
            &&& forall|nm: Seq<char>| #[trigger] lookup(back->Ok_0.1, nm) == lookup(ls, nm)
        }),
{
    let lines = split(src, '\n');
    let (is, ls) = load_spec(src)->Ok_0;
    let n = is.len();
    lemma_split_pieces(src, '\n');
    lemma_loaded_clean(lines);
    lemma_labels_bounded(lines);
    let base = Seq::new(n, |j: int| instr_text(is[j]));
    lemma_attach_shape(base, n, ls, ls.len());
    let r = normal_lines(is, ls);
    assert(crate::loader::render_lines(is, ls) =~= r);
    lemma_normal_lines_plain(is, ls);
    let t = trail(ls, n, ls.len());
    lemma_trail_members(ls, n, ls.len());
    if r.len() >= 1 {
        lemma_split_join(r);
        lemma_reread(is, ls, r.len());
        assert(r.take(r.len() as int) =~= r);
        assert(is.take(n as int) =~= is);
        let rl = reread_labels(ls, n, r.len());
        assert(load_spec(render(is, ls)) == Ok::<
            (Seq<InstrV>, Seq<(Seq<char>, nat)>),
            crate::loader::LoadErrorV,
        >((is, rl)));
        lemma_reread_entries(ls, n, r.len());
        assert forall|nm: Seq<char>| #[trigger] lookup(rl, nm) == lookup(ls, nm) by {
            lemma_lookup_in_force(ls, nm);
            lemma_lookup_in_force(rl, nm);
            if let Some(v) = lookup(ls, nm) {
                let k = choose|k: int| 0 <= k < ls.len() && !shadowed(ls, k) && #[trigger] ls[k] == (nm, v);
                let k2: int = if ls[k].1 < n {
                    choose|k2: int| 0 <= k2 < rl.len() && #[trigger] rl[k2] == ls[k]
                } else {
                    let m = choose|m: int| 0 <= m < t.len() && #[trigger] t[m] == k;
                    choose|k2: int| 0 <= k2 < rl.len() && rl[k2] == ls[#[trigger] t[m]]
                };
                assert(rl[k2].0 == nm);
                let w = lookup(rl, nm)->Some_0;
                let k3 = choose|k3: int| 0 <= k3 < rl.len() && !shadowed(rl, k3) && #[trigger] rl[k3] == (nm, w);
                let e = choose|e: int| 0 <= e < ls.len() && !shadowed(ls, e) && #[trigger] rl[k3] == ls[e];
                lemma_in_force_unique(ls, e, k);
            } else {
                if let Some(w) = lookup(rl, nm) {
                    let k3 = choose|k3: int| 0 <= k3 < rl.len() && !shadowed(rl, k3) && #[trigger] rl[k3] == (nm, w);
                    let e = choose|e: int| 0 <= e < ls.len() && !shadowed(ls, e) && #[trigger] rl[k3] == ls[e];
                    assert(ls[e].0 == nm);
                }
            }
        }
    } else {
        reveal(classify);
        let empty = Seq::<char>::empty();
        assert(render(is, ls) == join_lines(r));
        assert(join_lines(r) == empty);
        assert(split(empty, '\n') =~= seq![empty]);
        assert(seq![empty].drop_last() =~= Seq::<Seq<char>>::empty());
        assert(empty.take(0) =~= empty);
        assert(is =~= Seq::<InstrV>::empty());
        assert(trim_start(empty) == empty);
        assert(trim_end(empty) == empty);
        assert(classify(empty) == LineKind::Blank);
        assert(seq![empty].last() == empty);
        assert(load_lines(Seq::<Seq<char>>::empty()) == Ok::<
            (Seq<InstrV>, Seq<(Seq<char>, nat)>),
            crate::loader::LoadErrorV,
        >((Seq::empty(), Seq::empty())));
        assert(load_lines(seq![empty]) == Ok::<
            (Seq<InstrV>, Seq<(Seq<char>, nat)>),
            crate::loader::LoadErrorV,
        >((Seq::empty(), Seq::empty())));
        assert(load_spec(render(is, ls)) == load_lines(seq![empty]));
        assert forall|nm: Seq<char>| #[trigger] lookup(Seq::<(Seq<char>, nat)>::empty(), nm) == lookup(ls, nm) by {
            lemma_lookup_in_force(ls, nm);
            if let Some(v) = lookup(ls, nm) {
                let k = choose|k: int| 0 <= k < ls.len() && !shadowed(ls, k) && #[trigger] ls[k] == (nm, v);
                assert(exists|m: int| 0 <= m < t.len() && #[trigger] t[m] == k);
            }
        }
    }
}

} // verus!
