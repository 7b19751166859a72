use risc16::loader::{format_code, load_rom, load_rom_text, LoadErrorKind};
use risc16::num::IntErrorKind;
use risc16::program::{Instr, LabelTable};

fn label(labels: &LabelTable, name: &str) -> Option<usize> {
    labels.get(&name.to_string())
}

#[test]
fn bare_label_names_next_instruction() {
    let (rom, labels) = load_rom("start:\n\nnop\n  // comment only\nmid:\nhalt\nend:").unwrap();
    assert_eq!(rom.len(), 2);
    assert_eq!(label(&labels, "start"), Some(0));
    assert_eq!(label(&labels, "mid"), Some(1));
    assert_eq!(label(&labels, "end"), Some(2));
    assert_eq!(label(&labels, "other"), None);
}

#[test]
fn labelled_instruction_line() {
    let (rom, labels) = load_rom("nop\nloop: addi 1,1,1\nx:y:beq 1,0,loop").unwrap();
    assert_eq!(rom.len(), 3);
    assert_eq!(label(&labels, "loop"), Some(1));
    assert_eq!(label(&labels, "x:y"), Some(2));
    assert!(matches!(&rom[1], Instr::Addi(1, 1, s) if s == "1"));
    assert!(matches!(&rom[2], Instr::Beq(1, 0, s) if s == "loop"));
}

#[test]
fn later_label_overrides_earlier() {
    let (_, labels) = load_rom("a: nop\na: halt").unwrap();
    assert_eq!(label(&labels, "a"), Some(1));
    assert_eq!(labels.len(), 2);
    assert!(labels.is_shadowed(0));
    assert!(!labels.is_shadowed(1));
}

#[test]
fn bare_label_colons_removed() {
    let (_, labels) = load_rom("a:b:\nhalt").unwrap();
    assert_eq!(label(&labels, "ab"), Some(0));
}

#[test]
fn comments_and_blank_lines_skipped() {
    let (rom, _) = load_rom("// header\n\n   \nmovi 1,5 // five\nhalt//end\n").unwrap();
    assert_eq!(rom.len(), 2);
    assert!(matches!(&rom[0], Instr::Movi(1, s) if s == "5"));
    assert!(matches!(&rom[1], Instr::Halt));
}

#[test]
fn arguments_trimmed_and_shaped() {
    let (rom, _) = load_rom("add  3 , 1,\t2\njalr 4,5\nlui 1, 0x1f \nnop extra").unwrap();
    assert!(matches!(&rom[0], Instr::Add(3, 1, 2)));
    assert!(matches!(&rom[1], Instr::Jalr(4, 5)));
    assert!(matches!(&rom[2], Instr::Lui(1, s) if s == "0x1f"));
    assert!(matches!(&rom[3], Instr::Nop));
}

#[test]
fn unknown_opcode_rejected() {
    let e = load_rom("nop\nfoo 1,2\nhalt").unwrap_err();
    assert_eq!(e.kind, LoadErrorKind::UnknownOpcode);
    assert_eq!(e.line, "foo 1,2");
    assert_eq!(e.message(), "Error: Instruction unknown: foo 1,2");
}

#[test]
fn unknown_opcode_after_label_reports_instruction() {
    let e = load_rom("here: ADD 1,2,3").unwrap_err();
    assert_eq!(e.kind, LoadErrorKind::UnknownOpcode);
    assert_eq!(e.line, "ADD 1,2,3");
}

#[test]
fn wrong_arity_rejected() {
    assert_eq!(load_rom("add 1,2").unwrap_err().kind, LoadErrorKind::WrongArity);
    assert_eq!(load_rom("jalr 1,2,3").unwrap_err().kind, LoadErrorKind::WrongArity);
    assert_eq!(load_rom("addi 1,2").unwrap_err().kind, LoadErrorKind::WrongArity);
    assert_eq!(load_rom("sw 1,2,3,4").unwrap_err().kind, LoadErrorKind::WrongArity);
}

#[test]
fn bad_register_rejected() {
    assert_eq!(
        load_rom("add 1,x,3").unwrap_err().kind,
        LoadErrorKind::BadRegister(IntErrorKind::InvalidDigit)
    );
    assert_eq!(
        load_rom("add 1,,3").unwrap_err().kind,
        LoadErrorKind::BadRegister(IntErrorKind::Empty)
    );
    assert_eq!(
        load_rom("add 99999999999999999999999,1,2").unwrap_err().kind,
        LoadErrorKind::BadRegister(IntErrorKind::PosOverflow)
    );
    assert_eq!(
        load_rom("movi -1,5").unwrap_err().kind,
        LoadErrorKind::BadRegister(IntErrorKind::InvalidDigit)
    );
    let e = load_rom("add").unwrap_err();
    assert_eq!(e.message(), "cannot parse integer from empty string: add");
}

#[test]
fn register_with_plus_sign_accepted() {
    let (rom, _) = load_rom("add +1,2,3").unwrap();
    assert!(matches!(&rom[0], Instr::Add(1, 2, 3)));
}

#[test]
fn normal_form_text() {
    let text = load_rom_text("loop:   addi 1, 1, 1 // step\nbeq 1,0,loop\n\nhalt\nend:").unwrap();
    assert_eq!(text, "loop: addi 1,1,1\nbeq 1,0,loop\nhalt \nend:");
}

#[test]
fn normal_form_reloads_to_same_program() {
    let src = "start: movi 1,0x10\nlui 2,3\nloop: add 3, 1 ,2\nnand 4,3,3\nlw 5,0,1\nsw 5,0,2\nbeq 1,0,loop\njalr 6,7\nreset\nnop\nhalt\nend:";
    let (rom, labels) = load_rom(src).unwrap();
    let text = load_rom_text(src).unwrap();
    let (rom2, labels2) = load_rom(&text).unwrap();
    let lines = format_code(&rom, &labels);
    let lines2 = format_code(&rom2, &labels2);
    assert_eq!(lines, lines2);
    assert_eq!(rom.len(), rom2.len());
    for name in ["start", "loop", "end"] {
        assert_eq!(label(&labels, name), label(&labels2, name));
    }
    assert_eq!(load_rom_text(&text).unwrap(), text);
}

#[test]
fn instruction_text() {
    assert_eq!(Instr::Add(1, 2, 3).text(), "add 1,2,3");
    assert_eq!(Instr::Beq(1, 0, "loop".to_string()).text(), "beq 1,0,loop");
    assert_eq!(Instr::Movi(7, "-3".to_string()).text(), "movi 7,-3");
    assert_eq!(Instr::Halt.text(), "halt ");
}

#[test]
fn load_error_text_passed_through() {
    let e = load_rom_text("beq 1").unwrap_err();
    assert_eq!(e.kind, LoadErrorKind::WrongArity);
}

#[test]
fn two_labels_on_one_instruction_do_not_reload() {
    let text = load_rom_text("a:\nb: nop\nhalt").unwrap();
    assert_eq!(text, "b: a: nop \nhalt ");
    let e = load_rom(&text).unwrap_err();
    assert_eq!(e.kind, LoadErrorKind::UnknownOpcode);
}
