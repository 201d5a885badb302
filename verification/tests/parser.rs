use sembler::ast::{
    Directive, Entry, Instruction, NullaryOp, Opcode, Program, UnaryOp, Word,
};
use sembler::lexer::{
    at_byte, at_tag, handle_negation, is_id_char, scan_decimal, scan_hex, scan_label,
    scan_literal, scan_name, scan_nullary, scan_run, scan_string, scan_unary, skip_blank,
    text_between, ByteClass, Scan,
};
use sembler::parser::{get_error, parse_svm};

fn op(label: Option<&'static str>, opcode: Opcode<'static>) -> Entry<'static> {
    Entry { label, entry: Instruction::Opcode(opcode) }
}

fn data(label: Option<&'static str>, directive: Directive<'static>) -> Entry<'static> {
    Entry { label, entry: Instruction::Directive(directive) }
}

fn failure(source: &[u8]) -> (usize, Option<&str>) {
    let error = parse_svm(source).unwrap_err();
    (error.position(), error.context())
}

fn literal(source: &[u8]) -> Option<(u32, usize)> {
    match scan_literal(source, 0) {
        Scan::Match(value, next) => Some((value, next)),
        _ => None,
    }
}

#[test]
fn parser_it_works() {
}

#[test]
fn empty_sections() {
    assert_eq!(parse_svm(b"bss{}raw{}"), Ok(Program { bss: vec![], raw: vec![] }));
    assert_eq!(parse_svm(b"  bss { }\n\traw\r\n{ }\n"), Ok(Program { bss: vec![], raw: vec![] }));
}

#[test]
fn a_program_with_every_form() {
    let source = b"; data first\n\
        bss {\n\
        \x20 greeting: .asciz \"hi; there\"\n\
        \x20 .ascii \"x\"\n\
        \x20 .db 65 .dw -1\n\
        }\n\
        raw {\n\
        \x20 main:\n\
        \x20   IMM greeting ; load\n\
        \x20   JSR 0x10\n\
        \x20   loop: BNZ loop\n\
        \x20   RET\n\
        }\n";
    let program = parse_svm(source).unwrap();
    assert_eq!(
        program,
        Program {
            bss: vec![
                data(Some("greeting"), Directive::Asciz("hi; there")),
                data(None, Directive::Ascii("x")),
                data(None, Directive::Db(65)),
                data(None, Directive::Dw(0xffff_ffff)),
            ],
            raw: vec![
                op(Some("main"), Opcode::Unary(UnaryOp::Imm, Word::Label("greeting"))),
                op(None, Opcode::Unary(UnaryOp::Jsr, Word::Literal(16))),
                op(Some("loop"), Opcode::Unary(UnaryOp::Bnz, Word::Label("loop"))),
                op(None, Opcode::Nullary(NullaryOp::Ret)),
            ],
        }
    );
}

#[test]
fn every_nullary_mnemonic() {
    let source = b"bss{}raw{PSH PUSHARG LI LC SI SC SWAP POP RETP RET EQ NE \
        LT GT LE GE ADD SUB MUL DIV MOD AND OR XOR}";
    let expected = [
        NullaryOp::Psh,
        NullaryOp::Pusharg,
        NullaryOp::Li,
        NullaryOp::Lc,
        NullaryOp::Si,
        NullaryOp::Sc,
        NullaryOp::Swap,
        NullaryOp::Pop,
        NullaryOp::Retp,
        NullaryOp::Ret,
        NullaryOp::Eq,
        NullaryOp::Ne,
        NullaryOp::Lt,
        NullaryOp::Gt,
        NullaryOp::Le,
        NullaryOp::Ge,
        NullaryOp::Add,
        NullaryOp::Sub,
        NullaryOp::Mul,
        NullaryOp::Div,
        NullaryOp::Mod,
        NullaryOp::And,
        NullaryOp::Or,
        NullaryOp::Xor,
    ];
    let program = parse_svm(source).unwrap();
    let read: Vec<Entry> = expected.iter().map(|o| op(None, Opcode::Nullary(*o))).collect();
    assert_eq!(program.raw, read);
}

#[test]
fn every_unary_mnemonic() {
    let source = b"bss{}raw{IMM 1 REL 2 JMP 3 BZ 4 BNZ 5 ENT 6 ADJ 7 JSRP 8 JSR 9 INT 10}";
    let expected = [
        UnaryOp::Imm,
        UnaryOp::Rel,
        UnaryOp::Jmp,
        UnaryOp::Bz,
        UnaryOp::Bnz,
        UnaryOp::Ent,
        UnaryOp::Adj,
        UnaryOp::Jsrp,
        UnaryOp::Jsr,
        UnaryOp::Int,
    ];
    let program = parse_svm(source).unwrap();
    let read: Vec<Entry> = expected
        .iter()
        .enumerate()
        .map(|(i, o)| op(None, Opcode::Unary(*o, Word::Literal(i as u32 + 1))))
        .collect();
    assert_eq!(program.raw, read);
}

#[test]
fn mnemonics_are_case_sensitive() {
    assert_eq!(
        failure(b"bss { } raw { psh }                    "),
        (14, Some("psh }               "))
    );
}

#[test]
fn tokens_need_no_blank_between_them() {
    let program = parse_svm(b"bss{.db5.asciz\"a\"}raw{x:JMPx IMM-3RET}").unwrap();
    assert_eq!(
        program,
        Program {
            bss: vec![data(None, Directive::Db(5)), data(None, Directive::Asciz("a"))],
            raw: vec![
                op(Some("x"), Opcode::Unary(UnaryOp::Jmp, Word::Label("x"))),
                op(None, Opcode::Unary(UnaryOp::Imm, Word::Literal(0xffff_fffd))),
                op(None, Opcode::Nullary(NullaryOp::Ret)),
            ],
        }
    );
}

#[test]
fn a_label_may_look_like_a_mnemonic_or_a_number() {
    let program = parse_svm(b"bss { } raw { RET: PSH 12: RET _x9: POP }").unwrap();
    assert_eq!(
        program.raw,
        vec![
            op(Some("RET"), Opcode::Nullary(NullaryOp::Psh)),
            op(Some("12"), Opcode::Nullary(NullaryOp::Ret)),
            op(Some("_x9"), Opcode::Nullary(NullaryOp::Pop)),
        ]
    );
}

#[test]
fn numeric_literals() {
    assert_eq!(literal(b"0"), Some((0, 1)));
    assert_eq!(literal(b"4294967295"), Some((u32::MAX, 10)));
    assert_eq!(literal(b"0042 "), Some((42, 4)));
    assert_eq!(literal(b"0x1f,"), Some((31, 4)));
    assert_eq!(literal(b"0xdeadbeef"), Some((0xdead_beef, 10)));
    assert_eq!(literal(b"0x123456789"), Some((0x1234_5678, 10)));
    assert_eq!(literal(b"0xFF"), Some((0, 1)));
    assert_eq!(literal(b"0x"), Some((0, 1)));
    assert_eq!(literal(b"-1"), Some((0xffff_ffff, 2)));
    assert_eq!(literal(b"- \t 2"), Some((0xffff_fffe, 5)));
    assert_eq!(literal(b"-0"), Some((0, 2)));
    assert_eq!(literal(b"-0x10"), Some((0xffff_fff0, 5)));
    assert_eq!(literal(b"-2147483648"), Some((0x8000_0000, 11)));
    assert_eq!(literal(b"-4294967295"), Some((1, 11)));
    assert_eq!(literal(b"  7"), Some((7, 3)));
    assert_eq!(literal(b";c\n7"), Some((7, 4)));
    assert_eq!(literal(b"x"), None);
    assert_eq!(literal(b""), None);
    assert_eq!(literal(b"-"), None);
    assert_eq!(literal(b"--1"), None);
}

#[test]
fn negation_is_twos_complement() {
    assert_eq!(handle_negation(None, 5), 5);
    assert_eq!(handle_negation(Some('-'), 5), 0xffff_fffb);
    assert_eq!(handle_negation(Some('-'), 0), 0);
    assert_eq!(handle_negation(Some('-'), 0x8000_0000), 0x8000_0000);
    assert_eq!(handle_negation(Some('-'), u32::MAX), 1);
}

#[test]
fn a_decimal_that_does_not_fit_is_a_fault() {
    assert!(matches!(scan_decimal(b"4294967296", 0), Scan::Fault(0)));
    assert!(matches!(scan_decimal(b"4294967295", 0), Scan::Match(4294967295, 10)));
    assert!(matches!(scan_decimal(b"99999999999999999999999999", 0), Scan::Fault(0)));
    assert!(matches!(scan_decimal(b"x", 0), Scan::Miss));
    assert!(matches!(scan_literal(b"- 4294967296", 0), Scan::Fault(2)));
    assert_eq!(
        failure(b"bss { } raw { IMM 99999999999 RET }     "),
        (18, Some("99999999999 RET }   "))
    );
    assert_eq!(failure(b"bss { .db 4294967296 } raw { }"), (10, Some("4294967296 } raw { }")));
}

#[test]
fn db_keeps_the_lowest_byte() {
    let program = parse_svm(b"bss { .db 0x1ff .db -1 .db 256 } raw { }").unwrap();
    assert_eq!(
        program.bss,
        vec![
            data(None, Directive::Db(0xff)),
            data(None, Directive::Db(0xff)),
            data(None, Directive::Db(0)),
        ]
    );
}

#[test]
fn hex_scanning() {
    assert_eq!(scan_hex(b"0x0", 0), Some((0, 3)));
    assert_eq!(scan_hex(b"0xffffffff", 0), Some((u32::MAX, 10)));
    assert_eq!(scan_hex(b"0xffffffffff", 0), Some((u32::MAX, 10)));
    assert_eq!(scan_hex(b"  0xabz", 2), Some((0xab, 6)));
    assert_eq!(scan_hex(b"0x", 0), None);
    assert_eq!(scan_hex(b"0xG", 0), None);
    assert_eq!(scan_hex(b"0", 0), None);
    assert_eq!(scan_hex(b"1x1", 0), None);
}

#[test]
fn strings_are_taken_as_they_are() {
    assert_eq!(scan_string(b"\"a\\n b\" ", 0), Some(("a\\n b", 7)));
    assert_eq!(scan_string(b"\"line\nbreak\"", 0), Some(("line\nbreak", 12)));
    assert_eq!(scan_string("\"h\u{e9}\"".as_bytes(), 0), Some(("h\u{e9}", 5)));
    assert_eq!(scan_string(b"\"\"", 0), None);
    assert_eq!(scan_string(b"\"open", 0), None);
    assert_eq!(scan_string(b"\"", 0), None);
    assert_eq!(scan_string(b"x\"a\"", 0), None);
    assert_eq!(scan_string(b"\"\xff\"", 0), None);
}

#[test]
fn a_string_that_is_not_text_is_no_directive() {
    assert_eq!(
        failure(b"bss { .ascii \"\xff\" } raw { }            "),
        (6, None)
    );
}

#[test]
fn unterminated_string() {
    assert_eq!(failure(b"bss { .asciz \"abc } raw { }"), (6, Some(".asciz \"abc } raw { ")));
}

#[test]
fn names_and_labels() {
    assert_eq!(scan_name(b"abc_9Z-", 0), Some(("abc_9Z", 6)));
    assert_eq!(scan_name(b"-abc", 0), None);
    assert_eq!(scan_name(b"", 0), None);
    assert_eq!(scan_name(b" x", 1), Some(("x", 2)));
    assert_eq!(scan_label(b"main: PSH", 0), Some(("main", 5)));
    assert_eq!(scan_label(b"main : PSH", 0), None);
    assert_eq!(scan_label(b"main", 0), None);
    assert_eq!(scan_label(b":", 0), None);
}

#[test]
fn identifier_bytes() {
    for byte in 0..=255u8 {
        let expected = (byte as char).is_ascii_alphanumeric() || byte == b'_';
        assert_eq!(is_id_char(byte), expected);
        assert_eq!(ByteClass::Identifier.test(byte), expected);
        assert_eq!(ByteClass::Digit.test(byte), (byte as char).is_ascii_digit());
        assert_eq!(
            ByteClass::LowerHex.test(byte),
            (byte as char).is_ascii_digit() || (b'a'..=b'f').contains(&byte)
        );
        assert_eq!(ByteClass::Blank.test(byte), b" \t\r\n".contains(&byte));
        assert_eq!(ByteClass::NotNewline.test(byte), byte != b'\n');
        assert_eq!(ByteClass::NotQuote.test(byte), byte != b'"');
    }
}

#[test]
fn runs() {
    assert_eq!(scan_run(b"123abc", 0, ByteClass::Digit), 3);
    assert_eq!(scan_run(b"123abc", 3, ByteClass::Digit), 3);
    assert_eq!(scan_run(b"123abc", 6, ByteClass::Digit), 6);
    assert_eq!(scan_run(b"123abc", 1, ByteClass::LowerHex), 6);
    assert_eq!(scan_run(b"", 0, ByteClass::Blank), 0);
}

#[test]
fn blanks_and_comments() {
    assert_eq!(skip_blank(b"  \t\r\n x", 0), 6);
    assert_eq!(skip_blank(b"x", 0), 0);
    assert_eq!(skip_blank(b"", 0), 0);
    assert_eq!(skip_blank(b"; note\nx", 0), 7);
    assert_eq!(skip_blank(b" ;a\n;b\n  ;c\n\tx", 0), 13);
    assert_eq!(skip_blank(b";\nx", 0), 0);
    assert_eq!(skip_blank(b" ;\nx", 0), 1);
    assert_eq!(skip_blank(b"; no end", 0), 0);
    assert_eq!(skip_blank(b"  ; no end", 0), 2);
    assert_eq!(skip_blank(b";;\n", 0), 3);
}

#[test]
fn a_comment_needs_text_and_a_line_end() {
    assert_eq!(parse_svm(b"bss{}raw{} ; done\n"), Ok(Program { bss: vec![], raw: vec![] }));
    assert_eq!(failure(b"bss{}raw{} ; done"), (11, Some("; done")));
    assert_eq!(failure(b"bss{}raw{}\n;\n"), (11, Some(";\n")));
}

#[test]
fn tags_and_bytes() {
    assert!(at_tag(b"bss {", 0, b"bss"));
    assert!(at_tag(b" bss", 1, b"bss"));
    assert!(!at_tag(b" bs", 1, b"bss"));
    assert!(!at_tag(b"bsx", 0, b"bss"));
    assert!(at_tag(b"", 0, b""));
    assert!(at_byte(b"{", 0, b'{'));
    assert!(!at_byte(b"{", 1, b'{'));
    assert!(!at_byte(b"}", 0, b'{'));
}

#[test]
fn mnemonic_scanning() {
    assert_eq!(scan_nullary(b"RETP", 0), Some(NullaryOp::Retp));
    assert_eq!(scan_nullary(b"RET ", 0), Some(NullaryOp::Ret));
    assert_eq!(scan_nullary(b"RETQ", 0), Some(NullaryOp::Ret));
    assert_eq!(scan_nullary(b"PUSHARG", 0), Some(NullaryOp::Pusharg));
    assert_eq!(scan_nullary(b"PUSHAR", 0), None);
    assert_eq!(scan_nullary(b"JMP", 0), None);
    assert_eq!(scan_unary(b"JSRP", 0), Some(UnaryOp::Jsrp));
    assert_eq!(scan_unary(b"JSR", 0), Some(UnaryOp::Jsr));
    assert_eq!(scan_unary(b"BZ", 0), Some(UnaryOp::Bz));
    assert_eq!(scan_unary(b"BN", 0), None);
    assert_eq!(scan_unary(b"ADD", 0), None);
    assert_eq!(NullaryOp::Pusharg.name(), b"PUSHARG".to_vec());
    assert_eq!(UnaryOp::Jsrp.name(), b"JSRP".to_vec());
}

#[test]
fn jsrp_without_operand_is_not_jsr() {
    assert_eq!(
        failure(b"bss { } raw { JSRP } ; padding to twenty"),
        (14, Some("JSRP } ; padding to "))
    );
}

#[test]
fn failures_name_the_missing_token() {
    assert_eq!(failure(b""), (0, Some("")));
    assert_eq!(failure(b"   "), (3, Some("")));
    assert_eq!(failure(b"raw { } bss { }"), (0, Some("raw { } bss { }")));
    assert_eq!(failure(b"bss ( } raw { }"), (4, Some("( } raw { }")));
    assert_eq!(failure(b"bss { PSH raw { }"), (10, Some("raw { }")));
    assert_eq!(failure(b"bss { } ram { }"), (8, Some("ram { }")));
    assert_eq!(failure(b"bss { } raw  }"), (13, Some("}")));
    assert_eq!(failure(b"bss { } raw { NOP }"), (14, Some("NOP }")));
    assert_eq!(failure(b"bss { } raw { PSH"), (17, Some("")));
    assert_eq!(failure(b"bss { } raw { } x"), (16, Some("x")));
    assert_eq!(failure(b"bss { } raw { x: }"), (14, Some("x: }")));
    assert_eq!(failure(b"bss { } raw { IMM }"), (14, Some("IMM }")));
    assert_eq!(failure(b"bss { } raw { .db }"), (14, Some(".db }")));
}

#[test]
fn context_is_at_most_twenty_bytes() {
    let (position, context) = failure(b"bss { } raw { oops this is a long line of text }");
    assert_eq!(position, 14);
    assert_eq!(context, Some("oops this is a long "));
}

#[test]
fn context_is_left_out_when_it_is_not_text() {
    assert_eq!(failure(b"bss { } raw { \xc3"), (14, None));
    let source = "bss { } raw { +123456789abcdefghi\u{e9} }";
    assert_eq!(failure(source.as_bytes()), (14, None));
    let source = "bss { } raw { +123456789abcdefgh\u{e9} }";
    assert_eq!(failure(source.as_bytes()), (14, Some("+123456789abcdefgh\u{e9}")));
}

#[test]
fn errors_are_built_from_a_position() {
    let error = get_error(b"hello, parser of programs", 7);
    assert_eq!(error.position(), 7);
    assert_eq!(error.context(), Some("parser of programs"));
    let error = get_error(b"abc", 3);
    assert_eq!(error.position(), 3);
    assert_eq!(error.context(), Some(""));
}

#[test]
fn text_between_places() {
    assert_eq!(text_between(b"hello", 1, 3), Some("el"));
    assert_eq!(text_between(b"hello", 2, 2), Some(""));
    assert_eq!(text_between(b"a\xffb", 0, 3), None);
    assert_eq!(text_between(b"a\xffb", 2, 3), Some("b"));
}

#[test]
fn nothing_stands_past_the_end() {
    assert_eq!(scan_run(b"12", 5, ByteClass::Digit), 5);
    assert_eq!(skip_blank(b"  ", 5), 5);
    assert!(!at_tag(b"bss", 4, b""));
    assert!(!at_byte(b"bss", 3, b's'));
    assert_eq!(scan_nullary(b"RET", 4), None);
    assert_eq!(scan_unary(b"JMP", 4), None);
    assert_eq!(scan_hex(b"0x1", 9), None);
    assert!(matches!(scan_decimal(b"1", 2), Scan::Miss));
    assert!(matches!(scan_literal(b"-1", 3), Scan::Miss));
    assert_eq!(scan_name(b"a", 2), None);
    assert_eq!(scan_label(b"a:", 3), None);
    assert_eq!(scan_string(b"\"a\"", 4), None);
    assert_eq!(text_between(b"abc", 2, 1), None);
    assert_eq!(text_between(b"abc", 2, 4), None);
    let error = get_error(b"abc", 10);
    assert_eq!(error.position(), 10);
    assert_eq!(error.context(), None);
}
