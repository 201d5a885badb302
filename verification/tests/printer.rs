use sembler::ast::{
    Directive, Entry, Instruction, NullaryOp, Opcode, Program, UnaryOp, Word,
};
use sembler::parser::parse_svm;

fn text(bytes: Vec<u8>) -> String {
    String::from_utf8(bytes).unwrap()
}

#[test]
fn words() {
    assert_eq!(text(Word::Literal(0).to_source()), "0x0");
    assert_eq!(text(Word::Literal(0x1f).to_source()), "0x1f");
    assert_eq!(text(Word::Literal(0xdead_beef).to_source()), "0xdeadbeef");
    assert_eq!(text(Word::Literal(0x1000_0000).to_source()), "0x10000000");
    assert_eq!(text(Word::Label("main").to_source()), "main");
}

#[test]
fn directives() {
    assert_eq!(text(Directive::Asciz("hi").to_source()), ".asciz \"hi\"");
    assert_eq!(text(Directive::Ascii("h\u{e9}").to_source()), ".ascii \"h\u{e9}\"");
    assert_eq!(text(Directive::Db(0x41).to_source()), ".db 0x41");
    assert_eq!(text(Directive::Dw(0x1_0000).to_source()), ".dw 0x10000");
}

#[test]
fn operations_and_entries() {
    assert_eq!(text(Opcode::Nullary(NullaryOp::Pusharg).to_source()), "PUSHARG");
    assert_eq!(text(Opcode::Unary(UnaryOp::Bnz, Word::Label("l")).to_source()), "BNZ l");
    let instruction = Instruction::Opcode(Opcode::Unary(UnaryOp::Imm, Word::Literal(10)));
    assert_eq!(text(instruction.to_source()), "IMM 0xa");
    assert_eq!(text(Entry { label: None, entry: instruction }.to_source()), "    IMM 0xa");
    assert_eq!(
        text(Entry { label: Some("go"), entry: instruction }.to_source()),
        "go:\n    IMM 0xa"
    );
}

#[test]
fn a_whole_program() {
    let program = Program {
        bss: vec![Entry {
            label: Some("msg"),
            entry: Instruction::Directive(Directive::Asciz("hey")),
        }],
        raw: vec![
            Entry {
                label: Some("main"),
                entry: Instruction::Opcode(Opcode::Unary(UnaryOp::Imm, Word::Label("msg"))),
            },
            Entry { label: None, entry: Instruction::Opcode(Opcode::Nullary(NullaryOp::Ret)) },
        ],
    };
    assert_eq!(
        text(program.to_source()),
        "bss {\nmsg:\n    .asciz \"hey\"\n}\n\nraw {\nmain:\n    IMM msg\n    RET\n}"
    );
    assert_eq!(text(Program { bss: vec![], raw: vec![] }.to_source()), "bss {\n}\n\nraw {\n}");
}

#[test]
fn what_is_printed_parses_to_the_same_program() {
    let source = b"bss { a: .asciz \"x;y}\n{\" .ascii \"\xc3\xa9\" .db 255 .dw -2 9z: .db 0 }
        raw { main: IMM a JSRP main RETP RET: RET JMP _ ; end\n BZ 0xffffffff INT 0 PUSHARG }";
    let program = parse_svm(source).unwrap();
    let printed = program.to_source();
    let again = parse_svm(&printed).unwrap();
    assert_eq!(again, program);
    assert_eq!(again.to_source(), printed);
}

#[test]
fn text_is_the_source_as_a_string() {
    let program = parse_svm("bss { s: .ascii \"h\u{e9}\" } raw { main: IMM s RET }".as_bytes())
        .unwrap();
    assert_eq!(
        program.to_text(),
        "bss {\ns:\n    .ascii \"h\u{e9}\"\n}\n\nraw {\nmain:\n    IMM s\n    RET\n}"
    );
    assert_eq!(program.to_text().into_bytes(), program.to_source());
    assert_eq!(program.raw[0].to_text(), "main:\n    IMM s");
    assert_eq!(program.raw[1].entry.to_text(), "RET");
    assert_eq!(Opcode::Unary(UnaryOp::Int, Word::Literal(255)).to_text(), "INT 0xff");
    assert_eq!(Directive::Dw(0).to_text(), ".dw 0x0");
    assert_eq!(Word::Label("x_1").to_text(), "x_1");
    assert_eq!(NullaryOp::Swap.to_text(), "SWAP");
    assert_eq!(UnaryOp::Jsrp.to_text(), "JSRP");
}
