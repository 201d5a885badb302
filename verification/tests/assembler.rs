use sembler::assemble::{
    assemble, checked_section_size, first_pass, second_pass, AssembleError, Blob, Encoded,
    SymbolTable,
};
use sembler::ast::{
    word_bytes, Directive, Entry, Instruction, NullaryOp, Opcode, Program, ToBytes, UnaryOp, Word,
};
use sembler::parser::parse_svm;

fn op(label: Option<&'static str>, opcode: Opcode<'static>) -> Entry<'static> {
    Entry { label, entry: Instruction::Opcode(opcode) }
}

fn data(label: Option<&'static str>, directive: Directive<'static>) -> Entry<'static> {
    Entry { label, entry: Instruction::Directive(directive) }
}

#[test]
fn lib_it_works() {
}

#[test]
fn asciz_is_null_terminated() {
    assert_eq!(Directive::Asciz("AB").to_bytes(), vec![Ok(0x41), Ok(0x42), Ok(0x00)]);
}

#[test]
fn ascii_has_no_terminator() {
    assert_eq!(Directive::Ascii("AB").to_bytes(), vec![Ok(0x41), Ok(0x42)]);
}

#[test]
fn strings_encode_as_utf8() {
    assert_eq!(
        Directive::Ascii("h\u{e9}\u{20ac}").to_bytes(),
        vec![Ok(0x68), Ok(0xc3), Ok(0xa9), Ok(0xe2), Ok(0x82), Ok(0xac)]
    );
}

#[test]
fn db_is_one_byte_and_dw_is_big_endian() {
    assert_eq!(Directive::Db(0x7f).to_bytes(), vec![Ok(0x7f)]);
    assert_eq!(
        Directive::Dw(0x0102_03ff).to_bytes(),
        vec![Ok(0x01), Ok(0x02), Ok(0x03), Ok(0xff)]
    );
}

#[test]
fn word_bytes_are_most_significant_first() {
    assert_eq!(word_bytes(0xdead_beef), [0xde, 0xad, 0xbe, 0xef]);
    assert_eq!(word_bytes(0), [0, 0, 0, 0]);
    assert_eq!(word_bytes(1), [0, 0, 0, 1]);
    assert_eq!(word_bytes(u32::MAX), [0xff, 0xff, 0xff, 0xff]);
}

#[test]
fn unary_with_literal_is_five_bytes() {
    let encoded = Opcode::Unary(UnaryOp::Imm, Word::Literal(0x1)).to_bytes();
    assert_eq!(encoded, vec![Ok(0x05), Ok(0x00), Ok(0x00), Ok(0x00), Ok(0x01)]);
}

#[test]
fn unary_with_label_is_opcode_and_placeholder() {
    let encoded = Opcode::Unary(UnaryOp::Jmp, Word::Label("loop")).to_bytes();
    assert_eq!(encoded, vec![Ok(0x06), Err("loop")]);
}

#[test]
fn nullary_opcode_table() {
    let table = [
        (NullaryOp::Swap, 0x03),
        (NullaryOp::Pop, 0x04),
        (NullaryOp::Ret, 0x0c),
        (NullaryOp::Retp, 0x38),
        (NullaryOp::Li, 0x0d),
        (NullaryOp::Lc, 0x0e),
        (NullaryOp::Si, 0x0f),
        (NullaryOp::Sc, 0x10),
        (NullaryOp::Psh, 0x11),
        (NullaryOp::Or, 0x12),
        (NullaryOp::Xor, 0x13),
        (NullaryOp::And, 0x14),
        (NullaryOp::Eq, 0x15),
        (NullaryOp::Ne, 0x16),
        (NullaryOp::Lt, 0x17),
        (NullaryOp::Gt, 0x18),
        (NullaryOp::Le, 0x19),
        (NullaryOp::Ge, 0x1a),
        (NullaryOp::Add, 0x1d),
        (NullaryOp::Sub, 0x1e),
        (NullaryOp::Mul, 0x1f),
        (NullaryOp::Div, 0x20),
        (NullaryOp::Mod, 0x21),
        (NullaryOp::Pusharg, 0x34),
    ];
    for (op, byte) in table {
        assert_eq!(op.to_bytes(), vec![Ok(byte)]);
        assert_eq!(Opcode::Nullary(op).to_bytes(), vec![Ok(byte)]);
    }
}

#[test]
fn unary_opcode_table() {
    let table = [
        (UnaryOp::Rel, 0x02),
        (UnaryOp::Imm, 0x05),
        (UnaryOp::Jmp, 0x06),
        (UnaryOp::Jsr, 0x07),
        (UnaryOp::Jsrp, 0x37),
        (UnaryOp::Bz, 0x08),
        (UnaryOp::Bnz, 0x09),
        (UnaryOp::Ent, 0x0a),
        (UnaryOp::Adj, 0x0b),
        (UnaryOp::Int, 0x22),
    ];
    for (op, byte) in table {
        assert_eq!(op.to_byte(), byte);
    }
}

#[test]
fn entry_and_instruction_encode_their_instruction() {
    let entry = op(Some("x"), Opcode::Nullary(NullaryOp::Psh));
    assert_eq!(entry.to_bytes(), vec![Ok(0x11)]);
    assert_eq!(entry.entry.to_bytes(), vec![Ok(0x11)]);
    let entry = data(None, Directive::Db(9));
    assert_eq!(entry.to_bytes(), vec![Ok(9)]);
}

#[test]
fn first_pass_binds_labels_to_offsets() {
    let section = vec![
        op(Some("a"), Opcode::Nullary(NullaryOp::Psh)),
        op(Some("b"), Opcode::Unary(UnaryOp::Jmp, Word::Label("d"))),
        op(Some("c"), Opcode::Unary(UnaryOp::Imm, Word::Literal(7))),
        data(Some("d"), Directive::Asciz("hi")),
        data(Some("e"), Directive::Dw(1)),
        op(Some("f"), Opcode::Nullary(NullaryOp::Ret)),
    ];
    let mut symbols = SymbolTable::new();
    let entities = first_pass(&section, &mut symbols).unwrap();
    assert_eq!(symbols.get("a"), Some(0));
    assert_eq!(symbols.get("b"), Some(1));
    assert_eq!(symbols.get("c"), Some(6));
    assert_eq!(symbols.get("d"), Some(11));
    assert_eq!(symbols.get("e"), Some(14));
    assert_eq!(symbols.get("f"), Some(18));
    assert_eq!(symbols.get("g"), None);
    assert_eq!(entities.len(), 16);
    assert_eq!(entities[2], Err("d"));
    assert_eq!(checked_section_size(&section), Some(19));
}

#[test]
fn first_pass_keeps_the_first_binding() {
    let section = vec![
        op(Some("a"), Opcode::Nullary(NullaryOp::Psh)),
        op(Some("b"), Opcode::Nullary(NullaryOp::Psh)),
        op(Some("a"), Opcode::Nullary(NullaryOp::Psh)),
        op(Some("c"), Opcode::Nullary(NullaryOp::Psh)),
    ];
    let mut symbols = SymbolTable::new();
    let result = first_pass(&section, &mut symbols);
    assert_eq!(result, Err(AssembleError::DuplicateSymbol("a".to_string())));
    assert_eq!(symbols.get("a"), Some(0));
    assert_eq!(symbols.get("b"), Some(1));
    assert_eq!(symbols.get("c"), None);
}

#[test]
fn symbol_table_defines_once() {
    let mut symbols = SymbolTable::new();
    assert_eq!(symbols.get("x"), None);
    assert_eq!(symbols.define("x", 4), None);
    assert_eq!(symbols.get("x"), Some(4));
    assert_eq!(symbols.define("x", 9), Some(4));
    assert_eq!(symbols.get("x"), Some(4));
    assert_eq!(symbols.define("y", 0), None);
    assert_eq!(symbols.get("y"), Some(0));
}

#[test]
fn second_pass_expands_references() {
    let mut symbols = SymbolTable::new();
    symbols.define("far", 0x0102_0304);
    let entities = vec![Ok(0x06), Err("far"), Ok(0x0c)];
    assert_eq!(second_pass(&entities, &symbols), Ok(vec![0x06, 1, 2, 3, 4, 0x0c]));
}

#[test]
fn second_pass_names_the_first_unbound_label() {
    let mut symbols = SymbolTable::new();
    symbols.define("here", 1);
    let entities = vec![Ok(1), Err("here"), Err("lost"), Err("gone")];
    assert_eq!(
        second_pass(&entities, &symbols),
        Err(AssembleError::UndefinedSymbol("lost".to_string()))
    );
}

#[test]
fn second_pass_of_nothing_is_empty() {
    let symbols = SymbolTable::new();
    assert_eq!(second_pass(&Vec::new(), &symbols), Ok(Vec::new()));
}

#[test]
fn two_passes_agree_with_a_single_pass_that_knows_the_addresses() {
    let section = vec![
        op(Some("start"), Opcode::Unary(UnaryOp::Jmp, Word::Label("end"))),
        op(None, Opcode::Unary(UnaryOp::Bz, Word::Label("middle"))),
        data(Some("middle"), Directive::Ascii("xyz")),
        op(Some("end"), Opcode::Nullary(NullaryOp::Ret)),
    ];
    let mut symbols = SymbolTable::new();
    let entities = first_pass(&section, &mut symbols).unwrap();
    let code = second_pass(&entities, &symbols).unwrap();
    let single_pass = vec![0x06, 0, 0, 0, 13, 0x08, 0, 0, 0, 10, 0x78, 0x79, 0x7a, 0x0c];
    assert_eq!(code, single_pass);
}

#[test]
fn entry_point_of_a_small_program() {
    let program = parse_svm(b"bss { } raw { start: PSH RET }").unwrap();
    let blob = assemble(&program, "start").unwrap();
    assert_eq!(blob.ep, 0);
    assert_eq!(blob.raw, vec![0x11, 0x0c]);
    assert_eq!(blob.bss, Vec::<u8>::new());
}

#[test]
fn missing_entry_point_is_reported() {
    let program = parse_svm(b"bss { } raw { start: PSH RET }").unwrap();
    assert_eq!(
        assemble(&program, "main"),
        Err(AssembleError::MissingEntryPoint("main".to_string()))
    );
}

#[test]
fn duplicate_label_in_one_section() {
    let program = parse_svm(b"bss { } raw { a: PSH a: RET }").unwrap();
    assert_eq!(assemble(&program, "a"), Err(AssembleError::DuplicateSymbol("a".to_string())));
}

#[test]
fn duplicate_label_across_sections() {
    let program = parse_svm(b"bss { a: .db 1 } raw { main: PSH a: RET }").unwrap();
    assert_eq!(assemble(&program, "main"), Err(AssembleError::DuplicateSymbol("a".to_string())));
}

#[test]
fn duplicate_is_reported_before_anything_else() {
    let program = parse_svm(b"bss { } raw { a: JMP nowhere a: RET }").unwrap();
    assert_eq!(assemble(&program, "absent"), Err(AssembleError::DuplicateSymbol("a".to_string())));
}

#[test]
fn undefined_label_is_named() {
    let program = parse_svm(b"bss { } raw { main: JMP nowhere }").unwrap();
    assert_eq!(
        assemble(&program, "main"),
        Err(AssembleError::UndefinedSymbol("nowhere".to_string()))
    );
}

#[test]
fn undefined_label_in_bss_comes_first() {
    let program = parse_svm(b"bss { JMP one } raw { main: JMP two }").unwrap();
    assert_eq!(assemble(&program, "main"), Err(AssembleError::UndefinedSymbol("one".to_string())));
}

#[test]
fn undefined_label_is_reported_before_the_entry_point() {
    let program = parse_svm(b"bss { } raw { main: JMP nowhere }").unwrap();
    assert_eq!(
        assemble(&program, "absent"),
        Err(AssembleError::UndefinedSymbol("nowhere".to_string()))
    );
}

#[test]
fn sections_share_names_and_not_offsets() {
    let source = b"bss { text: .asciz \"hey\" size: .dw 3 }
                   raw { main: IMM text IMM size JMP main }";
    let program = parse_svm(source).unwrap();
    let blob = assemble(&program, "main").unwrap();
    assert_eq!(blob.bss, vec![0x68, 0x65, 0x79, 0, 0, 0, 0, 3]);
    assert_eq!(
        blob.raw,
        vec![0x05, 0, 0, 0, 0, 0x05, 0, 0, 0, 4, 0x06, 0, 0, 0, 0]
    );
    assert_eq!(blob.ep, 0);
    let blob = assemble(&program, "size").unwrap();
    assert_eq!(blob.ep, 4);
}

#[test]
fn assembling_by_hand_built_program() {
    let program = Program {
        bss: vec![data(Some("buffer"), Directive::Dw(0xffff_fffe))],
        raw: vec![
            op(None, Opcode::Nullary(NullaryOp::Swap)),
            op(Some("main"), Opcode::Unary(UnaryOp::Jsr, Word::Label("main"))),
        ],
    };
    assert_eq!(
        assemble(&program, "main"),
        Ok(Blob { bss: vec![0xff, 0xff, 0xff, 0xfe], raw: vec![0x03, 0x07, 0, 0, 0, 1], ep: 1 })
    );
}

#[test]
fn error_messages() {
    assert_eq!(
        AssembleError::DuplicateSymbol("a".to_string()).message(),
        "Symbol \"a\" defined multiple times"
    );
    assert_eq!(
        AssembleError::UndefinedSymbol("b".to_string()).message(),
        "Undefined symbol \"b\""
    );
    assert_eq!(
        AssembleError::MissingEntryPoint("main".to_string()).message(),
        "Could not find entry point \"main\""
    );
}

#[test]
fn section_sizes() {
    assert_eq!(checked_section_size(&Vec::new()), Some(0));
    let section = vec![
        data(None, Directive::Ascii("")),
        data(None, Directive::Asciz("")),
        op(None, Opcode::Unary(UnaryOp::Jmp, Word::Label("x"))),
    ];
    assert_eq!(checked_section_size(&section), Some(6));
}

#[test]
fn blob_is_encoded_in_base64() {
    let blob = Blob { bss: vec![0x41, 0x42], raw: vec![0x11, 0x0c, 0xff], ep: 7 };
    let out = blob.encode();
    assert_eq!(
        out,
        Encoded { ok: true, bss: "QUI=".to_string(), raw: "EQz/".to_string(), ep: 7 }
    );
}

#[test]
fn empty_sections_encode_to_empty_text() {
    let blob = Blob { bss: vec![], raw: vec![0], ep: u32::MAX };
    let out = blob.encode();
    assert!(out.ok);
    assert_eq!(out.bss, "");
    assert_eq!(out.raw, "AA==");
    assert_eq!(out.ep, 4294967295);
}

#[test]
fn encoded_parts_are_kept() {
    let out = Encoded::from_parts("QQ==".to_string(), "".to_string(), 3);
    assert_eq!(out, Encoded { ok: true, bss: "QQ==".to_string(), raw: "".to_string(), ep: 3 });
}

#[test]
fn base64_of_the_standard_examples() {
    let cases: [(&[u8], &str); 7] = [
        (b"", ""),
        (b"f", "Zg=="),
        (b"fo", "Zm8="),
        (b"foo", "Zm9v"),
        (b"foob", "Zm9vYg=="),
        (b"fooba", "Zm9vYmE="),
        (b"foobar", "Zm9vYmFy"),
    ];
    for (bytes, text) in cases {
        let out = Blob { bss: bytes.to_vec(), raw: vec![0xfb, 0xff], ep: 0 }.encode();
        assert_eq!(out.bss, text);
        assert_eq!(out.raw, "+/8=");
    }
}

#[test]
fn long_sections_are_not_wrapped() {
    let out = Blob { bss: vec![0; 90], raw: vec![], ep: 0 }.encode();
    assert_eq!(out.bss, "A".repeat(120));
}

#[test]
fn a_literal_operand_assembles_to_five_bytes() {
    let program = parse_svm(b"bss { } raw { main: IMM 0x1 }").unwrap();
    let blob = assemble(&program, "main").unwrap();
    assert_eq!(blob.raw, vec![0x05, 0x00, 0x00, 0x00, 0x01]);
}

#[test]
fn strings_assemble_to_their_bytes() {
    let program = parse_svm(b"bss { a: .asciz \"AB\" b: .ascii \"AB\" c: .db 1 } raw { }").unwrap();
    let blob = assemble(&program, "c").unwrap();
    assert_eq!(blob.bss, vec![0x41, 0x42, 0x00, 0x41, 0x42, 0x01]);
    assert_eq!(blob.ep, 5);
}
