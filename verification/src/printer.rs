//! The textual form of a program: what each part of it is written as, in a
//! form that the parser reads back.

use crate::ast::{
    entries_of, Directive, DirectiveView, Entry, EntryView, Instruction, InstructionView,
    NullaryOp, Opcode, OpcodeView, Program, ProgramView, UnaryOp, Word, WordView,
};
use crate::grammar::{ascii_tag, asciz_tag, bss_tag, db_tag, dw_tag, raw_tag};
use crate::lexer::{
    digit_value, hex_span, lemma_ascii_is_valid, lemma_nullary_letters, lemma_unary_letters,
    number, text_between, ByteClass,
};
use vstd::prelude::*;
use vstd::utf8::{decode_utf8, encode_utf8, encode_utf8_valid_utf8, valid_utf8, valid_utf8_concat};

verus! {

/// The character for a hexadecimal digit.
pub open spec fn hex_char(digit: nat) -> u8
    recommends
        digit < 16,
{
    if digit < 10 {
        ('0' as u8 + digit) as u8
    } else {
        ('a' as u8 + digit - 10) as u8
    }
}

/// The hexadecimal digits of a number, without leading zeros.
pub open spec fn hex_digits(value: nat) -> Seq<u8>
    decreases value,
{
    if value < 16 {
        seq![hex_char(value)]
    } else {
        hex_digits(value / 16).push(hex_char(value % 16))
    }
}

/// A word as a literal: `0x` and its hexadecimal digits.
pub open spec fn literal_source(word: u32) -> Seq<u8> {
    seq!['0' as u8, 'x' as u8] + hex_digits(word as nat)
}

/// The entries of a section, each followed by a line feed.
pub open spec fn section_source(entries: Seq<EntryView>) -> Seq<u8>
    decreases entries.len(),
{
    if entries.len() == 0 {
        Seq::empty()
    } else {
        entries[0].source() + seq!['\n' as u8] + section_source(entries.drop_first())
    }
}

impl WordView {
    /// A literal in hexadecimal, a label by its name.
    pub open spec fn source(self) -> Seq<u8> {
        match self {
            WordView::Literal(word) => literal_source(word),
            WordView::Label(name) => encode_utf8(name),
        }
    }
}

impl DirectiveView {
    /// The keyword, a space, and the string in double quotes or the number
    /// as a literal.
    pub open spec fn source(self) -> Seq<u8> {
        match self {
            DirectiveView::Asciz(text) => asciz_tag() + seq![' ' as u8, '"' as u8] + encode_utf8(
                text,
            ) + seq!['"' as u8],
            DirectiveView::Ascii(text) => ascii_tag() + seq![' ' as u8, '"' as u8] + encode_utf8(
                text,
            ) + seq!['"' as u8],
            DirectiveView::Db(byte) => db_tag() + seq![' ' as u8] + literal_source(byte as u32),
            DirectiveView::Dw(word) => dw_tag() + seq![' ' as u8] + literal_source(word),
        }
    }
}

impl OpcodeView {
    /// The mnemonic and, after a space, the operand if there is one.
    pub open spec fn source(self) -> Seq<u8> {
        match self {
            OpcodeView::Nullary(op) => op.mnemonic(),
            OpcodeView::Unary(op, word) => op.mnemonic() + seq![' ' as u8] + word.source(),
        }
    }
}

impl InstructionView {
    /// The directive or the operation.
    pub open spec fn source(self) -> Seq<u8> {
        match self {
            InstructionView::Directive(directive) => directive.source(),
            InstructionView::Opcode(opcode) => opcode.source(),
        }
    }
}

impl EntryView {
    /// The label, if there is one, on a line of its own with a colon; then
    /// the instruction, indented by four spaces.
    pub open spec fn source(self) -> Seq<u8> {
        let label = match self.label {
            Some(name) => encode_utf8(name) + seq![':' as u8, '\n' as u8],
            None => Seq::empty(),
        };
        label + seq![' ' as u8, ' ' as u8, ' ' as u8, ' ' as u8] + self.entry.source()
    }
}

impl ProgramView {
    /// Both sections in braces, `bss` first, an empty line between them.
    pub open spec fn source(self) -> Seq<u8> {
        bss_tag() + seq![' ' as u8, '{' as u8, '\n' as u8] + section_source(self.bss) + seq![
            '}' as u8,
            '\n' as u8,
            '\n' as u8,
        ] + raw_tag() + seq![' ' as u8, '{' as u8, '\n' as u8] + section_source(self.raw) + seq![
            '}' as u8,
        ]
    }
}

/// The digits of a number are between one and eight lower-case hexadecimal
/// digits for a number below two to the thirty-second, and write it.
pub proof fn lemma_hex_digits(value: nat)
    ensures
        hex_digits(value).len() >= 1,
        forall|k: int|
            0 <= k < hex_digits(value).len() ==> ByteClass::LowerHex.holds(
                #[trigger] hex_digits(value)[k],
            ),
        number(hex_digits(value), 16) == value,
        forall|count: nat|
            count >= 1 && value < #[trigger] hex_span(count) ==> hex_digits(value).len() <= count,
    decreases value,
{
    let digits = hex_digits(value);
    if value < 16 {
        assert(digits.drop_last() =~= Seq::<u8>::empty());
        assert(number(Seq::<u8>::empty(), 16) == 0);
        assert(digit_value(hex_char(value)) == value);
    } else {
        let front = hex_digits(value / 16);
        lemma_hex_digits(value / 16);
        assert(digits.drop_last() =~= front);
        assert(digit_value(hex_char(value % 16)) == value % 16);
        assert forall|k: int| 0 <= k < digits.len() implies ByteClass::LowerHex.holds(
            #[trigger] digits[k],
        ) by {
            if k < front.len() {
                assert(digits[k] == front[k]);
            }
        }
        assert forall|count: nat|
            count >= 1 && value < #[trigger] hex_span(count) implies digits.len() <= count by {
            if count == 1 {
                assert(hex_span(0) == 1);
            } else {
                assert(value / 16 < hex_span((count - 1) as nat));
            }
        }
    }
}

/// A literal is valid UTF-8.
pub proof fn lemma_literal_is_text(word: u32)
    ensures
        valid_utf8(literal_source(word)),
{
    lemma_hex_digits(word as nat);
    let text = literal_source(word);
    assert forall|k: int| 0 <= k < text.len() implies #[trigger] text[k] < 0x80 by {
        if k >= 2 {
            assert(text[k] == hex_digits(word as nat)[k - 2]);
        }
    }
    lemma_ascii_is_valid(text);
}

/// What is printed for an operand is valid UTF-8.
pub proof fn lemma_word_is_text(word: WordView)
    ensures
        valid_utf8(word.source()),
{
    match word {
        WordView::Literal(value) => lemma_literal_is_text(value),
        WordView::Label(name) => encode_utf8_valid_utf8(name),
    }
}

/// What is printed for an instruction is valid UTF-8.
pub proof fn lemma_instruction_is_text(instruction: InstructionView)
    ensures
        valid_utf8(instruction.source()),
{
    let space = seq![' ' as u8];
    let open = seq![' ' as u8, '"' as u8];
    let close = seq!['"' as u8];
    lemma_ascii_is_valid(space);
    lemma_ascii_is_valid(open);
    lemma_ascii_is_valid(close);
    lemma_ascii_is_valid(asciz_tag());
    lemma_ascii_is_valid(ascii_tag());
    lemma_ascii_is_valid(db_tag());
    lemma_ascii_is_valid(dw_tag());
    match instruction {
        InstructionView::Directive(DirectiveView::Asciz(text)) => {
            encode_utf8_valid_utf8(text);
            valid_utf8_concat(asciz_tag(), open);
            valid_utf8_concat(asciz_tag() + open, encode_utf8(text));
            valid_utf8_concat(asciz_tag() + open + encode_utf8(text), close);
        },
        InstructionView::Directive(DirectiveView::Ascii(text)) => {
            encode_utf8_valid_utf8(text);
            valid_utf8_concat(ascii_tag(), open);
            valid_utf8_concat(ascii_tag() + open, encode_utf8(text));
            valid_utf8_concat(ascii_tag() + open + encode_utf8(text), close);
        },
        InstructionView::Directive(DirectiveView::Db(byte)) => {
            lemma_literal_is_text(byte as u32);
            valid_utf8_concat(db_tag(), space);
            valid_utf8_concat(db_tag() + space, literal_source(byte as u32));
        },
        InstructionView::Directive(DirectiveView::Dw(word)) => {
            lemma_literal_is_text(word);
            valid_utf8_concat(dw_tag(), space);
            valid_utf8_concat(dw_tag() + space, literal_source(word));
        },
        InstructionView::Opcode(OpcodeView::Nullary(op)) => {
            lemma_nullary_letters(op);
            lemma_ascii_is_valid(op.mnemonic());
        },
        InstructionView::Opcode(OpcodeView::Unary(op, word)) => {
            lemma_unary_letters(op);
            lemma_ascii_is_valid(op.mnemonic());
            lemma_word_is_text(word);
            valid_utf8_concat(op.mnemonic(), space);
            valid_utf8_concat(op.mnemonic() + space, word.source());
        },
    }
}

/// What is printed for an entry is valid UTF-8.
pub proof fn lemma_entry_is_text(entry: EntryView)
    ensures
        valid_utf8(entry.source()),
{
    let indent = seq![' ' as u8, ' ' as u8, ' ' as u8, ' ' as u8];
    let colon = seq![':' as u8, '\n' as u8];
    lemma_ascii_is_valid(indent);
    lemma_ascii_is_valid(colon);
    lemma_ascii_is_valid(Seq::<u8>::empty());
    lemma_instruction_is_text(entry.entry);
    let label = match entry.label {
        Some(name) => encode_utf8(name) + colon,
        None => Seq::empty(),
    };
    if let Some(name) = entry.label {
        encode_utf8_valid_utf8(name);
        valid_utf8_concat(encode_utf8(name), colon);
    }
    valid_utf8_concat(label, indent);
    valid_utf8_concat(label + indent, entry.entry.source());
}

/// What is printed for the entries of a section is valid UTF-8.
pub proof fn lemma_section_is_text(entries: Seq<EntryView>)
    ensures
        valid_utf8(section_source(entries)),
    decreases entries.len(),
{
    if entries.len() > 0 {
        let newline = seq!['\n' as u8];
        lemma_ascii_is_valid(newline);
        lemma_entry_is_text(entries[0]);
        lemma_section_is_text(entries.drop_first());
        valid_utf8_concat(entries[0].source(), newline);
        valid_utf8_concat(entries[0].source() + newline, section_source(entries.drop_first()));
    }
}

/// What is printed for a program is valid UTF-8.
pub proof fn lemma_program_is_text(program: ProgramView)
    ensures
        valid_utf8(program.source()),
{
    let open = seq![' ' as u8, '{' as u8, '\n' as u8];
    let between = seq!['}' as u8, '\n' as u8, '\n' as u8];
    let close = seq!['}' as u8];
    let bss = section_source(program.bss);
    let raw = section_source(program.raw);
    lemma_ascii_is_valid(open);
    lemma_ascii_is_valid(between);
    lemma_ascii_is_valid(close);
    lemma_ascii_is_valid(bss_tag());
    lemma_ascii_is_valid(raw_tag());
    lemma_section_is_text(program.bss);
    lemma_section_is_text(program.raw);
    valid_utf8_concat(bss_tag(), open);
    valid_utf8_concat(bss_tag() + open, bss);
    valid_utf8_concat(bss_tag() + open + bss, between);
    valid_utf8_concat(bss_tag() + open + bss + between, raw_tag());
    valid_utf8_concat(bss_tag() + open + bss + between + raw_tag(), open);
    valid_utf8_concat(bss_tag() + open + bss + between + raw_tag() + open, raw);
    valid_utf8_concat(bss_tag() + open + bss + between + raw_tag() + open + raw, close);
}

/// The text that bytes hold which are valid UTF-8.
fn text_of(bytes: &Vec<u8>) -> (text: String)
    requires
        valid_utf8(bytes@),
    ensures
        text@ == decode_utf8(bytes@),
{
    assert(bytes@.subrange(0, bytes@.len() as int) =~= bytes@);
    match text_between(bytes.as_slice(), 0, bytes.len()) {
        Some(text) => text.to_owned(),
        None => String::new(),
    }
}

/// Appends `bytes` to `out`.
fn put_all(out: &mut Vec<u8>, bytes: &[u8])
    ensures
        final(out)@ == old(out)@ + bytes@,
{
    let mut i: usize = 0;
    assert(out@ =~= old(out)@ + bytes@.take(0));
    while i < bytes.len()
        invariant
            i <= bytes.len(),
            out@ == old(out)@ + bytes@.take(i as int),
        decreases bytes.len() - i,
    {
        out.push(bytes[i]);
        i = i + 1;
        assert(out@ =~= old(out)@ + bytes@.take(i as int));
    }
    assert(bytes@.take(i as int) =~= bytes@);
}

/// Appends the hexadecimal digits of `value` to `out`.
fn put_hex(out: &mut Vec<u8>, value: u32)
    ensures
        final(out)@ == old(out)@ + hex_digits(value as nat),
    decreases value,
{
    if value >= 16 {
        put_hex(out, value / 16);
    }
    let digit = (value % 16) as u8;
    let ghost before = out@;
    if digit < 10 {
        out.push(0x30 + digit);
    } else {
        out.push(0x61 + (digit - 10));
    }
    assert(out@ =~= old(out)@ + hex_digits(value as nat));
}

/// Appends `word` as a literal to `out`.
fn put_literal(out: &mut Vec<u8>, word: u32)
    ensures
        final(out)@ == old(out)@ + literal_source(word),
{
    out.push('0' as u8);
    out.push('x' as u8);
    put_hex(out, word);
    assert(out@ =~= old(out)@ + literal_source(word));
}

impl NullaryOp {
    /// The mnemonic as text.
    pub fn to_text(&self) -> (text: String)
        ensures
            text@ == decode_utf8(self.mnemonic()),
    {
        let bytes = self.name();
        proof {
            lemma_nullary_letters(*self);
            lemma_ascii_is_valid(self.mnemonic());
        }
        text_of(&bytes)
    }
}

impl UnaryOp {
    /// The mnemonic as text.
    pub fn to_text(&self) -> (text: String)
        ensures
            text@ == decode_utf8(self.mnemonic()),
    {
        let bytes = self.name();
        proof {
            lemma_unary_letters(*self);
            lemma_ascii_is_valid(self.mnemonic());
        }
        text_of(&bytes)
    }
}

impl<'a> Word<'a> {
    fn put(&self, out: &mut Vec<u8>)
        ensures
            final(out)@ == old(out)@ + self@.source(),
    {
        match *self {
            Word::Literal(word) => put_literal(out, word),
            Word::Label(name) => put_all(out, name.as_bytes()),
        }
    }

    /// The operand as it is written in a source text.
    pub fn to_source(&self) -> (text: Vec<u8>)
        ensures
            text@ == self@.source(),
    {
        let mut text: Vec<u8> = Vec::new();
        self.put(&mut text);
        assert(text@ =~= self@.source());
        text
    }

    /// The operand as text.
    pub fn to_text(&self) -> (text: String)
        ensures
            text@ == decode_utf8(self@.source()),
    {
        let bytes = self.to_source();
        proof {
            lemma_word_is_text(self@);
        }
        text_of(&bytes)
    }
}

impl<'a> Directive<'a> {
    fn put(&self, out: &mut Vec<u8>)
        ensures
            final(out)@ == old(out)@ + self@.source(),
    {
        match *self {
            Directive::Asciz(text) => {
                let keyword = ['.' as u8, 'a' as u8, 's' as u8, 'c' as u8, 'i' as u8, 'z' as u8];
                put_all(out, keyword.as_slice());
                out.push(' ' as u8);
                out.push('"' as u8);
                put_all(out, text.as_bytes());
                out.push('"' as u8);
            },
            Directive::Ascii(text) => {
                let keyword = ['.' as u8, 'a' as u8, 's' as u8, 'c' as u8, 'i' as u8, 'i' as u8];
                put_all(out, keyword.as_slice());
                out.push(' ' as u8);
                out.push('"' as u8);
                put_all(out, text.as_bytes());
                out.push('"' as u8);
            },
            Directive::Db(byte) => {
                let keyword = ['.' as u8, 'd' as u8, 'b' as u8];
                put_all(out, keyword.as_slice());
                out.push(' ' as u8);
                put_literal(out, byte as u32);
            },
            Directive::Dw(word) => {
                let keyword = ['.' as u8, 'd' as u8, 'w' as u8];
                put_all(out, keyword.as_slice());
                out.push(' ' as u8);
                put_literal(out, word);
            },
        }
        assert(out@ =~= old(out)@ + self@.source());
    }

    /// The directive as it is written in a source text.
    pub fn to_source(&self) -> (text: Vec<u8>)
        ensures
            text@ == self@.source(),
    {
        let mut text: Vec<u8> = Vec::new();
        self.put(&mut text);
        assert(text@ =~= self@.source());
        text
    }

    /// The directive as text.
    pub fn to_text(&self) -> (text: String)
        ensures
            text@ == decode_utf8(self@.source()),
    {
        let bytes = self.to_source();
        proof {
            lemma_instruction_is_text(InstructionView::Directive(self@));
        }
        text_of(&bytes)
    }
}

impl<'a> Opcode<'a> {
    fn put(&self, out: &mut Vec<u8>)
        ensures
            final(out)@ == old(out)@ + self@.source(),
    {
        match *self {
            Opcode::Nullary(op) => {
                let name = op.name();
                put_all(out, name.as_slice());
            },
            Opcode::Unary(op, word) => {
                let name = op.name();
                put_all(out, name.as_slice());
                out.push(' ' as u8);
                word.put(out);
            },
        }
        assert(out@ =~= old(out)@ + self@.source());
    }

    /// The operation as it is written in a source text.
    pub fn to_source(&self) -> (text: Vec<u8>)
        ensures
            text@ == self@.source(),
    {
        let mut text: Vec<u8> = Vec::new();
        self.put(&mut text);
        assert(text@ =~= self@.source());
        text
    }

    /// The operation as text.
    pub fn to_text(&self) -> (text: String)
        ensures
            text@ == decode_utf8(self@.source()),
    {
        let bytes = self.to_source();
        proof {
            lemma_instruction_is_text(InstructionView::Opcode(self@));
        }
        text_of(&bytes)
    }
}

impl<'a> Instruction<'a> {
    fn put(&self, out: &mut Vec<u8>)
        ensures
            final(out)@ == old(out)@ + self@.source(),
    {
        match *self {
            Instruction::Directive(directive) => directive.put(out),
            Instruction::Opcode(opcode) => opcode.put(out),
        }
    }

    /// The instruction as it is written in a source text.
    pub fn to_source(&self) -> (text: Vec<u8>)
        ensures
            text@ == self@.source(),
    {
        let mut text: Vec<u8> = Vec::new();
        self.put(&mut text);
        assert(text@ =~= self@.source());
        text
    }

    /// The instruction as text.
    pub fn to_text(&self) -> (text: String)
        ensures
            text@ == decode_utf8(self@.source()),
    {
        let bytes = self.to_source();
        proof {
            lemma_instruction_is_text(self@);
        }
        text_of(&bytes)
    }
}

impl<'a> Entry<'a> {
    fn put(&self, out: &mut Vec<u8>)
        ensures
            final(out)@ == old(out)@ + self@.source(),
    {
        if let Some(label) = self.label {
            put_all(out, label.as_bytes());
            out.push(':' as u8);
            out.push('\n' as u8);
        }
        out.push(' ' as u8);
        out.push(' ' as u8);
        out.push(' ' as u8);
        out.push(' ' as u8);
        self.entry.put(out);
        assert(out@ =~= old(out)@ + self@.source());
    }

    /// The entry as it is written in a source text.
    pub fn to_source(&self) -> (text: Vec<u8>)
        ensures
            text@ == self@.source(),
    {
        let mut text: Vec<u8> = Vec::new();
        self.put(&mut text);
        assert(text@ =~= self@.source());
        text
    }

    /// The entry as text.
    pub fn to_text(&self) -> (text: String)
        ensures
            text@ == decode_utf8(self@.source()),
    {
        let bytes = self.to_source();
        proof {
            lemma_entry_is_text(self@);
        }
        text_of(&bytes)
    }
}

/// The text of a section is that of its first entries followed by that of
/// the rest.
pub proof fn lemma_section_source_split(entries: Seq<EntryView>, k: int)
    requires
        0 <= k <= entries.len(),
    ensures
        section_source(entries) == section_source(entries.take(k)) + section_source(
            entries.skip(k),
        ),
    decreases k,
{
    if k == 0 {
        assert(entries.skip(0) =~= entries);
        assert(entries.take(0) =~= Seq::<EntryView>::empty());
        assert(Seq::<u8>::empty() + section_source(entries) =~= section_source(entries));
    } else {
        let rest = entries.drop_first();
        lemma_section_source_split(rest, k - 1);
        assert(rest.take(k - 1) =~= entries.take(k).drop_first());
        assert(rest.skip(k - 1) =~= entries.skip(k));
        assert(entries.take(k)[0] == entries[0]);
        assert((entries[0].source() + seq!['\n' as u8]) + (section_source(rest.take(k - 1))
            + section_source(rest.skip(k - 1))) =~= ((entries[0].source() + seq!['\n' as u8])
            + section_source(rest.take(k - 1))) + section_source(rest.skip(k - 1)));
    }
}

/// Appends the entries of a section to `out`.
fn put_section(out: &mut Vec<u8>, section: &Vec<Entry>)
    ensures
        final(out)@ == old(out)@ + section_source(entries_of(section@)),
{
    let ghost entries = entries_of(section@);
    let mut i: usize = 0;
    assert(entries.take(0) =~= Seq::<EntryView>::empty());
    assert(out@ =~= old(out)@ + section_source(entries.take(0)));
    while i < section.len()
        invariant
            i <= section.len(),
            entries == entries_of(section@),
            out@ == old(out)@ + section_source(entries.take(i as int)),
        decreases section.len() - i,
    {
        let ghost before = out@;
        section[i].put(out);
        out.push('\n' as u8);
        proof {
            let upto = entries.take(i + 1);
            lemma_section_source_split(upto, i as int);
            assert(upto.take(i as int) =~= entries.take(i as int));
            let last = upto.skip(i as int);
            assert(last[0] == section[i as int]@);
            assert(last.len() == 1);
            assert(last.drop_first() =~= Seq::<EntryView>::empty());
            assert(section_source(Seq::<EntryView>::empty()) =~= Seq::<u8>::empty());
            assert(section_source(last) =~= section[i as int]@.source() + seq!['\n' as u8]);
            assert(out@ =~= old(out)@ + section_source(upto));
        }
        i = i + 1;
    }
    assert(entries.take(i as int) =~= entries);
}

impl<'a> Program<'a> {
    /// The program as a source text.
    pub fn to_source(&self) -> (text: Vec<u8>)
        ensures
            text@ == self@.source(),
    {
        let mut text: Vec<u8> = Vec::new();
        let bss = ['b' as u8, 's' as u8, 's' as u8];
        let raw = ['r' as u8, 'a' as u8, 'w' as u8];
        put_all(&mut text, bss.as_slice());
        text.push(' ' as u8);
        text.push('{' as u8);
        text.push('\n' as u8);
        put_section(&mut text, &self.bss);
        text.push('}' as u8);
        text.push('\n' as u8);
        text.push('\n' as u8);
        put_all(&mut text, raw.as_slice());
        text.push(' ' as u8);
        text.push('{' as u8);
        text.push('\n' as u8);
        put_section(&mut text, &self.raw);
        text.push('}' as u8);
        assert(text@ =~= self@.source());
        text
    }

    /// The program as text.
    pub fn to_text(&self) -> (text: String)
        ensures
            text@ == decode_utf8(self@.source()),
    {
        let bytes = self.to_source();
        proof {
            lemma_program_is_text(self@);
        }
        text_of(&bytes)
    }
}

} // verus!
