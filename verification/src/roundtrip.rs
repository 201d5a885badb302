//! Printing and parsing undo each other: the text that is printed for a
//! program that was parsed parses to the same program.

use crate::ast::{
    DirectiveView, EntryView, InstructionView, NullaryOp, OpcodeView, ProgramView, UnaryOp,
    WordView,
};
use crate::grammar::{
    ascii_tag, asciz_tag, bss_tag, db_tag, directive_at, dw_tag, entries_at, entry_at,
    instruction_at, lemma_entry_bounds, operation_at, program_of, raw_tag, section_at, word_at,
};
use crate::lexer::{
    blank_end, has_tag, hex_span, id_char, label_at, lemma_ascii_is_valid, lemma_blank_end,
    lemma_nullary_found, lemma_nullary_letters, lemma_run_end, lemma_run_is, lemma_text_bounds,
    lemma_unary_found, lemma_unary_letters, literal_at, name_at, nullary_at, nullary_from,
    nullary_order, run_end, string_at, unary_at, unary_from, unary_order, ByteClass, Parsed,
};
use crate::printer::{hex_digits, lemma_hex_digits, literal_source, section_source};
use vstd::prelude::*;
use vstd::utf8::{
    decode_utf8_encode_utf8, encode_utf8, encode_utf8_decode_utf8, encode_utf8_valid_utf8,
    valid_utf8,
};

verus! {

/// A text stands at a place if each of its bytes does.
pub proof fn lemma_tag_bytes(s: Seq<u8>, i: int, tag: Seq<u8>)
    ensures
        has_tag(s, i, tag) <==> 0 <= i && i + tag.len() <= s.len() && forall|k: int|
            0 <= k < tag.len() ==> s[i + k] == #[trigger] tag[k],
{
    if 0 <= i && i + tag.len() <= s.len() {
        let part = s.subrange(i, i + tag.len());
        if part == tag {
            assert forall|k: int| 0 <= k < tag.len() implies s[i + k] == #[trigger] tag[k] by {
                assert(part[k] == s[i + k]);
            }
        }
        if forall|k: int| 0 <= k < tag.len() ==> s[i + k] == #[trigger] tag[k] {
            assert(part =~= tag);
        }
    }
}

/// Two texts stand one after the other where their concatenation stands.
pub proof fn lemma_tag_concat(s: Seq<u8>, i: int, a: Seq<u8>, b: Seq<u8>)
    ensures
        has_tag(s, i, a + b) <==> has_tag(s, i, a) && has_tag(s, i + a.len(), b),
{
    lemma_tag_bytes(s, i, a + b);
    lemma_tag_bytes(s, i, a);
    lemma_tag_bytes(s, i + a.len(), b);
    if has_tag(s, i, a + b) {
        assert forall|k: int| 0 <= k < a.len() implies s[i + k] == #[trigger] a[k] by {
            assert((a + b)[k] == a[k]);
        }
        assert forall|k: int| 0 <= k < b.len() implies s[i + a.len() + k] == #[trigger] b[k] by {
            assert((a + b)[a.len() + k] == b[k]);
        }
    }
    if has_tag(s, i, a) && has_tag(s, i + a.len(), b) {
        assert forall|k: int| 0 <= k < (a + b).len() implies s[i + k] == #[trigger] (a + b)[k] by {
            if k < a.len() {
                assert(a[k] == (a + b)[k]);
            } else {
                assert(b[k - a.len()] == (a + b)[k]);
                assert(s[i + a.len() + (k - a.len())] == b[k - a.len()]);
            }
        }
    }
}

/// Blanks and comments end where a byte stands that is neither a blank nor
/// a semicolon, and at the end of the text.
pub proof fn lemma_no_blank(s: Seq<u8>, i: int)
    requires
        0 <= i <= s.len(),
        i < s.len() ==> !ByteClass::Blank.holds(s[i]) && s[i] != ';' as u8,
    ensures
        blank_end(s, i) == i,
{
}

/// A row of blanks is skipped up to the byte after it, if that byte is
/// neither a blank nor a semicolon.
pub proof fn lemma_blank_row(s: Seq<u8>, i: int, end: int)
    requires
        0 <= i <= end <= s.len(),
        forall|k: int| i <= k < end ==> ByteClass::Blank.holds(#[trigger] s[k]),
        end < s.len() ==> !ByteClass::Blank.holds(s[end]) && s[end] != ';' as u8,
    ensures
        blank_end(s, i) == end,
    decreases end - i,
{
    if i < end {
        assert(ByteClass::Blank.holds(s[i]));
        lemma_blank_row(s, i + 1, end);
    }
}

/// A printed literal that no hexadecimal digit follows reads as its word.
pub proof fn lemma_literal_reads(s: Seq<u8>, i: int, word: u32)
    requires
        has_tag(s, i, literal_source(word)),
        i + literal_source(word).len() < s.len() ==> !ByteClass::LowerHex.holds(
            s[i + literal_source(word).len()],
        ),
    ensures
        literal_at(s, i) == Parsed::Match(word, i + literal_source(word).len()),
{
    let digits = hex_digits(word as nat);
    let prefix = seq!['0' as u8, 'x' as u8];
    let end = i + 2 + digits.len();
    lemma_hex_digits(word as nat);
    lemma_tag_concat(s, i, prefix, digits);
    lemma_tag_bytes(s, i, prefix);
    lemma_tag_bytes(s, i + 2, digits);
    assert(s[i] == prefix[0]);
    lemma_no_blank(s, i);
    assert forall|k: int| i + 2 <= k < end implies ByteClass::LowerHex.holds(#[trigger] s[k]) by {
        assert(s[i + 2 + (k - i - 2)] == digits[k - i - 2]);
    }
    lemma_run_is(s, i + 2, end, ByteClass::LowerHex);
    reveal_with_fuel(hex_span, 9);
    assert(word < hex_span(8));
    assert(s.subrange(i + 2, end) == digits);
}

/// A text is a name: it is not empty, and holds letters, digits and
/// underscores only.
pub open spec fn is_name(text: Seq<char>) -> bool {
    &&& encode_utf8(text).len() > 0
    &&& forall|k: int| 0 <= k < encode_utf8(text).len() ==> id_char(#[trigger] encode_utf8(text)[k])
}

/// A text can stand between double quotes: it is not empty, and holds no
/// double quote.
pub open spec fn is_quotable(text: Seq<char>) -> bool {
    &&& encode_utf8(text).len() > 0
    &&& forall|k: int|
        0 <= k < encode_utf8(text).len() ==> #[trigger] encode_utf8(text)[k] != '"' as u8
}

/// A name that stands at a place, with no further letter, digit or
/// underscore after it, reads as itself.
pub proof fn lemma_name_reads(s: Seq<u8>, i: int, name: Seq<char>)
    requires
        is_name(name),
        has_tag(s, i, encode_utf8(name)),
        i + encode_utf8(name).len() < s.len() ==> !id_char(s[i + encode_utf8(name).len()]),
    ensures
        name_at(s, i) == Some((name, i + encode_utf8(name).len())),
{
    let bytes = encode_utf8(name);
    let end = i + bytes.len();
    lemma_tag_bytes(s, i, bytes);
    assert forall|k: int| i <= k < end implies ByteClass::Identifier.holds(#[trigger] s[k]) by {
        assert(s[i + (k - i)] == bytes[k - i]);
    }
    lemma_run_is(s, i, end, ByteClass::Identifier);
    encode_utf8_decode_utf8(name);
}

/// A string in double quotes reads as itself.
pub proof fn lemma_string_reads(s: Seq<u8>, i: int, text: Seq<char>)
    requires
        is_quotable(text),
        has_tag(s, i, seq!['"' as u8] + encode_utf8(text) + seq!['"' as u8]),
    ensures
        string_at(s, i) == Some((text, i + encode_utf8(text).len() + 2)),
{
    let bytes = encode_utf8(text);
    let quote = seq!['"' as u8];
    let end = i + 1 + bytes.len();
    lemma_tag_concat(s, i, quote + bytes, quote);
    lemma_tag_concat(s, i, quote, bytes);
    lemma_tag_bytes(s, i, quote);
    lemma_tag_bytes(s, i + 1, bytes);
    lemma_tag_bytes(s, end, quote);
    assert(s[i] == quote[0]);
    assert(s[end] == quote[0]);
    assert forall|k: int| i + 1 <= k < end implies ByteClass::NotQuote.holds(#[trigger] s[k]) by {
        assert(s[i + 1 + (k - i - 1)] == bytes[k - i - 1]);
    }
    lemma_run_is(s, i + 1, end, ByteClass::NotQuote);
    encode_utf8_valid_utf8(text);
    encode_utf8_decode_utf8(text);
    assert(s.subrange(i + 1, end) == bytes);
}

/// The byte of a text at a place, or a value that is no byte outside it.
pub open spec fn byte_at(s: Seq<u8>, i: int) -> int {
    if 0 <= i < s.len() {
        s[i] as int
    } else {
        -1
    }
}

/// The first four bytes of a text that stands at a place stand there.
pub proof fn lemma_tag_head(s: Seq<u8>, i: int, tag: Seq<u8>)
    requires
        has_tag(s, i, tag),
    ensures
        tag.len() >= 1 ==> byte_at(s, i) == tag[0],
        tag.len() >= 2 ==> byte_at(s, i + 1) == tag[1],
        tag.len() >= 3 ==> byte_at(s, i + 2) == tag[2],
        tag.len() >= 4 ==> byte_at(s, i + 3) == tag[3],
{
    let part = s.subrange(i, i + tag.len());
    if tag.len() >= 1 {
        assert(part[0] == s[i]);
    }
    if tag.len() >= 2 {
        assert(part[1] == s[i + 1]);
    }
    if tag.len() >= 3 {
        assert(part[2] == s[i + 2]);
    }
    if tag.len() >= 4 {
        assert(part[3] == s[i + 3]);
    }
}

/// The first four bytes of the mnemonic at place `k` of the order, if it
/// stands at `i`, stand there.
proof fn lemma_nullary_heads(s: Seq<u8>, i: int, k: int)
    requires
        0 <= k <= nullary_order().len(),
    ensures
        forall|j: int|
            k <= j < nullary_order().len() && has_tag(
                s,
                i,
                (#[trigger] nullary_order()[j]).mnemonic(),
            ) ==> {
                let tag = nullary_order()[j].mnemonic();
                &&& byte_at(s, i) == tag[0]
                &&& byte_at(s, i + 1) == tag[1]
                &&& (tag.len() >= 3 ==> byte_at(s, i + 2) == tag[2])
                &&& (tag.len() >= 4 ==> byte_at(s, i + 3) == tag[3])
            },
    decreases nullary_order().len() - k,
{
    if k < nullary_order().len() {
        lemma_nullary_heads(s, i, k + 1);
        if has_tag(s, i, nullary_order()[k].mnemonic()) {
            lemma_tag_head(s, i, nullary_order()[k].mnemonic());
        }
    }
}

/// The first four bytes of the mnemonic at place `k` of the order, if it
/// stands at `i`, stand there.
proof fn lemma_unary_heads(s: Seq<u8>, i: int, k: int)
    requires
        0 <= k <= unary_order().len(),
    ensures
        forall|j: int|
            k <= j < unary_order().len() && has_tag(
                s,
                i,
                (#[trigger] unary_order()[j]).mnemonic(),
            ) ==> {
                let tag = unary_order()[j].mnemonic();
                &&& byte_at(s, i) == tag[0]
                &&& byte_at(s, i + 1) == tag[1]
                &&& (tag.len() >= 3 ==> byte_at(s, i + 2) == tag[2])
                &&& (tag.len() >= 4 ==> byte_at(s, i + 3) == tag[3])
            },
    decreases unary_order().len() - k,
{
    if k < unary_order().len() {
        lemma_unary_heads(s, i, k + 1);
        if has_tag(s, i, unary_order()[k].mnemonic()) {
            lemma_tag_head(s, i, unary_order()[k].mnemonic());
        }
    }
}

/// The mnemonic of an instruction without an operand, at the end of a
/// line, reads as that instruction.
#[verifier::rlimit(60)]
#[verifier::spinoff_prover]
pub proof fn lemma_nullary_reads(s: Seq<u8>, i: int, op: NullaryOp)
    requires
        has_tag(s, i, op.mnemonic()),
        byte_at(s, i + op.mnemonic().len()) == '\n' as u8,
    ensures
        nullary_at(s, i) == Some(op),
{
    reveal_with_fuel(nullary_from, 25);
    lemma_nullary_heads(s, i, 0);
    lemma_tag_head(s, i, op.mnemonic());
}

/// The mnemonic of an instruction with an operand, with a space after it,
/// reads as that instruction and as no instruction without an operand.
#[verifier::rlimit(60)]
#[verifier::spinoff_prover]
pub proof fn lemma_unary_reads(s: Seq<u8>, i: int, op: UnaryOp)
    requires
        has_tag(s, i, op.mnemonic()),
        byte_at(s, i + op.mnemonic().len()) == ' ' as u8,
    ensures
        nullary_at(s, i) is None,
        unary_at(s, i) == Some(op),
{
    reveal_with_fuel(nullary_from, 25);
    reveal_with_fuel(unary_from, 11);
    lemma_nullary_heads(s, i, 0);
    lemma_unary_heads(s, i, 0);
    lemma_tag_head(s, i, op.mnemonic());
}

/// An operand can be read back: a label is a name that does not start with
/// a digit.
pub open spec fn readable_word(word: WordView) -> bool {
    match word {
        WordView::Literal(_) => true,
        WordView::Label(name) => is_name(name) && !ByteClass::Digit.holds(encode_utf8(name)[0]),
    }
}

/// An instruction can be read back: its string can stand between double
/// quotes, or its operand can be read back.
pub open spec fn readable_instruction(instruction: InstructionView) -> bool {
    match instruction {
        InstructionView::Directive(DirectiveView::Asciz(text)) => is_quotable(text),
        InstructionView::Directive(DirectiveView::Ascii(text)) => is_quotable(text),
        InstructionView::Directive(_) => true,
        InstructionView::Opcode(OpcodeView::Nullary(_)) => true,
        InstructionView::Opcode(OpcodeView::Unary(_, word)) => readable_word(word),
    }
}

/// An entry can be read back: its label is a name, and its instruction can
/// be read back.
pub open spec fn readable_entry(entry: EntryView) -> bool {
    &&& entry.label matches Some(name) ==> is_name(name)
    &&& readable_instruction(entry.entry)
}

/// Each entry of a section can be read back.
pub open spec fn readable_section(entries: Seq<EntryView>) -> bool {
    forall|k: int| 0 <= k < entries.len() ==> readable_entry(#[trigger] entries[k])
}

/// Each entry of a program can be read back.
pub open spec fn readable(program: ProgramView) -> bool {
    readable_section(program.bss) && readable_section(program.raw)
}

/// A printed operand at the end of a line reads as itself.
pub proof fn lemma_word_reads(s: Seq<u8>, i: int, word: WordView)
    requires
        readable_word(word),
        has_tag(s, i, word.source()),
        byte_at(s, i + word.source().len()) == '\n' as u8,
    ensures
        word.source().len() >= 1,
        byte_at(s, i) != ' ' as u8 && byte_at(s, i) != ';' as u8 && !ByteClass::Blank.holds(s[i]),
        word_at(s, i) == Parsed::Match(word, i + word.source().len()),
{
    match word {
        WordView::Literal(value) => {
            lemma_literal_reads(s, i, value);
            lemma_tag_head(s, i, word.source());
        },
        WordView::Label(name) => {
            let bytes = encode_utf8(name);
            lemma_tag_bytes(s, i, bytes);
            assert(s[i + 0] == bytes[0]);
            lemma_no_blank(s, i);
            lemma_name_reads(s, i, name);
            if has_tag(s, i, seq!['0' as u8, 'x' as u8]) {
                lemma_tag_head(s, i, seq!['0' as u8, 'x' as u8]);
            }
        },
    }
}

/// A printed directive at the end of a line reads as itself.
pub proof fn lemma_directive_reads(s: Seq<u8>, i: int, directive: DirectiveView)
    requires
        readable_instruction(InstructionView::Directive(directive)),
        has_tag(s, i, directive.source()),
        byte_at(s, i + directive.source().len()) == '\n' as u8,
    ensures
        byte_at(s, i) == '.' as u8,
        directive_at(s, i) == Parsed::Match(directive, i + directive.source().len()),
{
    let quote = seq!['"' as u8];
    let open = seq![' ' as u8, '"' as u8];
    let space = seq![' ' as u8];
    match directive {
        DirectiveView::Asciz(text) => {
            let bytes = encode_utf8(text);
            lemma_tag_concat(s, i, asciz_tag() + open + bytes, quote);
            lemma_tag_concat(s, i, asciz_tag() + open, bytes);
            lemma_tag_concat(s, i, asciz_tag(), open);
            lemma_tag_head(s, i, asciz_tag());
            lemma_tag_head(s, i + 6, open);
            lemma_blank_row(s, i + 6, i + 7);
            lemma_tag_bytes(s, i + 7, quote);
            lemma_tag_concat(s, i + 7, quote, bytes);
            lemma_tag_concat(s, i + 7, quote + bytes, quote);
            lemma_string_reads(s, i + 7, text);
        },
        DirectiveView::Ascii(text) => {
            let bytes = encode_utf8(text);
            lemma_tag_concat(s, i, ascii_tag() + open + bytes, quote);
            lemma_tag_concat(s, i, ascii_tag() + open, bytes);
            lemma_tag_concat(s, i, ascii_tag(), open);
            lemma_tag_head(s, i, ascii_tag());
            lemma_tag_bytes(s, i, ascii_tag());
            lemma_tag_bytes(s, i, asciz_tag());
            assert(ascii_tag()[5] == 'i' as u8 && asciz_tag()[5] == 'z' as u8);
            lemma_tag_head(s, i + 6, open);
            lemma_blank_row(s, i + 6, i + 7);
            lemma_tag_bytes(s, i + 7, quote);
            lemma_tag_concat(s, i + 7, quote, bytes);
            lemma_tag_concat(s, i + 7, quote + bytes, quote);
            lemma_string_reads(s, i + 7, text);
        },
        DirectiveView::Db(byte) => {
            lemma_tag_concat(s, i, db_tag() + space, literal_source(byte as u32));
            lemma_tag_concat(s, i, db_tag(), space);
            lemma_directive_tags(s, i);
            lemma_tag_head(s, i + 3, space);
            lemma_tag_head(s, i + 4, literal_source(byte as u32));
            lemma_blank_row(s, i + 3, i + 4);
            lemma_literal_reads(s, i + 4, byte as u32);
        },
        DirectiveView::Dw(word) => {
            lemma_tag_concat(s, i, dw_tag() + space, literal_source(word));
            lemma_tag_concat(s, i, dw_tag(), space);
            lemma_directive_tags(s, i);
            lemma_tag_head(s, i + 3, space);
            lemma_tag_head(s, i + 4, literal_source(word));
            lemma_blank_row(s, i + 3, i + 4);
            lemma_literal_reads(s, i + 4, word);
        },
    }
}

/// The first three bytes of a keyword of a directive that stands at a
/// place stand there.
pub proof fn lemma_directive_tags(s: Seq<u8>, i: int)
    ensures
        has_tag(s, i, asciz_tag()) || has_tag(s, i, ascii_tag()) ==> byte_at(s, i) == '.' as u8
            && byte_at(s, i + 1) == 'a' as u8,
        has_tag(s, i, db_tag()) ==> byte_at(s, i) == '.' as u8 && byte_at(s, i + 1) == 'd' as u8
            && byte_at(s, i + 2) == 'b' as u8,
        has_tag(s, i, dw_tag()) ==> byte_at(s, i) == '.' as u8 && byte_at(s, i + 1) == 'd' as u8
            && byte_at(s, i + 2) == 'w' as u8,
{
    if has_tag(s, i, asciz_tag()) {
        lemma_tag_head(s, i, asciz_tag());
    }
    if has_tag(s, i, ascii_tag()) {
        lemma_tag_head(s, i, ascii_tag());
    }
    if has_tag(s, i, db_tag()) {
        lemma_tag_head(s, i, db_tag());
    }
    if has_tag(s, i, dw_tag()) {
        lemma_tag_head(s, i, dw_tag());
    }
}

/// A printed operation at the end of a line reads as itself.
pub proof fn lemma_operation_reads(s: Seq<u8>, i: int, opcode: OpcodeView)
    requires
        readable_instruction(InstructionView::Opcode(opcode)),
        has_tag(s, i, opcode.source()),
        byte_at(s, i + opcode.source().len()) == '\n' as u8,
    ensures
        'A' as u8 <= byte_at(s, i) <= 'Z' as u8,
        operation_at(s, i) == Parsed::Match(opcode, i + opcode.source().len()),
        label_at(s, i) is None,
{
    match opcode {
        OpcodeView::Nullary(op) => {
            lemma_nullary_reads(s, i, op);
            lemma_mnemonic_is_no_label(s, i, op.mnemonic(), '\n' as u8);
            lemma_nullary_letters(op);
        },
        OpcodeView::Unary(op, word) => {
            let space = seq![' ' as u8];
            let name = op.mnemonic();
            lemma_tag_concat(s, i, name + space, word.source());
            lemma_tag_concat(s, i, name, space);
            lemma_tag_head(s, i + name.len(), space);
            lemma_unary_reads(s, i, op);
            lemma_unary_letters(op);
            lemma_mnemonic_is_no_label(s, i, name, ' ' as u8);
            lemma_word_reads(s, i + name.len() + 1, word);
            lemma_blank_row(s, i + name.len(), i + name.len() + 1);
        },
    }
}

/// Upper-case letters followed by a byte that is neither a colon nor part
/// of a name are no label.
pub proof fn lemma_mnemonic_is_no_label(s: Seq<u8>, i: int, name: Seq<u8>, after: u8)
    requires
        has_tag(s, i, name),
        name.len() >= 1,
        forall|k: int| 0 <= k < name.len() ==> 'A' as u8 <= #[trigger] name[k] <= 'Z' as u8,
        byte_at(s, i + name.len()) == after,
        !id_char(after),
        after != ':' as u8,
    ensures
        'A' as u8 <= byte_at(s, i) <= 'Z' as u8,
        label_at(s, i) is None,
{
    lemma_tag_bytes(s, i, name);
    assert(s[i + 0] == name[0]);
    assert forall|k: int| i <= k < i + name.len() implies ByteClass::Identifier.holds(
        #[trigger] s[k],
    ) by {
        assert(s[i + (k - i)] == name[k - i]);
    }
    lemma_run_is(s, i, i + name.len(), ByteClass::Identifier);
}

/// A printed instruction at the end of a line reads as itself, and is no
/// label.
pub proof fn lemma_instruction_reads(s: Seq<u8>, i: int, instruction: InstructionView)
    requires
        readable_instruction(instruction),
        has_tag(s, i, instruction.source()),
        byte_at(s, i + instruction.source().len()) == '\n' as u8,
    ensures
        byte_at(s, i) == '.' as u8 || 'A' as u8 <= byte_at(s, i) <= 'Z' as u8,
        instruction_at(s, i) == Parsed::Match(instruction, i + instruction.source().len()),
        label_at(s, i) is None,
{
    match instruction {
        InstructionView::Directive(directive) => {
            lemma_directive_reads(s, i, directive);
        },
        InstructionView::Opcode(opcode) => {
            lemma_operation_reads(s, i, opcode);
            lemma_directive_tags(s, i);
        },
    }
}

/// A printed entry at the end of a line reads as itself, from the place
/// where the blanks before it end to the place where the blanks after it
/// end.
pub proof fn lemma_entry_reads(s: Seq<u8>, i: int, entry: EntryView)
    requires
        readable_entry(entry),
        has_tag(s, i, entry.source()),
        byte_at(s, i + entry.source().len()) == '\n' as u8,
    ensures
        blank_end(s, i) < s.len(),
        entry_at(s, blank_end(s, i)) == Parsed::Match(
            entry,
            blank_end(s, i + entry.source().len()),
        ),
{
    let indent = seq![' ' as u8, ' ' as u8, ' ' as u8, ' ' as u8];
    let text = entry.entry.source();
    match entry.label {
        Some(name) => {
            let bytes = encode_utf8(name);
            let colon = seq![':' as u8, '\n' as u8];
            let start = i + bytes.len() + 6;
            lemma_tag_concat(s, i, bytes + colon + indent, text);
            lemma_tag_concat(s, i, bytes + colon, indent);
            lemma_tag_concat(s, i, bytes, colon);
            lemma_tag_bytes(s, i, bytes);
            assert(s[i + 0] == bytes[0]);
            lemma_no_blank(s, i);
            lemma_tag_head(s, i + bytes.len(), colon);
            lemma_name_reads(s, i, name);
            lemma_tag_head(s, i + bytes.len() + 2, indent);
            lemma_instruction_reads(s, start, entry.entry);
            assert forall|k: int| i + bytes.len() + 1 <= k < start implies ByteClass::Blank.holds(
                #[trigger] s[k],
            ) by {
                assert(k == i + bytes.len() + 1 || k == i + bytes.len() + 2 || k == i
                    + bytes.len() + 3 || k == i + bytes.len() + 4 || k == i + bytes.len() + 5);
                assert(byte_at(s, k) == s[k]);
            }
            lemma_blank_row(s, i + bytes.len() + 1, start);
        },
        None => {
            let start = i + 4;
            assert(Seq::<u8>::empty() + indent =~= indent);
            lemma_tag_concat(s, i, indent, text);
            lemma_tag_head(s, i, indent);
            lemma_instruction_reads(s, start, entry.entry);
            assert forall|k: int| i <= k < start implies ByteClass::Blank.holds(
                #[trigger] s[k],
            ) by {
                assert(k == i || k == i + 1 || k == i + 2 || k == i + 3);
                assert(byte_at(s, k) == s[k]);
            }
            lemma_blank_row(s, i, start);
        },
    }
}

/// No entry starts with a closing brace.
pub proof fn lemma_brace_ends_entries(s: Seq<u8>, i: int)
    requires
        byte_at(s, i) == '}' as u8,
    ensures
        blank_end(s, i) == i,
        entries_at(s, i) == Ok::<(Seq<EntryView>, int), int>((Seq::empty(), i)),
{
    lemma_no_blank(s, i);
    lemma_run_is(s, i, i, ByteClass::Identifier);
    lemma_directive_tags(s, i);
    lemma_nullary_found(s, i, 0);
    lemma_unary_found(s, i, 0);
    if let Some(op) = nullary_at(s, i) {
        lemma_tag_head(s, i, op.mnemonic());
        lemma_nullary_letters(op);
    }
    if let Some(op) = unary_at(s, i) {
        lemma_tag_head(s, i, op.mnemonic());
        lemma_unary_letters(op);
    }
    assert(entry_at(s, i) is Miss);
}

/// The printed entries of a section, with a closing brace after them, read
/// as the entries, up to the brace.
pub proof fn lemma_entries_read(s: Seq<u8>, i: int, entries: Seq<EntryView>)
    requires
        readable_section(entries),
        has_tag(s, i, section_source(entries)),
        byte_at(s, i + section_source(entries).len()) == '}' as u8,
    ensures
        entries_at(s, blank_end(s, i)) == Ok::<(Seq<EntryView>, int), int>(
            (entries, i + section_source(entries).len()),
        ),
    decreases entries.len(),
{
    if entries.len() == 0 {
        lemma_brace_ends_entries(s, i);
        assert(entries =~= Seq::<EntryView>::empty());
    } else {
        let first = entries[0];
        let rest = entries.drop_first();
        let text = first.source();
        let newline = seq!['\n' as u8];
        let next = i + text.len() + 1;
        lemma_tag_concat(s, i, text + newline, section_source(rest));
        lemma_tag_concat(s, i, text, newline);
        lemma_tag_head(s, i + text.len(), newline);
        lemma_blank_end(s, i);
        lemma_entry_reads(s, i, first);
        assert forall|k: int| 0 <= k < rest.len() implies readable_entry(#[trigger] rest[k]) by {
            assert(rest[k] == entries[k + 1]);
        }
        lemma_entries_read(s, next, rest);
        assert(blank_end(s, i + text.len()) == blank_end(s, next));
        lemma_entry_bounds(s, blank_end(s, i));
        assert(seq![first] + rest =~= entries);
    }
}

/// A printed section reads as its entries.
pub proof fn lemma_section_reads(s: Seq<u8>, i: int, keyword: Seq<u8>, entries: Seq<EntryView>)
    requires
        readable_section(entries),
        keyword.len() == 3,
        has_tag(
            s,
            i,
            keyword + seq![' ' as u8, '{' as u8, '\n' as u8] + section_source(entries),
        ),
        byte_at(
            s,
            i + (keyword + seq![' ' as u8, '{' as u8, '\n' as u8] + section_source(
                entries,
            )).len(),
        ) == '}' as u8,
    ensures
        section_at(s, i, keyword) == Ok::<(Seq<EntryView>, int), int>(
            (entries, i + 7 + section_source(entries).len()),
        ),
        byte_at(s, i + 3) == ' ' as u8,
{
    let open = seq![' ' as u8, '{' as u8, '\n' as u8];
    let body = section_source(entries);
    lemma_tag_concat(s, i, keyword + open, body);
    lemma_tag_concat(s, i, keyword, open);
    lemma_tag_head(s, i + 3, open);
    lemma_blank_row(s, i + 3, i + 4);
    lemma_entries_read(s, i + 6, entries);
    assert(blank_end(s, i + 5) == blank_end(s, i + 6));
    lemma_no_blank(s, i + 6 + body.len());
}

/// A text that holds both printed sections, with the line between them
/// and the closing brace, reads as the program.
pub proof fn lemma_framed_program_reads(s: Seq<u8>, program: ProgramView, bss: int, raw: int)
    requires
        readable(program),
        bss == section_source(program.bss).len(),
        raw == section_source(program.raw).len(),
        has_tag(
            s,
            0,
            bss_tag() + seq![' ' as u8, '{' as u8, '\n' as u8] + section_source(program.bss),
        ),
        has_tag(s, 6 + bss, seq!['}' as u8, '\n' as u8, '\n' as u8]),
        has_tag(
            s,
            9 + bss,
            raw_tag() + seq![' ' as u8, '{' as u8, '\n' as u8] + section_source(program.raw),
        ),
        has_tag(s, 15 + bss + raw, seq!['}' as u8]),
        s.len() == 16 + bss + raw,
    ensures
        program_of(s) == Ok::<ProgramView, int>(program),
{
    let open = seq![' ' as u8, '{' as u8, '\n' as u8];
    lemma_tag_head(s, 6 + bss, seq!['}' as u8, '\n' as u8, '\n' as u8]);
    lemma_tag_head(s, 15 + bss + raw, seq!['}' as u8]);
    lemma_tag_head(s, 0, bss_tag() + open + section_source(program.bss));
    lemma_no_blank(s, 0);
    lemma_section_reads(s, 0, bss_tag(), program.bss);
    lemma_tag_head(s, 9 + bss, raw_tag() + open + section_source(program.raw));
    lemma_blank_row(s, 7 + bss, 9 + bss);
    lemma_section_reads(s, 9 + bss, raw_tag(), program.raw);
    lemma_no_blank(s, s.len() as int);
}

/// The parts of the text printed for a program stand in it one after the
/// other.
pub proof fn lemma_source_parts(program: ProgramView, bss: int, raw: int)
    requires
        bss == section_source(program.bss).len(),
        raw == section_source(program.raw).len(),
    ensures
        has_tag(
            program.source(),
            0,
            bss_tag() + seq![' ' as u8, '{' as u8, '\n' as u8] + section_source(program.bss),
        ),
        has_tag(program.source(), 6 + bss, seq!['}' as u8, '\n' as u8, '\n' as u8]),
        has_tag(
            program.source(),
            9 + bss,
            raw_tag() + seq![' ' as u8, '{' as u8, '\n' as u8] + section_source(program.raw),
        ),
        has_tag(program.source(), 15 + bss + raw, seq!['}' as u8]),
        program.source().len() == 16 + bss + raw,
{
    let s = program.source();
    let open = seq![' ' as u8, '{' as u8, '\n' as u8];
    let between = seq!['}' as u8, '\n' as u8, '\n' as u8];
    let close = seq!['}' as u8];
    let body = section_source(program.raw);
    let first = bss_tag() + open + section_source(program.bss);
    let upto_raw = first + between;
    let upto_body = upto_raw + raw_tag() + open;
    assert(s.subrange(0, s.len() as int) =~= s);
    lemma_tag_concat(s, 0, upto_body + body, close);
    lemma_tag_concat(s, 0, upto_body, body);
    lemma_tag_concat(s, 0, upto_raw + raw_tag(), open);
    lemma_tag_concat(s, 0, upto_raw, raw_tag());
    lemma_tag_concat(s, 0, first, between);
    lemma_tag_concat(s, 9 + bss, raw_tag(), open);
    lemma_tag_concat(s, 9 + bss, raw_tag() + open, body);
}

/// The text printed for a program that can be read back reads as that
/// program.
pub proof fn lemma_printed_program_reads(program: ProgramView)
    requires
        readable(program),
    ensures
        program_of(program.source()) == Ok::<ProgramView, int>(program),
{
    let bss = section_source(program.bss).len() as int;
    let raw = section_source(program.raw).len() as int;
    lemma_source_parts(program, bss, raw);
    lemma_framed_program_reads(program.source(), program, bss, raw);
}

/// A name or a label that was read is a name.
pub proof fn lemma_read_name_is_name(s: Seq<u8>, i: int)
    requires
        0 <= i <= s.len(),
    ensures
        name_at(s, i) matches Some((name, _)) ==> is_name(name) && encode_utf8(name)[0] == s[i],
        label_at(s, i) matches Some((name, _)) ==> is_name(name),
{
    let end = run_end(s, i, ByteClass::Identifier);
    lemma_run_end(s, i, ByteClass::Identifier);
    if i < end {
        let bytes = s.subrange(i, end);
        assert forall|k: int| 0 <= k < bytes.len() implies id_char(#[trigger] bytes[k]) by {
            assert(ByteClass::Identifier.holds(s[i + k]));
        }
        lemma_ascii_is_valid(bytes);
        decode_utf8_encode_utf8(bytes);
    }
}

/// A string that was read can stand between double quotes.
pub proof fn lemma_read_string_is_quotable(s: Seq<u8>, i: int)
    requires
        0 <= i <= s.len(),
    ensures
        string_at(s, i) matches Some((text, _)) ==> is_quotable(text),
{
    if i < s.len() {
        let end = run_end(s, i + 1, ByteClass::NotQuote);
        lemma_run_end(s, i + 1, ByteClass::NotQuote);
        if i + 1 < end {
            let bytes = s.subrange(i + 1, end);
            assert forall|k: int| 0 <= k < bytes.len() implies #[trigger] bytes[k] != '"' as u8 by {
                assert(ByteClass::NotQuote.holds(s[i + 1 + k]));
            }
            if valid_utf8(bytes) {
                decode_utf8_encode_utf8(bytes);
            }
        }
    }
}

/// An operand that was read can be read back: a label among the operands
/// does not start with a digit, since a digit starts a literal.
pub proof fn lemma_read_word_is_readable(s: Seq<u8>, i: int)
    requires
        0 <= i <= s.len(),
    ensures
        word_at(s, i) matches Parsed::Match(word, _) ==> readable_word(word),
{
    lemma_read_name_is_name(s, i);
    if i < s.len() && ByteClass::Digit.holds(s[i]) {
        lemma_no_blank(s, i);
        lemma_run_end(s, i, ByteClass::Digit);
        assert(!(literal_at(s, i) is Miss));
    }
}

/// An instruction that was read can be read back.
pub proof fn lemma_read_instruction_is_readable(s: Seq<u8>, i: int)
    requires
        0 <= i <= s.len(),
    ensures
        instruction_at(s, i) matches Parsed::Match(instruction, _) ==> readable_instruction(
            instruction,
        ),
{
    if i + 6 <= s.len() {
        lemma_blank_end(s, i + 6);
        lemma_read_string_is_quotable(s, blank_end(s, i + 6));
    }
    lemma_unary_found(s, i, 0);
    if let Some(op) = unary_at(s, i) {
        let after = i + op.mnemonic().len();
        lemma_blank_end(s, after);
        lemma_read_word_is_readable(s, blank_end(s, after));
    }
}

/// An entry that was read can be read back.
pub proof fn lemma_read_entry_is_readable(s: Seq<u8>, i: int)
    requires
        0 <= i <= s.len(),
    ensures
        entry_at(s, i) matches Parsed::Match(entry, _) ==> readable_entry(entry),
{
    lemma_read_name_is_name(s, i);
    lemma_text_bounds(s, i);
    let after = match label_at(s, i) {
        Some((_, next)) => next,
        None => i,
    };
    lemma_blank_end(s, after);
    lemma_read_instruction_is_readable(s, blank_end(s, after));
}

/// The entries that were read can be read back.
pub proof fn lemma_read_entries_are_readable(s: Seq<u8>, i: int)
    requires
        0 <= i <= s.len(),
    ensures
        entries_at(s, i) matches Ok((entries, _)) ==> readable_section(entries),
    decreases s.len() - i,
{
    if i < s.len() {
        if let Parsed::Match(entry, next) = entry_at(s, i) {
            lemma_entry_bounds(s, i);
            lemma_read_entry_is_readable(s, i);
            lemma_read_entries_are_readable(s, next);
            if let Ok((rest, _)) = entries_at(s, next) {
                let entries = seq![entry] + rest;
                assert forall|k: int| 0 <= k < entries.len() implies readable_entry(
                    #[trigger] entries[k],
                ) by {
                    if k > 0 {
                        assert(entries[k] == rest[k - 1]);
                    }
                }
            }
        }
    }
}

/// The entries of a section that was read can be read back.
pub proof fn lemma_read_section_is_readable(s: Seq<u8>, i: int, keyword: Seq<u8>)
    requires
        0 <= i <= s.len(),
    ensures
        section_at(s, i, keyword) matches Ok((entries, end)) ==> readable_section(entries) && i
            <= end <= s.len(),
{
    if has_tag(s, i, keyword) {
        lemma_blank_end(s, i + keyword.len());
        let open = blank_end(s, i + keyword.len());
        if open < s.len() {
            lemma_blank_end(s, open + 1);
            let start = blank_end(s, open + 1);
            lemma_read_entries_are_readable(s, start);
            lemma_entries_end(s, start);
            if let Ok((_, end)) = entries_at(s, start) {
                lemma_blank_end(s, end);
            }
        }
    }
}

/// The entries that were read end within the text.
pub proof fn lemma_entries_end(s: Seq<u8>, i: int)
    requires
        0 <= i <= s.len(),
    ensures
        entries_at(s, i) matches Ok((_, end)) ==> i <= end <= s.len(),
    decreases s.len() - i,
{
    if i < s.len() {
        if let Parsed::Match(_, next) = entry_at(s, i) {
            lemma_entry_bounds(s, i);
            lemma_entries_end(s, next);
        }
    }
}

/// A program that was read from a text can be read back.
pub proof fn lemma_read_program_is_readable(source: Seq<u8>)
    ensures
        program_of(source) matches Ok(program) ==> readable(program),
{
    lemma_blank_end(source, 0);
    let start = blank_end(source, 0);
    lemma_read_section_is_readable(source, start, bss_tag());
    if let Ok((_, after_bss)) = section_at(source, start, bss_tag()) {
        lemma_blank_end(source, after_bss);
        lemma_read_section_is_readable(source, blank_end(source, after_bss), raw_tag());
    }
}

/// Printing a program that was read from a text, and reading what was
/// printed, gives the same program again.
pub proof fn lemma_print_parse_round_trip(source: Seq<u8>)
    requires
        program_of(source) is Ok,
    ensures
        program_of(program_of(source)->Ok_0.source()) == program_of(source),
{
    lemma_read_program_is_readable(source);
    lemma_printed_program_reads(program_of(source)->Ok_0);
}

} // verus!
