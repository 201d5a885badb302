//! The grammar of the source language, as functions from a text and a place
//! in it to what stands there.
//!
//! A program is `bss { .. } raw { .. }`, each section a row of entries; an
//! entry is an optional label and an instruction. Blanks and comments may
//! stand between any two tokens. Alternatives are tried in a fixed order and
//! the first that fits is taken; an entry that does not fit ends its
//! section.

use crate::ast::{
    DirectiveView, EntryView, InstructionView, OpcodeView, ProgramView, WordView,
};
use crate::lexer::{
    blank_end, has_tag, label_at, lemma_blank_end, lemma_literal_bounds, lemma_nullary_found,
    lemma_text_bounds, lemma_unary_found, literal_at, name_at, nullary_at, string_at, unary_at,
    Parsed,
};
use vstd::prelude::*;
use vstd::utf8::{decode_utf8, valid_utf8};

verus! {

/// The operand at `i`: a numeric literal, or else the name of a label.
pub open spec fn word_at(s: Seq<u8>, i: int) -> Parsed<WordView> {
    match literal_at(s, i) {
        Parsed::Match(value, next) => Parsed::Match(WordView::Literal(value), next),
        Parsed::Fault(at) => Parsed::Fault(at),
        Parsed::Miss => match name_at(s, i) {
            Some((name, next)) => Parsed::Match(WordView::Label(name), next),
            None => Parsed::Miss,
        },
    }
}

/// The keyword `.asciz`.
pub open spec fn asciz_tag() -> Seq<u8> {
    seq!['.' as u8, 'a' as u8, 's' as u8, 'c' as u8, 'i' as u8, 'z' as u8]
}

/// The keyword `.ascii`.
pub open spec fn ascii_tag() -> Seq<u8> {
    seq!['.' as u8, 'a' as u8, 's' as u8, 'c' as u8, 'i' as u8, 'i' as u8]
}

/// The keyword `.db`.
pub open spec fn db_tag() -> Seq<u8> {
    seq!['.' as u8, 'd' as u8, 'b' as u8]
}

/// The keyword `.dw`.
pub open spec fn dw_tag() -> Seq<u8> {
    seq!['.' as u8, 'd' as u8, 'w' as u8]
}

/// The keyword `bss`.
pub open spec fn bss_tag() -> Seq<u8> {
    seq!['b' as u8, 's' as u8, 's' as u8]
}

/// The keyword `raw`.
pub open spec fn raw_tag() -> Seq<u8> {
    seq!['r' as u8, 'a' as u8, 'w' as u8]
}

/// The string that follows a keyword of `width` bytes at `i`.
pub open spec fn string_after(s: Seq<u8>, i: int, width: int) -> Option<(Seq<char>, int)> {
    string_at(s, blank_end(s, i + width))
}

/// The directive at `i`: `.asciz` or `.ascii` with a string, `.db` with a
/// literal of which the lowest byte is kept, or `.dw` with a literal.
pub open spec fn directive_at(s: Seq<u8>, i: int) -> Parsed<DirectiveView> {
    if has_tag(s, i, asciz_tag()) {
        match string_after(s, i, 6) {
            Some((text, next)) => Parsed::Match(DirectiveView::Asciz(text), next),
            None => Parsed::Miss,
        }
    } else if has_tag(s, i, ascii_tag()) {
        match string_after(s, i, 6) {
            Some((text, next)) => Parsed::Match(DirectiveView::Ascii(text), next),
            None => Parsed::Miss,
        }
    } else if has_tag(s, i, db_tag()) {
        match literal_at(s, blank_end(s, i + 3)) {
            Parsed::Match(value, next) => Parsed::Match(
                DirectiveView::Db((value % 0x100) as u8),
                next,
            ),
            Parsed::Miss => Parsed::Miss,
            Parsed::Fault(at) => Parsed::Fault(at),
        }
    } else if has_tag(s, i, dw_tag()) {
        match literal_at(s, blank_end(s, i + 3)) {
            Parsed::Match(value, next) => Parsed::Match(DirectiveView::Dw(value), next),
            Parsed::Miss => Parsed::Miss,
            Parsed::Fault(at) => Parsed::Fault(at),
        }
    } else {
        Parsed::Miss
    }
}

/// The operation at `i`: the mnemonic of an instruction without an operand,
/// or else the mnemonic of an instruction with one and its operand.
pub open spec fn operation_at(s: Seq<u8>, i: int) -> Parsed<OpcodeView> {
    match nullary_at(s, i) {
        Some(op) => Parsed::Match(OpcodeView::Nullary(op), i + op.mnemonic().len()),
        None => match unary_at(s, i) {
            Some(op) => match word_at(s, blank_end(s, i + op.mnemonic().len())) {
                Parsed::Match(word, next) => Parsed::Match(OpcodeView::Unary(op, word), next),
                Parsed::Miss => Parsed::Miss,
                Parsed::Fault(at) => Parsed::Fault(at),
            },
            None => Parsed::Miss,
        },
    }
}

/// The instruction at `i`: a directive, or else an operation.
pub open spec fn instruction_at(s: Seq<u8>, i: int) -> Parsed<InstructionView> {
    match directive_at(s, i) {
        Parsed::Match(directive, next) => Parsed::Match(
            InstructionView::Directive(directive),
            next,
        ),
        Parsed::Fault(at) => Parsed::Fault(at),
        Parsed::Miss => match operation_at(s, i) {
            Parsed::Match(opcode, next) => Parsed::Match(InstructionView::Opcode(opcode), next),
            Parsed::Miss => Parsed::Miss,
            Parsed::Fault(at) => Parsed::Fault(at),
        },
    }
}

/// The entry at `i`: a label if one stands there, an instruction, and the
/// blanks after it.
pub open spec fn entry_at(s: Seq<u8>, i: int) -> Parsed<EntryView> {
    let (label, after) = match label_at(s, i) {
        Some((name, next)) => (Some(name), next),
        None => (None, i),
    };
    match instruction_at(s, blank_end(s, after)) {
        Parsed::Match(entry, next) => Parsed::Match(EntryView { label, entry }, blank_end(s, next)),
        Parsed::Miss => Parsed::Miss,
        Parsed::Fault(at) => Parsed::Fault(at),
    }
}

/// An operand that was found ends within the text, after the place where it
/// starts.
pub proof fn lemma_word_bounds(s: Seq<u8>, i: int)
    requires
        0 <= i <= s.len(),
    ensures
        word_at(s, i) matches Parsed::Match(_, next) ==> i < next <= s.len(),
        word_at(s, i) matches Parsed::Fault(at) ==> i <= at < s.len(),
{
    lemma_literal_bounds(s, i);
    lemma_text_bounds(s, i);
}

/// An instruction that was found ends within the text, after the place
/// where it starts.
pub proof fn lemma_instruction_bounds(s: Seq<u8>, i: int)
    requires
        0 <= i <= s.len(),
    ensures
        instruction_at(s, i) matches Parsed::Match(_, next) ==> i < next <= s.len(),
        instruction_at(s, i) matches Parsed::Fault(at) ==> i <= at < s.len(),
{
    if i + 6 <= s.len() {
        lemma_blank_end(s, i + 6);
        lemma_text_bounds(s, blank_end(s, i + 6));
    }
    if i + 3 <= s.len() {
        lemma_blank_end(s, i + 3);
        lemma_literal_bounds(s, blank_end(s, i + 3));
    }
    lemma_nullary_found(s, i, 0);
    lemma_unary_found(s, i, 0);
    if let Some(op) = unary_at(s, i) {
        let after = i + op.mnemonic().len();
        lemma_blank_end(s, after);
        lemma_word_bounds(s, blank_end(s, after));
    }
}

/// An entry that was found ends within the text, after the place where it
/// starts.
pub proof fn lemma_entry_bounds(s: Seq<u8>, i: int)
    requires
        0 <= i <= s.len(),
    ensures
        entry_at(s, i) matches Parsed::Match(_, next) ==> i < next <= s.len(),
        entry_at(s, i) matches Parsed::Fault(at) ==> i <= at < s.len(),
{
    lemma_text_bounds(s, i);
    let after = match label_at(s, i) {
        Some((_, next)) => next,
        None => i,
    };
    lemma_blank_end(s, after);
    lemma_instruction_bounds(s, blank_end(s, after));
    if let Parsed::Match(_, next) = instruction_at(s, blank_end(s, after)) {
        lemma_blank_end(s, next);
    }
}

/// The entries from `i` on, up to the first place where no entry stands,
/// and that place; or the place of a fault in one of them.
pub open spec fn entries_at(s: Seq<u8>, i: int) -> Result<(Seq<EntryView>, int), int>
    decreases s.len() - i,
{
    if i < 0 || i >= s.len() {
        Ok((Seq::empty(), i))
    } else {
        match entry_at(s, i) {
            Parsed::Match(entry, next) => {
                proof {
                    lemma_entry_bounds(s, i);
                }
                match entries_at(s, next) {
                    Ok((rest, end)) => Ok((seq![entry] + rest, end)),
                    Err(at) => Err(at),
                }
            },
            Parsed::Miss => Ok((Seq::empty(), i)),
            Parsed::Fault(at) => Err(at),
        }
    }
}

/// The section at `i`: its keyword, an opening brace, entries and a closing
/// brace. Where it cannot be read, the result is the place of the token
/// that is missing or of the fault in an entry.
pub open spec fn section_at(s: Seq<u8>, i: int, keyword: Seq<u8>) -> Result<
    (Seq<EntryView>, int),
    int,
> {
    let open = blank_end(s, i + keyword.len());
    if !has_tag(s, i, keyword) {
        Err(i)
    } else if !(open < s.len() && s[open] == '{' as u8) {
        Err(open)
    } else {
        match entries_at(s, blank_end(s, open + 1)) {
            Err(at) => Err(at),
            Ok((entries, end)) => {
                let close = blank_end(s, end);
                if close < s.len() && s[close] == '}' as u8 {
                    Ok((entries, close + 1))
                } else {
                    Err(close)
                }
            },
        }
    }
}

/// The program that a text holds: the `bss` section, then the `raw`
/// section, and nothing after it. Where the text is no program, the result
/// is the place at which reading it fails.
pub open spec fn program_of(s: Seq<u8>) -> Result<ProgramView, int> {
    match section_at(s, blank_end(s, 0), bss_tag()) {
        Err(at) => Err(at),
        Ok((bss, after_bss)) => match section_at(s, blank_end(s, after_bss), raw_tag()) {
            Err(at) => Err(at),
            Ok((raw, after_raw)) => {
                let end = blank_end(s, after_raw);
                if end == s.len() {
                    Ok(ProgramView { bss, raw })
                } else {
                    Err(end)
                }
            },
        },
    }
}

/// The text shown with a failure at `at`: up to twenty bytes from there on,
/// if they are valid UTF-8.
pub open spec fn context_at(s: Seq<u8>, at: int) -> Option<Seq<char>> {
    let stop = if at + 20 <= s.len() {
        at + 20
    } else {
        s.len() as int
    };
    if 0 <= at <= s.len() && valid_utf8(s.subrange(at, stop)) {
        Some(decode_utf8(s.subrange(at, stop)))
    } else {
        None
    }
}

} // verus!
