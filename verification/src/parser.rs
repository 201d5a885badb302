//! The parser: reads a program from its source text.

use crate::ast::{
    entries_of, Directive, Entry, EntryView, Instruction, Opcode, Program, Word,
};
use crate::grammar::{
    ascii_tag, asciz_tag, bss_tag, context_at, db_tag, directive_at, dw_tag, entries_at, entry_at,
    instruction_at, operation_at, program_of, raw_tag, section_at, word_at,
};
use crate::lexer::{
    at_byte, at_tag, lemma_literal_bounds, lemma_nullary_found, lemma_unary_found, scan_label,
    scan_literal, scan_name, scan_nullary, scan_string, scan_unary, skip_blank, text_between,
    Scan,
};
use vstd::prelude::*;

verus! {

/// Why a text is no program: the place at which reading it fails, and the
/// text that stands there.
#[derive(Debug, Clone, Copy, PartialEq, Eq)]
pub struct Error<'a> {
    position: usize,
    context: Option<&'a str>,
}

/// The mathematical value of an [`Error`].
pub struct ErrorView {
    pub position: usize,
    pub context: Option<Seq<char>>,
}

impl<'a> View for Error<'a> {
    type V = ErrorView;

    closed spec fn view(&self) -> ErrorView {
        ErrorView {
            position: self.position,
            context: match self.context {
                Some(text) => Some(text@),
                None => None,
            },
        }
    }
}

impl<'a> Error<'a> {
    /// The offset of the byte at which reading fails.
    pub fn position(&self) -> (at: usize)
        ensures
            at == self@.position,
    {
        self.position
    }

    /// Up to twenty bytes of the text from the failure on, unless they are
    /// not valid UTF-8.
    pub fn context(&self) -> (text: Option<&'a str>)
        ensures
            text is Some <==> self@.context is Some,
            text matches Some(t) ==> self@.context == Some(t@),
    {
        self.context
    }
}

/// The error for a failure at `position` in `source`.
pub fn get_error<'a>(source: &'a [u8], position: usize) -> (error: Error<'a>)
    ensures
        error@ == (ErrorView {
            position,
            context: context_at(source@, position as int),
        }),
{
    let stop = if position <= source.len() && source.len() - position >= 20 {
        position + 20
    } else {
        source.len()
    };
    Error { position, context: text_between(source, position, stop) }
}

/// Reads the operand at `pos`.
fn scan_word<'a>(source: &'a [u8], pos: usize) -> (found: Scan<Word<'a>>)
    requires
        pos <= source.len(),
    ensures
        found@ == word_at(source@, pos as int),
        found matches Scan::Match(_, next) ==> pos < next <= source.len(),
        found matches Scan::Fault(at) ==> at <= source.len(),
{
    match scan_literal(source, pos) {
        Scan::Match(value, next) => Scan::Match(Word::Literal(value), next),
        Scan::Fault(at) => {
            proof {
                lemma_literal_bounds(source@, pos as int);
            }
            Scan::Fault(at)
        },
        Scan::Miss => match scan_name(source, pos) {
            Some((name, next)) => Scan::Match(Word::Label(name), next),
            None => Scan::Miss,
        },
    }
}

/// Reads the directive at `pos`.
fn scan_directive<'a>(source: &'a [u8], pos: usize) -> (found: Scan<Directive<'a>>)
    requires
        pos <= source.len(),
    ensures
        found@ == directive_at(source@, pos as int),
        found matches Scan::Match(_, next) ==> pos < next <= source.len(),
        found matches Scan::Fault(at) ==> at <= source.len(),
{
    let asciz = ['.' as u8, 'a' as u8, 's' as u8, 'c' as u8, 'i' as u8, 'z' as u8];
    let ascii = ['.' as u8, 'a' as u8, 's' as u8, 'c' as u8, 'i' as u8, 'i' as u8];
    let db = ['.' as u8, 'd' as u8, 'b' as u8];
    let dw = ['.' as u8, 'd' as u8, 'w' as u8];
    assert(asciz@ =~= asciz_tag());
    assert(ascii@ =~= ascii_tag());
    assert(db@ =~= db_tag());
    assert(dw@ =~= dw_tag());
    if at_tag(source, pos, asciz.as_slice()) {
        match scan_string(source, skip_blank(source, pos + 6)) {
            Some((text, next)) => Scan::Match(Directive::Asciz(text), next),
            None => Scan::Miss,
        }
    } else if at_tag(source, pos, ascii.as_slice()) {
        match scan_string(source, skip_blank(source, pos + 6)) {
            Some((text, next)) => Scan::Match(Directive::Ascii(text), next),
            None => Scan::Miss,
        }
    } else if at_tag(source, pos, db.as_slice()) {
        let start = skip_blank(source, pos + 3);
        proof {
            lemma_literal_bounds(source@, start as int);
        }
        match scan_literal(source, start) {
            Scan::Match(value, next) => Scan::Match(Directive::Db((value % 0x100) as u8), next),
            Scan::Miss => Scan::Miss,
            Scan::Fault(at) => Scan::Fault(at),
        }
    } else if at_tag(source, pos, dw.as_slice()) {
        let start = skip_blank(source, pos + 3);
        proof {
            lemma_literal_bounds(source@, start as int);
        }
        match scan_literal(source, start) {
            Scan::Match(value, next) => Scan::Match(Directive::Dw(value), next),
            Scan::Miss => Scan::Miss,
            Scan::Fault(at) => Scan::Fault(at),
        }
    } else {
        Scan::Miss
    }
}

/// Reads the operation at `pos`.
fn scan_operation<'a>(source: &'a [u8], pos: usize) -> (found: Scan<Opcode<'a>>)
    requires
        pos <= source.len(),
    ensures
        found@ == operation_at(source@, pos as int),
        found matches Scan::Match(_, next) ==> pos < next <= source.len(),
        found matches Scan::Fault(at) ==> at <= source.len(),
{
    proof {
        lemma_nullary_found(source@, pos as int, 0);
        lemma_unary_found(source@, pos as int, 0);
    }
    match scan_nullary(source, pos) {
        Some(op) => {
            let width = op.name().len();
            Scan::Match(Opcode::Nullary(op), pos + width)
        },
        None => match scan_unary(source, pos) {
            Some(op) => {
                let width = op.name().len();
                match scan_word(source, skip_blank(source, pos + width)) {
                    Scan::Match(word, next) => Scan::Match(Opcode::Unary(op, word), next),
                    Scan::Miss => Scan::Miss,
                    Scan::Fault(at) => Scan::Fault(at),
                }
            },
            None => Scan::Miss,
        },
    }
}

/// Reads the instruction at `pos`.
fn scan_instruction<'a>(source: &'a [u8], pos: usize) -> (found: Scan<Instruction<'a>>)
    requires
        pos <= source.len(),
    ensures
        found@ == instruction_at(source@, pos as int),
        found matches Scan::Match(_, next) ==> pos < next <= source.len(),
        found matches Scan::Fault(at) ==> at <= source.len(),
{
    match scan_directive(source, pos) {
        Scan::Match(directive, next) => Scan::Match(Instruction::Directive(directive), next),
        Scan::Fault(at) => Scan::Fault(at),
        Scan::Miss => match scan_operation(source, pos) {
            Scan::Match(opcode, next) => Scan::Match(Instruction::Opcode(opcode), next),
            Scan::Miss => Scan::Miss,
            Scan::Fault(at) => Scan::Fault(at),
        },
    }
}

/// Reads the entry at `pos`.
fn scan_entry<'a>(source: &'a [u8], pos: usize) -> (found: Scan<Entry<'a>>)
    requires
        pos <= source.len(),
    ensures
        found@ == entry_at(source@, pos as int),
        found matches Scan::Match(_, next) ==> pos < next <= source.len(),
        found matches Scan::Fault(at) ==> at <= source.len(),
{
    let (label, after) = match scan_label(source, pos) {
        Some((name, next)) => (Some(name), next),
        None => (None, pos),
    };
    match scan_instruction(source, skip_blank(source, after)) {
        Scan::Match(entry, next) => Scan::Match(Entry { label, entry }, skip_blank(source, next)),
        Scan::Miss => Scan::Miss,
        Scan::Fault(at) => Scan::Fault(at),
    }
}

/// The entries `before`, followed by what was read after them.
pub open spec fn preceded_by(
    before: Seq<EntryView>,
    read: Result<(Seq<EntryView>, int), int>,
) -> Result<(Seq<EntryView>, int), int> {
    match read {
        Ok((rest, end)) => Ok((before + rest, end)),
        Err(at) => Err(at),
    }
}

/// Reads entries from `pos` on, as long as one stands there.
fn scan_entries<'a>(source: &'a [u8], pos: usize) -> (found: Result<(Vec<Entry<'a>>, usize), usize>)
    requires
        pos <= source.len(),
    ensures
        match entries_at(source@, pos as int) {
            Ok((entries, end)) => found matches Ok((list, stop)) && entries_of(list@) == entries
                && stop == end && pos <= stop <= source.len(),
            Err(at) => found == Err::<(Vec<Entry<'a>>, usize), usize>(at as usize) && 0 <= at
                <= source.len(),
        },
{
    let mut list: Vec<Entry<'a>> = Vec::new();
    let mut at = pos;
    assert(Seq::<EntryView>::empty() + Seq::<EntryView>::empty() =~= Seq::<EntryView>::empty());
    assert(entries_of(list@) =~= Seq::<EntryView>::empty());
    assert(preceded_by(entries_of(list@), entries_at(source@, at as int)) == entries_at(
        source@,
        pos as int,
    )) by {
        if let Ok((rest, end)) = entries_at(source@, at as int) {
            assert(Seq::<EntryView>::empty() + rest =~= rest);
        }
    }
    loop
        invariant
            pos <= at <= source.len(),
            entries_at(source@, pos as int) == preceded_by(
                entries_of(list@),
                entries_at(source@, at as int),
            ),
        ensures
            pos <= at <= source.len(),
            entries_at(source@, pos as int) == Ok::<(Seq<EntryView>, int), int>(
                (entries_of(list@), at as int),
            ),
        decreases source.len() - at,
    {
        if at >= source.len() {
            proof {
                assert(entries_of(list@) + Seq::<EntryView>::empty() =~= entries_of(list@));
            }
            break ;
        }
        match scan_entry(source, at) {
            Scan::Match(entry, next) => {
                proof {
                    let before = entries_of(list@);
                    assert(entries_of(list@.push(entry)) =~= before + seq![entry@]);
                    if let Ok((rest, end)) = entries_at(source@, next as int) {
                        assert((before + seq![entry@]) + rest =~= before + (seq![entry@] + rest));
                    }
                }
                list.push(entry);
                at = next;
            },
            Scan::Miss => {
                proof {
                    assert(entries_of(list@) + Seq::<EntryView>::empty() =~= entries_of(list@));
                }
                break ;
            },
            Scan::Fault(fault) => {
                return Err(fault);
            },
        }
    }
    Ok((list, at))
}

/// Reads the section at `pos` that the keyword `keyword` opens.
fn scan_section<'a>(source: &'a [u8], pos: usize, keyword: &[u8]) -> (found: Result<
    (Vec<Entry<'a>>, usize),
    usize,
>)
    requires
        pos <= source.len(),
    ensures
        match section_at(source@, pos as int, keyword@) {
            Ok((entries, end)) => found matches Ok((list, stop)) && entries_of(list@) == entries
                && stop == end && pos <= stop <= source.len(),
            Err(at) => found == Err::<(Vec<Entry<'a>>, usize), usize>(at as usize) && 0 <= at
                <= source.len(),
        },
{
    if !at_tag(source, pos, keyword) {
        return Err(pos);
    }
    let open = skip_blank(source, pos + keyword.len());
    if !at_byte(source, open, 0x7b) {
        return Err(open);
    }
    let (list, end) = match scan_entries(source, skip_blank(source, open + 1)) {
        Ok(read) => read,
        Err(at) => {
            return Err(at);
        },
    };
    let close = skip_blank(source, end);
    if at_byte(source, close, 0x7d) {
        Ok((list, close + 1))
    } else {
        Err(close)
    }
}

/// Reads a program from its source text: the `bss` section, the `raw`
/// section, and nothing but blanks and comments around them. A text that is
/// no program gives the place at which reading it fails.
pub fn parse_svm<'a>(source: &'a [u8]) -> (result: Result<Program<'a>, Error<'a>>)
    ensures
        match program_of(source@) {
            Ok(program) => result matches Ok(read) && read@ == program,
            Err(at) => result matches Err(error) && 0 <= at <= source.len() && error@ == (
            ErrorView { position: at as usize, context: context_at(source@, at) }),
        },
{
    let bss_keyword = ['b' as u8, 's' as u8, 's' as u8];
    let raw_keyword = ['r' as u8, 'a' as u8, 'w' as u8];
    assert(bss_keyword@ =~= bss_tag());
    assert(raw_keyword@ =~= raw_tag());
    let (bss, after_bss) = match scan_section(
        source,
        skip_blank(source, 0),
        bss_keyword.as_slice(),
    ) {
        Ok(read) => read,
        Err(at) => {
            return Err(get_error(source, at));
        },
    };
    let (raw, after_raw) = match scan_section(
        source,
        skip_blank(source, after_bss),
        raw_keyword.as_slice(),
    ) {
        Ok(read) => read,
        Err(at) => {
            return Err(get_error(source, at));
        },
    };
    let end = skip_blank(source, after_raw);
    if end == source.len() {
        Ok(Program { bss, raw })
    } else {
        Err(get_error(source, end))
    }
}

} // verus!
