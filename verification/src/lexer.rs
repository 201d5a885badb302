//! The lexical rules of the source language: blanks and comments, names,
//! mnemonics, strings and numbers.

use crate::ast::{NullaryOp, UnaryOp};
use vstd::prelude::*;
use vstd::slice::slice_subrange;
use vstd::string::StringSliceAdditionalSpecFns;
use vstd::utf8::{
    decode_utf8, encode_utf8_decode_utf8, is_leading_byte_width_1, partial_valid_utf8,
    partial_valid_utf8_extend_ascii_block, valid_utf8,
};

verus! {

/// The kinds of byte that the lexical rules tell apart.
#[derive(Debug, Clone, Copy, PartialEq, Eq, Structural)]
pub enum ByteClass {
    /// A space, a tab, a carriage return or a line feed.
    Blank,
    /// A letter, a digit or an underscore.
    Identifier,
    /// A decimal digit.
    Digit,
    /// A decimal digit or one of the letters `a` to `f`.
    LowerHex,
    /// Any byte but a line feed.
    NotNewline,
    /// Any byte but a double quote.
    NotQuote,
}

/// A letter of either case, a decimal digit or an underscore.
pub open spec fn id_char(byte: u8) -> bool {
    ||| 'a' as u8 <= byte <= 'z' as u8
    ||| 'A' as u8 <= byte <= 'Z' as u8
    ||| '0' as u8 <= byte <= '9' as u8
    ||| byte == '_' as u8
}

/// Whether a byte may stand in a name.
pub fn is_id_char(chr: u8) -> (yes: bool)
    ensures
        yes == id_char(chr),
{
    (chr >= 0x41 && chr <= 0x5a) || (chr >= 0x61 && chr <= 0x7a) || (chr >= 0x30 && chr <= 0x39)
        || chr == 0x5f
}

impl ByteClass {
    /// Whether `byte` is of this kind.
    pub open spec fn holds(self, byte: u8) -> bool {
        match self {
            ByteClass::Blank => byte == ' ' as u8 || byte == '\t' as u8 || byte == '\r' as u8
                || byte == '\n' as u8,
            ByteClass::Identifier => id_char(byte),
            ByteClass::Digit => '0' as u8 <= byte <= '9' as u8,
            ByteClass::LowerHex => '0' as u8 <= byte <= '9' as u8 || 'a' as u8 <= byte
                <= 'f' as u8,
            ByteClass::NotNewline => byte != '\n' as u8,
            ByteClass::NotQuote => byte != '"' as u8,
        }
    }

    /// Whether `byte` is of this kind.
    pub fn test(&self, byte: u8) -> (yes: bool)
        ensures
            yes == self.holds(byte),
    {
        match self {
            ByteClass::Blank => byte == 0x20 || byte == 0x09 || byte == 0x0d || byte == 0x0a,
            ByteClass::Identifier => is_id_char(byte),
            ByteClass::Digit => 0x30 <= byte && byte <= 0x39,
            ByteClass::LowerHex => (0x30 <= byte && byte <= 0x39) || (0x61 <= byte && byte
                <= 0x66),
            ByteClass::NotNewline => byte != 0x0a,
            ByteClass::NotQuote => byte != 0x22,
        }
    }
}

/// Where the longest run of bytes of one kind ends that starts at `i`.
pub open spec fn run_end(s: Seq<u8>, i: int, class: ByteClass) -> int
    decreases s.len() - i,
{
    if 0 <= i < s.len() && class.holds(s[i]) {
        run_end(s, i + 1, class)
    } else {
        i
    }
}

/// A run ends within the text, every byte of it is of the kind, and the byte
/// after it, if there is one, is not.
pub proof fn lemma_run_end(s: Seq<u8>, i: int, class: ByteClass)
    requires
        0 <= i <= s.len(),
    ensures
        i <= run_end(s, i, class) <= s.len(),
        forall|k: int| i <= k < run_end(s, i, class) ==> class.holds(#[trigger] s[k]),
        run_end(s, i, class) < s.len() ==> !class.holds(s[run_end(s, i, class)]),
    decreases s.len() - i,
{
    if i < s.len() && class.holds(s[i]) {
        lemma_run_end(s, i + 1, class);
    }
}

/// A stretch of bytes of one kind, followed by the end of the text or by a
/// byte of another kind, is a run.
pub proof fn lemma_run_is(s: Seq<u8>, i: int, end: int, class: ByteClass)
    requires
        0 <= i <= end <= s.len(),
        forall|k: int| i <= k < end ==> class.holds(#[trigger] s[k]),
        end < s.len() ==> !class.holds(s[end]),
    ensures
        run_end(s, i, class) == end,
    decreases end - i,
{
    if i < end {
        assert(class.holds(s[i]));
        lemma_run_is(s, i + 1, end, class);
    }
}

/// Finds the end of the longest run of bytes of one kind from `pos`.
pub fn scan_run(source: &[u8], pos: usize, class: ByteClass) -> (end: usize)
    ensures
        end == run_end(source@, pos as int, class),
        pos <= end,
        pos <= source.len() ==> end <= source.len(),
{
    let mut end = pos;
    while end < source.len() && class.test(source[end])
        invariant
            pos <= end,
            pos <= source.len() ==> end <= source.len(),
            run_end(source@, pos as int, class) == run_end(source@, end as int, class),
        decreases source.len() - end,
    {
        end = end + 1;
    }
    end
}

/// Where the comment ends that starts at `i`: a semicolon, at least one byte
/// other than a line feed, and the line feed that closes the line.
pub open spec fn comment_end(s: Seq<u8>, i: int) -> Option<int> {
    if 0 <= i < s.len() && s[i] == ';' as u8 {
        let end = run_end(s, i + 1, ByteClass::NotNewline);
        if i + 1 < end < s.len() {
            Some(end + 1)
        } else {
            None
        }
    } else {
        None
    }
}

/// Where the blanks and comments end that start at `i`.
pub open spec fn blank_end(s: Seq<u8>, i: int) -> int
    decreases s.len() - i,
{
    if 0 <= i < s.len() && ByteClass::Blank.holds(s[i]) {
        blank_end(s, i + 1)
    } else if let Some(next) = comment_end(s, i) {
        blank_end(s, next)
    } else {
        i
    }
}

/// Blanks and comments end within the text, where neither a blank nor a
/// comment starts.
pub proof fn lemma_blank_end(s: Seq<u8>, i: int)
    requires
        0 <= i <= s.len(),
    ensures
        i <= blank_end(s, i) <= s.len(),
        blank_end(s, blank_end(s, i)) == blank_end(s, i),
        blank_end(s, i) < s.len() ==> !ByteClass::Blank.holds(s[blank_end(s, i)]),
        comment_end(s, blank_end(s, i)) is None,
    decreases s.len() - i,
{
    if i < s.len() && ByteClass::Blank.holds(s[i]) {
        lemma_blank_end(s, i + 1);
    } else if let Some(next) = comment_end(s, i) {
        lemma_run_end(s, i + 1, ByteClass::NotNewline);
        lemma_blank_end(s, next);
    }
}

/// Skips blanks and comments from `pos`.
pub fn skip_blank(source: &[u8], pos: usize) -> (end: usize)
    ensures
        end == blank_end(source@, pos as int),
        pos <= end,
        pos <= source.len() ==> end <= source.len(),
{
    let mut end = pos;
    loop
        invariant
            pos <= end,
            pos <= source.len() ==> end <= source.len(),
            blank_end(source@, pos as int) == blank_end(source@, end as int),
        ensures
            pos <= end,
            pos <= source.len() ==> end <= source.len(),
            end == blank_end(source@, pos as int),
        decreases source.len() - end,
    {
        if end >= source.len() {
            break ;
        }
        let byte = source[end];
        if ByteClass::Blank.test(byte) {
            end = end + 1;
        } else if byte == 0x3b {
            let stop = scan_run(source, end + 1, ByteClass::NotNewline);
            if stop > end + 1 && stop < source.len() {
                end = stop + 1;
            } else {
                break ;
            }
        } else {
            break ;
        }
    }
    end
}

/// The bytes of `tag` stand in `s` at `i`.
pub open spec fn has_tag(s: Seq<u8>, i: int, tag: Seq<u8>) -> bool {
    &&& 0 <= i
    &&& i + tag.len() <= s.len()
    &&& s.subrange(i, i + tag.len()) == tag
}

/// Whether the bytes of `tag` stand in `source` at `pos`.
pub fn at_tag(source: &[u8], pos: usize, tag: &[u8]) -> (yes: bool)
    ensures
        yes == has_tag(source@, pos as int, tag@),
{
    if pos > source.len() || tag.len() > source.len() - pos {
        return false;
    }
    let mut k: usize = 0;
    while k < tag.len()
        invariant
            k <= tag.len(),
            pos + tag.len() <= source.len(),
            source@.subrange(pos as int, pos + k) == tag@.take(k as int),
        decreases tag.len() - k,
    {
        if source[pos + k] != tag[k] {
            proof {
                assert(source@.subrange(pos as int, pos + tag.len())[k as int] != tag@[k as int]);
            }
            return false;
        }
        proof {
            assert(source@.subrange(pos as int, pos + k + 1) =~= source@.subrange(
                pos as int,
                pos + k,
            ).push(source@[pos + k]));
            assert(tag@.take(k + 1) =~= tag@.take(k as int).push(tag@[k as int]));
        }
        k = k + 1;
    }
    proof {
        assert(tag@.take(k as int) =~= tag@);
    }
    true
}

/// Whether the byte `byte` stands in `source` at `pos`.
pub fn at_byte(source: &[u8], pos: usize, byte: u8) -> (yes: bool)
    ensures
        yes == (pos < source.len() && source@[pos as int] == byte),
{
    pos < source.len() && source[pos] == byte
}

impl NullaryOp {
    /// The mnemonic of the instruction.
    pub open spec fn mnemonic(self) -> Seq<u8> {
        match self {
            NullaryOp::Psh => seq!['P' as u8, 'S' as u8, 'H' as u8],
            NullaryOp::Pusharg => seq!['P' as u8, 'U' as u8, 'S' as u8, 'H' as u8, 'A' as u8, 'R' as u8, 'G' as u8],
            NullaryOp::Li => seq!['L' as u8, 'I' as u8],
            NullaryOp::Lc => seq!['L' as u8, 'C' as u8],
            NullaryOp::Si => seq!['S' as u8, 'I' as u8],
            NullaryOp::Sc => seq!['S' as u8, 'C' as u8],
            NullaryOp::Swap => seq!['S' as u8, 'W' as u8, 'A' as u8, 'P' as u8],
            NullaryOp::Pop => seq!['P' as u8, 'O' as u8, 'P' as u8],
            NullaryOp::Retp => seq!['R' as u8, 'E' as u8, 'T' as u8, 'P' as u8],
            NullaryOp::Ret => seq!['R' as u8, 'E' as u8, 'T' as u8],
            NullaryOp::Eq => seq!['E' as u8, 'Q' as u8],
            NullaryOp::Ne => seq!['N' as u8, 'E' as u8],
            NullaryOp::Lt => seq!['L' as u8, 'T' as u8],
            NullaryOp::Gt => seq!['G' as u8, 'T' as u8],
            NullaryOp::Le => seq!['L' as u8, 'E' as u8],
            NullaryOp::Ge => seq!['G' as u8, 'E' as u8],
            NullaryOp::Add => seq!['A' as u8, 'D' as u8, 'D' as u8],
            NullaryOp::Sub => seq!['S' as u8, 'U' as u8, 'B' as u8],
            NullaryOp::Mul => seq!['M' as u8, 'U' as u8, 'L' as u8],
            NullaryOp::Div => seq!['D' as u8, 'I' as u8, 'V' as u8],
            NullaryOp::Mod => seq!['M' as u8, 'O' as u8, 'D' as u8],
            NullaryOp::And => seq!['A' as u8, 'N' as u8, 'D' as u8],
            NullaryOp::Or => seq!['O' as u8, 'R' as u8],
            NullaryOp::Xor => seq!['X' as u8, 'O' as u8, 'R' as u8],
        }
    }

    /// The mnemonic of the instruction.
    pub fn name(&self) -> (text: Vec<u8>)
        ensures
            text@ == self.mnemonic(),
    {
        match self {
            NullaryOp::Psh => vec!['P' as u8, 'S' as u8, 'H' as u8],
            NullaryOp::Pusharg => vec!['P' as u8, 'U' as u8, 'S' as u8, 'H' as u8, 'A' as u8, 'R' as u8, 'G' as u8],
            NullaryOp::Li => vec!['L' as u8, 'I' as u8],
            NullaryOp::Lc => vec!['L' as u8, 'C' as u8],
            NullaryOp::Si => vec!['S' as u8, 'I' as u8],
            NullaryOp::Sc => vec!['S' as u8, 'C' as u8],
            NullaryOp::Swap => vec!['S' as u8, 'W' as u8, 'A' as u8, 'P' as u8],
            NullaryOp::Pop => vec!['P' as u8, 'O' as u8, 'P' as u8],
            NullaryOp::Retp => vec!['R' as u8, 'E' as u8, 'T' as u8, 'P' as u8],
            NullaryOp::Ret => vec!['R' as u8, 'E' as u8, 'T' as u8],
            NullaryOp::Eq => vec!['E' as u8, 'Q' as u8],
            NullaryOp::Ne => vec!['N' as u8, 'E' as u8],
            NullaryOp::Lt => vec!['L' as u8, 'T' as u8],
            NullaryOp::Gt => vec!['G' as u8, 'T' as u8],
            NullaryOp::Le => vec!['L' as u8, 'E' as u8],
            NullaryOp::Ge => vec!['G' as u8, 'E' as u8],
            NullaryOp::Add => vec!['A' as u8, 'D' as u8, 'D' as u8],
            NullaryOp::Sub => vec!['S' as u8, 'U' as u8, 'B' as u8],
            NullaryOp::Mul => vec!['M' as u8, 'U' as u8, 'L' as u8],
            NullaryOp::Div => vec!['D' as u8, 'I' as u8, 'V' as u8],
            NullaryOp::Mod => vec!['M' as u8, 'O' as u8, 'D' as u8],
            NullaryOp::And => vec!['A' as u8, 'N' as u8, 'D' as u8],
            NullaryOp::Or => vec!['O' as u8, 'R' as u8],
            NullaryOp::Xor => vec!['X' as u8, 'O' as u8, 'R' as u8],
        }
    }
}

impl UnaryOp {
    /// The mnemonic of the instruction.
    pub open spec fn mnemonic(self) -> Seq<u8> {
        match self {
            UnaryOp::Imm => seq!['I' as u8, 'M' as u8, 'M' as u8],
            UnaryOp::Rel => seq!['R' as u8, 'E' as u8, 'L' as u8],
            UnaryOp::Jmp => seq!['J' as u8, 'M' as u8, 'P' as u8],
            UnaryOp::Bz => seq!['B' as u8, 'Z' as u8],
            UnaryOp::Bnz => seq!['B' as u8, 'N' as u8, 'Z' as u8],
            UnaryOp::Ent => seq!['E' as u8, 'N' as u8, 'T' as u8],
            UnaryOp::Adj => seq!['A' as u8, 'D' as u8, 'J' as u8],
            UnaryOp::Jsrp => seq!['J' as u8, 'S' as u8, 'R' as u8, 'P' as u8],
            UnaryOp::Jsr => seq!['J' as u8, 'S' as u8, 'R' as u8],
            UnaryOp::Int => seq!['I' as u8, 'N' as u8, 'T' as u8],
        }
    }

    /// The mnemonic of the instruction.
    pub fn name(&self) -> (text: Vec<u8>)
        ensures
            text@ == self.mnemonic(),
    {
        match self {
            UnaryOp::Imm => vec!['I' as u8, 'M' as u8, 'M' as u8],
            UnaryOp::Rel => vec!['R' as u8, 'E' as u8, 'L' as u8],
            UnaryOp::Jmp => vec!['J' as u8, 'M' as u8, 'P' as u8],
            UnaryOp::Bz => vec!['B' as u8, 'Z' as u8],
            UnaryOp::Bnz => vec!['B' as u8, 'N' as u8, 'Z' as u8],
            UnaryOp::Ent => vec!['E' as u8, 'N' as u8, 'T' as u8],
            UnaryOp::Adj => vec!['A' as u8, 'D' as u8, 'J' as u8],
            UnaryOp::Jsrp => vec!['J' as u8, 'S' as u8, 'R' as u8, 'P' as u8],
            UnaryOp::Jsr => vec!['J' as u8, 'S' as u8, 'R' as u8],
            UnaryOp::Int => vec!['I' as u8, 'N' as u8, 'T' as u8],
        }
    }
}

/// The instructions without an operand, in the order in which their
/// mnemonics are tried: `RETP` before `RET`, which starts it.
pub open spec fn nullary_order() -> Seq<NullaryOp> {
    seq![
        NullaryOp::Psh,
        NullaryOp::Pusharg,
        NullaryOp::Li,
        NullaryOp::Lc,
        NullaryOp::Si,
        NullaryOp::Sc,
        NullaryOp::Swap,
        NullaryOp::Pop,
        NullaryOp::Retp,
        NullaryOp::Ret,
        NullaryOp::Eq,
        NullaryOp::Ne,
        NullaryOp::Lt,
        NullaryOp::Gt,
        NullaryOp::Le,
        NullaryOp::Ge,
        NullaryOp::Add,
        NullaryOp::Sub,
        NullaryOp::Mul,
        NullaryOp::Div,
        NullaryOp::Mod,
        NullaryOp::And,
        NullaryOp::Or,
        NullaryOp::Xor,
    ]
}

/// The instructions with an operand, in the order in which their mnemonics
/// are tried: `JSRP` before `JSR`, which starts it.
pub open spec fn unary_order() -> Seq<UnaryOp> {
    seq![
        UnaryOp::Imm,
        UnaryOp::Rel,
        UnaryOp::Jmp,
        UnaryOp::Bz,
        UnaryOp::Bnz,
        UnaryOp::Ent,
        UnaryOp::Adj,
        UnaryOp::Jsrp,
        UnaryOp::Jsr,
        UnaryOp::Int,
    ]
}

/// The first instruction without an operand, from place `k` of the order on,
/// whose mnemonic stands in `s` at `i`.
pub open spec fn nullary_from(s: Seq<u8>, i: int, k: int) -> Option<NullaryOp>
    decreases nullary_order().len() - k,
{
    if k < 0 || k >= nullary_order().len() {
        None
    } else if has_tag(s, i, nullary_order()[k].mnemonic()) {
        Some(nullary_order()[k])
    } else {
        nullary_from(s, i, k + 1)
    }
}

/// The first instruction with an operand, from place `k` of the order on,
/// whose mnemonic stands in `s` at `i`.
pub open spec fn unary_from(s: Seq<u8>, i: int, k: int) -> Option<UnaryOp>
    decreases unary_order().len() - k,
{
    if k < 0 || k >= unary_order().len() {
        None
    } else if has_tag(s, i, unary_order()[k].mnemonic()) {
        Some(unary_order()[k])
    } else {
        unary_from(s, i, k + 1)
    }
}

/// The instruction without an operand whose mnemonic stands in `s` at `i`.
pub open spec fn nullary_at(s: Seq<u8>, i: int) -> Option<NullaryOp> {
    nullary_from(s, i, 0)
}

/// The instruction with an operand whose mnemonic stands in `s` at `i`.
pub open spec fn unary_at(s: Seq<u8>, i: int) -> Option<UnaryOp> {
    unary_from(s, i, 0)
}

/// Finds the instruction without an operand whose mnemonic stands at `pos`.
pub fn scan_nullary(source: &[u8], pos: usize) -> (found: Option<NullaryOp>)
    ensures
        found == nullary_at(source@, pos as int),
        found matches Some(op) ==> pos + op.mnemonic().len() <= source.len(),
{
    let order = [
        NullaryOp::Psh,
        NullaryOp::Pusharg,
        NullaryOp::Li,
        NullaryOp::Lc,
        NullaryOp::Si,
        NullaryOp::Sc,
        NullaryOp::Swap,
        NullaryOp::Pop,
        NullaryOp::Retp,
        NullaryOp::Ret,
        NullaryOp::Eq,
        NullaryOp::Ne,
        NullaryOp::Lt,
        NullaryOp::Gt,
        NullaryOp::Le,
        NullaryOp::Ge,
        NullaryOp::Add,
        NullaryOp::Sub,
        NullaryOp::Mul,
        NullaryOp::Div,
        NullaryOp::Mod,
        NullaryOp::And,
        NullaryOp::Or,
        NullaryOp::Xor,
    ];
    assert(order@ =~= nullary_order());
    let mut k: usize = 0;
    while k < order.len()
        invariant
            k <= order.len(),
            order@ == nullary_order(),
            nullary_at(source@, pos as int) == nullary_from(source@, pos as int, k as int),
        decreases order.len() - k,
    {
        let name = order[k].name();
        if at_tag(source, pos, name.as_slice()) {
            return Some(order[k]);
        }
        k = k + 1;
    }
    None
}

/// Finds the instruction with an operand whose mnemonic stands at `pos`.
pub fn scan_unary(source: &[u8], pos: usize) -> (found: Option<UnaryOp>)
    ensures
        found == unary_at(source@, pos as int),
        found matches Some(op) ==> pos + op.mnemonic().len() <= source.len(),
{
    let order = [
        UnaryOp::Imm,
        UnaryOp::Rel,
        UnaryOp::Jmp,
        UnaryOp::Bz,
        UnaryOp::Bnz,
        UnaryOp::Ent,
        UnaryOp::Adj,
        UnaryOp::Jsrp,
        UnaryOp::Jsr,
        UnaryOp::Int,
    ];
    assert(order@ =~= unary_order());
    let mut k: usize = 0;
    while k < order.len()
        invariant
            k <= order.len(),
            order@ == unary_order(),
            unary_at(source@, pos as int) == unary_from(source@, pos as int, k as int),
        decreases order.len() - k,
    {
        let name = order[k].name();
        if at_tag(source, pos, name.as_slice()) {
            return Some(order[k]);
        }
        k = k + 1;
    }
    None
}

/// What looking for one form of the grammar at one place gives: the form's
/// value and the place after it, no such form, or a fault that ends the
/// whole parse, with the place where it lies.
pub enum Parsed<T> {
    Match(T, int),
    Miss,
    Fault(int),
}

/// What a scanner returns: see [`Parsed`].
pub enum Scan<T> {
    Match(T, usize),
    Miss,
    Fault(usize),
}

impl<T: View> View for Scan<T> {
    type V = Parsed<T::V>;

    open spec fn view(&self) -> Parsed<T::V> {
        match *self {
            Scan::Match(value, next) => Parsed::Match(value@, next as int),
            Scan::Miss => Parsed::Miss,
            Scan::Fault(at) => Parsed::Fault(at as int),
        }
    }
}

/// The value of a decimal digit or of one of the letters `a` to `f`.
pub open spec fn digit_value(byte: u8) -> nat
    recommends
        ByteClass::LowerHex.holds(byte),
{
    if byte >= 'a' as u8 {
        (byte - 'a' as u8 + 10) as nat
    } else {
        (byte - '0' as u8) as nat
    }
}

/// The number that `digits` write in the given base, the most significant
/// digit first.
pub open spec fn number(digits: Seq<u8>, base: nat) -> nat
    decreases digits.len(),
{
    if digits.len() == 0 {
        0
    } else {
        number(digits.drop_last(), base) * base + digit_value(digits.last())
    }
}

/// The number of values that `count` hexadecimal digits can write.
pub open spec fn hex_span(count: nat) -> nat
    decreases count,
{
    if count == 0 {
        1
    } else {
        16 * hex_span((count - 1) as nat)
    }
}

/// The hexadecimal literal at `i`: `0x` and at least one digit, of which at
/// most eight count; digits beyond the eighth are left where they are.
pub open spec fn hex_at(s: Seq<u8>, i: int) -> Option<(u32, int)> {
    if has_tag(s, i, seq!['0' as u8, 'x' as u8]) {
        let end = run_end(s, i + 2, ByteClass::LowerHex);
        let stop = if end > i + 10 {
            i + 10
        } else {
            end
        };
        if stop > i + 2 {
            Some((number(s.subrange(i + 2, stop), 16) as u32, stop))
        } else {
            None
        }
    } else {
        None
    }
}

/// The decimal literal at `i`: all the digits that stand there. One that
/// does not fit in 32 bits is a fault.
pub open spec fn decimal_at(s: Seq<u8>, i: int) -> Parsed<u32> {
    let end = run_end(s, i, ByteClass::Digit);
    if 0 <= i < end {
        let value = number(s.subrange(i, end), 10);
        if value <= u32::MAX {
            Parsed::Match(value as u32, end)
        } else {
            Parsed::Fault(i)
        }
    } else {
        Parsed::Miss
    }
}

/// The two's-complement negation of a 32-bit word.
pub open spec fn negated(value: u32) -> u32 {
    if value == 0 {
        0
    } else {
        (0x1_0000_0000 - value) as u32
    }
}

/// The numeric literal at `i`: an optional minus sign, blanks, and a
/// hexadecimal or else a decimal number. With the sign the literal is the
/// negation of the number.
pub open spec fn literal_at(s: Seq<u8>, i: int) -> Parsed<u32> {
    let negative = 0 <= i < s.len() && s[i] == '-' as u8;
    let start = blank_end(
        s,
        if negative {
            i + 1
        } else {
            i
        },
    );
    let unsigned = match hex_at(s, start) {
        Some((value, next)) => Parsed::Match(value, next),
        None => decimal_at(s, start),
    };
    match unsigned {
        Parsed::Match(value, next) => Parsed::Match(
            if negative {
                negated(value)
            } else {
                value
            },
            next,
        ),
        Parsed::Miss => Parsed::Miss,
        Parsed::Fault(at) => Parsed::Fault(at),
    }
}

/// The number that a longer row of digits writes is no smaller.
pub proof fn lemma_number_grows(digits: Seq<u8>, k: int, base: nat)
    requires
        0 <= k <= digits.len(),
        base >= 1,
    ensures
        number(digits.take(k), base) <= number(digits, base),
    decreases digits.len(),
{
    if k == digits.len() {
        assert(digits.take(k) =~= digits);
    } else {
        lemma_number_grows(digits.drop_last(), k, base);
        assert(digits.drop_last().take(k) =~= digits.take(k));
        let front = number(digits.drop_last(), base);
        assert(front * base >= front) by (nonlinear_arith)
            requires
                base >= 1,
                front >= 0,
        ;
    }
}

/// The value of a hexadecimal digit.
fn digit_of(byte: u8) -> (value: u32)
    requires
        ByteClass::LowerHex.holds(byte),
    ensures
        value == digit_value(byte),
        value < 16,
        ByteClass::Digit.holds(byte) ==> value < 10,
{
    if byte >= 0x61 {
        (byte - 0x61 + 10) as u32
    } else {
        (byte - 0x30) as u32
    }
}

/// Reads the hexadecimal literal at `pos`.
pub fn scan_hex(source: &[u8], pos: usize) -> (found: Option<(u32, usize)>)
    ensures
        match hex_at(source@, pos as int) {
            Some((value, next)) => found == Some((value, next as usize)) && pos < next
                <= source.len(),
            None => found is None,
        },
{
    let prefix = ['0' as u8, 'x' as u8];
    assert(prefix@ =~= seq!['0' as u8, 'x' as u8]);
    if !at_tag(source, pos, prefix.as_slice()) {
        return None;
    }
    assert(pos + 2 <= source.len());
    let start = pos + 2;
    let end = scan_run(source, start, ByteClass::LowerHex);
    let stop = if end - start > 8 {
        start + 8
    } else {
        end
    };
    if stop == start {
        return None;
    }
    proof {
        lemma_run_end(source@, start as int, ByteClass::LowerHex);
    }
    let mut value: u32 = 0;
    let mut at = start;
    assert(source@.subrange(start as int, start as int) =~= Seq::<u8>::empty());
    while at < stop
        invariant
            start <= at <= stop <= source.len(),
            stop - start <= 8,
            forall|k: int| start <= k < stop ==> ByteClass::LowerHex.holds(#[trigger] source@[k]),
            value == number(source@.subrange(start as int, at as int), 16),
            value < hex_span((at - start) as nat),
        decreases stop - at,
    {
        let digit = digit_of(source[at]);
        proof {
            let more = source@.subrange(start as int, at + 1);
            assert(more.drop_last() =~= source@.subrange(start as int, at as int));
            assert(more.last() == source@[at as int]);
            lemma_hex_span_bound((at - start) as nat);
            assert(hex_span((at + 1 - start) as nat) == 16 * hex_span((at - start) as nat));
        }
        value = value * 16 + digit;
        at = at + 1;
    }
    Some((value, stop))
}

/// Up to eight hexadecimal digits write a 32-bit number.
proof fn lemma_hex_span_bound(count: nat)
    requires
        count <= 8,
    ensures
        hex_span(count) <= 0x1_0000_0000,
        count < 8 ==> hex_span(count) <= 0x1000_0000,
{
    reveal_with_fuel(hex_span, 9);
}

/// Reads the decimal literal at `pos`.
pub fn scan_decimal(source: &[u8], pos: usize) -> (found: Scan<u32>)
    ensures
        found@ == decimal_at(source@, pos as int),
        found matches Scan::Match(_, next) ==> pos < next <= source.len(),
{
    let end = scan_run(source, pos, ByteClass::Digit);
    if end == pos {
        return Scan::Miss;
    }
    proof {
        lemma_run_end(source@, pos as int, ByteClass::Digit);
    }
    let ghost digits = source@.subrange(pos as int, end as int);
    let mut value: u64 = 0;
    let mut at = pos;
    assert(source@.subrange(pos as int, pos as int) =~= Seq::<u8>::empty());
    while at < end
        invariant
            pos <= at <= end <= source.len(),
            pos < end,
            end == run_end(source@, pos as int, ByteClass::Digit),
            digits == source@.subrange(pos as int, end as int),
            forall|k: int| pos <= k < end ==> ByteClass::Digit.holds(#[trigger] source@[k]),
            value == number(source@.subrange(pos as int, at as int), 10),
            value <= u32::MAX,
        decreases end - at,
    {
        let digit = digit_of(source[at]);
        proof {
            let more = source@.subrange(pos as int, at + 1);
            assert(more.drop_last() =~= source@.subrange(pos as int, at as int));
            assert(more.last() == source@[at as int]);
            assert(digits.take(at + 1 - pos) =~= more);
            lemma_number_grows(digits, at + 1 - pos, 10);
        }
        value = value * 10 + digit as u64;
        at = at + 1;
        if value > u32::MAX as u64 {
            return Scan::Fault(pos);
        }
    }
    Scan::Match(value as u32, end)
}

/// The literal for a number read with or without a minus sign before it.
pub fn handle_negation(negative: Option<char>, value: u32) -> (word: u32)
    ensures
        word == if negative is Some {
            negated(value)
        } else {
            value
        },
{
    if let Some(_) = negative {
        if value == 0 {
            0
        } else {
            (u32::MAX - value) + 1
        }
    } else {
        value
    }
}

/// Reads the numeric literal at `pos`.
pub fn scan_literal(source: &[u8], pos: usize) -> (found: Scan<u32>)
    ensures
        found@ == literal_at(source@, pos as int),
        found matches Scan::Match(_, next) ==> pos < next <= source.len(),
{
    let negative = if at_byte(source, pos, 0x2d) {
        Some('-')
    } else {
        None
    };
    let start = skip_blank(
        source,
        if negative.is_some() {
            pos + 1
        } else {
            pos
        },
    );
    let unsigned = match scan_hex(source, start) {
        Some((value, next)) => Scan::Match(value, next),
        None => scan_decimal(source, start),
    };
    match unsigned {
        Scan::Match(value, next) => Scan::Match(handle_negation(negative, value), next),
        Scan::Miss => Scan::Miss,
        Scan::Fault(at) => Scan::Fault(at),
    }
}

/// `core::str::Utf8Error`, the error of `core::str::from_utf8`. Nothing is
/// claimed of what it holds.
#[verifier::external_type_specification]
#[verifier::external_body]
pub struct ExUtf8Error(core::str::Utf8Error);

/// `core::str::from_utf8` accepts exactly the byte strings that are valid
/// UTF-8, and the string slice that it returns has the given bytes.
pub assume_specification[ core::str::from_utf8 ](v: &[u8]) -> (r: Result<
    &str,
    core::str::Utf8Error,
>)
    ensures
        r is Ok <==> valid_utf8(v@),
        r matches Ok(s) ==> s.spec_bytes() == v@,
;

/// Bytes below 128 are valid UTF-8.
pub proof fn lemma_ascii_is_valid(bytes: Seq<u8>)
    requires
        forall|k: int| 0 <= k < bytes.len() ==> #[trigger] bytes[k] < 0x80,
    ensures
        valid_utf8(bytes),
{
    assert(bytes.subrange(0, 0) =~= Seq::<u8>::empty());
    assert(partial_valid_utf8(bytes, 0));
    assert forall|k: int| 0 <= k < bytes.len() implies #[trigger] is_leading_byte_width_1(
        bytes[k],
    ) by {
        assert(bytes[k] < 0x80);
    }
    partial_valid_utf8_extend_ascii_block(bytes, 0, bytes.len() as int);
    assert(bytes.subrange(0, bytes.len() as int) =~= bytes);
}

/// The text that the bytes from `from` to `to` hold, if there are such bytes
/// and they are valid UTF-8.
pub fn text_between<'a>(source: &'a [u8], from: usize, to: usize) -> (text: Option<&'a str>)
    ensures
        text is Some <==> from <= to <= source.len() && valid_utf8(
            source@.subrange(from as int, to as int),
        ),
        text matches Some(t) ==> t@ == decode_utf8(source@.subrange(from as int, to as int)),
{
    if from > to || to > source.len() {
        return None;
    }
    match core::str::from_utf8(slice_subrange(source, from, to)) {
        Ok(t) => {
            proof {
                encode_utf8_decode_utf8(t@);
            }
            Some(t)
        },
        Err(_) => None,
    }
}

/// The name at `i`: the longest row of letters, digits and underscores.
pub open spec fn name_at(s: Seq<u8>, i: int) -> Option<(Seq<char>, int)> {
    let end = run_end(s, i, ByteClass::Identifier);
    if 0 <= i < end {
        Some((decode_utf8(s.subrange(i, end)), end))
    } else {
        None
    }
}

/// The label at `i`: a name and the colon after it.
pub open spec fn label_at(s: Seq<u8>, i: int) -> Option<(Seq<char>, int)> {
    match name_at(s, i) {
        Some((name, end)) => if end < s.len() && s[end] == ':' as u8 {
            Some((name, end + 1))
        } else {
            None
        },
        None => None,
    }
}

/// The string at `i`: a double quote, at least one byte other than a double
/// quote, and a closing double quote. What stands between the quotes is the
/// string as it is, and has to be valid UTF-8.
pub open spec fn string_at(s: Seq<u8>, i: int) -> Option<(Seq<char>, int)> {
    if 0 <= i < s.len() && s[i] == '"' as u8 {
        let end = run_end(s, i + 1, ByteClass::NotQuote);
        if i + 1 < end < s.len() && valid_utf8(s.subrange(i + 1, end)) {
            Some((decode_utf8(s.subrange(i + 1, end)), end + 1))
        } else {
            None
        }
    } else {
        None
    }
}

/// Reads the name at `pos`.
pub fn scan_name<'a>(source: &'a [u8], pos: usize) -> (found: Option<(&'a str, usize)>)
    ensures
        match name_at(source@, pos as int) {
            Some((name, next)) => found matches Some((text, end)) && text@ == name && end == next
                && pos < end <= source.len(),
            None => found is None,
        },
{
    let end = scan_run(source, pos, ByteClass::Identifier);
    if end == pos {
        return None;
    }
    proof {
        lemma_run_end(source@, pos as int, ByteClass::Identifier);
        lemma_ascii_is_valid(source@.subrange(pos as int, end as int));
    }
    match text_between(source, pos, end) {
        Some(text) => Some((text, end)),
        None => None,
    }
}

/// Reads the label at `pos`.
pub fn scan_label<'a>(source: &'a [u8], pos: usize) -> (found: Option<(&'a str, usize)>)
    ensures
        match label_at(source@, pos as int) {
            Some((name, next)) => found matches Some((text, end)) && text@ == name && end == next
                && pos < end <= source.len(),
            None => found is None,
        },
{
    match scan_name(source, pos) {
        Some((text, end)) => if at_byte(source, end, 0x3a) {
            Some((text, end + 1))
        } else {
            None
        },
        None => None,
    }
}

/// Reads the string at `pos`.
pub fn scan_string<'a>(source: &'a [u8], pos: usize) -> (found: Option<(&'a str, usize)>)
    ensures
        match string_at(source@, pos as int) {
            Some((value, next)) => found matches Some((text, end)) && text@ == value && end == next
                && pos < end <= source.len(),
            None => found is None,
        },
{
    if !at_byte(source, pos, 0x22) {
        return None;
    }
    let end = scan_run(source, pos + 1, ByteClass::NotQuote);
    if end == pos + 1 || end >= source.len() {
        return None;
    }
    match text_between(source, pos + 1, end) {
        Some(text) => Some((text, end + 1)),
        None => None,
    }
}

/// A literal that was found ends within the text, after the place where it
/// starts.
pub proof fn lemma_literal_bounds(s: Seq<u8>, i: int)
    requires
        0 <= i <= s.len(),
    ensures
        literal_at(s, i) matches Parsed::Match(_, next) ==> i < next <= s.len(),
        literal_at(s, i) matches Parsed::Fault(at) ==> i <= at < s.len(),
{
    let negative = s.len() > i && s[i] == '-' as u8;
    let from = if negative {
        i + 1
    } else {
        i
    };
    lemma_blank_end(s, from);
    let start = blank_end(s, from);
    lemma_run_end(s, start, ByteClass::Digit);
    if has_tag(s, start, seq!['0' as u8, 'x' as u8]) {
        lemma_run_end(s, start + 2, ByteClass::LowerHex);
    }
}

/// A name, a label or a string that was found ends within the text, after
/// the place where it starts.
pub proof fn lemma_text_bounds(s: Seq<u8>, i: int)
    requires
        0 <= i <= s.len(),
    ensures
        name_at(s, i) matches Some((_, next)) ==> i < next <= s.len(),
        label_at(s, i) matches Some((_, next)) ==> i < next <= s.len(),
        string_at(s, i) matches Some((_, next)) ==> i < next <= s.len(),
{
    lemma_run_end(s, i, ByteClass::Identifier);
    if i < s.len() {
        lemma_run_end(s, i + 1, ByteClass::NotQuote);
    }
}

/// The mnemonic of the instruction found at a place stands there, and is
/// not empty.
pub proof fn lemma_nullary_found(s: Seq<u8>, i: int, k: int)
    requires
        0 <= k,
    ensures
        nullary_from(s, i, k) matches Some(op) ==> has_tag(s, i, op.mnemonic())
            && op.mnemonic().len() >= 2,
    decreases nullary_order().len() - k,
{
    if k < nullary_order().len() && !has_tag(s, i, nullary_order()[k].mnemonic()) {
        lemma_nullary_found(s, i, k + 1);
    }
}

/// The mnemonic of the instruction found at a place stands there, and is
/// not empty.
pub proof fn lemma_unary_found(s: Seq<u8>, i: int, k: int)
    requires
        0 <= k,
    ensures
        unary_from(s, i, k) matches Some(op) ==> has_tag(s, i, op.mnemonic())
            && op.mnemonic().len() >= 2,
    decreases unary_order().len() - k,
{
    if k < unary_order().len() && !has_tag(s, i, unary_order()[k].mnemonic()) {
        lemma_unary_found(s, i, k + 1);
    }
}

/// A mnemonic is at least two upper-case letters.
pub proof fn lemma_nullary_letters(op: NullaryOp)
    ensures
        op.mnemonic().len() >= 2,
        forall|k: int|
            0 <= k < op.mnemonic().len() ==> 'A' as u8 <= #[trigger] op.mnemonic()[k] <= 'Z' as u8,
{
}

/// A mnemonic is at least two upper-case letters.
pub proof fn lemma_unary_letters(op: UnaryOp)
    ensures
        op.mnemonic().len() >= 2,
        forall|k: int|
            0 <= k < op.mnemonic().len() ==> 'A' as u8 <= #[trigger] op.mnemonic()[k] <= 'Z' as u8,
{
}

} // verus!
