//! The program representation and the rules that turn each instruction into
//! bytes and label references.

use vstd::prelude::*;
use vstd::utf8::encode_utf8;

verus! {

/// One element of an encoded instruction: a byte that is already final, or a
/// reference to a label whose address takes four bytes once it is known.
pub enum Entity {
    Byte(u8),
    Label(Seq<char>),
}

/// What an executable entity stands for.
pub open spec fn entity_of(e: Result<u8, &str>) -> Entity {
    match e {
        Ok(b) => Entity::Byte(b),
        Err(name) => Entity::Label(name@),
    }
}

/// What a sequence of executable entities stands for.
pub open spec fn entities_of(s: Seq<Result<u8, &str>>) -> Seq<Entity> {
    Seq::new(s.len(), |i: int| entity_of(s[i]))
}

/// The bytes of `s`, each as a final entity.
pub open spec fn byte_entities(s: Seq<u8>) -> Seq<Entity> {
    Seq::new(s.len(), |i: int| Entity::Byte(s[i]))
}

/// The four bytes of a 32-bit word, most significant first.
pub open spec fn be_bytes(w: u32) -> Seq<u8> {
    seq![
        (w / 0x100_0000) as u8,
        (w / 0x1_0000 % 0x100) as u8,
        (w / 0x100 % 0x100) as u8,
        (w % 0x100) as u8,
    ]
}

/// Splits a word into its four bytes, most significant first.
pub fn word_bytes(w: u32) -> (out: [u8; 4])
    ensures
        out@ == be_bytes(w),
{
    let b0: u8 = (w >> 24) as u8;
    let b1: u8 = ((w >> 16) & 0xff) as u8;
    let b2: u8 = ((w >> 8) & 0xff) as u8;
    let b3: u8 = (w & 0xff) as u8;
    assert(w >> 24 == w / 0x100_0000) by (bit_vector);
    assert((w >> 16) & 0xff == w / 0x1_0000 % 0x100) by (bit_vector);
    assert((w >> 8) & 0xff == w / 0x100 % 0x100) by (bit_vector);
    assert(w & 0xff == w % 0x100) by (bit_vector);
    let out = [b0, b1, b2, b3];
    assert(out@ =~= be_bytes(w));
    out
}

/// Anything that encodes to a sequence of bytes and label references.
pub trait ToBytes {
    /// The entities that this value encodes to.
    spec fn entities(&self) -> Seq<Entity>;

    /// Encodes the value: `Ok` holds a final byte, `Err` the name of a label
    /// whose address is still to be filled in.
    fn to_bytes(&self) -> (out: Vec<Result<u8, &str>>)
        ensures
            entities_of(out@) == self.entities(),
    ;
}

/// A data directive.
#[derive(Debug, Clone, Copy, PartialEq, Eq)]
pub enum Directive<'a> {
    Asciz(&'a str),
    Ascii(&'a str),
    Db(u8),
    Dw(u32),
}

/// The mathematical value of a [`Directive`].
pub enum DirectiveView {
    Asciz(Seq<char>),
    Ascii(Seq<char>),
    Db(u8),
    Dw(u32),
}

impl<'a> View for Directive<'a> {
    type V = DirectiveView;

    open spec fn view(&self) -> DirectiveView {
        match *self {
            Directive::Asciz(s) => DirectiveView::Asciz(s@),
            Directive::Ascii(s) => DirectiveView::Ascii(s@),
            Directive::Db(b) => DirectiveView::Db(b),
            Directive::Dw(w) => DirectiveView::Dw(w),
        }
    }
}

impl DirectiveView {
    /// The entities of a directive: always final bytes.
    pub open spec fn entities(self) -> Seq<Entity> {
        match self {
            DirectiveView::Asciz(s) => byte_entities(encode_utf8(s).push(0u8)),
            DirectiveView::Ascii(s) => byte_entities(encode_utf8(s)),
            DirectiveView::Db(b) => byte_entities(seq![b]),
            DirectiveView::Dw(w) => byte_entities(be_bytes(w)),
        }
    }
}

/// Appends each byte of `bytes` to `out` as a final entity.
fn push_bytes<'a>(out: &mut Vec<Result<u8, &'a str>>, bytes: &[u8])
    ensures
        entities_of(final(out)@) == entities_of(old(out)@) + byte_entities(bytes@),
{
    let mut i: usize = 0;
    while i < bytes.len()
        invariant
            i <= bytes.len(),
            entities_of(out@) == entities_of(old(out)@) + byte_entities(bytes@.take(i as int)),
        decreases bytes.len() - i,
    {
        let ghost before = out@;
        out.push(Ok(bytes[i]));
        i = i + 1;
        proof {
            assert(entities_of(out@) =~= entities_of(before).push(Entity::Byte(bytes@[i - 1])));
            assert(byte_entities(bytes@.take(i as int)) =~= byte_entities(
                bytes@.take(i - 1),
            ).push(Entity::Byte(bytes@[i - 1])));
        }
    }
    assert(bytes@.take(i as int) =~= bytes@);
}

impl<'a> ToBytes for Directive<'a> {
    open spec fn entities(&self) -> Seq<Entity> {
        self@.entities()
    }

    fn to_bytes(&self) -> (out: Vec<Result<u8, &str>>) {
        let mut out: Vec<Result<u8, &str>> = Vec::new();
        assert(entities_of(out@) =~= Seq::empty());
        match *self {
            Directive::Asciz(s) => {
                push_bytes(&mut out, s.as_bytes());
                let ghost before = out@;
                out.push(Ok(0u8));
                assert(entities_of(out@) =~= entities_of(before).push(Entity::Byte(0u8)));
                assert(entities_of(out@) =~= byte_entities(encode_utf8(s@).push(0u8)));
            },
            Directive::Ascii(s) => {
                push_bytes(&mut out, s.as_bytes());
                assert(entities_of(out@) =~= byte_entities(encode_utf8(s@)));
            },
            Directive::Db(b) => {
                out.push(Ok(b));
                assert(entities_of(out@) =~= byte_entities(seq![b]));
            },
            Directive::Dw(w) => {
                let bytes = word_bytes(w);
                push_bytes(&mut out, bytes.as_slice());
                assert(entities_of(out@) =~= byte_entities(be_bytes(w)));
            },
        }
        out
    }
}

/// The operand of a one-operand instruction.
#[derive(Debug, Clone, Copy, PartialEq, Eq)]
pub enum Word<'a> {
    Literal(u32),
    Label(&'a str),
}

/// The mathematical value of a [`Word`].
pub enum WordView {
    Literal(u32),
    Label(Seq<char>),
}

impl<'a> View for Word<'a> {
    type V = WordView;

    open spec fn view(&self) -> WordView {
        match *self {
            Word::Literal(w) => WordView::Literal(w),
            Word::Label(name) => WordView::Label(name@),
        }
    }
}

impl WordView {
    /// A literal is final; a label stays a single reference.
    pub open spec fn entities(self) -> Seq<Entity> {
        match self {
            WordView::Literal(w) => byte_entities(be_bytes(w)),
            WordView::Label(name) => seq![Entity::Label(name)],
        }
    }
}

/// The instructions without an operand.
#[derive(Debug, Clone, Copy, PartialEq, Eq, Structural)]
pub enum NullaryOp {
    Swap,
    Pop,
    Ret,
    Retp,
    Li,
    Lc,
    Si,
    Sc,
    Psh,
    Or,
    Xor,
    And,
    Eq,
    Ne,
    Lt,
    Gt,
    Le,
    Ge,
    Add,
    Sub,
    Mul,
    Div,
    Mod,
    Pusharg,
}

impl NullaryOp {
    /// The opcode byte of the instruction.
    pub open spec fn code(self) -> u8 {
        match self {
            NullaryOp::Swap => 0x03,
            NullaryOp::Pop => 0x04,
            NullaryOp::Ret => 0x0c,
            NullaryOp::Retp => 0x38,
            NullaryOp::Li => 0x0d,
            NullaryOp::Lc => 0x0e,
            NullaryOp::Si => 0x0f,
            NullaryOp::Sc => 0x10,
            NullaryOp::Psh => 0x11,
            NullaryOp::Or => 0x12,
            NullaryOp::Xor => 0x13,
            NullaryOp::And => 0x14,
            NullaryOp::Eq => 0x15,
            NullaryOp::Ne => 0x16,
            NullaryOp::Lt => 0x17,
            NullaryOp::Gt => 0x18,
            NullaryOp::Le => 0x19,
            NullaryOp::Ge => 0x1a,
            NullaryOp::Add => 0x1d,
            NullaryOp::Sub => 0x1e,
            NullaryOp::Mul => 0x1f,
            NullaryOp::Div => 0x20,
            NullaryOp::Mod => 0x21,
            NullaryOp::Pusharg => 0x34,
        }
    }
}

impl ToBytes for NullaryOp {
    open spec fn entities(&self) -> Seq<Entity> {
        seq![Entity::Byte(self.code())]
    }

    fn to_bytes(&self) -> (out: Vec<Result<u8, &str>>) {
        let byte: u8 = match *self {
            NullaryOp::Swap => 0x03,
            NullaryOp::Pop => 0x04,
            NullaryOp::Ret => 0x0c,
            NullaryOp::Retp => 0x38,
            NullaryOp::Li => 0x0d,
            NullaryOp::Lc => 0x0e,
            NullaryOp::Si => 0x0f,
            NullaryOp::Sc => 0x10,
            NullaryOp::Psh => 0x11,
            NullaryOp::Or => 0x12,
            NullaryOp::Xor => 0x13,
            NullaryOp::And => 0x14,
            NullaryOp::Eq => 0x15,
            NullaryOp::Ne => 0x16,
            NullaryOp::Lt => 0x17,
            NullaryOp::Gt => 0x18,
            NullaryOp::Le => 0x19,
            NullaryOp::Ge => 0x1a,
            NullaryOp::Add => 0x1d,
            NullaryOp::Sub => 0x1e,
            NullaryOp::Mul => 0x1f,
            NullaryOp::Div => 0x20,
            NullaryOp::Mod => 0x21,
            NullaryOp::Pusharg => 0x34,
        };
        let mut out: Vec<Result<u8, &str>> = Vec::new();
        out.push(Ok(byte));
        assert(entities_of(out@) =~= seq![Entity::Byte(self.code())]);
        out
    }
}

/// The instructions with one word operand.
#[derive(Debug, Clone, Copy, PartialEq, Eq, Structural)]
pub enum UnaryOp {
    Rel,
    Imm,
    Jmp,
    Jsr,
    Jsrp,
    Bz,
    Bnz,
    Ent,
    Adj,
    Int,
}

impl UnaryOp {
    /// The opcode byte of the instruction.
    pub open spec fn code(self) -> u8 {
        match self {
            UnaryOp::Rel => 0x02,
            UnaryOp::Imm => 0x05,
            UnaryOp::Jmp => 0x06,
            UnaryOp::Jsr => 0x07,
            UnaryOp::Jsrp => 0x37,
            UnaryOp::Bz => 0x08,
            UnaryOp::Bnz => 0x09,
            UnaryOp::Ent => 0x0a,
            UnaryOp::Adj => 0x0b,
            UnaryOp::Int => 0x22,
        }
    }

    /// The opcode byte of the instruction.
    pub fn to_byte(&self) -> (byte: u8)
        ensures
            byte == self.code(),
    {
        match *self {
            UnaryOp::Rel => 0x02,
            UnaryOp::Imm => 0x05,
            UnaryOp::Jmp => 0x06,
            UnaryOp::Jsr => 0x07,
            UnaryOp::Jsrp => 0x37,
            UnaryOp::Bz => 0x08,
            UnaryOp::Bnz => 0x09,
            UnaryOp::Ent => 0x0a,
            UnaryOp::Adj => 0x0b,
            UnaryOp::Int => 0x22,
        }
    }
}

/// An executable instruction.
#[derive(Debug, Clone, Copy, PartialEq, Eq)]
pub enum Opcode<'a> {
    Nullary(NullaryOp),
    Unary(UnaryOp, Word<'a>),
}

/// The mathematical value of an [`Opcode`].
pub enum OpcodeView {
    Nullary(NullaryOp),
    Unary(UnaryOp, WordView),
}

impl<'a> View for Opcode<'a> {
    type V = OpcodeView;

    open spec fn view(&self) -> OpcodeView {
        match *self {
            Opcode::Nullary(op) => OpcodeView::Nullary(op),
            Opcode::Unary(op, word) => OpcodeView::Unary(op, word@),
        }
    }
}

impl OpcodeView {
    /// The opcode byte, followed for a one-operand instruction by its operand.
    pub open spec fn entities(self) -> Seq<Entity> {
        match self {
            OpcodeView::Nullary(op) => seq![Entity::Byte(op.code())],
            OpcodeView::Unary(op, word) => seq![Entity::Byte(op.code())] + word.entities(),
        }
    }
}

impl<'a> ToBytes for Opcode<'a> {
    open spec fn entities(&self) -> Seq<Entity> {
        self@.entities()
    }

    fn to_bytes(&self) -> (out: Vec<Result<u8, &str>>) {
        match *self {
            Opcode::Nullary(ref op) => op.to_bytes(),
            Opcode::Unary(ref op, Word::Literal(word)) => {
                let mut out: Vec<Result<u8, &str>> = Vec::new();
                out.push(Ok(op.to_byte()));
                let bytes = word_bytes(word);
                push_bytes(&mut out, bytes.as_slice());
                assert(entities_of(out@) =~= self@.entities());
                out
            },
            Opcode::Unary(ref op, Word::Label(label)) => {
                let mut out: Vec<Result<u8, &str>> = Vec::new();
                out.push(Ok(op.to_byte()));
                out.push(Err(label));
                assert(entities_of(out@) =~= self@.entities());
                out
            },
        }
    }
}

/// One line of a program without its label.
#[derive(Debug, Clone, Copy, PartialEq, Eq)]
pub enum Instruction<'a> {
    Directive(Directive<'a>),
    Opcode(Opcode<'a>),
}

/// The mathematical value of an [`Instruction`].
pub enum InstructionView {
    Directive(DirectiveView),
    Opcode(OpcodeView),
}

impl<'a> View for Instruction<'a> {
    type V = InstructionView;

    open spec fn view(&self) -> InstructionView {
        match *self {
            Instruction::Directive(d) => InstructionView::Directive(d@),
            Instruction::Opcode(o) => InstructionView::Opcode(o@),
        }
    }
}

impl InstructionView {
    /// The entities of the directive or of the operation.
    pub open spec fn entities(self) -> Seq<Entity> {
        match self {
            InstructionView::Directive(d) => d.entities(),
            InstructionView::Opcode(o) => o.entities(),
        }
    }
}

impl<'a> ToBytes for Instruction<'a> {
    open spec fn entities(&self) -> Seq<Entity> {
        self@.entities()
    }

    fn to_bytes(&self) -> (out: Vec<Result<u8, &str>>) {
        match *self {
            Instruction::Directive(ref d) => d.to_bytes(),
            Instruction::Opcode(ref o) => o.to_bytes(),
        }
    }
}

/// One line of a program: an instruction, and the label that names its
/// offset if it has one.
#[derive(Debug, Clone, Copy, PartialEq, Eq)]
pub struct Entry<'a> {
    pub label: Option<&'a str>,
    pub entry: Instruction<'a>,
}

/// The mathematical value of an [`Entry`].
pub struct EntryView {
    pub label: Option<Seq<char>>,
    pub entry: InstructionView,
}

impl<'a> View for Entry<'a> {
    type V = EntryView;

    open spec fn view(&self) -> EntryView {
        EntryView {
            label: match self.label {
                Some(name) => Some(name@),
                None => None,
            },
            entry: self.entry@,
        }
    }
}

impl<'a> ToBytes for Entry<'a> {
    open spec fn entities(&self) -> Seq<Entity> {
        self@.entry.entities()
    }

    fn to_bytes(&self) -> (out: Vec<Result<u8, &str>>) {
        self.entry.to_bytes()
    }
}

/// What a sequence of entries stands for.
pub open spec fn entries_of(s: Seq<Entry>) -> Seq<EntryView> {
    Seq::new(s.len(), |i: int| s[i]@)
}

/// A whole program: the `bss` section and the `raw` section, each a list of
/// entries whose offsets start at zero.
#[derive(Debug, PartialEq, Eq)]
pub struct Program<'a> {
    pub bss: Vec<Entry<'a>>,
    pub raw: Vec<Entry<'a>>,
}

/// The mathematical value of a [`Program`].
pub struct ProgramView {
    pub bss: Seq<EntryView>,
    pub raw: Seq<EntryView>,
}

impl<'a> View for Program<'a> {
    type V = ProgramView;

    open spec fn view(&self) -> ProgramView {
        ProgramView { bss: entries_of(self.bss@), raw: entries_of(self.raw@) }
    }
}

} // verus!
