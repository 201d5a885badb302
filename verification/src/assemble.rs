//! The two passes that lay a program out and resolve its labels.
//!
//! The first pass walks a section, binds each label to the byte offset at
//! which it stands and collects the section's entities. The second pass
//! replaces each label reference by the four bytes of its address. Both
//! sections share one symbol table, while the offsets of each start at zero.

use crate::ast::{
    be_bytes, entities_of, entity_of, entries_of, word_bytes, Entity, Entry, EntryView, Program,
    ProgramView, ToBytes,
};
use rustc_serialize::base64::{ToBase64, STANDARD};
use vstd::hash_map::StringHashMap;
use vstd::prelude::*;

verus! {

/// The number of bytes that an entity takes in the output.
pub open spec fn entity_width(e: Entity) -> nat {
    match e {
        Entity::Byte(_) => 1,
        Entity::Label(_) => 4,
    }
}

/// The number of bytes that a stream of entities takes in the output.
pub open spec fn stream_width(s: Seq<Entity>) -> nat
    decreases s.len(),
{
    if s.len() == 0 {
        0
    } else {
        stream_width(s.drop_last()) + entity_width(s.last())
    }
}

/// The entities of a section: those of its entries, in order.
pub open spec fn section_entities(section: Seq<EntryView>) -> Seq<Entity>
    decreases section.len(),
{
    if section.len() == 0 {
        Seq::empty()
    } else {
        section_entities(section.drop_last()) + section.last().entry.entities()
    }
}

/// The number of bytes that a section takes in the output.
pub open spec fn section_size(section: Seq<EntryView>) -> nat {
    stream_width(section_entities(section))
}

/// The symbol table after the labels of `section` were added to `symbols`,
/// each bound to the offset of its entry within the section.
pub open spec fn bind_labels(section: Seq<EntryView>, symbols: Map<Seq<char>, u32>) -> Map<
    Seq<char>,
    u32,
>
    decreases section.len(),
{
    if section.len() == 0 {
        symbols
    } else {
        let before = bind_labels(section.drop_last(), symbols);
        match section.last().label {
            Some(name) => before.insert(name, section_size(section.drop_last()) as u32),
            None => before,
        }
    }
}

/// The index of the first entry of `section` whose label is already bound,
/// by `symbols` or by an earlier entry of the section.
pub open spec fn first_clash(section: Seq<EntryView>, symbols: Map<Seq<char>, u32>) -> Option<int>
    decreases section.len(),
{
    if section.len() == 0 {
        None
    } else {
        match first_clash(section.drop_last(), symbols) {
            Some(k) => Some(k),
            None => match section.last().label {
                Some(name) => if bind_labels(section.drop_last(), symbols).contains_key(name) {
                    Some(section.len() - 1)
                } else {
                    None
                },
                None => None,
            },
        }
    }
}

/// The label of entry `k` of `section`, for an entry that has one.
pub open spec fn clash_name(section: Seq<EntryView>, k: int) -> Seq<char>
    recommends
        0 <= k < section.len(),
        section[k].label is Some,
{
    section[k].label.unwrap()
}

/// The bytes of a stream of entities once each label reference is replaced by
/// the address that `symbols` gives it, or the first label that it does not
/// bind.
pub open spec fn resolve(entities: Seq<Entity>, symbols: Map<Seq<char>, u32>) -> Result<
    Seq<u8>,
    Seq<char>,
>
    decreases entities.len(),
{
    if entities.len() == 0 {
        Ok(Seq::empty())
    } else {
        match resolve(entities.drop_last(), symbols) {
            Err(name) => Err(name),
            Ok(code) => match entities.last() {
                Entity::Byte(b) => Ok(code.push(b)),
                Entity::Label(name) => if symbols.contains_key(name) {
                    Ok(code + be_bytes(symbols[name]))
                } else {
                    Err(name)
                },
            },
        }
    }
}

/// Why a program could not be assembled.
#[derive(Debug, PartialEq, Eq)]
pub enum AssembleError {
    /// A label is defined a second time.
    DuplicateSymbol(String),
    /// An operand names a label that no entry defines.
    UndefinedSymbol(String),
    /// No entry defines the entry point.
    MissingEntryPoint(String),
}

/// The mathematical value of an [`AssembleError`].
pub enum AssembleErrorView {
    DuplicateSymbol(Seq<char>),
    UndefinedSymbol(Seq<char>),
    MissingEntryPoint(Seq<char>),
}

impl View for AssembleError {
    type V = AssembleErrorView;

    open spec fn view(&self) -> AssembleErrorView {
        match *self {
            AssembleError::DuplicateSymbol(name) => AssembleErrorView::DuplicateSymbol(name@),
            AssembleError::UndefinedSymbol(name) => AssembleErrorView::UndefinedSymbol(name@),
            AssembleError::MissingEntryPoint(name) => AssembleErrorView::MissingEntryPoint(name@),
        }
    }
}

impl AssembleErrorView {
    /// The text that reports the error.
    pub open spec fn message(self) -> Seq<char> {
        match self {
            AssembleErrorView::DuplicateSymbol(name) => "Symbol \""@ + name
                + "\" defined multiple times"@,
            AssembleErrorView::UndefinedSymbol(name) => "Undefined symbol \""@ + name + "\""@,
            AssembleErrorView::MissingEntryPoint(name) => "Could not find entry point \""@ + name
                + "\""@,
        }
    }
}

impl AssembleError {
    /// The text that reports the error.
    pub fn message(&self) -> (text: String)
        ensures
            text@ == self@.message(),
    {
        match self {
            AssembleError::DuplicateSymbol(name) => {
                let mut text = "Symbol \"".to_owned();
                text.append(name.as_str());
                text.append("\" defined multiple times");
                text
            },
            AssembleError::UndefinedSymbol(name) => {
                let mut text = "Undefined symbol \"".to_owned();
                text.append(name.as_str());
                text.append("\"");
                text
            },
            AssembleError::MissingEntryPoint(name) => {
                let mut text = "Could not find entry point \"".to_owned();
                text.append(name.as_str());
                text.append("\"");
                text
            },
        }
    }
}

/// The labels defined so far, each with the offset of its entry.
pub struct SymbolTable {
    map: StringHashMap<u32>,
}

impl View for SymbolTable {
    type V = Map<Seq<char>, u32>;

    closed spec fn view(&self) -> Map<Seq<char>, u32> {
        self.map@
    }
}

impl SymbolTable {
    /// A table that binds no label.
    pub fn new() -> (table: SymbolTable)
        ensures
            table@ == Map::<Seq<char>, u32>::empty(),
    {
        SymbolTable { map: StringHashMap::new() }
    }

    /// Binds `name` to `offset` unless the table binds it already; in that
    /// case the table stays as it is and the offset that it holds is
    /// returned.
    pub fn define(&mut self, name: &str, offset: u32) -> (previous: Option<u32>)
        ensures
            previous == if old(self)@.contains_key(name@) {
                Some(old(self)@[name@])
            } else {
                None
            },
            final(self)@ == if old(self)@.contains_key(name@) {
                old(self)@
            } else {
                old(self)@.insert(name@, offset)
            },
    {
        match self.map.get(name) {
            Some(held) => Some(*held),
            None => {
                self.map.insert(name.to_owned(), offset);
                None
            },
        }
    }

    /// The offset that the table binds `name` to.
    pub fn get(&self, name: &str) -> (offset: Option<u32>)
        ensures
            offset == if self@.contains_key(name@) {
                Some(self@[name@])
            } else {
                None
            },
    {
        match self.map.get(name) {
            Some(held) => Some(*held),
            None => None,
        }
    }
}

/// The width of a stream is the sum of the widths of its parts.
pub proof fn lemma_stream_width_concat(a: Seq<Entity>, b: Seq<Entity>)
    ensures
        stream_width(a + b) == stream_width(a) + stream_width(b),
    decreases b.len(),
{
    if b.len() == 0 {
        assert(a + b =~= a);
    } else {
        lemma_stream_width_concat(a, b.drop_last());
        assert((a + b).drop_last() =~= a + b.drop_last());
        assert((a + b).last() == b.last());
    }
}

/// A prefix of a section takes no more bytes than the section.
pub proof fn lemma_section_size_prefix(section: Seq<EntryView>, k: int)
    requires
        0 <= k <= section.len(),
    ensures
        section_size(section.take(k)) <= section_size(section),
    decreases section.len(),
{
    if k == section.len() {
        assert(section.take(k) =~= section);
    } else {
        lemma_section_size_prefix(section.drop_last(), k);
        assert(section.drop_last().take(k) =~= section.take(k));
        lemma_stream_width_concat(
            section_entities(section.drop_last()),
            section.last().entry.entities(),
        );
    }
}

/// A clash within a prefix of a section is the first clash of the section.
pub proof fn lemma_first_clash_prefix(
    section: Seq<EntryView>,
    symbols: Map<Seq<char>, u32>,
    k: int,
)
    requires
        0 <= k <= section.len(),
        first_clash(section.take(k), symbols) is Some,
    ensures
        first_clash(section, symbols) == first_clash(section.take(k), symbols),
    decreases section.len(),
{
    if k == section.len() {
        assert(section.take(k) =~= section);
    } else {
        assert(section.drop_last().take(k) =~= section.take(k));
        lemma_first_clash_prefix(section.drop_last(), symbols, k);
    }
}

/// Lays a section out. Each label is bound in `symbols` to the offset of its
/// entry, and the entities of the entries are collected in order. The pass
/// stops at the first label that is bound already and leaves that binding
/// as it was.
pub fn first_pass<'a>(section: &'a Vec<Entry<'a>>, symbols: &mut SymbolTable) -> (result: Result<
    Vec<Result<u8, &'a str>>,
    AssembleError,
>)
    requires
        section_size(entries_of(section@)) <= u32::MAX,
    ensures
        match first_clash(entries_of(section@), old(symbols)@) {
            Some(k) => {
                &&& result matches Err(e)
                &&& e@ == AssembleErrorView::DuplicateSymbol(clash_name(entries_of(section@), k))
                &&& final(symbols)@ == bind_labels(entries_of(section@).take(k), old(symbols)@)
            },
            None => {
                &&& result matches Ok(entities)
                &&& entities_of(entities@) == section_entities(entries_of(section@))
                &&& final(symbols)@ == bind_labels(entries_of(section@), old(symbols)@)
            },
        },
{
    let ghost entries = entries_of(section@);
    let ghost start = symbols@;
    let mut entities: Vec<Result<u8, &'a str>> = Vec::new();
    let mut byte_count: u32 = 0;
    let mut i: usize = 0;
    assert(entries.take(0) =~= Seq::<EntryView>::empty());
    assert(entities_of(entities@) =~= Seq::<Entity>::empty());
    while i < section.len()
        invariant
            i <= section.len(),
            entries == entries_of(section@),
            start == old(symbols)@,
            section_size(entries) <= u32::MAX,
            first_clash(entries.take(i as int), start) is None,
            symbols@ == bind_labels(entries.take(i as int), start),
            entities_of(entities@) == section_entities(entries.take(i as int)),
            byte_count == section_size(entries.take(i as int)),
        decreases section.len() - i,
    {
        let entry = &section[i];
        let ghost prefix = entries.take(i as int);
        let ghost next = entries.take(i + 1);
        proof {
            assert(next.drop_last() =~= prefix);
            assert(next.last() == entry@);
            lemma_section_size_prefix(entries, i + 1);
        }
        if let Some(label) = entry.label {
            if let Some(_) = symbols.define(label, byte_count) {
                proof {
                    assert(first_clash(next, start) == Some(i as int));
                    lemma_first_clash_prefix(entries, start, i + 1);
                    assert(entries[i as int] == entry@);
                    assert(clash_name(entries, i as int) == label@);
                }
                return Err(AssembleError::DuplicateSymbol(label.to_owned()));
            }
        }
        assert(first_clash(next, start) is None);
        assert(symbols@ == bind_labels(next, start));
        let encoded = entry.to_bytes();
        proof {
            lemma_stream_width_concat(section_entities(prefix), entities_of(encoded@));
        }
        let ghost before = entities@;
        let mut j: usize = 0;
        assert(encoded@.take(0) =~= Seq::<Result<u8, &str>>::empty());
        assert(entities_of(encoded@.take(0)) =~= Seq::<Entity>::empty());
        assert(entities_of(before) + entities_of(encoded@.take(0)) =~= entities_of(before));
        while j < encoded.len()
            invariant
                j <= encoded.len(),
                entities_of(entities@) == entities_of(before) + entities_of(
                    encoded@.take(j as int),
                ),
                byte_count == section_size(prefix) + stream_width(
                    entities_of(encoded@.take(j as int)),
                ),
                section_size(prefix) + stream_width(entities_of(encoded@)) <= u32::MAX,
            decreases encoded.len() - j,
        {
            let entity = encoded[j];
            proof {
                let done = entities_of(encoded@.take(j as int));
                let more = entities_of(encoded@.take(j + 1));
                assert(more =~= done.push(entity_of(entity)));
                assert(more.drop_last() =~= done);
                assert(entities_of(encoded@) =~= more + entities_of(
                    encoded@.subrange(j + 1, encoded@.len() as int),
                ));
                lemma_stream_width_concat(
                    more,
                    entities_of(encoded@.subrange(j + 1, encoded@.len() as int)),
                );
                assert(entities_of(entities@.push(entity)) =~= entities_of(entities@).push(
                    entity_of(entity),
                ));
            }
            entities.push(entity);
            match entity {
                Ok(_) => {
                    byte_count = byte_count + 1;
                },
                Err(_) => {
                    byte_count = byte_count + 4;
                },
            }
            j = j + 1;
        }
        proof {
            assert(encoded@.take(j as int) =~= encoded@);
        }
        i = i + 1;
    }
    proof {
        assert(entries.take(i as int) =~= entries);
    }
    Ok(entities)
}

/// Expands a stream of entities to its bytes: a final byte stays, a label
/// reference becomes the four bytes of the offset that `symbols` binds it
/// to. The pass stops at the first label that `symbols` does not bind.
pub fn second_pass(entities: &Vec<Result<u8, &str>>, symbols: &SymbolTable) -> (result: Result<
    Vec<u8>,
    AssembleError,
>)
    ensures
        match resolve(entities_of(entities@), symbols@) {
            Ok(bytes) => result matches Ok(code) && code@ == bytes,
            Err(name) => result matches Err(e) && e@ == AssembleErrorView::UndefinedSymbol(name),
        },
{
    let ghost stream = entities_of(entities@);
    let mut code: Vec<u8> = Vec::new();
    let mut i: usize = 0;
    assert(stream.take(0) =~= Seq::<Entity>::empty());
    while i < entities.len()
        invariant
            i <= entities.len(),
            stream == entities_of(entities@),
            resolve(stream.take(i as int), symbols@) == Ok::<Seq<u8>, Seq<char>>(code@),
        decreases entities.len() - i,
    {
        proof {
            assert(stream.take(i + 1).drop_last() =~= stream.take(i as int));
            assert(stream.take(i + 1).last() == stream[i as int]);
        }
        match entities[i] {
            Ok(b) => {
                code.push(b);
            },
            Err(label) => {
                match symbols.get(label) {
                    Some(address) => {
                        let bytes = word_bytes(address);
                        let ghost before = code@;
                        code.push(bytes[0]);
                        code.push(bytes[1]);
                        code.push(bytes[2]);
                        code.push(bytes[3]);
                        assert(code@ =~= before + be_bytes(address));
                    },
                    None => {
                        proof {
                            lemma_resolve_prefix(stream, symbols@, i + 1);
                        }
                        return Err(AssembleError::UndefinedSymbol(label.to_owned()));
                    },
                }
            },
        }
        i = i + 1;
    }
    proof {
        assert(stream.take(i as int) =~= stream);
    }
    Ok(code)
}

/// A label that a prefix of a stream leaves unresolved is the one that the
/// whole stream leaves unresolved.
pub proof fn lemma_resolve_prefix(entities: Seq<Entity>, symbols: Map<Seq<char>, u32>, k: int)
    requires
        0 <= k <= entities.len(),
        resolve(entities.take(k), symbols) is Err,
    ensures
        resolve(entities, symbols) == resolve(entities.take(k), symbols),
    decreases entities.len(),
{
    if k == entities.len() {
        assert(entities.take(k) =~= entities);
    } else {
        assert(entities.drop_last().take(k) =~= entities.take(k));
        lemma_resolve_prefix(entities.drop_last(), symbols, k);
    }
}

/// The output of the assembler: the bytes of both sections and the address
/// of the entry point.
#[derive(Debug, PartialEq, Eq)]
pub struct Blob {
    pub bss: Vec<u8>,
    pub raw: Vec<u8>,
    pub ep: u32,
}

/// The mathematical value of a [`Blob`].
pub struct BlobView {
    pub bss: Seq<u8>,
    pub raw: Seq<u8>,
    pub ep: u32,
}

impl View for Blob {
    type V = BlobView;

    open spec fn view(&self) -> BlobView {
        BlobView { bss: self.bss@, raw: self.raw@, ep: self.ep }
    }
}

/// The symbol table of a program: the labels of `bss`, then those of `raw`,
/// each bound to its offset within its own section.
pub open spec fn program_symbols(program: ProgramView) -> Map<Seq<char>, u32> {
    bind_labels(program.raw, bind_labels(program.bss, Map::empty()))
}

/// What assembling `program` with the entry point `entry_point` gives.
///
/// A label defined twice is reported first, `bss` before `raw`; then a
/// reference to a label that nothing defines, `bss` before `raw`; then an
/// entry point that nothing defines.
pub open spec fn assembled(program: ProgramView, entry_point: Seq<char>) -> Result<
    BlobView,
    AssembleErrorView,
> {
    let bss_symbols = bind_labels(program.bss, Map::empty());
    let symbols = program_symbols(program);
    if let Some(k) = first_clash(program.bss, Map::empty()) {
        Err(AssembleErrorView::DuplicateSymbol(clash_name(program.bss, k)))
    } else if let Some(k) = first_clash(program.raw, bss_symbols) {
        Err(AssembleErrorView::DuplicateSymbol(clash_name(program.raw, k)))
    } else {
        match (
            resolve(section_entities(program.bss), symbols),
            resolve(section_entities(program.raw), symbols),
        ) {
            (Err(name), _) => Err(AssembleErrorView::UndefinedSymbol(name)),
            (Ok(_), Err(name)) => Err(AssembleErrorView::UndefinedSymbol(name)),
            (Ok(bss), Ok(raw)) => if symbols.contains_key(entry_point) {
                Ok(BlobView { bss, raw, ep: symbols[entry_point] })
            } else {
                Err(AssembleErrorView::MissingEntryPoint(entry_point))
            },
        }
    }
}

/// Assembles a program: lays out `bss` and then `raw` into one symbol table,
/// resolves the label references of both, and looks the entry point up.
pub fn assemble(ast: &Program, entry_point: &str) -> (result: Result<Blob, AssembleError>)
    requires
        section_size(ast@.bss) <= u32::MAX,
        section_size(ast@.raw) <= u32::MAX,
    ensures
        match assembled(ast@, entry_point@) {
            Ok(blob) => result matches Ok(out) && out@ == blob,
            Err(error) => result matches Err(e) && e@ == error,
        },
{
    let mut symbols = SymbolTable::new();
    let bss = match first_pass(&ast.bss, &mut symbols) {
        Ok(entities) => entities,
        Err(e) => {
            return Err(e);
        },
    };
    let raw = match first_pass(&ast.raw, &mut symbols) {
        Ok(entities) => entities,
        Err(e) => {
            return Err(e);
        },
    };
    let bss = match second_pass(&bss, &symbols) {
        Ok(code) => code,
        Err(e) => {
            return Err(e);
        },
    };
    let raw = match second_pass(&raw, &symbols) {
        Ok(code) => code,
        Err(e) => {
            return Err(e);
        },
    };
    match symbols.get(entry_point) {
        Some(ep) => Ok(Blob { bss, raw, ep }),
        None => Err(AssembleError::MissingEntryPoint(entry_point.to_owned())),
    }
}

/// The size of a section in bytes, if it fits in a 32-bit offset.
pub fn checked_section_size(section: &Vec<Entry>) -> (size: Option<u32>)
    ensures
        size == if section_size(entries_of(section@)) <= u32::MAX {
            Some(section_size(entries_of(section@)) as u32)
        } else {
            None
        },
{
    let ghost entries = entries_of(section@);
    let mut total: u64 = 0;
    let mut i: usize = 0;
    assert(entries.take(0) =~= Seq::<EntryView>::empty());
    while i < section.len()
        invariant
            i <= section.len(),
            entries == entries_of(section@),
            total == section_size(entries.take(i as int)),
            total <= u32::MAX,
        decreases section.len() - i,
    {
        let encoded = section[i].to_bytes();
        proof {
            assert(entries.take(i + 1).drop_last() =~= entries.take(i as int));
            assert(entries.take(i + 1).last() == section[i as int]@);
            lemma_stream_width_concat(
                section_entities(entries.take(i as int)),
                entities_of(encoded@),
            );
            lemma_section_size_prefix(entries, i + 1);
        }
        let mut j: usize = 0;
        let ghost base = total;
        assert(entities_of(encoded@.take(0)) =~= Seq::<Entity>::empty());
        while j < encoded.len()
            invariant
                j <= encoded.len(),
                entries == entries_of(section@),
                total == base + stream_width(entities_of(encoded@.take(j as int))),
                total <= u32::MAX,
                base + stream_width(entities_of(encoded@)) == section_size(entries.take(i + 1)),
                section_size(entries.take(i + 1)) <= section_size(entries),
            decreases encoded.len() - j,
        {
            proof {
                let done = entities_of(encoded@.take(j as int));
                let more = entities_of(encoded@.take(j + 1));
                assert(more.drop_last() =~= done);
                assert(more.last() == entity_of(encoded@[j as int]));
                assert(entities_of(encoded@) =~= more + entities_of(
                    encoded@.subrange(j + 1, encoded@.len() as int),
                ));
                lemma_stream_width_concat(
                    more,
                    entities_of(encoded@.subrange(j + 1, encoded@.len() as int)),
                );
            }
            match encoded[j] {
                Ok(_) => {
                    total = total + 1;
                },
                Err(_) => {
                    total = total + 4;
                },
            }
            if total > u32::MAX as u64 {
                return None;
            }
            j = j + 1;
        }
        proof {
            assert(encoded@.take(j as int) =~= encoded@);
        }
        i = i + 1;
    }
    proof {
        assert(entries.take(i as int) =~= entries);
    }
    Some(total as u32)
}

/// The text that the standard base64 alphabet, with padding and without
/// line breaks, gives for `bytes`.
pub uninterp spec fn base64_standard(bytes: Seq<u8>) -> Seq<char>;

/// Calls `to_base64` of `rustc_serialize` with its `STANDARD` configuration
/// (RFC 4648 alphabet, padded, no line wrapping). The result is a function
/// of the bytes alone; the contract gives it the name `base64_standard`.
#[verifier::external_body]
fn to_base64(bytes: &[u8]) -> (text: String)
    ensures
        text@ == base64_standard(bytes@),
{
    bytes.to_base64(STANDARD)
}

/// A blob as it is written out: a success flag, both sections in base64 and
/// the entry address as a plain integer.
#[derive(Debug, PartialEq, Eq)]
pub struct Encoded {
    pub ok: bool,
    pub bss: String,
    pub raw: String,
    pub ep: u64,
}

impl Encoded {
    /// Packages the encoded sections and the entry address; the flag of an
    /// output is always set.
    pub fn from_parts(bss: String, raw: String, ep: u32) -> (out: Encoded)
        ensures
            out.ok,
            out.bss == bss,
            out.raw == raw,
            out.ep == ep,
    {
        Encoded { ok: true, bss, raw, ep: ep as u64 }
    }
}

impl Blob {
    /// Encodes the blob for output.
    pub fn encode(&self) -> (out: Encoded)
        ensures
            out.ok,
            out.bss@ == base64_standard(self.bss@),
            out.raw@ == base64_standard(self.raw@),
            out.ep == self.ep,
    {
        let bss = to_base64(self.bss.as_slice());
        let raw = to_base64(self.raw.as_slice());
        Encoded::from_parts(bss, raw, self.ep)
    }
}

} // verus!
