//! What holds of the assembler for every program.

use crate::assemble::{
    assembled, bind_labels, first_clash, lemma_first_clash_prefix, lemma_section_size_prefix,
    lemma_stream_width_concat, program_symbols, resolve, section_entities, section_size,
    stream_width, AssembleErrorView, BlobView,
};
use crate::ast::{
    be_bytes, byte_entities, DirectiveView, Entity, EntryView, InstructionView, OpcodeView,
    ProgramView, WordView,
};
use vstd::prelude::*;
use vstd::utf8::encode_utf8;

verus! {

/// An entry of `section` carries the label `name`.
pub open spec fn defines(section: Seq<EntryView>, name: Seq<char>) -> bool {
    exists|k: int| 0 <= k < section.len() && (#[trigger] section[k]).label == Some(name)
}

/// The operand of `instruction` is the label `name`.
pub open spec fn refers_to(instruction: InstructionView, name: Seq<char>) -> bool {
    instruction matches InstructionView::Opcode(OpcodeView::Unary(_, WordView::Label(n))) && n
        == name
}

/// An operand in `section` is the label `name`.
pub open spec fn references(section: Seq<EntryView>, name: Seq<char>) -> bool {
    exists|k: int| 0 <= k < section.len() && refers_to((#[trigger] section[k]).entry, name)
}

/// The first pass binds exactly the names that were bound before and the
/// labels of the section.
pub proof fn lemma_bound_names(
    section: Seq<EntryView>,
    symbols: Map<Seq<char>, u32>,
    name: Seq<char>,
)
    ensures
        bind_labels(section, symbols).contains_key(name) <==> symbols.contains_key(name) || defines(
            section,
            name,
        ),
    decreases section.len(),
{
    if section.len() > 0 {
        let front = section.drop_last();
        lemma_bound_names(front, symbols, name);
        if defines(front, name) {
            let k = choose|k: int|
                0 <= k < front.len() && (#[trigger] front[k]).label == Some(name);
            assert(section[k] == front[k]);
        }
        if section.last().label == Some(name) {
            assert(section[section.len() - 1].label == Some(name));
        }
        if defines(section, name) {
            let k = choose|k: int|
                0 <= k < section.len() && (#[trigger] section[k]).label == Some(name);
            if k < front.len() {
                assert(front[k] == section[k]);
            }
        }
    }
}

/// An entry whose label is bound already, by the table or by an earlier
/// entry, makes the first pass stop with a clash.
pub proof fn lemma_rebinding_clashes(section: Seq<EntryView>, symbols: Map<Seq<char>, u32>, j: int)
    requires
        0 <= j < section.len(),
        section[j].label is Some,
        symbols.contains_key(section[j].label.unwrap()) || defines(
            section.take(j),
            section[j].label.unwrap(),
        ),
    ensures
        first_clash(section, symbols) is Some,
{
    let upto = section.take(j + 1);
    assert(upto.drop_last() =~= section.take(j));
    assert(upto.last() == section[j]);
    lemma_bound_names(section.take(j), symbols, section[j].label.unwrap());
    assert(first_clash(upto, symbols) is Some);
    lemma_first_clash_prefix(section, symbols, j + 1);
}

/// The first pass never overwrites: as far as it meets no clash, every name
/// that the table bound before is still bound to the same offset.
pub proof fn lemma_bindings_are_kept(
    section: Seq<EntryView>,
    symbols: Map<Seq<char>, u32>,
    name: Seq<char>,
)
    requires
        first_clash(section, symbols) is None,
        symbols.contains_key(name),
    ensures
        bind_labels(section, symbols).contains_key(name),
        bind_labels(section, symbols)[name] == symbols[name],
    decreases section.len(),
{
    if section.len() > 0 {
        lemma_bindings_are_kept(section.drop_last(), symbols, name);
    }
}

/// A label that two entries of a program carry, in one section or in both,
/// makes assembly fail with a duplicate symbol, whatever else the program
/// holds.
pub proof fn lemma_duplicate_label_fails(
    program: ProgramView,
    entry_point: Seq<char>,
    i: int,
    j: int,
)
    requires
        0 <= i < j < (program.bss + program.raw).len(),
        (program.bss + program.raw)[i].label is Some,
        (program.bss + program.raw)[i].label == (program.bss + program.raw)[j].label,
    ensures
        assembled(program, entry_point) matches Err(e) && e is DuplicateSymbol,
{
    let all = program.bss + program.raw;
    let name = all[i].label.unwrap();
    let split = program.bss.len() as int;
    if j < split {
        assert(program.bss.take(j)[i].label == Some(name));
        lemma_rebinding_clashes(program.bss, Map::empty(), j);
    } else if first_clash(program.bss, Map::empty()) is None {
        let bss_symbols = bind_labels(program.bss, Map::empty());
        assert(program.raw[j - split] == all[j]);
        if i < split {
            assert(program.bss[i].label == Some(name));
            lemma_bound_names(program.bss, Map::empty(), name);
        } else {
            assert(program.raw.take(j - split)[i - split].label == Some(name));
        }
        lemma_rebinding_clashes(program.raw, bss_symbols, j - split);
    }
}

/// No label is carried by two entries of `section`.
pub open spec fn labels_distinct(section: Seq<EntryView>) -> bool {
    forall|i: int, j: int|
        0 <= i < j < section.len() && (#[trigger] section[i]).label is Some ==> section[i].label
            != (#[trigger] section[j]).label
}

/// Where the first pass stops with a clash, the entry at which it stops
/// carries a label that the table or an earlier entry has bound, and no
/// entry before it does.
pub proof fn lemma_clash_is_rebinding(section: Seq<EntryView>, symbols: Map<Seq<char>, u32>)
    requires
        first_clash(section, symbols) is Some,
    ensures
        ({
            let k = first_clash(section, symbols).unwrap();
            &&& 0 <= k < section.len()
            &&& section[k].label is Some
            &&& symbols.contains_key(section[k].label.unwrap()) || defines(
                section.take(k),
                section[k].label.unwrap(),
            )
            &&& first_clash(section.take(k), symbols) is None
        }),
    decreases section.len(),
{
    let front = section.drop_last();
    if first_clash(front, symbols) is Some {
        lemma_clash_is_rebinding(front, symbols);
        let k = first_clash(front, symbols).unwrap();
        assert(front.take(k) =~= section.take(k));
        assert(front[k] == section[k]);
    } else {
        let k = section.len() - 1;
        assert(section.take(k) =~= front);
        lemma_bound_names(front, symbols, section[k].label.unwrap());
    }
}

/// Two entries of the program carry the label `name`.
pub open spec fn defined_twice(program: ProgramView, name: Seq<char>) -> bool {
    exists|i: int, j: int|
        0 <= i < j < (program.bss + program.raw).len() && (#[trigger] (program.bss
            + program.raw)[i]).label == Some(name) && (#[trigger] (program.bss
            + program.raw)[j]).label == Some(name)
}

/// A duplicate symbol is reported for no other reason: the label that the
/// failure names is carried by two entries of the program.
pub proof fn lemma_duplicate_is_defined_twice(program: ProgramView, entry_point: Seq<char>)
    requires
        assembled(program, entry_point) matches Err(e) && e is DuplicateSymbol,
    ensures
        assembled(program, entry_point) matches Err(AssembleErrorView::DuplicateSymbol(name))
            && defined_twice(program, name),
{
    let all = program.bss + program.raw;
    let split = program.bss.len() as int;
    let empty = Map::<Seq<char>, u32>::empty();
    if first_clash(program.bss, empty) is Some {
        lemma_clash_is_rebinding(program.bss, empty);
        let j = first_clash(program.bss, empty).unwrap();
        let name = program.bss[j].label.unwrap();
        let before = program.bss.take(j);
        let i = choose|i: int| 0 <= i < before.len() && (#[trigger] before[i]).label == Some(name);
        assert(all[i] == before[i] && all[j] == program.bss[j]);
    } else {
        let bss_symbols = bind_labels(program.bss, empty);
        lemma_clash_is_rebinding(program.raw, bss_symbols);
        let j = first_clash(program.raw, bss_symbols).unwrap();
        let name = program.raw[j].label.unwrap();
        assert(all[split + j] == program.raw[j]);
        if bss_symbols.contains_key(name) {
            lemma_bound_names(program.bss, empty, name);
            let i = choose|i: int|
                0 <= i < program.bss.len() && (#[trigger] program.bss[i]).label == Some(name);
            assert(all[i] == program.bss[i]);
        } else {
            let before = program.raw.take(j);
            let i = choose|i: int|
                0 <= i < before.len() && (#[trigger] before[i]).label == Some(name);
            assert(all[split + i] == before[i]);
        }
    }
}

/// A section whose labels are distinct and unbound so far passes the first
/// pass without a clash.
pub proof fn lemma_distinct_labels_pass(section: Seq<EntryView>, symbols: Map<Seq<char>, u32>)
    requires
        labels_distinct(section),
        forall|name: Seq<char>| defines(section, name) ==> !symbols.contains_key(name),
    ensures
        first_clash(section, symbols) is None,
{
    if first_clash(section, symbols) is Some {
        lemma_clash_is_rebinding(section, symbols);
        let k = first_clash(section, symbols).unwrap();
        let name = section[k].label.unwrap();
        assert(section[k].label == Some(name));
        assert(defines(section, name));
        let i = choose|i: int|
            0 <= i < section.take(k).len() && (#[trigger] section.take(k)[i]).label == Some(name);
        assert(section[i] == section.take(k)[i]);
    }
}

/// Where the first pass meets no clash, each label is bound to the offset of
/// its own entry.
pub proof fn lemma_bound_offset(section: Seq<EntryView>, symbols: Map<Seq<char>, u32>, k: int)
    requires
        first_clash(section, symbols) is None,
        0 <= k < section.len(),
        section[k].label is Some,
    ensures
        bind_labels(section, symbols).contains_key(section[k].label.unwrap()),
        bind_labels(section, symbols)[section[k].label.unwrap()] == section_size(
            section.take(k),
        ) as u32,
    decreases section.len(),
{
    let front = section.drop_last();
    let name = section[k].label.unwrap();
    if k == section.len() - 1 {
        assert(section.take(k) =~= front);
    } else {
        assert(front[k] == section[k]);
        assert(front.take(k) =~= section.take(k));
        lemma_bound_offset(front, symbols, k);
    }
}

/// Resolving a stream resolves its parts in order.
pub proof fn lemma_resolve_concat(a: Seq<Entity>, b: Seq<Entity>, symbols: Map<Seq<char>, u32>)
    ensures
        resolve(a + b, symbols) == match resolve(a, symbols) {
            Err(name) => Err(name),
            Ok(head) => match resolve(b, symbols) {
                Err(name) => Err(name),
                Ok(tail) => Ok(head + tail),
            },
        },
    decreases b.len(),
{
    if b.len() == 0 {
        assert(a + b =~= a);
        if let Ok(head) = resolve(a, symbols) {
            assert(head + Seq::<u8>::empty() =~= head);
        }
    } else {
        lemma_resolve_concat(a, b.drop_last(), symbols);
        assert((a + b).drop_last() =~= a + b.drop_last());
        assert((a + b).last() == b.last());
        if let Ok(head) = resolve(a, symbols) {
            if let Ok(tail) = resolve(b.drop_last(), symbols) {
                match b.last() {
                    Entity::Byte(byte) => {
                        assert((head + tail).push(byte) =~= head + tail.push(byte));
                    },
                    Entity::Label(name) => {
                        if symbols.contains_key(name) {
                            assert((head + tail) + be_bytes(symbols[name]) =~= head + (tail
                                + be_bytes(symbols[name])));
                        }
                    },
                }
            }
        }
    }
}

/// Final bytes resolve to themselves.
pub proof fn lemma_resolve_bytes(bytes: Seq<u8>, symbols: Map<Seq<char>, u32>)
    ensures
        resolve(byte_entities(bytes), symbols) == Ok::<Seq<u8>, Seq<char>>(bytes),
    decreases bytes.len(),
{
    if bytes.len() == 0 {
        assert(bytes =~= Seq::<u8>::empty());
    } else {
        lemma_resolve_bytes(bytes.drop_last(), symbols);
        assert(byte_entities(bytes).drop_last() =~= byte_entities(bytes.drop_last()));
        assert(bytes.drop_last().push(bytes.last()) =~= bytes);
    }
}

/// The second pass turns one label reference into the four bytes of its
/// address, or fails with its name.
pub proof fn lemma_resolve_label(name: Seq<char>, symbols: Map<Seq<char>, u32>)
    ensures
        resolve(seq![Entity::Label(name)], symbols) == if symbols.contains_key(name) {
            Ok::<Seq<u8>, Seq<char>>(be_bytes(symbols[name]))
        } else {
            Err::<Seq<u8>, Seq<char>>(name)
        },
{
    let one = seq![Entity::Label(name)];
    assert(one.drop_last() =~= Seq::<Entity>::empty());
    assert(one.last() == Entity::Label(name));
    assert(resolve(Seq::<Entity>::empty(), symbols) == Ok::<Seq<u8>, Seq<char>>(Seq::empty()));
    if symbols.contains_key(name) {
        assert(Seq::<u8>::empty() + be_bytes(symbols[name]) =~= be_bytes(symbols[name]));
    }
}

/// What a single-pass emitter writes for an instruction when it knows the
/// address of every label beforehand.
pub open spec fn emit_instruction(
    instruction: InstructionView,
    addresses: Map<Seq<char>, u32>,
) -> Seq<u8> {
    match instruction {
        InstructionView::Directive(DirectiveView::Asciz(text)) => encode_utf8(text).push(0u8),
        InstructionView::Directive(DirectiveView::Ascii(text)) => encode_utf8(text),
        InstructionView::Directive(DirectiveView::Db(byte)) => seq![byte],
        InstructionView::Directive(DirectiveView::Dw(word)) => be_bytes(word),
        InstructionView::Opcode(OpcodeView::Nullary(op)) => seq![op.code()],
        InstructionView::Opcode(OpcodeView::Unary(op, WordView::Literal(word))) => seq![op.code()]
            + be_bytes(word),
        InstructionView::Opcode(OpcodeView::Unary(op, WordView::Label(name))) => seq![op.code()]
            + be_bytes(addresses[name]),
    }
}

/// What a single-pass emitter writes for a section.
pub open spec fn emit_section(section: Seq<EntryView>, addresses: Map<Seq<char>, u32>) -> Seq<u8>
    decreases section.len(),
{
    if section.len() == 0 {
        Seq::empty()
    } else {
        emit_section(section.drop_last(), addresses) + emit_instruction(
            section.last().entry,
            addresses,
        )
    }
}

/// `addresses` gives each label of `section` the number of bytes that the
/// single-pass emitter writes before it reaches the label's entry.
pub open spec fn knows_addresses(addresses: Map<Seq<char>, u32>, section: Seq<EntryView>) -> bool {
    forall|k: int|
        0 <= k < section.len() && (#[trigger] section[k]).label is Some ==> {
            &&& addresses.contains_key(section[k].label.unwrap())
            &&& addresses[section[k].label.unwrap()] == emit_section(
                section.take(k),
                addresses,
            ).len()
        }
}

/// The entities of an instruction take as many bytes as the single-pass
/// emitter writes for it, and resolve to those bytes under a table that
/// agrees with the emitter's addresses on the label that the instruction
/// names.
pub proof fn lemma_instruction_resolves(
    instruction: InstructionView,
    symbols: Map<Seq<char>, u32>,
    addresses: Map<Seq<char>, u32>,
)
    ensures
        stream_width(instruction.entities()) == emit_instruction(instruction, addresses).len(),
        (forall|name: Seq<char>|
            refers_to(instruction, name) ==> symbols.contains_key(name) && symbols[name]
                == addresses[name]) ==> resolve(instruction.entities(), symbols) == Ok::<
            Seq<u8>,
            Seq<char>,
        >(emit_instruction(instruction, addresses)),
{
    let out = emit_instruction(instruction, addresses);
    match instruction {
        InstructionView::Opcode(OpcodeView::Unary(op, WordView::Label(name))) => {
            let head = seq![Entity::Byte(op.code())];
            let tail = seq![Entity::Label(name)];
            assert(head =~= byte_entities(seq![op.code()]));
            lemma_resolve_bytes(seq![op.code()], symbols);
            lemma_resolve_label(name, symbols);
            lemma_resolve_concat(head, tail, symbols);
            lemma_byte_width(seq![op.code()]);
            lemma_stream_width_concat(head, tail);
            assert(tail.drop_last() =~= Seq::<Entity>::empty());
            assert(stream_width(Seq::<Entity>::empty()) == 0);
            assert(stream_width(tail) == 4);
            assert(refers_to(instruction, name));
        },
        InstructionView::Opcode(OpcodeView::Unary(op, WordView::Literal(word))) => {
            assert(instruction.entities() =~= byte_entities(out));
            lemma_resolve_bytes(out, symbols);
            lemma_byte_width(out);
        },
        _ => {
            assert(instruction.entities() =~= byte_entities(out));
            lemma_resolve_bytes(out, symbols);
            lemma_byte_width(out);
        },
    }
}

/// Final bytes take one byte each.
pub proof fn lemma_byte_width(bytes: Seq<u8>)
    ensures
        stream_width(byte_entities(bytes)) == bytes.len(),
    decreases bytes.len(),
{
    if bytes.len() > 0 {
        lemma_byte_width(bytes.drop_last());
        assert(byte_entities(bytes).drop_last() =~= byte_entities(bytes.drop_last()));
    }
}

/// The size of a section is the number of bytes that the single-pass emitter
/// writes for it.
pub proof fn lemma_section_size_is_emitted(section: Seq<EntryView>, addresses: Map<Seq<char>, u32>)
    ensures
        section_size(section) == emit_section(section, addresses).len(),
    decreases section.len(),
{
    if section.len() > 0 {
        lemma_section_size_is_emitted(section.drop_last(), addresses);
        lemma_instruction_resolves(section.last().entry, Map::empty(), addresses);
        lemma_stream_width_concat(
            section_entities(section.drop_last()),
            section.last().entry.entities(),
        );
    }
}

/// Under a table that agrees with the emitter's addresses on every label
/// that `section` names, the second pass writes what the emitter writes.
pub proof fn lemma_section_resolves(
    section: Seq<EntryView>,
    symbols: Map<Seq<char>, u32>,
    addresses: Map<Seq<char>, u32>,
)
    requires
        forall|name: Seq<char>|
            references(section, name) ==> symbols.contains_key(name) && symbols[name]
                == addresses[name],
    ensures
        resolve(section_entities(section), symbols) == Ok::<Seq<u8>, Seq<char>>(
            emit_section(section, addresses),
        ),
    decreases section.len(),
{
    if section.len() > 0 {
        let front = section.drop_last();
        let last = section.last();
        assert forall|name: Seq<char>| references(front, name) implies symbols.contains_key(name)
            && symbols[name] == addresses[name] by {
            let k = choose|k: int|
                0 <= k < front.len() && refers_to((#[trigger] front[k]).entry, name);
            assert(section[k] == front[k]);
            assert(references(section, name));
        }
        lemma_section_resolves(front, symbols, addresses);
        assert forall|name: Seq<char>| refers_to(last.entry, name) implies symbols.contains_key(
            name,
        ) && symbols[name] == addresses[name] by {
            assert(section[section.len() - 1] == last);
            assert(references(section, name));
        }
        lemma_instruction_resolves(last.entry, symbols, addresses);
        lemma_resolve_concat(section_entities(front), last.entry.entities(), symbols);
    }
}

/// For a section that defines every label it names, each once, the first
/// pass followed by the second writes exactly what a single-pass emitter
/// writes that knows the address of every label beforehand.
pub proof fn lemma_two_passes_match_single_pass(
    section: Seq<EntryView>,
    addresses: Map<Seq<char>, u32>,
)
    requires
        labels_distinct(section),
        forall|name: Seq<char>| references(section, name) ==> defines(section, name),
        knows_addresses(addresses, section),
        emit_section(section, addresses).len() <= u32::MAX,
    ensures
        first_clash(section, Map::empty()) is None,
        resolve(section_entities(section), bind_labels(section, Map::empty())) == Ok::<
            Seq<u8>,
            Seq<char>,
        >(emit_section(section, addresses)),
{
    let empty = Map::<Seq<char>, u32>::empty();
    lemma_distinct_labels_pass(section, empty);
    let symbols = bind_labels(section, empty);
    assert forall|name: Seq<char>| references(section, name) implies symbols.contains_key(name)
        && symbols[name] == addresses[name] by {
        let k = choose|k: int|
            0 <= k < section.len() && (#[trigger] section[k]).label == Some(name);
        lemma_bound_offset(section, empty, k);
        lemma_section_size_is_emitted(section.take(k), addresses);
        lemma_section_size_is_emitted(section, addresses);
        lemma_section_size_prefix(section, k);
    }
    lemma_section_resolves(section, symbols, addresses);
}

/// The label that the second pass fails on stands in the stream and is not
/// bound.
pub proof fn lemma_unresolved_is_unbound(entities: Seq<Entity>, symbols: Map<Seq<char>, u32>)
    requires
        resolve(entities, symbols) is Err,
    ensures
        ({
            let name = resolve(entities, symbols)->Err_0;
            !symbols.contains_key(name) && entities.contains(Entity::Label(name))
        }),
    decreases entities.len(),
{
    let front = entities.drop_last();
    if resolve(front, symbols) is Err {
        lemma_unresolved_is_unbound(front, symbols);
        let name = resolve(front, symbols)->Err_0;
        let k = choose|k: int| 0 <= k < front.len() && front[k] == Entity::Label(name);
        assert(entities[k] == Entity::Label(name));
    } else {
        assert(entities[entities.len() - 1] == entities.last());
    }
}

/// A reference to an unbound label makes the second pass fail.
pub proof fn lemma_unbound_fails(entities: Seq<Entity>, symbols: Map<Seq<char>, u32>, k: int)
    requires
        0 <= k < entities.len(),
        entities[k] matches Entity::Label(name) && !symbols.contains_key(name),
    ensures
        resolve(entities, symbols) is Err,
    decreases entities.len(),
{
    if k < entities.len() - 1 {
        assert(entities.drop_last()[k] == entities[k]);
        lemma_unbound_fails(entities.drop_last(), symbols, k);
    }
}

/// The label references among the entities of an instruction are its
/// operand, if that is a label.
pub proof fn lemma_instruction_references(instruction: InstructionView, name: Seq<char>)
    ensures
        instruction.entities().contains(Entity::Label(name)) <==> refers_to(instruction, name),
{
    let entities = instruction.entities();
    if refers_to(instruction, name) {
        assert(entities[1] == Entity::Label(name));
    }
    if entities.contains(Entity::Label(name)) {
        let k = choose|k: int| 0 <= k < entities.len() && entities[k] == Entity::Label(name);
        assert(entities[k] == Entity::Label(name));
    }
}

/// The label references among the entities of a section are the operands
/// of its entries that are labels.
pub proof fn lemma_section_references(section: Seq<EntryView>, name: Seq<char>)
    ensures
        section_entities(section).contains(Entity::Label(name)) <==> references(section, name),
    decreases section.len(),
{
    let wanted = Entity::Label(name);
    if section.len() > 0 {
        let front = section.drop_last();
        let last = section.last();
        let head = section_entities(front);
        let tail = last.entry.entities();
        lemma_section_references(front, name);
        lemma_instruction_references(last.entry, name);
        if references(front, name) {
            let k = choose|k: int|
                0 <= k < front.len() && refers_to((#[trigger] front[k]).entry, name);
            assert(section[k] == front[k]);
            let i = choose|i: int| 0 <= i < head.len() && head[i] == wanted;
            assert((head + tail)[i] == wanted);
        }
        if refers_to(last.entry, name) {
            assert(section[section.len() - 1] == last);
            let i = choose|i: int| 0 <= i < tail.len() && tail[i] == wanted;
            assert((head + tail)[head.len() + i] == wanted);
        }
        if references(section, name) {
            let k = choose|k: int|
                0 <= k < section.len() && refers_to((#[trigger] section[k]).entry, name);
            if k < front.len() {
                assert(front[k] == section[k]);
            }
        }
        if (head + tail).contains(wanted) {
            let i = choose|i: int| 0 <= i < (head + tail).len() && (head + tail)[i] == wanted;
            if i < head.len() {
                assert(head[i] == wanted);
            } else {
                assert(tail[i - head.len()] == wanted);
            }
        }
    } else {
        assert(!section_entities(section).contains(wanted));
    }
}

/// An operand of the program is the label `name`, and no entry carries it.
pub open spec fn dangling(program: ProgramView, name: Seq<char>) -> bool {
    &&& references(program.bss, name) || references(program.raw, name)
    &&& !defines(program.bss, name)
    &&& !defines(program.raw, name)
}

/// The names that the symbol table of a program binds are the labels of its
/// two sections.
pub proof fn lemma_program_symbols(program: ProgramView, name: Seq<char>)
    ensures
        program_symbols(program).contains_key(name) <==> defines(program.bss, name) || defines(
            program.raw,
            name,
        ),
{
    lemma_bound_names(program.bss, Map::empty(), name);
    lemma_bound_names(program.raw, bind_labels(program.bss, Map::empty()), name);
}

/// The first pass meets no clash in either section of `program`.
pub open spec fn lays_out(program: ProgramView) -> bool {
    &&& first_clash(program.bss, Map::empty()) is None
    &&& first_clash(program.raw, bind_labels(program.bss, Map::empty())) is None
}

/// A program whose labels are all distinct is laid out without a clash.
pub proof fn lemma_distinct_labels_lay_out(program: ProgramView)
    requires
        labels_distinct(program.bss + program.raw),
    ensures
        lays_out(program),
{
    let all = program.bss + program.raw;
    let split = program.bss.len() as int;
    let bss = program.bss;
    let raw = program.raw;
    assert forall|i: int, j: int|
        0 <= i < j < bss.len() && (#[trigger] bss[i]).label is Some implies bss[i].label != (
        #[trigger] bss[j]).label by {
        assert(all[i] == program.bss[i] && all[j] == program.bss[j]);
    }
    lemma_distinct_labels_pass(program.bss, Map::empty());
    assert forall|i: int, j: int|
        0 <= i < j < raw.len() && (#[trigger] raw[i]).label is Some implies raw[i].label != (
        #[trigger] raw[j]).label by {
        assert(all[split + i] == program.raw[i] && all[split + j] == program.raw[j]);
    }
    let bss_symbols = bind_labels(program.bss, Map::empty());
    assert forall|name: Seq<char>| defines(program.raw, name) implies !bss_symbols.contains_key(
        name,
    ) by {
        lemma_bound_names(program.bss, Map::empty(), name);
        if defines(program.bss, name) {
            let i = choose|i: int|
                0 <= i < program.bss.len() && (#[trigger] program.bss[i]).label == Some(name);
            let j = choose|j: int|
                0 <= j < program.raw.len() && (#[trigger] program.raw[j]).label == Some(name);
            assert(all[i] == program.bss[i] && all[split + j] == program.raw[j]);
        }
    }
    lemma_distinct_labels_pass(program.raw, bss_symbols);
}

/// In a program whose labels are distinct, an operand that names a label
/// which no entry carries makes assembly fail with an undefined symbol. The
/// symbol reported is such a label: the one given, if the program has no
/// other.
pub proof fn lemma_undefined_reference_fails(
    program: ProgramView,
    entry_point: Seq<char>,
    name: Seq<char>,
)
    requires
        labels_distinct(program.bss + program.raw),
        dangling(program, name),
    ensures
        assembled(program, entry_point) matches Err(AssembleErrorView::UndefinedSymbol(found))
            && dangling(program, found),
        (forall|other: Seq<char>| dangling(program, other) ==> other == name) ==> assembled(
            program,
            entry_point,
        ) == Err::<BlobView, AssembleErrorView>(
            AssembleErrorView::UndefinedSymbol(name),
        ),
{
    lemma_distinct_labels_lay_out(program);
    let symbols = program_symbols(program);
    lemma_program_symbols(program, name);
    let bss = section_entities(program.bss);
    let raw = section_entities(program.raw);
    lemma_section_references(program.bss, name);
    lemma_section_references(program.raw, name);
    if references(program.bss, name) {
        let k = choose|k: int| 0 <= k < bss.len() && bss[k] == Entity::Label(name);
        lemma_unbound_fails(bss, symbols, k);
    } else {
        let k = choose|k: int| 0 <= k < raw.len() && raw[k] == Entity::Label(name);
        lemma_unbound_fails(raw, symbols, k);
    }
    if resolve(bss, symbols) is Err {
        lemma_unresolved_is_unbound(bss, symbols);
        let found = resolve(bss, symbols)->Err_0;
        lemma_section_references(program.bss, found);
        lemma_program_symbols(program, found);
        assert(dangling(program, found));
    } else {
        lemma_unresolved_is_unbound(raw, symbols);
        let found = resolve(raw, symbols)->Err_0;
        lemma_section_references(program.raw, found);
        lemma_program_symbols(program, found);
        assert(dangling(program, found));
    }
}

/// Where no entry carries the entry point's name, assembly fails. The
/// failure is the missing entry point whenever the sections themselves
/// assemble: a label defined twice or an operand without a definition is
/// reported before the entry point is looked up.
pub proof fn lemma_missing_entry_point_fails(program: ProgramView, entry_point: Seq<char>)
    requires
        !defines(program.bss, entry_point),
        !defines(program.raw, entry_point),
    ensures
        assembled(program, entry_point) is Err,
        lays_out(program) && resolve(section_entities(program.bss), program_symbols(program)) is Ok
            && resolve(section_entities(program.raw), program_symbols(program)) is Ok
            ==> assembled(program, entry_point) == Err::<
            BlobView,
            AssembleErrorView,
        >(AssembleErrorView::MissingEntryPoint(entry_point)),
{
    lemma_program_symbols(program, entry_point);
}

} // verus!
