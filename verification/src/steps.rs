//! What each kind of statement does to a program that is being laid out.

use crate::assembler::{AsmView, ErrorView};
use crate::ast::{LabelKind, NodeView};
use crate::backpatch::CodeView;
use crate::labels::LabelView;
use crate::{assembler, backpatch, bytes, emit, labels, layout, optimize, output};
use vstd::prelude::*;

verus! {

/// Whether `next` is `state` with further bytes at the end of the code, and otherwise the
/// same labels.
pub open spec fn is_longer_by(state: AsmView, next: AsmView, value: Seq<u8>) -> bool {
    &&& output::code_bytes(next.code) == output::code_bytes(state.code) + value
    &&& next.address == state.address + value.len()
    &&& next.labels == state.labels
    &&& next.optimizing == state.optimizing
}

/// Whether the code and the address of two states are the same.
pub open spec fn is_as_long(state: AsmView, next: AsmView) -> bool {
    &&& next.code == state.code
    &&& next.address == state.address
    &&& next.targets == state.targets
}

/// The bytes of all code are those of its pieces one after the other.
pub proof fn law_code_bytes_follow_each_other(a: Seq<CodeView>, b: Seq<CodeView>)
    ensures
        output::code_bytes(a + b) == output::code_bytes(a) + output::code_bytes(b),
        forall|piece: CodeView| #[trigger] output::code_bytes(seq![piece]) == piece.value,
    decreases b.len(),
{
    assert forall|piece: CodeView| #[trigger] output::code_bytes(seq![piece]) == piece.value by {
        reveal_with_fuel(output::code_bytes, 2);
        assert(seq![piece].drop_last() =~= seq![]);
        assert(output::code_bytes(seq![piece]) =~= piece.value);
    }
    if b.len() == 0 {
        assert(a + b =~= a);
        assert(output::code_bytes(a) + output::code_bytes(b) =~= output::code_bytes(a));
    } else {
        law_code_bytes_follow_each_other(a, b.drop_last());
        assert((a + b).drop_last() =~= a + b.drop_last());
        assert((a + b).last() == b.last());
        assert(output::code_bytes(a + b) =~= output::code_bytes(a) + output::code_bytes(b));
    }
}

proof fn lemma_emitted(state: AsmView, value: Seq<u8>, at: u32)
    ensures
        match assembler::emitted(state, value, at) {
            Ok(next) => is_longer_by(state, next, value) && next.targets == state.targets
                && next.code == state.code.push(CodeView { value, address: at }) && state.address
                + value.len() <= 0xFFFF_FFFF,
            Err(error) => error == ErrorView::AddressOverflow && state.address + value.len()
                > 0xFFFF_FFFF,
        },
{
    let code = state.code.push(CodeView { value, address: at });
    assert(code.drop_last() =~= state.code);
    assert(output::code_bytes(code) =~= output::code_bytes(state.code) + value);
}

/// A label has the current address, and is refused where the name is known already.
pub proof fn law_label_is_laid_out(state: AsmView, name: Seq<char>, kind: LabelKind)
    ensures
        match assembler::step(state, NodeView::LabelDefine { name, kind }) {
            Ok(next) => {
                &&& labels::find_label(state.labels, name) is None
                &&& labels::find_label(next.labels, name) == Some((state.address, false))
                &&& is_as_long(state, next)
                &&& next.optimizing == state.optimizing
            },
            Err(error) => error == ErrorView::DuplicateLabel(name) && labels::find_label(
                state.labels,
                name,
            ) is Some,
        },
{
    labels::law_put_then_find(
        state.labels,
        LabelView { name, address: state.address, is_const: false },
        name,
    );
}

/// A constant has the value that it is given, whatever the name stood for before.
pub proof fn law_constant_is_laid_out(state: AsmView, name: Seq<char>, address: u32)
    ensures
        assembler::step(state, NodeView::Constant { name, address }) matches Ok(next) && {
            &&& labels::find_label(next.labels, name) == Some((address, true))
            &&& is_as_long(state, next)
            &&& next.optimizing == state.optimizing
        },
{
    labels::law_put_then_find(
        state.labels,
        LabelView { name, address, is_const: true },
        name,
    );
}

/// A statement that defines a name leaves what the other names stand for.
pub proof fn law_other_names_stay(state: AsmView, node: NodeView, name: Seq<char>)
    requires
        match node {
            NodeView::LabelDefine { name: other, .. } => other != name,
            NodeView::Constant { name: other, .. } => other != name,
            _ => true,
        },
    ensures
        assembler::step(state, node) matches Ok(next) ==> labels::find_label(next.labels, name)
            == labels::find_label(state.labels, name),
{
    match node {
        NodeView::LabelDefine { name: other, .. } => labels::law_put_then_find(
            state.labels,
            LabelView { name: other, address: state.address, is_const: false },
            name,
        ),
        NodeView::Constant { name: other, address } => labels::law_put_then_find(
            state.labels,
            LabelView { name: other, address, is_const: true },
            name,
        ),
        _ => {},
    }
}

/// An origin moves on to its address, which must lie ahead; no byte is laid out.
pub proof fn law_origin_is_laid_out(state: AsmView, address: u32)
    ensures
        match assembler::step(state, NodeView::Origin(address)) {
            Ok(next) => {
                &&& address > state.address
                &&& next == (AsmView { address, ..state })
            },
            Err(error) => error == ErrorView::OriginBehind && address <= state.address,
        },
{
}

/// A padded origin fills the bytes up to its address with zeros.
pub proof fn law_padding_is_laid_out(state: AsmView, address: u32)
    ensures
        match assembler::step(state, NodeView::OriginPadded(address)) {
            Ok(next) => {
                &&& address > state.address
                &&& next.address == address
                &&& is_longer_by(state, next, Seq::new((address - state.address) as nat, |i: int| 0u8))
                &&& next.targets == state.targets
            },
            Err(error) => error == ErrorView::OriginBehind && address <= state.address,
        },
{
    let padding = Seq::new((address - state.address) as nat, |i: int| 0u8);
    assert(assembler::filled(0, address - state.address) =~= padding);
    lemma_emitted(state, padding, 0);
}

/// A fill lays out a byte so many times.
pub proof fn law_fill_is_laid_out(state: AsmView, value: u8, size: u32)
    ensures
        match assembler::step(state, NodeView::DataFill { value, size }) {
            Ok(next) => {
                &&& state.address + size <= 0xFFFF_FFFF
                &&& is_longer_by(state, next, Seq::new(size as nat, |i: int| value))
                &&& next.targets == state.targets
            },
            Err(error) => error == ErrorView::AddressOverflow && state.address + size
                > 0xFFFF_FFFF,
        },
{
    let data = Seq::new(size as nat, |i: int| value);
    assert(assembler::filled(value, size as int) =~= data);
    lemma_emitted(state, data, 0);
}

/// A binary file is laid out as it is.
pub proof fn law_binary_is_laid_out(state: AsmView, data: Seq<u8>)
    ensures
        match assembler::step(state, NodeView::IncludedBinary(data)) {
            Ok(next) => {
                &&& state.address + data.len() <= 0xFFFF_FFFF
                &&& is_longer_by(state, next, data)
                &&& next.targets == state.targets
            },
            Err(error) => error == ErrorView::AddressOverflow && state.address + data.len()
                > 0xFFFF_FFFF,
        },
{
    lemma_emitted(state, data, 0);
}

/// A switch turns the optimizer on or off, and lays out nothing; no other statement
/// touches the switch.
pub proof fn law_switch_is_laid_out(state: AsmView, node: NodeView)
    ensures
        match node {
            NodeView::Optimize(on) => assembler::step(state, node) == Ok::<AsmView, ErrorView>(
                AsmView { optimizing: on, ..state },
            ),
            _ => assembler::step(state, node) matches Ok(next) ==> next.optimizing
                == state.optimizing,
        },
{
}

/// Optimization is off until it is switched on, and as the last switch left it.
pub proof fn law_last_switch_counts(before: Seq<NodeView>, on: bool, after: Seq<NodeView>)
    requires
        forall|k: int| 0 <= k < after.len() ==> !(#[trigger] after[k] is Optimize),
    ensures
        assembler::run(assembler::initial(), before + seq![NodeView::Optimize(on)] + after) matches Ok(
            state,
        ) ==> state.optimizing == on,
        assembler::run(assembler::initial(), after) matches Ok(state) ==> !state.optimizing,
{
    let start = assembler::initial();
    let switch = seq![NodeView::Optimize(on)];
    layout::law_run_in_parts(start, before + switch, after);
    layout::law_run_in_parts(start, before, switch);
    lemma_switch_stays(start, after);
    if let Ok(middle) = assembler::run(start, before) {
        assert(switch.drop_first() =~= Seq::empty());
        reveal_with_fuel(assembler::run, 2);
        lemma_switch_stays(AsmView { optimizing: on, ..middle }, after);
    }
}

proof fn lemma_switch_stays(state: AsmView, nodes: Seq<NodeView>)
    requires
        forall|k: int| 0 <= k < nodes.len() ==> !(#[trigger] nodes[k] is Optimize),
    ensures
        assembler::run(state, nodes) matches Ok(after) ==> after.optimizing == state.optimizing,
    decreases nodes.len(),
{
    if nodes.len() > 0 {
        assert(!(nodes[0] is Optimize));
        if let Ok(next) = assembler::step(state, nodes[0]) {
            let rest = nodes.drop_first();
            assert forall|k: int| 0 <= k < rest.len() implies !(#[trigger] rest[k] is Optimize) by {
                assert(rest[k] == nodes[k + 1]);
            }
            lemma_switch_stays(next, rest);
        }
    }
}

/// Data is laid out byte by byte: numbers with their low byte first, text in its UTF-8
/// encoding, with a zero byte behind it where that is asked for.
pub proof fn law_data_is_laid_out(state: AsmView, node: NodeView)
    requires
        node is DataByte || node is DataHalf || node is DataWord || node is DataStr
            || node is DataStrZero,
    ensures
        match assembler::step(state, node) {
            Ok(next) => {
                &&& next.targets == state.targets
                &&& next.code.len() == state.code.len() + 1
                &&& next.code.last().address == state.address
                &&& match node {
                    NodeView::DataByte(n) => is_longer_by(state, next, seq![n]),
                    NodeView::DataHalf(n) => is_longer_by(
                        state,
                        next,
                        seq![(n % 256) as u8, (n / 256) as u8],
                    ),
                    NodeView::DataWord(n) => is_longer_by(
                        state,
                        next,
                        seq![
                            (n % 256) as u8,
                            (n / 256 % 256) as u8,
                            (n / 65536 % 256) as u8,
                            (n / 16777216) as u8,
                        ],
                    ),
                    NodeView::DataStr(text) => is_longer_by(
                        state,
                        next,
                        vstd::utf8::encode_utf8(text),
                    ),
                    NodeView::DataStrZero(text) => is_longer_by(
                        state,
                        next,
                        vstd::utf8::encode_utf8(text) + seq![0u8],
                    ),
                    _ => false,
                }
            },
            Err(error) => error == ErrorView::AddressOverflow && state.address
                + emit::statement_bytes(node).len() > 0xFFFF_FFFF,
        },
{
    reveal(bytes::le16);
    reveal(bytes::le32);
    lemma_emitted(state, emit::statement_bytes(node), state.address);
    if let NodeView::DataStrZero(text) = node {
        let data = vstd::utf8::encode_utf8(text);
        assert(data.push(0) =~= data + seq![0u8]);
    }
}

/// An instruction is laid out at the current address, and moves it on by the number of
/// its bytes; while the optimizer is off, it is the instruction that was written.
pub proof fn law_instruction_is_laid_out(state: AsmView, node: NodeView)
    requires
        emit::is_assemblable(layout::actual(state, node)),
    ensures
        !state.optimizing ==> layout::actual(state, node) == node,
        state.optimizing ==> layout::actual(state, node) == optimize::optimized(node),
        ({
            let value = emit::statement_bytes(layout::actual(state, node));
            match assembler::step(state, node) {
                Ok(next) => {
                    &&& is_longer_by(state, next, value)
                    &&& next.code == state.code.push(CodeView { value, address: state.address })
                },
                Err(error) => error == ErrorView::AddressOverflow && state.address + value.len()
                    > 0xFFFF_FFFF,
            }
        }),
{
    let statement = layout::actual(state, node);
    let added = AsmView {
        targets: emit::add_uses(
            state.targets,
            state.code.len() as usize,
            emit::statement_uses(statement),
        ),
        ..state
    };
    lemma_emitted(added, emit::statement_bytes(statement), state.address);
}

/// The name that is reported as missing is used and not known, and it is the first of
/// those in the order of a dictionary.
pub proof fn law_first_missing_label_is_reported(
    code: Seq<CodeView>,
    table: Seq<labels::EntryView>,
    known: Seq<LabelView>,
    relocs: Seq<u32>,
)
    requires
        labels::names_in_order(table),
    ensures
        assembler::resolved(code, table, known, relocs) matches Err(error) ==> {
            &&& error matches ErrorView::LabelNotFound(name)
            &&& labels::find_label(known, name) is None
            &&& exists|i: int| 0 <= i < table.len() && (#[trigger] table[i]).0 == name
            &&& forall|i: int|
                0 <= i < table.len() && labels::find_label(known, (#[trigger] table[i]).0) is None
                    ==> table[i].0 == name || labels::name_before(name, table[i].0)
        },
    decreases table.len(),
{
    if table.len() > 0 {
        let rest = table.drop_first();
        match labels::find_label(known, table[0].0) {
            None => {
                assert(table[0].0 == table[0].0);
                assert forall|i: int|
                    0 <= i < table.len() && labels::find_label(
                        known,
                        (#[trigger] table[i]).0,
                    ) is None implies table[i].0 == table[0].0 || labels::name_before(
                    table[0].0,
                    table[i].0,
                ) by {
                    if i > 0 {
                        assert(labels::name_before(table[0].0, table[i].0));
                    }
                }
            },
            Some((address, is_const)) => {
                let next = backpatch::patch_targets(code, table[0].1, address);
                let more = if is_const {
                    relocs
                } else {
                    relocs + backpatch::relocations(code, table[0].1)
                };
                assert forall|i: int, j: int| 0 <= i < j < rest.len() implies labels::name_before(
                    (#[trigger] rest[i]).0,
                    (#[trigger] rest[j]).0,
                ) by {
                    assert(rest[i] == table[i + 1] && rest[j] == table[j + 1]);
                }
                law_first_missing_label_is_reported(next, rest, known, more);
                if let Err(ErrorView::LabelNotFound(name)) = assembler::resolved(
                    code,
                    table,
                    known,
                    relocs,
                ) {
                    let k = choose|k: int| 0 <= k < rest.len() && (#[trigger] rest[k]).0 == name;
                    assert(table[k + 1].0 == name);
                    assert forall|i: int|
                        0 <= i < table.len() && labels::find_label(
                            known,
                            (#[trigger] table[i]).0,
                        ) is None implies table[i].0 == name || labels::name_before(
                        name,
                        table[i].0,
                    ) by {
                        assert(i > 0);
                        assert(rest[i - 1] == table[i]);
                    }
                }
            },
        }
    }
}

/// The FXF binary and the raw output of a program hold the same code.
pub proof fn law_both_outputs_hold_the_same_code(nodes: Seq<NodeView>)
    requires
        assembler::assembled(nodes, true) is Ok,
    ensures
        assembler::assembled(nodes, false) is Ok,
        ({
            let raw = assembler::assembled(nodes, false)->Ok_0;
            let fxf = assembler::assembled(nodes, true)->Ok_0;
            &&& fxf.len() >= 0x14 + raw.len()
            &&& fxf.subrange(0x14, 0x14 + raw.len() as int) == raw
            &&& fxf[0] == 0x46 && fxf[1] == 0x58 && fxf[2] == 0x46 && fxf[3] == 0
        }),
{
    let state = assembler::run(assembler::initial(), nodes)->Ok_0;
    let (code, relocs) = assembler::resolved(
        state.code,
        state.targets,
        state.labels,
        seq![],
    )->Ok_0;
    let raw = output::code_bytes(code);
    let fxf = output::fxf_binary(code, relocs);
    let header = output::fxf_header(raw.len() as int, 4 * relocs.len() as int);
    bytes::law_word_reads_back(output::length_word(raw.len() as int));
    bytes::law_word_reads_back(output::FXF_CODE_START);
    bytes::law_word_reads_back(output::length_word(4 * relocs.len() as int));
    bytes::law_word_reads_back(
        output::length_word(output::FXF_CODE_START + raw.len() as int),
    );
    assert(header.len() == 0x14);
    assert(fxf.subrange(0x14, 0x14 + raw.len() as int) =~= raw);
    assert(fxf[0] == header[0] && fxf[1] == header[1] && fxf[2] == header[2] && fxf[3]
        == header[3]);
}

/// Addresses are filled in if and only if every label that is used is known.
pub proof fn law_all_labels_must_be_known(
    code: Seq<CodeView>,
    table: Seq<labels::EntryView>,
    known: Seq<LabelView>,
    relocs: Seq<u32>,
)
    ensures
        assembler::resolved(code, table, known, relocs) is Ok <==> forall|i: int|
            0 <= i < table.len() ==> labels::find_label(known, (#[trigger] table[i]).0) is Some,
    decreases table.len(),
{
    if table.len() > 0 {
        if let Some((address, is_const)) = labels::find_label(known, table[0].0) {
            let rest = table.drop_first();
            law_all_labels_must_be_known(
                backpatch::patch_targets(code, table[0].1, address),
                rest,
                known,
                if is_const {
                    relocs
                } else {
                    relocs + backpatch::relocations(code, table[0].1)
                },
            );
            assert(forall|i: int| 0 <= i < rest.len() ==> #[trigger] rest[i] == table[i + 1]);
            assert forall|i: int|
                0 < i < table.len() implies #[trigger] table[i] == rest[i - 1] by {}
        } else {
            assert(labels::find_label(known, table[0].0) is None);
        }
    }
}

/// A program whose labels are known is written out, but for an FXF binary with more
/// relocations than a word can count the bytes of; any other error is that of laying the
/// program out.
pub proof fn law_when_a_program_is_written(nodes: Seq<NodeView>)
    ensures
        match assembler::run(assembler::initial(), nodes) {
            Err(error) => forall|is_fxf: bool| #[trigger]
                assembler::assembled(nodes, is_fxf) == Err::<Seq<u8>, ErrorView>(error),
            Ok(state) => match assembler::resolved(
                state.code,
                state.targets,
                state.labels,
                seq![],
            ) {
                Err(error) => forall|is_fxf: bool| #[trigger]
                    assembler::assembled(nodes, is_fxf) == Err::<Seq<u8>, ErrorView>(error),
                Ok((code, relocs)) => {
                    &&& assembler::assembled(nodes, false) == Ok::<Seq<u8>, ErrorView>(
                        output::code_bytes(code),
                    )
                    &&& assembler::assembled(nodes, true) == if relocs.len() <= 0x3FFF_FFFF {
                        Ok::<Seq<u8>, ErrorView>(output::fxf_binary(code, relocs))
                    } else {
                        Err(ErrorView::TooManyRelocations)
                    }
                },
            },
        },
{
}

/// What is no statement, or asks for a file that has not been taken in, is refused.
pub proof fn law_nothing_else_is_assembled(state: AsmView, node: NodeView)
    requires
        match node {
            NodeView::Immediate8(_)
            | NodeView::Immediate16(_)
            | NodeView::Immediate32(_)
            | NodeView::Register(_)
            | NodeView::ImmediatePointer(_)
            | NodeView::RegisterPointer(_)
            | NodeView::RegisterPointerOffset(_, _)
            | NodeView::LabelOperandPointer { .. }
            | NodeView::IncludeBinary { .. } => true,
            _ => false,
        },
    ensures
        assembler::step(state, node) == Err::<AsmView, ErrorView>(ErrorView::NotAssemblable),
{
}

} // verus!
