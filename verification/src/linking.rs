//! What the finished bytes of a program are: those of the same program with addresses in
//! place of labels.

use crate::assembler::{AsmView, ErrorView};
use crate::ast::{IncDecView, NodeView, OneView, Size, TwoView};
use crate::backpatch::BackpatchTarget;
use crate::emit::LabelUse;
use crate::labels::{EntryView, LabelView};
use crate::{
    assembler, backpatch, bytes, decoding, emit, encode, labels, layout, output, placement, processor,
    resolution,
};
use vstd::prelude::*;

verus! {

/// Whether a target stands for a use of the label `name`: the use with the number `k` in
/// the statement with the number `i`, at the place in the code that this statement has.
pub open spec fn is_use(
    nodes: Seq<NodeView>,
    i: int,
    k: int,
    name: Seq<char>,
    target: BackpatchTarget,
) -> bool {
    &&& 0 <= i < nodes.len()
    &&& assembler::run(assembler::initial(), nodes.take(i)) matches Ok(middle)
    &&& emit::is_assemblable(layout::actual(middle, nodes[i]))
    &&& {
        let uses = emit::statement_uses(layout::actual(middle, nodes[i]));
        &&& 0 <= k < uses.len()
        &&& uses[k].name == name
        &&& target.instruction == middle.code.len()
        &&& target.index == uses[k].index
        &&& target.size == uses[k].size
        &&& target.is_relative == uses[k].is_relative
    }
}

proof fn lemma_add_uses_lists(
    table: Seq<EntryView>,
    slot: usize,
    uses: Seq<LabelUse>,
    name: Seq<char>,
    target: BackpatchTarget,
)
    ensures
        labels::lists(emit::add_uses(table, slot, uses), name, target) <==> {
            ||| labels::lists(table, name, target)
            ||| exists|k: int|
                0 <= k < uses.len() && (#[trigger] uses[k]).name == name && emit::use_target(
                    slot,
                    uses[k],
                ) == target
        },
    decreases uses.len(),
{
    if uses.len() > 0 {
        let earlier = uses.drop_last();
        let last = uses[uses.len() - 1];
        lemma_add_uses_lists(table, slot, earlier, name, target);
        labels::law_add_target_lists_it(
            emit::add_uses(table, slot, earlier),
            last.name,
            emit::use_target(slot, last),
            name,
            target,
        );
        if exists|k: int|
            0 <= k < earlier.len() && (#[trigger] earlier[k]).name == name && emit::use_target(
                slot,
                earlier[k],
            ) == target {
            let k = choose|k: int|
                0 <= k < earlier.len() && (#[trigger] earlier[k]).name == name
                    && emit::use_target(slot, earlier[k]) == target;
            assert(uses[k] == earlier[k]);
        }
        if exists|k: int|
            0 <= k < uses.len() && (#[trigger] uses[k]).name == name && emit::use_target(
                slot,
                uses[k],
            ) == target {
            let k = choose|k: int|
                0 <= k < uses.len() && (#[trigger] uses[k]).name == name && emit::use_target(
                    slot,
                    uses[k],
                ) == target;
            if k < earlier.len() {
                assert(earlier[k] == uses[k]);
            }
        }
    }
}

/// The last step of a run.
proof fn lemma_last_step(nodes: Seq<NodeView>)
    requires
        nodes.len() > 0,
    ensures
        assembler::run(assembler::initial(), nodes) == match assembler::run(
            assembler::initial(),
            nodes.drop_last(),
        ) {
            Ok(middle) => assembler::step(middle, nodes.last()),
            Err(error) => Err(error),
        },
{
    let start = assembler::initial();
    let last = seq![nodes.last()];
    assert(nodes =~= nodes.drop_last() + last);
    layout::law_run_in_parts(start, nodes.drop_last(), last);
    if let Ok(middle) = assembler::run(start, nodes.drop_last()) {
        assert(last.drop_first() =~= Seq::empty());
        reveal_with_fuel(assembler::run, 2);
    }
}

/// The targets of a program are exactly the uses of labels in its statements.
pub proof fn law_targets_are_the_uses(
    nodes: Seq<NodeView>,
    name: Seq<char>,
    target: BackpatchTarget,
)
    requires
        nodes.len() <= usize::MAX,
    ensures
        assembler::run(assembler::initial(), nodes) matches Ok(state) ==> (labels::lists(
            state.targets,
            name,
            target,
        ) <==> exists|i: int, k: int| is_use(nodes, i, k, name, target)),
    decreases nodes.len(),
{
    let start = assembler::initial();
    if nodes.len() == 0 {
    } else if let Ok(state) = assembler::run(start, nodes) {
        let shorter = nodes.drop_last();
        let count = shorter.len() as int;
        lemma_last_step(nodes);
        let middle = assembler::run(start, shorter)->Ok_0;
        law_targets_are_the_uses(shorter, name, target);
        assert(nodes.take(count) =~= shorter);
        assert forall|i: int, k: int| is_use(shorter, i, k, name, target) implies is_use(
            nodes,
            i,
            k,
            name,
            target,
        ) by {
            assert(nodes.take(i) =~= shorter.take(i));
            assert(nodes[i] == shorter[i]);
        }
        assert forall|i: int, k: int|
            is_use(nodes, i, k, name, target) && i < count implies is_use(
            shorter,
            i,
            k,
            name,
            target,
        ) by {
            assert(nodes.take(i) =~= shorter.take(i));
            assert(nodes[i] == shorter[i]);
        }
        let statement = layout::actual(middle, nodes.last());
        let uses = emit::statement_uses(statement);
        let slot = middle.code.len() as usize;
        layout::lemma_run_length(start, shorter);
        if emit::is_assemblable(statement) {
            lemma_add_uses_lists(middle.targets, slot, uses, name, target);
            placement::law_uses_lie_in_the_statement(statement);
            assert(emit::statement_bytes(statement).len() <= u32::MAX);
            assert forall|k: int| 0 <= k < uses.len() implies (#[trigger] uses[k]).index
                == emit::use_target(slot, uses[k]).index by {}
            if exists|k: int|
                0 <= k < uses.len() && (#[trigger] uses[k]).name == name && emit::use_target(
                    slot,
                    uses[k],
                ) == target {
                let k = choose|k: int|
                    0 <= k < uses.len() && (#[trigger] uses[k]).name == name
                        && emit::use_target(slot, uses[k]) == target;
                assert(is_use(nodes, count, k, name, target));
            }
            assert forall|k: int| is_use(nodes, count, k, name, target) implies 0 <= k < uses.len()
                && uses[k].name == name && emit::use_target(slot, uses[k]) == target by {}
        } else {
            assert(state.targets == middle.targets);
        }
        if labels::lists(state.targets, name, target) {
            assert(exists|i: int, k: int| is_use(nodes, i, k, name, target)) by {
                if labels::lists(middle.targets, name, target) {
                    let (i, k) = choose|i: int, k: int| is_use(shorter, i, k, name, target);
                    assert(is_use(nodes, i, k, name, target));
                }
            }
        }
        if exists|i: int, k: int| is_use(nodes, i, k, name, target) {
            let (i, k) = choose|i: int, k: int| is_use(nodes, i, k, name, target);
            if i < count {
                assert(is_use(shorter, i, k, name, target));
            } else {
                assert(i == count);
                assert(is_use(nodes, count, k, name, target));
            }
        }
    }
}

/// Every statement with bytes of its own moves the next one to a later place in the code.
proof fn lemma_slots(nodes: Seq<NodeView>, a: int, b: int)
    requires
        0 <= a < b <= nodes.len(),
    ensures
        assembler::run(assembler::initial(), nodes.take(b)) matches Ok(late) ==> {
            &&& assembler::run(assembler::initial(), nodes.take(a)) matches Ok(early)
            &&& emit::is_assemblable(layout::actual(early, nodes[a])) ==> early.code.len()
                < late.code.len()
        },
{
    let start = assembler::initial();
    let first = nodes.take(a + 1);
    let second = nodes.subrange(a + 1, b);
    assert(nodes.take(b) =~= first + second);
    layout::law_run_in_parts(start, first, second);
    lemma_last_step(first);
    assert(first.drop_last() =~= nodes.take(a));
    if let Ok(next) = assembler::run(start, first) {
        layout::law_run_keeps_the_code_before(next, second);
    }
}

/// A target among all targets of a table is listed under some name.
proof fn lemma_entry_of(table: Seq<EntryView>, j: int) -> (found: (int, int))
    requires
        0 <= j < placement::all_targets(table).len(),
    ensures
        0 <= found.0 < table.len(),
        0 <= found.1 < table[found.0].1.len(),
        table[found.0].1[found.1] == placement::all_targets(table)[j],
    decreases table.len(),
{
    let first = table[0].1;
    if j < first.len() {
        (0, j)
    } else {
        let (entry, i) = lemma_entry_of(table.drop_first(), j - first.len());
        (entry + 1, i)
    }
}

/// The address of a label.
pub open spec fn label_address(known: Seq<LabelView>, name: Seq<char>) -> u32 {
    match labels::find_label(known, name) {
        Some((address, _)) => address,
        None => 0,
    }
}

/// What stands for a label at `address` in a statement at `base`: the address, or the
/// number that leads from `base` to it in the 32 bits of an address.
pub open spec fn label_value(address: u32, is_relative: bool, base: u32) -> u32 {
    if !is_relative {
        address
    } else if address >= base {
        (address - base) as u32
    } else {
        (0x1_0000_0000 - (base - address)) as u32
    }
}

/// An operand with the address of a label in place of the label.
pub open spec fn linked_operand(operand: NodeView, known: Seq<LabelView>, base: u32) -> NodeView {
    match operand {
        NodeView::LabelOperand { name, size, is_relative } => {
            let value = label_value(label_address(known, name), is_relative, base);
            match size {
                Size::Byte => NodeView::Immediate8((value % 256) as u8),
                Size::Half => NodeView::Immediate16((value % 65536) as u16),
                Size::Word => NodeView::Immediate32(value),
            }
        },
        NodeView::LabelOperandPointer { name, is_relative } => NodeView::ImmediatePointer(
            label_value(label_address(known, name), is_relative, base),
        ),
        _ => operand,
    }
}

/// A statement at `base` with the addresses of labels in place of the labels.
pub open spec fn linked(node: NodeView, known: Seq<LabelView>, base: u32) -> NodeView {
    match node {
        NodeView::OperationOne(op) => NodeView::OperationOne(
            OneView { operand: Box::new(linked_operand(*op.operand, known, base)), ..op },
        ),
        NodeView::OperationIncDec(op) => NodeView::OperationIncDec(
            IncDecView { lhs: Box::new(linked_operand(*op.lhs, known, base)), ..op },
        ),
        NodeView::OperationTwo(op) => NodeView::OperationTwo(
            TwoView {
                lhs: Box::new(linked_operand(*op.lhs, known, base)),
                rhs: Box::new(linked_operand(*op.rhs, known, base)),
                ..op
            },
        ),
        NodeView::LabelOperand { .. } => match linked_operand(node, known, base) {
            NodeView::Immediate8(n) => NodeView::DataByte(n),
            NodeView::Immediate16(n) => NodeView::DataHalf(n),
            NodeView::Immediate32(n) => NodeView::DataWord(n),
            other => other,
        },
        _ => node,
    }
}

/// Whether `value` holds what belongs there: at each use the value of the label, and
/// elsewhere the bytes of the statement.
spec fn is_filled(
    value: Seq<u8>,
    statement: NodeView,
    known: Seq<LabelView>,
    base: u32,
) -> bool {
    let own = emit::statement_bytes(statement);
    let uses = emit::statement_uses(statement);
    &&& value.len() == own.len()
    &&& forall|k: int|
        0 <= k < uses.len() ==> value.subrange(
            (#[trigger] uses[k]).index,
            uses[k].index + backpatch::width(uses[k].size),
        ) == bytes::le32(
            backpatch::target_value(
                uses[k].is_relative,
                label_address(known, uses[k].name),
                base,
            ),
        ).take(backpatch::width(uses[k].size))
    &&& forall|j: int|
        0 <= j < own.len() ==> #[trigger] value[j] == own[j] || exists|k: int|
            0 <= k < uses.len() && (#[trigger] uses[k]).index <= j < uses[k].index
                + backpatch::width(uses[k].size)
}

proof fn lemma_value_bytes(value: u32)
    ensures
        bytes::le32(value).take(1) == seq![(value % 256) as u8],
        bytes::le32(value).take(2) == bytes::le16((value % 65536) as u16),
        bytes::le32(value).take(4) == bytes::le32(value),
        bytes::le32(value).len() == 4,
{
    reveal(bytes::le32);
    reveal(bytes::le16);
    assert(bytes::le32(value).take(1) =~= seq![(value % 256) as u8]);
    assert(bytes::le32(value).take(2) =~= bytes::le16((value % 65536) as u16));
    assert(bytes::le32(value).take(4) =~= bytes::le32(value));
}

proof fn lemma_label_value(address: u32, is_relative: bool, base: u32)
    ensures
        backpatch::target_value(is_relative, address, base) == label_value(
            address,
            is_relative,
            base,
        ),
{
}

/// The bytes of an operand whose label has been filled in.
proof fn lemma_linked_operand(
    operand: NodeView,
    offsets: bool,
    at: int,
    value: Seq<u8>,
    known: Seq<LabelView>,
    base: u32,
)
    requires
        encode::is_operand(operand),
        0 <= at,
        at + emit::operand_bytes(operand, offsets).len() <= value.len(),
        emit::operand_uses(operand, at).len() == 0 ==> value.subrange(
            at,
            at + emit::operand_bytes(operand, offsets).len(),
        ) == emit::operand_bytes(operand, offsets),
        forall|k: int|
            0 <= k < emit::operand_uses(operand, at).len() ==> ({
                let label_use = #[trigger] emit::operand_uses(operand, at)[k];
                value.subrange(at, at + backpatch::width(label_use.size)) == bytes::le32(
                    backpatch::target_value(
                        label_use.is_relative,
                        label_address(known, label_use.name),
                        base,
                    ),
                ).take(backpatch::width(label_use.size))
            }),
    ensures
        emit::operand_bytes(operand, offsets).len() == emit::operand_bytes(
            linked_operand(operand, known, base),
            offsets,
        ).len(),
        value.subrange(at, at + emit::operand_bytes(operand, offsets).len())
            == emit::operand_bytes(linked_operand(operand, known, base), offsets),
{
    let uses = emit::operand_uses(operand, at);
    if uses.len() > 0 {
        let first = uses[0];
        lemma_label_value(label_address(known, first.name), first.is_relative, base);
        lemma_value_bytes(
            label_value(label_address(known, first.name), first.is_relative, base),
        );
        match operand {
            NodeView::LabelOperand { size, .. } => match size {
                Size::Half => bytes::law_half_reads_back(
                    (label_value(label_address(known, first.name), first.is_relative, base)
                        % 65536) as u16,
                ),
                _ => {},
            },
            _ => {},
        }
    }
}

/// The first two bytes do not depend on the labels.
proof fn lemma_linked_header(statement: NodeView, known: Seq<LabelView>, base: u32)
    requires
        encode::is_encodable(statement),
    ensures
        encode::is_encodable(linked(statement, known, base)),
        encode::control_byte(linked(statement, known, base)) == encode::control_byte(statement),
        encode::instruction_byte(linked(statement, known, base)) == encode::instruction_byte(
            statement,
        ),
{
}

proof fn lemma_filled_is_linked(
    value: Seq<u8>,
    statement: NodeView,
    known: Seq<LabelView>,
    base: u32,
)
    requires
        emit::is_assemblable(statement),
        is_filled(value, statement, known, base),
    ensures
        value == emit::statement_bytes(linked(statement, known, base)),
{
    let own = emit::statement_bytes(statement);
    let uses = emit::statement_uses(statement);
    let goal = linked(statement, known, base);
    let offsets = emit::has_offsets(statement);
    placement::law_uses_lie_in_the_statement(statement);
    if encode::is_encodable(statement) {
        lemma_linked_header(statement, known, base);
        assert(emit::has_offsets(goal) == offsets);
        assert(own.take(2) =~= seq![
            encode::control_byte(statement),
            encode::instruction_byte(statement),
        ]);
        assert(own.skip(2) =~= emit::operands_bytes(emit::operands(statement), offsets));
        assert(uses == emit::operands_uses(emit::operands(statement), offsets, 2));
        lemma_uses_start(emit::operands(statement), offsets);
        assert(value[0] == own[0] && value[1] == own[1]);
        match statement {
            NodeView::OperationOne(op) => {
                lemma_filled_one(value, own, *op.operand, offsets, known, base, uses);
            },
            NodeView::OperationIncDec(op) => {
                lemma_filled_one(value, own, *op.lhs, offsets, known, base, uses);
            },
            NodeView::OperationTwo(op) => {
                lemma_filled_two(value, own, *op.rhs, *op.lhs, offsets, known, base, uses);
            },
            _ => {},
        }
        assert(value =~= emit::statement_bytes(goal)) by {
            assert(value.skip(2) =~= emit::operands_bytes(emit::operands(goal), offsets));
            assert(value =~= seq![value[0], value[1]] + value.skip(2));
        }
    } else {
        match statement {
            NodeView::LabelOperand { name, size, is_relative } => {
                let width = backpatch::width(size);
                let number = label_value(label_address(known, name), is_relative, base);
                lemma_label_value(label_address(known, name), is_relative, base);
                lemma_value_bytes(number);
                assert(uses[0].index == 0);
                assert(value.subrange(0, width) =~= value);
            },
            _ => {
                assert(value =~= own);
            },
        }
    }
}

/// The uses in operands lie behind the first two bytes.
proof fn lemma_uses_start(operands: Seq<NodeView>, offsets: bool)
    ensures
        forall|k: int|
            0 <= k < emit::operands_uses(operands, offsets, 2).len() ==> 2 <= (
            #[trigger] emit::operands_uses(operands, offsets, 2)[k]).index,
    decreases operands.len(),
{
    if operands.len() > 0 {
        lemma_uses_start(operands.drop_last(), offsets);
    }
}

proof fn lemma_filled_one(
    value: Seq<u8>,
    own: Seq<u8>,
    operand: NodeView,
    offsets: bool,
    known: Seq<LabelView>,
    base: u32,
    uses: Seq<LabelUse>,
)
    requires
        encode::is_operand(operand),
        value.len() == own.len(),
        own.len() >= 2,
        own.skip(2) == emit::operands_bytes(seq![operand], offsets),
        uses == emit::operands_uses(seq![operand], offsets, 2),
        forall|k: int|
            0 <= k < uses.len() ==> value.subrange(
                (#[trigger] uses[k]).index,
                uses[k].index + backpatch::width(uses[k].size),
            ) == bytes::le32(
                backpatch::target_value(
                    uses[k].is_relative,
                    label_address(known, uses[k].name),
                    base,
                ),
            ).take(backpatch::width(uses[k].size)),
        forall|j: int|
            0 <= j < own.len() ==> #[trigger] value[j] == own[j] || exists|k: int|
                0 <= k < uses.len() && (#[trigger] uses[k]).index <= j < uses[k].index
                    + backpatch::width(uses[k].size),
    ensures
        value.skip(2) == emit::operands_bytes(
            seq![linked_operand(operand, known, base)],
            offsets,
        ),
{
    emit::lemma_one_operand(operand, offsets, 2);
    emit::lemma_one_operand(linked_operand(operand, known, base), offsets, 2);
    let part = emit::operand_bytes(operand, offsets);
    assert(uses == emit::operand_uses(operand, 2));
    if uses.len() == 0 {
        assert(value.subrange(2, 2 + part.len() as int) =~= part) by {
            assert forall|j: int| 2 <= j < own.len() implies value[j] == own[j] by {}
            assert forall|j: int| 0 <= j < part.len() implies own[2 + j] == part[j] by {
                assert(own.skip(2)[j] == own[2 + j]);
            }
        }
    }
    lemma_linked_operand(operand, offsets, 2, value, known, base);
    assert(value.skip(2) =~= value.subrange(2, 2 + part.len() as int));
}

proof fn lemma_filled_two(
    value: Seq<u8>,
    own: Seq<u8>,
    first: NodeView,
    second: NodeView,
    offsets: bool,
    known: Seq<LabelView>,
    base: u32,
    uses: Seq<LabelUse>,
)
    requires
        encode::is_operand(first),
        encode::is_operand(second),
        value.len() == own.len(),
        own.len() >= 2,
        own.skip(2) == emit::operands_bytes(seq![first, second], offsets),
        uses == emit::operands_uses(seq![first, second], offsets, 2),
        forall|k: int|
            0 <= k < uses.len() ==> value.subrange(
                (#[trigger] uses[k]).index,
                uses[k].index + backpatch::width(uses[k].size),
            ) == bytes::le32(
                backpatch::target_value(
                    uses[k].is_relative,
                    label_address(known, uses[k].name),
                    base,
                ),
            ).take(backpatch::width(uses[k].size)),
        forall|j: int|
            0 <= j < own.len() ==> #[trigger] value[j] == own[j] || exists|k: int|
                0 <= k < uses.len() && (#[trigger] uses[k]).index <= j < uses[k].index
                    + backpatch::width(uses[k].size),
    ensures
        value.skip(2) == emit::operands_bytes(
            seq![linked_operand(first, known, base), linked_operand(second, known, base)],
            offsets,
        ),
{
    let part = emit::operand_bytes(first, offsets);
    let rest = emit::operand_bytes(second, offsets);
    let middle = 2 + part.len() as int;
    emit::lemma_one_operand(first, offsets, 2);
    decoding::lemma_two_operands(first, second, offsets);
    decoding::lemma_two_operands(
        linked_operand(first, known, base),
        linked_operand(second, known, base),
        offsets,
    );
    let early = emit::operand_uses(first, 2);
    let late = emit::operand_uses(second, middle);
    assert(seq![first, second].drop_last() =~= seq![first]);
    assert(uses =~= early + late);
    assert(own.skip(2) == part + rest);
    assert(own.skip(2).len() == own.len() - 2);
    assert forall|j: int| 0 <= j < part.len() implies own[2 + j] == part[j] by {
        assert(own.skip(2)[j] == own[2 + j]);
    }
    assert forall|j: int| 0 <= j < rest.len() implies own[middle + j] == rest[j] by {
        assert(own.skip(2)[part.len() + j] == own[middle + j]);
    }
    assert forall|k: int| 0 <= k < early.len() implies #[trigger] early[k] == uses[k] by {}
    assert forall|k: int| 0 <= k < late.len() implies #[trigger] late[k] == uses[
        early.len() + k
    ] by {}
    assert forall|k: int| 0 <= k < uses.len() implies {
        ||| k < early.len() && #[trigger] uses[k] == early[k]
        ||| k >= early.len() && uses[k] == late[k - early.len()]
    } by {}
    if early.len() == 0 {
        assert(value.subrange(2, middle) =~= part) by {
            assert forall|j: int| 2 <= j < middle implies value[j] == own[j] by {
                if value[j] != own[j] {
                    let k = choose|k: int|
                        0 <= k < uses.len() && (#[trigger] uses[k]).index <= j < uses[k].index
                            + backpatch::width(uses[k].size);
                    assert(uses[k] == late[k]);
                }
            }
        }
    }
    if late.len() == 0 {
        assert(value.subrange(middle, middle + rest.len()) =~= rest) by {
            assert forall|j: int| middle <= j < own.len() implies value[j] == own[j] by {
                if value[j] != own[j] {
                    let k = choose|k: int|
                        0 <= k < uses.len() && (#[trigger] uses[k]).index <= j < uses[k].index
                            + backpatch::width(uses[k].size);
                    assert(uses[k] == early[k]);
                }
            }
        }
    }
    lemma_linked_operand(first, offsets, 2, value, known, base);
    lemma_linked_operand(second, offsets, middle, value, known, base);
    assert(value.skip(2) =~= value.subrange(2, middle) + value.subrange(
        middle,
        middle + rest.len(),
    ));
}

/// What the targets of a program have to do with one of its statements: those that lie
/// in it are its own uses of labels.
proof fn lemma_own_targets(
    nodes: Seq<NodeView>,
    at: int,
    state: AsmView,
    middle: AsmView,
    j: int,
) -> (k: int)
    requires
        nodes.len() <= usize::MAX,
        0 <= at < nodes.len(),
        assembler::run(assembler::initial(), nodes) == Ok::<AsmView, ErrorView>(state),
        assembler::run(assembler::initial(), nodes.take(at)) == Ok::<AsmView, ErrorView>(middle),
        emit::is_assemblable(layout::actual(middle, nodes[at])),
        0 <= j < placement::all_targets(state.targets).len(),
        placement::all_targets(state.targets)[j].instruction == middle.code.len(),
    ensures
        ({
            let target = placement::all_targets(state.targets)[j];
            let uses = emit::statement_uses(layout::actual(middle, nodes[at]));
            &&& 0 <= k < uses.len()
            &&& target.index == uses[k].index
            &&& target.size == uses[k].size
            &&& target.is_relative == uses[k].is_relative
        }),
{
    let start = assembler::initial();
    let target = placement::all_targets(state.targets)[j];
    let (entry, i) = lemma_entry_of(state.targets, j);
    let name = state.targets[entry].0;
    assert(labels::lists(state.targets, name, target)) by {
        assert(state.targets[entry].1[i] == target);
    }
    law_targets_are_the_uses(nodes, name, target);
    let (n, k) = choose|n: int, k: int| is_use(nodes, n, k, name, target);
    if n < at {
        lemma_slots(nodes, n, at);
    } else if n > at {
        lemma_slots(nodes, at, n);
    }
    assert(n == at);
    k
}

/// The statements before and after one of them.
proof fn lemma_split(before: Seq<NodeView>, node: NodeView, after: Seq<NodeView>)
    ensures
        (before + seq![node] + after).take(before.len() as int) == before,
        (before + seq![node] + after)[before.len() as int] == node,
        assembler::run(assembler::initial(), before + seq![node] + after) matches Ok(state) ==> {
            &&& assembler::run(assembler::initial(), before) matches Ok(middle)
            &&& assembler::step(middle, node) matches Ok(next)
            &&& next.code.is_prefix_of(state.code)
            &&& emit::is_assemblable(layout::actual(middle, node)) ==> {
                let slot = middle.code.len() as int;
                &&& slot < state.code.len()
                &&& state.code[slot].address == middle.address
                &&& state.code[slot].value == emit::statement_bytes(layout::actual(middle, node))
                &&& middle.address + state.code[slot].value.len() <= u32::MAX
            }
        },
{
    let start = assembler::initial();
    let whole = before + seq![node] + after;
    assert(whole.take(before.len() as int) =~= before);
    layout::law_run_in_parts(start, before + seq![node], after);
    layout::law_run_in_parts(start, before, seq![node]);
    if let Ok(state) = assembler::run(start, whole) {
        let middle = assembler::run(start, before)->Ok_0;
        assert(seq![node].drop_first() =~= Seq::empty());
        reveal_with_fuel(assembler::run, 2);
        assert(assembler::run(middle, seq![node]) == assembler::step(middle, node));
        let next = assembler::step(middle, node)->Ok_0;
        layout::law_run_keeps_the_code_before(next, after);
        if emit::is_assemblable(layout::actual(middle, node)) {
            let slot = middle.code.len() as int;
            assert(next.code =~= state.code.subrange(0, next.code.len() as int));
            assert(state.code.subrange(0, next.code.len() as int)[slot] == state.code[slot]);
        }
    }
}

/// Filling in labels gives the same bytes as writing their addresses in place of them:
/// every statement of an assembled program has the bytes of that statement with the
/// address of each label, or its distance from the statement, as a number.
pub proof fn law_labels_stand_for_their_addresses(
    before: Seq<NodeView>,
    node: NodeView,
    after: Seq<NodeView>,
)
    requires
        before.len() + 1 + after.len() <= usize::MAX,
    ensures
        assembler::run(assembler::initial(), before + seq![node] + after) matches Ok(state) ==> {
            &&& assembler::run(assembler::initial(), before) matches Ok(middle)
            &&& emit::is_assemblable(layout::actual(middle, node)) ==> (assembler::resolved(
                state.code,
                state.targets,
                state.labels,
                seq![],
            ) matches Ok((code, _)) ==> {
                &&& middle.code.len() < code.len()
                &&& code[middle.code.len() as int].address == middle.address
                &&& code[middle.code.len() as int].value == emit::statement_bytes(
                    linked(layout::actual(middle, node), state.labels, middle.address),
                )
            })
        },
{
    let start = assembler::initial();
    let nodes = before + seq![node] + after;
    let at = before.len() as int;
    lemma_split(before, node, after);
    if let Ok(state) = assembler::run(start, nodes) {
        let middle = assembler::run(start, before)->Ok_0;
        let statement = layout::actual(middle, node);
        let slot = middle.code.len() as int;
        assert(placement::all_targets(start.targets) =~= seq![]);
        layout::law_run_keeps_targets_apart(start, nodes);
        layout::lemma_run_length(start, before);
        if emit::is_assemblable(statement) {
            if let Ok((code, _)) = assembler::resolved(
                state.code,
                state.targets,
                state.labels,
                seq![],
            ) {
                let uses = emit::statement_uses(statement);
                let own = emit::statement_bytes(statement);
                let value = code[slot].value;
                let all = placement::all_targets(state.targets);
                resolution::law_resolving_keeps_the_layout(
                    state.code,
                    state.targets,
                    state.labels,
                    seq![],
                );
                assert(state.code[slot].address == code[slot].address
                    && state.code[slot].value.len() == value.len());
                assert forall|k: int| 0 <= k < uses.len() implies value.subrange(
                    (#[trigger] uses[k]).index,
                    uses[k].index + backpatch::width(uses[k].size),
                ) == bytes::le32(
                    backpatch::target_value(
                        uses[k].is_relative,
                        label_address(state.labels, uses[k].name),
                        middle.address,
                    ),
                ).take(backpatch::width(uses[k].size)) by {
                    layout::law_every_use_stands_for_its_label(before, node, after, k);
                    placement::law_uses_lie_in_the_statement(statement);
                }
                assert forall|j: int| 0 <= j < own.len() implies #[trigger] value[j] == own[j]
                    || exists|k: int|
                    0 <= k < uses.len() && (#[trigger] uses[k]).index <= j < uses[k].index
                        + backpatch::width(uses[k].size) by {
                    if resolution::covered(all, slot, j) {
                        let t = choose|t: int|
                            0 <= t < all.len() && resolution::covers(#[trigger] all[t], slot, j);
                        let k = lemma_own_targets(nodes, at, state, middle, t);
                        assert(uses[k].index <= j);
                    } else {
                        resolution::law_resolving_keeps_other_bytes(
                            state.code,
                            state.targets,
                            state.labels,
                            seq![],
                            slot,
                            j,
                        );
                    }
                }
                lemma_filled_is_linked(value, statement, state.labels, middle.address);
            }
        }
    }
}

/// The processor finds in an assembled program the instructions that were written: with
/// the address of each label, or its distance from the instruction, in place of the
/// label.
pub proof fn law_processor_reads_the_program(
    before: Seq<NodeView>,
    node: NodeView,
    after: Seq<NodeView>,
    behind: Seq<u8>,
)
    requires
        before.len() + 1 + after.len() <= usize::MAX,
    ensures
        assembler::run(assembler::initial(), before + seq![node] + after) matches Ok(state) ==> {
            &&& assembler::run(assembler::initial(), before) matches Ok(middle)
            &&& {
                let meant = linked(layout::actual(middle, node), state.labels, middle.address);
                processor::is_readable(meant) ==> (assembler::resolved(
                    state.code,
                    state.targets,
                    state.labels,
                    seq![],
                ) matches Ok((code, _)) ==> {
                    let value = code[middle.code.len() as int].value;
                    processor::read_instruction(value + behind) == Some(
                        (processor::understood(meant), value.len() as int),
                    )
                })
            }
        },
{
    law_labels_stand_for_their_addresses(before, node, after);
    lemma_split(before, node, after);
    if let Ok(state) = assembler::run(assembler::initial(), before + seq![node] + after) {
        let middle = assembler::run(assembler::initial(), before)->Ok_0;
        let statement = layout::actual(middle, node);
        let meant = linked(statement, state.labels, middle.address);
        if processor::is_readable(meant) {
            assert(emit::is_assemblable(statement));
            processor::law_processor_reads_what_was_assembled(meant, behind);
        }
    }
}

/// Whether the statement with the number `i` has, as its use with the number `k`, an
/// absolute use of a label that is no constant, whose bytes start at `location`.
pub open spec fn is_absolute_use_at(
    nodes: Seq<NodeView>,
    known: Seq<LabelView>,
    i: int,
    k: int,
    location: u32,
) -> bool {
    &&& 0 <= i < nodes.len()
    &&& assembler::run(assembler::initial(), nodes.take(i)) matches Ok(middle)
    &&& emit::is_assemblable(layout::actual(middle, nodes[i]))
    &&& {
        let uses = emit::statement_uses(layout::actual(middle, nodes[i]));
        &&& 0 <= k < uses.len()
        &&& !uses[k].is_relative
        &&& labels::find_label(known, uses[k].name) matches Some((_, false))
        &&& location == middle.address + uses[k].index
    }
}

/// A place that a loader has to adjust is that of a use.
#[verifier::rlimit(40)]
#[verifier::spinoff_prover]
proof fn lemma_adjusted_is_used(nodes: Seq<NodeView>, state: AsmView, location: u32)
    requires
        nodes.len() <= usize::MAX,
        assembler::run(assembler::initial(), nodes) == Ok::<AsmView, ErrorView>(state),
        resolution::needs_relocation(state.code, state.targets, state.labels, location),
    ensures
        exists|i: int, k: int| is_absolute_use_at(nodes, state.labels, i, k, location),
{
    let table = state.targets;
    let known = state.labels;
    let (entry, t) = choose|entry: int, t: int|
        {
            &&& 0 <= entry < table.len()
            &&& 0 <= t < table[entry].1.len()
            &&& labels::find_label(known, table[entry].0) matches Some((_, false))
            &&& !(#[trigger] table[entry].1[t]).is_relative
            &&& state.code[table[entry].1[t].instruction as int].address + table[entry].1[t].index
                == location
        };
    let target = table[entry].1[t];
    let name = table[entry].0;
    assert(labels::lists(table, name, target));
    law_targets_are_the_uses(nodes, name, target);
    let (i, k) = choose|i: int, k: int| is_use(nodes, i, k, name, target);
    lemma_split(nodes.take(i), nodes[i], nodes.skip(i + 1));
    assert(nodes.take(i) + seq![nodes[i]] + nodes.skip(i + 1) =~= nodes);
    assert(is_absolute_use_at(nodes, known, i, k, location));
}

/// The place of a use is one that a loader has to adjust.
#[verifier::rlimit(40)]
#[verifier::spinoff_prover]
proof fn lemma_used_is_adjusted(
    nodes: Seq<NodeView>,
    state: AsmView,
    i: int,
    k: int,
    location: u32,
)
    requires
        nodes.len() <= usize::MAX,
        assembler::run(assembler::initial(), nodes) == Ok::<AsmView, ErrorView>(state),
        is_absolute_use_at(nodes, state.labels, i, k, location),
    ensures
        resolution::needs_relocation(state.code, state.targets, state.labels, location),
{
    let start = assembler::initial();
    let table = state.targets;
    let middle = assembler::run(start, nodes.take(i))->Ok_0;
    let statement = layout::actual(middle, nodes[i]);
    let uses = emit::statement_uses(statement);
    lemma_split(nodes.take(i), nodes[i], nodes.skip(i + 1));
    assert(nodes.take(i) + seq![nodes[i]] + nodes.skip(i + 1) =~= nodes);
    layout::lemma_run_length(start, nodes.take(i));
    placement::law_uses_lie_in_the_statement(statement);
    let target = BackpatchTarget {
        index: uses[k].index as usize,
        size: uses[k].size,
        is_relative: uses[k].is_relative,
        instruction: middle.code.len() as usize,
    };
    assert(is_use(nodes, i, k, uses[k].name, target));
    law_targets_are_the_uses(nodes, uses[k].name, target);
    assert(labels::lists(table, uses[k].name, target));
    let (entry, t) = choose|entry: int, t: int|
        {
            &&& 0 <= entry < table.len()
            &&& 0 <= t < table[entry].1.len()
            &&& table[entry].0 == uses[k].name
            &&& #[trigger] table[entry].1[t] == target
        };
    assert(!table[entry].1[t].is_relative);
}

/// The table of relocations of a program lists exactly the addresses at which the bytes
/// of an absolute use of a label start: the address of the statement and the index of
/// the use in it. Uses of constants are not listed.
pub proof fn law_relocations_of_a_program(nodes: Seq<NodeView>, location: u32)
    requires
        nodes.len() <= usize::MAX,
    ensures
        assembler::run(assembler::initial(), nodes) matches Ok(state) ==> (assembler::resolved(
            state.code,
            state.targets,
            state.labels,
            seq![],
        ) matches Ok((_, relocs)) ==> (relocs.contains(location) <==> exists|i: int, k: int|
            is_absolute_use_at(nodes, state.labels, i, k, location))),
{
    let start = assembler::initial();
    if let Ok(state) = assembler::run(start, nodes) {
        assert(placement::all_targets(start.targets) =~= seq![]);
        layout::law_run_keeps_targets_apart(start, nodes);
        resolution::law_relocations_are_the_absolute_addresses(
            state.code,
            state.targets,
            state.labels,
            seq![],
            location,
        );
        if resolution::needs_relocation(state.code, state.targets, state.labels, location) {
            lemma_adjusted_is_used(nodes, state, location);
        }
        if exists|i: int, k: int| is_absolute_use_at(nodes, state.labels, i, k, location) {
            let (i, k) = choose|i: int, k: int|
                is_absolute_use_at(nodes, state.labels, i, k, location);
            lemma_used_is_adjusted(nodes, state, i, k, location);
        }
    }
}

/// A word of a statement is found in the file that holds the statement.
proof fn lemma_word_in_file(
    file: Seq<u8>,
    start: int,
    end: int,
    value: Seq<u8>,
    index: int,
    word: u32,
)
    requires
        0 <= start <= end <= file.len(),
        file.subrange(start, end) == value,
        0 <= index,
        index + 4 <= value.len(),
        value.subrange(index, index + 4) == bytes::le32(word),
    ensures
        start + index + 4 <= file.len(),
        ({
            let place = start + index;
            file[place] + 256 * file[place + 1] + 65536 * file[place + 2] + 16777216 * file[place
                + 3] == word
        }),
{
    let part = value.subrange(index, index + 4);
    assert forall|b: int| 0 <= b < 4 implies #[trigger] part[b] == file[start + index + b] by {
        assert(part[b] == value[index + b]);
        assert(file.subrange(start, end)[index + b] == file[start + (index + b)]);
    }
    assert(part[0] == file[start + index + 0] && part[1] == file[start + index + 1] && part[2]
        == file[start + index + 2] && part[3] == file[start + index + 3]);
    reveal(bytes::le32);
}

/// In a program that only moves on by filling the bytes up to an address, the bytes of
/// the output at a listed place are those of the address of the label that is used there.
#[verifier::spinoff_prover]
pub proof fn law_relocated_words_hold_the_address(
    before: Seq<NodeView>,
    node: NodeView,
    after: Seq<NodeView>,
    k: int,
)
    requires
        before.len() + 1 + after.len() <= usize::MAX,
        layout::has_no_origin(before),
    ensures
        assembler::run(assembler::initial(), before + seq![node] + after) matches Ok(state) ==> {
            &&& assembler::run(assembler::initial(), before) matches Ok(middle)
            &&& {
                let statement = layout::actual(middle, node);
                let uses = emit::statement_uses(statement);
                emit::is_assemblable(statement) && 0 <= k < uses.len() && uses[k].size is Word
                    && !uses[k].is_relative ==> (assembler::resolved(
                    state.code,
                    state.targets,
                    state.labels,
                    seq![],
                ) matches Ok((code, relocs)) ==> {
                    let place = middle.address + uses[k].index;
                    let file = output::output_file(code, relocs, false);
                    &&& labels::find_label(state.labels, uses[k].name) matches Some(
                        (address, is_const),
                    )
                    &&& place + 4 <= file.len()
                    &&& file[place] + 256 * file[place + 1] + 65536 * file[place + 2] + 16777216
                        * file[place + 3] == address
                    &&& !is_const ==> relocs.contains(place as u32)
                })
            }
        },
{
    let start = assembler::initial();
    let nodes = before + seq![node] + after;
    lemma_split(before, node, after);
    if let Ok(state) = assembler::run(start, nodes) {
        let middle = assembler::run(start, before)->Ok_0;
        let statement = layout::actual(middle, node);
        let uses = emit::statement_uses(statement);
        let slot = middle.code.len() as usize;
        if emit::is_assemblable(statement) && 0 <= k < uses.len() && uses[k].size is Word
            && !uses[k].is_relative {
            if let Ok((code, relocs)) = assembler::resolved(
                state.code,
                state.targets,
                state.labels,
                seq![],
            ) {
                let file = output::output_file(code, relocs, false);
                let place = middle.address + uses[k].index;
                layout::law_every_use_stands_for_its_label(before, node, after, k);
                layout::law_statement_lies_at_its_address(before, node, after);
                placement::law_uses_lie_in_the_statement(statement);
                layout::lemma_run_length(start, before);
                let (address, _) = labels::find_label(state.labels, uses[k].name)->0;
                let value = code[slot as int].value;
                let end = middle.address + emit::statement_bytes(statement).len();
                assert(file.subrange(middle.address as int, end) == value);
                let part = value.subrange(uses[k].index, uses[k].index + 4);
                lemma_value_bytes(address);
                assert(part == bytes::le32(address));
                lemma_word_in_file(
                    file,
                    middle.address as int,
                    end,
                    value,
                    uses[k].index,
                    address,
                );
                law_relocations_of_a_program(nodes, place as u32);
                if labels::find_label(state.labels, uses[k].name) matches Some((_, false)) {
                    assert(is_absolute_use_at(
                        nodes,
                        state.labels,
                        before.len() as int,
                        k,
                        place as u32,
                    ));
                }
            }
        }
    }
}

} // verus!
