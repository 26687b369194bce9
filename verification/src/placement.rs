//! Where the targets of labels lie: every target is inside the bytes of its
//! instruction, and no two targets share a byte.

use crate::ast::NodeView;
use crate::backpatch::{BackpatchTarget, CodeView};
use crate::emit::LabelUse;
use crate::labels::EntryView;
use crate::{backpatch, bytes, emit, encode, labels};
use vstd::prelude::*;

verus! {

/// All targets of a table, in the order in which they are filled in.
pub open spec fn all_targets(table: Seq<EntryView>) -> Seq<BackpatchTarget>
    decreases table.len(),
{
    if table.len() == 0 {
        seq![]
    } else {
        table[0].1 + all_targets(table.drop_first())
    }
}

/// Whether two targets share no byte.
pub open spec fn disjoint(a: BackpatchTarget, b: BackpatchTarget) -> bool {
    ||| a.instruction != b.instruction
    ||| a.index + backpatch::width(a.size) <= b.index
    ||| b.index + backpatch::width(b.size) <= a.index
}

/// Whether no two of the targets share a byte.
pub open spec fn targets_disjoint(targets: Seq<BackpatchTarget>) -> bool {
    forall|i: int, j: int|
        0 <= i < j < targets.len() ==> disjoint(#[trigger] targets[i], #[trigger] targets[j])
}

/// Whether the places that the targets name exist in the program.
pub open spec fn targets_fit(code: Seq<CodeView>, targets: Seq<BackpatchTarget>) -> bool {
    forall|i: int|
        0 <= i < targets.len() ==> backpatch::target_fits(code, #[trigger] targets[i])
}

/// Adding a target puts it somewhere among those that were there.
pub proof fn lemma_add_target(
    table: Seq<EntryView>,
    name: Seq<char>,
    target: BackpatchTarget,
) -> (place: int)
    ensures
        0 <= place <= all_targets(table).len(),
        all_targets(labels::add_target(table, name, target)) == all_targets(table).insert(
            place,
            target,
        ),
    decreases table.len(),
{
    let added = labels::add_target(table, name, target);
    if table.len() == 0 {
        assert(added.drop_first() =~= Seq::empty());
        reveal_with_fuel(all_targets, 2);
        assert(all_targets(added) =~= all_targets(table).insert(0, target));
        0
    } else if table[0].0 == name {
        assert(added.drop_first() =~= table.drop_first());
        let place = table[0].1.len() as int;
        assert(all_targets(added) =~= all_targets(table).insert(place, target));
        place
    } else if labels::name_before(name, table[0].0) {
        assert(added.drop_first() =~= table);
        assert(all_targets(added) =~= all_targets(table).insert(0, target));
        0
    } else {
        let rest = lemma_add_target(table.drop_first(), name, target);
        assert(added.drop_first() =~= labels::add_target(table.drop_first(), name, target));
        let place = table[0].1.len() + rest;
        assert(all_targets(added) =~= all_targets(table).insert(place, target));
        place
    }
}

/// Whether the uses lie between two places, one behind the other.
pub open spec fn uses_in_order(uses: Seq<LabelUse>, from: int, to: int) -> bool {
    &&& forall|i: int|
        0 <= i < uses.len() ==> from <= (#[trigger] uses[i]).index && uses[i].index
            + backpatch::width(uses[i].size) <= to
    &&& forall|i: int, j: int|
        0 <= i < j < uses.len() ==> (#[trigger] uses[i]).index + backpatch::width(uses[i].size) <= (
        #[trigger] uses[j]).index
}

proof fn lemma_operand_length(operand: NodeView, offsets: bool)
    ensures
        emit::operand_bytes(operand, offsets).len() <= 4,
{
    match operand {
        NodeView::Immediate16(n) => bytes::law_half_reads_back(n),
        NodeView::Immediate32(n) => bytes::law_word_reads_back(n),
        NodeView::ImmediatePointer(n) => bytes::law_word_reads_back(n),
        _ => {},
    }
}

proof fn lemma_operands_uses(operands: Seq<NodeView>, offsets: bool, index: int)
    ensures
        uses_in_order(
            emit::operands_uses(operands, offsets, index),
            index,
            index + emit::operands_bytes(operands, offsets).len(),
        ),
        emit::operands_bytes(operands, offsets).len() <= 4 * operands.len(),
    decreases operands.len(),
{
    if operands.len() > 0 {
        lemma_operands_uses(operands.drop_last(), offsets, index);
        lemma_operand_length(operands.last(), offsets);
    }
}

/// The labels that a statement uses lie inside its bytes, one behind the other.
pub proof fn law_uses_lie_in_the_statement(node: NodeView)
    requires
        emit::is_assemblable(node),
    ensures
        uses_in_order(emit::statement_uses(node), 0, emit::statement_bytes(node).len() as int),
        encode::is_encodable(node) ==> emit::statement_bytes(node).len() <= 10,
        !encode::is_encodable(node) ==> emit::statement_uses(node).len() <= 1,
{
    if encode::is_encodable(node) {
        lemma_operands_uses(emit::operands(node), emit::has_offsets(node), 2);
    }
}

proof fn lemma_insert_disjoint(
    targets: Seq<BackpatchTarget>,
    place: int,
    target: BackpatchTarget,
)
    requires
        0 <= place <= targets.len(),
        targets_disjoint(targets),
        forall|i: int| 0 <= i < targets.len() ==> disjoint(#[trigger] targets[i], target),
    ensures
        targets_disjoint(targets.insert(place, target)),
{
    let longer = targets.insert(place, target);
    assert forall|i: int, j: int| 0 <= i < j < longer.len() implies disjoint(
        #[trigger] longer[i],
        #[trigger] longer[j],
    ) by {
        let a = if i < place {
            i
        } else {
            i - 1
        };
        let b = if j < place {
            j
        } else {
            j - 1
        };
        if i != place {
            assert(longer[i] == targets[a]);
        }
        if j != place {
            assert(longer[j] == targets[b]);
        }
    }
}

proof fn lemma_insert_member(
    targets: Seq<BackpatchTarget>,
    place: int,
    target: BackpatchTarget,
    i: int,
)
    requires
        0 <= place <= targets.len(),
        0 <= i <= targets.len(),
    ensures
        targets.insert(place, target)[i] == target || (exists|k: int|
            0 <= k < targets.len() && #[trigger] targets[k] == targets.insert(place, target)[i]),
{
    let longer = targets.insert(place, target);
    if i < place {
        assert(longer[i] == targets[i]);
    } else if i > place {
        assert(longer[i] == targets[i - 1]);
    }
}

/// A statement at the end of a program keeps the targets apart.
pub proof fn lemma_add_uses(
    code: Seq<CodeView>,
    table: Seq<EntryView>,
    statement: CodeView,
    uses: Seq<LabelUse>,
)
    requires
        code.len() < usize::MAX,
        targets_fit(code, all_targets(table)),
        targets_disjoint(all_targets(table)),
        uses_in_order(uses, 0, statement.value.len() as int),
        statement.value.len() <= usize::MAX,
        statement.address + statement.value.len() <= u32::MAX,
    ensures
        ({
            let added = all_targets(emit::add_uses(table, code.len() as usize, uses));
            &&& targets_fit(code.push(statement), added)
            &&& targets_disjoint(added)
            &&& forall|i: int|
                0 <= i < added.len() ==> (#[trigger] added[i]).instruction < code.len() || (
                uses.len() > 0 && added[i].index + backpatch::width(added[i].size)
                    <= uses.last().index + backpatch::width(uses.last().size))
        }),
    decreases uses.len(),
{
    let slot = code.len() as usize;
    let after = code.push(statement);
    let added = all_targets(emit::add_uses(table, slot, uses));
    if uses.len() == 0 {
        assert forall|i: int| 0 <= i < added.len() implies backpatch::target_fits(
            after,
            #[trigger] added[i],
        ) by {
            assert(backpatch::target_fits(code, added[i]));
        }
        assert forall|i: int| 0 <= i < added.len() implies (#[trigger] added[i]).instruction
            < code.len() by {
            assert(backpatch::target_fits(code, added[i]));
        }
    } else {
        let earlier = uses.drop_last();
        let last = uses.last();
        assert(uses[uses.len() - 1] == last);
        assert forall|i: int| 0 <= i < earlier.len() implies 0 <= (#[trigger] earlier[i]).index
            && earlier[i].index + backpatch::width(earlier[i].size) <= statement.value.len() by {
            assert(earlier[i] == uses[i]);
        }
        assert forall|i: int, j: int| 0 <= i < j < earlier.len() implies (
        #[trigger] earlier[i]).index + backpatch::width(earlier[i].size) <= (
        #[trigger] earlier[j]).index by {
            assert(earlier[i] == uses[i] && earlier[j] == uses[j]);
        }
        lemma_add_uses(code, table, statement, earlier);
        let before = emit::add_uses(table, slot, earlier);
        let targets = all_targets(before);
        let target = emit::use_target(slot, last);
        let place = lemma_add_target(before, last.name, target);
        if earlier.len() > 0 {
            assert(earlier.last() == uses[uses.len() - 2]);
        }
        assert forall|i: int| 0 <= i < targets.len() implies disjoint(
            #[trigger] targets[i],
            target,
        ) by {
            if targets[i].instruction >= code.len() {
                assert(targets[i].index + backpatch::width(targets[i].size) <= last.index);
            }
        }
        lemma_insert_disjoint(targets, place, target);
        assert forall|i: int| 0 <= i < added.len() implies backpatch::target_fits(
            after,
            #[trigger] added[i],
        ) by {
            lemma_insert_member(targets, place, target, i);
        }
        assert forall|i: int| 0 <= i < added.len() implies (#[trigger] added[i]).instruction
            < code.len() || added[i].index + backpatch::width(added[i].size) <= last.index
            + backpatch::width(last.size) by {
            lemma_insert_member(targets, place, target, i);
        }
    }
}

/// A longer program has the same places.
pub proof fn lemma_longer_program(
    code: Seq<CodeView>,
    targets: Seq<BackpatchTarget>,
    statement: CodeView,
)
    requires
        targets_fit(code, targets),
    ensures
        targets_fit(code.push(statement), targets),
{
    assert forall|i: int| 0 <= i < targets.len() implies backpatch::target_fits(
        code.push(statement),
        #[trigger] targets[i],
    ) by {
        assert(backpatch::target_fits(code, targets[i]));
    }
}

/// The place of a target among all targets of a table.
pub proof fn lemma_target_listed(table: Seq<EntryView>, entry: int, i: int) -> (place: int)
    requires
        0 <= entry < table.len(),
        0 <= i < table[entry].1.len(),
    ensures
        0 <= place < all_targets(table).len(),
        all_targets(table)[place] == table[entry].1[i],
    decreases table.len(),
{
    if entry == 0 {
        i
    } else {
        table[0].1.len() + lemma_target_listed(table.drop_first(), entry - 1, i)
    }
}

/// Programs with the same layout have the same places.
pub proof fn lemma_same_layout_fits(
    code: Seq<CodeView>,
    other: Seq<CodeView>,
    targets: Seq<BackpatchTarget>,
)
    requires
        backpatch::same_layout(code, other),
        targets_fit(code, targets),
    ensures
        targets_fit(other, targets),
{
    assert forall|i: int| 0 <= i < targets.len() implies backpatch::target_fits(
        other,
        #[trigger] targets[i],
    ) by {
        assert(backpatch::target_fits(code, targets[i]));
        assert(code[targets[i].instruction as int].address
            == other[targets[i].instruction as int].address);
    }
}

} // verus!
