//! What holds of the layout of a program: where its statements and labels lie.

use crate::assembler::AsmView;
use crate::ast::{LabelKind, NodeView};
use crate::backpatch::{BackpatchTarget, CodeView};
use crate::emit::LabelUse;
use crate::labels::{EntryView, LabelView};
use crate::{assembler, backpatch, emit, labels, optimize, output, placement, resolution};
use vstd::prelude::*;

verus! {

/// The statement that is laid out for `node`: with optimization, a shorter one may
/// stand for it.
pub open spec fn actual(state: AsmView, node: NodeView) -> NodeView {
    if optimize::optimizing_after(node, state.optimizing) {
        optimize::optimized(node)
    } else {
        node
    }
}

/// Every state of a run has its targets inside the program and apart from each other.
pub proof fn law_run_keeps_targets_apart(state: AsmView, nodes: Seq<NodeView>)
    requires
        assembler::well_placed(state),
        state.code.len() + nodes.len() <= usize::MAX,
    ensures
        assembler::run(state, nodes) matches Ok(after) ==> assembler::well_placed(after),
    decreases nodes.len(),
{
    if nodes.len() > 0 {
        if let Ok(next) = assembler::step(state, nodes[0]) {
            assembler::law_step_keeps_targets_apart(state, nodes[0]);
            lemma_step_code(state, nodes[0]);
            law_run_keeps_targets_apart(next, nodes.drop_first());
        }
    }
}

/// A statement leaves the code before it as it is, and adds at most one piece to it.
proof fn lemma_step_code(state: AsmView, node: NodeView)
    ensures
        assembler::step(state, node) matches Ok(next) ==> {
            ||| next.code == state.code
            ||| next.code.len() == state.code.len() + 1 && next.code.drop_last() == state.code
        },
{
    if let Ok(next) = assembler::step(state, node) {
        if next.code.len() == state.code.len() + 1 {
            assert(next.code.drop_last() =~= state.code);
        }
    }
}

/// Code that is laid out stays where it is, whatever follows.
pub proof fn law_run_keeps_the_code_before(state: AsmView, nodes: Seq<NodeView>)
    ensures
        assembler::run(state, nodes) matches Ok(after) ==> state.code.is_prefix_of(after.code),
    decreases nodes.len(),
{
    if nodes.len() > 0 {
        if let Ok(next) = assembler::step(state, nodes[0]) {
            lemma_step_code(state, nodes[0]);
            law_run_keeps_the_code_before(next, nodes.drop_first());
            if let Ok(after) = assembler::run(state, nodes) {
                assert(state.code =~= after.code.subrange(0, state.code.len() as int)) by {
                    assert(next.code =~= after.code.subrange(0, next.code.len() as int));
                    assert forall|i: int| 0 <= i < state.code.len() implies state.code[i]
                        == after.code[i] by {
                        assert(next.code[i] == state.code[i]);
                        assert(after.code.subrange(0, next.code.len() as int)[i] == after.code[i]);
                    }
                }
            }
        }
    } else {
        assert(state.code =~= state.code.subrange(0, state.code.len() as int));
    }
}

/// Whether the address that comes next is the number of bytes that are laid out.
pub open spec fn without_gaps(state: AsmView) -> bool {
    state.address == output::code_bytes(state.code).len()
}

/// Whether a program never moves on to an address without filling the bytes up to it.
pub open spec fn has_no_origin(nodes: Seq<NodeView>) -> bool {
    forall|i: int| 0 <= i < nodes.len() ==> !(#[trigger] nodes[i] is Origin)
}

proof fn lemma_emitted_bytes(state: AsmView, value: Seq<u8>, at: u32)
    requires
        without_gaps(state),
    ensures
        assembler::emitted(state, value, at) matches Ok(next) ==> without_gaps(next),
{
    let code = state.code.push(CodeView { value, address: at });
    assert(code.drop_last() =~= state.code);
}

proof fn lemma_step_without_gaps(state: AsmView, node: NodeView)
    requires
        without_gaps(state),
        !(node is Origin),
    ensures
        assembler::step(state, node) matches Ok(next) ==> without_gaps(next),
{
    let node = actual(state, node);
    let state = AsmView {
        optimizing: optimize::optimizing_after(node, state.optimizing),
        ..state
    };
    match node {
        NodeView::OriginPadded(origin) => {
            lemma_emitted_bytes(state, assembler::filled(0, origin - state.address), 0);
        },
        NodeView::DataFill { value, size } => {
            lemma_emitted_bytes(state, assembler::filled(value, size as int), 0);
        },
        NodeView::IncludedBinary(data) => {
            lemma_emitted_bytes(state, data, 0);
        },
        _ => {
            if emit::is_assemblable(node) {
                let added = AsmView {
                    targets: emit::add_uses(
                        state.targets,
                        state.code.len() as usize,
                        emit::statement_uses(node),
                    ),
                    ..state
                };
                lemma_emitted_bytes(added, emit::statement_bytes(node), state.address);
            }
        },
    }
}

/// In a program that only moves on by filling the bytes up to an address, the address
/// that comes next is always the number of bytes that are laid out.
pub proof fn law_addresses_count_the_bytes(state: AsmView, nodes: Seq<NodeView>)
    requires
        without_gaps(state),
        has_no_origin(nodes),
    ensures
        assembler::run(state, nodes) matches Ok(after) ==> without_gaps(after),
    decreases nodes.len(),
{
    if nodes.len() > 0 {
        if let Ok(next) = assembler::step(state, nodes[0]) {
            lemma_step_without_gaps(state, nodes[0]);
            let rest = nodes.drop_first();
            assert forall|i: int| 0 <= i < rest.len() implies !(#[trigger] rest[i] is Origin) by {
                assert(rest[i] == nodes[i + 1]);
            }
            law_addresses_count_the_bytes(next, rest);
        }
    }
}

/// A run over one program and then another is a run over both.
pub proof fn law_run_in_parts(state: AsmView, first: Seq<NodeView>, second: Seq<NodeView>)
    ensures
        assembler::run(state, first + second) == match assembler::run(state, first) {
            Ok(middle) => assembler::run(middle, second),
            Err(error) => Err(error),
        },
    decreases first.len(),
{
    if first.len() == 0 {
        assert(first + second =~= second);
    } else {
        assert((first + second)[0] == first[0]);
        assert((first + second).drop_first() =~= first.drop_first() + second);
        if let Ok(next) = assembler::step(state, first[0]) {
            law_run_in_parts(next, first.drop_first(), second);
        }
    }
}

/// Whether a program gives the name to no constant.
pub open spec fn has_no_constant(nodes: Seq<NodeView>, name: Seq<char>) -> bool {
    forall|i: int|
        0 <= i < nodes.len() ==> match #[trigger] nodes[i] {
            NodeView::Constant { name: other, .. } => other != name,
            _ => true,
        }
}

/// A name keeps its address, unless it is given to a constant later on.
pub proof fn law_labels_keep_their_address(state: AsmView, nodes: Seq<NodeView>, name: Seq<char>)
    requires
        labels::find_label(state.labels, name) is Some,
        has_no_constant(nodes, name),
    ensures
        assembler::run(state, nodes) matches Ok(after) ==> labels::find_label(after.labels, name)
            == labels::find_label(state.labels, name),
    decreases nodes.len(),
{
    if nodes.len() > 0 {
        if let Ok(next) = assembler::step(state, nodes[0]) {
            match nodes[0] {
                NodeView::LabelDefine { name: other, .. } => {
                    labels::law_put_then_find(
                        state.labels,
                        LabelView { name: other, address: state.address, is_const: false },
                        name,
                    );
                },
                NodeView::Constant { name: other, address } => {
                    labels::law_put_then_find(
                        state.labels,
                        LabelView { name: other, address, is_const: true },
                        name,
                    );
                },
                _ => {},
            }
            let rest = nodes.drop_first();
            assert forall|i: int| 0 <= i < rest.len() implies match #[trigger] rest[i] {
                NodeView::Constant { name: other, .. } => other != name,
                _ => true,
            } by {
                assert(rest[i] == nodes[i + 1]);
            }
            law_labels_keep_their_address(next, rest, name);
        }
    }
}

/// The address of a label is the number of bytes before it, in a program that only
/// moves on by filling the bytes up to an address and that gives the name to no
/// constant.
pub proof fn law_label_is_the_offset_of_what_follows(
    before: Seq<NodeView>,
    name: Seq<char>,
    kind: LabelKind,
    after: Seq<NodeView>,
)
    requires
        has_no_origin(before),
        has_no_constant(after, name),
    ensures
        ({
            let label = seq![NodeView::LabelDefine { name, kind }];
            assembler::run(assembler::initial(), before + label + after) matches Ok(state) ==> {
                &&& assembler::run(assembler::initial(), before) matches Ok(middle)
                &&& middle.code.is_prefix_of(state.code)
                &&& labels::find_label(state.labels, name) == Some(
                    (output::code_bytes(middle.code).len() as u32, false),
                )
                &&& output::code_bytes(middle.code).len() <= u32::MAX
            }
        }),
{
    let start = assembler::initial();
    let node = NodeView::LabelDefine { name, kind };
    let label = seq![node];
    law_run_in_parts(start, before + label, after);
    law_run_in_parts(start, before, label);
    law_addresses_count_the_bytes(start, before);
    if let Ok(middle) = assembler::run(start, before) {
        assert(label.drop_first() =~= Seq::empty());
        reveal_with_fuel(assembler::run, 2);
        assert(assembler::run(middle, label) == assembler::step(middle, node));
        if let Ok(defined) = assembler::step(middle, node) {
            labels::law_put_then_find(
                middle.labels,
                LabelView { name, address: middle.address, is_const: false },
                name,
            );
            assert(defined.code == middle.code);
            law_labels_keep_their_address(defined, after, name);
            law_run_keeps_the_code_before(defined, after);
        }
    }
}

/// Adding the uses of labels in a statement lists each of them under its name.
proof fn lemma_add_uses_lists(
    table: Seq<EntryView>,
    slot: usize,
    uses: Seq<LabelUse>,
    k: int,
)
    requires
        0 <= k < uses.len(),
    ensures
        labels::lists(
            emit::add_uses(table, slot, uses),
            uses[k].name,
            emit::use_target(slot, uses[k]),
        ),
    decreases uses.len(),
{
    let earlier = uses.drop_last();
    if k < earlier.len() {
        assert(earlier[k] == uses[k]);
        lemma_add_uses_lists(table, slot, earlier, k);
    }
    labels::law_add_target_lists_it(
        emit::add_uses(table, slot, earlier),
        uses.last().name,
        emit::use_target(slot, uses.last()),
        uses[k].name,
        emit::use_target(slot, uses[k]),
    );
}

/// Adding the uses of labels in a statement keeps what was listed, and keeps the names
/// in order.
proof fn lemma_add_uses_keeps(
    table: Seq<EntryView>,
    slot: usize,
    uses: Seq<LabelUse>,
    name: Seq<char>,
    target: BackpatchTarget,
)
    ensures
        labels::lists(table, name, target) ==> labels::lists(
            emit::add_uses(table, slot, uses),
            name,
            target,
        ),
        labels::names_in_order(table) ==> labels::names_in_order(
            emit::add_uses(table, slot, uses),
        ),
    decreases uses.len(),
{
    if uses.len() > 0 {
        let earlier = uses.drop_last();
        let before = emit::add_uses(table, slot, earlier);
        lemma_add_uses_keeps(table, slot, earlier, name, target);
        labels::law_add_target_lists_it(
            before,
            uses.last().name,
            emit::use_target(slot, uses.last()),
            name,
            target,
        );
        if labels::names_in_order(table) {
            labels::law_add_target_keeps_order(
                before,
                uses.last().name,
                emit::use_target(slot, uses.last()),
            );
        }
    }
}

/// No use of a label is forgotten, and the names of the labels that are used stay in
/// order, each once.
pub proof fn law_run_keeps_uses(
    state: AsmView,
    nodes: Seq<NodeView>,
    name: Seq<char>,
    target: BackpatchTarget,
)
    ensures
        assembler::run(state, nodes) matches Ok(after) ==> {
            &&& labels::lists(state.targets, name, target) ==> labels::lists(
                after.targets,
                name,
                target,
            )
            &&& labels::names_in_order(state.targets) ==> labels::names_in_order(after.targets)
        },
    decreases nodes.len(),
{
    if nodes.len() > 0 {
        if let Ok(next) = assembler::step(state, nodes[0]) {
            let node = actual(state, nodes[0]);
            if emit::is_assemblable(node) {
                lemma_add_uses_keeps(
                    state.targets,
                    state.code.len() as usize,
                    emit::statement_uses(node),
                    name,
                    target,
                );
            }
            law_run_keeps_uses(next, nodes.drop_first(), name, target);
        }
    }
}

/// In an assembled program every use of a label stands for the address of that label:
/// in the bytes of the statement that uses it, and relative to the address at which
/// that statement was laid out.
pub proof fn law_every_use_stands_for_its_label(
    before: Seq<NodeView>,
    node: NodeView,
    after: Seq<NodeView>,
    k: int,
)
    requires
        before.len() + 1 + after.len() <= usize::MAX,
    ensures
        assembler::run(assembler::initial(), before + seq![node] + after) matches Ok(state) ==> {
            &&& assembler::run(assembler::initial(), before) matches Ok(middle)
            &&& {
                let statement = actual(middle, node);
                let uses = emit::statement_uses(statement);
                let slot = middle.code.len() as usize;
                emit::is_assemblable(statement) && 0 <= k < uses.len() ==> (
                assembler::resolved(
                    state.code,
                    state.targets,
                    state.labels,
                    seq![],
                ) matches Ok((code, _)) ==> {
                    &&& labels::find_label(state.labels, uses[k].name) matches Some((address, _))
                    &&& resolution::holds(code, emit::use_target(slot, uses[k]), address)
                    &&& slot < code.len()
                    &&& code[slot as int].address == middle.address
                })
            }
        },
{
    let start = assembler::initial();
    let whole = before + seq![node] + after;
    law_run_in_parts(start, before + seq![node], after);
    law_run_in_parts(start, before, seq![node]);
    if let Ok(state) = assembler::run(start, whole) {
        let middle = assembler::run(start, before)->Ok_0;
        assert(seq![node].drop_first() =~= Seq::empty());
        reveal_with_fuel(assembler::run, 2);
        assert(assembler::run(middle, seq![node]) == assembler::step(middle, node));
        let next = assembler::step(middle, node)->Ok_0;
        let statement = actual(middle, node);
        let uses = emit::statement_uses(statement);
        let slot = middle.code.len() as usize;
        assert(placement::all_targets(start.targets) =~= seq![]);
        lemma_run_length(start, before);
        law_run_keeps_targets_apart(start, whole);
        if emit::is_assemblable(statement) && 0 <= k < uses.len() {
            let target = emit::use_target(slot, uses[k]);
            lemma_add_uses_lists(middle.targets, slot, uses, k);
            assert(labels::lists(next.targets, uses[k].name, target));
            law_run_keeps_uses(next, after, uses[k].name, target);
            law_run_keeps_the_code_before(next, after);
            assert(next.code[slot as int].address == middle.address);
            assert(state.code[slot as int] == next.code[slot as int]) by {
                assert(next.code =~= state.code.subrange(0, next.code.len() as int));
                assert(state.code.subrange(0, next.code.len() as int)[slot as int]
                    == state.code[slot as int]);
            }
            let table = state.targets;
            let (entry, i) = choose|entry: int, i: int|
                {
                    &&& 0 <= entry < table.len()
                    &&& 0 <= i < table[entry].1.len()
                    &&& table[entry].0 == uses[k].name
                    &&& #[trigger] table[entry].1[i] == target
                };
            resolution::law_resolving_fills_in_every_label(
                state.code,
                table,
                state.labels,
                seq![],
                entry,
                i,
            );
            resolution::law_resolving_keeps_the_layout(
                state.code,
                table,
                state.labels,
                seq![],
            );
        }
    }
}

/// A run lays out at most one piece of code for each statement.
pub proof fn lemma_run_length(state: AsmView, nodes: Seq<NodeView>)
    ensures
        assembler::run(state, nodes) matches Ok(after) ==> after.code.len() <= state.code.len()
            + nodes.len(),
    decreases nodes.len(),
{
    if nodes.len() > 0 {
        if let Ok(next) = assembler::step(state, nodes[0]) {
            lemma_step_code(state, nodes[0]);
            lemma_run_length(next, nodes.drop_first());
        }
    }
}

/// The bytes of an instruction lie behind those of the instructions before it.
proof fn lemma_piece(code: Seq<CodeView>, n: int)
    requires
        0 <= n < code.len(),
    ensures
        ({
            let start = output::code_bytes(code.take(n)).len() as int;
            &&& start + code[n].value.len() <= output::code_bytes(code).len()
            &&& output::code_bytes(code).subrange(start, start + code[n].value.len())
                == code[n].value
        }),
    decreases code.len(),
{
    let whole = output::code_bytes(code);
    let earlier = code.drop_last();
    let before = output::code_bytes(earlier);
    let start = output::code_bytes(code.take(n)).len() as int;
    if n == code.len() - 1 {
        assert(code.take(n) =~= earlier);
        assert(whole.subrange(start, start + code[n].value.len()) =~= code[n].value);
    } else {
        assert(code.take(n) =~= earlier.take(n));
        lemma_piece(earlier, n);
        assert(whole.subrange(start, start + code[n].value.len()) =~= before.subrange(
            start,
            start + code[n].value.len(),
        ));
    }
}

/// Programs with the same layout have the same number of bytes.
proof fn lemma_same_length(a: Seq<CodeView>, b: Seq<CodeView>)
    requires
        backpatch::same_layout(a, b),
    ensures
        output::code_bytes(a).len() == output::code_bytes(b).len(),
    decreases a.len(),
{
    if a.len() > 0 {
        assert(a[a.len() - 1].value.len() == b[a.len() - 1].value.len());
        assert forall|i: int| 0 <= i < a.drop_last().len() implies (
        #[trigger] a.drop_last()[i]).address == b.drop_last()[i].address
            && a.drop_last()[i].value.len() == b.drop_last()[i].value.len() by {
            assert(a[i].address == b[i].address && a[i].value.len() == b[i].value.len());
        }
        lemma_same_length(a.drop_last(), b.drop_last());
    }
}

/// The address of a statement is its place in the raw output file, in a program that
/// only moves on by filling the bytes up to an address.
pub proof fn law_statement_lies_at_its_address(
    before: Seq<NodeView>,
    node: NodeView,
    after: Seq<NodeView>,
)
    requires
        before.len() + 1 + after.len() <= usize::MAX,
        has_no_origin(before),
    ensures
        assembler::run(assembler::initial(), before + seq![node] + after) matches Ok(state) ==> {
            &&& assembler::run(assembler::initial(), before) matches Ok(middle)
            &&& emit::is_assemblable(actual(middle, node)) ==> (assembler::resolved(
                state.code,
                state.targets,
                state.labels,
                seq![],
            ) matches Ok((code, relocs)) ==> {
                let start = middle.address as int;
                let end = start + emit::statement_bytes(actual(middle, node)).len();
                &&& end <= output::output_file(code, relocs, false).len()
                &&& output::output_file(code, relocs, false).subrange(start, end)
                    == code[middle.code.len() as int].value
            })
        },
{
    let start = assembler::initial();
    let whole = before + seq![node] + after;
    law_run_in_parts(start, before + seq![node], after);
    law_run_in_parts(start, before, seq![node]);
    law_addresses_count_the_bytes(start, before);
    if let Ok(state) = assembler::run(start, whole) {
        let middle = assembler::run(start, before)->Ok_0;
        assert(seq![node].drop_first() =~= Seq::empty());
        reveal_with_fuel(assembler::run, 2);
        assert(assembler::run(middle, seq![node]) == assembler::step(middle, node));
        let next = assembler::step(middle, node)->Ok_0;
        let slot = middle.code.len() as int;
        assert(placement::all_targets(start.targets) =~= seq![]);
        law_run_keeps_targets_apart(start, whole);
        if emit::is_assemblable(actual(middle, node)) {
            law_run_keeps_the_code_before(next, after);
            assert(next.code =~= state.code.subrange(0, next.code.len() as int));
            assert(state.code.take(slot) =~= middle.code) by {
                assert forall|i: int| 0 <= i < slot implies state.code[i] == middle.code[i] by {
                    assert(next.code[i] == middle.code[i]);
                    assert(state.code.subrange(0, next.code.len() as int)[i] == state.code[i]);
                }
            }
            assert(state.code[slot] == next.code[slot]) by {
                assert(state.code.subrange(0, next.code.len() as int)[slot] == state.code[slot]);
            }
            resolution::law_resolving_keeps_the_layout(
                state.code,
                state.targets,
                state.labels,
                seq![],
            );
            if let Ok((code, _)) = assembler::resolved(
                state.code,
                state.targets,
                state.labels,
                seq![],
            ) {
                assert(state.code[slot].value.len() == code[slot].value.len());
                assert forall|i: int| 0 <= i < slot implies (
                #[trigger] state.code.take(slot)[i]).address == code.take(slot)[i].address
                    && state.code.take(slot)[i].value.len() == code.take(slot)[i].value.len() by {
                    assert(state.code[i].address == code[i].address && state.code[i].value.len()
                        == code[i].value.len());
                }
                lemma_same_length(state.code.take(slot), code.take(slot));
                lemma_piece(code, slot);
            }
        }
    }
}

} // verus!
