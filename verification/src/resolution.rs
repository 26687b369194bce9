//! What holds of a program once the addresses of its labels have been filled in.

use crate::ast::Size;
use crate::backpatch::{BackpatchTarget, CodeView};
use crate::labels::{EntryView, LabelView};
use crate::{assembler, backpatch, bytes, labels, placement};
use vstd::prelude::*;

verus! {

/// Whether a target names the byte `k` of the instruction with the number `n`.
pub open spec fn covers(target: BackpatchTarget, n: int, k: int) -> bool {
    &&& target.instruction == n
    &&& target.index <= k < target.index + backpatch::width(target.size)
}

/// Whether one of the targets names the byte `k` of the instruction with the number
/// `n`.
pub open spec fn covered(targets: Seq<BackpatchTarget>, n: int, k: int) -> bool {
    exists|i: int| 0 <= i < targets.len() && covers(#[trigger] targets[i], n, k)
}

/// The bytes that a target names.
pub open spec fn bytes_at(code: Seq<CodeView>, target: BackpatchTarget) -> Seq<u8> {
    code[target.instruction as int].value.subrange(
        target.index as int,
        target.index + backpatch::width(target.size),
    )
}

/// Whether the bytes that a target names stand for a label at `address`.
pub open spec fn holds(code: Seq<CodeView>, target: BackpatchTarget, address: u32) -> bool {
    bytes_at(code, target) == bytes::le32(
        backpatch::target_value(
            target.is_relative,
            address,
            code[target.instruction as int].address,
        ),
    ).take(backpatch::width(target.size))
}

proof fn lemma_patch_target(code: Seq<CodeView>, target: BackpatchTarget, address: u32)
    requires
        backpatch::target_fits(code, target),
    ensures
        backpatch::same_layout(code, backpatch::patch_target(code, target, address)),
        holds(backpatch::patch_target(code, target, address), target, address),
{
    let after = backpatch::patch_target(code, target, address);
    let slot = target.instruction as int;
    let value = backpatch::target_value(target.is_relative, address, code[slot].address);
    bytes::law_word_reads_back(value);
    assert(bytes_at(after, target) =~= bytes::le32(value).take(backpatch::width(target.size)));
}

proof fn lemma_patch_targets(code: Seq<CodeView>, targets: Seq<BackpatchTarget>, address: u32)
    requires
        placement::targets_fit(code, targets),
    ensures
        backpatch::same_layout(code, backpatch::patch_targets(code, targets, address)),
    decreases targets.len(),
{
    if targets.len() > 0 {
        let earlier = targets.drop_last();
        assert forall|i: int| 0 <= i < earlier.len() implies backpatch::target_fits(
            code,
            #[trigger] earlier[i],
        ) by {
            assert(earlier[i] == targets[i]);
        }
        lemma_patch_targets(code, earlier, address);
        let before = backpatch::patch_targets(code, earlier, address);
        assert(backpatch::target_fits(code, targets[targets.len() - 1]));
        placement::lemma_same_layout_fits(code, before, targets);
        assert(backpatch::target_fits(before, targets[targets.len() - 1]));
        lemma_patch_target(before, targets.last(), address);
    }
}

/// A byte that no target names stays as it is.
proof fn lemma_patch_targets_byte(
    code: Seq<CodeView>,
    targets: Seq<BackpatchTarget>,
    address: u32,
    n: int,
    k: int,
)
    requires
        placement::targets_fit(code, targets),
        0 <= n < code.len(),
        0 <= k < code[n].value.len(),
        !covered(targets, n, k),
    ensures
        backpatch::patch_targets(code, targets, address)[n].value[k] == code[n].value[k],
    decreases targets.len(),
{
    if targets.len() > 0 {
        let earlier = targets.drop_last();
        assert forall|i: int| 0 <= i < earlier.len() implies backpatch::target_fits(
            code,
            #[trigger] earlier[i],
        ) && !covers(earlier[i], n, k) by {
            assert(earlier[i] == targets[i]);
        }
        lemma_patch_targets_byte(code, earlier, address, n, k);
        lemma_patch_targets(code, earlier, address);
        let before = backpatch::patch_targets(code, earlier, address);
        let last = targets[targets.len() - 1];
        assert(!covers(last, n, k));
        assert(backpatch::target_fits(code, last));
        assert(before[n].value.len() == code[n].value.len());
        bytes::law_word_reads_back(
            backpatch::target_value(
                last.is_relative,
                address,
                before[last.instruction as int].address,
            ),
        );
    }
}

/// Every target holds the address of its label.
proof fn lemma_patch_targets_hold(
    code: Seq<CodeView>,
    targets: Seq<BackpatchTarget>,
    address: u32,
    i: int,
)
    requires
        placement::targets_fit(code, targets),
        placement::targets_disjoint(targets),
        0 <= i < targets.len(),
    ensures
        holds(backpatch::patch_targets(code, targets, address), targets[i], address),
    decreases targets.len(),
{
    let earlier = targets.drop_last();
    let last = targets[targets.len() - 1];
    assert forall|k: int| 0 <= k < earlier.len() implies backpatch::target_fits(
        code,
        #[trigger] earlier[k],
    ) by {
        assert(earlier[k] == targets[k]);
    }
    lemma_patch_targets(code, earlier, address);
    let before = backpatch::patch_targets(code, earlier, address);
    placement::lemma_same_layout_fits(code, before, targets);
    assert(backpatch::target_fits(before, last));
    lemma_patch_target(before, last, address);
    if i < earlier.len() {
        assert forall|a: int, b: int| 0 <= a < b < earlier.len() implies placement::disjoint(
            #[trigger] earlier[a],
            #[trigger] earlier[b],
        ) by {
            assert(earlier[a] == targets[a] && earlier[b] == targets[b]);
        }
        lemma_patch_targets_hold(code, earlier, address, i);
        let target = targets[i];
        assert(earlier[i] == target);
        assert(placement::disjoint(targets[i], targets[targets.len() - 1]));
        assert(backpatch::target_fits(before, target));
        let after = backpatch::patch_target(before, last, address);
        bytes::law_word_reads_back(
            backpatch::target_value(
                last.is_relative,
                address,
                before[last.instruction as int].address,
            ),
        );
        assert(bytes_at(after, target) =~= bytes_at(before, target));
    }
}

/// The targets of the first label of a table and those of the others.
proof fn lemma_first_entry(code: Seq<CodeView>, table: Seq<EntryView>)
    requires
        table.len() > 0,
        placement::targets_fit(code, placement::all_targets(table)),
    ensures
        placement::targets_fit(code, table[0].1),
        placement::targets_fit(code, placement::all_targets(table.drop_first())),
        placement::targets_disjoint(placement::all_targets(table)) ==> (
        placement::targets_disjoint(table[0].1) && placement::targets_disjoint(
            placement::all_targets(table.drop_first()),
        )),
{
    let all = placement::all_targets(table);
    let first = table[0].1;
    let rest = placement::all_targets(table.drop_first());
    assert forall|i: int| 0 <= i < first.len() implies #[trigger] first[i] == all[i] by {}
    assert forall|i: int| 0 <= i < rest.len() implies #[trigger] rest[i] == all[
        first.len() + i
    ] by {}
    assert forall|i: int| 0 <= i < first.len() implies backpatch::target_fits(
        code,
        #[trigger] first[i],
    ) by {
        assert(backpatch::target_fits(code, all[i]));
    }
    assert forall|i: int| 0 <= i < rest.len() implies backpatch::target_fits(
        code,
        #[trigger] rest[i],
    ) by {
        assert(backpatch::target_fits(code, all[first.len() + i]));
    }
    if placement::targets_disjoint(all) {
        assert forall|i: int, j: int| 0 <= i < j < first.len() implies placement::disjoint(
            #[trigger] first[i],
            #[trigger] first[j],
        ) by {
            assert(placement::disjoint(all[i], all[j]));
        }
        assert forall|i: int, j: int| 0 <= i < j < rest.len() implies placement::disjoint(
            #[trigger] rest[i],
            #[trigger] rest[j],
        ) by {
            assert(placement::disjoint(all[first.len() + i], all[first.len() + j]));
        }
    }
}

/// Filling in the addresses of labels leaves every instruction at its address and of
/// its length.
pub proof fn law_resolving_keeps_the_layout(
    code: Seq<CodeView>,
    table: Seq<EntryView>,
    known: Seq<LabelView>,
    relocs: Seq<u32>,
)
    requires
        placement::targets_fit(code, placement::all_targets(table)),
    ensures
        assembler::resolved(code, table, known, relocs) matches Ok((after, _))
            ==> backpatch::same_layout(code, after),
    decreases table.len(),
{
    if table.len() > 0 {
        if let Some((address, is_const)) = labels::find_label(known, table[0].0) {
            lemma_first_entry(code, table);
            lemma_patch_targets(code, table[0].1, address);
            let next = backpatch::patch_targets(code, table[0].1, address);
            let rest = table.drop_first();
            placement::lemma_same_layout_fits(code, next, placement::all_targets(rest));
            law_resolving_keeps_the_layout(
                next,
                rest,
                known,
                if is_const {
                    relocs
                } else {
                    relocs + backpatch::relocations(code, table[0].1)
                },
            );
        }
    }
}

/// Filling in the addresses of labels leaves every byte as it is that is no place for
/// one.
pub proof fn law_resolving_keeps_other_bytes(
    code: Seq<CodeView>,
    table: Seq<EntryView>,
    known: Seq<LabelView>,
    relocs: Seq<u32>,
    n: int,
    k: int,
)
    requires
        placement::targets_fit(code, placement::all_targets(table)),
        0 <= n < code.len(),
        0 <= k < code[n].value.len(),
        !covered(placement::all_targets(table), n, k),
    ensures
        assembler::resolved(code, table, known, relocs) matches Ok((after, _))
            ==> after[n].value[k] == code[n].value[k],
    decreases table.len(),
{
    if table.len() > 0 {
        if let Some((address, is_const)) = labels::find_label(known, table[0].0) {
            let all = placement::all_targets(table);
            let first = table[0].1;
            let rest = table.drop_first();
            let others = placement::all_targets(rest);
            lemma_first_entry(code, table);
            assert forall|i: int| 0 <= i < first.len() implies !covers(
                #[trigger] first[i],
                n,
                k,
            ) by {
                assert(first[i] == all[i]);
            }
            assert forall|i: int| 0 <= i < others.len() implies !covers(
                #[trigger] others[i],
                n,
                k,
            ) by {
                assert(others[i] == all[first.len() + i]);
            }
            lemma_patch_targets_byte(code, first, address, n, k);
            lemma_patch_targets(code, first, address);
            let next = backpatch::patch_targets(code, first, address);
            placement::lemma_same_layout_fits(code, next, others);
            assert(next[n].value.len() == code[n].value.len());
            law_resolving_keeps_other_bytes(
                next,
                rest,
                known,
                if is_const {
                    relocs
                } else {
                    relocs + backpatch::relocations(code, first)
                },
                n,
                k,
            );
        }
    }
}

/// Once the addresses of labels have been filled in, every place for one stands for
/// the address under which the label is known.
pub proof fn law_resolving_fills_in_every_label(
    code: Seq<CodeView>,
    table: Seq<EntryView>,
    known: Seq<LabelView>,
    relocs: Seq<u32>,
    entry: int,
    i: int,
)
    requires
        placement::targets_fit(code, placement::all_targets(table)),
        placement::targets_disjoint(placement::all_targets(table)),
        0 <= entry < table.len(),
        0 <= i < table[entry].1.len(),
    ensures
        assembler::resolved(code, table, known, relocs) matches Ok((after, _)) ==> {
            &&& labels::find_label(known, table[entry].0) matches Some((address, _))
            &&& holds(after, table[entry].1[i], address)
        },
    decreases table.len(),
{
    if let Some((address, is_const)) = labels::find_label(known, table[0].0) {
        let all = placement::all_targets(table);
        let first = table[0].1;
        let rest = table.drop_first();
        let others = placement::all_targets(rest);
        let next = backpatch::patch_targets(code, first, address);
        let more = if is_const {
            relocs
        } else {
            relocs + backpatch::relocations(code, first)
        };
        lemma_first_entry(code, table);
        lemma_patch_targets(code, first, address);
        placement::lemma_same_layout_fits(code, next, others);
        if let Ok((after, _)) = assembler::resolved(code, table, known, relocs) {
            if entry > 0 {
                law_resolving_fills_in_every_label(next, rest, known, more, entry - 1, i);
            } else {
                let target = first[i];
                let n = target.instruction as int;
                lemma_patch_targets_hold(code, first, address, i);
                law_resolving_keeps_the_layout(next, rest, known, more);
                placement::lemma_same_layout_fits(code, next, first);
                assert(backpatch::target_fits(next, first[i]));
                assert(next[n].address == after[n].address && next[n].value.len()
                    == after[n].value.len());
                assert forall|k: int|
                    target.index <= k < target.index + backpatch::width(
                        target.size,
                    ) implies after[n].value[k] == next[n].value[k] by {
                    assert forall|j: int| 0 <= j < others.len() implies !covers(
                        #[trigger] others[j],
                        n,
                        k,
                    ) by {
                        assert(others[j] == all[first.len() + j]);
                        assert(target == all[i]);
                        assert(placement::disjoint(all[i], all[first.len() + j]));
                    }
                    law_resolving_keeps_other_bytes(next, rest, known, more, n, k);
                }
                assert(bytes_at(after, target) =~= bytes_at(next, target));
            }
        }
    }
}

/// A word that holds the address of a label reads back as that address; one that holds
/// the distance of a label gives its address when the address of the instruction is
/// added.
pub proof fn law_filled_in_word_reads_back(
    code: Seq<CodeView>,
    target: BackpatchTarget,
    address: u32,
)
    requires
        holds(code, target, address),
        target.size == Size::Word,
    ensures
        !target.is_relative ==> bytes::le_value(bytes_at(code, target)) == address,
        target.is_relative ==> (bytes::le_value(bytes_at(code, target))
            + code[target.instruction as int].address) % 0x1_0000_0000 == address,
{
    let base = code[target.instruction as int].address;
    let value = backpatch::target_value(target.is_relative, address, base);
    bytes::law_word_reads_back(value);
    assert(bytes::le32(value).take(4) =~= bytes::le32(value));
    if target.is_relative {
        assert(0 <= (address - base) % 0x1_0000_0000 < 0x1_0000_0000);
        assert(((address - base) % 0x1_0000_0000 + base) % 0x1_0000_0000 == address);
    }
}

/// The addresses of labels can be filled in if and only if every label that is used
/// is known.
pub proof fn law_resolving_needs_every_label(
    code: Seq<CodeView>,
    table: Seq<EntryView>,
    known: Seq<LabelView>,
    relocs: Seq<u32>,
)
    ensures
        assembler::resolved(code, table, known, relocs) is Ok <==> forall|i: int|
            0 <= i < table.len() ==> labels::find_label(known, (#[trigger] table[i]).0) is Some,
    decreases table.len(),
{
    if table.len() > 0 {
        let rest = table.drop_first();
        if let Some((address, is_const)) = labels::find_label(known, table[0].0) {
            law_resolving_needs_every_label(
                backpatch::patch_targets(code, table[0].1, address),
                rest,
                known,
                if is_const {
                    relocs
                } else {
                    relocs + backpatch::relocations(code, table[0].1)
                },
            );
            if assembler::resolved(code, table, known, relocs) is Ok {
                assert forall|i: int| 0 <= i < table.len() implies labels::find_label(
                    known,
                    (#[trigger] table[i]).0,
                ) is Some by {
                    if i > 0 {
                        assert(rest[i - 1] == table[i]);
                    }
                }
            } else {
                let i = choose|i: int|
                    0 <= i < rest.len() && labels::find_label(known, (#[trigger] rest[i]).0) is None;
                assert(table[i + 1] == rest[i]);
            }
        } else {
            assert(labels::find_label(known, table[0].0) is None);
        }
    }
}

/// Whether a place is one that a loader has to adjust: it lies at the index of an absolute
/// use of a label that is no constant, counted from the address of the instruction.
pub open spec fn needs_relocation(
    code: Seq<CodeView>,
    table: Seq<EntryView>,
    known: Seq<LabelView>,
    location: u32,
) -> bool {
    exists|entry: int, i: int|
        {
            &&& 0 <= entry < table.len()
            &&& 0 <= i < table[entry].1.len()
            &&& labels::find_label(known, table[entry].0) matches Some((_, false))
            &&& !(#[trigger] table[entry].1[i]).is_relative
            &&& code[table[entry].1[i].instruction as int].address + table[entry].1[i].index == location
        }
}

proof fn lemma_relocations(code: Seq<CodeView>, targets: Seq<BackpatchTarget>, location: u32)
    ensures
        backpatch::relocations(code, targets).contains(location) <==> exists|i: int|
            0 <= i < targets.len() && !(#[trigger] targets[i]).is_relative
                && backpatch::target_location(code, targets[i]) == location,
    decreases targets.len(),
{
    let found = backpatch::relocations(code, targets);
    if targets.len() > 0 {
        let earlier = targets.drop_last();
        let before = backpatch::relocations(code, earlier);
        let last = targets[targets.len() - 1];
        lemma_relocations(code, earlier, location);
        if found.contains(location) {
            let k = choose|k: int| 0 <= k < found.len() && found[k] == location;
            if k < before.len() {
                assert(before[k] == location);
                let i = choose|i: int|
                    0 <= i < earlier.len() && !(#[trigger] earlier[i]).is_relative
                        && backpatch::target_location(code, earlier[i]) == location;
                assert(targets[i] == earlier[i]);
            } else {
                assert(!last.is_relative && backpatch::target_location(code, last) == location);
            }
        }
        if exists|i: int|
            0 <= i < targets.len() && !(#[trigger] targets[i]).is_relative
                && backpatch::target_location(code, targets[i]) == location {
            let i = choose|i: int|
                0 <= i < targets.len() && !(#[trigger] targets[i]).is_relative
                    && backpatch::target_location(code, targets[i]) == location;
            if i < earlier.len() {
                assert(earlier[i] == targets[i]);
                let k = choose|k: int| 0 <= k < before.len() && before[k] == location;
                assert(found[k] == location);
            } else {
                assert(found[before.len() as int] == location);
            }
        }
    }
}

/// A place needs relocation because of the first label of a table, or because of one of
/// the others.
proof fn lemma_first_relocations(
    code: Seq<CodeView>,
    next: Seq<CodeView>,
    table: Seq<EntryView>,
    known: Seq<LabelView>,
    location: u32,
)
    requires
        table.len() > 0,
        placement::targets_fit(code, placement::all_targets(table)),
        backpatch::same_layout(code, next),
    ensures
        needs_relocation(code, table, known, location) <==> {
            ||| {
                &&& labels::find_label(known, table[0].0) matches Some((_, false))
                &&& backpatch::relocations(code, table[0].1).contains(location)
            }
            ||| needs_relocation(next, table.drop_first(), known, location)
        },
{
    let first = table[0].1;
    let rest = table.drop_first();
    lemma_relocations(code, first, location);
    if needs_relocation(code, table, known, location) {
        let (entry, i) = choose|entry: int, i: int|
            {
                &&& 0 <= entry < table.len()
                &&& 0 <= i < table[entry].1.len()
                &&& labels::find_label(known, table[entry].0) matches Some((_, false))
                &&& !(#[trigger] table[entry].1[i]).is_relative
                &&& code[table[entry].1[i].instruction as int].address + table[entry].1[i].index
                    == location
            };
        if entry > 0 {
            assert(rest[entry - 1] == table[entry]);
            lemma_listed_location(code, next, table, entry, i);
            assert(!rest[entry - 1].1[i].is_relative);
        } else {
            lemma_listed_location(code, next, table, 0, i);
            assert(!first[i].is_relative);
        }
    }
    if needs_relocation(next, rest, known, location) {
        let (entry, i) = choose|entry: int, i: int|
            {
                &&& 0 <= entry < rest.len()
                &&& 0 <= i < rest[entry].1.len()
                &&& labels::find_label(known, rest[entry].0) matches Some((_, false))
                &&& !(#[trigger] rest[entry].1[i]).is_relative
                &&& next[rest[entry].1[i].instruction as int].address + rest[entry].1[i].index
                    == location
            };
        assert(rest[entry] == table[entry + 1]);
        lemma_listed_location(code, next, table, entry + 1, i);
        assert(!table[entry + 1].1[i].is_relative);
    }
    if labels::find_label(known, table[0].0) matches Some((_, false)) {
        if backpatch::relocations(code, first).contains(location) {
            let i = choose|i: int|
                0 <= i < first.len() && !(#[trigger] first[i]).is_relative
                    && backpatch::target_location(code, first[i]) == location;
            lemma_listed_location(code, next, table, 0, i);
            assert(!table[0].1[i].is_relative);
        }
    }
}

/// A program with the same layout has its places at the same addresses.
proof fn lemma_listed_location(
    code: Seq<CodeView>,
    other: Seq<CodeView>,
    table: Seq<EntryView>,
    entry: int,
    i: int,
)
    requires
        backpatch::same_layout(code, other),
        placement::targets_fit(code, placement::all_targets(table)),
        0 <= entry < table.len(),
        0 <= i < table[entry].1.len(),
    ensures
        ({
            let target = table[entry].1[i];
            let n = target.instruction as int;
            &&& backpatch::target_location(code, target) == code[n].address + target.index
            &&& other[n].address == code[n].address
        }),
{
    let place = placement::lemma_target_listed(table, entry, i);
    let target = placement::all_targets(table)[place];
    assert(backpatch::target_fits(code, target));
    assert(code[target.instruction as int].address == other[target.instruction as int].address);
}

/// The table of relocations lists exactly the places that hold the absolute address of
/// a label that is no constant.
pub proof fn law_relocations_are_the_absolute_addresses(
    code: Seq<CodeView>,
    table: Seq<EntryView>,
    known: Seq<LabelView>,
    relocs: Seq<u32>,
    location: u32,
)
    requires
        placement::targets_fit(code, placement::all_targets(table)),
    ensures
        assembler::resolved(code, table, known, relocs) matches Ok((_, listed)) ==> (
        listed.contains(location) <==> relocs.contains(location) || needs_relocation(
            code,
            table,
            known,
            location,
        )),
    decreases table.len(),
{
    if table.len() > 0 {
        if let Some((address, is_const)) = labels::find_label(known, table[0].0) {
            let first = backpatch::relocations(code, table[0].1);
            let next = backpatch::patch_targets(code, table[0].1, address);
            let rest = table.drop_first();
            let more = if is_const {
                relocs
            } else {
                relocs + first
            };
            lemma_first_entry(code, table);
            lemma_patch_targets(code, table[0].1, address);
            placement::lemma_same_layout_fits(code, next, placement::all_targets(rest));
            law_relocations_are_the_absolute_addresses(next, rest, known, more, location);
            lemma_first_relocations(code, next, table, known, location);
            if !is_const {
                assert(more.contains(location) <==> relocs.contains(location) || first.contains(
                    location,
                )) by {
                    if relocs.contains(location) {
                        let k = choose|k: int| 0 <= k < relocs.len() && relocs[k] == location;
                        assert(more[k] == location);
                    }
                    if first.contains(location) {
                        let k = choose|k: int| 0 <= k < first.len() && first[k] == location;
                        assert(more[relocs.len() + k] == location);
                    }
                    if more.contains(location) {
                        let k = choose|k: int| 0 <= k < more.len() && more[k] == location;
                        if k < relocs.len() {
                            assert(relocs[k] == location);
                        } else {
                            assert(first[k - relocs.len()] == location);
                        }
                    }
                }
            }
        }
    }
}

/// Of the given targets, the addresses of those that are absolute, in their order.
pub open spec fn absolute_places(code: Seq<CodeView>, targets: Seq<BackpatchTarget>) -> Seq<int> {
    targets.filter(|t: BackpatchTarget| !t.is_relative).map_values(
        |t: BackpatchTarget| code[t.instruction as int].address + t.index,
    )
}

/// The targets of the labels that are no constants, in the order of the names.
pub open spec fn label_targets(table: Seq<EntryView>, known: Seq<LabelView>) -> Seq<BackpatchTarget> {
    table.filter(|e: EntryView| labels::find_label(known, e.0) matches Some((_, false))).map_values(
        |e: EntryView| e.1,
    ).flatten()
}

proof fn lemma_absolute_places(
    code: Seq<CodeView>,
    a: Seq<BackpatchTarget>,
    b: Seq<BackpatchTarget>,
)
    ensures
        absolute_places(code, a + b) == absolute_places(code, a) + absolute_places(code, b),
{
    Seq::filter_distributes_over_add(a, b, |t: BackpatchTarget| !t.is_relative);
    assert(absolute_places(code, a + b) =~= absolute_places(code, a) + absolute_places(code, b));
}

proof fn lemma_relocations_in_order(code: Seq<CodeView>, targets: Seq<BackpatchTarget>)
    requires
        placement::targets_fit(code, targets),
    ensures
        backpatch::relocations(code, targets).map_values(|place: u32| place as int)
            == absolute_places(code, targets),
    decreases targets.len(),
{
    reveal(Seq::filter);
    if targets.len() > 0 {
        let fewer = targets.drop_last();
        assert forall|k: int| 0 <= k < fewer.len() implies backpatch::target_fits(
            code,
            #[trigger] fewer[k],
        ) by {
            assert(fewer[k] == targets[k]);
        }
        lemma_relocations_in_order(code, fewer);
        let t = targets[targets.len() - 1];
        assert(backpatch::target_fits(code, t));
        assert(backpatch::target_location(code, t) == code[t.instruction as int].address
            + t.index);
        let absolute = |target: BackpatchTarget| !target.is_relative;
        assert(targets.filter(absolute) == if t.is_relative {
            fewer.filter(absolute)
        } else {
            fewer.filter(absolute).push(t)
        });
        let before = backpatch::relocations(code, fewer);
        let as_int = |place: u32| place as int;
        let place = code[t.instruction as int].address + t.index;
        if t.is_relative {
            assert(absolute_places(code, targets) =~= absolute_places(code, fewer));
        } else {
            assert(absolute_places(code, targets) =~= absolute_places(code, fewer).push(place));
            assert(backpatch::relocations(code, targets).map_values(as_int)
                =~= before.map_values(as_int).push(place));
        }
    } else {
        assert(absolute_places(code, targets) =~= seq![]);
        assert(backpatch::relocations(code, targets).map_values(|place: u32| place as int)
            =~= seq![]);
    }
}

proof fn lemma_label_targets(table: Seq<EntryView>, known: Seq<LabelView>)
    requires
        table.len() > 0,
    ensures
        label_targets(table, known) == if labels::find_label(known, table[0].0) matches Some(
            (_, false),
        ) {
            table[0].1 + label_targets(table.drop_first(), known)
        } else {
            label_targets(table.drop_first(), known)
        },
{
    reveal(Seq::filter);
    let rest = table.drop_first();
    let first = seq![table[0]];
    let p = |e: EntryView| labels::find_label(known, e.0) matches Some((_, false));
    let lists = |e: EntryView| e.1;
    assert(table =~= first + rest);
    Seq::filter_distributes_over_add(first, rest, p);
    assert(first.drop_last() =~= seq![]);
    assert(first.drop_last().filter(p) =~= seq![]);
    let picked = table.filter(p);
    if p(table[0]) {
        assert(first.filter(p) =~= first);
        assert(picked.map_values(lists).drop_first() =~= rest.filter(p).map_values(lists));
        assert(picked.map_values(lists).first() == table[0].1);
    } else {
        assert(first.filter(p) =~= seq![]);
        assert(picked =~= rest.filter(p));
    }
}

/// The table of relocations holds one entry for each absolute target of a label that is
/// no constant: the address of the statement and the index in it, in the order of the
/// names of the labels and, for one label, in the order of its targets.
pub proof fn law_relocations_are_in_order(
    code: Seq<CodeView>,
    table: Seq<EntryView>,
    known: Seq<LabelView>,
    relocs: Seq<u32>,
)
    requires
        placement::targets_fit(code, placement::all_targets(table)),
    ensures
        assembler::resolved(code, table, known, relocs) matches Ok((_, listed)) ==> {
            &&& listed.len() == relocs.len() + absolute_places(
                code,
                label_targets(table, known),
            ).len()
            &&& listed.take(relocs.len() as int) == relocs
            &&& listed.skip(relocs.len() as int).map_values(|place: u32| place as int)
                == absolute_places(code, label_targets(table, known))
        },
    decreases table.len(),
{
    let places = absolute_places(code, label_targets(table, known));
    if table.len() == 0 {
        reveal(Seq::filter);
        assert(places =~= seq![]);
        assert(relocs.skip(relocs.len() as int).map_values(|place: u32| place as int) =~= places);
    } else if let Some((address, is_const)) = labels::find_label(known, table[0].0) {
        let first = backpatch::relocations(code, table[0].1);
        let next = backpatch::patch_targets(code, table[0].1, address);
        let rest = table.drop_first();
        let more = if is_const {
            relocs
        } else {
            relocs + first
        };
        lemma_first_entry(code, table);
        lemma_patch_targets(code, table[0].1, address);
        placement::lemma_same_layout_fits(code, next, placement::all_targets(rest));
        law_relocations_are_in_order(next, rest, known, more);
        lemma_label_targets(table, known);
        lemma_relocations_in_order(code, table[0].1);
        let others = label_targets(rest, known);
        lemma_label_targets_fit(code, rest, known);
        lemma_same_places(code, next, others);
        if let Ok((_, listed)) = assembler::resolved(code, table, known, relocs) {
            let as_int = |place: u32| place as int;
            if is_const {
            } else {
                lemma_absolute_places(code, table[0].1, others);
                assert(listed.take(relocs.len() as int) =~= listed.take(more.len() as int).take(
                    relocs.len() as int,
                ));
                assert(more.take(relocs.len() as int) =~= relocs);
                let tail = listed.skip(relocs.len() as int);
                assert(tail.take(first.len() as int) =~= first) by {
                    assert(listed.take(more.len() as int).skip(relocs.len() as int) =~= first);
                    assert(tail.take(first.len() as int) =~= listed.take(more.len() as int).skip(
                        relocs.len() as int,
                    ));
                }
                assert(tail =~= first + listed.skip(more.len() as int)) by {
                    assert(tail.skip(first.len() as int) =~= listed.skip(more.len() as int));
                    assert(tail =~= tail.take(first.len() as int) + tail.skip(first.len() as int));
                }
                assert(tail.map_values(as_int) =~= first.map_values(as_int) + listed.skip(
                    more.len() as int,
                ).map_values(as_int));
            }
        }
    }
}

proof fn lemma_label_targets_fit(code: Seq<CodeView>, table: Seq<EntryView>, known: Seq<LabelView>)
    requires
        placement::targets_fit(code, placement::all_targets(table)),
    ensures
        placement::targets_fit(code, label_targets(table, known)),
    decreases table.len(),
{
    if table.len() == 0 {
        reveal(Seq::filter);
        assert(label_targets(table, known) =~= seq![]);
    } else {
        lemma_first_entry(code, table);
        lemma_label_targets(table, known);
        lemma_label_targets_fit(code, table.drop_first(), known);
    }
}

proof fn lemma_same_places(
    code: Seq<CodeView>,
    other: Seq<CodeView>,
    targets: Seq<BackpatchTarget>,
)
    requires
        backpatch::same_layout(code, other),
        placement::targets_fit(code, targets),
    ensures
        absolute_places(code, targets) == absolute_places(other, targets),
    decreases targets.len(),
{
    reveal(Seq::filter);
    if targets.len() > 0 {
        let fewer = targets.drop_last();
        assert forall|k: int| 0 <= k < fewer.len() implies backpatch::target_fits(
            code,
            #[trigger] fewer[k],
        ) by {
            assert(fewer[k] == targets[k]);
        }
        lemma_same_places(code, other, fewer);
        let t = targets[targets.len() - 1];
        assert(backpatch::target_fits(code, t));
        assert(code[t.instruction as int].address == other[t.instruction as int].address);
        lemma_absolute_places(code, fewer, seq![t]);
        lemma_absolute_places(other, fewer, seq![t]);
        assert(targets =~= fewer + seq![t]);
        assert(seq![t].drop_last() =~= seq![]);
        assert(absolute_places(code, seq![t]) =~= absolute_places(other, seq![t]));
    } else {
        assert(absolute_places(code, targets) =~= absolute_places(other, targets));
    }
}

} // verus!
