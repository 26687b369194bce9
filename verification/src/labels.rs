//! The tables of an assembler run: where the address of each label is used, and
//! what the address of each label is.

use crate::backpatch::BackpatchTarget;
use crate::text::{chars_of, push_hex};
use crate::{includes, numerals, text};
use vstd::prelude::*;

verus! {

/// Whether one name comes before another in the order of a dictionary, by the
/// code points of its characters.
pub open spec fn name_before(a: Seq<char>, b: Seq<char>) -> bool
    decreases a.len(),
{
    if b.len() == 0 {
        false
    } else if a.len() == 0 {
        true
    } else if a[0] == b[0] {
        name_before(a.drop_first(), b.drop_first())
    } else {
        a[0] < b[0]
    }
}

/// Whether `a` comes before `b` in the order of a dictionary.
pub fn precedes(a: &String, b: &String) -> (before: bool)
    ensures
        before == name_before(a@, b@),
{
    let left = chars_of(a.as_str());
    let right = chars_of(b.as_str());
    let mut i: usize = 0;
    assert(a@.skip(0) =~= a@ && b@.skip(0) =~= b@);
    while i < left.len() && i < right.len() && left[i] == right[i]
        invariant
            left@ == a@,
            right@ == b@,
            i <= a@.len(),
            i <= b@.len(),
            name_before(a@, b@) == name_before(a@.skip(i as int), b@.skip(i as int)),
        decreases a@.len() - i,
    {
        assert(a@.skip(i as int).drop_first() =~= a@.skip(i + 1));
        assert(b@.skip(i as int).drop_first() =~= b@.skip(i + 1));
        i = i + 1;
    }
    if i == right.len() {
        false
    } else if i == left.len() {
        true
    } else {
        left[i] < right[i]
    }
}

/// One name with its targets, in the order in which they were added.
pub type EntryView = (Seq<char>, Seq<BackpatchTarget>);

/// `table` with one more target under `name`. Names stand in the order of a
/// dictionary.
pub open spec fn add_target(
    table: Seq<EntryView>,
    name: Seq<char>,
    target: BackpatchTarget,
) -> Seq<EntryView>
    decreases table.len(),
{
    if table.len() == 0 {
        seq![(name, seq![target])]
    } else if table[0].0 == name {
        table.update(0, (name, table[0].1.push(target)))
    } else if name_before(name, table[0].0) {
        seq![(name, seq![target])] + table
    } else {
        seq![table[0]] + add_target(table.drop_first(), name, target)
    }
}

/// Whether a target is listed under a name.
pub open spec fn lists(table: Seq<EntryView>, name: Seq<char>, target: BackpatchTarget) -> bool {
    exists|i: int, k: int|
        {
            &&& 0 <= i < table.len()
            &&& 0 <= k < table[i].1.len()
            &&& table[i].0 == name
            &&& #[trigger] table[i].1[k] == target
        }
}

/// Whether names stand in the order of a dictionary, each once.
pub open spec fn names_in_order(table: Seq<EntryView>) -> bool {
    forall|i: int, j: int|
        0 <= i < j < table.len() ==> name_before(
            (#[trigger] table[i]).0,
            (#[trigger] table[j]).0,
        )
}

/// The order of a dictionary is total: of two different names one comes before the
/// other, and not the other way round.
pub proof fn law_names_are_ordered(a: Seq<char>, b: Seq<char>)
    ensures
        a == b ==> !name_before(a, b),
        a != b ==> name_before(a, b) || name_before(b, a),
        !(name_before(a, b) && name_before(b, a)),
    decreases a.len(),
{
    if a.len() > 0 && b.len() > 0 && a[0] == b[0] {
        law_names_are_ordered(a.drop_first(), b.drop_first());
        assert(a =~= seq![a[0]] + a.drop_first());
        assert(b =~= seq![b[0]] + b.drop_first());
    } else if a.len() == 0 && b.len() == 0 {
        assert(a =~= b);
    }
}

/// What comes before a name comes before all names after that.
pub proof fn law_order_of_names_is_transitive(a: Seq<char>, b: Seq<char>, c: Seq<char>)
    requires
        name_before(a, b),
        name_before(b, c),
    ensures
        name_before(a, c),
    decreases a.len(),
{
    if a.len() > 0 && b.len() > 0 && c.len() > 0 && a[0] == b[0] && b[0] == c[0] {
        law_order_of_names_is_transitive(a.drop_first(), b.drop_first(), c.drop_first());
    }
}

/// Of two names that start alike, the one comes first that ends there, or else the one
/// whose next character has the lower code point.
pub proof fn law_order_of_names(start: Seq<char>, a: Seq<char>, b: Seq<char>)
    ensures
        a.len() == 0 ==> (name_before(start + a, start + b) <==> b.len() > 0),
        b.len() == 0 ==> !name_before(start + a, start + b),
        a.len() > 0 && b.len() > 0 && a[0] != b[0] ==> (name_before(start + a, start + b)
            <==> (a[0] as int) < (b[0] as int)),
    decreases start.len(),
{
    if start.len() > 0 {
        let rest = start.drop_first();
        law_order_of_names(rest, a, b);
        assert((start + a).drop_first() =~= rest + a);
        assert((start + b).drop_first() =~= rest + b);
    } else {
        assert(start + a =~= a);
        assert(start + b =~= b);
    }
}

/// Whether an entry is that of a name.
pub open spec fn is_entry_of(name: Seq<char>) -> spec_fn(EntryView) -> bool {
    |entry: EntryView| entry.0 == name
}

/// The targets that are listed under a name, in their order.
pub open spec fn targets_under(table: Seq<EntryView>, name: Seq<char>) -> Seq<BackpatchTarget> {
    table.filter(is_entry_of(name)).map_values(|e: EntryView| e.1).flatten()
}

proof fn lemma_targets_under(entry: EntryView, rest: Seq<EntryView>, name: Seq<char>)
    ensures
        targets_under(seq![entry] + rest, name) == if entry.0 == name {
            entry.1 + targets_under(rest, name)
        } else {
            targets_under(rest, name)
        },
{
    reveal(Seq::filter);
    let first = seq![entry];
    let table = first + rest;
    let p = is_entry_of(name);
    let lists = |e: EntryView| e.1;
    Seq::filter_distributes_over_add(first, rest, p);
    assert(first.drop_last() =~= seq![]);
    assert(first.drop_last().filter(p) =~= seq![]);
    let chosen = table.filter(p);
    if entry.0 == name {
        assert(first.filter(p) =~= first);
        assert(chosen.map_values(lists).drop_first() =~= rest.filter(p).map_values(lists));
        assert(chosen.map_values(lists).first() == entry.1);
    } else {
        assert(first.filter(p) =~= seq![]);
        assert(chosen =~= rest.filter(p));
    }
}

proof fn lemma_nothing_under(table: Seq<EntryView>, name: Seq<char>)
    requires
        forall|i: int| 0 <= i < table.len() ==> (#[trigger] table[i]).0 != name,
    ensures
        targets_under(table, name) == Seq::<BackpatchTarget>::empty(),
    decreases table.len(),
{
    if table.len() == 0 {
        reveal(Seq::filter);
        assert(targets_under(table, name) =~= seq![]);
    } else {
        let rest = table.drop_first();
        assert forall|i: int| 0 <= i < rest.len() implies (#[trigger] rest[i]).0 != name by {
            assert(rest[i] == table[i + 1]);
        }
        lemma_nothing_under(rest, name);
        lemma_targets_under(table[0], rest, name);
        assert(table =~= seq![table[0]] + rest);
        assert(table[0].0 != name);
    }
}

/// A target is added behind those of its name; the targets of other names stay as they
/// are.
pub proof fn law_targets_are_added_in_order(
    table: Seq<EntryView>,
    name: Seq<char>,
    target: BackpatchTarget,
    other: Seq<char>,
)
    requires
        names_in_order(table),
    ensures
        targets_under(add_target(table, name, target), other) == if other == name {
            targets_under(table, name).push(target)
        } else {
            targets_under(table, other)
        },
    decreases table.len(),
{
    let fresh = (name, seq![target]);
    if table.len() == 0 {
        lemma_targets_under(fresh, table, other);
        lemma_nothing_under(table, other);
        assert(add_target(table, name, target) =~= seq![fresh] + table);
        assert(fresh.1 + targets_under(table, other) =~= seq![target]);
        assert(targets_under(table, other).push(target) =~= seq![target]);
    } else {
        let rest = table.drop_first();
        assert(table =~= seq![table[0]] + rest);
        lemma_targets_under(table[0], rest, other);
        assert(names_in_order(rest)) by {
            assert forall|i: int, j: int| 0 <= i < j < rest.len() implies name_before(
                (#[trigger] rest[i]).0,
                (#[trigger] rest[j]).0,
            ) by {
                assert(rest[i] == table[i + 1] && rest[j] == table[j + 1]);
            }
        }
        if table[0].0 == name {
            let longer = (name, table[0].1.push(target));
            assert(table.update(0, longer) =~= seq![longer] + rest);
            lemma_targets_under(longer, rest, other);
            assert forall|i: int| 0 <= i < rest.len() implies (#[trigger] rest[i]).0 != name by {
                assert(rest[i] == table[i + 1]);
                assert(name_before(table[0].0, table[i + 1].0));
                law_names_are_ordered(name, rest[i].0);
            }
            lemma_nothing_under(rest, name);
            assert(longer.1 + targets_under(rest, name) =~= longer.1);
            assert(table[0].1 + targets_under(rest, name) =~= table[0].1);
        } else if name_before(name, table[0].0) {
            lemma_targets_under(fresh, table, other);
            assert forall|i: int| 0 <= i < table.len() implies (#[trigger] table[i]).0 != name by {
                if i > 0 {
                    assert(name_before(table[0].0, table[i].0));
                    law_order_of_names_is_transitive(name, table[0].0, table[i].0);
                }
                law_names_are_ordered(name, table[i].0);
            }
            lemma_nothing_under(table, name);
            assert(seq![target] + targets_under(table, name) =~= targets_under(table, name).push(
                target,
            ));
        } else {
            law_targets_are_added_in_order(rest, name, target, other);
            lemma_targets_under(table[0], add_target(rest, name, target), other);
        }
    }
}

/// Adding a target keeps the names in order.
pub proof fn law_add_target_keeps_order(
    table: Seq<EntryView>,
    name: Seq<char>,
    target: BackpatchTarget,
)
    requires
        names_in_order(table),
    ensures
        names_in_order(add_target(table, name, target)),
        forall|i: int|
            0 <= i < add_target(table, name, target).len() ==> {
                ||| (#[trigger] add_target(table, name, target)[i]).0 == name
                ||| exists|k: int|
                    0 <= k < table.len() && (#[trigger] table[k]).0 == add_target(
                        table,
                        name,
                        target,
                    )[i].0
            },
    decreases table.len(),
{
    let added = add_target(table, name, target);
    if table.len() == 0 {
    } else if table[0].0 == name {
        assert forall|i: int| 0 <= i < added.len() implies (#[trigger] added[i]).0
            == table[i].0 by {}
        assert forall|i: int, j: int| 0 <= i < j < added.len() implies name_before(
            (#[trigger] added[i]).0,
            (#[trigger] added[j]).0,
        ) by {
            assert(added[i].0 == table[i].0 && added[j].0 == table[j].0);
            assert(name_before(table[i].0, table[j].0));
        }
    } else if name_before(name, table[0].0) {
        assert forall|i: int| 0 < i < added.len() implies #[trigger] added[i] == table[
            i - 1
        ] by {}
        assert forall|i: int, j: int| 0 <= i < j < added.len() implies name_before(
            (#[trigger] added[i]).0,
            (#[trigger] added[j]).0,
        ) by {
            assert(added[j] == table[j - 1]);
            if i > 0 {
                assert(added[i] == table[i - 1]);
                assert(name_before(table[i - 1].0, table[j - 1].0));
            } else if j > 1 {
                assert(name_before(table[0].0, table[j - 1].0));
                law_order_of_names_is_transitive(name, table[0].0, table[j - 1].0);
            }
        }
        assert forall|i: int| 0 <= i < added.len() implies (#[trigger] added[i]).0 == name || exists|
            k: int,
        | 0 <= k < table.len() && (#[trigger] table[k]).0 == added[i].0 by {
            if i > 0 {
                assert(table[i - 1].0 == added[i].0);
            }
        }
    } else {
        let rest = table.drop_first();
        let tail = add_target(rest, name, target);
        assert forall|i: int, j: int| 0 <= i < j < rest.len() implies name_before(
            (#[trigger] rest[i]).0,
            (#[trigger] rest[j]).0,
        ) by {
            assert(rest[i] == table[i + 1] && rest[j] == table[j + 1]);
        }
        law_add_target_keeps_order(rest, name, target);
        law_names_are_ordered(table[0].0, name);
        assert forall|i: int| 0 < i < added.len() implies #[trigger] added[i] == tail[i - 1] by {}
        assert forall|i: int, j: int| 0 <= i < j < added.len() implies name_before(
            (#[trigger] added[i]).0,
            (#[trigger] added[j]).0,
        ) by {
            assert(added[j] == tail[j - 1]);
            if i > 0 {
                assert(added[i] == tail[i - 1]);
                assert(name_before(tail[i - 1].0, tail[j - 1].0));
            } else if tail[j - 1].0 != name {
                let k = choose|k: int| 0 <= k < rest.len() && (#[trigger] rest[k]).0 == tail[
                    j - 1
                ].0;
                assert(rest[k] == table[k + 1]);
                assert(name_before(table[0].0, table[k + 1].0));
            }
        }
        assert forall|i: int| 0 <= i < added.len() implies (#[trigger] added[i]).0 == name || exists|
            k: int,
        | 0 <= k < table.len() && (#[trigger] table[k]).0 == added[i].0 by {
            if i == 0 {
                assert(table[0].0 == added[0].0);
            } else if tail[i - 1].0 != name {
                let k = choose|k: int| 0 <= k < rest.len() && (#[trigger] rest[k]).0 == tail[
                    i - 1
                ].0;
                assert(table[k + 1].0 == added[i].0);
            }
        }
    }
}

/// Adding a target lists it under its name, and lists nothing else that was not listed
/// before.
pub proof fn law_add_target_lists_it(
    table: Seq<EntryView>,
    name: Seq<char>,
    target: BackpatchTarget,
    other_name: Seq<char>,
    other: BackpatchTarget,
)
    ensures
        lists(add_target(table, name, target), other_name, other) <==> lists(
            table,
            other_name,
            other,
        ) || (other_name == name && other == target),
    decreases table.len(),
{
    let added = add_target(table, name, target);
    if table.len() == 0 {
        assert(added[0].1[0] == target);
    } else if table[0].0 == name {
        assert(added[0].1[table[0].1.len() as int] == target);
        if lists(table, other_name, other) {
            let (i, k) = choose|i: int, k: int|
                {
                    &&& 0 <= i < table.len()
                    &&& 0 <= k < table[i].1.len()
                    &&& table[i].0 == other_name
                    &&& #[trigger] table[i].1[k] == other
                };
            assert(added[i].1[k] == other);
        }
        if lists(added, other_name, other) {
            let (i, k) = choose|i: int, k: int|
                {
                    &&& 0 <= i < added.len()
                    &&& 0 <= k < added[i].1.len()
                    &&& added[i].0 == other_name
                    &&& #[trigger] added[i].1[k] == other
                };
            if i > 0 || k < table[0].1.len() {
                assert(table[i].1[k] == other);
            }
        }
    } else if name_before(name, table[0].0) {
        assert(added[0].1[0] == target);
        if lists(table, other_name, other) {
            let (i, k) = choose|i: int, k: int|
                {
                    &&& 0 <= i < table.len()
                    &&& 0 <= k < table[i].1.len()
                    &&& table[i].0 == other_name
                    &&& #[trigger] table[i].1[k] == other
                };
            assert(added[i + 1].1[k] == other);
        }
        if lists(added, other_name, other) {
            let (i, k) = choose|i: int, k: int|
                {
                    &&& 0 <= i < added.len()
                    &&& 0 <= k < added[i].1.len()
                    &&& added[i].0 == other_name
                    &&& #[trigger] added[i].1[k] == other
                };
            if i > 0 {
                assert(table[i - 1].1[k] == other);
            }
        }
    } else {
        let rest = table.drop_first();
        law_add_target_lists_it(rest, name, target, other_name, other);
        lemma_lists_first(table, other_name, other);
        lemma_lists_first(added, other_name, other);
        assert(added.drop_first() =~= add_target(rest, name, target));
    }
}

/// A target is listed with the first name, or with one of the others.
proof fn lemma_lists_first(table: Seq<EntryView>, name: Seq<char>, target: BackpatchTarget)
    requires
        table.len() > 0,
    ensures
        lists(table, name, target) <==> {
            ||| table[0].0 == name && table[0].1.contains(target)
            ||| lists(table.drop_first(), name, target)
        },
{
    let rest = table.drop_first();
    if lists(table, name, target) {
        let (i, k) = choose|i: int, k: int|
            {
                &&& 0 <= i < table.len()
                &&& 0 <= k < table[i].1.len()
                &&& table[i].0 == name
                &&& #[trigger] table[i].1[k] == target
            };
        if i > 0 {
            assert(rest[i - 1].1[k] == target);
        } else {
            assert(table[0].1[k] == target);
        }
    }
    if lists(rest, name, target) {
        let (i, k) = choose|i: int, k: int|
            {
                &&& 0 <= i < rest.len()
                &&& 0 <= k < rest[i].1.len()
                &&& rest[i].0 == name
                &&& #[trigger] rest[i].1[k] == target
            };
        assert(table[i + 1].1[k] == target);
    }
    if table[0].0 == name && table[0].1.contains(target) {
        let k = choose|k: int| 0 <= k < table[0].1.len() && table[0].1[k] == target;
        assert(table[0].1[k] == target);
    }
}

/// A name with its targets.
#[derive(Debug, PartialEq, Eq)]
pub struct TargetEntry {
    pub name: String,
    pub targets: Vec<BackpatchTarget>,
}

/// The targets of every label that is used as an operand.
#[derive(Debug, PartialEq, Eq)]
pub struct LabelTargets {
    pub entries: Vec<TargetEntry>,
}

impl View for LabelTargets {
    type V = Seq<EntryView>;

    open spec fn view(&self) -> Seq<EntryView> {
        Seq::new(
            self.entries@.len(),
            |i: int| (self.entries@[i].name@, self.entries@[i].targets@),
        )
    }
}

/// Entries that a new target goes past keep their place.
proof fn lemma_add_after(
    table: Seq<EntryView>,
    name: Seq<char>,
    target: BackpatchTarget,
    count: int,
)
    requires
        0 <= count <= table.len(),
        forall|k: int|
            0 <= k < count ==> (#[trigger] table[k]).0 != name && !name_before(name, table[k].0),
    ensures
        add_target(table, name, target) == table.take(count) + add_target(
            table.skip(count),
            name,
            target,
        ),
    decreases count,
{
    if count == 0 {
        assert(table.skip(0) =~= table);
        assert(table.take(0) =~= Seq::empty());
        assert(table.take(0) + add_target(table, name, target) =~= add_target(table, name, target));
    } else {
        assert(table[0].0 != name && !name_before(name, table[0].0));
        let rest = table.drop_first();
        assert forall|k: int| 0 <= k < count - 1 implies (#[trigger] rest[k]).0 != name
            && !name_before(name, rest[k].0) by {
            assert(rest[k] == table[k + 1]);
        }
        lemma_add_after(rest, name, target, count - 1);
        assert(rest.skip(count - 1) =~= table.skip(count));
        assert(seq![table[0]] + rest.take(count - 1) =~= table.take(count));
        assert(add_target(table, name, target) =~= table.take(count) + add_target(
            table.skip(count),
            name,
            target,
        ));
    }
}

impl LabelTargets {
    /// An empty table.
    pub fn new() -> (table: Self)
        ensures
            table@ == Seq::<EntryView>::empty(),
    {
        let table = LabelTargets { entries: Vec::new() };
        assert(table@ =~= Seq::empty());
        table
    }

    /// Adds a target of the label `name`.
    pub fn insert(&mut self, name: &String, target: BackpatchTarget)
        ensures
            final(self)@ == add_target(old(self)@, name@, target),
    {
        let ghost table = self@;
        let mut i: usize = 0;
        while i < self.entries.len()
            invariant
                self@ == table,
                table == old(self)@,
                i <= self.entries@.len(),
                forall|k: int|
                    0 <= k < i ==> (#[trigger] table[k]).0 != name@ && !name_before(
                        name@,
                        table[k].0,
                    ),
            ensures
                i == self.entries@.len() || name_before(name@, table[i as int].0),
                i < self.entries@.len() ==> table[i as int].0 != name@,
            decreases self.entries@.len() - i,
        {
            assert(table[i as int] == (
                self.entries@[i as int].name@,
                self.entries@[i as int].targets@,
            ));
            if self.entries[i].name == *name {
                self.entries[i].targets.push(target);
                proof {
                    lemma_add_after(table, name@, target, i as int);
                    assert(table.skip(i as int)[0] == table[i as int]);
                    assert(self@ =~= add_target(table, name@, target));
                }
                return ;
            }
            if precedes(name, &self.entries[i].name) {
                break;
            }
            i = i + 1;
        }
        let mut targets: Vec<BackpatchTarget> = Vec::new();
        targets.push(target);
        let ghost added: EntryView = (name@, targets@);
        self.entries.insert(i, TargetEntry { name: name.clone(), targets });
        proof {
            lemma_add_after(table, name@, target, i as int);
            assert(targets@ =~= seq![target]);
            if i < table.len() {
                assert(table.skip(i as int)[0] == table[i as int]);
            }
            assert(self@ =~= add_target(table, name@, target));
        }
    }
}

/// The mathematical form of a [`Label`].
#[verifier::ext_equal]
pub struct LabelView {
    pub name: Seq<char>,
    pub address: u32,
    pub is_const: bool,
}

/// A label or a constant with its address.
#[derive(Debug, PartialEq, Eq)]
pub struct Label {
    pub name: String,
    pub address: u32,
    pub is_const: bool,
}

impl View for Label {
    type V = LabelView;

    open spec fn view(&self) -> LabelView {
        LabelView { name: self.name@, address: self.address, is_const: self.is_const }
    }
}

/// The addresses of labels and constants. No name occurs twice.
#[derive(Debug, PartialEq, Eq)]
pub struct LabelTable {
    pub labels: Vec<Label>,
}

impl View for LabelTable {
    type V = Seq<LabelView>;

    open spec fn view(&self) -> Seq<LabelView> {
        Seq::new(self.labels@.len(), |i: int| self.labels@[i]@)
    }
}

/// The address that a table gives for a name, and whether it is a constant.
pub open spec fn find_label(table: Seq<LabelView>, name: Seq<char>) -> Option<(u32, bool)>
    decreases table.len(),
{
    if table.len() == 0 {
        None
    } else if table[0].name == name {
        Some((table[0].address, table[0].is_const))
    } else {
        find_label(table.drop_first(), name)
    }
}

/// `table` with a new address for a name.
pub open spec fn put_label(table: Seq<LabelView>, label: LabelView) -> Seq<LabelView>
    decreases table.len(),
{
    if table.len() == 0 {
        seq![label]
    } else if table[0].name == label.name {
        table.update(0, label)
    } else {
        seq![table[0]] + put_label(table.drop_first(), label)
    }
}

/// Whether no name occurs twice in a table.
pub open spec fn names_distinct(table: Seq<LabelView>) -> bool {
    forall|i: int, j: int|
        0 <= i < j < table.len() ==> (#[trigger] table[i]).name != (#[trigger] table[j]).name
}

proof fn lemma_find_at(table: Seq<LabelView>, name: Seq<char>, count: int)
    requires
        0 <= count <= table.len(),
        forall|k: int| 0 <= k < count ==> (#[trigger] table[k]).name != name,
    ensures
        find_label(table, name) == find_label(table.skip(count), name),
    decreases count,
{
    if count == 0 {
        assert(table.skip(0) =~= table);
    } else {
        let rest = table.drop_first();
        assert(table[0].name != name);
        assert forall|k: int| 0 <= k < count - 1 implies (#[trigger] rest[k]).name != name by {
            assert(rest[k] == table[k + 1]);
        }
        lemma_find_at(rest, name, count - 1);
        assert(rest.skip(count - 1) =~= table.skip(count));
    }
}

proof fn lemma_put_at(table: Seq<LabelView>, label: LabelView, count: int)
    requires
        0 <= count <= table.len(),
        forall|k: int| 0 <= k < count ==> (#[trigger] table[k]).name != label.name,
    ensures
        put_label(table, label) == table.take(count) + put_label(table.skip(count), label),
    decreases count,
{
    if count == 0 {
        assert(table.skip(0) =~= table);
        assert(table.take(0) + put_label(table, label) =~= put_label(table, label));
    } else {
        let rest = table.drop_first();
        assert(table[0].name != label.name);
        assert forall|k: int| 0 <= k < count - 1 implies (#[trigger] rest[k]).name
            != label.name by {
            assert(rest[k] == table[k + 1]);
        }
        lemma_put_at(rest, label, count - 1);
        assert(rest.skip(count - 1) =~= table.skip(count));
        assert(put_label(table, label) =~= table.take(count) + put_label(
            table.skip(count),
            label,
        ));
    }
}

/// A table gives back the address that was put into it, and the other names keep
/// theirs.
pub proof fn law_put_then_find(table: Seq<LabelView>, label: LabelView, name: Seq<char>)
    ensures
        find_label(put_label(table, label), name) == if name == label.name {
            Some((label.address, label.is_const))
        } else {
            find_label(table, name)
        },
    decreases table.len(),
{
    let put = put_label(table, label);
    if table.len() == 0 {
        reveal_with_fuel(find_label, 2);
        assert(put.drop_first() =~= Seq::empty());
    } else if table[0].name == label.name {
        assert(put.drop_first() =~= table.drop_first());
    } else {
        law_put_then_find(table.drop_first(), label, name);
        assert(put.drop_first() =~= put_label(table.drop_first(), label));
    }
}

proof fn lemma_put_members(table: Seq<LabelView>, label: LabelView, i: int)
    requires
        0 <= i < put_label(table, label).len(),
    ensures
        put_label(table, label)[i] == label || (exists|k: int|
            0 <= k < table.len() && #[trigger] table[k] == put_label(table, label)[i]),
    decreases table.len(),
{
    let put = put_label(table, label);
    if table.len() > 0 {
        if table[0].name == label.name {
            if i > 0 {
                assert(put[i] == table[i]);
            }
        } else if i == 0 {
            assert(put[0] == table[0]);
        } else {
            lemma_put_members(table.drop_first(), label, i - 1);
            if put[i] != label {
                let k = choose|k: int|
                    0 <= k < table.drop_first().len() && #[trigger] table.drop_first()[k]
                        == put[i];
                assert(table[k + 1] == put[i]);
            }
        }
    }
}

/// No name occurs twice in a table, whatever is put into it.
pub proof fn law_put_keeps_names_distinct(table: Seq<LabelView>, label: LabelView)
    requires
        names_distinct(table),
    ensures
        names_distinct(put_label(table, label)),
    decreases table.len(),
{
    let put = put_label(table, label);
    if table.len() > 0 {
        if table[0].name == label.name {
            assert forall|i: int, j: int| 0 <= i < j < put.len() implies (
            #[trigger] put[i]).name != (#[trigger] put[j]).name by {
                assert(table[i].name != table[j].name);
            }
        } else {
            let rest = table.drop_first();
            assert forall|i: int, j: int| 0 <= i < j < rest.len() implies (
            #[trigger] rest[i]).name != (#[trigger] rest[j]).name by {
                assert(table[i + 1].name != table[j + 1].name);
            }
            law_put_keeps_names_distinct(rest, label);
            let put_rest = put_label(rest, label);
            assert forall|i: int, j: int| 0 <= i < j < put.len() implies (
            #[trigger] put[i]).name != (#[trigger] put[j]).name by {
                assert(put[j] == put_rest[j - 1]);
                if i > 0 {
                    assert(put[i] == put_rest[i - 1]);
                } else {
                    lemma_put_members(rest, label, j - 1);
                    if put_rest[j - 1] != label {
                        let k = choose|k: int|
                            0 <= k < rest.len() && #[trigger] rest[k] == put_rest[j - 1];
                        assert(table[0].name != table[k + 1].name);
                    }
                }
            }
        }
    }
}

impl LabelTable {
    /// An empty table.
    pub fn new() -> (table: Self)
        ensures
            table@ == Seq::<LabelView>::empty(),
    {
        let table = LabelTable { labels: Vec::new() };
        assert(table@ =~= Seq::empty());
        table
    }

    /// The place of a name in the table, or the length of the table.
    fn position(&self, name: &String) -> (place: usize)
        ensures
            place <= self@.len(),
            forall|k: int| 0 <= k < place ==> (#[trigger] self@[k]).name != name@,
            place < self@.len() ==> self@[place as int].name == name@,
    {
        let mut i: usize = 0;
        while i < self.labels.len()
            invariant
                i <= self.labels@.len(),
                forall|k: int| 0 <= k < i ==> (#[trigger] self@[k]).name != name@,
            decreases self.labels@.len() - i,
        {
            assert(self@[i as int] == self.labels@[i as int]@);
            if self.labels[i].name == *name {
                return i;
            }
            i = i + 1;
        }
        i
    }

    /// The address of a name, and whether it is a constant.
    pub fn get(&self, name: &String) -> (found: Option<(u32, bool)>)
        ensures
            found == find_label(self@, name@),
    {
        let i = self.position(name);
        proof {
            lemma_find_at(self@, name@, i as int);
        }
        if i < self.labels.len() {
            assert(self@.skip(i as int)[0] == self.labels@[i as int]@);
            Some((self.labels[i].address, self.labels[i].is_const))
        } else {
            None
        }
    }

    /// Gives a name an address, in place of the one that it had.
    pub fn insert(&mut self, name: String, address: u32, is_const: bool)
        ensures
            final(self)@ == put_label(
                old(self)@,
                LabelView { name: name@, address, is_const },
            ),
    {
        let ghost table = self@;
        let ghost label = LabelView { name: name@, address, is_const };
        let i = self.position(&name);
        proof {
            lemma_put_at(table, label, i as int);
        }
        if i < self.labels.len() {
            assert(table.skip(i as int)[0] == table[i as int]);
            self.labels[i] = Label { name, address, is_const };
        } else {
            self.labels.push(Label { name, address, is_const });
        }
        assert(self@ =~= put_label(table, label));
    }
}

/// `sorted` with one more label, behind those whose address is not greater.
pub open spec fn insert_by_address(sorted: Seq<LabelView>, label: LabelView) -> Seq<LabelView>
    decreases sorted.len(),
{
    if sorted.len() > 0 && label.address < sorted.last().address {
        insert_by_address(sorted.drop_last(), label).push(sorted.last())
    } else {
        sorted.push(label)
    }
}

/// The labels of a table by ascending address; labels with the same address keep
/// their order.
pub open spec fn by_address(table: Seq<LabelView>) -> Seq<LabelView>
    decreases table.len(),
{
    if table.len() == 0 {
        seq![]
    } else {
        insert_by_address(by_address(table.drop_last()), table.last())
    }
}

/// One line of the printed table: the address with eight digits in base 16, and the
/// name.
pub open spec fn address_line(label: LabelView) -> Seq<char> {
    "0x"@ + text::hex_digits(label.address as nat, 8) + " :: "@ + label.name
}

/// The lines of the given labels, with a line feed between them.
pub open spec fn address_lines(labels: Seq<LabelView>) -> Seq<char>
    decreases labels.len(),
{
    if labels.len() == 0 {
        seq![]
    } else if labels.len() == 1 {
        address_line(labels[0])
    } else {
        address_lines(labels.drop_last()) + seq!['\n'] + address_line(labels.last())
    }
}

/// The labels that `order` names.
pub open spec fn picked(table: Seq<LabelView>, order: Seq<usize>) -> Seq<LabelView> {
    Seq::new(order.len(), |i: int| table[order[i] as int])
}

proof fn lemma_insert_at(sorted: Seq<LabelView>, label: LabelView, place: int)
    requires
        0 <= place <= sorted.len(),
        forall|k: int|
            place <= k < sorted.len() ==> label.address < (#[trigger] sorted[k]).address,
        place > 0 ==> sorted[place - 1].address <= label.address,
    ensures
        insert_by_address(sorted, label) == sorted.insert(place, label),
    decreases sorted.len(),
{
    if place < sorted.len() {
        lemma_insert_at(sorted.drop_last(), label, place);
        assert(sorted.drop_last().insert(place, label).push(sorted.last()) =~= sorted.insert(
            place,
            label,
        ));
    } else {
        assert(sorted.push(label) =~= sorted.insert(place, label));
    }
}

/// The numbers of the labels of a table, in the order of [`by_address`].
fn order_by_address(table: &LabelTable) -> (order: Vec<usize>)
    ensures
        picked(table@, order@) == by_address(table@),
        forall|k: int| 0 <= k < order@.len() ==> (#[trigger] order@[k]) < table@.len(),
{
    let mut order: Vec<usize> = Vec::new();
    let mut i: usize = 0;
    assert(picked(table@, order@) =~= by_address(table@.take(0)));
    while i < table.labels.len()
        invariant
            i <= table.labels@.len(),
            forall|k: int| 0 <= k < order@.len() ==> (#[trigger] order@[k]) < table@.len(),
            picked(table@, order@) == by_address(table@.take(i as int)),
        decreases table.labels@.len() - i,
    {
        let address: u32 = table.labels[i].address;
        let mut place: usize = order.len();
        let ghost sorted = picked(table@, order@);
        assert(table@[i as int] == table.labels@[i as int]@);
        while place > 0 && address < table.labels[order[place - 1]].address
            invariant
                place <= order@.len(),
                address == table@[i as int].address,
                sorted == picked(table@, order@),
                forall|k: int| 0 <= k < order@.len() ==> (#[trigger] order@[k]) < table@.len(),
                forall|k: int|
                    place <= k < sorted.len() ==> address < (#[trigger] sorted[k]).address,
            decreases place,
        {
            assert(sorted[place - 1] == table.labels@[order@[place - 1] as int]@);
            place = place - 1;
        }
        proof {
            if place > 0 {
                assert(sorted[place - 1] == table.labels@[order@[place - 1] as int]@);
            }
            lemma_insert_at(sorted, table@[i as int], place as int);
            assert(table@.take(i + 1).drop_last() =~= table@.take(i as int));
        }
        let ghost before = order@;
        order.insert(place, i);
        assert(picked(table@, order@) =~= sorted.insert(place as int, table@[i as int]));
        i = i + 1;
    }
    assert(table@.take(i as int) =~= table@);
    order
}

/// The table of labels as text, by ascending address.
pub fn format_address_table(table: &LabelTable) -> (text: String)
    ensures
        text@ == address_lines(by_address(table@)),
{
    let order = order_by_address(table);
    let ghost sorted = by_address(table@);
    let mut text = String::new();
    let mut i: usize = 0;
    assert(text@ =~= address_lines(sorted.take(0)));
    while i < order.len()
        invariant
            i <= order@.len(),
            sorted == picked(table@, order@),
            forall|k: int| 0 <= k < order@.len() ==> (#[trigger] order@[k]) < table@.len(),
            text@ == address_lines(sorted.take(i as int)),
        decreases order@.len() - i,
    {
        let ghost before = text@;
        let label = &table.labels[order[i]];
        assert(sorted[i as int] == label@);
        if i > 0 {
            text.push('\n');
        }
        text.append("0x");
        push_hex(&mut text, label.address, 8);
        text.append(" :: ");
        text.append(label.name.as_str());
        i = i + 1;
        proof {
            assert(sorted.take(i as int).drop_last() =~= sorted.take(i - 1));
            assert(sorted.take(i as int).last() == label@);
            assert(text@ =~= address_lines(sorted.take(i as int)));
        }
    }
    assert(sorted.take(i as int) =~= sorted);
    text
}

/// Whether labels stand by ascending address.
pub open spec fn addresses_ascend(labels: Seq<LabelView>) -> bool {
    forall|i: int, j: int|
        0 <= i < j < labels.len() ==> (#[trigger] labels[i]).address <= (
        #[trigger] labels[j]).address
}

proof fn lemma_insert_by_address(sorted: Seq<LabelView>, label: LabelView)
    requires
        addresses_ascend(sorted),
    ensures
        addresses_ascend(insert_by_address(sorted, label)),
        insert_by_address(sorted, label).to_multiset() == sorted.to_multiset().insert(label),
        forall|i: int|
            0 <= i < insert_by_address(sorted, label).len() ==> {
                ||| #[trigger] insert_by_address(sorted, label)[i] == label
                ||| sorted.contains(insert_by_address(sorted, label)[i])
            },
    decreases sorted.len(),
{
    broadcast use vstd::seq_lib::group_to_multiset_ensures;

    let result = insert_by_address(sorted, label);
    if sorted.len() > 0 && label.address < sorted.last().address {
        let earlier = sorted.drop_last();
        let before = insert_by_address(earlier, label);
        let last = sorted[sorted.len() - 1];
        assert forall|i: int, j: int| 0 <= i < j < earlier.len() implies (
        #[trigger] earlier[i]).address <= (#[trigger] earlier[j]).address by {
            assert(earlier[i] == sorted[i] && earlier[j] == sorted[j]);
        }
        lemma_insert_by_address(earlier, label);
        assert(sorted =~= earlier.push(last));
        assert(result.to_multiset() =~= sorted.to_multiset().insert(label));
        assert forall|i: int| 0 <= i < before.len() implies #[trigger] before[i] == label
            || sorted.contains(before[i]) by {
            if before[i] != label {
                let k = choose|k: int| 0 <= k < earlier.len() && earlier[k] == before[i];
                assert(sorted[k] == before[i]);
            }
        }
        assert forall|i: int, j: int| 0 <= i < j < result.len() implies (
        #[trigger] result[i]).address <= (#[trigger] result[j]).address by {
            if j < before.len() {
                assert(result[i] == before[i] && result[j] == before[j]);
            } else {
                assert(result[i] == before[i]);
                if before[i] != label {
                    let k = choose|k: int| 0 <= k < sorted.len() && sorted[k] == before[i];
                    assert(sorted[k].address <= last.address);
                }
            }
        }
        assert forall|i: int| 0 <= i < result.len() implies #[trigger] result[i] == label
            || sorted.contains(result[i]) by {
            if i < before.len() {
                assert(result[i] == before[i]);
            } else {
                assert(sorted[sorted.len() - 1] == result[i]);
            }
        }
    } else {
        assert forall|i: int, j: int| 0 <= i < j < result.len() implies (
        #[trigger] result[i]).address <= (#[trigger] result[j]).address by {
            if j < sorted.len() {
                assert(result[i] == sorted[i] && result[j] == sorted[j]);
            } else if sorted.len() > 0 && i < sorted.len() - 1 {
                assert(sorted[i].address <= sorted[sorted.len() - 1].address);
            }
        }
        assert forall|i: int| 0 <= i < result.len() implies #[trigger] result[i] == label
            || sorted.contains(result[i]) by {
            if i < sorted.len() {
                assert(sorted[i] == result[i]);
            }
        }
    }
}

/// The printed table lists every label of a table once, by ascending address.
pub proof fn law_address_table_is_sorted(table: Seq<LabelView>)
    ensures
        addresses_ascend(by_address(table)),
        by_address(table).to_multiset() == table.to_multiset(),
        by_address(table).len() == table.len(),
    decreases table.len(),
{
    broadcast use vstd::seq_lib::group_to_multiset_ensures;

    if table.len() > 0 {
        law_address_table_is_sorted(table.drop_last());
        lemma_insert_by_address(by_address(table.drop_last()), table.last());
        assert(table =~= table.drop_last().push(table.last()));
    } else {
        assert(by_address(table) =~= table);
    }
    assert(by_address(table).to_multiset().len() == table.to_multiset().len());
}

/// Labels with the same address stand in the printed table in the order of the table.
pub proof fn law_address_table_is_stable(table: Seq<LabelView>, address: u32)
    ensures
        by_address(table).filter(|label: LabelView| label.address == address) == table.filter(
            |label: LabelView| label.address == address,
        ),
    decreases table.len(),
{
    reveal(Seq::filter);
    if table.len() > 0 {
        law_address_table_is_stable(table.drop_last(), address);
        law_address_table_is_sorted(table.drop_last());
        lemma_insert_keeps_order(by_address(table.drop_last()), table.last(), address);
    }
}

proof fn lemma_insert_keeps_order(sorted: Seq<LabelView>, label: LabelView, address: u32)
    ensures
        insert_by_address(sorted, label).filter(|l: LabelView| l.address == address) == (
        if label.address == address {
            sorted.filter(|l: LabelView| l.address == address).push(label)
        } else {
            sorted.filter(|l: LabelView| l.address == address)
        }),
    decreases sorted.len(),
{
    reveal(Seq::filter);
    let at = |l: LabelView| l.address == address;
    if sorted.len() > 0 && label.address < sorted.last().address {
        let earlier = sorted.drop_last();
        lemma_insert_keeps_order(earlier, label, address);
        let longer = insert_by_address(earlier, label).push(sorted.last());
        assert(longer.drop_last() =~= insert_by_address(earlier, label));
    } else {
        assert(sorted.push(label).drop_last() =~= sorted);
    }
}

/// A line of the printed table: `0x`, the eight digits of the address in base 16 with
/// capital letters, two colons between spaces, and the name.
pub proof fn law_address_line(label: LabelView)
    ensures
        ({
            let a = label.address as nat;
            address_line(label) == seq![
                '0',
                'x',
                numerals::digit(a / 0x1000_0000, true),
                numerals::digit(a / 0x100_0000 % 16, true),
                numerals::digit(a / 0x10_0000 % 16, true),
                numerals::digit(a / 0x1_0000 % 16, true),
                numerals::digit(a / 0x1000 % 16, true),
                numerals::digit(a / 0x100 % 16, true),
                numerals::digit(a / 0x10 % 16, true),
                numerals::digit(a % 16, true),
                ' ',
                ':',
                ':',
                ' ',
            ] + label.name
        }),
{
    reveal_strlit("0x");
    reveal_strlit(" :: ");
    reveal(numerals::digit);
    reveal_with_fuel(text::hex_digits, 9);
    let a = label.address as nat;
    assert(a / 16 / 16 == a / 0x100);
    assert(a / 16 / 16 / 16 == a / 0x1000);
    assert(a / 16 / 16 / 16 / 16 == a / 0x1_0000);
    assert(a / 16 / 16 / 16 / 16 / 16 == a / 0x10_0000);
    assert(a / 16 / 16 / 16 / 16 / 16 / 16 == a / 0x100_0000);
    assert(a / 16 / 16 / 16 / 16 / 16 / 16 / 16 == a / 0x1000_0000);
    assert(text::hex_digits(a, 8) =~= seq![
        text::hex_digit(a / 0x1000_0000 % 16),
        text::hex_digit(a / 0x100_0000 % 16),
        text::hex_digit(a / 0x10_0000 % 16),
        text::hex_digit(a / 0x1_0000 % 16),
        text::hex_digit(a / 0x1000 % 16),
        text::hex_digit(a / 0x100 % 16),
        text::hex_digit(a / 0x10 % 16),
        text::hex_digit(a % 16),
    ]);
    assert forall|d: nat| d < 16 implies text::hex_digit(d) == #[trigger] numerals::digit(
        d,
        true,
    ) by {}
}

/// The printed table is the lines of its labels with a line feed between each two.
pub proof fn law_address_table_lines(labels: Seq<LabelView>)
    requires
        labels.len() > 0,
    ensures
        address_lines(labels) + seq!['\n'] == includes::joined(
            labels.map_values(|label: LabelView| address_line(label)),
        ),
    decreases labels.len(),
{
    let lines = labels.map_values(|label: LabelView| address_line(label));
    let last = address_line(labels.last());
    let shorter = labels.drop_last();
    let fewer = shorter.map_values(|label: LabelView| address_line(label));
    assert(lines =~= fewer + seq![last]);
    assert(fewer + seq![last] =~= fewer.push(last));
    includes::lemma_joined_push(fewer, last);
    if labels.len() > 1 {
        law_address_table_lines(shorter);
    } else {
        assert(fewer =~= seq![]);
        assert(includes::joined(fewer) =~= seq![]);
    }
}

} // verus!
