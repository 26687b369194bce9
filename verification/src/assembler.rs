//! The run of the assembler: statements are laid out one behind the other, and then
//! the addresses of the labels are filled in.

use crate::ast::{AstNode, NodeView};
use crate::backpatch::{perform_backpatching, AssembledInstruction, CodeView};
use crate::emit::{assemble_node, is_assemblable_node};
use crate::labels::{format_address_table, EntryView, LabelTable, LabelTargets, LabelView};
use crate::optimize::optimize_node;
use crate::output::write_binary;
use crate::{ast, backpatch, emit, labels, optimize, output, placement};
use vstd::prelude::*;

verus! {

/// The mathematical form of an [`AssembleError`].
pub enum ErrorView {
    DuplicateLabel(Seq<char>),
    LabelNotFound(Seq<char>),
    OriginBehind,
    AddressOverflow,
    NotAssemblable,
    TooManyRelocations,
}

/// Why a program cannot be assembled.
#[derive(Debug, PartialEq, Eq)]
pub enum AssembleError {
    /// A label is defined more than once.
    DuplicateLabel(String),
    /// A label is used that is not defined.
    LabelNotFound(String),
    /// An origin does not lie behind the statements before it.
    OriginBehind,
    /// The program does not end within the address space.
    AddressOverflow,
    /// A node stands as a statement that is none.
    NotAssemblable,
    /// The size of the table of relocations is no word.
    TooManyRelocations,
}

impl View for AssembleError {
    type V = ErrorView;

    open spec fn view(&self) -> ErrorView {
        match self {
            AssembleError::DuplicateLabel(name) => ErrorView::DuplicateLabel(name@),
            AssembleError::LabelNotFound(name) => ErrorView::LabelNotFound(name@),
            AssembleError::OriginBehind => ErrorView::OriginBehind,
            AssembleError::AddressOverflow => ErrorView::AddressOverflow,
            AssembleError::NotAssemblable => ErrorView::NotAssemblable,
            AssembleError::TooManyRelocations => ErrorView::TooManyRelocations,
        }
    }
}

/// The mathematical form of an [`Assembler`].
#[verifier::ext_equal]
pub struct AsmView {
    pub code: Seq<CodeView>,
    pub address: u32,
    pub optimizing: bool,
    pub targets: Seq<EntryView>,
    pub labels: Seq<LabelView>,
}

/// The state before the first statement.
pub open spec fn initial() -> AsmView {
    AsmView { code: seq![], address: 0, optimizing: false, targets: seq![], labels: seq![] }
}

/// The state after `value`, whose first byte is said to have the address `at`.
pub open spec fn emitted(state: AsmView, value: Seq<u8>, at: u32) -> Result<AsmView, ErrorView> {
    if state.address + value.len() <= u32::MAX {
        Ok(
            AsmView {
                code: state.code.push(CodeView { value, address: at }),
                address: (state.address + value.len()) as u32,
                ..state
            },
        )
    } else {
        Err(ErrorView::AddressOverflow)
    }
}

/// `count` times the byte `value`.
pub open spec fn filled(value: u8, count: int) -> Seq<u8> {
    Seq::new(count as nat, |i: int| value)
}

/// The state after a statement that has been through the optimizer.
pub open spec fn laid_out(state: AsmView, node: NodeView) -> Result<AsmView, ErrorView> {
    match node {
        NodeView::LabelDefine { name, .. } => if labels::find_label(state.labels, name) is Some {
            Err(ErrorView::DuplicateLabel(name))
        } else {
            Ok(
                AsmView {
                    labels: labels::put_label(
                        state.labels,
                        LabelView { name, address: state.address, is_const: false },
                    ),
                    ..state
                },
            )
        },
        NodeView::Constant { name, address } => Ok(
            AsmView {
                labels: labels::put_label(
                    state.labels,
                    LabelView { name, address, is_const: true },
                ),
                ..state
            },
        ),
        NodeView::Origin(origin) => if origin > state.address {
            Ok(AsmView { address: origin, ..state })
        } else {
            Err(ErrorView::OriginBehind)
        },
        NodeView::OriginPadded(origin) => if origin > state.address {
            emitted(state, filled(0, origin - state.address), 0)
        } else {
            Err(ErrorView::OriginBehind)
        },
        NodeView::DataFill { value, size } => emitted(state, filled(value, size as int), 0),
        NodeView::IncludedBinary(data) => emitted(state, data, 0),
        NodeView::Optimize(_) => Ok(state),
        _ => if emit::is_assemblable(node) {
            emitted(
                AsmView {
                    targets: emit::add_uses(
                        state.targets,
                        state.code.len() as usize,
                        emit::statement_uses(node),
                    ),
                    ..state
                },
                emit::statement_bytes(node),
                state.address,
            )
        } else {
            Err(ErrorView::NotAssemblable)
        },
    }
}

/// The state after one more statement.
pub open spec fn step(state: AsmView, node: NodeView) -> Result<AsmView, ErrorView> {
    let optimizing = optimize::optimizing_after(node, state.optimizing);
    laid_out(
        AsmView { optimizing, ..state },
        if optimizing {
            optimize::optimized(node)
        } else {
            node
        },
    )
}

/// The state after all statements.
pub open spec fn run(state: AsmView, nodes: Seq<NodeView>) -> Result<AsmView, ErrorView>
    decreases nodes.len(),
{
    if nodes.len() == 0 {
        Ok(state)
    } else {
        match step(state, nodes[0]) {
            Ok(next) => run(next, nodes.drop_first()),
            Err(error) => Err(error),
        }
    }
}

/// The program and its table of relocations after the addresses of all labels in
/// `table` have been filled in. Constants need no relocation.
pub open spec fn resolved(
    code: Seq<CodeView>,
    table: Seq<EntryView>,
    known: Seq<LabelView>,
    relocs: Seq<u32>,
) -> Result<(Seq<CodeView>, Seq<u32>), ErrorView>
    decreases table.len(),
{
    if table.len() == 0 {
        Ok((code, relocs))
    } else {
        match labels::find_label(known, table[0].0) {
            None => Err(ErrorView::LabelNotFound(table[0].0)),
            Some((address, is_const)) => resolved(
                backpatch::patch_targets(code, table[0].1, address),
                table.drop_first(),
                known,
                if is_const {
                    relocs
                } else {
                    relocs + backpatch::relocations(code, table[0].1)
                },
            ),
        }
    }
}

/// The output file that a state leads to.
pub open spec fn finished(state: AsmView, is_fxf: bool) -> Result<Seq<u8>, ErrorView> {
    match resolved(state.code, state.targets, state.labels, seq![]) {
        Err(error) => Err(error),
        Ok((code, relocs)) => if is_fxf && 4 * relocs.len() > u32::MAX {
            Err(ErrorView::TooManyRelocations)
        } else {
            Ok(output::output_file(code, relocs, is_fxf))
        },
    }
}

/// The output file of a program.
pub open spec fn assembled(nodes: Seq<NodeView>, is_fxf: bool) -> Result<Seq<u8>, ErrorView> {
    match run(initial(), nodes) {
        Err(error) => Err(error),
        Ok(state) => finished(state, is_fxf),
    }
}

/// What holds in every state of a run: the targets of labels lie inside the program
/// and apart from each other, and no label is known under two addresses.
pub open spec fn well_placed(state: AsmView) -> bool {
    &&& placement::targets_fit(state.code, placement::all_targets(state.targets))
    &&& placement::targets_disjoint(placement::all_targets(state.targets))
    &&& labels::names_distinct(state.labels)
}

proof fn lemma_emitted(state: AsmView, value: Seq<u8>, at: u32)
    requires
        well_placed(state),
    ensures
        emitted(state, value, at) matches Ok(next) ==> well_placed(next),
{
    placement::lemma_longer_program(
        state.code,
        placement::all_targets(state.targets),
        CodeView { value, address: at },
    );
}

/// Every statement keeps the targets of labels inside the program and apart from
/// each other, as long as the number of statements is within the range of `usize`.
pub proof fn law_step_keeps_targets_apart(state: AsmView, node: NodeView)
    requires
        well_placed(state),
    ensures
        step(state, node) matches Ok(next) ==> next.code.len() <= usize::MAX ==> well_placed(next),
{
    let optimizing = optimize::optimizing_after(node, state.optimizing);
    let actual = if optimizing {
        optimize::optimized(node)
    } else {
        node
    };
    let state = AsmView { optimizing, ..state };
    match actual {
        NodeView::LabelDefine { name, .. } => {
            labels::law_put_keeps_names_distinct(
                state.labels,
                LabelView { name, address: state.address, is_const: false },
            );
        },
        NodeView::Constant { name, address } => {
            labels::law_put_keeps_names_distinct(
                state.labels,
                LabelView { name, address, is_const: true },
            );
        },
        NodeView::OriginPadded(origin) => {
            lemma_emitted(state, filled(0, origin - state.address), 0);
        },
        NodeView::DataFill { value, size } => {
            lemma_emitted(state, filled(value, size as int), 0);
        },
        NodeView::IncludedBinary(data) => {
            lemma_emitted(state, data, 0);
        },
        _ => {
            if emit::is_assemblable(actual) && step(state, node) is Ok && state.code.len()
                < usize::MAX {
                let value = emit::statement_bytes(actual);
                placement::law_uses_lie_in_the_statement(actual);
                if emit::statement_uses(actual).len() == 0 {
                    lemma_emitted(state, value, state.address);
                } else {
                    assert(value.len() <= 10);
                    placement::lemma_add_uses(
                        state.code,
                        state.targets,
                        CodeView { value, address: state.address },
                        emit::statement_uses(actual),
                    );
                }
            }
        },
    }
}

/// The state of a run of the assembler.
#[derive(Debug, PartialEq, Eq)]
pub struct Assembler {
    instructions: Vec<AssembledInstruction>,
    current_address: u32,
    optimizing: bool,
    targets: LabelTargets,
    labels: LabelTable,
}

impl View for Assembler {
    type V = AsmView;

    closed spec fn view(&self) -> AsmView {
        AsmView {
            code: backpatch::code_views(self.instructions@),
            address: self.current_address,
            optimizing: self.optimizing,
            targets: self.targets@,
            labels: self.labels@,
        }
    }
}

/// `count` times the byte `value`.
fn fill(value: u8, count: u32) -> (data: Vec<u8>)
    ensures
        data@ == filled(value, count as int),
{
    let data: Vec<u8> = vec![value; count as usize];
    assert(data@ =~= filled(value, count as int));
    data
}

impl Assembler {
    /// The state before the first statement.
    pub fn new() -> (assembler: Self)
        ensures
            assembler@ == initial(),
            well_placed(assembler@),
    {
        let assembler = Assembler {
            instructions: Vec::new(),
            current_address: 0,
            optimizing: false,
            targets: LabelTargets::new(),
            labels: LabelTable::new(),
        };
        assert(assembler@ =~= initial());
        assert(placement::all_targets(assembler@.targets) =~= seq![]);
        assembler
    }

    /// Appends an assembled statement and moves the current address behind it.
    fn push(&mut self, instruction: AssembledInstruction) -> (result: Result<(), AssembleError>)
        ensures
            match result {
                Ok(_) => emitted(old(self)@, instruction@.value, instruction@.address) == Ok::<
                    AsmView,
                    ErrorView,
                >(final(self)@),
                Err(error) => emitted(old(self)@, instruction@.value, instruction@.address) == Err::<
                    AsmView,
                    ErrorView,
                >(error@) && final(self)@ == old(self)@,
            },
    {
        let length: usize = instruction.value.len();
        let room: u32 = u32::MAX - self.current_address;
        if length > room as usize {
            return Err(AssembleError::AddressOverflow);
        }
        let ghost before = self@.code;
        self.current_address = self.current_address + length as u32;
        self.instructions.push(instruction);
        assert(self@.code =~= before.push(instruction@));
        Ok(())
    }

    /// Lays out one more statement. Where that fails, the code and the labels stay as
    /// they are.
    pub fn add(&mut self, node: AstNode) -> (result: Result<(), AssembleError>)
        requires
            well_placed(old(self)@),
        ensures
            match result {
                Ok(_) => step(old(self)@, node@) == Ok::<AsmView, ErrorView>(final(self)@)
                    && well_placed(final(self)@),
                Err(error) => step(old(self)@, node@) == Err::<AsmView, ErrorView>(error@)
                    && final(self)@.code == old(self)@.code && final(self)@.labels
                    == old(self)@.labels && final(self)@.address == old(self)@.address,
            },
    {
        let ghost before = self@;
        let ghost given = node@;
        let mut optimizing: bool = self.optimizing;
        let node = optimize_node(node, &mut optimizing);
        self.optimizing = optimizing;
        let ghost state = self@;
        assert(state =~= AsmView { optimizing, ..before });
        let ghost actual = node@;
        assert(step(before, given) == laid_out(state, actual));
        let result = match node {
            AstNode::LabelDefine { name, .. } => {
                if self.labels.get(&name).is_some() {
                    Err(AssembleError::DuplicateLabel(name))
                } else {
                    self.labels.insert(name, self.current_address, false);
                    Ok(())
                }
            },
            AstNode::Constant { name, address } => {
                self.labels.insert(name, address, true);
                Ok(())
            },
            AstNode::Origin(origin) => {
                if origin > self.current_address {
                    self.current_address = origin;
                    Ok(())
                } else {
                    Err(AssembleError::OriginBehind)
                }
            },
            AstNode::OriginPadded(origin) => {
                if origin > self.current_address {
                    self.push(
                        AssembledInstruction::from(fill(0, origin - self.current_address)),
                    )
                } else {
                    Err(AssembleError::OriginBehind)
                }
            },
            AstNode::DataFill { value, size } => {
                self.push(AssembledInstruction::from(fill(value, size)))
            },
            AstNode::IncludedBinary(data) => { self.push(AssembledInstruction::from(data)) },
            AstNode::Optimize(_) => Ok(()),
            other => {
                if is_assemblable_node(&other) {
                    let slot = self.instructions.len();
                    let mut instruction = assemble_node(other, slot, &mut self.targets);
                    instruction.set_address(self.current_address);
                    self.push(instruction)
                } else {
                    Err(AssembleError::NotAssemblable)
                }
            },
        };
        proof {
            if result is Ok {
                assert(laid_out(state, actual) == Ok::<AsmView, ErrorView>(self@));
                assert(self.instructions.len() == self@.code.len());
                law_step_keeps_targets_apart(before, given);
            }
        }
        result
    }

    /// Lays out a whole program.
    pub fn lay_out(nodes: Vec<AstNode>) -> (result: Result<Assembler, AssembleError>)
        ensures
            match result {
                Ok(assembler) => run(initial(), ast::node_views(nodes@)) == Ok::<
                    AsmView,
                    ErrorView,
                >(assembler@) && well_placed(assembler@),
                Err(error) => run(initial(), ast::node_views(nodes@)) == Err::<AsmView, ErrorView>(
                    error@,
                ),
            },
    {
        let mut assembler = Assembler::new();
        let ghost views = ast::node_views(nodes@);
        assert(views.skip(0) =~= views);
        for node in it: nodes
            invariant
                well_placed(assembler@),
                it.seq() == nodes@,
                views == ast::node_views(nodes@),
                run(initial(), views) == run(assembler@, views.skip(it.index() as int)),
        {
            proof {
                let rest = views.skip(it.index() as int);
                assert(rest[0] == node@);
                assert(rest.drop_first() =~= views.skip(it.index() + 1));
            }
            match assembler.add(node) {
                Ok(_) => {},
                Err(error) => {
                    return Err(error);
                },
            }
        }
        assert(views.skip(views.len() as int) =~= seq![]);
        Ok(assembler)
    }

    /// The table of labels as text, by ascending address.
    pub fn address_table(&self) -> (text: String)
        ensures
            text@ == labels::address_lines(labels::by_address(self@.labels)),
    {
        format_address_table(&self.labels)
    }

    /// Fills in the addresses of all labels. The result is the table of relocations.
    /// In any case every instruction stays at its address and of its length, and the
    /// tables of labels stay as they are.
    pub fn resolve(&mut self) -> (result: Result<Vec<u32>, AssembleError>)
        requires
            well_placed(old(self)@),
        ensures
            match result {
                Ok(relocs) => resolved(
                    old(self)@.code,
                    old(self)@.targets,
                    old(self)@.labels,
                    seq![],
                ) == Ok::<(Seq<CodeView>, Seq<u32>), ErrorView>((final(self)@.code, relocs@)),
                Err(error) => resolved(
                    old(self)@.code,
                    old(self)@.targets,
                    old(self)@.labels,
                    seq![],
                ) == Err::<(Seq<CodeView>, Seq<u32>), ErrorView>(error@),
            },
            final(self)@ == (AsmView { code: final(self)@.code, ..old(self)@ }),
            backpatch::same_layout(old(self)@.code, final(self)@.code),
            well_placed(final(self)@),
    {
        let ghost code = self@.code;
        let ghost table = self@.targets;
        let ghost known = self@.labels;
        let mut relocs: Vec<u32> = Vec::new();
        let mut i: usize = 0;
        assert(table.skip(0) =~= table);
        assert(relocs@ =~= seq![]);
        while i < self.targets.entries.len()
            invariant
                i <= self.targets.entries@.len(),
                table == self.targets@,
                known == self.labels@,
                code == old(self)@.code,
                table == old(self)@.targets,
                known == old(self)@.labels,
                self.current_address == old(self)@.address,
                self.optimizing == old(self)@.optimizing,
                well_placed(old(self)@),
                backpatch::same_layout(code, backpatch::code_views(self.instructions@)),
                placement::targets_fit(
                    backpatch::code_views(self.instructions@),
                    placement::all_targets(table),
                ),
                resolved(code, table, known, seq![]) == resolved(
                    backpatch::code_views(self.instructions@),
                    table.skip(i as int),
                    known,
                    relocs@,
                ),
            decreases self.targets.entries@.len() - i,
        {
            let ghost current = backpatch::code_views(self.instructions@);
            let entry = &self.targets.entries[i];
            proof {
                let rest = table.skip(i as int);
                assert(rest[0] == table[i as int]);
                assert(table[i as int] == (entry.name@, entry.targets@));
                assert(rest.drop_first() =~= table.skip(i + 1));
                assert forall|k: int| 0 <= k < entry.targets@.len() implies backpatch::target_fits(
                    current,
                    #[trigger] entry.targets@[k],
                ) by {
                    let place = placement::lemma_target_listed(table, i as int, k);
                    assert(backpatch::target_fits(
                        current,
                        placement::all_targets(table)[place],
                    ));
                }
            }
            match self.labels.get(&entry.name) {
                None => {
                    return Err(AssembleError::LabelNotFound(entry.name.clone()));
                },
                Some(address) => {
                    perform_backpatching(
                        &entry.targets,
                        address,
                        &mut self.instructions,
                        &mut relocs,
                    );
                    proof {
                        placement::lemma_same_layout_fits(
                            current,
                            backpatch::code_views(self.instructions@),
                            placement::all_targets(table),
                        );
                    }
                },
            }
            i = i + 1;
        }
        assert(table.skip(i as int) =~= seq![]);
        Ok(relocs)
    }

    /// The output file: an FXF binary, or the bytes of the program alone.
    pub fn finish(self, is_fxf: bool) -> (result: Result<Vec<u8>, AssembleError>)
        requires
            well_placed(self@),
        ensures
            match result {
                Ok(binary) => finished(self@, is_fxf) == Ok::<Seq<u8>, ErrorView>(binary@),
                Err(error) => finished(self@, is_fxf) == Err::<Seq<u8>, ErrorView>(error@),
            },
    {
        let mut assembler = self;
        match assembler.resolve() {
            Err(error) => Err(error),
            Ok(relocs) => {
                if is_fxf && relocs.len() > (u32::MAX / 4) as usize {
                    return Err(AssembleError::TooManyRelocations);
                }
                Ok(write_binary(&assembler.instructions, &relocs, is_fxf))
            },
        }
    }
}

/// Assembles a program.
pub fn assemble(nodes: Vec<AstNode>, is_fxf: bool) -> (result: Result<Vec<u8>, AssembleError>)
    ensures
        match result {
            Ok(binary) => assembled(ast::node_views(nodes@), is_fxf) == Ok::<Seq<u8>, ErrorView>(
                binary@,
            ),
            Err(error) => assembled(ast::node_views(nodes@), is_fxf) == Err::<Seq<u8>, ErrorView>(
                error@,
            ),
        },
{
    match Assembler::lay_out(nodes) {
        Ok(assembler) => assembler.finish(is_fxf),
        Err(error) => Err(error),
    }
}

} // verus!
