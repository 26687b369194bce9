//! Assembled instructions, and the label addresses that are written into them
//! once every label is known.

use crate::ast::Size;
use crate::bytes;
use crate::bytes::word_bytes;
use vstd::prelude::*;

verus! {

/// The mathematical form of an [`AssembledInstruction`].
#[verifier::ext_equal]
pub struct CodeView {
    pub value: Seq<u8>,
    pub address: u32,
}

/// The bytes of one statement and the address of the first of them.
#[derive(Debug, PartialEq, Eq)]
pub struct AssembledInstruction {
    pub value: Vec<u8>,
    pub address: u32,
}

impl View for AssembledInstruction {
    type V = CodeView;

    open spec fn view(&self) -> CodeView {
        CodeView { value: self.value@, address: self.address }
    }
}

/// The sequence of the mathematical forms of `instructions`.
pub open spec fn code_views(instructions: Seq<AssembledInstruction>) -> Seq<CodeView> {
    Seq::new(instructions.len(), |i: int| instructions[i]@)
}

impl AssembledInstruction {
    /// An instruction without bytes, at address 0.
    pub fn new() -> (instruction: Self)
        ensures
            instruction@ == (CodeView { value: Seq::empty(), address: 0 }),
    {
        AssembledInstruction { value: Vec::new(), address: 0 }
    }

    pub fn get_address(&self) -> (address: u32)
        ensures
            address == self@.address,
    {
        self.address
    }

    pub fn set_address(&mut self, address: u32)
        ensures
            final(self)@ == (CodeView { value: old(self)@.value, address }),
    {
        self.address = address;
    }
}

impl From<Vec<u8>> for AssembledInstruction {
    fn from(data: Vec<u8>) -> (instruction: Self) {
        AssembledInstruction { value: data, address: 0 }
    }
}

impl vstd::std_specs::convert::FromSpecImpl<Vec<u8>> for AssembledInstruction {
    open spec fn obeys_from_spec() -> bool {
        true
    }

    open spec fn from_spec(data: Vec<u8>) -> Self {
        AssembledInstruction { value: data, address: 0 }
    }
}

/// The number of bytes of a value of the given size.
pub open spec fn width(size: Size) -> int {
    match size {
        Size::Byte => 1,
        Size::Half => 2,
        Size::Word => 4,
    }
}

/// A place where the address of a label is to be written: `size` bytes from
/// `index` on, in the instruction with the number `instruction`.
#[derive(Debug, PartialEq, Eq, Clone, Copy, Structural)]
pub struct BackpatchTarget {
    pub index: usize,
    pub size: Size,
    pub is_relative: bool,
    pub instruction: usize,
}

/// The value that stands for a label at `address` in an instruction at `base`: the
/// address itself, or its distance from the instruction modulo 2^32.
pub open spec fn target_value(is_relative: bool, address: u32, base: u32) -> u32 {
    if is_relative {
        ((address - base) % 0x1_0000_0000) as u32
    } else {
        address
    }
}

/// `data` with `bytes` written over it from `index` on.
pub open spec fn overwrite(data: Seq<u8>, index: int, bytes: Seq<u8>) -> Seq<u8> {
    Seq::new(
        data.len(),
        |i: int|
            if index <= i < index + bytes.len() {
                bytes[i - index]
            } else {
                data[i]
            },
    )
}

/// An instruction after a label address has been written into it.
pub open spec fn patched(
    code: CodeView,
    index: int,
    size: Size,
    is_relative: bool,
    address: u32,
) -> CodeView {
    let value = target_value(is_relative, address, code.address);
    CodeView { value: overwrite(code.value, index, bytes::le32(value).take(width(size))), ..code }
}

/// Whether the place that a target names exists in the program.
pub open spec fn target_fits(code: Seq<CodeView>, target: BackpatchTarget) -> bool {
    &&& target.instruction < code.len()
    &&& target.index + width(target.size) <= code[target.instruction as int].value.len()
    &&& code[target.instruction as int].address + target.index <= u32::MAX
}

/// The address of the bytes that a target names.
pub open spec fn target_location(code: Seq<CodeView>, target: BackpatchTarget) -> u32 {
    (code[target.instruction as int].address + target.index) as u32
}

/// A program after the address of a label has been written to one target.
pub open spec fn patch_target(
    code: Seq<CodeView>,
    target: BackpatchTarget,
    address: u32,
) -> Seq<CodeView> {
    code.update(
        target.instruction as int,
        patched(
            code[target.instruction as int],
            target.index as int,
            target.size,
            target.is_relative,
            address,
        ),
    )
}

/// A program after the address of a label has been written to all its targets.
pub open spec fn patch_targets(
    code: Seq<CodeView>,
    targets: Seq<BackpatchTarget>,
    address: u32,
) -> Seq<CodeView>
    decreases targets.len(),
{
    if targets.len() == 0 {
        code
    } else {
        patch_target(patch_targets(code, targets.drop_last(), address), targets.last(), address)
    }
}

/// The places that a loader has to adjust when it moves the program: those that
/// hold the absolute address of a label.
pub open spec fn relocations(
    code: Seq<CodeView>,
    targets: Seq<BackpatchTarget>,
) -> Seq<u32>
    decreases targets.len(),
{
    if targets.len() == 0 {
        Seq::empty()
    } else {
        let before = relocations(code, targets.drop_last());
        if targets.last().is_relative {
            before
        } else {
            before.push(target_location(code, targets.last()))
        }
    }
}

impl BackpatchTarget {
    pub fn new(instruction: usize, index: usize, size: Size, is_relative: bool) -> (target: Self)
        ensures
            target == (BackpatchTarget { index, size, is_relative, instruction }),
    {
        BackpatchTarget { index, size, is_relative, instruction }
    }

    /// Writes the address of the label into the instruction that the target names.
    pub fn write(&self, instruction: &mut AssembledInstruction, size: Size, address: u32)
        requires
            self.index + width(size) <= old(instruction)@.value.len(),
        ensures
            final(instruction)@ == patched(
                old(instruction)@,
                self.index as int,
                size,
                self.is_relative,
                address,
            ),
    {
        let value: u32 = if self.is_relative {
            address.wrapping_sub(instruction.get_address())
        } else {
            address
        };
        assert(value == target_value(self.is_relative, address, old(instruction)@.address));
        let address_bytes = word_bytes(value);
        assert(self.index + width(size) <= instruction.value.len());
        match size {
            Size::Byte => {
                instruction.value[self.index] = address_bytes[0];
            },
            Size::Half => {
                instruction.value[self.index] = address_bytes[0];
                instruction.value[self.index + 1] = address_bytes[1];
            },
            Size::Word => {
                instruction.value[self.index] = address_bytes[0];
                instruction.value[self.index + 1] = address_bytes[1];
                instruction.value[self.index + 2] = address_bytes[2];
                instruction.value[self.index + 3] = address_bytes[3];
            },
        }
        assert(instruction@.value =~= overwrite(
            old(instruction)@.value,
            self.index as int,
            bytes::le32(value).take(width(size)),
        ));
    }

    /// The address of the bytes that the target names.
    pub fn get_backpatch_location(&self, instruction: &AssembledInstruction) -> (location: u32)
        requires
            instruction@.address + self.index <= u32::MAX,
        ensures
            location == instruction@.address + self.index,
    {
        instruction.get_address() + self.index as u32
    }
}

/// Writes the address of a label to all its targets. Unless the label is a
/// constant, the places that now hold its absolute address are added to the table
/// of relocations.
pub fn perform_backpatching(
    targets: &Vec<BackpatchTarget>,
    address: (u32, bool),
    instructions: &mut Vec<AssembledInstruction>,
    reloc_table: &mut Vec<u32>,
)
    requires
        forall|i: int|
            0 <= i < targets@.len() ==> target_fits(
                code_views(old(instructions)@),
                #[trigger] targets@[i],
            ),
    ensures
        code_views(final(instructions)@) == patch_targets(
            code_views(old(instructions)@),
            targets@,
            address.0,
        ),
        same_layout(code_views(old(instructions)@), code_views(final(instructions)@)),
        final(reloc_table)@ == if address.1 {
            old(reloc_table)@
        } else {
            old(reloc_table)@ + relocations(code_views(old(instructions)@), targets@)
        },
{
    let ghost code = code_views(instructions@);
    let mut i: usize = 0;
    assert(targets@.take(0) =~= Seq::empty());
    assert(reloc_table@ + relocations(code, targets@.take(0)) =~= reloc_table@);
    while i < targets.len()
        invariant
            i <= targets@.len(),
            code == code_views(old(instructions)@),
            code_views(instructions@) == patch_targets(code, targets@.take(i as int), address.0),
            same_layout(code, code_views(instructions@)),
            reloc_table@ == if address.1 {
                old(reloc_table)@
            } else {
                old(reloc_table)@ + relocations(code, targets@.take(i as int))
            },
            forall|k: int|
                0 <= k < targets@.len() ==> target_fits(code, #[trigger] targets@[k]),
        decreases targets@.len() - i,
    {
        let target = targets[i];
        let ghost before = code_views(instructions@);
        assert(target_fits(code, targets@[i as int]));
        assert(targets@.take(i + 1).drop_last() =~= targets@.take(i as int));
        assert(before[target.instruction as int] == instructions@[target.instruction as int]@);
        target.write(&mut instructions[target.instruction], target.size, address.0);
        assert(code_views(instructions@) =~= patch_target(before, target, address.0));
        if !address.1 && !target.is_relative {
            let location = target.get_backpatch_location(&instructions[target.instruction]);
            reloc_table.push(location);
        }
        i = i + 1;
    }
    assert(targets@.take(i as int) =~= targets@);
}

/// Whether two programs have the same instructions at the same addresses, and
/// differ at most in the bytes of them.
pub open spec fn same_layout(a: Seq<CodeView>, b: Seq<CodeView>) -> bool {
    &&& a.len() == b.len()
    &&& forall|i: int|
        0 <= i < a.len() ==> (#[trigger] a[i]).address == b[i].address && a[i].value.len()
            == b[i].value.len()
}

} // verus!
