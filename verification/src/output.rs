//! The output file: the raw bytes of a program, or an FXF binary, which puts a
//! header before them and a table of relocations after them.

use crate::backpatch;
use crate::backpatch::{AssembledInstruction, CodeView};
use crate::bytes;
use crate::bytes::push_word;
use vstd::prelude::*;

verus! {

/// The place of the code in an FXF binary: it follows the header.
pub const FXF_CODE_START: u32 = 0x14;

/// The bytes of all instructions, in order.
pub open spec fn code_bytes(code: Seq<CodeView>) -> Seq<u8>
    decreases code.len(),
{
    if code.len() == 0 {
        seq![]
    } else {
        code_bytes(code.drop_last()) + code.last().value
    }
}

/// The entries of a table of relocations, one word each.
pub open spec fn reloc_bytes(relocs: Seq<u32>) -> Seq<u8>
    decreases relocs.len(),
{
    if relocs.len() == 0 {
        seq![]
    } else {
        reloc_bytes(relocs.drop_last()) + bytes::le32(relocs.last())
    }
}

/// A length as a word, modulo 2^32.
pub open spec fn length_word(length: int) -> u32 {
    (length % 0x1_0000_0000) as u32
}

/// The header of an FXF binary: the letters `FXF` and version 0, size and place of
/// the code, size and place of the table of relocations.
pub open spec fn fxf_header(code_size: int, reloc_size: int) -> Seq<u8> {
    seq![0x46u8, 0x58u8, 0x46u8, 0x00u8] + bytes::le32(length_word(code_size)) + bytes::le32(
        FXF_CODE_START,
    ) + bytes::le32(length_word(reloc_size)) + bytes::le32(length_word(FXF_CODE_START + code_size))
}

/// The FXF binary of a program.
pub open spec fn fxf_binary(code: Seq<CodeView>, relocs: Seq<u32>) -> Seq<u8> {
    fxf_header(code_bytes(code).len() as int, 4 * relocs.len() as int) + code_bytes(code) + reloc_bytes(
        relocs,
    )
}

/// The output file of a program.
pub open spec fn output_file(code: Seq<CodeView>, relocs: Seq<u32>, is_fxf: bool) -> Seq<u8> {
    if is_fxf {
        fxf_binary(code, relocs)
    } else {
        code_bytes(code)
    }
}

/// Whether an FXF binary is asked for: the name of the output file ends in `.fxf`.
pub fn is_fxf_name(name: &str) -> (answer: bool)
    ensures
        answer == (name@.len() >= 4 && name@.skip(name@.len() - 4) == seq!['.', 'f', 'x', 'f']),
        answer <==> {
            let n = name@.len() as int;
            n >= 4 && name@[n - 4] == '.' && name@[n - 3] == 'f' && name@[n - 2] == 'x' && name@[n
                - 1] == 'f'
        },
{
    let chars = crate::text::chars_of(name);
    let n = chars.len();
    let answer = n >= 4 && chars[n - 4] == '.' && chars[n - 3] == 'f' && chars[n - 2] == 'x'
        && chars[n - 1] == 'f';
    proof {
        if n >= 4 {
            let tail = name@.skip(name@.len() - 4);
            if answer {
                assert(tail =~= seq!['.', 'f', 'x', 'f']);
            } else {
                assert(tail[0] == chars@[n - 4] && tail[1] == chars@[n - 3] && tail[2]
                    == chars@[n - 2] && tail[3] == chars@[n - 1]);
            }
        }
    }
    answer
}

/// A length as a word, modulo 2^32.
fn to_length_word(length: usize) -> (word: u32)
    ensures
        word == length_word(length as int),
{
    (length as u64 % 0x1_0000_0000) as u32
}

/// The bytes of all instructions, in order.
pub fn join_code(instructions: &Vec<AssembledInstruction>) -> (code: Vec<u8>)
    ensures
        code@ == code_bytes(backpatch::code_views(instructions@)),
{
    let ghost views = backpatch::code_views(instructions@);
    let mut code: Vec<u8> = Vec::new();
    let mut i: usize = 0;
    assert(code@ =~= code_bytes(views.take(0)));
    while i < instructions.len()
        invariant
            i <= instructions@.len(),
            views == backpatch::code_views(instructions@),
            code@ == code_bytes(views.take(i as int)),
        decreases instructions@.len() - i,
    {
        code.extend_from_slice(instructions[i].value.as_slice());
        i = i + 1;
        proof {
            assert(views.take(i as int).drop_last() =~= views.take(i - 1));
            assert(code@ =~= code_bytes(views.take(i as int)));
        }
    }
    assert(views.take(i as int) =~= views);
    code
}

/// The header of an FXF binary.
fn write_header(code_size: usize, reloc_size: usize) -> (header: Vec<u8>)
    ensures
        header@ == fxf_header(code_size as int, reloc_size as int),
{
    let mut header: Vec<u8> = Vec::new();
    // magic bytes and version
    header.push(0x46);
    header.push(0x58);
    header.push(0x46);
    header.push(0x00);
    assert(header@ =~= seq![0x46u8, 0x58u8, 0x46u8, 0x00u8]);
    // code size and pointer
    push_word(&mut header, to_length_word(code_size));
    push_word(&mut header, FXF_CODE_START);
    // reloc table size and pointer
    push_word(&mut header, to_length_word(reloc_size));
    push_word(&mut header, to_length_word(code_size).wrapping_add(FXF_CODE_START));
    header
}

/// The output file of a program.
pub fn write_binary(
    instructions: &Vec<AssembledInstruction>,
    reloc_table: &Vec<u32>,
    is_fxf: bool,
) -> (binary: Vec<u8>)
    requires
        is_fxf ==> 4 * reloc_table@.len() <= u32::MAX,
    ensures
        binary@ == output_file(backpatch::code_views(instructions@), reloc_table@, is_fxf),
{
    let mut code = join_code(instructions);
    if !is_fxf {
        return code;
    }
    let mut binary = write_header(code.len(), 4 * reloc_table.len());
    let ghost header = binary@;
    let ghost code_part = code@;
    binary.append(&mut code);
    let mut i: usize = 0;
    assert(binary@ =~= header + code_part + reloc_bytes(reloc_table@.take(0)));
    while i < reloc_table.len()
        invariant
            i <= reloc_table@.len(),
            binary@ == header + code_part + reloc_bytes(reloc_table@.take(i as int)),
        decreases reloc_table@.len() - i,
    {
        push_word(&mut binary, reloc_table[i]);
        i = i + 1;
        proof {
            assert(reloc_table@.take(i as int).drop_last() =~= reloc_table@.take(i - 1));
            assert(binary@ =~= header + code_part + reloc_bytes(reloc_table@.take(i as int)));
        }
    }
    assert(reloc_table@.take(i as int) =~= reloc_table@);
    binary
}

/// A table of relocations has four bytes for each entry.
proof fn lemma_reloc_size(relocs: Seq<u32>)
    ensures
        reloc_bytes(relocs).len() == 4 * relocs.len(),
    decreases relocs.len(),
{
    if relocs.len() > 0 {
        lemma_reloc_size(relocs.drop_last());
        bytes::law_word_reads_back(relocs.last());
    }
}

proof fn lemma_reloc_entry(relocs: Seq<u32>, i: int)
    requires
        0 <= i < relocs.len(),
    ensures
        reloc_bytes(relocs).subrange(4 * i, 4 * i + 4) == bytes::le32(relocs[i]),
    decreases relocs.len(),
{
    lemma_reloc_size(relocs.drop_last());
    lemma_reloc_size(relocs);
    if i == relocs.len() - 1 {
        assert(reloc_bytes(relocs).subrange(4 * i, 4 * i + 4) =~= bytes::le32(relocs[i]));
    } else {
        lemma_reloc_entry(relocs.drop_last(), i);
        assert(reloc_bytes(relocs).subrange(4 * i, 4 * i + 4) =~= reloc_bytes(
            relocs.drop_last(),
        ).subrange(4 * i, 4 * i + 4));
    }
}

/// Where the parts of a binary lie.
proof fn lemma_layout(
    magic: Seq<u8>,
    a: Seq<u8>,
    b: Seq<u8>,
    c: Seq<u8>,
    d: Seq<u8>,
    code: Seq<u8>,
    table: Seq<u8>,
)
    requires
        magic.len() == 4,
        a.len() == 4,
        b.len() == 4,
        c.len() == 4,
        d.len() == 4,
    ensures
        ({
            let binary = magic + a + b + c + d + code + table;
            &&& binary.take(4) == magic
            &&& binary.subrange(0x04, 0x08) == a
            &&& binary.subrange(0x08, 0x0C) == b
            &&& binary.subrange(0x0C, 0x10) == c
            &&& binary.subrange(0x10, 0x14) == d
            &&& binary.subrange(0x14, 0x14 + code.len() as int) == code
            &&& binary.skip(0x14 + code.len() as int) == table
        }),
{
    let binary = magic + a + b + c + d + code + table;
    assert(binary.take(4) =~= magic);
    assert(binary.subrange(0x04, 0x08) =~= a);
    assert(binary.subrange(0x08, 0x0C) =~= b);
    assert(binary.subrange(0x0C, 0x10) =~= c);
    assert(binary.subrange(0x10, 0x14) =~= d);
    assert(binary.subrange(0x14, 0x14 + code.len() as int) =~= code);
    assert(binary.skip(0x14 + code.len() as int) =~= table);
}

/// What a loader reads from an FXF binary: it starts with the magic bytes, the header
/// gives the size and place of the code and of the table of relocations, the code is
/// found at its place, and so is each entry of the table.
#[verifier::spinoff_prover]
pub proof fn law_fxf_reads_back(code: Seq<CodeView>, relocs: Seq<u32>)
    requires
        FXF_CODE_START + code_bytes(code).len() <= u32::MAX,
        4 * relocs.len() <= u32::MAX,
    ensures
        ({
            let binary = fxf_binary(code, relocs);
            let code_size = bytes::le_value(binary.subrange(0x04, 0x08));
            let code_ptr = bytes::le_value(binary.subrange(0x08, 0x0C));
            let reloc_size = bytes::le_value(binary.subrange(0x0C, 0x10));
            let reloc_ptr = bytes::le_value(binary.subrange(0x10, 0x14));
            &&& binary.take(4) == seq![0x46u8, 0x58u8, 0x46u8, 0x00u8]
            &&& binary.subrange(code_ptr as int, (code_ptr + code_size) as int) == code_bytes(code)
            &&& reloc_size == 4 * relocs.len()
            &&& reloc_ptr + reloc_size == binary.len()
            &&& forall|i: int|
                0 <= i < relocs.len() ==> bytes::le_value(
                    #[trigger] binary.subrange(reloc_ptr + 4 * i, reloc_ptr + 4 * i + 4),
                ) == relocs[i]
        }),
{
    let binary = fxf_binary(code, relocs);
    let size = code_bytes(code).len() as int;
    lemma_reloc_size(relocs);
    bytes::law_word_reads_back(length_word(size));
    bytes::law_word_reads_back(FXF_CODE_START);
    bytes::law_word_reads_back(length_word(4 * relocs.len() as int));
    bytes::law_word_reads_back(length_word(FXF_CODE_START + size));
    lemma_layout(
        seq![0x46u8, 0x58u8, 0x46u8, 0x00u8],
        bytes::le32(length_word(size)),
        bytes::le32(FXF_CODE_START),
        bytes::le32(length_word(4 * relocs.len() as int)),
        bytes::le32(length_word(FXF_CODE_START + size)),
        code_bytes(code),
        reloc_bytes(relocs),
    );
    let start = FXF_CODE_START + size;
    assert forall|i: int| 0 <= i < relocs.len() implies bytes::le_value(
        #[trigger] binary.subrange(start + 4 * i, start + 4 * i + 4),
    ) == relocs[i] by {
        lemma_reloc_entry(relocs, i);
        assert(binary.skip(start).subrange(4 * i, 4 * i + 4) =~= binary.subrange(
            start + 4 * i,
            start + 4 * i + 4,
        ));
        assert(binary.subrange(start + 4 * i, start + 4 * i + 4) =~= reloc_bytes(relocs).subrange(
            4 * i,
            4 * i + 4,
        ));
        bytes::law_word_reads_back(relocs[i]);
    }
}

/// The words of the header, byte by byte.
#[verifier::spinoff_prover]
proof fn lemma_header_bytes(size: int, table: int)
    requires
        0 <= size,
        0x14 + size <= u32::MAX,
        0 <= table <= u32::MAX,
    ensures
        fxf_header(size, table) == seq![
            0x46u8,
            0x58u8,
            0x46u8,
            0x00u8,
            (size % 256) as u8,
            (size / 256 % 256) as u8,
            (size / 65536 % 256) as u8,
            (size / 16777216) as u8,
            20u8,
            0u8,
            0u8,
            0u8,
            (table % 256) as u8,
            (table / 256 % 256) as u8,
            (table / 65536 % 256) as u8,
            (table / 16777216) as u8,
            ((20 + size) % 256) as u8,
            ((20 + size) / 256 % 256) as u8,
            ((20 + size) / 65536 % 256) as u8,
            ((20 + size) / 16777216) as u8,
        ],
{
    lemma_word_bytes(size);
    lemma_word_bytes(20);
    lemma_word_bytes(table);
    lemma_word_bytes(20 + size);
}

/// The bytes of a length.
#[verifier::spinoff_prover]
proof fn lemma_word_bytes(x: int)
    requires
        0 <= x <= u32::MAX,
    ensures
        length_word(x) == x,
        bytes::le32(length_word(x)) == seq![
            (x % 256) as u8,
            (x / 256 % 256) as u8,
            (x / 65536 % 256) as u8,
            (x / 16777216) as u8,
        ],
{
    reveal(bytes::le32);
}

/// The layout of an FXF binary: 20 bytes of header, the code, and the table of
/// relocations. Words are written with their low byte first.
#[verifier::spinoff_prover]
pub proof fn law_fxf_layout(code: Seq<CodeView>, relocs: Seq<u32>)
    requires
        0x14 + code_bytes(code).len() <= u32::MAX,
        4 * relocs.len() <= u32::MAX,
    ensures
        ({
            let binary = fxf_binary(code, relocs);
            let size = code_bytes(code).len() as int;
            let count = relocs.len() as int;
            &&& binary.len() == 20 + size + 4 * count
            &&& binary.take(20) == seq![
                0x46u8,
                0x58u8,
                0x46u8,
                0x00u8,
                (size % 256) as u8,
                (size / 256 % 256) as u8,
                (size / 65536 % 256) as u8,
                (size / 16777216) as u8,
                20u8,
                0u8,
                0u8,
                0u8,
                (4 * count % 256) as u8,
                (4 * count / 256 % 256) as u8,
                (4 * count / 65536 % 256) as u8,
                (4 * count / 16777216) as u8,
                ((20 + size) % 256) as u8,
                ((20 + size) / 256 % 256) as u8,
                ((20 + size) / 65536 % 256) as u8,
                ((20 + size) / 16777216) as u8,
            ]
            &&& binary.subrange(20, 20 + size) == code_bytes(code)
            &&& forall|i: int|
                0 <= i < count ==> binary.subrange(20 + size + 4 * i, 20 + size + 4 * i + 4) == seq![
                    (#[trigger] relocs[i] % 256) as u8,
                    (relocs[i] / 256 % 256) as u8,
                    (relocs[i] / 65536 % 256) as u8,
                    (relocs[i] / 16777216) as u8,
                ]
        }),
{
    let binary = fxf_binary(code, relocs);
    let size = code_bytes(code).len() as int;
    let table = reloc_bytes(relocs);
    lemma_reloc_size(relocs);
    let header = fxf_header(size, 4 * relocs.len() as int);
    lemma_header_bytes(size, 4 * relocs.len() as int);
    assert(binary.take(20) =~= header);
    assert(binary.subrange(20, 20 + size) =~= code_bytes(code));
    assert forall|i: int| 0 <= i < relocs.len() implies binary.subrange(
        20 + size + 4 * i,
        20 + size + 4 * i + 4,
    ) == seq![
        (#[trigger] relocs[i] % 256) as u8,
        (relocs[i] / 256 % 256) as u8,
        (relocs[i] / 65536 % 256) as u8,
        (relocs[i] / 16777216) as u8,
    ] by {
        lemma_reloc_entry(relocs, i);
        reveal(bytes::le32);
        assert(binary.subrange(20 + size + 4 * i, 20 + size + 4 * i + 4) =~= table.subrange(
            4 * i,
            4 * i + 4,
        ));
    }
}

} // verus!
