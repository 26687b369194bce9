# fox32asm

An assembler for the fox32 architecture, verified with Verus.

    fox32asm <input> <output>

An output file whose name ends in `.fxf` is written as an FXF binary, with a header and a
table of relocations; any other holds the bytes of the program alone.

## The language

Statements stand one after the other, separated by white space. A comment goes from a
semicolon to the end of the line.

| Statement | Meaning |
| --- | --- |
| `name:`, `global name:`, `extern name:` | a label at the current address |
| `const NAME: value` | a name for a value |
| `[condition] instruction[.8\|.16\|.32] operands` | an instruction |
| `data.8`, `data.16`, `data.32` and a value | a single value or the address of a label |
| `data.str "text"`, `data.strz "text"` | text, without or with a zero byte at its end |
| `data.fill value, count` | a byte, so many times |
| `org address`, `org.pad address` | a new current address, without or with padding |
| `opton`, `optoff` | turn the optimizer on or off |
| `#include "path"` | a text file in place of this line |
| `#include_bin "path"`, `#include_bin_optional "path"` | the bytes of a file |

A condition is one of `ifz`, `ifnz`, `ifc`, `ifnc`, `ifgt`, `ifgteq`, `iflt` and `iflteq`.
An operand is a number (`42`, `0x2A`, `0b10_1010`), a character (`'*'`), a register
(`r0` to `r31`, `rsp`, `resp`, `rfp`), a label, or memory at one of these in square
brackets. A register in brackets takes an offset: `[r1+4]`.

## Layout

- `src/` is the library. All of it is verified; `src/lib.rs` says what is where.
- `tests/` runs it.
- `app/` is the program around it: arguments, files and messages.
