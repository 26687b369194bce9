//! An assembler for the fox32 architecture.
//!
//! A program goes through these stages, each in modules of its own:
//!
//! - `includes`: the text files that a program takes in stand in place of the lines
//!   that name them;
//! - `lexer`, `grammar` and `program`: the text is matched against the grammar, which
//!   gives a parse tree (`tree`);
//! - `builder` and `statements`: the parse tree becomes a sequence of statements (`ast`);
//! - `optimize`: shorter instructions stand for longer ones, where that is asked for;
//! - `encode` and `emit`: a statement becomes bytes, with room for the labels that it
//!   uses;
//! - `assembler`, with `labels` and `backpatch`: the statements are laid out one behind
//!   the other, and the addresses of the labels are filled in;
//! - `output`: the bytes are written out, alone or as an FXF binary.
//!
//! What holds of the stages together is proved in `decoding` (instructions can be told
//! from their bytes), `placement`, `layout` and `resolution` (where statements and labels
//! lie, and what is filled in), and `soundness` (what the grammar accepts can be
//! assembled).
//!
//! What a program means is said without reference to how it is worked on, and proved to
//! be what comes out:
//!
//! - `numerals`, `operands`, `words` and `source`: how numbers, operands and statements
//!   are written, and what they stand for; `reading` says what is kept of them, and
//!   `refusals` which texts are refused;
//! - `effects`: what instructions leave in their destination, optimized or not;
//! - `processor`: what the processor reads from the bytes of an instruction;
//! - `steps`: what each kind of statement adds to a program;
//! - `linking`: what stands for labels in the finished program, and which places a loader
//!   has to adjust.

pub mod assembler;
pub mod ast;
pub mod backpatch;
pub mod builder;
pub mod bytes;
pub mod decoding;
pub mod effects;
pub mod emit;
pub mod encode;
pub mod grammar;
pub mod includes;
pub mod labels;
pub mod layout;
pub mod lexer;
pub mod linking;
pub mod numbers;
pub mod numerals;
pub mod operands;
pub mod optimize;
pub mod output;
pub mod placement;
pub mod processor;
pub mod program;
pub mod reading;
pub mod refusals;
pub mod resolution;
pub mod soundness;
pub mod source;
pub mod statements;
pub mod steps;
pub mod text;
pub mod tree;
pub mod words;
