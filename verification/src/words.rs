//! The words of the language.

use crate::ast::{
    Condition, InstructionIncDec, InstructionOne, InstructionTwo, InstructionZero,
};
use crate::processor::Operation;
use crate::tree::Rule;
use crate::{builder, grammar, numerals, program};
use vstd::prelude::*;

verus! {

/// The name of an instruction without operands.
pub open spec fn zero_text(instruction: InstructionZero) -> Seq<char> {
    match instruction {
        InstructionZero::Nop => "nop"@,
        InstructionZero::Halt => "halt"@,
        InstructionZero::Brk => "brk"@,
        InstructionZero::Ret => "ret"@,
        InstructionZero::Reti => "reti"@,
        InstructionZero::Ise => "ise"@,
        InstructionZero::Icl => "icl"@,
        InstructionZero::Mse => "mse"@,
        InstructionZero::Mcl => "mcl"@,
    }
}

/// The name of an instruction with one operand.
pub open spec fn one_text(instruction: InstructionOne) -> Seq<char> {
    match instruction {
        InstructionOne::Not => "not"@,
        InstructionOne::Jmp => "jmp"@,
        InstructionOne::Call => "call"@,
        InstructionOne::Loop => "loop"@,
        InstructionOne::Rjmp => "rjmp"@,
        InstructionOne::Rcall => "rcall"@,
        InstructionOne::Rloop => "rloop"@,
        InstructionOne::Push => "push"@,
        InstructionOne::Pop => "pop"@,
        InstructionOne::Int => "int"@,
        InstructionOne::Tlb => "tlb"@,
        InstructionOne::Flp => "flp"@,
    }
}

/// The name of an increment or decrement.
pub open spec fn incdec_text(instruction: InstructionIncDec) -> Seq<char> {
    match instruction {
        InstructionIncDec::Inc => "inc"@,
        InstructionIncDec::Dec => "dec"@,
    }
}

/// The name of an instruction with two operands.
pub open spec fn two_text(instruction: InstructionTwo) -> Seq<char> {
    match instruction {
        InstructionTwo::Add => "add"@,
        InstructionTwo::Sub => "sub"@,
        InstructionTwo::Mul => "mul"@,
        InstructionTwo::Imul => "imul"@,
        InstructionTwo::Div => "div"@,
        InstructionTwo::Idiv => "idiv"@,
        InstructionTwo::Rem => "rem"@,
        InstructionTwo::Irem => "irem"@,
        InstructionTwo::And => "and"@,
        InstructionTwo::Or => "or"@,
        InstructionTwo::Xor => "xor"@,
        InstructionTwo::Sla => "sla"@,
        InstructionTwo::Sra => "sra"@,
        InstructionTwo::Srl => "srl"@,
        InstructionTwo::Rol => "rol"@,
        InstructionTwo::Ror => "ror"@,
        InstructionTwo::Bse => "bse"@,
        InstructionTwo::Bcl => "bcl"@,
        InstructionTwo::Bts => "bts"@,
        InstructionTwo::Cmp => "cmp"@,
        InstructionTwo::Mov => "mov"@,
        InstructionTwo::Movz => "movz"@,
        InstructionTwo::Rta => "rta"@,
        InstructionTwo::In => "in"@,
        InstructionTwo::Out => "out"@,
    }
}

/// The name of an instruction.
pub open spec fn operation_text(operation: Operation) -> Seq<char> {
    match operation {
        Operation::Zero(instruction) => zero_text(instruction),
        Operation::One(instruction) => one_text(instruction),
        Operation::IncDec(instruction) => incdec_text(instruction),
        Operation::Two(instruction) => two_text(instruction),
    }
}

/// The letters of the words of the language.
pub proof fn lemma_letters()
    ensures
        "nop"@.len() == 3 && "nop"@[0] == 'n' && "nop"@[1] == 'o' && "nop"@[2] == 'p',
        "halt"@.len() == 4 && "halt"@[0] == 'h' && "halt"@[1] == 'a' && "halt"@[2] == 'l'
            && "halt"@[3] == 't',
        "brk"@.len() == 3 && "brk"@[0] == 'b' && "brk"@[1] == 'r' && "brk"@[2] == 'k',
        "ret"@.len() == 3 && "ret"@[0] == 'r' && "ret"@[1] == 'e' && "ret"@[2] == 't',
        "reti"@.len() == 4 && "reti"@[0] == 'r' && "reti"@[1] == 'e' && "reti"@[2] == 't'
            && "reti"@[3] == 'i',
        "ise"@.len() == 3 && "ise"@[0] == 'i' && "ise"@[1] == 's' && "ise"@[2] == 'e',
        "icl"@.len() == 3 && "icl"@[0] == 'i' && "icl"@[1] == 'c' && "icl"@[2] == 'l',
        "mse"@.len() == 3 && "mse"@[0] == 'm' && "mse"@[1] == 's' && "mse"@[2] == 'e',
        "mcl"@.len() == 3 && "mcl"@[0] == 'm' && "mcl"@[1] == 'c' && "mcl"@[2] == 'l',
        "not"@.len() == 3 && "not"@[0] == 'n' && "not"@[1] == 'o' && "not"@[2] == 't',
        "jmp"@.len() == 3 && "jmp"@[0] == 'j' && "jmp"@[1] == 'm' && "jmp"@[2] == 'p',
        "call"@.len() == 4 && "call"@[0] == 'c' && "call"@[1] == 'a' && "call"@[2] == 'l'
            && "call"@[3] == 'l',
        "loop"@.len() == 4 && "loop"@[0] == 'l' && "loop"@[1] == 'o' && "loop"@[2] == 'o'
            && "loop"@[3] == 'p',
        "rjmp"@.len() == 4 && "rjmp"@[0] == 'r' && "rjmp"@[1] == 'j' && "rjmp"@[2] == 'm'
            && "rjmp"@[3] == 'p',
        "rcall"@.len() == 5 && "rcall"@[0] == 'r' && "rcall"@[1] == 'c' && "rcall"@[2] == 'a'
            && "rcall"@[3] == 'l' && "rcall"@[4] == 'l',
        "rloop"@.len() == 5 && "rloop"@[0] == 'r' && "rloop"@[1] == 'l' && "rloop"@[2] == 'o'
            && "rloop"@[3] == 'o' && "rloop"@[4] == 'p',
        "push"@.len() == 4 && "push"@[0] == 'p' && "push"@[1] == 'u' && "push"@[2] == 's'
            && "push"@[3] == 'h',
        "pop"@.len() == 3 && "pop"@[0] == 'p' && "pop"@[1] == 'o' && "pop"@[2] == 'p',
        "int"@.len() == 3 && "int"@[0] == 'i' && "int"@[1] == 'n' && "int"@[2] == 't',
        "tlb"@.len() == 3 && "tlb"@[0] == 't' && "tlb"@[1] == 'l' && "tlb"@[2] == 'b',
        "flp"@.len() == 3 && "flp"@[0] == 'f' && "flp"@[1] == 'l' && "flp"@[2] == 'p',
        "inc"@.len() == 3 && "inc"@[0] == 'i' && "inc"@[1] == 'n' && "inc"@[2] == 'c',
        "dec"@.len() == 3 && "dec"@[0] == 'd' && "dec"@[1] == 'e' && "dec"@[2] == 'c',
        "add"@.len() == 3 && "add"@[0] == 'a' && "add"@[1] == 'd' && "add"@[2] == 'd',
        "sub"@.len() == 3 && "sub"@[0] == 's' && "sub"@[1] == 'u' && "sub"@[2] == 'b',
        "mul"@.len() == 3 && "mul"@[0] == 'm' && "mul"@[1] == 'u' && "mul"@[2] == 'l',
        "imul"@.len() == 4 && "imul"@[0] == 'i' && "imul"@[1] == 'm' && "imul"@[2] == 'u'
            && "imul"@[3] == 'l',
        "div"@.len() == 3 && "div"@[0] == 'd' && "div"@[1] == 'i' && "div"@[2] == 'v',
        "idiv"@.len() == 4 && "idiv"@[0] == 'i' && "idiv"@[1] == 'd' && "idiv"@[2] == 'i'
            && "idiv"@[3] == 'v',
        "rem"@.len() == 3 && "rem"@[0] == 'r' && "rem"@[1] == 'e' && "rem"@[2] == 'm',
        "irem"@.len() == 4 && "irem"@[0] == 'i' && "irem"@[1] == 'r' && "irem"@[2] == 'e'
            && "irem"@[3] == 'm',
        "and"@.len() == 3 && "and"@[0] == 'a' && "and"@[1] == 'n' && "and"@[2] == 'd',
        "or"@.len() == 2 && "or"@[0] == 'o' && "or"@[1] == 'r',
        "xor"@.len() == 3 && "xor"@[0] == 'x' && "xor"@[1] == 'o' && "xor"@[2] == 'r',
        "sla"@.len() == 3 && "sla"@[0] == 's' && "sla"@[1] == 'l' && "sla"@[2] == 'a',
        "sra"@.len() == 3 && "sra"@[0] == 's' && "sra"@[1] == 'r' && "sra"@[2] == 'a',
        "srl"@.len() == 3 && "srl"@[0] == 's' && "srl"@[1] == 'r' && "srl"@[2] == 'l',
        "rol"@.len() == 3 && "rol"@[0] == 'r' && "rol"@[1] == 'o' && "rol"@[2] == 'l',
        "ror"@.len() == 3 && "ror"@[0] == 'r' && "ror"@[1] == 'o' && "ror"@[2] == 'r',
        "bse"@.len() == 3 && "bse"@[0] == 'b' && "bse"@[1] == 's' && "bse"@[2] == 'e',
        "bcl"@.len() == 3 && "bcl"@[0] == 'b' && "bcl"@[1] == 'c' && "bcl"@[2] == 'l',
        "bts"@.len() == 3 && "bts"@[0] == 'b' && "bts"@[1] == 't' && "bts"@[2] == 's',
        "cmp"@.len() == 3 && "cmp"@[0] == 'c' && "cmp"@[1] == 'm' && "cmp"@[2] == 'p',
        "mov"@.len() == 3 && "mov"@[0] == 'm' && "mov"@[1] == 'o' && "mov"@[2] == 'v',
        "movz"@.len() == 4 && "movz"@[0] == 'm' && "movz"@[1] == 'o' && "movz"@[2] == 'v'
            && "movz"@[3] == 'z',
        "rta"@.len() == 3 && "rta"@[0] == 'r' && "rta"@[1] == 't' && "rta"@[2] == 'a',
        "in"@.len() == 2 && "in"@[0] == 'i' && "in"@[1] == 'n',
        "out"@.len() == 3 && "out"@[0] == 'o' && "out"@[1] == 'u' && "out"@[2] == 't',
        "ifz"@.len() == 3 && "ifz"@[0] == 'i' && "ifz"@[1] == 'f' && "ifz"@[2] == 'z',
        "ifnz"@.len() == 4 && "ifnz"@[0] == 'i' && "ifnz"@[1] == 'f' && "ifnz"@[2] == 'n'
            && "ifnz"@[3] == 'z',
        "ifc"@.len() == 3 && "ifc"@[0] == 'i' && "ifc"@[1] == 'f' && "ifc"@[2] == 'c',
        "ifnc"@.len() == 4 && "ifnc"@[0] == 'i' && "ifnc"@[1] == 'f' && "ifnc"@[2] == 'n'
            && "ifnc"@[3] == 'c',
        "ifgt"@.len() == 4 && "ifgt"@[0] == 'i' && "ifgt"@[1] == 'f' && "ifgt"@[2] == 'g'
            && "ifgt"@[3] == 't',
        "ifgteq"@.len() == 6 && "ifgteq"@[0] == 'i' && "ifgteq"@[1] == 'f' && "ifgteq"@[2] == 'g'
            && "ifgteq"@[3] == 't' && "ifgteq"@[4] == 'e' && "ifgteq"@[5] == 'q',
        "iflt"@.len() == 4 && "iflt"@[0] == 'i' && "iflt"@[1] == 'f' && "iflt"@[2] == 'l'
            && "iflt"@[3] == 't',
        "iflteq"@.len() == 6 && "iflteq"@[0] == 'i' && "iflteq"@[1] == 'f' && "iflteq"@[2] == 'l'
            && "iflteq"@[3] == 't' && "iflteq"@[4] == 'e' && "iflteq"@[5] == 'q',
        "const"@.len() == 5 && "const"@[0] == 'c' && "const"@[1] == 'o' && "const"@[2] == 'n'
            && "const"@[3] == 's' && "const"@[4] == 't',
        "data"@.len() == 4 && "data"@[0] == 'd' && "data"@[1] == 'a' && "data"@[2] == 't'
            && "data"@[3] == 'a',
        "opton"@.len() == 5 && "opton"@[0] == 'o' && "opton"@[1] == 'p' && "opton"@[2] == 't'
            && "opton"@[3] == 'o' && "opton"@[4] == 'n',
        "optoff"@.len() == 6 && "optoff"@[0] == 'o' && "optoff"@[1] == 'p' && "optoff"@[2] == 't'
            && "optoff"@[3] == 'o' && "optoff"@[4] == 'f' && "optoff"@[5] == 'f',
        "org"@.len() == 3 && "org"@[0] == 'o' && "org"@[1] == 'r' && "org"@[2] == 'g',
        "pad"@.len() == 3 && "pad"@[0] == 'p' && "pad"@[1] == 'a' && "pad"@[2] == 'd',
        "extern"@.len() == 6 && "extern"@[0] == 'e' && "extern"@[1] == 'x' && "extern"@[2] == 't'
            && "extern"@[3] == 'e' && "extern"@[4] == 'r' && "extern"@[5] == 'n',
        "global"@.len() == 6 && "global"@[0] == 'g' && "global"@[1] == 'l' && "global"@[2] == 'o'
            && "global"@[3] == 'b' && "global"@[4] == 'a' && "global"@[5] == 'l',
        "str"@.len() == 3 && "str"@[0] == 's' && "str"@[1] == 't' && "str"@[2] == 'r',
        "strz"@.len() == 4 && "strz"@[0] == 's' && "strz"@[1] == 't' && "strz"@[2] == 'r'
            && "strz"@[3] == 'z',
        "fill"@.len() == 4 && "fill"@[0] == 'f' && "fill"@[1] == 'i' && "fill"@[2] == 'l'
            && "fill"@[3] == 'l',
        "8"@.len() == 1 && "8"@[0] == '8',
        "16"@.len() == 2 && "16"@[0] == '1' && "16"@[1] == '6',
        "32"@.len() == 2 && "32"@[0] == '3' && "32"@[1] == '2',
        "1"@.len() == 1 && "1"@[0] == '1',
        "2"@.len() == 1 && "2"@[0] == '2',
        "4"@.len() == 1 && "4"@[0] == '4',
        "include_bin"@.len() == 11 && "include_bin"@[0] == 'i' && "include_bin"@[1] == 'n'
            && "include_bin"@[2] == 'c' && "include_bin"@[3] == 'l' && "include_bin"@[4] == 'u'
            && "include_bin"@[5] == 'd' && "include_bin"@[6] == 'e' && "include_bin"@[7] == '_'
            && "include_bin"@[8] == 'b' && "include_bin"@[9] == 'i' && "include_bin"@[10] == 'n',
        "include_bin_optional"@.len() == 20 && "include_bin_optional"@[0] == 'i'
            && "include_bin_optional"@[1] == 'n' && "include_bin_optional"@[2] == 'c'
            && "include_bin_optional"@[3] == 'l' && "include_bin_optional"@[4] == 'u'
            && "include_bin_optional"@[5] == 'd' && "include_bin_optional"@[6] == 'e'
            && "include_bin_optional"@[7] == '_' && "include_bin_optional"@[8] == 'b'
            && "include_bin_optional"@[9] == 'i' && "include_bin_optional"@[10] == 'n'
            && "include_bin_optional"@[11] == '_' && "include_bin_optional"@[12] == 'o'
            && "include_bin_optional"@[13] == 'p' && "include_bin_optional"@[14] == 't'
            && "include_bin_optional"@[15] == 'i' && "include_bin_optional"@[16] == 'o'
            && "include_bin_optional"@[17] == 'n' && "include_bin_optional"@[18] == 'a'
            && "include_bin_optional"@[19] == 'l',
        ".8"@.len() == 2 && ".8"@[0] == '.' && ".8"@[1] == '8',
        ".16"@.len() == 3 && ".16"@[0] == '.' && ".16"@[1] == '1' && ".16"@[2] == '6',
        ".32"@.len() == 3 && ".32"@[0] == '.' && ".32"@[1] == '3' && ".32"@[2] == '2',
{
    reveal_strlit("nop");
    reveal_strlit("halt");
    reveal_strlit("brk");
    reveal_strlit("ret");
    reveal_strlit("reti");
    reveal_strlit("ise");
    reveal_strlit("icl");
    reveal_strlit("mse");
    reveal_strlit("mcl");
    reveal_strlit("not");
    reveal_strlit("jmp");
    reveal_strlit("call");
    reveal_strlit("loop");
    reveal_strlit("rjmp");
    reveal_strlit("rcall");
    reveal_strlit("rloop");
    reveal_strlit("push");
    reveal_strlit("pop");
    reveal_strlit("int");
    reveal_strlit("tlb");
    reveal_strlit("flp");
    reveal_strlit("inc");
    reveal_strlit("dec");
    reveal_strlit("add");
    reveal_strlit("sub");
    reveal_strlit("mul");
    reveal_strlit("imul");
    reveal_strlit("div");
    reveal_strlit("idiv");
    reveal_strlit("rem");
    reveal_strlit("irem");
    reveal_strlit("and");
    reveal_strlit("or");
    reveal_strlit("xor");
    reveal_strlit("sla");
    reveal_strlit("sra");
    reveal_strlit("srl");
    reveal_strlit("rol");
    reveal_strlit("ror");
    reveal_strlit("bse");
    reveal_strlit("bcl");
    reveal_strlit("bts");
    reveal_strlit("cmp");
    reveal_strlit("mov");
    reveal_strlit("movz");
    reveal_strlit("rta");
    reveal_strlit("in");
    reveal_strlit("out");
    reveal_strlit("ifz");
    reveal_strlit("ifnz");
    reveal_strlit("ifc");
    reveal_strlit("ifnc");
    reveal_strlit("ifgt");
    reveal_strlit("ifgteq");
    reveal_strlit("iflt");
    reveal_strlit("iflteq");
    reveal_strlit("const");
    reveal_strlit("data");
    reveal_strlit("opton");
    reveal_strlit("optoff");
    reveal_strlit("org");
    reveal_strlit("pad");
    reveal_strlit("extern");
    reveal_strlit("global");
    reveal_strlit("str");
    reveal_strlit("strz");
    reveal_strlit("fill");
    reveal_strlit("8");
    reveal_strlit("16");
    reveal_strlit("32");
    reveal_strlit("1");
    reveal_strlit("2");
    reveal_strlit("4");
    reveal_strlit("include_bin");
    reveal_strlit("include_bin_optional");
    reveal_strlit(".8");
    reveal_strlit(".16");
    reveal_strlit(".32");
}

/// A short text of letters, digits and underscores.
proof fn lemma_short_word(word: Seq<char>)
    requires
        0 < word.len() <= 20,
        word.len() > 0 ==> numerals::is_word_char(word[0]),
        word.len() > 1 ==> numerals::is_word_char(word[1]),
        word.len() > 2 ==> numerals::is_word_char(word[2]),
        word.len() > 3 ==> numerals::is_word_char(word[3]),
        word.len() > 4 ==> numerals::is_word_char(word[4]),
        word.len() > 5 ==> numerals::is_word_char(word[5]),
        word.len() > 6 ==> numerals::is_word_char(word[6]),
        word.len() > 7 ==> numerals::is_word_char(word[7]),
        word.len() > 8 ==> numerals::is_word_char(word[8]),
        word.len() > 9 ==> numerals::is_word_char(word[9]),
        word.len() > 10 ==> numerals::is_word_char(word[10]),
        word.len() > 11 ==> numerals::is_word_char(word[11]),
        word.len() > 12 ==> numerals::is_word_char(word[12]),
        word.len() > 13 ==> numerals::is_word_char(word[13]),
        word.len() > 14 ==> numerals::is_word_char(word[14]),
        word.len() > 15 ==> numerals::is_word_char(word[15]),
        word.len() > 16 ==> numerals::is_word_char(word[16]),
        word.len() > 17 ==> numerals::is_word_char(word[17]),
        word.len() > 18 ==> numerals::is_word_char(word[18]),
        word.len() > 19 ==> numerals::is_word_char(word[19]),
    ensures
        forall|k: int| 0 <= k < word.len() ==> numerals::is_word_char(#[trigger] word[k]),
{
    assert forall|k: int| 0 <= k < word.len() implies numerals::is_word_char(#[trigger] word[k]) by {
        if k == 0 {
        } else if k == 1 {
        } else if k == 2 {
        } else if k == 3 {
        } else if k == 4 {
        } else if k == 5 {
        } else if k == 6 {
        } else if k == 7 {
        } else if k == 8 {
        } else if k == 9 {
        } else if k == 10 {
        } else if k == 11 {
        } else if k == 12 {
        } else if k == 13 {
        } else if k == 14 {
        } else if k == 15 {
        } else if k == 16 {
        } else if k == 17 {
        } else if k == 18 {
        } else if k == 19 {
        }
    }
}

/// Whether a text is a word of the language.
pub open spec fn is_word(word: Seq<char>) -> bool {
    word.len() > 0 && forall|k: int|
        0 <= k < word.len() ==> numerals::is_word_char(#[trigger] word[k])
}

/// Whether a word starts no statement but an instruction.
pub open spec fn starts_no_directive(word: Seq<char>) -> bool {
    &&& program::kind_rule(word) is None
    &&& word != "const"@
    &&& word != "data"@
    &&& word != "opton"@
    &&& word != "optoff"@
    &&& word != "org"@
}

proof fn lemma_zero_text(instruction: InstructionZero)
    ensures
        builder::zero_named(zero_text(instruction)) == Some(instruction),
        grammar::instruction_rule(zero_text(instruction)) == Some(Rule::InstructionZero),
        builder::condition_named(zero_text(instruction)) is None,
        starts_no_directive(zero_text(instruction)),
        is_word(zero_text(instruction)),
{
    lemma_letters();
    lemma_short_word(zero_text(instruction));
}

proof fn lemma_one_text(instruction: InstructionOne)
    ensures
        builder::one_named(one_text(instruction)) == Some(instruction),
        grammar::instruction_rule(one_text(instruction)) == Some(Rule::InstructionOne),
        builder::condition_named(one_text(instruction)) is None,
        starts_no_directive(one_text(instruction)),
        is_word(one_text(instruction)),
{
    lemma_letters();
    lemma_short_word(one_text(instruction));
}

proof fn lemma_incdec_text(instruction: InstructionIncDec)
    ensures
        builder::incdec_named(incdec_text(instruction)) == Some(instruction),
        grammar::instruction_rule(incdec_text(instruction)) == Some(Rule::InstructionIncDec),
        builder::condition_named(incdec_text(instruction)) is None,
        starts_no_directive(incdec_text(instruction)),
        is_word(incdec_text(instruction)),
{
    lemma_letters();
    lemma_short_word(incdec_text(instruction));
}

proof fn lemma_two_text(instruction: InstructionTwo)
    ensures
        builder::two_named(two_text(instruction)) == Some(instruction),
        grammar::instruction_rule(two_text(instruction)) == Some(Rule::InstructionTwo),
        builder::condition_named(two_text(instruction)) is None,
        starts_no_directive(two_text(instruction)),
        is_word(two_text(instruction)),
{
    lemma_letters();
    lemma_short_word(two_text(instruction));
}

/// The rule for the name of an instruction.
pub open spec fn operation_rule(operation: Operation) -> Rule {
    match operation {
        Operation::Zero(_) => Rule::InstructionZero,
        Operation::One(_) => Rule::InstructionOne,
        Operation::IncDec(_) => Rule::InstructionIncDec,
        Operation::Two(_) => Rule::InstructionTwo,
    }
}

/// The name of an instruction is known, and means nothing else.
pub proof fn lemma_operation_text(operation: Operation)
    ensures
        ({
            let word = operation_text(operation);
            &&& match operation {
                Operation::Zero(instruction) => builder::zero_named(word) == Some(instruction),
                Operation::One(instruction) => builder::one_named(word) == Some(instruction),
                Operation::IncDec(instruction) => builder::incdec_named(word) == Some(instruction),
                Operation::Two(instruction) => builder::two_named(word) == Some(instruction),
            }
            &&& grammar::instruction_rule(word) == Some(operation_rule(operation))
            &&& builder::condition_named(word) is None
            &&& starts_no_directive(word)
            &&& is_word(word)
        }),
{
    match operation {
        Operation::Zero(instruction) => lemma_zero_text(instruction),
        Operation::One(instruction) => lemma_one_text(instruction),
        Operation::IncDec(instruction) => lemma_incdec_text(instruction),
        Operation::Two(instruction) => lemma_two_text(instruction),
    }
}

/// The words for conditions.
#[derive(PartialEq, Eq, Debug, Clone, Copy, Structural)]
pub enum When {
    Ifz,
    Ifnz,
    Ifc,
    Ifnc,
    Ifgt,
    Ifgteq,
    Iflt,
    Iflteq,
}

pub open spec fn when_text(when: When) -> Seq<char> {
    match when {
        When::Ifz => "ifz"@,
        When::Ifnz => "ifnz"@,
        When::Ifc => "ifc"@,
        When::Ifnc => "ifnc"@,
        When::Ifgt => "ifgt"@,
        When::Ifgteq => "ifgteq"@,
        When::Iflt => "iflt"@,
        When::Iflteq => "iflteq"@,
    }
}

/// The condition of a word. Two conditions have two words each.
pub open spec fn when_meaning(when: When) -> Condition {
    match when {
        When::Ifz => Condition::Zero,
        When::Ifnz => Condition::NotZero,
        When::Ifc => Condition::Carry,
        When::Ifnc => Condition::NotCarry,
        When::Ifgt => Condition::GreaterThan,
        When::Ifgteq => Condition::NotCarry,
        When::Iflt => Condition::Carry,
        When::Iflteq => Condition::LessThanEqualTo,
    }
}

/// The word for a condition is known, and starts nothing but an instruction.
pub proof fn lemma_when(when: When)
    ensures
        builder::condition_named(when_text(when)) == Some(when_meaning(when)),
        starts_no_directive(when_text(when)),
        is_word(when_text(when)),
{
    lemma_letters();
    lemma_short_word(when_text(when));
}

/// The other words of the language.
pub proof fn lemma_key_word(word: Seq<char>)
    requires
        word == "const"@
            || word == "data"@
            || word == "opton"@
            || word == "optoff"@
            || word == "org"@
            || word == "pad"@
            || word == "extern"@
            || word == "global"@
            || word == "str"@
            || word == "strz"@
            || word == "fill"@
            || word == "8"@
            || word == "16"@
            || word == "32"@
            || word == "1"@
            || word == "2"@
            || word == "4"@
            || word == "include_bin"@
            || word == "include_bin_optional"@,
    ensures
        is_word(word),
        word == "const"@ || word == "data"@ || word == "opton"@ || word == "optoff"@ || word
            == "org"@ ==> program::kind_rule(word) is None,
{
    lemma_letters();
    lemma_short_word(word);
}

} // verus!
