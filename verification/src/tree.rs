//! The parse tree of a program: which rule of the grammar matched which text.

use vstd::prelude::*;

verus! {

/// The rules of the grammar that leave a trace in a parse tree.
#[derive(PartialEq, Eq, Debug, Clone, Copy, Structural)]
pub enum Rule {
    Assembly,
    EndOfInput,
    Instruction,
    InstructionConditional,
    InstructionZero,
    InstructionOne,
    InstructionIncDec,
    InstructionTwo,
    IncDecAmount,
    Condition,
    Size,
    Operand,
    OperandValue,
    OperandValuePtr,
    PointerOffset,
    ImmediateBin,
    ImmediateHex,
    ImmediateDec,
    ImmediateChar,
    BodyBin,
    BodyHex,
    BodyChar,
    Register,
    RegisterNum,
    Label,
    LabelKind,
    LabelExternal,
    LabelGlobal,
    LabelName,
    Constant,
    ConstantName,
    Data,
    DataByte,
    DataHalf,
    DataWord,
    DataStr,
    DataStrZero,
    DataFill,
    QuotedText,
    BodyText,
    Opt,
    OptSwitch,
    Origin,
    OriginNoPadding,
    OriginPadding,
    IncludeBin,
    IncludeBinOptional,
}

/// The mathematical form of a [`Pair`].
#[verifier::ext_equal]
pub struct Tree {
    pub rule: Rule,
    pub text: Seq<char>,
    pub inner: Seq<Tree>,
}

impl Tree {
    /// The part with the given number, where there is one.
    pub open spec fn child(self, i: int) -> Option<Tree> {
        if 0 <= i < self.inner.len() {
            Some(self.inner[i])
        } else {
            None
        }
    }
}

/// A rule with the text that it matched and the parts of that text.
#[derive(Debug, PartialEq, Eq)]
pub struct Pair {
    pub rule: Rule,
    pub text: String,
    pub inner: Vec<Pair>,
}

impl Pair {
    /// The mathematical form of this pair.
    pub open spec fn tree(&self) -> Tree
        decreases self,
    {
        Tree {
            rule: self.rule,
            text: self.text@,
            inner: Seq::new(
                self.inner@.len(),
                |i: int|
                    if 0 <= i < self.inner@.len() {
                        self.inner@[i].tree()
                    } else {
                        arbitrary()
                    },
            ),
        }
    }
}

impl View for Pair {
    type V = Tree;

    open spec fn view(&self) -> Tree {
        self.tree()
    }
}

/// The sequence of the mathematical forms of `pairs`.
pub open spec fn trees(pairs: Seq<Pair>) -> Seq<Tree> {
    Seq::new(pairs.len(), |i: int| pairs[i]@)
}

impl Pair {
    pub fn new(rule: Rule, text: String, inner: Vec<Pair>) -> (pair: Self)
        ensures
            pair@ == (Tree { rule, text: text@, inner: trees(inner@) }),
    {
        let pair = Pair { rule, text, inner };
        assert(pair@.inner =~= trees(inner@));
        pair
    }

    /// The rule that matched.
    pub fn as_rule(&self) -> (rule: Rule)
        ensures
            rule == self@.rule,
    {
        self.rule
    }

    /// The text that it matched.
    pub fn as_str(&self) -> (text: &String)
        ensures
            text@ == self@.text,
    {
        &self.text
    }

    /// The part with the given number, where there is one.
    pub fn child(&self, i: usize) -> (part: Option<&Pair>)
        ensures
            match part {
                Some(pair) => self@.child(i as int) == Some(pair@) && decreases_to!(self => pair),
                None => self@.child(i as int) is None,
            },
    {
        if i < self.inner.len() {
            Some(&self.inner[i])
        } else {
            None
        }
    }
}

} // verus!
