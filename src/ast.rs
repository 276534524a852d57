use vstd::prelude::*;
use crate::types::{Ident, PTy};

verus! {

broadcast use vstd::std_specs::vec::group_vec_axioms;

/// A source range, as byte offsets.
#[derive(Clone, Copy, Debug, PartialEq, Eq, Structural)]
pub struct Span {
    pub lo: usize,
    pub hi: usize,
}

/// An inclusive range of characters in a character class.
#[derive(Clone, Copy, Debug, PartialEq, Eq, Structural)]
pub struct CharacterInterval {
    pub lo: char,
    pub hi: char,
}

/// The kind of a parsing expression, with its sub-expressions.
#[derive(Debug)]
pub enum ExpressionNode {
    StrLiteral(String),
    AnySingleChar,
    CharacterClass(Vec<CharacterInterval>),
    NonTerminalSymbol(Ident),
    Sequence(Vec<Expression>),
    Choice(Vec<Expression>),
    ZeroOrMore(Box<Expression>),
    OneOrMore(Box<Expression>),
    Optional(Box<Expression>),
    NotPredicate(Box<Expression>),
    AndPredicate(Box<Expression>),
}

/// A parsing expression with its type slot. `discarded` is set by the
/// attribute stage on a terminal whose match is not kept.
#[derive(Debug)]
pub struct Expression {
    pub span: Span,
    pub node: ExpressionNode,
    pub discarded: bool,
    pub ty: PTy,
}

/// Whether the expression contains a reference to rule `t`.
pub open spec fn mentions(e: Expression, t: Ident) -> bool
    decreases e,
{
    match e.node {
        ExpressionNode::NonTerminalSymbol(x) => x == t,
        ExpressionNode::Sequence(v) => mentioned(v@, t),
        ExpressionNode::Choice(v) => mentioned(v@, t),
        ExpressionNode::ZeroOrMore(c) => mentions(*c, t),
        ExpressionNode::OneOrMore(c) => mentions(*c, t),
        ExpressionNode::Optional(c) => mentions(*c, t),
        ExpressionNode::NotPredicate(c) => mentions(*c, t),
        ExpressionNode::AndPredicate(c) => mentions(*c, t),
        _ => false,
    }
}

/// The kind of a node, as a number.
pub open spec fn node_kind(n: ExpressionNode) -> nat {
    match n {
        ExpressionNode::StrLiteral(_) => 0,
        ExpressionNode::AnySingleChar => 1,
        ExpressionNode::CharacterClass(_) => 2,
        ExpressionNode::NonTerminalSymbol(_) => 3,
        ExpressionNode::Sequence(_) => 4,
        ExpressionNode::Choice(_) => 5,
        ExpressionNode::ZeroOrMore(_) => 6,
        ExpressionNode::OneOrMore(_) => 7,
        ExpressionNode::Optional(_) => 8,
        ExpressionNode::NotPredicate(_) => 9,
        ExpressionNode::AndPredicate(_) => 10,
    }
}

pub open spec fn is_terminal(n: ExpressionNode) -> bool {
    n is StrLiteral || n is AnySingleChar || n is CharacterClass
}

/// Some expression of `s` contains a reference to rule `t`.
pub open spec fn mentioned(s: Seq<Expression>, t: Ident) -> bool
    decreases s,
{
    if s.len() == 0 {
        false
    } else {
        mentions(s.last(), t) || mentioned(s.drop_last(), t)
    }
}

/// A reference in one element of `s` is a reference of `s`.
pub proof fn lemma_mentioned_elem(s: Seq<Expression>, j: int, t: Ident)
    requires
        0 <= j < s.len(),
        mentions(s[j], t),
    ensures
        mentioned(s, t),
    decreases s.len(),
{
    if j < s.len() - 1 {
        assert(s.drop_last()[j] == s[j]);
        lemma_mentioned_elem(s.drop_last(), j, t);
    }
}

/// The expression produces no value: it is built only from lookahead
/// predicates and discarded terminals.
pub open spec fn silent(e: Expression) -> bool
    decreases e,
{
    match e.node {
        ExpressionNode::StrLiteral(_) => e.discarded,
        ExpressionNode::AnySingleChar => e.discarded,
        ExpressionNode::CharacterClass(_) => e.discarded,
        ExpressionNode::NonTerminalSymbol(_) => false,
        ExpressionNode::Sequence(v) => all_silent(v@),
        ExpressionNode::Choice(v) => all_silent(v@),
        ExpressionNode::ZeroOrMore(c) => silent(*c),
        ExpressionNode::OneOrMore(c) => silent(*c),
        ExpressionNode::Optional(c) => silent(*c),
        ExpressionNode::NotPredicate(_) => true,
        ExpressionNode::AndPredicate(_) => true,
    }
}

/// Every expression of `s` is silent.
pub open spec fn all_silent(s: Seq<Expression>) -> bool
    decreases s,
{
    if s.len() == 0 {
        true
    } else {
        silent(s.last()) && all_silent(s.drop_last())
    }
}

pub proof fn lemma_all_silent(s: Seq<Expression>, j: int)
    requires
        all_silent(s),
        0 <= j < s.len(),
    ensures
        silent(s[j]),
    decreases s.len(),
{
    if j < s.len() - 1 {
        lemma_all_silent(s.drop_last(), j);
        assert(s.drop_last()[j] == s[j]);
    }
}

/// How a rule exposes its type.
#[derive(Clone, Copy, Debug, PartialEq, Eq, Structural)]
pub enum RuleStyle {
    /// No named type: every use site gets a copy of the rule's type.
    Inline,
    /// The rule's type is registered under the rule's name.
    New,
}

/// The attributes of a rule, as given by the attribute stage.
#[derive(Debug)]
pub struct RuleAttributes {
    pub style: RuleStyle,
    /// Names for the fields of a tuple-shaped rule.
    pub field_names: Option<Vec<String>>,
    /// Labels for the alternatives of a choice-shaped rule.
    pub variant_names: Option<Vec<String>>,
}

/// A named rule of the grammar with the root of its expression tree.
#[derive(Debug)]
pub struct Rule {
    pub name: String,
    pub span: Span,
    pub def: Box<Expression>,
    pub attributes: RuleAttributes,
}

impl Rule {
    pub open spec fn spec_is_inline(&self) -> bool {
        self.attributes.style is Inline
    }

    /// Whether the rule has no named type of its own.
    pub fn is_inline(&self) -> (r: bool)
        ensures
            r == self.spec_is_inline(),
    {
        match self.attributes.style {
            RuleStyle::Inline => true,
            _ => false,
        }
    }
}

} // verus!
