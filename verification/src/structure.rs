//! The expression trees and statements that the front end of the toolkit
//! hands around, and the flattening of repeat blocks into jumps. The
//! arithmetic of this crate does not look inside them.

use vstd::prelude::*;

verus! {

/// A module: a named list of statements.
#[derive(Debug)]
pub struct Module {
    pub name: String,
    pub statements: Vec<Statement>,
}

/// The relation of a number range to its bound.
#[derive(Debug, Clone, PartialEq, Eq, PartialOrd, Ord)]
pub enum NumOrder {
    Greater,
    Smaller,
    Equal,
    GreaterEqual,
    SmallerEqual,
}

/// An algebraic element. Where a variant starts with a `bool`, that is the
/// dirty flag: the element has to be normalized before it is used.
#[derive(Debug, PartialEq, Eq, PartialOrd, Ord)]
pub enum Element {
    /// `?a`
    VariableArgument(String),
    /// `x?{...}`
    Wildcard(String, Vec<Element>),
    /// `x`
    Var(String),
    /// `(1+x)^3`
    Pow(bool, Box<Element>, Box<Element>),
    /// `>0`, `<=-5/2`
    NumberRange(bool, u64, u64, NumOrder),
    /// `f(...)`
    Fn(bool, Func),
    /// A product of factors.
    Term(bool, Vec<Element>),
    /// A sum of terms.
    SubExpr(bool, Vec<Element>),
    /// A fraction: dirty flag, sign (`true` is positive), numerator and
    /// denominator. It is the last variant, so numbers sort last.
    Num(bool, bool, u64, u64),
}

/// A function with its arguments.
#[derive(Debug, Eq, PartialEq, PartialOrd, Ord)]
pub struct Func {
    pub name: String,
    pub args: Vec<Element>,
}

/// A statement of a module.
#[derive(Debug, Eq, PartialEq, PartialOrd, Ord)]
pub enum Statement {
    IdentityStatement(IdentityStatement),
    SplitArg(String),
    Repeat(Vec<Statement>),
    IfElse(Element, Vec<Statement>, Vec<Statement>),
    Expand,
    Print,
    Multiply(Element),
    Symmetrize(String),
    /// Unconditional jump.
    Jump(usize),
    /// Evaluate, and jump if the result is false.
    Eval(Element, usize),
    /// Jump and pop the change flag.
    JumpIfChanged(usize),
    /// Push a new change flag.
    PushChange,
}

/// What a statement did to a term.
#[derive(Debug)]
pub enum StatementResult<T> {
    Executed(T),
    NotExecuted(T),
    Done,
}

/// A rewrite rule: replace `lhs` by `rhs`.
#[derive(Debug, Eq, PartialEq, PartialOrd, Ord)]
pub struct IdentityStatement {
    pub mode: IdentityStatementMode,
    pub lhs: Element,
    pub rhs: Element,
}

/// How often a rewrite rule is applied to a term.
#[derive(Debug, Clone, Eq, PartialEq, PartialOrd, Ord)]
pub enum IdentityStatementMode {
    Once,
    Many,
    All,
}

/// A copy of every element of the list, in its order.
fn copy_elements(v: &Vec<Element>) -> (r: Vec<Element>)
    ensures
        r@.len() == v@.len(),
    decreases v,
{
    let mut out: Vec<Element> = Vec::with_capacity(v.len());
    let mut i: usize = 0;
    while i < v.len()
        invariant
            i <= v@.len(),
            out@.len() == i,
        decreases v@.len() - i,
    {
        proof {
            assert(decreases_to!(v => v[i as int]));
        }
        out.push(copy_element(&v[i]));
        i = i + 1;
    }
    out
}

/// A copy of the element, with copies of all the elements below it.
fn copy_element(e: &Element) -> (r: Element)
    decreases e,
{
    match e {
        Element::VariableArgument(name) => Element::VariableArgument(name.clone()),
        Element::Wildcard(name, restrictions) => Element::Wildcard(
            name.clone(),
            copy_elements(restrictions),
        ),
        Element::Var(name) => Element::Var(name.clone()),
        Element::Pow(dirty, base, exponent) => Element::Pow(
            *dirty,
            Box::new(copy_element(base)),
            Box::new(copy_element(exponent)),
        ),
        Element::NumberRange(positive, numerator, denominator, order) => Element::NumberRange(
            *positive,
            *numerator,
            *denominator,
            order.clone(),
        ),
        Element::Fn(dirty, f) => Element::Fn(
            *dirty,
            Func { name: f.name.clone(), args: copy_elements(&f.args) },
        ),
        Element::Term(dirty, factors) => Element::Term(*dirty, copy_elements(factors)),
        Element::SubExpr(dirty, terms) => Element::SubExpr(*dirty, copy_elements(terms)),
        Element::Num(dirty, positive, numerator, denominator) => Element::Num(
            *dirty,
            *positive,
            *numerator,
            *denominator,
        ),
    }
}

/// A copy of every statement of the list, in its order.
fn copy_statements(v: &Vec<Statement>) -> (r: Vec<Statement>)
    ensures
        r@.len() == v@.len(),
    decreases v,
{
    let mut out: Vec<Statement> = Vec::with_capacity(v.len());
    let mut i: usize = 0;
    while i < v.len()
        invariant
            i <= v@.len(),
            out@.len() == i,
        decreases v@.len() - i,
    {
        proof {
            assert(decreases_to!(v => v[i as int]));
        }
        out.push(copy_statement(&v[i]));
        i = i + 1;
    }
    out
}

/// A copy of the statement, with copies of all the statements inside it.
fn copy_statement(s: &Statement) -> (r: Statement)
    decreases s,
{
    match s {
        Statement::IdentityStatement(id) => Statement::IdentityStatement(id.clone()),
        Statement::SplitArg(name) => Statement::SplitArg(name.clone()),
        Statement::Repeat(block) => Statement::Repeat(copy_statements(block)),
        Statement::IfElse(condition, then, otherwise) => Statement::IfElse(
            copy_element(condition),
            copy_statements(then),
            copy_statements(otherwise),
        ),
        Statement::Expand => Statement::Expand,
        Statement::Print => Statement::Print,
        Statement::Multiply(factor) => Statement::Multiply(copy_element(factor)),
        Statement::Symmetrize(name) => Statement::Symmetrize(name.clone()),
        Statement::Jump(target) => Statement::Jump(*target),
        Statement::Eval(condition, target) => Statement::Eval(copy_element(condition), *target),
        Statement::JumpIfChanged(target) => Statement::JumpIfChanged(*target),
        Statement::PushChange => Statement::PushChange,
    }
}

impl Clone for Element {
    fn clone(&self) -> Self {
        copy_element(self)
    }
}

impl Clone for Func {
    fn clone(&self) -> Self {
        Func { name: self.name.clone(), args: copy_elements(&self.args) }
    }
}

impl Clone for IdentityStatement {
    fn clone(&self) -> Self {
        IdentityStatement {
            mode: self.mode.clone(),
            lhs: copy_element(&self.lhs),
            rhs: copy_element(&self.rhs),
        }
    }
}

impl Clone for Statement {
    fn clone(&self) -> Self {
        copy_statement(self)
    }
}

/// The statements `s` without their repeat blocks, where the first of them
/// comes to the place `start` of a list: a repeat block becomes a statement
/// that pushes a change flag, the statements of the block, and a jump back
/// to the first of these that is taken where the flag is set.
pub open spec fn control_flow(s: Seq<Statement>, start: nat) -> Seq<Statement>
    decreases s,
{
    if s.len() == 0 {
        Seq::<Statement>::empty()
    } else {
        let before = control_flow(s.drop_last(), start);
        before + control_flow_of(s.last(), start + before.len())
    }
}

/// The statement `st` without repeat blocks, for the place `start` of a list.
pub open spec fn control_flow_of(st: Statement, start: nat) -> Seq<Statement>
    decreases st,
{
    match st {
        Statement::Repeat(ss) => seq![Statement::PushChange] + control_flow(ss@, start + 1)
            + seq![Statement::JumpIfChanged((start + 1) as usize)],
        other => seq![other],
    }
}

impl Module {
    /// Flatten the statement structure and use conditional jumps: the
    /// statements are put behind those of `output`, without their repeat
    /// blocks.
    pub fn to_control_flow_stat(statements: Vec<Statement>, output: &mut Vec<Statement>)
        ensures
            final(output)@ == old(output)@ + control_flow(statements@, old(output)@.len()),
        decreases statements,
    {
        let ghost all = statements;
        let ghost first = output@;
        let mut rest = statements;
        let ghost mut done: int = 0;
        assert(all@.subrange(0, 0) =~= Seq::<Statement>::empty());
        assert(first + Seq::<Statement>::empty() =~= first);
        while rest.len() > 0
            invariant
                all == statements,
                0 <= done <= all@.len(),
                rest@ == all@.subrange(done, all@.len() as int),
                output@ == first + control_flow(all@.subrange(0, done), first.len()),
            decreases rest.len(),
        {
            let ghost before = output@;
            let ghost flat = control_flow(all@.subrange(0, done), first.len());
            let x = rest.remove(0);
            proof {
                assert(x == all@[done]);
                let next = all@.subrange(0, done + 1);
                assert(next.drop_last() =~= all@.subrange(0, done));
                assert(next.last() == x);
                assert(rest@ =~= all@.subrange(done + 1, all@.len() as int));
            }
            match x {
                Statement::Repeat(ss) => {
                    output.push(Statement::PushChange);
                    let pos = output.len();
                    proof {
                        assert(decreases_to!(all => all[done]));
                    }
                    Self::to_control_flow_stat(ss, output);
                    output.push(Statement::JumpIfChanged(pos));
                    proof {
                        assert(output@ =~= first + (flat + control_flow_of(x, first.len() + flat.len())));
                    }
                },
                other => {
                    output.push(other);
                    proof {
                        assert(output@ =~= first + (flat + control_flow_of(x, first.len() + flat.len())));
                    }
                },
            }
            proof {
                done = done + 1;
            }
        }
        proof {
            assert(all@.subrange(0, all@.len() as int) =~= all@);
        }
    }
}

} // verus!
