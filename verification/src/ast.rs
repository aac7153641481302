//! The syntax tree of a script.

use vstd::prelude::*;

use crate::text::copy_strings;

verus! {

/// A comparison operator of an `if` condition.
#[derive(Debug, Clone, Copy, PartialEq, Eq, Structural)]
pub enum CmpOp {
    Eq,
    Ne,
    Lt,
    Le,
    Gt,
    Ge,
}

/// The mathematical value of an [`Expr`].
pub enum Cond {
    Atom(Seq<char>),
    Cmp(Seq<char>, CmpOp, Seq<char>),
    And(Box<Cond>, Box<Cond>),
    Or(Box<Cond>, Box<Cond>),
}

/// The mathematical value of a [`Stmt`].
pub enum Statement {
    If { cond: Cond, body: Seq<Statement> },
    Command { name: Seq<char>, args: Seq<Seq<char>>, block: Option<Seq<Statement>> },
}

/// An `if` condition. Leaves hold raw text: `$N` is replaced when the
/// condition is evaluated, from the arguments in scope there.
#[derive(Debug)]
pub enum Expr {
    /// A bare value with no comparison.
    Atom(String),
    Cmp(String, CmpOp, String),
    And(Box<Expr>, Box<Expr>),
    Or(Box<Expr>, Box<Expr>),
}

/// One parsed statement.
#[derive(Debug)]
pub enum Stmt {
    /// `if <condition> { body }`.
    If { cond: Expr, body: Vec<Stmt> },
    /// Every other command: `name arg* block?`. What the name means is up to
    /// the interpreter.
    Command { name: String, args: Vec<String>, block: Option<Vec<Stmt>> },
}

pub open spec fn cond_of(e: Expr) -> Cond
    decreases e,
{
    match e {
        Expr::Atom(s) => Cond::Atom(s@),
        Expr::Cmp(l, op, r) => Cond::Cmp(l@, op, r@),
        Expr::And(l, r) => Cond::And(Box::new(cond_of(*l)), Box::new(cond_of(*r))),
        Expr::Or(l, r) => Cond::Or(Box::new(cond_of(*l)), Box::new(cond_of(*r))),
    }
}

pub open spec fn statement_of(s: Stmt) -> Statement
    decreases s,
{
    match s {
        Stmt::If { cond, body } => Statement::If { cond: cond_of(cond), body: block_of(body@) },
        Stmt::Command { name, args, block } => Statement::Command {
            name: name@,
            args: args.deep_view(),
            block: match block {
                Some(b) => Some(block_of(b@)),
                None => None,
            },
        },
    }
}

pub open spec fn block_of(block: Seq<Stmt>) -> Seq<Statement>
    decreases block,
{
    Seq::new(
        block.len(),
        |i: int| if 0 <= i < block.len() { statement_of(block[i]) } else { arbitrary() },
    )
}

impl View for Expr {
    type V = Cond;

    open spec fn view(&self) -> Cond {
        cond_of(*self)
    }
}

impl View for Stmt {
    type V = Statement;

    open spec fn view(&self) -> Statement {
        statement_of(*self)
    }
}

impl Expr {
    /// A copy of the condition.
    pub fn copy(&self) -> (r: Expr)
        ensures
            r@ == self@,
        decreases self,
    {
        match self {
            Expr::Atom(s) => Expr::Atom(s.clone()),
            Expr::Cmp(l, op, r) => Expr::Cmp(l.clone(), *op, r.clone()),
            Expr::And(l, r) => Expr::And(Box::new(l.copy()), Box::new(r.copy())),
            Expr::Or(l, r) => Expr::Or(Box::new(l.copy()), Box::new(r.copy())),
        }
    }
}

impl Stmt {
    /// A copy of the statement.
    pub fn copy(&self) -> (r: Stmt)
        ensures
            r@ == self@,
        decreases self,
    {
        match self {
            Stmt::If { cond, body } => Stmt::If { cond: cond.copy(), body: copy_block(body) },
            Stmt::Command { name, args, block } => {
                let list = args.as_slice();
                assert(list.deep_view() =~= args.deep_view());
                Stmt::Command {
                    name: name.clone(),
                    args: copy_strings(list),
                    block: match block {
                        Some(b) => Some(copy_block(b)),
                        None => None,
                    },
                }
            },
        }
    }
}

/// A copy of the statements of a block.
pub fn copy_block(block: &Vec<Stmt>) -> (r: Vec<Stmt>)
    ensures
        block_of(r@) == block_of(block@),
    decreases block,
{
    let mut out: Vec<Stmt> = Vec::new();
    let mut i: usize = 0;
    while i < block.len()
        invariant
            i <= block@.len(),
            out@.len() == i,
            forall|j: int| 0 <= j < i ==> (#[trigger] out@[j])@ == block@[j]@,
        decreases block@.len() - i,
    {
        out.push(block[i].copy());
        i = i + 1;
    }
    assert(block_of(out@) =~= block_of(block@));
    out
}

} // verus!
