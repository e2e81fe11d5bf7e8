//! The program model: functions as flat statement lists over places.
//!
//! Nested blocks are written as `Open` ... `Close` markers, so a statement's
//! position is its index in the function body.
use crate::place::{Place, PlaceView};
use vstd::prelude::*;

verus! {

/// The kind of a loan: shared (`&x`) or exclusive (`&mut x`).
#[derive(Clone, Copy, Debug, PartialEq, Eq, Structural)]
pub enum LoanKind {
    Shared,
    Exclusive,
}

/// The declared type of a binding, as far as the checker needs it.
#[derive(Clone, Copy, Debug, PartialEq, Eq, Structural)]
pub enum Ty {
    /// A value held by the binding itself.
    Value,
    /// An immutable reference.
    SharedRef,
    /// A mutable reference.
    MutRef,
}

/// The capability contract of a parameter.
#[derive(Clone, Copy, Debug, PartialEq, Eq, Structural)]
pub enum Contract {
    /// The parameter is passed by value and owned by the callee.
    ByValue,
    /// A reference parameter through which the callee only reads.
    ReadOnly,
    /// A reference parameter through which the callee reads and writes.
    ReadWrite,
}

/// One obligation that an expression places on a place.
#[derive(Clone, Debug)]
pub enum Access {
    /// The value is read (printed, compared, dereferenced for reading).
    Read(Place),
    /// The value is mutated in place (a method taking `&mut self`, `*r += 1`).
    Write(Place),
    /// The value is passed or bound by value: a copy when its type is
    /// copyable, a move otherwise.
    Consume { place: Place, copyable: bool },
    /// A borrow expression `&place` or `&mut place`.
    Borrow { place: Place, kind: LoanKind },
}

pub enum AccessView {
    Read(PlaceView),
    Write(PlaceView),
    Consume { place: PlaceView, copyable: bool },
    Borrow { place: PlaceView, kind: LoanKind },
}

impl View for Access {
    type V = AccessView;

    open spec fn view(&self) -> AccessView {
        match self {
            Access::Read(p) => AccessView::Read(p@),
            Access::Write(p) => AccessView::Write(p@),
            Access::Consume { place, copyable } => AccessView::Consume {
                place: place@,
                copyable: *copyable,
            },
            Access::Borrow { place, kind } => AccessView::Borrow { place: place@, kind: *kind },
        }
    }
}

impl AccessView {
    pub open spec fn place(self) -> PlaceView {
        match self {
            AccessView::Read(p) => p,
            AccessView::Write(p) => p,
            AccessView::Consume { place, .. } => place,
            AccessView::Borrow { place, .. } => place,
        }
    }
}

impl Access {
    /// The place this access touches.
    pub fn place(&self) -> (r: &Place)
        ensures
            r@ == self@.place(),
    {
        match self {
            Access::Read(p) => p,
            Access::Write(p) => p,
            Access::Consume { place, .. } => place,
            Access::Borrow { place, .. } => place,
        }
    }
}

pub open spec fn accesses_view(a: Seq<Access>) -> Seq<AccessView> {
    a.map_values(|x: Access| x@)
}

/// A statement of the closed grammar.
#[derive(Clone, Debug)]
pub enum Stmt {
    /// `let [mut] var: ty = init;`
    Let { var: usize, mutable: bool, ty: Ty, init: Vec<Access> },
    /// `target = value;`
    Assign { target: Place, value: Vec<Access> },
    /// `expr;`
    Eval(Vec<Access>),
    /// `return value;`
    Return(Vec<Access>),
    /// Start of a nested block `{`.
    Open,
    /// End of a nested block `}`.
    Close,
}

pub enum StmtView {
    Let { var: usize, mutable: bool, ty: Ty, init: Seq<AccessView> },
    Assign { target: PlaceView, value: Seq<AccessView> },
    Eval(Seq<AccessView>),
    Return(Seq<AccessView>),
    Open,
    Close,
}

impl View for Stmt {
    type V = StmtView;

    open spec fn view(&self) -> StmtView {
        match self {
            Stmt::Let { var, mutable, ty, init } => StmtView::Let {
                var: *var,
                mutable: *mutable,
                ty: *ty,
                init: accesses_view(init@),
            },
            Stmt::Assign { target, value } => StmtView::Assign {
                target: target@,
                value: accesses_view(value@),
            },
            Stmt::Eval(a) => StmtView::Eval(accesses_view(a@)),
            Stmt::Return(a) => StmtView::Return(accesses_view(a@)),
            Stmt::Open => StmtView::Open,
            Stmt::Close => StmtView::Close,
        }
    }
}

impl StmtView {
    /// The accesses the statement evaluates, in order (an assignment's
    /// target is not among them).
    pub open spec fn accesses(self) -> Seq<AccessView> {
        match self {
            StmtView::Let { init, .. } => init,
            StmtView::Assign { value, .. } => value,
            StmtView::Eval(a) => a,
            StmtView::Return(a) => a,
            _ => Seq::empty(),
        }
    }
}

pub open spec fn body_view(b: Seq<Stmt>) -> Seq<StmtView> {
    b.map_values(|s: Stmt| s@)
}

/// A parameter of a function.
#[derive(Clone, Copy, Debug, PartialEq, Eq, Structural)]
pub struct Param {
    pub var: usize,
    pub mutable: bool,
    pub contract: Contract,
}

/// A function: its parameters and its flattened body. Variables are
/// identified by ids below `var_count`.
#[derive(Clone, Debug)]
pub struct Function {
    pub params: Vec<Param>,
    pub body: Vec<Stmt>,
    pub var_count: usize,
}

pub struct FunctionView {
    pub params: Seq<Param>,
    pub body: Seq<StmtView>,
    pub var_count: usize,
}

impl View for Function {
    type V = FunctionView;

    open spec fn view(&self) -> FunctionView {
        FunctionView {
            params: self.params@,
            body: body_view(self.body@),
            var_count: self.var_count,
        }
    }
}

/// A whole program: the functions that are analysed one by one.
#[derive(Clone, Debug)]
pub struct Program {
    pub functions: Vec<Function>,
}

impl View for Program {
    type V = Seq<FunctionView>;

    open spec fn view(&self) -> Seq<FunctionView> {
        self.functions@.map_values(|f: Function| f@)
    }
}

} // verus!
