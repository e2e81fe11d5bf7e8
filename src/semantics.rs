//! The meaning of the analysis, as spec functions over the program model.
//!
//! The state before each statement holds the bindings in scope, the places
//! moved out, the loans opened so far, and the diagnostics recorded so far.
//! Each statement's accesses are checked in order against that state.
use crate::place::{PlaceView, is_prefix, overlaps, has_deref};
use crate::program::{AccessView, StmtView, FunctionView, LoanKind, Ty, Contract, Param};
use vstd::prelude::*;

verus! {

/// What the checker knows of a binding.
#[derive(Clone, Copy, Debug, PartialEq, Eq, Structural)]
pub struct VarInfo {
    pub mutable: bool,
    pub ty: Ty,
    /// Frame depth of the declaration: 0 for parameters, 1 for the body.
    pub depth: usize,
    pub in_scope: bool,
}

/// A set of capabilities.
#[derive(Clone, Copy, Debug, PartialEq, Eq, Structural)]
pub struct Perms {
    pub read: bool,
    pub write: bool,
    pub own: bool,
}

/// The kinds of safety violations.
#[derive(Clone, Copy, Debug, PartialEq, Eq, Structural)]
pub enum ViolationKind {
    UseAfterMove,
    WriteWhileBorrowed,
    ReadWhileExclusivelyBorrowed,
    MoveWhileBorrowed,
    ConflictingExclusiveBorrow,
    DanglingReference,
    ImmutableWriteViolation,
}

/// The kinds of malformed input, which abort the analysis of a function.
#[derive(Clone, Copy, Debug, PartialEq, Eq, Structural)]
pub enum MalformedKind {
    /// A place names a variable that is not in scope, or an id out of range.
    UnknownVariable,
    /// A `let` declares an id that was declared before.
    DuplicateBinding,
    /// A `Close` without a matching `Open`.
    UnbalancedFrame,
    /// More nested frames than a `usize` can count.
    NestingTooDeep,
    /// A parameter with an id out of range or declared twice.
    BadParameter,
}

/// A malformed function: the kind, and the statement position (or the
/// parameter index, for `BadParameter`).
#[derive(Clone, Copy, Debug, PartialEq, Eq, Structural)]
pub struct Malformed {
    pub kind: MalformedKind,
    pub index: usize,
}

pub struct LoanView {
    pub place: PlaceView,
    pub kind: LoanKind,
    pub start: usize,
    pub end: usize,
    pub holder: Option<usize>,
}

pub struct DiagnosticView {
    pub kind: ViolationKind,
    pub place: PlaceView,
    pub position: usize,
    pub note: Option<LoanView>,
}

/// The binding that receives the references created by a statement.
#[derive(Clone, Copy)]
pub struct Holder {
    pub var: usize,
    pub depth: usize,
}

pub struct FlowState {
    pub depth: usize,
    pub vars: Seq<Option<VarInfo>>,
    pub moved: Seq<PlaceView>,
    pub loans: Seq<LoanView>,
    pub report: Seq<DiagnosticView>,
}

// ---------------------------------------------------------------- scope

pub open spec fn in_scope(s: FlowState, v: usize) -> bool {
    &&& v < s.vars.len()
    &&& s.vars[v as int] is Some
    &&& s.vars[v as int]->Some_0.in_scope
}

pub open spec fn all_in_scope(s: FlowState, accs: Seq<AccessView>) -> bool {
    forall|k: int| 0 <= k < accs.len() ==> in_scope(s, #[trigger] accs[k].place().var)
}

pub open spec fn info(s: FlowState, v: usize) -> VarInfo {
    s.vars[v as int]->Some_0
}

/// Every binding in scope belongs to a frame that is still open.
pub open spec fn well_nested(s: FlowState) -> bool {
    &&& s.depth >= 1
    &&& forall|v: int|
        0 <= v < s.vars.len() && (#[trigger] s.vars[v]) is Some && s.vars[v]->Some_0.in_scope
            ==> s.vars[v]->Some_0.depth <= s.depth
}

pub open spec fn declared(s: FlowState, v: usize) -> bool {
    v < s.vars.len() && s.vars[v as int] is Some
}

/// Every loan borrows from a declared binding.
pub open spec fn loans_declared(s: FlowState) -> bool {
    forall|k: int| 0 <= k < s.loans.len() ==> declared(s, #[trigger] s.loans[k].place.var)
}

// ---------------------------------------------------------- capabilities

/// The place is reached through a reference, so its storage lies outside
/// the frames of this function.
pub open spec fn behind_reference(s: FlowState, q: PlaceView) -> bool {
    has_deref(q) && info(s, q.var).ty != Ty::Value
}

/// The capabilities a place has when nothing restricts it: read and own for
/// an immutable binding, read, write and own for a mutable one; through a
/// reference, read (and write for a mutable reference) but never own.
pub open spec fn home(s: FlowState, q: PlaceView) -> Perms {
    let b = info(s, q.var);
    if behind_reference(s, q) {
        Perms { read: true, write: b.ty == Ty::MutRef, own: false }
    } else {
        Perms { read: true, write: b.mutable, own: true }
    }
}

pub open spec fn moved_overlap(moved: Seq<PlaceView>, q: PlaceView) -> bool {
    exists|k: int| 0 <= k < moved.len() && overlaps(#[trigger] moved[k], q)
}

/// An ancestor of `t` (not `t` itself) has been moved out.
pub open spec fn ancestor_moved(moved: Seq<PlaceView>, t: PlaceView) -> bool {
    exists|k: int|
        0 <= k < moved.len() && is_prefix(#[trigger] moved[k], t) && moved[k].path.len()
            < t.path.len()
}

/// A loan that is live at `position`, overlaps `q`, and (when
/// `exclusive_only`) is exclusive.
pub open spec fn conflicts(l: LoanView, q: PlaceView, position: usize, exclusive_only: bool) -> bool {
    &&& l.end >= position
    &&& overlaps(l.place, q)
    &&& (exclusive_only ==> l.kind == LoanKind::Exclusive)
}

pub open spec fn first_conflict_from(
    loans: Seq<LoanView>,
    q: PlaceView,
    position: usize,
    exclusive_only: bool,
    k: int,
) -> Option<int>
    decreases loans.len() - k,
{
    if k < 0 || k >= loans.len() {
        None
    } else if conflicts(loans[k], q, position, exclusive_only) {
        Some(k)
    } else {
        first_conflict_from(loans, q, position, exclusive_only, k + 1)
    }
}

/// The earliest opened loan that conflicts with an access to `q`.
pub open spec fn first_conflict(
    loans: Seq<LoanView>,
    q: PlaceView,
    position: usize,
    exclusive_only: bool,
) -> Option<LoanView> {
    match first_conflict_from(loans, q, position, exclusive_only, 0) {
        Some(k) => Some(loans[k]),
        None => None,
    }
}

/// The capabilities `q` has at `position`: its home set, less what moves
/// and live loans withhold. A shared loan withholds write and own, an
/// exclusive loan all three.
pub open spec fn current(s: FlowState, q: PlaceView, position: usize) -> Perms {
    let h = home(s, q);
    if moved_overlap(s.moved, q) {
        Perms { read: false, write: false, own: false }
    } else {
        let any = first_conflict(s.loans, q, position, false) is Some;
        let excl = first_conflict(s.loans, q, position, true) is Some;
        Perms { read: h.read && !excl, write: h.write && !any, own: h.own && !any }
    }
}

// ------------------------------------------------------------ liveness

pub open spec fn mentions(accs: Seq<AccessView>, v: usize) -> bool {
    exists|k: int| 0 <= k < accs.len() && (#[trigger] accs[k].place()).var == v
}

/// The last statement from `j` on that uses `h`, scanning until the frame
/// that declared `h` closes or `h` is bound anew; `last` when there is none.
/// `rel` counts the frames opened since the one that declared `h`.
pub open spec fn scan_last_use(body: Seq<StmtView>, h: usize, j: int, rel: int, last: int) -> int
    decreases body.len() - j,
{
    if j < 0 || j >= body.len() {
        last
    } else {
        match body[j] {
            StmtView::Open => scan_last_use(body, h, j + 1, rel + 1, last),
            StmtView::Close => if rel <= 0 {
                last
            } else {
                scan_last_use(body, h, j + 1, rel - 1, last)
            },
            StmtView::Assign { target, value } => if target.var == h && target.path.len() == 0 {
                if mentions(value, h) {
                    j
                } else {
                    last
                }
            } else if mentions(value, h) || target.var == h {
                scan_last_use(body, h, j + 1, rel, j)
            } else {
                scan_last_use(body, h, j + 1, rel, last)
            },
            StmtView::Let { init, .. } => if mentions(init, h) {
                scan_last_use(body, h, j + 1, rel, j)
            } else {
                scan_last_use(body, h, j + 1, rel, last)
            },
            StmtView::Eval(a) => if mentions(a, h) {
                scan_last_use(body, h, j + 1, rel, j)
            } else {
                scan_last_use(body, h, j + 1, rel, last)
            },
            StmtView::Return(a) => if mentions(a, h) {
                scan_last_use(body, h, j + 1, rel, j)
            } else {
                scan_last_use(body, h, j + 1, rel, last)
            },
        }
    }
}

/// The position of a loan's last use: the statement itself for a loan that
/// no binding keeps, else the last use of the binding that keeps it.
pub open spec fn loan_end(body: Seq<StmtView>, position: usize, holder: Option<Holder>, depth: usize) -> int {
    match holder {
        None => position as int,
        Some(h) => scan_last_use(body, h.var, position + 1, depth - h.depth, position as int),
    }
}

// ----------------------------------------------------------- reporting

pub open spec fn same_key(a: DiagnosticView, b: DiagnosticView) -> bool {
    a.kind == b.kind && a.place == b.place && a.position == b.position
}

pub open spec fn has_key(report: Seq<DiagnosticView>, d: DiagnosticView) -> bool {
    exists|k: int| 0 <= k < report.len() && same_key(#[trigger] report[k], d)
}

/// Appends `d` unless a diagnostic of the same kind, place and position is
/// already there.
pub open spec fn record(report: Seq<DiagnosticView>, d: DiagnosticView) -> Seq<DiagnosticView> {
    if has_key(report, d) {
        report
    } else {
        report.push(d)
    }
}

pub open spec fn flag(
    s: FlowState,
    kind: ViolationKind,
    q: PlaceView,
    position: usize,
    note: Option<LoanView>,
) -> FlowState {
    FlowState {
        report: record(s.report, DiagnosticView { kind, place: q, position, note }),
        ..s
    }
}

// -------------------------------------------------------------- verdicts

pub open spec fn check_read(s: FlowState, position: usize, q: PlaceView) -> FlowState {
    if moved_overlap(s.moved, q) {
        flag(s, ViolationKind::UseAfterMove, q, position, None)
    } else {
        match first_conflict(s.loans, q, position, true) {
            Some(l) => flag(s, ViolationKind::ReadWhileExclusivelyBorrowed, q, position, Some(l)),
            None => s,
        }
    }
}

pub open spec fn check_write(s: FlowState, position: usize, q: PlaceView) -> FlowState {
    if moved_overlap(s.moved, q) {
        flag(s, ViolationKind::UseAfterMove, q, position, None)
    } else {
        match first_conflict(s.loans, q, position, false) {
            Some(l) => flag(s, ViolationKind::WriteWhileBorrowed, q, position, Some(l)),
            None => if !home(s, q).write {
                flag(s, ViolationKind::ImmutableWriteViolation, q, position, None)
            } else {
                s
            },
        }
    }
}

pub open spec fn check_move(s: FlowState, position: usize, q: PlaceView) -> FlowState {
    if moved_overlap(s.moved, q) {
        flag(s, ViolationKind::UseAfterMove, q, position, None)
    } else {
        match first_conflict(s.loans, q, position, false) {
            Some(l) => flag(s, ViolationKind::MoveWhileBorrowed, q, position, Some(l)),
            None => if !home(s, q).own {
                flag(s, ViolationKind::MoveWhileBorrowed, q, position, None)
            } else {
                FlowState { moved: s.moved.push(q), ..s }
            },
        }
    }
}

pub open spec fn check_borrow(
    s: FlowState,
    body: Seq<StmtView>,
    position: usize,
    holder: Option<Holder>,
    q: PlaceView,
    kind: LoanKind,
) -> FlowState {
    if moved_overlap(s.moved, q) {
        flag(s, ViolationKind::UseAfterMove, q, position, None)
    } else {
        match first_conflict(s.loans, q, position, kind == LoanKind::Shared) {
            Some(l) => flag(s, ViolationKind::ConflictingExclusiveBorrow, q, position, Some(l)),
            None => if kind == LoanKind::Exclusive && !home(s, q).write {
                flag(s, ViolationKind::ImmutableWriteViolation, q, position, None)
            } else {
                let loan = LoanView {
                    place: q,
                    kind,
                    start: position,
                    end: loan_end(body, position, holder, s.depth) as usize,
                    holder: match holder {
                        Some(h) => Some(h.var),
                        None => None,
                    },
                };
                FlowState { loans: s.loans.push(loan), ..s }
            },
        }
    }
}

/// A reference kept by a binding of an outer frame to a place owned by an
/// inner frame outlives its referent.
pub open spec fn check_escape_to_holder(
    s: FlowState,
    position: usize,
    holder: Option<Holder>,
    q: PlaceView,
) -> FlowState {
    match holder {
        Some(h) => if !behind_reference(s, q) && info(s, q.var).depth > h.depth {
            flag(s, ViolationKind::DanglingReference, q, position, None)
        } else {
            s
        },
        None => s,
    }
}

pub open spec fn step_access(
    s: FlowState,
    body: Seq<StmtView>,
    position: usize,
    holder: Option<Holder>,
    a: AccessView,
) -> FlowState {
    match a {
        AccessView::Read(q) => check_read(s, position, q),
        AccessView::Write(q) => check_write(s, position, q),
        AccessView::Consume { place, copyable } => if copyable {
            check_read(s, position, place)
        } else {
            check_move(s, position, place)
        },
        AccessView::Borrow { place, kind } => check_escape_to_holder(
            check_borrow(s, body, position, holder, place, kind),
            position,
            holder,
            place,
        ),
    }
}

pub open spec fn run_accesses(
    s: FlowState,
    body: Seq<StmtView>,
    position: usize,
    holder: Option<Holder>,
    accs: Seq<AccessView>,
) -> FlowState
    decreases accs.len(),
{
    if accs.len() == 0 {
        s
    } else {
        step_access(
            run_accesses(s, body, position, holder, accs.drop_last()),
            body,
            position,
            holder,
            accs.last(),
        )
    }
}

// ------------------------------------------------------------ statements

/// Removes the moved places that an assignment to `t` binds anew.
pub open spec fn rebind(moved: Seq<PlaceView>, t: PlaceView) -> Seq<PlaceView>
    decreases moved.len(),
{
    if moved.len() == 0 {
        moved
    } else {
        let r = rebind(moved.drop_last(), t);
        if is_prefix(t, moved.last()) {
            r
        } else {
            r.push(moved.last())
        }
    }
}

pub open spec fn check_assign_target(s: FlowState, position: usize, t: PlaceView) -> FlowState {
    if ancestor_moved(s.moved, t) {
        flag(s, ViolationKind::UseAfterMove, t, position, None)
    } else {
        match first_conflict(s.loans, t, position, false) {
            Some(l) => flag(s, ViolationKind::WriteWhileBorrowed, t, position, Some(l)),
            None => if !home(s, t).write {
                flag(s, ViolationKind::ImmutableWriteViolation, t, position, None)
            } else {
                FlowState { moved: rebind(s.moved, t), ..s }
            },
        }
    }
}

/// The loans kept by `h` that borrow storage of this function's frames,
/// among `loans[0..n]`, are reported as dangling when `h` is returned.
pub open spec fn escape_held(s: FlowState, position: usize, h: usize, n: int) -> FlowState
    decreases n,
{
    if n <= 0 {
        s
    } else {
        let s1 = escape_held(s, position, h, n - 1);
        let l = s.loans[n - 1];
        if l.holder == Some(h) && !behind_reference(s, l.place) {
            flag(s1, ViolationKind::DanglingReference, l.place, position, None)
        } else {
            s1
        }
    }
}

pub open spec fn escape_access(s: FlowState, position: usize, a: AccessView) -> FlowState {
    match a {
        AccessView::Borrow { place, .. } => if !behind_reference(s, place) {
            flag(s, ViolationKind::DanglingReference, place, position, None)
        } else {
            s
        },
        AccessView::Write(_) => s,
        _ => if a.place().path.len() == 0 {
            escape_held(s, position, a.place().var, s.loans.len() as int)
        } else {
            s
        },
    }
}

/// Every reference that a `return` hands out must not point into the
/// frames that the return destroys.
pub open spec fn check_return(s: FlowState, position: usize, accs: Seq<AccessView>) -> FlowState
    decreases accs.len(),
{
    if accs.len() == 0 {
        s
    } else {
        escape_access(check_return(s, position, accs.drop_last()), position, accs.last())
    }
}

pub open spec fn close_frame(vars: Seq<Option<VarInfo>>, depth: usize) -> Seq<Option<VarInfo>> {
    Seq::new(
        vars.len(),
        |k: int|
            match vars[k] {
                Some(b) => if b.depth == depth {
                    Some(VarInfo { in_scope: false, ..b })
                } else {
                    Some(b)
                },
                None => None,
            },
    )
}

pub open spec fn malformed(kind: MalformedKind, index: usize) -> Malformed {
    Malformed { kind, index }
}

/// The binding that keeps the references a statement creates: a reference
/// binding being declared, or a reference variable being assigned.
pub open spec fn holder_of(s: FlowState, st: StmtView) -> Option<Holder> {
    match st {
        StmtView::Let { var, ty, .. } => if ty != Ty::Value {
            Some(Holder { var, depth: s.depth })
        } else {
            None
        },
        StmtView::Assign { target, .. } => if target.path.len() == 0 && info(s, target.var).ty
            != Ty::Value {
            Some(Holder { var: target.var, depth: info(s, target.var).depth })
        } else {
            None
        },
        _ => None,
    }
}

pub open spec fn step_stmt(s: FlowState, body: Seq<StmtView>, i: usize) -> Result<FlowState, Malformed> {
    match body[i as int] {
        StmtView::Let { var, mutable, ty, init } => if !all_in_scope(s, init) || var
            >= s.vars.len() {
            Err(malformed(MalformedKind::UnknownVariable, i))
        } else if s.vars[var as int] is Some {
            Err(malformed(MalformedKind::DuplicateBinding, i))
        } else {
            let s1 = run_accesses(s, body, i, holder_of(s, body[i as int]), init);
            let b = VarInfo { mutable, ty, depth: s.depth, in_scope: true };
            Ok(FlowState { vars: s1.vars.update(var as int, Some(b)), ..s1 })
        },
        StmtView::Assign { target, value } => if !all_in_scope(s, value) || !in_scope(
            s,
            target.var,
        ) {
            Err(malformed(MalformedKind::UnknownVariable, i))
        } else {
            let s1 = run_accesses(s, body, i, holder_of(s, body[i as int]), value);
            Ok(check_assign_target(s1, i, target))
        },
        StmtView::Eval(accs) => if !all_in_scope(s, accs) {
            Err(malformed(MalformedKind::UnknownVariable, i))
        } else {
            Ok(run_accesses(s, body, i, None, accs))
        },
        StmtView::Return(accs) => if !all_in_scope(s, accs) {
            Err(malformed(MalformedKind::UnknownVariable, i))
        } else {
            Ok(check_return(run_accesses(s, body, i, None, accs), i, accs))
        },
        StmtView::Open => if s.depth == usize::MAX {
            Err(malformed(MalformedKind::NestingTooDeep, i))
        } else {
            Ok(FlowState { depth: (s.depth + 1) as usize, ..s })
        },
        StmtView::Close => if s.depth <= 1 {
            Err(malformed(MalformedKind::UnbalancedFrame, i))
        } else {
            Ok(
                FlowState {
                    depth: (s.depth - 1) as usize,
                    vars: close_frame(s.vars, s.depth),
                    ..s
                },
            )
        },
    }
}

// ------------------------------------------------------------- functions

pub open spec fn param_ty(c: Contract) -> Ty {
    match c {
        Contract::ByValue => Ty::Value,
        Contract::ReadOnly => Ty::SharedRef,
        Contract::ReadWrite => Ty::MutRef,
    }
}

/// The bindings after declaring `params[0..n]` at depth 0.
pub open spec fn declare_params(params: Seq<Param>, var_count: usize, n: int) -> Result<
    Seq<Option<VarInfo>>,
    Malformed,
>
    decreases n,
{
    if n <= 0 {
        Ok(Seq::new(var_count as nat, |k: int| None))
    } else {
        match declare_params(params, var_count, n - 1) {
            Err(e) => Err(e),
            Ok(vars) => {
                let p = params[n - 1];
                if p.var >= var_count || vars[p.var as int] is Some {
                    Err(malformed(MalformedKind::BadParameter, (n - 1) as usize))
                } else {
                    let b = VarInfo { mutable: p.mutable, ty: param_ty(p.contract), depth: 0, in_scope: true };
                    Ok(vars.update(p.var as int, Some(b)))
                }
            },
        }
    }
}

pub open spec fn initial_state(f: FunctionView) -> Result<FlowState, Malformed> {
    match declare_params(f.params, f.var_count, f.params.len() as int) {
        Err(e) => Err(e),
        Ok(vars) => Ok(
            FlowState { depth: 1, vars, moved: Seq::empty(), loans: Seq::empty(), report: Seq::empty() },
        ),
    }
}

/// The state before statement `n` (after the first `n` statements).
pub open spec fn run(f: FunctionView, n: int) -> Result<FlowState, Malformed>
    decreases n,
{
    if n <= 0 {
        initial_state(f)
    } else {
        match run(f, n - 1) {
            Err(e) => Err(e),
            Ok(s) => step_stmt(s, f.body, (n - 1) as usize),
        }
    }
}

/// The diagnostics of one function, or the malformation that stopped it.
pub open spec fn analysis(f: FunctionView) -> Result<Seq<DiagnosticView>, Malformed> {
    match run(f, f.body.len() as int) {
        Ok(s) => Ok(s.report),
        Err(e) => Err(e),
    }
}

} // verus!

verus! {

/// A malformation stops the analysis: it stays the result from then on.
pub proof fn lemma_run_err_sticks(f: FunctionView, n: int, m: int)
    requires
        0 <= n <= m,
        run(f, n) is Err,
    ensures
        run(f, m) == run(f, n),
    decreases m - n,
{
    if m > n {
        lemma_run_err_sticks(f, n, m - 1);
    }
}

pub proof fn lemma_params_err_sticks(params: Seq<Param>, var_count: usize, n: int, m: int)
    requires
        0 <= n <= m,
        declare_params(params, var_count, n) is Err,
    ensures
        declare_params(params, var_count, m) == declare_params(params, var_count, n),
    decreases m - n,
{
    if m > n {
        lemma_params_err_sticks(params, var_count, n, m - 1);
    }
}

/// Before the first statement, the state is the initial one.
pub proof fn lemma_run_zero_err(f: FunctionView, m: int)
    requires
        0 <= m,
        initial_state(f) is Err,
    ensures
        run(f, m) == initial_state(f),
    decreases m,
{
    if m > 0 {
        lemma_run_zero_err(f, m - 1);
    }
}

} // verus!
