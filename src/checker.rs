//! The executable checker: permission state, loan tracker and reporter of
//! one function, each operation proved equal to its counterpart in
//! `semantics`.
use crate::place::{Place, PlaceView, is_prefix, overlaps};
use crate::program::{Access, Stmt, LoanKind, Ty, body_view, accesses_view};
use crate::semantics::{
    VarInfo, Perms, ViolationKind, LoanView, DiagnosticView, FlowState, Holder, moved_overlap,
    ancestor_moved, first_conflict_from, first_conflict, same_key, record, flag, home, in_scope,
    all_in_scope, mentions, scan_last_use, current, well_nested, check_read, check_write,
    check_move, check_borrow, check_escape_to_holder, step_access, run_accesses, rebind,
    check_assign_target, escape_held, escape_access, check_return, close_frame, step_stmt,
    Malformed, MalformedKind, declared, loans_declared,
};

use vstd::prelude::*;

verus! {

/// A recorded borrow: the place it borrows from, its kind, the statement
/// that opened it, the statement of its last use, and the binding that
/// keeps the reference, if any.
#[derive(Debug)]
pub struct Loan {
    pub place: Place,
    pub kind: LoanKind,
    pub start: usize,
    pub end: usize,
    pub holder: Option<usize>,
}

impl View for Loan {
    type V = LoanView;

    open spec fn view(&self) -> LoanView {
        LoanView {
            place: self.place@,
            kind: self.kind,
            start: self.start,
            end: self.end,
            holder: self.holder,
        }
    }
}

impl Loan {
    pub fn duplicate(&self) -> (r: Loan)
        ensures
            r@ == self@,
    {
        Loan {
            place: self.place.duplicate(),
            kind: self.kind,
            start: self.start,
            end: self.end,
            holder: self.holder,
        }
    }
}

/// One safety violation: its kind, the place, the statement position, and
/// the loan it conflicts with, where there is one.
#[derive(Debug)]
pub struct Diagnostic {
    pub kind: ViolationKind,
    pub place: Place,
    pub position: usize,
    pub note: Option<Loan>,
}

pub open spec fn note_view(n: Option<Loan>) -> Option<LoanView> {
    match n {
        Some(l) => Some(l@),
        None => None,
    }
}

impl View for Diagnostic {
    type V = DiagnosticView;

    open spec fn view(&self) -> DiagnosticView {
        DiagnosticView {
            kind: self.kind,
            place: self.place@,
            position: self.position,
            note: note_view(self.note),
        }
    }
}

pub open spec fn places_view(s: Seq<Place>) -> Seq<PlaceView> {
    s.map_values(|p: Place| p@)
}

pub open spec fn loans_view(s: Seq<Loan>) -> Seq<LoanView> {
    s.map_values(|l: Loan| l@)
}

pub open spec fn diagnostics_view(s: Seq<Diagnostic>) -> Seq<DiagnosticView> {
    s.map_values(|d: Diagnostic| d@)
}

/// Whether two places are the same place.
pub fn same_place(a: &Place, b: &Place) -> (r: bool)
    ensures
        r == (a@ == b@),
{
    let r = a.path.len() == b.path.len() && a.is_prefix_of(b);
    proof {
        assert(b.path@.subrange(0, b.path@.len() as int) =~= b.path@);
        if r {
            assert(a@.path =~= b@.path);
        }
    }
    r
}

/// Whether some access of the list touches variable `v`.
pub fn mentions_var(accs: &Vec<Access>, v: usize) -> (r: bool)
    ensures
        r == mentions(accesses_view(accs@), v),
{
    let mut k: usize = 0;
    while k < accs.len()
        invariant
            k <= accs.len(),
            forall|j: int| 0 <= j < k ==> (#[trigger] accesses_view(accs@)[j]).place().var != v,
        decreases accs.len() - k,
    {
        if accs[k].place().var == v {
            assert(accesses_view(accs@)[k as int].place().var == v);
            return true;
        }
        k = k + 1;
    }
    false
}

/// The position of the last use of the binding `h` that keeps a loan opened
/// at `start`, scanning until its frame closes; `frames` counts the frames
/// opened between the binding's and the loan's.
pub fn last_use(body: &Vec<Stmt>, h: usize, start: usize, frames: usize) -> (r: usize)
    requires
        start < body.len(),
    ensures
        r as int == scan_last_use(body_view(body@), h, start + 1, frames as int, start as int),
        start <= r < body.len(),
{
    let ghost bv = body_view(body@);
    let mut j: usize = start + 1;
    let mut rel: u128 = frames as u128;
    let mut last: usize = start;
    while j < body.len()
        invariant
            bv == body_view(body@),
            start < j <= body.len(),
            start <= last < j,
            rel <= frames + (j - start - 1),
            scan_last_use(bv, h, j as int, rel as int, last as int) == scan_last_use(
                bv,
                h,
                start + 1,
                frames as int,
                start as int,
            ),
        decreases body.len() - j,
    {
        assert(bv[j as int] == body@[j as int]@);
        match &body[j] {
            Stmt::Open => {
                rel = rel + 1;
            },
            Stmt::Close => {
                if rel == 0 {
                    return last;
                }
                rel = rel - 1;
            },
            Stmt::Assign { target, value } => {
                let used = mentions_var(value, h);
                if target.var == h && target.path.len() == 0 {
                    if used {
                        return j;
                    }
                    return last;
                }
                if used || target.var == h {
                    last = j;
                }
            },
            Stmt::Let { init, .. } => {
                if mentions_var(init, h) {
                    last = j;
                }
            },
            Stmt::Eval(a) => {
                if mentions_var(a, h) {
                    last = j;
                }
            },
            Stmt::Return(a) => {
                if mentions_var(a, h) {
                    last = j;
                }
            },
        }
        j = j + 1;
    }
    last
}


/// The permission state, loan tracker and diagnostic reporter of the
/// function under analysis.
pub struct Checker {
    pub depth: usize,
    pub vars: Vec<Option<VarInfo>>,
    pub moved: Vec<Place>,
    pub loans: Vec<Loan>,
    pub report: Vec<Diagnostic>,
}

impl View for Checker {
    type V = FlowState;

    open spec fn view(&self) -> FlowState {
        FlowState {
            depth: self.depth,
            vars: self.vars@,
            moved: places_view(self.moved@),
            loans: loans_view(self.loans@),
            report: diagnostics_view(self.report@),
        }
    }
}

impl Checker {
    /// Whether a moved place overlaps `q`.
    pub fn moved_overlap(&self, q: &Place) -> (r: bool)
        ensures
            r == moved_overlap(self@.moved, q@),
    {
        let mut k: usize = 0;
        while k < self.moved.len()
            invariant
                k <= self.moved.len(),
                forall|j: int| 0 <= j < k ==> !overlaps(#[trigger] places_view(self.moved@)[j], q@),
            decreases self.moved.len() - k,
        {
            if self.moved[k].overlaps(q) {
                assert(overlaps(places_view(self.moved@)[k as int], q@));
                return true;
            }
            k = k + 1;
        }
        false
    }

    /// Whether a strict ancestor of `t` has been moved.
    pub fn ancestor_moved(&self, t: &Place) -> (r: bool)
        ensures
            r == ancestor_moved(self@.moved, t@),
    {
        let mut k: usize = 0;
        while k < self.moved.len()
            invariant
                k <= self.moved.len(),
                forall|j: int|
                    0 <= j < k ==> !(is_prefix(#[trigger] places_view(self.moved@)[j], t@)
                        && places_view(self.moved@)[j].path.len() < t@.path.len()),
            decreases self.moved.len() - k,
        {
            if self.moved[k].path.len() < t.path.len() && self.moved[k].is_prefix_of(t) {
                assert(is_prefix(places_view(self.moved@)[k as int], t@));
                return true;
            }
            k = k + 1;
        }
        false
    }

    /// The index of the earliest loan that conflicts with an access to `q`.
    pub fn first_conflict(&self, q: &Place, position: usize, exclusive_only: bool) -> (r: Option<usize>)
        ensures
            match r {
                Some(k) => first_conflict_from(self@.loans, q@, position, exclusive_only, 0)
                    == Some(k as int),
                None => first_conflict_from(self@.loans, q@, position, exclusive_only, 0) is None,
            },
            r matches Some(k) ==> k < self.loans.len(),
    {
        let ghost loans = self@.loans;
        let mut k: usize = 0;
        while k < self.loans.len()
            invariant
                loans == self@.loans,
                k <= self.loans.len(),
                first_conflict_from(loans, q@, position, exclusive_only, k as int)
                    == first_conflict_from(loans, q@, position, exclusive_only, 0),
            decreases self.loans.len() - k,
        {
            let l = &self.loans[k];
            assert(loans[k as int] == l@);
            if l.end >= position && l.place.overlaps(q) && (!exclusive_only || l.kind
                == LoanKind::Exclusive) {
                return Some(k);
            }
            k = k + 1;
        }
        None
    }

    /// The capabilities `q` has when nothing restricts it.
    pub fn home(&self, q: &Place) -> (r: Perms)
        requires
            in_scope(self@, q.var),
        ensures
            r == home(self@, q@),
    {
        let b = self.vars[q.var].unwrap();
        if q.has_deref() && b.ty != Ty::Value {
            Perms { read: true, write: b.ty == Ty::MutRef, own: false }
        } else {
            Perms { read: true, write: b.mutable, own: true }
        }
    }

    /// The capabilities `q` has at `position`.
    pub fn current(&self, q: &Place, position: usize) -> (r: Perms)
        requires
            in_scope(self@, q.var),
        ensures
            r == current(self@, q@, position),
    {
        let h = self.home(q);
        if self.moved_overlap(q) {
            Perms { read: false, write: false, own: false }
        } else {
            let any = self.first_conflict(q, position, false).is_some();
            let excl = self.first_conflict(q, position, true).is_some();
            Perms { read: h.read && !excl, write: h.write && !any, own: h.own && !any }
        }
    }

    /// Records a diagnostic unless one of the same kind, place and position
    /// is already recorded.
    pub fn record(&mut self, d: Diagnostic)
        ensures
            final(self)@ == (FlowState { report: record(old(self)@.report, d@), ..old(self)@ }),
            final(self).loans == old(self).loans,
            final(self).vars == old(self).vars,
            final(self).moved == old(self).moved,
            final(self).depth == old(self).depth,
    {
        let ghost rep = old(self)@.report;
        let mut k: usize = 0;
        while k < self.report.len()
            invariant
                self == old(self),
                rep == self@.report,
                k <= self.report.len(),
                forall|j: int| 0 <= j < k ==> !same_key(#[trigger] rep[j], d@),
            decreases self.report.len() - k,
        {
            let e = &self.report[k];
            assert(rep[k as int] == e@);
            if e.kind == d.kind && e.position == d.position && same_place(&e.place, &d.place) {
                assert(same_key(rep[k as int], d@));
                return;
            }
            k = k + 1;
        }
        self.report.push(d);
        proof {
            assert(diagnostics_view(self.report@) =~= rep.push(d@));
        }
    }

    /// Records a violation of `kind` at `q`.
    pub fn flag(&mut self, kind: ViolationKind, q: &Place, position: usize, note: Option<Loan>)
        ensures
            final(self)@ == flag(old(self)@, kind, q@, position, note_view(note)),
            final(self).loans == old(self).loans,
            final(self).vars == old(self).vars,
            final(self).moved == old(self).moved,
            final(self).depth == old(self).depth,
    {
        self.record(Diagnostic { kind, place: q.duplicate(), position, note });
    }

    /// The earliest conflicting loan, as a note for a diagnostic.
    pub fn conflict_note(&self, q: &Place, position: usize, exclusive_only: bool) -> (r: Option<Loan>)
        ensures
            note_view(r) == first_conflict(self@.loans, q@, position, exclusive_only),
    {
        match self.first_conflict(q, position, exclusive_only) {
            Some(k) => Some(self.loans[k].duplicate()),
            None => None,
        }
    }

    pub fn check_read(&mut self, position: usize, q: &Place)
        ensures
            final(self)@ == check_read(old(self)@, position, q@),
            final(self).loans == old(self).loans,
            final(self).vars == old(self).vars,
            final(self).depth == old(self).depth,
    {
        if self.moved_overlap(q) {
            self.flag(ViolationKind::UseAfterMove, q, position, None);
        } else {
            let note = self.conflict_note(q, position, true);
            if note.is_some() {
                self.flag(ViolationKind::ReadWhileExclusivelyBorrowed, q, position, note);
            }
        }
    }

    pub fn check_write(&mut self, position: usize, q: &Place)
        requires
            in_scope(old(self)@, q.var),
        ensures
            final(self)@ == check_write(old(self)@, position, q@),
            final(self).loans == old(self).loans,
            final(self).vars == old(self).vars,
            final(self).depth == old(self).depth,
    {
        if self.moved_overlap(q) {
            self.flag(ViolationKind::UseAfterMove, q, position, None);
        } else {
            let note = self.conflict_note(q, position, false);
            if note.is_some() {
                self.flag(ViolationKind::WriteWhileBorrowed, q, position, note);
            } else if !self.home(q).write {
                self.flag(ViolationKind::ImmutableWriteViolation, q, position, None);
            }
        }
    }

    pub fn check_move(&mut self, position: usize, q: &Place)
        requires
            in_scope(old(self)@, q.var),
        ensures
            final(self)@ == check_move(old(self)@, position, q@),
            final(self).loans == old(self).loans,
            final(self).vars == old(self).vars,
            final(self).depth == old(self).depth,
    {
        if self.moved_overlap(q) {
            self.flag(ViolationKind::UseAfterMove, q, position, None);
        } else {
            let note = self.conflict_note(q, position, false);
            if note.is_some() {
                self.flag(ViolationKind::MoveWhileBorrowed, q, position, note);
            } else if !self.home(q).own {
                self.flag(ViolationKind::MoveWhileBorrowed, q, position, None);
            } else {
                let ghost before = places_view(self.moved@);
                self.moved.push(q.duplicate());
                proof {
                    assert(places_view(self.moved@) =~= before.push(q@));
                }
            }
        }
    }

    pub fn check_borrow(
        &mut self,
        body: &Vec<Stmt>,
        position: usize,
        holder: Option<Holder>,
        q: &Place,
        kind: LoanKind,
    )
        requires
            in_scope(old(self)@, q.var),
            position < body.len(),
            holder matches Some(h) ==> h.depth <= old(self)@.depth,
        ensures
            final(self)@ == check_borrow(old(self)@, body_view(body@), position, holder, q@, kind),
            loans_declared(old(self)@) ==> loans_declared(final(self)@),
            final(self).vars == old(self).vars,
            final(self).depth == old(self).depth,
    {
        if self.moved_overlap(q) {
            self.flag(ViolationKind::UseAfterMove, q, position, None);
        } else {
            let note = self.conflict_note(q, position, kind == LoanKind::Shared);
            if note.is_some() {
                self.flag(ViolationKind::ConflictingExclusiveBorrow, q, position, note);
            } else if kind == LoanKind::Exclusive && !self.home(q).write {
                self.flag(ViolationKind::ImmutableWriteViolation, q, position, None);
            } else {
                let (end, keeper) = match holder {
                    Some(h) => (last_use(body, h.var, position, self.depth - h.depth), Some(h.var)),
                    None => (position, None),
                };
                let ghost before = loans_view(self.loans@);
                let loan = Loan { place: q.duplicate(), kind, start: position, end, holder: keeper };
                self.loans.push(loan);
                proof {
                    assert(loans_view(self.loans@) =~= before.push(loan@));
                }
            }
        }
    }

    pub fn check_escape_to_holder(&mut self, position: usize, holder: Option<Holder>, q: &Place)
        requires
            in_scope(old(self)@, q.var),
        ensures
            final(self)@ == check_escape_to_holder(old(self)@, position, holder, q@),
            final(self).loans == old(self).loans,
            final(self).vars == old(self).vars,
            final(self).depth == old(self).depth,
    {
        if let Some(h) = holder {
            let b = self.vars[q.var].unwrap();
            let behind = q.has_deref() && b.ty != Ty::Value;
            if !behind && b.depth > h.depth {
                self.flag(ViolationKind::DanglingReference, q, position, None);
            }
        }
    }

    /// Checks one access and applies its effect.
    pub fn step_access(&mut self, body: &Vec<Stmt>, position: usize, holder: Option<Holder>, a: &Access)
        requires
            in_scope(old(self)@, a@.place().var),
            position < body.len(),
            holder matches Some(h) ==> h.depth <= old(self)@.depth,
        ensures
            final(self)@ == step_access(old(self)@, body_view(body@), position, holder, a@),
            loans_declared(old(self)@) ==> loans_declared(final(self)@),
            final(self)@.vars == old(self)@.vars,
            final(self)@.depth == old(self)@.depth,
    {
        match a {
            Access::Read(q) => self.check_read(position, q),
            Access::Write(q) => self.check_write(position, q),
            Access::Consume { place, copyable } => {
                if *copyable {
                    self.check_read(position, place);
                } else {
                    self.check_move(position, place);
                }
            },
            Access::Borrow { place, kind } => {
                self.check_borrow(body, position, holder, place, *kind);
                self.check_escape_to_holder(position, holder, place);
            },
        }
    }

    /// Checks the accesses of one statement in order.
    pub fn run_accesses(&mut self, body: &Vec<Stmt>, position: usize, holder: Option<Holder>, accs: &Vec<Access>)
        requires
            all_in_scope(old(self)@, accesses_view(accs@)),
            position < body.len(),
            holder matches Some(h) ==> h.depth <= old(self)@.depth,
        ensures
            final(self)@ == run_accesses(old(self)@, body_view(body@), position, holder, accesses_view(accs@)),
            loans_declared(old(self)@) ==> loans_declared(final(self)@),
            final(self)@.vars == old(self)@.vars,
            final(self)@.depth == old(self)@.depth,
    {
        let ghost av = accesses_view(accs@);
        let mut k: usize = 0;
        while k < accs.len()
            invariant
                av == accesses_view(accs@),
                k <= accs.len(),
                position < body.len(),
                holder matches Some(h) ==> h.depth <= old(self)@.depth,
                all_in_scope(old(self)@, av),
                self@.vars == old(self)@.vars,
                self@.depth == old(self)@.depth,
                loans_declared(old(self)@) ==> loans_declared(self@),
                self@ == run_accesses(old(self)@, body_view(body@), position, holder, av.take(k as int)),
            decreases accs.len() - k,
        {
            proof {
                assert(av.take(k + 1).drop_last() =~= av.take(k as int));
                assert(av.take(k + 1).last() == accs@[k as int]@);
                assert(in_scope(old(self)@, av[k as int].place().var));
            }
            self.step_access(body, position, holder, &accs[k]);
            k = k + 1;
        }
        proof {
            assert(av.take(accs.len() as int) =~= av);
        }
    }

    /// Drops the moved places that an assignment to `t` binds anew.
    pub fn rebind(&mut self, t: &Place)
        ensures
            final(self)@ == (FlowState { moved: rebind(old(self)@.moved, t@), ..old(self)@ }),
            final(self).loans == old(self).loans,
            final(self).vars == old(self).vars,
            final(self).depth == old(self).depth,
    {
        let ghost mv = old(self)@.moved;
        let mut kept: Vec<Place> = Vec::new();
        let mut k: usize = 0;
        while k < self.moved.len()
            invariant
                self == old(self),
                mv == self@.moved,
                k <= self.moved.len(),
                places_view(kept@) == rebind(mv.take(k as int), t@),
            decreases self.moved.len() - k,
        {
            proof {
                assert(mv.take(k + 1).drop_last() =~= mv.take(k as int));
                assert(mv.take(k + 1).last() == self.moved@[k as int]@);
            }
            if !t.is_prefix_of(&self.moved[k]) {
                let ghost before = places_view(kept@);
                kept.push(self.moved[k].duplicate());
                proof {
                    assert(places_view(kept@) =~= before.push(self.moved@[k as int]@));
                }
            }
            k = k + 1;
        }
        proof {
            assert(mv.take(self.moved.len() as int) =~= mv);
        }
        self.moved = kept;
    }

    pub fn check_assign_target(&mut self, position: usize, t: &Place)
        requires
            in_scope(old(self)@, t.var),
        ensures
            final(self)@ == check_assign_target(old(self)@, position, t@),
            final(self).loans == old(self).loans,
            final(self).vars == old(self).vars,
            final(self).depth == old(self).depth,
    {
        if self.ancestor_moved(t) {
            self.flag(ViolationKind::UseAfterMove, t, position, None);
        } else {
            let note = self.conflict_note(t, position, false);
            if note.is_some() {
                self.flag(ViolationKind::WriteWhileBorrowed, t, position, note);
            } else if !self.home(t).write {
                self.flag(ViolationKind::ImmutableWriteViolation, t, position, None);
            } else {
                self.rebind(t);
            }
        }
    }

    /// Reports the loans kept by `h` that point into this function's frames.
    pub fn escape_held(&mut self, position: usize, h: usize)
        requires
            loans_declared(old(self)@),
        ensures
            final(self)@ == escape_held(old(self)@, position, h, old(self)@.loans.len() as int),
            final(self).loans == old(self).loans,
            final(self).vars == old(self).vars,
            final(self).depth == old(self).depth,
    {
        let ghost s0 = old(self)@;
        let mut n: usize = 0;
        while n < self.loans.len()
            invariant
                n <= self.loans.len(),
                s0 == old(self)@,
                self.loans == old(self).loans,
                self.vars == old(self).vars,
                self.depth == old(self).depth,
                loans_declared(s0),
                self@ == escape_held(s0, position, h, n as int),
            decreases self.loans.len() - n,
        {
            assert(s0.loans[n as int] == self.loans@[n as int]@);
            assert(declared(s0, s0.loans[n as int].place.var));
            let b = self.vars[self.loans[n].place.var].unwrap();
            let behind = self.loans[n].place.has_deref() && b.ty != Ty::Value;
            if self.loans[n].holder == Some(h) && !behind {
                let q = self.loans[n].place.duplicate();
                self.flag(ViolationKind::DanglingReference, &q, position, None);
            }
            n = n + 1;
        }
    }

    pub fn escape_access(&mut self, position: usize, a: &Access)
        requires
            declared(old(self)@, a@.place().var),
            loans_declared(old(self)@),
        ensures
            final(self)@ == escape_access(old(self)@, position, a@),
            final(self).loans == old(self).loans,
            final(self).vars == old(self).vars,
            final(self).depth == old(self).depth,
    {
        match a {
            Access::Borrow { place, .. } => {
                let b = self.vars[place.var].unwrap();
                let behind = place.has_deref() && b.ty != Ty::Value;
                if !behind {
                    self.flag(ViolationKind::DanglingReference, place, position, None);
                }
            },
            Access::Write(_) => {},
            _ => {
                let q = a.place();
                if q.path.len() == 0 {
                    self.escape_held(position, q.var);
                }
            },
        }
    }

    /// The escape checks of a `return` over its accesses.
    pub fn check_return(&mut self, position: usize, accs: &Vec<Access>)
        requires
            all_in_scope(old(self)@, accesses_view(accs@)),
            loans_declared(old(self)@),
        ensures
            final(self)@ == check_return(old(self)@, position, accesses_view(accs@)),
            final(self).loans == old(self).loans,
            final(self).vars == old(self).vars,
            final(self).depth == old(self).depth,
    {
        let ghost av = accesses_view(accs@);
        let ghost s0 = old(self)@;
        let mut k: usize = 0;
        while k < accs.len()
            invariant
                av == accesses_view(accs@),
                k <= accs.len(),
                all_in_scope(s0, av),
                s0 == old(self)@,
                self.loans == old(self).loans,
                self.vars == old(self).vars,
                self.depth == old(self).depth,
                loans_declared(s0),
                self@ == check_return(s0, position, av.take(k as int)),
            decreases accs.len() - k,
        {
            proof {
                assert(av.take(k + 1).drop_last() =~= av.take(k as int));
                assert(av.take(k + 1).last() == accs@[k as int]@);
                assert(in_scope(s0, av[k as int].place().var));
            }
            assert(self@.vars == s0.vars);
            self.escape_access(position, &accs[k]);
            k = k + 1;
        }
        proof {
            assert(av.take(accs.len() as int) =~= av);
        }
    }

    /// Leaves the innermost frame: its bindings go out of scope.
    pub fn close_frame(&mut self)
        ensures
            final(self)@ == (FlowState { vars: close_frame(old(self)@.vars, old(self)@.depth), ..old(self)@ }),
    {
        let ghost target = close_frame(old(self)@.vars, old(self)@.depth);
        let mut k: usize = 0;
        while k < self.vars.len()
            invariant
                k <= self.vars.len(),
                self.vars.len() == old(self).vars.len(),
                self.depth == old(self).depth,
                self.moved == old(self).moved,
                self.loans == old(self).loans,
                self.report == old(self).report,
                target == close_frame(old(self)@.vars, old(self)@.depth),
                forall|j: int| 0 <= j < k ==> self.vars@[j] == target[j],
                forall|j: int| k <= j < self.vars.len() ==> self.vars@[j] == old(self).vars@[j],
            decreases self.vars.len() - k,
        {
            if let Some(b) = self.vars[k] {
                if b.depth == self.depth {
                    self.vars.set(k, Some(VarInfo { in_scope: false, ..b }));
                }
            }
            k = k + 1;
        }
        proof {
            assert(self.vars@ =~= target);
        }
    }

    /// Whether every access of the list touches a binding in scope.
    pub fn all_in_scope(&self, accs: &Vec<Access>) -> (r: bool)
        ensures
            r == all_in_scope(self@, accesses_view(accs@)),
    {
        let ghost av = accesses_view(accs@);
        let mut k: usize = 0;
        while k < accs.len()
            invariant
                av == accesses_view(accs@),
                k <= accs.len(),
                forall|j: int| 0 <= j < k ==> in_scope(self@, #[trigger] av[j].place().var),
            decreases accs.len() - k,
        {
            let v = accs[k].place().var;
            assert(av[k as int].place().var == v);
            if !self.in_scope(v) {
                return false;
            }
            k = k + 1;
        }
        true
    }

    pub fn in_scope(&self, v: usize) -> (r: bool)
        ensures
            r == in_scope(self@, v),
    {
        v < self.vars.len() && match self.vars[v] {
            Some(b) => b.in_scope,
            None => false,
        }
    }

    /// Checks one statement and applies its effect, or reports the
    /// malformation that stops the analysis.
    pub fn step_stmt(&mut self, body: &Vec<Stmt>, i: usize) -> (r: Result<(), Malformed>)
        requires
            i < body.len(),
            well_nested(old(self)@),
            loans_declared(old(self)@),
        ensures
            match step_stmt(old(self)@, body_view(body@), i) {
                Ok(s) => r is Ok && final(self)@ == s && well_nested(s) && loans_declared(s),
                Err(e) => r == Err::<(), Malformed>(e),
            },
    {
        let ghost s0 = old(self)@;
        assert(body_view(body@)[i as int] == body@[i as int]@);
        match &body[i] {
            Stmt::Let { var, mutable, ty, init } => {
                if !self.all_in_scope(init) || *var >= self.vars.len() {
                    return Err(Malformed { kind: MalformedKind::UnknownVariable, index: i });
                }
                if self.vars[*var].is_some() {
                    return Err(Malformed { kind: MalformedKind::DuplicateBinding, index: i });
                }
                let holder = if *ty != Ty::Value {
                    Some(Holder { var: *var, depth: self.depth })
                } else {
                    None
                };
                self.run_accesses(body, i, holder, init);
                let b = VarInfo { mutable: *mutable, ty: *ty, depth: self.depth, in_scope: true };
                self.vars.set(*var, Some(b));
                Ok(())
            },
            Stmt::Assign { target, value } => {
                if !self.all_in_scope(value) || !self.in_scope(target.var) {
                    return Err(Malformed { kind: MalformedKind::UnknownVariable, index: i });
                }
                let b = self.vars[target.var].unwrap();
                let holder = if target.path.len() == 0 && b.ty != Ty::Value {
                    Some(Holder { var: target.var, depth: b.depth })
                } else {
                    None
                };
                self.run_accesses(body, i, holder, value);
                self.check_assign_target(i, target);
                Ok(())
            },
            Stmt::Eval(accs) => {
                if !self.all_in_scope(accs) {
                    return Err(Malformed { kind: MalformedKind::UnknownVariable, index: i });
                }
                self.run_accesses(body, i, None, accs);
                Ok(())
            },
            Stmt::Return(accs) => {
                if !self.all_in_scope(accs) {
                    return Err(Malformed { kind: MalformedKind::UnknownVariable, index: i });
                }
                self.run_accesses(body, i, None, accs);
                self.check_return(i, accs);
                Ok(())
            },
            Stmt::Open => {
                if self.depth == usize::MAX {
                    return Err(Malformed { kind: MalformedKind::NestingTooDeep, index: i });
                }
                self.depth = self.depth + 1;
                Ok(())
            },
            Stmt::Close => {
                if self.depth <= 1 {
                    return Err(Malformed { kind: MalformedKind::UnbalancedFrame, index: i });
                }
                self.close_frame();
                self.depth = self.depth - 1;
                Ok(())
            },
        }
    }
}

} // verus!
