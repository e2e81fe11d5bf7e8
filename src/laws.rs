//! What holds of every analysis: the laws of moves, loans and reports,
//! proved over the semantics.
use crate::place::{PlaceView, Proj, is_prefix, overlaps};
use crate::program::{AccessView, StmtView, FunctionView, LoanKind};
use crate::semantics::{
    FlowState, DiagnosticView, LoanView, Holder, ViolationKind, same_key, has_key, record, flag,
    moved_overlap, ancestor_moved, conflicts, first_conflict_from, first_conflict, check_read,
    check_write, check_move, check_borrow, check_escape_to_holder, step_access, run_accesses,
    rebind, check_assign_target, escape_held, escape_access, check_return, step_stmt, run,
    analysis, home, holder_of, lemma_run_err_sticks, initial_state,
};
use vstd::prelude::*;

verus! {

// ------------------------------------------------------------ vocabulary

/// No two diagnostics share kind, place and position.
pub open spec fn keys_unique(r: Seq<DiagnosticView>) -> bool {
    forall|a: int, b: int| 0 <= a < b < r.len() ==> !same_key(#[trigger] r[a], #[trigger] r[b])
}

/// Diagnostics come in nondecreasing statement order.
pub open spec fn in_position_order(r: Seq<DiagnosticView>) -> bool {
    forall|a: int, b: int| 0 <= a < b < r.len() ==> (#[trigger] r[a]).position <= (#[trigger] r[b]).position
}

/// `b` keeps `a` as its beginning; what it adds carries positions in
/// `lo..hi`; and it stays free of repeated keys if `a` was.
pub open spec fn grows(a: Seq<DiagnosticView>, b: Seq<DiagnosticView>, lo: int, hi: int) -> bool {
    &&& a.len() <= b.len()
    &&& b.subrange(0, a.len() as int) == a
    &&& forall|k: int| a.len() <= k < b.len() ==> lo <= (#[trigger] b[k]).position < hi
    &&& keys_unique(a) ==> keys_unique(b)
}

/// `b` keeps the loans of `a` as its beginning.
pub open spec fn keeps_loans(a: Seq<LoanView>, b: Seq<LoanView>) -> bool {
    a.len() <= b.len() && b.subrange(0, a.len() as int) == a
}

/// No loan that is live at `position` borrows from a moved place.
pub open spec fn live_unmoved(s: FlowState, position: usize) -> bool {
    forall|k: int|
        0 <= k < s.loans.len() && (#[trigger] s.loans[k]).end >= position ==> !moved_overlap(
            s.moved,
            s.loans[k].place,
        )
}

/// A by-value use, not a copy, of a place overlapping `q`.
pub open spec fn moves_overlapping(accs: Seq<AccessView>, q: PlaceView) -> bool {
    exists|k: int|
        0 <= k < accs.len() && (#[trigger] accs[k]) is Consume && !accs[k]->copyable && overlaps(
            accs[k]->Consume_place,
            q,
        )
}

/// Every place moved in `b` was moved in `a` or is moved by one of `accs`.
pub open spec fn moved_from(a: Seq<PlaceView>, b: Seq<PlaceView>, accs: Seq<AccessView>) -> bool {
    forall|j: int|
        0 <= j < b.len() ==> a.contains(#[trigger] b[j]) || exists|k: int|
            0 <= k < accs.len() && accs[k] == (AccessView::Consume { place: b[j], copyable: false })
}

/// Every use-after-move added between `a` and `b` is on a place overlapping
/// one moved in `moved` or moved by one of `accs`.
pub open spec fn uam_explained(
    a: Seq<DiagnosticView>,
    b: Seq<DiagnosticView>,
    moved: Seq<PlaceView>,
    accs: Seq<AccessView>,
) -> bool {
    forall|k: int|
        a.len() <= k < b.len() && (#[trigger] b[k]).kind == ViolationKind::UseAfterMove
            ==> moved_overlap(moved, b[k].place) || moves_overlapping(accs, b[k].place)
}

// ---------------------------------------------------------- basic lemmas

pub proof fn lemma_overlaps_self(x: PlaceView)
    ensures
        is_prefix(x, x),
        overlaps(x, x),
{
    assert(x.path.subrange(0, x.path.len() as int) =~= x.path);
}

pub proof fn lemma_record(r: Seq<DiagnosticView>, d: DiagnosticView)
    ensures
        grows(r, record(r, d), d.position as int, d.position + 1),
        record(r, d) == r || record(r, d) == r.push(d),
{
    let t = record(r, d);
    assert(t.subrange(0, r.len() as int) =~= r);
    if !has_key(r, d) && keys_unique(r) {
        assert forall|a: int, b: int| 0 <= a < b < t.len() implies !same_key(#[trigger] t[a], #[trigger] t[b]) by {
            if b == r.len() {
                assert(t[a] == r[a]);
                if same_key(t[a], t[b]) {
                    assert(same_key(r[a], d));
                }
            }
        }
    }
}

pub proof fn lemma_grows_trans(
    a: Seq<DiagnosticView>,
    b: Seq<DiagnosticView>,
    c: Seq<DiagnosticView>,
    lo: int,
    hi: int,
)
    requires
        grows(a, b, lo, hi),
        grows(b, c, lo, hi),
    ensures
        grows(a, c, lo, hi),
{
    assert forall|k: int| 0 <= k < a.len() implies c[k] == b[k] by {
        assert(c.subrange(0, b.len() as int)[k] == c[k]);
    }
    assert(c.subrange(0, a.len() as int) =~= b.subrange(0, a.len() as int));
    assert(b.subrange(0, a.len() as int) == a);
    assert forall|k: int| a.len() <= k < c.len() implies lo <= (#[trigger] c[k]).position < hi by {
        if k < b.len() {
            assert(c.subrange(0, b.len() as int)[k] == c[k]);
            assert(c[k] == b[k]);
        }
    }
}

pub proof fn lemma_grows_refl(a: Seq<DiagnosticView>, lo: int, hi: int)
    ensures
        grows(a, a, lo, hi),
{
    assert(a.subrange(0, a.len() as int) =~= a);
}

pub proof fn lemma_grows_widen(a: Seq<DiagnosticView>, b: Seq<DiagnosticView>, lo: int, hi: int, lo2: int, hi2: int)
    requires
        grows(a, b, lo, hi),
        lo2 <= lo,
        hi <= hi2,
    ensures
        grows(a, b, lo2, hi2),
{
}

pub proof fn lemma_keeps_loans_trans(a: Seq<LoanView>, b: Seq<LoanView>, c: Seq<LoanView>)
    requires
        keeps_loans(a, b),
        keeps_loans(b, c),
    ensures
        keeps_loans(a, c),
{
    assert(c.subrange(0, a.len() as int) =~= b.subrange(0, a.len() as int));
}

pub proof fn lemma_keeps_loans_refl(a: Seq<LoanView>)
    ensures
        keeps_loans(a, a),
{
    assert(a.subrange(0, a.len() as int) =~= a);
}

/// The first conflicting loan is a conflicting loan, and there is none
/// exactly when no loan conflicts.
pub proof fn lemma_first_conflict(
    loans: Seq<LoanView>,
    q: PlaceView,
    position: usize,
    exclusive_only: bool,
    k: int,
)
    requires
        0 <= k <= loans.len(),
    ensures
        match first_conflict_from(loans, q, position, exclusive_only, k) {
            Some(j) => k <= j < loans.len() && conflicts(loans[j], q, position, exclusive_only),
            None => forall|j: int|
                k <= j < loans.len() ==> !conflicts(#[trigger] loans[j], q, position, exclusive_only),
        },
    decreases loans.len() - k,
{
    if k < loans.len() {
        lemma_first_conflict(loans, q, position, exclusive_only, k + 1);
    }
}

/// Rebinding only drops moved places, and keeps those the target does not
/// cover.
pub proof fn lemma_rebind(moved: Seq<PlaceView>, t: PlaceView)
    ensures
        forall|j: int| 0 <= j < rebind(moved, t).len() ==> moved.contains(#[trigger] rebind(moved, t)[j]),
        forall|x: PlaceView| moved.contains(x) && !is_prefix(t, x) ==> #[trigger] rebind(moved, t).contains(x),
    decreases moved.len(),
{
    if moved.len() > 0 {
        let init = moved.drop_last();
        lemma_rebind(init, t);
        let r = rebind(moved, t);
        assert forall|j: int| 0 <= j < r.len() implies moved.contains(#[trigger] r[j]) by {
            if j < rebind(init, t).len() {
                assert(init.contains(r[j]));
                let w = choose|w: int| 0 <= w < init.len() && init[w] == r[j];
                assert(moved[w] == r[j]);
            } else {
                assert(moved[moved.len() - 1] == r[j]);
            }
        }
        assert forall|x: PlaceView| moved.contains(x) && !is_prefix(t, x) implies #[trigger] rebind(moved, t).contains(x) by {
            let w = choose|w: int| 0 <= w < moved.len() && moved[w] == x;
            if w < moved.len() - 1 {
                assert(init[w] == x);
                assert(rebind(init, t).contains(x));
                let v = choose|v: int| 0 <= v < rebind(init, t).len() && rebind(init, t)[v] == x;
                assert(r[v] == x);
            } else {
                assert(r[r.len() - 1] == x);
            }
        }
    }
}

pub proof fn lemma_has_key_kept(a: Seq<DiagnosticView>, b: Seq<DiagnosticView>, lo: int, hi: int, d: DiagnosticView)
    requires
        grows(a, b, lo, hi),
        has_key(a, d),
    ensures
        has_key(b, d),
{
    let k = choose|k: int| 0 <= k < a.len() && same_key(a[k], d);
    assert(b.subrange(0, a.len() as int)[k] == b[k]);
}

// ---------------------------------------------------------- access steps

/// What every access step keeps: the report grows at this position, the
/// bindings and frames stay, loans are only added, live loans stay over
/// unmoved places, and each new use-after-move is on a moved place.
pub open spec fn access_step_ok(s: FlowState, t: FlowState, position: usize) -> bool {
    &&& grows(s.report, t.report, position as int, position + 1)
    &&& t.vars == s.vars
    &&& t.depth == s.depth
    &&& keeps_loans(s.loans, t.loans)
    &&& live_unmoved(s, position) ==> live_unmoved(t, position)
    &&& forall|k: int|
        s.report.len() <= k < t.report.len() && (#[trigger] t.report[k]).kind
            == ViolationKind::UseAfterMove ==> moved_overlap(s.moved, t.report[k].place)
}

pub proof fn lemma_flag(s: FlowState, kind: ViolationKind, q: PlaceView, position: usize, note: Option<LoanView>)
    requires
        kind == ViolationKind::UseAfterMove ==> moved_overlap(s.moved, q),
    ensures
        access_step_ok(s, flag(s, kind, q, position, note), position),
        flag(s, kind, q, position, note).moved == s.moved,
        flag(s, kind, q, position, note).loans == s.loans,
        has_key(flag(s, kind, q, position, note).report, DiagnosticView { kind, place: q, position, note }),
{
    let d = DiagnosticView { kind, place: q, position, note };
    lemma_record(s.report, d);
    lemma_keeps_loans_refl(s.loans);
    let t = flag(s, kind, q, position, note);
    if !has_key(s.report, d) {
        assert(same_key(t.report[t.report.len() - 1], d));
        assert forall|k: int|
            s.report.len() <= k < t.report.len() && (#[trigger] t.report[k]).kind
                == ViolationKind::UseAfterMove implies moved_overlap(s.moved, t.report[k].place) by {
            assert(t.report[k] == d);
        }
    }
}

pub proof fn lemma_check_read(s: FlowState, position: usize, q: PlaceView)
    ensures
        access_step_ok(s, check_read(s, position, q), position),
        check_read(s, position, q).moved == s.moved,
        moved_overlap(s.moved, q) ==> has_key(
            check_read(s, position, q).report,
            DiagnosticView { kind: ViolationKind::UseAfterMove, place: q, position, note: None },
        ),
{
    lemma_keeps_loans_refl(s.loans);
    lemma_grows_refl(s.report, position as int, position + 1);
    if moved_overlap(s.moved, q) {
        lemma_flag(s, ViolationKind::UseAfterMove, q, position, None);
    } else {
        match first_conflict(s.loans, q, position, true) {
            Some(l) => {
                lemma_flag(s, ViolationKind::ReadWhileExclusivelyBorrowed, q, position, Some(l));
            },
            None => {},
        }
    }
}

pub proof fn lemma_check_write(s: FlowState, position: usize, q: PlaceView)
    ensures
        access_step_ok(s, check_write(s, position, q), position),
        check_write(s, position, q).moved == s.moved,
        moved_overlap(s.moved, q) ==> has_key(
            check_write(s, position, q).report,
            DiagnosticView { kind: ViolationKind::UseAfterMove, place: q, position, note: None },
        ),
{
    lemma_keeps_loans_refl(s.loans);
    lemma_grows_refl(s.report, position as int, position + 1);
    if moved_overlap(s.moved, q) {
        lemma_flag(s, ViolationKind::UseAfterMove, q, position, None);
    } else {
        match first_conflict(s.loans, q, position, false) {
            Some(l) => {
                lemma_flag(s, ViolationKind::WriteWhileBorrowed, q, position, Some(l));
            },
            None => if !home(s, q).write {
                lemma_flag(s, ViolationKind::ImmutableWriteViolation, q, position, None);
            },
        }
    }
}

pub proof fn lemma_check_move(s: FlowState, position: usize, q: PlaceView)
    ensures
        access_step_ok(s, check_move(s, position, q), position),
        check_move(s, position, q).moved == s.moved || check_move(s, position, q).moved == s.moved.push(q),
        moved_overlap(s.moved, q) ==> has_key(
            check_move(s, position, q).report,
            DiagnosticView { kind: ViolationKind::UseAfterMove, place: q, position, note: None },
        ),
{
    lemma_keeps_loans_refl(s.loans);
    lemma_grows_refl(s.report, position as int, position + 1);
    if moved_overlap(s.moved, q) {
        lemma_flag(s, ViolationKind::UseAfterMove, q, position, None);
    } else {
        match first_conflict(s.loans, q, position, false) {
            Some(l) => {
                lemma_flag(s, ViolationKind::MoveWhileBorrowed, q, position, Some(l));
            },
            None => if !home(s, q).own {
                lemma_flag(s, ViolationKind::MoveWhileBorrowed, q, position, None);
            } else {
                lemma_first_conflict(s.loans, q, position, false, 0);
                let t = check_move(s, position, q);
                if live_unmoved(s, position) {
                    assert forall|k: int|
                        0 <= k < t.loans.len() && (#[trigger] t.loans[k]).end >= position implies !moved_overlap(
                        t.moved,
                        t.loans[k].place,
                    ) by {
                        assert(!conflicts(s.loans[k], q, position, false));
                        if moved_overlap(t.moved, t.loans[k].place) {
                            let j = choose|j: int| 0 <= j < t.moved.len() && overlaps(#[trigger] t.moved[j], t.loans[k].place);
                            if j < s.moved.len() {
                                assert(s.moved[j] == t.moved[j]);
                            }
                        }
                    }
                }
            },
        }
    }
}

pub proof fn lemma_check_borrow(
    s: FlowState,
    body: Seq<StmtView>,
    position: usize,
    holder: Option<Holder>,
    q: PlaceView,
    kind: LoanKind,
)
    ensures
        access_step_ok(s, check_borrow(s, body, position, holder, q, kind), position),
        check_borrow(s, body, position, holder, q, kind).moved == s.moved,
        moved_overlap(s.moved, q) ==> has_key(
            check_borrow(s, body, position, holder, q, kind).report,
            DiagnosticView { kind: ViolationKind::UseAfterMove, place: q, position, note: None },
        ),
{
    lemma_keeps_loans_refl(s.loans);
    lemma_grows_refl(s.report, position as int, position + 1);
    if moved_overlap(s.moved, q) {
        lemma_flag(s, ViolationKind::UseAfterMove, q, position, None);
    } else {
        match first_conflict(s.loans, q, position, kind == LoanKind::Shared) {
            Some(l) => {
                lemma_flag(s, ViolationKind::ConflictingExclusiveBorrow, q, position, Some(l));
            },
            None => if kind == LoanKind::Exclusive && !home(s, q).write {
                lemma_flag(s, ViolationKind::ImmutableWriteViolation, q, position, None);
            } else {
                let t = check_borrow(s, body, position, holder, q, kind);
                assert(t.loans.subrange(0, s.loans.len() as int) =~= s.loans);
                if live_unmoved(s, position) {
                    assert forall|k: int|
                        0 <= k < t.loans.len() && (#[trigger] t.loans[k]).end >= position implies !moved_overlap(
                        t.moved,
                        t.loans[k].place,
                    ) by {
                        if k < s.loans.len() {
                            assert(t.loans[k] == s.loans[k]);
                        }
                    }
                }
            },
        }
    }
}

pub proof fn lemma_check_escape_to_holder(s: FlowState, position: usize, holder: Option<Holder>, q: PlaceView)
    ensures
        access_step_ok(s, check_escape_to_holder(s, position, holder, q), position),
        check_escape_to_holder(s, position, holder, q).moved == s.moved,
        check_escape_to_holder(s, position, holder, q).loans == s.loans,
{
    lemma_keeps_loans_refl(s.loans);
    lemma_grows_refl(s.report, position as int, position + 1);
    match holder {
        Some(h) => if !crate::semantics::behind_reference(s, q) && crate::semantics::info(s, q.var).depth > h.depth {
            lemma_flag(s, ViolationKind::DanglingReference, q, position, None);
        },
        None => {},
    }
}

/// Two access steps at one position compose.
pub proof fn lemma_access_step_trans(a: FlowState, b: FlowState, c: FlowState, position: usize)
    requires
        access_step_ok(a, b, position),
        access_step_ok(b, c, position),
        forall|j: int| 0 <= j < b.moved.len() ==> a.moved.contains(#[trigger] b.moved[j]),
    ensures
        access_step_ok(a, c, position),
{
    lemma_grows_trans(a.report, b.report, c.report, position as int, position + 1);
    lemma_keeps_loans_trans(a.loans, b.loans, c.loans);
    assert forall|k: int|
        a.report.len() <= k < c.report.len() && (#[trigger] c.report[k]).kind
            == ViolationKind::UseAfterMove implies moved_overlap(a.moved, c.report[k].place) by {
        if k < b.report.len() {
            assert(c.report.subrange(0, b.report.len() as int)[k] == c.report[k]);
            assert(b.report[k] == c.report[k]);
        } else {
            let j = choose|j: int| 0 <= j < b.moved.len() && overlaps(#[trigger] b.moved[j], c.report[k].place);
            assert(a.moved.contains(b.moved[j]));
            let w = choose|w: int| 0 <= w < a.moved.len() && a.moved[w] == b.moved[j];
            assert(overlaps(a.moved[w], c.report[k].place));
        }
    }
}

pub proof fn lemma_step_access(s: FlowState, body: Seq<StmtView>, position: usize, holder: Option<Holder>, a: AccessView)
    ensures
        access_step_ok(s, step_access(s, body, position, holder, a), position),
        step_access(s, body, position, holder, a).moved == s.moved || (a is Consume && !a->copyable
            && step_access(s, body, position, holder, a).moved == s.moved.push(a->Consume_place)),
        moved_overlap(s.moved, a.place()) ==> has_key(
            step_access(s, body, position, holder, a).report,
            DiagnosticView { kind: ViolationKind::UseAfterMove, place: a.place(), position, note: None },
        ),
{
    match a {
        AccessView::Read(q) => lemma_check_read(s, position, q),
        AccessView::Write(q) => lemma_check_write(s, position, q),
        AccessView::Consume { place, copyable } => if copyable {
            lemma_check_read(s, position, place);
        } else {
            lemma_check_move(s, position, place);
        },
        AccessView::Borrow { place, kind } => {
            let b = check_borrow(s, body, position, holder, place, kind);
            lemma_check_borrow(s, body, position, holder, place, kind);
            lemma_check_escape_to_holder(b, position, holder, place);
            assert forall|j: int| 0 <= j < b.moved.len() implies s.moved.contains(#[trigger] b.moved[j]) by {
                assert(s.moved[j] == b.moved[j]);
            }
            lemma_access_step_trans(s, b, check_escape_to_holder(b, position, holder, place), position);
            if moved_overlap(s.moved, place) {
                lemma_has_key_kept(
                    b.report,
                    check_escape_to_holder(b, position, holder, place).report,
                    position as int,
                    position + 1,
                    DiagnosticView { kind: ViolationKind::UseAfterMove, place, position, note: None },
                );
            }
        },
    }
}

/// What a run of accesses at one position keeps.
pub open spec fn accesses_ok(s: FlowState, t: FlowState, position: usize, accs: Seq<AccessView>) -> bool {
    &&& grows(s.report, t.report, position as int, position + 1)
    &&& t.vars == s.vars
    &&& t.depth == s.depth
    &&& keeps_loans(s.loans, t.loans)
    &&& live_unmoved(s, position) ==> live_unmoved(t, position)
    &&& moved_from(s.moved, t.moved, accs)
    &&& forall|x: PlaceView| s.moved.contains(x) ==> #[trigger] t.moved.contains(x)
    &&& uam_explained(s.report, t.report, s.moved, accs)
}

pub proof fn lemma_run_accesses(
    s: FlowState,
    body: Seq<StmtView>,
    position: usize,
    holder: Option<Holder>,
    accs: Seq<AccessView>,
)
    ensures
        accesses_ok(s, run_accesses(s, body, position, holder, accs), position, accs),
    decreases accs.len(),
{
    let t = run_accesses(s, body, position, holder, accs);
    if accs.len() == 0 {
        lemma_grows_refl(s.report, position as int, position + 1);
        lemma_keeps_loans_refl(s.loans);
        assert forall|j: int| 0 <= j < t.moved.len() implies s.moved.contains(#[trigger] t.moved[j]) by {
            assert(s.moved[j] == t.moved[j]);
        }
    } else {
        let init = accs.drop_last();
        let a = accs.last();
        let t0 = run_accesses(s, body, position, holder, init);
        lemma_run_accesses(s, body, position, holder, init);
        lemma_step_access(t0, body, position, holder, a);
        assert(t == step_access(t0, body, position, holder, a));
        lemma_grows_trans(s.report, t0.report, t.report, position as int, position + 1);
        lemma_keeps_loans_trans(s.loans, t0.loans, t.loans);
        assert forall|k: int| 0 <= k < init.len() implies #[trigger] init[k] == accs[k] by {}
        // moved places come from s or from a consume of accs
        assert forall|j: int| 0 <= j < t.moved.len() implies s.moved.contains(#[trigger] t.moved[j]) || exists|k: int|
            0 <= k < accs.len() && accs[k] == (AccessView::Consume { place: t.moved[j], copyable: false }) by {
            if j < t0.moved.len() {
                assert(t.moved[j] == t0.moved[j]);
                if !s.moved.contains(t0.moved[j]) {
                    let k = choose|k: int|
                        0 <= k < init.len() && init[k] == (AccessView::Consume { place: t0.moved[j], copyable: false });
                    assert(accs[k] == init[k]);
                }
            } else {
                assert(accs[accs.len() - 1] == a);
            }
        }
        assert forall|x: PlaceView| s.moved.contains(x) implies #[trigger] t.moved.contains(x) by {
            assert(t0.moved.contains(x));
            let w = choose|w: int| 0 <= w < t0.moved.len() && t0.moved[w] == x;
            assert(t.moved[w] == x);
        }
        assert forall|k: int|
            s.report.len() <= k < t.report.len() && (#[trigger] t.report[k]).kind == ViolationKind::UseAfterMove
            implies moved_overlap(s.moved, t.report[k].place) || moves_overlapping(accs, t.report[k].place) by {
            let q = t.report[k].place;
            if k < t0.report.len() {
                assert(t.report.subrange(0, t0.report.len() as int)[k] == t.report[k]);
                assert(t0.report[k] == t.report[k]);
                if moves_overlapping(init, q) {
                    let i = choose|i: int|
                        0 <= i < init.len() && (#[trigger] init[i]) is Consume && !init[i]->copyable && overlaps(
                            init[i]->Consume_place,
                            q,
                        );
                    assert(accs[i] == init[i]);
                }
            } else {
                assert(moved_overlap(t0.moved, q));
                let j = choose|j: int| 0 <= j < t0.moved.len() && overlaps(#[trigger] t0.moved[j], q);
                if s.moved.contains(t0.moved[j]) {
                    let w = choose|w: int| 0 <= w < s.moved.len() && s.moved[w] == t0.moved[j];
                    assert(overlaps(s.moved[w], q));
                } else {
                    let i = choose|i: int|
                        0 <= i < init.len() && init[i] == (AccessView::Consume { place: t0.moved[j], copyable: false });
                    assert(accs[i] == init[i]);
                    assert(accs[i] is Consume);
                }
            }
        }
    }
}

/// Running two lists of accesses one after the other is running their
/// concatenation.
pub proof fn lemma_run_accesses_split(
    s: FlowState,
    body: Seq<StmtView>,
    position: usize,
    holder: Option<Holder>,
    a: Seq<AccessView>,
    b: Seq<AccessView>,
)
    ensures
        run_accesses(s, body, position, holder, a + b) == run_accesses(
            run_accesses(s, body, position, holder, a),
            body,
            position,
            holder,
            b,
        ),
    decreases b.len(),
{
    if b.len() == 0 {
        assert(a + b =~= a);
    } else {
        lemma_run_accesses_split(s, body, position, holder, a, b.drop_last());
        assert((a + b).drop_last() =~= a + b.drop_last());
        assert((a + b).last() == b.last());
    }
}

// ------------------------------------------------------- statement steps

/// `t` differs from `s` only by diagnostics recorded at `position`, none of
/// them a use-after-move.
pub open spec fn flags_only(s: FlowState, t: FlowState, position: usize) -> bool {
    &&& t == (FlowState { report: t.report, ..s })
    &&& grows(s.report, t.report, position as int, position + 1)
    &&& forall|k: int| s.report.len() <= k < t.report.len() ==> (#[trigger] t.report[k]).kind
        != ViolationKind::UseAfterMove
}

pub proof fn lemma_flags_only_trans(a: FlowState, b: FlowState, c: FlowState, position: usize)
    requires
        flags_only(a, b, position),
        flags_only(b, c, position),
    ensures
        flags_only(a, c, position),
{
    lemma_grows_trans(a.report, b.report, c.report, position as int, position + 1);
    assert forall|k: int| a.report.len() <= k < c.report.len() implies (#[trigger] c.report[k]).kind
        != ViolationKind::UseAfterMove by {
        if k < b.report.len() {
            assert(c.report.subrange(0, b.report.len() as int)[k] == c.report[k]);
            assert(b.report[k] == c.report[k]);
        }
    }
}

pub proof fn lemma_flag_other(s: FlowState, kind: ViolationKind, q: PlaceView, position: usize, note: Option<LoanView>)
    requires
        kind != ViolationKind::UseAfterMove,
    ensures
        flags_only(s, flag(s, kind, q, position, note), position),
{
    lemma_flag(s, kind, q, position, note);
    let t = flag(s, kind, q, position, note);
    assert forall|k: int| s.report.len() <= k < t.report.len() implies (#[trigger] t.report[k]).kind
        != ViolationKind::UseAfterMove by {
        assert(t.report == s.report.push(DiagnosticView { kind, place: q, position, note }));
    }
}

pub proof fn lemma_escape_held(s: FlowState, position: usize, h: usize, n: int)
    ensures
        flags_only(s, escape_held(s, position, h, n), position),
    decreases n,
{
    if n <= 0 {
        lemma_grows_refl(s.report, position as int, position + 1);
    } else {
        let s1 = escape_held(s, position, h, n - 1);
        lemma_escape_held(s, position, h, n - 1);
        let l = s.loans[n - 1];
        if l.holder == Some(h) && !crate::semantics::behind_reference(s, l.place) {
            lemma_flag_other(s1, ViolationKind::DanglingReference, l.place, position, None);
            lemma_flags_only_trans(s, s1, escape_held(s, position, h, n), position);
        }
    }
}

pub proof fn lemma_check_return(s: FlowState, position: usize, accs: Seq<AccessView>)
    ensures
        flags_only(s, check_return(s, position, accs), position),
    decreases accs.len(),
{
    if accs.len() == 0 {
        lemma_grows_refl(s.report, position as int, position + 1);
    } else {
        let s1 = check_return(s, position, accs.drop_last());
        lemma_check_return(s, position, accs.drop_last());
        let a = accs.last();
        let t = escape_access(s1, position, a);
        match a {
            AccessView::Borrow { place, .. } => if !crate::semantics::behind_reference(s1, place) {
                lemma_flag_other(s1, ViolationKind::DanglingReference, place, position, None);
            } else {
                lemma_grows_refl(s1.report, position as int, position + 1);
            },
            AccessView::Write(_) => {
                lemma_grows_refl(s1.report, position as int, position + 1);
            },
            _ => if a.place().path.len() == 0 {
                lemma_escape_held(s1, position, a.place().var, s1.loans.len() as int);
            } else {
                lemma_grows_refl(s1.report, position as int, position + 1);
            },
        }
        lemma_flags_only_trans(s, s1, t, position);
    }
}

pub proof fn lemma_check_assign_target(s: FlowState, position: usize, tg: PlaceView)
    ensures
        ({
            let t = check_assign_target(s, position, tg);
            &&& grows(s.report, t.report, position as int, position + 1)
            &&& t.vars == s.vars && t.depth == s.depth && t.loans == s.loans
            &&& live_unmoved(s, position) ==> live_unmoved(t, position)
            &&& forall|j: int| 0 <= j < t.moved.len() ==> s.moved.contains(#[trigger] t.moved[j])
            &&& forall|x: PlaceView| s.moved.contains(x) && !is_prefix(tg, x) ==> #[trigger] t.moved.contains(x)
            &&& forall|k: int|
                s.report.len() <= k < t.report.len() && (#[trigger] t.report[k]).kind
                    == ViolationKind::UseAfterMove ==> moved_overlap(s.moved, t.report[k].place)
        }),
{
    let t = check_assign_target(s, position, tg);
    lemma_grows_refl(s.report, position as int, position + 1);
    assert forall|j: int| 0 <= j < s.moved.len() implies s.moved.contains(#[trigger] s.moved[j]) by {}
    if ancestor_moved(s.moved, tg) {
        let k = choose|k: int| 0 <= k < s.moved.len() && is_prefix(#[trigger] s.moved[k], tg) && s.moved[k].path.len() < tg.path.len();
        assert(overlaps(s.moved[k], tg));
        lemma_flag(s, ViolationKind::UseAfterMove, tg, position, None);
    } else {
        match first_conflict(s.loans, tg, position, false) {
            Some(l) => {
                lemma_flag(s, ViolationKind::WriteWhileBorrowed, tg, position, Some(l));
            },
            None => if !home(s, tg).write {
                lemma_flag(s, ViolationKind::ImmutableWriteViolation, tg, position, None);
            } else {
                lemma_rebind(s.moved, tg);
                if live_unmoved(s, position) {
                    assert forall|k: int|
                        0 <= k < t.loans.len() && (#[trigger] t.loans[k]).end >= position implies !moved_overlap(
                        t.moved,
                        t.loans[k].place,
                    ) by {
                        if moved_overlap(t.moved, t.loans[k].place) {
                            let j = choose|j: int| 0 <= j < t.moved.len() && overlaps(#[trigger] t.moved[j], t.loans[k].place);
                            assert(s.moved.contains(t.moved[j]));
                            let w = choose|w: int| 0 <= w < s.moved.len() && s.moved[w] == t.moved[j];
                            assert(overlaps(s.moved[w], s.loans[k].place));
                        }
                    }
                }
            },
        }
    }
}

/// What every statement step keeps.
pub open spec fn stmt_ok(s: FlowState, t: FlowState, position: usize, st: StmtView) -> bool {
    &&& grows(s.report, t.report, position as int, position + 1)
    &&& keeps_loans(s.loans, t.loans)
    &&& live_unmoved(s, position) ==> live_unmoved(t, position)
    &&& moved_from(s.moved, t.moved, st.accesses())
    &&& forall|x: PlaceView|
        s.moved.contains(x) && !(st is Assign && is_prefix(st->Assign_target, x))
            ==> #[trigger] t.moved.contains(x)
    &&& uam_explained(s.report, t.report, s.moved, st.accesses())
}

/// A moved place of `b` that overlaps `q`, when every moved place of `b`
/// comes from `a` or `accs`, explains a use-after-move on `q`.
pub proof fn lemma_moved_from_overlap(a: Seq<PlaceView>, b: Seq<PlaceView>, accs: Seq<AccessView>, q: PlaceView)
    requires
        moved_from(a, b, accs),
        moved_overlap(b, q),
    ensures
        moved_overlap(a, q) || moves_overlapping(accs, q),
{
    let j = choose|j: int| 0 <= j < b.len() && overlaps(#[trigger] b[j], q);
    if a.contains(b[j]) {
        let w = choose|w: int| 0 <= w < a.len() && a[w] == b[j];
        assert(overlaps(a[w], q));
    } else {
        let k = choose|k: int| 0 <= k < accs.len() && accs[k] == (AccessView::Consume { place: b[j], copyable: false });
        assert(accs[k] is Consume);
    }
}

pub proof fn lemma_step_stmt(s: FlowState, body: Seq<StmtView>, i: usize)
    requires
        step_stmt(s, body, i) is Ok,
    ensures
        stmt_ok(s, step_stmt(s, body, i)->Ok_0, i, body[i as int]),
{
    let t = step_stmt(s, body, i)->Ok_0;
    let st = body[i as int];
    match st {
        StmtView::Let { var, mutable, ty, init } => {
            lemma_run_accesses(s, body, i, holder_of(s, st), init);
        },
        StmtView::Assign { target, value } => {
            let holder = holder_of(s, st);
            let s1 = run_accesses(s, body, i, holder, value);
            lemma_run_accesses(s, body, i, holder, value);
            lemma_check_assign_target(s1, i, target);
            lemma_grows_trans(s.report, s1.report, t.report, i as int, i + 1);
            lemma_keeps_loans_refl(s1.loans);
            lemma_keeps_loans_trans(s.loans, s1.loans, t.loans);
            assert forall|j: int| 0 <= j < t.moved.len() implies s.moved.contains(#[trigger] t.moved[j]) || exists|k: int|
                0 <= k < value.len() && value[k] == (AccessView::Consume { place: t.moved[j], copyable: false }) by {
                assert(s1.moved.contains(t.moved[j]));
                let w = choose|w: int| 0 <= w < s1.moved.len() && s1.moved[w] == t.moved[j];
            }
            assert forall|k: int|
                s.report.len() <= k < t.report.len() && (#[trigger] t.report[k]).kind == ViolationKind::UseAfterMove
                implies moved_overlap(s.moved, t.report[k].place) || moves_overlapping(value, t.report[k].place) by {
                if k < s1.report.len() {
                    assert(t.report.subrange(0, s1.report.len() as int)[k] == t.report[k]);
                    assert(s1.report[k] == t.report[k]);
                } else {
                    lemma_moved_from_overlap(s.moved, s1.moved, value, t.report[k].place);
                }
            }
        },
        StmtView::Eval(accs) => {
            lemma_run_accesses(s, body, i, None, accs);
        },
        StmtView::Return(accs) => {
            let s1 = run_accesses(s, body, i, None, accs);
            lemma_run_accesses(s, body, i, None, accs);
            lemma_check_return(s1, i, accs);
            lemma_grows_trans(s.report, s1.report, t.report, i as int, i + 1);
            assert forall|k: int|
                s.report.len() <= k < t.report.len() && (#[trigger] t.report[k]).kind == ViolationKind::UseAfterMove
                implies moved_overlap(s.moved, t.report[k].place) || moves_overlapping(accs, t.report[k].place) by {
                assert(t.report.subrange(0, s1.report.len() as int)[k] == t.report[k]);
                assert(s1.report[k] == t.report[k]);
            }
        },
        _ => {
            lemma_grows_refl(s.report, i as int, i + 1);
            lemma_keeps_loans_refl(s.loans);
            assert forall|j: int| 0 <= j < t.moved.len() implies s.moved.contains(#[trigger] t.moved[j]) by {
                assert(s.moved[j] == t.moved[j]);
            }
        },
    }
}

// ------------------------------------------------------------- runs

/// The state before statement `i` of a function whose analysis succeeded.
pub open spec fn state_before(f: FunctionView, i: int) -> FlowState {
    run(f, i)->Ok_0
}

/// The analysis of `f` ran to the end without a malformation.
pub open spec fn succeeds(f: FunctionView) -> bool {
    f.body.len() <= usize::MAX && run(f, f.body.len() as int) is Ok
}

pub proof fn lemma_initial_report(f: FunctionView)
    requires
        run(f, 0) is Ok,
    ensures
        state_before(f, 0).report.len() == 0,
        state_before(f, 0).loans.len() == 0,
        state_before(f, 0).moved.len() == 0,
{
    assert(run(f, 0) == initial_state(f));
}

pub proof fn lemma_run_ok(f: FunctionView, i: int)
    requires
        succeeds(f),
        0 <= i <= f.body.len(),
    ensures
        run(f, i) is Ok,
{
    if run(f, i) is Err {
        lemma_run_err_sticks(f, i, f.body.len() as int);
    }
}

/// Between statements `i` and `j` the report grows with diagnostics at
/// positions `i..j`, loans are only added, and no live loan borrows from a
/// moved place.
pub proof fn lemma_run(f: FunctionView, i: int, j: int)
    requires
        succeeds(f),
        0 <= i <= j <= f.body.len(),
    ensures
        grows(state_before(f, i).report, state_before(f, j).report, i, j),
        keeps_loans(state_before(f, i).loans, state_before(f, j).loans),
        live_unmoved(state_before(f, j), j as usize),
        in_position_order(state_before(f, j).report),
    decreases j,
{
    lemma_run_ok(f, i);
    lemma_run_ok(f, j);
    if j == i {
        lemma_grows_refl(state_before(f, i).report, i, j);
        lemma_keeps_loans_refl(state_before(f, i).loans);
    }
    lemma_run_ok(f, 0);
    lemma_initial_report(f);
    if j == 0 {
    } else {
        let s = state_before(f, j - 1);
        let t = state_before(f, j);
        lemma_run_ok(f, j - 1);
        if j > i {
            lemma_run(f, i, j - 1);
        }
        lemma_run(f, 0, j - 1);
        assert(step_stmt(s, f.body, (j - 1) as usize) == run(f, j));
        lemma_step_stmt(s, f.body, (j - 1) as usize);
        if j > i {
            lemma_grows_widen(s.report, t.report, j - 1, j, i, j);
            lemma_grows_widen(state_before(f, i).report, s.report, i, j - 1, i, j);
            lemma_grows_trans(state_before(f, i).report, s.report, t.report, i, j);
            lemma_keeps_loans_trans(state_before(f, i).loans, s.loans, t.loans);
        }
        // ordering: earlier entries sit below j - 1, the new ones at j - 1
        assert forall|a: int, b: int| 0 <= a < b < t.report.len() implies (#[trigger] t.report[a]).position
            <= (#[trigger] t.report[b]).position by {
            if b < s.report.len() {
                assert(t.report.subrange(0, s.report.len() as int)[a] == t.report[a]);
                assert(t.report.subrange(0, s.report.len() as int)[b] == t.report[b]);
            } else if a < s.report.len() {
                assert(t.report.subrange(0, s.report.len() as int)[a] == t.report[a]);
                assert(s.report[a].position < j - 1);
            }
        }
    }
}

/// Within statement `i`, the report after any one access is kept by the
/// state after the statement.
pub proof fn lemma_stmt_after_access(s: FlowState, body: Seq<StmtView>, i: usize, k: int)
    requires
        step_stmt(s, body, i) is Ok,
        0 <= k < body[i as int].accesses().len(),
    ensures
        ({
            let accs = body[i as int].accesses();
            let h = holder_of(s, body[i as int]);
            let before = run_accesses(s, body, i, h, accs.take(k));
            let after = step_access(before, body, i, h, accs[k]);
            &&& accesses_ok(s, before, i, accs.take(k))
            &&& grows(after.report, step_stmt(s, body, i)->Ok_0.report, i as int, i + 1)
        }),
{
    let st = body[i as int];
    let accs = st.accesses();
    let h = holder_of(s, st);
    let before = run_accesses(s, body, i, h, accs.take(k));
    let after = step_access(before, body, i, h, accs[k]);
    let t = step_stmt(s, body, i)->Ok_0;
    lemma_run_accesses(s, body, i, h, accs.take(k));
    assert(accs.take(k + 1).drop_last() =~= accs.take(k));
    assert(accs.take(k + 1).last() == accs[k]);
    assert(after == run_accesses(s, body, i, h, accs.take(k + 1)));
    lemma_run_accesses_split(s, body, i, h, accs.take(k + 1), accs.skip(k + 1));
    assert(accs.take(k + 1) + accs.skip(k + 1) =~= accs);
    let all = run_accesses(s, body, i, h, accs);
    lemma_run_accesses(after, body, i, h, accs.skip(k + 1));
    assert(all == run_accesses(after, body, i, h, accs.skip(k + 1)));
    match st {
        StmtView::Let { .. } => {},
        StmtView::Assign { target, .. } => {
            lemma_check_assign_target(all, i, target);
            lemma_grows_trans(after.report, all.report, t.report, i as int, i + 1);
        },
        StmtView::Eval(_) => {},
        StmtView::Return(_) => {
            lemma_check_return(all, i, accs);
            lemma_grows_trans(after.report, all.report, t.report, i as int, i + 1);
        },
        _ => {},
    }
}

/// The state just before access `k` of statement `w`.
pub open spec fn before_access(f: FunctionView, w: int, k: int) -> FlowState {
    let s = state_before(f, w);
    run_accesses(s, f.body, w as usize, holder_of(s, f.body[w]), f.body[w].accesses().take(k))
}

/// The state just after access `k` of statement `w`.
pub open spec fn after_access(f: FunctionView, w: int, k: int) -> FlowState {
    let s = state_before(f, w);
    step_access(before_access(f, w, k), f.body, w as usize, holder_of(s, f.body[w]), f.body[w].accesses()[k])
}

/// The report of a successful analysis.
pub open spec fn final_report(f: FunctionView) -> Seq<DiagnosticView> {
    state_before(f, f.body.len() as int).report
}

/// A diagnostic recorded by an access stays in the final report, and the
/// final report repeats no key.
pub proof fn lemma_key_reaches_end(f: FunctionView, w: int, k: int, d: DiagnosticView)
    requires
        succeeds(f),
        0 <= w < f.body.len(),
        0 <= k < f.body[w].accesses().len(),
        has_key(after_access(f, w, k).report, d),
    ensures
        has_key(final_report(f), d),
        keys_unique(final_report(f)),
        analysis(f) == Ok::<Seq<DiagnosticView>, crate::semantics::Malformed>(final_report(f)),
        before_access(f, w, k).loans.len() >= state_before(f, w).loans.len(),
        before_access(f, w, k).loans.subrange(0, state_before(f, w).loans.len() as int)
            == state_before(f, w).loans,
        live_unmoved(before_access(f, w, k), w as usize),
{
    lemma_run_ok(f, w);
    lemma_run_ok(f, w + 1);
    let s = state_before(f, w);
    assert(step_stmt(s, f.body, w as usize) == run(f, w + 1));
    lemma_stmt_after_access(s, f.body, w as usize, k);
    lemma_has_key_kept(after_access(f, w, k).report, state_before(f, w + 1).report, w, w + 1, d);
    lemma_run(f, w + 1, f.body.len() as int);
    lemma_has_key_kept(state_before(f, w + 1).report, final_report(f), w + 1, f.body.len() as int, d);
    lemma_run(f, 0, f.body.len() as int);
    lemma_run_ok(f, 0);
    lemma_initial_report(f);
    lemma_run(f, w, w);
}

/// Once `x` has been moved by statement `p`, every
/// access at a later statement `q` to a place overlapping `x` is reported
/// as a use after move, exactly once, as long as no assignment between
/// them binds `x` (or an ancestor of it) anew.
pub proof fn law_use_after_move(f: FunctionView, p: int, q: int, k: int, x: PlaceView)
    requires
        succeeds(f),
        0 <= p < q < f.body.len(),
        state_before(f, p + 1).moved.contains(x),
        forall|j: int| p < j < q ==> !(#[trigger] f.body[j] is Assign && is_prefix(f.body[j]->Assign_target, x)),
        0 <= k < f.body[q].accesses().len(),
        overlaps(f.body[q].accesses()[k].place(), x),
    ensures
        analysis(f) matches Ok(r) && has_key(
            r,
            DiagnosticView {
                kind: ViolationKind::UseAfterMove,
                place: f.body[q].accesses()[k].place(),
                position: q as usize,
                note: None,
            },
        ) && keys_unique(r),
{
    lemma_moved_persists(f, p + 1, q, x);
    lemma_run_ok(f, q);
    let s = state_before(f, q);
    let accs = f.body[q].accesses();
    let y = accs[k].place();
    lemma_run_accesses(s, f.body, q as usize, holder_of(s, f.body[q]), accs.take(k));
    let before = before_access(f, q, k);
    assert(before.moved.contains(x));
    let j = choose|j: int| 0 <= j < before.moved.len() && before.moved[j] == x;
    assert(overlaps(before.moved[j], y));
    lemma_step_access(before, f.body, q as usize, holder_of(s, f.body[q]), accs[k]);
    lemma_key_reaches_end(
        f,
        q,
        k,
        DiagnosticView { kind: ViolationKind::UseAfterMove, place: y, position: q as usize, note: None },
    );
}

pub proof fn lemma_moved_persists(f: FunctionView, p: int, q: int, x: PlaceView)
    requires
        succeeds(f),
        0 <= p <= q <= f.body.len(),
        state_before(f, p).moved.contains(x),
        forall|j: int| p <= j < q ==> !(#[trigger] f.body[j] is Assign && is_prefix(f.body[j]->Assign_target, x)),
    ensures
        state_before(f, q).moved.contains(x),
    decreases q - p,
{
    if q > p {
        lemma_moved_persists(f, p, q - 1, x);
        lemma_run_ok(f, q - 1);
        lemma_run_ok(f, q);
        assert(step_stmt(state_before(f, q - 1), f.body, (q - 1) as usize) == run(f, q));
        lemma_step_stmt(state_before(f, q - 1), f.body, (q - 1) as usize);
        assert(!(f.body[q - 1] is Assign && is_prefix(f.body[q - 1]->Assign_target, x)));
    }
}

/// The access before which a loan `l` of `state_before(f, p + 1)` is still
/// live finds it, over a place that nothing has moved.
pub proof fn lemma_live_loan_at(f: FunctionView, p: int, w: int, k: int, l: LoanView)
    requires
        succeeds(f),
        0 <= p < w < f.body.len(),
        w <= l.end,
        state_before(f, p + 1).loans.contains(l),
        0 <= k < f.body[w].accesses().len(),
    ensures
        before_access(f, w, k).loans.contains(l),
        !moved_overlap(before_access(f, w, k).moved, l.place),
{
    lemma_run(f, p + 1, w);
    let d = DiagnosticView { kind: ViolationKind::UseAfterMove, place: l.place, position: 0, note: None };
    let s = state_before(f, w);
    let accs = f.body[w].accesses();
    let before = before_access(f, w, k);
    lemma_run_ok(f, w);
    lemma_run_ok(f, w + 1);
    assert(step_stmt(s, f.body, w as usize) == run(f, w + 1));
    lemma_stmt_after_access(s, f.body, w as usize, k);
    let opened = state_before(f, p + 1).loans;
    let i = choose|i: int| 0 <= i < opened.len() && opened[i] == l;
    assert(s.loans.subrange(0, state_before(f, p + 1).loans.len() as int)[i] == s.loans[i]);
    assert(s.loans[i] == l);
    assert(before.loans.subrange(0, s.loans.len() as int)[i] == before.loans[i]);
    assert(before.loans[i] == l);
    assert(live_unmoved(s, w as usize));
    assert(live_unmoved(before, w as usize));
}

/// While a loan over `x` opened
/// by statement `p` is live, up to its last use, a write to `x` is reported
/// as a write while borrowed.
pub proof fn law_write_during_loan(f: FunctionView, p: int, w: int, k: int, l: LoanView)
    requires
        succeeds(f),
        state_before(f, p + 1).loans.contains(l),
        0 <= p < w < f.body.len(),
        w <= l.end,
        0 <= k < f.body[w].accesses().len(),
        f.body[w].accesses()[k] == AccessView::Write(l.place),
    ensures
        analysis(f) matches Ok(r) && has_key(
            r,
            DiagnosticView {
                kind: ViolationKind::WriteWhileBorrowed,
                place: l.place,
                position: w as usize,
                note: None,
            },
        ),
{
    lemma_live_loan_at(f, p, w, k, l);
    let before = before_access(f, w, k);
    let i = choose|i: int| 0 <= i < before.loans.len() && before.loans[i] == l;
    lemma_overlaps_self(l.place);
    assert(conflicts(before.loans[i], l.place, w as usize, false));
    lemma_first_conflict(before.loans, l.place, w as usize, false, 0);
    let note = first_conflict(before.loans, l.place, w as usize, false);
    lemma_flag(before, ViolationKind::WriteWhileBorrowed, l.place, w as usize, note);
    lemma_key_reaches_end(
        f,
        w,
        k,
        DiagnosticView { kind: ViolationKind::WriteWhileBorrowed, place: l.place, position: w as usize, note: None },
    );
}

/// While an exclusive loan over `x` opened by
/// statement `p` is live, up to its last use, a new borrow of `x`, shared
/// or exclusive, is reported as a conflicting exclusive borrow.
pub proof fn law_borrow_during_exclusive_loan(f: FunctionView, p: int, w: int, k: int, l: LoanView, kind: LoanKind)
    requires
        succeeds(f),
        state_before(f, p + 1).loans.contains(l),
        l.kind == LoanKind::Exclusive,
        0 <= p < w < f.body.len(),
        w <= l.end,
        0 <= k < f.body[w].accesses().len(),
        f.body[w].accesses()[k] == (AccessView::Borrow { place: l.place, kind }),
    ensures
        analysis(f) matches Ok(r) && has_key(
            r,
            DiagnosticView {
                kind: ViolationKind::ConflictingExclusiveBorrow,
                place: l.place,
                position: w as usize,
                note: None,
            },
        ),
{
    lemma_live_loan_at(f, p, w, k, l);
    let s = state_before(f, w);
    let h = holder_of(s, f.body[w]);
    let before = before_access(f, w, k);
    let eo = kind == LoanKind::Shared;
    let i = choose|i: int| 0 <= i < before.loans.len() && before.loans[i] == l;
    lemma_overlaps_self(l.place);
    assert(conflicts(before.loans[i], l.place, w as usize, eo));
    lemma_first_conflict(before.loans, l.place, w as usize, eo, 0);
    let note = first_conflict(before.loans, l.place, w as usize, eo);
    let d = DiagnosticView {
        kind: ViolationKind::ConflictingExclusiveBorrow,
        place: l.place,
        position: w as usize,
        note: None,
    };
    lemma_flag(before, ViolationKind::ConflictingExclusiveBorrow, l.place, w as usize, note);
    let b = check_borrow(before, f.body, w as usize, h, l.place, kind);
    assert(has_key(b.report, d));
    lemma_check_escape_to_holder(b, w as usize, h, l.place);
    lemma_has_key_kept(b.report, after_access(f, w, k).report, w, w + 1, d);
    lemma_key_reaches_end(f, w, k, d);
}

/// When the only loan over `x`
/// is a shared one whose last use is before statement `w`, a statement at
/// `w` that writes `x` (mutable and not moved) is reported nothing.
pub proof fn law_write_after_loan_end(f: FunctionView, w: int, l: LoanView)
    requires
        succeeds(f),
        0 <= w < f.body.len(),
        l.kind == LoanKind::Shared,
        l.end < w,
        final_state_loans(f).contains(l),
        forall|k: int|
            0 <= k < final_state_loans(f).len() && overlaps(#[trigger] final_state_loans(f)[k].place, l.place)
                ==> final_state_loans(f)[k] == l,
        f.body[w] == StmtView::Eval(seq![AccessView::Write(l.place)]),
        !moved_overlap(state_before(f, w).moved, l.place),
        home(state_before(f, w), l.place).write,
    ensures
        analysis(f) matches Ok(r) && forall|k: int| 0 <= k < r.len() ==> (#[trigger] r[k]).position != w,
{
    let n = f.body.len() as int;
    let x = l.place;
    lemma_run_ok(f, w);
    lemma_run_ok(f, w + 1);
    let s = state_before(f, w);
    lemma_run(f, w, n);
    lemma_run(f, 0, w);
    lemma_run_ok(f, 0);
    lemma_initial_report(f);
    lemma_first_conflict(s.loans, x, w as usize, false, 0);
    assert forall|k: int| 0 <= k < s.loans.len() implies !conflicts(#[trigger] s.loans[k], x, w as usize, false) by {
        assert(final_state_loans(f).subrange(0, s.loans.len() as int)[k] == final_state_loans(f)[k]);
        assert(s.loans[k] == final_state_loans(f)[k]);
        if overlaps(s.loans[k].place, x) {
            assert(s.loans[k] == l);
        }
    }
    let accs = seq![AccessView::Write(x)];
    assert(accs.drop_last() =~= Seq::<AccessView>::empty());
    assert(run_accesses(s, f.body, w as usize, None, accs.drop_last()) == s);
    assert(accs.last() == AccessView::Write(x));
    assert(run_accesses(s, f.body, w as usize, None, accs) == check_write(s, w as usize, x));
    assert(check_write(s, w as usize, x) == s);
    assert(step_stmt(s, f.body, w as usize) == run(f, w + 1));
    assert(state_before(f, w + 1) == s);
    lemma_run(f, w + 1, n);
    let r = final_report(f);
    assert forall|k: int| 0 <= k < r.len() implies (#[trigger] r[k]).position != w by {
        if k < s.report.len() {
            assert(r.subrange(0, s.report.len() as int)[k] == r[k]);
            assert(s.report[k] == r[k]);
        }
    }
}

/// The loans of a successful analysis at its end.
pub open spec fn final_state_loans(f: FunctionView) -> Seq<LoanView> {
    state_before(f, f.body.len() as int).loans
}

pub open spec fn with_loan(s: FlowState, l: LoanView) -> FlowState {
    FlowState { loans: s.loans.push(l), ..s }
}

pub proof fn lemma_first_conflict_push(
    loans: Seq<LoanView>,
    l: LoanView,
    q: PlaceView,
    position: usize,
    exclusive_only: bool,
    k: int,
)
    requires
        !overlaps(l.place, q),
        0 <= k <= loans.len(),
    ensures
        first_conflict_from(loans.push(l), q, position, exclusive_only, k) == first_conflict_from(
            loans,
            q,
            position,
            exclusive_only,
            k,
        ),
    decreases loans.len() - k,
{
    let pushed = loans.push(l);
    if k < loans.len() {
        assert(pushed[k] == loans[k]);
        lemma_first_conflict_push(loans, l, q, position, exclusive_only, k + 1);
    } else {
        assert(pushed[k] == l);
        assert(!conflicts(pushed[k], q, position, exclusive_only));
        assert(first_conflict_from(pushed, q, position, exclusive_only, k + 1) is None);
        assert(first_conflict_from(loans, q, position, exclusive_only, k) is None);
    }
}

/// A loan over a place disjoint from the accessed one changes nothing that
/// the access reports, nor what it moves.
pub proof fn law_disjoint_loan_changes_no_verdict(
    s: FlowState,
    body: Seq<StmtView>,
    position: usize,
    holder: Option<Holder>,
    a: AccessView,
    l: LoanView,
)
    requires
        !overlaps(l.place, a.place()),
    ensures
        step_access(with_loan(s, l), body, position, holder, a).report == step_access(
            s,
            body,
            position,
            holder,
            a,
        ).report,
        step_access(with_loan(s, l), body, position, holder, a).moved == step_access(
            s,
            body,
            position,
            holder,
            a,
        ).moved,
{
    let q = a.place();
    lemma_first_conflict_push(s.loans, l, q, position, false, 0);
    lemma_first_conflict_push(s.loans, l, q, position, true, 0);
    lemma_first_conflict(s.loans, q, position, false, 0);
    lemma_first_conflict(s.loans, q, position, true, 0);
    let t = with_loan(s, l);
    if let Some(k) = first_conflict_from(s.loans, q, position, false, 0) {
        assert(t.loans[k] == s.loans[k]);
    }
    if let Some(k) = first_conflict_from(s.loans, q, position, true, 0) {
        assert(t.loans[k] == s.loans[k]);
    }
    assert(first_conflict(t.loans, q, position, false) == first_conflict(s.loans, q, position, false));
    assert(first_conflict(t.loans, q, position, true) == first_conflict(s.loans, q, position, true));
}

pub open spec fn field_of(base: PlaceView, field: u32) -> PlaceView {
    PlaceView { var: base.var, path: base.path.push(Proj::Field(field)) }
}

/// Two distinct fields of one place, and all that lies below either, are
/// disjoint.
pub proof fn lemma_fields_disjoint(base: PlaceView, fx: u32, fy: u32, y: PlaceView)
    requires
        fx != fy,
        is_prefix(field_of(base, fy), y),
    ensures
        !overlaps(field_of(base, fx), y),
{
    let px = field_of(base, fx);
    let py = field_of(base, fy);
    let n = base.path.len() as int;
    assert(py.path[n] == Proj::Field(fy));
    assert(y.path.subrange(0, n + 1)[n] == y.path[n]);
    assert(y.path[n] == Proj::Field(fy));
    if is_prefix(px, y) {
        assert(y.path.subrange(0, n + 1)[n] == px.path[n]);
    }
    if is_prefix(y, px) {
        assert(y.path.len() == n + 1);
        assert(px.path.subrange(0, n + 1)[n] == y.path[n]);
    }
}

/// A loan over field `fx` of a place changes nothing
/// reported for any access to a sibling field `fy` or below it, whatever
/// else the state holds.
pub proof fn law_field_independence(
    s: FlowState,
    body: Seq<StmtView>,
    position: usize,
    holder: Option<Holder>,
    a: AccessView,
    l: LoanView,
    base: PlaceView,
    fx: u32,
    fy: u32,
)
    requires
        fx != fy,
        l.place == field_of(base, fx),
        is_prefix(field_of(base, fy), a.place()),
    ensures
        step_access(with_loan(s, l), body, position, holder, a).report == step_access(
            s,
            body,
            position,
            holder,
            a,
        ).report,
{
    lemma_fields_disjoint(base, fx, fy, a.place());
    law_disjoint_loan_changes_no_verdict(s, body, position, holder, a, l);
}

/// Passing a copyable place by value is checked as
/// a read, and leaves moved places and loans as they were.
pub proof fn law_copy_is_read(s: FlowState, body: Seq<StmtView>, position: usize, holder: Option<Holder>, q: PlaceView)
    ensures
        step_access(s, body, position, holder, AccessView::Consume { place: q, copyable: true })
            == check_read(s, position, q),
        check_read(s, position, q).moved == s.moved,
        check_read(s, position, q).loans == s.loans,
{
    lemma_check_read(s, position, q);
    if moved_overlap(s.moved, q) {
        lemma_flag(s, ViolationKind::UseAfterMove, q, position, None);
    } else {
        match first_conflict(s.loans, q, position, true) {
            Some(l) => lemma_flag(s, ViolationKind::ReadWhileExclusivelyBorrowed, q, position, Some(l)),
            None => {},
        }
    }
}

/// When every by-value use
/// of a place overlapping `x` is a copy, nothing overlapping `x` is ever
/// moved and no use after move of `x` is reported.
pub proof fn law_copies_never_move(f: FunctionView, x: PlaceView)
    requires
        succeeds(f),
        forall|j: int| 0 <= j < f.body.len() ==> !moves_overlapping(#[trigger] f.body[j].accesses(), x),
    ensures
        forall|i: int| 0 <= i <= f.body.len() ==> !moved_overlap(#[trigger] state_before(f, i).moved, x),
        analysis(f) matches Ok(r) && forall|k: int|
            0 <= k < r.len() ==> !((#[trigger] r[k]).kind == ViolationKind::UseAfterMove && r[k].place == x),
{
    assert forall|i: int| 0 <= i <= f.body.len() implies !moved_overlap(#[trigger] state_before(f, i).moved, x) by {
        lemma_no_move_of(f, x, i);
    }
    lemma_no_move_of(f, x, f.body.len() as int);
}

pub proof fn lemma_no_move_of(f: FunctionView, x: PlaceView, i: int)
    requires
        succeeds(f),
        0 <= i <= f.body.len(),
        forall|j: int| 0 <= j < f.body.len() ==> !moves_overlapping(#[trigger] f.body[j].accesses(), x),
    ensures
        !moved_overlap(state_before(f, i).moved, x),
        forall|k: int|
            0 <= k < state_before(f, i).report.len() ==> !((#[trigger] state_before(f, i).report[k]).kind
                == ViolationKind::UseAfterMove && state_before(f, i).report[k].place == x),
    decreases i,
{
    lemma_run_ok(f, i);
    if i == 0 {
        lemma_run_ok(f, 0);
        lemma_initial_report(f);
    } else {
        lemma_no_move_of(f, x, i - 1);
        lemma_run_ok(f, i - 1);
        let s = state_before(f, i - 1);
        let t = state_before(f, i);
        let accs = f.body[i - 1].accesses();
        assert(step_stmt(s, f.body, (i - 1) as usize) == run(f, i));
        lemma_step_stmt(s, f.body, (i - 1) as usize);
        assert(!moves_overlapping(accs, x));
        if moved_overlap(t.moved, x) {
            let j = choose|j: int| 0 <= j < t.moved.len() && overlaps(#[trigger] t.moved[j], x);
            if s.moved.contains(t.moved[j]) {
                let w = choose|w: int| 0 <= w < s.moved.len() && s.moved[w] == t.moved[j];
                assert(overlaps(s.moved[w], x));
            } else {
                let k = choose|k: int| 0 <= k < accs.len() && accs[k] == (AccessView::Consume { place: t.moved[j], copyable: false });
                assert(accs[k] is Consume);
            }
        }
        assert forall|k: int| 0 <= k < t.report.len() implies !((#[trigger] t.report[k]).kind
            == ViolationKind::UseAfterMove && t.report[k].place == x) by {
            if k < s.report.len() {
                assert(t.report.subrange(0, s.report.len() as int)[k] == t.report[k]);
                assert(s.report[k] == t.report[k]);
            }
        }
    }
}

/// The diagnostics of a function are a function of
/// the function alone, come in statement order, and repeat no kind, place
/// and position.
pub proof fn law_report_in_order(f: FunctionView)
    requires
        succeeds(f),
    ensures
        analysis(f) matches Ok(r) && in_position_order(r) && keys_unique(r) && forall|k: int|
            0 <= k < r.len() ==> (#[trigger] r[k]).position < f.body.len(),
{
    lemma_run(f, 0, f.body.len() as int);
    lemma_run_ok(f, 0);
    lemma_initial_report(f);
}

/// Analysing the same function twice gives the same result.
pub proof fn law_analysis_is_repeatable(f: FunctionView, g: FunctionView)
    requires
        f == g,
    ensures
        analysis(f) == analysis(g),
{
}

/// While a loan over `x` opened by statement `p` is live, up to its last
/// use, an assignment to `x` is reported as a write while borrowed.
pub proof fn law_assignment_during_loan(f: FunctionView, p: int, w: int, l: LoanView)
    requires
        succeeds(f),
        state_before(f, p + 1).loans.contains(l),
        0 <= p < w < f.body.len(),
        w <= l.end,
        f.body[w] is Assign,
        f.body[w]->Assign_target == l.place,
    ensures
        analysis(f) matches Ok(r) && has_key(
            r,
            DiagnosticView {
                kind: ViolationKind::WriteWhileBorrowed,
                place: l.place,
                position: w as usize,
                note: None,
            },
        ),
{
    let n = f.body.len() as int;
    let x = l.place;
    let value = f.body[w]->Assign_value;
    lemma_run_ok(f, w);
    lemma_run_ok(f, w + 1);
    lemma_run(f, p + 1, w);
    let s = state_before(f, w);
    let h = holder_of(s, f.body[w]);
    let all = run_accesses(s, f.body, w as usize, h, value);
    lemma_run_accesses(s, f.body, w as usize, h, value);
    let opened = state_before(f, p + 1).loans;
    let i = choose|i: int| 0 <= i < opened.len() && opened[i] == l;
    assert(s.loans.subrange(0, opened.len() as int)[i] == s.loans[i]);
    assert(all.loans.subrange(0, s.loans.len() as int)[i] == all.loans[i]);
    assert(all.loans[i] == l);
    assert(!moved_overlap(all.moved, x));
    if ancestor_moved(all.moved, x) {
        let k = choose|k: int| 0 <= k < all.moved.len() && is_prefix(#[trigger] all.moved[k], x) && all.moved[k].path.len() < x.path.len();
        assert(overlaps(all.moved[k], x));
    }
    lemma_overlaps_self(x);
    assert(conflicts(all.loans[i], x, w as usize, false));
    lemma_first_conflict(all.loans, x, w as usize, false, 0);
    let note = first_conflict(all.loans, x, w as usize, false);
    let d = DiagnosticView { kind: ViolationKind::WriteWhileBorrowed, place: x, position: w as usize, note: None };
    lemma_flag(all, ViolationKind::WriteWhileBorrowed, x, w as usize, note);
    assert(step_stmt(s, f.body, w as usize) == run(f, w + 1));
    assert(state_before(f, w + 1) == check_assign_target(all, w as usize, x));
    lemma_run(f, w + 1, n);
    lemma_has_key_kept(state_before(f, w + 1).report, final_report(f), w + 1, n, d);
}

} // verus!
