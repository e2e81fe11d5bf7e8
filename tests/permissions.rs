use permcheck::checker::{Checker, Loan};
use permcheck::place::{Place, Proj};
use permcheck::program::{LoanKind, Ty};
use permcheck::semantics::{Perms, VarInfo};

fn state(mutable: bool, ty: Ty, loans: Vec<Loan>, moved: Vec<Place>) -> Checker {
    Checker {
        depth: 1,
        vars: vec![Some(VarInfo { mutable, ty, depth: 1, in_scope: true })],
        moved,
        loans,
        report: vec![],
    }
}

fn loan(place: Place, kind: LoanKind, start: usize, end: usize) -> Loan {
    Loan { place, kind, start, end, holder: None }
}

const ALL: Perms = Perms { read: true, write: true, own: true };
const NONE: Perms = Perms { read: false, write: false, own: false };

#[test]
fn home_sets_follow_mutability_and_references() {
    let p = Place::var(0);
    assert_eq!(state(true, Ty::Value, vec![], vec![]).current(&p, 0), ALL);
    assert_eq!(
        state(false, Ty::Value, vec![], vec![]).current(&p, 0),
        Perms { read: true, write: false, own: true }
    );
    let through = p.project(Proj::Deref);
    assert_eq!(
        state(false, Ty::SharedRef, vec![], vec![]).current(&through, 0),
        Perms { read: true, write: false, own: false }
    );
    assert_eq!(
        state(false, Ty::MutRef, vec![], vec![]).current(&through, 0),
        Perms { read: true, write: true, own: false }
    );
}

#[test]
fn loans_withhold_capabilities_while_live() {
    let p = Place::var(0);
    let x = p.project(Proj::Field(0));
    let y = p.project(Proj::Field(1));
    let shared = state(true, Ty::Value, vec![loan(x.duplicate(), LoanKind::Shared, 1, 4)], vec![]);
    assert_eq!(shared.current(&x, 3), Perms { read: true, write: false, own: false });
    assert_eq!(shared.current(&p, 4), Perms { read: true, write: false, own: false });
    assert_eq!(shared.current(&y, 3), ALL);
    assert_eq!(shared.current(&x, 5), ALL);
    let excl = state(true, Ty::Value, vec![loan(x.duplicate(), LoanKind::Exclusive, 1, 4)], vec![]);
    assert_eq!(excl.current(&x, 2), NONE);
    assert_eq!(excl.current(&p, 2), NONE);
    assert_eq!(excl.current(&y, 2), ALL);
}

#[test]
fn moved_places_have_nothing() {
    let p = Place::var(0);
    let x = p.project(Proj::Field(0));
    let s = state(true, Ty::Value, vec![], vec![x.duplicate()]);
    assert_eq!(s.current(&x, 0), NONE);
    assert_eq!(s.current(&p, 0), NONE);
    assert_eq!(s.current(&x.project(Proj::Index), 0), NONE);
    assert_eq!(s.current(&p.project(Proj::Field(1)), 0), ALL);
}

#[test]
fn places_compare_by_prefix() {
    let p = Place::var(3);
    let px = p.project(Proj::Field(0));
    let pxi = px.project(Proj::Index);
    assert!(p.is_prefix_of(&pxi));
    assert!(pxi.overlaps(&p));
    assert!(!px.overlaps(&p.project(Proj::Field(1))));
    assert!(!px.overlaps(&Place::var(4)));
    assert!(!px.has_deref());
    assert!(px.project(Proj::Deref).has_deref());
    assert_eq!(px.duplicate().path, vec![Proj::Field(0)]);
}
