use permcheck::analysis::{analyze, analyze_function};
use permcheck::checker::Diagnostic;
use permcheck::place::{Place, Proj};
use permcheck::program::{Access, Contract, Function, LoanKind, Param, Program, Stmt, Ty};
use permcheck::semantics::{MalformedKind, ViolationKind};

fn var(v: usize) -> Place {
    Place { var: v, path: vec![] }
}

fn proj(v: usize, path: Vec<Proj>) -> Place {
    Place { var: v, path }
}

fn let_(v: usize, mutable: bool, ty: Ty, init: Vec<Access>) -> Stmt {
    Stmt::Let { var: v, mutable, ty, init }
}

fn shared(p: Place) -> Access {
    Access::Borrow { place: p, kind: LoanKind::Shared }
}

fn exclusive(p: Place) -> Access {
    Access::Borrow { place: p, kind: LoanKind::Exclusive }
}

fn moved(p: Place) -> Access {
    Access::Consume { place: p, copyable: false }
}

fn copied(p: Place) -> Access {
    Access::Consume { place: p, copyable: true }
}

fn func(var_count: usize, body: Vec<Stmt>) -> Function {
    Function { params: vec![], body, var_count }
}

fn diags(f: &Function) -> Vec<Diagnostic> {
    analyze_function(f).expect("well-formed function")
}

fn kinds_at(d: &[Diagnostic]) -> Vec<(ViolationKind, usize)> {
    d.iter().map(|x| (x.kind, x.position)).collect()
}

// let mut v = owning_list([1,2,3]); let n = &v[2]; print(*n); v.push(4);
fn list_program(push_before_print: bool) -> Function {
    let print = Stmt::Eval(vec![Access::Read(proj(1, vec![Proj::Deref]))]);
    let push = Stmt::Eval(vec![Access::Write(var(0))]);
    let (a, b) = if push_before_print { (push, print) } else { (print, push) };
    func(
        2,
        vec![
            let_(0, true, Ty::Value, vec![]),
            let_(1, false, Ty::SharedRef, vec![shared(proj(0, vec![Proj::Index]))]),
            a,
            b,
        ],
    )
}

#[test]
fn push_after_last_use_of_borrow_is_allowed() {
    assert!(diags(&list_program(false)).is_empty());
}

#[test]
fn push_while_element_is_borrowed_is_flagged() {
    let d = diags(&list_program(true));
    assert_eq!(kinds_at(&d), vec![(ViolationKind::WriteWhileBorrowed, 2)]);
    assert_eq!(d[0].place.var, 0);
    assert!(d[0].place.path.is_empty());
    let note = d[0].note.as_ref().expect("conflicting loan");
    assert_eq!(note.start, 1);
    assert_eq!(note.end, 3);
    assert_eq!(note.kind, LoanKind::Shared);
    assert_eq!(note.holder, Some(1));
}

#[test]
fn print_after_consume_is_use_after_move() {
    // let s = owning_text("hi"); consume(s); print(s);
    let f = func(
        1,
        vec![
            let_(0, false, Ty::Value, vec![]),
            Stmt::Eval(vec![moved(var(0))]),
            Stmt::Eval(vec![Access::Read(var(0))]),
        ],
    );
    let d = diags(&f);
    assert_eq!(kinds_at(&d), vec![(ViolationKind::UseAfterMove, 2)]);
    assert_eq!(d[0].place.var, 0);
}

#[test]
fn returning_reference_to_local_dangles() {
    // fn f() -> &Text { let s = owning_text("x"); return &s; }
    let f = func(1, vec![let_(0, false, Ty::Value, vec![]), Stmt::Return(vec![shared(var(0))])]);
    let d = diags(&f);
    assert_eq!(kinds_at(&d), vec![(ViolationKind::DanglingReference, 1)]);
    assert_eq!(d[0].place.var, 0);
}

#[test]
fn disjoint_field_stays_usable_while_sibling_is_borrowed() {
    // let mut p = Point{x:0,y:0}; let rx = &mut p.x; *rx += 1; print(p.y);
    let f = func(
        2,
        vec![
            let_(0, true, Ty::Value, vec![]),
            let_(1, false, Ty::MutRef, vec![exclusive(proj(0, vec![Proj::Field(0)]))]),
            Stmt::Eval(vec![Access::Write(proj(1, vec![Proj::Deref]))]),
            Stmt::Eval(vec![Access::Read(proj(0, vec![Proj::Field(1)]))]),
        ],
    );
    assert!(diags(&f).is_empty());
}

#[test]
fn copyable_value_is_copied_not_moved() {
    // let n: i32 = 5; let m = n; print(n); print(m);
    let f = func(
        2,
        vec![
            let_(0, false, Ty::Value, vec![]),
            let_(1, false, Ty::Value, vec![copied(var(0))]),
            Stmt::Eval(vec![Access::Read(var(0))]),
            Stmt::Eval(vec![Access::Read(var(1))]),
        ],
    );
    assert!(diags(&f).is_empty());
}

#[test]
fn every_later_use_of_a_moved_place_is_reported_once() {
    let f = func(
        2,
        vec![
            let_(0, false, Ty::Value, vec![]),
            let_(1, false, Ty::Value, vec![moved(var(0))]),
            Stmt::Eval(vec![Access::Read(var(0)), Access::Read(var(0))]),
            Stmt::Eval(vec![shared(proj(0, vec![Proj::Field(2)]))]),
            Stmt::Eval(vec![Access::Read(var(1))]),
        ],
    );
    let d = diags(&f);
    assert_eq!(
        kinds_at(&d),
        vec![(ViolationKind::UseAfterMove, 2), (ViolationKind::UseAfterMove, 3)]
    );
    assert_eq!(d[1].place.path, vec![Proj::Field(2)]);
}

#[test]
fn assignment_rebinds_a_moved_place() {
    let f = func(
        1,
        vec![
            let_(0, true, Ty::Value, vec![]),
            Stmt::Eval(vec![moved(var(0))]),
            Stmt::Assign { target: var(0), value: vec![] },
            Stmt::Eval(vec![Access::Read(var(0))]),
        ],
    );
    assert!(diags(&f).is_empty());
}

#[test]
fn write_during_shared_loan_flagged_and_after_allowed() {
    // let mut x; let r = &x; x.push(); print(*r); x.push();
    let f = func(
        2,
        vec![
            let_(0, true, Ty::Value, vec![]),
            let_(1, false, Ty::SharedRef, vec![shared(var(0))]),
            Stmt::Eval(vec![Access::Write(var(0))]),
            Stmt::Eval(vec![Access::Read(proj(1, vec![Proj::Deref]))]),
            Stmt::Eval(vec![Access::Write(var(0))]),
        ],
    );
    let d = diags(&f);
    assert_eq!(kinds_at(&d), vec![(ViolationKind::WriteWhileBorrowed, 2)]);
}

#[test]
fn second_borrow_during_exclusive_loan_conflicts() {
    // let mut x; let a = &mut x; let b = &x; let c = &mut x; use(a);
    let f = func(
        4,
        vec![
            let_(0, true, Ty::Value, vec![]),
            let_(1, false, Ty::MutRef, vec![exclusive(var(0))]),
            let_(2, false, Ty::SharedRef, vec![shared(var(0))]),
            let_(3, false, Ty::MutRef, vec![exclusive(var(0))]),
            Stmt::Eval(vec![Access::Read(proj(1, vec![Proj::Deref]))]),
        ],
    );
    let d = diags(&f);
    assert_eq!(
        kinds_at(&d),
        vec![
            (ViolationKind::ConflictingExclusiveBorrow, 2),
            (ViolationKind::ConflictingExclusiveBorrow, 3)
        ]
    );
    assert_eq!(d[0].note.as_ref().map(|l| l.start), Some(1));
}

#[test]
fn two_shared_loans_coexist() {
    let f = func(
        3,
        vec![
            let_(0, false, Ty::Value, vec![]),
            let_(1, false, Ty::SharedRef, vec![shared(var(0))]),
            let_(2, false, Ty::SharedRef, vec![shared(var(0))]),
            Stmt::Eval(vec![Access::Read(proj(1, vec![Proj::Deref])), Access::Read(proj(2, vec![Proj::Deref]))]),
        ],
    );
    assert!(diags(&f).is_empty());
}

#[test]
fn read_during_exclusive_loan_flagged() {
    let f = func(
        2,
        vec![
            let_(0, true, Ty::Value, vec![]),
            let_(1, false, Ty::MutRef, vec![exclusive(proj(0, vec![Proj::Field(0)]))]),
            Stmt::Eval(vec![Access::Read(proj(0, vec![Proj::Field(1)]))]),
            Stmt::Eval(vec![Access::Read(var(0))]),
            Stmt::Eval(vec![Access::Write(proj(1, vec![Proj::Deref]))]),
        ],
    );
    let d = diags(&f);
    assert_eq!(kinds_at(&d), vec![(ViolationKind::ReadWhileExclusivelyBorrowed, 3)]);
}

#[test]
fn move_while_borrowed_flagged_and_place_kept() {
    let f = func(
        3,
        vec![
            let_(0, false, Ty::Value, vec![]),
            let_(1, false, Ty::SharedRef, vec![shared(var(0))]),
            let_(2, false, Ty::Value, vec![moved(var(0))]),
            Stmt::Eval(vec![Access::Read(proj(1, vec![Proj::Deref]))]),
            Stmt::Eval(vec![Access::Read(var(0))]),
        ],
    );
    let d = diags(&f);
    assert_eq!(kinds_at(&d), vec![(ViolationKind::MoveWhileBorrowed, 2)]);
}

#[test]
fn write_to_immutable_binding_flagged() {
    let f = func(
        2,
        vec![
            let_(0, false, Ty::Value, vec![]),
            Stmt::Eval(vec![Access::Write(var(0))]),
            let_(1, false, Ty::MutRef, vec![exclusive(var(0))]),
        ],
    );
    let d = diags(&f);
    assert_eq!(
        kinds_at(&d),
        vec![(ViolationKind::ImmutableWriteViolation, 1), (ViolationKind::ImmutableWriteViolation, 2)]
    );
}

#[test]
fn write_through_read_only_parameter_flagged() {
    let f = Function {
        params: vec![
            Param { var: 0, mutable: false, contract: Contract::ReadOnly },
            Param { var: 1, mutable: false, contract: Contract::ReadWrite },
        ],
        body: vec![
            Stmt::Eval(vec![Access::Write(proj(0, vec![Proj::Deref]))]),
            Stmt::Eval(vec![Access::Write(proj(1, vec![Proj::Deref]))]),
            Stmt::Eval(vec![moved(proj(1, vec![Proj::Deref]))]),
            Stmt::Return(vec![shared(proj(0, vec![Proj::Deref]))]),
        ],
        var_count: 2,
    };
    let d = diags(&f);
    assert_eq!(
        kinds_at(&d),
        vec![(ViolationKind::ImmutableWriteViolation, 0), (ViolationKind::MoveWhileBorrowed, 2)]
    );
}

#[test]
fn reference_escaping_its_block_dangles() {
    // let r; { let x = 5; r = &x; } print(*r);
    let f = func(
        2,
        vec![
            let_(0, true, Ty::SharedRef, vec![]),
            Stmt::Open,
            let_(1, false, Ty::Value, vec![]),
            Stmt::Assign { target: var(0), value: vec![shared(var(1))] },
            Stmt::Close,
            Stmt::Eval(vec![Access::Read(proj(0, vec![Proj::Deref]))]),
        ],
    );
    let d = diags(&f);
    assert_eq!(kinds_at(&d), vec![(ViolationKind::DanglingReference, 3)]);
}

#[test]
fn returning_a_reference_binding_to_a_local_dangles() {
    let f = func(
        2,
        vec![
            let_(0, false, Ty::Value, vec![]),
            let_(1, false, Ty::SharedRef, vec![shared(var(0))]),
            Stmt::Return(vec![copied(var(1))]),
        ],
    );
    let d = diags(&f);
    assert_eq!(kinds_at(&d), vec![(ViolationKind::DanglingReference, 2)]);
    assert_eq!(d[0].place.var, 0);
}

#[test]
fn loan_ends_when_its_binding_leaves_scope() {
    let f = func(
        2,
        vec![
            let_(0, true, Ty::Value, vec![]),
            Stmt::Open,
            let_(1, false, Ty::SharedRef, vec![shared(var(0))]),
            Stmt::Close,
            Stmt::Eval(vec![Access::Write(var(0))]),
        ],
    );
    assert!(diags(&f).is_empty());
}

#[test]
fn temporary_borrow_lives_for_its_statement_only() {
    // first_word(&s); s.clear();  and  f(&mut s, &s)
    let f = func(
        1,
        vec![
            let_(0, true, Ty::Value, vec![]),
            Stmt::Eval(vec![shared(var(0))]),
            Stmt::Eval(vec![Access::Write(var(0))]),
            Stmt::Eval(vec![exclusive(var(0)), shared(var(0))]),
        ],
    );
    let d = diags(&f);
    assert_eq!(kinds_at(&d), vec![(ViolationKind::ConflictingExclusiveBorrow, 3)]);
}

#[test]
fn slice_kept_across_clear_is_flagged() {
    // let mut s = ...; let w = first_word_slice(&s); print(w); s.clear(); print(w);
    let f = func(
        2,
        vec![
            let_(0, true, Ty::Value, vec![]),
            let_(1, false, Ty::SharedRef, vec![shared(var(0))]),
            Stmt::Eval(vec![Access::Read(proj(1, vec![Proj::Deref]))]),
            Stmt::Eval(vec![Access::Write(var(0))]),
            Stmt::Eval(vec![Access::Read(proj(1, vec![Proj::Deref]))]),
        ],
    );
    assert_eq!(kinds_at(&diags(&f)), vec![(ViolationKind::WriteWhileBorrowed, 3)]);
}

#[test]
fn malformed_functions_are_reported_apart() {
    let unknown = func(1, vec![Stmt::Eval(vec![Access::Read(var(0))])]);
    let dup = func(1, vec![let_(0, false, Ty::Value, vec![]), let_(0, false, Ty::Value, vec![])]);
    let unbalanced = func(0, vec![Stmt::Close]);
    let out_of_range = func(1, vec![let_(3, false, Ty::Value, vec![])]);
    let bad_param = Function {
        params: vec![Param { var: 0, mutable: false, contract: Contract::ByValue }; 2],
        body: vec![],
        var_count: 1,
    };
    let out_of_scope = func(
        1,
        vec![Stmt::Open, let_(0, false, Ty::Value, vec![]), Stmt::Close, Stmt::Eval(vec![Access::Read(var(0))])],
    );
    let e = analyze_function(&unknown).unwrap_err();
    assert_eq!((e.kind, e.index), (MalformedKind::UnknownVariable, 0));
    let e = analyze_function(&dup).unwrap_err();
    assert_eq!((e.kind, e.index), (MalformedKind::DuplicateBinding, 1));
    let e = analyze_function(&unbalanced).unwrap_err();
    assert_eq!((e.kind, e.index), (MalformedKind::UnbalancedFrame, 0));
    let e = analyze_function(&out_of_range).unwrap_err();
    assert_eq!((e.kind, e.index), (MalformedKind::UnknownVariable, 0));
    let e = analyze_function(&bad_param).unwrap_err();
    assert_eq!((e.kind, e.index), (MalformedKind::BadParameter, 1));
    let e = analyze_function(&out_of_scope).unwrap_err();
    assert_eq!((e.kind, e.index), (MalformedKind::UnknownVariable, 3));
}

#[test]
fn program_report_orders_findings_and_keeps_failures_apart() {
    let program = Program {
        functions: vec![
            list_program(true),
            func(0, vec![Stmt::Close]),
            func(1, vec![let_(0, false, Ty::Value, vec![]), Stmt::Return(vec![shared(var(0))])]),
        ],
    };
    let r = analyze(&program);
    let got: Vec<(usize, ViolationKind, usize)> =
        r.findings.iter().map(|x| (x.function, x.diagnostic.kind, x.diagnostic.position)).collect();
    assert_eq!(
        got,
        vec![(0, ViolationKind::WriteWhileBorrowed, 2), (2, ViolationKind::DanglingReference, 1)]
    );
    assert_eq!(r.failures.len(), 1);
    assert_eq!(r.failures[0].function, 1);
    assert_eq!(r.failures[0].error.kind, MalformedKind::UnbalancedFrame);
}

#[test]
fn analysing_twice_gives_the_same_report() {
    let program = Program { functions: vec![list_program(true), list_program(false)] };
    let a = analyze(&program);
    let b = analyze(&program);
    assert_eq!(format!("{:?}", a), format!("{:?}", b));
}

#[test]
fn assignment_during_loan_flagged() {
    // let mut x; let r = &x; x = new(); print(*r);
    let f = func(
        2,
        vec![
            let_(0, true, Ty::Value, vec![]),
            let_(1, false, Ty::SharedRef, vec![shared(var(0))]),
            Stmt::Assign { target: var(0), value: vec![] },
            Stmt::Eval(vec![Access::Read(proj(1, vec![Proj::Deref]))]),
            Stmt::Assign { target: var(0), value: vec![] },
        ],
    );
    assert_eq!(kinds_at(&diags(&f)), vec![(ViolationKind::WriteWhileBorrowed, 2)]);
}
