//! The entry points: `analyze_function` and `analyze`.
use crate::checker::{Checker, Diagnostic, diagnostics_view};
use crate::program::{Function, Program, FunctionView, Contract, Ty, body_view};
use crate::laws::{law_report_in_order};
use crate::semantics::{
    VarInfo, Malformed, MalformedKind, DiagnosticView, FlowState, analysis, run, declare_params,
    param_ty, well_nested, loans_declared, lemma_run_err_sticks, lemma_params_err_sticks,
    lemma_run_zero_err,
};
use vstd::prelude::*;

verus! {

/// The capability contract of a parameter, as a binding type.
fn contract_ty(c: Contract) -> (r: Ty)
    ensures
        r == param_ty(c),
{
    match c {
        Contract::ByValue => Ty::Value,
        Contract::ReadOnly => Ty::SharedRef,
        Contract::ReadWrite => Ty::MutRef,
    }
}

/// The bindings of the parameters, before the body runs.
fn declare_parameters(f: &Function) -> (r: Result<Vec<Option<VarInfo>>, Malformed>)
    ensures
        match declare_params(f@.params, f.var_count, f@.params.len() as int) {
            Ok(vars) => r matches Ok(v) && v@ == vars,
            Err(e) => r == Err::<Vec<Option<VarInfo>>, Malformed>(e),
        },
        r matches Ok(v) ==> forall|k: int|
            0 <= k < v@.len() && (#[trigger] v@[k]) is Some ==> v@[k]->Some_0.depth == 0
                && v@[k]->Some_0.in_scope,
{
    let mut vars: Vec<Option<VarInfo>> = Vec::new();
    let mut k: usize = 0;
    while k < f.var_count
        invariant
            k <= f.var_count,
            vars@.len() == k,
            forall|j: int| 0 <= j < k ==> vars@[j] is None,
        decreases f.var_count - k,
    {
        vars.push(None);
        k = k + 1;
    }
    proof {
        assert(vars@ =~= Seq::new(f.var_count as nat, |j: int| None::<VarInfo>));
    }
    let mut n: usize = 0;
    while n < f.params.len()
        invariant
            n <= f.params.len(),
            vars@.len() == f.var_count,
            declare_params(f@.params, f.var_count, n as int) == Ok::<Seq<Option<VarInfo>>, Malformed>(vars@),
            forall|j: int|
                0 <= j < vars@.len() && (#[trigger] vars@[j]) is Some ==> vars@[j]->Some_0.depth == 0
                    && vars@[j]->Some_0.in_scope,
        decreases f.params.len() - n,
    {
        let p = f.params[n];
        if p.var >= f.var_count || vars[p.var].is_some() {
            proof {
                lemma_params_err_sticks(f@.params, f.var_count, n + 1, f@.params.len() as int);
            }
            return Err(Malformed { kind: MalformedKind::BadParameter, index: n });
        }
        let b = VarInfo { mutable: p.mutable, ty: contract_ty(p.contract), depth: 0, in_scope: true };
        vars.set(p.var, Some(b));
        n = n + 1;
    }
    Ok(vars)
}

/// Checks one function: the diagnostics of its body in statement order, or
/// the malformation that stopped the analysis.
pub fn analyze_function(f: &Function) -> (r: Result<Vec<Diagnostic>, Malformed>)
    ensures
        match analysis(f@) {
            Ok(d) => r matches Ok(v) && diagnostics_view(v@) == d,
            Err(e) => r == Err::<Vec<Diagnostic>, Malformed>(e),
        },
{
    let vars = match declare_parameters(f) {
        Ok(v) => v,
        Err(e) => {
            proof {
                lemma_run_zero_err(f@, f@.body.len() as int);
            }
            return Err(e);
        },
    };
    let mut c = Checker { depth: 1, vars, moved: Vec::new(), loans: Vec::new(), report: Vec::new() };
    proof {
        assert(c@.moved =~= Seq::empty());
        assert(c@.loans =~= Seq::empty());
        assert(c@.report =~= Seq::empty());
        assert(run(f@, 0) == Ok::<FlowState, Malformed>(c@));
    }
    let mut i: usize = 0;
    while i < f.body.len()
        invariant
            i <= f.body.len(),
            f@.body == body_view(f.body@),
            run(f@, i as int) == Ok::<FlowState, Malformed>(c@),
            well_nested(c@),
            loans_declared(c@),
        decreases f.body.len() - i,
    {
        let step = c.step_stmt(&f.body, i);
        if let Err(e) = step {
            proof {
                lemma_run_err_sticks(f@, i + 1, f@.body.len() as int);
            }
            return Err(e);
        }
        i = i + 1;
    }
    Ok(c.report)
}

/// A diagnostic of one function of a program.
#[derive(Debug)]
pub struct Finding {
    pub function: usize,
    pub diagnostic: Diagnostic,
}

/// A function whose analysis stopped on malformed input.
#[derive(Debug)]
pub struct Failure {
    pub function: usize,
    pub error: Malformed,
}

/// The result of analysing a program: the safety findings, in function and
/// statement order, and, apart from them, the functions that were malformed.
#[derive(Debug)]
pub struct Report {
    pub findings: Vec<Finding>,
    pub failures: Vec<Failure>,
}

pub struct FindingView {
    pub function: usize,
    pub diagnostic: DiagnosticView,
}

pub struct FailureView {
    pub function: usize,
    pub error: Malformed,
}

pub struct ReportView {
    pub findings: Seq<FindingView>,
    pub failures: Seq<FailureView>,
}

impl View for Report {
    type V = ReportView;

    open spec fn view(&self) -> ReportView {
        ReportView {
            findings: self.findings@.map_values(
                |x: Finding| FindingView { function: x.function, diagnostic: x.diagnostic@ },
            ),
            failures: self.failures@.map_values(
                |x: Failure| FailureView { function: x.function, error: x.error },
            ),
        }
    }
}

pub open spec fn tagged(d: Seq<DiagnosticView>, function: usize) -> Seq<FindingView> {
    d.map_values(|x: DiagnosticView| FindingView { function, diagnostic: x })
}

/// The report over the first `n` functions of a program.
pub open spec fn program_report(fs: Seq<FunctionView>, n: int) -> ReportView
    decreases n,
{
    if n <= 0 {
        ReportView { findings: Seq::empty(), failures: Seq::empty() }
    } else {
        let r = program_report(fs, n - 1);
        match analysis(fs[n - 1]) {
            Ok(d) => ReportView { findings: r.findings + tagged(d, (n - 1) as usize), ..r },
            Err(e) => ReportView {
                failures: r.failures.push(FailureView { function: (n - 1) as usize, error: e }),
                ..r
            },
        }
    }
}

/// Checks every function of the program. Each function is analysed on its
/// own; a malformed one contributes a failure and no findings.
pub fn analyze(program: &Program) -> (r: Report)
    ensures
        r@ == program_report(program@, program@.len() as int),
{
    let mut report = Report { findings: Vec::new(), failures: Vec::new() };
    proof {
        assert(report@.findings =~= Seq::empty());
        assert(report@.failures =~= Seq::empty());
    }
    let mut n: usize = 0;
    while n < program.functions.len()
        invariant
            n <= program.functions.len(),
            report@ == program_report(program@, n as int),
        decreases program.functions.len() - n,
    {
        assert(program@[n as int] == program.functions@[n as int]@);
        match analyze_function(&program.functions[n]) {
            Ok(diags) => {
                let ghost before = report@;
                let ghost dv = diagnostics_view(diags@);
                let mut diags = diags;
                let mut k: usize = 0;
                let ghost all = diags@;
                let total = diags.len();
                while k < total
                    invariant
                        total == all.len(),
                        k <= all.len(),
                        dv == diagnostics_view(all),
                        diags@ == all.skip(k as int),
                        report@.failures == before.failures,
                        report@.findings == before.findings + tagged(dv.take(k as int), n),
                    decreases all.len() - k,
                {
                    assert(diags@[0] == all[k as int]);
                    let d = diags.remove(0);
                    assert(diags@ =~= all.skip(k + 1));
                    let ghost f0 = report@.findings;
                    report.findings.push(Finding { function: n, diagnostic: d });
                    proof {
                        assert(tagged(dv.take(k + 1), n) =~= tagged(dv.take(k as int), n).push(
                            FindingView { function: n, diagnostic: all[k as int]@ },
                        ));
                        assert(report@.findings =~= f0.push(FindingView { function: n, diagnostic: all[k as int]@ }));
                    }
                    k = k + 1;
                }
                proof {
                    assert(dv.take(all.len() as int) =~= dv);
                }
            },
            Err(e) => {
                let ghost f0 = report@.failures;
                report.failures.push(Failure { function: n, error: e });
                proof {
                    assert(report@.failures =~= f0.push(FailureView { function: n, error: e }));
                }
            },
        }
        n = n + 1;
    }
    proof {
        assert(program@.len() == program.functions@.len());
    }
    report
}

/// Findings come by function, and within a function by statement.
pub open spec fn findings_in_order(r: Seq<FindingView>) -> bool {
    forall|a: int, b: int|
        0 <= a < b < r.len() ==> (#[trigger] r[a]).function < (#[trigger] r[b]).function || (
        r[a].function == r[b].function && r[a].diagnostic.position <= r[b].diagnostic.position)
}

/// The findings of a program come in function order, and within each
/// function in statement order; every function index is in range.
pub proof fn law_program_report_in_order(fs: Seq<FunctionView>, n: int)
    requires
        0 <= n <= fs.len() <= usize::MAX,
        forall|i: int| 0 <= i < fs.len() ==> (#[trigger] fs[i]).body.len() <= usize::MAX,
    ensures
        findings_in_order(program_report(fs, n).findings),
        forall|k: int|
            0 <= k < program_report(fs, n).findings.len() ==> (#[trigger] program_report(
                fs,
                n,
            ).findings[k]).function < n,
    decreases n,
{
    if n > 0 {
        law_program_report_in_order(fs, n - 1);
        let prev = program_report(fs, n - 1).findings;
        let f = fs[n - 1];
        if let Ok(d) = analysis(f) {
            law_report_in_order(f);
            let t = tagged(d, (n - 1) as usize);
            let all = prev + t;
            assert(all == program_report(fs, n).findings);
            assert forall|a: int, b: int| 0 <= a < b < all.len() implies (#[trigger] all[a]).function
                < (#[trigger] all[b]).function || (all[a].function == all[b].function
                && all[a].diagnostic.position <= all[b].diagnostic.position) by {
                if b >= prev.len() && a >= prev.len() {
                    assert(all[a] == t[a - prev.len()]);
                    assert(all[b] == t[b - prev.len()]);
                    assert(t[a - prev.len()].diagnostic == d[a - prev.len()]);
                    assert(t[b - prev.len()].diagnostic == d[b - prev.len()]);
                    assert(d[a - prev.len()].position <= d[b - prev.len()].position);
                } else if b >= prev.len() {
                    assert(all[a] == prev[a]);
                    assert(all[b] == t[b - prev.len()]);
                } else {
                    assert(all[a] == prev[a]);
                    assert(all[b] == prev[b]);
                }
            }
            assert forall|k: int| 0 <= k < all.len() implies (#[trigger] all[k]).function < n by {
                if k >= prev.len() {
                    assert(all[k] == t[k - prev.len()]);
                }
            }
        }
    }
}

} // verus!
