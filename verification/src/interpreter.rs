//! The tree-walking interpreter: executes every top-level call of a
//! resolved program, depth-first and left to right.
//!
//! A call bound to a declaration executes the calls of that declaration's
//! body in order; an unbound call whose name is the built-in `println`
//! joins its arguments with single spaces and appends them to the output as
//! one line; any other unbound call is an internal-consistency error that
//! the resolver should have caught, and is fatal. The language places no
//! bound on recursion, so execution carries an explicit call-depth budget:
//! where unbounded recursion would exhaust the machine's call stack, this
//! interpreter stops with a fatal depth error instead of crashing.

use crate::grammar::{CallModel, FunctionCall, StmtModel, Statement};
use crate::prog::{Prog, binding_ok, prog_wf, stmt_wf};
use crate::ref_resolver::builtin_name;
use crate::text::str_eq;
use vstd::prelude::*;
use vstd::string::StringExecFns;

verus! {

/// How deep bound calls may nest before execution stops: the verified
/// stand-in for the machine's call stack limit.
pub const MAX_CALL_DEPTH: u64 = 256;

/// The line the built-in writes: the arguments joined by single spaces.
pub open spec fn join_spaced(params: Seq<Seq<char>>) -> Seq<char>
    decreases params.len(),
{
    if params.len() == 0 {
        Seq::empty()
    } else if params.len() == 1 {
        params[0]
    } else {
        join_spaced(params.drop_last()) + " "@ + params.last()
    }
}

/// What can stop execution: a call that is neither bound nor the built-in,
/// or a call nest deeper than the given budget.
#[verifier::ext_equal]
pub ghost enum RunErrModel {
    UnknownFunction(Seq<char>),
    DepthExceeded,
}

/// The message each execution error carries.
pub open spec fn run_error_message(e: RunErrModel) -> Seq<char> {
    match e {
        RunErrModel::UnknownFunction(name) => "Unknown function "@ + name,
        RunErrModel::DepthExceeded => "call depth exceeded"@,
    }
}

/// What executing one call emits: the output lines it writes before it
/// finishes or fails, and the error if it fails.
pub open spec fn run_call_model(stmts: Seq<StmtModel>, c: CallModel, fuel: nat) -> (Seq<Seq<char>>, Option<
    RunErrModel,
>)
    decreases fuel, 0nat, 0nat,
{
    match c.binding {
        None => {
            if c.name == builtin_name() {
                (seq![join_spaced(c.params)], None)
            } else {
                (Seq::empty(), Some(RunErrModel::UnknownFunction(c.name)))
            }
        },
        Some(k) => {
            if 0 <= k < stmts.len() && stmts[k] is Decl {
                if fuel == 0 {
                    (Seq::empty(), Some(RunErrModel::DepthExceeded))
                } else {
                    run_calls_model(stmts, stmts[k]->Decl_0.body, (fuel - 1) as nat)
                }
            } else {
                (Seq::empty(), Some(RunErrModel::UnknownFunction(c.name)))
            }
        },
    }
}

/// What executing a sequence of calls in order emits, stopping at the first
/// failure but keeping the lines written before it.
pub open spec fn run_calls_model(stmts: Seq<StmtModel>, calls: Seq<CallModel>, fuel: nat) -> (Seq<
    Seq<char>,
>, Option<RunErrModel>)
    decreases fuel, 1nat, calls.len(),
{
    if calls.len() == 0 {
        (Seq::empty(), None)
    } else {
        let head = run_call_model(stmts, calls[0], fuel);
        if head.1 is Some {
            head
        } else {
            let rest = run_calls_model(stmts, calls.drop_first(), fuel);
            (head.0 + rest.0, rest.1)
        }
    }
}

/// What executing statements in order emits: declarations are skipped, each
/// top-level call runs with the full depth budget.
pub open spec fn run_stmts_model(stmts: Seq<StmtModel>, items: Seq<StmtModel>, fuel: nat) -> (Seq<
    Seq<char>,
>, Option<RunErrModel>)
    decreases fuel, 2nat, items.len(),
{
    if items.len() == 0 {
        (Seq::empty(), None)
    } else {
        match items[0] {
            StmtModel::Decl(_) => run_stmts_model(stmts, items.drop_first(), fuel),
            StmtModel::Call(c) => {
                let head = run_call_model(stmts, c, fuel);
                if head.1 is Some {
                    head
                } else {
                    let rest = run_stmts_model(stmts, items.drop_first(), fuel);
                    (head.0 + rest.0, rest.1)
                }
            },
        }
    }
}

/// What running a whole program with the given depth budget emits.
pub open spec fn run_prog_model(stmts: Seq<StmtModel>, fuel: nat) -> (Seq<Seq<char>>, Option<
    RunErrModel,
>) {
    run_stmts_model(stmts, stmts, fuel)
}

/// Running a concatenation of call sequences runs them in turn, as long as
/// the first part runs without error.
pub proof fn lemma_run_calls_append(
    stmts: Seq<StmtModel>,
    a: Seq<CallModel>,
    b: Seq<CallModel>,
    fuel: nat,
)
    requires
        run_calls_model(stmts, a, fuel).1 is None,
    ensures
        run_calls_model(stmts, a + b, fuel).0 == run_calls_model(stmts, a, fuel).0
            + run_calls_model(stmts, b, fuel).0,
        run_calls_model(stmts, a + b, fuel).1 == run_calls_model(stmts, b, fuel).1,
    decreases a.len(),
{
    if a.len() == 0 {
        assert(a + b =~= b);
        assert(run_calls_model(stmts, a, fuel).0 + run_calls_model(stmts, b, fuel).0
            =~= run_calls_model(stmts, b, fuel).0);
    } else {
        assert((a + b)[0] == a[0]);
        assert((a + b).drop_first() =~= a.drop_first() + b);
        lemma_run_calls_append(stmts, a.drop_first(), b, fuel);
        assert(run_calls_model(stmts, a + b, fuel).0 =~= run_calls_model(stmts, a, fuel).0
            + run_calls_model(stmts, b, fuel).0);
    }
}

/// Running a concatenation of statement sequences runs them in turn, as
/// long as the first part runs without error.
pub proof fn lemma_run_stmts_append(
    stmts: Seq<StmtModel>,
    a: Seq<StmtModel>,
    b: Seq<StmtModel>,
    fuel: nat,
)
    requires
        run_stmts_model(stmts, a, fuel).1 is None,
    ensures
        run_stmts_model(stmts, a + b, fuel).0 == run_stmts_model(stmts, a, fuel).0
            + run_stmts_model(stmts, b, fuel).0,
        run_stmts_model(stmts, a + b, fuel).1 == run_stmts_model(stmts, b, fuel).1,
    decreases a.len(),
{
    if a.len() == 0 {
        assert(a + b =~= b);
        assert(run_stmts_model(stmts, a, fuel).0 + run_stmts_model(stmts, b, fuel).0
            =~= run_stmts_model(stmts, b, fuel).0);
    } else {
        assert((a + b)[0] == a[0]);
        assert((a + b).drop_first() =~= a.drop_first() + b);
        lemma_run_stmts_append(stmts, a.drop_first(), b, fuel);
        assert(run_stmts_model(stmts, a + b, fuel).0 =~= run_stmts_model(stmts, a, fuel).0
            + run_stmts_model(stmts, b, fuel).0);
    }
}

/// Joins the arguments of the built-in with single spaces.
#[verifier::loop_isolation(false)]
pub fn join_params(params: &Vec<String>) -> (r: String)
    ensures
        r@ == join_spaced(params.deep_view()),
{
    let ghost full = params.deep_view();
    let mut r = String::new();
    let n = params.len();
    let mut i: usize = 0;
    while i < n
        invariant
            0 <= i <= n,
            n == params@.len(),
            full.len() == n,
            r@ == join_spaced(full.take(i as int)),
        decreases n - i,
    {
        if i > 0 {
            r.append(" ");
        }
        r.append(params[i].as_str());
        proof {
            assert(full[i as int] == params@[i as int]@);
            assert(full.take(i as int + 1).drop_last() =~= full.take(i as int));
            assert(full.take(i as int + 1).last() == full[i as int]);
            if i == 0 {
                assert(join_spaced(full.take(1)) == full[0]);
            }
        }
        i = i + 1;
    }
    proof {
        assert(full.take(n as int) =~= full);
    }
    r
}

/// The interpreter. It never mutates the program; it appends the built-in's
/// lines to the output vector it is handed, in execution order.
pub struct Interpreter {}

impl Interpreter {
    /// Executes one call: a bound call runs its declaration's body with one
    /// unit of the depth budget spent; the unbound built-in writes one
    /// line; any other unbound call is fatal.
    #[verifier::loop_isolation(false)]
    #[verifier::rlimit(60)]
    fn run_call(prog: &Prog, call: &FunctionCall, fuel: u64, output: &mut Vec<String>) -> (r:
        Result<(), String>)
        requires
            prog_wf(prog@),
            binding_ok(prog@, call@.binding),
        ensures
            final(output).deep_view() == old(output).deep_view() + run_call_model(
                prog@,
                call@,
                fuel as nat,
            ).0,
            r is Ok <==> run_call_model(prog@, call@, fuel as nat).1 is None,
            r is Err ==> r->Err_0@ == run_error_message(
                run_call_model(prog@, call@, fuel as nat).1->0,
            ),
        decreases fuel,
    {
        let ghost start = output.deep_view();
        match call.definition {
            None => {
                if str_eq(call.name.as_str(), "println") {
                    let line = join_params(&call.parameters);
                    output.push(line);
                    proof {
                        assert(output.deep_view() =~= start + run_call_model(
                            prog@,
                            call@,
                            fuel as nat,
                        ).0);
                    }
                    Ok(())
                } else {
                    let mut msg = "Unknown function ".to_owned();
                    msg.append(call.name.as_str());
                    proof {
                        assert(output.deep_view() =~= start + run_call_model(
                            prog@,
                            call@,
                            fuel as nat,
                        ).0);
                    }
                    Err(msg)
                }
            },
            Some(k) => {
                if fuel == 0 {
                    proof {
                        assert(output.deep_view() =~= start + run_call_model(
                            prog@,
                            call@,
                            fuel as nat,
                        ).0);
                    }
                    return Err("call depth exceeded".to_owned());
                }
                match &prog.stmts[k] {
                    Statement::FunctionDecl(d) => {
                        let ghost body = d.body@;
                        let ghost inner = (fuel - 1) as nat;
                        proof {
                            assert(prog@[k as int] == prog.stmts@[k as int]@);
                            assert(stmt_wf(prog@, prog@[k as int]));
                            assert(run_call_model(prog@, call@, fuel as nat) == run_calls_model(
                                prog@,
                                body,
                                inner,
                            ));
                        }
                        let n = d.body.stmts.len();
                        let mut j: usize = 0;
                        while j < n
                            invariant
                                0 <= j <= n,
                                n == body.len(),
                                output.deep_view() =~= start + run_calls_model(
                                    prog@,
                                    body.take(j as int),
                                    inner,
                                ).0,
                                run_calls_model(prog@, body.take(j as int), inner).1 is None,
                            decreases n - j,
                        {
                            let ghost cur = body[j as int];
                            proof {
                                assert(cur == d.body.stmts@[j as int]@);
                                assert(binding_ok(prog@, cur.binding));
                            }
                            let res = Self::run_call(prog, &d.body.stmts[j], fuel - 1, output);
                            proof {
                                assert(body.take(j as int + 1) =~= body.take(j as int) + seq![cur]);
                                lemma_run_calls_append(
                                    prog@,
                                    body.take(j as int),
                                    seq![cur],
                                    inner,
                                );
                                assert(seq![cur].drop_first() =~= Seq::<CallModel>::empty());
                                assert(run_calls_model(prog@, Seq::<CallModel>::empty(), inner).0
                                    =~= Seq::<Seq<char>>::empty());
                                assert(run_calls_model(prog@, Seq::<CallModel>::empty(), inner).1
                                    is None);
                                let head = run_call_model(prog@, cur, inner);
                                if head.1 is None {
                                    assert(run_calls_model(prog@, seq![cur], inner).0 =~= head.0);
                                }
                            }
                            match res {
                                Ok(()) => {
                                    j = j + 1;
                                },
                                Err(msg) => {
                                    proof {
                                        lemma_run_calls_append(
                                            prog@,
                                            body.take(j as int),
                                            body.skip(j as int),
                                            inner,
                                        );
                                        assert(body.take(j as int) + body.skip(j as int) =~= body);
                                        assert(body.skip(j as int)[0] == cur);
                                        let head = run_call_model(prog@, cur, inner);
                                        assert(run_calls_model(prog@, body.skip(j as int), inner)
                                            == head);
                                        assert(output.deep_view() =~= start + run_calls_model(
                                            prog@,
                                            body,
                                            inner,
                                        ).0);
                                    }
                                    return Err(msg);
                                },
                            }
                        }
                        proof {
                            assert(body.take(n as int) =~= body);
                        }
                        Ok(())
                    },
                    Statement::FunctionCall(_) => {
                        proof {
                            assert(prog@[k as int] == prog.stmts@[k as int]@);
                            assert(false);
                        }
                        Err(String::new())
                    },
                }
            },
        }
    }

    /// Executes every top-level call of a resolved program in source order,
    /// each with the full depth budget, appending the built-in's lines to
    /// the output. The first fatal error aborts the run; lines written
    /// before it stay.
    #[verifier::loop_isolation(false)]
    pub fn run_with_depth(prog: &Prog, fuel: u64, output: &mut Vec<String>) -> (r: Result<
        (),
        String,
    >)
        requires
            prog_wf(prog@),
        ensures
            final(output).deep_view() == old(output).deep_view() + run_prog_model(
                prog@,
                fuel as nat,
            ).0,
            r is Ok <==> run_prog_model(prog@, fuel as nat).1 is None,
            r is Err ==> r->Err_0@ == run_error_message(run_prog_model(prog@, fuel as nat).1->0),
    {
        let ghost start = output.deep_view();
        let ghost all = prog@;
        let n = prog.stmts.len();
        let mut k: usize = 0;
        while k < n
            invariant
                0 <= k <= n,
                n == all.len(),
                output.deep_view() =~= start + run_stmts_model(all, all.take(k as int), fuel as nat).0,
                run_stmts_model(all, all.take(k as int), fuel as nat).1 is None,
            decreases n - k,
        {
            let ghost cur = all[k as int];
            proof {
                assert(cur == prog.stmts@[k as int]@);
                assert(all.take(k as int + 1) =~= all.take(k as int) + seq![cur]);
                lemma_run_stmts_append(all, all.take(k as int), seq![cur], fuel as nat);
                assert(seq![cur].drop_first() =~= Seq::<StmtModel>::empty());
                assert(run_stmts_model(all, Seq::<StmtModel>::empty(), fuel as nat).0 =~= Seq::<
                    Seq<char>,
                >::empty());
                assert(run_stmts_model(all, Seq::<StmtModel>::empty(), fuel as nat).1 is None);
            }
            match &prog.stmts[k] {
                Statement::FunctionDecl(_) => {
                    proof {
                        assert(run_stmts_model(all, seq![cur], fuel as nat).0 =~= Seq::<
                            Seq<char>,
                        >::empty());
                        assert(output.deep_view() =~= start + run_stmts_model(
                            all,
                            all.take(k as int + 1),
                            fuel as nat,
                        ).0);
                    }
                },
                Statement::FunctionCall(c) => {
                    proof {
                        assert(stmt_wf(all, cur));
                        assert(binding_ok(all, c@.binding));
                    }
                    let res = Self::run_call(prog, c, fuel, output);
                    proof {
                        let head = run_call_model(all, c@, fuel as nat);
                        if head.1 is None {
                            assert(run_stmts_model(all, seq![cur], fuel as nat).0 =~= head.0);
                        }
                    }
                    match res {
                        Ok(()) => {},
                        Err(msg) => {
                            proof {
                                lemma_run_stmts_append(
                                    all,
                                    all.take(k as int),
                                    all.skip(k as int),
                                    fuel as nat,
                                );
                                assert(all.take(k as int) + all.skip(k as int) =~= all);
                                assert(all.skip(k as int)[0] == cur);
                                let head = run_call_model(all, c@, fuel as nat);
                                assert(run_stmts_model(all, all.skip(k as int), fuel as nat)
                                    == head);
                                assert(output.deep_view() =~= start + run_prog_model(
                                    all,
                                    fuel as nat,
                                ).0);
                            }
                            return Err(msg);
                        },
                    }
                },
            }
            k = k + 1;
        }
        proof {
            assert(all.take(n as int) =~= all);
        }
        Ok(())
    }

    /// Executes a resolved program with the default depth budget.
    pub fn run(prog: &Prog, output: &mut Vec<String>) -> (r: Result<(), String>)
        requires
            prog_wf(prog@),
        ensures
            final(output).deep_view() == old(output).deep_view() + run_prog_model(
                prog@,
                MAX_CALL_DEPTH as nat,
            ).0,
            r is Ok <==> run_prog_model(prog@, MAX_CALL_DEPTH as nat).1 is None,
            r is Err ==> r->Err_0@ == run_error_message(
                run_prog_model(prog@, MAX_CALL_DEPTH as nat).1->0,
            ),
    {
        Self::run_with_depth(prog, MAX_CALL_DEPTH, output)
    }
}

} // verus!
