//! The program node: the root of the syntax tree.

use crate::grammar::{CallModel, Dumper, StmtModel, Statement, dump_stmts_model};
use vstd::prelude::*;

verus! {

/// Whether a single binding is meaningful for a program with the given
/// statements: unset, or the index of a declaration statement.
pub open spec fn binding_ok(stmts: Seq<StmtModel>, binding: Option<int>) -> bool {
    match binding {
        None => true,
        Some(k) => 0 <= k < stmts.len() && stmts[k] is Decl,
    }
}

/// Whether one statement's bindings are all meaningful for a program with
/// the given statements.
pub open spec fn stmt_wf(stmts: Seq<StmtModel>, stmt: StmtModel) -> bool {
    match stmt {
        StmtModel::Call(c) => binding_ok(stmts, c.binding),
        StmtModel::Decl(d) => forall|j: int|
            0 <= j < d.body.len() ==> binding_ok(stmts, (#[trigger] d.body[j]).binding),
    }
}

/// Whether every binding reachable from the statements points at a
/// declaration statement of the same program. Constructors establish it
/// with all bindings unset; the resolver preserves it while writing
/// bindings; the interpreter requires it.
pub open spec fn prog_wf(stmts: Seq<StmtModel>) -> bool {
    forall|i: int| 0 <= i < stmts.len() ==> stmt_wf(stmts, #[trigger] stmts[i])
}

/// Whether a call is still unresolved.
pub open spec fn call_unbound(c: CallModel) -> bool {
    c.binding is None
}

/// Whether no binding inside one statement has been set.
pub open spec fn stmt_unbound(stmt: StmtModel) -> bool {
    match stmt {
        StmtModel::Call(c) => call_unbound(c),
        StmtModel::Decl(d) => forall|j: int|
            0 <= j < d.body.len() ==> call_unbound(#[trigger] d.body[j]),
    }
}

/// Whether no binding reachable from the statements has been set: the state
/// of a freshly parsed program.
pub open spec fn prog_unbound(stmts: Seq<StmtModel>) -> bool {
    forall|i: int| 0 <= i < stmts.len() ==> stmt_unbound(#[trigger] stmts[i])
}

/// An unbound program is well formed.
pub proof fn lemma_unbound_prog_wf(stmts: Seq<StmtModel>)
    requires
        prog_unbound(stmts),
    ensures
        prog_wf(stmts),
{
}

/// The root node of the syntax tree: the ordered top-level statements.
pub struct Prog {
    pub stmts: Vec<Statement>,
}

impl View for Prog {
    type V = Seq<StmtModel>;

    open spec fn view(&self) -> Seq<StmtModel> {
        self.stmts@.map_values(|s: Statement| s@)
    }
}

impl Prog {
    /// Builds a program from its statements.
    pub fn new(stmts: Vec<Statement>) -> (r: Prog)
        ensures
            r@ == stmts@.map_values(|s: Statement| s@),
    {
        Prog { stmts }
    }
}

/// The rendering of a whole program: its root line and its statements, one
/// level deeper.
pub open spec fn dump_prog_model(stmts: Seq<StmtModel>, prefix: Seq<char>) -> Seq<char> {
    prefix + "Prog"@ + "\n"@ + dump_stmts_model(stmts, prefix + "\t"@)
}

impl Dumper for Prog {
    open spec fn dump_model(&self, prefix: Seq<char>) -> Seq<char> {
        dump_prog_model(self@, prefix)
    }

    #[verifier::loop_isolation(false)]
    fn dump(&self, prefix: &str) -> (r: String) {
        let mut r = prefix.to_owned();
        r.append("Prog");
        r.append("\n");
        let mut deeper = prefix.to_owned();
        deeper.append("\t");
        let ghost head = r@;
        let n = self.stmts.len();
        let mut i: usize = 0;
        while i < n
            invariant
                0 <= i <= n,
                n == self.stmts.len(),
                deeper@ == prefix@ + "\t"@,
                r@ == head + dump_stmts_model(self@.take(i as int), deeper@),
            decreases n - i,
        {
            let part = self.stmts[i].dump(deeper.as_str());
            r.append(part.as_str());
            proof {
                assert(self@.take(i as int + 1).drop_last() =~= self@.take(i as int));
                assert(self@.take(i as int + 1).last() == self.stmts@[i as int]@);
            }
            i = i + 1;
        }
        proof {
            assert(self@.take(n as int) =~= self@);
            assert(r@ =~= dump_prog_model(self@, prefix@));
        }
        r
    }
}

} // verus!
