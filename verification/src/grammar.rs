//! The syntax tree: statements, function declarations, bodies and calls,
//! together with their mathematical models and the tree renderer.

use vstd::prelude::*;
use vstd::string::StringExecFns;

verus! {

/// The model of a [`FunctionCall`]: its name, its string-literal arguments,
/// and the binding written by the resolver — the index of the statement
/// holding the declaration this call invokes, or `None` while unresolved or
/// when the name is the built-in.
#[verifier::ext_equal]
pub ghost struct CallModel {
    pub name: Seq<char>,
    pub params: Seq<Seq<char>>,
    pub binding: Option<int>,
}

/// The model of a [`FunctionDecl`]: its name and the calls of its body.
#[verifier::ext_equal]
pub ghost struct DeclModel {
    pub name: Seq<char>,
    pub body: Seq<CallModel>,
}

/// The model of a [`Statement`].
#[verifier::ext_equal]
pub ghost enum StmtModel {
    Decl(DeclModel),
    Call(CallModel),
}

/// A function call: a name, the string-literal arguments, and — after
/// resolution — the index of the statement that declares the function. The
/// binding is an index into the owning program's statement list, never an
/// owning reference.
pub struct FunctionCall {
    pub name: String,
    pub parameters: Vec<String>,
    pub definition: Option<usize>,
}

impl View for FunctionCall {
    type V = CallModel;

    open spec fn view(&self) -> CallModel {
        CallModel {
            name: self.name@,
            params: self.parameters.deep_view(),
            binding: match self.definition {
                Some(k) => Some(k as int),
                None => None,
            },
        }
    }
}

impl FunctionCall {
    /// Builds an unresolved call.
    pub fn new(name: String, parameters: Vec<String>) -> (r: FunctionCall)
        ensures
            r@ == (CallModel { name: name@, params: parameters.deep_view(), binding: None }),
    {
        FunctionCall { name, parameters, definition: None }
    }
}

/// A function body: the ordered calls between `{` and `}`. Bodies cannot
/// hold nested declarations.
pub struct FunctionBody {
    pub stmts: Vec<FunctionCall>,
}

impl View for FunctionBody {
    type V = Seq<CallModel>;

    open spec fn view(&self) -> Seq<CallModel> {
        self.stmts@.map_values(|c: FunctionCall| c@)
    }
}

impl FunctionBody {
    /// Builds a body from its calls.
    pub fn new(stmts: Vec<FunctionCall>) -> (r: FunctionBody)
        ensures
            r@ == stmts@.map_values(|c: FunctionCall| c@),
    {
        FunctionBody { stmts }
    }
}

/// A function declaration: a name and a body. Parameters are syntactically
/// required to be empty, so none are stored.
pub struct FunctionDecl {
    pub name: String,
    pub body: FunctionBody,
}

impl View for FunctionDecl {
    type V = DeclModel;

    open spec fn view(&self) -> DeclModel {
        DeclModel { name: self.name@, body: self.body@ }
    }
}

impl FunctionDecl {
    /// Builds a declaration.
    pub fn new(name: String, body: FunctionBody) -> (r: FunctionDecl)
        ensures
            r@ == (DeclModel { name: name@, body: body@ }),
    {
        FunctionDecl { name, body }
    }
}

/// A top-level statement: either a function declaration or a function call.
pub enum Statement {
    FunctionDecl(FunctionDecl),
    FunctionCall(FunctionCall),
}

impl View for Statement {
    type V = StmtModel;

    open spec fn view(&self) -> StmtModel {
        match self {
            Statement::FunctionDecl(d) => StmtModel::Decl(d@),
            Statement::FunctionCall(c) => StmtModel::Call(c@),
        }
    }
}

/// The rendering of a call's arguments: one indented `Parameter:` line per
/// argument.
pub open spec fn dump_params_model(params: Seq<Seq<char>>, prefix: Seq<char>) -> Seq<char>
    decreases params.len(),
{
    if params.len() == 0 {
        Seq::empty()
    } else {
        dump_params_model(params.drop_last(), prefix) + prefix + "\tParameter: "@ + params.last()
            + "\n"@
    }
}

/// The rendering of one call: its name, whether it is resolved, and its
/// arguments.
pub open spec fn dump_call_model(c: CallModel, prefix: Seq<char>) -> Seq<char> {
    prefix + "FunctionCall "@ + c.name + ", "@ + (if c.binding is Some {
        "resolved"@
    } else {
        "not resolved"@
    }) + "\n"@ + dump_params_model(c.params, prefix)
}

/// The renderings of a body's calls, one after the other.
pub open spec fn dump_calls_model(body: Seq<CallModel>, prefix: Seq<char>) -> Seq<char>
    decreases body.len(),
{
    if body.len() == 0 {
        Seq::empty()
    } else {
        dump_calls_model(body.drop_last(), prefix) + dump_call_model(body.last(), prefix)
    }
}

/// The rendering of a body: its header line and its calls, one level
/// deeper.
pub open spec fn dump_body_model(body: Seq<CallModel>, prefix: Seq<char>) -> Seq<char> {
    prefix + "FunctionBody"@ + "\n"@ + dump_calls_model(body, prefix + "\t"@)
}

/// The rendering of a declaration: its name line and its body, one level
/// deeper.
pub open spec fn dump_decl_model(d: DeclModel, prefix: Seq<char>) -> Seq<char> {
    prefix + "FunctionDecl "@ + d.name + "\n"@ + dump_body_model(d.body, prefix + "\t"@)
}

/// The rendering of a statement: that of whichever node it holds.
pub open spec fn dump_stmt_model(s: StmtModel, prefix: Seq<char>) -> Seq<char> {
    match s {
        StmtModel::Decl(d) => dump_decl_model(d, prefix),
        StmtModel::Call(c) => dump_call_model(c, prefix),
    }
}

/// The renderings of a statement sequence, one after the other.
pub open spec fn dump_stmts_model(stmts: Seq<StmtModel>, prefix: Seq<char>) -> Seq<char>
    decreases stmts.len(),
{
    if stmts.len() == 0 {
        Seq::empty()
    } else {
        dump_stmts_model(stmts.drop_last(), prefix) + dump_stmt_model(stmts.last(), prefix)
    }
}

/// The capability every node exposes to render itself as an indented,
/// human-readable tree: composite nodes recurse into their children with a
/// deeper indentation. Purely diagnostic — it never affects parsing,
/// resolution or execution.
pub trait Dumper {
    /// The exact text this node renders to, given an indentation prefix.
    spec fn dump_model(&self, prefix: Seq<char>) -> Seq<char>;

    /// Renders the node, each line indented by the prefix.
    fn dump(&self, prefix: &str) -> (r: String)
        ensures
            r@ == self.dump_model(prefix@),
    ;
}

impl Dumper for FunctionCall {
    open spec fn dump_model(&self, prefix: Seq<char>) -> Seq<char> {
        dump_call_model(self@, prefix)
    }

    #[verifier::loop_isolation(false)]
    fn dump(&self, prefix: &str) -> (r: String) {
        let mut r = prefix.to_owned();
        r.append("FunctionCall ");
        r.append(self.name.as_str());
        r.append(", ");
        match self.definition {
            Some(_) => r.append("resolved"),
            None => r.append("not resolved"),
        }
        r.append("\n");
        let ghost head = r@;
        let n = self.parameters.len();
        let mut i: usize = 0;
        while i < n
            invariant
                0 <= i <= n,
                n == self.parameters.len(),
                r@ == head + dump_params_model(self@.params.take(i as int), prefix@),
            decreases n - i,
        {
            r.append(prefix);
            r.append("\tParameter: ");
            r.append(self.parameters[i].as_str());
            r.append("\n");
            proof {
                assert(self@.params.take(i as int + 1).drop_last() =~= self@.params.take(i as int));
                assert(self@.params.take(i as int + 1).last() == self.parameters@[i as int]@);
            }
            i = i + 1;
        }
        proof {
            assert(self@.params.take(n as int) =~= self@.params);
            assert(r@ =~= dump_call_model(self@, prefix@));
        }
        r
    }
}

impl Dumper for FunctionBody {
    open spec fn dump_model(&self, prefix: Seq<char>) -> Seq<char> {
        dump_body_model(self@, prefix)
    }

    #[verifier::loop_isolation(false)]
    fn dump(&self, prefix: &str) -> (r: String) {
        let mut r = prefix.to_owned();
        r.append("FunctionBody");
        r.append("\n");
        let mut deeper = prefix.to_owned();
        deeper.append("\t");
        let ghost head = r@;
        let n = self.stmts.len();
        let mut i: usize = 0;
        while i < n
            invariant
                0 <= i <= n,
                n == self.stmts.len(),
                deeper@ == prefix@ + "\t"@,
                r@ == head + dump_calls_model(self@.take(i as int), deeper@),
            decreases n - i,
        {
            let line = self.stmts[i].dump(deeper.as_str());
            r.append(line.as_str());
            proof {
                assert(self@.take(i as int + 1).drop_last() =~= self@.take(i as int));
                assert(self@.take(i as int + 1).last() == self.stmts@[i as int]@);
            }
            i = i + 1;
        }
        proof {
            assert(self@.take(n as int) =~= self@);
            assert(r@ =~= dump_body_model(self@, prefix@));
        }
        r
    }
}

impl Dumper for FunctionDecl {
    open spec fn dump_model(&self, prefix: Seq<char>) -> Seq<char> {
        dump_decl_model(self@, prefix)
    }

    fn dump(&self, prefix: &str) -> (r: String) {
        let mut r = prefix.to_owned();
        r.append("FunctionDecl ");
        r.append(self.name.as_str());
        r.append("\n");
        let mut deeper = prefix.to_owned();
        deeper.append("\t");
        let body = self.body.dump(deeper.as_str());
        r.append(body.as_str());
        proof {
            assert(r@ =~= dump_decl_model(self@, prefix@));
        }
        r
    }
}

impl Dumper for Statement {
    open spec fn dump_model(&self, prefix: Seq<char>) -> Seq<char> {
        dump_stmt_model(self@, prefix)
    }

    fn dump(&self, prefix: &str) -> (r: String) {
        match self {
            Statement::FunctionDecl(d) => d.dump(prefix),
            Statement::FunctionCall(c) => c.dump(prefix),
        }
    }
}

} // verus!
