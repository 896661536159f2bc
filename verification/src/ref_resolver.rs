//! The reference resolver: binds every function call to the declaration it
//! invokes, in two passes over the program.
//!
//! Pass one walks the top-level statements and builds an index from each
//! declared name to the index of its declaration statement; a later
//! declaration of the same name overwrites the earlier one. Pass two walks
//! the statements again and resolves every call — top-level calls and the
//! calls inside declaration bodies — against that index. A call whose name
//! is not in the index and is not the built-in is a fatal binding error.
//! Because binding happens only in pass two, a call may refer to a
//! declaration that appears later in the source.

use crate::grammar::{CallModel, DeclModel, FunctionBody, FunctionCall, StmtModel, Statement};
use crate::prog::Prog;
use crate::text::str_eq;
use vstd::prelude::*;

verus! {

/// The one built-in name the resolver recognises without a declaration.
pub open spec fn builtin_name() -> Seq<char> {
    "println"@
}

/// The declaration index a run of pass one produces: each declared name maps
/// to the position of its declaration among the statements, and a later
/// declaration of the same name overwrites an earlier one.
pub open spec fn decl_map(stmts: Seq<StmtModel>) -> Map<Seq<char>, int>
    decreases stmts.len(),
{
    if stmts.len() == 0 {
        Map::empty()
    } else {
        let prior = decl_map(stmts.drop_last());
        match stmts.last() {
            StmtModel::Decl(d) => prior.insert(d.name, stmts.len() - 1),
            StmtModel::Call(_) => prior,
        }
    }
}

/// The position of the last declaration of `name`, if any.
pub open spec fn last_decl_index(stmts: Seq<StmtModel>, name: Seq<char>) -> Option<int>
    decreases stmts.len(),
{
    if stmts.len() == 0 {
        None
    } else {
        match stmts.last() {
            StmtModel::Decl(d) => if d.name == name {
                Some(stmts.len() - 1)
            } else {
                last_decl_index(stmts.drop_last(), name)
            },
            StmtModel::Call(_) => last_decl_index(stmts.drop_last(), name),
        }
    }
}

/// Shadowing is last-write-wins: the declaration index maps exactly the
/// declared names, each to the position of its textually last declaration.
pub proof fn lemma_last_declaration_wins(stmts: Seq<StmtModel>, name: Seq<char>)
    ensures
        decl_map(stmts).contains_key(name) <==> last_decl_index(stmts, name) is Some,
        last_decl_index(stmts, name) matches Some(k) ==> decl_map(stmts)[name] == k,
    decreases stmts.len(),
{
    if stmts.len() > 0 {
        lemma_last_declaration_wins(stmts.drop_last(), name);
    }
}

/// Whether one call can be resolved against the index: its name is declared
/// or is the built-in.
pub open spec fn call_resolvable(m: Map<Seq<char>, int>, c: CallModel) -> bool {
    m.contains_key(c.name) || c.name == builtin_name()
}

/// What resolution writes into one call: the declared target if the name is
/// in the index, otherwise the call is left as it is (the built-in case).
pub open spec fn resolve_call(m: Map<Seq<char>, int>, c: CallModel) -> CallModel {
    if m.contains_key(c.name) {
        CallModel { binding: Some(m[c.name]), ..c }
    } else {
        c
    }
}

/// Resolves the calls of one body in order, stopping at the first call that
/// cannot be resolved: the result holds the calls before it resolved and the
/// rest untouched, beside the name of that first unresolvable call.
pub open spec fn resolve_body(m: Map<Seq<char>, int>, body: Seq<CallModel>) -> (Seq<CallModel>, Option<
    Seq<char>,
>)
    decreases body.len(),
{
    if body.len() == 0 {
        (body, None)
    } else if call_resolvable(m, body[0]) {
        let rest = resolve_body(m, body.drop_first());
        (seq![resolve_call(m, body[0])] + rest.0, rest.1)
    } else {
        (body, Some(body[0].name))
    }
}

/// Resolves statements in order against the index, stopping at the first
/// unresolvable call, exactly as pass two walks them.
pub open spec fn resolve_stmts(m: Map<Seq<char>, int>, stmts: Seq<StmtModel>) -> (Seq<StmtModel>, Option<
    Seq<char>,
>)
    decreases stmts.len(),
{
    if stmts.len() == 0 {
        (stmts, None)
    } else {
        match stmts[0] {
            StmtModel::Decl(d) => {
                let body = resolve_body(m, d.body);
                let head = StmtModel::Decl(DeclModel { name: d.name, body: body.0 });
                if body.1 is Some {
                    (seq![head] + stmts.drop_first(), body.1)
                } else {
                    let rest = resolve_stmts(m, stmts.drop_first());
                    (seq![head] + rest.0, rest.1)
                }
            },
            StmtModel::Call(c) => {
                if call_resolvable(m, c) {
                    let rest = resolve_stmts(m, stmts.drop_first());
                    (seq![StmtModel::Call(resolve_call(m, c))] + rest.0, rest.1)
                } else {
                    (stmts, Some(c.name))
                }
            },
        }
    }
}

/// What one full run of the resolver does to a program: pass one builds the
/// declaration index, pass two rewrites the bindings. The second component
/// is the name of the first unresolvable call, if any.
pub open spec fn resolve_prog(stmts: Seq<StmtModel>) -> (Seq<StmtModel>, Option<Seq<char>>) {
    resolve_stmts(decl_map(stmts), stmts)
}

/// The message a failed resolution carries, naming the call.
pub open spec fn unknown_function_message(name: Seq<char>) -> Seq<char> {
    "unknown function "@ + name
}

/// Resolution never adds or drops a call.
pub proof fn lemma_resolve_body_len(m: Map<Seq<char>, int>, body: Seq<CallModel>)
    ensures
        resolve_body(m, body).0.len() == body.len(),
    decreases body.len(),
{
    if body.len() > 0 && call_resolvable(m, body[0]) {
        lemma_resolve_body_len(m, body.drop_first());
    }
}

/// Resolution never adds or drops a statement.
pub proof fn lemma_resolve_stmts_len(m: Map<Seq<char>, int>, stmts: Seq<StmtModel>)
    ensures
        resolve_stmts(m, stmts).0.len() == stmts.len(),
    decreases stmts.len(),
{
    if stmts.len() > 0 {
        match stmts[0] {
            StmtModel::Decl(d) => {
                if resolve_body(m, d.body).1 is None {
                    lemma_resolve_stmts_len(m, stmts.drop_first());
                }
            },
            StmtModel::Call(c) => {
                if call_resolvable(m, c) {
                    lemma_resolve_stmts_len(m, stmts.drop_first());
                }
            },
        }
    }
}

/// Resolving a concatenation of bodies resolves them in turn, as long as the
/// first part resolves without error.
pub proof fn lemma_resolve_body_append(m: Map<Seq<char>, int>, a: Seq<CallModel>, b: Seq<CallModel>)
    requires
        resolve_body(m, a).1 is None,
    ensures
        resolve_body(m, a + b).0 == resolve_body(m, a).0 + resolve_body(m, b).0,
        resolve_body(m, a + b).1 == resolve_body(m, b).1,
    decreases a.len(),
{
    if a.len() == 0 {
        assert(a + b =~= b);
        assert(resolve_body(m, a).0 + resolve_body(m, b).0 =~= resolve_body(m, b).0);
    } else {
        assert((a + b)[0] == a[0]);
        assert((a + b).drop_first() =~= a.drop_first() + b);
        lemma_resolve_body_append(m, a.drop_first(), b);
        assert(resolve_body(m, a + b).0 =~= resolve_body(m, a).0 + resolve_body(m, b).0);
    }
}

/// Resolving a concatenation of statement sequences resolves them in turn,
/// as long as the first part resolves without error.
pub proof fn lemma_resolve_stmts_append(m: Map<Seq<char>, int>, a: Seq<StmtModel>, b: Seq<StmtModel>)
    requires
        resolve_stmts(m, a).1 is None,
    ensures
        resolve_stmts(m, a + b).0 == resolve_stmts(m, a).0 + resolve_stmts(m, b).0,
        resolve_stmts(m, a + b).1 == resolve_stmts(m, b).1,
    decreases a.len(),
{
    if a.len() == 0 {
        assert(a + b =~= b);
        assert(resolve_stmts(m, a).0 + resolve_stmts(m, b).0 =~= resolve_stmts(m, b).0);
    } else {
        assert((a + b)[0] == a[0]);
        assert((a + b).drop_first() =~= a.drop_first() + b);
        lemma_resolve_stmts_append(m, a.drop_first(), b);
        assert(resolve_stmts(m, a + b).0 =~= resolve_stmts(m, a).0 + resolve_stmts(m, b).0);
    }
}

/// How one call before resolution relates to the same call after it: name
/// and arguments are untouched; the binding is either untouched or set to
/// the declared target of the name.
pub open spec fn call_shape(m: Map<Seq<char>, int>, c0: CallModel, c1: CallModel) -> bool {
    &&& c1.name == c0.name
    &&& c1.params == c0.params
    &&& (c1.binding == c0.binding || (m.contains_key(c0.name) && c1.binding == Some(m[c0.name])))
}

/// How one statement before resolution relates to the same statement after
/// it: kinds and names are untouched, and every call keeps its shape.
pub open spec fn stmt_shape(m: Map<Seq<char>, int>, s0: StmtModel, s1: StmtModel) -> bool {
    match (s0, s1) {
        (StmtModel::Decl(d0), StmtModel::Decl(d1)) => {
            &&& d1.name == d0.name
            &&& d1.body.len() == d0.body.len()
            &&& forall|j: int| 0 <= j < d0.body.len() ==> call_shape(m, #[trigger] d0.body[j], d1.body[j])
        },
        (StmtModel::Call(c0), StmtModel::Call(c1)) => call_shape(m, c0, c1),
        _ => false,
    }
}

/// Resolving a body never changes names or arguments, only bindings.
pub proof fn lemma_resolve_body_shape(m: Map<Seq<char>, int>, body: Seq<CallModel>)
    ensures
        resolve_body(m, body).0.len() == body.len(),
        forall|j: int|
            0 <= j < body.len() ==> call_shape(m, #[trigger] body[j], resolve_body(m, body).0[j]),
    decreases body.len(),
{
    lemma_resolve_body_len(m, body);
    if body.len() > 0 && call_resolvable(m, body[0]) {
        lemma_resolve_body_shape(m, body.drop_first());
        lemma_resolve_body_len(m, body.drop_first());
        assert forall|j: int| 0 <= j < body.len() implies call_shape(
            m,
            #[trigger] body[j],
            resolve_body(m, body).0[j],
        ) by {
            if j > 0 {
                assert(body.drop_first()[j - 1] == body[j]);
                assert(resolve_body(m, body).0[j] == resolve_body(m, body.drop_first()).0[j - 1]);
            }
        }
    }
}

/// Resolving statements never changes kinds, names or arguments, only
/// bindings.
pub proof fn lemma_resolve_stmts_shape(m: Map<Seq<char>, int>, stmts: Seq<StmtModel>)
    ensures
        resolve_stmts(m, stmts).0.len() == stmts.len(),
        forall|i: int|
            0 <= i < stmts.len() ==> stmt_shape(m, #[trigger] stmts[i], resolve_stmts(m, stmts).0[i]),
    decreases stmts.len(),
{
    lemma_resolve_stmts_len(m, stmts);
    if stmts.len() > 0 {
        let rest = stmts.drop_first();
        let continues = match stmts[0] {
            StmtModel::Decl(d) => resolve_body(m, d.body).1 is None,
            StmtModel::Call(c) => call_resolvable(m, c),
        };
        match stmts[0] {
            StmtModel::Decl(d) => {
                lemma_resolve_body_shape(m, d.body);
            },
            StmtModel::Call(c) => {},
        }
        if continues {
            lemma_resolve_stmts_shape(m, rest);
            lemma_resolve_stmts_len(m, rest);
            assert forall|i: int| 0 <= i < stmts.len() implies stmt_shape(
                m,
                #[trigger] stmts[i],
                resolve_stmts(m, stmts).0[i],
            ) by {
                if i > 0 {
                    assert(rest[i - 1] == stmts[i]);
                    assert(resolve_stmts(m, stmts).0[i] == resolve_stmts(m, rest).0[i - 1]);
                }
            }
        } else {
            assert forall|i: int| 0 <= i < stmts.len() implies stmt_shape(
                m,
                #[trigger] stmts[i],
                resolve_stmts(m, stmts).0[i],
            ) by {
                match stmts[0] {
                    StmtModel::Decl(d) => {
                        if i > 0 {
                            assert(resolve_stmts(m, stmts).0[i] == stmts[i]);
                        }
                    },
                    StmtModel::Call(c) => {
                        assert(resolve_stmts(m, stmts).0[i] == stmts[i]);
                    },
                }
            }
        }
    }
}

/// Two statement sequences of the same shape have the same declaration
/// index: the shape keeps kinds and names.
pub proof fn lemma_decl_map_congruence(m: Map<Seq<char>, int>, a: Seq<StmtModel>, b: Seq<StmtModel>)
    requires
        a.len() == b.len(),
        forall|i: int| 0 <= i < a.len() ==> stmt_shape(m, #[trigger] a[i], b[i]),
    ensures
        decl_map(b) == decl_map(a),
    decreases a.len(),
{
    if a.len() > 0 {
        assert forall|i: int| 0 <= i < a.drop_last().len() implies stmt_shape(
            m,
            #[trigger] a.drop_last()[i],
            b.drop_last()[i],
        ) by {
            assert(a.drop_last()[i] == a[i]);
            assert(b.drop_last()[i] == b[i]);
        }
        lemma_decl_map_congruence(m, a.drop_last(), b.drop_last());
        assert(stmt_shape(m, a[a.len() - 1], b[a.len() - 1]));
        assert(decl_map(b) =~= decl_map(a));
    }
}

/// The declaration index points only at declaration statements, inside the
/// program.
pub proof fn lemma_decl_map_targets(stmts: Seq<StmtModel>, name: Seq<char>)
    requires
        decl_map(stmts).contains_key(name),
    ensures
        0 <= decl_map(stmts)[name] < stmts.len(),
        stmts[decl_map(stmts)[name]] is Decl,
        stmts[decl_map(stmts)[name]]->Decl_0.name == name,
    decreases stmts.len(),
{
    if stmts.len() > 0 {
        let last = stmts[stmts.len() - 1];
        if last is Decl && last->Decl_0.name == name {
        } else {
            lemma_decl_map_targets(stmts.drop_last(), name);
            assert(stmts.drop_last()[decl_map(stmts)[name]] == stmts[decl_map(stmts)[name]]);
        }
    }
}

/// Resolution preserves well-formedness: every binding it writes or keeps
/// points at a declaration statement of the resolved program.
pub proof fn lemma_resolve_preserves_wf(stmts: Seq<StmtModel>)
    requires
        crate::prog::prog_wf(stmts),
    ensures
        crate::prog::prog_wf(resolve_prog(stmts).0),
{
    let m = decl_map(stmts);
    let out = resolve_prog(stmts).0;
    lemma_resolve_stmts_shape(m, stmts);
    assert forall|b: Option<int>|
        crate::prog::binding_ok(stmts, b) implies crate::prog::binding_ok(out, b) by {
        if b is Some {
            assert(stmt_shape(m, stmts[b->0], out[b->0]));
        }
    }
    assert forall|name: Seq<char>| m.contains_key(name) implies crate::prog::binding_ok(
        out,
        Some(m[name]),
    ) by {
        lemma_decl_map_targets(stmts, name);
        assert(stmt_shape(m, stmts[m[name]], out[m[name]]));
    }
    assert forall|i: int| 0 <= i < out.len() implies crate::prog::stmt_wf(
        out,
        #[trigger] out[i],
    ) by {
        assert(stmt_shape(m, stmts[i], out[i]));
        match stmts[i] {
            StmtModel::Decl(d0) => {
                let d1 = out[i]->Decl_0;
                assert forall|j: int| 0 <= j < d1.body.len() implies crate::prog::binding_ok(
                    out,
                    (#[trigger] d1.body[j]).binding,
                ) by {
                    assert(call_shape(m, d0.body[j], d1.body[j]));
                    assert(crate::prog::binding_ok(stmts, d0.body[j].binding));
                }
            },
            StmtModel::Call(c0) => {
                assert(crate::prog::binding_ok(stmts, c0.binding));
            },
        }
    }
}

/// Whether every call of one statement can be resolved against the index.
pub open spec fn stmt_resolvable(m: Map<Seq<char>, int>, s: StmtModel) -> bool {
    match s {
        StmtModel::Decl(d) => forall|j: int|
            0 <= j < d.body.len() ==> call_resolvable(m, #[trigger] d.body[j]),
        StmtModel::Call(c) => call_resolvable(m, c),
    }
}

/// Whether every call of the program — top-level or inside a body — is
/// either declared or the built-in.
pub open spec fn stmts_resolvable(m: Map<Seq<char>, int>, stmts: Seq<StmtModel>) -> bool {
    forall|i: int| 0 <= i < stmts.len() ==> stmt_resolvable(m, #[trigger] stmts[i])
}

proof fn lemma_resolve_body_err_iff(m: Map<Seq<char>, int>, body: Seq<CallModel>)
    ensures
        resolve_body(m, body).1 is None <==> forall|j: int|
            0 <= j < body.len() ==> call_resolvable(m, #[trigger] body[j]),
    decreases body.len(),
{
    if body.len() > 0 && call_resolvable(m, body[0]) {
        lemma_resolve_body_err_iff(m, body.drop_first());
        if resolve_body(m, body).1 is None {
            assert forall|j: int| 0 <= j < body.len() implies call_resolvable(
                m,
                #[trigger] body[j],
            ) by {
                if j > 0 {
                    assert(body.drop_first()[j - 1] == body[j]);
                }
            }
        } else {
            let j = choose|j: int|
                0 <= j < body.drop_first().len() && !call_resolvable(m, #[trigger] body.drop_first()[j]);
            assert(body[j + 1] == body.drop_first()[j]);
        }
    }
}

/// Resolution fails exactly when some call — top-level or inside a body —
/// is neither declared nor the built-in.
pub proof fn lemma_resolve_err_iff(m: Map<Seq<char>, int>, stmts: Seq<StmtModel>)
    ensures
        resolve_stmts(m, stmts).1 is None <==> stmts_resolvable(m, stmts),
    decreases stmts.len(),
{
    if stmts.len() > 0 {
        let rest = stmts.drop_first();
        match stmts[0] {
            StmtModel::Decl(d) => {
                lemma_resolve_body_err_iff(m, d.body);
            },
            StmtModel::Call(c) => {},
        }
        if stmt_resolvable(m, stmts[0]) {
            lemma_resolve_err_iff(m, rest);
            if resolve_stmts(m, stmts).1 is None {
                assert forall|i: int| 0 <= i < stmts.len() implies stmt_resolvable(
                    m,
                    #[trigger] stmts[i],
                ) by {
                    if i > 0 {
                        assert(rest[i - 1] == stmts[i]);
                    }
                }
            } else {
                let i = choose|i: int|
                    0 <= i < rest.len() && !stmt_resolvable(m, #[trigger] rest[i]);
                assert(stmts[i + 1] == rest[i]);
            }
        }
    }
}

/// Binding errors come exactly from calls that are neither declared nor the
/// built-in: a whole-program reading of [`lemma_resolve_err_iff`].
pub proof fn lemma_binding_error_iff(stmts: Seq<StmtModel>)
    ensures
        resolve_prog(stmts).1 is None <==> stmts_resolvable(decl_map(stmts), stmts),
{
    lemma_resolve_err_iff(decl_map(stmts), stmts);
}

proof fn lemma_resolve_body_idem(m: Map<Seq<char>, int>, body: Seq<CallModel>)
    requires
        resolve_body(m, body).1 is None,
    ensures
        resolve_body(m, resolve_body(m, body).0).0 == resolve_body(m, body).0,
        resolve_body(m, resolve_body(m, body).0).1 is None,
    decreases body.len(),
{
    if body.len() > 0 {
        let out = resolve_body(m, body).0;
        lemma_resolve_body_idem(m, body.drop_first());
        assert(out[0] == resolve_call(m, body[0]));
        assert(out.drop_first() =~= resolve_body(m, body.drop_first()).0);
        assert(resolve_call(m, out[0]) == out[0]);
        assert(resolve_body(m, out).0 =~= out);
    }
}

proof fn lemma_resolve_stmts_idem(m: Map<Seq<char>, int>, stmts: Seq<StmtModel>)
    requires
        resolve_stmts(m, stmts).1 is None,
    ensures
        resolve_stmts(m, resolve_stmts(m, stmts).0).0 == resolve_stmts(m, stmts).0,
        resolve_stmts(m, resolve_stmts(m, stmts).0).1 is None,
    decreases stmts.len(),
{
    if stmts.len() > 0 {
        let out = resolve_stmts(m, stmts).0;
        lemma_resolve_stmts_idem(m, stmts.drop_first());
        match stmts[0] {
            StmtModel::Decl(d) => {
                lemma_resolve_body_idem(m, d.body);
                assert(out[0] == StmtModel::Decl(
                    DeclModel { name: d.name, body: resolve_body(m, d.body).0 },
                ));
                assert(out.drop_first() =~= resolve_stmts(m, stmts.drop_first()).0);
                assert(resolve_stmts(m, out).0 =~= out);
            },
            StmtModel::Call(c) => {
                assert(out[0] == StmtModel::Call(resolve_call(m, c)));
                assert(out.drop_first() =~= resolve_stmts(m, stmts.drop_first()).0);
                assert(resolve_call(m, resolve_call(m, c)) == resolve_call(m, c));
                assert(resolve_stmts(m, out).0 =~= out);
            },
        }
    }
}

/// Resolution is idempotent: running the resolver on an already resolved
/// program succeeds again and yields the very same bindings. Lookups depend
/// only on the final declaration index, never on the order resolution
/// visits the calls.
pub proof fn lemma_resolver_idempotent(stmts: Seq<StmtModel>)
    requires
        resolve_prog(stmts).1 is None,
    ensures
        resolve_prog(resolve_prog(stmts).0).0 == resolve_prog(stmts).0,
        resolve_prog(resolve_prog(stmts).0).1 is None,
{
    let m = decl_map(stmts);
    let out = resolve_prog(stmts).0;
    lemma_resolve_stmts_shape(m, stmts);
    lemma_decl_map_congruence(m, stmts, out);
    lemma_resolve_stmts_idem(m, stmts);
}

/// The index pass one builds: a mapping from declared names to statement
/// positions. Entries are appended; the view is the mapping they denote,
/// where a later entry for the same name overwrites an earlier one.
pub struct FnIndex {
    entries: Vec<(String, usize)>,
}

/// The mapping denoted by the entries, in insertion order.
pub open spec fn map_of_entries(entries: Seq<(String, usize)>) -> Map<Seq<char>, int>
    decreases entries.len(),
{
    if entries.len() == 0 {
        Map::empty()
    } else {
        map_of_entries(entries.drop_last()).insert(entries.last().0@, entries.last().1 as int)
    }
}

impl View for FnIndex {
    type V = Map<Seq<char>, int>;

    closed spec fn view(&self) -> Map<Seq<char>, int> {
        map_of_entries(self.entries@)
    }
}

impl FnIndex {
    /// An empty index.
    pub fn new() -> (r: FnIndex)
        ensures
            r@ == Map::<Seq<char>, int>::empty(),
    {
        let r = FnIndex { entries: Vec::new() };
        proof {
            assert(r.entries@.len() == 0);
        }
        r
    }

    /// Inserts a name, overwriting what an earlier insert bound it to.
    pub fn insert(&mut self, name: String, target: usize)
        ensures
            final(self)@ == old(self)@.insert(name@, target as int),
    {
        let ghost before = self.entries@;
        self.entries.push((name, target));
        proof {
            assert(self.entries@.drop_last() =~= before);
        }
    }

    /// Looks the name up in the mapping.
    pub fn get(&self, name: &String) -> (r: Option<usize>)
        ensures
            match r {
                Some(k) => self@.contains_key(name@) && self@[name@] == k as int,
                None => !self@.contains_key(name@),
            },
    {
        let mut found: Option<usize> = None;
        let n = self.entries.len();
        let mut i: usize = 0;
        while i < n
            invariant
                0 <= i <= n,
                n == self.entries@.len(),
                match found {
                    Some(k) => map_of_entries(self.entries@.take(i as int)).contains_key(name@)
                        && map_of_entries(self.entries@.take(i as int))[name@] == k as int,
                    None => !map_of_entries(self.entries@.take(i as int)).contains_key(name@),
                },
            decreases n - i,
        {
            let ghost prefix = self.entries@.take(i as int);
            let entry = &self.entries[i];
            if str_eq(entry.0.as_str(), name.as_str()) {
                found = Some(entry.1);
            }
            proof {
                assert(self.entries@.take(i + 1 as int).drop_last() =~= prefix);
                assert(self.entries@.take(i + 1 as int).last() == self.entries@[i as int]);
            }
            i = i + 1;
        }
        proof {
            assert(self.entries@.take(n as int) =~= self.entries@);
        }
        found
    }
}

/// The resolver itself. It mutates the program in place: on success every
/// call's binding is set to its declaration's position, or left unset only
/// when the call's name is the built-in.
pub struct RefResolver {}

impl RefResolver {
    /// Resolves one call against the index: a declared name is bound to its
    /// declaration's position; the built-in is left unbound; any other name
    /// is a fatal binding error naming the call.
    fn resolve_function_call(functions: &FnIndex, call: &mut FunctionCall) -> (r: Result<
        (),
        String,
    >)
        ensures
            r is Ok <==> call_resolvable(functions@, old(call)@),
            r is Ok ==> final(call)@ == resolve_call(functions@, old(call)@),
            r is Err ==> *final(call) == *old(call) && r->Err_0@ == unknown_function_message(
                old(call)@.name,
            ),
    {
        match functions.get(&call.name) {
            Some(k) => {
                call.definition = Some(k);
                Ok(())
            },
            None => {
                if str_eq(call.name.as_str(), "println") {
                    Ok(())
                } else {
                    let mut msg = "unknown function ".to_owned();
                    msg.append(call.name.as_str());
                    Err(msg)
                }
            },
        }
    }

    /// Resolves every call of one body, in order, stopping at the first
    /// binding error.
    #[verifier::loop_isolation(false)]
    fn resolve_body_calls(functions: &FnIndex, body: &mut FunctionBody) -> (r: Result<(), String>)
        ensures
            final(body)@ == resolve_body(functions@, old(body)@).0,
            r is Ok <==> resolve_body(functions@, old(body)@).1 is None,
            r is Err ==> r->Err_0@ == unknown_function_message(
                resolve_body(functions@, old(body)@).1->0,
            ),
    {
        let ghost m = functions@;
        let ghost full = body@;
        let n = body.stmts.len();
        let mut j: usize = 0;
        while j < n
            invariant
                0 <= j <= n,
                functions@ == m,
                n == body.stmts@.len(),
                full.len() == n,
                body@ =~= resolve_body(m, full.take(j as int)).0 + full.skip(j as int),
                resolve_body(m, full.take(j as int)).1 is None,
            decreases n - j,
        {
            let ghost prefix = full.take(j as int);
            let ghost cur = full[j as int];
            let ghost view_before = body@;
            proof {
                lemma_resolve_body_len(m, prefix);
                assert(full.skip(j as int)[0] == full[j as int]);
                assert(body@[j as int] == cur);
            }
            let ghost list_before = body.stmts@;
            let mut c = body.stmts.remove(j);
            proof {
                assert(view_before[j as int] == list_before[j as int]@);
                assert(c@ == cur);
            }
            let res = Self::resolve_function_call(functions, &mut c);
            let ghost c_after = c;
            body.stmts.insert(j, c);
            proof {
                assert(body.stmts@ =~= list_before.update(j as int, c_after));
                assert(body@ =~= view_before.update(j as int, c_after@));
            }
            match res {
                Ok(()) => {
                    proof {
                        assert(full.take(j as int + 1) =~= prefix + seq![cur]);
                        lemma_resolve_body_append(m, prefix, seq![cur]);
                        assert(seq![cur].drop_first() =~= Seq::<CallModel>::empty());
                        assert(resolve_body(m, Seq::<CallModel>::empty()).0 =~= Seq::<
                            CallModel,
                        >::empty());
                        assert(resolve_body(m, Seq::<CallModel>::empty()).1 is None);
                        assert(resolve_body(m, seq![cur]).0 =~= seq![resolve_call(m, cur)]);
                        assert(resolve_body(m, seq![cur]).1 is None);
                        assert(body@ =~= resolve_body(m, full.take(j as int + 1)).0 + full.skip(
                            j as int + 1,
                        ));
                    }
                    j = j + 1;
                },
                Err(msg) => {
                    proof {
                        assert(body@ =~= view_before);
                        lemma_resolve_body_append(m, prefix, full.skip(j as int));
                        assert(prefix + full.skip(j as int) =~= full);
                        assert(resolve_body(m, full.skip(j as int)).1 == Some(cur.name));
                        assert(body@ =~= resolve_body(m, full).0);
                    }
                    return Err(msg);
                },
            }
        }
        proof {
            assert(full.take(n as int) =~= full);
            assert(body@ =~= resolve_body(m, full).0);
        }
        Ok(())
    }

    /// Resolves a whole program in place. Pass one indexes the declarations,
    /// last declaration of a name winning; pass two binds every call. On
    /// success every call is bound to its declaration or, only for the
    /// built-in name, left unbound; the first call that is neither declared
    /// nor the built-in aborts resolution with a fatal error naming it.
    #[verifier::loop_isolation(false)]
    #[verifier::rlimit(60)]
    pub fn resolve(prog: &mut Prog) -> (r: Result<(), String>)
        ensures
            final(prog)@ == resolve_prog(old(prog)@).0,
            r is Ok <==> resolve_prog(old(prog)@).1 is None,
            r is Err ==> r->Err_0@ == unknown_function_message(resolve_prog(old(prog)@).1->0),
    {
        let ghost orig = prog@;
        let n = prog.stmts.len();

        let mut functions = FnIndex::new();
        let mut k: usize = 0;
        while k < n
            invariant
                0 <= k <= n,
                prog == old(prog),
                functions@ == decl_map(orig.take(k as int)),
            decreases n - k,
        {
            let ghost prefix = orig.take(k as int);
            match &prog.stmts[k] {
                Statement::FunctionDecl(d) => {
                    let name = d.name.clone();
                    functions.insert(name, k);
                },
                Statement::FunctionCall(_) => {},
            }
            proof {
                assert(orig.take(k as int + 1).drop_last() =~= prefix);
                assert(orig.take(k as int + 1).last() == orig[k as int]);
                assert(orig[k as int] == prog.stmts@[k as int]@);
            }
            k = k + 1;
        }
        proof {
            assert(orig.take(n as int) =~= orig);
        }
        let ghost m = decl_map(orig);

        let mut k: usize = 0;
        while k < n
            invariant
                0 <= k <= n,
                prog.stmts@.len() == n,
                functions@ == m,
                prog@ =~= resolve_stmts(m, orig.take(k as int)).0 + orig.skip(k as int),
                resolve_stmts(m, orig.take(k as int)).1 is None,
            decreases n - k,
        {
            let ghost prefix = orig.take(k as int);
            let ghost cur = orig[k as int];
            let ghost view_before = prog@;
            proof {
                lemma_resolve_stmts_len(m, prefix);
                assert(orig.skip(k as int)[0] == cur);
                assert(prog@[k as int] == cur);
            }
            let ghost list_before = prog.stmts@;
            let stmt = prog.stmts.remove(k);
            proof {
                assert(view_before[k as int] == list_before[k as int]@);
                assert(stmt@ == cur);
            }
            let (stmt_done, res) = match stmt {
                Statement::FunctionCall(mut c) => {
                    let res = Self::resolve_function_call(&functions, &mut c);
                    (Statement::FunctionCall(c), res)
                },
                Statement::FunctionDecl(mut d) => {
                    let res = Self::resolve_body_calls(&functions, &mut d.body);
                    (Statement::FunctionDecl(d), res)
                },
            };
            let ghost stmt_exec = stmt_done;
            let ghost stmt_model = stmt_done@;
            prog.stmts.insert(k, stmt_done);
            proof {
                assert(prog.stmts@ =~= list_before.update(k as int, stmt_exec));
                assert(prog@ =~= view_before.update(k as int, stmt_model));
            }
            match res {
                Ok(()) => {
                    proof {
                        assert(orig.take(k as int + 1) =~= prefix + seq![cur]);
                        lemma_resolve_stmts_append(m, prefix, seq![cur]);
                        assert(seq![cur].drop_first() =~= Seq::<StmtModel>::empty());
                        assert(resolve_stmts(m, Seq::<StmtModel>::empty()).0 =~= Seq::<
                            StmtModel,
                        >::empty());
                        assert(resolve_stmts(m, Seq::<StmtModel>::empty()).1 is None);
                        match cur {
                            StmtModel::Decl(d) => {
                                assert(stmt_model == StmtModel::Decl(
                                    DeclModel { name: d.name, body: resolve_body(m, d.body).0 },
                                ));
                                assert(resolve_stmts(m, seq![cur]).0 =~= seq![stmt_model]);
                            },
                            StmtModel::Call(c) => {
                                assert(resolve_stmts(m, seq![cur]).0 =~= seq![stmt_model]);
                            },
                        }
                        assert(resolve_stmts(m, seq![cur]).1 is None);
                        assert(prog@ =~= resolve_stmts(m, orig.take(k as int + 1)).0 + orig.skip(
                            k as int + 1,
                        ));
                    }
                    k = k + 1;
                },
                Err(msg) => {
                    proof {
                        lemma_resolve_stmts_append(m, prefix, orig.skip(k as int));
                        assert(prefix + orig.skip(k as int) =~= orig);
                        match cur {
                            StmtModel::Decl(d) => {
                                assert(orig.skip(k as int).drop_first() =~= orig.skip(
                                    k as int + 1,
                                ));
                                assert(resolve_stmts(m, orig.skip(k as int)).0 =~= seq![stmt_model]
                                    + orig.skip(k as int + 1));
                                assert(prog@ =~= resolve_stmts(m, orig).0);
                            },
                            StmtModel::Call(c) => {
                                assert(resolve_stmts(m, orig.skip(k as int)).0 =~= orig.skip(
                                    k as int,
                                ));
                                assert(prog@ =~= resolve_stmts(m, orig).0);
                            },
                        }
                    }
                    return Err(msg);
                },
            }
        }
        proof {
            assert(orig.take(n as int) =~= orig);
            assert(prog@ =~= resolve_stmts(m, orig).0);
        }
        Ok(())
    }
}

} // verus!

