//! Values, failures, the binding environment, and the evaluator.
//!
//! The evaluator walks a syntax tree against the binding environment and
//! produces a value or a typed failure. Command nodes are delegated to a
//! process invoker that the caller passes in as a function value: the
//! evaluator materializes the argument values to text, hands name and
//! arguments to the invoker, and wraps the captured output as a string
//! value. The contracts pin every tree: `evals_to` states that the whole
//! evaluation is explained by a trace of invocations the invoker's own
//! contract admits, each carrying exactly the command's name and its
//! evaluated, materialized argument texts (`eval_tr`); on a command-free
//! tree the result and the new environment are exactly the denotational
//! semantics `eval_s`.

use vstd::prelude::*;

use crate::ast::{BinOp, Cmd, Expr, ExprV, lemma_view_args_len, view_args};

verus! {

/// The result of evaluating an expression: an unsigned integer, a signed
/// integer, or text. Values are immutable once produced.
#[derive(Clone, Debug, PartialEq)]
pub enum Value {
    Whole(u64),
    Integer(i64),
    Str(String),
}

/// The mathematical model of a `Value`.
pub enum ValueV {
    Whole(u64),
    Integer(i64),
    Str(Seq<char>),
}

impl View for Value {
    type V = ValueV;

    open spec fn view(&self) -> ValueV {
        match self {
            Value::Whole(u) => ValueV::Whole(*u),
            Value::Integer(i) => ValueV::Integer(*i),
            Value::Str(s) => ValueV::Str(s@),
        }
    }
}

impl Value {
    /// A value equal to this one under the model.
    pub fn dup(&self) -> (r: Value)
        ensures
            r@ == self@,
    {
        match self {
            Value::Whole(u) => Value::Whole(*u),
            Value::Integer(i) => Value::Integer(*i),
            Value::Str(s) => Value::Str(s.clone()),
        }
    }
}

/// The typed, terminal outcome of a parse or evaluate operation.
#[derive(Clone, Copy, Debug, PartialEq, Eq, Structural)]
pub enum Failure {
    /// The input does not match the grammar or leaves trailing text.
    ParseFailure,
    /// An identifier lookup found no binding.
    UnboundName,
    /// A binary operator was applied to operands that are not both `Whole`.
    TypeMismatch,
    /// Division by zero.
    ArithmeticFailure,
    /// The named executable could not be found or spawned.
    SpawnFailure,
    /// The captured process output is not valid text.
    DecodeFailure,
    /// The external read collaborator could not obtain a line.
    InputFailure,
}

/// The flat, mutable name-to-value store for one session. Its model is the
/// map from each bound name to the value it was last bound to.
#[derive(Debug)]
pub struct Env {
    bindings: Vec<(String, Value)>,
}

/// The map modelled by a sequence of bindings: later entries win.
pub open spec fn bindings_map(b: Seq<(String, Value)>) -> Map<Seq<char>, ValueV>
    decreases b,
{
    if b.len() == 0 {
        Map::empty()
    } else {
        bindings_map(b.drop_last()).insert(b.last().0@, b.last().1@)
    }
}

/// Scanning the bindings from the latest entry backwards agrees with the map.
pub open spec fn lookup_bindings(b: Seq<(String, Value)>, n: Seq<char>) -> Option<ValueV>
    decreases b,
{
    if b.len() == 0 {
        None
    } else if b.last().0@ == n {
        Some(b.last().1@)
    } else {
        lookup_bindings(b.drop_last(), n)
    }
}

proof fn lemma_lookup_bindings(b: Seq<(String, Value)>, n: Seq<char>)
    ensures
        (match lookup_bindings(b, n) {
            Some(v) => bindings_map(b).contains_key(n) && bindings_map(b)[n] == v,
            None => !bindings_map(b).contains_key(n),
        }),
    decreases b,
{
    if b.len() > 0 {
        lemma_lookup_bindings(b.drop_last(), n);
    }
}

impl View for Env {
    type V = Map<Seq<char>, ValueV>;

    closed spec fn view(&self) -> Map<Seq<char>, ValueV> {
        bindings_map(self.bindings@)
    }
}

impl Env {
    /// A fresh environment with no bindings.
    pub fn new() -> (r: Env)
        ensures
            r@ == Map::<Seq<char>, ValueV>::empty(),
    {
        Env { bindings: Vec::new() }
    }

    /// Look a name up; `None` exactly when the name is unbound.
    pub fn get(&self, name: &String) -> (r: Option<Value>)
        ensures
            (match r {
                Some(v) => self@.contains_key(name@) && v@ == self@[name@],
                None => !self@.contains_key(name@),
            }),
    {
        let ghost bseq = self.bindings@;
        let n = self.bindings.len();
        let mut i = n;
        proof {
            assert(bseq.take(n as int) =~= bseq);
        }
        while i > 0
            invariant
                i <= n,
                n == bseq.len(),
                bseq == self.bindings@,
                lookup_bindings(bseq, name@) == lookup_bindings(bseq.take(i as int), name@),
            decreases i,
        {
            i = i - 1;
            proof {
                assert(bseq.take(i as int + 1).last() == bseq[i as int]);
                assert(bseq.take(i as int + 1).drop_last() =~= bseq.take(i as int));
            }
            let pair = &self.bindings[i];
            if pair.0 == *name {
                proof {
                    lemma_lookup_bindings(bseq, name@);
                }
                return Some(pair.1.dup());
            }
        }
        proof {
            assert(bseq.take(0) =~= Seq::<(String, Value)>::empty());
            lemma_lookup_bindings(bseq, name@);
        }
        None
    }

    /// Bind a name to a value, overwriting any prior binding.
    pub fn set(&mut self, name: String, v: Value)
        ensures
            final(self)@ == old(self)@.insert(name@, v@),
    {
        let ghost b0 = self.bindings@;
        self.bindings.push((name, v));
        proof {
            let b1 = self.bindings@;
            assert(b1.drop_last() =~= b0);
        }
    }
}

/// What a binary operator yields on two `Whole` operands: wraparound
/// arithmetic over unsigned 64-bit integers, and truncating division, where
/// division by zero is a fatal failure, not a silent value.
pub open spec fn wrap_op(op: BinOp, a: u64, b: u64) -> Result<ValueV, Failure> {
    match op {
        BinOp::Add => Ok(ValueV::Whole(vstd::wrapping::u64_specs::wrapping_add(a, b))),
        BinOp::Sub => Ok(ValueV::Whole(vstd::wrapping::u64_specs::wrapping_sub(a, b))),
        BinOp::Mul => Ok(ValueV::Whole(vstd::wrapping::u64_specs::wrapping_mul(a, b))),
        BinOp::Div => if b == 0 {
            Err(Failure::ArithmeticFailure)
        } else {
            Ok(ValueV::Whole((a as int / b as int) as u64))
        },
    }
}

/// A binary operator is defined only when both operands are `Whole`; any
/// other combination is a type mismatch.
pub open spec fn apply_op_s(op: BinOp, l: ValueV, r: ValueV) -> Result<ValueV, Failure> {
    match (l, r) {
        (ValueV::Whole(a), ValueV::Whole(b)) => wrap_op(op, a, b),
        _ => Err(Failure::TypeMismatch),
    }
}

/// Truthiness: the coercion from any value to the boolean a conditional
/// branches on.
pub open spec fn truthy(v: ValueV) -> bool {
    match v {
        ValueV::Whole(u) => u > 0,
        ValueV::Integer(i) => i != 0,
        ValueV::Str(s) => s.len() > 0,
    }
}

/// Whether a tree contains no command node.
pub open spec fn cmd_free(e: ExprV) -> bool
    decreases e,
{
    match e {
        ExprV::UInt64(_) => true,
        ExprV::Str(_) => true,
        ExprV::Iden(_) => true,
        ExprV::Cmd(_, _) => false,
        ExprV::BinOp(_, l, r) => cmd_free(*l) && cmd_free(*r),
        ExprV::Cond(p, t, e2) => cmd_free(*p) && cmd_free(*t) && cmd_free(*e2),
        ExprV::Assign(_, e2) => cmd_free(*e2),
    }
}

/// Whether every tree of a sequence is command-free.
pub open spec fn args_cmd_free(args: Seq<ExprV>) -> bool {
    forall|i: int| 0 <= i < args.len() ==> cmd_free(#[trigger] args[i])
}

/// The semantics of a command-free tree: the result and the environment
/// after evaluation. Evaluation order is left to right and short-circuits
/// at the first failure. The command arm is never relevant: every contract
/// applies `eval_s` only to command-free trees.
pub open spec fn eval_s(e: ExprV, m: Map<Seq<char>, ValueV>) -> (Result<ValueV, Failure>, Map<
    Seq<char>,
    ValueV,
>)
    decreases e,
{
    match e {
        ExprV::UInt64(u) => (Ok(ValueV::Whole(u)), m),
        ExprV::Str(s) => (Ok(ValueV::Str(s)), m),
        ExprV::Iden(n) => if m.contains_key(n) {
            (Ok(m[n]), m)
        } else {
            (Err(Failure::UnboundName), m)
        },
        ExprV::Cmd(_, _) => (Err(Failure::SpawnFailure), m),
        ExprV::BinOp(op, l, r) => {
            let (lr, m1) = eval_s(*l, m);
            match lr {
                Err(f) => (Err(f), m1),
                Ok(lv) => {
                    let (rr, m2) = eval_s(*r, m1);
                    match rr {
                        Err(f) => (Err(f), m2),
                        Ok(rv) => (apply_op_s(op, lv, rv), m2),
                    }
                },
            }
        },
        ExprV::Cond(p, t, e2) => {
            let (pr, m1) = eval_s(*p, m);
            match pr {
                Err(f) => (Err(f), m1),
                Ok(pv) => if truthy(pv) {
                    eval_s(*t, m1)
                } else {
                    eval_s(*e2, m1)
                },
            }
        },
        ExprV::Assign(n, e2) => {
            let (r, m1) = eval_s(*e2, m);
            match r {
                Err(f) => (Err(f), m1),
                Ok(v) => (Ok(v), m1.insert(n, v)),
            }
        },
    }
}

/// Evaluating the trees `args[i..]` left to right, short-circuiting at the
/// first failure.
pub open spec fn eval_args_from(args: Seq<ExprV>, i: int, m: Map<Seq<char>, ValueV>) -> (Result<
    Seq<ValueV>,
    Failure,
>, Map<Seq<char>, ValueV>)
    decreases args.len() - i,
{
    if i < 0 || i >= args.len() {
        (Ok(Seq::empty()), m)
    } else {
        let (r0, m1) = eval_s(args[i], m);
        match r0 {
            Err(f) => (Err(f), m1),
            Ok(v) => {
                let (rr, m2) = eval_args_from(args, i + 1, m1);
                match rr {
                    Err(f) => (Err(f), m2),
                    Ok(vs) => (Ok(seq![v] + vs), m2),
                }
            },
        }
    }
}

/// Evaluating a whole argument list left to right.
pub open spec fn eval_args_s(args: Seq<ExprV>, m: Map<Seq<char>, ValueV>) -> (Result<
    Seq<ValueV>,
    Failure,
>, Map<Seq<char>, ValueV>) {
    eval_args_from(args, 0, m)
}

/// The decimal digit character for `d`.
pub open spec fn digit_char(d: int) -> char {
    if d == 0 {
        '0'
    } else if d == 1 {
        '1'
    } else if d == 2 {
        '2'
    } else if d == 3 {
        '3'
    } else if d == 4 {
        '4'
    } else if d == 5 {
        '5'
    } else if d == 6 {
        '6'
    } else if d == 7 {
        '7'
    } else if d == 8 {
        '8'
    } else {
        '9'
    }
}

/// The decimal text of a non-negative integer, without sign or padding.
pub open spec fn dec_str(n: int) -> Seq<char>
    decreases n,
{
    if n < 10 {
        seq![digit_char(n)]
    } else {
        dec_str(n / 10).push(digit_char(n % 10))
    }
}

/// How a value is materialized to process-argument text: numbers as decimal
/// text, strings as the text itself, unquoted.
pub open spec fn mat_s(v: ValueV) -> Seq<char> {
    match v {
        ValueV::Whole(u) => dec_str(u as int),
        ValueV::Integer(i) => if i >= 0 {
            dec_str(i as int)
        } else {
            seq!['-'] + dec_str(-(i as int))
        },
        ValueV::Str(s) => s,
    }
}

/// The materialized text of each value of a sequence, in order.
pub open spec fn mats(vs: Seq<ValueV>) -> Seq<Seq<char>> {
    Seq::new(vs.len(), |i: int| mat_s(vs[i]))
}

/// The model of an evaluation result.
pub open spec fn res_model(r: Result<Value, Failure>) -> Result<ValueV, Failure> {
    match r {
        Ok(v) => Ok(v@),
        Err(f) => Err(f),
    }
}

/// A process invoker may be called on any name and argument list.
pub open spec fn invoker_ok<F: Fn(String, Vec<String>) -> Result<String, Failure>>(
    invoke: &F,
) -> bool {
    forall|a: (String, Vec<String>)| #[trigger] call_requires(*invoke, a)
}

/// What a command invocation may return: on success a string value equal
/// to some output the invoker's contract admits for exactly this name and
/// these materialized argument texts; on failure an error the invoker's
/// contract admits for them.
pub open spec fn cmd_result_ok<F: Fn(String, Vec<String>) -> Result<String, Failure>>(
    invoke: &F,
    name: Seq<char>,
    vs: Seq<ValueV>,
    r: Result<Value, Failure>,
) -> bool {
    match r {
        Ok(v) => exists|nm: String, av: Vec<String>, out: String|
            nm@ == name && av.deep_view() == mats(vs) && #[trigger] call_ensures(
                *invoke,
                (nm, av),
                Ok(out),
            ) && v@ == ValueV::Str(out@),
        Err(f) => exists|nm: String, av: Vec<String>|
            nm@ == name && av.deep_view() == mats(vs) && #[trigger] call_ensures(
                *invoke,
                (nm, av),
                Err(f),
            ),
    }
}

/// What the evaluator guarantees for a command node whose arguments are all
/// command-free: the arguments are evaluated left to right; on their
/// success the invoker is handed exactly the command's name and the
/// materialized argument texts, and its outcome is returned, the captured
/// output wrapped as a string value.
pub open spec fn cmd_ensures<F: Fn(String, Vec<String>) -> Result<String, Failure>>(
    invoke: &F,
    c: Cmd,
    m0: Map<Seq<char>, ValueV>,
    r: Result<Value, Failure>,
    m_after: Map<Seq<char>, ValueV>,
) -> bool {
    args_cmd_free(view_args(c.args@)) ==> {
        let (ra, ms) = eval_args_s(view_args(c.args@), m0);
        match ra {
            Err(f) => r == Result::<Value, Failure>::Err(f) && m_after == ms,
            Ok(vs) => m_after == ms && cmd_result_ok(invoke, c.cmd@, vs, r),
        }
    }
}

/// What the evaluator guarantees for an assignment whose right-hand side is
/// a command with command-free arguments: the command runs as `cmd_ensures`
/// says, and on success its value is additionally bound under the name.
pub open spec fn assign_cmd_ensures<F: Fn(String, Vec<String>) -> Result<String, Failure>>(
    invoke: &F,
    name: Seq<char>,
    c: Cmd,
    m0: Map<Seq<char>, ValueV>,
    r: Result<Value, Failure>,
    m_after: Map<Seq<char>, ValueV>,
) -> bool {
    args_cmd_free(view_args(c.args@)) ==> {
        let (ra, ms) = eval_args_s(view_args(c.args@), m0);
        match ra {
            Err(f) => r == Result::<Value, Failure>::Err(f) && m_after == ms,
            Ok(vs) => cmd_result_ok(invoke, c.cmd@, vs, r) && (match r {
                Ok(v) => m_after == ms.insert(name, v@),
                Err(_) => m_after == ms,
            }),
        }
    }
}

/// What the evaluator guarantees for a conditional with a command-free
/// predicate: the predicate selects a branch by truthiness, and when the
/// selected branch is itself a command node, that command runs from the
/// environment the predicate left behind, as `cmd_ensures` says.
pub open spec fn cond_cmd_ensures<F: Fn(String, Vec<String>) -> Result<String, Failure>>(
    invoke: &F,
    p: Expr,
    t: Expr,
    el: Expr,
    m0: Map<Seq<char>, ValueV>,
    r: Result<Value, Failure>,
    m_after: Map<Seq<char>, ValueV>,
) -> bool {
    cmd_free(p@) ==> {
        let (pr, m1) = eval_s(p@, m0);
        pr matches Ok(pv) ==> {
            let tk = if truthy(pv) {
                t
            } else {
                el
            };
            tk matches Expr::Cmd(c) ==> cmd_ensures(invoke, c, m1, r, m_after)
        }
    }
}

/// One invocation of the process invoker: the executable name, the
/// argument texts, and the outcome that came back.
pub type Invocation = (String, Vec<String>, Result<String, Failure>);

/// The trace semantics of a tree: the result, the final environment, the
/// part of `calls` not yet consumed, and whether `calls` matched the
/// invocations the tree demands. Evaluation is left to right and
/// short-circuits at the first failure; each command node consumes the
/// next entry of `calls`, which must carry exactly the command's name and
/// its evaluated, materialized argument texts, and yields that entry's
/// outcome, success wrapped as a string value. A tree with no command
/// nodes consumes nothing and this agrees with `eval_s`.
pub open spec fn eval_tr(e: ExprV, m: Map<Seq<char>, ValueV>, calls: Seq<Invocation>) -> (
    Result<ValueV, Failure>,
    Map<Seq<char>, ValueV>,
    Seq<Invocation>,
    bool,
)
    decreases e, 0int,
{
    match e {
        ExprV::UInt64(u) => (Ok(ValueV::Whole(u)), m, calls, true),
        ExprV::Str(s) => (Ok(ValueV::Str(s)), m, calls, true),
        ExprV::Iden(n) => if m.contains_key(n) {
            (Ok(m[n]), m, calls, true)
        } else {
            (Err(Failure::UnboundName), m, calls, true)
        },
        ExprV::Cmd(name, args) => {
            let (ra, m1, c1, w1) = eval_args_tr(args, 0, m, calls);
            match ra {
                Err(f) => (Err(f), m1, c1, w1),
                Ok(vs) => if c1.len() > 0 && c1[0].0@ == name && c1[0].1.deep_view() == mats(vs) {
                    match c1[0].2 {
                        Ok(s) => (Ok(ValueV::Str(s@)), m1, c1.drop_first(), w1),
                        Err(f) => (Err(f), m1, c1.drop_first(), w1),
                    }
                } else {
                    (Err(Failure::SpawnFailure), m1, c1, false)
                },
            }
        },
        ExprV::BinOp(op, l, r) => {
            let (lr, m1, c1, w1) = eval_tr(*l, m, calls);
            match lr {
                Err(f) => (Err(f), m1, c1, w1),
                Ok(lv) => {
                    let (rr, m2, c2, w2) = eval_tr(*r, m1, c1);
                    match rr {
                        Err(f) => (Err(f), m2, c2, w1 && w2),
                        Ok(rv) => (apply_op_s(op, lv, rv), m2, c2, w1 && w2),
                    }
                },
            }
        },
        ExprV::Cond(p, t, e2) => {
            let (pr, m1, c1, w1) = eval_tr(*p, m, calls);
            match pr {
                Err(f) => (Err(f), m1, c1, w1),
                Ok(pv) => {
                    let (out, m2, c2, w2) = if truthy(pv) {
                        eval_tr(*t, m1, c1)
                    } else {
                        eval_tr(*e2, m1, c1)
                    };
                    (out, m2, c2, w1 && w2)
                },
            }
        },
        ExprV::Assign(n, e2) => {
            let (vr, m1, c1, w1) = eval_tr(*e2, m, calls);
            match vr {
                Err(f) => (Err(f), m1, c1, w1),
                Ok(v) => (Ok(v), m1.insert(n, v), c1, w1),
            }
        },
    }
}

/// The trace semantics of the argument trees `args[j..]`, left to right,
/// short-circuiting at the first failure.
pub open spec fn eval_args_tr(
    args: Seq<ExprV>,
    j: int,
    m: Map<Seq<char>, ValueV>,
    calls: Seq<Invocation>,
) -> (Result<Seq<ValueV>, Failure>, Map<Seq<char>, ValueV>, Seq<Invocation>, bool)
    decreases args, args.len() - j,
{
    if j < 0 || j >= args.len() {
        (Ok(Seq::empty()), m, calls, true)
    } else {
        let (r0, m1, c1, w1) = eval_tr(args[j], m, calls);
        match r0 {
            Err(f) => (Err(f), m1, c1, w1),
            Ok(v) => {
                let (rr, m2, c2, w2) = eval_args_tr(args, j + 1, m1, c1);
                match rr {
                    Err(f) => (Err(f), m2, c2, w1 && w2),
                    Ok(vs) => (Ok(seq![v] + vs), m2, c2, w1 && w2),
                }
            },
        }
    }
}

/// On success, the values `ws` stand before the values of `rr`; a
/// failure passes through.
pub open spec fn prepend_res(ws: Seq<ValueV>, rr: Result<Seq<ValueV>, Failure>) -> Result<
    Seq<ValueV>,
    Failure,
> {
    match rr {
        Ok(vs) => Ok(ws + vs),
        Err(f) => Err(f),
    }
}

/// Every invocation of the trace is one the invoker's own contract admits.
pub open spec fn calls_ok<F: Fn(String, Vec<String>) -> Result<String, Failure>>(
    invoke: &F,
    calls: Seq<Invocation>,
) -> bool {
    forall|k: int|
        0 <= k < calls.len() ==> #[trigger] call_ensures(
            *invoke,
            (calls[k].0, calls[k].1),
            calls[k].2,
        )
}

/// The trace `calls` explains evaluating `e` in `m0` as returning `r` and
/// leaving `m2`: the invoker admits every invocation, the trace is matched
/// and consumed whole, and result and environment are those of `eval_tr`.
pub open spec fn runs_with<F: Fn(String, Vec<String>) -> Result<String, Failure>>(
    invoke: &F,
    calls: Seq<Invocation>,
    e: ExprV,
    m0: Map<Seq<char>, ValueV>,
    r: Result<Value, Failure>,
    m2: Map<Seq<char>, ValueV>,
) -> bool {
    calls_ok(invoke, calls) && ({
        let (out, mz, rem, wf) = eval_tr(e, m0, calls);
        res_model(r) == out && m2 == mz && rem.len() == 0 && wf
    })
}

/// Some trace of admitted invocations explains the evaluation: this is the
/// evaluator's contract for every tree, command nodes included, at any
/// depth.
pub open spec fn evals_to<F: Fn(String, Vec<String>) -> Result<String, Failure>>(
    invoke: &F,
    e: ExprV,
    m0: Map<Seq<char>, ValueV>,
    r: Result<Value, Failure>,
    m2: Map<Seq<char>, ValueV>,
) -> bool {
    exists|calls: Seq<Invocation>| #[trigger] runs_with(invoke, calls, e, m0, r, m2)
}

/// Appending unconsumed entries to a matched trace changes nothing but the
/// leftover: the run reads only the entries it consumes.
proof fn lemma_tr_ext(e: ExprV, m: Map<Seq<char>, ValueV>, calls: Seq<Invocation>, ext: Seq<
    Invocation,
>)
    ensures
        ({
            let (out, mz, rem, wf) = eval_tr(e, m, calls);
            wf ==> eval_tr(e, m, calls + ext) == (out, mz, rem + ext, wf)
        }),
    decreases e, 0int,
{
    match e {
        ExprV::UInt64(_) => {},
        ExprV::Str(_) => {},
        ExprV::Iden(_) => {},
        ExprV::Cmd(name, args) => {
            lemma_args_tr_ext(args, 0, m, calls, ext);
            let (ra, m1, c1, w1) = eval_args_tr(args, 0, m, calls);
            if w1 {
                match ra {
                    Err(_) => {},
                    Ok(vs) => {
                        if c1.len() > 0 && c1[0].0@ == name && c1[0].1.deep_view() == mats(vs) {
                            assert((c1 + ext)[0] == c1[0]);
                            assert((c1 + ext).drop_first() =~= c1.drop_first() + ext);
                        }
                    },
                }
            }
        },
        ExprV::BinOp(_, l, r) => {
            lemma_tr_ext(*l, m, calls, ext);
            let (lr, m1, c1, w1) = eval_tr(*l, m, calls);
            if w1 {
                match lr {
                    Err(_) => {},
                    Ok(_) => {
                        lemma_tr_ext(*r, m1, c1, ext);
                    },
                }
            }
        },
        ExprV::Cond(p, t, e2) => {
            lemma_tr_ext(*p, m, calls, ext);
            let (pr, m1, c1, w1) = eval_tr(*p, m, calls);
            if w1 {
                match pr {
                    Err(_) => {},
                    Ok(pv) => {
                        if truthy(pv) {
                            lemma_tr_ext(*t, m1, c1, ext);
                        } else {
                            lemma_tr_ext(*e2, m1, c1, ext);
                        }
                    },
                }
            }
        },
        ExprV::Assign(_, e2) => {
            lemma_tr_ext(*e2, m, calls, ext);
        },
    }
}

proof fn lemma_args_tr_ext(
    args: Seq<ExprV>,
    j: int,
    m: Map<Seq<char>, ValueV>,
    calls: Seq<Invocation>,
    ext: Seq<Invocation>,
)
    ensures
        ({
            let (ra, mz, rem, wf) = eval_args_tr(args, j, m, calls);
            wf ==> eval_args_tr(args, j, m, calls + ext) == (ra, mz, rem + ext, wf)
        }),
    decreases args, args.len() - j,
{
    if 0 <= j && j < args.len() {
        lemma_tr_ext(args[j], m, calls, ext);
        let (r0, m1, c1, w1) = eval_tr(args[j], m, calls);
        if w1 {
            match r0 {
                Err(_) => {},
                Ok(_) => {
                    lemma_args_tr_ext(args, j + 1, m1, c1, ext);
                },
            }
        }
    }
}

proof fn lemma_calls_ok_concat<F: Fn(String, Vec<String>) -> Result<String, Failure>>(
    invoke: &F,
    a: Seq<Invocation>,
    b: Seq<Invocation>,
)
    requires
        calls_ok(invoke, a),
        calls_ok(invoke, b),
    ensures
        calls_ok(invoke, a + b),
{
    assert forall|k: int| 0 <= k < (a + b).len() implies #[trigger] call_ensures(
        *invoke,
        ((a + b)[k].0, (a + b)[k].1),
        (a + b)[k].2,
    ) by {
        if k < a.len() {
            assert((a + b)[k] == a[k]);
        } else {
            assert((a + b)[k] == b[k - a.len()]);
        }
    }
}

/// The size of a tree, used as the termination measure of the evaluator.
pub open spec fn esize(e: ExprV) -> nat
    decreases e,
{
    match e {
        ExprV::UInt64(_) => 1,
        ExprV::Str(_) => 1,
        ExprV::Iden(_) => 1,
        ExprV::Cmd(_, args) => 1 + args_size(args),
        ExprV::BinOp(_, l, r) => 1 + esize(*l) + esize(*r),
        ExprV::Cond(p, t, e2) => 1 + esize(*p) + esize(*t) + esize(*e2),
        ExprV::Assign(_, e2) => 1 + esize(*e2),
    }
}

/// The summed size of a sequence of trees.
pub open spec fn args_size(args: Seq<ExprV>) -> nat
    decreases args,
{
    if args.len() == 0 {
        0
    } else {
        esize(args[0]) + args_size(args.drop_first())
    }
}

proof fn lemma_esize_pos(e: ExprV)
    ensures
        esize(e) >= 1,
{
    match e {
        ExprV::UInt64(_) => {},
        ExprV::Str(_) => {},
        ExprV::Iden(_) => {},
        ExprV::Cmd(_, _) => {},
        ExprV::BinOp(_, _, _) => {},
        ExprV::Cond(_, _, _) => {},
        ExprV::Assign(_, _) => {},
    }
}

proof fn lemma_args_size_elem(args: Seq<ExprV>, i: int)
    requires
        0 <= i < args.len(),
    ensures
        esize(args[i]) <= args_size(args),
    decreases args.len(),
{
    if i == 0 {
    } else {
        lemma_args_size_elem(args.drop_first(), i - 1);
        assert(args.drop_first()[i - 1] == args[i]);
    }
}

/// Evaluate an identifier: look the name up, or fail with `UnboundName`.
pub fn eval_iden(env: &Env, i: &String) -> (r: Result<Value, Failure>)
    ensures
        (match r {
            Ok(v) => env@.contains_key(i@) && v@ == env@[i@],
            Err(f) => f == Failure::UnboundName && !env@.contains_key(i@),
        }),
{
    match env.get(i) {
        Some(v) => Ok(v),
        None => Err(Failure::UnboundName),
    }
}

/// Whether a tree is a leaf: a literal or an identifier.
pub open spec fn is_single(e: ExprV) -> bool {
    e is UInt64 || e is Str || e is Iden
}

/// Evaluate a leaf: literals evaluate to their embedded value directly,
/// identifiers are looked up. The environment is unchanged.
pub fn eval_single(env: &Env, e: &Expr) -> (r: Result<Value, Failure>)
    requires
        is_single(e@),
    ensures
        (res_model(r), env@) == eval_s(e@, env@),
{
    match e {
        Expr::UInt64(u) => Ok(Value::Whole(*u)),
        Expr::Str(s) => Ok(Value::Str(s.clone())),
        Expr::Iden(i) => eval_iden(env, i),
        _ => {
            proof {
                assert(false);
            }
            Err(Failure::TypeMismatch)
        },
    }
}

/// The decimal digit text for `d`.
fn digit_string(d: u64) -> (r: String)
    requires
        d < 10,
    ensures
        r@ == seq![digit_char(d as int)],
{
    if d == 0 {
        proof {
            reveal_strlit("0");
        }
        String::from_str("0")
    } else if d == 1 {
        proof {
            reveal_strlit("1");
        }
        String::from_str("1")
    } else if d == 2 {
        proof {
            reveal_strlit("2");
        }
        String::from_str("2")
    } else if d == 3 {
        proof {
            reveal_strlit("3");
        }
        String::from_str("3")
    } else if d == 4 {
        proof {
            reveal_strlit("4");
        }
        String::from_str("4")
    } else if d == 5 {
        proof {
            reveal_strlit("5");
        }
        String::from_str("5")
    } else if d == 6 {
        proof {
            reveal_strlit("6");
        }
        String::from_str("6")
    } else if d == 7 {
        proof {
            reveal_strlit("7");
        }
        String::from_str("7")
    } else if d == 8 {
        proof {
            reveal_strlit("8");
        }
        String::from_str("8")
    } else {
        proof {
            reveal_strlit("9");
        }
        String::from_str("9")
    }
}

/// The decimal text of an unsigned 64-bit integer.
pub fn u64_to_string(n: u64) -> (r: String)
    ensures
        r@ == dec_str(n as int),
    decreases n,
{
    if n < 10 {
        digit_string(n)
    } else {
        let pre = u64_to_string(n / 10);
        let d = digit_string(n % 10);
        let r = pre.concat(d.as_str());
        proof {
            assert(r@ =~= dec_str(n as int / 10).push(digit_char(n as int % 10)));
        }
        r
    }
}

/// The decimal text of a signed 64-bit integer, with a leading minus sign
/// when negative.
pub fn i64_to_string(i: i64) -> (r: String)
    ensures
        r@ == mat_s(ValueV::Integer(i)),
{
    if i >= 0 {
        u64_to_string(i as u64)
    } else {
        let mag: u64 = (0i128 - (i as i128)) as u64;
        proof {
            reveal_strlit("-");
            assert(mag as int == -(i as int));
        }
        let sign = String::from_str("-");
        let r = sign.concat(u64_to_string(mag).as_str());
        proof {
            assert(r@ =~= seq!['-'] + dec_str(-(i as int)));
        }
        r
    }
}

/// Materialize a value to process-argument text.
pub fn materialize(v: &Value) -> (r: String)
    ensures
        r@ == mat_s(v@),
{
    match v {
        Value::Whole(u) => u64_to_string(*u),
        Value::Integer(i) => i64_to_string(*i),
        Value::Str(s) => s.clone(),
    }
}

/// On success the computation `out` yields the values `ws` followed by its
/// own values; a failure passes through.
pub open spec fn prepend_vals(
    ws: Seq<ValueV>,
    out: (Result<Seq<ValueV>, Failure>, Map<Seq<char>, ValueV>),
) -> (Result<Seq<ValueV>, Failure>, Map<Seq<char>, ValueV>) {
    match out.0 {
        Ok(vs) => (Ok(ws + vs), out.1),
        Err(f) => (Err(f), out.1),
    }
}

/// The character sequences of a sequence of strings, in order.
pub open spec fn strs_deep(v: Seq<String>) -> Seq<Seq<char>> {
    Seq::new(v.len(), |i: int| v[i]@)
}

proof fn lemma_strs_deep_push(v: Seq<String>, s: String)
    ensures
        strs_deep(v.push(s)) =~= strs_deep(v).push(s@),
{
}

proof fn lemma_mats_push(vs: Seq<ValueV>, v: ValueV)
    ensures
        mats(vs.push(v)) =~= mats(vs).push(mat_s(v)),
{
}

proof fn lemma_strs_deep_is_deep_view(v: Vec<String>)
    ensures
        v.deep_view() =~= strs_deep(v@),
{
}

/// Evaluate a command node: evaluate every argument left to right,
/// materialize the resulting values to text, delegate to the process
/// invoker, and wrap its captured output as a string value.
pub fn eval_cmd<F: Fn(String, Vec<String>) -> Result<String, Failure>>(
    env: &mut Env,
    c: &Cmd,
    invoke: &F,
) -> (r: Result<Value, Failure>)
    requires
        invoker_ok(invoke),
    ensures
        cmd_ensures(invoke, *c, old(env)@, r, final(env)@),
        evals_to(invoke, ExprV::Cmd(c.cmd@, view_args(c.args@)), old(env)@, r, final(env)@),
    decreases args_size(view_args(c.args@)), 1int,
{
    let ghost m0 = env@;
    let ghost a_v = view_args(c.args@);
    proof {
        lemma_view_args_len(c.args@);
    }
    let mut vals: Vec<String> = Vec::new();
    let ghost mut ws = Seq::<ValueV>::empty();
    let ghost mut tr = Seq::<Invocation>::empty();
    let mut k: usize = 0;
    proof {
        assert(strs_deep(vals@) =~= mats(ws));
        if args_cmd_free(a_v) {
            let inner = eval_args_from(a_v, 0, m0);
            if inner.0 is Ok {
                assert(ws + inner.0->Ok_0 =~= inner.0->Ok_0);
            }
        }
        assert forall|ext: Seq<Invocation>| #![trigger eval_args_tr(a_v, 0, m0, ext)] ({
            let (ra2, mz, cr, wf) = eval_args_tr(a_v, 0, m0, ext);
            wf ==> eval_args_tr(a_v, 0, m0, tr + ext) == (prepend_res(ws, ra2), mz, cr, wf)
        }) by {
            assert(tr + ext =~= ext);
            let (ra2, mz, cr, wf) = eval_args_tr(a_v, 0, m0, ext);
            if wf {
                match ra2 {
                    Ok(vs) => {
                        assert(ws + vs =~= vs);
                    },
                    Err(_) => {},
                }
            }
        }
    }
    #[verifier::loop_isolation(false)]
    while k < c.args.len()
        invariant
            invoker_ok(invoke),
            k <= c.args.len(),
            a_v == view_args(c.args@),
            a_v.len() == c.args.len(),
            forall|i: int| 0 <= i < c.args.len() ==> a_v[i] == c.args@[i].view(),
            args_cmd_free(a_v) ==> eval_args_from(a_v, 0, m0) == prepend_vals(
                ws,
                eval_args_from(a_v, k as int, env@),
            ),
            strs_deep(vals@) == mats(ws),
            ws.len() == k,
            calls_ok(invoke, tr),
            forall|ext: Seq<Invocation>| #![trigger eval_args_tr(a_v, k as int, env@, ext)] ({
                let (ra2, mz, cr, wf) = eval_args_tr(a_v, k as int, env@, ext);
                wf ==> eval_args_tr(a_v, 0, m0, tr + ext) == (prepend_res(ws, ra2), mz, cr, wf)
            }),
        decreases c.args.len() - k,
    {
        let ghost m_before = env@;
        proof {
            lemma_args_size_elem(a_v, k as int);
            lemma_esize_pos(a_v[k as int]);
        }
        let res = eval(env, &c.args[k], invoke);
        let v = match res {
            Ok(v) => v,
            Err(f) => {
                proof {
                    if args_cmd_free(a_v) {
                        assert(cmd_free(a_v[k as int]));
                        assert((res_model(res), env@) == eval_s(a_v[k as int], m_before));
                        assert(eval_args_from(a_v, k as int, m_before) == (
                            Result::<Seq<ValueV>, Failure>::Err(f),
                            env@,
                        ));
                        assert(eval_args_s(a_v, m0) == (
                            Result::<Seq<ValueV>, Failure>::Err(f),
                            env@,
                        ));
                    }
                    let trk = choose|cc: Seq<Invocation>|
                        runs_with(invoke, cc, a_v[k as int], m_before, res, env@);
                    assert(runs_with(invoke, trk, a_v[k as int], m_before, res, env@));
                    lemma_calls_ok_concat(invoke, tr, trk);
                    assert(eval_args_tr(a_v, k as int, m_before, trk) == (
                        Result::<Seq<ValueV>, Failure>::Err(f),
                        env@,
                        eval_tr(a_v[k as int], m_before, trk).2,
                        true,
                    ));
                    assert(eval_args_tr(a_v, 0, m0, tr + trk) == (
                        Result::<Seq<ValueV>, Failure>::Err(f),
                        env@,
                        eval_tr(a_v[k as int], m_before, trk).2,
                        true,
                    ));
                    assert(runs_with(
                        invoke,
                        tr + trk,
                        ExprV::Cmd(c.cmd@, a_v),
                        m0,
                        Result::<Value, Failure>::Err(f),
                        env@,
                    ));
                }
                return Err(f);
            },
        };
        let ghost vv = v@;
        let m = materialize(&v);
        let ghost vals_old = vals@;
        vals.push(m);
        proof {
            if args_cmd_free(a_v) {
                assert(cmd_free(a_v[k as int]));
                assert((res_model(res), env@) == eval_s(a_v[k as int], m_before));
                assert(eval_args_from(a_v, k as int, m_before) == ({
                    let (rr, m2) = eval_args_from(a_v, k as int + 1, env@);
                    match rr {
                        Err(f) => (Result::<Seq<ValueV>, Failure>::Err(f), m2),
                        Ok(vs) => (Ok(seq![vv] + vs), m2),
                    }
                }));
                let (rr, m2) = eval_args_from(a_v, k as int + 1, env@);
                if rr is Ok {
                    assert(ws + (seq![vv] + rr->Ok_0) =~= ws.push(vv) + rr->Ok_0);
                }
            }
            lemma_strs_deep_push(vals_old, vals@.last());
            lemma_mats_push(ws, vv);
            assert(vals@ == vals_old.push(vals@.last()));
            assert(strs_deep(vals@) =~= mats(ws.push(vv)));
            let trk = choose|cc: Seq<Invocation>|
                runs_with(invoke, cc, a_v[k as int], m_before, res, env@);
            assert(runs_with(invoke, trk, a_v[k as int], m_before, res, env@));
            lemma_calls_ok_concat(invoke, tr, trk);
            assert forall|ext: Seq<Invocation>| #![trigger eval_args_tr(a_v, k as int + 1, env@, ext)] ({
                let (ra2, mz, cr, wf) = eval_args_tr(a_v, k as int + 1, env@, ext);
                wf ==> eval_args_tr(a_v, 0, m0, (tr + trk) + ext) == (
                    prepend_res(ws.push(vv), ra2),
                    mz,
                    cr,
                    wf,
                )
            }) by {
                let (ra2, mz, cr, wf) = eval_args_tr(a_v, k as int + 1, env@, ext);
                if wf {
                    lemma_tr_ext(a_v[k as int], m_before, trk, ext);
                    assert(eval_tr(a_v[k as int], m_before, trk).2 + ext =~= ext);
                    assert(eval_tr(a_v[k as int], m_before, trk + ext) == (
                        Result::<ValueV, Failure>::Ok(vv),
                        env@,
                        ext,
                        true,
                    ));
                    let comb = (match ra2 {
                        Err(f2) => Result::<Seq<ValueV>, Failure>::Err(f2),
                        Ok(vs) => Ok(seq![vv] + vs),
                    });
                    assert(eval_args_tr(a_v, k as int, m_before, trk + ext) == (comb, mz, cr, wf));
                    assert(tr + (trk + ext) =~= (tr + trk) + ext);
                    assert(eval_args_tr(a_v, 0, m0, tr + (trk + ext)) == (
                        prepend_res(ws, comb),
                        mz,
                        cr,
                        wf,
                    ));
                    match ra2 {
                        Ok(vs) => {
                            assert(ws + (seq![vv] + vs) =~= ws.push(vv) + vs);
                            assert(prepend_res(ws, comb) == prepend_res(ws.push(vv), ra2));
                        },
                        Err(_) => {},
                    }
                }
            }
            ws = ws.push(vv);
            tr = tr + trk;
        }
        k = k + 1;
    }
    proof {
        if args_cmd_free(a_v) {
            assert(eval_args_from(a_v, k as int, env@) == (
                Result::<Seq<ValueV>, Failure>::Ok(Seq::<ValueV>::empty()),
                env@,
            ));
            assert(ws + Seq::<ValueV>::empty() =~= ws);
            assert(eval_args_s(a_v, m0) == (Result::<Seq<ValueV>, Failure>::Ok(ws), env@));
        }
        lemma_strs_deep_is_deep_view(vals);
    }
    let name = c.cmd.clone();
    let ghost name_g = name;
    let ghost vals_g = vals;
    let out = invoke(name, vals);
    let ghost outcome = out;
    proof {
        let fin = seq![(name_g, vals_g, outcome)];
        assert(calls_ok(invoke, fin)) by {
            assert(fin[0] == (name_g, vals_g, outcome));
        }
        lemma_calls_ok_concat(invoke, tr, fin);
        assert(eval_args_tr(a_v, k as int, env@, fin) == (
            Result::<Seq<ValueV>, Failure>::Ok(Seq::<ValueV>::empty()),
            env@,
            fin,
            true,
        ));
        assert(ws + Seq::<ValueV>::empty() =~= ws);
        assert(eval_args_tr(a_v, 0, m0, tr + fin) == (
            Result::<Seq<ValueV>, Failure>::Ok(ws),
            env@,
            fin,
            true,
        ));
        assert(name_g@ == c.cmd@ && vals_g.deep_view() == mats(ws) && call_ensures(
            *invoke,
            (name_g, vals_g),
            outcome,
        ));
        assert(fin.drop_first() =~= Seq::<Invocation>::empty());
    }
    match out {
        Ok(s) => {
            let ghost out_g = s;
            let r = Value::Str(s);
            proof {
                if args_cmd_free(a_v) {
                    assert(name_g@ == c.cmd@ && vals_g.deep_view() == mats(ws) && call_ensures(
                        *invoke,
                        (name_g, vals_g),
                        Ok(out_g),
                    ) && r@ == ValueV::Str(out_g@));
                }
                let fin = seq![(name_g, vals_g, outcome)];
                assert(runs_with(
                    invoke,
                    tr + fin,
                    ExprV::Cmd(c.cmd@, a_v),
                    m0,
                    Result::<Value, Failure>::Ok(r),
                    env@,
                ));
            }
            Ok(r)
        },
        Err(f) => {
            proof {
                if args_cmd_free(a_v) {
                    assert(name_g@ == c.cmd@ && vals_g.deep_view() == mats(ws) && call_ensures(
                        *invoke,
                        (name_g, vals_g),
                        Err(f),
                    ));
                }
                let fin = seq![(name_g, vals_g, outcome)];
                assert(runs_with(
                    invoke,
                    tr + fin,
                    ExprV::Cmd(c.cmd@, a_v),
                    m0,
                    Result::<Value, Failure>::Err(f),
                    env@,
                ));
            }
            Err(f)
        },
    }
}

/// Evaluate `left op right`: both operands are fully evaluated, left before
/// right, even if the operator will later fail.
pub fn eval_binop<F: Fn(String, Vec<String>) -> Result<String, Failure>>(
    env: &mut Env,
    op: BinOp,
    left: &Expr,
    right: &Expr,
    invoke: &F,
) -> (r: Result<Value, Failure>)
    requires
        invoker_ok(invoke),
    ensures
        cmd_free(left@) && cmd_free(right@) ==> (res_model(r), final(env)@) == eval_s(
            ExprV::BinOp(op, Box::new(left@), Box::new(right@)),
            old(env)@,
        ),
        evals_to(
            invoke,
            ExprV::BinOp(op, Box::new(left@), Box::new(right@)),
            old(env)@,
            r,
            final(env)@,
        ),
    decreases esize(left@) + esize(right@), 1int,
{
    proof {
        lemma_esize_pos(left@);
        lemma_esize_pos(right@);
        let bl = Box::new(left@);
        let br = Box::new(right@);
        assert(*bl == left@ && *br == right@);
    }
    let lr0 = eval(env, left, invoke);
    let ghost lres = lr0;
    let ghost menv1 = env@;
    let lv = match lr0 {
        Ok(v) => v,
        Err(f) => {
            proof {
                let tr1 = choose|c: Seq<Invocation>|
                    runs_with(invoke, c, left@, old(env)@, lres, menv1);
                assert(runs_with(invoke, tr1, left@, old(env)@, lres, menv1));
                assert(runs_with(
                    invoke,
                    tr1,
                    ExprV::BinOp(op, Box::new(left@), Box::new(right@)),
                    old(env)@,
                    Result::<Value, Failure>::Err(f),
                    env@,
                ));
            }
            return Err(f);
        },
    };
    let ghost lvv = lv@;
    let rr0 = eval(env, right, invoke);
    let ghost rres = rr0;
    let rv = match rr0 {
        Ok(v) => v,
        Err(f) => {
            proof {
                let tr1 = choose|c: Seq<Invocation>|
                    runs_with(invoke, c, left@, old(env)@, lres, menv1);
                assert(runs_with(invoke, tr1, left@, old(env)@, lres, menv1));
                let tr2 = choose|c: Seq<Invocation>| runs_with(invoke, c, right@, menv1, rres, env@);
                assert(runs_with(invoke, tr2, right@, menv1, rres, env@));
                lemma_tr_ext(left@, old(env)@, tr1, tr2);
                lemma_calls_ok_concat(invoke, tr1, tr2);
                assert(eval_tr(left@, old(env)@, tr1).2 + tr2 =~= tr2);
                assert(runs_with(
                    invoke,
                    tr1 + tr2,
                    ExprV::BinOp(op, Box::new(left@), Box::new(right@)),
                    old(env)@,
                    Result::<Value, Failure>::Err(f),
                    env@,
                ));
            }
            return Err(f);
        },
    };
    let ghost rvv = rv@;
    let res2 = match (lv, rv) {
        (Value::Whole(a), Value::Whole(b)) => match op {
            BinOp::Add => Ok(Value::Whole(a.wrapping_add(b))),
            BinOp::Sub => Ok(Value::Whole(a.wrapping_sub(b))),
            BinOp::Mul => Ok(Value::Whole(a.wrapping_mul(b))),
            BinOp::Div => if b == 0 {
                Err(Failure::ArithmeticFailure)
            } else {
                Ok(Value::Whole(a / b))
            },
        },
        _ => Err(Failure::TypeMismatch),
    };
    proof {
        assert(res_model(res2) == apply_op_s(op, lvv, rvv));
        let tr1 = choose|c: Seq<Invocation>| runs_with(invoke, c, left@, old(env)@, lres, menv1);
        assert(runs_with(invoke, tr1, left@, old(env)@, lres, menv1));
        let tr2 = choose|c: Seq<Invocation>| runs_with(invoke, c, right@, menv1, rres, env@);
        assert(runs_with(invoke, tr2, right@, menv1, rres, env@));
        lemma_tr_ext(left@, old(env)@, tr1, tr2);
        lemma_calls_ok_concat(invoke, tr1, tr2);
        assert(eval_tr(left@, old(env)@, tr1).2 + tr2 =~= tr2);
        assert(runs_with(
            invoke,
            tr1 + tr2,
            ExprV::BinOp(op, Box::new(left@), Box::new(right@)),
            old(env)@,
            res2,
            env@,
        ));
    }
    res2
}

/// Evaluate a conditional: the predicate first, then exactly one branch,
/// chosen by truthiness; the untaken branch is never evaluated.
pub fn eval_cond<F: Fn(String, Vec<String>) -> Result<String, Failure>>(
    env: &mut Env,
    pred: &Expr,
    br1: &Expr,
    br2: &Expr,
    invoke: &F,
) -> (r: Result<Value, Failure>)
    requires
        invoker_ok(invoke),
    ensures
        cmd_free(pred@) && cmd_free(br1@) && cmd_free(br2@) ==> (res_model(r), final(env)@)
            == eval_s(ExprV::Cond(Box::new(pred@), Box::new(br1@), Box::new(br2@)), old(env)@),
        cond_cmd_ensures(invoke, *pred, *br1, *br2, old(env)@, r, final(env)@),
        evals_to(
            invoke,
            ExprV::Cond(Box::new(pred@), Box::new(br1@), Box::new(br2@)),
            old(env)@,
            r,
            final(env)@,
        ),
    decreases esize(pred@) + esize(br1@) + esize(br2@), 1int,
{
    proof {
        lemma_esize_pos(pred@);
        lemma_esize_pos(br1@);
        lemma_esize_pos(br2@);
        let bp = Box::new(pred@);
        let bt = Box::new(br1@);
        let be = Box::new(br2@);
        assert(*bp == pred@ && *bt == br1@ && *be == br2@);
    }
    let pr0 = eval(env, pred, invoke);
    let ghost pres = pr0;
    let ghost menv1 = env@;
    let p = match pr0 {
        Ok(v) => v,
        Err(f) => {
            proof {
                let tr1 = choose|c: Seq<Invocation>|
                    runs_with(invoke, c, pred@, old(env)@, pres, menv1);
                assert(runs_with(invoke, tr1, pred@, old(env)@, pres, menv1));
                assert(runs_with(
                    invoke,
                    tr1,
                    ExprV::Cond(Box::new(pred@), Box::new(br1@), Box::new(br2@)),
                    old(env)@,
                    Result::<Value, Failure>::Err(f),
                    env@,
                ));
            }
            return Err(f);
        },
    };
    let ghost pvv = p@;
    let truth = match &p {
        Value::Whole(u) => *u > 0,
        Value::Integer(i) => *i != 0,
        Value::Str(s) => !s.as_str().is_empty(),
    };
    proof {
        assert(truth == truthy(pvv));
    }
    if truth {
        let r2 = eval(env, br1, invoke);
        proof {
            assert(cond_cmd_ensures(invoke, *pred, *br1, *br2, old(env)@, r2, env@));
            let tr1 = choose|c: Seq<Invocation>| runs_with(invoke, c, pred@, old(env)@, pres, menv1);
            assert(runs_with(invoke, tr1, pred@, old(env)@, pres, menv1));
            let tr2 = choose|c: Seq<Invocation>| runs_with(invoke, c, br1@, menv1, r2, env@);
            assert(runs_with(invoke, tr2, br1@, menv1, r2, env@));
            lemma_tr_ext(pred@, old(env)@, tr1, tr2);
            lemma_calls_ok_concat(invoke, tr1, tr2);
            assert(eval_tr(pred@, old(env)@, tr1).2 + tr2 =~= tr2);
            assert(runs_with(
                invoke,
                tr1 + tr2,
                ExprV::Cond(Box::new(pred@), Box::new(br1@), Box::new(br2@)),
                old(env)@,
                r2,
                env@,
            ));
        }
        r2
    } else {
        let r2 = eval(env, br2, invoke);
        proof {
            assert(cond_cmd_ensures(invoke, *pred, *br1, *br2, old(env)@, r2, env@));
            let tr1 = choose|c: Seq<Invocation>| runs_with(invoke, c, pred@, old(env)@, pres, menv1);
            assert(runs_with(invoke, tr1, pred@, old(env)@, pres, menv1));
            let tr2 = choose|c: Seq<Invocation>| runs_with(invoke, c, br2@, menv1, r2, env@);
            assert(runs_with(invoke, tr2, br2@, menv1, r2, env@));
            lemma_tr_ext(pred@, old(env)@, tr1, tr2);
            lemma_calls_ok_concat(invoke, tr1, tr2);
            assert(eval_tr(pred@, old(env)@, tr1).2 + tr2 =~= tr2);
            assert(runs_with(
                invoke,
                tr1 + tr2,
                ExprV::Cond(Box::new(pred@), Box::new(br1@), Box::new(br2@)),
                old(env)@,
                r2,
                env@,
            ));
        }
        r2
    }
}

/// Evaluate `let name = expr`: evaluate the expression, store the value
/// under the name, and return that same value.
pub fn eval_assign<F: Fn(String, Vec<String>) -> Result<String, Failure>>(
    env: &mut Env,
    name: &String,
    expr: &Expr,
    invoke: &F,
) -> (r: Result<Value, Failure>)
    requires
        invoker_ok(invoke),
    ensures
        cmd_free(expr@) ==> (res_model(r), final(env)@) == eval_s(
            ExprV::Assign(name@, Box::new(expr@)),
            old(env)@,
        ),
        (*expr) matches Expr::Cmd(c) ==> assign_cmd_ensures(
            invoke,
            name@,
            c,
            old(env)@,
            r,
            final(env)@,
        ),
        evals_to(invoke, ExprV::Assign(name@, Box::new(expr@)), old(env)@, r, final(env)@),
    decreases esize(expr@), 1int,
{
    proof {
        let be = Box::new(expr@);
        assert(*be == expr@);
    }
    let vr0 = eval(env, expr, invoke);
    let ghost vres = vr0;
    let ghost menv1 = env@;
    let v = match vr0 {
        Ok(v) => v,
        Err(f) => {
            proof {
                assert((*expr) matches Expr::Cmd(c) ==> assign_cmd_ensures(
                    invoke,
                    name@,
                    c,
                    old(env)@,
                    Result::<Value, Failure>::Err(f),
                    env@,
                ));
                let tre = choose|c: Seq<Invocation>|
                    runs_with(invoke, c, expr@, old(env)@, vres, menv1);
                assert(runs_with(invoke, tre, expr@, old(env)@, vres, menv1));
                assert(runs_with(
                    invoke,
                    tre,
                    ExprV::Assign(name@, Box::new(expr@)),
                    old(env)@,
                    Result::<Value, Failure>::Err(f),
                    env@,
                ));
            }
            return Err(f);
        },
    };
    let ghost res_g = Result::<Value, Failure>::Ok(v);
    env.set(name.clone(), v.dup());
    proof {
        assert((*expr) matches Expr::Cmd(c) ==> assign_cmd_ensures(
            invoke,
            name@,
            c,
            old(env)@,
            res_g,
            env@,
        ));
        let tre = choose|c: Seq<Invocation>| runs_with(invoke, c, expr@, old(env)@, vres, menv1);
        assert(runs_with(invoke, tre, expr@, old(env)@, vres, menv1));
        assert(runs_with(
            invoke,
            tre,
            ExprV::Assign(name@, Box::new(expr@)),
            old(env)@,
            res_g,
            env@,
        ));
    }
    Ok(v)
}

/// Evaluate a tree against the environment: the single entry point, total
/// over all well-formed trees. For every tree, command nodes included at
/// any depth, some trace of admitted invocations explains the result and
/// the new environment (`evals_to`). For a command-free tree they are
/// exactly `eval_s`; `cmd_ensures` and its assignment and conditional
/// variants restate the common command shapes directly.
pub fn eval<F: Fn(String, Vec<String>) -> Result<String, Failure>>(
    env: &mut Env,
    e: &Expr,
    invoke: &F,
) -> (r: Result<Value, Failure>)
    requires
        invoker_ok(invoke),
    ensures
        cmd_free(e@) ==> (res_model(r), final(env)@) == eval_s(e@, old(env)@),
        (*e) matches Expr::Cmd(c) ==> cmd_ensures(invoke, c, old(env)@, r, final(env)@),
        (*e) matches Expr::Assign(n, ex) ==> ((*ex) matches Expr::Cmd(c2) ==> assign_cmd_ensures(
            invoke,
            n@,
            c2,
            old(env)@,
            r,
            final(env)@,
        )),
        (*e) matches Expr::Cond(p, t, el) ==> cond_cmd_ensures(
            invoke,
            *p,
            *t,
            *el,
            old(env)@,
            r,
            final(env)@,
        ),
        evals_to(invoke, e@, old(env)@, r, final(env)@),
    decreases esize(e@), 0int,
{
    match e {
        Expr::UInt64(_) => {
            let r2 = eval_single(env, e);
            proof {
                assert(runs_with(invoke, Seq::<Invocation>::empty(), e@, env@, r2, env@));
            }
            r2
        },
        Expr::Str(_) => {
            let r2 = eval_single(env, e);
            proof {
                assert(runs_with(invoke, Seq::<Invocation>::empty(), e@, env@, r2, env@));
            }
            r2
        },
        Expr::Iden(_) => {
            let r2 = eval_single(env, e);
            proof {
                assert(runs_with(invoke, Seq::<Invocation>::empty(), e@, env@, r2, env@));
            }
            r2
        },
        Expr::Cmd(c) => eval_cmd(env, c, invoke),
        Expr::BinOp(op, l, r) => eval_binop(env, *op, l, r, invoke),
        Expr::Cond(p, t, e2) => eval_cond(env, p, t, e2, invoke),
        Expr::Assign(n, ex) => {
            let r2 = eval_assign(env, n, ex, invoke);
            proof {
                assert((**ex) matches Expr::Cmd(c2) ==> assign_cmd_ensures(
                    invoke,
                    n@,
                    c2,
                    old(env)@,
                    r2,
                    env@,
                ));
            }
            r2
        },
    }
}


/// Law: for all unsigned 64-bit `a`, `b` with `b` nonzero, dividing
/// `Whole(a)` by `Whole(b)` yields `Whole` of the truncating quotient and
/// leaves the environment unchanged.
pub proof fn lemma_div_defined(a: u64, b: u64, m: Map<Seq<char>, ValueV>)
    requires
        b != 0,
    ensures
        eval_s(
            ExprV::BinOp(BinOp::Div, Box::new(ExprV::UInt64(a)), Box::new(ExprV::UInt64(b))),
            m,
        ) == (Result::<ValueV, Failure>::Ok(ValueV::Whole((a as int / b as int) as u64)), m),
{
    let l = Box::new(ExprV::UInt64(a));
    let r = Box::new(ExprV::UInt64(b));
    assert(*l == ExprV::UInt64(a) && *r == ExprV::UInt64(b));
    assert(eval_s(*l, m) == (Result::<ValueV, Failure>::Ok(ValueV::Whole(a)), m));
    assert(eval_s(*r, m) == (Result::<ValueV, Failure>::Ok(ValueV::Whole(b)), m));
    assert(apply_op_s(BinOp::Div, ValueV::Whole(a), ValueV::Whole(b))
        == Result::<ValueV, Failure>::Ok(ValueV::Whole((a as int / b as int) as u64)));
}

/// Law: dividing `Whole(a)` by `Whole(0)` yields the arithmetic failure
/// for every `a`, never a value, and leaves the environment unchanged.
pub proof fn lemma_div_by_zero(a: u64, m: Map<Seq<char>, ValueV>)
    ensures
        eval_s(
            ExprV::BinOp(BinOp::Div, Box::new(ExprV::UInt64(a)), Box::new(ExprV::UInt64(0))),
            m,
        ) == (Result::<ValueV, Failure>::Err(Failure::ArithmeticFailure), m),
{
    let l = Box::new(ExprV::UInt64(a));
    let r = Box::new(ExprV::UInt64(0u64));
    assert(*l == ExprV::UInt64(a) && *r == ExprV::UInt64(0u64));
    assert(eval_s(*l, m) == (Result::<ValueV, Failure>::Ok(ValueV::Whole(a)), m));
    assert(eval_s(*r, m) == (Result::<ValueV, Failure>::Ok(ValueV::Whole(0u64)), m));
    assert(apply_op_s(BinOp::Div, ValueV::Whole(a), ValueV::Whole(0u64))
        == Result::<ValueV, Failure>::Err(Failure::ArithmeticFailure));
}

/// Law: write-then-read consistency. Whenever an assignment of any
/// expression to `name` succeeds with value `v`, reading `name` back in
/// the environment the assignment leaves behind yields that same `v`.
pub proof fn lemma_assign_then_read(name: Seq<char>, e: ExprV, m: Map<Seq<char>, ValueV>)
    ensures
        ({
            let (r1, m1) = eval_s(ExprV::Assign(name, Box::new(e)), m);
            r1 matches Ok(v) ==> eval_s(ExprV::Iden(name), m1) == (
                Result::<ValueV, Failure>::Ok(v),
                m1,
            )
        }),
{
}

/// Law: truthiness selects the branch. A conditional on `Whole(0)` or on
/// the empty string evaluates its second branch; one on `Whole(1)` or on
/// a non-empty string evaluates its first branch.
pub proof fn lemma_truthiness(t: Box<ExprV>, e: Box<ExprV>, m: Map<Seq<char>, ValueV>, s: Seq<char>)
    ensures
        eval_s(ExprV::Cond(Box::new(ExprV::UInt64(0)), t, e), m) == eval_s(*e, m),
        eval_s(ExprV::Cond(Box::new(ExprV::UInt64(1)), t, e), m) == eval_s(*t, m),
        s.len() == 0 ==> eval_s(ExprV::Cond(Box::new(ExprV::Str(s)), t, e), m) == eval_s(*e, m),
        s.len() > 0 ==> eval_s(ExprV::Cond(Box::new(ExprV::Str(s)), t, e), m) == eval_s(*t, m),
{
    let z = Box::new(ExprV::UInt64(0));
    let o = Box::new(ExprV::UInt64(1));
    let w = Box::new(ExprV::Str(s));
    assert(*z == ExprV::UInt64(0) && *o == ExprV::UInt64(1) && *w == ExprV::Str(s));
    assert(eval_s(*z, m) == (Result::<ValueV, Failure>::Ok(ValueV::Whole(0u64)), m));
    assert(eval_s(*o, m) == (Result::<ValueV, Failure>::Ok(ValueV::Whole(1u64)), m));
    assert(eval_s(*w, m) == (Result::<ValueV, Failure>::Ok(ValueV::Str(s)), m));
    assert(!truthy(ValueV::Whole(0u64)));
    assert(truthy(ValueV::Whole(1u64)));
}

/// Law: looking up a name that the environment does not bind yields the
/// unbound-name failure, regardless of what else is bound.
pub proof fn lemma_unbound_name(name: Seq<char>, m: Map<Seq<char>, ValueV>)
    requires
        !m.contains_key(name),
    ensures
        eval_s(ExprV::Iden(name), m) == (Result::<ValueV, Failure>::Err(Failure::UnboundName), m),
{
}

/// Law: a binary operator applied to any operand pair that is not two
/// `Whole` values is a type mismatch, whatever the operator.
pub proof fn lemma_cross_variant_mismatch(op: BinOp, l: ValueV, r: ValueV)
    requires
        !(l is Whole && r is Whole),
    ensures
        apply_op_s(op, l, r) == Result::<ValueV, Failure>::Err(Failure::TypeMismatch),
{
}

/// Law: when the operands of a binary operator evaluate to values that are
/// not both `Whole`, the whole operator expression fails with a type
/// mismatch, and both operands have still been evaluated, left before
/// right.
pub proof fn lemma_binop_type_mismatch(
    op: BinOp,
    l: Box<ExprV>,
    r: Box<ExprV>,
    m: Map<Seq<char>, ValueV>,
    lv: ValueV,
    rv: ValueV,
    m1: Map<Seq<char>, ValueV>,
    m2: Map<Seq<char>, ValueV>,
)
    requires
        eval_s(*l, m) == (Result::<ValueV, Failure>::Ok(lv), m1),
        eval_s(*r, m1) == (Result::<ValueV, Failure>::Ok(rv), m2),
        !(lv is Whole && rv is Whole),
    ensures
        eval_s(ExprV::BinOp(op, l, r), m) == (
            Result::<ValueV, Failure>::Err(Failure::TypeMismatch),
            m2,
        ),
{
}

/// Law: truthiness selects the branch, for arbitrary branches, commands
/// included: under the trace semantics a conditional on `Whole(0)` or on
/// the empty string is the evaluation of its second branch, and one on
/// `Whole(1)` or on a non-empty string is the evaluation of its first.
pub proof fn lemma_truthiness_general(
    t: Box<ExprV>,
    e: Box<ExprV>,
    m: Map<Seq<char>, ValueV>,
    s: Seq<char>,
    calls: Seq<Invocation>,
)
    ensures
        eval_tr(ExprV::Cond(Box::new(ExprV::UInt64(0)), t, e), m, calls) == eval_tr(*e, m, calls),
        eval_tr(ExprV::Cond(Box::new(ExprV::UInt64(1)), t, e), m, calls) == eval_tr(*t, m, calls),
        s.len() == 0 ==> eval_tr(ExprV::Cond(Box::new(ExprV::Str(s)), t, e), m, calls) == eval_tr(
            *e,
            m,
            calls,
        ),
        s.len() > 0 ==> eval_tr(ExprV::Cond(Box::new(ExprV::Str(s)), t, e), m, calls) == eval_tr(
            *t,
            m,
            calls,
        ),
{
    let z = Box::new(ExprV::UInt64(0));
    let o = Box::new(ExprV::UInt64(1));
    let w = Box::new(ExprV::Str(s));
    assert(*z == ExprV::UInt64(0) && *o == ExprV::UInt64(1) && *w == ExprV::Str(s));
    assert(eval_tr(*z, m, calls) == (
        Result::<ValueV, Failure>::Ok(ValueV::Whole(0u64)),
        m,
        calls,
        true,
    ));
    assert(eval_tr(*o, m, calls) == (
        Result::<ValueV, Failure>::Ok(ValueV::Whole(1u64)),
        m,
        calls,
        true,
    ));
    assert(eval_tr(*w, m, calls) == (Result::<ValueV, Failure>::Ok(ValueV::Str(s)), m, calls, true));
    let bt = eval_tr(*t, m, calls);
    let be = eval_tr(*e, m, calls);
    assert(bt == (bt.0, bt.1, bt.2, bt.3));
    assert(be == (be.0, be.1, be.2, be.3));
    assert(eval_tr(ExprV::Cond(z, t, e), m, calls) == (be.0, be.1, be.2, true && be.3));
    assert(eval_tr(ExprV::Cond(o, t, e), m, calls) == (bt.0, bt.1, bt.2, true && bt.3));
    if s.len() == 0 {
        assert(eval_tr(ExprV::Cond(w, t, e), m, calls) == (be.0, be.1, be.2, true && be.3));
    } else {
        assert(eval_tr(ExprV::Cond(w, t, e), m, calls) == (bt.0, bt.1, bt.2, true && bt.3));
    }
}

/// Law: a binary operator applied to operands that evaluate to values not
/// both `Whole` fails with a type mismatch, for arbitrary operands,
/// commands included, and both operands are still evaluated, left before
/// right, under the trace semantics.
pub proof fn lemma_binop_type_mismatch_general(
    op: BinOp,
    l: Box<ExprV>,
    r: Box<ExprV>,
    m: Map<Seq<char>, ValueV>,
    calls: Seq<Invocation>,
    lv: ValueV,
    rv: ValueV,
    m1: Map<Seq<char>, ValueV>,
    c1: Seq<Invocation>,
    m2: Map<Seq<char>, ValueV>,
    c2: Seq<Invocation>,
    w1: bool,
    w2: bool,
)
    requires
        eval_tr(*l, m, calls) == (Result::<ValueV, Failure>::Ok(lv), m1, c1, w1),
        eval_tr(*r, m1, c1) == (Result::<ValueV, Failure>::Ok(rv), m2, c2, w2),
        !(lv is Whole && rv is Whole),
    ensures
        eval_tr(ExprV::BinOp(op, l, r), m, calls) == (
            Result::<ValueV, Failure>::Err(Failure::TypeMismatch),
            m2,
            c2,
            w1 && w2,
        ),
{
}

/// Whether a tree contains no assignment node.
pub open spec fn assign_free(e: ExprV) -> bool
    decreases e,
{
    match e {
        ExprV::UInt64(_) => true,
        ExprV::Str(_) => true,
        ExprV::Iden(_) => true,
        ExprV::Cmd(_, args) => args_assign_free(args),
        ExprV::BinOp(_, l, r) => assign_free(*l) && assign_free(*r),
        ExprV::Cond(p, t, e2) => assign_free(*p) && assign_free(*t) && assign_free(*e2),
        ExprV::Assign(_, _) => false,
    }
}

/// Whether every tree of a sequence is free of assignment nodes.
pub open spec fn args_assign_free(args: Seq<ExprV>) -> bool
    decreases args,
{
    if args.len() == 0 {
        true
    } else {
        assign_free(args[0]) && args_assign_free(args.drop_first())
    }
}

proof fn lemma_args_assign_free_elem(args: Seq<ExprV>, i: int)
    requires
        args_assign_free(args),
        0 <= i < args.len(),
    ensures
        assign_free(args[i]),
    decreases args,
{
    if i > 0 {
        lemma_args_assign_free_elem(args.drop_first(), i - 1);
        assert(args.drop_first()[i - 1] == args[i]);
    }
}

/// Law: only assignments write. Evaluating an assignment-free tree leaves
/// the environment exactly as it was, whatever trace of command
/// invocations the run consumes: identifiers only read, and a command may
/// spawn a process but never changes a binding.
pub proof fn lemma_no_assign_no_write(e: ExprV, m: Map<Seq<char>, ValueV>, calls: Seq<Invocation>)
    requires
        assign_free(e),
    ensures
        eval_tr(e, m, calls).1 == m,
    decreases e, 0int,
{
    match e {
        ExprV::UInt64(_) => {},
        ExprV::Str(_) => {},
        ExprV::Iden(_) => {},
        ExprV::Cmd(_, args) => {
            lemma_args_no_assign_no_write(args, 0, m, calls);
        },
        ExprV::BinOp(_, l, r) => {
            lemma_no_assign_no_write(*l, m, calls);
            let (lr, m1, c1, _) = eval_tr(*l, m, calls);
            match lr {
                Err(_) => {},
                Ok(_) => {
                    lemma_no_assign_no_write(*r, m1, c1);
                },
            }
        },
        ExprV::Cond(p, t, e2) => {
            lemma_no_assign_no_write(*p, m, calls);
            let (pr, m1, c1, _) = eval_tr(*p, m, calls);
            match pr {
                Err(_) => {},
                Ok(pv) => {
                    if truthy(pv) {
                        lemma_no_assign_no_write(*t, m1, c1);
                    } else {
                        lemma_no_assign_no_write(*e2, m1, c1);
                    }
                },
            }
        },
        ExprV::Assign(_, _) => {},
    }
}

proof fn lemma_args_no_assign_no_write(
    args: Seq<ExprV>,
    j: int,
    m: Map<Seq<char>, ValueV>,
    calls: Seq<Invocation>,
)
    requires
        args_assign_free(args),
    ensures
        eval_args_tr(args, j, m, calls).1 == m,
    decreases args, args.len() - j,
{
    if 0 <= j && j < args.len() {
        lemma_args_assign_free_elem(args, j);
        lemma_no_assign_no_write(args[j], m, calls);
        let (r0, m1, c1, _) = eval_tr(args[j], m, calls);
        match r0 {
            Err(_) => {},
            Ok(_) => {
                lemma_args_no_assign_no_write(args, j + 1, m1, c1);
            },
        }
    }
}

/// Law: on a command-free tree the trace semantics consumes no invocation
/// and agrees exactly with the denotational semantics: the run is
/// deterministic and independent of the invoker.
pub proof fn lemma_cmd_free_trace_agrees(e: ExprV, m: Map<Seq<char>, ValueV>, calls: Seq<
    Invocation,
>)
    requires
        cmd_free(e),
    ensures
        eval_tr(e, m, calls) == (eval_s(e, m).0, eval_s(e, m).1, calls, true),
    decreases e,
{
    match e {
        ExprV::UInt64(_) => {},
        ExprV::Str(_) => {},
        ExprV::Iden(_) => {},
        ExprV::Cmd(_, _) => {},
        ExprV::BinOp(_, l, r) => {
            lemma_cmd_free_trace_agrees(*l, m, calls);
            let ls = eval_s(*l, m);
            assert(ls == (ls.0, ls.1));
            match ls.0 {
                Err(_) => {},
                Ok(_) => {
                    lemma_cmd_free_trace_agrees(*r, ls.1, calls);
                    let rs = eval_s(*r, ls.1);
                    assert(rs == (rs.0, rs.1));
                },
            }
        },
        ExprV::Cond(p, t, e2) => {
            lemma_cmd_free_trace_agrees(*p, m, calls);
            let ps = eval_s(*p, m);
            assert(ps == (ps.0, ps.1));
            match ps.0 {
                Err(_) => {},
                Ok(pv) => {
                    if truthy(pv) {
                        lemma_cmd_free_trace_agrees(*t, ps.1, calls);
                        let ts = eval_s(*t, ps.1);
                        assert(ts == (ts.0, ts.1));
                    } else {
                        lemma_cmd_free_trace_agrees(*e2, ps.1, calls);
                        let es = eval_s(*e2, ps.1);
                        assert(es == (es.0, es.1));
                    }
                },
            }
        },
        ExprV::Assign(_, e2) => {
            lemma_cmd_free_trace_agrees(*e2, m, calls);
            let vs = eval_s(*e2, m);
            assert(vs == (vs.0, vs.1));
        },
    }
}

} // verus!
