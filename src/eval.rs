use vstd::prelude::*;
use crate::environment::{frame_get, source_get, string_texts, Environment, Frame};
use crate::parser::{is_atom, is_special, is_ws};
use crate::literal::{int_literal, parse_int};
use crate::parser::{chars_of, contains_paren, get_exp_inside_paren, has_paren, parse_spec, string_of};
use crate::primitive_procedures::{check_primitive_procedures, is_name, primitive_spec, same_result};
use crate::rewrite::{cond_rest_text, define_spec, let_spec, rewrite_cond_rest, rewrite_define, rewrite_let, texts};
use crate::types::{same, EvalError, Value};

verus! {

/// How deeply forms may nest during one evaluation.
pub const MAX_DEPTH: usize = 1000;

/// Text that evaluates to itself: nothing, an integer literal, a quoted text,
/// `#t` or `#f`.
pub open spec fn self_evaluating(exp: Seq<char>) -> bool {
    exp.len() == 0 || int_literal(exp) is Some || exp[0] == '\'' || exp == "#t"@ || exp
        == "#f"@
}

/// Whether `exp` opens with a parenthesis.
pub open spec fn opens_group(t: Seq<char>) -> bool {
    t.len() > 0 && t[0] == '('
}

/// A `lambda` form `ts`: the procedure it makes, which keeps the number of the
/// current frame, or why it makes none (a parameter that is not a bare atom is
/// `WrongType`).
pub open spec fn lambda_ok(
    ts: Seq<Seq<char>>,
    before: Environment,
    after: Environment,
    r: Result<Value, EvalError>,
) -> bool {
    if ts.len() < 3 {
        r == Err::<Value, EvalError>(EvalError::WrongArity)
    } else if !opens_group(ts[1]) {
        r == Err::<Value, EvalError>(EvalError::WrongType)
    } else {
        match parse_spec(ts[1]) {
            None => r == Err::<Value, EvalError>(EvalError::ParseError),
            Some(ps) => if !(forall|i: int| 0 <= i < ps.len() ==> is_atom(#[trigger] ps[i])) {
                r == Err::<Value, EvalError>(EvalError::WrongType)
            } else {
                r matches Ok(Value::Procedure(p, b, k)) && k == before.cur()
                && string_texts(p@) == ps && string_texts(b@)
                == ts.subrange(2, ts.len() as int)
            },
        }
    }
}

/// Which branch a condition selects: `Ok(Some(true))` for `#t`, `Ok(Some(false))`
/// for `#f` when an alternative exists, `Ok(None)` for `#f` without one; any
/// other value is `NotABoolean`.
pub fn choose_branch(c: &Value, has_alternative: bool) -> (r: Result<Option<bool>, EvalError>)
    ensures
        r == branch_spec(*c, has_alternative),
{
    match c {
        Value::Boolean(true) => Ok(Some(true)),
        Value::Boolean(false) => if has_alternative {
            Ok(Some(false))
        } else {
            Ok(None)
        },
        _ => Err(EvalError::NotABoolean),
    }
}

fn strings_of(ts: &Vec<Vec<char>>, from: usize) -> (r: Vec<String>)
    requires
        from <= ts@.len(),
    ensures
        string_texts(r@) == texts(ts@).subrange(from as int, ts@.len() as int),
{
    let mut r: Vec<String> = Vec::new();
    let mut i: usize = from;
    while i < ts.len()
        invariant
            from <= i <= ts@.len(),
            r@.len() == i - from,
            forall|k: int| 0 <= k < r@.len() ==> (#[trigger] r@[k])@ == ts@[from + k]@,
        decreases ts@.len() - i,
    {
        r.push(string_of(&ts[i]));
        i = i + 1;
    }
    assert(string_texts(r@) =~= texts(ts@).subrange(from as int, ts@.len() as int));
    r
}

/// Whether `t` is a bare atom (see `is_atom`).
fn atom_text(t: &Vec<char>) -> (r: bool)
    ensures
        r == is_atom(t@),
{
    if t.len() == 0 {
        return false;
    }
    let mut i: usize = 0;
    while i < t.len()
        invariant
            i <= t@.len(),
            forall|j: int| 0 <= j < i ==> !is_special(#[trigger] t@[j]) && !is_ws(t@[j]),
        decreases t@.len() - i,
    {
        let c = t[i];
        if c == '(' || c == ')' || c == ' ' || c == '\t' || c == '\n' || c == '\r' {
            return false;
        }
        i = i + 1;
    }
    true
}

/// Whether every token of `ts` is a bare atom.
fn all_atoms(ts: &Vec<Vec<char>>) -> (r: bool)
    ensures
        r == forall|j: int| 0 <= j < texts(ts@).len() ==> is_atom(#[trigger] texts(ts@)[j]),
{
    let mut i: usize = 0;
    while i < ts.len()
        invariant
            i <= ts@.len(),
            forall|j: int| 0 <= j < i ==> is_atom(#[trigger] texts(ts@)[j]),
        decreases ts@.len() - i,
    {
        if !atom_text(&ts[i]) {
            assert(texts(ts@)[i as int] == ts@[i as int]@);
            return false;
        }
        assert(texts(ts@)[i as int] == ts@[i as int]@);
        i = i + 1;
    }
    true
}

fn make_lambda(tokens: &Vec<Vec<char>>, env: &mut Environment) -> (r: Result<Value, EvalError>)
    requires
        old(env).wf(),
    ensures
        final(env).wf(),
        final(env).cells() == old(env).cells(),
        final(env).cur() == old(env).cur(),
        final(env).table() == old(env).table(),
        final(env).missing() == old(env).missing(),
        final(env).pin() == if r is Ok {
            pinned_after(*old(env))
        } else {
            old(env).pin()
        },
        lambda_ok(texts(tokens@), *old(env), *final(env), r),
{
    if tokens.len() < 3 {
        return Err(EvalError::WrongArity);
    }
    if tokens[1].len() == 0 || tokens[1][0] != '(' {
        return Err(EvalError::WrongType);
    }
    let params = match get_exp_inside_paren(&tokens[1]) {
        Ok(p) => p,
        Err(e) => {
            return Err(e);
        },
    };
    if !all_atoms(&params) {
        return Err(EvalError::WrongType);
    }
    let p = strings_of(&params, 0);
    let b = strings_of(tokens, 2);
    proof {
        assert(texts(params@).subrange(0, params@.len() as int) =~= parse_spec(tokens@[1]@)->0);
        assert(texts(tokens@).subrange(2, tokens@.len() as int) =~= texts(tokens@).subrange(
            2,
            texts(tokens@).len() as int,
        ));
    }
    let k = env.current();
    env.pin_current();
    Ok(Value::Procedure(p, b, k))
}

pub open spec fn branch_spec(c: Value, has_alternative: bool) -> Result<Option<bool>, EvalError> {
    match c {
        Value::Boolean(true) => Ok(Some(true)),
        Value::Boolean(false) => if has_alternative {
            Ok(Some(false))
        } else {
            Ok(None)
        },
        _ => Err(EvalError::NotABoolean),
    }
}

/// A marker that names an intermediate state and result of an evaluation.
pub open spec fn step(mid: Environment, r: Result<Value, EvalError>) -> bool {
    true
}

/// A marker that names the arguments' outcome and the state after them.
pub open spec fn step_args(mid: Environment, o: Result<Seq<Value>, EvalError>) -> bool {
    true
}

/// A marker that names one outcome.
pub open spec fn outcome(r: Result<Value, EvalError>) -> bool {
    true
}

/// A marker that names the states in which a procedure body starts and ends.
pub open spec fn body_states(inner: Environment, end: Environment) -> bool {
    true
}

/// `after` holds the same frames as `before`.
pub open spec fn unchanged(before: Environment, after: Environment) -> bool {
    after.cells() == before.cells() && after.cur() == before.cur() && after.pin() == before.pin()
}

/// Where frames may be released after a procedure is made in the current
/// frame of `before`.
pub open spec fn pinned_after(before: Environment) -> int {
    if before.pin() > before.cur() + 1 {
        before.pin()
    } else {
        before.cur() + 1
    }
}

/// Evaluation from `before` to `after` keeps the current frame, leaves every
/// other frame that existed as it was, and may add frames.
pub open spec fn keeps(before: Environment, after: Environment) -> bool {
    &&& after.cur() == before.cur()
    &&& after.cells().len() >= before.cells().len()
    &&& forall|i: int|
        0 <= i < before.cells().len() && i != before.cur() ==> #[trigger] after.cells()[i]
            == before.cells()[i]
    &&& after.cells()[before.cur()].1 == before.cells()[before.cur()].1
}

/// An evaluation of `exp` from `before` to `after`, with forms nested at most
/// `depth` deep, that gives `r`. The current frame stays current and no other
/// frame that existed is touched (see `keeps`); text that evaluates to itself
/// and bound names give their values; forms behave as `form_ok` says.
pub open spec fn evaluation(
    exp: Seq<char>,
    before: Environment,
    after: Environment,
    depth: nat,
    r: Result<Value, EvalError>,
) -> bool
    decreases depth, 9nat, 0nat,
{
    &&& after.wf()
    &&& after.table() == before.table()
    &&& keeps(before, after)
    &&& self_evaluating(exp) ==> unchanged(before, after)
    &&& exp.len() == 0 ==> r == Ok::<Value, EvalError>(Value::Null)
    &&& exp.len() > 0 && int_literal(exp) is Some ==> r == Ok::<Value, EvalError>(
        Value::Integer(int_literal(exp)->0 as i64),
    )
    &&& exp.len() > 0 && int_literal(exp) is None && exp[0] == '\'' ==> (r matches Ok(
        Value::String(t),
    ) && t@ == exp.drop_first())
    &&& exp.len() > 0 && int_literal(exp) is None && exp[0] != '\'' && exp == "#t"@ ==> r
        == Ok::<Value, EvalError>(Value::Boolean(true))
    &&& exp.len() > 0 && int_literal(exp) is None && exp[0] != '\'' && exp == "#f"@ ==> r
        == Ok::<Value, EvalError>(Value::Boolean(false))
    &&& !self_evaluating(exp) && before.lookup(exp) is Some ==> (r is Ok && same(
        r->Ok_0,
        before.lookup(exp)->0,
    ) && unchanged(before, after))
    &&& !self_evaluating(exp) && before.lookup(exp) is None && !has_paren(exp) ==> (r == Err::<
        Value,
        EvalError,
    >(EvalError::UnboundVariable) && unchanged(before, after))
    &&& !self_evaluating(exp) && before.lookup(exp) is None && has_paren(exp) ==> form_ok(
        exp,
        before,
        after,
        depth,
        r,
    )
}

/// The evaluation of the parenthesised form `exp`: parse errors, the empty
/// list, the nesting budget, then the special forms, else an application.
pub open spec fn form_ok(
    exp: Seq<char>,
    before: Environment,
    after: Environment,
    depth: nat,
    r: Result<Value, EvalError>,
) -> bool
    decreases depth, 8nat, 0nat,
{
    match parse_spec(exp) {
        None => r == Err::<Value, EvalError>(EvalError::ParseError) && unchanged(before, after),
        Some(ts) => if ts.len() == 0 {
            r == Ok::<Value, EvalError>(Value::Null) && unchanged(before, after)
        } else if depth == 0 {
            r == Err::<Value, EvalError>(EvalError::DepthExceeded) && unchanged(before, after)
        } else if ts[0] == "lambda"@ {
            lambda_ok(ts, before, after, r) && after.cells() == before.cells() && after.cur()
                == before.cur() && after.pin() == if r is Ok {
                pinned_after(before)
            } else {
                before.pin()
            }
        } else if ts[0] == "load"@ {
            load_ok(ts, before, after, (depth - 1) as nat, r)
        } else if ts[0] == "define"@ {
            define_ok(ts, before, after, (depth - 1) as nat, r)
        } else if ts[0] == "if"@ {
            if_ok(ts, before, after, (depth - 1) as nat, r)
        } else if ts[0] == "cond"@ {
            cond_ok(ts, before, after, (depth - 1) as nat, r)
        } else if ts[0] == "let"@ {
            rewritten_ok(let_spec(ts), before, after, (depth - 1) as nat, r)
        } else {
            application(ts, before, after, (depth - 1) as nat, r)
        },
    }
}

/// A form that reads as the text `t`: its rewriting error, or what evaluating
/// that text gives.
pub open spec fn rewritten_ok(
    t: Result<Seq<char>, EvalError>,
    before: Environment,
    after: Environment,
    d: nat,
    r: Result<Value, EvalError>,
) -> bool
    decreases d, 9nat, 1nat,
{
    match t {
        Err(e) => r == Err::<Value, EvalError>(e) && unchanged(before, after),
        Ok(text) => evaluation(text, before, after, d, r),
    }
}

/// `load`: the expressions of the named file, from the table of files read,
/// are evaluated in turn in this environment; a file not in the table is a
/// `LoadError`, and is recorded as the one missing.
pub open spec fn load_ok(
    ts: Seq<Seq<char>>,
    before: Environment,
    after: Environment,
    d: nat,
    r: Result<Value, EvalError>,
) -> bool
    decreases d, 12nat, 0nat,
{
    if ts.len() != 2 {
        r == Err::<Value, EvalError>(EvalError::WrongArity) && unchanged(before, after)
    } else {
        match source_get(before.table(), ts[1]) {
            Some(exps) => sequence(exps, before, after, d, r),
            None => r == Err::<Value, EvalError>(EvalError::LoadError) && unchanged(before, after)
                && after.missing() == Some(ts[1]),
        }
    }
}

/// `define`: the shorthand reads as its rewriting; a variable definition
/// evaluates its expression and, on success, binds the name in the current
/// frame to that value, leaving every other binding; an error is passed on
/// and binds nothing.
pub open spec fn define_ok(
    ts: Seq<Seq<char>>,
    before: Environment,
    after: Environment,
    d: nat,
    r: Result<Value, EvalError>,
) -> bool
    decreases d, 10nat, 0nat,
{
    if ts.len() < 2 {
        r == Err::<Value, EvalError>(EvalError::WrongArity) && unchanged(before, after)
    } else if opens_group(ts[1]) {
        rewritten_ok(define_spec(ts), before, after, d, r)
    } else if ts.len() != 3 {
        r == Err::<Value, EvalError>(EvalError::WrongArity) && unchanged(before, after)
    } else {
        exists|mid: Environment, rv: Result<Value, EvalError>|
            #[trigger] step(mid, rv) && evaluation(ts[2], before, mid, d, rv) && match rv {
                Err(e) => r == Err::<Value, EvalError>(e) && unchanged(mid, after),
                Ok(v) => r == Ok::<Value, EvalError>(v) && binds_one(mid, after, ts[1], v),
            }
    }
}

/// `after` is `mid` with `name` bound to (a copy of) `v` in the current frame.
pub open spec fn binds_one(mid: Environment, after: Environment, name: Seq<char>, v: Value) -> bool {
    &&& after.wf()
    &&& after.cur() == mid.cur()
    &&& after.pin() == mid.pin()
    &&& after.cells().len() == mid.cells().len()
    &&& forall|i: int|
        0 <= i < mid.cells().len() && i != mid.cur() ==> #[trigger] after.cells()[i] == mid.cells()[i]
    &&& after.cells()[mid.cur()].1 == mid.cells()[mid.cur()].1
    &&& frame_get(after.cells()[mid.cur()].0, name) matches Some(w) && same(w, v)
    &&& forall|n: Seq<char>|
        n != name ==> #[trigger] frame_get(after.cells()[mid.cur()].0, n) == frame_get(
            mid.cells()[mid.cur()].0,
            n,
        )
}

/// `if`: the condition is evaluated; an error is passed on; a non-boolean is
/// `NotABoolean`; `#t` evaluates the consequent, `#f` the alternative, or gives
/// `Null` without one.
pub open spec fn if_ok(
    ts: Seq<Seq<char>>,
    before: Environment,
    after: Environment,
    d: nat,
    r: Result<Value, EvalError>,
) -> bool
    decreases d, 10nat, 0nat,
{
    if ts.len() != 3 && ts.len() != 4 {
        r == Err::<Value, EvalError>(EvalError::WrongArity) && unchanged(before, after)
    } else {
        exists|mid: Environment, rc: Result<Value, EvalError>|
            #[trigger] step(mid, rc) && evaluation(ts[1], before, mid, d, rc) && match rc {
                Err(e) => r == Err::<Value, EvalError>(e) && unchanged(mid, after),
                Ok(c) => match branch_spec(c, ts.len() == 4) {
                    Err(e) => r == Err::<Value, EvalError>(e) && unchanged(mid, after),
                    Ok(Some(true)) => evaluation(ts[2], mid, after, d, r),
                    Ok(Some(false)) => evaluation(ts[3], mid, after, d, r),
                    Ok(None) => r == Ok::<Value, EvalError>(Value::Null) && unchanged(mid, after),
                },
            }
    }
}

/// `cond`: the first clause's test is evaluated; an error is passed on; a
/// non-boolean is `NotABoolean`; `#t` evaluates that clause's expression, `#f`
/// goes on with the other clauses, or gives `Null` when none is left.
pub open spec fn cond_ok(
    ts: Seq<Seq<char>>,
    before: Environment,
    after: Environment,
    d: nat,
    r: Result<Value, EvalError>,
) -> bool
    decreases d, 10nat, 0nat,
{
    if ts.len() < 2 {
        r == Err::<Value, EvalError>(EvalError::WrongArity) && unchanged(before, after)
    } else {
        match parse_spec(ts[1]) {
            None => r == Err::<Value, EvalError>(EvalError::ParseError) && unchanged(before, after),
            Some(c) => if c.len() != 2 {
                r == Err::<Value, EvalError>(EvalError::WrongType) && unchanged(before, after)
            } else {
                exists|mid: Environment, rt: Result<Value, EvalError>|
                    #[trigger] step(mid, rt) && evaluation(c[0], before, mid, d, rt) && match rt {
                        Err(e) => r == Err::<Value, EvalError>(e) && unchanged(mid, after),
                        Ok(t) => match branch_spec(t, ts.len() > 2) {
                            Err(e) => r == Err::<Value, EvalError>(e) && unchanged(mid, after),
                            Ok(Some(true)) => evaluation(c[1], mid, after, d, r),
                            Ok(Some(false)) => evaluation(cond_rest_text(ts), mid, after, d, r),
                            Ok(None) => r == Ok::<Value, EvalError>(Value::Null) && unchanged(
                                mid,
                                after,
                            ),
                        },
                    }
            },
        }
    }
}

/// The argument texts `args` evaluated left to right from `before` to `after`:
/// their values, or the first error.
pub open spec fn arguments(
    args: Seq<Seq<char>>,
    before: Environment,
    after: Environment,
    d: nat,
    out: Result<Seq<Value>, EvalError>,
) -> bool
    decreases d, 13nat, args.len(),
{
    if args.len() == 0 {
        out == Ok::<Seq<Value>, EvalError>(Seq::empty()) && unchanged(before, after)
    } else {
        exists|mid: Environment, o: Result<Seq<Value>, EvalError>|
            #[trigger] step_args(mid, o) && arguments(args.drop_last(), before, mid, d, o) && match o {
                Err(e) => out == Err::<Seq<Value>, EvalError>(e) && unchanged(mid, after),
                Ok(vs) => exists|rv: Result<Value, EvalError>|
                    #[trigger] outcome(rv) && evaluation(args.last(), mid, after, d, rv) && match rv {
                        Ok(v) => out == Ok::<Seq<Value>, EvalError>(vs.push(v)),
                        Err(e) => out == Err::<Seq<Value>, EvalError>(e),
                    },
            }
    }
}

/// An application `ts`: the arguments are evaluated, then the procedure that
/// `ts[0]` names is called on their values.
pub open spec fn application(
    ts: Seq<Seq<char>>,
    before: Environment,
    after: Environment,
    d: nat,
    r: Result<Value, EvalError>,
) -> bool
    decreases d, 14nat, 0nat,
{
    exists|mid: Environment, o: Result<Seq<Value>, EvalError>|
        #[trigger] step_args(mid, o) && arguments(ts.drop_first(), before, mid, d, o) && match o {
            Err(e) => r == Err::<Value, EvalError>(e) && unchanged(mid, after),
            Ok(vs) => call(ts[0], vs, mid, after, d, r),
        }
}

/// Calling what `head` names on `vs`: a primitive of that name; else `head` is
/// evaluated, and must give a procedure of as many parameters as there are
/// values. Its body runs in a new frame that binds the parameters, whose parent
/// is the very frame the procedure was made in (shared, so bindings made there
/// later are seen). Afterwards the caller's frame is current again, and the new
/// frames are dropped unless a procedure made meanwhile may refer to them.
pub open spec fn call(
    head: Seq<char>,
    vs: Seq<Value>,
    before: Environment,
    after: Environment,
    d: nat,
    r: Result<Value, EvalError>,
) -> bool
    decreases d, 12nat, 0nat,
{
    match primitive_spec(head, vs) {
        Some(x) => same_result(r, x) && unchanged(before, after),
        None => exists|mid: Environment, rh: Result<Value, EvalError>|
            #[trigger] step(mid, rh) && evaluation(head, before, mid, d, rh) && match rh {
                Err(e) => r == Err::<Value, EvalError>(e) && unchanged(mid, after),
                Ok(Value::Procedure(ps, body, k)) => if ps@.len() != vs.len() {
                    r matches Err(EvalError::ProcedureArity(name)) && name@ == head && unchanged(
                        mid,
                        after,
                    )
                } else if k >= mid.cells().len() {
                    r == Err::<Value, EvalError>(EvalError::NotAProcedure) && unchanged(mid, after)
                } else {
                    exists|inner: Environment, end: Environment|
                        #[trigger] body_states(inner, end) && sequence(string_texts(body@), inner, end, d, r)
                            && inner.cells().drop_last() == mid.cells()
                            && inner.cells().last().1 == Some(k)
                            && binds_all(inner.cells().last().0, string_texts(ps@), vs)
                            && inner.cur() == mid.cells().len()
                            && inner.pin() == mid.pin()
                            && inner.table() == mid.table()
                            && after.cur() == mid.cur()
                            && after.pin() == end.pin()
                            && after.cells() == if end.pin() <= mid.cells().len() {
                                mid.cells()
                            } else {
                                end.cells()
                            }
                },
                Ok(_) => r == Err::<Value, EvalError>(EvalError::NotAProcedure) && unchanged(
                    mid,
                    after,
                ),
            },
    }
}

/// The frame `f` binds each of `ns` to the value at the same place (the last
/// of equal names wins), and nothing else.
pub open spec fn binds_all(f: Frame, ns: Seq<Seq<char>>, vs: Seq<Value>) -> bool {
    &&& forall|i: int|
        0 <= i < ns.len() && (forall|j: int| i < j < ns.len() ==> ns[j] != ns[i]) ==> (
        #[trigger] frame_get(f, ns[i]) matches Some(w) && same(w, vs[i]))
    &&& forall|n: Seq<char>|
        (forall|i: int| 0 <= i < ns.len() ==> ns[i] != n) ==> #[trigger] frame_get(f, n) is None
}

/// The texts `exps` evaluated in order from `before` to `after`: the value of
/// the last (`Null` for none), or the first error.
pub open spec fn sequence(
    exps: Seq<Seq<char>>,
    before: Environment,
    after: Environment,
    d: nat,
    r: Result<Value, EvalError>,
) -> bool
    decreases d, 11nat, exps.len(),
{
    if exps.len() == 0 {
        r == Ok::<Value, EvalError>(Value::Null) && unchanged(before, after)
    } else {
        exists|mid: Environment, r0: Result<Value, EvalError>|
            #[trigger] step(mid, r0) && sequence(exps.drop_last(), before, mid, d, r0) && match r0 {
                Err(e) => r == Err::<Value, EvalError>(e) && unchanged(mid, after),
                Ok(_) => evaluation(exps.last(), mid, after, d, r),
            }
    }
}

/// Evaluates the text `exp` in `env`, with forms nested at most `depth` deep.
#[verifier::rlimit(60)]
pub fn eval_in(exp: &Vec<char>, env: &mut Environment, depth: usize) -> (r: Result<Value, EvalError>)
    requires
        old(env).wf(),
    ensures
        evaluation(exp@, *old(env), *final(env), depth as nat, r),
    decreases depth, 0nat,
{
    if exp.len() == 0 {
        return Ok(Value::Null);
    }
    match parse_int(exp) {
        Some(n) => {
            return Ok(Value::Integer(n));
        },
        None => {},
    }
    if exp[0] == '\'' {
        let mut rest: Vec<char> = Vec::new();
        let mut i: usize = 1;
        while i < exp.len()
            invariant
                1 <= i <= exp@.len(),
                rest@ == exp@.subrange(1, i as int),
            decreases exp@.len() - i,
        {
            rest.push(exp[i]);
            i = i + 1;
            proof {
                assert(rest@ =~= exp@.subrange(1, i as int));
            }
        }
        assert(rest@ =~= exp@.drop_first());
        return Ok(Value::String(string_of(&rest)));
    }
    proof {
        reveal_strlit("#t");
        reveal_strlit("#f");
        assert("#t"@[1] != "#f"@[1]);
    }
    if is_name(exp, "#t") {
        return Ok(Value::Boolean(true));
    }
    if is_name(exp, "#f") {
        return Ok(Value::Boolean(false));
    }
    let name = string_of(exp);
    match env.get_value(&name) {
        Some(v) => {
            return Ok(v);
        },
        None => {},
    }
    if !contains_paren(exp) {
        return Err(EvalError::UnboundVariable);
    }
    let tokens = match get_exp_inside_paren(exp) {
        Ok(t) => t,
        Err(e) => {
            return Err(e);
        },
    };
    let ghost ts = texts(tokens@);
    proof {
        assert(ts =~= parse_spec(exp@)->0);
    }
    if tokens.len() == 0 {
        return Ok(Value::Null);
    }
    if depth == 0 {
        return Err(EvalError::DepthExceeded);
    }
    let head = &tokens[0];
    if is_name(head, "lambda") {
        return make_lambda(&tokens, env);
    }
    if is_name(head, "load") {
        let r = eval_load(&tokens, env, depth - 1);
        proof {
            assert(load_ok(ts, *old(env), *env, (depth - 1) as nat, r));
        }
        return r;
    }
    if is_name(head, "define") {
        let r = eval_define(&tokens, env, depth - 1);
        proof {
            assert(define_ok(ts, *old(env), *env, (depth - 1) as nat, r));
        }
        return r;
    }
    if is_name(head, "if") {
        let r = eval_if(&tokens, env, depth - 1);
        proof {
            assert(if_ok(ts, *old(env), *env, (depth - 1) as nat, r));
        }
        return r;
    }
    if is_name(head, "cond") {
        let r = eval_cond(&tokens, env, depth - 1);
        proof {
            assert(cond_ok(ts, *old(env), *env, (depth - 1) as nat, r));
        }
        return r;
    }
    if is_name(head, "let") {
        let text = match rewrite_let(&tokens) {
            Ok(t) => t,
            Err(e) => {
                return Err(e);
            },
        };
        return eval_in(&text, env, depth - 1);
    }
    apply(&tokens, env, depth - 1)
}

/// Evaluates the `define` form `tokens` (see `define_ok`).
fn eval_define(tokens: &Vec<Vec<char>>, env: &mut Environment, d: usize) -> (r: Result<Value, EvalError>)
    requires
        old(env).wf(),
        tokens@.len() >= 1,
    ensures
        final(env).wf(),
        final(env).table() == old(env).table(),
        keeps(*old(env), *final(env)),
        define_ok(texts(tokens@), *old(env), *final(env), d as nat, r),
    decreases d, 4nat,
{
    let ghost ts = texts(tokens@);
    if tokens.len() < 2 {
        return Err(EvalError::WrongArity);
    }
    assert(ts[1] == tokens@[1]@);
    if tokens[1].len() > 0 && tokens[1][0] == '(' {
        let ghost start = *env;
        let text = match rewrite_define(&tokens) {
            Ok(t) => t,
            Err(e) => {
                proof {
                    assert(rewritten_ok(define_spec(ts), start, *env, d as nat, Err(e)));
                }
                return Err(e);
            },
        };
        let r = eval_in(&text, env, d);
        proof {
            assert(rewritten_ok(define_spec(ts), start, *env, d as nat, r));
        }
        return r;
    }
    if tokens.len() != 3 {
        return Err(EvalError::WrongArity);
    }
    let ghost start = *env;
    let rv = eval_in(&tokens[2], env, d);
    let ghost mid = *env;
    proof {
        assert(evaluation(ts[2], start, mid, d as nat, rv));
        assert(step(mid, rv));
    }
    let v = match rv {
        Ok(v) => v,
        Err(e) => {
            return Err(e);
        },
    };
    let var = string_of(&tokens[1]);
    let w = v.copy();
    env.add_value(var.as_str(), w);
    proof {
        assert(binds_one(mid, *env, ts[1], v));
    }
    return Ok(v);
}

/// Evaluates the `if` form `tokens` (see `if_ok`).
fn eval_if(tokens: &Vec<Vec<char>>, env: &mut Environment, d: usize) -> (r: Result<Value, EvalError>)
    requires
        old(env).wf(),
        tokens@.len() >= 1,
    ensures
        final(env).wf(),
        final(env).table() == old(env).table(),
        keeps(*old(env), *final(env)),
        if_ok(texts(tokens@), *old(env), *final(env), d as nat, r),
    decreases d, 4nat,
{
    let ghost ts = texts(tokens@);
    if tokens.len() != 3 && tokens.len() != 4 {
        return Err(EvalError::WrongArity);
    }
    let ghost start = *env;
    let rc = eval_in(&tokens[1], env, d);
    let ghost mid = *env;
    proof {
        assert(evaluation(ts[1], start, mid, d as nat, rc));
        assert(step(mid, rc));
    }
    let c = match rc {
        Ok(c) => c,
        Err(e) => {
            return Err(e);
        },
    };
    return match choose_branch(&c, tokens.len() == 4) {
        Ok(Some(true)) => eval_in(&tokens[2], env, d),
        Ok(Some(false)) => eval_in(&tokens[3], env, d),
        Ok(None) => Ok(Value::Null),
        Err(e) => Err(e),
    };
}

/// Evaluates the `cond` form `tokens` (see `cond_ok`).
fn eval_cond(tokens: &Vec<Vec<char>>, env: &mut Environment, d: usize) -> (r: Result<Value, EvalError>)
    requires
        old(env).wf(),
        tokens@.len() >= 1,
    ensures
        final(env).wf(),
        final(env).table() == old(env).table(),
        keeps(*old(env), *final(env)),
        cond_ok(texts(tokens@), *old(env), *final(env), d as nat, r),
    decreases d, 4nat,
{
    let ghost ts = texts(tokens@);
    if tokens.len() < 2 {
        return Err(EvalError::WrongArity);
    }
    let clause = match get_exp_inside_paren(&tokens[1]) {
        Ok(c) => c,
        Err(e) => {
            return Err(e);
        },
    };
    if clause.len() != 2 {
        return Err(EvalError::WrongType);
    }
    let ghost cs = parse_spec(ts[1])->0;
    assert(clause@[0]@ == cs[0] && clause@[1]@ == cs[1]);
    let ghost start = *env;
    let rt = eval_in(&clause[0], env, d);
    let ghost mid = *env;
    proof {
        assert(evaluation(cs[0], start, mid, d as nat, rt));
        assert(step(mid, rt));
    }
    let test = match rt {
        Ok(t) => t,
        Err(e) => {
            return Err(e);
        },
    };
    return match choose_branch(&test, tokens.len() > 2) {
        Ok(Some(true)) => eval_in(&clause[1], env, d),
        Ok(Some(false)) => {
            let rest = rewrite_cond_rest(&tokens);
            eval_in(&rest, env, d)
        },
        Ok(None) => Ok(Value::Null),
        Err(e) => Err(e),
    };
}

/// Evaluates the `load` form `tokens` (see `load_ok`).
fn eval_load(tokens: &Vec<Vec<char>>, env: &mut Environment, d: usize) -> (r: Result<Value, EvalError>)
    requires
        old(env).wf(),
        tokens@.len() >= 1,
    ensures
        final(env).wf(),
        final(env).table() == old(env).table(),
        keeps(*old(env), *final(env)),
        load_ok(texts(tokens@), *old(env), *final(env), d as nat, r),
    decreases d, 4nat,
{
    let ghost ts = texts(tokens@);
    if tokens.len() != 2 {
        return Err(EvalError::WrongArity);
    }
    let name = string_of(&tokens[1]);
    assert(name@ == ts[1]);
    let exprs = match env.find_source(&name) {
        Some(e) => e,
        None => {
            env.set_missing(name);
            return Err(EvalError::LoadError);
        },
    };
    return eval_sequence(&exprs, env, d);
}

/// Applies the procedure that `tokens[0]` names to the values of the other
/// tokens, all evaluated in `env`, left to right (see `application`).
pub fn apply(tokens: &Vec<Vec<char>>, env: &mut Environment, depth: usize) -> (r: Result<
    Value,
    EvalError,
>)
    requires
        old(env).wf(),
        tokens@.len() >= 1,
    ensures
        final(env).wf(),
        keeps(*old(env), *final(env)),
        final(env).table() == old(env).table(),
        application(texts(tokens@), *old(env), *final(env), depth as nat, r),
    decreases depth, 2nat,
{
    let ghost ts = texts(tokens@);
    let ghost start = *env;
    let mut args: Vec<Value> = Vec::new();
    let mut i: usize = 1;
    proof {
        assert(ts.subrange(1, 1) =~= Seq::<Seq<char>>::empty());
    }
    while i < tokens.len()
        invariant
            1 <= i <= tokens@.len(),
            ts == texts(tokens@),
            start == *old(env),
            start.wf(),
            env.wf(),
            env.table() == start.table(),
            keeps(start, *env),
            arguments(ts.subrange(1, i as int), start, *env, depth as nat, Ok(args@)),
        decreases tokens@.len() - i,
    {
        let ghost mid = *env;
        let ghost vs = args@;
        let rv = eval_in(&tokens[i], env, depth);
        proof {
            lemma_keeps_trans(start, mid, *env);
            let pre = ts.subrange(1, i + 1);
            assert(pre.drop_last() =~= ts.subrange(1, i as int));
            assert(pre.last() == tokens@[i as int]@);
            assert(evaluation(pre.last(), mid, *env, depth as nat, rv));
            assert(arguments(pre.drop_last(), start, mid, depth as nat, Ok(vs)));
            assert(step_args(mid, Ok(vs)));
            assert(outcome(rv));
        }
        match rv {
            Ok(v) => {
                args.push(v);
                proof {
                    assert(args@ == vs.push(v));
                    assert(arguments(ts.subrange(1, i + 1), start, *env, depth as nat, Ok(args@)));
                }
            },
            Err(e) => {
                proof {
                    let pre = ts.subrange(1, i + 1);
                    assert(arguments(pre, start, *env, depth as nat, Err(e)));
                    lemma_arguments_error(ts, i as int + 1, start, *env, depth as nat, e);
                    assert(ts.drop_first() =~= ts.subrange(1, ts.len() as int));
                    assert(step_args(*env, Err(e)));
                }
                return Err(e);
            },
        }
        i = i + 1;
    }
    let ghost after_args = *env;
    proof {
        assert(ts.drop_first() =~= ts.subrange(1, ts.len() as int));
        assert(tokens@[0]@ == ts[0]);
        assert(step_args(after_args, Ok(args@)));
    }
    apply_values(&tokens[0], args, env, depth)
}

/// An error in one argument is the outcome of all of them: the later ones are
/// not evaluated.
proof fn lemma_arguments_error(
    ts: Seq<Seq<char>>,
    k: int,
    before: Environment,
    after: Environment,
    d: nat,
    e: EvalError,
)
    requires
        1 <= k <= ts.len(),
        arguments(ts.subrange(1, k), before, after, d, Err(e)),
    ensures
        arguments(ts.subrange(1, ts.len() as int), before, after, d, Err(e)),
    decreases ts.len() - k,
{
    if k < ts.len() {
        let pre = ts.subrange(1, k + 1);
        assert(pre.drop_last() =~= ts.subrange(1, k));
        assert(arguments(pre.drop_last(), before, after, d, Err(e)));
        assert(step_args(after, Err(e)));
        assert(arguments(pre, before, after, d, Err(e)));
        lemma_arguments_error(ts, k + 1, before, after, d, e);
    }
}

proof fn lemma_binds_step(
    f: Frame,
    g: Frame,
    ns: Seq<Seq<char>>,
    vs: Seq<Value>,
    k: int,
    w: Value,
)
    requires
        0 <= k < ns.len(),
        k < vs.len(),
        binds_all(f, ns.subrange(0, k), vs.subrange(0, k)),
        same(w, vs[k]),
        forall|n: Seq<char>|
            #[trigger] frame_get(g, n) == if n == ns[k] {
                Some(w)
            } else {
                frame_get(f, n)
            },
    ensures
        binds_all(g, ns.subrange(0, k + 1), vs.subrange(0, k + 1)),
{
    let a = ns.subrange(0, k);
    let b = ns.subrange(0, k + 1);
    let va = vs.subrange(0, k);
    let vb = vs.subrange(0, k + 1);
    assert forall|i: int|
        0 <= i < b.len() && (forall|j: int| i < j < b.len() ==> b[j] != b[i]) implies (
        #[trigger] frame_get(g, b[i]) matches Some(x) && same(x, vb[i])) by {
        if i < k {
            assert(b[k] != b[i]);
            assert(b[i] == a[i]);
            assert(forall|j: int| i < j < a.len() ==> a[j] == b[j]);
            assert(frame_get(f, a[i]) matches Some(x) && same(x, va[i]));
        }
    }
    assert forall|n: Seq<char>|
        (forall|i: int| 0 <= i < b.len() ==> b[i] != n) implies #[trigger] frame_get(g, n) is None by {
        assert(b[k] != n);
        assert(forall|i: int| 0 <= i < a.len() ==> a[i] == b[i]);
        assert(frame_get(f, n) is None);
    }
}

proof fn lemma_keeps_trans(a: Environment, b: Environment, c: Environment)
    requires
        keeps(a, b),
        keeps(b, c),
    ensures
        keeps(a, c),
{
    assert forall|i: int| 0 <= i < a.cells().len() && i != a.cur() implies #[trigger] c.cells()[i]
        == a.cells()[i] by {
        assert(c.cells()[i] == b.cells()[i]);
    }
}

/// Ends a call: the caller's frame `caller` is current again, and the frames
/// from `base` on are dropped unless a procedure made meanwhile may refer to
/// them.
fn self_leave(
    env: &mut Environment,
    caller: usize,
    base: usize,
    Ghost(mid): Ghost<Environment>,
    Ghost(inner): Ghost<Environment>,
)
    requires
        old(env).wf(),
        mid.wf(),
        caller == mid.cur(),
        base == mid.cells().len(),
        inner.cells().drop_last() == mid.cells(),
        inner.cells().len() == mid.cells().len() + 1,
        inner.cur() == base,
        keeps(inner, *old(env)),
    ensures
        keeps(mid, *final(env)),
        final(env).wf(),
        final(env).cur() == mid.cur(),
        final(env).pin() == old(env).pin(),
        final(env).table() == old(env).table(),
        final(env).cells() == if old(env).pin() <= mid.cells().len() {
            mid.cells()
        } else {
            old(env).cells()
        },
{
    proof {
        assert(mid.cur() < mid.cells().len());
        assert(old(env).cells().len() >= inner.cells().len());
        assert forall|i: int| 0 <= i < mid.cells().len() implies #[trigger] old(env).cells()[i] == mid.cells()[i] by {
            assert(i != inner.cur());
            assert(old(env).cells()[i] == inner.cells()[i]);
            assert(inner.cells().drop_last()[i] == inner.cells()[i]);
        }
    }
    env.set_current(caller);
    if env.pinned() <= base {
        env.release_from(base);
        proof {
            assert forall|i: int| 0 <= i < mid.cells().len() implies #[trigger] env.cells()[i] == mid.cells()[i] by {
                assert(old(env).cells()[i] == mid.cells()[i]);
            }
            assert(env.cells() =~= mid.cells());
        }
    }
}

/// Calls what `head` names on the evaluated `args` (see `call`).
pub fn apply_values(head: &Vec<char>, args: Vec<Value>, env: &mut Environment, depth: usize) -> (r:
    Result<Value, EvalError>)
    requires
        old(env).wf(),
    ensures
        final(env).wf(),
        keeps(*old(env), *final(env)),
        final(env).table() == old(env).table(),
        call(head@, args@, *old(env), *final(env), depth as nat, r),
    decreases depth, 1nat,
{
    let ghost start = *env;
    match check_primitive_procedures(head, &args) {
        Some(r) => {
            return r;
        },
        None => {},
    }
    let rh = eval_in(head, env, depth);
    let ghost mid = *env;
    let ghost grh = rh;
    proof {
        assert(evaluation(head@, start, mid, depth as nat, rh));
        assert(step(mid, rh));
    }
    let callee = match rh {
        Ok(v) => v,
        Err(e) => {
            return Err(e);
        },
    };
    match callee {
        Value::Procedure(params, body, k) => {
            if params.len() != args.len() {
                return Err(EvalError::ProcedureArity(string_of(head)));
            }
            if k >= env.frame_count() {
                return Err(EvalError::NotAProcedure);
            }
            let ghost ns = string_texts(params@);
            let caller = env.current();
            let base = env.frame_count();
            env.push_child(k);
            proof {
                assert(ns.subrange(0, 0) =~= Seq::<Seq<char>>::empty());
                assert(args@.subrange(0, 0) =~= Seq::<Value>::empty());
                assert forall|n: Seq<char>| #[trigger] frame_get(env.cells().last().0, n) is None by {
                    assert(env.cells().last().0 =~= Seq::<(String, Value)>::empty());
                }
            }
            let mut i: usize = 0;
            while i < params.len()
                invariant
                    params@.len() == args@.len(),
                    ns == string_texts(params@),
                    start == *old(env),
                    keeps(start, mid),
                    mid.wf(),
                    mid.table() == start.table(),
                    env.table() == mid.table(),
                    primitive_spec(head@, args@) is None,
                    grh == Ok::<Value, EvalError>(Value::Procedure(params, body, k)),
                    evaluation(head@, start, mid, depth as nat, grh),
                    step(mid, grh),
                    k < mid.cells().len(),
                    caller == mid.cur(),
                    base == mid.cells().len(),
                    i <= params@.len(),
                    env.wf(),
                    env.cur() == base,
                    env.pin() == mid.pin(),
                    env.cells().len() == base + 1,
                    env.cells().drop_last() == mid.cells(),
                    env.cells().last().1 == Some(k),
                    binds_all(env.cells().last().0, ns.subrange(0, i as int), args@.subrange(0, i as int)),
                decreases params@.len() - i,
            {
                let ghost f = env.cells().last().0;
                let w = args[i].copy();
                env.add_value(params[i].as_str(), w);
                proof {
                    assert(ns[i as int] == params@[i as int]@);
                    assert(env.cells().drop_last() =~= mid.cells());
                    lemma_binds_step(f, env.cells().last().0, ns, args@, i as int, w);
                }
                i = i + 1;
            }
            proof {
                assert(ns.subrange(0, ns.len() as int) =~= ns);
                assert(args@.subrange(0, args@.len() as int) =~= args@);
            }
            let ghost inner = *env;
            let ghost bs = string_texts(body@);
            let mut res = Value::Null;
            let mut j: usize = 0;
            proof {
                assert(bs.subrange(0, 0) =~= Seq::<Seq<char>>::empty());
            }
            while j < body.len()
                invariant
                    j <= body@.len(),
                    bs == string_texts(body@),
                    start == *old(env),
                    keeps(start, mid),
                    mid.wf(),
                    mid.table() == start.table(),
                    env.table() == mid.table(),
                    primitive_spec(head@, args@) is None,
                    grh == Ok::<Value, EvalError>(Value::Procedure(params, body, k)),
                    evaluation(head@, start, mid, depth as nat, grh),
                    step(mid, grh),
                    k < mid.cells().len(),
                    params@.len() == args@.len(),
                    caller == mid.cur(),
                    base == mid.cells().len(),
                    inner.cells().drop_last() == mid.cells(),
                    inner.cells().len() == base + 1,
                    inner.cells().last().1 == Some(k),
                    binds_all(inner.cells().last().0, string_texts(params@), args@),
                    inner.cur() == base,
                    inner.pin() == mid.pin(),
                    inner.table() == mid.table(),
                    env.wf(),
                    keeps(inner, *env),
                    sequence(bs.subrange(0, j as int), inner, *env, depth as nat, Ok(res)),
                decreases body@.len() - j,
            {
                let text = chars_of(body[j].as_str());
                let ghost before_j = *env;
                let ghost rj = res;
                let rb = eval_in(&text, env, depth);
                proof {
                    let pre = bs.subrange(0, j + 1);
                    assert(pre.drop_last() =~= bs.subrange(0, j as int));
                    assert(pre.last() == text@);
                    assert(sequence(pre.drop_last(), inner, before_j, depth as nat, Ok(rj)));
                    assert(step(before_j, Ok(rj)));
                    assert(sequence(pre, inner, *env, depth as nat, rb));
                    lemma_keeps_trans(inner, before_j, *env);
                }
                match rb {
                    Ok(v) => {
                        res = v;
                    },
                    Err(e) => {
                        proof {
                            lemma_sequence_error(bs, j as int + 1, inner, *env, depth as nat, e);
                            assert(body_states(inner, *env));
                        }
                        self_leave(env, caller, base, Ghost(mid), Ghost(inner));
                        proof {
                            lemma_keeps_trans(start, mid, *env);
                        }
                        return Err(e);
                    },
                }
                j = j + 1;
            }
            proof {
                assert(bs.subrange(0, bs.len() as int) =~= bs);
                assert(body_states(inner, *env));
            }
            self_leave(env, caller, base, Ghost(mid), Ghost(inner));
            proof {
                lemma_keeps_trans(start, mid, *env);
            }
            Ok(res)
        },
        _ => Err(EvalError::NotAProcedure),
    }
}

/// An error in one expression of a sequence is the outcome of the whole: the
/// later ones are not evaluated.
proof fn lemma_sequence_error(
    exps: Seq<Seq<char>>,
    k: int,
    before: Environment,
    after: Environment,
    d: nat,
    e: EvalError,
)
    requires
        0 <= k <= exps.len(),
        sequence(exps.subrange(0, k), before, after, d, Err(e)),
    ensures
        sequence(exps, before, after, d, Err(e)),
    decreases exps.len() - k,
{
    if k < exps.len() {
        let pre = exps.subrange(0, k + 1);
        assert(pre.drop_last() =~= exps.subrange(0, k));
        assert(step(after, Err(e)));
        assert(sequence(pre, before, after, d, Err(e)));
        lemma_sequence_error(exps, k + 1, before, after, d, e);
    } else {
        assert(exps.subrange(0, k) =~= exps);
    }
}

/// Evaluates the text `exp` in `env` (see `eval_in`), with forms nested at most
/// `MAX_DEPTH` deep.
pub fn eval(exp: &str, env: &mut Environment) -> (r: Result<Value, EvalError>)
    requires
        old(env).wf(),
    ensures
        evaluation(exp@, *old(env), *final(env), MAX_DEPTH as nat, r),
{
    let text = chars_of(exp);
    eval_in(&text, env, MAX_DEPTH)
}

/// Evaluates `exprs` one after another in `env` (see `eval_sequence`), forms
/// nested at most `MAX_DEPTH` deep.
pub fn eval_all(exprs: &Vec<String>, env: &mut Environment) -> (r: Result<Value, EvalError>)
    requires
        old(env).wf(),
    ensures
        final(env).wf(),
        final(env).table() == old(env).table(),
        keeps(*old(env), *final(env)),
        sequence(string_texts(exprs@), *old(env), *final(env), MAX_DEPTH as nat, r),
{
    eval_sequence(exprs, env, MAX_DEPTH)
}

} // verus!

verus! {

/// Evaluates the texts `exprs` one after another in `env`, forms nested at most
/// `depth` deep, and returns the value of the last (`Null` when there is none);
/// stops at the first failure.
pub fn eval_sequence(exprs: &Vec<String>, env: &mut Environment, depth: usize) -> (r: Result<
    Value,
    EvalError,
>)
    requires
        old(env).wf(),
    ensures
        final(env).wf(),
        final(env).table() == old(env).table(),
        keeps(*old(env), *final(env)),
        sequence(string_texts(exprs@), *old(env), *final(env), depth as nat, r),
    decreases depth, 3nat,
{
    let ghost es = string_texts(exprs@);
    let ghost start = *env;
    let mut last = Value::Null;
    let mut i: usize = 0;
    proof {
        assert(es.subrange(0, 0) =~= Seq::<Seq<char>>::empty());
    }
    while i < exprs.len()
        invariant
            i <= exprs@.len(),
            es == string_texts(exprs@),
            start == *old(env),
            env.wf(),
            env.table() == start.table(),
            keeps(start, *env),
            sequence(es.subrange(0, i as int), start, *env, depth as nat, Ok(last)),
        decreases exprs@.len() - i,
    {
        let ghost before_i = *env;
        let ghost li = last;
        let text = chars_of(exprs[i].as_str());
        let ri = eval_in(&text, env, depth);
        proof {
            let pre = es.subrange(0, i + 1);
            assert(pre.drop_last() =~= es.subrange(0, i as int));
            assert(pre.last() == text@);
            assert(sequence(pre.drop_last(), start, before_i, depth as nat, Ok(li)));
            assert(step(before_i, Ok(li)));
            assert(sequence(pre, start, *env, depth as nat, ri));
            lemma_keeps_trans(start, before_i, *env);
        }
        match ri {
            Ok(v) => {
                last = v;
            },
            Err(e) => {
                proof {
                    lemma_sequence_error(es, i as int + 1, start, *env, depth as nat, e);
                }
                return Err(e);
            },
        }
        i = i + 1;
    }
    proof {
        assert(es.subrange(0, es.len() as int) =~= es);
    }
    Ok(last)
}


} // verus!
