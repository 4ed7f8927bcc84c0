use vstd::prelude::*;
use vstd::string::StrSliceExecFns;
use crate::parser::{get_exp_inside_paren, parse_spec};
use crate::types::EvalError;

verus! {

/// The texts of a sequence of character vectors.
pub open spec fn texts(v: Seq<Vec<char>>) -> Seq<Seq<char>> {
    v.map_values(|t: Vec<char>| t@)
}

/// Each text preceded by one space, all run together.
pub open spec fn spaced(ts: Seq<Seq<char>>) -> Seq<char>
    decreases ts.len(),
{
    if ts.len() == 0 {
        Seq::empty()
    } else {
        spaced(ts.drop_last()) + seq![' '] + ts.last()
    }
}

/// `(define (name params...) body...)` as `(define name (lambda (params...) body...))`.
pub open spec fn define_text(header: Seq<Seq<char>>, body: Seq<Seq<char>>) -> Seq<char> {
    "(define "@ + header[0] + " (lambda ("@ + spaced(header.drop_first()) + ")"@ + spaced(body)
        + "))"@
}

/// What the `define` shorthand `tokens` (head, header, body...) reads as.
pub open spec fn define_spec(tokens: Seq<Seq<char>>) -> Result<Seq<char>, EvalError> {
    if tokens.len() < 3 {
        Err(EvalError::WrongArity)
    } else {
        match parse_spec(tokens[1]) {
            None => Err(EvalError::ParseError),
            Some(h) => if h.len() == 0 {
                Err(EvalError::WrongType)
            } else {
                Ok(define_text(h, tokens.subrange(2, tokens.len() as int)))
            },
        }
    }
}

/// A `let` binding: a group of exactly a name and an expression.
pub open spec fn is_binding(b: Seq<char>) -> bool {
    parse_spec(b) matches Some(p) && p.len() == 2
}

pub open spec fn binding_part(b: Seq<char>, k: int) -> Seq<char> {
    parse_spec(b)->0[k]
}

/// `(let ((name val)...) body...)` as `((lambda (name...) body...) val...)`.
pub open spec fn let_text(bs: Seq<Seq<char>>, body: Seq<Seq<char>>) -> Seq<char> {
    "((lambda ("@ + spaced(bs.map_values(|b: Seq<char>| binding_part(b, 0)))
        + ")"@ + spaced(body) + ")"@ + spaced(bs.map_values(|b: Seq<char>| binding_part(b, 1)))
        + ")"@
}

/// What the `let` form `tokens` (head, bindings, body...) reads as.
pub open spec fn let_spec(tokens: Seq<Seq<char>>) -> Result<Seq<char>, EvalError> {
    if tokens.len() < 3 {
        Err(EvalError::WrongArity)
    } else {
        match parse_spec(tokens[1]) {
            None => Err(EvalError::ParseError),
            Some(bs) => if forall|i: int| 0 <= i < bs.len() ==> is_binding(#[trigger] bs[i]) {
                Ok(let_text(bs, tokens.subrange(2, tokens.len() as int)))
            } else {
                Err(EvalError::WrongType)
            },
        }
    }
}

/// The `cond` form `tokens` without its first clause.
pub open spec fn cond_rest_text(tokens: Seq<Seq<char>>) -> Seq<char> {
    "(cond"@ + spaced(tokens.subrange(2, tokens.len() as int)) + ")"@
}

pub(crate) fn push_lit(out: &mut Vec<char>, lit: &str)
    ensures
        final(out)@ == old(out)@ + lit@,
{
    let n = lit.unicode_len();
    let mut i: usize = 0;
    while i < n
        invariant
            n == lit@.len(),
            i <= n,
            out@ == old(out)@ + lit@.subrange(0, i as int),
        decreases n - i,
    {
        out.push(lit.get_char(i));
        i = i + 1;
        proof {
            assert(out@ =~= old(out)@ + lit@.subrange(0, i as int));
        }
    }
    proof {
        assert(lit@.subrange(0, n as int) =~= lit@);
    }
}

fn push_all(out: &mut Vec<char>, t: &Vec<char>)
    ensures
        final(out)@ == old(out)@ + t@,
{
    let mut i: usize = 0;
    while i < t.len()
        invariant
            i <= t@.len(),
            out@ == old(out)@ + t@.subrange(0, i as int),
        decreases t@.len() - i,
    {
        out.push(t[i]);
        i = i + 1;
        proof {
            assert(out@ =~= old(out)@ + t@.subrange(0, i as int));
        }
    }
    proof {
        assert(t@.subrange(0, t@.len() as int) =~= t@);
    }
}

/// Appends each of `ts[from..]`, each after one space.
fn push_spaced(out: &mut Vec<char>, ts: &Vec<Vec<char>>, from: usize)
    requires
        from <= ts@.len(),
    ensures
        final(out)@ == old(out)@ + spaced(texts(ts@).subrange(from as int, ts@.len() as int)),
{
    let ghost all = texts(ts@).subrange(from as int, ts@.len() as int);
    let mut i: usize = from;
    assert(all.subrange(0, 0) =~= Seq::<Seq<char>>::empty());
    while i < ts.len()
        invariant
            from <= i <= ts@.len(),
            all == texts(ts@).subrange(from as int, ts@.len() as int),
            out@ == old(out)@ + spaced(all.subrange(0, i - from)),
        decreases ts@.len() - i,
    {
        let ghost before = out@;
        out.push(' ');
        push_all(out, &ts[i]);
        proof {
            let next = all.subrange(0, i + 1 - from);
            assert(next.drop_last() =~= all.subrange(0, i - from));
            assert(next.last() == ts@[i as int]@);
            assert(out@ =~= old(out)@ + spaced(next));
        }
        i = i + 1;
    }
    assert(all.subrange(0, ts@.len() - from) =~= all);
}

/// Rewrites the `define` shorthand `tokens` into a variable definition of a
/// `lambda` (see `define_spec`).
pub fn rewrite_define(tokens: &Vec<Vec<char>>) -> (r: Result<Vec<char>, EvalError>)
    ensures
        match (r, define_spec(texts(tokens@))) {
            (Ok(a), Ok(b)) => a@ == b,
            (Err(a), Err(b)) => a == b,
            _ => false,
        },
{
    if tokens.len() < 3 {
        return Err(EvalError::WrongArity);
    }
    let header = match get_exp_inside_paren(&tokens[1]) {
        Ok(h) => h,
        Err(e) => {
            return Err(e);
        },
    };
    if header.len() == 0 {
        return Err(EvalError::WrongType);
    }
    let mut out: Vec<char> = Vec::new();
    push_lit(&mut out, "(define ");
    push_all(&mut out, &header[0]);
    push_lit(&mut out, " (lambda (");
    push_spaced(&mut out, &header, 1);
    push_lit(&mut out, ")");
    push_spaced(&mut out, tokens, 2);
    push_lit(&mut out, "))");
    proof {
        let h = parse_spec(tokens@[1]@)->0;
        assert(texts(header@) =~= h);
        assert(texts(header@).subrange(1, header@.len() as int) =~= h.drop_first());
        assert(texts(tokens@).subrange(2, tokens@.len() as int) =~= texts(tokens@).subrange(
            2,
            texts(tokens@).len() as int,
        ));
        assert(out@ =~= define_text(h, texts(tokens@).subrange(2, tokens@.len() as int)));
    }
    Ok(out)
}

/// Rewrites the `let` form `tokens` into an immediately applied `lambda` (see
/// `let_spec`).
#[verifier::rlimit(30)]
pub fn rewrite_let(tokens: &Vec<Vec<char>>) -> (r: Result<Vec<char>, EvalError>)
    ensures
        match (r, let_spec(texts(tokens@))) {
            (Ok(a), Ok(b)) => a@ == b,
            (Err(a), Err(b)) => a == b,
            _ => false,
        },
{
    if tokens.len() < 3 {
        return Err(EvalError::WrongArity);
    }
    let bs = match get_exp_inside_paren(&tokens[1]) {
        Ok(b) => b,
        Err(e) => {
            return Err(e);
        },
    };
    let ghost sb = parse_spec(tokens@[1]@)->0;
    assert(texts(bs@) =~= sb);
    assert(texts(tokens@)[1] == tokens@[1]@);
    assert(texts(tokens@).len() >= 3);
    let mut names: Vec<Vec<char>> = Vec::new();
    let mut vals: Vec<Vec<char>> = Vec::new();
    let mut i: usize = 0;
    while i < bs.len()
        invariant
            i <= bs@.len() == sb.len(),
            texts(bs@) == sb,
            texts(tokens@)[1] == tokens@[1]@,
            texts(tokens@).len() >= 3,
            parse_spec(tokens@[1]@) == Some(sb),
            forall|j: int| 0 <= j < i ==> is_binding(#[trigger] sb[j]),
            names@.len() == i,
            vals@.len() == i,
            forall|j: int| 0 <= j < i ==> (#[trigger] names@[j])@ == binding_part(sb[j], 0),
            forall|j: int| 0 <= j < i ==> (#[trigger] vals@[j])@ == binding_part(sb[j], 1),
        decreases bs@.len() - i,
    {
        let parts = match get_exp_inside_paren(&bs[i]) {
            Ok(p) => p,
            Err(_) => {
                proof {
                    assert(!is_binding(sb[i as int]));
                }
                return Err(EvalError::WrongType);
            },
        };
        if parts.len() != 2 {
            proof {
                assert(!is_binding(sb[i as int]));
            }
            return Err(EvalError::WrongType);
        }
        let ghost old_names = names@;
        let ghost old_vals = vals@;
        let ghost p0 = parts@;
        proof {
            assert(bs@[i as int]@ == sb[i as int]);
            assert(p0[0]@ == binding_part(sb[i as int], 0));
            assert(p0[1]@ == binding_part(sb[i as int], 1));
        }
        let mut parts = parts;
        let v = parts.pop().unwrap();
        let n = parts.pop().unwrap();
        assert(v == p0[1] && n == p0[0]);
        names.push(n);
        vals.push(v);
        i = i + 1;
    }
    assert(texts(names@) =~= sb.map_values(|b: Seq<char>| binding_part(b, 0)));
    assert(texts(vals@) =~= sb.map_values(|b: Seq<char>| binding_part(b, 1)));
    let mut out: Vec<char> = Vec::new();
    push_lit(&mut out, "((lambda (");
    push_spaced(&mut out, &names, 0);
    push_lit(&mut out, ")");
    push_spaced(&mut out, tokens, 2);
    push_lit(&mut out, ")");
    push_spaced(&mut out, &vals, 0);
    push_lit(&mut out, ")");
    proof {
        assert(texts(names@).subrange(0, names@.len() as int) =~= texts(names@));
        assert(texts(vals@).subrange(0, vals@.len() as int) =~= texts(vals@));
        assert(out@ =~= let_text(sb, texts(tokens@).subrange(2, tokens@.len() as int)));
    }
    Ok(out)
}

/// The `cond` form `tokens` without its first clause (see `cond_rest_text`).
pub fn rewrite_cond_rest(tokens: &Vec<Vec<char>>) -> (r: Vec<char>)
    requires
        tokens@.len() >= 2,
    ensures
        r@ == cond_rest_text(texts(tokens@)),
{
    let mut out: Vec<char> = Vec::new();
    push_lit(&mut out, "(cond");
    push_spaced(&mut out, tokens, 2);
    push_lit(&mut out, ")");
    proof {
        assert(out@ =~= cond_rest_text(texts(tokens@)));
    }
    out
}

} // verus!
