use vstd::prelude::*;
use crate::literal::{all_digits, digits_value, int_literal, is_digit};
use crate::parser::{is_atom, is_item, is_special, is_ws, joined, lemma_parse_joined, parse_spec, string_of};
use crate::primitive_procedures::list_of;
use crate::rewrite::push_lit;
use crate::types::Value;

verus! {

pub open spec fn digit_char(d: nat) -> char {
    if d == 0 {
        '0'
    } else if d == 1 {
        '1'
    } else if d == 2 {
        '2'
    } else if d == 3 {
        '3'
    } else if d == 4 {
        '4'
    } else if d == 5 {
        '5'
    } else if d == 6 {
        '6'
    } else if d == 7 {
        '7'
    } else if d == 8 {
        '8'
    } else {
        '9'
    }
}

/// The decimal digits of `m`, most significant first, without leading zeros.
pub open spec fn decimal(m: nat) -> Seq<char>
    decreases m,
{
    if m < 10 {
        seq![digit_char(m)]
    } else {
        decimal(m / 10).push(digit_char(m % 10))
    }
}

/// The decimal text of an integer, with a leading `-` when it is negative.
pub open spec fn int_text(i: int) -> Seq<char> {
    if i < 0 {
        seq!['-'] + decimal((-i) as nat)
    } else {
        decimal(i as nat)
    }
}

/// The printed form of a value: `(v1 v2 ... vn)` for a proper list and
/// `(v1 ... . vn)` for one with another tail.
pub open spec fn print_of(v: Value) -> Seq<char>
    decreases v, 0nat,
{
    match v {
        Value::Integer(n) => int_text(n as int),
        Value::String(s) => s@,
        Value::Boolean(b) => if b {
            "#t"@
        } else {
            "#f"@
        },
        Value::Null => "()"@,
        Value::Procedure(_, _, _) => Seq::empty(),
        Value::Pair(h, t) => "("@ + print_of(*h) + tail_of(*t) + ")"@,
    }
}

/// What follows the first element in the printed form of a list with tail `t`.
pub open spec fn tail_of(t: Value) -> Seq<char>
    decreases t, 1nat,
{
    match t {
        Value::Null => Seq::empty(),
        Value::Pair(h, rest) => seq![' '] + print_of(*h) + tail_of(*rest),
        _ => " . "@ + print_of(t),
    }
}

fn digit_of(d: u64) -> (c: char)
    requires
        d < 10,
    ensures
        c == digit_char(d as nat),
{
    if d == 0 {
        '0'
    } else if d == 1 {
        '1'
    } else if d == 2 {
        '2'
    } else if d == 3 {
        '3'
    } else if d == 4 {
        '4'
    } else if d == 5 {
        '5'
    } else if d == 6 {
        '6'
    } else if d == 7 {
        '7'
    } else if d == 8 {
        '8'
    } else {
        '9'
    }
}

fn push_decimal(out: &mut Vec<char>, m: u64)
    ensures
        final(out)@ == old(out)@ + decimal(m as nat),
    decreases m,
{
    if m >= 10 {
        push_decimal(out, m / 10);
    }
    let c = digit_of(m % 10);
    out.push(c);
    proof {
        if m >= 10 {
            assert(out@ =~= old(out)@ + decimal(m as nat));
        } else {
            assert(out@ =~= old(out)@ + decimal(m as nat));
        }
    }
}

fn push_value(out: &mut Vec<char>, v: &Value)
    ensures
        final(out)@ == old(out)@ + print_of(*v),
    decreases *v, 0nat,
{
    match v {
        Value::Integer(n) => {
            if *n < 0 {
                out.push('-');
                let m: u64 = if *n == i64::MIN {
                    9223372036854775808u64
                } else {
                    (-*n) as u64
                };
                push_decimal(out, m);
            } else {
                push_decimal(out, *n as u64);
            }
            assert(out@ =~= old(out)@ + print_of(*v));
        },
        Value::String(s) => {
            let t = crate::parser::chars_of(s.as_str());
            let mut i: usize = 0;
            while i < t.len()
                invariant
                    i <= t@.len(),
                    out@ == old(out)@ + t@.subrange(0, i as int),
                decreases t@.len() - i,
            {
                out.push(t[i]);
                i = i + 1;
                proof {
                    assert(out@ =~= old(out)@ + t@.subrange(0, i as int));
                }
            }
            assert(t@.subrange(0, t@.len() as int) =~= s@);
        },
        Value::Boolean(b) => {
            if *b {
                push_lit(out, "#t");
            } else {
                push_lit(out, "#f");
            }
        },
        Value::Null => push_lit(out, "()"),
        Value::Procedure(_, _, _) => {
            assert(out@ =~= old(out)@ + print_of(*v));
        },
        Value::Pair(h, t) => {
            push_lit(out, "(");
            push_value(out, h);
            push_tail(out, t);
            push_lit(out, ")");
            assert(out@ =~= old(out)@ + print_of(*v));
        },
    }
}

fn push_tail(out: &mut Vec<char>, t: &Value)
    ensures
        final(out)@ == old(out)@ + tail_of(*t),
    decreases *t, 1nat,
{
    match t {
        Value::Null => {
            assert(out@ =~= old(out)@ + tail_of(*t));
        },
        Value::Pair(h, rest) => {
            out.push(' ');
            push_value(out, h);
            push_tail(out, rest);
            assert(out@ =~= old(out)@ + tail_of(*t));
        },
        _ => {
            push_lit(out, " . ");
            push_value(out, t);
            assert(out@ =~= old(out)@ + tail_of(*t));
        },
    }
}

impl Value {
    /// The printed form of the value (see `print_of`).
    pub fn to_text(&self) -> (r: String)
        ensures
            r@ == print_of(*self),
    {
        let mut out: Vec<char> = Vec::new();
        push_value(&mut out, self);
        assert(out@ =~= print_of(*self));
        string_of(&out)
    }
}

} // verus!

verus! {

proof fn lemma_digit_char(k: nat)
    requires
        k < 10,
    ensures
        digit_char(k) as nat - '0' as nat == k,
        is_digit(digit_char(k)),
{
}

proof fn lemma_decimal(m: nat)
    ensures
        decimal(m).len() > 0,
        all_digits(decimal(m)),
        digits_value(decimal(m)) == m,
    decreases m,
{
    lemma_digit_char(m % 10);
    if m < 10 {
        let d = decimal(m);
        assert(d.drop_last() =~= Seq::<char>::empty());
        assert(digits_value(d) == digits_value(d.drop_last()) * 10 + (d.last() as nat - '0' as nat));
    }
    if m >= 10 {
        lemma_decimal(m / 10);
        let d = decimal(m);
        assert(d.last() == digit_char(m % 10));
        assert(digits_value(d) == digits_value(d.drop_last()) * 10 + (d.last() as nat - '0' as nat));
        assert(d.drop_last() =~= decimal(m / 10));
        assert forall|i: int| 0 <= i < d.len() implies is_digit(#[trigger] d[i]) by {
            if i < d.len() - 1 {
                assert(d[i] == decimal(m / 10)[i]);
            }
        }
    }
}

/// The printed form of an integer reads back as that integer.
pub proof fn lemma_integer_round_trip(n: i64)
    ensures
        int_literal(print_of(Value::Integer(n))) == Some(n as int),
{
    let s = print_of(Value::Integer(n));
    if n < 0 {
        let m = (-(n as int)) as nat;
        lemma_decimal(m);
        assert(s.subrange(1, s.len() as int) =~= decimal(m));
    } else {
        lemma_decimal(n as nat);
        assert(is_digit(s[0]));
        assert(s.subrange(0, s.len() as int) =~= s);
    }
}

pub open spec fn integer_values(ns: Seq<i64>) -> Seq<Value> {
    ns.map_values(|n: i64| Value::Integer(n))
}

pub open spec fn integer_texts(ns: Seq<i64>) -> Seq<Seq<char>> {
    ns.map_values(|n: i64| int_text(n as int))
}

proof fn lemma_int_text_atom(n: i64)
    ensures
        is_atom(int_text(n as int)),
{
    let s = int_text(n as int);
    if n < 0 {
        lemma_decimal((-(n as int)) as nat);
        assert forall|i: int| 0 <= i < s.len() implies !is_special(#[trigger] s[i]) && !is_ws(
            s[i],
        ) by {
            if i > 0 {
                assert(s[i] == decimal((-(n as int)) as nat)[i - 1]);
            }
        }
    } else {
        lemma_decimal(n as nat);
        assert forall|i: int| 0 <= i < s.len() implies !is_special(#[trigger] s[i]) && !is_ws(
            s[i],
        ) by {
            assert(is_digit(s[i]));
        }
    }
}

proof fn lemma_list_text(ns: Seq<i64>)
    requires
        ns.len() > 0,
    ensures
        int_text(ns[0] as int) + tail_of(list_of(integer_values(ns).drop_first())) == joined(
            integer_texts(ns),
        ),
    decreases ns.len(),
{
    let vs = integer_values(ns);
    let ts = integer_texts(ns);
    if ns.len() == 1 {
        assert(vs.drop_first() =~= Seq::<Value>::empty());
        assert(int_text(ns[0] as int) + Seq::<char>::empty() =~= int_text(ns[0] as int));
    } else {
        let rest = ns.drop_first();
        lemma_list_text(rest);
        assert(vs.drop_first() =~= integer_values(rest));
        assert(integer_values(rest).drop_first() =~= vs.drop_first().drop_first());
        assert(ts.drop_first() =~= integer_texts(rest));
        let l = list_of(vs.drop_first());
        assert(vs.drop_first()[0] == Value::Integer(rest[0]));
        assert(l == Value::Pair(
            Box::new(Value::Integer(rest[0])),
            Box::new(list_of(integer_values(rest).drop_first())),
        ));
        let tail = tail_of(list_of(integer_values(rest).drop_first()));
        let h = Value::Integer(rest[0]);
        assert(print_of(h) == int_text(rest[0] as int));
        assert(tail_of(l) == seq![' '] + print_of(h) + tail);
        assert(int_text(rest[0] as int) + tail == joined(integer_texts(rest)));
        assert(joined(ts) == ts[0] + seq![' '] + joined(ts.drop_first()));
        assert(ts[0] == int_text(ns[0] as int));
        assert(int_text(ns[0] as int) + tail_of(l) =~= ts[0] + seq![' '] + joined(ts.drop_first()));
    }
}

/// Printing a proper list of integers and parsing the text again gives one
/// token per element, in order, and each token reads back as its element.
pub proof fn lemma_list_round_trip(ns: Seq<i64>)
    ensures
        parse_spec(print_of(list_of(integer_values(ns)))) == Some(integer_texts(ns)),
        forall|i: int|
            0 <= i < ns.len() ==> int_literal(#[trigger] integer_texts(ns)[i]) == Some(
                ns[i] as int,
            ),
{
    let ts = integer_texts(ns);
    assert forall|i: int| 0 <= i < ts.len() implies is_item(#[trigger] ts[i]) by {
        lemma_int_text_atom(ns[i]);
    }
    assert forall|i: int| 0 <= i < ns.len() implies int_literal(#[trigger] ts[i]) == Some(
        ns[i] as int,
    ) by {
        lemma_integer_round_trip(ns[i]);
    }
    lemma_parse_joined(ts);
    reveal_strlit("()");
    reveal_strlit("(");
    reveal_strlit(")");
    if ns.len() == 0 {
        assert(integer_values(ns) =~= Seq::<Value>::empty());
        assert(print_of(Value::Null) =~= seq!['('] + joined(ts) + seq![')']);
    } else {
        lemma_list_text(ns);
        let vs = integer_values(ns);
        assert(list_of(vs) == Value::Pair(Box::new(Value::Integer(ns[0])), Box::new(list_of(vs.drop_first()))));
        let h = Value::Integer(ns[0]);
        assert(print_of(h) == int_text(ns[0] as int));
        assert(print_of(list_of(vs)) == "("@ + print_of(h) + tail_of(list_of(vs.drop_first()))
            + ")"@);
        assert(print_of(list_of(vs)) =~= seq!['('] + joined(ts) + seq![')']);
    }
}

} // verus!
