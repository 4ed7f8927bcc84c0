use vstd::prelude::*;
use vstd::string::StrSliceExecFns;
use crate::types::{check_for_floats, is_number, same, value_eq, EvalError, Value};

verus! {

pub open spec fn in_i64(x: int) -> bool {
    i64::MIN <= x <= i64::MAX
}

pub open spec fn int_of(v: Value) -> int {
    match v {
        Value::Integer(n) => n as int,
        _ => 0,
    }
}

pub open spec fn all_numbers(s: Seq<Value>) -> bool {
    forall|i: int| 0 <= i < s.len() ==> is_number(#[trigger] s[i])
}

/// The exact sum of the integers of `s`.
pub open spec fn total(s: Seq<Value>) -> int
    decreases s.len(),
{
    if s.len() == 0 {
        0
    } else {
        total(s.drop_last()) + int_of(s.last())
    }
}

/// The exact product of the integers of `s`.
pub open spec fn product(s: Seq<Value>) -> int
    decreases s.len(),
{
    if s.len() == 0 {
        1
    } else {
        product(s.drop_last()) * int_of(s.last())
    }
}

/// An exact result: the integer when it is in the 64-bit range, else `Overflow`.
pub open spec fn int_result(x: int) -> Result<Value, EvalError> {
    if in_i64(x) {
        Ok(Value::Integer(x as i64))
    } else {
        Err(EvalError::Overflow)
    }
}

pub open spec fn sum_spec(s: Seq<Value>) -> Result<Value, EvalError> {
    if !all_numbers(s) {
        Err(EvalError::WrongType)
    } else {
        int_result(total(s))
    }
}

/// The first number minus the sum of the others; 0 for no arguments.
pub open spec fn subtract_spec(s: Seq<Value>) -> Result<Value, EvalError> {
    if !all_numbers(s) {
        Err(EvalError::WrongType)
    } else if s.len() == 0 {
        Ok(Value::Integer(0))
    } else {
        int_result(int_of(s[0]) - total(s.drop_first()))
    }
}

pub open spec fn mul_spec(s: Seq<Value>) -> Result<Value, EvalError> {
    if !all_numbers(s) {
        Err(EvalError::WrongType)
    } else {
        int_result(product(s))
    }
}

/// Two numbers, the second not zero: their quotient (or remainder), rounded
/// toward zero.
pub open spec fn div_like_spec(s: Seq<Value>, remainder: bool) -> Result<Value, EvalError> {
    if s.len() != 2 {
        Err(EvalError::WrongArity)
    } else if !all_numbers(s) {
        Err(EvalError::WrongType)
    } else if int_of(s[1]) == 0 {
        Err(EvalError::DivisionByZero)
    } else if remainder {
        if int_of(s[0]) == i64::MIN && int_of(s[1]) == -1 {
            Err(EvalError::Overflow)
        } else {
            Ok(Value::Integer(trunc_rem(int_of(s[0]), int_of(s[1])) as i64))
        }
    } else if !in_i64(trunc_div(int_of(s[0]), int_of(s[1]))) {
        Err(EvalError::Overflow)
    } else {
        Ok(Value::Integer(trunc_div(int_of(s[0]), int_of(s[1])) as i64))
    }
}

pub open spec fn abs(a: int) -> int {
    if a < 0 {
        -a
    } else {
        a
    }
}

/// Quotient rounded toward zero.
pub open spec fn trunc_div(a: int, b: int) -> int {
    if (a < 0) != (b < 0) {
        -(abs(a) / abs(b))
    } else {
        abs(a) / abs(b)
    }
}

/// Remainder of the quotient rounded toward zero: it takes the sign of `a`.
pub open spec fn trunc_rem(a: int, b: int) -> int {
    if a < 0 {
        -(abs(a) % abs(b))
    } else {
        abs(a) % abs(b)
    }
}

/// The comparisons `<`, `>`, `<=`, `>=` (ops 0 to 3) on two numbers.
pub open spec fn compare_spec(s: Seq<Value>, op: int) -> Result<Value, EvalError> {
    if s.len() != 2 {
        Err(EvalError::WrongArity)
    } else if !all_numbers(s) {
        Err(EvalError::WrongType)
    } else {
        let (a, b) = (int_of(s[0]), int_of(s[1]));
        Ok(
            Value::Boolean(
                if op == 0 {
                    a < b
                } else if op == 1 {
                    a > b
                } else if op == 2 {
                    a <= b
                } else {
                    a >= b
                },
            ),
        )
    }
}

pub open spec fn equal_spec(s: Seq<Value>) -> Result<Value, EvalError> {
    if s.len() != 2 {
        Err(EvalError::WrongArity)
    } else {
        Ok(Value::Boolean(value_eq(s[0], s[1])))
    }
}

pub open spec fn cons_spec(s: Seq<Value>) -> Result<Value, EvalError> {
    if s.len() != 2 {
        Err(EvalError::WrongArity)
    } else {
        Ok(Value::Pair(Box::new(s[0]), Box::new(s[1])))
    }
}

/// The head (`tail == false`) or tail of a pair.
pub open spec fn pair_part_spec(s: Seq<Value>, tail: bool) -> Result<Value, EvalError> {
    if s.len() != 1 {
        Err(EvalError::WrongArity)
    } else {
        match s[0] {
            Value::Pair(h, t) => Ok(if tail { *t } else { *h }),
            _ => Err(EvalError::WrongType),
        }
    }
}

/// The proper list of the values of `s`.
pub open spec fn list_of(s: Seq<Value>) -> Value
    decreases s.len(),
{
    if s.len() == 0 {
        Value::Null
    } else {
        Value::Pair(Box::new(s[0]), Box::new(list_of(s.drop_first())))
    }
}

/// Two results that agree: the same error, or values of the same content.
pub open spec fn same_result(a: Result<Value, EvalError>, b: Result<Value, EvalError>) -> bool {
    match (a, b) {
        (Ok(x), Ok(y)) => same(x, y),
        (Err(x), Err(y)) => x == y,
        _ => false,
    }
}

proof fn lemma_same_refl(v: Value)
    ensures
        same(v, v),
    decreases v,
{
    if let Value::Pair(h, t) = v {
        lemma_same_refl(*h);
        lemma_same_refl(*t);
    }
}

fn numbers_only(ns: &Vec<Value>) -> (r: bool)
    ensures
        r == all_numbers(ns@),
{
    check_for_floats(ns).is_ok()
}

fn int_at(ns: &Vec<Value>, i: usize) -> (r: i64)
    requires
        i < ns@.len(),
    ensures
        r as int == int_of(ns@[i as int]),
{
    match &ns[i] {
        Value::Integer(n) => *n,
        _ => 0,
    }
}

/// The exact sum of `ns[from..]`.
fn sum_from(ns: &Vec<Value>, from: usize) -> (r: i128)
    requires
        from <= ns@.len(),
    ensures
        r as int == total(ns@.subrange(from as int, ns@.len() as int)),
        -(ns@.len() - from) * 0x8000_0000_0000_0000 <= r <= (ns@.len() - from) * 0x8000_0000_0000_0000,
{
    let ghost s = ns@.subrange(from as int, ns@.len() as int);
    let mut acc: i128 = 0;
    let mut i: usize = from;
    assert(s.subrange(0, 0) =~= Seq::<Value>::empty());
    while i < ns.len()
        invariant
            from <= i <= ns@.len(),
            s == ns@.subrange(from as int, ns@.len() as int),
            total(s.subrange(0, i - from)) == acc as int,
            -(i - from) * 0x8000_0000_0000_0000 <= acc <= (i - from) * 0x8000_0000_0000_0000,
        decreases ns@.len() - i,
    {
        let x = int_at(ns, i);
        proof {
            assert(s.subrange(0, i + 1 - from).drop_last() =~= s.subrange(0, i - from));
            assert(s.subrange(0, i + 1 - from).last() == ns@[i as int]);
        }
        acc = acc + x as i128;
        i = i + 1;
    }
    assert(s.subrange(0, ns@.len() - from) =~= s);
    acc
}

fn to_result(x: i128) -> (r: Result<Value, EvalError>)
    ensures
        r == int_result(x as int),
{
    if x < i64::MIN as i128 || x > i64::MAX as i128 {
        Err(EvalError::Overflow)
    } else {
        Ok(Value::Integer(x as i64))
    }
}

/// `+`: the sum of integer arguments.
pub fn sum(ns: &Vec<Value>) -> (r: Result<Value, EvalError>)
    ensures
        r == sum_spec(ns@),
{
    if !numbers_only(ns) {
        return Err(EvalError::WrongType);
    }
    assert(ns@.subrange(0, ns@.len() as int) =~= ns@);
    to_result(sum_from(ns, 0))
}

/// `-`: the first argument minus the sum of the others.
pub fn subtract(ns: &Vec<Value>) -> (r: Result<Value, EvalError>)
    ensures
        r == subtract_spec(ns@),
{
    if !numbers_only(ns) {
        return Err(EvalError::WrongType);
    }
    if ns.len() == 0 {
        return Ok(Value::Integer(0));
    }
    assert(ns@.subrange(1, ns@.len() as int) =~= ns@.drop_first());
    let first = int_at(ns, 0);
    let rest = sum_from(ns, 1);
    to_result(first as i128 - rest)
}

proof fn lemma_product_zero(s: Seq<Value>, k: int)
    requires
        0 <= k < s.len(),
        int_of(s[k]) == 0,
    ensures
        product(s) == 0,
    decreases s.len(),
{
    if k < s.len() - 1 {
        lemma_product_zero(s.drop_last(), k);
    }
}

proof fn lemma_abs_mul_grows(a: int, b: int)
    requires
        b != 0,
    ensures
        abs(a * b) >= abs(a),
{
    assert(abs(a * b) == abs(a) * abs(b)) by (nonlinear_arith);
    assert(abs(a) * abs(b) >= abs(a) * 1) by (nonlinear_arith)
        requires
            abs(b) >= 1,
            abs(a) >= 0,
    ;
}

/// With no zero factor, the product of `s` is at least as large, in absolute
/// value, as that of any prefix.
proof fn lemma_product_grows(s: Seq<Value>, k: int)
    requires
        0 <= k <= s.len(),
        forall|j: int| 0 <= j < s.len() ==> int_of(#[trigger] s[j]) != 0,
    ensures
        abs(product(s)) >= abs(product(s.subrange(0, k))),
    decreases s.len() - k,
{
    if k < s.len() {
        lemma_product_grows(s, k + 1);
        let p = s.subrange(0, k + 1);
        assert(p.drop_last() =~= s.subrange(0, k));
        lemma_abs_mul_grows(product(s.subrange(0, k)), int_of(s[k]));
    } else {
        assert(s.subrange(0, k) =~= s);
    }
}

/// `*`: the product of integer arguments.
pub fn mul(ns: &Vec<Value>) -> (r: Result<Value, EvalError>)
    ensures
        r == mul_spec(ns@),
{
    if !numbers_only(ns) {
        return Err(EvalError::WrongType);
    }
    let ghost s = ns@;
    let mut z: usize = 0;
    while z < ns.len()
        invariant
            z <= ns@.len(),
            all_numbers(ns@),
            forall|j: int| 0 <= j < z ==> int_of(#[trigger] ns@[j]) != 0,
        decreases ns@.len() - z,
    {
        if int_at(ns, z) == 0 {
            proof {
                lemma_product_zero(ns@, z as int);
            }
            return Ok(Value::Integer(0));
        }
        z = z + 1;
    }
    let mut prod: i128 = 1;
    let mut i: usize = 0;
    assert(s.subrange(0, 0) =~= Seq::<Value>::empty());
    while i < ns.len()
        invariant
            i <= ns@.len(),
            s == ns@,
            all_numbers(s),
            forall|j: int| 0 <= j < s.len() ==> int_of(#[trigger] s[j]) != 0,
            product(s.subrange(0, i as int)) == prod as int,
            -0x8000_0000_0000_0000 <= prod <= 0x8000_0000_0000_0000,
        decreases ns@.len() - i,
    {
        let x = int_at(ns, i) as i128;
        proof {
            assert(s.subrange(0, i + 1).drop_last() =~= s.subrange(0, i as int));
            assert(s.subrange(0, i + 1).last() == ns@[i as int]);
            assert(-0x4000_0000_0000_0000_0000_0000_0000_0000 <= prod * x
                <= 0x4000_0000_0000_0000_0000_0000_0000_0000) by (nonlinear_arith)
                requires
                    -0x8000_0000_0000_0000 <= prod <= 0x8000_0000_0000_0000,
                    -0x8000_0000_0000_0000 <= x <= 0x8000_0000_0000_0000,
            ;
        }
        let q = prod * x;
        if q < -0x8000_0000_0000_0000i128 || q > 0x8000_0000_0000_0000i128 {
            proof {
                lemma_product_grows(s, i + 1);
            }
            return Err(EvalError::Overflow);
        }
        prod = q;
        i = i + 1;
    }
    assert(s.subrange(0, s.len() as int) =~= s);
    to_result(prod)
}

fn div_like(ns: &Vec<Value>, remainder: bool) -> (r: Result<Value, EvalError>)
    ensures
        r == div_like_spec(ns@, remainder),
{
    if ns.len() != 2 {
        return Err(EvalError::WrongArity);
    }
    if !numbers_only(ns) {
        return Err(EvalError::WrongType);
    }
    let a = int_at(ns, 0);
    let b = int_at(ns, 1);
    if b == 0 {
        return Err(EvalError::DivisionByZero);
    }
    let q = if remainder {
        a.checked_rem(b)
    } else {
        a.checked_div(b)
    };
    proof {
        assert(0int / abs(b as int) == 0) by (nonlinear_arith)
            requires
                abs(b as int) > 0,
        ;
        assert(0int % abs(b as int) == 0) by (nonlinear_arith)
            requires
                abs(b as int) > 0,
        ;
    }
    match q {
        Some(v) => Ok(Value::Integer(v)),
        None => Err(EvalError::Overflow),
    }
}

/// `/`: the quotient of two integers, truncated toward zero.
pub fn div(ns: &Vec<Value>) -> (r: Result<Value, EvalError>)
    ensures
        r == div_like_spec(ns@, false),
{
    div_like(ns, false)
}

/// `%`: the remainder of two integers, with the sign of the dividend.
pub fn modulo(ns: &Vec<Value>) -> (r: Result<Value, EvalError>)
    ensures
        r == div_like_spec(ns@, true),
{
    div_like(ns, true)
}

/// `=`: equality of two values (see `value_eq`).
pub fn equal(ns: &Vec<Value>) -> (r: Result<Value, EvalError>)
    ensures
        r == equal_spec(ns@),
{
    if ns.len() != 2 {
        return Err(EvalError::WrongArity);
    }
    Ok(Value::Boolean(ns[0].eq(&ns[1])))
}

fn compare(ns: &Vec<Value>, op: u8) -> (r: Result<Value, EvalError>)
    requires
        op < 4,
    ensures
        r == compare_spec(ns@, op as int),
{
    if ns.len() != 2 {
        return Err(EvalError::WrongArity);
    }
    if !numbers_only(ns) {
        return Err(EvalError::WrongType);
    }
    let a = int_at(ns, 0);
    let b = int_at(ns, 1);
    Ok(
        Value::Boolean(
            if op == 0 {
                a < b
            } else if op == 1 {
                a > b
            } else if op == 2 {
                a <= b
            } else {
                a >= b
            },
        ),
    )
}

/// `<` on two numbers.
pub fn less_than(ns: &Vec<Value>) -> (r: Result<Value, EvalError>)
    ensures
        r == compare_spec(ns@, 0),
{
    compare(ns, 0)
}

/// `>` on two numbers.
pub fn greater_than(ns: &Vec<Value>) -> (r: Result<Value, EvalError>)
    ensures
        r == compare_spec(ns@, 1),
{
    compare(ns, 1)
}

/// `<=` on two numbers.
pub fn less_or_equal_than(ns: &Vec<Value>) -> (r: Result<Value, EvalError>)
    ensures
        r == compare_spec(ns@, 2),
{
    compare(ns, 2)
}

/// `>=` on two numbers.
pub fn greater_or_equal_than(ns: &Vec<Value>) -> (r: Result<Value, EvalError>)
    ensures
        r == compare_spec(ns@, 3),
{
    compare(ns, 3)
}

/// `cons`: a pair of the two arguments.
pub fn cons(ns: &Vec<Value>) -> (r: Result<Value, EvalError>)
    ensures
        same_result(r, cons_spec(ns@)),
{
    if ns.len() != 2 {
        return Err(EvalError::WrongArity);
    }
    Ok(Value::Pair(Box::new(ns[0].copy()), Box::new(ns[1].copy())))
}

/// `car`: the head of a pair.
pub fn car(ns: &Vec<Value>) -> (r: Result<Value, EvalError>)
    ensures
        same_result(r, pair_part_spec(ns@, false)),
{
    if ns.len() != 1 {
        return Err(EvalError::WrongArity);
    }
    match &ns[0] {
        Value::Pair(h, _) => Ok((**h).copy()),
        _ => Err(EvalError::WrongType),
    }
}

/// `cdr`: the tail of a pair.
pub fn cdr(ns: &Vec<Value>) -> (r: Result<Value, EvalError>)
    ensures
        same_result(r, pair_part_spec(ns@, true)),
{
    if ns.len() != 1 {
        return Err(EvalError::WrongArity);
    }
    match &ns[0] {
        Value::Pair(_, t) => Ok((**t).copy()),
        _ => Err(EvalError::WrongType),
    }
}

/// `list`: the proper list of the arguments.
pub fn list(ns: &Vec<Value>) -> (r: Value)
    ensures
        same(r, list_of(ns@)),
{
    let mut acc = Value::Null;
    let mut i: usize = ns.len();
    assert(ns@.subrange(i as int, ns@.len() as int) =~= Seq::<Value>::empty());
    while i > 0
        invariant
            i <= ns@.len(),
            same(acc, list_of(ns@.subrange(i as int, ns@.len() as int))),
        decreases i,
    {
        let h = ns[i - 1].copy();
        proof {
            let sub = ns@.subrange(i - 1, ns@.len() as int);
            assert(sub.drop_first() =~= ns@.subrange(i as int, ns@.len() as int));
            assert(sub[0] == ns@[i - 1]);
        }
        acc = Value::Pair(Box::new(h), Box::new(acc));
        i = i - 1;
    }
    assert(ns@.subrange(0, ns@.len() as int) =~= ns@);
    acc
}

} // verus!

verus! {

pub open spec fn bool_op_spec(s: Seq<Value>, op: int) -> Result<Value, EvalError> {
    if op == 0 {
        if s.len() != 1 {
            Err(EvalError::WrongArity)
        } else {
            match s[0] {
                Value::Boolean(b) => Ok(Value::Boolean(!b)),
                _ => Err(EvalError::WrongType),
            }
        }
    } else if s.len() != 2 {
        Err(EvalError::WrongArity)
    } else {
        match (s[0], s[1]) {
            (Value::Boolean(a), Value::Boolean(b)) => Ok(
                Value::Boolean(
                    if op == 1 {
                        a && b
                    } else {
                        a || b
                    },
                ),
            ),
            _ => Err(EvalError::WrongType),
        }
    }
}

/// `pair?` (`null == false`) or `null?` of one value.
pub open spec fn test_spec(s: Seq<Value>, null: bool) -> Result<Value, EvalError> {
    if s.len() != 1 {
        Err(EvalError::WrongArity)
    } else if null {
        Ok(Value::Boolean(s[0] is Null))
    } else {
        Ok(Value::Boolean(s[0] is Pair))
    }
}

/// The primitive named `name` applied to `s`; `None` when no primitive has that
/// name.
pub open spec fn primitive_spec(name: Seq<char>, s: Seq<Value>) -> Option<Result<Value, EvalError>> {
    if name == "+"@ {
        Some(sum_spec(s))
    } else if name == "-"@ {
        Some(subtract_spec(s))
    } else if name == "*"@ {
        Some(mul_spec(s))
    } else if name == "/"@ {
        Some(div_like_spec(s, false))
    } else if name == "%"@ {
        Some(div_like_spec(s, true))
    } else if name == "="@ {
        Some(equal_spec(s))
    } else if name == "<"@ {
        Some(compare_spec(s, 0))
    } else if name == ">"@ {
        Some(compare_spec(s, 1))
    } else if name == "<="@ {
        Some(compare_spec(s, 2))
    } else if name == ">="@ {
        Some(compare_spec(s, 3))
    } else if name == "not"@ {
        Some(bool_op_spec(s, 0))
    } else if name == "and"@ {
        Some(bool_op_spec(s, 1))
    } else if name == "or"@ {
        Some(bool_op_spec(s, 2))
    } else if name == "cons"@ {
        Some(cons_spec(s))
    } else if name == "car"@ {
        Some(pair_part_spec(s, false))
    } else if name == "cdr"@ {
        Some(pair_part_spec(s, true))
    } else if name == "list"@ {
        Some(Ok(list_of(s)))
    } else if name == "pair?"@ {
        Some(test_spec(s, false))
    } else if name == "null?"@ {
        Some(test_spec(s, true))
    } else {
        None
    }
}

/// Whether `name` spells `lit`.
pub fn is_name(name: &Vec<char>, lit: &str) -> (r: bool)
    ensures
        r == (name@ == lit@),
{
    let n = lit.unicode_len();
    if n != name.len() {
        return false;
    }
    let mut i: usize = 0;
    while i < n
        invariant
            n == lit@.len() == name@.len(),
            i <= n,
            forall|j: int| 0 <= j < i ==> name@[j] == lit@[j],
        decreases n - i,
    {
        if name[i] != lit.get_char(i) {
            return false;
        }
        i = i + 1;
    }
    proof {
        assert(name@ =~= lit@);
    }
    true
}

fn bool_op(ns: &Vec<Value>, op: u8) -> (r: Result<Value, EvalError>)
    requires
        op < 3,
    ensures
        r == bool_op_spec(ns@, op as int),
{
    if op == 0 {
        if ns.len() != 1 {
            return Err(EvalError::WrongArity);
        }
        return match &ns[0] {
            Value::Boolean(b) => Ok(Value::Boolean(!*b)),
            _ => Err(EvalError::WrongType),
        };
    }
    if ns.len() != 2 {
        return Err(EvalError::WrongArity);
    }
    match (&ns[0], &ns[1]) {
        (Value::Boolean(a), Value::Boolean(b)) => Ok(
            Value::Boolean(
                if op == 1 {
                    *a && *b
                } else {
                    *a || *b
                },
            ),
        ),
        _ => Err(EvalError::WrongType),
    }
}

fn test(ns: &Vec<Value>, null: bool) -> (r: Result<Value, EvalError>)
    ensures
        r == test_spec(ns@, null),
{
    if ns.len() != 1 {
        return Err(EvalError::WrongArity);
    }
    if null {
        Ok(Value::Boolean(matches!(&ns[0], Value::Null)))
    } else {
        Ok(Value::Boolean(matches!(&ns[0], Value::Pair(_, _))))
    }
}

/// Applies the primitive named `proc` to `args`; `None` when no primitive has
/// that name.
pub fn check_primitive_procedures(proc: &Vec<char>, args: &Vec<Value>) -> (r: Option<
    Result<Value, EvalError>,
>)
    ensures
        match (r, primitive_spec(proc@, args@)) {
            (Some(a), Some(b)) => same_result(a, b),
            (None, None) => true,
            _ => false,
        },
{
    let r = if is_name(proc, "+") {
        sum(args)
    } else if is_name(proc, "-") {
        subtract(args)
    } else if is_name(proc, "*") {
        crate::primitive_procedures::mul(args)
    } else if is_name(proc, "/") {
        div(args)
    } else if is_name(proc, "%") {
        modulo(args)
    } else if is_name(proc, "=") {
        equal(args)
    } else if is_name(proc, "<") {
        less_than(args)
    } else if is_name(proc, ">") {
        greater_than(args)
    } else if is_name(proc, "<=") {
        less_or_equal_than(args)
    } else if is_name(proc, ">=") {
        greater_or_equal_than(args)
    } else if is_name(proc, "not") {
        bool_op(args, 0)
    } else if is_name(proc, "and") {
        bool_op(args, 1)
    } else if is_name(proc, "or") {
        bool_op(args, 2)
    } else if is_name(proc, "cons") {
        cons(args)
    } else if is_name(proc, "car") {
        car(args)
    } else if is_name(proc, "cdr") {
        cdr(args)
    } else if is_name(proc, "list") {
        Ok(list(args))
    } else if is_name(proc, "pair?") {
        test(args, false)
    } else if is_name(proc, "null?") {
        test(args, true)
    } else {
        return None;
    };
    proof {
        if r is Ok {
            lemma_same_refl(r->Ok_0);
        }
    }
    Some(r)
}

} // verus!
