use vstd::prelude::*;

verus! {

/// A runtime value of the interpreter.
#[derive(Debug)]
pub enum Value {
    Integer(i64),
    String(String),
    Boolean(bool),
    /// A cons cell: head and tail.
    Pair(Box<Value>, Box<Value>),
    /// A user procedure: parameter names, body expressions, and the number of
    /// the frame it was made in (see `Environment`).
    Procedure(Vec<String>, Vec<String>, usize),
    Null,
}

/// Why an evaluation failed.
#[derive(Debug, Clone, PartialEq, Eq)]
pub enum EvalError {
    /// Unmatched or misplaced parenthesis.
    ParseError,
    /// A name bound in no frame.
    UnboundVariable,
    /// A special form or primitive called with the wrong number of arguments.
    WrongArity,
    /// A user procedure, named by the text that called it, given a number of
    /// arguments other than its number of parameters.
    ProcedureArity(String),
    /// An operand of the wrong shape.
    WrongType,
    DivisionByZero,
    /// The head of an application is not a procedure.
    NotAProcedure,
    /// A condition that is not a boolean.
    NotABoolean,
    /// A file to load is not among those read (see `Environment::missing_source`),
    /// or could not be read, or is malformed.
    LoadError,
    /// Integer arithmetic that leaves the 64-bit range.
    Overflow,
    /// Evaluation nested deeper than its budget.
    DepthExceeded,
}

/// Equality as the `=` of the language sees it: numbers, text, booleans and the
/// empty list compare by content; any other pairing is unequal.
pub open spec fn value_eq(a: Value, b: Value) -> bool {
    match (a, b) {
        (Value::Integer(x), Value::Integer(y)) => x == y,
        (Value::String(x), Value::String(y)) => x@ == y@,
        (Value::Boolean(x), Value::Boolean(y)) => x == y,
        (Value::Null, Value::Null) => true,
        _ => false,
    }
}

/// Ordering, defined on numbers only: `None` for any other pairing.
pub open spec fn value_cmp(a: Value, b: Value) -> Option<int> {
    match (a, b) {
        (Value::Integer(x), Value::Integer(y)) => Some(
            if x < y {
                -1int
            } else if x == y {
                0int
            } else {
                1int
            },
        ),
        _ => None,
    }
}

/// Two values hold the same content (procedures compare by their name and body
/// texts).
pub open spec fn same(a: Value, b: Value) -> bool
    decreases a,
{
    match (a, b) {
        (Value::Pair(h1, t1), Value::Pair(h2, t2)) => same(*h1, *h2) && same(*t1, *t2),
        (Value::Procedure(p1, b1, c1), Value::Procedure(p2, b2, c2)) => p1@ == p2@ && b1@ == b2@
            && c1 == c2,
        (Value::Pair(_, _), _) => false,
        (Value::Procedure(_, _, _), _) => false,
        _ => a == b,
    }
}

pub open spec fn is_number(v: Value) -> bool {
    v is Integer
}

pub(crate) fn copy_strings(v: &Vec<String>) -> (r: Vec<String>)
    ensures
        r@ == v@,
{
    let mut r: Vec<String> = Vec::new();
    let mut i: usize = 0;
    while i < v.len()
        invariant
            i <= v@.len(),
            r@ == v@.subrange(0, i as int),
        decreases v@.len() - i,
    {
        r.push(v[i].clone());
        i = i + 1;
        proof {
            assert(r@ =~= v@.subrange(0, i as int));
        }
    }
    proof {
        assert(r@ =~= v@);
    }
    r
}

impl Value {
    /// A deep copy of the value.
    pub fn copy(&self) -> (r: Value)
        ensures
            same(r, *self),
        decreases self,
    {
        match self {
            Value::Integer(n) => Value::Integer(*n),
            Value::String(s) => Value::String(s.clone()),
            Value::Boolean(b) => Value::Boolean(*b),
            Value::Pair(a, b) => {
                let a2 = (**a).copy();
                let b2 = (**b).copy();
                Value::Pair(Box::new(a2), Box::new(b2))
            },
            Value::Procedure(p, b, c) => Value::Procedure(copy_strings(p), copy_strings(b), *c),
            Value::Null => Value::Null,
        }
    }

    /// Equality of two values (see `value_eq`).
    pub fn eq(&self, other: &Value) -> (r: bool)
        ensures
            r == value_eq(*self, *other),
    {
        match (self, other) {
            (Value::Integer(a), Value::Integer(b)) => *a == *b,
            (Value::String(a), Value::String(b)) => *a == *b,
            (Value::Boolean(a), Value::Boolean(b)) => *a == *b,
            (Value::Null, Value::Null) => true,
            _ => false,
        }
    }

    pub fn ne(&self, other: &Value) -> (r: bool)
        ensures
            r == !value_eq(*self, *other),
    {
        !self.eq(other)
    }

    /// Ordering of two values: -1, 0 or 1 for two numbers, `None` otherwise.
    pub fn partial_cmp(&self, other: &Value) -> (r: Option<i8>)
        ensures
            r is Some <==> value_cmp(*self, *other) is Some,
            r is Some ==> r->0 as int == value_cmp(*self, *other)->0,
    {
        match (self, other) {
            (Value::Integer(a), Value::Integer(b)) => Some(
                if *a < *b {
                    -1i8
                } else if *a == *b {
                    0i8
                } else {
                    1i8
                },
            ),
            _ => None,
        }
    }
}

impl Value {
    /// `self < other`; false unless both are numbers.
    pub fn lt(&self, other: &Value) -> (r: bool)
        ensures
            r == (value_cmp(*self, *other) == Some(-1int)),
    {
        match self.partial_cmp(other) {
            Some(c) => c == -1,
            None => false,
        }
    }

    /// `self <= other`; false unless both are numbers.
    pub fn le(&self, other: &Value) -> (r: bool)
        ensures
            r == (value_cmp(*self, *other) == Some(-1int) || value_cmp(*self, *other) == Some(
                0int,
            )),
    {
        match self.partial_cmp(other) {
            Some(c) => c == -1 || c == 0,
            None => false,
        }
    }

    /// `self > other`; false unless both are numbers.
    pub fn gt(&self, other: &Value) -> (r: bool)
        ensures
            r == (value_cmp(*self, *other) == Some(1int)),
    {
        match self.partial_cmp(other) {
            Some(c) => c == 1,
            None => false,
        }
    }

    /// `self >= other`; false unless both are numbers.
    pub fn ge(&self, other: &Value) -> (r: bool)
        ensures
            r == (value_cmp(*self, *other) == Some(1int) || value_cmp(*self, *other) == Some(
                0int,
            )),
    {
        match self.partial_cmp(other) {
            Some(c) => c == 1 || c == 0,
            None => false,
        }
    }
}

/// Whether a float occurs among the arguments: `Err` when an argument is not a
/// number. This value model holds integers only, so a list of numbers gives
/// `Ok(false)`.
pub fn check_for_floats(args: &Vec<Value>) -> (r: Result<bool, ()>)
    ensures
        r is Ok <==> (forall|i: int| 0 <= i < args@.len() ==> is_number(#[trigger] args@[i])),
        r is Ok ==> r == Ok::<bool, ()>(false),
{
    let mut i: usize = 0;
    while i < args.len()
        invariant
            i <= args@.len(),
            forall|j: int| 0 <= j < i ==> is_number(#[trigger] args@[j]),
        decreases args@.len() - i,
    {
        match &args[i] {
            Value::Integer(_) => {},
            _ => {
                return Err(());
            },
        }
        i = i + 1;
    }
    Ok(false)
}

} // verus!
