use vstd::prelude::*;
use vstd::string::StrSliceExecFns;
use crate::types::EvalError;

verus! {

pub open spec fn is_ws(c: char) -> bool {
    c == ' ' || c == '\t' || c == '\n' || c == '\r'
}

/// A character that ends a plain run of a token: a parenthesis or a space.
pub open spec fn is_special(c: char) -> bool {
    c == '(' || c == ')' || c == ' '
}

/// `t` without leading whitespace.
pub open spec fn trim_start(t: Seq<char>) -> Seq<char>
    decreases t.len(),
{
    if t.len() > 0 && is_ws(t[0]) {
        trim_start(t.drop_first())
    } else {
        t
    }
}

/// `t` without trailing whitespace.
pub open spec fn trim_end(t: Seq<char>) -> Seq<char>
    decreases t.len(),
{
    if t.len() > 0 && is_ws(t.last()) {
        trim_end(t.drop_last())
    } else {
        t
    }
}

pub open spec fn trim(t: Seq<char>) -> Seq<char> {
    trim_end(trim_start(t))
}

/// The first position in `[lo, hi)` that holds a parenthesis or a space, or `hi`.
pub open spec fn first_special(s: Seq<char>, lo: int, hi: int) -> int
    decreases hi - lo,
{
    if lo >= hi {
        hi
    } else if is_special(s[lo]) {
        lo
    } else {
        first_special(s, lo + 1, hi)
    }
}

/// Scanning from `i` with `depth` parentheses open, the position just after the
/// one that closes them all; `None` when `hi` comes first.
pub open spec fn close_from(s: Seq<char>, i: int, hi: int, depth: nat) -> Option<int>
    decreases hi - i,
{
    if depth == 0 {
        Some(i)
    } else if i >= hi {
        None
    } else if s[i] == '(' {
        close_from(s, i + 1, hi, depth + 1)
    } else if s[i] == ')' {
        close_from(s, i + 1, hi, (depth - 1) as nat)
    } else {
        close_from(s, i + 1, hi, depth)
    }
}

/// A token in front of a sequence of tokens; an empty token is dropped.
pub open spec fn cons_tok(t: Seq<char>, rest: Seq<Seq<char>>) -> Seq<Seq<char>> {
    if t.len() == 0 {
        rest
    } else {
        seq![t] + rest
    }
}

/// The top-level tokens of `s[lo..hi]`, left to right: a space ends a token, and a
/// parenthesised group (with what stands right before it) is one token.
/// `None` on an unmatched parenthesis.
pub open spec fn tokens_between(s: Seq<char>, lo: int, hi: int) -> Option<Seq<Seq<char>>>
    decreases hi - lo,
{
    if lo >= hi {
        Some(Seq::empty())
    } else {
        let k = first_special(s, lo, hi);
        if !(lo <= k <= hi) {
            None
        } else if k == hi {
            Some(cons_tok(trim(s.subrange(lo, hi)), Seq::empty()))
        } else if s[k] == ')' {
            None
        } else if s[k] == ' ' {
            match tokens_between(s, k + 1, hi) {
                Some(rest) => Some(cons_tok(trim(s.subrange(lo, k)), rest)),
                None => None,
            }
        } else {
            match close_from(s, k + 1, hi, 1) {
                Some(j) => if k + 1 <= j <= hi {
                    match tokens_between(s, j, hi) {
                        Some(rest) => Some(cons_tok(trim(s.subrange(lo, j)), rest)),
                        None => None,
                    }
                } else {
                    None
                },
                None => None,
            }
        }
    }
}

pub open spec fn has_paren(s: Seq<char>) -> bool {
    exists|i: int| 0 <= i < s.len() && (s[i] == '(' || s[i] == ')')
}

/// The top-level sub-expressions of an expression: the tokens inside its outer
/// parentheses, or, for text with no parenthesis at all, its own tokens.
/// `None` for any other text and on an unmatched parenthesis.
pub open spec fn parse_spec(s: Seq<char>) -> Option<Seq<Seq<char>>> {
    if s.len() >= 2 && s[0] == '(' && s.last() == ')' {
        tokens_between(s, 1, s.len() - 1)
    } else if !has_paren(s) {
        tokens_between(s, 0, s.len() as int)
    } else {
        None
    }
}

proof fn lemma_first_special(s: Seq<char>, lo: int, hi: int)
    requires
        lo <= hi,
    ensures
        lo <= first_special(s, lo, hi) <= hi,
        first_special(s, lo, hi) < hi ==> is_special(s[first_special(s, lo, hi)]),
        forall|i: int| lo <= i < first_special(s, lo, hi) ==> !is_special(#[trigger] s[i]),
    decreases hi - lo,
{
    if lo < hi && !is_special(s[lo]) {
        lemma_first_special(s, lo + 1, hi);
    }
}

/// The trimmed copy of `s[lo..hi]`.
fn trimmed(s: &Vec<char>, lo: usize, hi: usize) -> (r: Vec<char>)
    requires
        lo <= hi <= s@.len(),
    ensures
        r@ == trim(s@.subrange(lo as int, hi as int)),
{
    let mut a: usize = lo;
    while a < hi && (s[a] == ' ' || s[a] == '\t' || s[a] == '\n' || s[a] == '\r')
        invariant
            lo <= a <= hi <= s@.len(),
            trim_start(s@.subrange(lo as int, hi as int)) == trim_start(
                s@.subrange(a as int, hi as int),
            ),
        decreases hi - a,
    {
        proof {
            assert(s@.subrange(a as int, hi as int).drop_first() =~= s@.subrange(
                a + 1,
                hi as int,
            ));
        }
        a = a + 1;
    }
    proof {
        assert(trim_start(s@.subrange(a as int, hi as int)) == s@.subrange(a as int, hi as int));
    }
    let mut b: usize = hi;
    while b > a && (s[b - 1] == ' ' || s[b - 1] == '\t' || s[b - 1] == '\n' || s[b - 1] == '\r')
        invariant
            lo <= a <= b <= hi <= s@.len(),
            trim_end(s@.subrange(a as int, hi as int)) == trim_end(s@.subrange(a as int, b as int)),
        decreases b - a,
    {
        proof {
            assert(s@.subrange(a as int, b as int).drop_last() =~= s@.subrange(
                a as int,
                b - 1,
            ));
        }
        b = b - 1;
    }
    proof {
        assert(trim_end(s@.subrange(a as int, b as int)) == s@.subrange(a as int, b as int));
    }
    let mut r: Vec<char> = Vec::new();
    let mut i: usize = a;
    while i < b
        invariant
            a <= i <= b <= s@.len(),
            r@ == s@.subrange(a as int, i as int),
        decreases b - i,
    {
        r.push(s[i]);
        i = i + 1;
        proof {
            assert(r@ =~= s@.subrange(a as int, i as int));
        }
    }
    r
}

/// A trimmed copy of `s`.
pub fn trimmed_copy(s: &Vec<char>) -> (r: Vec<char>)
    ensures
        r@ == trim(s@),
{
    let r = trimmed(s, 0, s.len());
    assert(s@.subrange(0, s@.len() as int) =~= s@);
    r
}

proof fn lemma_add_cons_tok(acc: Seq<Seq<char>>, t: Seq<char>, rest: Seq<Seq<char>>)
    ensures
        acc + cons_tok(t, rest) == (if t.len() == 0 {
            acc
        } else {
            acc.push(t)
        }) + rest,
{
    if t.len() != 0 {
        assert(acc + (seq![t] + rest) =~= acc.push(t) + rest);
    }
}

pub open spec fn prepend(acc: Seq<Seq<char>>, o: Option<Seq<Seq<char>>>) -> Option<Seq<Seq<char>>> {
    match o {
        Some(r) => Some(acc + r),
        None => None,
    }
}

/// The tokens of `s[lo..hi]` (see `tokens_between`).
fn tokens_in(s: &Vec<char>, lo: usize, hi: usize) -> (r: Option<Vec<Vec<char>>>)
    requires
        lo <= hi <= s@.len(),
    ensures
        match (r, tokens_between(s@, lo as int, hi as int)) {
            (Some(v), Some(t)) => v@.len() == t.len() && forall|i: int|
                0 <= i < t.len() ==> (#[trigger] v@[i])@ == t[i],
            (None, None) => true,
            _ => false,
        },
{
    let mut out: Vec<Vec<char>> = Vec::new();
    let ghost mut acc: Seq<Seq<char>> = Seq::empty();
    let mut pos: usize = lo;
    while pos < hi
        invariant
            lo <= pos <= hi <= s@.len(),
            out@.len() == acc.len(),
            forall|i: int| 0 <= i < acc.len() ==> (#[trigger] out@[i])@ == acc[i],
            tokens_between(s@, lo as int, hi as int) == prepend(
                acc,
                tokens_between(s@, pos as int, hi as int),
            ),
        decreases hi - pos,
    {
        let mut k: usize = pos;
        while k < hi && !(s[k] == '(' || s[k] == ')' || s[k] == ' ')
            invariant
                pos <= k <= hi <= s@.len(),
                first_special(s@, pos as int, hi as int) == first_special(s@, k as int, hi as int),
            decreases hi - k,
        {
            k = k + 1;
        }
        proof {
            lemma_first_special(s@, pos as int, hi as int);
        }
        if k == hi {
            let t = trimmed(s, pos, hi);
            proof {
                lemma_add_cons_tok(acc, t@, Seq::empty());
                assert(acc + Seq::<Seq<char>>::empty() =~= acc);
                assert(acc.push(t@) + Seq::<Seq<char>>::empty() =~= acc.push(t@));
            }
            if t.len() > 0 {
                out.push(t);
                proof {
                    acc = acc.push(t@);
                }
            }
            proof {
                assert(acc + Seq::<Seq<char>>::empty() =~= acc);
            }
            pos = hi;
        } else if s[k] == ')' {
            return None;
        } else if s[k] == ' ' {
            let t = trimmed(s, pos, k);
            proof {
                lemma_add_cons_tok(acc, t@, tokens_between(s@, k + 1, hi as int).unwrap_or(
                    Seq::empty(),
                ));
            }
            if t.len() > 0 {
                out.push(t);
                proof {
                    acc = acc.push(t@);
                }
            }
            pos = k + 1;
        } else {
            let mut j: usize = k + 1;
            let mut depth: usize = 1;
            while depth > 0 && j < hi
                invariant
                    k + 1 <= j <= hi <= s@.len(),
                    depth <= j - k,
                    close_from(s@, k + 1, hi as int, 1) == close_from(
                        s@,
                        j as int,
                        hi as int,
                        depth as nat,
                    ),
                decreases hi - j,
            {
                if s[j] == '(' {
                    depth = depth + 1;
                } else if s[j] == ')' {
                    depth = depth - 1;
                }
                j = j + 1;
            }
            if depth > 0 {
                return None;
            }
            let t = trimmed(s, pos, j);
            proof {
                lemma_add_cons_tok(acc, t@, tokens_between(s@, j as int, hi as int).unwrap_or(
                    Seq::empty(),
                ));
            }
            if t.len() > 0 {
                out.push(t);
                proof {
                    acc = acc.push(t@);
                }
            }
            pos = j;
        }
    }
    proof {
        assert(acc + Seq::<Seq<char>>::empty() =~= acc);
    }
    Some(out)
}

} // verus!

verus! {

/// The characters of a string.
pub fn chars_of(s: &str) -> (r: Vec<char>)
    ensures
        r@ == s@,
{
    let n = s.unicode_len();
    let mut r: Vec<char> = Vec::new();
    let mut i: usize = 0;
    while i < n
        invariant
            n == s@.len(),
            i <= n,
            r@ == s@.subrange(0, i as int),
        decreases n - i,
    {
        r.push(s.get_char(i));
        i = i + 1;
        proof {
            assert(r@ =~= s@.subrange(0, i as int));
        }
    }
    proof {
        assert(r@ =~= s@);
    }
    r
}

/// Relies on `String::from_iter` over chars: the string holds exactly those chars.
#[verifier::external_body]
pub(crate) fn string_of(v: &Vec<char>) -> (r: String)
    ensures
        r@ == v@,
{
    String::from_iter(v.iter())
}

pub fn contains_paren(s: &Vec<char>) -> (r: bool)
    ensures
        r == has_paren(s@),
{
    let mut i: usize = 0;
    while i < s.len()
        invariant
            i <= s@.len(),
            forall|j: int| 0 <= j < i ==> !(s@[j] == '(' || s@[j] == ')'),
        decreases s@.len() - i,
    {
        if s[i] == '(' || s[i] == ')' {
            return true;
        }
        i = i + 1;
    }
    false
}

/// The top-level sub-expressions of `exp` (see `parse_spec`), each trimmed,
/// left to right; `ParseError` on unmatched parentheses.
pub fn get_exp_inside_paren(exp: &Vec<char>) -> (r: Result<Vec<Vec<char>>, EvalError>)
    ensures
        match (r, parse_spec(exp@)) {
            (Ok(v), Some(t)) => v@.len() == t.len() && forall|i: int|
                0 <= i < t.len() ==> (#[trigger] v@[i])@ == t[i],
            (Err(e), None) => e is ParseError,
            _ => false,
        },
{
    let n = exp.len();
    let toks = if n >= 2 && exp[0] == '(' && exp[n - 1] == ')' {
        tokens_in(exp, 1, n - 1)
    } else if !contains_paren(exp) {
        tokens_in(exp, 0, n)
    } else {
        None
    };
    match toks {
        Some(v) => Ok(v),
        None => Err(EvalError::ParseError),
    }
}

} // verus!

verus! {

/// Texts joined by single spaces.
pub open spec fn joined(ts: Seq<Seq<char>>) -> Seq<char>
    decreases ts.len(),
{
    if ts.len() == 0 {
        Seq::empty()
    } else if ts.len() == 1 {
        ts[0]
    } else {
        ts[0] + seq![' '] + joined(ts.drop_first())
    }
}

/// A bare atom: non-empty, with no parenthesis, space or other whitespace.
pub open spec fn is_atom(t: Seq<char>) -> bool {
    t.len() > 0 && forall|i: int| 0 <= i < t.len() ==> !is_special(#[trigger] t[i]) && !is_ws(t[i])
}

/// A parenthesised group: it opens with `(` and its parentheses first balance
/// at its last character, a `)`.
pub open spec fn is_group(t: Seq<char>) -> bool {
    t.len() >= 2 && t[0] == '(' && t.last() == ')' && close_from(t, 1, t.len() as int, 1) == Some(
        t.len() as int,
    )
}

/// One top-level group of a list: a bare atom or a parenthesised group.
pub open spec fn is_item(t: Seq<char>) -> bool {
    is_atom(t) || is_group(t)
}

proof fn lemma_trim_plain(t: Seq<char>)
    requires
        t.len() > 0,
        !is_ws(t[0]),
        !is_ws(t.last()),
    ensures
        trim(t) == t,
{
    assert(trim_start(t) == t);
}

proof fn lemma_close_shift(s: Seq<char>, t: Seq<char>, lo: int, hi: int, i: int, d: nat)
    requires
        0 <= lo,
        lo + t.len() <= hi <= s.len(),
        s.subrange(lo, lo + t.len()) == t,
        0 <= i <= t.len(),
        close_from(t, i, t.len() as int, d) == Some(t.len() as int),
    ensures
        close_from(s, lo + i, hi, d) == Some(lo + t.len()),
    decreases t.len() - i,
{
    if d == 0 {
    } else {
        assert(i < t.len());
        assert(s[lo + i] == s.subrange(lo, lo + t.len())[i]);
        if t[i] == '(' {
            lemma_close_shift(s, t, lo, hi, i + 1, d + 1);
        } else if t[i] == ')' {
            lemma_close_shift(s, t, lo, hi, i + 1, (d - 1) as nat);
        } else {
            lemma_close_shift(s, t, lo, hi, i + 1, d);
        }
    }
}

proof fn lemma_trim_atom(t: Seq<char>)
    requires
        is_atom(t),
    ensures
        trim(t) == t,
{
    assert(!is_ws(t[0]));
    assert(trim_start(t) == t);
    assert(!is_ws(t.last()));
}

proof fn lemma_first_special_at(s: Seq<char>, lo: int, k: int, hi: int)
    requires
        lo <= k <= hi,
        forall|i: int| lo <= i < k ==> !is_special(#[trigger] s[i]),
        k < hi ==> is_special(s[k]),
    ensures
        first_special(s, lo, hi) == k,
    decreases k - lo,
{
    if lo < k {
        lemma_first_special_at(s, lo + 1, k, hi);
    }
}

proof fn lemma_tokens_of_joined(s: Seq<char>, lo: int, hi: int, ts: Seq<Seq<char>>)
    requires
        0 <= lo <= hi <= s.len(),
        s.subrange(lo, hi) == joined(ts),
        forall|i: int| 0 <= i < ts.len() ==> is_item(#[trigger] ts[i]),
    ensures
        tokens_between(s, lo, hi) == Some(ts),
    decreases ts.len(),
{
    if ts.len() == 0 {
        assert(s.subrange(lo, hi).len() == 0);
    } else if is_group(ts[0]) {
        let t0 = ts[0];
        let k = lo + t0.len();
        assert(s.subrange(lo, hi).len() == hi - lo);
        if ts.len() > 1 {
            assert(joined(ts) == t0 + seq![' '] + joined(ts.drop_first()));
            assert(joined(ts).len() == t0.len() + 1 + joined(ts.drop_first()).len());
        } else {
            assert(joined(ts) == t0);
        }
        assert(k <= hi);
        assert(s.subrange(lo, k) =~= t0);
        assert(s[lo] == s.subrange(lo, hi)[0]);
        lemma_first_special_at(s, lo, lo, hi);
        lemma_close_shift(s, t0, lo, hi, 1, 1);
        lemma_trim_plain(t0);
        if ts.len() == 1 {
            assert(seq![t0] + Seq::<Seq<char>>::empty() =~= ts);
        } else {
            let rest = ts.drop_first();
            assert(s[k] == s.subrange(lo, hi)[k - lo]);
            assert(s[k] == ' ');
            let jr = joined(rest);
            assert(hi - (k + 1) == jr.len());
            assert forall|j: int| 0 <= j < jr.len() implies #[trigger] s.subrange(k + 1, hi)[j]
                == jr[j] by {
                assert(s.subrange(k + 1, hi)[j] == s[k + 1 + j]);
                assert(s[k + 1 + j] == s.subrange(lo, hi)[k + 1 + j - lo]);
            }
            assert(s.subrange(k + 1, hi) =~= jr);
            assert forall|i: int| 0 <= i < rest.len() implies is_item(#[trigger] rest[i]) by {
                assert(rest[i] == ts[i + 1]);
            }
            lemma_tokens_of_joined(s, k + 1, hi, rest);
            lemma_first_special_at(s, k, k, hi);
            assert(s.subrange(k, k) =~= Seq::<char>::empty());
            assert(trim(Seq::<char>::empty()) == Seq::<char>::empty());
            assert(tokens_between(s, k, hi) == Some(rest));
            assert(seq![t0] + rest =~= ts);
        }
    } else {
        let t0 = ts[0];
        let k = lo + t0.len();
        assert(is_atom(t0));
        if ts.len() > 1 {
            assert(joined(ts) == t0 + seq![' '] + joined(ts.drop_first()));
        } else {
            assert(joined(ts) == t0);
        }
        assert(k <= hi);
        assert forall|i: int| lo <= i < k implies !is_special(#[trigger] s[i]) by {
            assert(s[i] == s.subrange(lo, hi)[i - lo]);
            assert(s.subrange(lo, hi)[i - lo] == t0[i - lo]);
        }
        if ts.len() == 1 {
            assert(k == hi);
            lemma_first_special_at(s, lo, k, hi);
            assert(s.subrange(lo, hi) == t0);
            lemma_trim_atom(t0);
            assert(seq![t0] + Seq::<Seq<char>>::empty() =~= ts);
        } else {
            let rest = ts.drop_first();
            assert(joined(ts) == t0 + seq![' '] + joined(rest));
            assert(s[k] == s.subrange(lo, hi)[k - lo]);
            assert(s[k] == ' ');
            lemma_first_special_at(s, lo, k, hi);
            assert(s.subrange(lo, k) =~= t0);
            let jr = joined(rest);
            assert(hi - (k + 1) == jr.len());
            assert forall|j: int| 0 <= j < jr.len() implies #[trigger] s.subrange(k + 1, hi)[j]
                == jr[j] by {
                assert(s.subrange(k + 1, hi)[j] == s[k + 1 + j]);
                assert(s[k + 1 + j] == s.subrange(lo, hi)[k + 1 + j - lo]);
            }
            assert(s.subrange(k + 1, hi) =~= jr);
            assert forall|i: int| 0 <= i < rest.len() implies is_item(#[trigger] rest[i]) by {
                assert(rest[i] == ts[i + 1]);
            }
            lemma_tokens_of_joined(s, k + 1, hi, rest);
            lemma_trim_atom(t0);
            assert(seq![t0] + rest =~= ts);
        }
    }
}

/// Parsing a parenthesised list of top-level groups (atoms or parenthesised
/// groups) separated by single spaces gives back those groups, one token per
/// group, in order: as many tokens as groups.
pub proof fn lemma_parse_joined(ts: Seq<Seq<char>>)
    requires
        forall|i: int| 0 <= i < ts.len() ==> is_item(#[trigger] ts[i]),
    ensures
        parse_spec(seq!['('] + joined(ts) + seq![')']) == Some(ts),
{
    let s = seq!['('] + joined(ts) + seq![')'];
    assert(s.subrange(1, s.len() - 1) =~= joined(ts));
    lemma_tokens_of_joined(s, 1, s.len() - 1, ts);
}

} // verus!
