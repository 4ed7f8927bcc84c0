use vstd::prelude::*;
use crate::parser::{chars_of, joined, string_of, trim};
use crate::types::EvalError;

verus! {

/// Opening minus closing parentheses in `t`.
pub open spec fn paren_delta(t: Seq<char>) -> int
    decreases t.len(),
{
    if t.len() == 0 {
        0
    } else {
        paren_delta(t.drop_last()) + if t.last() == '(' {
            1int
        } else if t.last() == ')' {
            -1int
        } else {
            0int
        }
    }
}

/// The lowest value that the running balance of `t` reaches, counting the
/// start (so never above zero).
pub open spec fn low_point(t: Seq<char>) -> int
    decreases t.len(),
{
    if t.len() == 0 {
        0
    } else {
        let m = low_point(t.drop_last());
        let d = paren_delta(t);
        if d < m {
            d
        } else {
            m
        }
    }
}

/// Where the splitting of a file stands: the expressions found so far, the
/// trimmed lines of the one that is open, and the open parentheses.
pub struct SplitState {
    pub done: Seq<Seq<char>>,
    pub open: Seq<Seq<char>>,
    pub balance: int,
}

/// The state after the lines `lines`, read one by one: an expression ends with
/// the line that brings the balance back to zero, its lines joined by spaces;
/// blank lines between expressions are skipped. `None` when, at some
/// character, more parentheses have closed than opened, or when the balance
/// leaves the 64-bit range.
pub open spec fn split_state(lines: Seq<Seq<char>>) -> Option<SplitState>
    decreases lines.len(),
{
    if lines.len() == 0 {
        Some(SplitState { done: Seq::empty(), open: Seq::empty(), balance: 0 })
    } else {
        match split_state(lines.drop_last()) {
            None => None,
            Some(st) => {
                let line = trim(lines.last());
                let bal = st.balance + paren_delta(line);
                let open = if line.len() == 0 {
                    st.open
                } else {
                    st.open.push(line)
                };
                if st.balance + low_point(line) < 0 || !(i64::MIN <= bal <= i64::MAX) {
                    None
                } else if bal != 0 {
                    Some(SplitState { done: st.done, open, balance: bal })
                } else if open.len() == 0 {
                    Some(SplitState { done: st.done, open: Seq::empty(), balance: 0 })
                } else {
                    Some(SplitState { done: st.done.push(joined(open)), open: Seq::empty(), balance: 0 })
                }
            },
        }
    }
}

/// The top-level expressions of a file's lines; `LoadError` when parentheses do
/// not balance at its end.
pub open spec fn split_spec(lines: Seq<Seq<char>>) -> Result<Seq<Seq<char>>, EvalError> {
    match split_state(lines) {
        Some(st) => if st.balance == 0 {
            Ok(st.done)
        } else {
            Err(EvalError::LoadError)
        },
        None => Err(EvalError::LoadError),
    }
}

pub open spec fn line_texts(v: Seq<String>) -> Seq<Seq<char>> {
    v.map_values(|s: String| s@)
}

fn trimmed_line(s: &String) -> (r: Vec<char>)
    ensures
        r@ == trim(s@),
{
    let v = chars_of(s.as_str());
    let r = crate::parser::trimmed_copy(&v);
    assert(v@.subrange(0, v@.len() as int) =~= v@);
    r
}

fn delta(t: &Vec<char>) -> (r: (i128, i128))
    ensures
        r.0 as int == paren_delta(t@),
        r.1 as int == low_point(t@),
        -(t@.len() as int) <= r.0 <= t@.len(),
{
    let mut d: i128 = 0;
    let mut low: i128 = 0;
    let mut i: usize = 0;
    assert(t@.subrange(0, 0) =~= Seq::<char>::empty());
    while i < t.len()
        invariant
            i <= t@.len(),
            d as int == paren_delta(t@.subrange(0, i as int)),
            low as int == low_point(t@.subrange(0, i as int)),
            -(i as int) <= d <= i,
        decreases t@.len() - i,
    {
        proof {
            assert(t@.subrange(0, i + 1).drop_last() =~= t@.subrange(0, i as int));
        }
        if t[i] == '(' {
            d = d + 1;
        } else if t[i] == ')' {
            d = d - 1;
        }
        if d < low {
            low = d;
        }
        i = i + 1;
    }
    assert(t@.subrange(0, t@.len() as int) =~= t@);
    (d, low)
}

fn join_lines(open: &Vec<Vec<char>>) -> (r: String)
    ensures
        r@ == joined(open@.map_values(|t: Vec<char>| t@)),
{
    let ghost ts = open@.map_values(|t: Vec<char>| t@);
    let mut out: Vec<char> = Vec::new();
    let mut i: usize = open.len();
    // Built from the back: `out` holds the lines `i..` joined.
    while i > 0
        invariant
            i <= open@.len(),
            ts == open@.map_values(|t: Vec<char>| t@),
            out@ == joined(ts.subrange(i as int, ts.len() as int)),
        decreases i,
    {
        let ghost rest = ts.subrange(i as int, ts.len() as int);
        let mut next: Vec<char> = Vec::new();
        let line = &open[i - 1];
        let mut k: usize = 0;
        while k < line.len()
            invariant
                k <= line@.len(),
                next@ == line@.subrange(0, k as int),
            decreases line@.len() - k,
        {
            next.push(line[k]);
            k = k + 1;
            proof {
                assert(next@ =~= line@.subrange(0, k as int));
            }
        }
        if i < open.len() {
            next.push(' ');
        }
        let mut k2: usize = 0;
        let ghost base = next@;
        while k2 < out.len()
            invariant
                k2 <= out@.len(),
                next@ == base + out@.subrange(0, k2 as int),
            decreases out@.len() - k2,
        {
            next.push(out[k2]);
            k2 = k2 + 1;
            proof {
                assert(next@ =~= base + out@.subrange(0, k2 as int));
            }
        }
        proof {
            let s = ts.subrange(i - 1, ts.len() as int);
            assert(s.drop_first() =~= rest);
            assert(s[0] == line@);
            assert(line@.subrange(0, line@.len() as int) =~= line@);
            assert(out@.subrange(0, out@.len() as int) =~= out@);
            if i < open@.len() {
                assert(next@ =~= s[0] + seq![' '] + joined(s.drop_first()));
            } else {
                assert(rest.len() == 0);
                assert(next@ =~= s[0]);
            }
        }
        out = next;
        i = i - 1;
    }
    assert(ts.subrange(0, ts.len() as int) =~= ts);
    string_of(&out)
}

/// Splits the lines of a file into its top-level expressions (see
/// `split_spec`).
pub fn split_expressions(lines: &Vec<String>) -> (r: Result<Vec<String>, EvalError>)
    ensures
        match (r, split_spec(line_texts(lines@))) {
            (Ok(a), Ok(b)) => line_texts(a@) == b,
            (Err(a), Err(b)) => a == b,
            _ => false,
        },
{
    let ghost ls = line_texts(lines@);
    let mut done: Vec<String> = Vec::new();
    let mut open: Vec<Vec<char>> = Vec::new();
    let mut balance: i64 = 0;
    let mut i: usize = 0;
    assert(ls.subrange(0, 0) =~= Seq::<Seq<char>>::empty());
    assert(line_texts(done@) =~= Seq::<Seq<char>>::empty());
    assert(open@.map_values(|t: Vec<char>| t@) =~= Seq::<Seq<char>>::empty());
    while i < lines.len()
        invariant
            i <= lines@.len(),
            ls == line_texts(lines@),
            split_state(ls.subrange(0, i as int)) == Some(
                SplitState {
                    done: line_texts(done@),
                    open: open@.map_values(|t: Vec<char>| t@),
                    balance: balance as int,
                },
            ),
        decreases lines@.len() - i,
    {
        let ghost before = ls.subrange(0, i as int);
        let line = trimmed_line(&lines[i]);
        let (d, low) = delta(&line);
        let n = line.len();
        proof {
            assert(ls.subrange(0, i + 1).drop_last() =~= before);
            assert(ls.subrange(0, i + 1).last() == lines@[i as int]@);
        }
        let wide: i128 = balance as i128 + d;
        if balance as i128 + low < 0 || wide < i64::MIN as i128 || wide > i64::MAX as i128 {
            proof {
                lemma_split_none(ls, i as int + 1);
            }
            return Err(EvalError::LoadError);
        }
        let bal = wide as i64;
        let ghost old_open = open@.map_values(|t: Vec<char>| t@);
        if line.len() > 0 {
            open.push(line);
        }
        assert(open@.map_values(|t: Vec<char>| t@) =~= if trim(lines@[i as int]@).len() == 0 {
            old_open
        } else {
            old_open.push(trim(lines@[i as int]@))
        });
        balance = bal;
        let ghost old_done = line_texts(done@);
        if bal == 0 && open.len() > 0 {
            let text = join_lines(&open);
            done.push(text);
            open = Vec::new();
            proof {
                assert(line_texts(done@) =~= old_done.push(text@));
                assert(open@.map_values(|t: Vec<char>| t@) =~= Seq::<Seq<char>>::empty());
            }
        } else if bal == 0 {
            proof {
                assert(open@.map_values(|t: Vec<char>| t@) =~= Seq::<Seq<char>>::empty());
            }
        }
        i = i + 1;
    }
    assert(ls.subrange(0, lines@.len() as int) =~= ls);
    if balance != 0 {
        return Err(EvalError::LoadError);
    }
    Ok(done)
}

proof fn lemma_split_none(ls: Seq<Seq<char>>, k: int)
    requires
        0 <= k <= ls.len(),
        split_state(ls.subrange(0, k)) is None,
    ensures
        split_state(ls) is None,
    decreases ls.len() - k,
{
    if k < ls.len() {
        assert(ls.subrange(0, k + 1).drop_last() =~= ls.subrange(0, k));
        lemma_split_none(ls, k + 1);
    } else {
        assert(ls.subrange(0, k) =~= ls);
    }
}

} // verus!
