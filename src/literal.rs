use vstd::prelude::*;

verus! {

pub open spec fn is_digit(c: char) -> bool {
    '0' <= c <= '9'
}

pub open spec fn all_digits(s: Seq<char>) -> bool {
    forall|i: int| 0 <= i < s.len() ==> is_digit(#[trigger] s[i])
}

/// The number that a run of decimal digits spells.
pub open spec fn digits_value(s: Seq<char>) -> nat
    decreases s.len(),
{
    if s.len() == 0 {
        0
    } else {
        digits_value(s.drop_last()) * 10 + (s.last() as nat - '0' as nat) as nat
    }
}

/// The integer that `s` spells: an optional sign, then one or more decimal
/// digits, with a value in the 64-bit range. `None` for any other text.
pub open spec fn int_literal(s: Seq<char>) -> Option<int> {
    let neg = s.len() > 0 && s[0] == '-';
    let start: int = if s.len() > 0 && (s[0] == '-' || s[0] == '+') {
        1
    } else {
        0
    };
    let ds = s.subrange(start, s.len() as int);
    if ds.len() == 0 || !all_digits(ds) {
        None
    } else {
        let v: int = if neg {
            -digits_value(ds)
        } else {
            digits_value(ds) as int
        };
        if i64::MIN <= v <= i64::MAX {
            Some(v)
        } else {
            None
        }
    }
}

proof fn lemma_literal_shape(s: Seq<char>, start: int)
    requires
        start == (if s.len() > 0 && (s[0] == '-' || s[0] == '+') {
            1int
        } else {
            0int
        }),
        start < s.len(),
    ensures
        int_literal(s) == ({
            let ds = s.subrange(start, s.len() as int);
            let v: int = if s[0] == '-' {
                -digits_value(ds)
            } else {
                digits_value(ds) as int
            };
            if !all_digits(ds) {
                None
            } else if i64::MIN <= v <= i64::MAX {
                Some(v)
            } else {
                None
            }
        }),
{
}

proof fn lemma_digits_monotone(s: Seq<char>, k: int)
    requires
        0 <= k <= s.len(),
    ensures
        digits_value(s.subrange(0, k)) <= digits_value(s),
    decreases s.len() - k,
{
    if k < s.len() {
        lemma_digits_monotone(s, k + 1);
        assert(s.subrange(0, k + 1).drop_last() =~= s.subrange(0, k));
    } else {
        assert(s.subrange(0, k) =~= s);
    }
}

/// Reads an integer literal (see `int_literal`).
pub fn parse_int(s: &Vec<char>) -> (r: Option<i64>)
    ensures
        match (r, int_literal(s@)) {
            (Some(a), Some(b)) => a as int == b,
            (None, None) => true,
            _ => false,
        },
{
    let n = s.len();
    let neg = n > 0 && s[0] == '-';
    let start: usize = if n > 0 && (s[0] == '-' || s[0] == '+') {
        1
    } else {
        0
    };
    if start >= n {
        return None;
    }
    let ghost ds = s@.subrange(start as int, n as int);
    let mut acc: u64 = 0;
    let mut i: usize = start;
    assert(ds.subrange(0, 0) =~= Seq::<char>::empty());
    while i < n
        invariant
            start <= i <= n == s@.len(),
            start < n,
            start == (if s@.len() > 0 && (s@[0] == '-' || s@[0] == '+') {
                1int
            } else {
                0int
            }),
            neg == (s@[0] == '-'),
            ds == s@.subrange(start as int, n as int),
            all_digits(ds.subrange(0, i - start)),
            digits_value(ds.subrange(0, i - start)) == acc as nat,
        decreases n - i,
    {
        let c = s[i];
        if !('0' <= c && c <= '9') {
            proof {
                assert(ds[i - start] == c);
                assert(!all_digits(ds));
                lemma_literal_shape(s@, start as int);
            }
            return None;
        }
        let d = (c as u32 - '0' as u32) as u64;
        proof {
            assert(ds.subrange(0, i + 1 - start).drop_last() =~= ds.subrange(0, i - start));
            assert(ds.subrange(0, i + 1 - start).last() == c);
        }
        let next = match acc.checked_mul(10) {
            Some(m) => m.checked_add(d),
            None => None,
        };
        match next {
            Some(v) => {
                acc = v;
            },
            None => {
                proof {
                    lemma_digits_monotone(ds, i + 1 - start);
                    assert(digits_value(ds.subrange(0, i + 1 - start)) > u64::MAX);
                    assert(!all_digits(ds) || digits_value(ds) > u64::MAX);
                    lemma_literal_shape(s@, start as int);
                }
                return None;
            },
        }
        i = i + 1;
        proof {
            assert forall|j: int| 0 <= j < i - start implies is_digit(
                #[trigger] ds.subrange(0, i - start)[j],
            ) by {
                if j < i - 1 - start {
                    assert(ds.subrange(0, i - start)[j] == ds.subrange(0, i - 1 - start)[j]);
                }
            }
        }
    }
    assert(ds.subrange(0, n - start) =~= ds);
    proof {
        lemma_literal_shape(s@, start as int);
    }
    if neg {
        if acc <= 9223372036854775808u64 {
            if acc == 9223372036854775808u64 {
                Some(i64::MIN)
            } else {
                Some(-(acc as i64))
            }
        } else {
            None
        }
    } else if acc <= 9223372036854775807u64 {
        Some(acc as i64)
    } else {
        None
    }
}

} // verus!
