use vstd::prelude::*;
use vstd::string::StringExecFns;
use crate::text::push_range;

verus! {

// A number is held as the canonical decimal text of its value: an optional
// minus sign, the integer digits without leading zeros ("0" where none are
// left), and, where the fraction is not zero, a dot and the fraction digits
// without trailing zeros. So "007.50" is held as "7.5" and "-0.0" as "-0".

pub open spec fn is_digit(c: char) -> bool {
    '0' <= c && c <= '9'
}

pub open spec fn is_negative(t: Seq<char>) -> bool {
    t.len() > 0 && t[0] == '-'
}

/// The text without its sign.
pub open spec fn magnitude(t: Seq<char>) -> Seq<char> {
    if is_negative(t) {
        t.drop_first()
    } else {
        t
    }
}

pub open spec fn count_dots(s: Seq<char>) -> nat
    decreases s.len(),
{
    if s.len() == 0 {
        0
    } else {
        count_dots(s.drop_last()) + if s.last() == '.' {
            1nat
        } else {
            0nat
        }
    }
}

pub open spec fn count_digits(s: Seq<char>) -> nat
    decreases s.len(),
{
    if s.len() == 0 {
        0
    } else {
        count_digits(s.drop_last()) + if is_digit(s.last()) {
            1nat
        } else {
            0nat
        }
    }
}

pub open spec fn digits_and_dots(m: Seq<char>) -> bool {
    forall|i: int| 0 <= i < m.len() ==> is_digit(#[trigger] m[i]) || m[i] == '.'
}

/// A number text: an optional minus sign, then digits with at most one dot,
/// at least one digit among them.
pub open spec fn valid_number(t: Seq<char>) -> bool {
    &&& digits_and_dots(magnitude(t))
    &&& count_dots(magnitude(t)) <= 1
    &&& count_digits(magnitude(t)) >= 1
}

/// Position of the first dot at or after `p`, or the length.
pub open spec fn dot_from(s: Seq<char>, p: int) -> int
    decreases s.len() - p,
{
    if p < 0 || p >= s.len() {
        s.len() as int
    } else if s[p] == '.' {
        p
    } else {
        dot_from(s, p + 1)
    }
}

proof fn lemma_dot_from_bounds(s: Seq<char>, p: int)
    requires
        0 <= p <= s.len(),
    ensures
        p <= dot_from(s, p) <= s.len(),
    decreases s.len() - p,
{
    if p < s.len() && s[p] != '.' {
        lemma_dot_from_bounds(s, p + 1);
    }
}

pub open spec fn strip_leading_zeros(s: Seq<char>) -> Seq<char>
    decreases s.len(),
{
    if s.len() > 0 && s[0] == '0' {
        strip_leading_zeros(s.drop_first())
    } else {
        s
    }
}

pub open spec fn strip_trailing_zeros(s: Seq<char>) -> Seq<char>
    decreases s.len(),
{
    if s.len() > 0 && s.last() == '0' {
        strip_trailing_zeros(s.drop_last())
    } else {
        s
    }
}

pub open spec fn integer_digits(t: Seq<char>) -> Seq<char> {
    let m = magnitude(t);
    strip_leading_zeros(m.take(dot_from(m, 0)))
}

pub open spec fn fraction_digits(t: Seq<char>) -> Seq<char> {
    let m = magnitude(t);
    let d = dot_from(m, 0);
    if d < m.len() {
        strip_trailing_zeros(m.subrange(d + 1, m.len() as int))
    } else {
        Seq::empty()
    }
}

/// The canonical decimal text of a valid number text.
pub open spec fn canonical_number(t: Seq<char>) -> Seq<char> {
    let ip = integer_digits(t);
    let fp = fraction_digits(t);
    (if is_negative(t) {
        seq!['-']
    } else {
        Seq::empty()
    }) + (if ip.len() == 0 {
        seq!['0']
    } else {
        ip
    }) + (if fp.len() == 0 {
        Seq::empty()
    } else {
        seq!['.'] + fp
    })
}

/// Checks the characters of a number text. Where they form a number, returns
/// the position of the dot in `t`, or the length where there is none.
fn check_number(t: &Vec<char>) -> (r: Option<usize>)
    ensures
        match r {
            Some(dot) => valid_number(t@) && dot == (if is_negative(t@) { 1int } else { 0int }) + dot_from(
                magnitude(t@),
                0,
            ),
            None => !valid_number(t@),
        },
{
    let n = t.len();
    let s: usize = if n > 0 && t[0] == '-' {
        1
    } else {
        0
    };
    let ghost m = magnitude(t@);
    assert(m =~= t@.subrange(s as int, n as int));
    let mut dots: usize = 0;
    let mut digits: usize = 0;
    let mut dot: usize = n;
    let mut k: usize = s;
    while k < n
        invariant
            m == t@.subrange(s as int, n as int),
            m == magnitude(t@),
            s <= k <= n,
            n == t@.len(),
            dots <= k,
            digits <= k,
            dots == count_dots(m.take(k - s)),
            digits == count_digits(m.take(k - s)),
            forall|i: int| 0 <= i < k - s ==> is_digit(#[trigger] m[i]) || m[i] == '.',
            dot <= n,
            dot == n ==> dot_from(m, (k - s) as int) == dot_from(m, 0),
            dot < n ==> s <= dot < k && dot - s == dot_from(m, 0),
        decreases n - k,
    {
        let c = t[k];
        if c == '.' {
            if dot == n {
                dot = k;
            }
            dots += 1;
        } else if '0' <= c && c <= '9' {
            digits += 1;
        } else {
            assert(m[k - s] == c);
            assert(!valid_number(t@));
            return None;
        }
        proof {
            assert(m.take(k + 1 - s).drop_last() =~= m.take(k - s));
        }
        k += 1;
    }
    proof {
        assert(m.take(n - s) =~= m);
    }
    if dots > 1 || digits == 0 {
        return None;
    }
    assert(m.len() == n - s);
    if dot == n {
        assert(dot_from(m, (k - s) as int) == dot_from(m, 0));
        assert(dot_from(m, (n - s) as int) == n - s);
    }
    Some(dot)
}

/// The position in `t` where `strip_leading_zeros` of `t[from..to]` begins.
fn skip_leading_zeros(t: &Vec<char>, from: usize, to: usize) -> (p: usize)
    requires
        from <= to <= t@.len(),
    ensures
        from <= p <= to,
        strip_leading_zeros(t@.subrange(from as int, to as int)) == t@.subrange(p as int, to as int),
{
    let mut p: usize = from;
    while p < to && t[p] == '0'
        invariant
            from <= p <= to <= t@.len(),
            strip_leading_zeros(t@.subrange(p as int, to as int)) == strip_leading_zeros(
                t@.subrange(from as int, to as int),
            ),
        decreases to - p,
    {
        assert(t@.subrange(p as int, to as int).drop_first() =~= t@.subrange(p + 1, to as int));
        p += 1;
    }
    p
}

/// The position in `t` where `strip_trailing_zeros` of `t[from..to]` ends.
fn drop_trailing_zeros(t: &Vec<char>, from: usize, to: usize) -> (q: usize)
    requires
        from <= to <= t@.len(),
    ensures
        from <= q <= to,
        strip_trailing_zeros(t@.subrange(from as int, to as int)) == t@.subrange(from as int, q as int),
{
    let mut q: usize = to;
    while q > from && t[q - 1] == '0'
        invariant
            from <= q <= to <= t@.len(),
            strip_trailing_zeros(t@.subrange(from as int, q as int)) == strip_trailing_zeros(
                t@.subrange(from as int, to as int),
            ),
        decreases q,
    {
        assert(t@.subrange(from as int, q as int).drop_last() =~= t@.subrange(from as int, q - 1));
        q -= 1;
    }
    q
}

/// The canonical text of the number written in `t`, or `None` where `t` is
/// not a number.
pub fn canonical_number_text(t: &Vec<char>) -> (r: Option<String>)
    ensures
        match r {
            Some(c) => valid_number(t@) && c@ == canonical_number(t@),
            None => !valid_number(t@),
        },
{
    let dot = match check_number(t) {
        Some(d) => d,
        None => {
            return None;
        },
    };
    let n = t.len();
    let negative = n > 0 && t[0] == '-';
    let s: usize = if negative {
        1
    } else {
        0
    };
    let ghost m = magnitude(t@);
    assert(m =~= t@.subrange(s as int, n as int));
    proof {
        lemma_dot_from_bounds(m, 0);
    }
    assert(m.take(dot - s) =~= t@.subrange(s as int, dot as int));
    let p = skip_leading_zeros(t, s, dot);
    let ghost ip = t@.subrange(p as int, dot as int);
    assert(ip == integer_digits(t@));
    let q = if dot < n {
        let q = drop_trailing_zeros(t, dot + 1, n);
        assert(m.subrange(dot - s + 1, m.len() as int) =~= t@.subrange(dot + 1, n as int));
        q
    } else {
        n
    };
    let ghost fp = if dot < n {
        t@.subrange(dot + 1, q as int)
    } else {
        Seq::<char>::empty()
    };
    assert(fp == fraction_digits(t@));
    let mut out = String::new();
    if negative {
        out.append("-");
    }
    if p == dot {
        out.append("0");
    }
    let ghost prefix = out@;
    proof {
        reveal_strlit("-");
        reveal_strlit("0");
        assert(prefix + ip =~= (if is_negative(t@) {
            seq!['-']
        } else {
            Seq::empty()
        }) + (if ip.len() == 0 {
            seq!['0']
        } else {
            ip
        }));
    }
    push_range(&mut out, t, p, dot);
    let ghost with_int = out@;
    if dot < n && q > dot + 1 {
        out.append(".");
        push_range(&mut out, t, dot + 1, q);
    }
    proof {
        reveal_strlit(".");
        assert(out@ =~= canonical_number(t@));
    }
    Some(out)
}

} // verus!
