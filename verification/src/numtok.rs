//! The grammar of numeric tokens.
//!
//! A number collapses to a 64-bit float outside the parser; the parser itself
//! only decides whether the token it collected is acceptable. The platform
//! float parser documents the texts it accepts as
//! `Sign? ( Digit+ | Digit+ '.' Digit* | Digit* '.' Digit+ ) Exp?` with
//! `Exp ::= ('e' | 'E') Sign? Digit+` (the word forms `inf`, `infinity` and
//! `nan` cannot occur in a token drawn from `0-9 . e E + -`). That grammar is
//! stated here as a spec and decided by a verified function.

use vstd::prelude::*;

verus! {

/// Is `c` a decimal digit?
pub open spec fn is_digit(c: char) -> bool {
    '0' <= c && c <= '9'
}

/// A non-empty run of decimal digits.
pub open spec fn all_digits(s: Seq<char>) -> bool {
    s.len() > 0 && (forall|i: int| 0 <= i < s.len() ==> is_digit(#[trigger] s[i]))
}

/// The mantissa: digits with at most one decimal point, at least one digit.
pub open spec fn is_mantissa(s: Seq<char>) -> bool {
    &&& forall|i: int| 0 <= i < s.len() ==> is_digit(#[trigger] s[i]) || s[i] == '.'
    &&& exists|i: int| 0 <= i < s.len() && is_digit(#[trigger] s[i])
    &&& forall|i: int, j: int| 0 <= i < j < s.len() ==> !(#[trigger] s[i] == '.' && #[trigger] s[j] == '.')
}

/// The exponent after its `e`/`E`: an optional sign, then digits.
pub open spec fn is_exponent(s: Seq<char>) -> bool {
    if s.len() > 0 && (s[0] == '+' || s[0] == '-') {
        all_digits(s.drop_first())
    } else {
        all_digits(s)
    }
}

/// Index of the first `e`/`E` in `s`, or `s.len()` when there is none.
pub open spec fn exp_start(s: Seq<char>) -> int
    decreases s.len(),
{
    if s.len() == 0 {
        0
    } else if s[0] == 'e' || s[0] == 'E' {
        0
    } else {
        1 + exp_start(s.drop_first())
    }
}

/// A token the float parser accepts: an optional sign, a mantissa, and an
/// optional exponent.
pub open spec fn is_float_token(s: Seq<char>) -> bool {
    let u = if s.len() > 0 && (s[0] == '-' || s[0] == '+') {
        s.drop_first()
    } else {
        s
    };
    let k = exp_start(u);
    if k == u.len() {
        is_mantissa(u)
    } else {
        is_mantissa(u.take(k)) && is_exponent(u.skip(k + 1))
    }
}

/// `exp_start` names the first index holding `e` or `E`.
pub proof fn lemma_exp_start(s: Seq<char>)
    ensures
        0 <= exp_start(s) <= s.len(),
        forall|i: int| 0 <= i < exp_start(s) ==> !((#[trigger] s[i]) == 'e' || s[i] == 'E'),
        exp_start(s) < s.len() ==> (s[exp_start(s)] == 'e' || s[exp_start(s)] == 'E'),
    decreases s.len(),
{
    if s.len() != 0 && !(s[0] == 'e' || s[0] == 'E') {
        let tail = s.drop_first();
        lemma_exp_start(tail);
        assert forall|i: int| 0 <= i < exp_start(s) implies !((#[trigger] s[i]) == 'e' || s[i]
            == 'E') by {
            if i > 0 {
                assert(s[i] == tail[i - 1]);
            }
        }
    }
}

/// When everything before `k` is not `e`/`E` and `k` is `e`/`E` or the end,
/// `exp_start` is `k`.
proof fn lemma_exp_start_is(s: Seq<char>, k: int)
    requires
        0 <= k <= s.len(),
        forall|i: int| 0 <= i < k ==> !(#[trigger] s[i] == 'e' || s[i] == 'E'),
        k < s.len() ==> (s[k] == 'e' || s[k] == 'E'),
    ensures
        exp_start(s) == k,
    decreases k,
{
    if k == 0 {
    } else {
        let tail = s.drop_first();
        assert(forall|i: int| 0 <= i < k - 1 ==> tail[i] == s[i + 1]);
        lemma_exp_start_is(tail, k - 1);
    }
}

/// Is `c` a decimal digit? (executable form)
pub fn digit(c: char) -> (r: bool)
    ensures
        r == is_digit(c),
{
    c >= '0' && c <= '9'
}

/// Decides whether `s` is a token the float parser accepts.
pub fn check_float_token(s: &str) -> (r: bool)
    ensures
        r == is_float_token(s@),
{
    let n = s.unicode_len();
    let start: usize = if n > 0 {
        let c0 = s.get_char(0);
        if c0 == '-' || c0 == '+' {
            1
        } else {
            0
        }
    } else {
        0
    };
    let ghost u = if start == 1 {
        s@.drop_first()
    } else {
        s@
    };
    proof {
        assert(start == 0 ==> u =~= s@);
        assert(u.len() == n - start);
        assert(forall|i: int| 0 <= i < u.len() ==> u[i] == s@[i + start]);
    }

    // Find the first `e`/`E` (index into `u`).
    let mut k: usize = 0;
    let mut found = false;
    while !found && k + start < n
        invariant
            n == s@.len(),
            start <= 1,
            start <= n,
            u.len() == n - start,
            forall|i: int| 0 <= i < u.len() ==> u[i] == s@[i + start],
            0 <= k <= u.len(),
            found ==> k < u.len() && (u[k as int] == 'e' || u[k as int] == 'E'),
            forall|i: int| 0 <= i < k ==> !(#[trigger] u[i] == 'e' || u[i] == 'E'),
        decreases 2 * (n - start - k) + (if found { 0int } else { 1int }),
    {
        let c = s.get_char(k + start);
        if c == 'e' || c == 'E' {
            found = true;
        } else {
            k += 1;
        }
    }
    proof {
        lemma_exp_start_is(u, k as int);
    }

    // Check the mantissa `u[..k]`.
    let ghost m = u.take(k as int);
    let mut seen_digit = false;
    let mut seen_dot = false;
    let mut ok = true;
    let mut i: usize = 0;
    while i < k
        invariant
            n == s@.len(),
            start <= 1,
            start <= n,
            u.len() == n - start,
            forall|j: int| 0 <= j < u.len() ==> u[j] == s@[j + start],
            k <= u.len(),
            m == u.take(k as int),
            m.len() == k,
            forall|j: int| 0 <= j < k ==> m[j] == u[j],
            0 <= i <= k,
            seen_digit == exists|j: int| 0 <= j < i && is_digit(#[trigger] m[j]),
            seen_dot == exists|j: int| 0 <= j < i && #[trigger] m[j] == '.',
            ok == ((forall|j: int| 0 <= j < i ==> is_digit(#[trigger] m[j]) || m[j] == '.')
                && (forall|j1: int, j2: int| 0 <= j1 < j2 < i
                    ==> !(#[trigger] m[j1] == '.' && #[trigger] m[j2] == '.'))),
        decreases k - i,
    {
        let c = s.get_char(i + start);
        assert(c == m[i as int]);
        if digit(c) {
            seen_digit = true;
        } else if c == '.' {
            if seen_dot {
                ok = false;
            }
            seen_dot = true;
        } else {
            ok = false;
        }
        i += 1;
    }
    let mantissa_ok = ok && seen_digit;
    assert(mantissa_ok == is_mantissa(m));

    if k == n - start {
        proof {
            assert(m =~= u);
        }
        return mantissa_ok;
    }

    // Check the exponent `u[k+1..]`.
    let ghost t = u.skip(k as int + 1);
    let mut p: usize = k + 1;
    proof {
        assert(forall|j: int| 0 <= j < t.len() ==> t[j] == u[j + k + 1]);
    }
    if p == n - start {
        // `e` at the very end: no digits can follow.
        assert(t.len() == 0);
        assert(!is_exponent(t));
        return false;
    }
    let c1 = s.get_char(p + start);
    if c1 == '+' || c1 == '-' {
        p += 1;
    }
    let ghost d = if c1 == '+' || c1 == '-' {
        t.drop_first()
    } else {
        t
    };
    proof {
        assert(c1 == t[0]);
        assert(d.len() == n - start - p);
        assert(forall|j: int| 0 <= j < d.len() ==> d[j] == u[j + p]);
        assert(is_exponent(t) == all_digits(d));
    }
    if p == n - start {
        assert(d.len() == 0);
        return false;
    }
    let mut all_ok = true;
    let mut q: usize = p;
    while q < n - start
        invariant
            n == s@.len(),
            start <= 1,
            start <= p,
            p <= q,
            u.len() == n - start,
            forall|j: int| 0 <= j < u.len() ==> u[j] == s@[j + start],
            p <= n - start,
            q <= n - start,
            d.len() == n - start - p,
            forall|j: int| 0 <= j < d.len() ==> d[j] == u[j + p],
            all_ok == (forall|j: int| 0 <= j < q - p ==> is_digit(#[trigger] d[j])),
        decreases n - start - q,
    {
        let c = s.get_char(q + start);
        assert(c == d[q - p]);
        if !digit(c) {
            all_ok = false;
        }
        q += 1;
    }
    mantissa_ok && all_ok
}

} // verus!
