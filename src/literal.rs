//! Recognisers for the literal forms a value can take: boolean, integer, float.
use vstd::prelude::*;
use crate::text::chars_of;

verus! {

pub open spec fn is_digit(c: char) -> bool {
    '0' <= c && c <= '9'
}

pub open spec fn digit_val(c: char) -> int {
    c as int - '0' as int
}

/// Every character of `s` is an ASCII digit (`s` may be empty).
pub open spec fn digits(s: Seq<char>) -> bool {
    forall|i: int| 0 <= i < s.len() ==> is_digit(#[trigger] s[i])
}

/// A non-empty run of ASCII digits.
pub open spec fn digits1(s: Seq<char>) -> bool {
    s.len() > 0 && digits(s)
}

/// The base-10 value of a run of digits.
pub open spec fn digits_value(s: Seq<char>) -> int
    decreases s.len(),
{
    if s.len() == 0 {
        0
    } else {
        digits_value(s.drop_last()) * 10 + digit_val(s.last())
    }
}

pub open spec fn is_sign(c: char) -> bool {
    c == '+' || c == '-'
}

/// The literal `true` or the literal `false`, case-sensitive.
pub open spec fn is_bool_lit(s: Seq<char>) -> bool {
    s == seq!['t', 'r', 'u', 'e'] || s == seq!['f', 'a', 'l', 's', 'e']
}

/// The boolean a boolean literal denotes.
pub open spec fn bool_lit_value(s: Seq<char>) -> bool {
    s == seq!['t', 'r', 'u', 'e']
}

/// The digits of an integer literal: `s` without an optional leading `-`.
pub open spec fn int_digits(s: Seq<char>) -> Seq<char> {
    if s.len() > 0 && s[0] == '-' {
        s.drop_first()
    } else {
        s
    }
}

/// The value an integer literal denotes.
pub open spec fn int_lit_value(s: Seq<char>) -> int {
    if s.len() > 0 && s[0] == '-' {
        -digits_value(s.drop_first())
    } else {
        digits_value(s)
    }
}

/// A base-10 integer literal with an optional leading `-` whose value fits in `i64`.
pub open spec fn is_int_lit(s: Seq<char>) -> bool {
    digits1(int_digits(s)) && i64::MIN <= int_lit_value(s) <= i64::MAX
}

/// `s` spells the word whose lower-case form is `w` and upper-case form is `u`,
/// each letter in either case.
pub open spec fn ci_eq(s: Seq<char>, w: Seq<char>, u: Seq<char>) -> bool {
    s.len() == w.len() && s.len() == u.len() && forall|i: int|
        0 <= i < s.len() ==> #[trigger] s[i] == w[i] || s[i] == u[i]
}

pub open spec fn is_e(c: char) -> bool {
    c == 'e' || c == 'E'
}

/// Digits with at most one `.` among them, and at least one digit.
pub open spec fn is_mantissa(m: Seq<char>) -> bool {
    digits1(m) || exists|j: int|
        0 <= j < m.len() && m[j] == '.' && m.len() >= 2 && digits(#[trigger] m.subrange(0, j))
            && digits(m.subrange(j + 1, m.len() as int))
}

/// `e` or `E`, an optional sign, then at least one digit.
pub open spec fn is_exponent(x: Seq<char>) -> bool {
    x.len() >= 2 && is_e(x[0]) && (digits1(x.drop_first()) || (is_sign(x[1]) && digits1(
        x.subrange(2, x.len() as int),
    )))
}

/// A mantissa followed by an optional exponent.
pub open spec fn is_decimal(b: Seq<char>) -> bool {
    exists|i: int|
        0 <= i <= b.len() && #[trigger] is_mantissa(b.subrange(0, i)) && (i == b.len()
            || is_exponent(b.subrange(i, b.len() as int)))
}

/// `s` without an optional leading sign.
pub open spec fn unsigned_part(s: Seq<char>) -> Seq<char> {
    if s.len() > 0 && is_sign(s[0]) {
        s.drop_first()
    } else {
        s
    }
}

/// The floating-point literal grammar of `f64::from_str`: an optional sign, then
/// `inf`, `infinity` or `nan` in any ASCII case, or a decimal number.
pub open spec fn is_float_lit(s: Seq<char>) -> bool {
    let b = unsigned_part(s);
    ci_eq(b, seq!['i', 'n', 'f'], seq!['I', 'N', 'F']) || ci_eq(
        b,
        seq!['i', 'n', 'f', 'i', 'n', 'i', 't', 'y'],
        seq!['I', 'N', 'F', 'I', 'N', 'I', 'T', 'Y'],
    ) || ci_eq(b, seq!['n', 'a', 'n'], seq!['N', 'A', 'N']) || is_decimal(b)
}

pub proof fn lemma_digits_value_nonneg(s: Seq<char>)
    requires
        digits(s),
    ensures
        digits_value(s) >= 0,
    decreases s.len(),
{
    if s.len() > 0 {
        assert(digits(s.drop_last()));
        lemma_digits_value_nonneg(s.drop_last());
    }
}

/// Whether `s` is exactly `true` or `false`.
pub fn is_bool_literal(s: &str) -> (r: bool)
    ensures
        r == is_bool_lit(s@),
{
    let cs = chars_of(s);
    let t = vec!['t', 'r', 'u', 'e'];
    let f = vec!['f', 'a', 'l', 's', 'e'];
    let r = chars_equal(&cs, &t) || chars_equal(&cs, &f);
    assert(t@ =~= seq!['t', 'r', 'u', 'e']);
    assert(f@ =~= seq!['f', 'a', 'l', 's', 'e']);
    r
}

/// Whether `s` is exactly `true`.
pub fn is_true_literal(s: &str) -> (r: bool)
    ensures
        r == (s@ == seq!['t', 'r', 'u', 'e']),
{
    let cs = chars_of(s);
    let t = vec!['t', 'r', 'u', 'e'];
    assert(t@ =~= seq!['t', 'r', 'u', 'e']);
    chars_equal(&cs, &t)
}

fn chars_equal(a: &Vec<char>, b: &Vec<char>) -> (r: bool)
    ensures
        r == (a@ == b@),
{
    if a.len() != b.len() {
        return false;
    }
    let mut i: usize = 0;
    while i < a.len()
        invariant
            a@.len() == b@.len(),
            i <= a@.len(),
            forall|k: int| 0 <= k < i ==> a@[k] == b@[k],
        decreases a@.len() - i,
    {
        if a[i] != b[i] {
            return false;
        }
        i = i + 1;
    }
    assert(a@ =~= b@);
    true
}

/// Whether `cs[from..to]` spells the word with lower-case form `w` and upper-case form `u`.
fn chars_ci_equal(cs: &Vec<char>, from: usize, to: usize, w: &Vec<char>, u: &Vec<char>) -> (r: bool)
    requires
        from <= to <= cs@.len(),
        w@.len() == u@.len(),
    ensures
        r == ci_eq(cs@.subrange(from as int, to as int), w@, u@),
{
    let ghost s = cs@.subrange(from as int, to as int);
    if to - from != w.len() {
        return false;
    }
    let mut i: usize = 0;
    while i < w.len()
        invariant
            from <= to <= cs@.len(),
            s == cs@.subrange(from as int, to as int),
            s.len() == w@.len(),
            w@.len() == u@.len(),
            i <= w@.len(),
            forall|k: int| 0 <= k < i ==> #[trigger] s[k] == w@[k] || s[k] == u@[k],
        decreases w@.len() - i,
    {
        let c = cs[from + i];
        assert(s[i as int] == c);
        if !(c == w[i] || c == u[i]) {
            return false;
        }
        i = i + 1;
    }
    true
}

/// Whether every character of `cs[from..to]` is a digit.
fn all_digits(cs: &Vec<char>, from: usize, to: usize) -> (r: bool)
    requires
        from <= to <= cs@.len(),
    ensures
        r == digits(cs@.subrange(from as int, to as int)),
{
    let ghost s = cs@.subrange(from as int, to as int);
    let mut i: usize = from;
    while i < to
        invariant
            from <= i <= to <= cs@.len(),
            s == cs@.subrange(from as int, to as int),
            forall|k: int| 0 <= k < i - from ==> is_digit(#[trigger] s[k]),
        decreases to - i,
    {
        let c = cs[i];
        if !('0' <= c && c <= '9') {
            assert(!is_digit(s[i - from]));
            return false;
        }
        i = i + 1;
    }
    true
}

/// The first index in `from..to` holding `c1` or `c2`, or `to` if there is none.
fn find_either(cs: &Vec<char>, from: usize, to: usize, c1: char, c2: char) -> (r: usize)
    requires
        from <= to <= cs@.len(),
    ensures
        from <= r <= to,
        forall|k: int| from <= k < r ==> cs@[k] != c1 && cs@[k] != c2,
        r < to ==> cs@[r as int] == c1 || cs@[r as int] == c2,
{
    let mut i: usize = from;
    while i < to
        invariant
            from <= i <= to <= cs@.len(),
            forall|k: int| from <= k < i ==> cs@[k] != c1 && cs@[k] != c2,
        decreases to - i,
    {
        if cs[i] == c1 || cs[i] == c2 {
            return i;
        }
        i = i + 1;
    }
    to
}

pub proof fn lemma_mantissa_chars(m: Seq<char>)
    requires
        is_mantissa(m),
    ensures
        forall|k: int| 0 <= k < m.len() ==> is_digit(#[trigger] m[k]) || m[k] == '.',
{
    if !digits1(m) {
        let j = choose|j: int|
            0 <= j < m.len() && m[j] == '.' && m.len() >= 2 && digits(
                #[trigger] m.subrange(0, j),
            ) && digits(m.subrange(j + 1, m.len() as int));
        assert forall|k: int| 0 <= k < m.len() implies is_digit(#[trigger] m[k]) || m[k] == '.' by {
            if k < j {
                assert(m.subrange(0, j)[k] == m[k]);
            } else if k > j {
                assert(m.subrange(j + 1, m.len() as int)[k - j - 1] == m[k]);
            }
        }
    }
}

/// The `i64` an integer literal denotes, or `None` where `s` is not one.
pub fn parse_int_literal(s: &str) -> (r: Option<i64>)
    ensures
        r.is_some() == is_int_lit(s@),
        r matches Some(v) ==> v == int_lit_value(s@),
{
    let cs = chars_of(s);
    let n = cs.len();
    let neg = n > 0 && cs[0] == '-';
    let start: usize = if neg {
        1
    } else {
        0
    };
    let ghost d = int_digits(s@);
    assert(d =~= s@.subrange(start as int, n as int));
    if start == n {
        return None;
    }
    let mut acc: u128 = 0;
    let mut big = false;
    let mut i: usize = start;
    assert(s@.subrange(start as int, start as int) =~= Seq::<char>::empty());
    while i < n
        invariant
            cs@ == s@,
            n == s@.len(),
            start <= i <= n,
            d == s@.subrange(start as int, n as int),
            d == int_digits(s@),
            neg == (s@.len() > 0 && s@[0] == '-'),
            digits(s@.subrange(start as int, i as int)),
            !big ==> acc == digits_value(s@.subrange(start as int, i as int)) && acc
                <= 0x8000_0000_0000_0000,
            big ==> digits_value(s@.subrange(start as int, i as int)) > 0x8000_0000_0000_0000,
        decreases n - i,
    {
        let c = cs[i];
        if !('0' <= c && c <= '9') {
            assert(d[i - start] == c);
            assert(!is_digit(d[i - start]));
            assert(!digits1(d));
            return None;
        }
        let ghost prev = s@.subrange(start as int, i as int);
        let ghost next = s@.subrange(start as int, i + 1);
        assert(next.drop_last() =~= prev);
        assert(next.last() == c);
        assert(digits(next)) by {
            assert forall|k: int| 0 <= k < next.len() implies is_digit(#[trigger] next[k]) by {
                if k < prev.len() {
                    assert(next[k] == prev[k]);
                }
            }
        }
        let dv = (c as u32 - '0' as u32) as u128;
        assert(dv == digit_val(c));
        if !big {
            acc = acc * 10 + dv;
            if acc > 0x8000_0000_0000_0000 {
                big = true;
            }
        } else {
            proof {
                lemma_digits_value_nonneg(prev);
                let pv = digits_value(prev);
                assert(pv * 10 + digit_val(c) >= pv) by (nonlinear_arith)
                    requires
                        pv >= 0,
                        digit_val(c) >= 0,
                ;
            }
        }
        i = i + 1;
    }
    if big {
        return None;
    }
    if neg {
        if acc == 0x8000_0000_0000_0000 {
            Some(i64::MIN)
        } else {
            Some(-(acc as i64))
        }
    } else if acc <= 0x7fff_ffff_ffff_ffff {
        Some(acc as i64)
    } else {
        None
    }
}

/// Whether `cs[from..to]` is a mantissa.
fn mantissa_in(cs: &Vec<char>, from: usize, to: usize) -> (r: bool)
    requires
        from <= to <= cs@.len(),
    ensures
        r == is_mantissa(cs@.subrange(from as int, to as int)),
{
    let ghost m = cs@.subrange(from as int, to as int);
    let d = find_either(cs, from, to, '.', '.');
    if d == to {
        let r = to > from && all_digits(cs, from, to);
        proof {
            if !r {
                assert forall|j: int| 0 <= j < m.len() implies !(m[j] == '.' && m.len() >= 2
                    && digits(#[trigger] m.subrange(0, j)) && digits(
                    m.subrange(j + 1, m.len() as int),
                )) by {
                    assert(m[j] == cs@[from + j]);
                }
            }
        }
        return r;
    }
    let r = to - from >= 2 && all_digits(cs, from, d) && all_digits(cs, d + 1, to);
    proof {
        let jd = d - from;
        assert(m[jd] == '.');
        assert(cs@.subrange(from as int, d as int) =~= m.subrange(0, jd));
        assert(cs@.subrange(d + 1, to as int) =~= m.subrange(jd + 1, m.len() as int));
        assert(!digits1(m)) by {
            assert(!is_digit(m[jd]));
        }
        if r {
            assert(digits(m.subrange(0, jd)));
        } else {
            assert forall|j: int| 0 <= j < m.len() implies !(m[j] == '.' && m.len() >= 2
                && digits(#[trigger] m.subrange(0, j)) && digits(
                m.subrange(j + 1, m.len() as int),
            )) by {
                if m[j] == '.' && digits(m.subrange(0, j)) {
                    assert(m[j] == cs@[from + j]);
                    if j > jd {
                        assert(m.subrange(0, j)[jd] == m[jd]);
                    }
                }
            }
        }
    }
    r
}

/// Whether `cs[from..to]` is an exponent.
fn exponent_in(cs: &Vec<char>, from: usize, to: usize) -> (r: bool)
    requires
        from < to <= cs@.len(),
        is_e(cs@[from as int]),
    ensures
        r == is_exponent(cs@.subrange(from as int, to as int)),
{
    let ghost x = cs@.subrange(from as int, to as int);
    if to - from < 2 {
        return false;
    }
    assert(x.drop_first() =~= cs@.subrange(from + 1, to as int));
    assert(x.subrange(2, x.len() as int) =~= cs@.subrange(from + 2, to as int));
    let c1 = cs[from + 1];
    if all_digits(cs, from + 1, to) {
        true
    } else {
        (c1 == '+' || c1 == '-') && to - from >= 3 && all_digits(cs, from + 2, to)
    }
}

/// Whether `cs[from..to]` is a decimal number.
fn decimal_in(cs: &Vec<char>, from: usize, to: usize) -> (r: bool)
    requires
        from <= to <= cs@.len(),
    ensures
        r == is_decimal(cs@.subrange(from as int, to as int)),
{
    let ghost b = cs@.subrange(from as int, to as int);
    let e = find_either(cs, from, to, 'e', 'E');
    let m_ok = mantissa_in(cs, from, e);
    let x_ok = e == to || exponent_in(cs, e, to);
    let ghost ie = e - from;
    assert(b.subrange(0, ie) =~= cs@.subrange(from as int, e as int));
    assert(b.subrange(ie, b.len() as int) =~= cs@.subrange(e as int, to as int));
    let r = m_ok && x_ok;
    proof {
        if r {
            assert(is_mantissa(b.subrange(0, ie)));
        } else {
            assert forall|i: int| 0 <= i <= b.len() implies !(#[trigger] is_mantissa(
                b.subrange(0, i),
            ) && (i == b.len() || is_exponent(b.subrange(i, b.len() as int)))) by {
                if is_mantissa(b.subrange(0, i)) && (i == b.len() || is_exponent(
                    b.subrange(i, b.len() as int),
                )) {
                    lemma_mantissa_chars(b.subrange(0, i));
                    if i > ie {
                        assert(b.subrange(0, i)[ie] == b[ie]);
                        assert(b[ie] == cs@[e as int]);
                    } else if i < ie {
                        assert(b.subrange(i, b.len() as int)[0] == b[i]);
                        assert(b[i] == cs@[from + i]);
                    }
                }
            }
        }
    }
    r
}

/// Whether `s` is a floating-point literal.
pub fn is_float_literal(s: &str) -> (r: bool)
    ensures
        r == is_float_lit(s@),
{
    let cs = chars_of(s);
    let n = cs.len();
    let start: usize = if n > 0 && (cs[0] == '+' || cs[0] == '-') {
        1
    } else {
        0
    };
    assert(unsigned_part(s@) =~= s@.subrange(start as int, n as int));
    let inf_l = vec!['i', 'n', 'f'];
    let inf_u = vec!['I', 'N', 'F'];
    let infinity_l = vec!['i', 'n', 'f', 'i', 'n', 'i', 't', 'y'];
    let infinity_u = vec!['I', 'N', 'F', 'I', 'N', 'I', 'T', 'Y'];
    let nan_l = vec!['n', 'a', 'n'];
    let nan_u = vec!['N', 'A', 'N'];
    assert(inf_l@ =~= seq!['i', 'n', 'f']);
    assert(inf_u@ =~= seq!['I', 'N', 'F']);
    assert(infinity_l@ =~= seq!['i', 'n', 'f', 'i', 'n', 'i', 't', 'y']);
    assert(infinity_u@ =~= seq!['I', 'N', 'F', 'I', 'N', 'I', 'T', 'Y']);
    assert(nan_l@ =~= seq!['n', 'a', 'n']);
    assert(nan_u@ =~= seq!['N', 'A', 'N']);
    chars_ci_equal(&cs, start, n, &inf_l, &inf_u) || chars_ci_equal(
        &cs,
        start,
        n,
        &infinity_l,
        &infinity_u,
    ) || chars_ci_equal(&cs, start, n, &nan_l, &nan_u) || decimal_in(&cs, start, n)
}

/// No literal of the three forms holds a space.
pub proof fn lemma_literals_have_no_space(x: Seq<char>, p: int)
    requires
        0 <= p < x.len(),
        x[p] == ' ',
    ensures
        !is_bool_lit(x),
        !is_int_lit(x),
        !is_float_lit(x),
{
    if is_bool_lit(x) {
        if x == seq!['t', 'r', 'u', 'e'] {
            assert(x[p] != ' ');
        } else {
            assert(x[p] != ' ');
        }
    }
    if x.len() > 0 && x[0] == '-' {
        if p > 0 {
            assert(int_digits(x)[p - 1] == x[p]);
        }
    } else {
        assert(int_digits(x)[p] == x[p]);
    }
    let b = unsigned_part(x);
    if x.len() > 0 && is_sign(x[0]) {
        assert(p > 0);
        assert(b[p - 1] == ' ');
    } else {
        assert(b[p] == ' ');
    }
    let q = if x.len() > 0 && is_sign(x[0]) {
        p - 1
    } else {
        p
    };
    assert(b[q] == ' ');
    if is_decimal(b) {
        let i = choose|i: int|
            0 <= i <= b.len() && #[trigger] is_mantissa(b.subrange(0, i)) && (i == b.len()
                || is_exponent(b.subrange(i, b.len() as int)));
        lemma_mantissa_chars(b.subrange(0, i));
        if q < i {
            assert(b.subrange(0, i)[q] == b[q]);
        } else {
            let e = b.subrange(i, b.len() as int);
            assert(e[q - i] == b[q]);
            if q - i >= 1 {
                assert(e.drop_first()[q - i - 1] == e[q - i]);
                if q - i >= 2 {
                    assert(e.subrange(2, e.len() as int)[q - i - 2] == e[q - i]);
                }
            }
        }
    }
}

} // verus!
