use vstd::prelude::*;

verus! {

/// Whitespace as SQL statements use it: space, tab, carriage return, newline.
pub open spec fn is_space(c: char) -> bool {
    c == ' ' || c == '\t' || c == '\r' || c == '\n'
}

pub open spec fn is_ascii_letter(c: char) -> bool {
    ('a' <= c && c <= 'z') || ('A' <= c && c <= 'Z')
}

pub(crate) fn space_char(c: char) -> (r: bool)
    ensures
        r == is_space(c),
{
    c == ' ' || c == '\t' || c == '\r' || c == '\n'
}

pub(crate) fn letter_char(c: char) -> (r: bool)
    ensures
        r == is_ascii_letter(c),
{
    ('a' <= c && c <= 'z') || ('A' <= c && c <= 'Z')
}

/// What `char::is_alphanumeric` says of `c` (Unicode's Alphabetic or Numeric).
pub uninterp spec fn alphanumeric(c: char) -> bool;

/// Relies on char::is_alphanumeric, which looks `c` up in Unicode's tables.
#[verifier::external_body]
pub(crate) fn is_alphanumeric(c: char) -> (r: bool)
    ensures
        r == alphanumeric(c),
{
    c.is_alphanumeric()
}

/// Relies on String::push: appends one character.
#[verifier::external_body]
pub(crate) fn push_char(s: &mut String, c: char)
    ensures
        final(s)@ == old(s)@.push(c),
{
    s.push(c)
}

/// The characters of `s`, in order.
pub(crate) fn chars_of(s: &str) -> (r: Vec<char>)
    ensures
        r@ == s@,
{
    let n = s.unicode_len();
    let mut v: Vec<char> = Vec::new();
    let mut i: usize = 0;
    while i < n
        invariant
            n == s@.len(),
            i <= n,
            v@ == s@.subrange(0, i as int),
        decreases n - i,
    {
        v.push(s.get_char(i));
        i = i + 1;
    }
    assert(v@ =~= s@);
    v
}

} // verus!

verus! {

pub open spec fn is_digit(c: char) -> bool {
    '0' <= c && c <= '9'
}

pub open spec fn digit_of(c: char) -> int {
    c as int - '0' as int
}

pub open spec fn digit_char(d: int) -> char {
    (d + '0' as int) as char
}

pub open spec fn all_digits(d: Seq<char>) -> bool {
    forall|k: int| 0 <= k < d.len() ==> is_digit(#[trigger] d[k])
}

/// The number that a run of decimal digits denotes.
pub open spec fn digits_value(d: Seq<char>) -> int
    decreases d.len(),
{
    if d.len() == 0 {
        0
    } else {
        digits_value(d.drop_last()) * 10 + digit_of(d.last())
    }
}

/// The decimal digits of `n`, without leading zeros.
pub open spec fn decimal_nat(n: nat) -> Seq<char>
    decreases n,
{
    if n < 10 {
        seq![digit_char(n as int)]
    } else {
        decimal_nat(n / 10).push(digit_char((n % 10) as int))
    }
}

/// The decimal text of `n`, with a leading `-` when it is negative.
pub open spec fn decimal_int(n: int) -> Seq<char> {
    if n < 0 {
        seq!['-'].add(decimal_nat((-n) as nat))
    } else {
        decimal_nat(n as nat)
    }
}

/// What reading `t` as a whole as a signed 64-bit decimal gives: an optional
/// `+` or `-`, then at least one digit, within range.
pub open spec fn int_of_text(t: Seq<char>) -> Option<i64> {
    let signed = t.len() > 0 && (t[0] == '-' || t[0] == '+');
    let d = if signed { t.skip(1) } else { t };
    let v = if signed && t[0] == '-' { -digits_value(d) } else { digits_value(d) };
    if d.len() > 0 && all_digits(d) && i64::MIN <= v <= i64::MAX {
        Some(v as i64)
    } else {
        None
    }
}

pub proof fn lemma_decimal_nat(n: nat)
    ensures
        decimal_nat(n).len() > 0,
        all_digits(decimal_nat(n)),
        digits_value(decimal_nat(n)) == n,
        decimal_nat(n)[0] != '-' && decimal_nat(n)[0] != '+',
    decreases n,
{
    let r = (n % 10) as int;
    assert(digit_of(digit_char(r)) == r);
    if n >= 10 {
        lemma_decimal_nat(n / 10);
        let d = decimal_nat(n);
        assert(d.drop_last() =~= decimal_nat(n / 10));
        assert((n / 10) * 10 + r == n);
        assert(d.last() == digit_char(r));
        assert(digits_value(d) == digits_value(d.drop_last()) * 10 + digit_of(d.last()));
    } else {
        let d = decimal_nat(n);
        assert(d.drop_last() =~= Seq::<char>::empty());
        assert(digits_value(d) == digits_value(d.drop_last()) * 10 + digit_of(d.last()));
        assert(r == n);
    }
}

pub proof fn lemma_int_of_decimal(n: i64)
    ensures
        int_of_text(decimal_int(n as int)) == Some(n),
{
    if n < 0 {
        lemma_decimal_nat((-n) as nat);
        assert(decimal_int(n as int).skip(1) =~= decimal_nat((-n) as nat));
    } else {
        lemma_decimal_nat(n as nat);
    }
}

pub(crate) fn is_digit_char(c: char) -> (r: bool)
    ensures
        r == is_digit(c),
{
    '0' <= c && c <= '9'
}

fn digit_to_char(d: u64) -> (c: char)
    requires
        d < 10,
    ensures
        c == digit_char(d as int),
{
    let b: u8 = 48u8 + d as u8;
    b as char
}

/// Appends the decimal digits of `n`.
pub(crate) fn push_decimal(s: &mut String, n: u64)
    ensures
        final(s)@ == old(s)@ + decimal_nat(n as nat),
    decreases n,
{
    if n >= 10 {
        push_decimal(s, n / 10);
    }
    push_char(s, digit_to_char(n % 10));
    assert(final(s)@ =~= old(s)@ + decimal_nat(n as nat));
}

/// Appends the decimal text of `n`.
pub(crate) fn push_int(s: &mut String, n: i64)
    ensures
        final(s)@ == old(s)@ + decimal_int(n as int),
{
    if n < 0 {
        push_char(s, '-');
        let m: u64 = (-(n as i128)) as u64;
        push_decimal(s, m);
        assert(final(s)@ =~= old(s)@ + decimal_int(n as int));
    } else {
        push_decimal(s, n as u64);
    }
}

/// The value of the digits `s[i..j]`, or `cap` where that is larger.
pub(crate) fn digits_value_capped(s: &Vec<char>, i: usize, j: usize, cap: u128) -> (r: u128)
    requires
        i <= j <= s@.len(),
        all_digits(s@.subrange(i as int, j as int)),
        1 <= cap <= 0x1_0000_0000_0000_0000_0000_0000,
    ensures
        r as int == if digits_value(s@.subrange(i as int, j as int)) < cap {
            digits_value(s@.subrange(i as int, j as int))
        } else {
            cap as int
        },
{
    let mut v: u128 = 0;
    let mut k: usize = i;
    while k < j
        invariant
            i <= k <= j <= s@.len(),
            all_digits(s@.subrange(i as int, j as int)),
            1 <= cap <= 0x1_0000_0000_0000_0000_0000_0000,
            v as int == if digits_value(s@.subrange(i as int, k as int)) < cap {
                digits_value(s@.subrange(i as int, k as int))
            } else {
                cap as int
            },
        decreases j - k,
    {
        let c = s[k];
        assert(s@.subrange(i as int, j as int)[k - i] == c);
        let d: u128 = (c as u32 - '0' as u32) as u128;
        let ghost prev = digits_value(s@.subrange(i as int, k as int));
        proof {
            assert(s@.subrange(i as int, k + 1).drop_last() =~= s@.subrange(i as int, k as int));
            assert(s@.subrange(i as int, k + 1).last() == c);
            assert(digits_value(s@.subrange(i as int, k + 1)) == prev * 10 + d);
            assert(prev >= 0) by {
                lemma_digits_value_nonneg(s@.subrange(i as int, k as int));
            }
        }
        if v < cap {
            let w: u128 = v * 10 + d;
            if w < cap {
                v = w;
            } else {
                v = cap;
            }
        }
        k = k + 1;
    }
    v
}

pub proof fn lemma_digits_value_nonneg(d: Seq<char>)
    requires
        all_digits(d),
    ensures
        digits_value(d) >= 0,
    decreases d.len(),
{
    if d.len() > 0 {
        assert(is_digit(d[d.len() - 1]));
        lemma_digits_value_nonneg(d.drop_last());
    }
}

} // verus!

verus! {

/// Whether `t` occurs in `s` at position `i`.
pub open spec fn occurs_at(s: Seq<char>, i: int, t: Seq<char>) -> bool {
    0 <= i && i + t.len() <= s.len() && s.subrange(i, i + t.len()) == t
}

pub(crate) fn matches_at(s: &Vec<char>, i: usize, t: &str) -> (r: bool)
    requires
        i <= s@.len(),
    ensures
        r == occurs_at(s@, i as int, t@),
{
    let n = t.unicode_len();
    let m = s.len();
    if n > m - i {
        return false;
    }
    let mut k: usize = 0;
    while k < n
        invariant
            n == t@.len(),
            m == s@.len(),
            i + n <= m,
            k <= n,
            s@.subrange(i as int, i + k) == t@.subrange(0, k as int),
        decreases n - k,
    {
        if s[i + k] != t.get_char(k) {
            assert(s@.subrange(i as int, i + n)[k as int] != t@[k as int]);
            return false;
        }
        assert(s@.subrange(i as int, i + k + 1) =~= t@.subrange(0, k + 1));
        k = k + 1;
    }
    assert(t@.subrange(0, n as int) =~= t@);
    true
}

/// Appends the characters of `t`.
pub(crate) fn push_str(s: &mut String, t: &str)
    ensures
        final(s)@ == old(s)@ + t@,
{
    s.append(t);
}

/// Appends the characters `t[i..j]`.
pub(crate) fn push_range(s: &mut String, t: &Vec<char>, i: usize, j: usize)
    requires
        i <= j <= t@.len(),
    ensures
        final(s)@ == old(s)@ + t@.subrange(i as int, j as int),
{
    let mut k: usize = i;
    while k < j
        invariant
            i <= k <= j <= t@.len(),
            s@ == old(s)@ + t@.subrange(i as int, k as int),
        decreases j - k,
    {
        push_char(s, t[k]);
        assert(s@ =~= old(s)@ + t@.subrange(i as int, k + 1));
        k = k + 1;
    }
}

/// A `String` holding `t[i..j]`.
pub(crate) fn string_of_range(t: &Vec<char>, i: usize, j: usize) -> (r: String)
    requires
        i <= j <= t@.len(),
    ensures
        r@ == t@.subrange(i as int, j as int),
{
    let mut s = String::new();
    push_range(&mut s, t, i, j);
    assert(s@ =~= t@.subrange(i as int, j as int));
    s
}

} // verus!

verus! {

/// Whether `s[i..j]` holds decimal digits only.
pub(crate) fn digits_in(s: &Vec<char>, i: usize, j: usize) -> (r: bool)
    requires
        i <= j <= s@.len(),
    ensures
        r == all_digits(s@.subrange(i as int, j as int)),
{
    let mut k: usize = i;
    while k < j
        invariant
            i <= k <= j <= s@.len(),
            all_digits(s@.subrange(i as int, k as int)),
        decreases j - k,
    {
        if !is_digit_char(s[k]) {
            assert(s@.subrange(i as int, j as int)[k - i] == s@[k as int]);
            return false;
        }
        assert(all_digits(s@.subrange(i as int, k + 1))) by {
            assert forall|m: int| 0 <= m < k + 1 - i implies is_digit(
                #[trigger] s@.subrange(i as int, k + 1)[m],
            ) by {
                if m < k - i {
                    assert(s@.subrange(i as int, k + 1)[m] == s@.subrange(i as int, k as int)[m]);
                }
            }
        }
        k = k + 1;
    }
    true
}

} // verus!

verus! {

pub(crate) fn white_space_char(c: char) -> (r: bool)
    ensures
        r == crate::codec::is_white_space(c),
{
    let n = c as u32;
    (0x09 <= n && n <= 0x0d) || n == 0x20 || n == 0x85 || n == 0xa0 || n == 0x1680 || (0x2000
        <= n && n <= 0x200a) || n == 0x2028 || n == 0x2029 || n == 0x202f || n == 0x205f || n
        == 0x3000
}

/// A copy of `t[i..j]`.
pub(crate) fn copy_range(t: &Vec<char>, i: usize, j: usize) -> (r: Vec<char>)
    requires
        i <= j <= t@.len(),
    ensures
        r@ == t@.subrange(i as int, j as int),
{
    let mut v: Vec<char> = Vec::new();
    let mut k: usize = i;
    while k < j
        invariant
            i <= k <= j <= t@.len(),
            v@ == t@.subrange(i as int, k as int),
        decreases j - k,
    {
        v.push(t[k]);
        assert(v@ =~= t@.subrange(i as int, k + 1));
        k = k + 1;
    }
    v
}

/// Whether `a` and `b`, of equal length, hold the same characters.
pub(crate) fn same_chars(a: &Vec<char>, b: &Vec<char>) -> (r: bool)
    requires
        a@.len() == b@.len(),
    ensures
        r == (a@ == b@),
{
    let mut k: usize = 0;
    while k < a.len()
        invariant
            a@.len() == b@.len(),
            k <= a@.len(),
            a@.take(k as int) == b@.take(k as int),
        decreases a@.len() - k,
    {
        if a[k] != b[k] {
            return false;
        }
        assert(a@.take(k + 1) =~= a@.take(k as int).push(a@[k as int]));
        assert(b@.take(k + 1) =~= b@.take(k as int).push(b@[k as int]));
        k = k + 1;
    }
    assert(a@.take(a@.len() as int) =~= a@);
    assert(b@.take(b@.len() as int) =~= b@);
    true
}

} // verus!
