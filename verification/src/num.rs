use vstd::prelude::*;
use vstd::string::StrSliceExecFns;

use crate::text::push_char;

verus! {

// ---------------------------------------------------------------------------
// Decimal digits
// ---------------------------------------------------------------------------

pub open spec fn is_digit(c: char) -> bool {
    48 <= (c as u32) && (c as u32) <= 57
}

pub open spec fn digit_val(c: char) -> int {
    (c as u32) - 48
}

pub open spec fn all_digits(s: Seq<char>) -> bool {
    forall|k: int| 0 <= k < s.len() ==> is_digit(s[k])
}

/// Numeric value of a digit string, most significant digit first.
pub open spec fn dec_val(s: Seq<char>) -> int
    decreases s.len(),
{
    if s.len() == 0 {
        0
    } else {
        dec_val(s.drop_last()) * 10 + digit_val(s.last())
    }
}

pub open spec fn digit_of(d: int) -> char {
    if d == 0 {
        '0'
    } else if d == 1 {
        '1'
    } else if d == 2 {
        '2'
    } else if d == 3 {
        '3'
    } else if d == 4 {
        '4'
    } else if d == 5 {
        '5'
    } else if d == 6 {
        '6'
    } else if d == 7 {
        '7'
    } else if d == 8 {
        '8'
    } else {
        '9'
    }
}

/// The digits of a decimal literal: the text with an optional leading '+'
/// removed.
pub open spec fn dec_body(s: Seq<char>) -> Seq<char> {
    if s.len() > 0 && s[0] == '+' {
        s.drop_first()
    } else {
        s
    }
}

/// What `str::parse::<u64>` accepts: an optional leading '+', then one or
/// more digits, denoting a value that fits in a u64.
pub open spec fn u64_from_dec(s: Seq<char>) -> Option<u64> {
    let b = dec_body(s);
    if b.len() > 0 && all_digits(b) && dec_val(b) <= u64::MAX {
        Some(dec_val(b) as u64)
    } else {
        None
    }
}

/// Canonical decimal text of `n`: no sign, no leading zeros.
pub open spec fn dec_of_u64(n: int) -> Seq<char>
    decreases n,
{
    if n < 10 {
        seq![digit_of(n)]
    } else {
        dec_of_u64(n / 10).push(digit_of(n % 10))
    }
}

pub proof fn lemma_dec_val_nonneg(s: Seq<char>)
    requires
        all_digits(s),
    ensures
        dec_val(s) >= 0,
    decreases s.len(),
{
    if s.len() > 0 {
        lemma_dec_val_nonneg(s.drop_last());
    }
}

proof fn lemma_dec_val_prefix_le(b: Seq<char>, k: int)
    requires
        all_digits(b),
        0 <= k <= b.len(),
    ensures
        dec_val(b.take(k)) <= dec_val(b),
    decreases b.len() - k,
{
    if k == b.len() {
        assert(b.take(k) =~= b);
    } else {
        let t = b.take(k + 1);
        assert(t.drop_last() =~= b.take(k));
        assert(t.last() == b[k]);
        assert(all_digits(b.take(k))) by {
            assert(forall|j: int| 0 <= j < k ==> b.take(k)[j] == b[j]);
        }
        lemma_dec_val_nonneg(b.take(k));
        assert(dec_val(t) == dec_val(b.take(k)) * 10 + digit_val(b[k]));
        assert(dec_val(b.take(k)) <= dec_val(t));
        lemma_dec_val_prefix_le(b, k + 1);
    }
}

/// A single decimal digit as a character.
pub fn digit_char(d: u64) -> (r: char)
    requires
        d < 10,
    ensures
        r == digit_of(d as int),
{
    if d == 0 {
        '0'
    } else if d == 1 {
        '1'
    } else if d == 2 {
        '2'
    } else if d == 3 {
        '3'
    } else if d == 4 {
        '4'
    } else if d == 5 {
        '5'
    } else if d == 6 {
        '6'
    } else if d == 7 {
        '7'
    } else if d == 8 {
        '8'
    } else {
        '9'
    }
}

/// Render `n` as its canonical decimal text.
pub fn u64_to_dec(n: u64) -> (r: String)
    ensures
        r@ == dec_of_u64(n as int),
    decreases n,
{
    if n < 10 {
        let mut s = String::new();
        push_char(&mut s, digit_char(n));
        proof {
            assert(s@ =~= dec_of_u64(n as int));
        }
        s
    } else {
        let mut s = u64_to_dec(n / 10);
        push_char(&mut s, digit_char(n % 10));
        s
    }
}

/// Parse decimal text as `str::parse::<u64>` would.
pub fn parse_u64(s: &str) -> (r: Option<u64>)
    ensures
        r == u64_from_dec(s@),
{
    let n: usize = s.unicode_len();
    let start: usize = if n > 0 && s.get_char(0) == '+' {
        1
    } else {
        0
    };
    let ghost b = dec_body(s@);
    proof {
        assert(b =~= s@.subrange(start as int, n as int));
    }
    if start >= n {
        return None;
    }
    let mut acc: u64 = 0;
    let mut i: usize = start;
    while i < n
        invariant
            start <= i <= n,
            n == s@.len(),
            start < n,
            b == dec_body(s@),
            b == s@.subrange(start as int, n as int),
            forall|k: int| 0 <= k < i - start ==> is_digit(b[k]),
            acc == dec_val(b.take(i - start)),
        decreases n - i,
    {
        let c = s.get_char(i);
        let u: u32 = c as u32;
        proof {
            assert(b[i - start] == s@[i as int]);
        }
        if !(48 <= u && u <= 57) {
            proof {
                assert(0 <= i - start < b.len());
                assert(!is_digit(b[i - start]));
                assert(!all_digits(b));
                assert(u64_from_dec(s@) is None);
            }
            return None;
        }
        let d: u64 = (u - 48) as u64;
        let ghost t = b.take(i - start + 1);
        proof {
            assert(t.drop_last() =~= b.take(i - start));
            assert(t.last() == b[i - start]);
            assert(dec_val(t) == acc * 10 + d);
        }
        let next: Option<u64> = match acc.checked_mul(10) {
            Some(x) => x.checked_add(d),
            None => None,
        };
        match next {
            Some(y) => {
                acc = y;
            },
            None => {
                proof {
                    assert(dec_val(t) > u64::MAX);
                    if all_digits(b) {
                        lemma_dec_val_prefix_le(b, i - start + 1);
                        assert(dec_val(b) > u64::MAX);
                    }
                    assert(u64_from_dec(s@) is None);
                }
                return None;
            },
        }
        i = i + 1;
    }
    proof {
        assert(b.take(n - start) =~= b);
        assert(all_digits(b));
    }
    Some(acc)
}

pub proof fn lemma_digit_of_val(c: char)
    requires
        is_digit(c),
    ensures
        digit_of(digit_val(c)) == c,
{
    let d = digit_val(c);
    assert((digit_of(d) as u32) == 48 + d);
    vstd::utf8::char_u32_cast(c, (c as u32));
    vstd::utf8::char_u32_cast(digit_of(d), (digit_of(d) as u32));
}

proof fn lemma_dec_val_pos(s: Seq<char>)
    requires
        all_digits(s),
        s.len() > 0,
        s[0] != '0',
    ensures
        dec_val(s) >= 1,
    decreases s.len(),
{
    if s.len() == 1 {
        assert(('0' as u32) == 48);
        vstd::utf8::char_u32_cast(s[0], (s[0] as u32));
        vstd::utf8::char_u32_cast('0', ('0' as u32));
        assert((s[0] as u32) != 48);
        assert(s.drop_last() =~= Seq::<char>::empty());
        assert(dec_val(Seq::<char>::empty()) == 0);
        assert(s.last() == s[0]);
        assert(dec_val(s) == digit_val(s[0]));
    } else {
        let t = s.drop_last();
        assert(t[0] == s[0]);
        lemma_dec_val_pos(t);
        lemma_dec_val_nonneg(s);
        assert(dec_val(s) == dec_val(t) * 10 + digit_val(s.last()));
    }
}

/// Law: the canonical decimal text is the only all-digit text without a
/// leading zero that denotes its value.
pub proof fn lemma_dec_canonical(t: Seq<char>)
    requires
        all_digits(t),
        t.len() > 0,
        t.len() > 1 ==> t[0] != '0',
        dec_val(t) <= u64::MAX,
    ensures
        dec_of_u64(dec_val(t)) == t,
    decreases t.len(),
{
    lemma_dec_val_nonneg(t);
    if t.len() == 1 {
        let d = digit_val(t[0]);
        assert(t.drop_last() =~= Seq::<char>::empty());
        assert(dec_val(Seq::<char>::empty()) == 0);
        assert(t.last() == t[0]);
        assert(dec_val(t) == d);
        assert(0 <= d <= 9);
        lemma_digit_of_val(t[0]);
        assert(dec_of_u64(d) =~= t);
    } else {
        let p = t.drop_last();
        let d = digit_val(t.last());
        assert(p[0] == t[0]);
        assert(all_digits(p));
        lemma_dec_val_pos(p);
        let v = dec_val(t);
        assert(v == dec_val(p) * 10 + d);
        assert(0 <= d < 10);
        assert(dec_val(p) * 10 >= 10);
        vstd::arithmetic::div_mod::lemma_fundamental_div_mod_converse(v, 10, dec_val(p), d);
        assert(dec_val(p) <= u64::MAX);
        lemma_dec_canonical(p);
        assert(dec_of_u64(v) == dec_of_u64(v / 10).push(digit_of(v % 10)));
        lemma_digit_of_val(t.last());
        assert(dec_of_u64(v) =~= t);
    }
}

/// Law: decimal rendering and parsing round-trip — parsing the canonical
/// decimal text of any u64 yields that value back.
pub proof fn lemma_u64_dec_roundtrip(n: u64)
    ensures
        u64_from_dec(dec_of_u64(n as int)) == Some(n),
{
    lemma_dec_of_u64_digits(n as int);
    let s = dec_of_u64(n as int);
    assert(s[0] != '+');
    assert(u64_from_dec(s) == Some(n));
}

pub proof fn lemma_dec_of_u64_digits(n: int)
    requires
        0 <= n,
    ensures
        dec_of_u64(n).len() > 0,
        all_digits(dec_of_u64(n)),
        dec_val(dec_of_u64(n)) == n,
        is_digit(dec_of_u64(n)[0]),
        dec_of_u64(n).len() > 1 ==> dec_of_u64(n)[0] != '0',
    decreases n,
{
    if n < 10 {
        let s = dec_of_u64(n);
        assert(s.len() == 1);
        assert(s[0] == digit_of(n));
        assert(('0' as u32) == 48);
        assert(is_digit(digit_of(n)));
        assert(s.drop_last() =~= Seq::<char>::empty());
        assert(dec_val(Seq::<char>::empty()) == 0);
        assert(s.last() == s[0]);
        assert(dec_val(s) == dec_val(s.drop_last()) * 10 + digit_val(s.last()));
        assert(digit_val(digit_of(n)) == n);
    } else {
        lemma_dec_of_u64_digits(n / 10);
        let p = dec_of_u64(n / 10);
        let s = dec_of_u64(n);
        assert(s == p.push(digit_of(n % 10)));
        assert(s.drop_last() =~= p);
        assert(s.last() == digit_of(n % 10));
        assert(digit_val(digit_of(n % 10)) == n % 10);
        assert(dec_val(s) == (n / 10) * 10 + n % 10);
        assert((n / 10) * 10 + n % 10 == n) by {
            vstd::arithmetic::div_mod::lemma_fundamental_div_mod(n, 10);
        }
        assert(all_digits(s)) by {
            assert(forall|k: int| 0 <= k < p.len() ==> s[k] == p[k]);
            assert(is_digit(s[s.len() - 1]));
        }
        assert(s[0] == p[0]);
        assert(p[0] != '0') by {
            if p.len() == 1 {
                if n / 10 >= 10 {
                    lemma_dec_of_u64_digits(n / 10 / 10);
                    assert(p.len() >= 2);
                }
                assert(n / 10 < 10);
                assert(n / 10 >= 1);
                assert(p[0] == digit_of(n / 10));
                assert((digit_of(n / 10) as u32) == 48 + n / 10);
                assert(('0' as u32) == 48);
                vstd::utf8::char_u32_cast(p[0], (p[0] as u32));
                vstd::utf8::char_u32_cast('0', ('0' as u32));
            }
        }
    }
}

} // verus!
