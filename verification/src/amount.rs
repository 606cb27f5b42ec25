use vstd::prelude::*;
use vstd::string::StrSliceExecFns;

use crate::num::is_digit;

verus! {

// ---------------------------------------------------------------------------
// The grammar of floating-point literals
// ---------------------------------------------------------------------------
//
// Monetary quantities (lot sizes, costs, price levels) are floating-point by
// design. The library carries them as their decimal text and checks that the
// text lies in the grammar that `f64::from_str` documents:
//
//   Float  ::= Sign? ( 'inf' | 'infinity' | 'nan' | Number )
//   Number ::= Count '.'? Exp? | Count? '.' Count Exp?
//   Exp    ::= ('e' | 'E') Sign? Count
//   Count  ::= Digit+
//
// with the three words matched case-insensitively. The numeric value itself
// is computed only by callers outside the library.

/// First index at or after `i` that does not hold a decimal digit.
pub open spec fn digits_end(s: Seq<char>, i: int) -> int
    decreases s.len() - i when 0 <= i <= s.len()
{
    if i < s.len() && is_digit(s[i]) {
        digits_end(s, i + 1)
    } else {
        i
    }
}

/// Where the mantissa (digits, optionally one dot) of `b` ends.
pub open spec fn mantissa_end(b: Seq<char>) -> int {
    let d1 = digits_end(b, 0);
    if d1 < b.len() && b[d1] == '.' {
        digits_end(b, d1 + 1)
    } else {
        d1
    }
}

/// Whether the mantissa of `b` holds at least one digit.
pub open spec fn mantissa_ok(b: Seq<char>) -> bool {
    let d1 = digits_end(b, 0);
    if d1 < b.len() && b[d1] == '.' {
        d1 > 0 || digits_end(b, d1 + 1) > d1 + 1
    } else {
        d1 > 0
    }
}

/// Whether `b` from position `m` to its end is an empty or well-formed
/// exponent part.
pub open spec fn exp_ok(b: Seq<char>, m: int) -> bool {
    if m == b.len() {
        true
    } else if 0 <= m < b.len() && (b[m] == 'e' || b[m] == 'E') {
        let e0 = if m + 1 < b.len() && (b[m + 1] == '+' || b[m + 1] == '-') {
            m + 2
        } else {
            m + 1
        };
        e0 < b.len() && digits_end(b, e0) == b.len()
    } else {
        false
    }
}

pub open spec fn is_number_text(b: Seq<char>) -> bool {
    mantissa_ok(b) && exp_ok(b, mantissa_end(b))
}

pub open spec fn is_inf_word(b: Seq<char>) -> bool {
    b.len() == 3 && (b[0] == 'i' || b[0] == 'I') && (b[1] == 'n' || b[1] == 'N') && (b[2] == 'f'
        || b[2] == 'F')
}

pub open spec fn is_infinity_word(b: Seq<char>) -> bool {
    b.len() == 8 && (b[0] == 'i' || b[0] == 'I') && (b[1] == 'n' || b[1] == 'N') && (b[2] == 'f'
        || b[2] == 'F') && (b[3] == 'i' || b[3] == 'I') && (b[4] == 'n' || b[4] == 'N') && (b[5]
        == 'i' || b[5] == 'I') && (b[6] == 't' || b[6] == 'T') && (b[7] == 'y' || b[7] == 'Y')
}

pub open spec fn is_nan_word(b: Seq<char>) -> bool {
    b.len() == 3 && (b[0] == 'n' || b[0] == 'N') && (b[1] == 'a' || b[1] == 'A') && (b[2] == 'n'
        || b[2] == 'N')
}

/// The text after an optional leading sign.
pub open spec fn float_body(s: Seq<char>) -> Seq<char> {
    if s.len() > 0 && (s[0] == '+' || s[0] == '-') {
        s.drop_first()
    } else {
        s
    }
}

/// Whether `s` is in the grammar that `f64::from_str` accepts.
pub open spec fn is_f64_text(s: Seq<char>) -> bool {
    let b = float_body(s);
    is_inf_word(b) || is_infinity_word(b) || is_nan_word(b) || is_number_text(b)
}

// ---------------------------------------------------------------------------
// Executable recognizer
// ---------------------------------------------------------------------------

pub proof fn lemma_digits_end_digits(s: Seq<char>, i: int)
    requires
        0 <= i <= s.len(),
    ensures
        i <= digits_end(s, i) <= s.len(),
        forall|k: int| i <= k < digits_end(s, i) ==> is_digit(s[k]),
    decreases s.len() - i,
{
    if i < s.len() && is_digit(s[i]) {
        lemma_digits_end_digits(s, i + 1);
    }
}

pub proof fn lemma_digits_end_at(s: Seq<char>, i: int, e: int)
    requires
        0 <= i <= e <= s.len(),
        forall|k: int| i <= k < e ==> is_digit(s[k]),
        e < s.len() ==> !is_digit(s[e]),
    ensures
        digits_end(s, i) == e,
    decreases e - i,
{
    if i == e {
    } else {
        assert(is_digit(s[i]));
        lemma_digits_end_at(s, i + 1, e);
    }
}

/// First index at or after `from` holding no decimal digit.
pub(crate) fn scan_digits(s: &str, from: usize) -> (r: usize)
    requires
        from <= s@.len(),
    ensures
        r == digits_end(s@, from as int),
        from <= r <= s@.len(),
{
    let n: usize = s.unicode_len();
    let mut i: usize = from;
    loop
        invariant
            from <= i <= n,
            n == s@.len(),
            digits_end(s@, from as int) == digits_end(s@, i as int),
        decreases n - i,
    {
        if i >= n {
            return i;
        }
        let c = s.get_char(i);
        let u: u32 = c as u32;
        if !(48 <= u && u <= 57) {
            assert(!is_digit(s@[i as int]));
            return i;
        }
        assert(is_digit(s@[i as int]));
        i = i + 1;
    }
}

fn is_number_str(b: &str) -> (r: bool)
    ensures
        r == is_number_text(b@),
{
    let n: usize = b.unicode_len();
    let d1: usize = scan_digits(b, 0);
    let mut m_end: usize = d1;
    let mut m_ok: bool = d1 > 0;
    if d1 < n {
        let c = b.get_char(d1);
        if c == '.' {
            let d2: usize = scan_digits(b, d1 + 1);
            m_end = d2;
            m_ok = d1 > 0 || d2 > d1 + 1;
        }
    }
    assert(m_end == mantissa_end(b@));
    assert(m_ok == mantissa_ok(b@));
    if !m_ok {
        return false;
    }
    if m_end == n {
        return true;
    }
    let c = b.get_char(m_end);
    if !(c == 'e' || c == 'E') {
        return false;
    }
    let mut e0: usize = m_end + 1;
    if m_end + 1 < n {
        let c2 = b.get_char(m_end + 1);
        if c2 == '+' || c2 == '-' {
            e0 = m_end + 2;
        }
    }
    if e0 >= n {
        return false;
    }
    let de: usize = scan_digits(b, e0);
    de == n
}

/// Whether `text` would parse as an `f64`.
pub fn is_f64_str(s: &str) -> (r: bool)
    ensures
        r == is_f64_text(s@),
{
    let n: usize = s.unicode_len();
    let mut start: usize = 0;
    if n > 0 {
        let c = s.get_char(0);
        if c == '+' || c == '-' {
            start = 1;
        }
    }
    let body = s.substring_char(start, n);
    proof {
        assert(body@ =~= float_body(s@));
    }
    let bn: usize = body.unicode_len();
    if bn == 3 {
        let c0 = body.get_char(0);
        let c1 = body.get_char(1);
        let c2 = body.get_char(2);
        if (c0 == 'i' || c0 == 'I') && (c1 == 'n' || c1 == 'N') && (c2 == 'f' || c2 == 'F') {
            return true;
        }
        if (c0 == 'n' || c0 == 'N') && (c1 == 'a' || c1 == 'A') && (c2 == 'n' || c2 == 'N') {
            return true;
        }
    }
    if bn == 8 {
        let c0 = body.get_char(0);
        let c1 = body.get_char(1);
        let c2 = body.get_char(2);
        let c3 = body.get_char(3);
        let c4 = body.get_char(4);
        let c5 = body.get_char(5);
        let c6 = body.get_char(6);
        let c7 = body.get_char(7);
        if (c0 == 'i' || c0 == 'I') && (c1 == 'n' || c1 == 'N') && (c2 == 'f' || c2 == 'F') && (c3
            == 'i' || c3 == 'I') && (c4 == 'n' || c4 == 'N') && (c5 == 'i' || c5 == 'I') && (c6
            == 't' || c6 == 'T') && (c7 == 'y' || c7 == 'Y') {
            return true;
        }
    }
    is_number_str(body)
}

// ---------------------------------------------------------------------------
// Amount
// ---------------------------------------------------------------------------

/// The decimal text of a rejected numeric field.
pub struct ParseError {
    pub text: String,
}

/// A monetary quantity: decimal text that `f64::from_str` accepts. The
/// library stores and compares the text; the numeric value is computed by
/// callers that may use floating point.
#[derive(Debug, Clone)]
pub struct Amount(String);

impl View for Amount {
    type V = Seq<char>;

    closed spec fn view(&self) -> Seq<char> {
        self.0@
    }
}

impl Amount {
    pub open spec fn wf(&self) -> bool {
        is_f64_text(self@)
    }

    /// Accept exactly the texts in the floating-point grammar.
    pub fn parse(text: &str) -> (r: Result<Amount, ParseError>)
        ensures
            r is Ok <==> is_f64_text(text@),
            r matches Ok(a) ==> a@ == text@ && a.wf(),
            r matches Err(e) ==> e.text@ == text@,
    {
        if is_f64_str(text) {
            Ok(Amount(text.to_owned()))
        } else {
            Err(ParseError { text: text.to_owned() })
        }
    }

    pub fn as_str(&self) -> (r: &str)
        ensures
            r@ == self@,
    {
        self.0.as_str()
    }

    pub fn duplicate(&self) -> (r: Amount)
        ensures
            r@ == self@,
            self.wf() ==> r.wf(),
    {
        Amount(self.0.clone())
    }
}

} // verus!
