use vstd::prelude::*;
use vstd::string::StrSliceExecFns;

verus! {

// ---------------------------------------------------------------------------
// Whitespace
// ---------------------------------------------------------------------------

/// The Unicode `White_Space` code points; trimming removes exactly these from
/// the edges of an identifier.
pub open spec fn is_ws_char(c: char) -> bool {
    let u = c as u32;
    u == 0x09 || u == 0x0A || u == 0x0B || u == 0x0C || u == 0x0D || u == 0x20 || u == 0x85
        || u == 0xA0 || u == 0x1680 || (0x2000 <= u && u <= 0x200A) || u == 0x2028 || u == 0x2029
        || u == 0x202F || u == 0x205F || u == 0x3000
}

pub fn is_ws(c: char) -> (r: bool)
    ensures
        r == is_ws_char(c),
{
    let u = c as u32;
    u == 0x09 || u == 0x0A || u == 0x0B || u == 0x0C || u == 0x0D || u == 0x20 || u == 0x85
        || u == 0xA0 || u == 0x1680 || (0x2000 <= u && u <= 0x200A) || u == 0x2028 || u == 0x2029
        || u == 0x202F || u == 0x205F || u == 0x3000
}

/// Number of whitespace characters at the front of `s`.
pub open spec fn lead_ws(s: Seq<char>) -> int
    decreases s.len(),
{
    if s.len() == 0 || !is_ws_char(s[0]) {
        0
    } else {
        1 + lead_ws(s.drop_first())
    }
}

/// Index just past the last non-whitespace character of `s` (0 if all whitespace).
pub open spec fn trail_end(s: Seq<char>) -> int
    decreases s.len(),
{
    if s.len() == 0 || !is_ws_char(s[s.len() - 1]) {
        s.len() as int
    } else {
        trail_end(s.drop_last())
    }
}

/// `s` with leading and trailing whitespace removed.
pub open spec fn trim_spec(s: Seq<char>) -> Seq<char> {
    if lead_ws(s) <= trail_end(s) {
        s.subrange(lead_ws(s), trail_end(s))
    } else {
        Seq::empty()
    }
}

proof fn lemma_lead_ws_at(s: Seq<char>, n: int)
    requires
        0 <= n <= s.len(),
        forall|k: int| 0 <= k < n ==> is_ws_char(s[k]),
        n < s.len() ==> !is_ws_char(s[n]),
    ensures
        lead_ws(s) == n,
    decreases s.len(),
{
    if n == 0 {
    } else {
        assert(is_ws_char(s[0]));
        let t = s.drop_first();
        assert forall|k: int| 0 <= k < n - 1 implies is_ws_char(t[k]) by {
            assert(t[k] == s[k + 1]);
        }
        assert(n - 1 < t.len() ==> !is_ws_char(t[n - 1])) by {
            if n - 1 < t.len() {
                assert(t[n - 1] == s[n]);
            }
        }
        lemma_lead_ws_at(t, n - 1);
    }
}

proof fn lemma_trail_end_at(s: Seq<char>, m: int)
    requires
        0 <= m <= s.len(),
        forall|k: int| m <= k < s.len() ==> is_ws_char(s[k]),
        m > 0 ==> !is_ws_char(s[m - 1]),
    ensures
        trail_end(s) == m,
    decreases s.len(),
{
    if m == s.len() {
    } else {
        assert(is_ws_char(s[s.len() - 1]));
        let t = s.drop_last();
        assert forall|k: int| m <= k < t.len() implies is_ws_char(t[k]) by {
            assert(t[k] == s[k]);
        }
        lemma_trail_end_at(t, m);
    }
}

proof fn lemma_lead_le_nonws(s: Seq<char>, p: int)
    requires
        0 <= p < s.len(),
        !is_ws_char(s[p]),
    ensures
        lead_ws(s) <= p,
        trail_end(s) > p,
    decreases s.len(),
{
    if s.len() > 0 && is_ws_char(s[0]) {
        let t = s.drop_first();
        assert(t[p - 1] == s[p]);
        lemma_lead_le_nonws(t, p - 1);
        assert(trail_end(s) == if !is_ws_char(s[s.len() - 1]) {
            s.len() as int
        } else {
            trail_end(s.drop_last())
        });
    }
    if s.len() > 0 && is_ws_char(s[s.len() - 1]) {
        let u = s.drop_last();
        assert(u[p] == s[p]);
        lemma_lead_le_nonws(u, p);
        if !(s.len() > 0 && is_ws_char(s[0])) {
        }
    }
    if !is_ws_char(s[0]) && !is_ws_char(s[s.len() - 1]) {
        assert(lead_ws(s) == 0);
        assert(trail_end(s) == s.len());
    }
}

/// Law: trimming strips only leading and trailing whitespace, preserving the
/// interior content: the result is a contiguous slice of the input, and every
/// character dropped on either side is whitespace.
pub proof fn lemma_trim_strips_only_edges(s: Seq<char>)
    ensures
        exists|a: int, b: int|
            0 <= a <= b <= s.len() && trim_spec(s) == s.subrange(a, b) && (forall|k: int|
                0 <= k < a ==> is_ws_char(s[k])) && (forall|k: int|
                b <= k < s.len() ==> is_ws_char(s[k])),
{
    if exists|p: int| 0 <= p < s.len() && !is_ws_char(s[p]) {
        let p = choose|p: int| 0 <= p < s.len() && !is_ws_char(s[p]);
        lemma_lead_le_nonws(s, p);
        let a = lead_ws(s);
        let b = trail_end(s);
        lemma_lead_ws_bounds(s);
        lemma_trail_end_bounds(s);
        assert(0 <= a <= b <= s.len() && trim_spec(s) == s.subrange(a, b) && (forall|k: int|
            0 <= k < a ==> is_ws_char(s[k])) && (forall|k: int|
            b <= k < s.len() ==> is_ws_char(s[k])));
    } else {
        assert(forall|k: int| 0 <= k < s.len() ==> is_ws_char(s[k]));
        lemma_lead_ws_at(s, s.len() as int);
        lemma_trail_end_at(s, 0);
        if s.len() == 0 {
            assert(trim_spec(s) == s.subrange(0, 0));
            assert(0 <= 0 <= 0 <= s.len() && trim_spec(s) == s.subrange(0, 0) && (forall|k: int|
                0 <= k < 0 ==> is_ws_char(s[k])) && (forall|k: int|
                0 <= k < s.len() ==> is_ws_char(s[k])));
        } else {
            assert(lead_ws(s) > trail_end(s));
            assert(trim_spec(s) =~= s.subrange(0, 0));
            assert(0 <= 0 <= 0 <= s.len() && trim_spec(s) == s.subrange(0, 0) && (forall|k: int|
                0 <= k < 0 ==> is_ws_char(s[k])) && (forall|k: int|
                0 <= k < s.len() ==> is_ws_char(s[k])));
        }
    }
}

proof fn lemma_lead_ws_bounds(s: Seq<char>)
    ensures
        0 <= lead_ws(s) <= s.len(),
        forall|k: int| 0 <= k < lead_ws(s) ==> is_ws_char(s[k]),
    decreases s.len(),
{
    if s.len() == 0 || !is_ws_char(s[0]) {
    } else {
        let t = s.drop_first();
        lemma_lead_ws_bounds(t);
        assert forall|k: int| 0 <= k < lead_ws(s) implies is_ws_char(s[k]) by {
            if k > 0 {
                assert(t[k - 1] == s[k]);
                assert(is_ws_char(t[k - 1]));
            }
        }
    }
}

proof fn lemma_trail_end_bounds(s: Seq<char>)
    ensures
        0 <= trail_end(s) <= s.len(),
        forall|k: int| trail_end(s) <= k < s.len() ==> is_ws_char(s[k]),
    decreases s.len(),
{
    if s.len() == 0 || !is_ws_char(s[s.len() - 1]) {
    } else {
        let t = s.drop_last();
        lemma_trail_end_bounds(t);
        assert forall|k: int| trail_end(s) <= k < s.len() implies is_ws_char(s[k]) by {
            if k < s.len() - 1 {
                assert(t[k] == s[k]);
            }
        }
    }
}

/// Remove leading and trailing whitespace from `s`.
pub fn trim(s: &str) -> (r: String)
    ensures
        r@ == trim_spec(s@),
{
    let n: usize = s.unicode_len();
    let mut i: usize = 0;
    while i < n && is_ws(s.get_char(i))
        invariant
            0 <= i <= n,
            n == s@.len(),
            forall|k: int| 0 <= k < i ==> is_ws_char(s@[k]),
        decreases n - i,
    {
        i = i + 1;
    }
    let mut j: usize = n;
    while j > i && is_ws(s.get_char(j - 1))
        invariant
            i <= j <= n,
            n == s@.len(),
            forall|k: int| 0 <= k < i ==> is_ws_char(s@[k]),
            i < n ==> !is_ws_char(s@[i as int]),
            forall|k: int| j <= k < n ==> is_ws_char(s@[k]),
        decreases j,
    {
        j = j - 1;
    }
    proof {
        if i == n {
            lemma_lead_ws_at(s@, n as int);
            lemma_trail_end_at(s@, 0);
            if n > 0 {
                assert(lead_ws(s@) > trail_end(s@));
            }
        } else {
            lemma_lead_ws_at(s@, i as int);
            assert(j > i);
            assert(!is_ws_char(s@[j - 1]));
            lemma_trail_end_at(s@, j as int);
        }
    }
    let out = s.substring_char(i, j);
    let r = out.to_owned();
    proof {
        if i == n {
            assert(r@ =~= trim_spec(s@));
        }
    }
    r
}

// ---------------------------------------------------------------------------
// Case normalization
// ---------------------------------------------------------------------------

pub uninterp spec fn upper_of(s: Seq<char>) -> Seq<char>;

/// Relies on str::to_uppercase: the uppercase form of a string depends on its
/// characters alone; an empty string stays empty; and the mapping is
/// idempotent — the uppercase form is its own uppercase form.
#[verifier::external_body]
pub(crate) fn to_upper(s: &str) -> (r: String)
    ensures
        r@ == upper_of(s@),
        s@.len() == 0 ==> r@.len() == 0,
        upper_of(r@) == r@,
{
    s.to_uppercase()
}

// ---------------------------------------------------------------------------
// Single-character append
// ---------------------------------------------------------------------------

/// Relies on String::push: appends the given character to the end of the string.
#[verifier::external_body]
pub(crate) fn push_char(s: &mut String, c: char)
    ensures
        final (s)@ == old(s)@.push(c),
{
    s.push(c);
}

// ---------------------------------------------------------------------------
// Lexicographic order on character sequences
// ---------------------------------------------------------------------------

/// Code-point lexicographic "less or equal", the order in which requested
/// symbols are normalized before a fetch.
pub open spec fn lex_le(a: Seq<char>, b: Seq<char>) -> bool
    decreases a.len(),
{
    if a.len() == 0 {
        true
    } else if b.len() == 0 {
        false
    } else if (a[0] as u32) < (b[0] as u32) {
        true
    } else if (a[0] as u32) > (b[0] as u32) {
        false
    } else {
        lex_le(a.drop_first(), b.drop_first())
    }
}

pub open spec fn lex_lt(a: Seq<char>, b: Seq<char>) -> bool {
    lex_le(a, b) && a != b
}

pub proof fn lemma_lex_le_total(a: Seq<char>, b: Seq<char>)
    ensures
        lex_le(a, b) || lex_le(b, a),
        (lex_le(a, b) && lex_le(b, a)) ==> a == b,
    decreases a.len(),
{
    if a.len() == 0 {
        if b.len() == 0 {
            assert(a =~= b);
        }
    } else if b.len() == 0 {
    } else if (a[0] as u32) == (b[0] as u32) {
        lemma_lex_le_total(a.drop_first(), b.drop_first());
        if lex_le(a, b) && lex_le(b, a) {
            assert(lex_le(a.drop_first(), b.drop_first()));
            assert(lex_le(b.drop_first(), a.drop_first()));
            assert(a.drop_first() == b.drop_first());
            assert(a[0] == b[0]) by {
                vstd::utf8::char_u32_cast(a[0], (a[0] as u32));
                vstd::utf8::char_u32_cast(b[0], (b[0] as u32));
            }
            assert forall|k: int| 0 <= k < a.len() implies a[k] == b[k] by {
                if k > 0 {
                    assert(a[k] == a.drop_first()[k - 1]);
                    assert(b[k] == b.drop_first()[k - 1]);
                }
            }
            assert(a =~= b);
        }
    }
}

pub proof fn lemma_lex_le_trans(a: Seq<char>, b: Seq<char>, c: Seq<char>)
    requires
        lex_le(a, b),
        lex_le(b, c),
    ensures
        lex_le(a, c),
    decreases a.len(),
{
    if a.len() == 0 {
    } else {
        if b.len() == 0 {
        } else if c.len() == 0 {
        } else {
            if (a[0] as u32) == (b[0] as u32) && (b[0] as u32) == (c[0] as u32) {
                lemma_lex_le_trans(a.drop_first(), b.drop_first(), c.drop_first());
            }
        }
    }
}

pub proof fn lemma_lex_le_refl(a: Seq<char>)
    ensures
        lex_le(a, a),
    decreases a.len(),
{
    if a.len() > 0 {
        lemma_lex_le_refl(a.drop_first());
    }
}

pub proof fn lemma_lex_lt_trans(a: Seq<char>, b: Seq<char>, c: Seq<char>)
    requires
        lex_lt(a, b),
        lex_lt(b, c),
    ensures
        lex_lt(a, c),
{
    lemma_lex_le_trans(a, b, c);
    if a == c {
        lemma_lex_le_total(a, b);
    }
}

/// Compare two strings in code-point lexicographic order.
pub fn str_le(a: &str, b: &str) -> (r: bool)
    ensures
        r == lex_le(a@, b@),
{
    let na: usize = a.unicode_len();
    let nb: usize = b.unicode_len();
    let mut i: usize = 0;
    proof {
        assert(a@.skip(0) =~= a@);
        assert(b@.skip(0) =~= b@);
    }
    loop
        invariant
            0 <= i <= na,
            0 <= i <= nb,
            na == a@.len(),
            nb == b@.len(),
            lex_le(a@, b@) == lex_le(a@.skip(i as int), b@.skip(i as int)),
        decreases na - i,
    {
        if i >= na {
            assert(a@.skip(i as int).len() == 0);
            return true;
        }
        if i >= nb {
            assert(b@.skip(i as int).len() == 0);
            assert(a@.skip(i as int).len() > 0);
            return false;
        }
        let ca = a.get_char(i);
        let cb = b.get_char(i);
        assert(a@.skip(i as int)[0] == a@[i as int]);
        assert(b@.skip(i as int)[0] == b@[i as int]);
        if (ca as u32) < (cb as u32) {
            return true;
        }
        if (ca as u32) > (cb as u32) {
            return false;
        }
        proof {
            assert(a@.skip(i as int).drop_first() =~= a@.skip(i + 1));
            assert(b@.skip(i as int).drop_first() =~= b@.skip(i + 1));
        }
        i = i + 1;
    }
}

} // verus!
