use vstd::prelude::*;
use vstd::string::StrSliceExecFns;
use vstd::string::StringExecFns;

use crate::amount::{is_f64_text, Amount};
use crate::assets::{AssetHost, AssetSymbol};
use crate::data::{lot_texts_wf, stash_v_wf, Basis, Lot, LotV, Stash, StashV};
use crate::num::{all_digits, dec_of_u64, dec_val, is_digit, u64_to_dec};
use crate::text::push_char;
use crate::yf::{MarketPriceV, PriceList};

verus! {

// ---------------------------------------------------------------------------
// The persisted form
// ---------------------------------------------------------------------------
//
// The ledger persists as one JSON object: `max_lot_id`, and `lots` mapping
// each string-encoded id to its lot. Monetary quantities are JSON strings
// holding their decimal text; times are numbers of seconds since the Unix
// epoch. The encoder below defines the form exactly; the decoder accepts it.

/// A single hexadecimal digit, lower case.
pub open spec fn hex_digit(d: int) -> char {
    if d == 0 {
        '0'
    } else if d == 1 {
        '1'
    } else if d == 2 {
        '2'
    } else if d == 3 {
        '3'
    } else if d == 4 {
        '4'
    } else if d == 5 {
        '5'
    } else if d == 6 {
        '6'
    } else if d == 7 {
        '7'
    } else if d == 8 {
        '8'
    } else if d == 9 {
        '9'
    } else if d == 10 {
        'a'
    } else if d == 11 {
        'b'
    } else if d == 12 {
        'c'
    } else if d == 13 {
        'd'
    } else if d == 14 {
        'e'
    } else {
        'f'
    }
}

/// How one character appears inside a JSON string: quotes and backslashes
/// are escaped, control characters take the `\u00XX` form, everything else
/// stands as itself.
pub open spec fn esc_char(c: char) -> Seq<char> {
    if c == '"' {
        seq!['\\', '"']
    } else if c == '\\' {
        seq!['\\', '\\']
    } else if (c as u32) < 0x20 {
        seq!['\\', 'u', '0', '0', hex_digit((c as u32) as int / 16), hex_digit((c as u32) as int % 16)]
    } else {
        seq![c]
    }
}

/// A text with every character escaped.
pub open spec fn esc(s: Seq<char>) -> Seq<char>
    decreases s.len(),
{
    if s.len() == 0 {
        Seq::empty()
    } else {
        esc(s.drop_last()) + esc_char(s.last())
    }
}

/// A JSON string: the escaped text between quotes.
pub open spec fn enc_str(v: Seq<char>) -> Seq<char> {
    seq!['"'] + esc(v) + seq!['"']
}

/// One lot as a JSON object.
pub open spec fn enc_lot(l: LotV) -> Seq<char> {
    r#"{"asset":"#@ + enc_str(l.asset) + r#","size":"#@ + enc_str(l.size) + r#","basis":{"cost":"#@
        + enc_str(l.basis.cost) + r#","count":"#@ + enc_str(l.basis.count) + r#","time":"#@
        + dec_of_u64(l.basis.time as int) + r#","host":"#@ + enc_str(l.basis.host) + r#"},"host":"#@
        + enc_str(l.host) + seq!['}']
}

/// One ledger entry: the id as a JSON string key, then its lot.
pub open spec fn enc_entry(id: u64, l: LotV) -> Seq<char> {
    seq!['"'] + dec_of_u64(id as int) + seq!['"', ':'] + enc_lot(l)
}

/// The entries in ledger order, comma-separated.
pub open spec fn enc_entries(l: Seq<(u64, LotV)>) -> Seq<char>
    decreases l.len(),
{
    if l.len() == 0 {
        Seq::empty()
    } else if l.len() == 1 {
        enc_entry(l[0].0, l[0].1)
    } else {
        enc_entries(l.drop_last()) + seq![','] + enc_entry(l.last().0, l.last().1)
    }
}

/// The whole persisted ledger.
pub open spec fn spec_encode(sv: StashV) -> Seq<char> {
    r#"{"max_lot_id":"#@ + dec_of_u64(sv.max_lot_id as int) + r#","lots":{"#@ + enc_entries(
        sv.lots,
    ) + seq!['}', '}']
}

// ---------------------------------------------------------------------------
// Encoder
// ---------------------------------------------------------------------------

fn hex_char(d: u32) -> (r: char)
    requires
        d < 16,
    ensures
        r == hex_digit(d as int),
{
    if d == 0 {
        '0'
    } else if d == 1 {
        '1'
    } else if d == 2 {
        '2'
    } else if d == 3 {
        '3'
    } else if d == 4 {
        '4'
    } else if d == 5 {
        '5'
    } else if d == 6 {
        '6'
    } else if d == 7 {
        '7'
    } else if d == 8 {
        '8'
    } else if d == 9 {
        '9'
    } else if d == 10 {
        'a'
    } else if d == 11 {
        'b'
    } else if d == 12 {
        'c'
    } else if d == 13 {
        'd'
    } else if d == 14 {
        'e'
    } else {
        'f'
    }
}

/// Append one text as a JSON string, escaping as it goes.
fn emit_str(out: &mut String, v: &str)
    ensures
        final (out)@ == old(out)@ + enc_str(v@),
{
    push_char(out, '"');
    let n: usize = v.unicode_len();
    let mut i: usize = 0;
    proof {
        assert(esc(v@.take(0)) =~= Seq::<char>::empty());
        assert(out@ =~= old(out)@ + seq!['"'] + esc(v@.take(0)));
    }
    while i < n
        invariant
            0 <= i <= n,
            n == v@.len(),
            out@ == old(out)@ + seq!['"'] + esc(v@.take(i as int)),
        decreases n - i,
    {
        proof {
            assert(v@.take(i + 1).drop_last() =~= v@.take(i as int));
            assert(v@.take(i + 1).last() == v@[i as int]);
        }
        let c = v.get_char(i);
        let u: u32 = c as u32;
        if c == '"' {
            push_char(out, '\\');
            push_char(out, '"');
        } else if c == '\\' {
            push_char(out, '\\');
            push_char(out, '\\');
        } else if u < 0x20 {
            push_char(out, '\\');
            push_char(out, 'u');
            push_char(out, '0');
            push_char(out, '0');
            push_char(out, hex_char(u / 16));
            push_char(out, hex_char(u % 16));
        } else {
            push_char(out, c);
        }
        proof {
            assert(out@ =~= old(out)@ + seq!['"'] + esc(v@.take(i + 1)));
        }
        i = i + 1;
    }
    push_char(out, '"');
    proof {
        assert(v@.take(n as int) =~= v@);
        assert(out@ =~= old(out)@ + enc_str(v@));
    }
}

/// Append a number in canonical decimal form.
fn emit_u64(out: &mut String, v: u64)
    ensures
        final (out)@ == old(out)@ + dec_of_u64(v as int),
{
    let d = u64_to_dec(v);
    out.append(d.as_str());
}

/// Append one lot as a JSON object.
fn emit_lot(out: &mut String, lot: &crate::data::Lot)
    ensures
        final (out)@ == old(out)@ + enc_lot(lot@),
{
    out.append(r#"{"asset":"#);
    emit_str(out, lot.asset.as_str());
    out.append(r#","size":"#);
    emit_str(out, lot.size.as_str());
    out.append(r#","basis":{"cost":"#);
    emit_str(out, lot.basis.cost.as_str());
    out.append(r#","count":"#);
    emit_str(out, lot.basis.count.as_str());
    out.append(r#","time":"#);
    emit_u64(out, lot.basis.time);
    out.append(r#","host":"#);
    emit_str(out, lot.basis.host.as_str());
    out.append(r#"},"host":"#);
    emit_str(out, lot.host.as_str());
    push_char(out, '}');
    proof {
        assert(out@ =~= old(out)@ + enc_lot(lot@));
    }
}

/// One lot as JSON text, as it appears in the persisted form.
pub fn lot_json(lot: &Lot) -> (r: String)
    ensures
        r@ == enc_lot(lot@),
{
    let mut out = String::new();
    emit_lot(&mut out, lot);
    out
}

/// Serialize a ledger to its persisted form.
#[verifier::rlimit(100)]
#[verifier::spinoff_prover]
pub fn encode_stash(stash: &Stash) -> (r: String)
    ensures
        r@ == spec_encode(stash@),
{
    let mut out = String::new();
    out.append(r#"{"max_lot_id":"#);
    emit_u64(&mut out, stash.max_lot_id());
    out.append(r#","lots":{"#);
    let ghost header = out@;
    let lots = stash.lots();
    let n: usize = lots.len();
    let mut i: usize = 0;
    proof {
        assert(enc_entries(stash@.lots.take(0)) =~= Seq::<char>::empty());
        assert(out@ =~= header + enc_entries(stash@.lots.take(0)));
    }
    while i < n
        invariant
            0 <= i <= n,
            n == lots@.len(),
            Stash::pair_views(lots@) == stash@.lots,
            stash@.lots.len() == n,
            out@ == header + enc_entries(stash@.lots.take(i as int)),
        decreases n - i,
    {
        proof {
            assert(stash@.lots.take(i + 1).drop_last() =~= stash@.lots.take(i as int));
            assert(stash@.lots.take(i + 1).last() == stash@.lots[i as int]);
            assert(stash@.lots[i as int] == (lots@[i as int].0, lots@[i as int].1@));
        }
        if i > 0 {
            push_char(&mut out, ',');
        }
        push_char(&mut out, '"');
        emit_u64(&mut out, lots[i].0);
        push_char(&mut out, '"');
        push_char(&mut out, ':');
        emit_lot(&mut out, &lots[i].1);
        proof {
            assert(out@ =~= header + enc_entries(stash@.lots.take(i + 1)));
        }
        i = i + 1;
    }
    push_char(&mut out, '}');
    push_char(&mut out, '}');
    proof {
        assert(stash@.lots.take(n as int) =~= stash@.lots);
        assert(out@ =~= spec_encode(stash@));
    }
    out
}

// ---------------------------------------------------------------------------
// Decoder
// ---------------------------------------------------------------------------
//
// The decoder accepts exactly the canonical form the encoder writes: every
// `Some` it returns satisfies `spec_encode(result) == input`, so a stored
// ledger reads back as the one ledger with that persisted form.

proof fn lemma_subrange_split(s: Seq<char>, a: int, b: int, c: int)
    requires
        0 <= a <= b <= c <= s.len(),
    ensures
        s.subrange(a, c) == s.subrange(a, b) + s.subrange(b, c),
{
    assert(s.subrange(a, c) =~= s.subrange(a, b) + s.subrange(b, c));
}

/// Consume `lit` at `pos`: succeeds exactly when `lit` stands there.
fn expect_lit(s: &str, pos: usize, lit: &str) -> (r: Option<usize>)
    requires
        pos <= s@.len(),
    ensures
        r matches Some(p2) ==> pos <= p2 <= s@.len() && p2 == pos + lit@.len() && s@.subrange(
            pos as int,
            p2 as int,
        ) == lit@,
        r is None ==> !(pos + lit@.len() <= s@.len() && s@.subrange(
            pos as int,
            pos + lit@.len(),
        ) == lit@),
{
    let n: usize = s.unicode_len();
    let m: usize = lit.unicode_len();
    if n - pos < m {
        return None;
    }
    let mut k: usize = 0;
    while k < m
        invariant
            0 <= k <= m,
            m == lit@.len(),
            n == s@.len(),
            pos + m <= n,
            forall|t: int| 0 <= t < k ==> s@[pos + t] == lit@[t],
        decreases m - k,
    {
        if s.get_char(pos + k) != lit.get_char(k) {
            proof {
                if s@.subrange(pos as int, pos + lit@.len()) == lit@ {
                    assert(s@.subrange(pos as int, pos + lit@.len())[k as int] == s@[pos + k]);
                    assert(false);
                }
            }
            return None;
        }
        k = k + 1;
    }
    proof {
        assert(s@.subrange(pos as int, (pos + m) as int) =~= lit@);
    }
    Some(pos + m)
}

/// Whether the canonical decimal text of `v` stands at `pos`, delimited by
/// the end of the text or a non-digit.
pub open spec fn number_at(s: Seq<char>, pos: int, v: u64) -> bool {
    let d = dec_of_u64(v as int);
    pos + d.len() <= s.len() && s.subrange(pos, pos + d.len()) == d && (pos + d.len() == s.len()
        || !is_digit(s[pos + d.len()]))
}

/// Consume a canonical decimal number at `pos`: succeeds on exactly the
/// canonical texts, with their value.
fn parse_number(s: &str, pos: usize) -> (r: Option<(u64, usize)>)
    requires
        pos <= s@.len(),
    ensures
        r matches Some((v, p2)) ==> pos < p2 <= s@.len() && s@.subrange(pos as int, p2 as int)
            == dec_of_u64(v as int),
        forall|v: u64|
            #[trigger] number_at(s@, pos as int, v) ==> r == Some(
                (v, (pos + dec_of_u64(v as int).len()) as usize),
            ),
{
    let e: usize = crate::amount::scan_digits(s, pos);
    proof {
        crate::amount::lemma_digits_end_digits(s@, pos as int);
    }
    if e == pos {
        proof {
            assert forall|v: u64| #[trigger] number_at(s@, pos as int, v) implies false by {
                crate::num::lemma_dec_of_u64_digits(v as int);
                let d = dec_of_u64(v as int);
                assert(s@.subrange(pos as int, pos + d.len())[0] == s@[pos as int]);
                assert(is_digit(s@[pos as int]));
                assert(pos < s@.len());
                crate::amount::lemma_digits_end_digits(s@, pos + 1);
                assert(crate::amount::digits_end(s@, pos as int) >= pos + 1);
            }
        }
        return None;
    }
    if e > pos + 1 && s.get_char(pos) == '0' {
        proof {
            assert forall|v: u64| #[trigger] number_at(s@, pos as int, v) implies false by {
                crate::num::lemma_dec_of_u64_digits(v as int);
                let d = dec_of_u64(v as int);
                assert(s@.subrange(pos as int, pos + d.len())[0] == s@[pos as int]);
                assert(d[0] == '0');
                assert(d.len() == 1);
                assert(is_digit(s@[pos + 1]));
            }
        }
        return None;
    }
    let t = s.substring_char(pos, e);
    match crate::num::parse_u64(t) {
        Some(v) => {
            proof {
                let tv = t@;
                assert(tv =~= s@.subrange(pos as int, e as int));
                assert(all_digits(tv)) by {
                    assert(forall|k: int|
                        0 <= k < tv.len() ==> tv[k] == s@[pos + k] && is_digit(s@[pos + k]));
                }
                assert(tv[0] == s@[pos as int]);
                assert(is_digit(tv[0]));
                assert((tv[0] as u32) != 43);
                assert(tv[0] != '+') by {
                    assert(('+' as u32) == 43);
                    vstd::utf8::char_u32_cast(tv[0], (tv[0] as u32));
                    vstd::utf8::char_u32_cast('+', ('+' as u32));
                }
                assert(crate::num::dec_body(tv) == tv);
                crate::num::lemma_dec_val_nonneg(tv);
                assert(dec_val(tv) == v as int && dec_val(tv) <= u64::MAX);
                crate::num::lemma_dec_canonical(tv);
                assert forall|v0: u64| #[trigger] number_at(s@, pos as int, v0) implies Some((
                    v,
                    e,
                )) == Some::<(u64, usize)>(
                    (v0, (pos + dec_of_u64(v0 as int).len()) as usize),
                ) by {
                    crate::num::lemma_dec_of_u64_digits(v0 as int);
                    let d0 = dec_of_u64(v0 as int);
                    assert forall|k: int| pos <= k < pos + d0.len() implies is_digit(s@[k]) by {
                        assert(s@.subrange(pos as int, pos + d0.len())[k - pos] == s@[k]);
                        assert(d0[k - pos] == s@[k]);
                    }
                    crate::amount::lemma_digits_end_at(s@, pos as int, pos + d0.len());
                    assert(e == pos + d0.len());
                    assert(tv =~= d0);
                    assert(v as int == dec_val(d0));
                    assert(dec_val(d0) == v0 as int);
                }
            }
            Some((v, e))
        },
        None => {
            proof {
                let tv = t@;
                assert(tv =~= s@.subrange(pos as int, e as int));
                assert(all_digits(tv)) by {
                    assert(forall|k: int|
                        0 <= k < tv.len() ==> tv[k] == s@[pos + k] && is_digit(s@[pos + k]));
                }
                assert(tv[0] == s@[pos as int]);
                assert(is_digit(tv[0]));
                assert((tv[0] as u32) != 43);
                assert(tv[0] != '+') by {
                    assert(('+' as u32) == 43);
                    vstd::utf8::char_u32_cast(tv[0], (tv[0] as u32));
                    vstd::utf8::char_u32_cast('+', ('+' as u32));
                }
                assert(crate::num::dec_body(tv) == tv);
                assert(tv.len() > 0);
                assert(dec_val(tv) > u64::MAX);
                assert forall|v0: u64| #[trigger] number_at(s@, pos as int, v0) implies false by {
                    crate::num::lemma_dec_of_u64_digits(v0 as int);
                    let d0 = dec_of_u64(v0 as int);
                    assert forall|k: int| pos <= k < pos + d0.len() implies is_digit(s@[k]) by {
                        assert(s@.subrange(pos as int, pos + d0.len())[k - pos] == s@[k]);
                        assert(d0[k - pos] == s@[k]);
                    }
                    crate::amount::lemma_digits_end_at(s@, pos as int, pos + d0.len());
                    assert(e == pos + d0.len());
                    assert(tv =~= d0);
                    assert(dec_val(d0) == v0 as int);
                }
            }
            None
        },
    }
}

/// Relies on char::from_u32: every value below the surrogate range converts
/// to the character with that code point.
#[verifier::external_body]
fn char_of_u32(v: u32) -> (r: char)
    requires
        v < 0xD800,
    ensures
        (r as u32) == v,
{
    char::from_u32(v).unwrap()
}

/// The value of a lower-case hexadecimal digit.
fn hex_val(c: char) -> (r: Option<u32>)
    ensures
        r matches Some(v) ==> v < 16 && hex_digit(v as int) == c,
        r is None ==> forall|d: int| 0 <= d < 16 ==> c != hex_digit(d),
{
    if c == '0' {
        Some(0)
    } else if c == '1' {
        Some(1)
    } else if c == '2' {
        Some(2)
    } else if c == '3' {
        Some(3)
    } else if c == '4' {
        Some(4)
    } else if c == '5' {
        Some(5)
    } else if c == '6' {
        Some(6)
    } else if c == '7' {
        Some(7)
    } else if c == '8' {
        Some(8)
    } else if c == '9' {
        Some(9)
    } else if c == 'a' {
        Some(10)
    } else if c == 'b' {
        Some(11)
    } else if c == 'c' {
        Some(12)
    } else if c == 'd' {
        Some(13)
    } else if c == 'e' {
        Some(14)
    } else if c == 'f' {
        Some(15)
    } else {
        None
    }
}

proof fn lemma_string_progress(
    s: Seq<char>,
    pos: int,
    cur: int,
    acc: Seq<char>,
    v0: Seq<char>,
    t: Seq<char>,
)
    requires
        0 <= pos,
        pos + 1 <= cur <= s.len(),
        s[pos] == '"',
        s.subrange(pos + 1, cur) == esc(acc),
        s.subrange(pos, s.len() as int) == enc_str(v0) + t,
    ensures
        acc.len() <= v0.len(),
        acc == v0.take(acc.len() as int),
        s.subrange(cur, s.len() as int) == esc(v0.skip(acc.len() as int)) + (seq!['"'] + t),
        cur == pos + 1 + esc(acc).len(),
{
    let n = s.len() as int;
    assert(s.subrange(pos, n) =~= seq![s[pos]] + s.subrange(pos + 1, n));
    assert(enc_str(v0) + t =~= seq!['"'] + (esc(v0) + (seq!['"'] + t)));
    assert(seq![s[pos]] =~= seq!['"']);
    lemma_cancel_prefix(seq!['"'], s.subrange(pos + 1, n), esc(v0) + (seq!['"'] + t));
    assert(s.subrange(pos + 1, n) =~= s.subrange(pos + 1, cur) + s.subrange(cur, n));
    assert(esc(acc) + s.subrange(cur, n) == esc(v0) + (seq!['"'] + t));
    lemma_esc_align(acc, s.subrange(cur, n), v0, t);
}

/// Consume a JSON string at `pos`, undoing the encoder's escaping: succeeds
/// on exactly the texts the encoder writes, with the text they encode.
#[verifier::rlimit(100)]
#[verifier::spinoff_prover]
fn parse_string(s: &str, pos: usize) -> (r: Option<(String, usize)>)
    requires
        pos <= s@.len(),
    ensures
        r matches Some((v, p2)) ==> pos < p2 <= s@.len() && s@.subrange(pos as int, p2 as int)
            == enc_str(v@),
        forall|v0: Seq<char>, t: Seq<char>|
            s@.subrange(pos as int, s@.len() as int) == #[trigger] (enc_str(v0) + t) ==> (
            r matches Some(x) && x.0@ == v0 && x.1 == pos + enc_str(v0).len()),
{
    let n: usize = s.unicode_len();
    if pos >= n {
        proof {
            assert forall|v0: Seq<char>, t: Seq<char>|
                s@.subrange(pos as int, s@.len() as int) == #[trigger] (enc_str(v0)
                + t) implies false by {
                assert((enc_str(v0) + t).len() >= 2) by {
                    assert(enc_str(v0) =~= seq!['"'] + esc(v0) + seq!['"']);
                }
                assert(s@.subrange(pos as int, s@.len() as int).len() == 0);
            }
        }
        return None;
    }
    if s.get_char(pos) != '"' {
        proof {
            assert forall|v0: Seq<char>, t: Seq<char>|
                s@.subrange(pos as int, s@.len() as int) == #[trigger] (enc_str(v0)
                + t) implies false by {
                assert((enc_str(v0) + t)[0] == '"') by {
                    assert(enc_str(v0)[0] == '"');
                }
                assert(s@.subrange(pos as int, s@.len() as int)[0] == s@[pos as int]);
            }
        }
        return None;
    }
    let mut acc = String::new();
    let mut cur: usize = pos + 1;
    proof {
        assert(esc(acc@) =~= Seq::<char>::empty());
        assert(s@.subrange(pos + 1, cur as int) =~= esc(acc@));
    }
    loop
        invariant
            pos + 1 <= cur <= n,
            n == s@.len(),
            s@[pos as int] == '"',
            s@.subrange(pos + 1, cur as int) == esc(acc@),
        decreases n - cur,
    {
        if cur >= n {
            proof {
                assert forall|v0: Seq<char>, t: Seq<char>|
                    s@.subrange(pos as int, s@.len() as int) == #[trigger] (enc_str(v0)
                    + t) implies false by {
                    lemma_string_progress(s@, pos as int, cur as int, acc@, v0, t);
                    assert(s@.subrange(cur as int, s@.len() as int).len() == 0);
                    assert((esc(v0.skip(acc@.len() as int)) + (seq!['"'] + t)).len() >= 1);
                }
            }
            return None;
        }
        let c = s.get_char(cur);
        let u: u32 = c as u32;
        proof {
            assert(s@.subrange(cur as int, s@.len() as int)[0] == s@[cur as int]);
        }
        if c == '"' {
            let p2: usize = cur + 1;
            proof {
                assert(s@.subrange(pos as int, p2 as int) =~= enc_str(acc@));
                assert forall|v0: Seq<char>, t: Seq<char>|
                    s@.subrange(pos as int, s@.len() as int) == #[trigger] (enc_str(v0)
                    + t) implies acc@ == v0 && p2 == pos + enc_str(v0).len() by {
                    lemma_string_progress(s@, pos as int, cur as int, acc@, v0, t);
                    let k = acc@.len() as int;
                    if k < v0.len() {
                        lemma_esc_front(v0.skip(k));
                        lemma_esc_char_shape(v0.skip(k)[0]);
                        assert((esc(v0.skip(k)) + (seq!['"'] + t))[0] == esc_char(
                            v0.skip(k)[0],
                        )[0]);
                        assert(false);
                    }
                    assert(acc@ =~= v0);
                    assert(enc_str(v0).len() == esc(v0).len() + 2) by {
                        assert(enc_str(v0) =~= seq!['"'] + esc(v0) + seq!['"']);
                    }
                }
            }
            return Some((acc, p2));
        }
        if u < 0x20 {
            proof {
                assert forall|v0: Seq<char>, t: Seq<char>|
                    s@.subrange(pos as int, s@.len() as int) == #[trigger] (enc_str(v0)
                    + t) implies false by {
                    lemma_string_progress(s@, pos as int, cur as int, acc@, v0, t);
                    let k = acc@.len() as int;
                    if k < v0.len() {
                        lemma_esc_front(v0.skip(k));
                        lemma_esc_char_shape(v0.skip(k)[0]);
                        assert((esc(v0.skip(k)) + (seq!['"'] + t))[0] == esc_char(
                            v0.skip(k)[0],
                        )[0]);
                        assert(('\\' as u32) == 92);
                    } else {
                        assert((esc(v0.skip(k)) + (seq!['"'] + t))[0] == '"') by {
                            assert(esc(v0.skip(k)) =~= Seq::<char>::empty());
                        }
                        assert(('"' as u32) == 34);
                    }
                }
            }
            return None;
        }
        if c == '\\' {
            proof {
                assert forall|v0: Seq<char>, t: Seq<char>|
                    s@.subrange(pos as int, s@.len() as int) == #[trigger] (enc_str(v0)
                    + t) implies (acc@.len() < v0.len() && esc_char(v0[acc@.len() as int])[0]
                    == '\\' && s@.subrange(cur as int, s@.len() as int) == esc_char(
                    v0[acc@.len() as int],
                ) + (esc(v0.skip(acc@.len() as int + 1)) + (seq!['"'] + t))) by {
                    lemma_string_progress(s@, pos as int, cur as int, acc@, v0, t);
                    let k = acc@.len() as int;
                    if k >= v0.len() {
                        assert((esc(v0.skip(k)) + (seq!['"'] + t))[0] == '"') by {
                            assert(esc(v0.skip(k)) =~= Seq::<char>::empty());
                        }
                        assert(('"' as u32) == 34);
                        assert(('\\' as u32) == 92);
                        vstd::utf8::char_u32_cast('"', ('"' as u32));
                        vstd::utf8::char_u32_cast('\\', ('\\' as u32));
                        assert(false);
                    }
                    lemma_esc_front(v0.skip(k));
                    assert(v0.skip(k)[0] == v0[k]);
                    assert(v0.skip(k).drop_first() =~= v0.skip(k + 1));
                    assert(s@.subrange(cur as int, s@.len() as int) =~= esc_char(v0[k]) + (esc(
                        v0.skip(k + 1),
                    ) + (seq!['"'] + t)));
                    assert(esc_char(v0[k])[0] == (esc_char(v0[k]) + (esc(v0.skip(k + 1)) + (seq![
                        '"',
                    ] + t)))[0]);
                }
            }
            if n - cur < 2 {
                proof {
                    assert forall|v0: Seq<char>, t: Seq<char>|
                        s@.subrange(pos as int, s@.len() as int) == #[trigger] (enc_str(v0)
                        + t) implies false by {
                        let k = acc@.len() as int;
                        lemma_esc_char_shape(v0[k]);
                        assert(s@.subrange(cur as int, s@.len() as int).len() >= 2);
                    }
                }
                return None;
            }
            let c2 = s.get_char(cur + 1);
            proof {
                assert(s@.subrange(cur as int, s@.len() as int)[1] == s@[cur + 1]);
            }
            if c2 == '"' || c2 == '\\' {
                let ghost prev = acc@;
                push_char(&mut acc, c2);
                proof {
                    assert(acc@.drop_last() =~= prev);
                    assert(acc@.last() == c2);
                    assert(esc(acc@) == esc(prev) + esc_char(c2));
                    assert(s@.subrange(pos + 1, cur + 2) =~= esc(acc@));
                }
                cur = cur + 2;
            } else if c2 == 'u' {
                proof {
                    assert forall|v0: Seq<char>, t: Seq<char>|
                        s@.subrange(pos as int, s@.len() as int) == #[trigger] (enc_str(v0)
                        + t) implies ((v0[acc@.len() as int] as u32) < 0x20 && esc_char(
                        v0[acc@.len() as int],
                    ).len() == 6) by {
                        let k = acc@.len() as int;
                        let x = v0[k];
                        lemma_esc_char_shape(x);
                        if x == '"' || x == '\\' {
                            assert(esc_char(x)[1] == '"' || esc_char(x)[1] == '\\');
                            assert(s@.subrange(cur as int, s@.len() as int)[1] == esc_char(x)[1]);
                            assert(('u' as u32) == 117);
                            assert(('"' as u32) == 34);
                            assert(('\\' as u32) == 92);
                            vstd::utf8::char_u32_cast('u', ('u' as u32));
                            vstd::utf8::char_u32_cast('"', ('"' as u32));
                            vstd::utf8::char_u32_cast('\\', ('\\' as u32));
                            assert(false);
                        }
                    }
                }
                if n - cur < 6 {
                    proof {
                        assert forall|v0: Seq<char>, t: Seq<char>|
                            s@.subrange(pos as int, s@.len() as int) == #[trigger] (enc_str(v0)
                            + t) implies false by {
                            let k = acc@.len() as int;
                            assert(s@.subrange(cur as int, s@.len() as int).len() >= 6);
                        }
                    }
                    return None;
                }
                proof {
                    assert forall|v0: Seq<char>, t: Seq<char>|
                        s@.subrange(pos as int, s@.len() as int) == #[trigger] (enc_str(v0)
                        + t) implies (s@[cur + 2] == '0' && s@[cur + 3] == '0' && s@[cur + 4]
                        == hex_digit((v0[acc@.len() as int] as u32) as int / 16) && s@[cur + 5]
                        == hex_digit((v0[acc@.len() as int] as u32) as int % 16)) by {
                        let k = acc@.len() as int;
                        let x = v0[k];
                        assert(forall|i: int|
                            0 <= i < 6 ==> s@.subrange(cur as int, s@.len() as int)[i] == s@[cur
                                + i]);
                        assert(forall|i: int|
                            0 <= i < 6 ==> s@.subrange(cur as int, s@.len() as int)[i] == esc_char(
                                x,
                            )[i]);
                    }
                }
                if s.get_char(cur + 2) != '0' {
                    return None;
                }
                if s.get_char(cur + 3) != '0' {
                    return None;
                }
                let h1: u32 = match hex_val(s.get_char(cur + 4)) {
                    Some(v) => v,
                    None => {
                        proof {
                            assert forall|v0: Seq<char>, t: Seq<char>|
                                s@.subrange(pos as int, s@.len() as int) == #[trigger] (enc_str(
                                v0,
                            ) + t) implies false by {
                                let x = v0[acc@.len() as int];
                                assert(0 <= (x as u32) as int / 16 < 16);
                            }
                        }
                        return None;
                    },
                };
                let h2: u32 = match hex_val(s.get_char(cur + 5)) {
                    Some(v) => v,
                    None => {
                        proof {
                            assert forall|v0: Seq<char>, t: Seq<char>|
                                s@.subrange(pos as int, s@.len() as int) == #[trigger] (enc_str(
                                v0,
                            ) + t) implies false by {
                                let x = v0[acc@.len() as int];
                                assert(0 <= (x as u32) as int % 16 < 16);
                            }
                        }
                        return None;
                    },
                };
                let v32: u32 = h1 * 16 + h2;
                if !(v32 < 0x20) {
                    proof {
                        assert forall|v0: Seq<char>, t: Seq<char>|
                            s@.subrange(pos as int, s@.len() as int) == #[trigger] (enc_str(v0)
                            + t) implies false by {
                            let x = v0[acc@.len() as int];
                            lemma_hex_digit_injective(h1 as int, (x as u32) as int / 16);
                            lemma_hex_digit_injective(h2 as int, (x as u32) as int % 16);
                            vstd::arithmetic::div_mod::lemma_fundamental_div_mod(
                                (x as u32) as int,
                                16,
                            );
                        }
                    }
                    return None;
                }
                let ch = char_of_u32(v32);
                let ghost prev = acc@;
                push_char(&mut acc, ch);
                proof {
                    assert(acc@.drop_last() =~= prev);
                    assert(acc@.last() == ch);
                    vstd::arithmetic::div_mod::lemma_fundamental_div_mod_converse(
                        v32 as int,
                        16,
                        h1 as int,
                        h2 as int,
                    );
                    assert((ch as u32) == v32);
                    assert(esc_char(ch) =~= seq![
                        '\\',
                        'u',
                        '0',
                        '0',
                        hex_digit(h1 as int),
                        hex_digit(h2 as int),
                    ]);
                    assert(esc(acc@) == esc(prev) + esc_char(ch));
                    assert(s@.subrange(pos + 1, cur + 6) =~= esc(acc@));
                }
                cur = cur + 6;
            } else {
                proof {
                    assert forall|v0: Seq<char>, t: Seq<char>|
                        s@.subrange(pos as int, s@.len() as int) == #[trigger] (enc_str(v0)
                        + t) implies false by {
                        let k = acc@.len() as int;
                        let x = v0[k];
                        lemma_esc_char_shape(x);
                        assert(s@.subrange(cur as int, s@.len() as int)[1] == esc_char(x)[1]);
                        if esc_char(x).len() == 2 {
                            assert(esc_char(x)[1] == '"' || esc_char(x)[1] == '\\');
                        } else {
                            assert(esc_char(x)[1] == 'u');
                        }
                    }
                }
                return None;
            }
        } else {
            let ghost prev = acc@;
            push_char(&mut acc, c);
            proof {
                assert(acc@.drop_last() =~= prev);
                assert(acc@.last() == c);
                assert(esc_char(c) =~= seq![c]);
                assert(esc(acc@) == esc(prev) + esc_char(c));
                assert(s@.subrange(pos + 1, cur + 1) =~= esc(acc@));
            }
            cur = cur + 1;
        }
    }
}

/// The text that follows each successfully consumed piece of a lot object.
pub open spec fn lot_tail7(l: LotV, t: Seq<char>) -> Seq<char> {
    enc_str(l.host) + (seq!['}'] + t)
}

pub open spec fn lot_tail6(l: LotV, t: Seq<char>) -> Seq<char> {
    enc_str(l.basis.host) + (r#"},"host":"#@ + lot_tail7(l, t))
}

pub open spec fn lot_tail5(l: LotV, t: Seq<char>) -> Seq<char> {
    dec_of_u64(l.basis.time as int) + (r#","host":"#@ + lot_tail6(l, t))
}

pub open spec fn lot_tail4(l: LotV, t: Seq<char>) -> Seq<char> {
    enc_str(l.basis.count) + (r#","time":"#@ + lot_tail5(l, t))
}

pub open spec fn lot_tail3(l: LotV, t: Seq<char>) -> Seq<char> {
    enc_str(l.basis.cost) + (r#","count":"#@ + lot_tail4(l, t))
}

pub open spec fn lot_tail2(l: LotV, t: Seq<char>) -> Seq<char> {
    enc_str(l.size) + (r#","basis":{"cost":"#@ + lot_tail3(l, t))
}

pub open spec fn lot_tail1(l: LotV, t: Seq<char>) -> Seq<char> {
    enc_str(l.asset) + (r#","size":"#@ + lot_tail2(l, t))
}

proof fn lemma_lot_shape_named(l: LotV, t: Seq<char>)
    ensures
        enc_lot(l) + t == r#"{"asset":"#@ + lot_tail1(l, t),
{
    lemma_lot_shape(l, t);
}

proof fn lemma_consume(s: Seq<char>, a: int, b: int, y: Seq<char>, x: Seq<char>)
    requires
        0 <= a <= b <= s.len(),
        s.subrange(a, b) == y,
        s.subrange(a, s.len() as int) == y + x,
    ensures
        s.subrange(b, s.len() as int) == x,
{
    assert(s.subrange(a, s.len() as int) =~= s.subrange(a, b) + s.subrange(b, s.len() as int));
    lemma_cancel_prefix(y, s.subrange(b, s.len() as int), x);
}

proof fn lemma_starts_with(s: Seq<char>, a: int, y: Seq<char>, x: Seq<char>)
    requires
        0 <= a <= s.len(),
        s.subrange(a, s.len() as int) == y + x,
    ensures
        a + y.len() <= s.len(),
        s.subrange(a, a + y.len()) == y,
{
    assert((y + x).len() == y.len() + x.len());
    assert forall|i: int| 0 <= i < y.len() implies s.subrange(a, a + y.len())[i] == y[i] by {
        assert(s.subrange(a, s.len() as int)[i] == s[a + i]);
        assert(s.subrange(a, a + y.len())[i] == s[a + i]);
        assert((y + x)[i] == y[i]);
    }
    assert(s.subrange(a, a + y.len()) =~= y);
}

/// Consume the first half of a lot object at `pos`: the asset, size, cost
/// and count strings.
#[verifier::rlimit(100)]
#[verifier::spinoff_prover]
fn parse_lot_head(s: &str, pos: usize) -> (r: Option<(String, String, String, String, usize)>)
    requires
        pos <= s@.len(),
    ensures
        r matches Some(x) ==> pos <= x.4 <= s@.len() && s@.subrange(pos as int, x.4 as int)
            == r#"{"asset":"#@ + (enc_str(x.0@) + (r#","size":"#@ + (enc_str(x.1@) + (
        r#","basis":{"cost":"#@ + (enc_str(x.2@) + (r#","count":"#@ + enc_str(x.3@))))))),
        forall|l0: LotV, t: Seq<char>|
            (s@.subrange(pos as int, s@.len() as int) == #[trigger] (enc_lot(l0) + t)
                && lot_texts_wf(l0)) ==> (r matches Some(x) && x.0@ == l0.asset && x.1@ == l0.size
                && x.2@ == l0.basis.cost && x.3@ == l0.basis.count && s@.subrange(
                x.4 as int,
                s@.len() as int,
            ) == r#","time":"#@ + lot_tail5(l0, t)),
{
    let ghost n = s@.len() as int;
    proof {
        reveal_strlit(r#","host":"#);
    }
    let p1: usize = match expect_lit(s, pos, r#"{"asset":"#) {
        Some(p) => p,
        None => {
            proof {
                assert forall|l0: LotV, t: Seq<char>|
                    (s@.subrange(pos as int, n) == #[trigger] (enc_lot(l0) + t) && lot_texts_wf(
                        l0,
                    )) implies false by {
                    lemma_lot_shape_named(l0, t);
                    lemma_starts_with(s@, pos as int, r#"{"asset":"#@, lot_tail1(l0, t));
                }
            }
            return None;
        },
    };
    proof {
        assert forall|l0: LotV, t: Seq<char>|
            (s@.subrange(pos as int, n) == #[trigger] (enc_lot(l0) + t) && lot_texts_wf(
                l0,
            )) implies s@.subrange(p1 as int, n) == lot_tail1(l0, t) by {
            lemma_lot_shape_named(l0, t);
            lemma_consume(s@, pos as int, p1 as int, r#"{"asset":"#@, lot_tail1(l0, t));
        }
    }
    let (asset_s, p2): (String, usize) = match parse_string(s, p1) {
        Some(x) => x,
        None => {
            proof {
                assert forall|l0: LotV, t: Seq<char>|
                    (s@.subrange(pos as int, n) == #[trigger] (enc_lot(l0) + t) && lot_texts_wf(
                        l0,
                    )) implies false by {
                    assert(s@.subrange(p1 as int, n) == enc_str(l0.asset) + (r#","size":"#@
                        + lot_tail2(l0, t)));
                }
            }
            return None;
        },
    };
    proof {
        assert forall|l0: LotV, t: Seq<char>|
            (s@.subrange(pos as int, n) == #[trigger] (enc_lot(l0) + t) && lot_texts_wf(
                l0,
            )) implies asset_s@ == l0.asset && s@.subrange(p2 as int, n) == r#","size":"#@
            + lot_tail2(l0, t) by {
            assert(s@.subrange(p1 as int, n) == enc_str(l0.asset) + (r#","size":"#@ + lot_tail2(
                l0,
                t,
            )));
            lemma_consume(
                s@,
                p1 as int,
                p2 as int,
                enc_str(asset_s@),
                r#","size":"#@ + lot_tail2(l0, t),
            );
        }
    }
    let p3: usize = match expect_lit(s, p2, r#","size":"#) {
        Some(p) => p,
        None => {
            proof {
                assert forall|l0: LotV, t: Seq<char>|
                    (s@.subrange(pos as int, n) == #[trigger] (enc_lot(l0) + t) && lot_texts_wf(
                        l0,
                    )) implies false by {
                    lemma_starts_with(s@, p2 as int, r#","size":"#@, lot_tail2(l0, t));
                }
            }
            return None;
        },
    };
    proof {
        assert forall|l0: LotV, t: Seq<char>|
            (s@.subrange(pos as int, n) == #[trigger] (enc_lot(l0) + t) && lot_texts_wf(
                l0,
            )) implies s@.subrange(p3 as int, n) == lot_tail2(l0, t) by {
            lemma_consume(s@, p2 as int, p3 as int, r#","size":"#@, lot_tail2(l0, t));
        }
    }
    let (size_s, p4): (String, usize) = match parse_string(s, p3) {
        Some(x) => x,
        None => {
            proof {
                assert forall|l0: LotV, t: Seq<char>|
                    (s@.subrange(pos as int, n) == #[trigger] (enc_lot(l0) + t) && lot_texts_wf(
                        l0,
                    )) implies false by {
                    assert(s@.subrange(p3 as int, n) == enc_str(l0.size) + (r#","basis":{"cost":"#@
                        + lot_tail3(l0, t)));
                }
            }
            return None;
        },
    };
    proof {
        assert forall|l0: LotV, t: Seq<char>|
            (s@.subrange(pos as int, n) == #[trigger] (enc_lot(l0) + t) && lot_texts_wf(
                l0,
            )) implies size_s@ == l0.size && s@.subrange(p4 as int, n) == r#","basis":{"cost":"#@
            + lot_tail3(l0, t) by {
            assert(s@.subrange(p3 as int, n) == enc_str(l0.size) + (r#","basis":{"cost":"#@
                + lot_tail3(l0, t)));
            lemma_consume(
                s@,
                p3 as int,
                p4 as int,
                enc_str(size_s@),
                r#","basis":{"cost":"#@ + lot_tail3(l0, t),
            );
        }
    }
    let p5: usize = match expect_lit(s, p4, r#","basis":{"cost":"#) {
        Some(p) => p,
        None => {
            proof {
                assert forall|l0: LotV, t: Seq<char>|
                    (s@.subrange(pos as int, n) == #[trigger] (enc_lot(l0) + t) && lot_texts_wf(
                        l0,
                    )) implies false by {
                    lemma_starts_with(s@, p4 as int, r#","basis":{"cost":"#@, lot_tail3(l0, t));
                }
            }
            return None;
        },
    };
    proof {
        assert forall|l0: LotV, t: Seq<char>|
            (s@.subrange(pos as int, n) == #[trigger] (enc_lot(l0) + t) && lot_texts_wf(
                l0,
            )) implies s@.subrange(p5 as int, n) == lot_tail3(l0, t) by {
            lemma_consume(s@, p4 as int, p5 as int, r#","basis":{"cost":"#@, lot_tail3(l0, t));
        }
    }
    let (cost_s, p6): (String, usize) = match parse_string(s, p5) {
        Some(x) => x,
        None => {
            proof {
                assert forall|l0: LotV, t: Seq<char>|
                    (s@.subrange(pos as int, n) == #[trigger] (enc_lot(l0) + t) && lot_texts_wf(
                        l0,
                    )) implies false by {
                    assert(s@.subrange(p5 as int, n) == enc_str(l0.basis.cost) + (r#","count":"#@
                        + lot_tail4(l0, t)));
                }
            }
            return None;
        },
    };
    proof {
        assert forall|l0: LotV, t: Seq<char>|
            (s@.subrange(pos as int, n) == #[trigger] (enc_lot(l0) + t) && lot_texts_wf(
                l0,
            )) implies cost_s@ == l0.basis.cost && s@.subrange(p6 as int, n) == r#","count":"#@
            + lot_tail4(l0, t) by {
            assert(s@.subrange(p5 as int, n) == enc_str(l0.basis.cost) + (r#","count":"#@
                + lot_tail4(l0, t)));
            lemma_consume(
                s@,
                p5 as int,
                p6 as int,
                enc_str(cost_s@),
                r#","count":"#@ + lot_tail4(l0, t),
            );
        }
    }
    let p7: usize = match expect_lit(s, p6, r#","count":"#) {
        Some(p) => p,
        None => {
            proof {
                assert forall|l0: LotV, t: Seq<char>|
                    (s@.subrange(pos as int, n) == #[trigger] (enc_lot(l0) + t) && lot_texts_wf(
                        l0,
                    )) implies false by {
                    lemma_starts_with(s@, p6 as int, r#","count":"#@, lot_tail4(l0, t));
                }
            }
            return None;
        },
    };
    proof {
        assert forall|l0: LotV, t: Seq<char>|
            (s@.subrange(pos as int, n) == #[trigger] (enc_lot(l0) + t) && lot_texts_wf(
                l0,
            )) implies s@.subrange(p7 as int, n) == lot_tail4(l0, t) by {
            lemma_consume(s@, p6 as int, p7 as int, r#","count":"#@, lot_tail4(l0, t));
        }
    }
    let (count_s, p8): (String, usize) = match parse_string(s, p7) {
        Some(x) => x,
        None => {
            proof {
                assert forall|l0: LotV, t: Seq<char>|
                    (s@.subrange(pos as int, n) == #[trigger] (enc_lot(l0) + t) && lot_texts_wf(
                        l0,
                    )) implies false by {
                    assert(s@.subrange(p7 as int, n) == enc_str(l0.basis.count) + (r#","time":"#@
                        + lot_tail5(l0, t)));
                }
            }
            return None;
        },
    };
    proof {
        assert forall|l0: LotV, t: Seq<char>|
            (s@.subrange(pos as int, n) == #[trigger] (enc_lot(l0) + t) && lot_texts_wf(
                l0,
            )) implies count_s@ == l0.basis.count && s@.subrange(p8 as int, n) == r#","time":"#@
            + lot_tail5(l0, t) by {
            assert(s@.subrange(p7 as int, n) == enc_str(l0.basis.count) + (r#","time":"#@
                + lot_tail5(l0, t)));
            lemma_consume(
                s@,
                p7 as int,
                p8 as int,
                enc_str(count_s@),
                r#","time":"#@ + lot_tail5(l0, t),
            );
        }
    }
    proof {
        lemma_subrange_split(s@, pos as int, p1 as int, p2 as int);
        lemma_subrange_split(s@, pos as int, p2 as int, p3 as int);
        lemma_subrange_split(s@, pos as int, p3 as int, p4 as int);
        lemma_subrange_split(s@, pos as int, p4 as int, p5 as int);
        lemma_subrange_split(s@, pos as int, p5 as int, p6 as int);
        lemma_subrange_split(s@, pos as int, p6 as int, p7 as int);
        lemma_subrange_split(s@, pos as int, p7 as int, p8 as int);
        assert(s@.subrange(pos as int, p8 as int) =~= r#"{"asset":"#@ + (enc_str(asset_s@) + (
        r#","size":"#@ + (enc_str(size_s@) + (r#","basis":{"cost":"#@ + (enc_str(cost_s@) + (
        r#","count":"#@ + enc_str(count_s@))))))));
    }
    Some((asset_s, size_s, cost_s, count_s, p8))
}

/// Consume the second half of a lot object: the time, the two hosts and the
/// closing brace.
#[verifier::rlimit(100)]
#[verifier::spinoff_prover]
fn parse_lot_tail(s: &str, p8: usize) -> (r: Option<(u64, String, String, usize)>)
    requires
        p8 <= s@.len(),
    ensures
        r matches Some(x) ==> p8 < x.3 <= s@.len() && s@.subrange(p8 as int, x.3 as int)
            == r#","time":"#@ + (dec_of_u64(x.0 as int) + (r#","host":"#@ + (enc_str(x.1@) + (
        r#"},"host":"#@ + (enc_str(x.2@) + seq!['}']))))),
        forall|l0: LotV, t: Seq<char>|
            s@.subrange(p8 as int, s@.len() as int) == #[trigger] (r#","time":"#@ + lot_tail5(
                l0,
                t,
            )) ==> (r matches Some(x) && x.0 == l0.basis.time && x.1@ == l0.basis.host && x.2@
                == l0.host && s@.subrange(x.3 as int, s@.len() as int) == t),
{
    let ghost n = s@.len() as int;
    proof {
        reveal_strlit(r#","host":"#);
    }
    let p9: usize = match expect_lit(s, p8, r#","time":"#) {
        Some(p) => p,
        None => {
            proof {
                assert forall|l0: LotV, t: Seq<char>|
                    s@.subrange(p8 as int, n) == #[trigger] (r#","time":"#@ + lot_tail5(
                        l0,
                        t,
                    )) implies false by {
                    lemma_starts_with(s@, p8 as int, r#","time":"#@, lot_tail5(l0, t));
                }
            }
            return None;
        },
    };
    proof {
        assert forall|l0: LotV, t: Seq<char>|
            s@.subrange(p8 as int, n) == #[trigger] (r#","time":"#@ + lot_tail5(
                l0,
                t,
            )) implies s@.subrange(p9 as int, n) == lot_tail5(l0, t) && number_at(
            s@,
            p9 as int,
            l0.basis.time,
        ) by {
            lemma_consume(s@, p8 as int, p9 as int, r#","time":"#@, lot_tail5(l0, t));
            let d = dec_of_u64(l0.basis.time as int);
            lemma_starts_with(s@, p9 as int, d, r#","host":"#@ + lot_tail6(l0, t));
            assert(s@[p9 + d.len()] == (d + (r#","host":"#@ + lot_tail6(l0, t)))[d.len() as int]);
            assert((r#","host":"#@ + lot_tail6(l0, t))[0] == ',');
            assert((',' as u32) == 44);
        }
    }
    let (time, p10): (u64, usize) = match parse_number(s, p9) {
        Some(x) => x,
        None => {
            proof {
                assert forall|l0: LotV, t: Seq<char>|
                    s@.subrange(p8 as int, n) == #[trigger] (r#","time":"#@ + lot_tail5(
                        l0,
                        t,
                    )) implies false by {
                    assert(number_at(s@, p9 as int, l0.basis.time));
                }
            }
            return None;
        },
    };
    proof {
        assert forall|l0: LotV, t: Seq<char>|
            s@.subrange(p8 as int, n) == #[trigger] (r#","time":"#@ + lot_tail5(
                l0,
                t,
            )) implies time == l0.basis.time && s@.subrange(p10 as int, n) == r#","host":"#@
            + lot_tail6(l0, t) by {
            assert(number_at(s@, p9 as int, l0.basis.time));
            assert(time == l0.basis.time);
            lemma_consume(
                s@,
                p9 as int,
                p10 as int,
                dec_of_u64(time as int),
                r#","host":"#@ + lot_tail6(l0, t),
            );
        }
    }
    let p11: usize = match expect_lit(s, p10, r#","host":"#) {
        Some(p) => p,
        None => {
            proof {
                assert forall|l0: LotV, t: Seq<char>|
                    s@.subrange(p8 as int, n) == #[trigger] (r#","time":"#@ + lot_tail5(
                        l0,
                        t,
                    )) implies false by {
                    lemma_starts_with(s@, p10 as int, r#","host":"#@, lot_tail6(l0, t));
                }
            }
            return None;
        },
    };
    proof {
        assert forall|l0: LotV, t: Seq<char>|
            s@.subrange(p8 as int, n) == #[trigger] (r#","time":"#@ + lot_tail5(
                l0,
                t,
            )) implies s@.subrange(p11 as int, n) == lot_tail6(l0, t) by {
            lemma_consume(s@, p10 as int, p11 as int, r#","host":"#@, lot_tail6(l0, t));
        }
    }
    let (bhost_s, p12): (String, usize) = match parse_string(s, p11) {
        Some(x) => x,
        None => {
            proof {
                assert forall|l0: LotV, t: Seq<char>|
                    s@.subrange(p8 as int, n) == #[trigger] (r#","time":"#@ + lot_tail5(
                        l0,
                        t,
                    )) implies false by {
                    assert(s@.subrange(p11 as int, n) == enc_str(l0.basis.host) + (r#"},"host":"#@
                        + lot_tail7(l0, t)));
                }
            }
            return None;
        },
    };
    proof {
        assert forall|l0: LotV, t: Seq<char>|
            s@.subrange(p8 as int, n) == #[trigger] (r#","time":"#@ + lot_tail5(
                l0,
                t,
            )) implies bhost_s@ == l0.basis.host && s@.subrange(p12 as int, n) == r#"},"host":"#@
            + lot_tail7(l0, t) by {
            assert(s@.subrange(p11 as int, n) == enc_str(l0.basis.host) + (r#"},"host":"#@
                + lot_tail7(l0, t)));
            lemma_consume(
                s@,
                p11 as int,
                p12 as int,
                enc_str(bhost_s@),
                r#"},"host":"#@ + lot_tail7(l0, t),
            );
        }
    }
    let p13: usize = match expect_lit(s, p12, r#"},"host":"#) {
        Some(p) => p,
        None => {
            proof {
                assert forall|l0: LotV, t: Seq<char>|
                    s@.subrange(p8 as int, n) == #[trigger] (r#","time":"#@ + lot_tail5(
                        l0,
                        t,
                    )) implies false by {
                    lemma_starts_with(s@, p12 as int, r#"},"host":"#@, lot_tail7(l0, t));
                }
            }
            return None;
        },
    };
    proof {
        assert forall|l0: LotV, t: Seq<char>|
            s@.subrange(p8 as int, n) == #[trigger] (r#","time":"#@ + lot_tail5(
                l0,
                t,
            )) implies s@.subrange(p13 as int, n) == lot_tail7(l0, t) by {
            lemma_consume(s@, p12 as int, p13 as int, r#"},"host":"#@, lot_tail7(l0, t));
        }
    }
    let (host_s, p14): (String, usize) = match parse_string(s, p13) {
        Some(x) => x,
        None => {
            proof {
                assert forall|l0: LotV, t: Seq<char>|
                    s@.subrange(p8 as int, n) == #[trigger] (r#","time":"#@ + lot_tail5(
                        l0,
                        t,
                    )) implies false by {
                    assert(s@.subrange(p13 as int, n) == enc_str(l0.host) + (seq!['}'] + t));
                }
            }
            return None;
        },
    };
    proof {
        assert forall|l0: LotV, t: Seq<char>|
            s@.subrange(p8 as int, n) == #[trigger] (r#","time":"#@ + lot_tail5(
                l0,
                t,
            )) implies host_s@ == l0.host && s@.subrange(p14 as int, n) == seq!['}'] + t by {
            assert(s@.subrange(p13 as int, n) == enc_str(l0.host) + (seq!['}'] + t));
            lemma_consume(s@, p13 as int, p14 as int, enc_str(host_s@), seq!['}'] + t);
        }
    }
    if p14 >= s.unicode_len() {
        proof {
            assert forall|l0: LotV, t: Seq<char>|
                s@.subrange(p8 as int, n) == #[trigger] (r#","time":"#@ + lot_tail5(
                    l0,
                    t,
                )) implies false by {
                assert(s@.subrange(p14 as int, n).len() >= 1);
            }
        }
        return None;
    }
    if s.get_char(p14) != '}' {
        proof {
            assert forall|l0: LotV, t: Seq<char>|
                s@.subrange(p8 as int, n) == #[trigger] (r#","time":"#@ + lot_tail5(
                    l0,
                    t,
                )) implies false by {
                assert(s@.subrange(p14 as int, n)[0] == s@[p14 as int]);
            }
        }
        return None;
    }
    let p15: usize = p14 + 1;
    proof {
        lemma_subrange_split(s@, p8 as int, p9 as int, p10 as int);
        lemma_subrange_split(s@, p8 as int, p10 as int, p11 as int);
        lemma_subrange_split(s@, p8 as int, p11 as int, p12 as int);
        lemma_subrange_split(s@, p8 as int, p12 as int, p13 as int);
        lemma_subrange_split(s@, p8 as int, p13 as int, p14 as int);
        lemma_subrange_split(s@, p8 as int, p14 as int, p15 as int);
        assert(s@.subrange(p14 as int, p15 as int) =~= seq!['}']);
        assert(s@.subrange(p8 as int, p15 as int) =~= r#","time":"#@ + (dec_of_u64(time as int) + (
        r#","host":"#@ + (enc_str(bhost_s@) + (r#"},"host":"#@ + (enc_str(host_s@)
            + seq!['}']))))));
        assert forall|l0: LotV, t: Seq<char>|
            s@.subrange(p8 as int, n) == #[trigger] (r#","time":"#@ + lot_tail5(
                l0,
                t,
            )) implies s@.subrange(p15 as int, n) == t by {
            lemma_consume(s@, p14 as int, p15 as int, seq!['}'], t);
        }
    }
    Some((time, bhost_s, host_s, p15))
}

#[verifier::rlimit(100)]
#[verifier::spinoff_prover]
proof fn lemma_lot_assembly(s: Seq<char>, pos: int, p8: int, p15: int, lot: LotV)
    requires
        0 <= pos <= p8 <= p15 <= s.len(),
        s.subrange(pos, p8) == r#"{"asset":"#@ + (enc_str(lot.asset) + (r#","size":"#@ + (enc_str(
            lot.size,
        ) + (r#","basis":{"cost":"#@ + (enc_str(lot.basis.cost) + (r#","count":"#@ + enc_str(
            lot.basis.count,
        ))))))),
        s.subrange(p8, p15) == r#","time":"#@ + (dec_of_u64(lot.basis.time as int) + (
        r#","host":"#@ + (enc_str(lot.basis.host) + (r#"},"host":"#@ + (enc_str(lot.host) + seq![
            '}',
        ]))))),
    ensures
        s.subrange(pos, p15) == enc_lot(lot),
{
    lemma_subrange_split(s, pos, p8, p15);
    assert(s.subrange(pos, p15) =~= enc_lot(lot));
}

#[verifier::rlimit(100)]
#[verifier::spinoff_prover]
proof fn lemma_lot_complete(s: Seq<char>, pos: int, p15: int, lot: LotV)
    requires
        0 <= pos <= p15 <= s.len(),
        s.subrange(pos, p15) == enc_lot(lot),
    ensures
        forall|l0: LotV, t: Seq<char>|
            (s.subrange(pos, s.len() as int) == #[trigger] (enc_lot(l0) + t) && lot_texts_wf(
                l0,
            )) ==> lot == l0 && p15 == pos + enc_lot(l0).len(),
{
    assert forall|l0: LotV, t: Seq<char>|
        (s.subrange(pos, s.len() as int) == #[trigger] (enc_lot(l0) + t) && lot_texts_wf(
            l0,
        )) implies lot == l0 && p15 == pos + enc_lot(l0).len() by {
        lemma_subrange_split(s, pos, p15, s.len() as int);
        assert(enc_lot(lot) + s.subrange(p15, s.len() as int) == enc_lot(l0) + t);
        lemma_token_lot(lot, s.subrange(p15, s.len() as int), l0, t);
    }
}

/// Consume one lot object at `pos`: succeeds on exactly the texts the
/// encoder writes for lots with well-formed monetary texts.
#[verifier::rlimit(100)]
#[verifier::spinoff_prover]
fn parse_lot(s: &str, pos: usize) -> (r: Option<(Lot, usize)>)
    requires
        pos <= s@.len(),
    ensures
        r matches Some((lot, p2)) ==> pos < p2 <= s@.len() && s@.subrange(pos as int, p2 as int)
            == enc_lot(lot@) && lot_texts_wf(lot@),
        forall|l0: LotV, t: Seq<char>|
            (s@.subrange(pos as int, s@.len() as int) == #[trigger] (enc_lot(l0) + t)
                && lot_texts_wf(l0)) ==> (r matches Some(x) && x.0@ == l0 && x.1 == pos + enc_lot(
                l0,
            ).len()),
{
    let ghost n = s@.len() as int;
    let (asset_s, size_s, cost_s, count_s, p8): (String, String, String, String, usize) =
        match parse_lot_head(s, pos) {
        Some(x) => x,
        None => {
            return None;
        },
    };
    let (time, bhost_s, host_s, p15): (u64, String, String, usize) = match parse_lot_tail(
        s,
        p8,
    ) {
        Some(x) => x,
        None => {
            proof {
                assert forall|l0: LotV, t: Seq<char>|
                    (s@.subrange(pos as int, n) == #[trigger] (enc_lot(l0) + t) && lot_texts_wf(
                        l0,
                    )) implies false by {
                    assert(s@.subrange(p8 as int, n) == r#","time":"#@ + lot_tail5(l0, t));
                }
            }
            return None;
        },
    };
    let size = match Amount::parse(size_s.as_str()) {
        Ok(a) => a,
        Err(_) => {
            proof {
                assert forall|l0: LotV, t: Seq<char>|
                    (s@.subrange(pos as int, n) == #[trigger] (enc_lot(l0) + t) && lot_texts_wf(
                        l0,
                    )) implies false by {
                    assert(size_s@ == l0.size && is_f64_text(l0.size));
                }
            }
            return None;
        },
    };
    let cost = match Amount::parse(cost_s.as_str()) {
        Ok(a) => a,
        Err(_) => {
            proof {
                assert forall|l0: LotV, t: Seq<char>|
                    (s@.subrange(pos as int, n) == #[trigger] (enc_lot(l0) + t) && lot_texts_wf(
                        l0,
                    )) implies false by {
                    assert(cost_s@ == l0.basis.cost && is_f64_text(l0.basis.cost));
                }
            }
            return None;
        },
    };
    let count = match Amount::parse(count_s.as_str()) {
        Ok(a) => a,
        Err(_) => {
            proof {
                assert forall|l0: LotV, t: Seq<char>|
                    (s@.subrange(pos as int, n) == #[trigger] (enc_lot(l0) + t) && lot_texts_wf(
                        l0,
                    )) implies false by {
                    assert(count_s@ == l0.basis.count && is_f64_text(l0.basis.count));
                }
            }
            return None;
        },
    };
    let lot = Lot {
        asset: AssetSymbol::from_raw(asset_s),
        size,
        basis: Basis { cost, count, time, host: AssetHost::from_raw(bhost_s) },
        host: AssetHost::from_raw(host_s),
    };
    proof {
        lemma_lot_assembly(s@, pos as int, p8 as int, p15 as int, lot@);
        lemma_lot_complete(s@, pos as int, p15 as int, lot@);
    }
    Some((lot, p15))
}

/// The text that follows the entries already consumed: a comma-prefixed
/// entry per remaining lot, then the two closing braces.
pub open spec fn rest_entries(rem: Seq<(u64, LotV)>) -> Seq<char>
    decreases rem.len(),
{
    if rem.len() == 0 {
        seq!['}', '}']
    } else {
        seq![','] + (enc_entry(rem[0].0, rem[0].1) + rest_entries(rem.drop_first()))
    }
}

#[verifier::rlimit(100)]
proof fn lemma_entries_as_rest(b: Seq<(u64, LotV)>)
    requires
        b.len() > 0,
    ensures
        enc_entries(b) + seq!['}', '}'] == enc_entry(b[0].0, b[0].1) + rest_entries(
            b.skip(1),
        ),
    decreases b.len(),
{
    if b.len() == 1 {
        assert(b.skip(1) =~= Seq::<(u64, LotV)>::empty());
        assert(enc_entries(b) == enc_entry(b[0].0, b[0].1));
        assert(enc_entries(b) + seq!['}', '}'] =~= enc_entry(b[0].0, b[0].1) + rest_entries(
            b.skip(1),
        ));
    } else {
        lemma_enc_entries_front(b);
        let df = b.drop_first();
        assert(df =~= b.skip(1));
        lemma_entries_as_rest(df);
        assert(df[0] == b[1]);
        assert(df.skip(1) =~= b.skip(2));
        assert(rest_entries(b.skip(1)) == seq![','] + (enc_entry(b[1].0, b[1].1) + rest_entries(
            b.skip(2),
        )));
        assert(enc_entries(b) + seq!['}', '}'] =~= enc_entry(b[0].0, b[0].1) + rest_entries(
            b.skip(1),
        ));
    }
}

#[verifier::rlimit(100)]
proof fn lemma_entries_front_token(a: Seq<(u64, LotV)>, b: Seq<(u64, LotV)>, r: Seq<char>)
    requires
        a.len() > 0,
        b.len() > 0,
        enc_entries(a) + r == enc_entries(b) + seq!['}', '}'],
    ensures
        a[0] == b[0],
        a.len() == 1 ==> r == rest_entries(b.skip(1)),
        a.len() >= 2 ==> b.len() >= 2 && enc_entries(a.drop_first()) + r == enc_entries(
            b.skip(1),
        ) + seq!['}', '}'],
{
    lemma_entries_as_rest(b);
    let taila = if a.len() == 1 {
        Seq::<char>::empty()
    } else {
        seq![','] + enc_entries(a.drop_first())
    };
    if a.len() == 1 {
        assert(enc_entries(a) == enc_entry(a[0].0, a[0].1));
        assert(enc_entries(a) + r =~= enc_entry(a[0].0, a[0].1) + (taila + r));
    } else {
        lemma_enc_entries_front(a);
        assert(enc_entries(a) + r =~= enc_entry(a[0].0, a[0].1) + (taila + r));
    }
    lemma_token_entry(a[0].0, a[0].1, taila + r, b[0].0, b[0].1, rest_entries(b.skip(1)));
    assert(a[0] == (a[0].0, a[0].1));
    assert(b[0] == (b[0].0, b[0].1));
    assert(a[0] == b[0]);
    if a.len() == 1 {
        assert(taila + r =~= r);
    } else {
        if b.len() == 1 {
            assert(b.skip(1) =~= Seq::<(u64, LotV)>::empty());
            assert(rest_entries(b.skip(1)) == seq!['}', '}']);
            assert((taila + r)[0] == ',');
            assert((seq!['}', '}'])[0] == '}');
            assert((',' as u32) == 44);
            assert(('}' as u32) == 125);
            vstd::utf8::char_u32_cast(',', (',' as u32));
            vstd::utf8::char_u32_cast('}', ('}' as u32));
            assert(false);
        }
        let b1 = b.skip(1);
        assert(b1.len() > 0);
        assert(rest_entries(b1) == seq![','] + (enc_entry(b1[0].0, b1[0].1) + rest_entries(
            b1.drop_first(),
        )));
        assert(taila + r =~= seq![','] + (enc_entries(a.drop_first()) + r));
        lemma_cancel_prefix(
            seq![','],
            enc_entries(a.drop_first()) + r,
            enc_entry(b1[0].0, b1[0].1) + rest_entries(b1.drop_first()),
        );
        lemma_entries_as_rest(b1);
        assert(b1.skip(1) =~= b1.drop_first());
        assert(enc_entries(a.drop_first()) + r == enc_entries(b1) + seq!['}', '}']);
    }
}

/// Aligning the consumed entries with a full ledger's: the consumed ones are
/// a prefix, and the remaining text is determined.
#[verifier::rlimit(100)]
#[verifier::spinoff_prover]
proof fn lemma_entries_align(a: Seq<(u64, LotV)>, b: Seq<(u64, LotV)>, r: Seq<char>)
    requires
        enc_entries(a) + r == enc_entries(b) + seq!['}', '}'],
    ensures
        a.len() <= b.len(),
        a == b.take(a.len() as int),
        a.len() == b.len() ==> r == seq!['}', '}'],
        a.len() < b.len() && a.len() == 0 ==> r == enc_entry(b[0].0, b[0].1) + rest_entries(
            b.skip(1),
        ),
        a.len() < b.len() && a.len() > 0 ==> r == rest_entries(b.skip(a.len() as int)),
    decreases a.len(),
{
    if a.len() == 0 {
        assert(enc_entries(a) =~= Seq::<char>::empty());
        assert(a =~= b.take(0));
        assert(enc_entries(a) + r =~= r);
        if b.len() == 0 {
            assert(enc_entries(b) =~= Seq::<char>::empty());
            assert(enc_entries(b) + seq!['}', '}'] =~= seq!['}', '}']);
        } else {
            lemma_entries_as_rest(b);
        }
    } else if b.len() == 0 {
        lemma_enc_entry_head(a[0].0, a[0].1);
        assert(enc_entries(b) =~= Seq::<char>::empty());
        assert((enc_entries(b) + seq!['}', '}'])[0] == '}');
        if a.len() == 1 {
            assert(enc_entries(a) == enc_entry(a[0].0, a[0].1));
        } else {
            lemma_enc_entries_front(a);
        }
        assert((enc_entries(a) + r)[0] == enc_entry(a[0].0, a[0].1)[0]);
        assert(('"' as u32) == 34);
        assert(('}' as u32) == 125);
        vstd::utf8::char_u32_cast('"', ('"' as u32));
        vstd::utf8::char_u32_cast('}', ('}' as u32));
        assert(false);
    } else {
        lemma_entries_front_token(a, b, r);
        if a.len() == 1 {
            assert(r == rest_entries(b.skip(1)));
            if b.len() == 1 {
                assert(b.skip(1) =~= Seq::<(u64, LotV)>::empty());
                assert(r == seq!['}', '}']);
                assert(a =~= b.take(1));
                assert(a =~= b);
            } else {
                assert(a =~= b.take(1));
            }
        } else {
            let b1 = b.skip(1);
            lemma_entries_align(a.drop_first(), b1, r);
            assert(a =~= b.take(a.len() as int)) by {
                assert forall|i: int| 0 <= i < a.len() implies a[i] == b.take(a.len() as int)[i] by {
                    if i > 0 {
                        assert(a[i] == a.drop_first()[i - 1]);
                        assert(a.drop_first()[i - 1] == b1.take(a.len() as int - 1)[i - 1]);
                        assert(b1.take(a.len() as int - 1)[i - 1] == b[i]);
                    }
                }
            }
            if a.len() < b.len() {
                assert(b1.skip(a.len() as int - 1) =~= b.skip(a.len() as int));
            }
        }
    }
}

/// Aligning the consumed header with a full encoding: the counters agree and
/// the entries follow.
#[verifier::rlimit(100)]
#[verifier::spinoff_prover]
proof fn lemma_decode_align(s: Seq<char>, maxid: u64, pv: Seq<(u64, LotV)>, pos: int, sv: StashV)
    requires
        0 <= pos <= s.len(),
        s.subrange(0, pos) == r#"{"max_lot_id":"#@ + dec_of_u64(maxid as int) + r#","lots":{"#@
            + enc_entries(pv),
        s == spec_encode(sv),
    ensures
        maxid == sv.max_lot_id,
        enc_entries(pv) + s.subrange(pos, s.len() as int) == enc_entries(sv.lots) + seq![
            '}',
            '}',
        ],
{
    reveal_strlit(r#","lots":{"#);
    let n = s.len() as int;
    let rest = s.subrange(pos, n);
    let ta = dec_of_u64(maxid as int) + (r#","lots":{"#@ + (enc_entries(pv) + rest));
    let tb = dec_of_u64(sv.max_lot_id as int) + (r#","lots":{"#@ + (enc_entries(sv.lots) + seq![
        '}',
        '}',
    ]));
    assert(s =~= s.subrange(0, pos) + rest);
    assert(s =~= r#"{"max_lot_id":"#@ + ta);
    assert(spec_encode(sv) =~= r#"{"max_lot_id":"#@ + tb);
    lemma_cancel_prefix(r#"{"max_lot_id":"#@, ta, tb);
    assert((r#","lots":{"#@ + (enc_entries(pv) + rest))[0] == ',');
    assert((r#","lots":{"#@ + (enc_entries(sv.lots) + seq!['}', '}']))[0] == ',');
    assert((',' as u32) == 44);
    lemma_token_u64(
        maxid,
        r#","lots":{"#@ + (enc_entries(pv) + rest),
        sv.max_lot_id,
        r#","lots":{"#@ + (enc_entries(sv.lots) + seq!['}', '}']),
    );
    lemma_cancel_prefix(
        r#","lots":{"#@,
        enc_entries(pv) + rest,
        enc_entries(sv.lots) + seq!['}', '}'],
    );
}

/// Whether `s` is the persisted form of the well-formed ledger image `sv`.
pub open spec fn canonical_for(s: Seq<char>, sv: StashV) -> bool {
    stash_v_wf(sv) && s == spec_encode(sv)
}

#[verifier::rlimit(100)]
proof fn lemma_loop_align(
    s: Seq<char>,
    maxid: u64,
    pv: Seq<(u64, LotV)>,
    pos: int,
    sv: StashV,
    header: Seq<char>,
)
    requires
        0 <= pos <= s.len(),
        header == r#"{"max_lot_id":"#@ + dec_of_u64(maxid as int) + r#","lots":{"#@,
        s.subrange(0, pos) == header + enc_entries(pv),
        canonical_for(s, sv),
    ensures
        maxid == sv.max_lot_id,
        pv.len() <= sv.lots.len(),
        pv == sv.lots.take(pv.len() as int),
        pv.len() == sv.lots.len() ==> s.subrange(pos, s.len() as int) == seq!['}', '}'],
        pv.len() < sv.lots.len() && pv.len() == 0 ==> s.subrange(pos, s.len() as int)
            == enc_entry(sv.lots[0].0, sv.lots[0].1) + rest_entries(sv.lots.skip(1)),
        pv.len() < sv.lots.len() && pv.len() > 0 ==> s.subrange(pos, s.len() as int)
            == rest_entries(sv.lots.skip(pv.len() as int)),
{
    lemma_decode_align(s, maxid, pv, pos, sv);
    lemma_entries_align(pv, sv.lots, s.subrange(pos, s.len() as int));
}

#[verifier::rlimit(100)]
proof fn lemma_close_align(
    s: Seq<char>,
    maxid: u64,
    pv: Seq<(u64, LotV)>,
    pos: int,
    sv: StashV,
    header: Seq<char>,
)
    requires
        0 <= pos < s.len(),
        header == r#"{"max_lot_id":"#@ + dec_of_u64(maxid as int) + r#","lots":{"#@,
        s.subrange(0, pos) == header + enc_entries(pv),
        canonical_for(s, sv),
        s[pos] == '}',
    ensures
        maxid == sv.max_lot_id,
        pv.len() == sv.lots.len(),
        pv == sv.lots,
        s.subrange(pos, s.len() as int) == seq!['}', '}'],
{
    lemma_loop_align(s, maxid, pv, pos, sv, header);
    let n = s.len() as int;
    assert(s.subrange(pos, n)[0] == s[pos]);
    if pv.len() < sv.lots.len() {
        if pv.len() == 0 {
            lemma_enc_entry_head(sv.lots[0].0, sv.lots[0].1);
            assert(s[pos] == (enc_entry(sv.lots[0].0, sv.lots[0].1) + rest_entries(
                sv.lots.skip(1),
            ))[0]);
            assert(('"' as u32) == 34);
            assert(('}' as u32) == 125);
            vstd::utf8::char_u32_cast('"', ('"' as u32));
            vstd::utf8::char_u32_cast('}', ('}' as u32));
        } else {
            assert(s[pos] == rest_entries(sv.lots.skip(pv.len() as int))[0]);
            assert(rest_entries(sv.lots.skip(pv.len() as int))[0] == ',');
            assert((',' as u32) == 44);
            assert(('}' as u32) == 125);
            vstd::utf8::char_u32_cast(',', (',' as u32));
            vstd::utf8::char_u32_cast('}', ('}' as u32));
        }
        assert(false);
    }
    assert(pv =~= sv.lots.take(pv.len() as int));
    assert(sv.lots.take(pv.len() as int) =~= sv.lots);
}

proof fn lemma_entry_inner(s: Seq<char>, ep: int, id: u64, l: LotV, rest: Seq<char>)
    requires
        0 <= ep <= s.len(),
        s.subrange(ep, s.len() as int) == enc_entry(id, l) + rest,
    ensures
        ep < s.len() && s[ep] == '"',
        number_at(s, ep + 1, id),
        ({
            let dl = dec_of_u64(id as int).len();
            ep + 3 + dl <= s.len() && s[ep + 1 + dl] == '"' && s[ep + 2 + dl] == ':'
                && s.subrange(ep + 3 + dl, s.len() as int) == enc_lot(l) + rest
        }),
{
    let n = s.len() as int;
    let e = enc_entry(id, l) + rest;
    let d = dec_of_u64(id as int);
    crate::num::lemma_dec_of_u64_digits(id as int);
    let dl = d.len() as int;
    assert(e =~= seq!['"'] + (d + (seq!['"', ':'] + (enc_lot(l) + rest))));
    assert(forall|i: int| 0 <= i < e.len() ==> s.subrange(ep, n)[i] == s[ep + i]);
    assert(s[ep] == e[0]);
    assert(s.subrange(ep, ep + 1) =~= seq!['"']);
    lemma_consume(s, ep, ep + 1, seq!['"'], d + (seq!['"', ':'] + (enc_lot(l) + rest)));
    lemma_starts_with(s, ep + 1, d, seq!['"', ':'] + (enc_lot(l) + rest));
    assert(s[ep + 1 + dl] == (d + (seq!['"', ':'] + (enc_lot(l) + rest)))[dl]);
    assert(('"' as u32) == 34);
    assert(number_at(s, ep + 1, id));
    lemma_consume(s, ep + 1, ep + 1 + dl, d, seq!['"', ':'] + (enc_lot(l) + rest));
    assert(s[ep + 2 + dl] == (seq!['"', ':'] + (enc_lot(l) + rest))[1]);
    assert(s.subrange(ep + 1 + dl, ep + 3 + dl) =~= seq!['"', ':']);
    lemma_consume(s, ep + 1 + dl, ep + 3 + dl, seq!['"', ':'], enc_lot(l) + rest);
}

/// At the head of an entry, the input lays out the next lot of any ledger
/// the text is canonical for.
#[verifier::rlimit(100)]
#[verifier::spinoff_prover]
proof fn lemma_entry_align(
    s: Seq<char>,
    maxid: u64,
    pv: Seq<(u64, LotV)>,
    pos: int,
    ep: int,
    sv: StashV,
    header: Seq<char>,
)
    requires
        0 <= pos <= ep <= s.len(),
        header == r#"{"max_lot_id":"#@ + dec_of_u64(maxid as int) + r#","lots":{"#@,
        s.subrange(0, pos) == header + enc_entries(pv),
        canonical_for(s, sv),
        pos < s.len() && s[pos] != '}',
        pv.len() > 0 ==> ep == pos + 1 && s.subrange(pos, ep) == seq![','],
        pv.len() == 0 ==> ep == pos,
    ensures
        maxid == sv.max_lot_id,
        pv.len() < sv.lots.len(),
        pv == sv.lots.take(pv.len() as int),
        s.subrange(ep, s.len() as int) == enc_entry(
            sv.lots[pv.len() as int].0,
            sv.lots[pv.len() as int].1,
        ) + rest_entries(sv.lots.skip(pv.len() as int + 1)),
        ep < s.len() && s[ep] == '"',
        number_at(s, ep + 1, sv.lots[pv.len() as int].0),
        lot_texts_wf(sv.lots[pv.len() as int].1),
        ({
            let dl = dec_of_u64(sv.lots[pv.len() as int].0 as int).len();
            ep + 3 + dl <= s.len() && s[ep + 1 + dl] == '"' && s[ep + 2 + dl] == ':'
                && s.subrange(ep + 3 + dl, s.len() as int) == enc_lot(sv.lots[pv.len() as int].1)
                + rest_entries(sv.lots.skip(pv.len() as int + 1))
        }),
{
    lemma_loop_align(s, maxid, pv, pos, sv, header);
    let k = pv.len() as int;
    let b = sv.lots;
    let n = s.len() as int;
    if k == b.len() {
        assert(s.subrange(pos, n)[0] == s[pos]);
        assert(false);
    }
    if k > 0 {
        assert(rest_entries(b.skip(k)) == seq![','] + (enc_entry(b.skip(k)[0].0, b.skip(k)[0].1)
            + rest_entries(b.skip(k).drop_first())));
        assert(b.skip(k)[0] == b[k]);
        assert(b.skip(k).drop_first() =~= b.skip(k + 1));
        lemma_consume(
            s,
            pos,
            ep,
            seq![','],
            enc_entry(b[k].0, b[k].1) + rest_entries(b.skip(k + 1)),
        );
    } else {
        assert(b.skip(k + 1) =~= b.skip(1));
    }
    lemma_entry_inner(s, ep, b[k].0, b[k].1, rest_entries(b.skip(k + 1)));
    assert(stash_v_wf(sv));
    assert(lot_texts_wf(b[k].1));
}

/// Consume one ledger entry (with its leading comma unless it is the
/// first), admitting only ids above `last_id` and at most `maxid`.
#[verifier::rlimit(100)]
#[verifier::spinoff_prover]
fn decode_entry(s: &str, pos: usize, maxid: u64, last_id: u64, first: bool) -> (r: Option<
    (u64, Lot, usize),
>)
    requires
        pos <= s@.len(),
    ensures
        r matches Some(x) ==> pos < x.2 <= s@.len() && s@.subrange(pos as int, x.2 as int) == (
        if first {
            Seq::<char>::empty()
        } else {
            seq![',']
        }) + enc_entry(x.0, x.1@) && last_id < x.0 <= maxid && lot_texts_wf(x.1@),
        forall|id0: u64, l0: LotV, rest: Seq<char>|
            (s@.subrange(pos as int, s@.len() as int) == (if first {
                Seq::<char>::empty()
            } else {
                seq![',']
            }) + #[trigger] (enc_entry(id0, l0) + rest) && lot_texts_wf(l0) && last_id < id0 && id0
                <= maxid) ==> (r matches Some(x) && x.0 == id0 && x.1@ == l0 && s@.subrange(
                x.2 as int,
                s@.len() as int,
            ) == rest),
{
    let ghost n = s@.len() as int;
    let ghost sep = if first {
        Seq::<char>::empty()
    } else {
        seq![',']
    };
    let mut ep: usize = pos;
    if !first {
        if pos >= s.unicode_len() {
            proof {
                assert forall|id0: u64, l0: LotV, rest: Seq<char>|
                    (s@.subrange(pos as int, n) == sep + #[trigger] (enc_entry(id0, l0) + rest)
                        && lot_texts_wf(l0) && last_id < id0 && id0 <= maxid) implies false by {
                    assert((sep + (enc_entry(id0, l0) + rest)).len() >= 1);
                }
            }
            return None;
        }
        if s.get_char(pos) != ',' {
            proof {
                assert forall|id0: u64, l0: LotV, rest: Seq<char>|
                    (s@.subrange(pos as int, n) == sep + #[trigger] (enc_entry(id0, l0) + rest)
                        && lot_texts_wf(l0) && last_id < id0 && id0 <= maxid) implies false by {
                    assert(s@.subrange(pos as int, n)[0] == s@[pos as int]);
                }
            }
            return None;
        }
        ep = pos + 1;
    }
    proof {
        assert forall|id0: u64, l0: LotV, rest: Seq<char>|
            (s@.subrange(pos as int, n) == sep + #[trigger] (enc_entry(id0, l0) + rest)
                && lot_texts_wf(l0) && last_id < id0 && id0 <= maxid) implies s@.subrange(
            ep as int,
            n,
        ) == enc_entry(id0, l0) + rest by {
            if !first {
                assert(s@.subrange(pos as int, ep as int) =~= seq![',']);
                lemma_consume(s@, pos as int, ep as int, seq![','], enc_entry(id0, l0) + rest);
            } else {
                assert(sep + (enc_entry(id0, l0) + rest) =~= enc_entry(id0, l0) + rest);
            }
        }
    }
    if ep >= s.unicode_len() {
        proof {
            assert forall|id0: u64, l0: LotV, rest: Seq<char>|
                (s@.subrange(pos as int, n) == #[trigger] (sep + (enc_entry(id0, l0) + rest))
                    && lot_texts_wf(l0) && last_id < id0 && id0 <= maxid) implies false by {
                lemma_entry_inner(s@, ep as int, id0, l0, rest);
            }
        }
        return None;
    }
    if s.get_char(ep) != '"' {
        proof {
            assert forall|id0: u64, l0: LotV, rest: Seq<char>|
                (s@.subrange(pos as int, n) == #[trigger] (sep + (enc_entry(id0, l0) + rest))
                    && lot_texts_wf(l0) && last_id < id0 && id0 <= maxid) implies false by {
                lemma_entry_inner(s@, ep as int, id0, l0, rest);
            }
        }
        return None;
    }
    let q1: usize = ep + 1;
    let (id, q2): (u64, usize) = match parse_number(s, q1) {
        Some(x) => x,
        None => {
            proof {
                assert forall|id0: u64, l0: LotV, rest: Seq<char>|
                    (s@.subrange(pos as int, n) == sep + #[trigger] (enc_entry(id0, l0) + rest)
                        && lot_texts_wf(l0) && last_id < id0 && id0 <= maxid) implies false by {
                    lemma_entry_inner(s@, ep as int, id0, l0, rest);
                }
            }
            return None;
        },
    };
    proof {
        assert forall|id0: u64, l0: LotV, rest: Seq<char>|
            (s@.subrange(pos as int, n) == sep + #[trigger] (enc_entry(id0, l0) + rest)
                && lot_texts_wf(l0) && last_id < id0 && id0 <= maxid) implies id == id0 && n - q2
            >= 2 && s@[q2 as int] == '"' && s@[q2 + 1] == ':' && s@.subrange(q2 + 2, n)
            == enc_lot(l0) + rest by {
            lemma_entry_inner(s@, ep as int, id0, l0, rest);
            assert(number_at(s@, q1 as int, id0));
        }
    }
    if s.unicode_len() - q2 < 2 {
        return None;
    }
    if s.get_char(q2) != '"' {
        return None;
    }
    if s.get_char(q2 + 1) != ':' {
        return None;
    }
    let q3: usize = q2 + 2;
    if id <= last_id || id > maxid {
        return None;
    }
    let (lot, q4): (Lot, usize) = match parse_lot(s, q3) {
        Some(x) => x,
        None => {
            proof {
                assert forall|id0: u64, l0: LotV, rest: Seq<char>|
                    (s@.subrange(pos as int, n) == sep + #[trigger] (enc_entry(id0, l0) + rest)
                        && lot_texts_wf(l0) && last_id < id0 && id0 <= maxid) implies false by {
                    assert(s@.subrange(q3 as int, n) == enc_lot(l0) + rest);
                }
            }
            return None;
        },
    };
    proof {
        assert(s@.subrange(ep as int, q1 as int) =~= seq!['"']);
        assert(s@.subrange(q2 as int, q3 as int) =~= seq!['"', ':']);
        lemma_subrange_split(s@, pos as int, ep as int, q1 as int);
        lemma_subrange_split(s@, pos as int, q1 as int, q2 as int);
        lemma_subrange_split(s@, pos as int, q2 as int, q3 as int);
        lemma_subrange_split(s@, pos as int, q3 as int, q4 as int);
        assert(s@.subrange(pos as int, q4 as int) =~= sep + enc_entry(id, lot@));
        assert forall|id0: u64, l0: LotV, rest: Seq<char>|
            (s@.subrange(pos as int, n) == sep + #[trigger] (enc_entry(id0, l0) + rest)
                && lot_texts_wf(l0) && last_id < id0 && id0 <= maxid) implies id == id0 && lot@
            == l0 && s@.subrange(q4 as int, n) == rest by {
            assert(s@.subrange(q3 as int, n) == enc_lot(l0) + rest);
            assert(lot@ == l0);
            lemma_consume(s@, q3 as int, q4 as int, enc_lot(l0), rest);
        }
    }
    Some((id, lot, q4))
}

/// Read a ledger back from its persisted form: a `Some` result is
/// well-formed and is the one ledger whose persisted form is the input, and
/// reading fails only on text that is no well-formed ledger's persisted
/// form. Only the canonical compact form this module writes is accepted.
#[verifier::rlimit(100)]
#[verifier::spinoff_prover]
pub fn decode_stash(s: &str) -> (r: Option<Stash>)
    ensures
        r matches Some(st) ==> st.wf() && stash_v_wf(st@) && s@ == spec_encode(st@),
        forall|sv: StashV| #[trigger] canonical_for(s@, sv) ==> (r matches Some(st) && st@ == sv),
{
    let n: usize = s.unicode_len();
    proof {
        reveal_strlit(r#","lots":{"#);
    }
    let p1: usize = match expect_lit(s, 0, r#"{"max_lot_id":"#) {
        Some(p) => p,
        None => {
            proof {
                assert forall|sv: StashV| #[trigger] canonical_for(s@, sv) implies false by {
                    assert(spec_encode(sv) =~= r#"{"max_lot_id":"#@ + (dec_of_u64(
                        sv.max_lot_id as int,
                    ) + (r#","lots":{"#@ + (enc_entries(sv.lots) + seq!['}', '}']))));
                    assert(s@.subrange(0, s@.len() as int) =~= s@);
                    lemma_starts_with(s@, 0, r#"{"max_lot_id":"#@, dec_of_u64(
                        sv.max_lot_id as int,
                    ) + (r#","lots":{"#@ + (enc_entries(sv.lots) + seq!['}', '}'])));
                }
            }
            return None;
        },
    };
    proof {
        assert forall|sv: StashV| #[trigger] canonical_for(s@, sv) implies s@.subrange(
            p1 as int,
            s@.len() as int,
        ) == dec_of_u64(sv.max_lot_id as int) + (r#","lots":{"#@ + (enc_entries(sv.lots) + seq![
            '}',
            '}',
        ])) && number_at(s@, p1 as int, sv.max_lot_id) by {
            assert(spec_encode(sv) =~= r#"{"max_lot_id":"#@ + (dec_of_u64(sv.max_lot_id as int) + (
            r#","lots":{"#@ + (enc_entries(sv.lots) + seq!['}', '}']))));
            assert(s@.subrange(0, s@.len() as int) =~= s@);
            lemma_consume(s@, 0, p1 as int, r#"{"max_lot_id":"#@, dec_of_u64(
                sv.max_lot_id as int,
            ) + (r#","lots":{"#@ + (enc_entries(sv.lots) + seq!['}', '}'])));
            let d = dec_of_u64(sv.max_lot_id as int);
            crate::num::lemma_dec_of_u64_digits(sv.max_lot_id as int);
            lemma_starts_with(s@, p1 as int, d, r#","lots":{"#@ + (enc_entries(sv.lots) + seq![
                '}',
                '}',
            ]));
            assert(s@[p1 + d.len()] == (d + (r#","lots":{"#@ + (enc_entries(sv.lots) + seq![
                '}',
                '}',
            ])))[d.len() as int]);
            assert((r#","lots":{"#@ + (enc_entries(sv.lots) + seq!['}', '}']))[0] == ',');
            assert((',' as u32) == 44);
        }
    }
    let (maxid, p2): (u64, usize) = match parse_number(s, p1) {
        Some(x) => x,
        None => {
            proof {
                assert forall|sv: StashV| #[trigger] canonical_for(s@, sv) implies false by {
                    assert(number_at(s@, p1 as int, sv.max_lot_id));
                }
            }
            return None;
        },
    };
    proof {
        assert forall|sv: StashV| #[trigger] canonical_for(s@, sv) implies maxid == sv.max_lot_id
            && s@.subrange(p2 as int, s@.len() as int) == r#","lots":{"#@ + (enc_entries(sv.lots)
            + seq!['}', '}']) by {
            assert(number_at(s@, p1 as int, sv.max_lot_id));
            lemma_consume(s@, p1 as int, p2 as int, dec_of_u64(maxid as int), r#","lots":{"#@ + (
            enc_entries(sv.lots) + seq!['}', '}']));
        }
    }
    let p3: usize = match expect_lit(s, p2, r#","lots":{"#) {
        Some(p) => p,
        None => {
            proof {
                assert forall|sv: StashV| #[trigger] canonical_for(s@, sv) implies false by {
                    lemma_starts_with(s@, p2 as int, r#","lots":{"#@, enc_entries(sv.lots) + seq![
                        '}',
                        '}',
                    ]);
                }
            }
            return None;
        },
    };
    let ghost header = r#"{"max_lot_id":"#@ + dec_of_u64(maxid as int) + r#","lots":{"#@;
    proof {
        lemma_subrange_split(s@, 0, p1 as int, p2 as int);
        lemma_subrange_split(s@, 0, p2 as int, p3 as int);
        assert(s@.subrange(0, p3 as int) =~= header);
        assert(enc_entries(Stash::pair_views(Seq::<(u64, Lot)>::empty())) =~= Seq::<char>::empty());
    }
    let mut lots: Vec<(u64, Lot)> = Vec::new();
    let mut pos: usize = p3;
    let mut last_id: u64 = 0;
    proof {
        assert(Stash::pair_views(lots@) =~= Seq::<(u64, LotV)>::empty());
        assert(s@.subrange(0, pos as int) =~= header + enc_entries(Stash::pair_views(lots@)));
    }
    loop
        invariant
            p3 <= pos <= n,
            n == s@.len(),
            s@.subrange(0, pos as int) == header + enc_entries(Stash::pair_views(lots@)),
            header == r#"{"max_lot_id":"#@ + dec_of_u64(maxid as int) + r#","lots":{"#@,
            forall|i: int, j: int|
                0 <= i < j < lots@.len() ==> (#[trigger] lots@[i]).0 < (#[trigger] lots@[j]).0,
            forall|i: int| 0 <= i < lots@.len() ==> 1 <= (#[trigger] lots@[i]).0 <= maxid,
            forall|i: int| 0 <= i < lots@.len() ==> (#[trigger] lots@[i]).0 <= last_id,
            forall|i: int| 0 <= i < lots@.len() ==> lot_texts_wf((#[trigger] lots@[i]).1@),
            lots@.len() > 0 ==> lots@.last().0 == last_id,
            lots@.len() == 0 ==> last_id == 0,
        decreases n - pos,
    {
        let ghost pv = Stash::pair_views(lots@);
        if pos >= n {
            proof {
                assert forall|sv: StashV| #[trigger] canonical_for(s@, sv) implies false by {
                    lemma_loop_align(s@, maxid, pv, pos as int, sv, header);
                    assert(s@.subrange(pos as int, n as int).len() == 0);
                }
            }
            return None;
        }
        if s.get_char(pos) == '}' {
            let p_close: usize = pos + 1;
            proof {
                assert forall|sv: StashV| #[trigger] canonical_for(s@, sv) implies s@.subrange(
                    pos as int,
                    n as int,
                ) == seq!['}', '}'] && pv == sv.lots by {
                    lemma_close_align(s@, maxid, pv, pos as int, sv, header);
                }
            }
            if p_close >= n {
                return None;
            }
            if s.get_char(p_close) != '}' {
                proof {
                    assert forall|sv: StashV| #[trigger] canonical_for(s@, sv) implies false by {
                        assert(s@.subrange(pos as int, n as int)[1] == s@[p_close as int]);
                    }
                }
                return None;
            }
            let p_end: usize = p_close + 1;
            if p_end != n {
                proof {
                    assert forall|sv: StashV| #[trigger] canonical_for(s@, sv) implies false by {
                        assert(s@.subrange(pos as int, n as int).len() == 2);
                    }
                }
                return None;
            }
            let st = Stash::from_parts(maxid, lots);
            proof {
                assert(s@.subrange(pos as int, p_end as int) =~= seq!['}', '}']);
                lemma_subrange_split(s@, 0, pos as int, p_end as int);
                assert(s@.subrange(0, n as int) =~= s@);
                assert(s@ =~= spec_encode(st@));
                assert(stash_v_wf(st@)) by {
                    assert(forall|i: int|
                        0 <= i < st@.lots.len() ==> (#[trigger] st@.lots[i]) == pv[i]);
                }
                assert forall|sv: StashV| #[trigger] canonical_for(s@, sv) implies st@ == sv by {
                    lemma_encode_injective(st@, sv);
                }
            }
            return Some(st);
        }
        let first: bool = lots.len() == 0;
        let ghost sep = if first {
            Seq::<char>::empty()
        } else {
            seq![',']
        };
        let (id, lot, q4): (u64, Lot, usize) = match decode_entry(s, pos, maxid, last_id, first) {
            Some(x) => x,
            None => {
                proof {
                    assert forall|sv: StashV| #[trigger] canonical_for(s@, sv) implies false by {
                        lemma_loop_align(s@, maxid, pv, pos as int, sv, header);
                        let k = pv.len() as int;
                        let b = sv.lots;
                        if k == b.len() {
                            assert(s@.subrange(pos as int, n as int)[0] == s@[pos as int]);
                            assert(false);
                        }
                        if k > 0 {
                            assert(rest_entries(b.skip(k)) == seq![','] + (enc_entry(
                                b.skip(k)[0].0,
                                b.skip(k)[0].1,
                            ) + rest_entries(b.skip(k).drop_first())));
                            assert(b.skip(k)[0] == b[k]);
                            assert(b.skip(k).drop_first() =~= b.skip(k + 1));
                        } else {
                            assert(b.skip(k + 1) =~= b.skip(1));
                        }
                        assert(s@.subrange(pos as int, n as int) == sep + (enc_entry(
                            b[k].0,
                            b[k].1,
                        ) + rest_entries(b.skip(k + 1))));
                        assert(lot_texts_wf(b[k].1));
                        if k > 0 {
                            assert(pv[k - 1] == b.take(k)[k - 1]);
                            assert(pv[k - 1].0 == lots@[k - 1].0);
                            assert(b[k - 1].0 < b[k].0);
                        }
                        assert(last_id < b[k].0 && b[k].0 <= maxid);
                    }
                }
                return None;
            },
        };
        let ghost prev = lots@;
        lots.push((id, lot));
        proof {
            let pv2 = Stash::pair_views(lots@);
            assert(pv2.drop_last() =~= Stash::pair_views(prev));
            assert(pv2.last() == (id, lot@));
            lemma_subrange_split(s@, 0, pos as int, q4 as int);
            if prev.len() == 0 {
                assert(enc_entries(pv2) == enc_entry(id, lot@));
                assert(s@.subrange(pos as int, q4 as int) =~= enc_entry(id, lot@));
            } else {
                assert(enc_entries(pv2) == enc_entries(Stash::pair_views(prev)) + seq![',']
                    + enc_entry(id, lot@));
            }
            assert(s@.subrange(0, q4 as int) =~= header + enc_entries(pv2));
        }
        last_id = id;
        pos = q4;
    }
}

// ---------------------------------------------------------------------------
// The persisted form is injective
// ---------------------------------------------------------------------------

proof fn lemma_cancel_prefix(p: Seq<char>, x: Seq<char>, y: Seq<char>)
    requires
        p + x == p + y,
    ensures
        x == y,
{
    assert((p + x).len() == p.len() + x.len());
    assert((p + y).len() == p.len() + y.len());
    assert(x.len() == y.len());
    assert forall|i: int| 0 <= i < x.len() implies x[i] == y[i] by {
        assert(x.len() == y.len());
        assert((p + x)[p.len() + i] == x[i]);
        assert((p + y)[p.len() + i] == y[i]);
        assert((p + x)[p.len() + i] == (p + y)[p.len() + i]);
    }
    assert(x =~= y);
}

proof fn lemma_cancel_suffix(x: Seq<char>, y: Seq<char>, s: Seq<char>)
    requires
        x + s == y + s,
    ensures
        x == y,
{
    assert((x + s).len() == x.len() + s.len());
    assert((y + s).len() == y.len() + s.len());
    assert(x.len() == y.len());
    assert forall|i: int| 0 <= i < x.len() implies x[i] == y[i] by {
        assert(x.len() == y.len());
        assert((x + s)[i] == x[i]);
        assert((y + s)[i] == y[i]);
        assert((x + s)[i] == (y + s)[i]);
    }
    assert(x =~= y);
}

proof fn lemma_token_digits(d1: Seq<char>, r1: Seq<char>, d2: Seq<char>, r2: Seq<char>)
    requires
        d1 + r1 == d2 + r2,
        all_digits(d1),
        all_digits(d2),
        r1.len() > 0 && !is_digit(r1[0]),
        r2.len() > 0 && !is_digit(r2[0]),
    ensures
        d1 == d2,
        r1 == r2,
{
    if d1.len() < d2.len() {
        assert((d1 + r1)[d1.len() as int] == r1[0]);
        assert((d2 + r2)[d1.len() as int] == d2[d1.len() as int]);
        assert(false);
    }
    if d2.len() < d1.len() {
        assert((d2 + r2)[d2.len() as int] == r2[0]);
        assert((d1 + r1)[d2.len() as int] == d1[d2.len() as int]);
        assert(false);
    }
    assert forall|i: int| 0 <= i < d1.len() implies d1[i] == d2[i] by {
        assert((d1 + r1)[i] == d1[i]);
        assert((d2 + r2)[i] == d2[i]);
    }
    assert(d1 =~= d2);
    lemma_cancel_prefix(d1, r1, r2);
}

proof fn lemma_token_u64(a: u64, r1: Seq<char>, b: u64, r2: Seq<char>)
    requires
        dec_of_u64(a as int) + r1 == dec_of_u64(b as int) + r2,
        r1.len() > 0 && !is_digit(r1[0]),
        r2.len() > 0 && !is_digit(r2[0]),
    ensures
        a == b,
        r1 == r2,
{
    crate::num::lemma_dec_of_u64_digits(a as int);
    crate::num::lemma_dec_of_u64_digits(b as int);
    lemma_token_digits(dec_of_u64(a as int), r1, dec_of_u64(b as int), r2);
    assert(dec_val(dec_of_u64(a as int)) == a as int);
    assert(dec_val(dec_of_u64(b as int)) == b as int);
}

proof fn lemma_esc_front(v: Seq<char>)
    requires
        v.len() > 0,
    ensures
        esc(v) == esc_char(v[0]) + esc(v.drop_first()),
    decreases v.len(),
{
    if v.len() == 1 {
        assert(v.drop_last() =~= Seq::<char>::empty());
        assert(v.drop_first() =~= Seq::<char>::empty());
        assert(esc(Seq::<char>::empty()) =~= Seq::<char>::empty());
        assert(v.last() == v[0]);
        assert(esc(v) =~= esc_char(v[0]) + esc(v.drop_first()));
    } else {
        let dl = v.drop_last();
        lemma_esc_front(dl);
        assert(dl[0] == v[0]);
        assert(dl.drop_first() =~= v.drop_first().drop_last());
        assert(v.drop_first().last() == v.last());
        assert(v.drop_first().len() > 0);
        assert(esc(v.drop_first()) == esc(v.drop_first().drop_last()) + esc_char(
            v.drop_first().last(),
        ));
        assert(esc(v) =~= esc_char(v[0]) + esc(v.drop_first()));
    }
}

proof fn lemma_esc_char_shape(c: char)
    ensures
        esc_char(c).len() == 1 || esc_char(c).len() == 2 || esc_char(c).len() == 6,
        esc_char(c)[0] != '"',
        esc_char(c).len() == 1 ==> esc_char(c)[0] == c && c != '\\' && c != '"' && (c as u32)
            >= 0x20,
        esc_char(c).len() != 1 ==> esc_char(c)[0] == '\\',
{
}

/// Aligning two escaped streams on their first escaped character.
proof fn lemma_esc_char_align(a: char, ra: Seq<char>, b: char, rb: Seq<char>)
    requires
        esc_char(a) + ra == esc_char(b) + rb,
    ensures
        a == b,
        ra == rb,
{
    lemma_esc_char_shape(a);
    lemma_esc_char_shape(b);
    let ea = esc_char(a);
    let eb = esc_char(b);
    assert(forall|i: int| 0 <= i < ea.len() ==> (ea + ra)[i] == ea[i]);
    assert(forall|i: int| 0 <= i < eb.len() ==> (eb + rb)[i] == eb[i]);
    assert(ea[0] == eb[0]);
    if ea.len() == 1 && eb.len() == 1 {
        assert(a == b);
    } else if ea.len() == 1 || eb.len() == 1 {
        assert(('\\' as u32) == 92);
        if ea.len() == 1 {
            assert(ea[0] == a && a != '\\' && eb[0] == '\\');
            vstd::utf8::char_u32_cast(a, (a as u32));
            vstd::utf8::char_u32_cast('\\', ('\\' as u32));
            assert(false);
        } else {
            assert(eb[0] == b && b != '\\' && ea[0] == '\\');
            vstd::utf8::char_u32_cast(b, (b as u32));
            vstd::utf8::char_u32_cast('\\', ('\\' as u32));
            assert(false);
        }
    } else {
        assert(ea[1] == (ea + ra)[1]);
        assert(eb[1] == (eb + rb)[1]);
        assert(ea[1] == eb[1]);
        if ea.len() == 2 && eb.len() == 6 {
            assert(ea[1] == '"' || ea[1] == '\\');
            assert(eb[1] == 'u');
            vstd::utf8::char_u32_cast('u', ('u' as u32));
            vstd::utf8::char_u32_cast('"', ('"' as u32));
            vstd::utf8::char_u32_cast('\\', ('\\' as u32));
            assert(false);
        } else if ea.len() == 6 && eb.len() == 2 {
            assert(eb[1] == '"' || eb[1] == '\\');
            assert(ea[1] == 'u');
            vstd::utf8::char_u32_cast('u', ('u' as u32));
            vstd::utf8::char_u32_cast('"', ('"' as u32));
            vstd::utf8::char_u32_cast('\\', ('\\' as u32));
            assert(false);
        } else if ea.len() == 2 {
            assert(ea =~= eb) by {
                assert(ea[0] == eb[0] && ea[1] == eb[1]);
            }
            lemma_esc_char_injective(a, b);
        } else {
            assert(forall|i: int| 0 <= i < 6 ==> ea[i] == (ea + ra)[i]);
            assert(forall|i: int| 0 <= i < 6 ==> eb[i] == (eb + rb)[i]);
            assert(ea =~= eb) by {
                assert(forall|i: int| 0 <= i < 6 ==> ea[i] == eb[i]);
            }
            lemma_esc_char_injective(a, b);
        }
    }
    assert(ea == eb);
    lemma_cancel_prefix(ea, ra, rb);
}

/// Aligning a partially consumed escaped string with a full one: the
/// consumed text is a prefix, and what follows is the rest's escape.
proof fn lemma_esc_align(a: Seq<char>, r: Seq<char>, v: Seq<char>, w: Seq<char>)
    requires
        esc(a) + r == esc(v) + (seq!['"'] + w),
    ensures
        a.len() <= v.len(),
        a == v.take(a.len() as int),
        r == esc(v.skip(a.len() as int)) + (seq!['"'] + w),
    decreases a.len(),
{
    if a.len() == 0 {
        assert(esc(a) =~= Seq::<char>::empty());
        assert(a =~= v.take(0));
        assert(v.skip(0) =~= v);
        assert(esc(a) + r =~= r);
    } else if v.len() == 0 {
        lemma_esc_front(a);
        lemma_esc_char_shape(a[0]);
        assert(esc(v) =~= Seq::<char>::empty());
        assert(esc(a) + r =~= esc_char(a[0]) + (esc(a.drop_first()) + r));
        assert((esc_char(a[0]) + (esc(a.drop_first()) + r))[0] == esc_char(a[0])[0]);
        assert((esc(v) + (seq!['"'] + w))[0] == '"');
        assert(false);
    } else {
        lemma_esc_front(a);
        lemma_esc_front(v);
        assert(esc(a) + r =~= esc_char(a[0]) + (esc(a.drop_first()) + r));
        assert(esc(v) + (seq!['"'] + w) =~= esc_char(v[0]) + (esc(v.drop_first()) + (seq!['"']
            + w)));
        lemma_esc_char_align(
            a[0],
            esc(a.drop_first()) + r,
            v[0],
            esc(v.drop_first()) + (seq!['"'] + w),
        );
        lemma_esc_align(a.drop_first(), r, v.drop_first(), w);
        let k = a.len() as int;
        assert(a =~= v.take(k)) by {
            assert forall|i: int| 0 <= i < k implies a[i] == v.take(k)[i] by {
                if i > 0 {
                    assert(a[i] == a.drop_first()[i - 1]);
                    assert(a.drop_first()[i - 1] == v.drop_first().take(k - 1)[i - 1]);
                    assert(v.drop_first().take(k - 1)[i - 1] == v[i]);
                }
            }
        }
        assert(v.drop_first().skip(k - 1) =~= v.skip(k));
    }
}

proof fn lemma_hex_digit_injective(d1: int, d2: int)
    requires
        0 <= d1 < 16,
        0 <= d2 < 16,
        hex_digit(d1) == hex_digit(d2),
    ensures
        d1 == d2,
{
    assert((hex_digit(d1) as u32) == (hex_digit(d2) as u32));
    assert((hex_digit(d1) as u32) == if d1 < 10 {
        (48 + d1) as u32
    } else {
        (87 + d1) as u32
    });
    assert((hex_digit(d2) as u32) == if d2 < 10 {
        (48 + d2) as u32
    } else {
        (87 + d2) as u32
    });
}

proof fn lemma_esc_char_injective(a: char, b: char)
    requires
        esc_char(a) == esc_char(b),
    ensures
        a == b,
{
    lemma_esc_char_shape(a);
    lemma_esc_char_shape(b);
    if esc_char(a).len() == 1 {
        assert(esc_char(a)[0] == a && esc_char(b)[0] == b);
    } else if esc_char(a).len() == 2 {
        assert(esc_char(a)[1] == esc_char(b)[1]);
        if a == '"' {
            assert(esc_char(a)[1] == '"');
        }
        if b == '"' {
            assert(esc_char(b)[1] == '"');
        }
        assert(('"' as u32) != ('\\' as u32));
        vstd::utf8::char_u32_cast('"', ('"' as u32));
        vstd::utf8::char_u32_cast('\\', ('\\' as u32));
    } else {
        assert(esc_char(a)[4] == esc_char(b)[4]);
        assert(esc_char(a)[5] == esc_char(b)[5]);
        lemma_hex_digit_injective((a as u32) as int / 16, (b as u32) as int / 16);
        lemma_hex_digit_injective((a as u32) as int % 16, (b as u32) as int % 16);
        assert((a as u32) == (b as u32)) by {
            vstd::arithmetic::div_mod::lemma_fundamental_div_mod((a as u32) as int, 16);
            vstd::arithmetic::div_mod::lemma_fundamental_div_mod((b as u32) as int, 16);
        }
        vstd::utf8::char_u32_cast(a, (a as u32));
        vstd::utf8::char_u32_cast(b, (b as u32));
    }
}

#[verifier::rlimit(60)]
proof fn lemma_token_esc(v: Seq<char>, r1: Seq<char>, w: Seq<char>, r2: Seq<char>)
    requires
        esc(v) + seq!['"'] + r1 == esc(w) + seq!['"'] + r2,
    ensures
        v == w,
        r1 == r2,
    decreases v.len(),
{
    let whole = esc(v) + seq!['"'] + r1;
    if v.len() == 0 && w.len() == 0 {
        assert(esc(v) =~= Seq::<char>::empty());
        assert(esc(w) =~= Seq::<char>::empty());
        assert(v =~= w);
        lemma_cancel_prefix(Seq::<char>::empty() + seq!['"'], r1, r2);
    } else if v.len() == 0 {
        lemma_esc_front(w);
        lemma_esc_char_shape(w[0]);
        assert(esc(v) =~= Seq::<char>::empty());
        assert(whole[0] == '"');
        assert((esc(w) + seq!['"'] + r2)[0] == esc_char(w[0])[0]);
        assert(false);
    } else if w.len() == 0 {
        lemma_esc_front(v);
        lemma_esc_char_shape(v[0]);
        assert(esc(w) =~= Seq::<char>::empty());
        assert((esc(w) + seq!['"'] + r2)[0] == '"');
        assert(whole[0] == esc_char(v[0])[0]);
        assert(false);
    } else {
        let a = v[0];
        let b = w[0];
        lemma_esc_front(v);
        lemma_esc_front(w);
        lemma_esc_char_shape(a);
        lemma_esc_char_shape(b);
        let ea = esc_char(a);
        let eb = esc_char(b);
        let resta = esc(v.drop_first()) + seq!['"'] + r1;
        let restb = esc(w.drop_first()) + seq!['"'] + r2;
        assert(whole =~= ea + resta);
        assert(esc(w) + seq!['"'] + r2 =~= eb + restb);
        assert(forall|i: int| 0 <= i < ea.len() ==> (ea + resta)[i] == ea[i]);
        assert(forall|i: int| 0 <= i < eb.len() ==> (eb + restb)[i] == eb[i]);
        assert(ea[0] == eb[0]);
        if ea.len() == 1 && eb.len() == 1 {
            assert(a == b);
        } else if ea.len() == 1 || eb.len() == 1 {
            // one stands as itself (so not a backslash), the other is escaped
            assert(('\\' as u32) == 92);
            if ea.len() == 1 {
                assert(ea[0] == a && a != '\\' && eb[0] == '\\');
                vstd::utf8::char_u32_cast(a, (a as u32));
                vstd::utf8::char_u32_cast('\\', ('\\' as u32));
                assert(false);
            } else {
                assert(eb[0] == b && b != '\\' && ea[0] == '\\');
                vstd::utf8::char_u32_cast(b, (b as u32));
                vstd::utf8::char_u32_cast('\\', ('\\' as u32));
                assert(false);
            }
        } else {
            // both escaped: the second character tells the form apart
            assert(ea[1] == (ea + resta)[1]);
            assert(eb[1] == (eb + restb)[1]);
            assert(ea[1] == eb[1]);
            if ea.len() == 2 && eb.len() == 6 {
                assert(ea[1] == '"' || ea[1] == '\\');
                assert(eb[1] == 'u');
                vstd::utf8::char_u32_cast('u', ('u' as u32));
                vstd::utf8::char_u32_cast('"', ('"' as u32));
                vstd::utf8::char_u32_cast('\\', ('\\' as u32));
                assert(false);
            } else if ea.len() == 6 && eb.len() == 2 {
                assert(eb[1] == '"' || eb[1] == '\\');
                assert(ea[1] == 'u');
                vstd::utf8::char_u32_cast('u', ('u' as u32));
                vstd::utf8::char_u32_cast('"', ('"' as u32));
                vstd::utf8::char_u32_cast('\\', ('\\' as u32));
                assert(false);
            } else if ea.len() == 2 {
                assert(ea =~= eb) by {
                    assert(ea[0] == eb[0] && ea[1] == eb[1]);
                }
                lemma_esc_char_injective(a, b);
            } else {
                assert(forall|i: int| 0 <= i < 6 ==> ea[i] == (ea + resta)[i]);
                assert(forall|i: int| 0 <= i < 6 ==> eb[i] == (eb + restb)[i]);
                assert(ea =~= eb) by {
                    assert(forall|i: int| 0 <= i < 6 ==> ea[i] == eb[i]);
                }
                lemma_esc_char_injective(a, b);
            }
        }
        assert(a == b);
        assert(ea == eb);
        lemma_cancel_prefix(ea, resta, restb);
        lemma_token_esc(v.drop_first(), r1, w.drop_first(), r2);
        assert(v =~= seq![a] + v.drop_first());
        assert(w =~= seq![b] + w.drop_first());
    }
}

/// Given `enc_str(v) + r1 == enc_str(w) + r2`, the strings and the rests agree.
proof fn lemma_token_str(v: Seq<char>, r1: Seq<char>, w: Seq<char>, r2: Seq<char>)
    requires
        enc_str(v) + r1 == enc_str(w) + r2,
    ensures
        v == w,
        r1 == r2,
{
    assert(enc_str(v) + r1 =~= seq!['"'] + (esc(v) + seq!['"'] + r1));
    assert(enc_str(w) + r2 =~= seq!['"'] + (esc(w) + seq!['"'] + r2));
    lemma_cancel_prefix(seq!['"'], esc(v) + seq!['"'] + r1, esc(w) + seq!['"'] + r2);
    lemma_token_esc(v, r1, w, r2);
}

proof fn lemma_step_str(lit: Seq<char>, v1: Seq<char>, t1: Seq<char>, v2: Seq<char>, t2: Seq<char>)
    requires
        lit + (enc_str(v1) + t1) == lit + (enc_str(v2) + t2),
    ensures
        v1 == v2,
        t1 == t2,
{
    lemma_cancel_prefix(lit, enc_str(v1) + t1, enc_str(v2) + t2);
    assert(enc_str(v1) + t1 == enc_str(v2) + t2);
    lemma_token_str(v1, t1, v2, t2);
}

proof fn lemma_step_u64(lit: Seq<char>, a: u64, t1: Seq<char>, b: u64, t2: Seq<char>)
    requires
        lit + (dec_of_u64(a as int) + t1) == lit + (dec_of_u64(b as int) + t2),
        t1.len() > 0 && !is_digit(t1[0]),
        t2.len() > 0 && !is_digit(t2[0]),
    ensures
        a == b,
        t1 == t2,
{
    lemma_cancel_prefix(lit, dec_of_u64(a as int) + t1, dec_of_u64(b as int) + t2);
    lemma_token_u64(a, t1, b, t2);
}

#[verifier::rlimit(100)]
#[verifier::spinoff_prover]
proof fn lemma_lot_shape(l: LotV, r: Seq<char>)
    ensures
        enc_lot(l) + r == r#"{"asset":"#@ + (enc_str(l.asset) + (r#","size":"#@ + (enc_str(l.size)
            + (r#","basis":{"cost":"#@ + (enc_str(l.basis.cost) + (r#","count":"#@ + (enc_str(
            l.basis.count,
        ) + (r#","time":"#@ + (dec_of_u64(l.basis.time as int) + (r#","host":"#@ + (enc_str(
            l.basis.host,
        ) + (r#"},"host":"#@ + (enc_str(l.host) + (seq!['}'] + r)))))))))))))),
{
    assert(enc_lot(l) + r =~= r#"{"asset":"#@ + (enc_str(l.asset) + (r#","size":"#@ + (enc_str(
        l.size,
    ) + (r#","basis":{"cost":"#@ + (enc_str(l.basis.cost) + (r#","count":"#@ + (enc_str(
        l.basis.count,
    ) + (r#","time":"#@ + (dec_of_u64(l.basis.time as int) + (r#","host":"#@ + (enc_str(
        l.basis.host,
    ) + (r#"},"host":"#@ + (enc_str(l.host) + (seq!['}'] + r)))))))))))))));
}

#[verifier::rlimit(100)]
#[verifier::spinoff_prover]
proof fn lemma_token_lot_rest(l1: LotV, r1: Seq<char>, l2: LotV, r2: Seq<char>)
    requires
        r#","basis":{"cost":"#@ + (enc_str(l1.basis.cost) + (r#","count":"#@ + (enc_str(
            l1.basis.count,
        ) + (r#","time":"#@ + (dec_of_u64(l1.basis.time as int) + (r#","host":"#@ + (enc_str(
            l1.basis.host,
        ) + (r#"},"host":"#@ + (enc_str(l1.host) + (seq!['}'] + r1)))))))))) == r#","basis":{"cost":"#@
            + (enc_str(l2.basis.cost) + (r#","count":"#@ + (enc_str(l2.basis.count) + (r#","time":"#@
            + (dec_of_u64(l2.basis.time as int) + (r#","host":"#@ + (enc_str(l2.basis.host) + (
        r#"},"host":"#@ + (enc_str(l2.host) + (seq!['}'] + r2)))))))))),
    ensures
        l1.basis == l2.basis,
        l1.host == l2.host,
        r1 == r2,
{
    reveal_strlit(r#","host":"#);
    let u7_1 = enc_str(l1.host) + (seq!['}'] + r1);
    let u6_1 = enc_str(l1.basis.host) + (r#"},"host":"#@ + u7_1);
    let u5_1 = dec_of_u64(l1.basis.time as int) + (r#","host":"#@ + u6_1);
    let u4_1 = enc_str(l1.basis.count) + (r#","time":"#@ + u5_1);
    let u7_2 = enc_str(l2.host) + (seq!['}'] + r2);
    let u6_2 = enc_str(l2.basis.host) + (r#"},"host":"#@ + u7_2);
    let u5_2 = dec_of_u64(l2.basis.time as int) + (r#","host":"#@ + u6_2);
    let u4_2 = enc_str(l2.basis.count) + (r#","time":"#@ + u5_2);
    lemma_step_str(
        r#","basis":{"cost":"#@,
        l1.basis.cost,
        r#","count":"#@ + u4_1,
        l2.basis.cost,
        r#","count":"#@ + u4_2,
    );
    lemma_step_str(
        r#","count":"#@,
        l1.basis.count,
        r#","time":"#@ + u5_1,
        l2.basis.count,
        r#","time":"#@ + u5_2,
    );
    assert((r#","host":"#@ + u6_1)[0] == ',');
    assert((r#","host":"#@ + u6_2)[0] == ',');
    assert((',' as u32) == 44);
    lemma_step_u64(
        r#","time":"#@,
        l1.basis.time,
        r#","host":"#@ + u6_1,
        l2.basis.time,
        r#","host":"#@ + u6_2,
    );
    lemma_step_str(
        r#","host":"#@,
        l1.basis.host,
        r#"},"host":"#@ + u7_1,
        l2.basis.host,
        r#"},"host":"#@ + u7_2,
    );
    lemma_step_str(r#"},"host":"#@, l1.host, seq!['}'] + r1, l2.host, seq!['}'] + r2);
    lemma_cancel_prefix(seq!['}'], r1, r2);
    assert(l1.basis == l2.basis);
}

#[verifier::rlimit(100)]
#[verifier::spinoff_prover]
proof fn lemma_token_lot_front(l1: LotV, r1: Seq<char>, l2: LotV, r2: Seq<char>)
    requires
        enc_lot(l1) + r1 == enc_lot(l2) + r2,
    ensures
        l1.asset == l2.asset,
        l1.size == l2.size,
        r#","basis":{"cost":"#@ + (enc_str(l1.basis.cost) + (r#","count":"#@ + (enc_str(
            l1.basis.count,
        ) + (r#","time":"#@ + (dec_of_u64(l1.basis.time as int) + (r#","host":"#@ + (enc_str(
            l1.basis.host,
        ) + (r#"},"host":"#@ + (enc_str(l1.host) + (seq!['}'] + r1)))))))))) == r#","basis":{"cost":"#@
            + (enc_str(l2.basis.cost) + (r#","count":"#@ + (enc_str(l2.basis.count) + (r#","time":"#@
            + (dec_of_u64(l2.basis.time as int) + (r#","host":"#@ + (enc_str(l2.basis.host) + (
        r#"},"host":"#@ + (enc_str(l2.host) + (seq!['}'] + r2)))))))))),
{
    let u7_1 = enc_str(l1.host) + (seq!['}'] + r1);
    let u6_1 = enc_str(l1.basis.host) + (r#"},"host":"#@ + u7_1);
    let u5_1 = dec_of_u64(l1.basis.time as int) + (r#","host":"#@ + u6_1);
    let u4_1 = enc_str(l1.basis.count) + (r#","time":"#@ + u5_1);
    let u3_1 = enc_str(l1.basis.cost) + (r#","count":"#@ + u4_1);
    let u2_1 = enc_str(l1.size) + (r#","basis":{"cost":"#@ + u3_1);
    let u1_1 = enc_str(l1.asset) + (r#","size":"#@ + u2_1);
    let u7_2 = enc_str(l2.host) + (seq!['}'] + r2);
    let u6_2 = enc_str(l2.basis.host) + (r#"},"host":"#@ + u7_2);
    let u5_2 = dec_of_u64(l2.basis.time as int) + (r#","host":"#@ + u6_2);
    let u4_2 = enc_str(l2.basis.count) + (r#","time":"#@ + u5_2);
    let u3_2 = enc_str(l2.basis.cost) + (r#","count":"#@ + u4_2);
    let u2_2 = enc_str(l2.size) + (r#","basis":{"cost":"#@ + u3_2);
    let u1_2 = enc_str(l2.asset) + (r#","size":"#@ + u2_2);
    lemma_lot_shape(l1, r1);
    lemma_lot_shape(l2, r2);
    assert(r#"{"asset":"#@ + u1_1 == r#"{"asset":"#@ + u1_2);
    lemma_cancel_prefix(r#"{"asset":"#@, u1_1, u1_2);
    lemma_token_str(l1.asset, r#","size":"#@ + u2_1, l2.asset, r#","size":"#@ + u2_2);
    lemma_step_str(
        r#","size":"#@,
        l1.size,
        r#","basis":{"cost":"#@ + u3_1,
        l2.size,
        r#","basis":{"cost":"#@ + u3_2,
    );
}

#[verifier::spinoff_prover]
proof fn lemma_token_lot(l1: LotV, r1: Seq<char>, l2: LotV, r2: Seq<char>)
    requires
        enc_lot(l1) + r1 == enc_lot(l2) + r2,
    ensures
        l1 == l2,
        r1 == r2,
{
    lemma_token_lot_front(l1, r1, l2, r2);
    lemma_token_lot_rest(l1, r1, l2, r2);
    assert(l1 == l2);
}

#[verifier::rlimit(100)]
proof fn lemma_token_entry(
    id1: u64,
    l1: LotV,
    r1: Seq<char>,
    id2: u64,
    l2: LotV,
    r2: Seq<char>,
)
    requires
        enc_entry(id1, l1) + r1 == enc_entry(id2, l2) + r2,
    ensures
        id1 == id2,
        l1 == l2,
        r1 == r2,
{
    let m1 = dec_of_u64(id1 as int) + (seq!['"', ':'] + (enc_lot(l1) + r1));
    let m2 = dec_of_u64(id2 as int) + (seq!['"', ':'] + (enc_lot(l2) + r2));
    assert(enc_entry(id1, l1) + r1 =~= seq!['"'] + m1);
    assert(enc_entry(id2, l2) + r2 =~= seq!['"'] + m2);
    lemma_cancel_prefix(seq!['"'], m1, m2);
    assert((seq!['"', ':'] + (enc_lot(l1) + r1))[0] == '"');
    assert((seq!['"', ':'] + (enc_lot(l2) + r2))[0] == '"');
    assert(('"' as u32) == 34);
    lemma_token_u64(id1, seq!['"', ':'] + (enc_lot(l1) + r1), id2, seq!['"', ':'] + (enc_lot(l2) + r2));
    lemma_cancel_prefix(seq!['"', ':'], enc_lot(l1) + r1, enc_lot(l2) + r2);
    lemma_token_lot(l1, r1, l2, r2);
}

proof fn lemma_enc_entry_head(id: u64, l: LotV)
    ensures
        enc_entry(id, l).len() > 0,
        enc_entry(id, l)[0] == '"',
{
    assert(enc_entry(id, l)[0] == '"');
}

#[verifier::rlimit(100)]
proof fn lemma_enc_entries_front(l: Seq<(u64, LotV)>)
    requires
        l.len() >= 2,
    ensures
        enc_entries(l) == enc_entry(l[0].0, l[0].1) + (seq![','] + enc_entries(l.drop_first())),
    decreases l.len(),
{
    let dl = l.drop_last();
    let df = l.drop_first();
    if l.len() == 2 {
        assert(dl.len() == 1);
        assert(dl[0] == l[0]);
        assert(df.len() == 1);
        assert(df[0] == l[1]);
        assert(enc_entries(dl) == enc_entry(l[0].0, l[0].1));
        assert(enc_entries(df) == enc_entry(l[1].0, l[1].1));
        assert(l.last() == l[1]);
        assert(enc_entries(l) =~= enc_entry(l[0].0, l[0].1) + (seq![','] + enc_entries(df)));
    } else {
        lemma_enc_entries_front(dl);
        assert(dl[0] == l[0]);
        assert(dl.drop_first() =~= df.drop_last());
        assert(df.len() >= 2);
        assert(df.last() == l.last());
        assert(enc_entries(df) == enc_entries(df.drop_last()) + seq![','] + enc_entry(
            df.last().0,
            df.last().1,
        ));
        assert(enc_entries(l) == enc_entries(dl) + seq![','] + enc_entry(l.last().0, l.last().1));
        assert(enc_entries(l) =~= enc_entry(l[0].0, l[0].1) + (seq![','] + enc_entries(df)));
    }
}

#[verifier::rlimit(60)]
proof fn lemma_entries_injective(la: Seq<(u64, LotV)>, lb: Seq<(u64, LotV)>)
    requires
        enc_entries(la) == enc_entries(lb),
    ensures
        la == lb,
    decreases la.len(),
{
    if la.len() == 0 && lb.len() == 0 {
        assert(la =~= lb);
    } else if la.len() == 0 {
        if lb.len() == 1 {
            lemma_enc_entry_head(lb[0].0, lb[0].1);
        } else {
            lemma_enc_entries_front(lb);
            lemma_enc_entry_head(lb[0].0, lb[0].1);
        }
        assert(enc_entries(lb).len() > 0);
        assert(false);
    } else if lb.len() == 0 {
        if la.len() == 1 {
            lemma_enc_entry_head(la[0].0, la[0].1);
        } else {
            lemma_enc_entries_front(la);
            lemma_enc_entry_head(la[0].0, la[0].1);
        }
        assert(enc_entries(la).len() > 0);
        assert(false);
    } else if la.len() == 1 && lb.len() == 1 {
        assert(enc_entries(la) == enc_entry(la[0].0, la[0].1));
        assert(enc_entries(lb) == enc_entry(lb[0].0, lb[0].1));
        assert(enc_entry(la[0].0, la[0].1) + Seq::<char>::empty() =~= enc_entries(la));
        assert(enc_entry(lb[0].0, lb[0].1) + Seq::<char>::empty() =~= enc_entries(lb));
        lemma_token_entry(
            la[0].0,
            la[0].1,
            Seq::<char>::empty(),
            lb[0].0,
            lb[0].1,
            Seq::<char>::empty(),
        );
        assert(la[0] == (la[0].0, la[0].1));
        assert(lb[0] == (lb[0].0, lb[0].1));
        assert(la =~= lb);
    } else if la.len() == 1 {
        lemma_enc_entries_front(lb);
        assert(enc_entry(la[0].0, la[0].1) + Seq::<char>::empty() =~= enc_entries(la));
        lemma_token_entry(
            la[0].0,
            la[0].1,
            Seq::<char>::empty(),
            lb[0].0,
            lb[0].1,
            seq![','] + enc_entries(lb.drop_first()),
        );
        assert((seq![','] + enc_entries(lb.drop_first())).len() > 0);
        assert(false);
    } else if lb.len() == 1 {
        lemma_enc_entries_front(la);
        assert(enc_entry(lb[0].0, lb[0].1) + Seq::<char>::empty() =~= enc_entries(lb));
        lemma_token_entry(
            la[0].0,
            la[0].1,
            seq![','] + enc_entries(la.drop_first()),
            lb[0].0,
            lb[0].1,
            Seq::<char>::empty(),
        );
        assert((seq![','] + enc_entries(la.drop_first())).len() > 0);
        assert(false);
    } else {
        lemma_enc_entries_front(la);
        lemma_enc_entries_front(lb);
        lemma_token_entry(
            la[0].0,
            la[0].1,
            seq![','] + enc_entries(la.drop_first()),
            lb[0].0,
            lb[0].1,
            seq![','] + enc_entries(lb.drop_first()),
        );
        lemma_cancel_prefix(seq![','], enc_entries(la.drop_first()), enc_entries(lb.drop_first()));
        lemma_entries_injective(la.drop_first(), lb.drop_first());
        assert(la[0] == (la[0].0, la[0].1));
        assert(lb[0] == (lb[0].0, lb[0].1));
        assert forall|i: int| 0 <= i < la.len() implies la[i] == lb[i] by {
            if i > 0 {
                assert(la[i] == la.drop_first()[i - 1]);
                assert(lb[i] == lb.drop_first()[i - 1]);
            }
        }
        assert(la =~= lb);
    }
}

/// Law: the persisted form determines the ledger — two ledgers with the same
/// persisted text are the same ledger. Together with the decoder's
/// guarantee (a successful read's encoding is the input) and the encoder's
/// (the output is the ledger's persisted form), reading a ledger's persisted
/// form back can only reproduce that ledger: the same counter, the same lots.
#[verifier::rlimit(100)]
pub proof fn lemma_encode_injective(a: StashV, b: StashV)
    requires
        spec_encode(a) == spec_encode(b),
    ensures
        a == b,
{
    reveal_strlit(r#","lots":{"#);
    let ta = dec_of_u64(a.max_lot_id as int) + (r#","lots":{"#@ + (enc_entries(a.lots) + seq![
        '}',
        '}',
    ]));
    let tb = dec_of_u64(b.max_lot_id as int) + (r#","lots":{"#@ + (enc_entries(b.lots) + seq![
        '}',
        '}',
    ]));
    assert(spec_encode(a) =~= r#"{"max_lot_id":"#@ + ta);
    assert(spec_encode(b) =~= r#"{"max_lot_id":"#@ + tb);
    lemma_cancel_prefix(r#"{"max_lot_id":"#@, ta, tb);
    assert((r#","lots":{"#@ + (enc_entries(a.lots) + seq!['}', '}']))[0] == ',');
    assert((r#","lots":{"#@ + (enc_entries(b.lots) + seq!['}', '}']))[0] == ',');
    assert((',' as u32) == 44);
    lemma_token_u64(
        a.max_lot_id,
        r#","lots":{"#@ + (enc_entries(a.lots) + seq!['}', '}']),
        b.max_lot_id,
        r#","lots":{"#@ + (enc_entries(b.lots) + seq!['}', '}']),
    );
    lemma_cancel_prefix(
        r#","lots":{"#@,
        enc_entries(a.lots) + seq!['}', '}'],
        enc_entries(b.lots) + seq!['}', '}'],
    );
    lemma_cancel_suffix(enc_entries(a.lots), enc_entries(b.lots), seq!['}', '}']);
    lemma_entries_injective(a.lots, b.lots);
    assert(a == b);
}

// ---------------------------------------------------------------------------
// Price list rendering
// ---------------------------------------------------------------------------

/// One price as a JSON object; the level keeps its decimal text.
pub open spec fn enc_price(p: MarketPriceV) -> Seq<char> {
    r#"{"symbol":"#@ + enc_str(p.symbol) + r#","asset":"#@ + enc_str(p.asset) + r#","level":"#@
        + enc_str(p.level) + r#","currency":"#@ + enc_str(p.currency) + r#","epoch":"#@
        + dec_of_u64(p.epoch as int) + seq!['}']
}

/// A price list as a JSON array, in fetch order.
pub open spec fn enc_prices(ps: Seq<MarketPriceV>) -> Seq<char>
    decreases ps.len(),
{
    if ps.len() == 0 {
        Seq::empty()
    } else if ps.len() == 1 {
        enc_price(ps[0])
    } else {
        enc_prices(ps.drop_last()) + seq![','] + enc_price(ps.last())
    }
}

impl PriceList {
    /// Render the list as a JSON array of price objects.
    #[verifier::rlimit(60)]
    pub fn to_json(&self) -> (r: String)
        ensures
            r@ == seq!['['] + enc_prices(self@) + seq![']'],
    {
        let mut out = String::new();
        push_char(&mut out, '[');
        let ghost header = out@;
        let prices = self.iter();
        let n: usize = prices.len();
        let mut i: usize = 0;
        proof {
            assert(enc_prices(self@.take(0)) =~= Seq::<char>::empty());
            assert(out@ =~= header + enc_prices(self@.take(0)));
        }
        while i < n
            invariant
                0 <= i <= n,
                n == prices@.len(),
                crate::yf::prices_views(prices@) == self@,
                self@.len() == n,
                out@ == header + enc_prices(self@.take(i as int)),
            decreases n - i,
        {
            proof {
                assert(self@.take(i + 1).drop_last() =~= self@.take(i as int));
                assert(self@.take(i + 1).last() == self@[i as int]);
                assert(self@[i as int] == prices@[i as int]@);
            }
            if i > 0 {
                push_char(&mut out, ',');
            }
            let p = &prices[i];
            out.append(r#"{"symbol":"#);
            emit_str(&mut out, p.symbol.as_str());
            out.append(r#","asset":"#);
            emit_str(&mut out, p.asset.as_str());
            out.append(r#","level":"#);
            emit_str(&mut out, p.level.as_str());
            out.append(r#","currency":"#);
            emit_str(&mut out, p.currency.as_str());
            out.append(r#","epoch":"#);
            emit_u64(&mut out, p.epoch);
            push_char(&mut out, '}');
            proof {
                assert(out@ =~= header + enc_prices(self@.take(i + 1)));
            }
            i = i + 1;
        }
        push_char(&mut out, ']');
        proof {
            assert(self@.take(n as int) =~= self@);
            assert(out@ =~= seq!['['] + enc_prices(self@) + seq![']']);
        }
        out
    }
}

} // verus!
