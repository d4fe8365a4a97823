//! The canonical JSON text of a configuration: a verified writer and a
//! verified parser.
//!
//! The persisted file format is one fixed shape of JSON, written without
//! spacing and with every decimal in its canonical form. The writer
//! produces exactly [`config_text`]. The loader accepts every text of
//! [`config_text_opt`]: the same shape with the `app_id`, `fx_app_id`
//! and `timestamp` members each optional, an absent credential reading
//! as empty and an absent timestamp as the instant of the load.
//!
//! Stated restrictions of the format, beyond that shape: members keep
//! the order shown above; whitespace between tokens is not accepted;
//! decimals are JSON strings in canonical form (no leading or trailing
//! zeros), not bare numbers; and the credential strings are stored
//! verbatim, so they are restricted to printable ASCII without `"` or
//! `\` rather than escaped.

use vstd::prelude::*;
use crate::decimal::{dec_text, fixed_text, uint_text, Dec};
use crate::model::{Configuration, Portfolio, Position, PriceEntry, PriceMap};
use crate::model::{text_wf, ticker_wf};

verus! {

/// The text of one position object.
pub open spec fn position_text(p: Position) -> Seq<char> {
    "{\"currency\":\""@ + p.currency@ + "\",\"holding\":\""@ + dec_text(p.holding) + "\"}"@
}

/// The comma-and-item continuation of a position list.
pub open spec fn positions_tail_text(q: Seq<Position>) -> Seq<char>
    decreases q.len(),
{
    if q.len() == 0 {
        Seq::empty()
    } else {
        seq![','] + position_text(q[0]) + positions_tail_text(q.skip(1))
    }
}

/// The comma-separated list of position objects.
pub open spec fn positions_text(q: Seq<Position>) -> Seq<char> {
    if q.len() == 0 {
        Seq::empty()
    } else {
        position_text(q[0]) + positions_tail_text(q.skip(1))
    }
}

/// The text of one snapshot price binding.
pub open spec fn entry_text(e: PriceEntry) -> Seq<char> {
    seq!['"'] + e.currency@ + "\":\""@ + dec_text(e.price) + seq!['"']
}

/// The comma-and-item continuation of a price-binding list.
pub open spec fn entries_tail_text(q: Seq<PriceEntry>) -> Seq<char>
    decreases q.len(),
{
    if q.len() == 0 {
        Seq::empty()
    } else {
        seq![','] + entry_text(q[0]) + entries_tail_text(q.skip(1))
    }
}

/// The comma-separated list of price bindings.
pub open spec fn entries_text(q: Seq<PriceEntry>) -> Seq<char> {
    if q.len() == 0 {
        Seq::empty()
    } else {
        entry_text(q[0]) + entries_tail_text(q.skip(1))
    }
}

/// The text up to the end of the `app_id` value.
pub open spec fn text_a(c: Configuration) -> Seq<char> {
    "{\"app_id\":\""@ + c.app_id@
}

/// The text up to the end of the `fx_app_id` value.
pub open spec fn text_b(c: Configuration) -> Seq<char> {
    text_a(c) + "\",\"fx_app_id\":\""@ + c.fx_app_id@
}

/// The text up to the end of the timestamp.
pub open spec fn text_c(c: Configuration) -> Seq<char> {
    text_b(c) + "\",\"timestamp\":"@ + uint_text(c.timestamp as int)
}

/// The text up to the opening bracket of the position list.
pub open spec fn text_d(c: Configuration) -> Seq<char> {
    text_c(c) + ",\"portfolio\":{\"positions\":["@
}

/// The text up to the opening brace of the price object.
pub open spec fn text_e(c: Configuration) -> Seq<char> {
    text_d(c) + positions_text(c.portfolio.positions@) + "]},\"prices\":{"@
}

/// The canonical text of a whole configuration.
pub open spec fn config_text(c: Configuration) -> Seq<char> {
    text_e(c) + entries_text(c.prices.entries@) + "}}"@
}

/// The `app_id` member with its trailing separator.
pub open spec fn app_unit(c: Configuration) -> Seq<char> {
    "\"app_id\":\""@ + c.app_id@ + "\","@
}

/// The `fx_app_id` member with its trailing separator.
pub open spec fn fx_unit(c: Configuration) -> Seq<char> {
    "\"fx_app_id\":\""@ + c.fx_app_id@ + "\","@
}

/// The `timestamp` member with its trailing separator.
pub open spec fn ts_unit(c: Configuration) -> Seq<char> {
    "\"timestamp\":"@ + uint_text(c.timestamp as int) + seq![',']
}

/// The configuration text with each of the three leading members present
/// or absent: the shape the loader accepts, the optional members
/// defaulting when absent.
pub open spec fn config_text_opt(c: Configuration, fa: bool, ff: bool, ft: bool) -> Seq<char> {
    seq!['{'] + (if fa {
        app_unit(c)
    } else {
        Seq::<char>::empty()
    }) + (if ff {
        fx_unit(c)
    } else {
        Seq::<char>::empty()
    }) + (if ft {
        ts_unit(c)
    } else {
        Seq::<char>::empty()
    }) + "\"portfolio\":{\"positions\":["@ + positions_text(c.portfolio.positions@)
        + "]},\"prices\":{"@ + entries_text(c.prices.entries@) + "}}"@
}

/// A well-formed configuration whose text, in the given member shape,
/// is exactly `s`, with each absent member carrying its default: empty
/// credentials, and the given instant as the timestamp.
pub open spec fn canonical_opt(
    c: Configuration,
    s: Seq<char>,
    fa: bool,
    ff: bool,
    ft: bool,
    now: u64,
) -> bool {
    &&& c.wf()
    &&& s == config_text_opt(c, fa, ff, ft)
    &&& (!fa ==> c.app_id@ == Seq::<char>::empty())
    &&& (!ff ==> c.fx_app_id@ == Seq::<char>::empty())
    &&& (!ft ==> c.timestamp == now)
}

/// With all three members present, the shaped text is the canonical text.
pub proof fn lemma_config_text_opt_all(c: Configuration)
    ensures
        config_text_opt(c, true, true, true) == config_text(c),
{
    reveal_strlit("{\"app_id\":\"");
    reveal_strlit("\"app_id\":\"");
    reveal_strlit("\",\"fx_app_id\":\"");
    reveal_strlit("\"fx_app_id\":\"");
    reveal_strlit("\",\"timestamp\":");
    reveal_strlit("\"timestamp\":");
    reveal_strlit(",\"portfolio\":{\"positions\":[");
    reveal_strlit("\"portfolio\":{\"positions\":[");
    reveal_strlit("\",");
    assert(config_text_opt(c, true, true, true) =~= config_text(c));
}

/// Appending one more position extends the list text by a separator and
/// that position's text.
proof fn lemma_positions_tail_snoc(q: Seq<Position>, p: Position)
    ensures
        positions_tail_text(q.push(p)) == positions_tail_text(q) + seq![','] + position_text(p),
    decreases q.len(),
{
    if q.len() == 0 {
        let s1 = q.push(p);
        assert(s1.skip(1) =~= Seq::<Position>::empty());
        assert(s1[0] == p);
        assert(s1.len() == 1);
        assert(positions_tail_text(s1) == seq![','] + position_text(s1[0]) + positions_tail_text(
            s1.skip(1),
        ));
        assert(positions_tail_text(s1.skip(1)) =~= Seq::<char>::empty());
        assert(positions_tail_text(q) =~= Seq::<char>::empty());
        assert(positions_tail_text(q.push(p)) =~= positions_tail_text(q) + seq![',']
            + position_text(p));
    } else {
        lemma_positions_tail_snoc(q.skip(1), p);
        assert(q.push(p).skip(1) =~= q.skip(1).push(p));
        assert(q.push(p)[0] == q[0]);
        assert(positions_tail_text(q.push(p)) =~= positions_tail_text(q) + seq![',']
            + position_text(p));
    }
}

proof fn lemma_positions_text_snoc(q: Seq<Position>, p: Position)
    ensures
        q.len() == 0 ==> positions_text(q.push(p)) == position_text(p),
        q.len() > 0 ==> positions_text(q.push(p)) == positions_text(q) + seq![','] + position_text(
            p,
        ),
{
    if q.len() == 0 {
        assert(q.push(p)[0] == p);
        assert(q.push(p).skip(1) =~= Seq::<Position>::empty());
        assert(positions_text(q.push(p)) =~= position_text(p));
    } else {
        lemma_positions_tail_snoc(q.skip(1), p);
        assert(q.push(p).skip(1) =~= q.skip(1).push(p));
        assert(q.push(p)[0] == q[0]);
        assert(positions_text(q.push(p)) =~= positions_text(q) + seq![','] + position_text(p));
    }
}

/// Appending one more binding extends the list text by a separator and
/// that binding's text.
proof fn lemma_entries_tail_snoc(q: Seq<PriceEntry>, e: PriceEntry)
    ensures
        entries_tail_text(q.push(e)) == entries_tail_text(q) + seq![','] + entry_text(e),
    decreases q.len(),
{
    if q.len() == 0 {
        let s1 = q.push(e);
        assert(s1.skip(1) =~= Seq::<PriceEntry>::empty());
        assert(s1[0] == e);
        assert(s1.len() == 1);
        assert(entries_tail_text(s1) == seq![','] + entry_text(s1[0]) + entries_tail_text(
            s1.skip(1),
        ));
        assert(entries_tail_text(s1.skip(1)) =~= Seq::<char>::empty());
        assert(entries_tail_text(q) =~= Seq::<char>::empty());
        assert(entries_tail_text(q.push(e)) =~= entries_tail_text(q) + seq![','] + entry_text(e));
    } else {
        lemma_entries_tail_snoc(q.skip(1), e);
        assert(q.push(e).skip(1) =~= q.skip(1).push(e));
        assert(q.push(e)[0] == q[0]);
        assert(entries_tail_text(q.push(e)) =~= entries_tail_text(q) + seq![','] + entry_text(e));
    }
}

proof fn lemma_entries_text_snoc(q: Seq<PriceEntry>, e: PriceEntry)
    ensures
        q.len() == 0 ==> entries_text(q.push(e)) == entry_text(e),
        q.len() > 0 ==> entries_text(q.push(e)) == entries_text(q) + seq![','] + entry_text(e),
{
    if q.len() == 0 {
        assert(q.push(e)[0] == e);
        assert(q.push(e).skip(1) =~= Seq::<PriceEntry>::empty());
        assert(entries_text(q.push(e)) =~= entry_text(e));
    } else {
        lemma_entries_tail_snoc(q.skip(1), e);
        assert(q.push(e).skip(1) =~= q.skip(1).push(e));
        assert(q.push(e)[0] == q[0]);
        assert(entries_text(q.push(e)) =~= entries_text(q) + seq![','] + entry_text(e));
    }
}

/// Serialize a configuration in the given member shape; the loader
/// compares against this to accept exactly the shaped texts.
#[verifier::rlimit(100)]
fn write_config_text_shaped(c: &Configuration, fa: bool, ff: bool, ft: bool) -> (r: String)
    requires
        c.wf(),
    ensures
        r@ == config_text_opt(*c, fa, ff, ft),
{
    let mut out = String::new();
    out.append("{");
    if fa {
        out.append("\"app_id\":\"");
        out.append(c.app_id.as_str());
        out.append("\",");
    }
    if ff {
        out.append("\"fx_app_id\":\"");
        out.append(c.fx_app_id.as_str());
        out.append("\",");
    }
    if ft {
        out.append("\"timestamp\":");
        crate::decimal::push_uint(&mut out, c.timestamp);
        out.append(",");
    }
    out.append("\"portfolio\":{\"positions\":[");
    let n = c.portfolio.positions.len();
    let ghost base = out@;
    let mut i: usize = 0;
    while i < n
        invariant
            c.wf(),
            n == c.portfolio.positions@.len(),
            0 <= i <= n,
            out@ == base + positions_text(c.portfolio.positions@.take(i as int)),
        decreases n - i,
    {
        if i > 0 {
            out.append(",");
            proof {
                reveal_strlit(",");
            }
        }
        let p = &c.portfolio.positions[i];
        out.append("{\"currency\":\"");
        out.append(p.currency.as_str());
        out.append("\",\"holding\":\"");
        let holding_text = p.holding.to_text();
        out.append(holding_text.as_str());
        out.append("\"}");
        proof {
            let q = c.portfolio.positions@.take(i as int);
            lemma_positions_text_snoc(q, c.portfolio.positions@[i as int]);
            assert(c.portfolio.positions@.take(i + 1) =~= q.push(
                c.portfolio.positions@[i as int],
            ));
            assert(out@ =~= base + positions_text(c.portfolio.positions@.take(i + 1)));
        }
        i = i + 1;
    }
    proof {
        assert(c.portfolio.positions@.take(n as int) =~= c.portfolio.positions@);
    }
    out.append("]},\"prices\":{");
    let m = c.prices.entries.len();
    let ghost base2 = out@;
    let mut j: usize = 0;
    while j < m
        invariant
            c.wf(),
            m == c.prices.entries@.len(),
            0 <= j <= m,
            out@ == base2 + entries_text(c.prices.entries@.take(j as int)),
        decreases m - j,
    {
        if j > 0 {
            out.append(",");
            proof {
                reveal_strlit(",");
            }
        }
        let e = &c.prices.entries[j];
        out.append("\"");
        out.append(e.currency.as_str());
        out.append("\":\"");
        let price_text = e.price.to_text();
        out.append(price_text.as_str());
        out.append("\"");
        proof {
            reveal_strlit("\"");
            let q = c.prices.entries@.take(j as int);
            lemma_entries_text_snoc(q, c.prices.entries@[j as int]);
            assert(c.prices.entries@.take(j + 1) =~= q.push(c.prices.entries@[j as int]));
            assert(out@ =~= base2 + entries_text(c.prices.entries@.take(j + 1)));
        }
        j = j + 1;
    }
    proof {
        assert(c.prices.entries@.take(m as int) =~= c.prices.entries@);
    }
    out.append("}}");
    proof {
        reveal_strlit("{");
        reveal_strlit(",");
        reveal_strlit("\"app_id\":\"");
        reveal_strlit("\"fx_app_id\":\"");
        reveal_strlit("\"timestamp\":");
        reveal_strlit("\",");
        assert(out@ =~= config_text_opt(*c, fa, ff, ft));
    }
    out
}

/// Whether the text has the given literal at position `i`.
pub open spec fn lit_at(s: Seq<char>, i: int, lit: Seq<char>) -> bool {
    i + lit.len() <= s.len() && s.subrange(i, i + lit.len()) == lit
}

/// Check that the given literal fragment stands at position `i`.
fn expect_lit(s: &str, i: usize, lit: &str) -> (r: Option<usize>)
    requires
        i <= s@.len(),
    ensures
        r matches Some(j) ==> j == i + lit@.len() && lit_at(s@, i as int, lit@),
        r is None ==> !lit_at(s@, i as int, lit@),
{
    let sl = s.unicode_len();
    let ll = lit.unicode_len();
    if sl - i < ll {
        return None;
    }
    let mut k: usize = 0;
    while k < ll
        invariant
            i + ll <= sl,
            sl == s@.len(),
            ll == lit@.len(),
            0 <= k <= ll,
            forall|t: int| 0 <= t < k ==> s@[i + t] == lit@[t],
        decreases ll - k,
    {
        if s.get_char(i + k) != lit.get_char(k) {
            proof {
                assert(s@.subrange(i as int, i + lit@.len()) != lit@) by {
                    assert(s@.subrange(i as int, i + lit@.len())[k as int] == s@[i + k]);
                }
            }
            return None;
        }
        k = k + 1;
    }
    proof {
        assert(s@.subrange(i as int, i + lit@.len()) =~= lit@);
    }
    Some(i + ll)
}

/// Scan from `i` up to the next double quote, returning the run and the
/// quote's position.
fn scan_plain(s: &str, i: usize) -> (r: Option<(String, usize)>)
    requires
        i <= s@.len(),
    ensures
        r matches Some((t, j)) ==> {
            &&& i <= j < s@.len()
            &&& s@[j as int] == '"'
            &&& t@ == s@.subrange(i as int, j as int)
            &&& forall|k: int| i <= k < j ==> s@[k] != '"'
        },
        r is None ==> forall|k: int| i <= k < s@.len() ==> s@[k] != '"',
{
    let sl = s.unicode_len();
    let mut j: usize = i;
    while j < sl
        invariant
            i <= j <= sl,
            sl == s@.len(),
            forall|k: int| i <= k < j ==> s@[k] != '"',
        decreases sl - j,
    {
        if s.get_char(j) == '"' {
            let t = s.substring_char(i, j).to_owned();
            return Some((t, j));
        }
        j = j + 1;
    }
    None
}

/// Check that every character may stand in an opaque text field.
pub fn check_text(t: &String) -> (b: bool)
    ensures
        b == text_wf(t@),
{
    let tl = t.as_str().unicode_len();
    let mut k: usize = 0;
    while k < tl
        invariant
            tl == t@.len(),
            0 <= k <= tl,
            forall|u: int| 0 <= u < k ==> crate::model::text_char(#[trigger] t@[u]),
        decreases tl - k,
    {
        let c = t.as_str().get_char(k);
        let u = c as u32;
        if !(32 <= u && u <= 126 && c != '"' && c != '\\') {
            return false;
        }
        k = k + 1;
    }
    true
}

/// Check that the text is a valid ticker.
pub fn check_ticker(t: &String) -> (b: bool)
    ensures
        b == ticker_wf(t@),
{
    let tl = t.as_str().unicode_len();
    if tl == 0 {
        return false;
    }
    let mut k: usize = 0;
    while k < tl
        invariant
            tl == t@.len(),
            0 <= k <= tl,
            forall|u: int| 0 <= u < k ==> crate::model::ticker_char(#[trigger] t@[u]),
        decreases tl - k,
    {
        let c = t.as_str().get_char(k);
        let u = c as u32;
        if !((65 <= u && u <= 90) || (48 <= u && u <= 57)) {
            return false;
        }
        k = k + 1;
    }
    true
}

/// The end of the maximal digit run beginning at `i`.
fn scan_digits(s: &str, i: usize) -> (j: usize)
    requires
        i <= s@.len(),
    ensures
        i <= j <= s@.len(),
        forall|k: int| i <= k < j ==> crate::decimal::is_digit_char(#[trigger] s@[k]),
        j < s@.len() ==> !crate::decimal::is_digit_char(s@[j as int]),
{
    let sl = s.unicode_len();
    let mut j: usize = i;
    while j < sl
        invariant
            i <= j <= sl,
            sl == s@.len(),
            forall|k: int| i <= k < j ==> crate::decimal::is_digit_char(#[trigger] s@[k]),
        decreases sl - j,
    {
        let c = s.get_char(j);
        let u = c as u32;
        if !(48 <= u && u <= 57) {
            return j;
        }
        j = j + 1;
    }
    j
}

/// The number denoted by the digit run `s[i..j]` (at most 25 digits).
fn digits_to_u128(s: &str, i: usize, j: usize) -> (n: u128)
    requires
        i <= j <= s@.len(),
        j - i <= 25,
        forall|k: int| i <= k < j ==> crate::decimal::is_digit_char(#[trigger] s@[k]),
    ensures
        n == crate::decimal::digits_val(s@.subrange(i as int, j as int)),
        n < crate::decimal::pow10((j - i) as nat),
{
    proof {
        reveal_with_fuel(crate::decimal::pow10, 27);
    }
    let mut n: u128 = 0;
    let mut pos: usize = i;
    while pos < j
        invariant
            i <= pos <= j <= s@.len(),
            j - i <= 25,
            forall|k: int| i <= k < j ==> crate::decimal::is_digit_char(#[trigger] s@[k]),
            n == crate::decimal::digits_val(s@.subrange(i as int, pos as int)),
            n < crate::decimal::pow10((pos - i) as nat),
            crate::decimal::pow10(25nat) == 10_000_000_000_000_000_000_000_000u128,
        decreases j - pos,
    {
        let c = s.get_char(pos);
        let u = c as u32;
        let d: u128 = (u - 48) as u128;
        proof {
            assert(crate::decimal::is_digit_char(s@[pos as int]));
            assert(d == crate::decimal::digit_val(s@[pos as int]));
            assert(s@.subrange(i as int, pos + 1).drop_last() =~= s@.subrange(
                i as int,
                pos as int,
            ));
            assert(s@.subrange(i as int, pos + 1).last() == s@[pos as int]);
            assert(crate::decimal::pow10((pos + 1 - i) as nat) == 10 * crate::decimal::pow10(
                (pos - i) as nat,
            ));
            crate::decimal::lemma_pow10_pos((pos - i) as nat);
            assert(crate::decimal::pow10((pos - i) as nat) <= crate::decimal::pow10(25nat)) by {
                crate::decimal::lemma_pow10_adds((pos - i) as nat, (25 - (pos - i)) as nat);
                crate::decimal::lemma_pow10_pos((25 - (pos - i)) as nat);
                crate::decimal::lemma_abs_bound(
                    crate::decimal::pow10((pos - i) as nat),
                    crate::decimal::pow10((25 - (pos - i)) as nat),
                    crate::decimal::pow10(25nat),
                );
            }
        }
        n = n * 10 + d;
        pos = pos + 1;
    }
    proof {
        crate::decimal::lemma_pow10_pos((j - i) as nat);
    }
    n
}

/// The magnitude of a decimal's mantissa.
pub open spec fn dec_abs(d: Dec) -> int {
    if d.m < 0 {
        -d.m as int
    } else {
        d.m as int
    }
}

/// The sign offset of a decimal's text: one when a minus sign leads.
pub open spec fn dec_sign_len(d: Dec) -> int {
    if d.m < 0 {
        1
    } else {
        0
    }
}

/// How the canonical text of a well-formed decimal decomposes: sign,
/// integer digits, and, for a positive scale, a point and exactly `s`
/// fraction digits.
proof fn lemma_dec_text_parts(d: Dec)
    requires
        d.wf(),
    ensures
        ({
            let a = dec_abs(d);
            let p = crate::decimal::pow10(d.s as nat);
            let ip = a / p;
            let fr = a % p;
            let st = dec_sign_len(d);
            let l2 = uint_text(ip).len() as int;
            let t = dec_text(d);
            &&& 0 <= ip <= 4_000_000_000
            &&& 0 <= fr < p
            &&& ip * p + fr == a
            &&& 1 <= l2 <= 11
            &&& d.m < 0 ==> t[0] == '-'
            &&& d.m >= 0 ==> crate::decimal::is_digit_char(t[0])
            &&& t.subrange(st, st + l2) == uint_text(ip)
            &&& forall|k: int| st <= k < st + l2 ==> crate::decimal::is_digit_char(#[trigger] t[k])
            &&& (d.s == 0 ==> t.len() == st + l2)
            &&& (d.s > 0 ==> {
                &&& t.len() == st + l2 + 1 + d.s as int
                &&& t[st + l2] == '.'
                &&& t.subrange(st + l2 + 1, t.len() as int) == fixed_text(fr, d.s as nat)
                &&& forall|k: int|
                    st + l2 + 1 <= k < t.len() ==> crate::decimal::is_digit_char(#[trigger] t[k])
            })
            &&& a * crate::decimal::pow10((crate::decimal::S_MAX - d.s) as nat) == if d.m < 0 {
                -d.v()
            } else {
                d.v()
            }
            &&& 0 <= a * crate::decimal::pow10((crate::decimal::S_MAX - d.s) as nat)
                <= crate::decimal::M_MAX
        }),
{
    let a = dec_abs(d);
    let p = crate::decimal::pow10(d.s as nat);
    let ip = a / p;
    let fr = a % p;
    let st = dec_sign_len(d);
    let t = dec_text(d);
    crate::decimal::lemma_pow10_pos(d.s as nat);
    crate::decimal::lemma_pow10_pos((crate::decimal::S_MAX - d.s) as nat);
    crate::decimal::lemma_mantissa_bound(d);
    vstd::arithmetic::div_mod::lemma_fundamental_div_mod(a, p);
    vstd::arithmetic::div_mod::lemma_mod_division_less_than_divisor(a, p);
    vstd::arithmetic::div_mod::lemma_div_pos_is_pos(a, p);
    assert(ip * p + fr == a);
    assert(a * crate::decimal::pow10((crate::decimal::S_MAX - d.s) as nat) == if d.m < 0 {
        -d.v()
    } else {
        d.v()
    }) by (nonlinear_arith)
        requires
            d.v() == d.m * crate::decimal::pow10((crate::decimal::S_MAX - d.s) as nat) && a == (
            if d.m < 0 {
                -d.m as int
            } else {
                d.m as int
            }),
    ;
    let p9s = crate::decimal::pow10((crate::decimal::S_MAX - d.s) as nat);
    // ip is bounded by the whole-unit budget.
    assert(ip <= 4_000_000_000) by {
        crate::decimal::lemma_pow10_adds(d.s as nat, (crate::decimal::S_MAX - d.s) as nat);
        crate::decimal::lemma_pow10_9();
        assert(p * p9s == 1_000_000_000int);
        assert(ip * 1_000_000_000int <= a * p9s) by (nonlinear_arith)
            requires
                ip * p + fr == a && 0 <= fr && 0 <= ip && p9s >= 1 && p >= 1 && p * p9s
                    == 1_000_000_000int,
        ;
        assert(ip * 1_000_000_000int <= crate::decimal::M_MAX as int);
        crate::decimal::lemma_abs_bound(ip, 1_000_000_000int, crate::decimal::M_MAX as int);
        assert(ip <= 4_000_000_000_000_000_000int);
        if ip > 4_000_000_000int {
            assert(ip * 1_000_000_000int > 4_000_000_000_000_000_000int) by (nonlinear_arith)
                requires
                    ip > 4_000_000_000int,
            ;
        }
    }
    crate::decimal::lemma_uint_text_digits(ip);
    assert(uint_text(ip).len() <= 11) by {
        assert(ip < crate::decimal::pow10(10nat)) by {
            reveal_with_fuel(crate::decimal::pow10, 12);
        }
        crate::decimal::lemma_uint_text_len_bound(ip, 10nat);
    }
    let l2 = uint_text(ip).len() as int;
    if d.s == 0 {
        assert(fr == 0);
        assert(ip == a);
        assert(t =~= (if d.m < 0 {
            seq!['-']
        } else {
            Seq::<char>::empty()
        }) + uint_text(a));
        assert(t.subrange(st, st + l2) =~= uint_text(ip));
    } else {
        crate::decimal::lemma_fixed_text_digits(fr, d.s as nat);
        assert(t.subrange(st, st + l2) =~= uint_text(ip));
        assert(t[st + l2] == '.');
        assert(t.subrange(st + l2 + 1, t.len() as int) =~= fixed_text(fr, d.s as nat));
        assert(forall|k: int|
            st + l2 + 1 <= k < t.len() ==> #[trigger] t[k] == fixed_text(fr, d.s as nat)[k - (st
                + l2 + 1)]);
    }
    assert(forall|k: int|
        st <= k < st + l2 ==> #[trigger] t[k] == uint_text(ip)[k - st]);
    if d.m >= 0 {
        assert(t[0] == uint_text(ip)[0]);
    }
}

/// How the scan of a canonical decimal text must come out: the sign
/// matches the mantissa's, and the first digit run is exactly the integer
/// part's numeral.
proof fn lemma_dec_text_scan(d: Dec, t: Seq<char>, start: int, e1: int)
    requires
        d.wf(),
        t == dec_text(d),
        t.len() >= 1,
        start == if t[0] == '-' {
            1int
        } else {
            0int
        },
        start <= e1 <= t.len(),
        forall|k: int| start <= k < e1 ==> crate::decimal::is_digit_char(#[trigger] t[k]),
        e1 < t.len() ==> !crate::decimal::is_digit_char(t[e1]),
    ensures
        start == dec_sign_len(d),
        (d.m < 0) == (t[0] == '-'),
        e1 == start + uint_text(dec_abs(d) / crate::decimal::pow10(d.s as nat)).len(),
        1 <= e1 - start <= 11,
        d.s == 0 ==> e1 == t.len(),
        d.s > 0 ==> e1 < t.len() && t[e1] == '.' && t.len() == e1 + 1 + d.s as int && (forall|
            k: int,
        | e1 + 1 <= k < t.len() ==> crate::decimal::is_digit_char(#[trigger] t[k])),
        t.subrange(start, e1) == uint_text(dec_abs(d) / crate::decimal::pow10(d.s as nat)),
        crate::decimal::digits_val(t.subrange(start, e1)) == dec_abs(d) / crate::decimal::pow10(
            d.s as nat,
        ),
        0 <= dec_abs(d) / crate::decimal::pow10(d.s as nat) <= 4_000_000_000,
{
    lemma_dec_text_parts(d);
    let st = dec_sign_len(d);
    let ip = dec_abs(d) / crate::decimal::pow10(d.s as nat);
    let l2 = uint_text(ip).len() as int;
    assert((d.m < 0) == (t[0] == '-')) by {
        if d.m >= 0 {
            assert(crate::decimal::is_digit_char(t[0]));
        }
    }
    assert(start == st);
    if e1 < st + l2 {
        assert(crate::decimal::is_digit_char(t[e1]));
        assert(false);
    }
    if e1 > st + l2 {
        assert(crate::decimal::is_digit_char(t[st + l2]));
        if d.s == 0 {
            assert(st + l2 == t.len());
            assert(false);
        } else {
            assert(t[st + l2] == '.');
            assert(false);
        }
    }
    assert(t.subrange(start, e1) == uint_text(ip));
    crate::decimal::lemma_digits_val_uint(ip);
}

/// The numeral `t` spells the value `v` (in `10^-9` units) with its
/// digit run ending at `e1`: an optional minus sign, integer digits, and
/// an optional point followed by fraction digits.
pub open spec fn spelled_at(t: Seq<char>, e1: int, v: int) -> bool {
    let st: int = if t[0] == '-' {
        1
    } else {
        0
    };
    let sgn: int = if t[0] == '-' {
        -1
    } else {
        1
    };
    &&& t.len() >= 1
    &&& st < e1 <= t.len()
    &&& (forall|k: int| st <= k < e1 ==> crate::decimal::is_digit_char(#[trigger] t[k]))
    &&& if e1 == t.len() {
        v == sgn * (crate::decimal::digits_val(t.subrange(st, e1)) * (crate::decimal::P9 as int))
    } else {
        &&& t[e1] == '.'
        &&& e1 + 1 < t.len()
        &&& (forall|k: int| e1 + 1 <= k < t.len() ==> crate::decimal::is_digit_char(#[trigger] t[k]))
        &&& v == sgn * (crate::decimal::digits_val(t.subrange(st, e1)) * (crate::decimal::P9 as int)
            + crate::decimal::frac_value(t.subrange(e1 + 1, t.len() as int)))
    }
}

/// Some decomposition of the numeral `t` spells the value `v`.
pub open spec fn dec_spells(t: Seq<char>, v: int) -> bool {
    exists|e1: int| spelled_at(t, e1, v)
}


/// A value assembled from scanned integer and fraction digits is spelled
/// by the text they came from.
proof fn lemma_spelled(t: Seq<char>, e1: int, ip: int, fr: int, w: int, v: int)
    requires
        t.len() >= 1,
        ({
            let st: int = if t[0] == '-' {
                1
            } else {
                0
            };
            &&& st < e1 <= t.len()
            &&& (forall|k: int| st <= k < e1 ==> crate::decimal::is_digit_char(#[trigger] t[k]))
            &&& crate::decimal::digits_val(t.subrange(st, e1)) == ip
            &&& (if e1 == t.len() {
                w == 0 && fr == 0
            } else {
                &&& t[e1] == '.'
                &&& e1 + 1 < t.len()
                &&& (forall|k: int|
                    e1 + 1 <= k < t.len() ==> crate::decimal::is_digit_char(#[trigger] t[k]))
                &&& w == t.len() - e1 - 1
                &&& 1 <= w <= 9
                &&& crate::decimal::digits_val(t.subrange(e1 + 1, t.len() as int)) == fr
            })
            &&& v == (if t[0] == '-' {
                -1int
            } else {
                1int
            }) * ((ip * crate::decimal::pow10(w as nat) + fr) * crate::decimal::pow10(
                (crate::decimal::S_MAX - w) as nat,
            ))
        }),
    ensures
        spelled_at(t, e1, v),
{
    let sgn: int = if t[0] == '-' {
        -1
    } else {
        1
    };
    crate::decimal::lemma_pow10_adds(w as nat, (crate::decimal::S_MAX - w) as nat);
    crate::decimal::lemma_pow10_9();
    assert((ip * crate::decimal::pow10(w as nat) + fr) * crate::decimal::pow10(
        (crate::decimal::S_MAX - w) as nat,
    ) == ip * (crate::decimal::pow10(w as nat) * crate::decimal::pow10(
        (crate::decimal::S_MAX - w) as nat,
    )) + fr * crate::decimal::pow10((crate::decimal::S_MAX - w) as nat)) by (nonlinear_arith);
    assert(crate::decimal::pow10(w as nat) * crate::decimal::pow10(
        (crate::decimal::S_MAX - w) as nat,
    ) == 1_000_000_000int);
    if e1 == t.len() {
        assert(crate::decimal::pow10((crate::decimal::S_MAX - w) as nat) == 1_000_000_000int);
        assert(v == sgn * (ip * 1_000_000_000int)) by (nonlinear_arith)
            requires
                v == sgn * ((ip * crate::decimal::pow10(w as nat) + fr) * crate::decimal::pow10(
                    (crate::decimal::S_MAX - w) as nat,
                )) && fr == 0 && crate::decimal::pow10(w as nat) * crate::decimal::pow10(
                    (crate::decimal::S_MAX - w) as nat,
                ) == 1_000_000_000int && crate::decimal::pow10(
                    (crate::decimal::S_MAX - w) as nat,
                ) == 1_000_000_000int && crate::decimal::pow10(w as nat) == 1,
        ;
        assert(crate::decimal::pow10(0nat) == 1) by {
            reveal_with_fuel(crate::decimal::pow10, 2);
        }
    } else {
        let b = t.subrange(e1 + 1, t.len() as int);
        assert(b.len() == w);
        assert(crate::decimal::frac_value(b) == fr * crate::decimal::pow10(
            (crate::decimal::S_MAX - w) as nat,
        ));
        assert(v == sgn * (ip * 1_000_000_000int + fr * crate::decimal::pow10(
            (crate::decimal::S_MAX - w) as nat,
        ))) by (nonlinear_arith)
            requires
                v == sgn * ((ip * crate::decimal::pow10(w as nat) + fr) * crate::decimal::pow10(
                    (crate::decimal::S_MAX - w) as nat,
                )) && (ip * crate::decimal::pow10(w as nat) + fr) * crate::decimal::pow10(
                    (crate::decimal::S_MAX - w) as nat,
                ) == ip * (crate::decimal::pow10(w as nat) * crate::decimal::pow10(
                    (crate::decimal::S_MAX - w) as nat,
                )) + fr * crate::decimal::pow10((crate::decimal::S_MAX - w) as nat)
                    && crate::decimal::pow10(w as nat) * crate::decimal::pow10(
                    (crate::decimal::S_MAX - w) as nat,
                ) == 1_000_000_000int,
        ;
    }
}

/// Parse the canonical text of one decimal.
///
/// Accepts a numeral with an optional minus sign and at most nine
/// fraction digits, within the representable range; the result is
/// normalized. Every canonical decimal text parses back to its decimal.
pub fn dec_from_text(t: &String) -> (r: Option<Dec>)
    ensures
        r matches Some(d) ==> d.wf() && dec_spells(t@, d.v()),
        forall|d: Dec| d.wf() && t@ == dec_text(d) ==> r == Some(d),
{
    proof {
        reveal_strlit("-");
        reveal_strlit(".");
    }
    let len = t.as_str().unicode_len();
    if len == 0 {
        proof {
            assert forall|d: Dec| d.wf() && t@ == dec_text(d) implies false by {
                lemma_dec_text_parts(d);
            }
        }
        return None;
    }
    let neg = t.as_str().get_char(0) == '-';
    let start: usize = if neg {
        1
    } else {
        0
    };
    let e1 = scan_digits(t.as_str(), start);
    if e1 == start || e1 - start > 25 {
        proof {
            assert forall|d: Dec| d.wf() && t@ == dec_text(d) implies false by {
                lemma_dec_text_scan(d, t@, start as int, e1 as int);
            }
        }
        return None;
    }
    let ip128 = digits_to_u128(t.as_str(), start, e1);
    if ip128 > 4_000_000_000 {
        proof {
            assert forall|d: Dec| d.wf() && t@ == dec_text(d) implies false by {
                lemma_dec_text_scan(d, t@, start as int, e1 as int);
            }
        }
        return None;
    }
    let ip: u64 = ip128 as u64;
    let mut w: u32 = 0;
    let mut fr: u64 = 0;
    if e1 < len {
        if t.as_str().get_char(e1) != '.' {
            proof {
                assert forall|d: Dec| d.wf() && t@ == dec_text(d) implies false by {
                    lemma_dec_text_scan(d, t@, start as int, e1 as int);
                }
            }
            return None;
        }
        let e2 = scan_digits(t.as_str(), e1 + 1);
        proof {
            assert forall|d: Dec| d.wf() && t@ == dec_text(d) implies e2 == t@.len() && d.s > 0
                && e2 - (e1 + 1) == d.s by {
                lemma_dec_text_scan(d, t@, start as int, e1 as int);
                if e2 < t@.len() {
                    assert(crate::decimal::is_digit_char(t@[e2 as int]));
                }
            }
        }
        if e2 != len {
            return None;
        }
        let wd = e2 - (e1 + 1);
        if wd == 0 || wd > 9 {
            return None;
        }
        let fr128 = digits_to_u128(t.as_str(), e1 + 1, e2);
        proof {
            crate::decimal::lemma_pow10_le((wd) as nat, 9nat);
            crate::decimal::lemma_pow10_9();
        }
        fr = fr128 as u64;
        w = wd as u32;
    }
    let p = crate::decimal::pow10_i128(w);
    let p9w = crate::decimal::pow10_i128(crate::decimal::S_MAX - w);
    proof {
        assert((ip as int) * (p as int) + (fr as int) <= 5_000_000_000_000_000_000int && 0 <= (
        ip as int) * (p as int) && ((ip as int) * (p as int) + (fr as int)) * (p9w as int)
            <= 5_000_000_000_000_000_000_000_000_000int) by (nonlinear_arith)
            requires
                0 <= ip <= 4_000_000_000u64 && 1 <= p <= 1_000_000_000i128 && 0 <= fr
                    < 1_000_000_000u64 && 1 <= p9w <= 1_000_000_000i128,
        ;
    }
    let mag: i128 = (ip as i128) * p + (fr as i128);
    let val: i128 = mag * p9w;
    if val > crate::decimal::M_MAX {
        proof {
            assert forall|d: Dec| d.wf() && t@ == dec_text(d) implies false by {
                lemma_dec_text_scan(d, t@, start as int, e1 as int);
                lemma_dec_from_text_agrees(d, t@, start as int, e1 as int, ip as int, fr as int,
                    w as int);
            }
        }
        return None;
    }
    let m: i128 = if neg {
        -mag
    } else {
        mag
    };
    proof {
        assert(m * (p9w as int) == if neg {
            -((mag as int) * (p9w as int))
        } else {
            (mag as int) * (p9w as int)
        }) by (nonlinear_arith)
            requires
                m == (if neg {
                    -(mag as int)
                } else {
                    mag as int
                }),
        ;
    }
    let result = crate::decimal::norm(m, w);
    proof {
        assert forall|d: Dec| d.wf() && t@ == dec_text(d) implies result == d by {
            lemma_dec_text_scan(d, t@, start as int, e1 as int);
            lemma_dec_from_text_agrees(d, t@, start as int, e1 as int, ip as int, fr as int,
                w as int);
            assert(result.v() == d.v());
            crate::decimal::lemma_value_eq(result, d);
        }
        // The result spells exactly the digits that were read.
        assert(result.v() == (if neg {
            -1int
        } else {
            1int
        }) * (((ip as int) * crate::decimal::pow10(w as nat) + fr) * crate::decimal::pow10(
            (crate::decimal::S_MAX - w) as nat,
        ))) by (nonlinear_arith)
            requires
                result.v() == m * crate::decimal::pow10((crate::decimal::S_MAX - w) as nat) && m
                    == (if neg {
                    -(mag as int)
                } else {
                    mag as int
                }) && mag == (ip as int) * (p as int) + fr && p == crate::decimal::pow10(w as nat),
        ;
        lemma_spelled(t@, e1 as int, ip as int, fr as int, w as int, result.v());
        assert(dec_spells(t@, result.v()));
    }
    Some(result)
}

/// When the canonical text of `d` was scanned into sign, integer digits
/// and fraction digits, the scanned numbers are `d`'s own components.
proof fn lemma_dec_from_text_agrees(
    d: Dec,
    t: Seq<char>,
    start: int,
    e1: int,
    ip: int,
    fr: int,
    w: int,
)
    requires
        d.wf(),
        t == dec_text(d),
        start == dec_sign_len(d),
        e1 == start + uint_text(dec_abs(d) / crate::decimal::pow10(d.s as nat)).len(),
        ip == crate::decimal::digits_val(t.subrange(start, e1)),
        w == d.s,
        d.s > 0 ==> fr == crate::decimal::digits_val(t.subrange(e1 + 1, t.len() as int)),
        d.s == 0 ==> fr == 0,
    ensures
        ip == dec_abs(d) / crate::decimal::pow10(d.s as nat),
        fr == dec_abs(d) % crate::decimal::pow10(d.s as nat),
        (ip * crate::decimal::pow10(d.s as nat) + fr) * crate::decimal::pow10(
            (crate::decimal::S_MAX - d.s) as nat,
        ) == if d.m < 0 {
            -d.v()
        } else {
            d.v()
        },
        0 <= (ip * crate::decimal::pow10(d.s as nat) + fr) * crate::decimal::pow10(
            (crate::decimal::S_MAX - d.s) as nat,
        ) <= crate::decimal::M_MAX,
{
    lemma_dec_text_parts(d);
    let a = dec_abs(d);
    let p = crate::decimal::pow10(d.s as nat);
    assert(t.subrange(start, e1) == uint_text(a / p));
    crate::decimal::lemma_digits_val_uint(a / p);
    if d.s > 0 {
        assert(t.subrange(e1 + 1, t.len() as int) == fixed_text(
            a % p,
            d.s as nat,
        ));
        vstd::arithmetic::div_mod::lemma_mod_division_less_than_divisor(a, p);
        crate::decimal::lemma_digits_val_fixed(a % p, d.s as nat);
    } else {
        crate::decimal::lemma_pow10_pos(0nat);
        assert(p == 1) by {
            reveal_with_fuel(crate::decimal::pow10, 2);
        }
        vstd::arithmetic::div_mod::lemma_fundamental_div_mod(a, 1);
    }
    vstd::arithmetic::div_mod::lemma_fundamental_div_mod(a, p);
}

/// Well-formedness of a position sequence.
pub open spec fn positions_wf(q: Seq<Position>) -> bool {
    forall|i: int| 0 <= i < q.len() ==> (#[trigger] q[i]).wf()
}

/// Position sequences that agree in every observable field.
pub open spec fn position_views_eq(a: Seq<Position>, b: Seq<Position>) -> bool {
    &&& a.len() == b.len()
    &&& forall|i: int|
        0 <= i < a.len() ==> (#[trigger] a[i]).currency@ == b[i].currency@ && a[i].holding
            == b[i].holding
}

/// Well-formedness of a price-binding sequence: valid entries with
/// pairwise-distinct tickers.
pub open spec fn entries_wf(q: Seq<PriceEntry>) -> bool {
    &&& forall|i: int|
        0 <= i < q.len() ==> {
            &&& ticker_wf((#[trigger] q[i]).currency@)
            &&& q[i].price.wf()
            &&& q[i].price.v() >= 0
        }
    &&& forall|i: int, j: int|
        0 <= i < j < q.len() ==> (#[trigger] q[i]).currency@ != (#[trigger] q[j]).currency@
}

/// Binding sequences that agree in every observable field.
pub open spec fn entry_views_eq(a: Seq<PriceEntry>, b: Seq<PriceEntry>) -> bool {
    &&& a.len() == b.len()
    &&& forall|i: int|
        0 <= i < a.len() ==> (#[trigger] a[i]).currency@ == b[i].currency@ && a[i].price
            == b[i].price
}

/// Configurations that agree in every observable field.
pub open spec fn config_eq(a: Configuration, b: Configuration) -> bool {
    &&& a.app_id@ == b.app_id@
    &&& a.fx_app_id@ == b.fx_app_id@
    &&& a.timestamp == b.timestamp
    &&& position_views_eq(a.portfolio.positions@, b.portfolio.positions@)
    &&& entry_views_eq(a.prices.entries@, b.prices.entries@)
}

/// A position list's text splits at any point into the text of the first
/// items and the continuation of the rest.
proof fn lemma_positions_split(q: Seq<Position>, k: int)
    requires
        1 <= k <= q.len(),
    ensures
        positions_text(q) == positions_text(q.take(k)) + positions_tail_text(q.skip(k)),
    decreases k,
{
    if k == 1 {
        assert(q.take(1)[0] == q[0]);
        assert(q.take(1).skip(1) =~= Seq::<Position>::empty());
        assert(positions_text(q.take(1)) =~= position_text(q[0]));
        assert(positions_text(q) =~= positions_text(q.take(1)) + positions_tail_text(q.skip(1)));
    } else {
        lemma_positions_split(q, k - 1);
        lemma_positions_text_snoc(q.take(k - 1), q[k - 1]);
        assert(q.take(k) =~= q.take(k - 1).push(q[k - 1]));
        assert(positions_tail_text(q.skip(k - 1)) == seq![','] + position_text(q.skip(k - 1)[0])
            + positions_tail_text(q.skip(k - 1).skip(1)));
        assert(q.skip(k - 1)[0] == q[k - 1]);
        assert(q.skip(k - 1).skip(1) =~= q.skip(k));
        assert(positions_text(q) =~= positions_text(q.take(k)) + positions_tail_text(q.skip(k)));
    }
}

/// A binding list's text splits likewise.
proof fn lemma_entries_split(q: Seq<PriceEntry>, k: int)
    requires
        1 <= k <= q.len(),
    ensures
        entries_text(q) == entries_text(q.take(k)) + entries_tail_text(q.skip(k)),
    decreases k,
{
    if k == 1 {
        assert(q.take(1)[0] == q[0]);
        assert(q.take(1).skip(1) =~= Seq::<PriceEntry>::empty());
        assert(entries_text(q.take(1)) =~= entry_text(q[0]));
        assert(entries_text(q) =~= entries_text(q.take(1)) + entries_tail_text(q.skip(1)));
    } else {
        lemma_entries_split(q, k - 1);
        lemma_entries_text_snoc(q.take(k - 1), q[k - 1]);
        assert(q.take(k) =~= q.take(k - 1).push(q[k - 1]));
        assert(entries_tail_text(q.skip(k - 1)) == seq![','] + entry_text(q.skip(k - 1)[0])
            + entries_tail_text(q.skip(k - 1).skip(1)));
        assert(q.skip(k - 1)[0] == q[k - 1]);
        assert(q.skip(k - 1).skip(1) =~= q.skip(k));
        assert(entries_text(q) =~= entries_text(q.take(k)) + entries_tail_text(q.skip(k)));
    }
}

/// No double quote occurs inside a decimal's text.
proof fn lemma_dec_text_no_quote(d: Dec)
    requires
        d.wf(),
    ensures
        forall|k: int| 0 <= k < dec_text(d).len() ==> #[trigger] dec_text(d)[k] != '"',
{
    lemma_dec_text_parts(d);
    let t = dec_text(d);
    let st = dec_sign_len(d);
    let l2 = uint_text(dec_abs(d) / crate::decimal::pow10(d.s as nat)).len() as int;
    assert forall|k: int| 0 <= k < t.len() implies #[trigger] t[k] != '"' by {
        if k < st {
            assert(t[0] == '-');
        } else if k < st + l2 {
            assert(crate::decimal::is_digit_char(t[k]));
        } else if d.s > 0 && k == st + l2 {
            assert(t[k] == '.');
        } else {
            assert(crate::decimal::is_digit_char(t[k]));
        }
    }
}

/// Whether a position list's text stands at `i`, followed by the closing
/// bracket.
pub open spec fn pmatch(s: Seq<char>, i: int, q: Seq<Position>) -> bool {
    &&& positions_wf(q)
    &&& i + positions_text(q).len() < s.len()
    &&& s.subrange(i, i + positions_text(q).len()) == positions_text(q)
    &&& s[i + positions_text(q).len()] == ']'
}

/// How indexing distributes over a five-part concatenation.
proof fn lemma_concat5_index(a: Seq<char>, b: Seq<char>, c: Seq<char>, d: Seq<char>, e: Seq<char>)
    ensures
        forall|x: int| #![auto] 0 <= x < a.len() ==> (a + b + c + d + e)[x] == a[x],
        forall|x: int| #![auto]
            a.len() <= x < a.len() + b.len() ==> (a + b + c + d + e)[x] == b[x - a.len()],
        forall|x: int| #![auto]
            a.len() + b.len() <= x < a.len() + b.len() + c.len() ==> (a + b + c + d + e)[x] == c[x
                - a.len() - b.len()],
        forall|x: int| #![auto]
            a.len() + b.len() + c.len() <= x < a.len() + b.len() + c.len() + d.len() ==> (a + b + c
                + d + e)[x] == d[x - a.len() - b.len() - c.len()],
        forall|x: int| #![auto]
            a.len() + b.len() + c.len() + d.len() <= x < a.len() + b.len() + c.len() + d.len()
                + e.len() ==> (a + b + c + d + e)[x] == e[x - a.len() - b.len() - c.len() - d.len()],
{
}

/// Where the pieces of item `k` of a matched position list stand in the
/// surrounding text.
#[verifier::rlimit(60)]
proof fn lemma_position_item_at(s: Seq<char>, i: int, q: Seq<Position>, k: int, pos: int)
    requires
        0 <= i,
        pmatch(s, i, q),
        0 <= k < q.len(),
        pos == i + positions_text(q.take(k)).len() + if k > 0 {
            1int
        } else {
            0int
        },
    ensures
        item_facts(s, i, q, k, pos),
{
    reveal_strlit("{\"currency\":\"");
    reveal_strlit("\",\"holding\":\"");
    reveal_strlit("\"}");
    assert("{\"currency\":\""@.len() == 13 && "\",\"holding\":\""@.len() == 13 && "\"}"@.len()
        == 2);
    let p = q[k];
    let item = position_text(p);
    let pre = positions_text(q.take(k));
    let sep: Seq<char> = if k > 0 {
        seq![',']
    } else {
        Seq::empty()
    };
    let rest = positions_tail_text(q.skip(k + 1));
    // Decompose the whole list text around item k.
    assert(positions_text(q) == pre + sep + item + rest) by {
        if k == 0 {
            assert(q.take(0) =~= Seq::<Position>::empty());
            assert(positions_text(q) =~= pre + sep + item + rest);
        } else {
            lemma_positions_split(q, k);
            assert(positions_tail_text(q.skip(k)) == seq![','] + position_text(q.skip(k)[0])
                + positions_tail_text(q.skip(k).skip(1)));
            assert(q.skip(k)[0] == q[k]);
            assert(q.skip(k).skip(1) =~= q.skip(k + 1));
            assert(positions_text(q) =~= pre + sep + item + rest);
        }
    }
    // The end of item k is the end of the first k+1 items.
    assert(i + positions_text(q.take(k + 1)).len() == pos + item.len()) by {
        lemma_positions_text_snoc(q.take(k), q[k]);
        assert(q.take(k + 1) =~= q.take(k).push(q[k]));
        if k == 0 {
            assert(positions_text(q.take(1)) == position_text(q[0]));
        }
    }
    let cl = p.currency@.len() as int;
    let dt = dec_text(p.holding);
    let m1 = pos + 13;
    let m2 = m1 + cl;
    let m3 = m2 + 13;
    let m4 = m3 + dt.len() as int;
    assert(item == "{\"currency\":\""@ + p.currency@ + "\",\"holding\":\""@ + dt + "\"}"@);
    assert(item.len() == 13 + cl + 13 + dt.len() + 2);
    // Everything in the list text is a direct index into s.
    let pt = positions_text(q);
    assert forall|x: int| 0 <= x < pt.len() implies s[i + x] == #[trigger] pt[x] by {
        assert(s.subrange(i, i + pt.len())[x] == pt[x]);
        assert(s.subrange(i, i + pt.len())[x] == s[i + x]);
    }
    assert forall|x: int| 0 <= x < item.len() implies s[pos + x] == #[trigger] item[x] by {
        assert(pt[(pos - i) + x] == item[x]);
        assert(s[i + ((pos - i) + x)] == pt[(pos - i) + x]);
    }
    lemma_concat5_index("{\"currency\":\""@, p.currency@, "\",\"holding\":\""@, dt, "\"}"@);
    assert(item == "{\"currency\":\""@ + p.currency@ + "\",\"holding\":\""@ + dt + "\"}"@);
    assert forall|x: int| 0 <= x < 13 implies s[pos + x] == "{\"currency\":\""@[x] by {
        assert(item[x] == "{\"currency\":\""@[x]);
    }
    assert forall|x: int| 0 <= x < cl implies s[m1 + x] == p.currency@[x] by {
        assert(item[13 + x] == p.currency@[x]);
        assert(s[pos + (13 + x)] == item[13 + x]);
    }
    assert forall|x: int| 0 <= x < 13 implies s[m2 + x] == "\",\"holding\":\""@[x] by {
        assert(item[13 + cl + x] == "\",\"holding\":\""@[x]);
        assert(s[pos + (13 + cl + x)] == item[13 + cl + x]);
    }
    assert forall|x: int| 0 <= x < dt.len() implies s[m3 + x] == dt[x] by {
        assert(item[13 + cl + 13 + x] == dt[x]);
        assert(s[pos + (13 + cl + 13 + x)] == item[13 + cl + 13 + x]);
    }
    assert forall|x: int| 0 <= x < 2 implies s[m4 + x] == "\"}"@[x] by {
        assert(item[13 + cl + 13 + dt.len() + x] == "\"}"@[x]);
        assert(s[pos + (13 + cl + 13 + dt.len() + x)] == item[13 + cl + 13 + dt.len() + x]);
    }
    assert(s.subrange(pos, pos + 13) =~= "{\"currency\":\""@);
    assert(s.subrange(m1, m2) =~= p.currency@);
    assert(s.subrange(m2, m3) =~= "\",\"holding\":\""@);
    assert(s.subrange(m3, m4) =~= dt);
    assert(s.subrange(m4, m4 + 2) =~= "\"}"@);
    assert(s[m2 + 0] == "\",\"holding\":\""@[0]);
    assert("\",\"holding\":\""@[0] == '"');
    assert(s[m4 + 0] == "\"}"@[0]);
    assert("\"}"@[0] == '"');
    if k + 1 < q.len() {
        lemma_positions_split(q, k + 1);
        assert(positions_tail_text(q.skip(k + 1)) == seq![','] + position_text(q.skip(k + 1)[0])
            + positions_tail_text(q.skip(k + 1).skip(1)));
        assert(positions_text(q)[pos + item.len() - i] == ',');
    }
    if k + 1 == q.len() {
        assert(q.take(k + 1) =~= q);
    }
}

/// Parse a comma-separated list of position objects, stopping before the
/// closing bracket. Any canonical position-list text parses back to the
/// positions it denotes.
fn parse_positions(s: &str, i: usize) -> (r: Option<(Vec<Position>, usize)>)
    requires
        i <= s@.len(),
    ensures
        r matches Some((v, j)) ==> i <= j <= s@.len() && positions_wf(v@),
        forall|q: Seq<Position>|
            pmatch(s@, i as int, q) ==> (r matches Some((v, j)) && position_views_eq(v@, q) && j
                == i + positions_text(q).len()),
{
    proof {
        reveal_strlit("{\"currency\":\"");
        reveal_strlit("\",\"holding\":\"");
        reveal_strlit("\"}");
    }
    let len = s.unicode_len();
    let mut out: Vec<Position> = Vec::new();
    if i >= len {
        return None;
    }
    if s.get_char(i) == ']' {
        proof {
            assert forall|q: Seq<Position>| pmatch(s@, i as int, q) implies q.len() == 0 by {
                if q.len() > 0 {
                    lemma_position_item_at(s@, i as int, q, 0, i as int);
                    reveal_strlit("{\"currency\":\"");
                    assert(s@.subrange(i as int, i + 13) == "{\"currency\":\""@);
                    assert(s@.subrange(i as int, i + 13)[0] == s@[i as int]);
                    assert("{\"currency\":\""@[0] == '{');
                    assert(s@[i as int] == '{');
                }
            }
            assert forall|q: Seq<Position>|
                pmatch(s@, i as int, q) implies position_views_eq(out@, q) && q.len() == 0 by {
            reveal(cfg_opt_facts);
                assert(q.len() == 0);
            }
        }
        return Some((out, i));
    }
    let mut pos: usize = i;
    loop
        invariant
            i <= pos <= len,
            len == s@.len(),
            positions_wf(out@),
            forall|q: Seq<Position>|
                pmatch(s@, i as int, q) ==> {
                    &&& out@.len() < q.len()
                    &&& position_views_eq(out@, q.take(out@.len() as int))
                    &&& pos == i + positions_text(q.take(out@.len() as int)).len() + if out@.len()
                        > 0 {
                        1int
                    } else {
                        0int
                    }
                },
        decreases len - pos,
    {
        let ghost k = out@.len() as int;
        proof {
            reveal_strlit("{\"currency\":\"");
            reveal_strlit("\",\"holding\":\"");
            reveal_strlit("\"}");
            assert("{\"currency\":\""@.len() == 13 && "\",\"holding\":\""@.len() == 13
                && "\"}"@.len() == 2);
            assert forall|q: Seq<Position>| pmatch(s@, i as int, q) implies item_facts(
                s@,
                i as int,
                q,
                k,
                pos as int,
            ) by {
                lemma_position_item_at(s@, i as int, q, k, pos as int);
            }
        }
        let m1 = match expect_lit(s, pos, "{\"currency\":\"") {
            Some(j) => j,
            None => {
                proof {
                    assert forall|q: Seq<Position>| !pmatch(s@, i as int, q) by {
                        if pmatch(s@, i as int, q) {
                            assert(item_facts(s@, i as int, q, k, pos as int));
                        }
                    }
                }
                return None;
            },
        };
        let (cur, m2) = match scan_plain(s, m1) {
            Some(t) => t,
            None => {
                proof {
                    assert forall|q: Seq<Position>| !pmatch(s@, i as int, q) by {
                        if pmatch(s@, i as int, q) {
                            assert(item_facts(s@, i as int, q, k, pos as int));
                            assert(s@[pos + 13 + q[k].currency@.len()] == '"');
                        }
                    }
                }
                return None;
            },
        };
        proof {
            assert forall|q: Seq<Position>| pmatch(s@, i as int, q) implies m2 == m1
                + q[k].currency@.len() && cur@ == q[k].currency@ by {
                assert(item_facts(s@, i as int, q, k, pos as int));
                let cl = q[k].currency@.len() as int;
                assert(positions_wf(q));
                assert(q[k].wf());
                if m2 < m1 + cl {
                    assert(s@.subrange(m1 as int, m1 + cl) == q[k].currency@);
                    assert(s@[m2 as int] == q[k].currency@[m2 - m1]);
                    assert(crate::model::ticker_char(q[k].currency@[m2 - m1]));
                    assert(false);
                }
                if m2 > m1 + cl {
                    assert(s@[m1 + cl] == '"');
                    assert(false);
                }
                assert(cur@ =~= q[k].currency@);
            }
        }
        if !check_ticker(&cur) {
            proof {
                assert forall|q: Seq<Position>| !pmatch(s@, i as int, q) by {
                    if pmatch(s@, i as int, q) {
                        assert(q[k].wf());
                    }
                }
            }
            return None;
        }
        let m3 = match expect_lit(s, m2, "\",\"holding\":\"") {
            Some(j) => j,
            None => {
                proof {
                    assert forall|q: Seq<Position>| !pmatch(s@, i as int, q) by {
                        if pmatch(s@, i as int, q) {
                            assert(item_facts(s@, i as int, q, k, pos as int));
                        }
                    }
                }
                return None;
            },
        };
        let (dt, m4) = match scan_plain(s, m3) {
            Some(t) => t,
            None => {
                proof {
                    assert forall|q: Seq<Position>| !pmatch(s@, i as int, q) by {
                        if pmatch(s@, i as int, q) {
                            assert(item_facts(s@, i as int, q, k, pos as int));
                            assert(s@[pos + 13 + q[k].currency@.len() + 13 + dec_text(
                                q[k].holding,
                            ).len()] == '"');
                        }
                    }
                }
                return None;
            },
        };
        proof {
            assert forall|q: Seq<Position>| pmatch(s@, i as int, q) implies m4 == m3 + dec_text(
                q[k].holding,
            ).len() && dt@ == dec_text(q[k].holding) by {
                assert(item_facts(s@, i as int, q, k, pos as int));
                let dl = dec_text(q[k].holding).len() as int;
                assert(q[k].wf());
                lemma_dec_text_no_quote(q[k].holding);
                if m4 < m3 + dl {
                    assert(s@.subrange(m3 as int, m3 + dl) == dec_text(q[k].holding));
                    assert(s@[m4 as int] == dec_text(q[k].holding)[m4 - m3]);
                    assert(false);
                }
                if m4 > m3 + dl {
                    assert(s@[m3 + dl] == '"');
                    assert(false);
                }
                assert(dt@ =~= dec_text(q[k].holding));
            }
        }
        let d = match dec_from_text(&dt) {
            Some(d) => d,
            None => {
                proof {
                    assert forall|q: Seq<Position>| !pmatch(s@, i as int, q) by {
                        if pmatch(s@, i as int, q) {
                            assert(q[k].wf());
                            assert(dt@ == dec_text(q[k].holding));
                        }
                    }
                }
                return None;
            },
        };
        if d.m < 0 {
            proof {
                assert forall|q: Seq<Position>| !pmatch(s@, i as int, q) by {
                    if pmatch(s@, i as int, q) {
                        assert(q[k].wf());
                        assert(d == q[k].holding);
                        crate::decimal::lemma_pow10_pos(
                            (crate::decimal::S_MAX - q[k].holding.s) as nat,
                        );
                        assert(q[k].holding.m * crate::decimal::pow10(
                            (crate::decimal::S_MAX - q[k].holding.s) as nat,
                        ) < 0) by (nonlinear_arith)
                            requires
                                q[k].holding.m < 0 && crate::decimal::pow10(
                                    (crate::decimal::S_MAX - q[k].holding.s) as nat,
                                ) >= 1,
                        ;
                    }
                }
            }
            return None;
        }
        proof {
            crate::decimal::lemma_pow10_pos((crate::decimal::S_MAX - d.s) as nat);
            assert(d.m * crate::decimal::pow10((crate::decimal::S_MAX - d.s) as nat) >= 0)
                by (nonlinear_arith)
                requires
                    d.m >= 0 && crate::decimal::pow10((crate::decimal::S_MAX - d.s) as nat) >= 1,
            ;
        }
        let endpos = match expect_lit(s, m4, "\"}") {
            Some(j) => j,
            None => {
                proof {
                    assert forall|q: Seq<Position>| !pmatch(s@, i as int, q) by {
                        if pmatch(s@, i as int, q) {
                            assert(item_facts(s@, i as int, q, k, pos as int));
                        }
                    }
                }
                return None;
            },
        };
        let position = Position { currency: cur, holding: d };
        proof {
            assert(ticker_wf(position.currency@) && position.holding.wf() && position.holding.v()
                >= 0);
        }
        out.push(position);
        pos = endpos;
        proof {
            assert forall|q: Seq<Position>| pmatch(s@, i as int, q) implies {
                &&& out@.len() <= q.len()
                &&& position_views_eq(out@, q.take(out@.len() as int))
                &&& pos == i + positions_text(q.take(out@.len() as int)).len()
                &&& (out@.len() < q.len() ==> s@[pos as int] == ',' && pos < s@.len())
                &&& (out@.len() == q.len() ==> s@[pos as int] == ']' && pos == i + positions_text(
                    q,
                ).len() && pos < s@.len())
            } by {
                assert(item_facts(s@, i as int, q, k, pos_prev_facts(i as int, q, k)));
                assert(out@.drop_last() =~= out@.take(k));
                assert(q.take(k + 1) =~= q.take(k).push(q[k]));
                assert(out@[k] == position);
            }
        }
        if pos >= len {
            return None;
        }
        if s.get_char(pos) == ',' {
            pos = pos + 1;
        } else {
            proof {
                assert forall|q: Seq<Position>| pmatch(s@, i as int, q) implies out@.len()
                    == q.len() && position_views_eq(out@, q) && pos == i + positions_text(
                    q,
                ).len() by {
                    assert(q.take(q.len() as int) =~= q);
                }
            }
            return Some((out, pos));
        }
    }
}

/// The positions at which the pieces of item `k` stand, given the prefix
/// of `k` items already read.
pub open spec fn pos_prev_facts(i: int, q: Seq<Position>, k: int) -> int {
    i + positions_text(q.take(k)).len() + if k > 0 {
        1int
    } else {
        0int
    }
}

/// The facts [`lemma_position_item_at`] yields, bundled for reuse.
pub open spec fn item_facts(s: Seq<char>, i: int, q: Seq<Position>, k: int, pos: int) -> bool {
    let p = q[k];
    let cl = p.currency@.len() as int;
    let dt = dec_text(p.holding);
    let m1 = pos + 13;
    let m2 = m1 + cl;
    let m3 = m2 + 13;
    let m4 = m3 + dt.len() as int;
    let endpos = m4 + 2;
    &&& i <= pos
    &&& endpos <= i + positions_text(q).len()
    &&& lit_at(s, pos, "{\"currency\":\""@)
    &&& s.subrange(m1, m2) == p.currency@
    &&& s[m2] == '"'
    &&& lit_at(s, m2, "\",\"holding\":\""@)
    &&& s.subrange(m3, m4) == dt
    &&& s[m4] == '"'
    &&& lit_at(s, m4, "\"}"@)
    &&& endpos == i + positions_text(q.take(k + 1)).len()
    &&& (k + 1 < q.len() ==> s[endpos] == ',' && endpos < s.len())
    &&& (k + 1 == q.len() ==> s[endpos] == ']' && endpos == i + positions_text(q).len() && endpos
        < s.len())
}



/// Whether a binding list's text stands at `i`, followed by the closing
/// brace.
pub open spec fn ematch(s: Seq<char>, i: int, q: Seq<PriceEntry>) -> bool {
    &&& entries_wf(q)
    &&& i + entries_text(q).len() < s.len()
    &&& s.subrange(i, i + entries_text(q).len()) == entries_text(q)
    &&& s[i + entries_text(q).len()] == '}'
}

/// The facts [`lemma_entry_item_at`] yields, bundled for reuse.
pub open spec fn entry_facts(s: Seq<char>, i: int, q: Seq<PriceEntry>, k: int, pos: int) -> bool {
    let e = q[k];
    let cl = e.currency@.len() as int;
    let dt = dec_text(e.price);
    let m1 = pos + 1;
    let m2 = m1 + cl;
    let m3 = m2 + 3;
    let m4 = m3 + dt.len() as int;
    let endpos = m4 + 1;
    &&& i <= pos
    &&& endpos <= i + entries_text(q).len()
    &&& lit_at(s, pos, "\""@)
    &&& s.subrange(m1, m2) == e.currency@
    &&& s[m2] == '"'
    &&& lit_at(s, m2, "\":\""@)
    &&& s.subrange(m3, m4) == dt
    &&& s[m4] == '"'
    &&& lit_at(s, m4, "\""@)
    &&& endpos == i + entries_text(q.take(k + 1)).len()
    &&& (k + 1 < q.len() ==> s[endpos] == ',' && endpos < s.len())
    &&& (k + 1 == q.len() ==> s[endpos] == '}' && endpos == i + entries_text(q).len() && endpos
        < s.len())
}

/// Where the pieces of binding `k` of a matched binding list stand in the
/// surrounding text.
#[verifier::rlimit(60)]
proof fn lemma_entry_item_at(s: Seq<char>, i: int, q: Seq<PriceEntry>, k: int, pos: int)
    requires
        0 <= i,
        ematch(s, i, q),
        0 <= k < q.len(),
        pos == i + entries_text(q.take(k)).len() + if k > 0 {
            1int
        } else {
            0int
        },
    ensures
        entry_facts(s, i, q, k, pos),
{
    reveal_strlit("\"");
    reveal_strlit("\":\"");
    assert("\""@.len() == 1 && "\":\""@.len() == 3);
    assert("\""@ =~= seq!['"']);
    let e = q[k];
    let item = entry_text(e);
    let pre = entries_text(q.take(k));
    let sep: Seq<char> = if k > 0 {
        seq![',']
    } else {
        Seq::empty()
    };
    let rest = entries_tail_text(q.skip(k + 1));
    assert(entries_text(q) == pre + sep + item + rest) by {
        if k == 0 {
            assert(q.take(0) =~= Seq::<PriceEntry>::empty());
            assert(entries_text(q) =~= pre + sep + item + rest);
        } else {
            lemma_entries_split(q, k);
            assert(entries_tail_text(q.skip(k)) == seq![','] + entry_text(q.skip(k)[0])
                + entries_tail_text(q.skip(k).skip(1)));
            assert(q.skip(k)[0] == q[k]);
            assert(q.skip(k).skip(1) =~= q.skip(k + 1));
            assert(entries_text(q) =~= pre + sep + item + rest);
        }
    }
    assert(i + entries_text(q.take(k + 1)).len() == pos + item.len()) by {
        lemma_entries_text_snoc(q.take(k), q[k]);
        assert(q.take(k + 1) =~= q.take(k).push(q[k]));
        if k == 0 {
            assert(entries_text(q.take(1)) == entry_text(q[0]));
        }
    }
    let cl = e.currency@.len() as int;
    let dt = dec_text(e.price);
    let m1 = pos + 1;
    let m2 = m1 + cl;
    let m3 = m2 + 3;
    let m4 = m3 + dt.len() as int;
    assert(item == seq!['"'] + e.currency@ + "\":\""@ + dt + seq!['"']);
    assert(item.len() == 1 + cl + 3 + dt.len() + 1);
    let pt = entries_text(q);
    assert forall|x: int| 0 <= x < pt.len() implies s[i + x] == #[trigger] pt[x] by {
        assert(s.subrange(i, i + pt.len())[x] == pt[x]);
        assert(s.subrange(i, i + pt.len())[x] == s[i + x]);
    }
    assert forall|x: int| 0 <= x < item.len() implies s[pos + x] == #[trigger] item[x] by {
        assert(pt[(pos - i) + x] == item[x]);
        assert(s[i + ((pos - i) + x)] == pt[(pos - i) + x]);
    }
    lemma_concat5_index(seq!['"'], e.currency@, "\":\""@, dt, seq!['"']);
    assert forall|x: int| 0 <= x < 1 implies s[pos + x] == seq!['"'][x] by {
        assert(item[x] == seq!['"'][x]);
    }
    assert forall|x: int| 0 <= x < cl implies s[m1 + x] == e.currency@[x] by {
        assert(item[1 + x] == e.currency@[x]);
        assert(s[pos + (1 + x)] == item[1 + x]);
    }
    assert forall|x: int| 0 <= x < 3 implies s[m2 + x] == "\":\""@[x] by {
        assert(item[1 + cl + x] == "\":\""@[x]);
        assert(s[pos + (1 + cl + x)] == item[1 + cl + x]);
    }
    assert forall|x: int| 0 <= x < dt.len() implies s[m3 + x] == dt[x] by {
        assert(item[1 + cl + 3 + x] == dt[x]);
        assert(s[pos + (1 + cl + 3 + x)] == item[1 + cl + 3 + x]);
    }
    assert forall|x: int| 0 <= x < 1 implies s[m4 + x] == seq!['"'][x] by {
        assert(item[1 + cl + 3 + dt.len() + x] == seq!['"'][x]);
        assert(s[pos + (1 + cl + 3 + dt.len() + x)] == item[1 + cl + 3 + dt.len() + x]);
    }
    assert(s.subrange(pos, pos + 1) =~= "\""@);
    assert(s.subrange(m1, m2) =~= e.currency@);
    assert(s.subrange(m2, m3) =~= "\":\""@);
    assert(s.subrange(m3, m4) =~= dt);
    assert(s.subrange(m4, m4 + 1) =~= "\""@);
    assert(s[m2 + 0] == "\":\""@[0]);
    assert("\":\""@[0] == '"');
    assert(s[m4 + 0] == seq!['"'][0]);
    if k + 1 < q.len() {
        lemma_entries_split(q, k + 1);
        assert(entries_tail_text(q.skip(k + 1)) == seq![','] + entry_text(q.skip(k + 1)[0])
            + entries_tail_text(q.skip(k + 1).skip(1)));
        assert(pt[pos + item.len() - i] == ',');
    }
    if k + 1 == q.len() {
        assert(q.take(k + 1) =~= q);
    }
}

/// Whether one of the bindings read so far already uses a ticker.
fn contains_ticker(entries: &Vec<PriceEntry>, t: &String) -> (b: bool)
    ensures
        b == exists|x: int| 0 <= x < entries@.len() && (#[trigger] entries@[x]).currency@ == t@,
{
    let n = entries.len();
    let mut i: usize = 0;
    while i < n
        invariant
            n == entries@.len(),
            0 <= i <= n,
            forall|x: int| 0 <= x < i ==> (#[trigger] entries@[x]).currency@ != t@,
        decreases n - i,
    {
        if entries[i].currency.eq(t) {
            return true;
        }
        i = i + 1;
    }
    false
}

/// Parse a comma-separated list of price bindings, stopping before the
/// closing brace. Any canonical binding-list text parses back to the
/// bindings it denotes.
fn parse_entries(s: &str, i: usize) -> (r: Option<(Vec<PriceEntry>, usize)>)
    requires
        i <= s@.len(),
    ensures
        r matches Some((v, j)) ==> i <= j <= s@.len() && entries_wf(v@),
        forall|q: Seq<PriceEntry>|
            ematch(s@, i as int, q) ==> (r matches Some((v, j)) && entry_views_eq(v@, q) && j == i
                + entries_text(q).len()),
{
    proof {
        reveal_strlit("\"");
        reveal_strlit("\":\"");
    }
    let len = s.unicode_len();
    let mut out: Vec<PriceEntry> = Vec::new();
    if i >= len {
        return None;
    }
    if s.get_char(i) == '}' {
        proof {
            assert forall|q: Seq<PriceEntry>| ematch(s@, i as int, q) implies q.len() == 0 by {
                if q.len() > 0 {
                    lemma_entry_item_at(s@, i as int, q, 0, i as int);
                    reveal_strlit("\"");
                    assert(s@.subrange(i as int, i + 1) == "\""@);
                    assert(s@.subrange(i as int, i + 1)[0] == s@[i as int]);
                    assert("\""@[0] == '"');
                    assert(s@[i as int] == '"');
                }
            }
            assert forall|q: Seq<PriceEntry>|
                ematch(s@, i as int, q) implies entry_views_eq(out@, q) && q.len() == 0 by {
            reveal(cfg_opt_facts);
                assert(q.len() == 0);
            }
        }
        return Some((out, i));
    }
    let mut pos: usize = i;
    loop
        invariant
            i <= pos <= len,
            len == s@.len(),
            entries_wf(out@),
            forall|q: Seq<PriceEntry>|
                ematch(s@, i as int, q) ==> {
                    &&& out@.len() < q.len()
                    &&& entry_views_eq(out@, q.take(out@.len() as int))
                    &&& pos == i + entries_text(q.take(out@.len() as int)).len() + if out@.len()
                        > 0 {
                        1int
                    } else {
                        0int
                    }
                },
        decreases len - pos,
    {
        let ghost k = out@.len() as int;
        proof {
            reveal_strlit("\"");
            reveal_strlit("\":\"");
            assert("\""@.len() == 1 && "\":\""@.len() == 3);
            assert forall|q: Seq<PriceEntry>| ematch(s@, i as int, q) implies entry_facts(
                s@,
                i as int,
                q,
                k,
                pos as int,
            ) by {
                lemma_entry_item_at(s@, i as int, q, k, pos as int);
            }
        }
        let m1 = match expect_lit(s, pos, "\"") {
            Some(j) => j,
            None => {
                proof {
                    assert forall|q: Seq<PriceEntry>| !ematch(s@, i as int, q) by {
                        if ematch(s@, i as int, q) {
                            assert(entry_facts(s@, i as int, q, k, pos as int));
                        }
                    }
                }
                return None;
            },
        };
        let (cur, m2) = match scan_plain(s, m1) {
            Some(t) => t,
            None => {
                proof {
                    assert forall|q: Seq<PriceEntry>| !ematch(s@, i as int, q) by {
                        if ematch(s@, i as int, q) {
                            assert(entry_facts(s@, i as int, q, k, pos as int));
                            assert(s@[pos + 1 + q[k].currency@.len()] == '"');
                        }
                    }
                }
                return None;
            },
        };
        proof {
            assert forall|q: Seq<PriceEntry>| ematch(s@, i as int, q) implies m2 == m1
                + q[k].currency@.len() && cur@ == q[k].currency@ by {
                assert(entry_facts(s@, i as int, q, k, pos as int));
                let cl = q[k].currency@.len() as int;
                assert(entries_wf(q));
                assert(ticker_wf(q[k].currency@));
                if m2 < m1 + cl {
                    assert(s@.subrange(m1 as int, m1 + cl) == q[k].currency@);
                    assert(s@[m2 as int] == q[k].currency@[m2 - m1]);
                    assert(crate::model::ticker_char(q[k].currency@[m2 - m1]));
                    assert(false);
                }
                if m2 > m1 + cl {
                    assert(s@[m1 + cl] == '"');
                    assert(false);
                }
                assert(cur@ =~= q[k].currency@);
            }
        }
        if !check_ticker(&cur) {
            return None;
        }
        if contains_ticker(&out, &cur) {
            proof {
                assert forall|q: Seq<PriceEntry>| !ematch(s@, i as int, q) by {
                    if ematch(s@, i as int, q) {
                        let x = choose|x: int|
                            0 <= x < out@.len() && (#[trigger] out@[x]).currency@ == cur@;
                        assert(q.take(k)[x].currency@ == q[x].currency@);
                        assert(q[x].currency@ == q[k].currency@);
                    }
                }
            }
            return None;
        }
        let m3 = match expect_lit(s, m2, "\":\"") {
            Some(j) => j,
            None => {
                proof {
                    assert forall|q: Seq<PriceEntry>| !ematch(s@, i as int, q) by {
                        if ematch(s@, i as int, q) {
                            assert(entry_facts(s@, i as int, q, k, pos as int));
                        }
                    }
                }
                return None;
            },
        };
        let (dt, m4) = match scan_plain(s, m3) {
            Some(t) => t,
            None => {
                proof {
                    assert forall|q: Seq<PriceEntry>| !ematch(s@, i as int, q) by {
                        if ematch(s@, i as int, q) {
                            assert(entry_facts(s@, i as int, q, k, pos as int));
                            assert(s@[pos + 1 + q[k].currency@.len() + 3 + dec_text(
                                q[k].price,
                            ).len()] == '"');
                        }
                    }
                }
                return None;
            },
        };
        proof {
            assert forall|q: Seq<PriceEntry>| ematch(s@, i as int, q) implies m4 == m3 + dec_text(
                q[k].price,
            ).len() && dt@ == dec_text(q[k].price) by {
                assert(entry_facts(s@, i as int, q, k, pos as int));
                let dl = dec_text(q[k].price).len() as int;
                assert(q[k].price.wf());
                lemma_dec_text_no_quote(q[k].price);
                if m4 < m3 + dl {
                    assert(s@.subrange(m3 as int, m3 + dl) == dec_text(q[k].price));
                    assert(s@[m4 as int] == dec_text(q[k].price)[m4 - m3]);
                    assert(false);
                }
                if m4 > m3 + dl {
                    assert(s@[m3 + dl] == '"');
                    assert(false);
                }
                assert(dt@ =~= dec_text(q[k].price));
            }
        }
        let d = match dec_from_text(&dt) {
            Some(d) => d,
            None => {
                proof {
                    assert forall|q: Seq<PriceEntry>| !ematch(s@, i as int, q) by {
                        if ematch(s@, i as int, q) {
                            assert(q[k].price.wf());
                            assert(dt@ == dec_text(q[k].price));
                        }
                    }
                }
                return None;
            },
        };
        if d.m < 0 {
            proof {
                assert forall|q: Seq<PriceEntry>| !ematch(s@, i as int, q) by {
                    if ematch(s@, i as int, q) {
                        assert(d == q[k].price);
                        crate::decimal::lemma_pow10_pos(
                            (crate::decimal::S_MAX - q[k].price.s) as nat,
                        );
                        assert(q[k].price.m * crate::decimal::pow10(
                            (crate::decimal::S_MAX - q[k].price.s) as nat,
                        ) < 0) by (nonlinear_arith)
                            requires
                                q[k].price.m < 0 && crate::decimal::pow10(
                                    (crate::decimal::S_MAX - q[k].price.s) as nat,
                                ) >= 1,
                        ;
                    }
                }
            }
            return None;
        }
        proof {
            crate::decimal::lemma_pow10_pos((crate::decimal::S_MAX - d.s) as nat);
            assert(d.m * crate::decimal::pow10((crate::decimal::S_MAX - d.s) as nat) >= 0)
                by (nonlinear_arith)
                requires
                    d.m >= 0 && crate::decimal::pow10((crate::decimal::S_MAX - d.s) as nat) >= 1,
            ;
        }
        let endpos = match expect_lit(s, m4, "\"") {
            Some(j) => j,
            None => {
                proof {
                    assert forall|q: Seq<PriceEntry>| !ematch(s@, i as int, q) by {
                        if ematch(s@, i as int, q) {
                            assert(entry_facts(s@, i as int, q, k, pos as int));
                        }
                    }
                }
                return None;
            },
        };
        let ghost out_before = out@;
        let entry = PriceEntry { currency: cur, price: d };
        proof {
            assert(ticker_wf(entry.currency@) && entry.price.wf() && entry.price.v() >= 0);
            assert(forall|x: int|
                0 <= x < out_before.len() ==> (#[trigger] out_before[x]).currency@ != entry.currency@);
        }
        out.push(entry);
        pos = endpos;
        proof {
            assert forall|q: Seq<PriceEntry>| ematch(s@, i as int, q) implies {
                &&& out@.len() <= q.len()
                &&& entry_views_eq(out@, q.take(out@.len() as int))
                &&& pos == i + entries_text(q.take(out@.len() as int)).len()
                &&& (out@.len() < q.len() ==> s@[pos as int] == ',' && pos < s@.len())
                &&& (out@.len() == q.len() ==> s@[pos as int] == '}' && pos == i + entries_text(
                    q,
                ).len() && pos < s@.len())
            } by {
                assert(entry_facts(s@, i as int, q, k, epos_prev(i as int, q, k)));
                assert(out@.drop_last() =~= out@.take(k));
                assert(q.take(k + 1) =~= q.take(k).push(q[k]));
                assert(out@[k] == entry);
            }
            assert(entries_wf(out@)) by {
                assert(forall|x: int|
                    0 <= x < out_before.len() ==> #[trigger] out@[x] == out_before[x]);
                assert(out@[out@.len() - 1] == entry);
            }
        }
        if pos >= len {
            return None;
        }
        if s.get_char(pos) == ',' {
            pos = pos + 1;
        } else {
            proof {
                assert forall|q: Seq<PriceEntry>| ematch(s@, i as int, q) implies out@.len()
                    == q.len() && entry_views_eq(out@, q) && pos == i + entries_text(
                    q,
                ).len() by {
                    assert(q.take(q.len() as int) =~= q);
                }
            }
            return Some((out, pos));
        }
    }
}

/// The position at which binding `k` begins, after `k` bindings and a
/// separator.
pub open spec fn epos_prev(i: int, q: Seq<PriceEntry>, k: int) -> int {
    i + entries_text(q.take(k)).len() + if k > 0 {
        1int
    } else {
        0int
    }
}

/// Serialize a configuration to its canonical JSON text.
pub fn write_config_text(c: &Configuration) -> (r: String)
    requires
        c.wf(),
    ensures
        r@ == config_text(*c),
{
    let mut out = String::new();
    out.append("{\"app_id\":\"");
    out.append(c.app_id.as_str());
    out.append("\",\"fx_app_id\":\"");
    out.append(c.fx_app_id.as_str());
    out.append("\",\"timestamp\":");
    crate::decimal::push_uint(&mut out, c.timestamp);
    out.append(",\"portfolio\":{\"positions\":[");
    let n = c.portfolio.positions.len();
    let ghost base = out@;
    let mut i: usize = 0;
    while i < n
        invariant
            c.wf(),
            n == c.portfolio.positions@.len(),
            0 <= i <= n,
            out@ == base + positions_text(c.portfolio.positions@.take(i as int)),
        decreases n - i,
    {
        if i > 0 {
            out.append(",");
            proof {
                reveal_strlit(",");
            }
        }
        let p = &c.portfolio.positions[i];
        out.append("{\"currency\":\"");
        out.append(p.currency.as_str());
        out.append("\",\"holding\":\"");
        let holding_text = p.holding.to_text();
        out.append(holding_text.as_str());
        out.append("\"}");
        proof {
            let q = c.portfolio.positions@.take(i as int);
            lemma_positions_text_snoc(q, c.portfolio.positions@[i as int]);
            assert(c.portfolio.positions@.take(i + 1) =~= q.push(
                c.portfolio.positions@[i as int],
            ));
            assert(out@ =~= base + positions_text(c.portfolio.positions@.take(i + 1)));
        }
        i = i + 1;
    }
    proof {
        assert(c.portfolio.positions@.take(n as int) =~= c.portfolio.positions@);
    }
    out.append("]},\"prices\":{");
    let m = c.prices.entries.len();
    let ghost base2 = out@;
    let mut j: usize = 0;
    while j < m
        invariant
            c.wf(),
            m == c.prices.entries@.len(),
            0 <= j <= m,
            out@ == base2 + entries_text(c.prices.entries@.take(j as int)),
        decreases m - j,
    {
        if j > 0 {
            out.append(",");
            proof {
                reveal_strlit(",");
            }
        }
        let e = &c.prices.entries[j];
        out.append("\"");
        out.append(e.currency.as_str());
        out.append("\":\"");
        let price_text = e.price.to_text();
        out.append(price_text.as_str());
        out.append("\"");
        proof {
            reveal_strlit("\"");
            let q = c.prices.entries@.take(j as int);
            lemma_entries_text_snoc(q, c.prices.entries@[j as int]);
            assert(c.prices.entries@.take(j + 1) =~= q.push(c.prices.entries@[j as int]));
            assert(out@ =~= base2 + entries_text(c.prices.entries@.take(j + 1)));
        }
        j = j + 1;
    }
    proof {
        assert(c.prices.entries@.take(m as int) =~= c.prices.entries@);
    }
    out.append("}}");
    proof {
        assert(out@ =~= config_text(*c));
    }
    out
}


/// The facts [`lemma_cfg_opt_offsets`] yields: where every piece of a
/// shaped configuration text stands, for the members that are present,
/// and which key characters rule the absent ones out.
#[verifier::opaque]
pub open spec fn cfg_opt_facts(
    c: Configuration,
    s: Seq<char>,
    fa: bool,
    ff: bool,
    ft: bool,
) -> bool {
    let alen = c.app_id@.len() as int;
    let flen = c.fx_app_id@.len() as int;
    let ut = uint_text(c.timestamp as int);
    let pa = 1 + if fa {
        12 + alen
    } else {
        0int
    };
    let pb = pa + if ff {
        15 + flen
    } else {
        0int
    };
    let pc = pb + if ft {
        13 + ut.len() as int
    } else {
        0int
    };
    let pd = pc + 26;
    let o7 = pd + positions_text(c.portfolio.positions@).len() as int;
    let te = o7 + 13;
    let o9 = te + entries_text(c.prices.entries@).len() as int;
    &&& s.len() == o9 + 2
    &&& lit_at(s, 0, "{"@)
    &&& (fa ==> {
        &&& lit_at(s, 1, "\"app_id\":\""@)
        &&& s.subrange(11, 11 + alen) == c.app_id@
        &&& (forall|k: int| 11 <= k < 11 + alen ==> s[k] != '"')
        &&& s[11 + alen] == '"'
        &&& lit_at(s, 11 + alen, "\","@)
    })
    &&& (!fa ==> s[2] != 'a')
    &&& (ff ==> {
        &&& lit_at(s, pa, "\"fx_app_id\":\""@)
        &&& s.subrange(pa + 13, pa + 13 + flen) == c.fx_app_id@
        &&& (forall|k: int| pa + 13 <= k < pa + 13 + flen ==> s[k] != '"')
        &&& s[pa + 13 + flen] == '"'
        &&& lit_at(s, pa + 13 + flen, "\","@)
    })
    &&& (!ff ==> s[pa + 1] != 'f')
    &&& (ft ==> {
        &&& lit_at(s, pb, "\"timestamp\":"@)
        &&& s.subrange(pb + 12, pb + 12 + ut.len() as int) == ut
        &&& (forall|k: int|
            pb + 12 <= k < pb + 12 + ut.len() as int ==> crate::decimal::is_digit_char(s[k]))
        &&& 1 <= ut.len() <= 20
        &&& crate::decimal::digits_val(s.subrange(pb + 12, pb + 12 + ut.len() as int))
            == c.timestamp
        &&& !crate::decimal::is_digit_char(s[pb + 12 + ut.len() as int])
        &&& lit_at(s, pb + 12 + ut.len() as int, ","@)
    })
    &&& (!ft ==> s[pb + 1] != 't')
    &&& lit_at(s, pc, "\"portfolio\":{\"positions\":["@)
    &&& pmatch(s, pd, c.portfolio.positions@)
    &&& lit_at(s, o7, "]},\"prices\":{"@)
    &&& ematch(s, te, c.prices.entries@)
    &&& lit_at(s, o9, "}}"@)
}

/// Where every piece of a shaped configuration text stands.
#[verifier::rlimit(100)]
#[verifier::spinoff_prover]
proof fn lemma_cfg_opt_offsets(
    c: Configuration,
    s: Seq<char>,
    fa: bool,
    ff: bool,
    ft: bool,
    now: u64,
)
    requires
        canonical_opt(c, s, fa, ff, ft, now),
    ensures
        cfg_opt_facts(c, s, fa, ff, ft),
{
    reveal_strlit("{");
    reveal_strlit("\"app_id\":\"");
    reveal_strlit("\"fx_app_id\":\"");
    reveal_strlit("\"timestamp\":");
    reveal_strlit("\",");
    reveal_strlit(",");
    reveal_strlit("\"portfolio\":{\"positions\":[");
    reveal_strlit("]},\"prices\":{");
    reveal_strlit("}}");
    let app = c.app_id@;
    let fx = c.fx_app_id@;
    let ut = uint_text(c.timestamp as int);
    let pt = positions_text(c.portfolio.positions@);
    let et = entries_text(c.prices.entries@);
    let alen = app.len() as int;
    let flen = fx.len() as int;
    let ua: Seq<char> = if fa {
        app_unit(c)
    } else {
        Seq::empty()
    };
    let uf: Seq<char> = if ff {
        fx_unit(c)
    } else {
        Seq::empty()
    };
    let utk: Seq<char> = if ft {
        ts_unit(c)
    } else {
        Seq::empty()
    };
    let g1 = seq!['{'] + ua;
    let g2 = g1 + uf;
    let g3 = g2 + utk;
    let g4 = g3 + "\"portfolio\":{\"positions\":["@;
    let g5 = g4 + pt + "]},\"prices\":{"@;
    let pa = g1.len() as int;
    let pb = g2.len() as int;
    let pc = g3.len() as int;
    let pd = g4.len() as int;
    let o7 = pd + pt.len() as int;
    let te = g5.len() as int;
    let o9 = te + et.len() as int;
    crate::decimal::lemma_uint_text_digits(c.timestamp as int);
    crate::decimal::lemma_digits_val_uint(c.timestamp as int);
    assert(ut.len() <= 20) by {
        assert(c.timestamp < crate::decimal::pow10(20nat)) by {
            reveal_with_fuel(crate::decimal::pow10, 22);
        }
        crate::decimal::lemma_uint_text_len_bound(c.timestamp as int, 20nat);
    }
    // Prefix transparency through the layered structure.
    assert forall|x: int| 0 <= x < te implies s[x] == g5[x] by {
        assert(s[x] == (g5 + et)[x]);
        assert((g5 + et)[x] == g5[x]);
    }
    assert forall|x: int| 0 <= x < o7 implies s[x] == (g4 + pt)[x] by {
        assert(g5[x] == (g4 + pt)[x]);
    }
    assert forall|x: int| 0 <= x < pd implies s[x] == g4[x] by {
        assert((g4 + pt)[x] == g4[x]);
    }
    assert forall|x: int| 0 <= x < pc implies s[x] == g3[x] by {
        assert(g4[x] == g3[x]);
    }
    assert forall|x: int| 0 <= x < pb implies s[x] == g2[x] by {
        assert(g3[x] == g2[x]);
    }
    assert forall|x: int| 0 <= x < pa implies s[x] == g1[x] by {
        assert(g2[x] == g1[x]);
    }
    assert(s[0] == '{') by {
        assert(g1[0] == seq!['{'][0]);
    }
    assert(s.subrange(0, 1) =~= "{"@);
    // The app member.
    if fa {
        assert(ua == "\"app_id\":\""@ + app + "\","@);
        assert forall|x: int| 0 <= x < ua.len() implies s[1 + x] == ua[x] by {
            assert(g1[1 + x] == ua[x]);
        }
        assert forall|x: int| 0 <= x < 10 implies s[1 + x] == "\"app_id\":\""@[x] by {
            assert(ua[x] == "\"app_id\":\""@[x]);
        }
        assert forall|x: int| 0 <= x < alen implies s[11 + x] == app[x] by {
            assert(ua[10 + x] == app[x]);
            assert(s[1 + (10 + x)] == ua[10 + x]);
        }
        assert forall|x: int| 0 <= x < 2 implies s[11 + alen + x] == "\","@[x] by {
            assert(ua[10 + alen + x] == "\","@[x]);
            assert(s[1 + (10 + alen + x)] == ua[10 + alen + x]);
        }
        assert(s.subrange(1, 11) =~= "\"app_id\":\""@);
        assert(s.subrange(11, 11 + alen) =~= app);
        assert(s.subrange(11 + alen, 11 + alen + 2) =~= "\","@);
        assert(s[11 + alen + 0] == "\","@[0]);
        assert forall|k: int| 11 <= k < 11 + alen implies s[k] != '"' by {
            assert(s[k] == app[k - 11]);
            assert(crate::model::text_char(app[k - 11]));
        }
    }
    // The fx member.
    if ff {
        assert(uf == "\"fx_app_id\":\""@ + fx + "\","@);
        assert forall|x: int| 0 <= x < uf.len() implies s[pa + x] == uf[x] by {
            assert(g2[pa + x] == uf[x]);
        }
        assert forall|x: int| 0 <= x < 13 implies s[pa + x] == "\"fx_app_id\":\""@[x] by {
            assert(uf[x] == "\"fx_app_id\":\""@[x]);
        }
        assert forall|x: int| 0 <= x < flen implies s[pa + 13 + x] == fx[x] by {
            assert(uf[13 + x] == fx[x]);
            assert(s[pa + (13 + x)] == uf[13 + x]);
        }
        assert forall|x: int| 0 <= x < 2 implies s[pa + 13 + flen + x] == "\","@[x] by {
            assert(uf[13 + flen + x] == "\","@[x]);
            assert(s[pa + (13 + flen + x)] == uf[13 + flen + x]);
        }
        assert(s.subrange(pa, pa + 13) =~= "\"fx_app_id\":\""@);
        assert(s.subrange(pa + 13, pa + 13 + flen) =~= fx);
        assert(s.subrange(pa + 13 + flen, pa + 13 + flen + 2) =~= "\","@);
        assert(s[pa + 13 + flen + 0] == "\","@[0]);
        assert forall|k: int| pa + 13 <= k < pa + 13 + flen implies s[k] != '"' by {
            assert(s[k] == fx[k - (pa + 13)]);
            assert(crate::model::text_char(fx[k - (pa + 13)]));
        }
    }
    // The timestamp member.
    if ft {
        assert(utk == "\"timestamp\":"@ + ut + seq![',']);
        assert forall|x: int| 0 <= x < utk.len() implies s[pb + x] == utk[x] by {
            assert(g3[pb + x] == utk[x]);
        }
        assert forall|x: int| 0 <= x < 12 implies s[pb + x] == "\"timestamp\":"@[x] by {
            assert(utk[x] == "\"timestamp\":"@[x]);
        }
        assert forall|x: int| 0 <= x < ut.len() implies s[pb + 12 + x] == ut[x] by {
            assert(utk[12 + x] == ut[x]);
            assert(s[pb + (12 + x)] == utk[12 + x]);
        }
        assert(s[pb + 12 + ut.len() as int] == ',') by {
            assert(utk[12 + ut.len() as int] == seq![','][0]);
            assert(s[pb + (12 + ut.len() as int)] == utk[12 + ut.len() as int]);
        }
        assert(s.subrange(pb, pb + 12) =~= "\"timestamp\":"@);
        assert(s.subrange(pb + 12, pb + 12 + ut.len() as int) =~= ut);
        assert(s.subrange(pb + 12 + ut.len() as int, pb + 13 + ut.len() as int) =~= ","@);
        assert forall|k: int|
            pb + 12 <= k < pb + 12 + ut.len() as int implies crate::decimal::is_digit_char(
            s[k],
        ) by {
            assert(s[k] == ut[k - (pb + 12)]);
        }
    }
    // The portfolio opener and the lists.
    assert forall|x: int| 0 <= x < 26 implies s[pc + x] == "\"portfolio\":{\"positions\":["@[x] by {
        assert(g4[pc + x] == "\"portfolio\":{\"positions\":["@[x]);
    }
    assert(s.subrange(pc, pc + 26) =~= "\"portfolio\":{\"positions\":["@);
    assert forall|x: int| 0 <= x < pt.len() implies s[pd + x] == pt[x] by {
        assert((g4 + pt)[pd + x] == pt[x]);
    }
    assert(s.subrange(pd, o7) =~= pt);
    assert forall|x: int| 0 <= x < 13 implies s[o7 + x] == "]},\"prices\":{"@[x] by {
        assert(g5[o7 + x] == "]},\"prices\":{"@[x]);
    }
    assert(s.subrange(o7, o7 + 13) =~= "]},\"prices\":{"@);
    assert(pmatch(s, pd, c.portfolio.positions@)) by {
        assert(s.subrange(o7, o7 + 13)[0] == s[o7]);
        assert("]},\"prices\":{"@[0] == ']');
    }
    assert forall|x: int| 0 <= x < et.len() implies s[te + x] == et[x] by {
        assert(s[te + x] == (g5 + et)[te + x]);
        assert((g5 + et)[te + x] == et[x]);
    }
    assert(s.subrange(te, o9) =~= et);
    assert forall|x: int| 0 <= x < 2 implies s[o9 + x] == "}}"@[x] by {
    }
    assert(s.subrange(o9, o9 + 2) =~= "}}"@);
    assert(ematch(s, te, c.prices.entries@)) by {
        assert(s.subrange(o9, o9 + 2)[0] == s[o9]);
        assert("}}"@[0] == '}');
    }
    // Which key starts each absent slot: the next member's second
    // character differs from the absent key's.
    if !fa {
        if ff {
            assert(s[pa + 1] == 'f');
        } else if ft {
            assert(s[pb + 1] == 't');
        } else {
            assert(s[pc + 1] == 'p');
        }
    }
    if !ff {
        if ft {
            assert(s[pb + 1] == 't');
        } else {
            assert(s[pc + 1] == 'p');
        }
    }
    if !ft {
        assert(s[pc + 1] == 'p');
    }
    assert(cfg_opt_facts(c, s, fa, ff, ft)) by {
        reveal(cfg_opt_facts);
    }
}

/// Why loading a configuration failed: the text is not a canonical
/// configuration.
#[derive(Clone, Copy, PartialEq, Eq, Structural, Debug)]
pub enum ConfigError {
    Malformed,
}

/// Compare a built string with the input text.
fn string_eq_str(a: &String, b: &str) -> (r: bool)
    ensures
        r == (a@ == b@),
{
    let bs = b.to_owned();
    a.eq(&bs)
}

/// Parse the optional `fx_app_id` member standing at `i`.
#[verifier::rlimit(100)]
#[verifier::spinoff_prover]
fn parse_fx_member(s: &str, i: usize, now: u64) -> (r: Option<(String, bool, usize)>)
    requires
        i <= s@.len(),
    ensures
        r matches Some(t) ==> t.2 <= s@.len() && text_wf(t.0@) && (!t.1 ==> t.0@
            == Seq::<char>::empty()),
        forall|c: Configuration, fa: bool, ff: bool, ft: bool|
            #![trigger canonical_opt(c, s@, fa, ff, ft, now)]
            canonical_opt(c, s@, fa, ff, ft, now) && i == 1 + (if fa {
                12 + c.app_id@.len() as int
            } else {
                0int
            }) ==> (r matches Some(t) && {
                &&& t.0@ == c.fx_app_id@
                &&& t.1 == ff
                &&& t.2 == i + (if ff {
                    15 + c.fx_app_id@.len() as int
                } else {
                    0int
                })
            }),
{
    proof {
        reveal_strlit("\"fx_app_id\":\"");
        reveal_strlit("\",");
        assert forall|c: Configuration, fa: bool, ff: bool, ft: bool|
            #![trigger canonical_opt(c, s@, fa, ff, ft, now)]
            canonical_opt(c, s@, fa, ff, ft, now) implies cfg_opt_facts(c, s@, fa, ff, ft) by {
            lemma_cfg_opt_offsets(c, s@, fa, ff, ft, now);
        }
    }
    let p1 = i;
    let (fx_app_id, has_fx, p2) = match expect_lit(s, p1, "\"fx_app_id\":\"") {
        Some(j) => {
            let (a, j2) = match scan_plain(s, j) {
                Some(t) => t,
                None => {
                    proof {
                        assert forall|c: Configuration, fa: bool, ff: bool, ft: bool|
                            !(canonical_opt(c, s@, fa, ff, ft, now) && i == 1 + (if fa {
                            12 + c.app_id@.len() as int
                        } else {
                            0int
                        })) by {
                            if canonical_opt(c, s@, fa, ff, ft, now) && i == 1 + (if fa {
                            12 + c.app_id@.len() as int
                        } else {
                            0int
                        }) {
                                reveal(cfg_opt_facts);
                                if ff {
                                    assert(s@[p1 + 13 + c.fx_app_id@.len() as int] == '"');
                                } else {
                                    assert(s@.subrange(p1 as int, p1 + 13)[1] == s@[p1 + 1]);
                                }
                            }
                        }
                    }
                    return None;
                },
            };
            let j3 = match expect_lit(s, j2, "\",") {
                Some(j3) => j3,
                None => {
                    proof {
                        assert forall|c: Configuration, fa: bool, ff: bool, ft: bool|
                            !(canonical_opt(c, s@, fa, ff, ft, now) && i == 1 + (if fa {
                            12 + c.app_id@.len() as int
                        } else {
                            0int
                        })) by {
                            if canonical_opt(c, s@, fa, ff, ft, now) && i == 1 + (if fa {
                            12 + c.app_id@.len() as int
                        } else {
                            0int
                        }) {
                                reveal(cfg_opt_facts);
                                if ff {
                                    lemma_quote_pinch(
                                        s@,
                                        j as int,
                                        j2 as int,
                                        c.fx_app_id@,
                                        p1 + 13 + c.fx_app_id@.len() as int,
                                    );
                                } else {
                                    assert(s@.subrange(p1 as int, p1 + 13)[1] == s@[p1 + 1]);
                                }
                            }
                        }
                    }
                    return None;
                },
            };
            (a, true, j3)
        },
        None => (String::new(), false, p1),
    };
    proof {
        assert forall|c: Configuration, fa: bool, ff: bool, ft: bool| canonical_opt(
            c,
            s@,
            fa,
            ff,
            ft,
            now,
        ) && i == 1 + (if fa {
            12 + c.app_id@.len() as int
        } else {
            0int
        }) implies ff == has_fx && fx_app_id@ == c.fx_app_id@ && p2 == p1 + (if ff {
            15 + c.fx_app_id@.len() as int
        } else {
            0int
        }) by {
            reveal(cfg_opt_facts);
            if !ff {
                assert(!lit_at(s@, p1 as int, "\"fx_app_id\":\""@)) by {
                    if lit_at(s@, p1 as int, "\"fx_app_id\":\""@) {
                        assert(s@.subrange(p1 as int, p1 + 13)[1] == s@[p1 + 1]);
                        assert("\"fx_app_id\":\""@[1] == 'f');
                    }
                }
                assert(fx_app_id@ =~= c.fx_app_id@);
            } else {
                lemma_quote_pinch(
                    s@,
                    p1 + 13,
                    p2 - 2,
                    c.fx_app_id@,
                    p1 + 13 + c.fx_app_id@.len() as int,
                );
                assert(fx_app_id@ =~= c.fx_app_id@);
            }
        }
    }
    if !check_text(&fx_app_id) {
        return None;
    }
    Some((fx_app_id, has_fx, p2))
}

/// Parse the optional `timestamp` member standing at `i`; an absent
/// member reads as the given instant.
#[verifier::rlimit(100)]
#[verifier::spinoff_prover]
fn parse_ts_member(s: &str, i: usize, now: u64) -> (r: Option<(u64, bool, usize)>)
    requires
        i <= s@.len(),
    ensures
        r matches Some(t) ==> t.2 <= s@.len() && (!t.1 ==> t.0 == now),
        forall|c: Configuration, fa: bool, ff: bool, ft: bool|
            #![trigger canonical_opt(c, s@, fa, ff, ft, now)]
            canonical_opt(c, s@, fa, ff, ft, now) && i == 1 + (if fa {
                12 + c.app_id@.len() as int
            } else {
                0int
            }) + (if ff {
                15 + c.fx_app_id@.len() as int
            } else {
                0int
            }) ==> (r matches Some(t) && {
                &&& t.0 == c.timestamp
                &&& t.1 == ft
                &&& t.2 == i + (if ft {
                    13 + uint_text(c.timestamp as int).len() as int
                } else {
                    0int
                })
            }),
{
    proof {
        reveal_strlit("\"timestamp\":");
        reveal_strlit(",");
        assert forall|c: Configuration, fa: bool, ff: bool, ft: bool|
            #![trigger canonical_opt(c, s@, fa, ff, ft, now)]
            canonical_opt(c, s@, fa, ff, ft, now) implies cfg_opt_facts(c, s@, fa, ff, ft) by {
            lemma_cfg_opt_offsets(c, s@, fa, ff, ft, now);
        }
    }
    let p2 = i;
    let (timestamp, has_ts, p3) = match expect_lit(s, p2, "\"timestamp\":") {
        Some(j) => {
            let e1 = scan_digits(s, j);
            proof {
                assert forall|c: Configuration, fa: bool, ff: bool, ft: bool| canonical_opt(
                    c,
                    s@,
                    fa,
                    ff,
                    ft,
                    now,
                ) && i == 1 + (if fa {
                            12 + c.app_id@.len() as int
                        } else {
                            0int
                        }) + (if ff {
                            15 + c.fx_app_id@.len() as int
                        } else {
                            0int
                        }) implies ft && e1 == j + uint_text(c.timestamp as int).len() && 1 <= e1 - j <= 20
                    && crate::decimal::digits_val(s@.subrange(j as int, e1 as int)) == c.timestamp
                    && lit_at(s@, e1 as int, ","@) by {
            reveal(cfg_opt_facts);
                    if !ft {
                        assert(s@.subrange(p2 as int, p2 + 12)[1] == s@[p2 + 1]);
                        assert("\"timestamp\":"@[1] == 't');
                    }
                    let utl = uint_text(c.timestamp as int).len() as int;
                    if e1 < j + utl {
                        assert(crate::decimal::is_digit_char(s@[e1 as int]));
                    }
                    if e1 > j + utl {
                        assert(!crate::decimal::is_digit_char(s@[j + utl]));
                    }
                }
            }
            if e1 == j || e1 - j > 25 {
                return None;
            }
            let ts128 = digits_to_u128(s, j, e1);
            if ts128 > 0xffff_ffff_ffff_ffff {
                return None;
            }
            let j2 = match expect_lit(s, e1, ",") {
                Some(j2) => j2,
                None => {
                    return None;
                },
            };
            (ts128 as u64, true, j2)
        },
        None => (now, false, p2),
    };
    proof {
        assert forall|c: Configuration, fa: bool, ff: bool, ft: bool| canonical_opt(
            c,
            s@,
            fa,
            ff,
            ft,
            now,
        ) && i == 1 + (if fa {
                            12 + c.app_id@.len() as int
                        } else {
                            0int
                        }) + (if ff {
                            15 + c.fx_app_id@.len() as int
                        } else {
                            0int
                        }) implies ft == has_ts && timestamp == c.timestamp && p3 == p2 + (if ft {
            13 + uint_text(c.timestamp as int).len() as int
        } else {
            0int
        }) by {
            reveal(cfg_opt_facts);
            if !ft {
                assert(!lit_at(s@, p2 as int, "\"timestamp\":"@)) by {
                    if lit_at(s@, p2 as int, "\"timestamp\":"@) {
                        assert(s@.subrange(p2 as int, p2 + 12)[1] == s@[p2 + 1]);
                        assert("\"timestamp\":"@[1] == 't');
                    }
                }
            }
        }
    }
    Some((timestamp, has_ts, p3))
}

/// Parse the opening brace and the three optional leading members,
/// yielding their values (or defaults), which members were present, and
/// the position after them.
#[verifier::rlimit(100)]
#[verifier::spinoff_prover]
fn parse_header(s: &str, now: u64) -> (r: Option<(String, String, u64, bool, bool, bool, usize)>)
    ensures
        r matches Some(t) ==> t.6 <= s@.len() && text_wf(t.0@) && text_wf(t.1@),
        r matches Some(t) ==> {
            &&& (!t.3 ==> t.0@ == Seq::<char>::empty())
            &&& (!t.4 ==> t.1@ == Seq::<char>::empty())
            &&& (!t.5 ==> t.2 == now)
        },
        forall|c: Configuration, fa: bool, ff: bool, ft: bool|
            canonical_opt(c, s@, fa, ff, ft, now) ==> (r matches Some(t) && {
                &&& t.0@ == c.app_id@
                &&& t.1@ == c.fx_app_id@
                &&& t.2 == c.timestamp
                &&& t.3 == fa
                &&& t.4 == ff
                &&& t.5 == ft
                &&& t.6 == 1 + (if fa {
                    12 + c.app_id@.len() as int
                } else {
                    0int
                }) + (if ff {
                    15 + c.fx_app_id@.len() as int
                } else {
                    0int
                }) + (if ft {
                    13 + uint_text(c.timestamp as int).len() as int
                } else {
                    0int
                })
            }),
{
    proof {
        reveal_strlit("{");
        reveal_strlit("\"app_id\":\"");
        reveal_strlit("\"fx_app_id\":\"");
        reveal_strlit("\"timestamp\":");
        reveal_strlit("\",");
        reveal_strlit(",");
        reveal_strlit("\"portfolio\":{\"positions\":[");
        reveal_strlit("]},\"prices\":{");
        reveal_strlit("}}");
        assert forall|c: Configuration, fa: bool, ff: bool, ft: bool|
            #![trigger canonical_opt(c, s@, fa, ff, ft, now)]
            canonical_opt(c, s@, fa, ff, ft, now) implies cfg_opt_facts(c, s@, fa, ff, ft) by {
            lemma_cfg_opt_offsets(c, s@, fa, ff, ft, now);
        }
    }
    let len = s.unicode_len();
    let p0 = match expect_lit(s, 0, "{") {
        Some(j) => j,
        None => {
            proof {
                assert forall|c: Configuration, fa: bool, ff: bool, ft: bool| !canonical_opt(
                    c,
                    s@,
                    fa,
                    ff,
                    ft,
                    now,
                ) by {
                    if canonical_opt(c, s@, fa, ff, ft, now) {
                        reveal(cfg_opt_facts);
                    }
                }
            }
            return None;
        },
    };
    // app_id, if present.
    let (app_id, has_app, p1) = match expect_lit(s, p0, "\"app_id\":\"") {
        Some(j) => {
            let (a, j2) = match scan_plain(s, j) {
                Some(t) => t,
                None => {
                    proof {
                        assert forall|c: Configuration, fa: bool, ff: bool, ft: bool|
                            !canonical_opt(c, s@, fa, ff, ft, now) by {
                            if canonical_opt(c, s@, fa, ff, ft, now) {
                                reveal(cfg_opt_facts);
                                if fa {
                                    assert(s@[11 + c.app_id@.len() as int] == '"');
                                } else {
                                    assert(s@.subrange(1, 11)[1] == s@[2]);
                                }
                            }
                        }
                    }
                    return None;
                },
            };
            let j3 = match expect_lit(s, j2, "\",") {
                Some(j3) => j3,
                None => {
                    proof {
                        assert forall|c: Configuration, fa: bool, ff: bool, ft: bool|
                            !canonical_opt(c, s@, fa, ff, ft, now) by {
                            if canonical_opt(c, s@, fa, ff, ft, now) {
                                reveal(cfg_opt_facts);
                                if fa {
                                    lemma_quote_pinch(
                                        s@,
                                        j as int,
                                        j2 as int,
                                        c.app_id@,
                                        11 + c.app_id@.len() as int,
                                    );
                                } else {
                                    assert(s@.subrange(1, 11)[1] == s@[2]);
                                }
                            }
                        }
                    }
                    return None;
                },
            };
            (a, true, j3)
        },
        None => (String::new(), false, p0),
    };
    proof {
        assert forall|c: Configuration, fa: bool, ff: bool, ft: bool| canonical_opt(
            c,
            s@,
            fa,
            ff,
            ft,
            now,
        ) implies fa == has_app && app_id@ == c.app_id@ && p1 == 1 + (if fa {
            12 + c.app_id@.len() as int
        } else {
            0int
        }) by {
            reveal(cfg_opt_facts);
            if !fa {
                assert(s@.subrange(1, 11)[1] == s@[2]);
                assert(!lit_at(s@, 1, "\"app_id\":\""@)) by {
                    if lit_at(s@, 1, "\"app_id\":\""@) {
                        assert(s@.subrange(1, 11)[1] == s@[2]);
                        assert("\"app_id\":\""@[1] == 'a');
                    }
                }
                assert(app_id@ =~= c.app_id@);
            } else {
                lemma_quote_pinch(s@, 11, p1 - 2, c.app_id@, 11 + c.app_id@.len() as int);
                assert(app_id@ =~= c.app_id@);
            }
        }
    }
    if !check_text(&app_id) {
        proof {
            assert forall|c: Configuration, fa: bool, ff: bool, ft: bool| !canonical_opt(
                c,
                s@,
                fa,
                ff,
                ft,
                now,
            ) by {
                if canonical_opt(c, s@, fa, ff, ft, now) {
                    reveal(cfg_opt_facts);
                    assert(app_id@ == c.app_id@);
                }
            }
        }
        return None;
    }
    let (fx_app_id, has_fx, p2) = match parse_fx_member(s, p1, now) {
        Some(t) => t,
        None => {
            return None;
        },
    };
    let (timestamp, has_ts, p3) = match parse_ts_member(s, p2, now) {
        Some(t) => t,
        None => {
            return None;
        },
    };
    Some((app_id, fx_app_id, timestamp, has_app, has_fx, has_ts, p3))
}

/// Whether `s` is a text the loader accepts as `c`: some shape of the
/// three optional members, each absent one carrying its default.
pub open spec fn loadable(c: Configuration, s: Seq<char>, now: u64) -> bool {
    exists|fa: bool, ff: bool, ft: bool| canonical_opt(c, s, fa, ff, ft, now)
}

/// Parse the JSON text of a configuration.
///
/// The accepted texts are exactly the shapes of [`config_text_opt`]: the
/// compact canonical form in which the `app_id`, `fx_app_id` and
/// `timestamp` members may each be absent. An absent credential reads as
/// empty, and an absent timestamp as the given instant, so a fresh
/// configuration's elapsed time reads as zero. Every text the writer can
/// produce is accepted and parses back to the configuration it was
/// written from.
#[verifier::rlimit(100)]
#[verifier::spinoff_prover]
pub fn parse_config(s: &str, now: u64) -> (r: Result<Configuration, ConfigError>)
    ensures
        r matches Ok(c2) ==> c2.wf() && loadable(c2, s@, now),
        forall|c: Configuration, fa: bool, ff: bool, ft: bool|
            canonical_opt(c, s@, fa, ff, ft, now) ==> r is Ok,
        r matches Ok(c2) ==> forall|c: Configuration, fa: bool, ff: bool, ft: bool|
            canonical_opt(c, s@, fa, ff, ft, now) ==> config_eq(c, c2),
{
    proof {
        reveal_strlit("{");
        reveal_strlit("\"app_id\":\"");
        reveal_strlit("\"fx_app_id\":\"");
        reveal_strlit("\"timestamp\":");
        reveal_strlit("\",");
        reveal_strlit(",");
        reveal_strlit("\"portfolio\":{\"positions\":[");
        reveal_strlit("]},\"prices\":{");
        reveal_strlit("}}");
        assert forall|c: Configuration, fa: bool, ff: bool, ft: bool|
            #![trigger canonical_opt(c, s@, fa, ff, ft, now)]
            canonical_opt(c, s@, fa, ff, ft, now) implies cfg_opt_facts(c, s@, fa, ff, ft) by {
            lemma_cfg_opt_offsets(c, s@, fa, ff, ft, now);
        }
    }
    let len = s.unicode_len();
    let (app_id, fx_app_id, timestamp, has_app, has_fx, has_ts, p3) = match parse_header(s, now) {
        Some(t) => t,
        None => {
            return Err(ConfigError::Malformed);
        },
    };
    let p4 = match expect_lit(s, p3, "\"portfolio\":{\"positions\":[") {
        Some(j) => j,
        None => {
            proof {
                assert forall|c: Configuration, fa: bool, ff: bool, ft: bool| !canonical_opt(
                    c,
                    s@,
                    fa,
                    ff,
                    ft,
                    now,
                ) by {
                    if canonical_opt(c, s@, fa, ff, ft, now) {
                        reveal(cfg_opt_facts);
                    }
                }
            }
            return Err(ConfigError::Malformed);
        },
    };
    let (positions, p5) = match parse_positions(s, p4) {
        Some(t) => t,
        None => {
            proof {
                assert forall|c: Configuration, fa: bool, ff: bool, ft: bool| !canonical_opt(
                    c,
                    s@,
                    fa,
                    ff,
                    ft,
                    now,
                ) by {
                    if canonical_opt(c, s@, fa, ff, ft, now) {
                        reveal(cfg_opt_facts);
                        assert(pmatch(s@, p4 as int, c.portfolio.positions@));
                    }
                }
            }
            return Err(ConfigError::Malformed);
        },
    };
    proof {
        assert forall|c: Configuration, fa: bool, ff: bool, ft: bool| canonical_opt(
            c,
            s@,
            fa,
            ff,
            ft,
            now,
        ) implies position_views_eq(positions@, c.portfolio.positions@) && p5 == p4
            + positions_text(c.portfolio.positions@).len() by {
            reveal(cfg_opt_facts);
            assert(pmatch(s@, p4 as int, c.portfolio.positions@));
        }
    }
    let p6 = match expect_lit(s, p5, "]},\"prices\":{") {
        Some(j) => j,
        None => {
            proof {
                assert forall|c: Configuration, fa: bool, ff: bool, ft: bool| !canonical_opt(
                    c,
                    s@,
                    fa,
                    ff,
                    ft,
                    now,
                ) by {
                    if canonical_opt(c, s@, fa, ff, ft, now) {
                        reveal(cfg_opt_facts);
                    }
                }
            }
            return Err(ConfigError::Malformed);
        },
    };
    let (entries, p7) = match parse_entries(s, p6) {
        Some(t) => t,
        None => {
            proof {
                assert forall|c: Configuration, fa: bool, ff: bool, ft: bool| !canonical_opt(
                    c,
                    s@,
                    fa,
                    ff,
                    ft,
                    now,
                ) by {
                    if canonical_opt(c, s@, fa, ff, ft, now) {
                        reveal(cfg_opt_facts);
                        assert(ematch(s@, p6 as int, c.prices.entries@));
                    }
                }
            }
            return Err(ConfigError::Malformed);
        },
    };
    proof {
        assert forall|c: Configuration, fa: bool, ff: bool, ft: bool| canonical_opt(
            c,
            s@,
            fa,
            ff,
            ft,
            now,
        ) implies entry_views_eq(entries@, c.prices.entries@) && p7 == p6 + entries_text(
            c.prices.entries@,
        ).len() by {
            reveal(cfg_opt_facts);
            assert(ematch(s@, p6 as int, c.prices.entries@));
        }
    }
    let config = Configuration {
        app_id,
        fx_app_id,
        timestamp,
        portfolio: Portfolio { positions },
        prices: PriceMap { entries },
    };
    proof {
        assert(config.wf());
    }
    let written = write_config_text_shaped(&config, has_app, has_fx, has_ts);
    if string_eq_str(&written, s) {
        proof {
            assert forall|c: Configuration, fa: bool, ff: bool, ft: bool| canonical_opt(
                c,
                s@,
                fa,
                ff,
                ft,
                now,
            ) implies config_eq(c, config) by {
            reveal(cfg_opt_facts);}
            if !has_app {
                assert(config.app_id@ =~= Seq::<char>::empty());
            }
            if !has_fx {
                assert(config.fx_app_id@ =~= Seq::<char>::empty());
            }
            assert(canonical_opt(config, s@, has_app, has_fx, has_ts, now));
            assert(loadable(config, s@, now));
        }
        Ok(config)
    } else {
        proof {
            assert forall|c: Configuration, fa: bool, ff: bool, ft: bool| !canonical_opt(
                c,
                s@,
                fa,
                ff,
                ft,
                now,
            ) by {
                if canonical_opt(c, s@, fa, ff, ft, now) {
                    reveal(cfg_opt_facts);
                    assert(config_eq(c, config));
                    lemma_config_text_opt_congruence(c, config, fa, ff, ft);
                    assert(written@ == s@);
                }
            }
        }
        Err(ConfigError::Malformed)
    }
}

/// A quote-free piece followed by a quote pins where a quote scan stops.
proof fn lemma_quote_pinch(s: Seq<char>, from: int, stop: int, piece: Seq<char>, qpos: int)
    requires
        0 <= from,
        from <= stop < s.len(),
        s[stop] == '"',
        forall|k: int| from <= k < stop ==> s[k] != '"',
        s.subrange(from, from + piece.len() as int) == piece,
        forall|k: int| 0 <= k < piece.len() ==> #[trigger] piece[k] != '"',
        qpos == from + piece.len(),
        qpos < s.len(),
        s[qpos] == '"',
    ensures
        stop == qpos,
{
    if stop < qpos {
        assert(s.subrange(from, from + piece.len() as int)[stop - from] == s[stop]);
        assert(piece[stop - from] != '"');
    }
    if stop > qpos {
        assert(s[qpos] != '"');
    }
}

/// Equal observable fields give equal shaped texts.
proof fn lemma_config_text_opt_congruence(
    a: Configuration,
    b: Configuration,
    fa: bool,
    ff: bool,
    ft: bool,
)
    requires
        config_eq(a, b),
    ensures
        config_text_opt(a, fa, ff, ft) == config_text_opt(b, fa, ff, ft),
{
    lemma_positions_text_congruence(a.portfolio.positions@, b.portfolio.positions@);
    lemma_entries_text_congruence(a.prices.entries@, b.prices.entries@);
    assert(config_text_opt(a, fa, ff, ft) =~= config_text_opt(b, fa, ff, ft));
}

proof fn lemma_positions_text_congruence(a: Seq<Position>, b: Seq<Position>)
    requires
        position_views_eq(a, b),
    ensures
        positions_text(a) == positions_text(b),
        positions_tail_text(a) == positions_tail_text(b),
    decreases a.len(),
{
    if a.len() > 0 {
        assert(position_views_eq(a.skip(1), b.skip(1))) by {
            assert(forall|i: int|
                0 <= i < a.len() - 1 ==> (#[trigger] a.skip(1)[i]) == a[i + 1] && b.skip(1)[i]
                    == b[i + 1]);
        }
        lemma_positions_text_congruence(a.skip(1), b.skip(1));
        assert(position_text(a[0]) == position_text(b[0]));
    }
}

proof fn lemma_entries_text_congruence(a: Seq<PriceEntry>, b: Seq<PriceEntry>)
    requires
        entry_views_eq(a, b),
    ensures
        entries_text(a) == entries_text(b),
        entries_tail_text(a) == entries_tail_text(b),
    decreases a.len(),
{
    if a.len() > 0 {
        assert(entry_views_eq(a.skip(1), b.skip(1))) by {
            assert(forall|i: int|
                0 <= i < a.len() - 1 ==> (#[trigger] a.skip(1)[i]) == a[i + 1] && b.skip(1)[i]
                    == b[i + 1]);
        }
        lemma_entries_text_congruence(a.skip(1), b.skip(1));
        assert(entry_text(a[0]) == entry_text(b[0]));
    }
}


/// Decide well-formedness of an arbitrary configuration value, for
/// callers outside the verified world that must establish it before
/// handing the value to the writer or the engine.
pub fn config_is_well_formed(c: &Configuration) -> (r: bool)
    ensures
        r == c.wf(),
{
    if !check_text(&c.app_id) || !check_text(&c.fx_app_id) {
        return false;
    }
    let n = c.portfolio.positions.len();
    let mut i: usize = 0;
    while i < n
        invariant
            n == c.portfolio.positions@.len(),
            0 <= i <= n,
            forall|k: int| 0 <= k < i ==> (#[trigger] c.portfolio.positions@[k]).wf(),
        decreases n - i,
    {
        let p = &c.portfolio.positions[i];
        if !check_ticker(&p.currency) || !p.holding.is_wf() {
            return false;
        }
        if p.holding.m < 0 {
            proof {
                crate::decimal::lemma_pow10_pos((crate::decimal::S_MAX - p.holding.s) as nat);
                assert(p.holding.m * crate::decimal::pow10(
                    (crate::decimal::S_MAX - p.holding.s) as nat,
                ) < 0) by (nonlinear_arith)
                    requires
                        p.holding.m < 0 && crate::decimal::pow10(
                            (crate::decimal::S_MAX - p.holding.s) as nat,
                        ) >= 1,
                ;
            }
            return false;
        }
        proof {
            crate::decimal::lemma_pow10_pos((crate::decimal::S_MAX - p.holding.s) as nat);
            assert(p.holding.m * crate::decimal::pow10(
                (crate::decimal::S_MAX - p.holding.s) as nat,
            ) >= 0) by (nonlinear_arith)
                requires
                    p.holding.m >= 0 && crate::decimal::pow10(
                        (crate::decimal::S_MAX - p.holding.s) as nat,
                    ) >= 1,
            ;
        }
        i = i + 1;
    }
    let m = c.prices.entries.len();
    let mut j: usize = 0;
    while j < m
        invariant
            n == c.portfolio.positions@.len(),
            m == c.prices.entries@.len(),
            0 <= j <= m,
            forall|k: int| 0 <= k < n ==> (#[trigger] c.portfolio.positions@[k]).wf(),
            forall|k: int|
                0 <= k < j ==> {
                    &&& ticker_wf((#[trigger] c.prices.entries@[k]).currency@)
                    &&& c.prices.entries@[k].price.wf()
                    &&& c.prices.entries@[k].price.v() >= 0
                },
            forall|a: int, b: int|
                0 <= a < b < j ==> (#[trigger] c.prices.entries@[a]).currency@ != (
                #[trigger] c.prices.entries@[b]).currency@,
            text_wf(c.app_id@),
            text_wf(c.fx_app_id@),
        decreases m - j,
    {
        let e = &c.prices.entries[j];
        if !check_ticker(&e.currency) || !e.price.is_wf() {
            return false;
        }
        if e.price.m < 0 {
            proof {
                crate::decimal::lemma_pow10_pos((crate::decimal::S_MAX - e.price.s) as nat);
                assert(e.price.m * crate::decimal::pow10(
                    (crate::decimal::S_MAX - e.price.s) as nat,
                ) < 0) by (nonlinear_arith)
                    requires
                        e.price.m < 0 && crate::decimal::pow10(
                            (crate::decimal::S_MAX - e.price.s) as nat,
                        ) >= 1,
                ;
            }
            return false;
        }
        proof {
            crate::decimal::lemma_pow10_pos((crate::decimal::S_MAX - e.price.s) as nat);
            assert(e.price.m * crate::decimal::pow10(
                (crate::decimal::S_MAX - e.price.s) as nat,
            ) >= 0) by (nonlinear_arith)
                requires
                    e.price.m >= 0 && crate::decimal::pow10(
                        (crate::decimal::S_MAX - e.price.s) as nat,
                    ) >= 1,
            ;
        }
        let mut a: usize = 0;
        while a < j
            invariant
                m == c.prices.entries@.len(),
                0 <= a <= j < m,
                forall|k: int|
                    0 <= k < a ==> (#[trigger] c.prices.entries@[k]).currency@
                        != c.prices.entries@[j as int].currency@,
            decreases j - a,
        {
            if c.prices.entries[a].currency.eq(&c.prices.entries[j].currency) {
                return false;
            }
            a = a + 1;
        }
        j = j + 1;
    }
    true
}

} // verus!
