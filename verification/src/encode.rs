//! Frame encoding, and the proof that encoding round-trips through the
//! frame codec.
//!
//! [`encode_frame`] writes a header block — one `key:value` line per entry,
//! a `Content-Length` line for the body, and the closing empty line — and
//! then the raw body. [`theorem_frame_round_trip`] proves that parsing the
//! encoding recovers every header (percent-decoded) and the body exactly.

use vstd::prelude::*;
use vstd::arithmetic::div_mod::lemma_fundamental_div_mod;
use vstd::utf8::encode_utf8;
use vstd::utf8::is_ascii_chars;
use crate::decode::decode_header_value;
use crate::decode::pdecode;
use crate::decode::wf_escapes;
use crate::headers::Header;
use crate::headers::distinct_keys;
use crate::strutil::all_digits;
use crate::strutil::digits_val;
use crate::strutil::is_digit;
use crate::strutil::is_ws;
use crate::strutil::parse_len;
use crate::strutil::trim;
use crate::strutil::ws_prefix_end;
use crate::strutil::ws_suffix_start;

verus! {

/// The bytes of ASCII text, one byte per character.
pub open spec fn ascii_bytes(s: Seq<char>) -> Seq<u8> {
    Seq::new(s.len(), |i: int| s[i] as u8)
}

/// The decimal digit characters of `n`, most significant first.
pub open spec fn digits_of(n: int) -> Seq<char>
    recommends
        n >= 0,
    decreases n,
{
    if n < 10 {
        seq![(48 + (if n >= 0 { n } else { 0 })) as char]
    } else {
        digits_of(n / 10).push((48 + n % 10) as char)
    }
}

pub proof fn lemma_digits_of(n: int)
    requires
        n >= 0,
    ensures
        digits_of(n).len() >= 1,
        all_digits(digits_of(n)),
        digits_val(digits_of(n)) == n,
    decreases n,
{
    if n < 10 {
        let s = digits_of(n);
        assert(s.len() == 1);
        assert(s[0] == (48 + n) as char);
        assert((48 + n) as char as u32 == 48 + n);
        assert(is_digit(s[0]));
        assert(s.drop_last() =~= Seq::<char>::empty());
        assert(digits_val(Seq::<char>::empty()) == 0);
        assert(digits_val(s) == digits_val(s.drop_last()) * 10 + (s.last() as u32 - 48));
    } else {
        lemma_digits_of(n / 10);
        lemma_fundamental_div_mod(n, 10);
        let s = digits_of(n);
        let p = digits_of(n / 10);
        assert(s == p.push((48 + n % 10) as char));
        assert(s.drop_last() =~= p);
        assert(s.last() == (48 + n % 10) as char);
        assert((48 + n % 10) as char as u32 == 48 + n % 10);
        assert(is_digit(s.last()));
        assert(all_digits(s)) by {
            assert(forall|i: int| 0 <= i < p.len() ==> s[i] == p[i]);
        }
        assert(digits_val(s) == digits_val(p) * 10 + (s.last() as u32 - 48));
        assert(digits_val(s) == (n / 10) * 10 + n % 10);
    }
}

/// The digit characters of `n` parse back to `n`.
pub proof fn lemma_digits_parse_back(n: int)
    requires
        n >= 0,
    ensures
        parse_len(digits_of(n)) == Some(n),
{
    lemma_digits_of(n);
    let s = digits_of(n);
    assert(is_digit(s[0]));
    assert(s[0] != '+') by {
        if s[0] == '+' {
            assert(s[0] as u32 == 43);
        }
    }
}

/// A digit character is ASCII and is neither a newline, a colon, nor
/// whitespace.
proof fn lemma_digit_char_plain(c: char)
    requires
        is_digit(c),
    ensures
        '\0' <= c <= '\u{7f}',
        c != '\n',
        c != ':',
        !is_ws(c),
{
}

/// Writes the decimal digits of `n` as bytes, most significant first.
fn usize_digit_bytes(n: usize) -> (r: Vec<u8>)
    ensures
        r@ == ascii_bytes(digits_of(n as int)),
{
    let mut rev: Vec<u8> = Vec::new();
    let mut m = n;
    loop
        invariant_except_break
            ascii_bytes(digits_of(n as int)) =~= ascii_bytes(digits_of(m as int)) + rev@.reverse(),
        ensures
            ascii_bytes(digits_of(n as int)) =~= rev@.reverse(),
        decreases m,
    {
        let ghost rev0 = rev@;
        let d = (m % 10) as u8;
        rev.push(48 + d);
        proof {
            assert(rev@.reverse() =~= seq![(48 + d) as u8] + rev0.reverse());
            if m >= 10 {
                assert(digits_of(m as int) == digits_of(m as int / 10).push(
                    (48 + m as int % 10) as char,
                ));
                assert((48 + m as int % 10) as char as u32 == 48 + m as int % 10);
                assert(ascii_bytes(digits_of(m as int)) =~= ascii_bytes(digits_of(m as int / 10))
                    + seq![(48 + d) as u8]);
                assert(ascii_bytes(digits_of((m / 10) as int)) + rev@.reverse() =~= ascii_bytes(
                    digits_of(m as int),
                ) + rev0.reverse());
            } else {
                assert(digits_of(m as int) =~= seq![(48 + m as int) as char]);
                assert((48 + m as int) as char as u32 == 48 + m as int);
                assert(ascii_bytes(digits_of(m as int)) =~= seq![(48 + d) as u8]);
                assert(Seq::<u8>::empty() + rev@.reverse() =~= ascii_bytes(digits_of(m as int))
                    + rev0.reverse());
            }
        }
        if m < 10 {
            assert(ascii_bytes(digits_of(n as int)) =~= rev@.reverse());
            break ;
        }
        m = m / 10;
    }
    let ghost target = ascii_bytes(digits_of(n as int));
    let mut out: Vec<u8> = Vec::new();
    let mut i: usize = rev.len();
    while i > 0
        invariant
            i <= rev@.len(),
            target =~= rev@.reverse(),
            out@.len() == rev@.len() - i,
            forall|j: int| 0 <= j < out@.len() ==> #[trigger] out@[j] == target[j],
        decreases i,
    {
        i = i - 1;
        out.push(rev[i]);
        assert(rev@.reverse()[out@.len() - 1] == rev@[i as int]);
    }
    assert(out@ =~= target);
    out
}

/// No newline character anywhere in `s`.
pub open spec fn no_nl(s: Seq<char>) -> bool {
    forall|i: int| 0 <= i < s.len() ==> s[i] != '\n'
}

/// No colon anywhere in `s`.
pub open spec fn no_colon(s: Seq<char>) -> bool {
    forall|i: int| 0 <= i < s.len() ==> s[i] != ':'
}

/// No percent sign anywhere in `s`.
pub open spec fn no_pct(s: Seq<char>) -> bool {
    forall|i: int| 0 <= i < s.len() ==> s[i] != '%'
}

/// Text fit to stand as a header value on one line: ASCII, free of
/// newlines, and carrying no whitespace at its ends.
pub open spec fn plain_value(s: Seq<char>) -> bool {
    is_ascii_chars(s) && no_nl(s) && trim(s) == s
}

/// Text fit to stand as a header key: plain, and free of colons.
pub open spec fn plain_key(s: Seq<char>) -> bool {
    plain_value(s) && no_colon(s)
}

/// A header mapping that can be framed: keys distinct, every entry plain,
/// and no entry usurping the Content-Length line.
pub open spec fn encodable(es: Seq<(Seq<char>, Seq<char>)>) -> bool {
    distinct_keys(es) && (forall|i: int|
        0 <= i < es.len() ==> plain_key((#[trigger] es[i]).0) && plain_value(es[i].1) && es[i].0
            != "Content-Length"@)
}

/// One header line as text: `key:value` and the closing newline.
pub open spec fn line_chars(k: Seq<char>, v: Seq<char>) -> Seq<char> {
    k + seq![':'] + v + seq!['\n']
}

/// The text of the header lines for the given entries, in order.
pub open spec fn header_chars(es: Seq<(Seq<char>, Seq<char>)>) -> Seq<char>
    decreases es.len(),
{
    if es.len() == 0 {
        Seq::empty()
    } else {
        line_chars(es[0].0, es[0].1) + header_chars(es.drop_first())
    }
}

/// The whole header block text: the entry lines, then the Content-Length
/// line for a body of `n` bytes.
pub open spec fn frame_chars(es: Seq<(Seq<char>, Seq<char>)>, n: int) -> Seq<char> {
    header_chars(es) + line_chars("Content-Length"@, digits_of(n))
}

/// One header line as bytes, as the encoder writes it.
pub open spec fn line_bytes(k: Seq<char>, v: Seq<char>) -> Seq<u8> {
    encode_utf8(k) + seq![58u8] + encode_utf8(v) + seq![10u8]
}

/// The bytes of the header lines for the given entries, in order.
pub open spec fn header_bytes(es: Seq<(Seq<char>, Seq<char>)>) -> Seq<u8>
    decreases es.len(),
{
    if es.len() == 0 {
        Seq::empty()
    } else {
        line_bytes(es[0].0, es[0].1) + header_bytes(es.drop_first())
    }
}

/// The full encoding of a frame: the header lines, the Content-Length
/// line, the empty line that closes the block, and the raw body.
pub open spec fn encode_spec(es: Seq<(Seq<char>, Seq<char>)>, body: Seq<u8>) -> Seq<u8> {
    ((header_bytes(es) + line_bytes("Content-Length"@, digits_of(body.len() as int))) + seq![10u8])
        + body
}

/// Text with no percent sign decodes to itself.
proof fn lemma_no_pct_decode(s: Seq<char>)
    requires
        no_pct(s),
    ensures
        wf_escapes(s),
        pdecode(s) == s,
    decreases s.len(),
{
    if s.len() > 0 {
        assert(s[0] != '%');
        assert(no_pct(s.skip(1))) by {
            assert(forall|i: int| 0 <= i < s.skip(1).len() ==> s.skip(1)[i] == s[i + 1]);
        }
        lemma_no_pct_decode(s.skip(1));
        assert(pdecode(s) =~= seq![s[0]] + pdecode(s.skip(1)));
        assert(seq![s[0]] + s.skip(1) =~= s);
    }
}

/// Text free of whitespace trims to itself.
proof fn lemma_no_ws_trim(s: Seq<char>)
    requires
        forall|i: int| 0 <= i < s.len() ==> !is_ws(#[trigger] s[i]),
    ensures
        trim(s) == s,
{
    assert(ws_prefix_end(s, 0) == 0) by {
        if s.len() > 0 {
            assert(!is_ws(s[0]));
        }
    }
    assert(ws_suffix_start(s, s.len() as int) == s.len()) by {
        if s.len() > 0 {
            assert(!is_ws(s[s.len() - 1]));
        }
    }
    assert(s.subrange(0, s.len() as int) =~= s);
}

/// The digit text of a length is a plain header value that decodes to
/// itself.
proof fn lemma_digits_value(n: int)
    requires
        n >= 0,
    ensures
        plain_value(digits_of(n)),
        no_pct(digits_of(n)),
        decode_header_value(digits_of(n)) == digits_of(n),
{
    lemma_digits_of(n);
    let s = digits_of(n);
    assert forall|i: int|
        0 <= i < s.len() implies '\0' <= #[trigger] s[i] <= '\u{7f}' && s[i] != '\n' && !is_ws(s[i])
        && s[i] != '%' by {
        assert(is_digit(s[i]));
        lemma_digit_char_plain(s[i]);
        if s[i] == '%' {
            assert(s[i] as u32 == 37);
        }
    }
    lemma_no_ws_trim(s);
    lemma_no_pct_decode(s);
}

/// The Content-Length key is a plain header key.
proof fn lemma_cl_key_plain()
    ensures
        ({
            let k = "Content-Length"@;
            k.len() == 14 && is_ascii_chars(k) && no_nl(k) && no_colon(k) && trim(k) == k
        }),
{
    reveal_strlit("Content-Length");
    let k = "Content-Length"@;
    assert(k.len() == 14);
    assert forall|i: int|
        0 <= i < k.len() implies '\0' <= #[trigger] k[i] <= '\u{7f}' && k[i] != '\n' && k[i] != ':'
        && !is_ws(k[i]) by {
        if i == 0 {
            assert(k[0] == 'C');
        } else if i == 1 {
            assert(k[1] == 'o');
        } else if i == 2 {
            assert(k[2] == 'n');
        } else if i == 3 {
            assert(k[3] == 't');
        } else if i == 4 {
            assert(k[4] == 'e');
        } else if i == 5 {
            assert(k[5] == 'n');
        } else if i == 6 {
            assert(k[6] == 't');
        } else if i == 7 {
            assert(k[7] == '-');
        } else if i == 8 {
            assert(k[8] == 'L');
        } else if i == 9 {
            assert(k[9] == 'e');
        } else if i == 10 {
            assert(k[10] == 'n');
        } else if i == 11 {
            assert(k[11] == 'g');
        } else if i == 12 {
            assert(k[12] == 't');
        } else {
            assert(k[13] == 'h');
        }
    }
    lemma_no_ws_trim(k);
}

/// What one encoded line looks like: its length, its characters by
/// region, and the entry that parsing gives back for it.
proof fn lemma_line_chars_wf(k: Seq<char>, v: Seq<char>)
    requires
        is_ascii_chars(k),
        no_nl(k),
        no_colon(k),
        trim(k) == k,
        is_ascii_chars(v),
        no_nl(v),
        trim(v) == v,
    ensures
        ({
            let l = line_chars(k, v);
            l.len() == k.len() + v.len() + 2 && is_ascii_chars(l) && (forall|i: int|
                0 <= i < l.len() - 1 ==> #[trigger] l[i] != '\n') && l[l.len() - 1] == '\n'
                && crate::headers::line_entry(l.subrange(0, l.len() - 1)) == Some(
                (k, decode_header_value(v)),
            )
        }),
{
    let l = line_chars(k, v);
    assert(l.len() == k.len() + v.len() + 2);
    assert(forall|i: int| 0 <= i < k.len() ==> #[trigger] l[i] == k[i]);
    assert(l[k.len() as int] == ':');
    assert(forall|i: int| 0 <= i < v.len() ==> #[trigger] l[k.len() + 1 + i] == v[i]);
    assert(l[l.len() - 1] == '\n');
    assert forall|i: int| 0 <= i < l.len() implies '\0' <= #[trigger] l[i] <= '\u{7f}' by {
        if i < k.len() {
            assert(l[i] == k[i]);
        } else if i == k.len() {
            assert(l[i] == ':');
        } else if i < k.len() + 1 + v.len() {
            assert(l[i] == v[i - k.len() - 1]);
        } else {
            assert(l[i] == '\n');
        }
    }
    assert forall|i: int| 0 <= i < l.len() - 1 implies #[trigger] l[i] != '\n' by {
        if i < k.len() {
            assert(l[i] == k[i]);
        } else if i == k.len() {
            assert(l[i] == ':');
        } else {
            assert(l[i] == v[i - k.len() - 1]);
        }
    }
    let b = l.subrange(0, l.len() - 1);
    assert(b.len() == k.len() + v.len() + 1);
    assert forall|j: int| 0 <= j < k.len() implies #[trigger] b[j] != ':' by {
        assert(b[j] == k[j]);
    }
    assert(b[k.len() as int] == ':');
    crate::headers::lemma_colon_from_exact(b, 0, k.len() as int);
    assert(b.subrange(0, k.len() as int) =~= k);
    assert(b.subrange(k.len() as int + 1, b.len() as int) =~= v);
    assert(crate::headers::line_entry(b) == Some((trim(k), decode_header_value(trim(v)))));
}

/// The expected header mapping of an encoded frame: one entry per encoded
/// header (first occurrence winning, as parsing keeps the last line and
/// lines are written first to last), and the Content-Length entry.
pub open spec fn hm_expected(es: Seq<(Seq<char>, Seq<char>)>, n: int) -> Map<Seq<char>, Seq<char>>
    decreases es.len(),
{
    if es.len() == 0 {
        Map::<Seq<char>, Seq<char>>::empty().insert("Content-Length"@, digits_of(n))
    } else {
        let m = hm_expected(es.drop_first(), n);
        if m.dom().contains(es[0].0) {
            m
        } else {
            m.insert(es[0].0, decode_header_value(es[0].1))
        }
    }
}

/// Dropping the first entry keeps a mapping encodable.
proof fn lemma_encodable_drop_first(es: Seq<(Seq<char>, Seq<char>)>)
    requires
        encodable(es),
        es.len() > 0,
    ensures
        encodable(es.drop_first()),
{
    let r = es.drop_first();
    assert(forall|i: int| 0 <= i < r.len() ==> #[trigger] r[i] == es[i + 1]);
    assert(distinct_keys(r)) by {
        assert(forall|a: int, b: int|
            0 <= a < b < r.len() ==> (#[trigger] r[a]).0 == es[a + 1].0 && (#[trigger] r[b]).0
                == es[b + 1].0);
    }
}

/// What the expected mapping holds: the Content-Length entry, every
/// encoded header with its decoded value, and nothing else.
proof fn lemma_hm_expected_props(es: Seq<(Seq<char>, Seq<char>)>, n: int)
    requires
        encodable(es),
        n >= 0,
    ensures
        ({
            let m = hm_expected(es, n);
            m.dom().contains("Content-Length"@) && m["Content-Length"@] == digits_of(n) && (
            forall|i: int|
                0 <= i < es.len() ==> m.dom().contains((#[trigger] es[i]).0) && m[es[i].0]
                    == decode_header_value(es[i].1)) && (forall|kk: Seq<char>|
                #[trigger] m.dom().contains(kk) ==> kk == "Content-Length"@ || exists|i: int|
                    0 <= i < es.len() && (#[trigger] es[i]).0 == kk)
        }),
    decreases es.len(),
{
    if es.len() > 0 {
        lemma_encodable_drop_first(es);
        lemma_hm_expected_props(es.drop_first(), n);
        let r = es.drop_first();
        let m1 = hm_expected(r, n);
        let m = hm_expected(es, n);
        assert(forall|i: int| 0 <= i < r.len() ==> #[trigger] r[i] == es[i + 1]);
        if m1.dom().contains(es[0].0) {
            assert(es[0].0 != "Content-Length"@);
            let i = choose|i: int| 0 <= i < r.len() && (#[trigger] r[i]).0 == es[0].0;
            assert(es[i + 1].0 == es[0].0);
            assert(false);
        }
        assert(m == m1.insert(es[0].0, decode_header_value(es[0].1)));
        assert forall|i: int|
            0 <= i < es.len() implies m.dom().contains((#[trigger] es[i]).0) && m[es[i].0]
            == decode_header_value(es[i].1) by {
            if i == 0 {
            } else {
                assert(r[i - 1] == es[i]);
                assert(m1.dom().contains(es[i].0));
                assert(es[i].0 != es[0].0);
            }
        }
        assert forall|kk: Seq<char>| #[trigger] m.dom().contains(kk) implies kk
            == "Content-Length"@ || exists|i: int|
            0 <= i < es.len() && (#[trigger] es[i]).0 == kk by {
            if kk == es[0].0 {
                assert(es[0].0 == kk);
            } else {
                assert(m1.dom().contains(kk));
                if kk != "Content-Length"@ {
                    let i = choose|i: int| 0 <= i < r.len() && (#[trigger] r[i]).0 == kk;
                    assert(es[i + 1].0 == kk);
                }
            }
        }
    }
}

/// Parsing the text of an encoded header block yields the expected
/// mapping.
proof fn lemma_hm_from(cs: Seq<char>, pos: int, es: Seq<(Seq<char>, Seq<char>)>, n: int)
    requires
        0 <= pos <= cs.len(),
        n >= 0,
        encodable(es),
        cs.subrange(pos, cs.len() as int) == header_chars(es) + line_chars(
            "Content-Length"@,
            digits_of(n),
        ),
    ensures
        crate::headers::header_map_from(cs, pos) == hm_expected(es, n),
    decreases es.len(),
{
    lemma_cl_key_plain();
    lemma_digits_value(n);
    let suffix = cs.subrange(pos, cs.len() as int);
    if es.len() == 0 {
        let k = "Content-Length"@;
        let v = digits_of(n);
        let l = line_chars(k, v);
        lemma_line_chars_wf(k, v);
        assert(header_chars(es) =~= Seq::<char>::empty());
        assert(suffix =~= l);
        assert forall|i: int| 0 <= i < l.len() implies #[trigger] cs[pos + i] == l[i] by {
            assert(cs.subrange(pos, cs.len() as int)[i] == cs[pos + i]);
        }
        let e = pos + l.len() - 1;
        assert forall|j: int| pos <= j < e implies cs[j] != '\n' by {
            assert(cs[pos + (j - pos)] == l[j - pos]);
        }
        assert(cs[pos + (l.len() - 1)] == l[l.len() - 1]);
        crate::headers::lemma_line_end_ch_exact(cs, pos, e);
        assert(cs.subrange(pos, e) =~= l.subrange(0, l.len() - 1));
        assert(crate::headers::header_map_from(cs, cs.len() as int) =~= Map::<Seq<char>,
            Seq<char>>::empty());
        assert(crate::headers::line_entry(cs.subrange(pos, e)) == Some(
            (k, decode_header_value(v)),
        ));
        assert(crate::headers::header_map_from(cs, pos) == Map::<Seq<char>,
            Seq<char>>::empty().insert(k, decode_header_value(v)));
        assert(decode_header_value(v) == v);
    } else {
        let k = es[0].0;
        let v = es[0].1;
        let l = line_chars(k, v);
        lemma_line_chars_wf(k, v);
        let rest = header_chars(es.drop_first()) + line_chars("Content-Length"@, digits_of(n));
        assert(suffix =~= l + rest);
        assert forall|i: int| 0 <= i < l.len() implies #[trigger] cs[pos + i] == l[i] by {
            assert(cs.subrange(pos, cs.len() as int)[i] == cs[pos + i]);
            assert((l + rest)[i] == l[i]);
        }
        let e = pos + l.len() - 1;
        assert(rest.len() > 0) by {
            assert(line_chars("Content-Length"@, digits_of(n)).len() > 0);
        }
        assert forall|j: int| pos <= j < e implies cs[j] != '\n' by {
            assert(cs[pos + (j - pos)] == l[j - pos]);
        }
        assert(cs[pos + (l.len() - 1)] == l[l.len() - 1]);
        crate::headers::lemma_line_end_ch_exact(cs, pos, e);
        let nxt = pos + l.len();
        assert(cs.subrange(nxt, cs.len() as int) =~= rest) by {
            assert forall|i: int| 0 <= i < rest.len() implies #[trigger] cs[nxt + i] == rest[i] by {
                assert(cs.subrange(pos, cs.len() as int)[l.len() + i] == cs[pos + (l.len() + i)]);
                assert((l + rest)[l.len() + i] == rest[i]);
            }
            assert(forall|i: int|
                0 <= i < rest.len() ==> cs.subrange(nxt, cs.len() as int)[i] == cs[nxt + i]);
        }
        lemma_encodable_drop_first(es);
        lemma_hm_from(cs, nxt, es.drop_first(), n);
        lemma_hm_expected_props(es.drop_first(), n);
        let m1 = hm_expected(es.drop_first(), n);
        assert(cs.subrange(pos, e) =~= l.subrange(0, l.len() - 1));
        assert(crate::headers::line_entry(cs.subrange(pos, e)) == Some(
            (k, decode_header_value(v)),
        ));
        if m1.dom().contains(k) {
            assert(k != "Content-Length"@);
            let r = es.drop_first();
            assert(forall|i: int| 0 <= i < r.len() ==> #[trigger] r[i] == es[i + 1]);
            let i = choose|i: int| 0 <= i < r.len() && (#[trigger] r[i]).0 == k;
            assert(es[i + 1].0 == k);
            assert(false);
        }
        assert(crate::headers::header_map_from(cs, pos) == m1.insert(k, decode_header_value(v)));
    }
}

/// The bytes of ASCII text, concatenated, are the bytes of the
/// concatenation.
proof fn lemma_ascii_bytes_concat(a: Seq<char>, b: Seq<char>)
    ensures
        ascii_bytes(a + b) =~= ascii_bytes(a) + ascii_bytes(b),
{
}

/// For ASCII text the encoder's bytes are exactly one byte per character.
proof fn lemma_line_bytes_ascii(k: Seq<char>, v: Seq<char>)
    requires
        is_ascii_chars(k),
        is_ascii_chars(v),
    ensures
        line_bytes(k, v) =~= ascii_bytes(line_chars(k, v)),
{
    vstd::utf8::is_ascii_chars_encode_utf8(k);
    vstd::utf8::is_ascii_chars_encode_utf8(v);
    let l = line_chars(k, v);
    let lb = line_bytes(k, v);
    assert(lb.len() == l.len());
    assert forall|i: int| 0 <= i < l.len() implies #[trigger] lb[i] == l[i] as u8 by {
        if i < k.len() {
            assert(lb[i] == encode_utf8(k)[i]);
            assert(l[i] == k[i]);
        } else if i == k.len() {
            assert(lb[i] == 58u8);
            assert(l[i] == ':');
        } else if i < k.len() + 1 + v.len() {
            assert(lb[i] == encode_utf8(v)[i - k.len() - 1]);
            assert(l[i] == v[i - k.len() - 1]);
        } else {
            assert(lb[i] == 10u8);
            assert(l[i] == '\n');
        }
    }
}

/// The header-line text of an encodable mapping is ASCII, and its encoder
/// bytes are one byte per character.
proof fn lemma_header_bytes_ascii(es: Seq<(Seq<char>, Seq<char>)>)
    requires
        forall|i: int|
            0 <= i < es.len() ==> is_ascii_chars((#[trigger] es[i]).0) && is_ascii_chars(es[i].1),
    ensures
        is_ascii_chars(header_chars(es)),
        header_bytes(es) =~= ascii_bytes(header_chars(es)),
    decreases es.len(),
{
    if es.len() > 0 {
        let r = es.drop_first();
        assert(forall|i: int| 0 <= i < r.len() ==> #[trigger] r[i] == es[i + 1]);
        lemma_header_bytes_ascii(r);
        let l = line_chars(es[0].0, es[0].1);
        lemma_line_bytes_ascii(es[0].0, es[0].1);
        assert(is_ascii_chars(l)) by {
            assert forall|i: int| 0 <= i < l.len() implies '\0' <= #[trigger] l[i] <= '\u{7f}' by {
                if i < es[0].0.len() {
                    assert(l[i] == es[0].0[i]);
                } else if i == es[0].0.len() {
                    assert(l[i] == ':');
                } else if i < es[0].0.len() + 1 + es[0].1.len() {
                    assert(l[i] == es[0].1[i - es[0].0.len() - 1]);
                } else {
                    assert(l[i] == '\n');
                }
            }
        }
        assert(is_ascii_chars(header_chars(es))) by {
            let h = header_chars(es);
            assert forall|i: int| 0 <= i < h.len() implies '\0' <= #[trigger] h[i] <= '\u{7f}' by {
                if i < l.len() {
                    assert(h[i] == l[i]);
                } else {
                    assert(h[i] == header_chars(r)[i - l.len()]);
                }
            }
        }
        lemma_ascii_bytes_concat(l, header_chars(r));
    }
}

/// Scanning the encoded block finds exactly the header lines and stops at
/// the empty line.
proof fn lemma_scan_encoded(s: Seq<u8>, pos: int, es: Seq<(Seq<char>, Seq<char>)>, n: int)
    requires
        0 <= pos,
        n >= 0,
        encodable(es),
        pos + frame_chars(es, n).len() + 1 <= s.len(),
        s.subrange(pos, pos + frame_chars(es, n).len()) == ascii_bytes(frame_chars(es, n)),
        s[pos + frame_chars(es, n).len()] == 10,
    ensures
        (crate::data::scan_headers(s, pos) == crate::data::HeaderScan {
            raw: ascii_bytes(frame_chars(es, n)),
            next: pos + frame_chars(es, n).len() + 1,
            terminated: true,
        }),
    decreases es.len(),
{
    lemma_cl_key_plain();
    lemma_digits_value(n);
    let fc = frame_chars(es, n);
    let fb = ascii_bytes(fc);
    assert forall|i: int| 0 <= i < fc.len() implies #[trigger] s[pos + i] == fc[i] as u8 by {
        assert(s.subrange(pos, pos + fc.len() as int)[i] == s[pos + i]);
        assert(ascii_bytes(fc)[i] == fc[i] as u8);
    }
    if es.len() == 0 {
        let k = "Content-Length"@;
        let v = digits_of(n);
        let l = line_chars(k, v);
        lemma_line_chars_wf(k, v);
        assert(fc =~= l);
        let e = pos + l.len() - 1;
        assert forall|j: int| pos <= j < e implies #[trigger] s[j] != 10u8 by {
            let c = fc[j - pos];
            assert(s[pos + (j - pos)] == fc[j - pos] as u8);
            assert('\0' <= c <= '\u{7f}');
            assert(c != '\n');
        }
        assert(s[pos + (l.len() - 1)] == fc[l.len() - 1] as u8);
        assert(fc[l.len() - 1] == '\n');
        crate::data::lemma_line_end_b_exact(s, pos, e);
        let stop = e + 1;
        assert(stop == pos + l.len());
        assert(s[stop] == 10u8);
        assert(s[pos + 0] == fc[0] as u8);
        assert(fc[0] == k[0]);
        assert(s[pos] != 10u8) by {
            assert(fc[0] != '\n');
            assert('\0' <= fc[0] <= '\u{7f}');
        }
        let rest = crate::data::scan_headers(s, stop);
        assert(rest == crate::data::HeaderScan {
            raw: Seq::<u8>::empty(),
            next: stop + 1,
            terminated: true,
        });
        assert(s.subrange(pos, stop) =~= fb) by {
            assert(forall|i: int| 0 <= i < fb.len() ==> #[trigger] s.subrange(pos, stop)[i] == s[
                pos + i]);
        }
        assert(s.subrange(pos, stop) + rest.raw =~= fb);
    } else {
        let k = es[0].0;
        let v = es[0].1;
        let l = line_chars(k, v);
        lemma_line_chars_wf(k, v);
        let restc = frame_chars(es.drop_first(), n);
        assert(fc =~= l + restc);
        let e = pos + l.len() - 1;
        assert forall|j: int| pos <= j < e implies #[trigger] s[j] != 10u8 by {
            let c = fc[j - pos];
            assert(c == l[j - pos]);
            assert(s[pos + (j - pos)] == fc[j - pos] as u8);
            assert('\0' <= c <= '\u{7f}');
            assert(c != '\n');
        }
        assert(s[pos + (l.len() - 1)] == fc[l.len() - 1] as u8);
        assert(fc[l.len() - 1] == l[l.len() - 1]);
        assert(l[l.len() - 1] == '\n');
        crate::data::lemma_line_end_b_exact(s, pos, e);
        let stop = e + 1;
        assert(stop == pos + l.len());
        lemma_encodable_drop_first(es);
        assert(s.subrange(stop, stop + restc.len() as int) =~= ascii_bytes(restc)) by {
            assert forall|i: int|
                0 <= i < restc.len() implies #[trigger] s[stop + i] == restc[i] as u8 by {
                assert(s[pos + (l.len() + i)] == fc[l.len() + i] as u8);
                assert((l + restc)[l.len() + i] == restc[i]);
            }
            assert(forall|i: int|
                0 <= i < restc.len() ==> #[trigger] s.subrange(stop, stop + restc.len() as int)[i]
                    == s[stop + i]);
        }
        assert(s[stop + restc.len()] == 10);
        lemma_scan_encoded(s, stop, es.drop_first(), n);
        assert(s[pos + 0] == fc[0] as u8);
        assert(s[pos] != 10u8) by {
            assert(fc[0] == l[0]);
            if l.len() - 1 == 0 {
                assert(false);
            }
            assert(l[0] != '\n');
            assert('\0' <= l[0] <= '\u{7f}');
        }
        let rest = crate::data::scan_headers(s, stop);
        assert(s.subrange(pos, stop) + rest.raw =~= fb) by {
            assert(s.subrange(pos, stop) =~= ascii_bytes(l)) by {
                assert forall|i: int|
                    0 <= i < l.len() implies #[trigger] s.subrange(pos, stop)[i] == l[i] as u8 by {
                    assert(s.subrange(pos, stop)[i] == s[pos + i]);
                    assert(s[pos + i] == fc[i] as u8);
                    assert((l + restc)[i] == l[i]);
                }
            }
            assert(rest.raw == ascii_bytes(restc));
            lemma_ascii_bytes_concat(l, restc);
        }
    }
}

/// Encoding a header mapping and a body, then parsing the result, yields
/// the body exactly and every header with its percent-decoded value,
/// alongside the Content-Length entry the encoder added — the codec
/// round-trips.
pub proof fn theorem_frame_round_trip(es: Seq<(Seq<char>, Seq<char>)>, body: Seq<u8>)
    requires
        encodable(es),
        body.len() <= usize::MAX,
    ensures
        ({
            let bytes = encode_spec(es, body);
            let n = body.len() as int;
            crate::data::frame_spec(bytes, 0) matches crate::data::FrameSpec::Frame {
                headers,
                content,
                next,
            } && headers == hm_expected(es, n) && content == body && next == bytes.len() && headers[
                "Content-Length"@] == digits_of(n) && (forall|i: int|
                0 <= i < es.len() ==> headers.dom().contains((#[trigger] es[i]).0) && headers[
                    es[i].0] == decode_header_value(es[i].1))
        }),
{
    let n = body.len() as int;
    let cs = frame_chars(es, n);
    let bytes = encode_spec(es, body);
    lemma_cl_key_plain();
    lemma_digits_value(n);
    lemma_digits_of(n);
    assert(forall|i: int|
        0 <= i < es.len() ==> is_ascii_chars((#[trigger] es[i]).0) && is_ascii_chars(es[i].1));
    lemma_header_bytes_ascii(es);
    lemma_line_bytes_ascii("Content-Length"@, digits_of(n));
    let clc = line_chars("Content-Length"@, digits_of(n));
    lemma_line_chars_wf("Content-Length"@, digits_of(n));
    assert(is_ascii_chars(clc)) by {
        assert(forall|i: int| 0 <= i < clc.len() ==> '\0' <= #[trigger] clc[i] <= '\u{7f}');
    }
    assert(is_ascii_chars(cs)) by {
        let h = header_chars(es);
        assert forall|i: int| 0 <= i < cs.len() implies '\0' <= #[trigger] cs[i] <= '\u{7f}' by {
            if i < h.len() {
                assert(cs[i] == h[i]);
            } else {
                assert(cs[i] == clc[i - h.len()]);
            }
        }
    }
    lemma_ascii_bytes_concat(header_chars(es), clc);
    assert(bytes.subrange(0, cs.len() as int) =~= ascii_bytes(cs));
    assert(bytes[cs.len() as int] == 10);
    assert(cs.len() + 1 <= bytes.len());
    lemma_scan_encoded(bytes, 0, es, n);
    let sc = crate::data::scan_headers(bytes, 0);
    assert(sc.raw == ascii_bytes(cs));
    vstd::utf8::is_ascii_chars_encode_utf8(cs);
    assert(encode_utf8(cs) =~= ascii_bytes(cs));
    vstd::utf8::encode_utf8_valid_utf8(cs);
    vstd::utf8::encode_utf8_decode_utf8(cs);
    assert(vstd::utf8::valid_utf8(sc.raw));
    assert(vstd::utf8::decode_utf8(sc.raw) == cs);
    assert(cs.subrange(0, cs.len() as int) =~= cs);
    lemma_hm_from(cs, 0, es, n);
    lemma_hm_expected_props(es, n);
    let m = hm_expected(es, n);
    assert(crate::headers::header_map(vstd::utf8::decode_utf8(sc.raw)) == m);
    assert(m.dom().contains("Content-Length"@));
    lemma_digits_parse_back(n);
    assert(crate::strutil::parse_len(m["Content-Length"@]) == Some(n));
    assert(sc.next == cs.len() + 1);
    assert(sc.next + n == bytes.len());
    assert(bytes.subrange(sc.next, sc.next + n) =~= body);
}

/// Encodes one frame: the header lines of `h`, a Content-Length line for
/// `body`, the empty line that closes the block, and the body itself.
pub fn encode_frame(h: &Header, body: &Vec<u8>) -> (out: Vec<u8>)
    ensures
        out@ == encode_spec(h.pairs(), body@),
{
    let ghost es = h.pairs();
    let mut out: Vec<u8> = Vec::new();
    let n = h.len();
    let mut i: usize = 0;
    assert(es.take(0) =~= Seq::<(Seq<char>, Seq<char>)>::empty());
    assert(out@ =~= header_bytes(es.take(0)));
    while i < n
        invariant
            i <= n,
            n == es.len(),
            es == h.pairs(),
            out@ == header_bytes(es.take(i as int)),
        decreases n - i,
    {
        let e = h.entry_at(i);
        let ghost out0 = out@;
        crate::strutil::append_str_bytes(&mut out, e.0.as_str());
        out.push(58);
        crate::strutil::append_str_bytes(&mut out, e.1.as_str());
        out.push(10);
        proof {
            lemma_header_bytes_snoc(es, i as int);
            assert(out@ =~= out0 + line_bytes(es[i as int].0, es[i as int].1));
        }
        i = i + 1;
    }
    assert(es.take(n as int) =~= es);
    let ghost outh = out@;
    crate::strutil::append_str_bytes(&mut out, "Content-Length");
    out.push(58);
    let digits = usize_digit_bytes(body.len());
    let nd = digits.len();
    let mut j: usize = 0;
    let ghost outd = out@;
    while j < nd
        invariant
            j <= nd,
            nd == digits@.len(),
            out@ == outd + digits@.subrange(0, j as int),
        decreases nd - j,
    {
        out.push(digits[j]);
        assert(out@ =~= outd + digits@.subrange(0, j as int + 1));
        j = j + 1;
    }
    assert(out@ =~= outd + digits@);
    out.push(10);
    proof {
        let ghost nn = body@.len() as int;
        lemma_digits_value(nn);
        lemma_digits_of(nn);
        vstd::utf8::is_ascii_chars_encode_utf8(digits_of(nn));
        assert(encode_utf8(digits_of(nn)) =~= ascii_bytes(digits_of(nn)));
        assert(out@ =~= outh + line_bytes("Content-Length"@, digits_of(nn)));
    }
    out.push(10);
    let ghost outb = out@;
    let nb = body.len();
    let mut b: usize = 0;
    while b < nb
        invariant
            b <= nb,
            nb == body@.len(),
            out@ == outb + body@.subrange(0, b as int),
        decreases nb - b,
    {
        out.push(body[b]);
        assert(out@ =~= outb + body@.subrange(0, b as int + 1));
        b = b + 1;
    }
    assert(out@ =~= outb + body@);
    assert(out@ =~= encode_spec(es, body@));
    out
}

/// The header lines of one more entry are the lines so far and that
/// entry's line.
proof fn lemma_header_bytes_snoc(es: Seq<(Seq<char>, Seq<char>)>, i: int)
    requires
        0 <= i < es.len(),
    ensures
        header_bytes(es.take(i + 1)) =~= header_bytes(es.take(i)) + line_bytes(es[i].0, es[i].1),
    decreases i,
{
    if i == 0 {
        assert(es.take(0) =~= Seq::<(Seq<char>, Seq<char>)>::empty());
        assert(es.take(1) =~= seq![es[0]]);
        assert(es.take(1).drop_first() =~= Seq::<(Seq<char>, Seq<char>)>::empty());
        assert(header_bytes(es.take(1)) == line_bytes(es[0].0, es[0].1) + header_bytes(
            es.take(1).drop_first(),
        ));
        assert(header_bytes(Seq::<(Seq<char>, Seq<char>)>::empty()) =~= Seq::<u8>::empty());
    } else {
        let r = es.drop_first();
        lemma_header_bytes_snoc(r, i - 1);
        assert(es.take(i + 1).drop_first() =~= r.take(i));
        assert(es.take(i).drop_first() =~= r.take(i - 1));
        assert(es.take(i + 1)[0] == es[0]);
        assert(es.take(i)[0] == es[0]);
        assert(r[i - 1] == es[i]);
        assert(header_bytes(es.take(i + 1)) == line_bytes(es[0].0, es[0].1) + header_bytes(
            r.take(i),
        ));
        assert(header_bytes(es.take(i)) == line_bytes(es[0].0, es[0].1) + header_bytes(
            r.take(i - 1),
        ));
    }
}

} // verus!
