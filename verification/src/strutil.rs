//! Small text utilities used by the frame codec: ASCII whitespace trimming
//! and parsing of the decimal Content-Length value.

use vstd::prelude::*;

verus! {

/// The ASCII whitespace characters removed from the ends of header keys and
/// values.
pub open spec fn is_ws(c: char) -> bool {
    c == ' ' || c == '\t' || c == '\n' || c == '\r' || c as u32 == 11 || c as u32 == 12
}

/// Index of the first non-whitespace character at or after `pos`, or the
/// length of `s` when everything from `pos` on is whitespace.
pub open spec fn ws_prefix_end(s: Seq<char>, pos: int) -> int
    decreases s.len() - pos when 0 <= pos <= s.len()
{
    if pos >= s.len() {
        s.len() as int
    } else if is_ws(s[pos]) {
        ws_prefix_end(s, pos + 1)
    } else {
        pos
    }
}

/// One past the last non-whitespace character strictly before `pos`, or `0`
/// when everything before `pos` is whitespace.
pub open spec fn ws_suffix_start(s: Seq<char>, pos: int) -> int
    decreases pos when 0 <= pos <= s.len()
{
    if pos <= 0 {
        0
    } else if is_ws(s[pos - 1]) {
        ws_suffix_start(s, pos - 1)
    } else {
        pos
    }
}

/// `s` with leading and trailing ASCII whitespace removed.
pub open spec fn trim(s: Seq<char>) -> Seq<char> {
    let a = ws_prefix_end(s, 0);
    let b = ws_suffix_start(s, s.len() as int);
    if a <= b {
        s.subrange(a, b)
    } else {
        Seq::empty()
    }
}

/// True when `c` is an ASCII whitespace character.
fn is_ws_exec(c: char) -> (r: bool)
    ensures
        r == is_ws(c),
{
    let u = c as u32;
    u == 32 || u == 9 || u == 10 || u == 13 || u == 11 || u == 12
}

/// Returns `s` with leading and trailing ASCII whitespace removed.
pub fn trim_str(s: &str) -> (r: String)
    ensures
        r@ == trim(s@),
{
    let n = s.unicode_len();
    let mut a: usize = 0;
    while a < n && is_ws_exec(s.get_char(a))
        invariant
            a <= n,
            n == s@.len(),
            ws_prefix_end(s@, 0) == ws_prefix_end(s@, a as int),
        decreases n - a,
    {
        a = a + 1;
    }
    assert(a as int == ws_prefix_end(s@, 0));
    let mut b: usize = n;
    while b > 0 && is_ws_exec(s.get_char(b - 1))
        invariant
            b <= n,
            n == s@.len(),
            ws_suffix_start(s@, n as int) == ws_suffix_start(s@, b as int),
        decreases b,
    {
        b = b - 1;
    }
    assert(b as int == ws_suffix_start(s@, n as int));
    if a < b {
        s.substring_char(a, b).to_owned()
    } else {
        assert(trim(s@) =~= Seq::<char>::empty());
        String::new()
    }
}

/// Appends the bytes of `s` to `out`.
pub fn append_str_bytes(out: &mut Vec<u8>, s: &str)
    ensures
        final(out)@ == old(out)@ + vstd::utf8::encode_utf8(s@),
{
    let b = s.as_bytes();
    let n = b.len();
    let mut i: usize = 0;
    while i < n
        invariant
            i <= n,
            n == b@.len(),
            b@ == vstd::utf8::encode_utf8(s@),
            out@ == old(out)@ + b@.subrange(0, i as int),
        decreases n - i,
    {
        out.push(b[i]);
        assert(out@ =~= old(out)@ + b@.subrange(0, i as int + 1));
        i = i + 1;
    }
    assert(out@ =~= old(out)@ + b@);
}

/// Compares a `String` against borrowed text by character content.
pub fn string_eq(a: &String, b: &str) -> (r: bool)
    ensures
        r == (a@ == b@),
{
    let o: String = b.to_owned();
    a.eq(&o)
}

/// The ASCII decimal digit characters.
pub open spec fn is_digit(c: char) -> bool {
    48 <= c as u32 && c as u32 <= 57
}

/// True when every character of `s` is a decimal digit.
pub open spec fn all_digits(s: Seq<char>) -> bool {
    forall|i: int| 0 <= i < s.len() ==> is_digit(#[trigger] s[i])
}

/// The value of a sequence of decimal digits, most significant first.
pub open spec fn digits_val(s: Seq<char>) -> int
    decreases s.len(),
{
    if s.len() == 0 {
        0
    } else {
        digits_val(s.drop_last()) * 10 + (s.last() as u32 - 48)
    }
}

/// The number denoted by `s` as Rust's unsigned decimal parser reads it:
/// an optional leading `+`, then one or more digits; anything else is
/// rejected. The value is unbounded here; the executable parser additionally
/// rejects values that do not fit a `usize`.
pub open spec fn parse_len(s: Seq<char>) -> Option<int> {
    let t = if s.len() > 0 && s[0] == '+' {
        s.skip(1)
    } else {
        s
    };
    if t.len() > 0 && all_digits(t) {
        Some(digits_val(t))
    } else {
        None
    }
}

pub proof fn lemma_digits_val_nonneg(s: Seq<char>)
    requires
        all_digits(s),
    ensures
        digits_val(s) >= 0,
    decreases s.len(),
{
    if s.len() > 0 {
        assert(all_digits(s.drop_last())) by {
            assert(forall|i: int| 0 <= i < s.len() - 1 ==> s.drop_last()[i] == s[i]);
        }
        lemma_digits_val_nonneg(s.drop_last());
    }
}

proof fn lemma_digits_val_prefix(s: Seq<char>, i: int)
    requires
        all_digits(s),
        0 <= i <= s.len(),
    ensures
        digits_val(s.subrange(0, i)) <= digits_val(s),
    decreases s.len() - i,
{
    if i == s.len() {
        assert(s.subrange(0, i) =~= s);
    } else {
        let p = s.subrange(0, i);
        let q = s.subrange(0, i + 1);
        assert(q.drop_last() =~= p);
        assert(all_digits(p)) by {
            assert(forall|j: int| 0 <= j < p.len() ==> p[j] == s[j]);
        }
        lemma_digits_val_nonneg(p);
        assert(is_digit(q.last()));
        assert(digits_val(q) == digits_val(p) * 10 + (q.last() as u32 - 48));
        assert(digits_val(p) * 10 >= digits_val(p)) by (nonlinear_arith)
            requires digits_val(p) >= 0;
        lemma_digits_val_prefix(s, i + 1);
    }
}

/// A length that parses at all is non-negative.
pub proof fn lemma_parse_len_nonneg(s: Seq<char>)
    ensures
        parse_len(s) matches Some(v) ==> v >= 0,
{
    let t = if s.len() > 0 && s[0] == '+' {
        s.skip(1)
    } else {
        s
    };
    if t.len() > 0 && all_digits(t) {
        lemma_digits_val_nonneg(t);
    }
}

/// Parses a decimal length as `str::parse::<usize>` does: an optional
/// leading `+`, then one or more digits, with no other characters; values
/// that overflow a `usize` are rejected.
pub fn parse_content_length(s: &str) -> (r: Option<usize>)
    ensures
        match r {
            Some(n) => parse_len(s@) == Some(n as int),
            None => parse_len(s@) matches Some(v) ==> v > usize::MAX as int,
        },
{
    let n = s.unicode_len();
    if n == 0 {
        return None;
    }
    let start: usize = if s.get_char(0) == '+' {
        1
    } else {
        0
    };
    let ghost t = if s@[0] == '+' { s@.skip(1) } else { s@ };
    assert(t.len() == n - start);
    if start >= n {
        return None;
    }
    let mut acc: usize = 0;
    let mut j: usize = 0;
    while j < n - start
        invariant
            j <= n - start,
            start <= n,
            n == s@.len(),
            t == (if s@[0] == '+' { s@.skip(1) } else { s@ }),
            t.len() == n - start,
            forall|i: int| 0 <= i < t.len() ==> t[i] == s@[start + i],
            forall|i: int| 0 <= i < j ==> is_digit(#[trigger] t[i]),
            acc as int == digits_val(t.subrange(0, j as int)),
        decreases n - start - j,
    {
        let c = s.get_char(start + j);
        let u = c as u32;
        if !(48 <= u && u <= 57) {
            assert(!is_digit(t[j as int]));
            assert(!all_digits(t));
            return None;
        }
        let d = (u - 48) as usize;
        let ghost q = t.subrange(0, j as int + 1);
        assert(q.drop_last() =~= t.subrange(0, j as int));
        assert(q.last() == t[j as int]);
        match acc.checked_mul(10) {
            Some(m) => {
                match m.checked_add(d) {
                    Some(v) => {
                        acc = v;
                    },
                    None => {
                        assert(digits_val(q) > usize::MAX as int);
                        proof {
                            if all_digits(t) {
                                lemma_digits_val_prefix(t, j as int + 1);
                            }
                        }
                        return None;
                    },
                }
            },
            None => {
                proof {
                    lemma_digits_val_nonneg(t.subrange(0, j as int));
                    assert(digits_val(q) >= acc * 10) by (nonlinear_arith)
                        requires
                            digits_val(q) == acc * 10 + (q.last() as u32 - 48),
                            is_digit(q.last()),
                    ;
                }
                proof {
                    if all_digits(t) {
                        lemma_digits_val_prefix(t, j as int + 1);
                    }
                }
                return None;
            },
        }
        j = j + 1;
    }
    assert(t.subrange(0, j as int) =~= t);
    assert(all_digits(t));
    Some(acc)
}

} // verus!
