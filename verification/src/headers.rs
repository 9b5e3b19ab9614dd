//! Decoded header blocks.
//!
//! A header block is a sequence of `Key: value` lines. Parsing splits each
//! line at the first colon, trims both sides, percent-decodes the value, and
//! keeps the last occurrence of a repeated key. The result is a [`Header`]:
//! an association list with pairwise-distinct keys whose mathematical view is
//! a `Map<Seq<char>, Seq<char>>`.

use vstd::prelude::*;
use crate::decode::decode_header_value;
use crate::decode::decode_value;
use crate::strutil::trim;
use crate::strutil::trim_str;

verus! {

/// The map denoted by an association list, later entries overriding earlier
/// ones.
pub open spec fn assoc_map(es: Seq<(Seq<char>, Seq<char>)>) -> Map<Seq<char>, Seq<char>>
    decreases es.len(),
{
    if es.len() == 0 {
        Map::empty()
    } else {
        assoc_map(es.drop_last()).insert(es.last().0, es.last().1)
    }
}

/// Pairwise-distinct keys.
pub open spec fn distinct_keys(es: Seq<(Seq<char>, Seq<char>)>) -> bool {
    forall|i: int, j: int| 0 <= i < j < es.len() ==> (#[trigger] es[i]).0 != (#[trigger] es[j]).0
}

/// A key is in the map exactly when some entry carries it.
pub proof fn lemma_assoc_contains(es: Seq<(Seq<char>, Seq<char>)>, k: Seq<char>)
    ensures
        assoc_map(es).dom().contains(k) <==> exists|i: int|
            0 <= i < es.len() && (#[trigger] es[i]).0 == k,
    decreases es.len(),
{
    if es.len() > 0 {
        lemma_assoc_contains(es.drop_last(), k);
        if es.last().0 == k {
            assert(es[es.len() - 1].0 == k);
        } else if assoc_map(es).dom().contains(k) {
            let i = choose|i: int| 0 <= i < es.drop_last().len() && (#[trigger] es.drop_last()[
                i]).0 == k;
            assert(es[i].0 == k);
        } else {
            assert forall|i: int| 0 <= i < es.len() && (#[trigger] es[i]).0 == k implies false by {
                if i < es.len() - 1 {
                    assert(es.drop_last()[i].0 == k);
                }
            }
        }
    }
}

/// With distinct keys, the entry that carries a key gives its value.
pub proof fn lemma_assoc_value(es: Seq<(Seq<char>, Seq<char>)>, i: int)
    requires
        distinct_keys(es),
        0 <= i < es.len(),
    ensures
        assoc_map(es).dom().contains(es[i].0),
        assoc_map(es)[es[i].0] == es[i].1,
    decreases es.len(),
{
    lemma_assoc_contains(es, es[i].0);
    if i == es.len() - 1 {
    } else {
        assert(distinct_keys(es.drop_last())) by {
            assert(forall|a: int, b: int|
                0 <= a < b < es.len() - 1 ==> (#[trigger] es.drop_last()[a]).0 != (
                #[trigger] es.drop_last()[b]).0);
        }
        assert(es.drop_last()[i] == es[i]);
        lemma_assoc_value(es.drop_last(), i);
        assert(es[i].0 != es.last().0);
    }
}

/// Replacing the value of the entry that carries a key updates the map at
/// that key alone.
pub proof fn lemma_assoc_update(es: Seq<(Seq<char>, Seq<char>)>, i: int, v: Seq<char>)
    requires
        distinct_keys(es),
        0 <= i < es.len(),
    ensures
        assoc_map(es.update(i, (es[i].0, v))) =~= assoc_map(es).insert(es[i].0, v),
        distinct_keys(es.update(i, (es[i].0, v))),
    decreases es.len(),
{
    let es2 = es.update(i, (es[i].0, v));
    assert(distinct_keys(es2)) by {
        assert(forall|a: int| 0 <= a < es.len() ==> (#[trigger] es2[a]).0 == es[a].0);
    }
    if i == es.len() - 1 {
        assert(es2.drop_last() =~= es.drop_last());
        assert(es2.last() == (es[i].0, v));
    } else {
        assert(distinct_keys(es.drop_last())) by {
            assert(forall|a: int, b: int|
                0 <= a < b < es.len() - 1 ==> (#[trigger] es.drop_last()[a]).0 != (
                #[trigger] es.drop_last()[b]).0);
        }
        lemma_assoc_update(es.drop_last(), i, v);
        assert(es2.drop_last() =~= es.drop_last().update(i, (es[i].0, v)));
        assert(es2.last() == es.last());
        assert(es[i].0 != es.last().0);
    }
}

/// A mapping from header keys to decoded header values, with the entries in
/// the order they were inserted.
#[derive(Debug, Clone, PartialEq, Eq)]
pub struct Header {
    entries: Vec<(String, String)>,
}

impl View for Header {
    type V = Map<Seq<char>, Seq<char>>;

    open spec fn view(&self) -> Map<Seq<char>, Seq<char>> {
        assoc_map(self.pairs())
    }
}

impl Header {
    /// The entries as a sequence of (key, value) character sequences, in
    /// insertion order.
    pub closed spec fn pairs(&self) -> Seq<(Seq<char>, Seq<char>)> {
        self.entries@.map(|i: int, e: (String, String)| (e.0@, e.1@))
    }

    /// Well-formed: no key occurs twice.
    pub closed spec fn wf(&self) -> bool {
        distinct_keys(self.pairs())
    }

    /// An empty header block.
    pub fn new() -> (h: Header)
        ensures
            h.wf(),
            h@ =~= Map::<Seq<char>, Seq<char>>::empty(),
            h.pairs() =~= Seq::<(Seq<char>, Seq<char>)>::empty(),
    {
        let h = Header { entries: Vec::new() };
        assert(h.pairs() =~= Seq::<(Seq<char>, Seq<char>)>::empty());
        h
    }

    /// Number of entries.
    pub fn len(&self) -> (n: usize)
        ensures
            n == self.pairs().len(),
    {
        self.entries.len()
    }

    /// The entry at position `i`, in insertion order.
    pub fn entry_at(&self, i: usize) -> (e: &(String, String))
        requires
            i < self.pairs().len(),
        ensures
            e.0@ == self.pairs()[i as int].0,
            e.1@ == self.pairs()[i as int].1,
    {
        &self.entries[i]
    }

    /// Index of the entry carrying key `k`, if any.
    fn find(&self, k: &str) -> (r: Option<usize>)
        ensures
            match r {
                Some(i) => i < self.pairs().len() && self.pairs()[i as int].0 == k@,
                None => forall|i: int|
                    0 <= i < self.pairs().len() ==> (#[trigger] self.pairs()[i]).0 != k@,
            },
    {
        let ks: String = k.to_owned();
        let n = self.entries.len();
        let mut i: usize = 0;
        while i < n
            invariant
                i <= n,
                n == self.entries@.len(),
                ks@ == k@,
                forall|j: int| 0 <= j < i ==> (#[trigger] self.pairs()[j]).0 != k@,
            decreases n - i,
        {
            if self.entries[i].0 == ks {
                return Some(i);
            }
            assert(self.pairs()[i as int].0 != k@);
            i = i + 1;
        }
        None
    }

    /// True when the block has an entry for `k`.
    pub fn contains_key(&self, k: &str) -> (r: bool)
        ensures
            r == self@.dom().contains(k@),
    {
        proof {
            lemma_assoc_contains(self.pairs(), k@);
        }
        match self.find(k) {
            Some(_) => true,
            None => false,
        }
    }

    /// The value stored for `k`, if any.
    pub fn get<'a>(&'a self, k: &str) -> (r: Option<&'a String>)
        requires
            self.wf(),
        ensures
            match r {
                Some(v) => self@.dom().contains(k@) && v@ == self@[k@],
                None => !self@.dom().contains(k@),
            },
    {
        proof {
            lemma_assoc_contains(self.pairs(), k@);
        }
        match self.find(k) {
            Some(i) => {
                proof {
                    lemma_assoc_value(self.pairs(), i as int);
                }
                Some(&self.entries[i].1)
            },
            None => None,
        }
    }

    /// Inserts `v` under `k`, replacing any earlier value for `k`.
    pub fn insert(&mut self, k: String, v: String)
        requires
            old(self).wf(),
        ensures
            final(self).wf(),
            final(self)@ =~= old(self)@.insert(k@, v@),
            !old(self)@.dom().contains(k@) ==> final(self).pairs() == old(self).pairs().push(
                (k@, v@)),
    {
        proof {
            lemma_assoc_contains(self.pairs(), k@);
        }
        match self.find(k.as_str()) {
            Some(i) => {
                proof {
                    lemma_assoc_update(self.pairs(), i as int, v@);
                }
                let ghost old_pairs = self.pairs();
                self.entries[i].1 = v;
                assert(self.pairs() =~= old_pairs.update(i as int, (old_pairs[i as int].0, v@)));
            },
            None => {
                let ghost old_pairs = self.pairs();
                self.entries.push((k, v));
                assert(self.pairs() =~= old_pairs.push((k@, v@)));
                assert(self.pairs().drop_last() =~= old_pairs);
            },
        }
    }
}

/// Index of the first `'\n'` at or after `pos`, or the length of `s` when
/// there is none.
pub open spec fn line_end_ch(s: Seq<char>, pos: int) -> int
    decreases s.len() - pos when 0 <= pos <= s.len()
{
    if pos >= s.len() {
        s.len() as int
    } else if s[pos] == '\n' {
        pos
    } else {
        line_end_ch(s, pos + 1)
    }
}

pub proof fn lemma_line_end_ch_bounds(s: Seq<char>, pos: int)
    requires
        0 <= pos <= s.len(),
    ensures
        pos <= line_end_ch(s, pos) <= s.len(),
        line_end_ch(s, pos) < s.len() ==> s[line_end_ch(s, pos)] == '\n',
        forall|j: int| pos <= j < line_end_ch(s, pos) ==> s[j] != '\n',
    decreases s.len() - pos,
{
    if pos < s.len() && s[pos] != '\n' {
        lemma_line_end_ch_bounds(s, pos + 1);
    }
}

/// Where the newline is known, `line_end_ch` finds exactly it.
pub proof fn lemma_line_end_ch_exact(s: Seq<char>, pos: int, e: int)
    requires
        0 <= pos <= e <= s.len(),
        forall|j: int| pos <= j < e ==> s[j] != '\n',
        e == s.len() || s[e] == '\n',
    ensures
        line_end_ch(s, pos) == e,
    decreases e - pos,
{
    if pos < e {
        lemma_line_end_ch_exact(s, pos + 1, e);
    }
}

/// Index of the first `':'` at or after `pos`, or the length of `s` when
/// there is none.
pub open spec fn colon_from(s: Seq<char>, pos: int) -> int
    decreases s.len() - pos when 0 <= pos <= s.len()
{
    if pos >= s.len() {
        s.len() as int
    } else if s[pos] == ':' {
        pos
    } else {
        colon_from(s, pos + 1)
    }
}

/// Where the colon is known, `colon_from` finds exactly it.
pub proof fn lemma_colon_from_exact(s: Seq<char>, pos: int, e: int)
    requires
        0 <= pos <= e <= s.len(),
        forall|j: int| pos <= j < e ==> s[j] != ':',
        e == s.len() || s[e] == ':',
    ensures
        colon_from(s, pos) == e,
    decreases e - pos,
{
    if pos < e {
        lemma_colon_from_exact(s, pos + 1, e);
    }
}

/// The (key, value) pair denoted by one header line: the line is split at
/// its first colon, both sides are trimmed, and the value is
/// percent-decoded. An empty line, or a line without a colon, denotes no
/// entry.
pub open spec fn line_entry(line: Seq<char>) -> Option<(Seq<char>, Seq<char>)> {
    if line.len() == 0 {
        None
    } else {
        let c = colon_from(line, 0);
        if c == line.len() {
            None
        } else {
            Some(
                (
                    trim(line.subrange(0, c)),
                    decode_header_value(trim(line.subrange(c + 1, line.len() as int))),
                ),
            )
        }
    }
}

/// The header mapping denoted by the block text from `pos` on: one entry
/// per line that yields one, the last line carrying a key giving its value.
pub open spec fn header_map_from(s: Seq<char>, pos: int) -> Map<Seq<char>, Seq<char>>
    decreases s.len() - pos when 0 <= pos <= s.len() via header_map_from_decreases
{
    if pos >= s.len() {
        Map::empty()
    } else {
        let e = line_end_ch(s, pos);
        let nxt = if e < s.len() {
            e + 1
        } else {
            s.len() as int
        };
        let m = header_map_from(s, nxt);
        match line_entry(s.subrange(pos, e)) {
            Some(kv) => if m.dom().contains(kv.0) {
                m
            } else {
                m.insert(kv.0, kv.1)
            },
            None => m,
        }
    }
}

#[via_fn]
proof fn header_map_from_decreases(s: Seq<char>, pos: int) {
    if 0 <= pos < s.len() {
        lemma_line_end_ch_bounds(s, pos);
    }
}

/// The header mapping denoted by a whole block of text.
pub open spec fn header_map(s: Seq<char>) -> Map<Seq<char>, Seq<char>> {
    header_map_from(s, 0)
}

/// Parses one header line into its (key, decoded value) entry, or nothing
/// for an empty or colon-less line.
fn parse_header_line(line: &str) -> (r: Option<(String, String)>)
    ensures
        match r {
            Some(kv) => line_entry(line@) == Some((kv.0@, kv.1@)),
            None => line_entry(line@) is None,
        },
{
    let n = line.unicode_len();
    if n == 0 {
        return None;
    }
    let mut c: usize = 0;
    while c < n && line.get_char(c) != ':'
        invariant
            c <= n,
            n == line@.len(),
            colon_from(line@, 0) == colon_from(line@, c as int),
        decreases n - c,
    {
        c = c + 1;
    }
    assert(c as int == colon_from(line@, 0));
    if c == n {
        return None;
    }
    let key = trim_str(line.substring_char(0, c));
    let rawv = trim_str(line.substring_char(c + 1, n));
    let val = crate::decode::decode_value(rawv);
    Some((key, val))
}

/// Parses a whole header block: splits it into newline-delimited lines and
/// collects their entries, the last occurrence of a key winning.
pub fn header_parse(s: &str) -> (h: Header)
    ensures
        h.wf(),
        h@ == header_map(s@),
{
    let n = s.unicode_len();
    let mut starts: Vec<usize> = Vec::new();
    let mut ends: Vec<usize> = Vec::new();
    let mut pos: usize = 0;
    while pos < n
        invariant
            pos <= n,
            n == s@.len(),
            starts@.len() == ends@.len(),
            forall|i: int|
                0 <= i < starts@.len() ==> #[trigger] starts@[i] <= n && ends@[i] as int
                    == line_end_ch(s@, starts@[i] as int),
            forall|i: int|
                0 <= i < starts@.len() - 1 ==> starts@[i + 1] as int == (if ends@[i] < n {
                    ends@[i] + 1
                } else {
                    n as int
                }),
            starts@.len() == 0 ==> pos == 0,
            starts@.len() > 0 ==> starts@[0] == 0,
            starts@.len() > 0 ==> pos as int == (if ends@[starts@.len() - 1] < n {
                ends@[starts@.len() - 1] + 1
            } else {
                n as int
            }),
        decreases n - pos,
    {
        let ghost pos0 = pos;
        let mut e: usize = pos;
        while e < n && s.get_char(e) != '\n'
            invariant
                pos0 <= e <= n,
                n == s@.len(),
                line_end_ch(s@, pos0 as int) == line_end_ch(s@, e as int),
            decreases n - e,
        {
            e = e + 1;
        }
        assert(e as int == line_end_ch(s@, pos0 as int));
        starts.push(pos);
        ends.push(e);
        pos = if e < n {
            e + 1
        } else {
            n
        };
        proof {
            lemma_line_end_ch_bounds(s@, pos0 as int);
        }
    }
    let mut h = Header::new();
    let mut i: usize = starts.len();
    assert(header_map_from(s@, n as int) =~= Map::<Seq<char>, Seq<char>>::empty());
    while i > 0
        invariant
            i <= starts@.len(),
            n == s@.len(),
            starts@.len() == ends@.len(),
            forall|j: int|
                0 <= j < starts@.len() ==> #[trigger] starts@[j] <= n && ends@[j] as int
                    == line_end_ch(s@, starts@[j] as int),
            forall|j: int|
                0 <= j < starts@.len() - 1 ==> starts@[j + 1] as int == (if ends@[j] < n {
                    ends@[j] + 1
                } else {
                    n as int
                }),
            starts@.len() > 0 ==> starts@[0] == 0,
            starts@.len() > 0 ==> n as int == (if ends@[starts@.len() - 1] < n {
                ends@[starts@.len() - 1] + 1
            } else {
                n as int
            }),
            h.wf(),
            h@ == header_map_from(
                s@,
                if i < starts@.len() {
                    starts@[i as int] as int
                } else {
                    n as int
                },
            ),
        decreases i,
    {
        i = i - 1;
        let st = starts[i];
        let en = ends[i];
        proof {
            lemma_line_end_ch_bounds(s@, st as int);
        }
        let ghost nxt = if i + 1 < starts@.len() {
            starts@[i as int + 1] as int
        } else {
            n as int
        };
        assert(nxt == (if en < n {
            en + 1
        } else {
            n as int
        }));
        let line = s.substring_char(st, en);
        assert(line@ == s@.subrange(st as int, en as int));
        match parse_header_line(line) {
            Some(kv) => {
                let (k, v) = kv;
                if !h.contains_key(k.as_str()) {
                    h.insert(k, v);
                }
            },
            None => {
            },
        }
        assert(h@ == header_map_from(s@, st as int));
    }
    if starts.len() == 0 {
        assert(n == 0);
    }
    h
}

} // verus!
