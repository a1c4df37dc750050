//! An ordered collection of HTTP header name/value pairs.
//!
//! Names and values are byte strings. Insertion order is preserved and
//! duplicate names are allowed; lookup is case-insensitive (ASCII) and
//! returns the first match. A collection serializes to the wire form
//! `"<name>: <value>"` per line, newline-joined, and a single wire line
//! parses back by splitting on the first `": "`.

use vstd::prelude::*;
use vstd::slice::{slice_subrange, slice_to_vec};

verus! {

/// ASCII case folding of one byte: uppercase letters map to lowercase.
pub open spec fn lower_byte(b: u8) -> u8 {
    if 65 <= b && b <= 90 {
        (b + 32) as u8
    } else {
        b
    }
}

/// ASCII case folding of a byte sequence.
pub open spec fn lower_seq(s: Seq<u8>) -> Seq<u8> {
    s.map_values(|b: u8| lower_byte(b))
}

/// The two-byte separator `": "` occurs in `s` at position `i`.
pub open spec fn sep_at(s: Seq<u8>, i: int) -> bool {
    &&& 0 <= i
    &&& i + 1 < s.len()
    &&& s[i] == 58u8
    &&& s[i + 1] == 32u8
}

/// Position of the first `": "` at or after `from`, if any.
pub open spec fn find_sep_from(s: Seq<u8>, from: int) -> Option<int>
    decreases s.len() - from,
{
    if from + 1 >= s.len() {
        None
    } else if s[from] == 58u8 && s[from + 1] == 32u8 {
        Some(from)
    } else {
        find_sep_from(s, from + 1)
    }
}

/// Position of the first `": "` in `s`, if any.
pub open spec fn find_sep(s: Seq<u8>) -> Option<int> {
    find_sep_from(s, 0)
}

/// What `find_sep_from` returns is the leftmost separator position at or
/// after `from` (for `from >= 0`), and `None` means there is none.
pub proof fn lemma_find_sep_from_props(s: Seq<u8>, from: int)
    requires
        0 <= from,
    ensures
        match find_sep_from(s, from) {
            Some(k) => from <= k && sep_at(s, k) && (forall|j: int|
                from <= j < k ==> !sep_at(s, j)),
            None => forall|j: int| from <= j ==> !sep_at(s, j),
        },
    decreases s.len() - from,
{
    if from + 1 >= s.len() {
        assert forall|j: int| from <= j implies !sep_at(s, j) by {}
    } else if s[from] == 58u8 && s[from + 1] == 32u8 {
    } else {
        lemma_find_sep_from_props(s, from + 1);
        assert(!sep_at(s, from));
    }
}

/// The line serialization of a header pair: `name`, `": "`, `value`.
pub open spec fn header_line(h: (Seq<u8>, Seq<u8>)) -> Seq<u8> {
    h.0 + seq![58u8, 32u8] + h.1
}

/// Serializing a pair whose name holds no `": "` and parsing the line back
/// splits exactly at the end of the name: the round trip is the identity.
/// A one-entry collection serializes to exactly that line.
pub proof fn lemma_header_line_round_trip(name: Seq<u8>, value: Seq<u8>)
    requires
        find_sep(name) is None,
    ensures
        render(seq![(name, value)]) == header_line((name, value)),
        find_sep(header_line((name, value))) == Some(name.len() as int),
        header_line((name, value)).subrange(0, name.len() as int) == name,
        header_line((name, value)).subrange(
            name.len() as int + 2,
            header_line((name, value)).len() as int,
        ) == value,
{
    let s = header_line((name, value));
    let n = name.len() as int;
    lemma_find_sep_from_props(name, 0);
    assert(sep_at(s, n));
    assert forall|j: int| 0 <= j < n implies !sep_at(s, j) by {
        if j + 1 < n {
            assert(s[j] == name[j] && s[j + 1] == name[j + 1]);
            assert(!sep_at(name, j));
        } else {
            assert(s[j + 1] == 58u8);
        }
    }
    lemma_find_sep_from_props(s, 0);
    if find_sep(s) is None {
        assert(!sep_at(s, n));
        assert(false);
    }
    let k = find_sep(s)->Some_0;
    if k < n {
        assert(!sep_at(s, k));
        assert(false);
    }
    if k > n {
        assert(!sep_at(s, n));
        assert(false);
    }
    assert(s.subrange(0, n) =~= name);
    assert(s.subrange(n + 2, s.len() as int) =~= value);
}

/// Failure to parse a wire header line: the line holds no `": "` separator.
#[derive(Debug, Clone, PartialEq, Eq, Structural)]
pub struct HeaderParseError;

impl HeaderParseError {
    /// A human-readable description of the failure.
    pub fn message(&self) -> (r: &'static str)
        ensures
            r@ == "HeaderParseError"@,
    {
        "HeaderParseError"
    }
}

/// One header entry: an ordered (name, value) pair of byte strings.
#[derive(Debug, Clone)]
pub struct Header {
    name: Vec<u8>,
    value: Vec<u8>,
}

impl View for Header {
    type V = (Seq<u8>, Seq<u8>);

    closed spec fn view(&self) -> (Seq<u8>, Seq<u8>) {
        (self.name@, self.value@)
    }
}

impl Header {
    /// Builds a header from a name and a value, kept verbatim.
    pub fn new(name: Vec<u8>, value: Vec<u8>) -> (h: Header)
        ensures
            h@ == (name@, value@),
    {
        Header { name, value }
    }

    /// The header's name, verbatim.
    pub fn name(&self) -> (r: &Vec<u8>)
        ensures
            r@ == self@.0,
    {
        &self.name
    }

    /// The header's value, verbatim.
    pub fn value(&self) -> (r: &Vec<u8>)
        ensures
            r@ == self@.1,
    {
        &self.value
    }

    /// Parses one wire line by splitting on the first `": "`: everything
    /// before it is the name, everything after it is the value (which may
    /// itself contain `": "`). Fails exactly when the line holds no `": "`.
    pub fn from_line(line: &[u8]) -> (r: Result<Header, HeaderParseError>)
        ensures
            r is Ok <==> find_sep(line@) is Some,
            r matches Ok(h) ==> {
                let k = find_sep(line@)->Some_0;
                h@.0 == line@.subrange(0, k) && h@.1 == line@.subrange(k + 2, line@.len() as int)
            },
    {
        let n = line.len();
        if n == 0 {
            return Err(HeaderParseError);
        }
        let mut i: usize = 0;
        while i < n - 1
            invariant
                i + 1 <= n,
                1 <= n,
                n == line@.len(),
                find_sep(line@) == find_sep_from(line@, i as int),
            decreases n - i,
        {
            if line[i] == 58u8 && line[i + 1] == 32u8 {
                assert(find_sep_from(line@, i as int) == Some(i as int));
                let name = slice_to_vec(slice_subrange(line, 0, i));
                let value = slice_to_vec(slice_subrange(line, i + 2, n));
                return Ok(Header { name, value });
            }
            assert(find_sep_from(line@, i as int) == find_sep_from(line@, i + 1));
            i = i + 1;
        }
        assert(find_sep_from(line@, i as int) is None);
        Err(HeaderParseError)
    }
}

/// First value whose name matches `name` up to ASCII case, scanning in order.
pub open spec fn lookup(hs: Seq<(Seq<u8>, Seq<u8>)>, name: Seq<u8>) -> Option<Seq<u8>>
    decreases hs.len(),
{
    if hs.len() == 0 {
        None
    } else if lower_seq(hs[0].0) == lower_seq(name) {
        Some(hs[0].1)
    } else {
        lookup(hs.drop_first(), name)
    }
}

/// Lookup only sees a name through its ASCII case folding: two names that
/// fold to the same bytes retrieve the same entry from any collection.
pub proof fn lemma_lookup_case_insensitive(hs: Seq<(Seq<u8>, Seq<u8>)>, a: Seq<u8>, b: Seq<u8>)
    requires
        lower_seq(a) == lower_seq(b),
    ensures
        lookup(hs, a) == lookup(hs, b),
    decreases hs.len(),
{
    if hs.len() > 0 {
        lemma_lookup_case_insensitive(hs.drop_first(), a, b);
    }
}

/// The wire form of a whole collection: one `"<name>: <value>"` line per
/// entry, newline-joined in order, with no trailing newline.
pub open spec fn render(hs: Seq<(Seq<u8>, Seq<u8>)>) -> Seq<u8>
    decreases hs.len(),
{
    if hs.len() == 0 {
        Seq::empty()
    } else if hs.len() == 1 {
        header_line(hs[0])
    } else {
        render(hs.drop_last()) + seq![10u8] + header_line(hs.last())
    }
}

/// An ordered sequence of headers; duplicates allowed, order preserved.
#[derive(Debug)]
pub struct Headers(Vec<Header>);

impl View for Headers {
    type V = Seq<(Seq<u8>, Seq<u8>)>;

    closed spec fn view(&self) -> Seq<(Seq<u8>, Seq<u8>)> {
        self.0@.map_values(|h: Header| h@)
    }
}

impl Headers {
    /// An empty collection.
    pub fn new() -> (r: Headers)
        ensures
            r@ == Seq::<(Seq<u8>, Seq<u8>)>::empty(),
    {
        let v: Vec<Header> = Vec::new();
        let r = Headers(v);
        proof {
            assert(r@ =~= Seq::<(Seq<u8>, Seq<u8>)>::empty());
        }
        r
    }

    /// Appends a new entry built from `name` and `value`; existing entries
    /// are untouched.
    pub fn add(&mut self, name: Vec<u8>, value: Vec<u8>)
        ensures
            final(self)@ == old(self)@.push((name@, value@)),
    {
        let ghost before = self@;
        let h = Header::new(name, value);
        let ghost hv = h@;
        self.0.push(h);
        proof {
            assert(final(self)@ =~= before.push(hv));
        }
    }

    /// Appends a pre-built entry; existing entries are untouched.
    pub fn push(&mut self, header: Header)
        ensures
            final(self)@ == old(self)@.push(header@),
    {
        let ghost before = self@;
        let ghost hv = header@;
        self.0.push(header);
        proof {
            assert(final(self)@ =~= before.push(hv));
        }
    }

    /// Number of entries.
    pub fn len(&self) -> (n: usize)
        ensures
            n == self@.len(),
    {
        self.0.len()
    }

    /// The entry at position `i`, in insertion order.
    pub fn index(&self, i: usize) -> (h: &Header)
        requires
            i < self@.len(),
        ensures
            h@ == self@[i as int],
    {
        &self.0[i]
    }

    /// Case-insensitive scan for the first entry whose name matches; returns
    /// its value verbatim, or `None` when no name matches.
    pub fn get(&self, name: &[u8]) -> (r: Option<&Vec<u8>>)
        ensures
            match r {
                Some(v) => lookup(self@, name@) == Some(v@),
                None => lookup(self@, name@) is None,
            },
    {
        let n = self.0.len();
        let mut i: usize = 0;
        proof {
            assert(self@.skip(0) =~= self@);
        }
        while i < n
            invariant
                0 <= i <= n,
                n == self@.len(),
                lookup(self@, name@) == lookup(self@.skip(i as int), name@),
            decreases n - i,
        {
            let ghost rest = self@.skip(i as int);
            proof {
                assert(rest[0] == self@[i as int]);
                assert(rest.drop_first() =~= self@.skip(i + 1));
            }
            if eq_ignore_ascii_case(self.0[i].name.as_slice(), name) {
                return Some(&self.0[i].value);
            }
            i = i + 1;
        }
        proof {
            assert(self@.skip(n as int) =~= Seq::<(Seq<u8>, Seq<u8>)>::empty());
        }
        None
    }

    /// Serializes the collection to its wire form, in insertion order.
    pub fn to_text(&self) -> (r: Vec<u8>)
        ensures
            r@ == render(self@),
    {
        let n = self.0.len();
        let mut out: Vec<u8> = Vec::new();
        let mut i: usize = 0;
        while i < n
            invariant
                0 <= i <= n,
                n == self@.len(),
                out@ == render(self@.take(i as int)),
            decreases n - i,
        {
            let ghost before = out@;
            if i > 0 {
                out.push(10u8);
            }
            append_bytes(&mut out, self.0[i].name.as_slice());
            out.push(58u8);
            out.push(32u8);
            append_bytes(&mut out, self.0[i].value.as_slice());
            proof {
                let part = self@.take(i + 1);
                assert(part.len() == i + 1);
                assert(part[i as int] == self@[i as int]);
                if i == 0 {
                    assert(out@ =~= header_line(self@[0]));
                    assert(render(part) == header_line(part[0]));
                } else {
                    assert(part.drop_last() =~= self@.take(i as int));
                    assert(render(part) == render(part.drop_last()) + seq![10u8] + header_line(
                        part.last(),
                    ));
                    assert(out@ =~= render(self@.take(i as int)) + seq![10u8] + header_line(
                        self@[i as int],
                    ));
                }
            }
            i = i + 1;
        }
        proof {
            assert(self@.take(n as int) =~= self@);
        }
        out
    }

    /// Builds a collection from pre-built entries, preserving their order.
    pub fn from_entries(entries: Vec<Header>) -> (r: Headers)
        ensures
            r@ == entries@.map_values(|h: Header| h@),
    {
        Headers(entries)
    }

    /// Builds a collection from (name, value) pairs, preserving their order.
    pub fn from_pairs(pairs: Vec<(Vec<u8>, Vec<u8>)>) -> (r: Headers)
        ensures
            r@ == pairs@.map_values(|p: (Vec<u8>, Vec<u8>)| (p.0@, p.1@)),
    {
        let ghost all = pairs@;
        let mut pairs = pairs;
        let mut out = Headers::new();
        while pairs.len() > 0
            invariant
                all.map_values(|p: (Vec<u8>, Vec<u8>)| (p.0@, p.1@)) == out@ + pairs@.map_values(
                    |p: (Vec<u8>, Vec<u8>)| (p.0@, p.1@),
                ),
            decreases pairs.len(),
        {
            let ghost pv = pairs@;
            let p = pairs.remove(0);
            proof {
                assert(pairs@ =~= pv.drop_first());
            }
            out.add(p.0, p.1);
            proof {
                let f = |q: (Vec<u8>, Vec<u8>)| (q.0@, q.1@);
                assert(pv.map_values(f)[0] == f(pv[0]));
                assert(pv.drop_first().map_values(f) =~= pv.map_values(f).drop_first());
                assert(out@ + pairs@.map_values(f) =~= all.map_values(f));
            }
        }
        proof {
            assert(out@ + pairs@.map_values(|p: (Vec<u8>, Vec<u8>)| (p.0@, p.1@)) =~= out@);
        }
        out
    }
}

/// Appends all of `s` to `out`, in order.
pub fn append_bytes(out: &mut Vec<u8>, s: &[u8])
    ensures
        final(out)@ == old(out)@ + s@,
{
    let n = s.len();
    let mut i: usize = 0;
    while i < n
        invariant
            0 <= i <= n,
            n == s@.len(),
            out@ == old(out)@ + s@.take(i as int),
        decreases n - i,
    {
        out.push(s[i]);
        proof {
            assert(old(out)@ + s@.take(i + 1) =~= (old(out)@ + s@.take(i as int)).push(
                s@[i as int],
            ));
        }
        i = i + 1;
    }
    proof {
        assert(s@.take(n as int) =~= s@);
    }
}

/// Compares two byte strings up to ASCII case.
pub fn eq_ignore_ascii_case(a: &[u8], b: &[u8]) -> (r: bool)
    ensures
        r == (lower_seq(a@) == lower_seq(b@)),
{
    let n = a.len();
    if n != b.len() {
        proof {
            assert(lower_seq(a@).len() != lower_seq(b@).len());
        }
        return false;
    }
    let mut i: usize = 0;
    while i < n
        invariant
            0 <= i <= n,
            n == a@.len() && n == b@.len(),
            forall|j: int| 0 <= j < i ==> lower_byte(a@[j]) == lower_byte(b@[j]),
        decreases n - i,
    {
        let x = lower(a[i]);
        let y = lower(b[i]);
        if x != y {
            proof {
                assert(lower_seq(a@)[i as int] != lower_seq(b@)[i as int]);
            }
            return false;
        }
        i = i + 1;
    }
    proof {
        assert(lower_seq(a@) =~= lower_seq(b@));
    }
    true
}

/// ASCII case folding of one byte, executable form.
pub fn lower(b: u8) -> (r: u8)
    ensures
        r == lower_byte(b),
{
    if 65 <= b && b <= 90 {
        b + 32
    } else {
        b
    }
}

} // verus!
