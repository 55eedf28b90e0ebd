//! Byte-level helpers: whitespace classification, trimming, marker
//! search, line splitting and line-ending detection.
//!
//! The whole crate operates on raw bytes, not decoded text; only
//! ASCII-compatible comment markers are assumed.

use vstd::prelude::*;

verus! {

/// A byte is an ASCII space or one of the control characters
/// horizontal tab through carriage return.
pub open spec fn spec_is_whitespace(b: u8) -> bool {
    b == 32 || (9 <= b && b <= 13)
}

/// Index of the first byte of `s` satisfying `p`; `s.len()` if none does.
pub open spec fn first_where(s: Seq<u8>, p: spec_fn(u8) -> bool) -> int
    decreases s.len(),
{
    if s.len() == 0 {
        0
    } else if p(s[0]) {
        0
    } else {
        1 + first_where(s.skip(1), p)
    }
}

pub proof fn lemma_first_where(s: Seq<u8>, p: spec_fn(u8) -> bool)
    ensures
        0 <= first_where(s, p) <= s.len(),
        forall|j: int| 0 <= j < first_where(s, p) ==> !p(s[j]),
        first_where(s, p) < s.len() ==> p(s[first_where(s, p)]),
    decreases s.len(),
{
    if s.len() == 0 {
    } else if p(s[0]) {
    } else {
        lemma_first_where(s.skip(1), p);
        let f = first_where(s, p);
        assert forall|j: int| 0 <= j < f implies !p(s[j]) by {
            if j >= 1 {
                assert(s.skip(1)[j - 1] == s[j]);
                assert(!p(s.skip(1)[j - 1]));
            }
        }
        if f < s.len() {
            assert(s.skip(1)[f - 1] == s[f]);
            assert(p(s.skip(1)[f - 1]));
        }
    }
}

/// The search is determined by any witness: if everything before `i`
/// fails `p` and `i` is either the length or satisfies `p`, then `i`
/// is the result.
pub proof fn lemma_first_where_is(s: Seq<u8>, p: spec_fn(u8) -> bool, i: int)
    requires
        0 <= i <= s.len(),
        forall|j: int| 0 <= j < i ==> !p(s[j]),
        i < s.len() ==> p(s[i]),
    ensures
        first_where(s, p) == i,
{
    lemma_first_where(s, p);
    let f = first_where(s, p);
    if f < i {
        assert(!p(s[f]));
    }
    if i < f {
        assert(!p(s[i]));
    }
}

/// One past the index of the last byte of `s` satisfying `p`; 0 if none does.
pub open spec fn last_where_end(s: Seq<u8>, p: spec_fn(u8) -> bool) -> int
    decreases s.len(),
{
    if s.len() == 0 {
        0
    } else if p(s[s.len() - 1]) {
        s.len() as int
    } else {
        last_where_end(s.drop_last(), p)
    }
}

pub proof fn lemma_last_where_end(s: Seq<u8>, p: spec_fn(u8) -> bool)
    ensures
        0 <= last_where_end(s, p) <= s.len(),
        forall|j: int| last_where_end(s, p) <= j < s.len() ==> !p(s[j]),
        last_where_end(s, p) > 0 ==> p(s[last_where_end(s, p) - 1]),
    decreases s.len(),
{
    if s.len() == 0 {
    } else if p(s[s.len() - 1]) {
    } else {
        lemma_last_where_end(s.drop_last(), p);
        let f = last_where_end(s, p);
        assert forall|j: int| f <= j < s.len() implies !p(s[j]) by {
            if j < s.len() - 1 {
                assert(s.drop_last()[j] == s[j]);
                assert(!p(s.drop_last()[j]));
            }
        }
        if f > 0 {
            assert(s.drop_last()[f - 1] == s[f - 1]);
            assert(p(s.drop_last()[f - 1]));
        }
    }
}

pub proof fn lemma_last_where_end_is(s: Seq<u8>, p: spec_fn(u8) -> bool, i: int)
    requires
        0 <= i <= s.len(),
        forall|j: int| i <= j < s.len() ==> !p(s[j]),
        i > 0 ==> p(s[i - 1]),
    ensures
        last_where_end(s, p) == i,
{
    lemma_last_where_end(s, p);
    let f = last_where_end(s, p);
    if f < i {
        assert(!p(s[i - 1]));
    }
    if i < f {
        assert(!p(s[f - 1]));
    }
}

/// The predicate selecting non-whitespace bytes.
pub open spec fn non_ws_fn() -> spec_fn(u8) -> bool {
    |b: u8| !spec_is_whitespace(b)
}

/// The predicate selecting line-terminator bytes.
pub open spec fn line_break_fn() -> spec_fn(u8) -> bool {
    |b: u8| b == 10 || b == 13
}

/// The predicate selecting whitespace bytes.
pub open spec fn ws_fn() -> spec_fn(u8) -> bool {
    |b: u8| spec_is_whitespace(b)
}

/// Index of the first non-whitespace byte; 0 when the sequence is
/// empty or entirely whitespace.
pub open spec fn spec_first_non_whitespace(s: Seq<u8>) -> int {
    let f = first_where(s, non_ws_fn());
    if f == s.len() {
        0
    } else {
        f
    }
}

/// One past the index of the last non-whitespace byte; 0 when the
/// sequence is empty or entirely whitespace.
pub open spec fn spec_last_non_whitespace(s: Seq<u8>) -> int {
    last_where_end(s, non_ws_fn())
}

/// `s` with leading and trailing whitespace removed.
pub open spec fn spec_trim(s: Seq<u8>) -> Seq<u8> {
    s.subrange(spec_first_non_whitespace(s), spec_last_non_whitespace(s))
}

pub proof fn lemma_trim_bounds(s: Seq<u8>)
    ensures
        0 <= spec_first_non_whitespace(s),
        spec_first_non_whitespace(s) <= spec_last_non_whitespace(s) <= s.len(),
        spec_first_non_whitespace(s) < s.len() || spec_first_non_whitespace(s) == 0,
{
    let p = non_ws_fn();
    lemma_first_where(s, p);
    lemma_last_where_end(s, p);
    let f = first_where(s, p);
    let l = last_where_end(s, p);
    if f < s.len() {
        // s[f] is not whitespace, so the last non-whitespace is at f or later
        if l <= f {
            assert(!p(s[f]));
        }
    }
}

/// Whether `byte` is an ASCII whitespace byte (space, tab, line feed,
/// vertical tab, form feed or carriage return).
pub fn is_whitespace(byte: u8) -> (r: bool)
    ensures
        r == spec_is_whitespace(byte),
{
    byte == 32 || (9 <= byte && byte <= 13)
}

/// Index of the first non-whitespace byte of `bytes`; 0 when there is none.
pub fn first_non_whitespace(bytes: &[u8]) -> (r: usize)
    ensures
        r == spec_first_non_whitespace(bytes@),
{
    let mut i: usize = 0;
    while i < bytes.len()
        invariant
            0 <= i <= bytes@.len(),
            forall|j: int| 0 <= j < i ==> spec_is_whitespace(bytes@[j]),
        decreases bytes@.len() - i,
    {
        if !is_whitespace(bytes[i]) {
            proof {
                assert(forall|j: int| 0 <= j < i ==> !non_ws_fn()(bytes@[j]));
                assert(non_ws_fn()(bytes@[i as int]));
                lemma_first_where_is(bytes@, non_ws_fn(), i as int);
            }
            return i;
        }
        i += 1;
    }
    proof {
        assert(forall|j: int| 0 <= j < bytes@.len() ==> !non_ws_fn()(bytes@[j]));
        lemma_first_where_is(bytes@, non_ws_fn(), bytes@.len() as int);
    }
    0
}

/// One past the index of the last non-whitespace byte of `bytes`; 0
/// when there is none.
pub fn last_non_whitespace(bytes: &[u8]) -> (r: usize)
    ensures
        r == spec_last_non_whitespace(bytes@),
{
    let mut i: usize = bytes.len();
    while i > 0
        invariant
            0 <= i <= bytes@.len(),
            forall|j: int| i <= j < bytes@.len() ==> spec_is_whitespace(bytes@[j]),
        decreases i,
    {
        if !is_whitespace(bytes[i - 1]) {
            proof {
                assert(forall|j: int| i <= j < bytes@.len() ==> !non_ws_fn()(bytes@[j]));
                assert(non_ws_fn()(bytes@[i - 1]));
                lemma_last_where_end_is(bytes@, non_ws_fn(), i as int);
            }
            return i;
        }
        i -= 1;
    }
    proof {
        assert(forall|j: int| 0 <= j < bytes@.len() ==> !non_ws_fn()(bytes@[j]));
        lemma_last_where_end_is(bytes@, non_ws_fn(), 0);
    }
    0
}

/// `bytes` with leading and trailing whitespace removed.
pub fn trim(bytes: &[u8]) -> (r: &[u8])
    ensures
        r@ == spec_trim(bytes@),
{
    proof {
        lemma_trim_bounds(bytes@);
    }
    let f = first_non_whitespace(bytes);
    let l = last_non_whitespace(bytes);
    &bytes[f..l]
}

/// Whether the two byte slices hold the same bytes.
pub fn bytes_eq(a: &[u8], b: &[u8]) -> (r: bool)
    ensures
        r == (a@ == b@),
{
    if a.len() != b.len() {
        assert(a@ != b@);
        return false;
    }
    let mut i: usize = 0;
    while i < a.len()
        invariant
            0 <= i <= a@.len(),
            a@.len() == b@.len(),
            forall|j: int| 0 <= j < i ==> a@[j] == b@[j],
        decreases a@.len() - i,
    {
        if a[i] != b[i] {
            return false;
        }
        i += 1;
    }
    proof {
        assert(a@ =~= b@);
    }
    true
}

/// `p` occurs in `s` at position `i`.
pub open spec fn spec_match_at(s: Seq<u8>, p: Seq<u8>, i: int) -> bool {
    0 <= i && i + p.len() <= s.len() && s.subrange(i, i + p.len()) == p
}

/// `s` begins with `p`.
pub open spec fn spec_starts_with(s: Seq<u8>, p: Seq<u8>) -> bool {
    spec_match_at(s, p, 0)
}

/// Whether `p` occurs in `s` at position `at`.
pub fn match_at(s: &[u8], p: &[u8], at: usize) -> (r: bool)
    ensures
        r == spec_match_at(s@, p@, at as int),
{
    if at > s.len() || p.len() > s.len() - at {
        return false;
    }
    let slen = s.len();
    let mut i: usize = 0;
    while i < p.len()
        invariant
            0 <= i <= p@.len(),
            at + p@.len() <= s@.len(),
            s@.len() == slen,
            forall|j: int| 0 <= j < i ==> s@[at + j] == p@[j],
        decreases p@.len() - i,
    {
        if s[at + i] != p[i] {
            assert(s@.subrange(at as int, at + p@.len())[i as int] != p@[i as int]);
            return false;
        }
        i += 1;
    }
    proof {
        assert(s@.subrange(at as int, at + p@.len()) =~= p@);
    }
    true
}

/// Whether `s` begins with `p`.
pub fn starts_with(s: &[u8], p: &[u8]) -> (r: bool)
    ensures
        r == spec_starts_with(s@, p@),
{
    match_at(s, p, 0)
}


/// `m` occurs in `s` at position `i`, immediately followed by a space.
pub open spec fn marker_space_at(s: Seq<u8>, m: Seq<u8>, i: int) -> bool {
    spec_match_at(s, m, i) && i + m.len() < s.len() && s[i + m.len()] == 32
}

/// Position of the last occurrence in `s` of `m` followed by a space.
pub open spec fn spec_last_marker(s: Seq<u8>, m: Seq<u8>) -> Option<int>
    decreases s.len(),
{
    if s.len() < m.len() + 1 {
        None
    } else {
        let i = s.len() - m.len() - 1;
        if marker_space_at(s, m, i) {
            Some(i)
        } else {
            spec_last_marker(s.drop_last(), m)
        }
    }
}

pub proof fn lemma_last_marker(s: Seq<u8>, m: Seq<u8>)
    ensures
        match spec_last_marker(s, m) {
            Some(i) => marker_space_at(s, m, i) && forall|j: int|
                i < j ==> !marker_space_at(s, m, j),
            None => forall|j: int| !marker_space_at(s, m, j),
        },
    decreases s.len(),
{
    if s.len() < m.len() + 1 {
        assert forall|j: int| !marker_space_at(s, m, j) by {
            if 0 <= j && j + m.len() < s.len() {
                assert(s.len() >= m.len() + 1);
            }
        }
    } else {
        let top = s.len() - m.len() - 1;
        if marker_space_at(s, m, top) {
            assert forall|j: int| top < j implies !marker_space_at(s, m, j) by {}
        } else {
            lemma_last_marker(s.drop_last(), m);
            let d = s.drop_last();
            assert forall|j: int|
                0 <= j && j + m.len() < s.len() - 1 implies (marker_space_at(s, m, j)
                == marker_space_at(d, m, j)) by {
                assert(d.subrange(j, j + m.len() as int) =~= s.subrange(j, j + m.len() as int));
                assert(d[j + m.len() as int] == s[j + m.len() as int]);
            }
            match spec_last_marker(d, m) {
                Some(i) => {
                    assert forall|j: int| i < j implies !marker_space_at(s, m, j) by {
                        if j + m.len() < s.len() - 1 {
                            assert(!marker_space_at(d, m, j));
                        } else if j + m.len() == s.len() - 1 && 0 <= j {
                            assert(j == top);
                        }
                    }
                },
                None => {
                    assert forall|j: int| !marker_space_at(s, m, j) by {
                        if 0 <= j && j + m.len() < s.len() - 1 {
                            assert(!marker_space_at(d, m, j));
                        } else if 0 <= j && j + m.len() == s.len() - 1 {
                            assert(j == top);
                        }
                    }
                },
            }
        }
    }
}

pub proof fn lemma_last_marker_is(s: Seq<u8>, m: Seq<u8>, i: int)
    requires
        marker_space_at(s, m, i),
        forall|j: int| i < j ==> !marker_space_at(s, m, j),
    ensures
        spec_last_marker(s, m) == Some(i),
{
    lemma_last_marker(s, m);
    match spec_last_marker(s, m) {
        Some(k) => {
            if k < i {
                assert(!marker_space_at(s, m, i));
            }
            if i < k {
                assert(!marker_space_at(s, m, k));
            }
        },
        None => {
            assert(!marker_space_at(s, m, i));
        },
    }
}

/// What follows the last occurrence in `s` of `m` followed by a space.
pub open spec fn spec_get_last(s: Seq<u8>, m: Seq<u8>) -> Option<Seq<u8>> {
    match spec_last_marker(s, m) {
        Some(i) => Some(s.subrange(i + m.len() + 1, s.len() as int)),
        None => None,
    }
}

/// The bytes after the last occurrence of `to_match` followed by a
/// space, or `None` when no such occurrence exists.
pub fn get_last<'a>(bytes: &'a [u8], to_match: &[u8]) -> (r: Option<&'a [u8]>)
    ensures
        match r {
            Some(sl) => spec_get_last(bytes@, to_match@) == Some(sl@),
            None => spec_get_last(bytes@, to_match@) is None,
        },
{
    if bytes.len() <= to_match.len() {
        proof {
            lemma_last_marker(bytes@, to_match@);
        }
        return None;
    }
    let blen = bytes.len();
    let mut pos: usize = bytes.len() - to_match.len();
    while pos > 0
        invariant
            0 <= pos <= bytes@.len() - to_match@.len(),
            bytes@.len() >= to_match@.len() + 1,
            bytes@.len() == blen,
            forall|j: int| pos <= j ==> !marker_space_at(bytes@, to_match@, j),
        decreases pos,
    {
        let i = pos - 1;
        if match_at(bytes, to_match, i) && bytes[i + to_match.len()] == 32 {
            proof {
                lemma_last_marker_is(bytes@, to_match@, i as int);
            }
            return Some(&bytes[i + to_match.len() + 1..bytes.len()]);
        }
        proof {
            assert forall|j: int| i <= j implies !marker_space_at(bytes@, to_match@, j) by {
                if j == i {
                } else {
                    assert(pos <= j);
                }
            }
        }
        pos -= 1;
    }
    proof {
        lemma_last_marker(bytes@, to_match@);
        match spec_last_marker(bytes@, to_match@) {
            Some(i) => {
                assert(!marker_space_at(bytes@, to_match@, i));
            },
            None => {},
        }
    }
    None
}

/// The line terminator implied by the first line break byte of `s`:
/// a carriage return implies `\r\n`, a line feed implies `\n`, and a
/// sequence without line breaks defaults to `\n`.
pub open spec fn spec_line_ending(s: Seq<u8>) -> Seq<u8>
    decreases s.len(),
{
    if s.len() == 0 {
        seq![10u8]
    } else if s[0] == 13 {
        seq![13u8, 10u8]
    } else if s[0] == 10 {
        seq![10u8]
    } else {
        spec_line_ending(s.skip(1))
    }
}

/// Detects the line-ending style of `bytes` from its first line break.
pub fn get_line_ending(bytes: &[u8]) -> (r: Vec<u8>)
    ensures
        r@ == spec_line_ending(bytes@),
{
    let mut i: usize = 0;
    proof {
        assert(bytes@.skip(0) =~= bytes@);
    }
    while i < bytes.len()
        invariant
            0 <= i <= bytes@.len(),
            spec_line_ending(bytes@) == spec_line_ending(bytes@.skip(i as int)),
        decreases bytes@.len() - i,
    {
        if bytes[i] == 13 {
            let mut v: Vec<u8> = Vec::new();
            v.push(13);
            v.push(10);
            proof {
                assert(bytes@.skip(i as int)[0] == bytes@[i as int]);
                assert(v@ =~= seq![13u8, 10u8]);
            }
            return v;
        }
        if bytes[i] == 10 {
            let mut v: Vec<u8> = Vec::new();
            v.push(10);
            proof {
                assert(bytes@.skip(i as int)[0] == bytes@[i as int]);
                assert(v@ =~= seq![10u8]);
            }
            return v;
        }
        proof {
            assert(bytes@.skip(i as int)[0] == bytes@[i as int]);
            assert(bytes@.skip(i as int).skip(1) =~= bytes@.skip(i + 1));
        }
        i += 1;
    }
    let mut v: Vec<u8> = Vec::new();
    v.push(10);
    proof {
        assert(bytes@.skip(i as int).len() == 0);
        assert(v@ =~= seq![10u8]);
    }
    v
}

/// The logical lines of `s`: each line runs up to the next line feed
/// or carriage return; a carriage return consumes two terminator
/// bytes, a line feed one. The final bytes form a line even without a
/// terminator; there is no empty final line after a trailing terminator.
pub open spec fn spec_lines(s: Seq<u8>) -> Seq<Seq<u8>>
    decreases s.len(),
    via spec_lines_dec
{
    if s.len() == 0 {
        Seq::empty()
    } else {
        let e = first_where(s, line_break_fn());
        let line = s.take(e);
        let skip = if e < s.len() && s[e] == 13 {
            2int
        } else {
            1int
        };
        let next = if e + skip > s.len() {
            s.len() as int
        } else {
            e + skip
        };
        seq![line] + spec_lines(s.skip(next))
    }
}

#[via_fn]
proof fn spec_lines_dec(s: Seq<u8>) {
    if s.len() > 0 {
        lemma_first_where(s, line_break_fn());
    }
}

/// Splits `bytes` into its logical lines.
pub fn get_lines(bytes: &[u8]) -> (r: Vec<Vec<u8>>)
    ensures
        r.deep_view() == spec_lines(bytes@),
{
    let mut res: Vec<Vec<u8>> = Vec::new();
    let mut pos: usize = 0;
    proof {
        assert(res.deep_view() =~= Seq::<Seq<u8>>::empty());
        assert(bytes@.skip(0) =~= bytes@);
        assert(res.deep_view() + spec_lines(bytes@.skip(0)) =~= spec_lines(bytes@));
    }
    while pos < bytes.len()
        invariant
            0 <= pos <= bytes@.len(),
            spec_lines(bytes@) == res.deep_view() + spec_lines(bytes@.skip(pos as int)),
        decreases bytes@.len() - pos,
    {
        let ghost rest = bytes@.skip(pos as int);
        let mut e: usize = pos;
        while e < bytes.len() && bytes[e] != 10 && bytes[e] != 13
            invariant
                pos <= e <= bytes@.len(),
                forall|j: int| pos <= j < e ==> !(bytes@[j] == 10 || bytes@[j] == 13),
            decreases bytes@.len() - e,
        {
            e += 1;
        }
        proof {
            assert forall|j: int| 0 <= j < e - pos implies !line_break_fn()(rest[j]) by {
                assert(rest[j] == bytes@[pos + j]);
            }
            if e < bytes.len() {
                assert(line_break_fn()(rest[e - pos]));
            }
            lemma_first_where_is(rest, line_break_fn(), e - pos as int);
        }
        let line: Vec<u8> = vstd::slice::slice_to_vec(&bytes[pos..e]);
        let ghost old_res = res.deep_view();
        res.push(line);
        let next: usize = if e < bytes.len() && bytes[e] == 13 {
            if bytes.len() - e < 2 {
                bytes.len()
            } else {
                e + 2
            }
        } else {
            if bytes.len() - e < 1 {
                bytes.len()
            } else {
                e + 1
            }
        };
        proof {
            assert(line.deep_view() =~= line@);
            assert(res.deep_view() =~~= old_res.push(line@));
            assert(line@ =~= rest.take(e - pos as int));
            if e < bytes.len() {
                assert(rest[e - pos as int] == bytes@[e as int]);
            }
            assert(rest.skip(next - pos as int) =~= bytes@.skip(next as int));
            assert(spec_lines(rest) == seq![rest.take(e - pos as int)] + spec_lines(
                bytes@.skip(next as int),
            ));
            assert(res.deep_view() + spec_lines(bytes@.skip(next as int)) =~~= old_res + spec_lines(
                rest,
            ));
        }
        pos = next;
    }
    proof {
        assert(spec_lines(bytes@.skip(pos as int)) =~= Seq::<Seq<u8>>::empty());
        assert(res.deep_view() =~~= spec_lines(bytes@));
    }
    res
}

} // verus!
