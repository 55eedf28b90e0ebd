//! Generic pattern splitting: cuts a byte slice at every
//! non-overlapping occurrence of a matcher, greedily from the left,
//! yielding the pieces lazily. Separators are consumed whole and never
//! appear in the yielded pieces; the piece after the last separator is
//! always yielded, even when empty.

use vstd::prelude::*;

use crate::bytes::spec_match_at;
use crate::bytes::spec_starts_with;
use crate::bytes::starts_with;

verus! {

/// What a matcher reports about the head of the unconsumed suffix.
pub enum SliceSplitPredicateResult {
    /// No separator begins here.
    Continue,
    /// A separator of `length` elements begins here.
    Match { length: usize },
}

/// A matcher that recognises separators: given the unconsumed suffix
/// of the input it either matches a separator of some positive length
/// at its head, or does not.
pub trait SliceSplitPredicate: Sized {
    /// The length of the separator recognised at the head of `rest`,
    /// if any. This fixes the matcher's behaviour: `matches` must
    /// agree with it.
    spec fn match_len_spec(&self, rest: Seq<u8>) -> Option<nat>;

    /// Every recognised separator consumes at least one element and
    /// at most the whole suffix.
    proof fn match_len_valid(&self, rest: Seq<u8>)
        ensures
            match self.match_len_spec(rest) {
                Some(l) => 1 <= l <= rest.len(),
                None => true,
            },
    ;

    /// Reports whether a separator begins at the head of `rest`.
    fn matches(&self, rest: &[u8]) -> (r: SliceSplitPredicateResult)
        ensures
            match r {
                SliceSplitPredicateResult::Match { length } => self.match_len_spec(rest@)
                    == Some(length as nat),
                SliceSplitPredicateResult::Continue => self.match_len_spec(rest@) is None,
            },
    ;
}

/// A fixed byte sequence is a matcher: it matches wherever the suffix
/// begins with it. An empty sequence matches nowhere.
impl<'x> SliceSplitPredicate for &'x [u8] {
    open spec fn match_len_spec(&self, rest: Seq<u8>) -> Option<nat> {
        if self@.len() >= 1 && spec_starts_with(rest, self@) {
            Some(self@.len())
        } else {
            None
        }
    }

    proof fn match_len_valid(&self, rest: Seq<u8>) {
    }

    fn matches(&self, rest: &[u8]) -> (r: SliceSplitPredicateResult) {
        if self.len() >= 1 && starts_with(rest, self) {
            SliceSplitPredicateResult::Match { length: self.len() }
        } else {
            SliceSplitPredicateResult::Continue
        }
    }
}

/// Position and length of the first separator that `p` recognises in
/// `s`, scanning left to right.
pub open spec fn pred_first_match<P: SliceSplitPredicate>(p: &P, s: Seq<u8>) -> Option<(int, nat)>
    decreases s.len(),
{
    if p.match_len_spec(s) is Some {
        Some((0int, p.match_len_spec(s)->Some_0))
    } else if s.len() == 0 {
        None
    } else {
        match pred_first_match(p, s.skip(1)) {
            None => None,
            Some(il) => Some((il.0 + 1, il.1)),
        }
    }
}

pub proof fn lemma_pred_first_match<P: SliceSplitPredicate>(p: &P, s: Seq<u8>)
    ensures
        match pred_first_match(p, s) {
            Some(il) => 0 <= il.0 <= s.len() && p.match_len_spec(s.skip(il.0)) == Some(il.1)
                && forall|j: int| 0 <= j < il.0 ==> p.match_len_spec(s.skip(j)) is None,
            None => forall|j: int| 0 <= j <= s.len() ==> p.match_len_spec(s.skip(j)) is None,
        },
    decreases s.len(),
{
    if p.match_len_spec(s) is Some {
        assert(s.skip(0) =~= s);
    } else if s.len() == 0 {
        assert forall|j: int| 0 <= j <= s.len() implies p.match_len_spec(s.skip(j)) is None by {
            assert(s.skip(j) =~= s);
        }
    } else {
        lemma_pred_first_match(p, s.skip(1));
        assert(forall|j: int| 0 <= j <= s.len() - 1 ==> s.skip(1).skip(j) =~= s.skip(j + 1));
        assert(s.skip(0) =~= s);
        match pred_first_match(p, s.skip(1)) {
            None => {
                assert forall|j: int| 0 <= j <= s.len() implies p.match_len_spec(s.skip(j))
                    is None by {
                    if j >= 1 {
                        assert(p.match_len_spec(s.skip(1).skip(j - 1)) is None);
                        assert(s.skip(1).skip(j - 1) =~= s.skip(j));
                    }
                }
            },
            Some(il) => {
                assert(s.skip(1).skip(il.0) =~= s.skip(il.0 + 1));
                assert forall|j: int| 0 <= j < il.0 + 1 implies p.match_len_spec(s.skip(j))
                    is None by {
                    if j >= 1 {
                        assert(p.match_len_spec(s.skip(1).skip(j - 1)) is None);
                        assert(s.skip(1).skip(j - 1) =~= s.skip(j));
                    }
                }
            },
        }
    }
}

pub proof fn lemma_pred_first_match_is<P: SliceSplitPredicate>(p: &P, s: Seq<u8>, i: int, l: nat)
    requires
        0 <= i <= s.len(),
        p.match_len_spec(s.skip(i)) == Some(l),
        forall|j: int| 0 <= j < i ==> p.match_len_spec(s.skip(j)) is None,
    ensures
        pred_first_match(p, s) == Some((i, l)),
{
    lemma_pred_first_match(p, s);
    match pred_first_match(p, s) {
        Some(il) => {
            if il.0 < i {
                assert(p.match_len_spec(s.skip(il.0)) is None);
            }
            if i < il.0 {
                assert(p.match_len_spec(s.skip(i)) is None);
            }
        },
        None => {
            assert(p.match_len_spec(s.skip(i)) is None);
        },
    }
}

/// The pieces of `s` around the separators recognised by `p`,
/// scanning greedily left to right; there is always a final piece,
/// possibly empty, after the last separator.
pub open spec fn spec_split_with<P: SliceSplitPredicate>(p: &P, s: Seq<u8>) -> Seq<Seq<u8>>
    decreases s.len(),
{
    match pred_first_match(p, s) {
        None => seq![s],
        Some(il) => if 1 <= il.0 + il.1 && il.0 + il.1 <= s.len() {
            seq![s.take(il.0)] + spec_split_with(p, s.skip(il.0 + il.1))
        } else {
            seq![s]
        },
    }
}

/// Splits a byte slice at every separator recognised by `predicate`,
/// yielding the pieces lazily through [`SliceSplit::next`].
pub fn slice_split<'a, P: SliceSplitPredicate>(slice: &'a [u8], predicate: P) -> (r: SliceSplit<
    'a,
    P,
>)
    ensures
        r.wf(),
        r.remaining() == spec_split_with(&predicate, slice@),
{
    let r = SliceSplit { index: 0, last_split: 0, done: false, predicate, slice };
    proof {
        assert(r.slice@.skip(0) =~= r.slice@);
    }
    r
}

/// A lazy, finite, non-restartable splitter over a byte slice.
pub struct SliceSplit<'a, P: SliceSplitPredicate> {
    index: usize,
    last_split: usize,
    done: bool,
    predicate: P,
    slice: &'a [u8],
}

impl<'a, P: SliceSplitPredicate> SliceSplit<'a, P> {
    /// The splitter's bookkeeping is consistent: scanning has found no
    /// separator between the last cut and the scan position.
    pub closed spec fn wf(&self) -> bool {
        !self.done ==> {
            &&& self.last_split <= self.slice@.len()
            &&& self.index <= self.slice@.len()
            &&& forall|j: int|
                self.last_split <= j < self.index ==> self.predicate.match_len_spec(
                    self.slice@.skip(j),
                ) is None
        }
    }

    /// The pieces this splitter has yet to yield.
    pub closed spec fn remaining(&self) -> Seq<Seq<u8>> {
        if self.done {
            Seq::empty()
        } else {
            spec_split_with(&self.predicate, self.slice@.skip(self.last_split as int))
        }
    }

    /// Yields the next piece, or `None` once the final piece has been
    /// yielded.
    pub fn next(&mut self) -> (r: Option<&'a [u8]>)
        requires
            old(self).wf(),
        ensures
            final(self).wf(),
            match r {
                Some(part) => old(self).remaining().len() > 0 && part@ == old(self).remaining()[0]
                    && final(self).remaining() == old(self).remaining().skip(1),
                None => old(self).remaining().len() == 0 && final(self).remaining().len() == 0,
            },
    {
        if self.done {
            return None;
        }
        let sl = self.slice;
        loop
            invariant
                !self.done,
                self.wf(),
                self.slice == old(self).slice,
                self.predicate == old(self).predicate,
                self.last_split == old(self).last_split,
                self.done == old(self).done,
                sl == self.slice,
            decreases self.slice@.len() - self.index,
        {
            let ghost s = self.slice@;
            let ghost suffix = s.skip(self.last_split as int);
            if self.index >= sl.len() {
                let part = &sl[self.last_split..sl.len()];
                proof {
                    lemma_pred_first_match(&self.predicate, suffix);
                    self.predicate.match_len_valid(Seq::empty());
                    assert forall|j: int| 0 <= j <= suffix.len() implies self.predicate
                        .match_len_spec(suffix.skip(j)) is None by {
                        assert(suffix.skip(j) =~= s.skip(self.last_split + j));
                        if self.last_split + j == s.len() {
                            assert(s.skip(self.last_split + j) =~= Seq::<u8>::empty());
                        } else {
                            assert(self.last_split <= self.last_split + j < self.index);
                        }
                    }
                    match pred_first_match(&self.predicate, suffix) {
                        Some(il) => {
                            assert(self.predicate.match_len_spec(suffix.skip(il.0)) is None);
                        },
                        None => {},
                    }
                    assert(self.remaining() =~= seq![suffix]);
                    assert(part@ =~= suffix);
                }
                self.done = true;
                proof {
                    assert(self.remaining() =~= old(self).remaining().skip(1));
                }
                return Some(part);
            }
            if self.last_split <= self.index {
                match self.predicate.matches(&sl[self.index..sl.len()]) {
                    SliceSplitPredicateResult::Match { length } => {
                        proof {
                            assert(sl@.subrange(self.index as int, s.len() as int) =~= s.skip(
                                self.index as int,
                            ));
                            self.predicate.match_len_valid(s.skip(self.index as int));
                        }
                        let part = &sl[self.last_split..self.index];
                        let ghost i_rel = self.index - self.last_split;
                        proof {
                            assert forall|j: int| 0 <= j < i_rel implies self.predicate
                                .match_len_spec(suffix.skip(j)) is None by {
                                assert(suffix.skip(j) =~= s.skip(self.last_split + j));
                            }
                            assert(suffix.skip(i_rel) =~= s.skip(self.index as int));
                            lemma_pred_first_match_is(
                                &self.predicate,
                                suffix,
                                i_rel,
                                length as nat,
                            );
                            assert(self.remaining() == seq![suffix.take(i_rel)]
                                + spec_split_with(
                                &self.predicate,
                                suffix.skip(i_rel + length),
                            ));
                            assert(part@ =~= suffix.take(i_rel));
                            assert(suffix.skip(i_rel + length) =~= s.skip(
                                self.index + length,
                            ));
                        }
                        let ghost before = self.remaining();
                        self.last_split = self.index + length;
                        proof {
                            assert(self.remaining() =~= before.skip(1));
                        }
                        return Some(part);
                    },
                    SliceSplitPredicateResult::Continue => {
                        proof {
                            assert(sl@.subrange(self.index as int, s.len() as int) =~= s.skip(
                                self.index as int,
                            ));
                        }
                    },
                }
            }
            self.index += 1;
        }
    }
}


/// Position of the first occurrence of `pat` in `s`; `None` when `pat`
/// is empty or does not occur.
pub open spec fn fixed_first_match(s: Seq<u8>, pat: Seq<u8>) -> Option<int>
    decreases s.len(),
{
    if pat.len() >= 1 && spec_starts_with(s, pat) {
        Some(0int)
    } else if s.len() == 0 {
        None
    } else {
        match fixed_first_match(s.skip(1), pat) {
            None => None,
            Some(i) => Some(i + 1),
        }
    }
}

pub proof fn lemma_fixed_first_match(s: Seq<u8>, pat: Seq<u8>)
    ensures
        match fixed_first_match(s, pat) {
            Some(i) => pat.len() >= 1 && spec_match_at(s, pat, i) && forall|j: int|
                0 <= j < i ==> !spec_match_at(s, pat, j),
            None => pat.len() == 0 || forall|j: int| !spec_match_at(s, pat, j),
        },
    decreases s.len(),
{
    if pat.len() >= 1 && spec_starts_with(s, pat) {
    } else if s.len() == 0 {
        if pat.len() >= 1 {
            assert forall|j: int| !spec_match_at(s, pat, j) by {
                if 0 <= j && j + pat.len() <= s.len() {
                }
            }
        }
    } else {
        lemma_fixed_first_match(s.skip(1), pat);
        assert forall|j: int|
            1 <= j && j + pat.len() <= s.len() implies (spec_match_at(s, pat, j) == spec_match_at(
            s.skip(1),
            pat,
            j - 1,
        )) by {
            assert(s.skip(1).subrange(j - 1, j - 1 + pat.len() as int) =~= s.subrange(
                j,
                j + pat.len() as int,
            ));
        }
        match fixed_first_match(s.skip(1), pat) {
            None => {
                if pat.len() >= 1 {
                    assert forall|j: int| !spec_match_at(s, pat, j) by {
                        if 0 <= j && j + pat.len() <= s.len() {
                            if j == 0 {
                                assert(s.subrange(0, pat.len() as int) != pat);
                            } else {
                                assert(!spec_match_at(s.skip(1), pat, j - 1));
                            }
                        }
                    }
                }
            },
            Some(i) => {
                assert(spec_match_at(s.skip(1), pat, i));
                assert(spec_match_at(s, pat, i + 1));
                assert forall|j: int| 0 <= j < i + 1 implies !spec_match_at(s, pat, j) by {
                    if j == 0 {
                        if spec_match_at(s, pat, 0) {
                            assert(spec_starts_with(s, pat));
                        }
                    } else {
                        assert(!spec_match_at(s.skip(1), pat, j - 1));
                    }
                }
            },
        }
    }
}

/// The pieces of `s` around every non-overlapping occurrence of `pat`,
/// scanning greedily left to right. An empty `pat` never matches, so
/// the whole input is then a single piece.
pub open spec fn spec_split_fixed(s: Seq<u8>, pat: Seq<u8>) -> Seq<Seq<u8>>
    decreases s.len(),
    via spec_split_fixed_dec
{
    match fixed_first_match(s, pat) {
        None => seq![s],
        Some(i) => seq![s.take(i)] + spec_split_fixed(s.skip(i + pat.len()), pat),
    }
}

#[via_fn]
proof fn spec_split_fixed_dec(s: Seq<u8>, pat: Seq<u8>) {
    lemma_fixed_first_match(s, pat);
}

/// The generic splitter driven by a fixed byte-sequence matcher cuts
/// exactly at the occurrences of that sequence.
pub proof fn lemma_pred_match_fixed(p: &[u8], s: Seq<u8>)
    ensures
        pred_first_match(&p, s) == match fixed_first_match(s, p@) {
            None => None::<(int, nat)>,
            Some(i) => Some((i, p@.len() as nat)),
        },
    decreases s.len(),
{
    if p.match_len_spec(s) is Some {
    } else if s.len() == 0 {
    } else {
        lemma_pred_match_fixed(p, s.skip(1));
    }
}

pub proof fn lemma_split_with_fixed(p: &[u8], s: Seq<u8>)
    ensures
        spec_split_with(&p, s) == spec_split_fixed(s, p@),
    decreases s.len(),
{
    lemma_pred_match_fixed(p, s);
    lemma_fixed_first_match(s, p@);
    match fixed_first_match(s, p@) {
        None => {},
        Some(i) => {
            lemma_split_with_fixed(p, s.skip(i + p@.len()));
        },
    }
}

/// `parts` joined with `sep` between consecutive parts.
pub open spec fn spec_join_with(parts: Seq<Seq<u8>>, sep: Seq<u8>) -> Seq<u8>
    decreases parts.len(),
{
    if parts.len() == 0 {
        Seq::empty()
    } else if parts.len() == 1 {
        parts[0]
    } else {
        parts[0] + sep + spec_join_with(parts.skip(1), sep)
    }
}

/// Splitting on a non-empty separator loses nothing: joining the
/// pieces back with the separator reconstructs the input exactly.
pub proof fn lemma_split_fixed_reconstruct(s: Seq<u8>, pat: Seq<u8>)
    requires
        pat.len() >= 1,
    ensures
        spec_join_with(spec_split_fixed(s, pat), pat) == s,
    decreases s.len(),
{
    lemma_fixed_first_match(s, pat);
    match fixed_first_match(s, pat) {
        None => {},
        Some(i) => {
            lemma_split_fixed_reconstruct(s.skip(i + pat.len()), pat);
            let rest = spec_split_fixed(s.skip(i + pat.len()), pat);
            let parts = seq![s.take(i)] + rest;
            assert(rest.len() >= 1);
            assert(parts.len() >= 2);
            assert(parts.skip(1) =~= rest);
            assert(spec_join_with(parts, pat) == s.take(i) + pat + spec_join_with(rest, pat));
            assert(s.subrange(i, i + pat.len() as int) == pat);
            assert(s.take(i) + pat + s.skip(i + pat.len()) =~= s);
        },
    }
}

} // verus!

verus! {

/// The separators that `p` recognises in `s`, in the order the
/// splitter consumes them.
pub open spec fn spec_seps_with<P: SliceSplitPredicate>(p: &P, s: Seq<u8>) -> Seq<Seq<u8>>
    decreases s.len(),
{
    match pred_first_match(p, s) {
        None => Seq::empty(),
        Some(il) => if 1 <= il.0 + il.1 && il.0 + il.1 <= s.len() {
            seq![s.subrange(il.0, il.0 + il.1)] + spec_seps_with(p, s.skip(il.0 + il.1))
        } else {
            Seq::empty()
        },
    }
}

/// `parts` interleaved with `seps`: the first part, then alternately a
/// separator and the next part.
pub open spec fn spec_interleave(parts: Seq<Seq<u8>>, seps: Seq<Seq<u8>>) -> Seq<u8>
    decreases parts.len(),
{
    if parts.len() == 0 {
        Seq::empty()
    } else if parts.len() == 1 {
        parts[0]
    } else {
        parts[0] + (if seps.len() > 0 {
            seps[0]
        } else {
            Seq::<u8>::empty()
        }) + spec_interleave(parts.skip(1), seps.skip(1))
    }
}

/// Splitting loses nothing, whatever the matcher: there is one more
/// piece than there are separators, and interleaving the pieces with
/// the consumed separators reconstructs the input exactly.
pub proof fn lemma_split_with_reconstruct<P: SliceSplitPredicate>(p: &P, s: Seq<u8>)
    ensures
        ({
            let parts = spec_split_with(p, s);
            let seps = spec_seps_with(p, s);
            &&& parts.len() == seps.len() + 1
            &&& spec_interleave(parts, seps) == s
        }),
    decreases s.len(),
{
    lemma_pred_first_match(p, s);
    match pred_first_match(p, s) {
        None => {},
        Some(il) => {
            let (i, l) = il;
            p.match_len_valid(s.skip(i));
            assert(1 <= i + l && i + l <= s.len());
            lemma_split_with_reconstruct(p, s.skip(i + l));
            let parts = spec_split_with(p, s);
            let seps = spec_seps_with(p, s);
            let parts_rest = spec_split_with(p, s.skip(i + l));
            let seps_rest = spec_seps_with(p, s.skip(i + l));
            assert(parts == seq![s.take(i)] + parts_rest);
            assert(seps == seq![s.subrange(i, i + l)] + seps_rest);
            assert(parts.len() >= 2);
            assert(parts.skip(1) =~= parts_rest);
            assert(seps.skip(1) =~= seps_rest);
            assert(parts[0] == s.take(i));
            assert(seps[0] == s.subrange(i, i + l));
            assert(spec_interleave(parts, seps) == s.take(i) + s.subrange(i, i + l)
                + spec_interleave(parts_rest, seps_rest));
            assert(s.take(i) + s.subrange(i, i + l) + s.skip(i + l) =~= s);
        },
    }
}

} // verus!
