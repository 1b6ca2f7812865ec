//! The scanner: a single-pass cursor that slides a pattern-sized window
//! across a haystack and yields every matching offset in increasing
//! order.
//!
//! The cursor advances by exactly one byte per candidate window, so
//! overlapping matches are all reported.  A zero-size pattern matches
//! the empty window at every offset from `0` to the haystack length
//! inclusive, yielding `haystack.len() + 1` offsets.

use vstd::prelude::*;

use crate::atom::Atom;
use crate::pattern::{seq_size, spec_matches, Pattern};

verus! {

/// Whether the atoms match the window of the haystack that starts at
/// offset `o`; false when no full window fits there.  The scanner's
/// output is exactly the set of offsets satisfying this predicate: the
/// brute-force description it is proved equivalent to.
pub open spec fn is_match_at(atoms: Seq<Atom>, hay: Seq<u8>, o: int) -> bool {
    &&& 0 <= o
    &&& o + seq_size(atoms) <= hay.len()
    &&& spec_matches(atoms, hay.subrange(o, o + seq_size(atoms)))
}

/// A forward-only cursor over a haystack.  It does not copy the
/// haystack, and once exhausted it stays exhausted.
pub struct Scanner<'a> {
    pattern: Pattern,
    bytes: &'a [u8],
    cursor: usize,
}

impl<'a> Scanner<'a> {
    /// The atoms of the pattern being scanned for.
    pub closed spec fn atoms(&self) -> Seq<Atom> {
        self.pattern@
    }

    /// The haystack being scanned.
    pub closed spec fn haystack(&self) -> Seq<u8> {
        self.bytes@
    }

    /// The next candidate offset: all smaller offsets have already been
    /// examined.
    pub closed spec fn cursor(&self) -> int {
        self.cursor as int
    }

    pub open spec fn wf(&self) -> bool {
        &&& seq_size(self.atoms()) <= usize::MAX
        &&& self.haystack().len() < usize::MAX
        &&& self.cursor() <= self.haystack().len() + 1
    }

    /// Starts a scan of `bytes` at offset 0.
    pub fn new(pattern: Pattern, bytes: &'a [u8]) -> (s: Self)
        requires
            pattern.wf(),
            bytes@.len() < usize::MAX,
        ensures
            s.atoms() == pattern@,
            s.haystack() == bytes@,
            s.cursor() == 0,
            s.wf(),
    {
        Scanner { pattern, bytes, cursor: 0 }
    }

    /// Yields the next matching offset at or after the cursor, together
    /// with the matched window, and leaves the cursor one past it; or
    /// yields nothing when no offset at or after the cursor matches.
    pub fn next(&mut self) -> (r: Option<(usize, &'a [u8])>)
        requires
            old(self).wf(),
        ensures
            final(self).wf(),
            final(self).atoms() == old(self).atoms(),
            final(self).haystack() == old(self).haystack(),
            old(self).cursor() <= final(self).cursor(),
            match r {
                Some(t) => {
                    &&& old(self).cursor() <= t.0
                    &&& is_match_at(old(self).atoms(), old(self).haystack(), t.0 as int)
                    &&& forall|o: int|
                        old(self).cursor() <= o < t.0 ==> !is_match_at(
                            old(self).atoms(),
                            old(self).haystack(),
                            o,
                        )
                    &&& final(self).cursor() == t.0 + 1
                    &&& t.1@ == old(self).haystack().subrange(
                        t.0 as int,
                        t.0 + seq_size(old(self).atoms()),
                    )
                },
                None => forall|o: int|
                    old(self).cursor() <= o ==> !is_match_at(
                        old(self).atoms(),
                        old(self).haystack(),
                        o,
                    ),
            },
    {
        let ghost c0 = self.cursor();
        let ghost pat = self.atoms();
        let ghost hay = self.haystack();
        let size = self.pattern.size();
        let n = self.bytes.len();
        if size > n {
            proof {
                assert forall|o: int| c0 <= o implies !is_match_at(pat, hay, o) by {
                    assert(o + seq_size(pat) > n);
                }
            }
            return None;
        }
        let mut cur = self.cursor;
        while cur <= n - size
            invariant
                self.atoms() == pat,
                self.haystack() == hay,
                c0 <= cur,
                size == seq_size(pat),
                n == hay.len(),
                size <= n,
                cur <= n + 1,
                self.cursor == cur,
                forall|o: int| c0 <= o < cur ==> !is_match_at(pat, hay, o),
            decreases n + 1 - cur,
        {
            let pos = cur;
            let w = vstd::slice::slice_subrange(self.bytes, pos, pos + size);
            let m = self.pattern.is_matching(w);
            cur = pos + 1;
            self.cursor = cur;
            proof {
                assert(w@ == hay.subrange(pos as int, pos + seq_size(pat)));
            }
            if m {
                return Some((pos, w));
            }
            proof {
                assert(!is_match_at(pat, hay, pos as int));
            }
        }
        proof {
            assert forall|o: int| c0 <= o implies !is_match_at(pat, hay, o) by {
                if o >= cur {
                    assert(o + seq_size(pat) > n);
                }
            }
        }
        None
    }

    /// Drives the scan to exhaustion and returns every matching offset
    /// at or after the cursor, in strictly increasing order.
    ///
    /// The result is exactly the set of offsets a brute-force check of
    /// every candidate window would accept: every returned offset
    /// matches, every matching offset is returned, and the offsets are
    /// strictly increasing.
    pub fn collect_offsets(&mut self) -> (r: Vec<usize>)
        requires
            old(self).wf(),
        ensures
            final(self).wf(),
            forall|j: int|
                0 <= j < r@.len() ==> old(self).cursor() <= r@[j] && is_match_at(
                    old(self).atoms(),
                    old(self).haystack(),
                    r@[j] as int,
                ),
            forall|o: int|
                old(self).cursor() <= o && is_match_at(old(self).atoms(), old(self).haystack(), o)
                    ==> exists|j: int| 0 <= j < r@.len() && r@[j] == o,
            forall|j: int| 0 <= j && j + 1 < r@.len() ==> r@[j] < #[trigger] r@[j + 1],
    {
        let ghost c0 = self.cursor();
        let ghost pat = self.atoms();
        let ghost hay = self.haystack();
        let mut r: Vec<usize> = Vec::new();
        let n = self.bytes.len();
        let mut done = false;
        while !done
            invariant
                self.wf(),
                self.atoms() == pat,
                self.haystack() == hay,
                n == hay.len(),
                c0 <= self.cursor(),
                forall|j: int|
                    0 <= j < r@.len() ==> c0 <= r@[j] && r@[j] < self.cursor() && is_match_at(
                        pat,
                        hay,
                        r@[j] as int,
                    ),
                forall|o: int|
                    c0 <= o < self.cursor() && is_match_at(pat, hay, o) ==> exists|j: int|
                        0 <= j < r@.len() && r@[j] == o,
                forall|j: int| 0 <= j && j + 1 < r@.len() ==> r@[j] < #[trigger] r@[j + 1],
                done ==> forall|o: int| self.cursor() <= o ==> !is_match_at(pat, hay, o),
            decreases (if done { 0int } else { 1int }), n + 1 - self.cursor(),
        {
            let ghost pre = r@;
            let ghost cpre = self.cursor();
            let m = self.next();
            match m {
                Some(t) => {
                    let o = t.0;
                    r.push(o);
                    proof {
                        assert forall|j: int| 0 <= j && j + 1 < r@.len() implies r@[j]
                            < #[trigger] r@[j + 1] by {
                            if j + 1 < r@.len() - 1 {
                                assert(r@[j] == pre[j] && r@[j + 1] == pre[j + 1]);
                            } else {
                                assert(r@[j] == pre[j]);
                                assert(pre[j] < cpre);
                                assert(r@[j + 1] == o);
                            }
                        }
                        assert forall|o2: int|
                            c0 <= o2 < self.cursor() && is_match_at(pat, hay, o2) implies exists|
                            j: int,
                        |
                            0 <= j < r@.len() && r@[j] == o2 by {
                            if o2 == o {
                                assert(r@[r@.len() - 1] == o);
                            } else if o2 < o {
                                assert(exists|j: int| 0 <= j < pre.len() && pre[j] == o2);
                                let j = choose|j: int| 0 <= j < pre.len() && pre[j] == o2;
                                assert(r@[j] == o2);
                            }
                        }
                    }
                },
                None => {
                    done = true;
                },
            }
        }
        r
    }
}

impl Pattern {
    /// Starts a scan of `bytes` for this pattern, leaving the pattern
    /// itself reusable.
    pub fn scan<'a>(&self, bytes: &'a [u8]) -> (s: Scanner<'a>)
        requires
            self.wf(),
            bytes@.len() < usize::MAX,
        ensures
            s.atoms() == self@,
            s.haystack() == bytes@,
            s.cursor() == 0,
            s.wf(),
    {
        Scanner::new(self.clone(), bytes)
    }
}

} // verus!
