//! The compiled unit of a pattern: a fixed-value word comparison or a
//! wildcard skip.

use vstd::prelude::*;

verus! {

/// One compiled unit of a pattern.
///
/// A fixed-value atom stores 8, 4, 2 or 1 consecutive signature bytes
/// decoded as an unsigned little-endian integer; matching compares the
/// decoded window bytes against the stored value.  A `Mask` atom stands
/// for a run of wildcard bytes of the given length; matching skips them
/// without inspection.
#[derive(Clone, Copy, Debug, PartialEq, Eq, Structural)]
pub enum Atom {
    LongLong(u64),
    Long(u32),
    Short(u16),
    Byte(u8),
    Mask(usize),
}

/// The number of haystack bytes an atom consumes.
pub open spec fn atom_size(a: Atom) -> nat {
    match a {
        Atom::LongLong(_) => 8,
        Atom::Long(_) => 4,
        Atom::Short(_) => 2,
        Atom::Byte(_) => 1,
        Atom::Mask(len) => len as nat,
    }
}

/// The unsigned integer value of a byte sequence read little-endian:
/// the first byte is the least significant.
pub open spec fn le_value(s: Seq<u8>) -> nat
    decreases s.len(),
{
    if s.len() == 0 {
        0
    } else {
        (s[0] + 256 * le_value(s.drop_first())) as nat
    }
}

/// An upper bound for `le_value`: `n` bytes decode to less than `256^n`.
pub proof fn lemma_le_value_bound(s: Seq<u8>)
    ensures
        le_value(s) < pow256(s.len()),
    decreases s.len(),
{
    if s.len() == 0 {
    } else {
        lemma_le_value_bound(s.drop_first());
    }
}

/// `256^n`, the number of values of an `n`-byte little-endian integer.
pub open spec fn pow256(n: nat) -> nat
    decreases n,
{
    if n == 0 {
        1
    } else {
        256 * pow256((n - 1) as nat)
    }
}

/// A single byte decodes to itself.
pub proof fn lemma_le_value_singleton(b: u8)
    ensures
        le_value(seq![b]) == b,
{
    assert(seq![b].drop_first() =~= Seq::<u8>::empty());
    assert(le_value(Seq::<u8>::empty()) == 0);
    assert(le_value(seq![b]) == b + 256 * le_value(seq![b].drop_first()));
}

pub proof fn lemma_pow256_mono(a: nat, b: nat)
    requires
        a <= b,
    ensures
        pow256(a) <= pow256(b),
    decreases b,
{
    if a < b {
        lemma_pow256_mono(a, (b - 1) as nat);
        assert(pow256(b) == 256 * pow256((b - 1) as nat));
    }
}

/// Reads `w` bytes of `s` starting at `pos` as an unsigned little-endian
/// integer.
pub fn read_le(s: &[u8], pos: usize, w: usize) -> (v: u64)
    requires
        w <= 8,
        pos + w <= s@.len(),
    ensures
        v == le_value(s@.subrange(pos as int, pos + w)),
{
    let mut v: u64 = 0;
    let mut j: usize = w;
    let n = s.len();
    proof {
        assert(n == s@.len());
        assert(s@.subrange(pos + w, pos + w) =~= Seq::<u8>::empty());
    }
    while j > 0
        invariant
            j <= w,
            w <= 8,
            pos + w <= s@.len(),
            v == le_value(s@.subrange(pos + j, pos + w)),
            v < pow256((w - j) as nat),
        decreases j,
    {
        j = j - 1;
        let b = *vstd::slice::slice_index_get(s, pos + j);
        proof {
            assert(s@.subrange(pos + j, pos + w).drop_first() =~= s@.subrange(
                pos + j + 1,
                pos + w,
            ));
            assert(le_value(s@.subrange(pos + j, pos + w)) == b + 256 * le_value(
                s@.subrange(pos + j + 1, pos + w),
            ));
            assert(v * 256 + b < 256 * pow256((w - j - 1) as nat));
            assert(256 * pow256((w - j - 1) as nat) == pow256((w - j) as nat));
            lemma_pow256_mono((w - j) as nat, 8);
            reveal_with_fuel(pow256, 9);
            assert(pow256(8) == 0x1_0000_0000_0000_0000);
        }
        v = v * 256 + (b as u64);
    }
    v
}


/// Whether an atom accepts a window slice of exactly its own size.
///
/// Fixed-value atoms compare the little-endian decoding of the bytes to
/// the stored value; a wildcard accepts anything.
pub open spec fn atom_matches(a: Atom, w: Seq<u8>) -> bool {
    match a {
        Atom::LongLong(v) => le_value(w) == v,
        Atom::Long(v) => le_value(w) == v,
        Atom::Short(v) => le_value(w) == v,
        Atom::Byte(v) => le_value(w) == v,
        Atom::Mask(_) => true,
    }
}

impl Atom {
    /// The number of haystack bytes this atom consumes when matching.
    pub fn size(&self) -> (n: usize)
        ensures
            n == atom_size(*self),
    {
        match self {
            Atom::LongLong(_) => 8,
            Atom::Long(_) => 4,
            Atom::Short(_) => 2,
            Atom::Byte(_) => 1,
            Atom::Mask(len) => *len,
        }
    }
}

} // verus!
