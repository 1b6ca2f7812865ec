//! The compiled, immutable matcher: an ordered sequence of atoms that
//! exactly tiles the source signature.

use vstd::prelude::*;

use crate::atom::{atom_matches, atom_size, le_value, read_le, Atom};

verus! {

/// The total number of haystack bytes a sequence of atoms consumes.
pub open spec fn seq_size(atoms: Seq<Atom>) -> nat
    decreases atoms.len(),
{
    if atoms.len() == 0 {
        0
    } else {
        atom_size(atoms[0]) + seq_size(atoms.drop_first())
    }
}

pub proof fn lemma_seq_size_push(s: Seq<Atom>, a: Atom)
    ensures
        seq_size(s.push(a)) == seq_size(s) + atom_size(a),
    decreases s.len(),
{
    if s.len() == 0 {
        assert(s.push(a).drop_first() =~= Seq::<Atom>::empty());
        assert(s =~= Seq::<Atom>::empty());
    } else {
        assert(s.push(a).drop_first() =~= s.drop_first().push(a));
        lemma_seq_size_push(s.drop_first(), a);
    }
}

pub proof fn lemma_seq_size_singleton(a: Atom)
    ensures
        seq_size(seq![a]) == atom_size(a),
{
    assert(seq![a].drop_first() =~= Seq::<Atom>::empty());
    assert(seq_size(Seq::<Atom>::empty()) == 0);
    assert(seq_size(seq![a]) == atom_size(seq![a][0]) + seq_size(seq![a].drop_first()));
}

/// Concatenating atom sequences adds their total sizes.
pub proof fn lemma_seq_size_concat(a: Seq<Atom>, b: Seq<Atom>)
    ensures
        seq_size(a + b) == seq_size(a) + seq_size(b),
    decreases a.len(),
{
    if a.len() == 0 {
        assert(a + b =~= b);
        assert(a =~= Seq::<Atom>::empty());
    } else {
        assert((a + b).drop_first() =~= a.drop_first() + b);
        assert((a + b)[0] == a[0]);
        lemma_seq_size_concat(a.drop_first(), b);
    }
}

/// Splitting a sequence of atoms splits its total size.
pub proof fn lemma_seq_size_split(s: Seq<Atom>, i: int)
    requires
        0 <= i <= s.len(),
    ensures
        seq_size(s) == seq_size(s.take(i)) + seq_size(s.skip(i)),
    decreases i,
{
    if i == 0 {
        assert(s.take(0) =~= Seq::<Atom>::empty());
        assert(s.skip(0) =~= s);
    } else {
        let t = s.drop_first();
        lemma_seq_size_split(t, i - 1);
        assert(s.take(i).drop_first() =~= t.take(i - 1));
        assert(s.skip(i) =~= t.skip(i - 1));
        assert(s.take(i)[0] == s[0]);
    }
}

/// Whether a sequence of atoms accepts a window, evaluated left to right.
///
/// Each atom consumes exactly its own size of bytes from the front of the
/// window; a fixed-value atom whose decoded bytes differ from its stored
/// value makes the whole evaluation false.  Zero atoms accept vacuously.
pub open spec fn spec_matches(atoms: Seq<Atom>, w: Seq<u8>) -> bool
    decreases atoms.len(),
{
    if atoms.len() == 0 {
        true
    } else {
        atom_matches(atoms[0], w.take(atom_size(atoms[0]) as int)) && spec_matches(
            atoms.drop_first(),
            w.skip(atom_size(atoms[0]) as int),
        )
    }
}

/// The immutable compiled form of a signature.
#[derive(Debug, PartialEq, Eq)]
pub struct Pattern {
    atoms: Vec<Atom>,
}

impl View for Pattern {
    type V = Seq<Atom>;

    closed spec fn view(&self) -> Seq<Atom> {
        self.atoms@
    }
}

impl Clone for Pattern {
    fn clone(&self) -> (r: Self)
        ensures
            r@ == self@,
    {
        let mut atoms: Vec<Atom> = Vec::new();
        let mut i: usize = 0;
        while i < self.atoms.len()
            invariant
                i <= self.atoms@.len(),
                atoms@ == self.atoms@.take(i as int),
            decreases self.atoms@.len() - i,
        {
            atoms.push(self.atoms[i]);
            proof {
                assert(self.atoms@.take(i + 1) =~= self.atoms@.take(i as int).push(
                    self.atoms@[i as int],
                ));
            }
            i = i + 1;
        }
        proof {
            assert(self.atoms@.take(self.atoms@.len() as int) =~= self.atoms@);
        }
        Pattern { atoms }
    }
}

impl Pattern {
    /// A pattern is well formed when its total size fits the machine's
    /// word, so that `size` cannot overflow.  Every pattern built by the
    /// compiler is well formed, since its size equals the signature's
    /// byte length.
    pub open spec fn wf(&self) -> bool {
        seq_size(self@) <= usize::MAX
    }

    /// Wraps an atom sequence as a pattern.
    pub fn new(atoms: Vec<Atom>) -> (p: Self)
        requires
            seq_size(atoms@) <= usize::MAX,
        ensures
            p@ == atoms@,
            p.wf(),
    {
        Self { atoms }
    }

    /// The pattern's total byte length: the sum of all atom sizes.
    pub fn size(&self) -> (n: usize)
        requires
            self.wf(),
        ensures
            n == seq_size(self@),
    {
        let mut n: usize = 0;
        let mut i: usize = 0;
        while i < self.atoms.len()
            invariant
                i <= self.atoms@.len(),
                n == seq_size(self@.take(i as int)),
            decreases self.atoms@.len() - i,
        {
            proof {
                assert(self@.take(i + 1) =~= self@.take(i as int).push(self@[i as int]));
                lemma_seq_size_push(self@.take(i as int), self@[i as int]);
                lemma_seq_size_split(self@, i + 1);
                assert(seq_size(self@.take(i + 1)) <= seq_size(self@));
            }
            n = n + self.atoms[i].size();
            i = i + 1;
        }
        proof {
            assert(self@.take(self.atoms@.len() as int) =~= self@);
        }
        n
    }

    /// Tests a window of exactly the pattern's size against the atoms,
    /// left to right, stopping at the first fixed-value mismatch.
    pub fn is_matching(&self, bytes: &[u8]) -> (m: bool)
        requires
            bytes@.len() == seq_size(self@),
        ensures
            m == spec_matches(self@, bytes@),
    {
        let mut i: usize = 0;
        let mut pos: usize = 0;
        let n = bytes.len();
        proof {
            assert(n == bytes@.len());
            assert(self@.skip(0) =~= self@);
            assert(bytes@.skip(0) =~= bytes@);
        }
        while i < self.atoms.len()
            invariant
                i <= self.atoms@.len(),
                pos == seq_size(self@.take(i as int)),
                pos <= bytes@.len(),
                spec_matches(self@, bytes@) == spec_matches(
                    self@.skip(i as int),
                    bytes@.skip(pos as int),
                ),
            decreases self.atoms@.len() - i,
        {
            let a = self.atoms[i];
            proof {
                lemma_seq_size_split(self@, i as int);
                assert(self@.skip(i as int)[0] == self@[i as int]);
                assert(seq_size(self@.skip(i as int)) == atom_size(a) + seq_size(
                    self@.skip(i as int).drop_first(),
                ));
                assert(pos + atom_size(a) <= bytes@.len());
            }
            let w = a.size();
            let matched: bool = match a {
                Atom::Mask(_) => true,
                Atom::LongLong(x) => read_le(bytes, pos, w) == x,
                Atom::Long(x) => read_le(bytes, pos, w) == x as u64,
                Atom::Short(x) => read_le(bytes, pos, w) == x as u64,
                Atom::Byte(x) => read_le(bytes, pos, w) == x as u64,
            };
            proof {
                assert(bytes@.skip(pos as int).take(w as int) =~= bytes@.subrange(
                    pos as int,
                    pos + w,
                ));
                assert(matched == atom_matches(a, bytes@.skip(pos as int).take(w as int)));
                assert(self@.skip(i as int).drop_first() =~= self@.skip(i + 1));
                assert(bytes@.skip(pos as int).skip(w as int) =~= bytes@.skip(pos + w));
                assert(self@.take(i + 1) =~= self@.take(i as int).push(self@[i as int]));
                lemma_seq_size_push(self@.take(i as int), self@[i as int]);
            }
            if !matched {
                return false;
            }
            pos = pos + w;
            i = i + 1;
        }
        proof {
            assert(self@.skip(self.atoms@.len() as int) =~= Seq::<Atom>::empty());
        }
        true
    }

    /// Compiles a pattern from raw signature bytes plus the offsets of
    /// the wildcarded bytes.  The compiled atoms exactly tile the
    /// signature: their sizes sum to the signature's length.
    pub fn from_bytes(bytes: &[u8], mask_bytes: &[usize]) -> (p: Self)
        ensures
            p@ == crate::compile::spec_compile_from(bytes@, mask_bytes@, 0),
            seq_size(p@) == bytes@.len(),
            p.wf(),
    {
        let atoms = crate::compile::compile(bytes, mask_bytes);
        let n = bytes.len();
        proof {
            assert(n == bytes@.len());
            crate::laws::lemma_compile_size(bytes@, mask_bytes@, 0);
        }
        Pattern::new(atoms)
    }
}

} // verus!
