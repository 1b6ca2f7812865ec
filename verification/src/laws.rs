//! Properties of the compiler, proved once and for all signatures: the
//! compiled atoms tile the signature exactly, a pattern always matches
//! the bytes it was compiled from, compilation is deterministic, and a
//! wildcard run of any length stays one atom.

use vstd::prelude::*;

use crate::atom::{atom_matches, atom_size, le_value, lemma_le_value_bound, pow256, Atom};
use crate::compile::{masked_at, run_end, spec_compile_from, spec_literal_atoms};
use crate::compile::lemma_run_end;
use crate::pattern::{lemma_seq_size_concat, lemma_seq_size_singleton, seq_size, spec_matches};

verus! {

/// The atoms of one literal run consume exactly the run's bytes.
pub proof fn lemma_literal_atoms_size(seg: Seq<u8>)
    ensures
        seq_size(spec_literal_atoms(seg)) == seg.len(),
    decreases seg.len(),
{
    if seg.len() >= 8 {
        lemma_literal_atoms_size(seg.skip(8));
        lemma_seq_size_concat(
            seq![Atom::LongLong(le_value(seg.take(8)) as u64)],
            spec_literal_atoms(seg.skip(8)),
        );
        lemma_seq_size_singleton(Atom::LongLong(le_value(seg.take(8)) as u64));
    } else if seg.len() >= 4 {
        lemma_literal_atoms_size(seg.skip(4));
        lemma_seq_size_concat(
            seq![Atom::Long(le_value(seg.take(4)) as u32)],
            spec_literal_atoms(seg.skip(4)),
        );
        lemma_seq_size_singleton(Atom::Long(le_value(seg.take(4)) as u32));
    } else if seg.len() >= 2 {
        lemma_literal_atoms_size(seg.skip(2));
        lemma_seq_size_concat(
            seq![Atom::Short(le_value(seg.take(2)) as u16)],
            spec_literal_atoms(seg.skip(2)),
        );
        lemma_seq_size_singleton(Atom::Short(le_value(seg.take(2)) as u16));
    } else if seg.len() == 1 {
        lemma_seq_size_singleton(Atom::Byte(seg[0]));
    }
}

/// Tiling: the compiled atoms of a signature consume exactly the
/// signature's bytes, so a compiled pattern's size equals the
/// signature's length.
pub proof fn lemma_compile_size(bytes: Seq<u8>, mask: Seq<usize>, start: int)
    requires
        0 <= start <= bytes.len(),
        bytes.len() <= usize::MAX,
    ensures
        seq_size(spec_compile_from(bytes, mask, start)) == bytes.len() - start,
    decreases bytes.len() - start,
{
    if start < bytes.len() {
        let e = run_end(bytes, mask, start);
        lemma_run_end(bytes, mask, start);
        lemma_compile_size(bytes, mask, e);
        if masked_at(mask, start) {
            lemma_seq_size_concat(
                seq![Atom::Mask((e - start) as usize)],
                spec_compile_from(bytes, mask, e),
            );
            lemma_seq_size_singleton(Atom::Mask((e - start) as usize));
        } else {
            lemma_literal_atoms_size(bytes.subrange(start, e));
            lemma_seq_size_concat(
                spec_literal_atoms(bytes.subrange(start, e)),
                spec_compile_from(bytes, mask, e),
            );
        }
    }
}

/// The atoms of a literal run accept the run's own bytes, whatever
/// window follows them.
proof fn lemma_literal_matches_self(seg: Seq<u8>, rest_a: Seq<Atom>, rest_b: Seq<u8>)
    requires
        spec_matches(rest_a, rest_b),
    ensures
        spec_matches(spec_literal_atoms(seg) + rest_a, seg + rest_b),
    decreases seg.len(),
{
    reveal_with_fuel(pow256, 9);
    let atoms = spec_literal_atoms(seg) + rest_a;
    if seg.len() >= 8 {
        lemma_le_value_bound(seg.take(8));
        assert(atoms[0] == Atom::LongLong(le_value(seg.take(8)) as u64));
        assert((seg + rest_b).take(8) =~= seg.take(8));
        assert(atom_matches(atoms[0], (seg + rest_b).take(8)));
        assert(atoms.drop_first() =~= spec_literal_atoms(seg.skip(8)) + rest_a);
        assert((seg + rest_b).skip(8) =~= seg.skip(8) + rest_b);
        lemma_literal_matches_self(seg.skip(8), rest_a, rest_b);
    } else if seg.len() >= 4 {
        lemma_le_value_bound(seg.take(4));
        assert(atoms[0] == Atom::Long(le_value(seg.take(4)) as u32));
        assert((seg + rest_b).take(4) =~= seg.take(4));
        assert(atom_matches(atoms[0], (seg + rest_b).take(4)));
        assert(atoms.drop_first() =~= spec_literal_atoms(seg.skip(4)) + rest_a);
        assert((seg + rest_b).skip(4) =~= seg.skip(4) + rest_b);
        lemma_literal_matches_self(seg.skip(4), rest_a, rest_b);
    } else if seg.len() >= 2 {
        lemma_le_value_bound(seg.take(2));
        assert(atoms[0] == Atom::Short(le_value(seg.take(2)) as u16));
        assert((seg + rest_b).take(2) =~= seg.take(2));
        assert(atom_matches(atoms[0], (seg + rest_b).take(2)));
        assert(atoms.drop_first() =~= spec_literal_atoms(seg.skip(2)) + rest_a);
        assert((seg + rest_b).skip(2) =~= seg.skip(2) + rest_b);
        lemma_literal_matches_self(seg.skip(2), rest_a, rest_b);
    } else if seg.len() == 1 {
        assert(atoms[0] == Atom::Byte(seg[0]));
        assert((seg + rest_b).take(1) =~= seq![seg[0]]);
        crate::atom::lemma_le_value_singleton(seg[0]);
        assert(atom_matches(atoms[0], (seg + rest_b).take(1)));
        assert(atoms.drop_first() =~= rest_a);
        assert((seg + rest_b).skip(1) =~= rest_b);
    } else {
        assert(atoms =~= rest_a);
        assert(seg + rest_b =~= rest_b);
    }
}

proof fn lemma_compile_matches_self_from(bytes: Seq<u8>, mask: Seq<usize>, start: int)
    requires
        0 <= start,
        bytes.len() <= usize::MAX,
    ensures
        spec_matches(spec_compile_from(bytes, mask, start), bytes.skip(start)),
    decreases bytes.len() - start,
{
    if start < bytes.len() {
        let e = run_end(bytes, mask, start);
        lemma_run_end(bytes, mask, start);
        lemma_compile_matches_self_from(bytes, mask, e);
        let atoms = spec_compile_from(bytes, mask, start);
        if masked_at(mask, start) {
            let l = (e - start) as usize;
            assert(atoms[0] == Atom::Mask(l));
            assert(atom_size(atoms[0]) == e - start);
            assert(atoms.drop_first() =~= spec_compile_from(bytes, mask, e));
            assert(bytes.skip(start).skip(e - start) =~= bytes.skip(e));
        } else {
            assert(bytes.skip(start) =~= bytes.subrange(start, e) + bytes.skip(e));
            lemma_literal_matches_self(
                bytes.subrange(start, e),
                spec_compile_from(bytes, mask, e),
                bytes.skip(e),
            );
        }
    }
}

/// A pattern matches its own origin bytes: testing the compiled atoms
/// against the very signature bytes they came from always succeeds,
/// whichever offsets were wildcarded.
pub proof fn lemma_pattern_matches_own_bytes(bytes: Seq<u8>, mask: Seq<usize>)
    requires
        bytes.len() <= usize::MAX,
    ensures
        spec_matches(spec_compile_from(bytes, mask, 0), bytes),
{
    lemma_compile_matches_self_from(bytes, mask, 0);
    assert(bytes.skip(0) =~= bytes);
}

/// Determinism: compilation is a function of the signature bytes and
/// the wildcard-offset set alone, so compiling equal inputs twice gives
/// equal atom sequences.  `Pattern::from_bytes` returns exactly this
/// sequence.
pub proof fn lemma_compile_deterministic(
    bytes1: Seq<u8>,
    mask1: Seq<usize>,
    bytes2: Seq<u8>,
    mask2: Seq<usize>,
)
    requires
        bytes1 == bytes2,
        mask1 == mask2,
    ensures
        spec_compile_from(bytes1, mask1, 0) == spec_compile_from(bytes2, mask2, 0),
{
}

/// A wildcard run is never subdivided, whatever its length: at the start
/// of a maximal wildcard run the compiled sequence continues with exactly
/// one `Mask` atom that covers the entire run, and the rest of the
/// compilation starts after the run.
pub proof fn lemma_wildcard_run_one_atom(bytes: Seq<u8>, mask: Seq<usize>, start: int)
    requires
        0 <= start < bytes.len(),
        masked_at(mask, start),
    ensures
        ({
            let e = run_end(bytes, mask, start);
            &&& start < e <= bytes.len()
            &&& spec_compile_from(bytes, mask, start) == seq![
                Atom::Mask((e - start) as usize),
            ] + spec_compile_from(bytes, mask, e)
            &&& forall|j: int| start <= j < e ==> masked_at(mask, j)
            &&& (e == bytes.len() || !masked_at(mask, e))
        }),
{
    lemma_run_end(bytes, mask, start);
}

} // verus!
