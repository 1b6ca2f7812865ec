//! The atom compiler: partitions a signature into maximal runs of
//! wildcard and literal bytes, collapses each wildcard run into a single
//! skip atom, and chunks each literal run greedily into 8-, 4-, 2- and
//! 1-byte little-endian comparison atoms.

use vstd::prelude::*;

use itertools::Itertools;

use crate::atom::{le_value, lemma_le_value_bound, pow256, read_le, Atom};

verus! {

/// Whether byte offset `i` of the signature is wildcarded, i.e. listed
/// in the wildcard-offset set `mask`.
pub open spec fn masked_at(mask: Seq<usize>, i: int) -> bool {
    exists|k: int| 0 <= k < mask.len() && mask[k] == i
}

/// The end (exclusive) of the maximal run of equally classified bytes
/// that contains offset `start`: every offset in `start..run_end` has the
/// same wildcard classification as `start`, and the run cannot be
/// extended to the right.
pub open spec fn run_end(bytes: Seq<u8>, mask: Seq<usize>, start: int) -> int
    decreases bytes.len() - start,
{
    if start + 1 >= bytes.len() {
        bytes.len() as int
    } else if masked_at(mask, start + 1) == masked_at(mask, start) {
        run_end(bytes, mask, start + 1)
    } else {
        start + 1
    }
}

pub proof fn lemma_run_end(bytes: Seq<u8>, mask: Seq<usize>, start: int)
    requires
        0 <= start < bytes.len(),
    ensures
        start < run_end(bytes, mask, start) <= bytes.len(),
        forall|j: int|
            start <= j < run_end(bytes, mask, start) ==> masked_at(mask, j) == masked_at(
                mask,
                start,
            ),
        run_end(bytes, mask, start) == bytes.len() || masked_at(
            mask,
            run_end(bytes, mask, start),
        ) != masked_at(mask, start),
    decreases bytes.len() - start,
{
    if start + 1 >= bytes.len() {
    } else if masked_at(mask, start + 1) == masked_at(mask, start) {
        lemma_run_end(bytes, mask, start + 1);
    }
}

/// The runs of a signature from offset `start` on: each element pairs a
/// wildcard classification with the maximal run of bytes so classified.
pub(crate) open spec fn spec_runs_from(bytes: Seq<u8>, mask: Seq<usize>, start: int) -> Seq<
    (bool, Seq<u8>),
>
    decreases bytes.len() - start,
    via spec_runs_from_dec
{
    if 0 <= start < bytes.len() {
        seq![(masked_at(mask, start), bytes.subrange(start, run_end(bytes, mask, start)))]
            + spec_runs_from(bytes, mask, run_end(bytes, mask, start))
    } else {
        Seq::empty()
    }
}

#[via_fn]
proof fn spec_runs_from_dec(bytes: Seq<u8>, mask: Seq<usize>, start: int) {
    if 0 <= start < bytes.len() {
        lemma_run_end(bytes, mask, start);
    }
}

/// The atoms of one literal run: greedily take the widest of 8, 4, 2 or
/// 1 bytes that still fits, decoding each chunk little-endian.
pub open spec fn spec_literal_atoms(seg: Seq<u8>) -> Seq<Atom>
    decreases seg.len(),
{
    if seg.len() >= 8 {
        seq![Atom::LongLong(le_value(seg.take(8)) as u64)] + spec_literal_atoms(seg.skip(8))
    } else if seg.len() >= 4 {
        seq![Atom::Long(le_value(seg.take(4)) as u32)] + spec_literal_atoms(seg.skip(4))
    } else if seg.len() >= 2 {
        seq![Atom::Short(le_value(seg.take(2)) as u16)] + spec_literal_atoms(seg.skip(2))
    } else if seg.len() == 1 {
        seq![Atom::Byte(seg[0])]
    } else {
        Seq::empty()
    }
}

/// The compiled atoms of a signature from offset `start` on: one `Mask`
/// atom per wildcard run, the greedy word chunking for each literal run.
pub open spec fn spec_compile_from(bytes: Seq<u8>, mask: Seq<usize>, start: int) -> Seq<Atom>
    decreases bytes.len() - start,
    via spec_compile_from_dec
{
    if 0 <= start < bytes.len() {
        let e = run_end(bytes, mask, start);
        (if masked_at(mask, start) {
            seq![Atom::Mask((e - start) as usize)]
        } else {
            spec_literal_atoms(bytes.subrange(start, e))
        }) + spec_compile_from(bytes, mask, e)
    } else {
        Seq::empty()
    }
}

#[via_fn]
proof fn spec_compile_from_dec(bytes: Seq<u8>, mask: Seq<usize>, start: int) {
    if 0 <= start < bytes.len() {
        lemma_run_end(bytes, mask, start);
    }
}

/// One maximal run of equally classified signature bytes.
struct Run {
    masked: bool,
    bytes: Vec<u8>,
}

/// Whether `i` occurs in the wildcard-offset list.
fn mask_has(mask: &[usize], i: usize) -> (r: bool)
    ensures
        r == masked_at(mask@, i as int),
{
    let mut k: usize = 0;
    let n = mask.len();
    while k < n
        invariant
            k <= mask@.len(),
            forall|t: int| 0 <= t < k ==> mask@[t] != i,
        decreases mask@.len() - k,
    {
        if *vstd::slice::slice_index_get(mask, k) == i {
            return true;
        }
        k = k + 1;
    }
    false
}

/// Relies on itertools' `Itertools::chunk_by`: consecutive elements that
/// map to the same key are assigned to the same group, in order.  Keying
/// each enumerated byte on its wildcard classification therefore yields
/// exactly the maximal runs of equally classified signature bytes.
#[verifier::external_body]
fn split_runs(bytes: &[u8], mask: &[usize]) -> (runs: Vec<Run>)
    ensures
        runs@.map_values(|r: Run| (r.masked, r.bytes@)) == spec_runs_from(bytes@, mask@, 0),
{
    let mut runs: Vec<Run> = Vec::new();
    let grouped = bytes.iter().enumerate().chunk_by(|&(i, _)| mask_has(mask, i));
    for (masked, group) in &grouped {
        runs.push(Run { masked, bytes: group.map(|(_, b)| *b).collect() });
    }
    runs
}

/// Appends the greedy word chunking of one literal run.
fn push_literal(atoms: &mut Vec<Atom>, seg: &[u8])
    ensures
        final(atoms)@ == old(atoms)@ + spec_literal_atoms(seg@),
{
    let mut pos: usize = 0;
    let n = seg.len();
    proof {
        assert(seg@.skip(0) =~= seg@);
        reveal_with_fuel(pow256, 9);
    }
    while pos < n
        invariant
            pos <= n,
            n == seg@.len(),
            atoms@ + spec_literal_atoms(seg@.skip(pos as int)) == old(atoms)@ + spec_literal_atoms(
                seg@,
            ),
        decreases n - pos,
    {
        let ghost s = seg@.skip(pos as int);
        let ghost prev = atoms@;
        let rem = n - pos;
        if rem >= 8 {
            proof {
                assert(s.take(8) =~= seg@.subrange(pos as int, pos + 8));
                assert(s.skip(8) =~= seg@.skip(pos + 8));
                lemma_le_value_bound(s.take(8));
            }
            let v = read_le(seg, pos, 8);
            atoms.push(Atom::LongLong(v));
            proof {
                assert(v == le_value(s.take(8)) as u64);
                assert(atoms@ =~= prev + seq![Atom::LongLong(le_value(s.take(8)) as u64)]);
                assert(atoms@ + spec_literal_atoms(seg@.skip(pos + 8)) =~= prev
                    + spec_literal_atoms(s));
            }
            pos = pos + 8;
        } else if rem >= 4 {
            proof {
                assert(s.take(4) =~= seg@.subrange(pos as int, pos + 4));
                assert(s.skip(4) =~= seg@.skip(pos + 4));
                lemma_le_value_bound(s.take(4));
            }
            let v = read_le(seg, pos, 4);
            atoms.push(Atom::Long(v as u32));
            proof {
                assert(v as u32 == le_value(s.take(4)) as u32);
                assert(atoms@ =~= prev + seq![Atom::Long(le_value(s.take(4)) as u32)]);
                assert(atoms@ + spec_literal_atoms(seg@.skip(pos + 4)) =~= prev
                    + spec_literal_atoms(s));
            }
            pos = pos + 4;
        } else if rem >= 2 {
            proof {
                assert(s.take(2) =~= seg@.subrange(pos as int, pos + 2));
                assert(s.skip(2) =~= seg@.skip(pos + 2));
                lemma_le_value_bound(s.take(2));
            }
            let v = read_le(seg, pos, 2);
            atoms.push(Atom::Short(v as u16));
            proof {
                assert(v as u16 == le_value(s.take(2)) as u16);
                assert(atoms@ =~= prev + seq![Atom::Short(le_value(s.take(2)) as u16)]);
                assert(atoms@ + spec_literal_atoms(seg@.skip(pos + 2)) =~= prev
                    + spec_literal_atoms(s));
            }
            pos = pos + 2;
        } else {
            let b = *vstd::slice::slice_index_get(seg, pos);
            atoms.push(Atom::Byte(b));
            proof {
                assert(s.len() == 1);
                assert(s[0] == seg@[pos as int]);
                assert(seg@.skip(pos + 1) =~= Seq::<u8>::empty());
                assert(atoms@ =~= prev + seq![Atom::Byte(s[0])]);
                assert(atoms@ + spec_literal_atoms(seg@.skip(pos + 1)) =~= prev
                    + spec_literal_atoms(s));
            }
            pos = pos + 1;
        }
    }
    proof {
        assert(seg@.skip(n as int) =~= Seq::<u8>::empty());
        assert(atoms@ + spec_literal_atoms(seg@.skip(n as int)) =~= atoms@);
    }
}

/// Compiles a signature: its bytes plus the set of wildcarded offsets.
pub(crate) fn compile(bytes: &[u8], mask: &[usize]) -> (atoms: Vec<Atom>)
    ensures
        atoms@ == spec_compile_from(bytes@, mask@, 0),
{
    let runs = split_runs(bytes, mask);
    let mut atoms: Vec<Atom> = Vec::new();
    let mut k: usize = 0;
    let mut pos: usize = 0;
    let n = bytes.len();
    let ghost rv = runs@.map_values(|r: Run| (r.masked, r.bytes@));
    proof {
        assert(rv.skip(0) =~= rv);
        assert(Seq::<Atom>::empty() + spec_compile_from(bytes@, mask@, 0) =~= spec_compile_from(
            bytes@,
            mask@,
            0,
        ));
    }
    while k < runs.len()
        invariant
            k <= runs@.len(),
            0 <= pos,
            rv.skip(k as int) == spec_runs_from(bytes@, mask@, pos as int),
            atoms@ + spec_compile_from(bytes@, mask@, pos as int) == spec_compile_from(
                bytes@,
                mask@,
                0,
            ),
        decreases runs@.len() - k,
    {
        let ghost prev = atoms@;
        proof {
            assert(rv.skip(k as int).len() > 0);
            assert(0 <= pos < bytes@.len());
            lemma_run_end(bytes@, mask@, pos as int);
            assert(rv.skip(k as int)[0] == rv[k as int]);
            assert(rv[k as int] == (runs@[k as int].masked, runs@[k as int].bytes@));
            assert(runs@[k as int].masked == masked_at(mask@, pos as int));
            assert(runs@[k as int].bytes@ == bytes@.subrange(
                pos as int,
                run_end(bytes@, mask@, pos as int),
            ));
        }
        let ghost e = run_end(bytes@, mask@, pos as int);
        let run = &runs[k];
        let run_len = run.bytes.len();
        proof {
            assert(run_len == e - pos);
        }
        if run.masked {
            atoms.push(Atom::Mask(run_len));
            proof {
                assert(Atom::Mask(run_len) == Atom::Mask((e - pos) as usize));
                assert(atoms@ =~= prev + seq![Atom::Mask((e - pos) as usize)]);
                assert(atoms@ + spec_compile_from(bytes@, mask@, e) =~= prev + spec_compile_from(
                    bytes@,
                    mask@,
                    pos as int,
                ));
            }
        } else {
            push_literal(&mut atoms, run.bytes.as_slice());
            proof {
                assert(atoms@ =~= prev + spec_literal_atoms(bytes@.subrange(pos as int, e)));
                assert(atoms@ + spec_compile_from(bytes@, mask@, e) =~= prev + spec_compile_from(
                    bytes@,
                    mask@,
                    pos as int,
                ));
            }
        }
        proof {
            assert(rv.skip(k as int).drop_first() =~= rv.skip(k + 1));
            assert(rv.skip(k + 1) =~= spec_runs_from(bytes@, mask@, e));
        }
        pos = pos + run_len;
        k = k + 1;
    }
    proof {
        assert(rv.skip(runs@.len() as int) =~= Seq::<(bool, Seq<u8>)>::empty());
        assert(spec_runs_from(bytes@, mask@, pos as int).len() == 0);
        assert(!(0 <= pos < bytes@.len()));
        assert(spec_compile_from(bytes@, mask@, pos as int) =~= Seq::<Atom>::empty());
        assert(atoms@ =~= atoms@ + Seq::<Atom>::empty());
    }
    atoms
}

} // verus!
