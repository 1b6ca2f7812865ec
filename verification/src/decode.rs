//! The signature decoder: turns the textual notation — space-separated
//! tokens, each either exactly two hexadecimal digits or the
//! two-character wildcard marker `??` — into raw bytes plus the set of
//! wildcarded byte offsets.  Every other token, an empty one included,
//! is a decoding error.
//!
//! A wildcard byte occupies the placeholder value `0xCC` in the raw
//! bytes; its offset is recorded in the wildcard set instead.

use vstd::prelude::*;

use vstd::string::StringSliceAdditionalSpecFns;

use crate::compile::spec_compile_from;
use crate::pattern::{seq_size, Pattern};

verus! {

/// The error a malformed textual signature decodes to.  Construction is
/// the only fallible operation: once a pattern exists, everything else
/// is infallible, and the compiler's internal invariants are proved
/// rather than checked at run time.
#[derive(Clone, Copy, Debug, PartialEq, Eq, Structural)]
pub enum ScannerError {
    /// A signature token is neither the two-character wildcard marker
    /// nor exactly two hexadecimal digits; carries the index of the
    /// first such token.
    InvalidToken(usize),
}

/// The position of the first ASCII space, or the length if there is
/// none.
pub open spec fn first_space(s: Seq<u8>) -> int
    decreases s.len(),
{
    if s.len() == 0 {
        0
    } else if s[0] == 32 {
        0
    } else {
        1 + first_space(s.drop_first())
    }
}

pub proof fn lemma_first_space_bounds(s: Seq<u8>)
    ensures
        0 <= first_space(s) <= s.len(),
    decreases s.len(),
{
    if s.len() != 0 && s[0] != 32 {
        lemma_first_space_bounds(s.drop_first());
    }
}

/// `first_space` is the unique boundary: no space before it, a space or
/// the end at it.
pub proof fn lemma_first_space_is(s: Seq<u8>, m: int)
    requires
        0 <= m <= s.len(),
        forall|i: int| 0 <= i < m ==> s[i] != 32,
        m == s.len() || s[m] == 32,
    ensures
        first_space(s) == m,
    decreases m,
{
    if m == 0 {
    } else {
        assert(s[0] != 32);
        let t = s.drop_first();
        assert(forall|i: int| 0 <= i < m - 1 ==> t[i] == s[i + 1] && t[i] != 32);
        assert(m - 1 == t.len() || t[m - 1] == 32);
        lemma_first_space_is(t, m - 1);
    }
}

/// The tokens of a signature: the groups of bytes separated by single
/// ASCII spaces, in order, empties included.
pub open spec fn spec_tokens(s: Seq<u8>) -> Seq<Seq<u8>>
    decreases s.len(),
    via spec_tokens_dec
{
    let i = first_space(s);
    if i == s.len() {
        seq![s]
    } else {
        seq![s.take(i)] + spec_tokens(s.skip(i + 1))
    }
}

#[via_fn]
proof fn spec_tokens_dec(s: Seq<u8>) {
    lemma_first_space_bounds(s);
}

/// The two-character wildcard marker `??`.
pub open spec fn is_wild_tok(t: Seq<u8>) -> bool {
    t.len() == 2 && t[0] == 63 && t[1] == 63
}

/// An ASCII hexadecimal digit: `0-9`, `A-F` or `a-f`.
pub open spec fn is_hex_digit(b: u8) -> bool {
    (48 <= b <= 57) || (65 <= b <= 70) || (97 <= b <= 102)
}

/// The value of an ASCII hexadecimal digit.
pub open spec fn hex_val(b: u8) -> nat {
    if 48 <= b <= 57 {
        (b - 48) as nat
    } else if 65 <= b <= 70 {
        (b - 55) as nat
    } else if 97 <= b <= 102 {
        (b - 87) as nat
    } else {
        0
    }
}

/// Exactly two hexadecimal digits: one literal byte, the first digit
/// the high nibble.
pub open spec fn is_hex_tok(t: Seq<u8>) -> bool {
    t.len() == 2 && is_hex_digit(t[0]) && is_hex_digit(t[1])
}

/// A valid token: the wildcard marker or exactly two hexadecimal
/// digits.  Anything else is a decoding error.
pub open spec fn tok_ok(t: Seq<u8>) -> bool {
    is_wild_tok(t) || is_hex_tok(t)
}

/// The one byte a valid token contributes: the placeholder `0xCC` for
/// a wildcard, the decoded digit pair otherwise.
pub open spec fn tok_byte(t: Seq<u8>) -> u8 {
    if is_wild_tok(t) {
        0xCC
    } else {
        (16 * hex_val(t[0]) + hex_val(t[1])) as u8
    }
}

/// The bytes of a token list, one per token.
pub open spec fn toks_bytes(toks: Seq<Seq<u8>>) -> Seq<u8>
    decreases toks.len(),
{
    if toks.len() == 0 {
        Seq::empty()
    } else {
        seq![tok_byte(toks[0])] + toks_bytes(toks.drop_first())
    }
}

/// The byte offsets, counted from `base`, at which a token list places
/// wildcards.  Each token is one byte, so a token's offset is its
/// index.
pub open spec fn toks_mask(toks: Seq<Seq<u8>>, base: int) -> Seq<usize>
    decreases toks.len(),
{
    if toks.len() == 0 {
        Seq::empty()
    } else {
        (if is_wild_tok(toks[0]) {
            seq![base as usize]
        } else {
            Seq::empty()
        }) + toks_mask(toks.drop_first(), base + 1)
    }
}

/// Whether every token of a list is valid.
pub open spec fn toks_ok(toks: Seq<Seq<u8>>) -> bool {
    forall|i: int| 0 <= i < toks.len() ==> tok_ok(toks[i])
}

proof fn lemma_toks_bytes_push(toks: Seq<Seq<u8>>, t: Seq<u8>)
    ensures
        toks_bytes(toks.push(t)) == toks_bytes(toks) + seq![tok_byte(t)],
    decreases toks.len(),
{
    if toks.len() == 0 {
        assert(toks.push(t).drop_first() =~= Seq::<Seq<u8>>::empty());
        assert(toks =~= Seq::<Seq<u8>>::empty());
        assert(toks.push(t)[0] == t);
        assert(toks_bytes(toks.push(t)) =~= toks_bytes(toks) + seq![tok_byte(t)]);
    } else {
        assert(toks.push(t).drop_first() =~= toks.drop_first().push(t));
        assert(toks.push(t)[0] == toks[0]);
        lemma_toks_bytes_push(toks.drop_first(), t);
        assert(toks_bytes(toks.push(t)) =~= toks_bytes(toks) + seq![tok_byte(t)]);
    }
}

proof fn lemma_toks_mask_push(toks: Seq<Seq<u8>>, t: Seq<u8>, base: int)
    ensures
        toks_mask(toks.push(t), base) == toks_mask(toks, base) + (if is_wild_tok(t) {
            seq![(base + toks.len()) as usize]
        } else {
            Seq::<usize>::empty()
        }),
    decreases toks.len(),
{
    if toks.len() == 0 {
        assert(toks.push(t).drop_first() =~= Seq::<Seq<u8>>::empty());
        assert(toks =~= Seq::<Seq<u8>>::empty());
        assert(toks.push(t)[0] == t);
        assert(toks_mask(Seq::<Seq<u8>>::empty(), base + 1) =~= Seq::<usize>::empty());
        assert(toks_mask(toks.push(t), base) =~= toks_mask(toks, base) + (if is_wild_tok(t) {
            seq![(base + toks.len()) as usize]
        } else {
            Seq::<usize>::empty()
        }));
    } else {
        assert(toks.push(t).drop_first() =~= toks.drop_first().push(t));
        assert(toks.push(t)[0] == toks[0]);
        lemma_toks_mask_push(toks.drop_first(), t, base + 1);
        assert(base + 1 + toks.drop_first().len() == base + toks.len());
        assert(toks_mask(toks.push(t), base) =~= toks_mask(toks, base) + (if is_wild_tok(t) {
            seq![(base + toks.len()) as usize]
        } else {
            Seq::<usize>::empty()
        }));
    }
}

/// The value of one hexadecimal digit, or nothing for any other byte.
fn hex_digit_val(d: u8) -> (r: Option<u8>)
    ensures
        match r {
            Some(v) => is_hex_digit(d) && v == hex_val(d),
            None => !is_hex_digit(d),
        },
{
    if 48 <= d && d <= 57 {
        Some(d - 48)
    } else if 65 <= d && d <= 70 {
        Some(d - 55)
    } else if 97 <= d && d <= 102 {
        Some(d - 87)
    } else {
        None
    }
}

/// The end of the token that starts at `pos`: the next space, or the
/// end of the input.
fn find_token_end(b: &[u8], pos: usize) -> (j: usize)
    requires
        pos <= b@.len(),
    ensures
        pos <= j <= b@.len(),
        forall|i: int| pos <= i < j ==> b@[i] != 32,
        j == b@.len() || b@[j as int] == 32,
{
    let n = b.len();
    let mut j = pos;
    let mut found = false;
    while !found && j < n
        invariant
            pos <= j <= n,
            forall|i: int| pos <= i < j ==> b@[i] != 32,
            found ==> j < n && b@[j as int] == 32,
        decreases (if found { 0int } else { 1int }), n - j,
    {
        let c = *vstd::slice::slice_index_get(b, j);
        if c == 32 {
            found = true;
        } else {
            j = j + 1;
        }
    }
    j
}

/// Decodes a signature's bytes: one byte per token plus the wildcard
/// offsets, or the index of the first invalid token.
#[verifier::rlimit(60)]
fn decode_signature(b: &[u8]) -> (r: Result<(Vec<u8>, Vec<usize>), ScannerError>)
    ensures
        match r {
            Ok(t) => {
                &&& toks_ok(spec_tokens(b@))
                &&& t.0@ == toks_bytes(spec_tokens(b@))
                &&& t.1@ == toks_mask(spec_tokens(b@), 0)
            },
            Err(e) => {
                &&& !toks_ok(spec_tokens(b@))
                &&& match e {
                    ScannerError::InvalidToken(k) => {
                        &&& k < spec_tokens(b@).len()
                        &&& !tok_ok(spec_tokens(b@)[k as int])
                        &&& forall|i: int| 0 <= i < k ==> tok_ok(spec_tokens(b@)[i])
                    },
                }
            },
        },
{
    let n = b.len();
    let mut bytes: Vec<u8> = Vec::new();
    let mut mask: Vec<usize> = Vec::new();
    let mut pos: usize = 0;
    let mut tok_idx: usize = 0;
    let mut finished = false;
    let ghost mut done: Seq<Seq<u8>> = Seq::empty();
    proof {
        assert(b@.skip(0) =~= b@);
        assert(done + spec_tokens(b@.skip(0)) =~= spec_tokens(b@));
    }
    while !finished
        invariant
            pos <= n,
            n == b@.len(),
            !finished ==> done.len() <= pos || (done.len() == 0 && pos == 0),
            !finished ==> tok_idx == done.len(),
            !finished ==> done + spec_tokens(b@.skip(pos as int)) == spec_tokens(b@),
            finished ==> done == spec_tokens(b@),
            forall|i: int| 0 <= i < done.len() ==> tok_ok(done[i]),
            bytes@ == toks_bytes(done),
            bytes@.len() == done.len(),
            mask@ == toks_mask(done, 0),
        decreases (if finished { 0int } else { 1int }), n + 1 - pos,
    {
        let j = find_token_end(b, pos);
        let ghost t = b@.subrange(pos as int, j as int);
        let ghost rest = b@.skip(pos as int);
        proof {
            assert(forall|i: int| 0 <= i < j - pos ==> rest[i] == b@[pos + i] && rest[i] != 32);
            assert(j - pos == rest.len() || rest[j - pos] == 32);
            lemma_first_space_is(rest, j - pos);
            assert(rest.take(j - pos) =~= t);
            if j < n {
                assert(rest.skip(j - pos + 1) =~= b@.skip(j + 1));
                assert(spec_tokens(rest) == seq![t] + spec_tokens(b@.skip(j + 1)));
            } else {
                assert(rest =~= t);
                assert(spec_tokens(rest) == seq![t]);
            }
            assert(spec_tokens(rest)[0] == t);
            assert(spec_tokens(b@)[done.len() as int] == t);
        }
        let ghost prev_done = done;
        if j - pos != 2 {
            proof {
                assert(t.len() != 2);
                assert(!tok_ok(spec_tokens(b@)[tok_idx as int]));
                assert(forall|i: int|
                    0 <= i < tok_idx ==> spec_tokens(b@)[i] == prev_done[i] && tok_ok(
                        spec_tokens(b@)[i],
                    ));
            }
            return Err(ScannerError::InvalidToken(tok_idx));
        }
        let c0 = *vstd::slice::slice_index_get(b, pos);
        let c1 = *vstd::slice::slice_index_get(b, pos + 1);
        proof {
            assert(t.len() == 2 && t[0] == c0 && t[1] == c1);
        }
        if c0 == 63 && c1 == 63 {
            mask.push(bytes.len());
            bytes.push(0xCC);
            proof {
                done = done.push(t);
                lemma_toks_bytes_push(prev_done, t);
                lemma_toks_mask_push(prev_done, t, 0);
                assert(is_wild_tok(t));
                assert(tok_byte(t) == 0xCC);
                assert(bytes@ =~= toks_bytes(prev_done) + seq![tok_byte(t)]);
                assert(bytes@ == toks_bytes(done));
                assert(mask@ =~= toks_mask(prev_done, 0) + seq![prev_done.len() as usize]);
                assert(mask@ == toks_mask(done, 0));
            }
        } else {
            let d0 = match hex_digit_val(c0) {
                Some(v) => v,
                None => {
                    proof {
                        assert(!is_hex_tok(t));
                        assert(!is_wild_tok(t));
                        assert(!tok_ok(spec_tokens(b@)[tok_idx as int]));
                        assert(forall|i: int|
                            0 <= i < tok_idx ==> spec_tokens(b@)[i] == prev_done[i] && tok_ok(
                                spec_tokens(b@)[i],
                            ));
                    }
                    return Err(ScannerError::InvalidToken(tok_idx));
                },
            };
            let d1 = match hex_digit_val(c1) {
                Some(v) => v,
                None => {
                    proof {
                        assert(!is_hex_tok(t));
                        assert(!is_wild_tok(t));
                        assert(!tok_ok(spec_tokens(b@)[tok_idx as int]));
                        assert(forall|i: int|
                            0 <= i < tok_idx ==> spec_tokens(b@)[i] == prev_done[i] && tok_ok(
                                spec_tokens(b@)[i],
                            ));
                    }
                    return Err(ScannerError::InvalidToken(tok_idx));
                },
            };
            bytes.push(16 * d0 + d1);
            proof {
                done = done.push(t);
                lemma_toks_bytes_push(prev_done, t);
                lemma_toks_mask_push(prev_done, t, 0);
                assert(!is_wild_tok(t));
                assert(is_hex_tok(t));
                assert(16 * d0 + d1 == tok_byte(t));
                assert(bytes@ =~= toks_bytes(prev_done) + seq![tok_byte(t)]);
                assert(bytes@ == toks_bytes(done));
                assert(mask@ =~= toks_mask(prev_done, 0) + Seq::<usize>::empty());
                assert(mask@ == toks_mask(done, 0));
            }
        }
        proof {
            assert(spec_tokens(rest).drop_first() =~= if j < n {
                spec_tokens(b@.skip(j + 1))
            } else {
                Seq::<Seq<u8>>::empty()
            });
            assert(done =~= prev_done.push(t));
        }
        if j < n {
            pos = j + 1;
            tok_idx = tok_idx + 1;
            proof {
                assert(done + spec_tokens(b@.skip(pos as int)) =~= spec_tokens(b@));
            }
        } else {
            finished = true;
            proof {
                assert(done =~= spec_tokens(b@));
            }
        }
    }
    Ok((bytes, mask))
}

impl Pattern {
    /// Compiles a pattern from the textual signature notation: tokens
    /// separated by single spaces, each either exactly two hexadecimal
    /// digits or the wildcard marker `??`.  Fails, naming the first
    /// offending token, exactly when some token is neither.
    pub fn from_ida(s: &str) -> (r: Result<Self, ScannerError>)
        ensures
            match r {
                Ok(p) => {
                    &&& toks_ok(spec_tokens(s.spec_bytes()))
                    &&& p@ == spec_compile_from(
                        toks_bytes(spec_tokens(s.spec_bytes())),
                        toks_mask(spec_tokens(s.spec_bytes()), 0),
                        0,
                    )
                    &&& seq_size(p@) == toks_bytes(spec_tokens(s.spec_bytes())).len()
                    &&& p.wf()
                },
                Err(e) => {
                    &&& !toks_ok(spec_tokens(s.spec_bytes()))
                    &&& match e {
                        ScannerError::InvalidToken(k) => {
                            &&& k < spec_tokens(s.spec_bytes()).len()
                            &&& !tok_ok(spec_tokens(s.spec_bytes())[k as int])
                            &&& forall|i: int|
                                0 <= i < k ==> tok_ok(spec_tokens(s.spec_bytes())[i])
                        },
                    }
                },
            },
    {
        let b = s.as_bytes();
        match decode_signature(b) {
            Ok((bytes, mask)) => Ok(Pattern::from_bytes(bytes.as_slice(), mask.as_slice())),
            Err(e) => Err(e),
        }
    }
}

} // verus!
