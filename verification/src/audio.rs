//! Putting a long utterance together: the chunk size per language and the
//! joining of the chunks' waveforms with silence between them.

use vstd::prelude::*;
use crate::chars::{chars_eq, str_chars};

verus! {

/// Chunk size, in bytes, for `lang`: 120 for Korean and Japanese, whose
/// characters take three bytes each, 300 otherwise.
pub open spec fn speech_chunk_limit(lang: Seq<char>) -> usize {
    if lang == seq!['k', 'o'] || lang == seq!['j', 'a'] {
        120
    } else {
        300
    }
}

/// Chunk size, in bytes, used to split a text in `lang` before synthesis.
pub fn chunk_limit_for(lang: &str) -> (n: usize)
    ensures
        n == speech_chunk_limit(lang@),
{
    let l = str_chars(lang);
    let ko = vec!['k', 'o'];
    let ja = vec!['j', 'a'];
    assert(ko@ =~= seq!['k', 'o']);
    assert(ja@ =~= seq!['j', 'a']);
    if chars_eq(&l, &ko) || chars_eq(&l, &ja) {
        120
    } else {
        300
    }
}

/// The first `n` of `v`, or all of it when it is shorter.
pub open spec fn clip<T>(v: Seq<T>, n: nat) -> Seq<T> {
    if n < v.len() {
        v.take(n as int)
    } else {
        v
    }
}

/// The waveforms of `pieces`, each cut to its length in `keep`, joined with
/// `silence` copies of `zero` between consecutive ones.
pub open spec fn spliced<T>(pieces: Seq<Vec<T>>, keep: Seq<usize>, silence: nat, zero: T) -> Seq<T>
    decreases pieces.len(),
{
    if pieces.len() == 0 {
        Seq::<T>::empty()
    } else {
        let i = pieces.len() - 1;
        let part = clip(pieces[i]@, keep[i] as nat);
        if i == 0 {
            part
        } else {
            spliced(pieces.drop_last(), keep, silence, zero) + Seq::new(silence, |p: int| zero)
                + part
        }
    }
}

/// Joins the waveforms of `pieces`, each cut to its length in `keep`, with
/// `silence_len` copies of `zero` between consecutive ones.
pub fn splice_chunks<T: Copy>(pieces: &Vec<Vec<T>>, keep: &Vec<usize>, silence_len: usize, zero: T) -> (r: Vec<T>)
    requires
        keep@.len() == pieces@.len(),
    ensures
        r@ == spliced(pieces@, keep@, silence_len as nat, zero),
{
    let mut out: Vec<T> = Vec::new();
    let mut i: usize = 0;
    assert(out@ =~= spliced(pieces@.take(0), keep@, silence_len as nat, zero));
    while i < pieces.len()
        invariant
            i <= pieces@.len(),
            keep@.len() == pieces@.len(),
            out@ == spliced(pieces@.take(i as int), keep@, silence_len as nat, zero),
        decreases pieces.len() - i,
    {
        let ghost before = out@;
        if i > 0 {
            let mut k: usize = 0;
            while k < silence_len
                invariant
                    k <= silence_len,
                    out@ == before + Seq::new(k as nat, |p: int| zero),
                decreases silence_len - k,
            {
                out.push(zero);
                k = k + 1;
                assert(out@ =~= before + Seq::new(k as nat, |p: int| zero));
            }
        }
        let ghost mid = out@;
        let piece = &pieces[i];
        let n = if keep[i] < piece.len() {
            keep[i]
        } else {
            piece.len()
        };
        let mut j: usize = 0;
        while j < n
            invariant
                j <= n <= piece@.len(),
                out@ == mid + piece@.take(j as int),
            decreases n - j,
        {
            out.push(piece[j]);
            j = j + 1;
            assert(out@ =~= mid + piece@.take(j as int));
        }
        proof {
            let t = pieces@.take(i + 1);
            assert(t.drop_last() =~= pieces@.take(i as int));
            assert(t[i as int] == pieces@[i as int]);
            assert(piece@.take(n as int) =~= clip(piece@, keep@[i as int] as nat));
            if i == 0 {
                assert(out@ =~= clip(piece@, keep@[i as int] as nat));
            } else {
                assert(out@ =~= before + Seq::new(silence_len as nat, |p: int| zero) + clip(
                    piece@,
                    keep@[i as int] as nat,
                ));
            }
        }
        i = i + 1;
    }
    assert(pieces@.take(i as int) =~= pieces@);
    out
}

} // verus!
