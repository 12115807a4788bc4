//! Model configuration and the latent layout it gives.

use vstd::prelude::*;
use crate::processor::{is_mask, length_to_mask};

verus! {

/// Autoencoder settings.
#[derive(Debug, Clone, Copy)]
pub struct AEConfig {
    pub sample_rate: i32,
    pub base_chunk_size: i32,
}

/// Text-to-latent settings.
#[derive(Debug, Clone, Copy)]
pub struct TTLConfig {
    pub chunk_compress_factor: i32,
    pub latent_dim: i32,
}

/// The model configuration.
#[derive(Debug, Clone, Copy)]
pub struct Config {
    pub ae: AEConfig,
    pub ttl: TTLConfig,
}

/// `a / c` rounded up.
pub open spec fn ceil_div(a: nat, c: nat) -> nat {
    if a % c == 0 {
        a / c
    } else {
        a / c + 1
    }
}

/// Shape of the noisy latent for a batch of waveforms.
pub struct LatentLayout {
    /// Latent frames of the longest waveform.
    pub latent_len: usize,
    /// Latent channels.
    pub latent_dim: usize,
    /// Latent frames of each waveform.
    pub latent_lengths: Vec<usize>,
    /// Padding mask over the latent frames, one `1 x latent_len` row per waveform.
    pub mask: Vec<Vec<Vec<u8>>>,
}

impl Config {
    /// Waveform samples per latent frame, as the code computes it (an `i32`
    /// product taken as `usize`).
    pub open spec fn chunk_size(&self) -> usize {
        (self.ae.base_chunk_size * self.ttl.chunk_compress_factor) as usize
    }

    /// Latent channels, as the code computes it.
    pub open spec fn latent_channels(&self) -> usize {
        (self.ttl.latent_dim * self.ttl.chunk_compress_factor) as usize
    }

    fn div_ceil(a: usize, c: usize) -> (r: usize)
        requires
            c > 0,
        ensures
            r == ceil_div(a as nat, c as nat),
    {
        let q = a / c;
        if a % c == 0 {
            q
        } else {
            assert(q < a) by (nonlinear_arith)
                requires
                    q == a / c,
                    c > 0,
                    a % c != 0,
            ;
            q + 1
        }
    }

    /// Latent shape for waveforms of `wav_lengths` samples, the longest being
    /// `wav_len_max`: frames are waveform samples divided by the chunk size,
    /// rounded up; the mask marks each waveform's frames.
    pub fn latent_layout(&self, wav_lengths: &[usize], wav_len_max: usize) -> (r: LatentLayout)
        requires
            i32::MIN <= self.ae.base_chunk_size * self.ttl.chunk_compress_factor <= i32::MAX,
            i32::MIN <= self.ttl.latent_dim * self.ttl.chunk_compress_factor <= i32::MAX,
            self.chunk_size() != 0,
        ensures
            r.latent_len == ceil_div(wav_len_max as nat, self.chunk_size() as nat),
            r.latent_dim == self.latent_channels(),
            r.latent_lengths@.len() == wav_lengths@.len(),
            forall|i: int|
                0 <= i < wav_lengths@.len() ==> #[trigger] r.latent_lengths@[i] == ceil_div(
                    wav_lengths@[i] as nat,
                    self.chunk_size() as nat,
                ),
            is_mask(r.mask@, r.latent_lengths@, r.latent_len as nat),
    {
        let chunk_size = (self.ae.base_chunk_size * self.ttl.chunk_compress_factor) as usize;
        let latent_len = Self::div_ceil(wav_len_max, chunk_size);
        let latent_dim = (self.ttl.latent_dim * self.ttl.chunk_compress_factor) as usize;
        let mut latent_lengths: Vec<usize> = Vec::new();
        let mut i: usize = 0;
        while i < wav_lengths.len()
            invariant
                i <= wav_lengths@.len(),
                chunk_size == self.chunk_size(),
                chunk_size != 0,
                latent_lengths@.len() == i,
                forall|k: int|
                    0 <= k < i ==> #[trigger] latent_lengths@[k] == ceil_div(
                        wav_lengths@[k] as nat,
                        chunk_size as nat,
                    ),
            decreases wav_lengths.len() - i,
        {
            latent_lengths.push(Self::div_ceil(wav_lengths[i], chunk_size));
            i = i + 1;
        }
        let mask = length_to_mask(latent_lengths.as_slice(), Some(latent_len));
        LatentLayout { latent_len, latent_dim, latent_lengths, mask }
    }
}

} // verus!
