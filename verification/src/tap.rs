//! What the taps answer the hub: the metadata of a request, the caching of
//! the audio, and the failure reported when synthesis gives nothing.

use vstd::prelude::*;

verus! {

/// How the hub keys cached audio.
#[derive(Debug, Clone, Copy, PartialEq, Eq, Structural)]
pub enum CacheType {
    /// By a hash of the audio request.
    ARHash,
}

/// How long the hub may keep the audio.
#[derive(Debug, Clone, Copy, PartialEq, Eq, Structural)]
pub struct CachePolicy {
    pub cache_type: CacheType,
    /// Seconds to keep it; `None` keeps it for good.
    pub ttl_seconds: Option<u64>,
}

/// Answer to a metadata request.
pub struct MetadataReply {
    /// The title shown for the audio.
    pub title: String,
    pub cache: CachePolicy,
}

/// Answer to an audio request whose audio is being streamed.
#[derive(Debug, Clone, Copy, PartialEq, Eq, Structural)]
pub struct RequestReply {
    pub cache: CachePolicy,
    /// Whether the duration of the audio is known (it is not here).
    pub duration_known: bool,
    /// Whether the metadata sent for the request stays valid.
    pub use_cached_metadata: bool,
}

/// Why a request failed.
#[derive(Debug)]
pub enum TapFailure {
    /// A failure worth retrying, with its message.
    Retriable(String),
}

/// Caching for speech, which the same text always gives again: by request
/// hash, for good.
pub open spec fn forever() -> CachePolicy {
    CachePolicy { cache_type: CacheType::ARHash, ttl_seconds: None }
}

fn cache_forever() -> (c: CachePolicy)
    ensures
        c == forever(),
{
    CachePolicy { cache_type: CacheType::ARHash, ttl_seconds: None }
}

/// Metadata for a request whose text is `source`: the text as title, cached for good.
pub fn metadata_reply(source: &str) -> (r: MetadataReply)
    ensures
        r.title@ == source@,
        r.cache == forever(),
{
    MetadataReply { title: String::from_str(source), cache: cache_forever() }
}

/// Answer to an audio request: cached for good, no duration, metadata kept.
pub fn request_reply() -> (r: RequestReply)
    ensures
        r.cache == forever(),
        !r.duration_known,
        r.use_cached_metadata,
{
    RequestReply { cache: cache_forever(), duration_known: false, use_cached_metadata: true }
}

/// The tap that speaks with the SAM synthesizer.
pub struct SamTapHandler;

impl SamTapHandler {
    /// The audio of a request, or a retriable failure when the synthesizer
    /// gave none.
    pub fn audio_result(&self, wav: Option<Vec<u8>>) -> (r: Result<Vec<u8>, TapFailure>)
        ensures
            wav matches Some(w) ==> (r matches Ok(b) && b@ == w@),
            wav is None ==> (r matches Err(TapFailure::Retriable(m)) && m@
                == "SAM TTS failed to synthesize audio"@),
    {
        match wav {
            Some(w) => Ok(w),
            None => Err(TapFailure::Retriable(String::from_str("SAM TTS failed to synthesize audio"))),
        }
    }

    /// Metadata for a request whose text is `source`.
    pub fn metadata(&self, source: &str) -> (r: MetadataReply)
        ensures
            r.title@ == source@,
            r.cache == forever(),
    {
        metadata_reply(source)
    }

    /// Answer to an audio request.
    pub fn reply(&self) -> (r: RequestReply)
        ensures
            r == request_reply_spec(),
    {
        request_reply()
    }
}

/// The answer to an audio request that every tap gives.
pub open spec fn request_reply_spec() -> RequestReply {
    RequestReply { cache: forever(), duration_known: false, use_cached_metadata: true }
}

/// The tap that plays a fixed recording.
pub struct WeddingTapHandler;

impl WeddingTapHandler {
    /// Metadata for a request whose text is `source`.
    pub fn metadata(&self, source: &str) -> (r: MetadataReply)
        ensures
            r.title@ == source@,
            r.cache == forever(),
    {
        metadata_reply(source)
    }

    /// Answer to an audio request.
    pub fn reply(&self) -> (r: RequestReply)
        ensures
            r == request_reply_spec(),
    {
        request_reply()
    }
}

} // verus!
