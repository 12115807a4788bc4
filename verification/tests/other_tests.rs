use tts_taps::assets::{assets_next, assets_start, AssetsEvent, AssetsFailure, AssetsStep};
use tts_taps::audio::{chunk_limit_for, splice_chunks};
use tts_taps::config::{AEConfig, Config, TTLConfig};
use tts_taps::style::{data_fits, pack_voice_styles, try_pack_voice_styles};
use tts_taps::tap::{metadata_reply, request_reply, CacheType, SamTapHandler, TapFailure, WeddingTapHandler};

fn cfg() -> Config {
    Config {
        ae: AEConfig { sample_rate: 44100, base_chunk_size: 512 },
        ttl: TTLConfig { chunk_compress_factor: 6, latent_dim: 24 },
    }
}

#[test]
fn latent_layout_rounds_up() {
    let l = cfg().latent_layout(&[6144, 1000, 0], 6144);
    assert_eq!(l.latent_len, 2);
    assert_eq!(l.latent_dim, 144);
    assert_eq!(l.latent_lengths, vec![2, 1, 0]);
    assert_eq!(l.mask, vec![vec![vec![1, 1]], vec![vec![1, 0]], vec![vec![0, 0]]]);
    let l = cfg().latent_layout(&[3073], 3073);
    assert_eq!(l.latent_len, 2);
    assert_eq!(l.latent_lengths, vec![2]);
}

#[test]
fn voice_styles_in_slots() {
    let v0 = vec![vec![vec![1.0f32, 2.0], vec![3.0, 4.0]]];
    let v1 = vec![vec![vec![5.0f32, 6.0], vec![7.0, 8.0]]];
    let r = pack_voice_styles(&vec![v0, v1], 2, 2, 0.0f32);
    assert_eq!(r, vec![1.0, 2.0, 3.0, 4.0, 5.0, 6.0, 7.0, 8.0]);
}

#[test]
fn voice_styles_short_and_overlong() {
    let short = vec![vec![vec![1i32]]];
    let long = vec![vec![vec![2i32, 2, 2, 2, 2]]];
    let full = vec![vec![vec![3i32, 3, 3, 3]]];
    assert_eq!(pack_voice_styles(&vec![short.clone(), full.clone()], 2, 2, 0), vec![1, 0, 0, 0, 3, 3, 3, 3]);
    assert_eq!(pack_voice_styles(&vec![long, full], 1, 4, 0), vec![2, 2, 2, 2, 3, 3, 3, 3]);
    assert_eq!(pack_voice_styles::<i32>(&vec![], 3, 4, 0), Vec::<i32>::new());
}

#[test]
fn chunk_limits_per_language() {
    assert_eq!(chunk_limit_for("ko"), 120);
    assert_eq!(chunk_limit_for("ja"), 120);
    assert_eq!(chunk_limit_for("en"), 300);
    assert_eq!(chunk_limit_for("kor"), 300);
}

#[test]
fn splice_with_silence() {
    let pieces = vec![vec![1, 2, 3], vec![4, 5], vec![6]];
    assert_eq!(splice_chunks(&pieces, &vec![2, 10, 0], 2, 0), vec![1, 2, 0, 0, 4, 5, 0, 0]);
    assert_eq!(splice_chunks(&vec![vec![9, 9]], &vec![5], 3, 0), vec![9, 9]);
    assert_eq!(splice_chunks::<i32>(&vec![], &vec![], 3, 0), Vec::<i32>::new());
}

fn run(events: &[AssetsEvent]) -> AssetsStep {
    let mut s = assets_start();
    for e in events {
        s = assets_next(s, *e);
    }
    s
}

#[test]
fn assets_present_from_the_start() {
    assert_eq!(run(&[AssetsEvent::ConfigExists(true)]), AssetsStep::Ready(true));
    assert_eq!(
        run(&[AssetsEvent::ConfigExists(true), AssetsEvent::Exited(false)]),
        AssetsStep::Ready(true)
    );
}

#[test]
fn assets_cloned() {
    let dir = AssetsEvent::DirInspected { exists: false, empty: false, has_parent: true };
    assert_eq!(run(&[AssetsEvent::ConfigExists(false)]), AssetsStep::InspectDir);
    assert_eq!(run(&[AssetsEvent::ConfigExists(false), dir]), AssetsStep::CreateParent);
    assert_eq!(
        run(&[
            AssetsEvent::ConfigExists(false),
            dir,
            AssetsEvent::ParentCreated,
            AssetsEvent::Exited(true),
            AssetsEvent::Exited(true),
            AssetsEvent::ConfigExists(true),
        ]),
        AssetsStep::Ready(false)
    );
    let empty_dir = AssetsEvent::DirInspected { exists: true, empty: true, has_parent: true };
    assert_eq!(run(&[AssetsEvent::ConfigExists(false), empty_dir]), AssetsStep::Clone);
    let no_parent = AssetsEvent::DirInspected { exists: false, empty: false, has_parent: false };
    assert_eq!(run(&[AssetsEvent::ConfigExists(false), no_parent]), AssetsStep::Clone);
}

#[test]
fn assets_failures() {
    let full = AssetsEvent::DirInspected { exists: true, empty: false, has_parent: true };
    assert_eq!(
        run(&[AssetsEvent::ConfigExists(false), full]),
        AssetsStep::Failed(AssetsFailure::DirNotEmpty)
    );
    let empty = AssetsEvent::DirInspected { exists: true, empty: true, has_parent: true };
    let base = [AssetsEvent::ConfigExists(false), empty];
    assert_eq!(
        run(&[base[0], base[1], AssetsEvent::Exited(false)]),
        AssetsStep::Failed(AssetsFailure::CloneFailed)
    );
    assert_eq!(
        run(&[base[0], base[1], AssetsEvent::Exited(true), AssetsEvent::Exited(false)]),
        AssetsStep::Failed(AssetsFailure::LfsPullFailed)
    );
    assert_eq!(
        run(&[
            base[0],
            base[1],
            AssetsEvent::Exited(true),
            AssetsEvent::Exited(true),
            AssetsEvent::ConfigExists(false)
        ]),
        AssetsStep::Failed(AssetsFailure::MissingAfterClone)
    );
}

#[test]
fn assets_ignore_unrelated_events() {
    assert_eq!(assets_next(AssetsStep::CheckConfig, AssetsEvent::ParentCreated), AssetsStep::CheckConfig);
    assert_eq!(assets_next(AssetsStep::Clone, AssetsEvent::ConfigExists(true)), AssetsStep::Clone);
}

#[test]
fn tap_replies() {
    let m = metadata_reply("hello there");
    assert_eq!(m.title, "hello there");
    assert_eq!(m.cache.cache_type, CacheType::ARHash);
    assert_eq!(m.cache.ttl_seconds, None);
    let r = request_reply();
    assert_eq!(r.cache.ttl_seconds, None);
    assert!(!r.duration_known);
    assert!(r.use_cached_metadata);
    assert_eq!(WeddingTapHandler.reply(), r);
    assert_eq!(SamTapHandler.reply(), r);
    assert_eq!(WeddingTapHandler.metadata("x").title, "x");
}

#[test]
fn sam_audio_result() {
    let h = SamTapHandler;
    assert_eq!(h.audio_result(Some(vec![1, 2])).unwrap(), vec![1, 2]);
    match h.audio_result(None) {
        Err(TapFailure::Retriable(m)) => assert_eq!(m, "SAM TTS failed to synthesize audio"),
        Ok(_) => panic!("expected a failure"),
    }
}

#[test]
fn checked_packing() {
    let long = vec![vec![vec![2i32, 2, 2, 2, 2]]];
    let full = vec![vec![vec![3i32, 3, 3, 3]]];
    assert_eq!(try_pack_voice_styles(&vec![full.clone(), long.clone()], 2, 2, 0), None);
    assert_eq!(
        try_pack_voice_styles(&vec![long, full.clone()], 2, 2, 0),
        Some(vec![2, 2, 2, 2, 3, 3, 3, 3])
    );
    assert_eq!(try_pack_voice_styles(&vec![full], usize::MAX, 2, 0), None);
    assert!(data_fits(&vec![vec![vec![1u8, 2], vec![3]]], 3));
    assert!(!data_fits(&vec![vec![vec![1u8, 2], vec![3]]], 2));
}

#[test]
fn latent_layout_with_negative_factor() {
    let c = Config {
        ae: AEConfig { sample_rate: 1, base_chunk_size: -1 },
        ttl: TTLConfig { chunk_compress_factor: 1, latent_dim: 2 },
    };
    let l = c.latent_layout(&[5], 5);
    assert_eq!(l.latent_len, 1);
    assert_eq!(l.latent_lengths, vec![1]);
    assert_eq!(l.latent_dim, 2);
}
