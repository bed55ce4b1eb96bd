use ce_render::fraction::Fraction;
use ce_render::manifest::{FrameResult, ResultManifest};
use ce_render::shard::{self, FrameRange};
use ce_render::verify::{self, Verdict};

#[test]
fn frame_range_shards_partition_and_manifest_reassembles() {
    let range = FrameRange::new(1, 500).unwrap();
    let shards = shard::split(range, 10);
    assert_eq!(shards.len(), 50, "500 frames / 10 per shard = 50 shards");

    let mut results = Vec::new();
    for s in &shards {
        let cid = format!("cid-shard-{}", s.index);
        for frame in s.range.start..=s.range.end {
            results.push(FrameResult {
                frame,
                host: format!("host-{}", s.index % 6),
                output_cid: cid.clone(),
                verified: None,
            });
        }
    }
    let manifest = ResultManifest::assemble(range, &results);
    assert!(manifest.is_complete(), "every frame in 1-500 is covered");
    assert_eq!(manifest.collected(), 500);
    assert!(manifest.missing.is_empty());
    assert_eq!(manifest.outputs.first().unwrap().output_cid, "cid-shard-0");
    assert_eq!(manifest.outputs.last().unwrap().output_cid, "cid-shard-49");
}

#[test]
fn a_dropped_shard_shows_as_missing_frames() {
    let range = FrameRange::new(1, 30).unwrap();
    let shards = shard::split(range, 10);
    let mut results = Vec::new();
    for s in &shards {
        if s.index == 1 {
            continue;
        }
        for frame in s.range.start..=s.range.end {
            results.push(FrameResult {
                frame,
                host: "h".into(),
                output_cid: format!("c{}", s.index),
                verified: None,
            });
        }
    }
    let manifest = ResultManifest::assemble(range, &results);
    assert!(!manifest.is_complete());
    assert_eq!(manifest.missing, (11..=20).collect::<Vec<_>>());
}

#[test]
fn verify_dial_selects_and_catches_fraud() {
    let dial = Fraction { bits: 0.05f32.to_bits() };
    let canary = verify::canary_set(100, dial, "pow-tip-hash-abc");
    assert_eq!(canary.len(), 5);
    assert_eq!(canary, verify::canary_set(100, dial, "pow-tip-hash-abc"), "deterministic per beacon");

    assert_eq!(verify::agrees("frameCID", "frameCID"), Verdict::Agree);
    assert_eq!(verify::agrees("frameCID", "BLACK-FRAME-CID"), Verdict::Diverge);
}

#[test]
fn diverged_canary_flags_frame_in_manifest() {
    let range = FrameRange::new(1, 2).unwrap();
    let good = FrameResult { frame: 1, host: "h1".into(), output_cid: "c1".into(), verified: Some(true) };
    let bad = FrameResult { frame: 2, host: "h2".into(), output_cid: "suspect".into(), verified: Some(false) };
    let manifest = ResultManifest::assemble(range, &[good, bad]);
    assert_eq!(manifest.diverged, vec![2]);
    assert!(!manifest.is_complete(), "a diverged frame is withheld → job not complete");
}
