use ce_render::manifest::{FrameResult, ResultManifest};
use ce_render::shard::FrameRange;

fn fr(frame: u32, cid: &str) -> FrameResult {
    FrameResult { frame, host: format!("host-{frame}"), output_cid: cid.into(), verified: None }
}

fn range(a: u32, b: u32) -> FrameRange {
    FrameRange::new(a, b).unwrap()
}

#[test]
fn assembles_complete_job_in_frame_order() {
    let results = vec![fr(3, "c3"), fr(1, "c1"), fr(2, "c2")];
    let m = ResultManifest::assemble(range(1, 3), &results);
    assert!(m.is_complete());
    assert_eq!(m.missing, Vec::<u32>::new());
    assert_eq!(m.cids(), vec!["c1", "c2", "c3"], "outputs sorted ascending by frame");
    assert_eq!(m.collected(), 3);
}

#[test]
fn reports_missing_frames() {
    let results = vec![fr(1, "c1"), fr(3, "c3")];
    let m = ResultManifest::assemble(range(1, 4), &results);
    assert!(!m.is_complete());
    assert_eq!(m.missing, vec![2, 4]);
    assert_eq!(m.cids(), vec!["c1", "c3"]);
}

#[test]
fn last_result_wins_on_reassignment() {
    let results = vec![fr(2, "stale"), fr(1, "c1"), fr(2, "fresh")];
    let m = ResultManifest::assemble(range(1, 2), &results);
    assert_eq!(m.cids(), vec!["c1", "fresh"]);
    assert_eq!(m.collected(), 2);
}

#[test]
fn diverged_frames_are_flagged_but_present() {
    let mut bad = fr(2, "suspect");
    bad.verified = Some(false);
    let mut good = fr(1, "c1");
    good.verified = Some(true);
    let m = ResultManifest::assemble(range(1, 2), &[good, bad]);
    assert!(!m.is_complete(), "a diverged frame makes the job incomplete");
    assert_eq!(m.diverged, vec![2]);
    assert!(m.missing.is_empty());
    assert_eq!(m.cids(), vec!["c1", "suspect"]);
}

#[test]
fn out_of_range_results_are_ignored() {
    let results = vec![fr(1, "c1"), fr(99, "rogue")];
    let m = ResultManifest::assemble(range(1, 2), &results);
    assert_eq!(m.cids(), vec!["c1"]);
    assert_eq!(m.missing, vec![2]);
}

#[test]
fn empty_results_all_missing() {
    let m = ResultManifest::assemble(range(1, 3), &[]);
    assert_eq!(m.missing, vec![1, 2, 3]);
    assert!(m.cids().is_empty());
    assert!(!m.is_complete());
}

#[test]
fn a_later_clean_result_clears_a_divergence() {
    let mut bad = fr(1, "suspect");
    bad.verified = Some(false);
    let m = ResultManifest::assemble(range(1, 1), &[bad, fr(1, "again")]);
    assert!(m.is_complete());
    assert_eq!(m.outputs[0].host, "host-1");
    assert_eq!(m.outputs[0].verified, None);
}

#[test]
fn arrival_order_of_different_frames_does_not_matter() {
    let a = ResultManifest::assemble(range(1, 3), &[fr(1, "x"), fr(2, "y"), fr(3, "z")]);
    let b = ResultManifest::assemble(range(1, 3), &[fr(3, "z"), fr(1, "x"), fr(2, "y")]);
    assert_eq!(a, b);
}

#[test]
fn the_last_frame_number_is_collected() {
    let m = ResultManifest::assemble(range(u32::MAX - 1, u32::MAX), &[fr(u32::MAX, "end")]);
    assert_eq!(m.missing, vec![u32::MAX - 1]);
    assert_eq!(m.cids(), vec!["end"]);
}
