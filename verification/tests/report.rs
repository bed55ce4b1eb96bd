use ce_render::config::RenderConfig;
use ce_render::farm::Plan;
use ce_render::fraction::Fraction;
use ce_render::manifest::{FrameResult, OutputEntry, ResultManifest};
use ce_render::proto::Kind;
use ce_render::report::{
    brief, fetch_report, file_name, hosts_report, is_fetchable, job_report, manifest_report, plan_report, short,
};
use ce_render::shard::FrameRange;

fn strings(words: &[&str]) -> Vec<String> {
    words.iter().map(|s| s.to_string()).collect()
}

#[test]
fn identifiers_are_cut_to_twelve_bytes() {
    assert_eq!(short("abc"), "abc");
    assert_eq!(short("0123456789ab"), "0123456789ab");
    assert_eq!(short("0123456789abcdef"), "0123456789ab");
    assert_eq!(short("\u{e9}\u{e9}\u{e9}\u{e9}\u{e9}\u{e9}\u{e9}"), "\u{e9}\u{e9}\u{e9}\u{e9}\u{e9}\u{e9}");
}

#[test]
fn long_lists_are_cut() {
    assert_eq!(brief(&[]), "");
    assert_eq!(brief(&[7]), "7");
    assert_eq!(brief(&[1, 2, 30]), "1, 2, 30");
    let twenty: Vec<u32> = (1..=20).collect();
    let all = "1, 2, 3, 4, 5, 6, 7, 8, 9, 10, 11, 12, 13, 14, 15, 16, 17, 18, 19, 20";
    assert_eq!(brief(&twenty), all);
    let many: Vec<u32> = (1..=33).collect();
    assert_eq!(brief(&many), format!("{all}, ... (13 more)"));
}

#[test]
fn hosts_are_listed_in_rank_order() {
    assert_eq!(hosts_report(&[]), "No candidate render hosts.\n");
    let ten: Vec<String> = (0..10).map(|i| format!("h{i}")).collect();
    let text = hosts_report(&ten);
    assert!(text.starts_with("10 ranked render host(s) (most-proven first):\n   1. h0\n   2. h1\n"));
    assert!(text.ends_with("   9. h8\n  10. h9\n"));
}

#[test]
fn a_plan_is_told_row_by_row() {
    let cfg = RenderConfig {
        kind: Kind::Blender,
        image: None,
        input_cid: String::new(),
        frames: "1-25".to_string(),
        shard_size: 10,
        hosts: 2,
        select: None,
        bid_per_frame: "10".to_string(),
        cpu_cores: 1,
        mem_mb: 1,
        frame_secs: 1,
        verify: Fraction { bits: 0.5f32.to_bits() },
        args: Vec::new(),
        cap: None,
    };
    let mut plan = Plan::build(
        FrameRange { start: 1, end: 25 },
        10,
        &strings(&["0123456789abcdef", "h2"]),
        cfg.verify,
        "tip",
        Kind::Blender,
        "img".to_string(),
        Vec::new(),
    )
    .unwrap();
    plan.canary = vec![1];
    assert_eq!(
        plan_report(&cfg, &plan, "50"),
        "Render plan:\n\
         \x20 kind        Blender\n\
         \x20 image       img\n\
         \x20 frames      1-25 (25 frames)\n\
         \x20 shards      3 (size 10)\n\
         \x20 hosts       2\n\
         \x20 verify      50% (1 shard(s) canaried)\n\
         \x20 bid/frame   10 base units\n\
         \n\
         \x20 shard  frames    host\n\
         \x20     0  1-10      0123456789ab\n\
         \x20     1  11-20     h2 [verify]\n\
         \x20     2  21-25     0123456789ab\n",
    );
}

fn manifest() -> ResultManifest {
    ResultManifest::assemble(
        FrameRange { start: 1, end: 4 },
        &[
            FrameResult { frame: 1, host: "a".into(), output_cid: "c1".into(), verified: Some(true) },
            FrameResult { frame: 2, host: "b".into(), output_cid: "c2".into(), verified: Some(false) },
            FrameResult { frame: 3, host: "0123456789abcdef".into(), output_cid: "c3".into(), verified: None },
        ],
    )
}

#[test]
fn a_manifest_is_told_row_by_row() {
    assert_eq!(
        manifest_report(&manifest(), "m.json"),
        "Manifest m.json:\n\
         \x20 range     1-4\n\
         \x20 collected 3 frame(s)\n\
         \x20 missing   4\n\
         \x20 diverged  2\n\
         \x20 complete  false\n\
         \n\
         \x20 frame  host          cid\n\
         \x20     1  a  c1 (verified)\n\
         \x20     2  b  c2 (DIVERGED)\n\
         \x20     3  0123456789ab  c3\n",
    );
    let empty = ResultManifest { range: FrameRange { start: 5, end: 5 }, outputs: vec![], missing: vec![], diverged: vec![] };
    assert!(manifest_report(&empty, "m").contains("missing   none\n  diverged  none\n  complete  true\n"));
}

#[test]
fn a_job_is_summed_up() {
    let range = FrameRange { start: 1, end: 4 };
    assert_eq!(
        job_report(&manifest(), range, "m.json"),
        "\nCollected 3/4 frame(s). 1 missing, 1 diverged.\nManifest written to m.json.\n\
         Missing frames: 4\nDiverged (fraud-suspect, unpaid) frames: 2\n",
    );
    let one = FrameResult { frame: 1, host: "a".into(), output_cid: "c".into(), verified: None };
    let range = FrameRange { start: 1, end: 1 };
    let done = ResultManifest::assemble(range, &[one]);
    assert_eq!(
        job_report(&done, range, "m.json"),
        "\nCollected 1/1 frame(s). 0 missing, 0 diverged.\nManifest written to m.json.\n\
         Job complete. `ce-render fetch-all m.json -o out/` to pull the frames.\n",
    );
}

#[test]
fn fetched_frames_are_named_and_counted() {
    let mut entry = OutputEntry { frame: 42, host: "h".into(), output_cid: "0123456789abcdef".into(), verified: None };
    assert!(is_fetchable(&entry));
    assert_eq!(file_name(&entry), "frame_00042_0123456789ab.bin");
    entry.frame = 1234567;
    entry.output_cid = "c".into();
    assert_eq!(file_name(&entry), "frame_1234567_c.bin");
    entry.output_cid = String::new();
    assert!(!is_fetchable(&entry));
    assert_eq!(fetch_report(&[true, false, true], "out"), ("Fetched 2 frame(s) into out (1 failed).\n".to_string(), true));
    assert_eq!(fetch_report(&[false], "out"), ("Fetched 0 frame(s) into out (1 failed).\n".to_string(), false));
    assert_eq!(fetch_report(&[], "out"), ("Fetched 0 frame(s) into out (0 failed).\n".to_string(), true));
}
