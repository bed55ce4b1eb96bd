use std::collections::{HashMap, HashSet};

use ce_render::config::RenderConfig;
use ce_render::dispatch::Run;
use ce_render::farm::{
    build_plan, eligible_hosts, judge_poll, rank_hosts, run, shard_spec, Amount, BidSpec, DeployParams, Deployer, Plan,
    PlanFault, Poll, POLL_LIMIT,
};
use ce_render::fraction::Fraction;
use ce_render::placement::AtlasEntry;
use ce_render::proto::Kind;
use ce_render::shard::{FrameRange, RangeFault};

/// A scripted deployer: a host that is not in `outputs` cannot be reached, and a liar gives a false
/// output.
struct FakeDeployer {
    outputs: HashMap<String, String>,
    liars: HashSet<String>,
    calls: Vec<(String, Vec<String>, i128, Option<String>)>,
}

impl FakeDeployer {
    fn new(outputs: &[(&str, &str)]) -> Self {
        FakeDeployer {
            outputs: outputs.iter().map(|(h, c)| (h.to_string(), c.to_string())).collect(),
            liars: Default::default(),
            calls: Default::default(),
        }
    }
}

impl Deployer for FakeDeployer {
    fn deploy(&mut self, host: &str, spec: &BidSpec, grant: Option<&str>) -> Result<String, String> {
        let call = (host.to_string(), spec.cmd.clone(), spec.bid.base(), grant.map(|g| g.to_string()));
        self.calls.push(call);
        match self.outputs.get(host) {
            Some(cid) => {
                if self.liars.contains(host) {
                    Ok(format!("FRAUD-{cid}"))
                } else {
                    Ok(cid.clone())
                }
            }
            None => Err(format!("host {host} is unreachable")),
        }
    }
}

fn params() -> DeployParams {
    DeployParams { cpu_cores: 2, mem_mb: 4096, duration_secs: 600, bid_per_frame: Amount::from_base(10) }
}

fn strings(words: &[&str]) -> Vec<String> {
    words.iter().map(|s| s.to_string()).collect()
}

fn plan(hosts: &[&str], verify_pct: f32) -> Plan {
    Plan::build(
        FrameRange::new(1, 4).unwrap(),
        2,
        &strings(hosts),
        Fraction { bits: verify_pct.to_bits() },
        "beacon-test",
        Kind::Blender,
        "ce-net/blender:latest".into(),
        vec![],
    )
    .unwrap()
}

#[test]
fn plan_splits_and_assigns() {
    let p = plan(&["h1", "h2"], 0.0);
    assert_eq!(p.shards.len(), 2);
    assert_eq!(p.assignment, vec!["h1", "h2"]);
    assert!(p.canary.is_empty());
    let argv = p.argv(0);
    assert!(argv.windows(2).any(|w| w == ["-s", "1"]));
    assert!(argv.windows(2).any(|w| w == ["-e", "2"]));
}

#[test]
fn shard_bid_scales_with_frame_count() {
    let p = plan(&["h1"], 0.0);
    let spec = shard_spec(&p, 0, &params());
    assert_eq!(spec.bid.base(), 20);
}

#[test]
fn run_assembles_complete_manifest() {
    let p = plan(&["h1", "h2"], 0.0);
    let mut dep = FakeDeployer::new(&[("h1", "cidA"), ("h2", "cidB")]);
    let m = run(&mut dep, &p, &params(), None);
    assert!(m.is_complete(), "all frames rendered, none diverged: {m:?}");
    assert_eq!(m.cids(), vec!["cidA", "cidA", "cidB", "cidB"]);
}

#[test]
fn run_reports_dead_host_frames_missing() {
    let p = plan(&["h1", "dead"], 0.0);
    let mut dep = FakeDeployer::new(&[("h1", "cidA")]);
    let m = run(&mut dep, &p, &params(), None);
    assert!(!m.is_complete());
    assert_eq!(m.missing, vec![3, 4]);
    assert_eq!(m.cids(), vec!["cidA", "cidA"]);
}

#[test]
fn verify_dial_catches_fraud() {
    let mut p = plan(&["h1", "h2"], 1.0);
    p.assignment = vec!["h1".into(), "h1".into()];
    let mut dep = FakeDeployer::new(&[("h1", "cidA"), ("h2", "cidA")]);
    dep.liars.insert("h1".into());
    let m = run(&mut dep, &p, &params(), None);
    assert!(!m.diverged.is_empty(), "the verify dial must flag the fraud: {m:?}");
    assert!(!m.is_complete(), "a diverged job is not complete");
    assert_eq!(m.diverged, vec![1, 2, 3, 4]);
    assert_eq!(m.cids(), vec!["FRAUD-cidA"; 4]);
}

#[test]
fn honest_canary_verifies_clean() {
    let mut p = plan(&["h1", "h2"], 1.0);
    p.assignment = vec!["h1".into(), "h1".into()];
    let mut dep = FakeDeployer::new(&[("h1", "cidA"), ("h2", "cidA")]);
    let m = run(&mut dep, &p, &params(), None);
    assert!(m.diverged.is_empty(), "honest re-renders agree: {m:?}");
    assert!(m.is_complete());
    assert!(m.outputs.iter().all(|e| e.verified == Some(true) && e.host == "h1"));
}

#[test]
fn deployments_are_made_in_order_with_their_terms() {
    let p = plan(&["h1", "h2"], 1.0);
    let mut dep = FakeDeployer::new(&[("h1", "x"), ("h2", "x")]);
    run(&mut dep, &p, &params(), Some("chain"));
    let calls = &dep.calls;
    let hosts: Vec<&str> = calls.iter().map(|c| c.0.as_str()).collect();
    assert_eq!(hosts, vec!["h1", "h2", "h2", "h1"]);
    assert_eq!(calls[0].1, p.argv(0));
    assert_eq!(calls[3].1, p.argv(1));
    assert!(calls.iter().all(|c| c.2 == 20 && c.3.as_deref() == Some("chain")));
}

#[test]
fn a_failed_check_leaves_the_frames_unverified() {
    let mut p = plan(&["h1", "h2"], 1.0);
    p.assignment = vec!["h1".into(), "h1".into()];
    let mut dep = FakeDeployer::new(&[("h1", "x")]);
    let m = run(&mut dep, &p, &params(), None);
    assert!(m.is_complete());
    assert!(m.outputs.iter().all(|e| e.verified.is_none()));
    assert_eq!(dep.calls.len(), 4);
}

#[test]
fn a_lone_host_is_not_checked() {
    let p = plan(&["h1"], 1.0);
    let mut dep = FakeDeployer::new(&[("h1", "x")]);
    let m = run(&mut dep, &p, &params(), None);
    assert!(m.is_complete());
    assert_eq!(dep.calls.len(), 2);
}

#[test]
fn an_empty_output_is_a_missing_frame() {
    let p = plan(&["h1", "h2"], 0.0);
    let mut dep = FakeDeployer::new(&[("h1", ""), ("h2", "x")]);
    let m = run(&mut dep, &p, &params(), None);
    assert_eq!(m.missing, vec![1, 2]);
    assert_eq!(m.cids(), vec!["x", "x"]);
    assert!(!m.is_complete());
}

#[test]
fn a_run_goes_step_by_step() {
    let p = plan(&["h1", "h2"], 1.0);
    let terms = params();
    let mut job = Run::start(&p, &terms);
    assert_eq!(job.next().unwrap().host, "h1");
    job.record(None);
    assert_eq!(job.next().unwrap().host, "h2");
    job.record(Some("b".to_string()));
    let check = job.next().unwrap();
    assert_eq!(check.host, "h1");
    assert_eq!(check.spec.cmd, p.argv(1));
    job.record(Some("c".to_string()));
    assert!(job.next().is_none());
    let m = job.finish();
    assert_eq!(m.missing, vec![1, 2]);
    assert_eq!(m.diverged, vec![3, 4]);
}

#[test]
fn a_bid_saturates() {
    let p = plan(&["h1"], 0.0);
    let mut terms = params();
    terms.bid_per_frame = Amount::from_base(i128::MAX);
    assert_eq!(shard_spec(&p, 0, &terms).bid.base(), i128::MAX);
    terms.bid_per_frame = Amount::from_base(i128::MIN);
    assert_eq!(shard_spec(&p, 0, &terms).bid.base(), i128::MIN);
    let spec = shard_spec(&p, 1, &params());
    assert_eq!(
        spec,
        BidSpec {
            image: "ce-net/blender:latest".to_string(),
            cmd: p.argv(1),
            cpu_cores: 2,
            mem_mb: 4096,
            duration_secs: 600,
            bid: Amount::from_base(20),
        }
    );
}

#[test]
fn bids_add_up_to_the_frames() {
    let hosts = strings(&["h1", "h2", "h3"]);
    let range = FrameRange::new(1, 25).unwrap();
    let none = Fraction { bits: 0 };
    let p = Plan::build(range, 10, &hosts, none, "", Kind::Custom, "i".into(), vec![]).unwrap();
    let sum: i128 = (0..p.shards.len()).map(|i| shard_spec(&p, i, &params()).bid.base()).sum();
    assert_eq!(sum, 250);
}

#[test]
fn no_hosts_no_plan() {
    let range = FrameRange::new(1, 4).unwrap();
    let none = Fraction { bits: 0 };
    let e = Plan::build(range, 2, &[], none, "b", Kind::Blender, "i".into(), vec![]).unwrap_err();
    assert_eq!(e, PlanFault::NoHosts);
    assert_eq!(e.message(), "no candidate hosts to place render shards on");
}

fn config(frames: &str, hosts: usize) -> RenderConfig {
    RenderConfig {
        kind: Kind::Chrome,
        image: None,
        input_cid: String::new(),
        frames: frames.to_string(),
        shard_size: 3,
        hosts,
        select: None,
        bid_per_frame: "5".to_string(),
        cpu_cores: 1,
        mem_mb: 1,
        frame_secs: 1,
        verify: Fraction { bits: 1.0f32.to_bits() },
        args: strings(&["-v"]),
        cap: None,
    }
}

#[test]
fn a_configured_plan_takes_the_best_hosts() {
    let ranked = strings(&["a", "b", "c"]);
    let p = build_plan(&config("1-10", 2), &ranked, "tip").unwrap();
    assert_eq!(p.hosts, vec!["a", "b"]);
    assert_eq!(p.assignment, vec!["a", "b", "a", "b"]);
    assert_eq!(p.canary, vec![0, 1, 2, 3]);
    assert_eq!(p.image, "ce-net/headless-chrome:latest");
    assert_eq!(p.args, vec!["-v"]);
    assert_eq!(p.clone(), p);
    assert_eq!(build_plan(&config("1-10", 9), &ranked, "tip").unwrap().hosts.len(), 3);
}

#[test]
fn a_configured_plan_may_be_refused() {
    let e = build_plan(&config("x", 2), &strings(&["a"]), "tip").unwrap_err();
    assert_eq!(e, PlanFault::Frames { fault: RangeFault::BadNumber { spec: "x".to_string() } });
    assert_eq!(e.message(), "bad frame number 'x'");
    assert_eq!(build_plan(&config("1-2", 2), &[], "tip").unwrap_err(), PlanFault::NoHosts);
}

fn atlas_entry(id: &str, tags: &[&str], running_jobs: u32) -> AtlasEntry {
    AtlasEntry { node_id: id.into(), cpu_cores: 4, mem_mb: 8192, running_jobs, last_seen_secs: 0, tags: strings(tags) }
}

#[test]
fn hosts_are_found_and_ranked() {
    let atlas = vec![
        atlas_entry("a", &["docker"], 0),
        atlas_entry("b", &["docker", "gpu"], 5),
        atlas_entry("c", &["gpu"], 0),
        atlas_entry("d", &["docker"], 1),
    ];
    let pool = eligible_hosts(&atlas, None).unwrap();
    assert_eq!(rank_hosts(&pool, &[1, 7, 1]), vec!["b", "a", "d"]);
    assert_eq!(eligible_hosts(&atlas, Some("gpu")).unwrap().len(), 1);
    assert_eq!(
        eligible_hosts(&atlas, Some("tpu")).unwrap_err(),
        "no matching hosts in the atlas (need 'docker' + 'tpu')",
    );
    assert_eq!(eligible_hosts(&[], None).unwrap_err(), "no matching hosts in the atlas (need 'docker')");
}

#[test]
fn polls_are_judged() {
    for status in ["completed", "settled", "exited"] {
        assert_eq!(judge_poll("j", 1, Some(status)), Poll::Output(String::new()));
        assert_eq!(judge_poll("j", POLL_LIMIT, Some(status)), Poll::Output(String::new()));
    }
    assert_eq!(judge_poll("j7", 3, Some("failed")), Poll::Failed("job j7 failed (status failed)".to_string()));
    assert_eq!(judge_poll("j7", 3, Some("error")), Poll::Failed("job j7 failed (status error)".to_string()));
    assert_eq!(judge_poll("j", 599, Some("running")), Poll::Again);
    assert_eq!(judge_poll("j", 599, None), Poll::Again);
    let late = Poll::Expired("job j did not complete within the deadline".to_string());
    assert_eq!(judge_poll("j", 600, None), late);
    assert_eq!(judge_poll("j", 600, Some("running")), late);
}
