use ce_render::config::{
    default_bid, default_cpu, default_frame_secs, default_hosts, default_mem, default_shard_size, loaded_cap,
    ConfigError, ConfigFault, RenderConfig,
};
use ce_render::farm::deploy_params;
use ce_render::fraction::Fraction;
use ce_render::proto::Kind;
use ce_render::shard::{FrameRange, RangeFault};

fn fraction(x: f32) -> Fraction {
    Fraction { bits: x.to_bits() }
}

fn string(t: &toml::Table, name: &str) -> Option<String> {
    t.get(name).map(|v| v.as_str().unwrap().to_string())
}

fn integer(t: &toml::Table, name: &str) -> Option<u64> {
    t.get(name).map(|v| v.as_integer().unwrap() as u64)
}

/// Reads a configuration from TOML text and checks it.
fn parse(text: &str) -> Result<RenderConfig, ConfigError> {
    let t: toml::Table = text.parse().unwrap();
    let cfg = RenderConfig {
        kind: match t["kind"].as_str().unwrap() {
            "blender" => Kind::Blender,
            "chrome" => Kind::Chrome,
            "custom" => Kind::Custom,
            other => panic!("no kind: {other}"),
        },
        image: string(&t, "image"),
        input_cid: string(&t, "input_cid").unwrap_or_default(),
        frames: string(&t, "frames").unwrap(),
        shard_size: integer(&t, "shard_size").map_or(default_shard_size(), |n| n as u32),
        hosts: integer(&t, "hosts").map_or(default_hosts(), |n| n as usize),
        select: string(&t, "select"),
        bid_per_frame: string(&t, "bid_per_frame").unwrap_or(default_bid()),
        cpu_cores: integer(&t, "cpu_cores").map_or(default_cpu(), |n| n as u32),
        mem_mb: integer(&t, "mem_mb").unwrap_or(default_mem()),
        frame_secs: integer(&t, "frame_secs").unwrap_or(default_frame_secs()),
        verify: fraction(t.get("verify").map_or(0.0, |v| v.as_float().unwrap() as f32)),
        args: t.get("args").map_or(Vec::new(), |v| {
            v.as_array().unwrap().iter().map(|a| a.as_str().unwrap().to_string()).collect()
        }),
        cap: loaded_cap(t.get("cap").map(|v| v.as_str().unwrap())),
    };
    cfg.validate()?;
    Ok(cfg)
}

const MINIMAL: &str = r#"
        kind = "blender"
        frames = "1-100"
    "#;

#[test]
fn parses_minimal_with_defaults() {
    let cfg = parse(MINIMAL).unwrap();
    assert_eq!(cfg.kind, Kind::Blender);
    assert_eq!(cfg.shard_size, 10);
    assert_eq!(cfg.hosts, 4);
    assert_eq!(cfg.bid_per_frame, "10000000000000000");
    assert_eq!(cfg.image(), "ce-net/blender:latest");
    assert_eq!(cfg.range().unwrap(), FrameRange::new(1, 100).unwrap());
    assert_eq!(f32::from_bits(cfg.verify.bits), 0.0);
}

#[test]
fn parses_full_config() {
    let text = r#"
            kind = "chrome"
            image = "myorg/chrome:1"
            input_cid = "abc123"
            frames = "0-49"
            shard_size = 5
            hosts = 6
            select = "gpu"
            bid_per_frame = "20000000000000000"
            cpu_cores = 4
            mem_mb = 8192
            frame_secs = 300
            verify = 0.1
            args = ["--window-size=1920,1080"]
            cap = "deadbeef"
        "#;
    let cfg = parse(text).unwrap();
    assert_eq!(cfg.kind, Kind::Chrome);
    assert_eq!(cfg.image(), "myorg/chrome:1");
    assert_eq!(cfg.input_cid, "abc123");
    assert_eq!(cfg.select.as_deref(), Some("gpu"));
    assert_eq!(f32::from_bits(cfg.verify.bits), 0.1);
    assert_eq!(cfg.args, vec!["--window-size=1920,1080"]);
    assert_eq!(cfg.cap.as_deref(), Some("deadbeef"));
}

#[test]
fn rejects_float_bid() {
    let text = "kind=\"blender\"\nframes=\"1-10\"\nbid_per_frame=\"0.01\"";
    assert!(parse(text).is_err(), "floats are forbidden for money");
}

#[test]
fn rejects_non_numeric_bid() {
    let text = "kind=\"blender\"\nframes=\"1-10\"\nbid_per_frame=\"lots\"";
    assert!(parse(text).is_err());
}

#[test]
fn rejects_bad_verify_fraction() {
    let text = "kind=\"blender\"\nframes=\"1-10\"\nverify=1.5";
    assert!(parse(text).is_err());
}

#[test]
fn rejects_zero_hosts() {
    let text = "kind=\"blender\"\nframes=\"1-10\"\nhosts=0";
    assert!(parse(text).is_err());
}

#[test]
fn rejects_inverted_range() {
    let text = "kind=\"blender\"\nframes=\"100-1\"";
    assert!(parse(text).is_err());
}

#[test]
fn a_loaded_chain_is_trimmed() {
    assert_eq!(loaded_cap(Some(" c0ffee\n")).as_deref(), Some("c0ffee"));
    assert_eq!(loaded_cap(Some("  ")).as_deref(), Some(""));
    assert_eq!(loaded_cap(None), None);
}

/// A configuration that is accepted.
fn sample() -> RenderConfig {
    parse("kind=\"blender\"\nframes=\"1-10\"").unwrap()
}

fn refusal(change: fn(&mut RenderConfig)) -> ConfigError {
    let mut cfg = sample();
    change(&mut cfg);
    cfg.validate().unwrap_err()
}

#[test]
fn each_refusal_says_why() {
    let e = refusal(|c| c.frames = "9-1".to_string());
    assert_eq!(e, ConfigFault::Frames { fault: RangeFault::Inverted { start: 9, end: 1 } });
    assert_eq!(e.message(""), "invalid frame range 9-1: end is before start");
    assert_eq!(refusal(|c| c.hosts = 0).message(""), "hosts must be >= 1");
    let e = refusal(|c| c.verify = fraction(1.5));
    assert_eq!(e, ConfigFault::BadVerify { verify: fraction(1.5) });
    assert_eq!(e.message("1.5"), "verify must be in [0.0, 1.0], got 1.5");
    assert_eq!(refusal(|c| c.verify = fraction(f32::NAN)).message("NaN"), "verify must be in [0.0, 1.0], got NaN");
    assert_eq!(refusal(|c| c.cpu_cores = 0).message(""), "cpu_cores must be >= 1");
    assert_eq!(refusal(|c| c.mem_mb = 0).message(""), "mem_mb must be >= 1");
    assert_eq!(
        refusal(|c| c.bid_per_frame = "1.0".to_string()).message(""),
        "bid_per_frame must be integer base units (a decimal string), not a float",
    );
    assert_eq!(
        refusal(|c| c.bid_per_frame = "-1".to_string()).message(""),
        "bid_per_frame '-1' is not a base-unit integer",
    );
}

#[test]
fn the_first_fault_is_named() {
    let e = refusal(|c| {
        c.mem_mb = 0;
        c.hosts = 0;
    });
    assert_eq!(e, ConfigFault::NoHosts);
}

#[test]
fn params_come_from_the_config() {
    let cfg = sample();
    let params = deploy_params(&cfg).unwrap();
    assert_eq!((params.cpu_cores, params.mem_mb, params.duration_secs), (2, 4096, 600));
    assert_eq!(params.bid_per_frame.base(), 10_000_000_000_000_000);
}

#[test]
fn a_bid_above_the_largest_amount_is_refused_late() {
    let mut cfg = sample();
    cfg.bid_per_frame = "170141183460469231731687303715884105727".to_string();
    assert_eq!(deploy_params(&cfg).unwrap().bid_per_frame.base(), i128::MAX);
    cfg.bid_per_frame = "170141183460469231731687303715884105728".to_string();
    assert!(cfg.validate().is_ok());
    let e = deploy_params(&cfg).unwrap_err();
    assert_eq!(e, ConfigFault::BidOutOfRange);
    assert_eq!(e.message(""), "bid_per_frame must be integer base units");
    cfg.bid_per_frame = "340282366920938463463374607431768211455".to_string();
    assert!(cfg.validate().is_ok());
    cfg.bid_per_frame = "340282366920938463463374607431768211456".to_string();
    assert!(cfg.validate().is_err());
}
