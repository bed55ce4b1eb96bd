use ce_render::proto::{render_argv, Kind, ABILITY_FRAME, INPUT_PATH, OUTPUT_DIR, SERVICE_HOST};
use ce_render::shard::FrameRange;

fn rng(a: u32, b: u32) -> FrameRange {
    FrameRange::new(a, b).unwrap()
}

#[test]
fn blender_argv_carries_frame_range() {
    let argv = render_argv(Kind::Blender, rng(10, 20), &[]);
    let s = argv.iter().position(|a| a == "-s").unwrap();
    assert_eq!(argv[s + 1], "10");
    let e = argv.iter().position(|a| a == "-e").unwrap();
    assert_eq!(argv[e + 1], "20");
    assert!(argv.contains(&"-a".to_string()), "animation flag renders the whole range");
    assert_eq!(argv[0], "blender");
}

#[test]
fn blender_appends_extra_args() {
    let argv = render_argv(Kind::Blender, rng(1, 1), &["--render-format".into(), "PNG".into()]);
    assert!(argv.windows(2).any(|w| w == ["--render-format", "PNG"]));
}

#[test]
fn chrome_argv_carries_index_range() {
    let argv = render_argv(Kind::Chrome, rng(0, 5), &[]);
    let from = argv.iter().position(|a| a == "--from").unwrap();
    assert_eq!(argv[from + 1], "0");
    let to = argv.iter().position(|a| a == "--to").unwrap();
    assert_eq!(argv[to + 1], "5");
}

#[test]
fn custom_substitutes_placeholders() {
    let tmpl = vec!["mytool".into(), "--range={start}:{end}".into(), "{input}".into(), "-o".into(), "{out}".into()];
    let argv = render_argv(Kind::Custom, rng(7, 9), &tmpl);
    assert_eq!(argv, vec!["mytool", "--range=7:9", INPUT_PATH, "-o", OUTPUT_DIR]);
}

#[test]
fn default_images_per_kind() {
    assert_eq!(Kind::Blender.default_image(), "ce-net/blender:latest");
    assert_eq!(Kind::Chrome.default_image(), "ce-net/headless-chrome:latest");
    assert_eq!(Kind::Custom.default_image(), "alpine:latest");
}

#[test]
fn whole_commands() {
    assert_eq!(
        render_argv(Kind::Blender, rng(1, 2), &["x".into()]),
        vec!["blender", "-b", "/work/input", "-o", "/work/out/frame_", "-s", "1", "-e", "2", "-a", "x"],
    );
    assert_eq!(
        render_argv(Kind::Chrome, rng(3, 4), &["y".into()]),
        vec!["ce-render-chrome", "--input", "/work/input", "--out", "/work/out", "--from", "3", "--to", "4", "y"],
    );
    assert!(render_argv(Kind::Custom, rng(3, 4), &[]).is_empty());
}

#[test]
fn every_placeholder_is_replaced_and_other_braces_stay() {
    let words = vec!["{start}{start}-{end}".into(), "{input}:{out}".into(), "{other}".into(), "{".into()];
    assert_eq!(
        render_argv(Kind::Custom, rng(5, 6), &words),
        vec!["55-6", "/work/input:/work/out", "{other}", "{"],
    );
}

#[test]
fn protocol_names() {
    assert_eq!(ABILITY_FRAME, "render:frame");
    assert_eq!(SERVICE_HOST, "render:host");
}
