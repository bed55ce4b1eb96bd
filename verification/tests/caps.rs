use ce_render::caps;

fn resolve(explicit: Option<&str>, from_config: Option<&str>) -> String {
    caps::resolve(explicit, from_config, None, None)
}

#[test]
fn explicit_takes_precedence_over_config() {
    assert_eq!(resolve(Some("deadbeef"), Some("c0ffee")), "deadbeef");
    assert_eq!(resolve(Some("  abc  "), None), "abc");
}

#[test]
fn config_used_when_no_flag() {
    assert_eq!(resolve(None, Some("c0ffee")), "c0ffee");
    assert_eq!(resolve(Some("  "), Some("c0ffee")), "c0ffee");
}

#[test]
fn empty_everywhere_yields_empty() {
    assert_eq!(resolve(Some("  "), Some("  ")), "");
    assert_eq!(caps::resolve(None, None, Some("\n"), Some("\t ")), "");
}

#[test]
fn grant_maps_empty_to_none() {
    assert_eq!(caps::grant(""), None);
    assert_eq!(caps::grant("  "), None);
    assert_eq!(caps::grant("abc"), Some("abc"));
}

#[test]
fn environment_then_file() {
    assert_eq!(caps::resolve(None, Some(" "), Some(" env\n"), Some("file")), "env");
    assert_eq!(caps::resolve(Some(""), None, Some(""), Some("\nfile\r\n")), "file");
    assert_eq!(caps::resolve(None, None, None, Some("file")), "file");
}

#[test]
fn a_resolved_chain_is_granted_as_it_is() {
    let chain = caps::resolve(Some(" a b "), None, None, None);
    assert_eq!(caps::grant(&chain), Some("a b"));
    assert_eq!(caps::grant(" x "), Some("x"));
}
