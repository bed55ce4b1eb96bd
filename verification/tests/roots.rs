use ce_render::load_roots;
use ce_render::roots::read_root;

const LOW: &str = "000102030405060708090a0b0c0d0e0f101112131415161718191a1b1c1d1e1f";
const HIGH: &str = "FFfeFDfcFBfaF9f8F7f6F5f4F3f2F1f0EFeeEDecEBeaE9e8E7e6E5e4E3e2E1e0";

fn low() -> [u8; 32] {
    let mut key = [0u8; 32];
    for i in 0..32 {
        key[i] = i as u8;
    }
    key
}

fn high() -> [u8; 32] {
    let mut key = [0u8; 32];
    for i in 0..32 {
        key[i] = 255 - i as u8;
    }
    key
}

#[test]
fn no_file_no_roots() {
    assert!(load_roots(None).is_empty());
    assert!(load_roots(Some("")).is_empty());
}

#[test]
fn keys_are_read_line_by_line() {
    let file = format!("# the fleet\n{LOW}\r\n\n  {HIGH}  # main office\n");
    assert_eq!(load_roots(Some(&file)), vec![low(), high()]);
    assert_eq!(load_roots(Some(LOW)), vec![low()]);
}

#[test]
fn lines_that_are_no_keys_are_passed_over() {
    let short = &LOW[..62];
    let odd = &LOW[..63];
    let bad = LOW.replace('a', "g");
    let file = format!("{short}\n{odd}\n{bad}\n{LOW}00\n#{LOW}\nabc\n\u{e9}\n{HIGH}");
    assert_eq!(load_roots(Some(&file)), vec![high()]);
}

#[test]
fn a_key_may_be_listed_twice() {
    let file = format!("{HIGH}\n{LOW}\n{HIGH}");
    assert_eq!(load_roots(Some(&file)), vec![high(), low(), high()]);
}

#[test]
fn one_line_reads_as_one_key() {
    assert_eq!(read_root(LOW), Some(low()));
    assert_eq!(read_root("  "), None);
    assert_eq!(read_root("#"), None);
}
