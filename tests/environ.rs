use x11hunter::environ::parse_environ;

fn pairs(v: &[(&str, &str)]) -> Vec<(String, String)> {
    v.iter().map(|(k, x)| (k.to_string(), x.to_string())).collect()
}

#[test]
fn parses_pairs_back_in_order() {
    let want = [("HOME", "/home/u"), ("DISPLAY", ":0"), ("LANG", "fr_FR.UTF-8")];
    let mut block = String::new();
    for (k, v) in want.iter() {
        block.push_str(&format!("{k}={v}\0"));
    }
    assert_eq!(parse_environ(&block), pairs(&want));
}

#[test]
fn value_keeps_later_equals_signs() {
    let got = parse_environ("OPTS=a=b:c\0");
    assert_eq!(got, pairs(&[("OPTS", "a=b:c")]));
}

#[test]
fn unicode_values_survive() {
    let got = parse_environ("NAME=Zoë ☃\0X=1\0");
    assert_eq!(got, pairs(&[("NAME", "Zoë ☃"), ("X", "1")]));
}

#[test]
fn malformed_records_are_dropped() {
    let got = parse_environ("A=1\0NOEQUALS\0=empty\0EMPTY=\0B=2\0");
    assert_eq!(got, pairs(&[("A", "1"), ("B", "2")]));
}

#[test]
fn last_record_may_be_unterminated() {
    let got = parse_environ("A=1\0B=2");
    assert_eq!(got, pairs(&[("A", "1"), ("B", "2")]));
}

#[test]
fn empty_block_has_no_pairs() {
    assert!(parse_environ("").is_empty());
    assert!(parse_environ("\0\0").is_empty());
}
