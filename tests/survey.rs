use x11hunter::population::PopulationTable;
use x11hunter::error::HuntError;
use x11hunter::survey::{extract_observation, Observation};

fn obs(d: &str, x: Option<&str>) -> Observation {
    Observation::new(d.to_string(), x.map(|s| s.to_string()))
}

#[test]
fn first_display_wins() {
    let o = extract_observation("DISPLAY=:0\0PATH=/bin\0DISPLAY=:1\0", None).unwrap();
    assert_eq!(o.display, ":0");
    assert_eq!(o.xauthority, None);
}

#[test]
fn first_xauthority_wins() {
    let block = "XAUTHORITY=/a\0DISPLAY=:0\0XAUTHORITY=/b\0";
    let o = extract_observation(block, None).unwrap();
    assert_eq!(o.display, ":0");
    assert_eq!(o.xauthority.as_deref(), Some("/a"));
}

#[test]
fn no_display_no_observation() {
    assert!(extract_observation("XAUTHORITY=/a\0HOME=/h\0", None).is_none());
    assert!(extract_observation("DISPLAY=\0", None).is_none());
}

#[test]
fn filter_rejects_other_display() {
    assert!(extract_observation("DISPLAY=:0\0XAUTHORITY=/a\0", Some(":1")).is_none());
}

#[test]
fn filter_accepts_matching_display() {
    let o = extract_observation("DISPLAY=:1\0XAUTHORITY=/b\0", Some(":1")).unwrap();
    assert_eq!(o.display, ":1");
    assert_eq!(o.xauthority.as_deref(), Some("/b"));
}

#[test]
fn most_popular_pair_wins() {
    let mut t = PopulationTable::new();
    t.record(obs(":0", Some("A")));
    t.record(obs(":0", Some("A")));
    t.record(obs(":1", Some("B")));
    assert_eq!(t.total(), 3);
    assert_eq!(t.distinct(), 2);
    let (w, c) = t.winner().unwrap();
    assert_eq!(w.display, ":0");
    assert_eq!(w.xauthority.as_deref(), Some("A"));
    assert_eq!(c, 2);
}

#[test]
fn missing_xauthority_is_its_own_key() {
    let mut t = PopulationTable::new();
    t.record(obs(":0", None));
    t.record(obs(":0", Some("A")));
    t.record(obs(":0", None));
    assert_eq!(t.distinct(), 2);
    let (w, c) = t.winner().unwrap();
    assert_eq!(w.xauthority, None);
    assert_eq!(c, 2);
}

#[test]
fn tie_goes_to_first_observed() {
    let mut t = PopulationTable::new();
    t.record(obs(":1", Some("B")));
    t.record(obs(":0", Some("A")));
    t.record(obs(":0", Some("A")));
    t.record(obs(":1", Some("B")));
    let (w, c) = t.winner().unwrap();
    assert_eq!(w.display, ":1");
    assert_eq!(c, 2);
}

#[test]
fn empty_table_has_no_winner() {
    let t = PopulationTable::new();
    assert!(matches!(t.winner(), Err(HuntError::NoDisplay)));
}

#[test]
fn filtered_inspection_keeps_other_displays_out() {
    let mut t = PopulationTable::new();
    assert!(!t.inspect("DISPLAY=:0\0XAUTHORITY=A\0", Some(":1")));
    assert!(t.inspect("DISPLAY=:1\0XAUTHORITY=B\0", Some(":1")));
    assert!(!t.inspect("HOME=/h\0", Some(":1")));
    assert_eq!(t.total(), 1);
    let (w, c) = t.winner().unwrap();
    assert_eq!(w.display, ":1");
    assert_eq!(w.xauthority.as_deref(), Some("B"));
    assert_eq!(c, 1);
}

#[test]
fn inspection_counts_blocks() {
    let mut t = PopulationTable::new();
    assert!(t.inspect("DISPLAY=:0\0XAUTHORITY=A\0", None));
    assert!(t.inspect("XAUTHORITY=A\0DISPLAY=:0\0", None));
    assert!(t.inspect("DISPLAY=:1\0", None));
    let (w, c) = t.winner().unwrap();
    assert_eq!(w.display, ":0");
    assert_eq!(c, 2);
}

#[test]
fn observations_compare_and_copy() {
    let a = obs(":0", Some("A"));
    assert!(a.same_as(&a.duplicate()));
    assert!(!a.same_as(&obs(":0", None)));
    assert!(!a.same_as(&obs(":1", Some("A"))));
}
