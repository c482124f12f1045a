use x11hunter::candidates::{filter_candidates, is_candidate_name, ProcEntry};
use x11hunter::env_list::{exports_for, kill_wayland, EnvList};
use x11hunter::shell::escape_for_shell;
use x11hunter::survey::Observation;

#[test]
fn plain_values_are_unchanged() {
    assert_eq!(escape_for_shell(":0"), ":0");
    assert_eq!(escape_for_shell("/run/user/1000/.mutter-Xwaylandauth.X1_2"), "/run/user/1000/.mutter-Xwaylandauth.X1_2");
    assert_eq!(escape_for_shell(""), "");
}

#[test]
fn other_values_are_quoted() {
    assert_eq!(escape_for_shell("a b"), "'a b'");
    assert_eq!(escape_for_shell("it's"), "'it'\\''s'");
    assert_eq!(escape_for_shell("'"), "''\\'''");
}

#[test]
fn env_list_renders_one_line() {
    let mut l = EnvList::new();
    assert_eq!(l.render(), "\n");
    l.add("DISPLAY", ":0");
    l.add("XAUTHORITY", "/tmp/my auth");
    assert_eq!(l.render(), "DISPLAY=:0 XAUTHORITY='/tmp/my auth'\n");
}

#[test]
fn kill_wayland_adds_overrides() {
    let mut l = EnvList::new();
    l.add("DISPLAY", ":0");
    kill_wayland(&mut l);
    assert_eq!(
        l.render(),
        "DISPLAY=:0 GDK_BACKEND=x11 QT_QPA_PLATFORM=xcb CLUTTER_BACKEND=x11 \
         SDL_VIDEO_DRIVER=x11 SDL_VIDEODRIVER=x11 XDG_SESSION_TYPE=x11 ELM_DISPLAY=x11 \
         WINIT_UNIX_BACKEND=x11\n"
    );
}

#[test]
fn candidate_names_are_digits() {
    assert!(is_candidate_name("1234"));
    assert!(!is_candidate_name("self"));
    assert!(!is_candidate_name("12a"));
    assert!(!is_candidate_name(""));
}

#[test]
fn only_own_processes_are_kept() {
    let e = |n: Option<&str>, o: Option<u32>| ProcEntry { name: n.map(|s| s.to_string()), owner: o };
    let entries = vec![
        e(Some("1"), Some(1000)),
        e(Some("2"), Some(0)),
        e(Some("self"), Some(1000)),
        e(None, Some(1000)),
        e(Some("3"), None),
        e(Some("44"), Some(1000)),
    ];
    assert_eq!(filter_candidates(&entries, 1000), vec!["1".to_string(), "44".to_string()]);
    assert!(filter_candidates(&entries, 5).is_empty());
}

#[test]
fn exports_for_winner() {
    let w = Observation::new(":1".to_string(), Some("/home/u/.Xauthority".to_string()));
    assert_eq!(exports_for(&w, false).render(), "DISPLAY=:1 XAUTHORITY=/home/u/.Xauthority\n");
    let bare = Observation::new(":0".to_string(), None);
    let forced = exports_for(&bare, true).render();
    assert!(forced.starts_with("DISPLAY=:0 GDK_BACKEND=x11 "));
    assert!(forced.ends_with(" WINIT_UNIX_BACKEND=x11\n"));
}
