use f32ms::clean::{clean, CmdClean};
use f32ms::fix::{length_check, should_process, LengthCheck};
use f32ms::import::{import, ImportStep};
use f32ms::info::summarize;
use f32ms::layout::{is_dirty, is_managed, volume_label, Entry, Op, DIRTY_FLAG_FILE, LINK_DIR, MUSIC_DIR, MUSIC_EXT};

fn file(name: &str) -> Entry {
    Entry { name: name.to_string(), is_file: true }
}

fn dir(name: &str) -> Entry {
    Entry { name: name.to_string(), is_file: false }
}

fn names(v: &[&str]) -> Vec<String> {
    v.iter().map(|s| s.to_string()).collect()
}

#[test]
fn layout_constants() {
    assert_eq!(MUSIC_DIR, "ORIG");
    assert_eq!(LINK_DIR, "LINK");
    assert_eq!(DIRTY_FLAG_FILE, "DO_NOT_MODIFY");
    assert_eq!(MUSIC_EXT, ".x");
    assert_eq!(&volume_label(), b"fat32ms\0\0\0\0");
}

#[test]
fn managed_needs_both_directories() {
    assert!(is_managed(&vec![dir("ORIG"), file("README.txt"), dir("LINK")]));
    assert!(!is_managed(&vec![dir("ORIG")]));
    assert!(!is_managed(&vec![dir("ORIG"), file("LINK")]));
    assert!(!is_managed(&vec![]));
}

#[test]
fn import_three_files_into_empty_volume() {
    let steps = import(&vec![], &names(&["a.mp3", "b.mp3", "c.mp3"]));
    assert_eq!(steps.len(), 3);
    for (i, (step, name)) in steps.iter().zip(["a.mp3.x", "b.mp3.x", "c.mp3.x"]).enumerate() {
        assert!(matches!(step, ImportStep::Copy { index, name: n } if *index == i && n == name));
    }
}

#[test]
fn reimport_skips_existing_original() {
    let orig = vec![file("a.mp3.x"), file("b.mp3.x"), file("c.mp3.x")];
    let steps = import(&orig, &names(&["a.mp3"]));
    assert_eq!(steps.len(), 1);
    assert!(matches!(&steps[0], ImportStep::Skip { index: 0, name } if name == "a.mp3.x"));
}

#[test]
fn import_skips_duplicate_within_one_run() {
    let steps = import(&vec![dir("d.mp3.x")], &names(&["a.mp3", "ä.mp3", "a.mp3", "d.mp3", "é.mp3"]));
    assert!(matches!(&steps[0], ImportStep::Copy { index: 0, name } if name == "a.mp3.x"));
    assert!(matches!(&steps[1], ImportStep::Copy { index: 1, name } if name == ".mp3.x"));
    assert!(matches!(&steps[2], ImportStep::Skip { index: 2, name } if name == "a.mp3.x"));
    assert!(matches!(&steps[3], ImportStep::Skip { index: 3, name } if name == "d.mp3.x"));
    assert!(matches!(&steps[4], ImportStep::Skip { index: 4, name } if name == ".mp3.x"));
}

#[test]
fn import_twice_copies_nothing_the_second_time() {
    let files = names(&["a.mp3", "b.mp3"]);
    let first = import(&vec![], &files);
    let after: Vec<Entry> = first
        .iter()
        .filter_map(|s| match s {
            ImportStep::Copy { name, .. } => Some(file(name)),
            ImportStep::Skip { .. } => None,
        })
        .collect();
    let second = import(&after, &files);
    assert!(second.iter().all(|s| matches!(s, ImportStep::Skip { .. })));
}

#[test]
fn clean_ops_for_links_only() {
    let link = vec![file("0.mp3"), dir("sub"), file("1.mp3")];
    let orig = vec![file("a.mp3.x")];
    let ops = clean(&link, &orig, &CmdClean { songs: false });
    assert_eq!(ops.len(), 3);
    assert!(matches!(&ops[0], Op::RemoveLink { name } if name == "0.mp3"));
    assert!(matches!(&ops[1], Op::RemoveLink { name } if name == "1.mp3"));
    assert!(matches!(ops[2], Op::RemoveFlag));
}

#[test]
fn clean_with_songs_removes_originals() {
    let link = vec![file("0.mp3")];
    let orig = vec![file("a.mp3.x"), dir("keep"), file("b.mp3.x")];
    let ops = clean(&link, &orig, &CmdClean { songs: true });
    assert_eq!(ops.len(), 4);
    assert!(matches!(&ops[1], Op::RemoveOriginal { name } if name == "a.mp3.x"));
    assert!(matches!(&ops[2], Op::RemoveOriginal { name } if name == "b.mp3.x"));
    assert!(matches!(ops[3], Op::RemoveFlag));
}

#[test]
fn clean_of_empty_volume_only_drops_flag() {
    let ops = clean(&vec![], &vec![], &CmdClean { songs: false });
    assert_eq!(ops.len(), 1);
    assert!(matches!(ops[0], Op::RemoveFlag));
}

#[test]
fn summary_adds_runtimes_and_counts_links() {
    let s = summarize(true, &vec![30, 45, 60], &vec![30, 45]);
    assert!(s.dirty);
    assert_eq!(s.original_runtime, 135);
    assert_eq!(s.playlist_runtime, 75);
    assert_eq!(s.link_count, 2);
}

#[test]
fn length_check_flags_empty_and_shrunk_outputs() {
    assert_eq!(length_check(100, 0), LengthCheck::Empty);
    assert_eq!(length_check(100, 100), LengthCheck::Fine);
    assert_eq!(length_check(180, 100), LengthCheck::Shrunk);
    assert_eq!(length_check(179, 100), LengthCheck::Fine);
    assert_eq!(length_check(50, 100), LengthCheck::Fine);
}

#[test]
fn existing_outputs_are_kept_unless_overwriting() {
    assert!(should_process(true, true));
    assert!(should_process(false, false));
    assert!(!should_process(false, true));
}

#[test]
fn dirty_flag_is_a_root_file() {
    assert!(is_dirty(&vec![dir("ORIG"), dir("LINK"), file("DO_NOT_MODIFY")]));
    assert!(!is_dirty(&vec![dir("ORIG"), dir("LINK"), file("README.txt")]));
    assert!(!is_dirty(&vec![dir("DO_NOT_MODIFY")]));
}
