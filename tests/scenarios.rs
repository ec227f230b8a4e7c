use f32ms::clean::{clean, CmdClean};
use f32ms::import::{import, ImportStep};
use f32ms::layout::Op;
use f32ms::plan::ShuffleError;
use f32ms::shuffle::{shuffle, shuffle_ops};
use f32ms::volume::Volume;

const SECOND: u64 = 1_000_000_000;

fn names(v: &[&str]) -> Vec<String> {
    v.iter().map(|s| s.to_string()).collect()
}

fn imported() -> Volume {
    let mut v = Volume::formatted();
    let steps = import(&v.music_listing(), &names(&["a.mp3", "b.mp3", "c.mp3"]));
    for s in &steps {
        assert!(v.import_step(s));
    }
    v
}

fn durations() -> Vec<u64> {
    vec![30 * SECOND, 45 * SECOND, 60 * SECOND]
}

fn link_names(v: &Volume) -> Vec<String> {
    v.link.iter().map(|f| f.name.clone()).collect()
}

fn cluster_of(v: &Volume, name: &str) -> u32 {
    v.orig.iter().find(|f| f.name == name).unwrap().cluster
}

#[test]
fn format_then_import_three_files() {
    let v = imported();
    let orig: Vec<&str> = v.orig.iter().map(|f| f.name.as_str()).collect();
    assert_eq!(orig, vec!["a.mp3.x", "b.mp3.x", "c.mp3.x"]);
    assert!(v.link.is_empty());
    assert!(!v.dirty);
    let clusters: Vec<u32> = v.orig.iter().map(|f| f.cluster).collect();
    assert_eq!(clusters, vec![2, 3, 4]);
}

#[test]
fn shuffle_with_no_fill() {
    let mut v = imported();
    let ops = shuffle(&v.music_listing(), &v.link_listing(), &durations(), None).unwrap();
    v.apply_all(&ops);
    assert_eq!(link_names(&v), names(&["0.mp3", "1.mp3", "2.mp3"]));
    let mut clusters: Vec<u32> = v.link.iter().map(|f| f.cluster).collect();
    clusters.sort();
    assert_eq!(clusters, vec![2, 3, 4]);
    assert!(v.dirty);
}

#[test]
fn shuffle_with_fill_of_ten_minutes() {
    let mut v = imported();
    let ops = shuffle(&v.music_listing(), &v.link_listing(), &durations(), Some(600 * SECOND)).unwrap();
    v.apply_all(&ops);
    let expected: Vec<String> = (0..15).map(|j| format!("{}.mp3", j)).collect();
    assert_eq!(link_names(&v), expected);
    for block in v.link.chunks(3) {
        let mut c: Vec<u32> = block.iter().map(|f| f.cluster).collect();
        c.sort();
        assert_eq!(c, vec![2, 3, 4]);
    }
    assert!(v.dirty);
}

#[test]
fn clean_after_fill_shuffle_keeps_originals() {
    let mut v = imported();
    let ops = shuffle(&v.music_listing(), &v.link_listing(), &durations(), Some(600 * SECOND)).unwrap();
    v.apply_all(&ops);
    let before: Vec<(String, u32)> = v.orig.iter().map(|f| (f.name.clone(), f.cluster)).collect();
    let ops = clean(&v.link_listing(), &v.music_listing(), &CmdClean { songs: false });
    v.apply_all(&ops);
    assert!(v.link.is_empty());
    assert!(!v.dirty);
    let after: Vec<(String, u32)> = v.orig.iter().map(|f| (f.name.clone(), f.cluster)).collect();
    assert_eq!(before, after);
}

#[test]
fn clean_with_songs_empties_both_directories() {
    let mut v = imported();
    let ops = shuffle(&v.music_listing(), &v.link_listing(), &durations(), None).unwrap();
    v.apply_all(&ops);
    let ops = clean(&v.link_listing(), &v.music_listing(), &CmdClean { songs: true });
    v.apply_all(&ops);
    assert!(v.link.is_empty());
    assert!(v.orig.is_empty());
    assert!(!v.dirty);
}

#[test]
fn reimport_after_first_import_skips() {
    let mut v = imported();
    let steps = import(&v.music_listing(), &names(&["a.mp3"]));
    assert_eq!(steps.len(), 1);
    assert!(matches!(&steps[0], ImportStep::Skip { name, .. } if name == "a.mp3.x"));
    let before: Vec<(String, u32)> = v.orig.iter().map(|f| (f.name.clone(), f.cluster)).collect();
    assert!(v.import_step(&steps[0]));
    let after: Vec<(String, u32)> = v.orig.iter().map(|f| (f.name.clone(), f.cluster)).collect();
    assert_eq!(before, after);
}

#[test]
fn shuffle_with_two_originals_fails_and_changes_nothing() {
    let mut v = Volume::formatted();
    for s in &import(&v.music_listing(), &names(&["a.mp3", "b.mp3"])) {
        v.import_step(s);
    }
    let r = shuffle(&v.music_listing(), &v.link_listing(), &vec![30 * SECOND, 45 * SECOND], None);
    assert_eq!(r.unwrap_err(), ShuffleError::TooFewTracks { found: 2 });
    assert!(v.link.is_empty());
    assert!(!v.dirty);
    assert_eq!(v.orig.len(), 2);
}

#[test]
fn second_shuffle_replaces_the_first() {
    let mut v = imported();
    let ops = shuffle(&v.music_listing(), &v.link_listing(), &durations(), Some(600 * SECOND)).unwrap();
    v.apply_all(&ops);
    assert_eq!(v.link.len(), 15);
    let ops = shuffle(&v.music_listing(), &v.link_listing(), &durations(), None).unwrap();
    v.apply_all(&ops);
    assert_eq!(link_names(&v), names(&["0.mp3", "1.mp3", "2.mp3"]));
}

#[test]
fn flag_is_set_after_first_write_and_stays_set() {
    let mut v = imported();
    let tracks = names(&["a.mp3.x", "b.mp3.x", "c.mp3.x"]);
    let ops = shuffle_ops(&v.link_listing(), &tracks, &vec![1, 2, 0, 2, 1, 0]);
    for op in &ops {
        v.apply(op);
        assert!(v.dirty);
    }
    assert_eq!(v.link[0].cluster, cluster_of(&v, "b.mp3.x"));
    assert_eq!(v.link[5].cluster, cluster_of(&v, "a.mp3.x"));
}

#[test]
fn hardlink_refused_for_missing_original_or_taken_name() {
    let mut v = imported();
    assert!(!v.apply(&Op::Hardlink { link: "0.mp3".to_string(), source: "z.mp3.x".to_string() }));
    assert!(v.link.is_empty());
    assert!(v.apply(&Op::Hardlink { link: "0.mp3".to_string(), source: "a.mp3.x".to_string() }));
    assert!(!v.apply(&Op::Hardlink { link: "0.mp3".to_string(), source: "b.mp3.x".to_string() }));
    assert_eq!(v.link.len(), 1);
    assert_eq!(v.link[0].cluster, 2);
}
