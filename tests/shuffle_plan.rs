use f32ms::layout::{Entry, Op};
use f32ms::names::{has_mp3_extension, import_name, is_track_name, link_name};
use f32ms::plan::{draw_order, pass_count, select_tracks, total_of, ShuffleError};
use f32ms::shuffle::{shuffle, shuffle_ops};

const SECOND: u64 = 1_000_000_000;

fn file(name: &str) -> Entry {
    Entry { name: name.to_string(), is_file: true }
}

fn dir(name: &str) -> Entry {
    Entry { name: name.to_string(), is_file: false }
}

fn three_tracks() -> Vec<Entry> {
    vec![file("a.mp3.x"), file("b.mp3.x"), file("c.mp3.x")]
}

fn hardlinks(ops: &[Op]) -> Vec<(String, String)> {
    ops.iter()
        .filter_map(|o| match o {
            Op::Hardlink { link, source } => Some((link.clone(), source.clone())),
            _ => None,
        })
        .collect()
}

fn is_permutation(block: &[usize], n: usize) -> bool {
    let mut seen = vec![false; n];
    for &i in block {
        if i >= n || seen[i] {
            return false;
        }
        seen[i] = true;
    }
    block.len() == n
}

#[test]
fn link_names_are_decimal_indices() {
    assert_eq!(link_name(0), "0.mp3");
    assert_eq!(link_name(9), "9.mp3");
    assert_eq!(link_name(14), "14.mp3");
    assert_eq!(link_name(1234), "1234.mp3");
}

#[test]
fn import_names_keep_ascii_and_add_suffix() {
    assert_eq!(import_name("a.mp3"), "a.mp3.x");
    assert_eq!(import_name("héllo wörld.mp3"), "hllo wrld.mp3.x");
    assert_eq!(import_name("日本.mp3"), ".mp3.x");
}

#[test]
fn track_names_end_with_mp3_x() {
    assert!(is_track_name("a.mp3.x"));
    assert!(!is_track_name("a.mp3"));
    assert!(!is_track_name("a.x"));
    assert!(!is_track_name("notes.txt"));
}

#[test]
fn mp3_extension_is_case_sensitive_and_needs_a_stem() {
    assert!(has_mp3_extension("a.mp3"));
    assert!(has_mp3_extension("..mp3"));
    assert!(!has_mp3_extension(".mp3"));
    assert!(!has_mp3_extension("a.MP3"));
    assert!(!has_mp3_extension("a.mp3.x"));
    assert!(!has_mp3_extension("mp3"));
}

#[test]
fn select_tracks_ignores_directories_and_other_files() {
    let orig = vec![file("a.mp3.x"), dir("sub.mp3.x"), file("notes.txt"), file("b.mp3.x")];
    assert_eq!(select_tracks(&orig), vec!["a.mp3.x".to_string(), "b.mp3.x".to_string()]);
}

#[test]
fn total_of_sums_durations() {
    assert_eq!(total_of(&vec![]), 0);
    assert_eq!(total_of(&vec![30 * SECOND, 45 * SECOND, 60 * SECOND]), 135 * SECOND as u128);
    assert_eq!(total_of(&vec![u64::MAX, u64::MAX]), 2 * u64::MAX as u128);
}

#[test]
fn pass_count_without_fill_is_one() {
    assert_eq!(pass_count(&vec![1, 2, 3], None), Ok(1));
}

#[test]
fn pass_count_fill_rounds_up() {
    let d = vec![30 * SECOND, 45 * SECOND, 60 * SECOND];
    assert_eq!(pass_count(&d, Some(600 * SECOND)), Ok(5));
    assert_eq!(pass_count(&d, Some(270 * SECOND)), Ok(2));
    assert_eq!(pass_count(&d, Some(271 * SECOND)), Ok(3));
}

#[test]
fn pass_count_refuses_fill_already_met() {
    let d = vec![30 * SECOND, 45 * SECOND, 60 * SECOND];
    assert_eq!(
        pass_count(&d, Some(135 * SECOND)),
        Err(ShuffleError::FillAlreadyMet { total: 135 * SECOND as u128, fill: 135 * SECOND })
    );
    assert_eq!(
        pass_count(&d, Some(100 * SECOND)),
        Err(ShuffleError::FillAlreadyMet { total: 135 * SECOND as u128, fill: 100 * SECOND })
    );
}

#[test]
fn pass_count_refuses_too_few_tracks() {
    assert_eq!(pass_count(&vec![SECOND, SECOND], None), Err(ShuffleError::TooFewTracks { found: 2 }));
    assert_eq!(pass_count(&vec![], Some(SECOND)), Err(ShuffleError::TooFewTracks { found: 0 }));
}

#[test]
fn pass_count_refuses_fill_without_duration() {
    assert_eq!(pass_count(&vec![0, 0, 0], Some(SECOND)), Err(ShuffleError::NoDuration));
}

#[test]
fn pass_count_refuses_too_many_links() {
    assert_eq!(pass_count(&vec![0, 1, 1], Some(u64::MAX)), Err(ShuffleError::TooManyLinks));
}

#[test]
fn drawn_order_is_made_of_permutations() {
    let order = draw_order(3, 5);
    assert_eq!(order.len(), 15);
    for block in order.chunks(3) {
        assert!(is_permutation(block, 3));
    }
    assert!(draw_order(4, 0).is_empty());
}

#[test]
fn shuffle_ops_sets_flag_clears_then_links() {
    let link = vec![file("0.mp3"), dir("keep"), file("1.mp3")];
    let tracks = vec!["a.mp3.x".to_string(), "b.mp3.x".to_string(), "c.mp3.x".to_string()];
    let ops = shuffle_ops(&link, &tracks, &vec![2, 0, 1]);
    assert!(matches!(ops[0], Op::CreateFlag));
    assert!(matches!(&ops[1], Op::RemoveLink { name } if name == "0.mp3"));
    assert!(matches!(&ops[2], Op::RemoveLink { name } if name == "1.mp3"));
    assert_eq!(ops.len(), 6);
    assert_eq!(
        hardlinks(&ops),
        vec![
            ("0.mp3".to_string(), "c.mp3.x".to_string()),
            ("1.mp3".to_string(), "a.mp3.x".to_string()),
            ("2.mp3".to_string(), "b.mp3.x".to_string()),
        ]
    );
}

#[test]
fn shuffle_without_fill_links_each_track_once() {
    let ops = shuffle(&three_tracks(), &vec![], &vec![30 * SECOND, 45 * SECOND, 60 * SECOND], None).unwrap();
    assert!(matches!(ops[0], Op::CreateFlag));
    let links = hardlinks(&ops);
    let names: Vec<&str> = links.iter().map(|l| l.0.as_str()).collect();
    assert_eq!(names, vec!["0.mp3", "1.mp3", "2.mp3"]);
    let mut sources: Vec<&str> = links.iter().map(|l| l.1.as_str()).collect();
    sources.sort();
    assert_eq!(sources, vec!["a.mp3.x", "b.mp3.x", "c.mp3.x"]);
}

#[test]
fn shuffle_with_fill_makes_five_passes() {
    let ops = shuffle(&three_tracks(), &vec![], &vec![30 * SECOND, 45 * SECOND, 60 * SECOND], Some(600 * SECOND)).unwrap();
    let links = hardlinks(&ops);
    assert_eq!(links.len(), 15);
    for (j, (name, _)) in links.iter().enumerate() {
        assert_eq!(name, &format!("{}.mp3", j));
    }
    for block in links.chunks(3) {
        let mut sources: Vec<&str> = block.iter().map(|l| l.1.as_str()).collect();
        sources.sort();
        assert_eq!(sources, vec!["a.mp3.x", "b.mp3.x", "c.mp3.x"]);
    }
}

#[test]
fn shuffle_with_two_tracks_is_refused() {
    let orig = vec![file("a.mp3.x"), file("b.mp3.x")];
    let r = shuffle(&orig, &vec![], &vec![30 * SECOND, 45 * SECOND], None);
    assert!(matches!(r, Err(ShuffleError::TooFewTracks { found: 2 })));
}

#[test]
fn reshuffle_removes_every_old_link() {
    let old: Vec<Entry> = (0..15).map(|j| file(&format!("{}.mp3", j))).collect();
    let ops = shuffle(&three_tracks(), &old, &vec![SECOND, SECOND, SECOND], None).unwrap();
    let removed: Vec<&Op> = ops.iter().filter(|o| matches!(o, Op::RemoveLink { .. })).collect();
    assert_eq!(removed.len(), 15);
    assert_eq!(hardlinks(&ops).len(), 3);
}
