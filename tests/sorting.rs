use std::collections::HashMap;
use std::path::Path;

use id3::TagLike;
use music_sorter::{
    classify, place, push_decimal, push_signed_decimal, push_two_digits, record_from_tag,
    same_text, sanitize, sanitize_char, trim, EntryKind, FileAction, PlaceError, Placement, Step,
    TagRecord, Walker,
};

fn record(
    artist: Option<&str>,
    album: Option<&str>,
    title: Option<&str>,
    year: Option<i32>,
    track: Option<u32>,
    disc: Option<u32>,
    total_discs: Option<u32>,
) -> TagRecord {
    TagRecord {
        artist: artist.map(|s| s.to_string()),
        album: album.map(|s| s.to_string()),
        title: title.map(|s| s.to_string()),
        year,
        track,
        disc,
        total_discs,
    }
}

fn sorted(p: Result<Placement, PlaceError>) -> (String, String, String) {
    match p {
        Ok(Placement::Sorted(d)) => (d.artist_dir, d.album_dir, d.file_name),
        other => panic!("expected a destination, got {:?}", other),
    }
}

fn is_quarantine(p: &Result<Placement, PlaceError>) -> bool {
    matches!(p, Ok(Placement::Quarantine))
}

#[test]
fn sanitize_colon_and_slash_each_become_dash() {
    assert_eq!(sanitize("A:B/C"), "A-B-C");
}

#[test]
fn sanitize_maps_every_target_character() {
    assert_eq!(sanitize("a:b/c\\d?e\"f<g>h|i*j"), "a-b-c-d-e'f[g]h-i-j");
}

#[test]
fn sanitize_trims_surrounding_white_space() {
    assert_eq!(sanitize("  AC/DC \t\n"), "AC-DC");
    assert_eq!(sanitize("\u{3000}x y\u{00A0}"), "x y");
    assert_eq!(sanitize("   "), "");
    assert_eq!(sanitize(""), "");
}

#[test]
fn sanitize_is_idempotent() {
    for s in ["A:B/C", "  <x> | \"y\" ", "plain", " \u{2003}*?\u{2003} ", ""] {
        let once = sanitize(s);
        assert_eq!(sanitize(&once), once);
    }
}

#[test]
fn sanitize_char_outputs_are_never_targets() {
    let targets = [':', '/', '\\', '?', '"', '<', '>', '|', '*'];
    for c in targets {
        let out = sanitize_char(c);
        assert!(!targets.contains(&out));
    }
    assert_eq!(sanitize_char('"'), '\'');
    assert_eq!(sanitize_char('<'), '[');
    assert_eq!(sanitize_char('>'), ']');
    assert_eq!(sanitize_char('a'), 'a');
}

#[test]
fn trim_keeps_inner_white_space() {
    assert_eq!(trim("  song  name.mp3 "), "song  name.mp3");
    assert_eq!(trim("x"), "x");
}

#[test]
fn same_text_compares_characters() {
    assert!(same_text("mp3", "mp3"));
    assert!(!same_text("mp3", "MP3"));
    assert!(!same_text("mp3", "mp"));
}

#[test]
fn classify_audio_spellings() {
    assert_eq!(classify(Some("mp3")), FileAction::Examine);
    assert_eq!(classify(Some("MP3")), FileAction::Examine);
    assert_eq!(classify(Some("Mp3")), FileAction::Ignore);
}

#[test]
fn classify_csv_is_deleted() {
    assert_eq!(classify(Some("csv")), FileAction::Delete);
    assert_eq!(classify(Some("CSV")), FileAction::Ignore);
}

#[test]
fn classify_other_files_are_ignored() {
    assert_eq!(classify(Some("txt")), FileAction::Ignore);
    assert_eq!(classify(None), FileAction::Ignore);
    assert_eq!(classify(Some("")), FileAction::Ignore);
}

#[test]
fn end_to_end_destination() {
    let r = record(
        Some("AC/DC"),
        Some("Back In Black"),
        Some("Hells Bells"),
        Some(1980),
        Some(1),
        Some(0),
        Some(0),
    );
    let (a, b, c) = sorted(place(Some(&r), Some("song.mp3")));
    assert_eq!(a, "AC-DC");
    assert_eq!(b, "(1980) Back In Black");
    assert_eq!(c, "[0 of 0][01] Hells Bells.mp3");
    let full = Path::new("sorted-root").join(&a).join(&b).join(&c);
    assert_eq!(
        full,
        Path::new("sorted-root/AC-DC/(1980) Back In Black/[0 of 0][01] Hells Bells.mp3")
    );
}

#[test]
fn absent_numbers_become_zero() {
    let r = record(Some("A"), Some("B"), Some("T"), None, None, None, None);
    let (_, b, c) = sorted(place(Some(&r), Some("x.mp3")));
    assert_eq!(b, "(0) B");
    assert_eq!(c, "[0 of 0][00] T.mp3");
}

#[test]
fn numbers_are_written_in_decimal() {
    let r = record(Some(" A "), Some(" B? "), Some(" T* "), Some(-5), Some(123), Some(2), Some(3));
    let (a, b, c) = sorted(place(Some(&r), None));
    assert_eq!(a, "A");
    assert_eq!(b, "(-5) B-");
    assert_eq!(c, "[2 of 3][123] T-.mp3");
    let r = record(Some("A"), Some("B"), Some("T"), Some(i32::MIN), Some(12), Some(u32::MAX), Some(10));
    let (_, b, c) = sorted(place(Some(&r), None));
    assert_eq!(b, "(-2147483648) B");
    assert_eq!(c, "[4294967295 of 10][12] T.mp3");
}

#[test]
fn missing_title_falls_back_to_file_name() {
    let r = record(Some("A"), Some("B"), None, Some(2001), Some(7), Some(1), Some(2));
    let (_, _, c) = sorted(place(Some(&r), Some(" song:1.mp3 ")));
    assert_eq!(c, "[1 of 2][07] song:1.mp3.mp3");
}

#[test]
fn missing_title_and_file_name_is_an_error() {
    let r = record(Some("A"), Some("B"), None, None, None, None, None);
    assert!(matches!(place(Some(&r), None), Err(PlaceError::MissingFileName)));
}

#[test]
fn unreadable_tag_is_quarantined() {
    assert!(is_quarantine(&place(None, Some("broken.mp3"))));
    assert!(is_quarantine(&place(None, None)));
}

#[test]
fn missing_artist_or_album_is_quarantined() {
    let r = record(None, Some("B"), Some("T"), None, None, None, None);
    assert!(is_quarantine(&place(Some(&r), Some("x.mp3"))));
    let r = record(Some("A"), None, Some("T"), None, None, None, None);
    assert!(is_quarantine(&place(Some(&r), Some("x.mp3"))));
    let r = record(None, None, None, None, None, None, None);
    assert!(is_quarantine(&place(Some(&r), None)));
}

#[test]
fn destination_is_determined_by_sanitized_fields() {
    let r1 = record(Some("AC/DC"), Some("X:Y"), Some("T"), Some(1), Some(2), None, Some(0));
    let r2 = record(Some(" AC:DC"), Some("X/Y "), Some(" T "), Some(1), Some(2), Some(0), None);
    assert_eq!(sorted(place(Some(&r1), None)), sorted(place(Some(&r2), Some("other.mp3"))));
}

#[test]
fn decimal_formatting() {
    let mut s = String::new();
    push_decimal(&mut s, u64::MAX);
    assert_eq!(s, "18446744073709551615");
    let mut s = String::from("x");
    push_signed_decimal(&mut s, -40);
    assert_eq!(s, "x-40");
    let mut s = String::new();
    push_two_digits(&mut s, 0);
    push_two_digits(&mut s, 9);
    push_two_digits(&mut s, 10);
    assert_eq!(s, "000910");
}

#[test]
fn record_from_tag_reads_fields() {
    let mut tag = id3::Tag::new();
    tag.set_artist("AC/DC");
    tag.set_album("Back In Black");
    tag.set_title("Hells Bells");
    tag.set_year(1980);
    tag.set_track(1);
    tag.set_disc(2);
    tag.set_total_discs(3);
    let r = record_from_tag(&tag);
    assert_eq!(r.artist.as_deref(), Some("AC/DC"));
    assert_eq!(r.album.as_deref(), Some("Back In Black"));
    assert_eq!(r.title.as_deref(), Some("Hells Bells"));
    assert_eq!(r.year, Some(1980));
    assert_eq!(r.track, Some(1));
    assert_eq!(r.disc, Some(2));
    assert_eq!(r.total_discs, Some(3));
    let empty = record_from_tag(&id3::Tag::new());
    assert!(empty.artist.is_none() && empty.year.is_none() && empty.total_discs.is_none());
}

/// Runs a walk over an in-memory tree, one entry at a time.
fn walk_tree(tree: &HashMap<&'static str, Vec<(&'static str, EntryKind)>>, root: &'static str) -> Vec<&'static str> {
    let mut walker = Walker::new(root);
    let mut visited = Vec::new();
    while let Some(dir) = walker.next_dir() {
        for (path, kind) in tree.get(dir).cloned().unwrap_or_default() {
            match walker.on_entry(path, kind) {
                Step::Visit(p) => visited.push(p),
                Step::Queued => {}
                Step::Skipped(_) => {}
            }
        }
    }
    visited
}

#[test]
fn walk_is_breadth_first() {
    let mut tree = HashMap::new();
    tree.insert("r", vec![("r/A", EntryKind::Directory), ("r/B", EntryKind::Directory), ("r/f", EntryKind::File)]);
    tree.insert("r/A", vec![("r/A/a", EntryKind::File)]);
    tree.insert("r/B", vec![("r/B/b", EntryKind::File)]);
    assert_eq!(walk_tree(&tree, "r"), vec!["r/f", "r/A/a", "r/B/b"]);
}

#[test]
fn walk_visits_every_file_once() {
    let mut tree = HashMap::new();
    tree.insert("r", vec![("r/1", EntryKind::File), ("r/d", EntryKind::Directory), ("r/l", EntryKind::LinkToDirectory)]);
    tree.insert("r/d", vec![("r/d/e", EntryKind::Directory), ("r/d/2", EntryKind::LinkToFile), ("r/d/x", EntryKind::Other)]);
    tree.insert("r/d/e", vec![("r/d/e/f", EntryKind::Directory), ("r/d/e/3", EntryKind::File)]);
    tree.insert("r/d/e/f", vec![("r/d/e/f/4", EntryKind::File), ("r/d/e/f/5", EntryKind::File)]);
    tree.insert("r/l", vec![("r/l/6", EntryKind::File), ("r/l/broken", EntryKind::LinkToOther)]);
    let mut visited = walk_tree(&tree, "r");
    assert_eq!(visited.len(), 6);
    assert_eq!(visited, vec!["r/1", "r/d/2", "r/l/6", "r/d/e/3", "r/d/e/f/4", "r/d/e/f/5"]);
    visited.sort();
    visited.dedup();
    assert_eq!(visited.len(), 6);
}

#[test]
fn walk_by_whole_listings() {
    let mut walker = Walker::new("r");
    assert_eq!(walker.next_dir(), Some("r"));
    let files = walker.on_listing(vec![
        ("r/A", EntryKind::Directory),
        ("r/f", EntryKind::File),
        ("r/s", EntryKind::Other),
        ("r/B", EntryKind::LinkToDirectory),
        ("r/g", EntryKind::LinkToFile),
    ]);
    assert_eq!(files, vec!["r/f", "r/g"]);
    assert_eq!(walker.next_dir(), Some("r/A"));
    assert_eq!(walker.next_dir(), Some("r/B"));
    assert_eq!(walker.next_dir(), None);
}

#[test]
fn skipped_entries_are_handed_back() {
    let mut walker = Walker::new("r");
    assert_eq!(walker.next_dir(), Some("r"));
    assert_eq!(walker.on_entry("r/x", EntryKind::LinkToOther), Step::Skipped("r/x"));
    assert_eq!(walker.on_entry("r/y", EntryKind::Other), Step::Skipped("r/y"));
    assert_eq!(walker.next_dir(), None);
}

#[test]
fn walk_visits_root_files_first_in_any_listing_order() {
    let mut tree = HashMap::new();
    tree.insert("r", vec![("r/B", EntryKind::Directory), ("r/f", EntryKind::File), ("r/A", EntryKind::Directory)]);
    tree.insert("r/A", vec![("r/A/a", EntryKind::File)]);
    tree.insert("r/B", vec![("r/B/b", EntryKind::File)]);
    assert_eq!(walk_tree(&tree, "r"), vec!["r/f", "r/B/b", "r/A/a"]);
}
