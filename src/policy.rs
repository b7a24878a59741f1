use vstd::prelude::*;
use vstd::string::*;
use crate::format::{decimal, push_decimal, push_signed_decimal, push_two_digits, signed_decimal, two_digits};
use crate::text::{push_char, same_text, sanitize, sanitized, trim, trimmed};

verus! {

/// What is done with a visited file, decided by its extension.
#[derive(PartialEq, Eq, Structural, Clone, Copy, Debug)]
pub enum FileAction {
    /// An index file: it is deleted.
    Delete,
    /// An audio file: its tag decides where it goes.
    Examine,
    /// Anything else: it is left where it is.
    Ignore,
}

pub open spec fn is_audio_extension(e: Seq<char>) -> bool {
    e == "mp3"@ || e == "MP3"@
}

pub open spec fn is_index_extension(e: Seq<char>) -> bool {
    e == "csv"@
}

pub open spec fn action_of(extension: Option<Seq<char>>) -> FileAction {
    match extension {
        Some(e) => if is_audio_extension(e) {
            FileAction::Examine
        } else if is_index_extension(e) {
            FileAction::Delete
        } else {
            FileAction::Ignore
        },
        None => FileAction::Ignore,
    }
}

pub open spec fn opt_text(s: Option<&str>) -> Option<Seq<char>> {
    match s {
        Some(t) => Some(t@),
        None => None,
    }
}

/// Decides what happens to a file from its extension; the comparison is
/// exact and case-sensitive.
pub fn classify(extension: Option<&str>) -> (r: FileAction)
    ensures
        r == action_of(opt_text(extension)),
{
    match extension {
        Some(e) => if same_text(e, "mp3") || same_text(e, "MP3") {
            FileAction::Examine
        } else if same_text(e, "csv") {
            FileAction::Delete
        } else {
            FileAction::Ignore
        },
        None => FileAction::Ignore,
    }
}

/// The fields of a file's tag that decide where the file goes.
#[derive(Clone, Debug)]
pub struct TagRecord {
    pub artist: Option<String>,
    pub album: Option<String>,
    pub title: Option<String>,
    pub year: Option<i32>,
    pub track: Option<u32>,
    pub disc: Option<u32>,
    pub total_discs: Option<u32>,
}

pub struct TagRecordView {
    pub artist: Option<Seq<char>>,
    pub album: Option<Seq<char>>,
    pub title: Option<Seq<char>>,
    pub year: Option<i32>,
    pub track: Option<u32>,
    pub disc: Option<u32>,
    pub total_discs: Option<u32>,
}

pub open spec fn opt_string(s: Option<String>) -> Option<Seq<char>> {
    match s {
        Some(t) => Some(t@),
        None => None,
    }
}

impl View for TagRecord {
    type V = TagRecordView;

    open spec fn view(&self) -> TagRecordView {
        TagRecordView {
            artist: opt_string(self.artist),
            album: opt_string(self.album),
            title: opt_string(self.title),
            year: self.year,
            track: self.track,
            disc: self.disc,
            total_discs: self.total_discs,
        }
    }
}

/// Where a tagged file goes, below the root of the sorted tree: three path
/// components.
#[derive(Clone, Debug)]
pub struct Destination {
    pub artist_dir: String,
    pub album_dir: String,
    pub file_name: String,
}

pub struct DestinationView {
    pub artist_dir: Seq<char>,
    pub album_dir: Seq<char>,
    pub file_name: Seq<char>,
}

impl View for Destination {
    type V = DestinationView;

    open spec fn view(&self) -> DestinationView {
        DestinationView {
            artist_dir: self.artist_dir@,
            album_dir: self.album_dir@,
            file_name: self.file_name@,
        }
    }
}

/// What becomes of an audio file once its tag has been read.
#[derive(Clone, Debug)]
pub enum Placement {
    /// The tag is unreadable or lacks the artist or the album.
    Quarantine,
    /// The file is moved to this place in the sorted tree.
    Sorted(Destination),
}

pub enum PlacementView {
    Quarantine,
    Sorted(DestinationView),
}

impl View for Placement {
    type V = PlacementView;

    open spec fn view(&self) -> PlacementView {
        match self {
            Placement::Quarantine => PlacementView::Quarantine,
            Placement::Sorted(d) => PlacementView::Sorted(d@),
        }
    }
}

/// Why no place could be computed for a file.
#[derive(PartialEq, Eq, Structural, Clone, Copy, Debug)]
pub enum PlaceError {
    /// The tag has no title and the file's path has no file name to stand
    /// in for it.
    MissingFileName,
}

/// The album directory: `(<year>) <album>`.
pub open spec fn album_dir_of(year: int, album: Seq<char>) -> Seq<char> {
    seq!['('] + signed_decimal(year) + seq![')', ' '] + sanitized(album)
}

/// The file name: `[<disc> of <total discs>][<track, two digits>] <title>.mp3`.
pub open spec fn file_name_of(disc: nat, total_discs: nat, track: nat, title: Seq<char>) -> Seq<
    char,
> {
    seq!['['] + decimal(disc) + seq![' ', 'o', 'f', ' '] + decimal(total_discs) + seq![']', '[']
        + two_digits(track) + seq![']', ' '] + title + seq!['.', 'm', 'p', '3']
}

/// The title used in the file name: the sanitized tag title, or else the
/// file's own name with surrounding white space trimmed.
pub open spec fn title_text(title: Option<Seq<char>>, file_name: Seq<char>) -> Seq<char> {
    match title {
        Some(t) => sanitized(t),
        None => trimmed(file_name),
    }
}

pub open spec fn or_zero_i32(v: Option<i32>) -> int {
    match v {
        Some(x) => x as int,
        None => 0,
    }
}

pub open spec fn or_zero(v: Option<u32>) -> nat {
    match v {
        Some(x) => x as nat,
        None => 0,
    }
}

pub open spec fn destination_of(
    artist: Seq<char>,
    album: Seq<char>,
    t: TagRecordView,
    title: Seq<char>,
) -> DestinationView {
    DestinationView {
        artist_dir: sanitized(artist),
        album_dir: album_dir_of(or_zero_i32(t.year), album),
        file_name: file_name_of(or_zero(t.disc), or_zero(t.total_discs), or_zero(t.track), title),
    }
}

/// What becomes of an audio file, given its tag (none when it could not be
/// read) and its file name (none when its path has none).
pub open spec fn placement_of(tag: Option<TagRecordView>, file_name: Option<Seq<char>>) -> Result<
    PlacementView,
    PlaceError,
> {
    match tag {
        None => Ok(PlacementView::Quarantine),
        Some(t) => match (t.artist, t.album) {
            (Some(artist), Some(album)) => {
                if t.title is None && file_name is None {
                    Err(PlaceError::MissingFileName)
                } else {
                    Ok(
                        PlacementView::Sorted(
                            destination_of(
                                artist,
                                album,
                                t,
                                title_text(t.title, file_name.unwrap_or(Seq::empty())),
                            ),
                        ),
                    )
                }
            },
            _ => Ok(PlacementView::Quarantine),
        },
    }
}

pub open spec fn opt_record(tag: Option<&TagRecord>) -> Option<TagRecordView> {
    match tag {
        Some(t) => Some(t@),
        None => None,
    }
}

pub open spec fn placement_view(r: Result<Placement, PlaceError>) -> Result<PlacementView, PlaceError> {
    match r {
        Ok(p) => Ok(p@),
        Err(e) => Err(e),
    }
}

/// A tagged file's destination depends on nothing but its sanitized artist
/// and album, its year, disc, total discs and track (each zero when absent),
/// and the title it is filed under (the sanitized title, or else its trimmed
/// file name).
pub proof fn lemma_destination_determined(
    t1: TagRecordView,
    n1: Option<Seq<char>>,
    t2: TagRecordView,
    n2: Option<Seq<char>>,
)
    requires
        t1.artist is Some && t1.album is Some,
        t2.artist is Some && t2.album is Some,
        t1.title is Some || n1 is Some,
        t2.title is Some || n2 is Some,
        sanitized(t1.artist.unwrap()) == sanitized(t2.artist.unwrap()),
        sanitized(t1.album.unwrap()) == sanitized(t2.album.unwrap()),
        or_zero_i32(t1.year) == or_zero_i32(t2.year),
        or_zero(t1.disc) == or_zero(t2.disc),
        or_zero(t1.total_discs) == or_zero(t2.total_discs),
        or_zero(t1.track) == or_zero(t2.track),
        title_text(t1.title, n1.unwrap_or(Seq::empty())) == title_text(
            t2.title,
            n2.unwrap_or(Seq::empty()),
        ),
    ensures
        placement_of(Some(t1), n1) == placement_of(Some(t2), n2),
        placement_of(Some(t1), n1) is Ok,
{
}

/// A file whose tag could not be read is quarantined, whatever its name.
pub proof fn lemma_unreadable_tag_quarantined(file_name: Option<Seq<char>>)
    ensures
        placement_of(None, file_name) == Ok::<PlacementView, PlaceError>(PlacementView::Quarantine),
{
}

/// An index file is deleted, and never examined for a tag.
pub proof fn lemma_index_file_deleted(extension: Seq<char>)
    requires
        extension == "csv"@,
    ensures
        action_of(Some(extension)) == FileAction::Delete,
{
    reveal_strlit("csv");
    reveal_strlit("mp3");
    reveal_strlit("MP3");
    assert(extension[0] != "mp3"@[0]);
    assert(extension[0] != "MP3"@[0]);
}

/// A file with no extension, or one that is neither an audio nor an index
/// extension, is left alone.
pub proof fn lemma_other_files_ignored(extension: Option<Seq<char>>)
    requires
        extension is None || !(is_audio_extension(extension.unwrap()) || is_index_extension(
            extension.unwrap(),
        )),
    ensures
        action_of(extension) == FileAction::Ignore,
{
}

fn or_zero_u32(v: Option<u32>) -> (r: u32)
    ensures
        r as nat == or_zero(v),
{
    match v {
        Some(x) => x,
        None => 0,
    }
}

fn album_dir(year: i32, album: &str) -> (r: String)
    ensures
        r@ == seq!['('] + signed_decimal(year as int) + seq![')', ' '] + album@,
{
    let mut r = String::new();
    push_char(&mut r, '(');
    push_signed_decimal(&mut r, year);
    push_char(&mut r, ')');
    push_char(&mut r, ' ');
    r.append(album);
    assert(r@ =~= seq!['('] + signed_decimal(year as int) + seq![')', ' '] + album@);
    r
}

fn track_file_name(disc: u32, total_discs: u32, track: u32, title: &str) -> (r: String)
    ensures
        r@ == file_name_of(disc as nat, total_discs as nat, track as nat, title@),
{
    let mut r = String::new();
    push_char(&mut r, '[');
    push_decimal(&mut r, disc as u64);
    push_char(&mut r, ' ');
    push_char(&mut r, 'o');
    push_char(&mut r, 'f');
    push_char(&mut r, ' ');
    push_decimal(&mut r, total_discs as u64);
    push_char(&mut r, ']');
    push_char(&mut r, '[');
    push_two_digits(&mut r, track);
    push_char(&mut r, ']');
    push_char(&mut r, ' ');
    r.append(title);
    push_char(&mut r, '.');
    push_char(&mut r, 'm');
    push_char(&mut r, 'p');
    push_char(&mut r, '3');
    assert(r@ =~= file_name_of(disc as nat, total_discs as nat, track as nat, title@));
    r
}

/// Decides what becomes of an audio file from its tag (`None` when the tag
/// could not be read) and its file name (`None` when its path has none).
///
/// A file without a readable tag, or whose tag lacks the artist or the album,
/// is quarantined. Otherwise it goes to
/// `<artist>/(<year>) <album>/[<disc> of <total discs>][<track>] <title>.mp3`,
/// with the text fields sanitized, absent numbers taken as zero and the
/// track written with at least two digits. Without a title the file's own
/// name, trimmed, stands in for it; without that either there is no place.
pub fn place(tag: Option<&TagRecord>, file_name: Option<&str>) -> (r: Result<Placement, PlaceError>)
    ensures
        placement_view(r) == placement_of(opt_record(tag), opt_text(file_name)),
{
    let t = match tag {
        Some(t) => t,
        None => return Ok(Placement::Quarantine),
    };
    let artist = match &t.artist {
        Some(a) => sanitize(a.as_str()),
        None => return Ok(Placement::Quarantine),
    };
    let album = match &t.album {
        Some(a) => sanitize(a.as_str()),
        None => return Ok(Placement::Quarantine),
    };
    let title = match &t.title {
        Some(x) => sanitize(x.as_str()),
        None => match file_name {
            Some(n) => trim(n),
            None => return Err(PlaceError::MissingFileName),
        },
    };
    let year: i32 = match t.year {
        Some(y) => y,
        None => 0,
    };
    let dest = Destination {
        artist_dir: artist,
        album_dir: album_dir(year, album.as_str()),
        file_name: track_file_name(
            or_zero_u32(t.disc),
            or_zero_u32(t.total_discs),
            or_zero_u32(t.track),
            title.as_str(),
        ),
    };
    Ok(Placement::Sorted(dest))
}

} // verus!
