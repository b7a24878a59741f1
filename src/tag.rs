use vstd::prelude::*;
use crate::policy::{opt_string, TagRecord};

verus! {

/// An ID3 tag as decoded by the `id3` crate; it is only carried through and
/// read by the accessors below.
#[verifier::external_type_specification]
#[verifier::external_body]
pub struct ExTag(id3::Tag);

/// What `id3::TagLike::artist` returns for a tag; it depends on the tag alone.
pub uninterp spec fn artist_of(tag: id3::Tag) -> Option<Seq<char>>;

/// What `id3::TagLike::album` returns for a tag; it depends on the tag alone.
pub uninterp spec fn album_of(tag: id3::Tag) -> Option<Seq<char>>;

/// What `id3::TagLike::title` returns for a tag; it depends on the tag alone.
pub uninterp spec fn title_of(tag: id3::Tag) -> Option<Seq<char>>;

/// What `id3::TagLike::year` returns for a tag; it depends on the tag alone.
pub uninterp spec fn year_of(tag: id3::Tag) -> Option<i32>;

/// What `id3::TagLike::track` returns for a tag; it depends on the tag alone.
pub uninterp spec fn track_of(tag: id3::Tag) -> Option<u32>;

/// What `id3::TagLike::disc` returns for a tag; it depends on the tag alone.
pub uninterp spec fn disc_of(tag: id3::Tag) -> Option<u32>;

/// What `id3::TagLike::total_discs` returns for a tag; it depends on the tag alone.
pub uninterp spec fn total_discs_of(tag: id3::Tag) -> Option<u32>;

/// Relies on `id3::TagLike::artist`: the text of the `TPE1` frame, if any.
#[verifier::external_body]
fn tag_artist(tag: &id3::Tag) -> (r: Option<String>)
    ensures
        opt_string(r) == artist_of(*tag),
{
    id3::TagLike::artist(tag).map(|s| s.to_string())
}

/// Relies on `id3::TagLike::album`: the text of the `TALB` frame, if any.
#[verifier::external_body]
fn tag_album(tag: &id3::Tag) -> (r: Option<String>)
    ensures
        opt_string(r) == album_of(*tag),
{
    id3::TagLike::album(tag).map(|s| s.to_string())
}

/// Relies on `id3::TagLike::title`: the text of the `TIT2` frame, if any.
#[verifier::external_body]
fn tag_title(tag: &id3::Tag) -> (r: Option<String>)
    ensures
        opt_string(r) == title_of(*tag),
{
    id3::TagLike::title(tag).map(|s| s.to_string())
}

/// Relies on `id3::TagLike::year`: the `TYER` frame read as a number, if it
/// is one.
#[verifier::external_body]
fn tag_year(tag: &id3::Tag) -> (r: Option<i32>)
    ensures
        r == year_of(*tag),
{
    id3::TagLike::year(tag)
}

/// Relies on `id3::TagLike::track`: the first number of the `TRCK` frame.
#[verifier::external_body]
fn tag_track(tag: &id3::Tag) -> (r: Option<u32>)
    ensures
        r == track_of(*tag),
{
    id3::TagLike::track(tag)
}

/// Relies on `id3::TagLike::disc`: the first number of the `TPOS` frame.
#[verifier::external_body]
fn tag_disc(tag: &id3::Tag) -> (r: Option<u32>)
    ensures
        r == disc_of(*tag),
{
    id3::TagLike::disc(tag)
}

/// Relies on `id3::TagLike::total_discs`: the second number of the `TPOS`
/// frame.
#[verifier::external_body]
fn tag_total_discs(tag: &id3::Tag) -> (r: Option<u32>)
    ensures
        r == total_discs_of(*tag),
{
    id3::TagLike::total_discs(tag)
}

/// The fields of a decoded tag that decide where its file goes.
pub fn record_from_tag(tag: &id3::Tag) -> (r: TagRecord)
    ensures
        r@.artist == artist_of(*tag),
        r@.album == album_of(*tag),
        r@.title == title_of(*tag),
        r.year == year_of(*tag),
        r.track == track_of(*tag),
        r.disc == disc_of(*tag),
        r.total_discs == total_discs_of(*tag),
{
    TagRecord {
        artist: tag_artist(tag),
        album: tag_album(tag),
        title: tag_title(tag),
        year: tag_year(tag),
        track: tag_track(tag),
        disc: tag_disc(tag),
        total_discs: tag_total_discs(tag),
    }
}

} // verus!
