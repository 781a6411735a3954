//! Conversion of a Traktor track collection into a Rekordbox one.
//!
//! [`traktor_to_rekordbox`] takes a whole collection and makes one track for
//! each of its entries. Title, artist, genre, tempo and playing time are
//! carried over as they are. Three things are worked out:
//!
//! - the key, from open-key notation to wheel notation ([`key`]);
//! - the location, from volume, directory and file name to a `file://` URI
//!   ([`location`]);
//! - the cue points, from fractions of a millisecond to whole milliseconds
//!   written in seconds ([`cue`], [`decimal`]).
//!
//! What each function returns is stated over the records' views, by the
//! functions `playlists_of`, `track_of`, `mark_of`, `location_uri` and
//! `camelot_key`.

use vstd::prelude::*;
use vstd::string::*;

pub mod cue;
pub mod decimal;
pub mod digits;
pub mod error;
pub mod key;
pub mod location;
pub mod rekordbox_collection;
pub mod traktor_collection;

use crate::cue::{convert_cues, cues_convertible, marks_of};
use crate::digits::{
    all_digits, chars_of, decimal_digits, digit_of, digit_value, digits_value, is_digit,
    is_digit_char, push_decimal,
};
use crate::error::ConversionError;
use crate::key::{
    camelot_key, camelot_letter, camelot_number, is_open_key, key_number_text,
    lemma_modulo_twelve_step, lemma_modulo_twelve_turn,
};
use crate::location::{location_uri, reconstruct_path};
use crate::rekordbox_collection::{DjPlaylists, DjPlaylistsView, Track, TrackView};
use crate::traktor_collection::{Entry, EntryView, Nml, NmlView};

verus! {

/// The Rekordbox track for a Traktor track: title, artist, genre, tempo and
/// playing time as they are, the key in wheel notation, the location as a
/// URI, and a mark for each cue.
pub open spec fn track_of(entry: EntryView) -> TrackView {
    TrackView {
        title: entry.title,
        artist: entry.artist,
        genre: entry.info.genre,
        key: camelot_key(entry.info.key),
        location: location_uri(entry.location),
        bpm: entry.tempo.bpm,
        total_time: entry.info.playtime,
        position_marks: marks_of(entry.cues),
    }
}

/// The Rekordbox tracks for a list of Traktor tracks: one for each, in the
/// same order, and no list where there is none.
pub open spec fn tracks_of(entries: Option<Seq<EntryView>>) -> Option<Seq<TrackView>> {
    match entries {
        Some(entries) => Some(entries.map_values(|entry: EntryView| track_of(entry))),
        None => None,
    }
}

/// Every cue of every track has a start that can be converted.
pub open spec fn entries_convertible(entries: Option<Seq<EntryView>>) -> bool {
    match entries {
        Some(entries) => forall|i: int|
            0 <= i < entries.len() ==> cues_convertible((#[trigger] entries[i]).cues),
        None => true,
    }
}

/// The version that every converted document carries, whatever the version
/// of the document it was made from.
pub open spec fn playlists_version() -> Seq<char> {
    "1.0.0"@
}

/// The Rekordbox document for a Traktor document.
pub open spec fn playlists_of(nml: NmlView) -> DjPlaylistsView {
    DjPlaylistsView {
        version: playlists_version(),
        collection: crate::rekordbox_collection::CollectionView {
            tracks: tracks_of(nml.collection.entries),
        },
    }
}

/// The tracks mirror the entries: a list exactly where there is a list of
/// entries, as long as that list, with the track of each entry in that
/// entry's place.
pub proof fn lemma_tracks_mirror_entries(entries: Option<Seq<EntryView>>)
    ensures
        tracks_of(entries) is None <==> entries is None,
        entries matches Some(list) ==> tracks_of(entries)->0.len() == list.len(),
        entries matches Some(list) ==> forall|i: int|
            0 <= i < list.len() ==> (#[trigger] tracks_of(entries)->0[i]) == track_of(list[i]),
{
}

/// Converts one track. Fails if the start of one of its cues cannot be
/// converted.
pub fn convert_entry(entry: &Entry) -> (track: Result<Track, ConversionError>)
    ensures
        track is Ok <==> cues_convertible(entry@.cues),
        track matches Ok(made) ==> made@ == track_of(entry@),
        track matches Ok(made) ==> (made.position_marks is None <==> entry.cues is None),
        track matches Ok(made) ==> (entry.cues matches Some(cues) ==> made.position_marks
            matches Some(marks) && marks.len() == cues.len()),
        track matches Err(error) ==> error == ConversionError::UnparsableCueStart,
{
    let position_marks = match convert_cues(&entry.cues) {
        Err(error) => {
            return Err(error);
        },
        Ok(marks) => marks,
    };
    Ok(
        Track {
            title: entry.title.clone(),
            artist: entry.artist.clone(),
            genre: entry.info.genre.clone(),
            key: convert_open_key_to_camelot(entry.info.key.as_str()),
            location: reconstruct_path(&entry.location),
            bpm: entry.tempo.bpm.clone(),
            total_time: entry.info.playtime.clone(),
            position_marks,
        },
    )
}

/// Converts a Traktor document to a Rekordbox document: one track for each
/// entry, in the same order, and no track list where there is no list of
/// entries. Fails, with nothing converted, if the start of some cue cannot be
/// converted.
pub fn traktor_to_rekordbox(nml: Nml) -> (playlists: Result<DjPlaylists, ConversionError>)
    ensures
        playlists is Ok <==> entries_convertible(nml@.collection.entries),
        playlists matches Ok(made) ==> made@ == playlists_of(nml@),
        playlists matches Ok(made) ==> made.version@ == "1.0.0"@,
        playlists matches Ok(made) ==> (made.collection.tracks is None
            <==> nml.collection.entries is None),
        playlists matches Ok(made) ==> (nml.collection.entries matches Some(entries)
            ==> made.collection.tracks matches Some(tracks) && tracks.len() == entries.len()
            && forall|i: int|
            0 <= i < tracks.len() ==> (#[trigger] tracks[i])@ == track_of(entries[i]@)),
        playlists matches Err(error) ==> error == ConversionError::UnparsableCueStart,
{
    let tracks = match &nml.collection.entries {
        None => None,
        Some(entries) => {
            let mut made: Vec<Track> = Vec::new();
            let mut i: usize = 0;
            while i < entries.len()
                invariant
                    nml.collection.entries == Some(*entries),
                    i <= entries.len(),
                    made.len() == i,
                    forall|j: int|
                        0 <= j < i ==> cues_convertible((#[trigger] entries[j])@.cues) && made[j]@
                            == track_of(entries[j]@),
                decreases entries.len() - i,
            {
                match convert_entry(&entries[i]) {
                    Err(error) => {
                        assert(nml@.collection.entries->0[i as int] == entries[i as int]@);
                        return Err(error);
                    },
                    Ok(track) => {
                        made.push(track);
                    },
                }
                i += 1;
            }
            proof {
                let views = nml@.collection.entries->0;
                assert forall|j: int| 0 <= j < views.len() implies cues_convertible(
                    (#[trigger] views[j]).cues,
                ) by {
                    assert(views[j] == entries[j]@);
                }
                assert(made@.map_values(|track: Track| track@) =~= views.map_values(
                    |entry: EntryView| track_of(entry),
                ));
            }
            Some(made)
        },
    };
    Ok(
        DjPlaylists {
            version: String::from_str("1.0.0"),
            collection: crate::rekordbox_collection::Collection { tracks },
        },
    )
}

/// The number written by the digits `chars[from..to]`, modulo twelve, or
/// `None` where one of these characters is no digit.
fn digits_modulo_twelve(chars: &Vec<char>, from: usize, to: usize) -> (turned: Option<u8>)
    requires
        from <= to <= chars.len(),
    ensures
        turned is Some <==> all_digits(chars@.subrange(from as int, to as int)),
        turned is Some ==> turned->0 == digits_value(chars@.subrange(from as int, to as int)) % 12,
{
    let mut turned: u8 = 0;
    let mut i: usize = from;
    while i < to
        invariant
            from <= i <= to <= chars.len(),
            all_digits(chars@.subrange(from as int, i as int)),
            turned == digits_value(chars@.subrange(from as int, i as int)) % 12,
        decreases to - i,
    {
        let c = chars[i];
        if !is_digit_char(c) {
            assert(chars@.subrange(from as int, to as int)[i - from] == c);
            return None;
        }
        proof {
            let shorter = chars@.subrange(from as int, i as int);
            let longer = chars@.subrange(from as int, i + 1);
            assert(longer.drop_last() =~= shorter);
            assert(longer.last() == c);
            assert(all_digits(longer)) by {
                assert forall|j: int| 0 <= j < longer.len() implies is_digit(#[trigger] longer[j]) by {
                    if j < shorter.len() {
                        assert(longer[j] == shorter[j]);
                    }
                }
            }
            lemma_modulo_twelve_step(digits_value(shorter), digit_value(c));
        }
        turned = ((turned as u32 * 10 + digit_of(c) as u32) % 12) as u8;
        i += 1;
    }
    Some(turned)
}

/// Converts a key from open-key notation to wheel notation; any other string
/// comes back unchanged.
pub fn convert_open_key_to_camelot(open_key: &str) -> (camelot: String)
    ensures
        camelot@ == camelot_key(open_key@),
        !is_open_key(open_key@) ==> camelot@ == open_key@,
        is_open_key(open_key@) ==> camelot@ == decimal_digits(camelot_number(open_key@)).push(
            camelot_letter(open_key@.last()),
        ),
{
    let chars = chars_of(open_key);
    let n = chars.len();
    if n < 2 {
        return String::from_str(open_key);
    }
    let quality = chars[n - 1];
    let first: usize = if chars[0] == '+' { 1 } else { 0 };
    assert(key_number_text(open_key@) =~= chars@.subrange(first as int, n - 1));
    if first == n - 1 || (quality != 'm' && quality != 'd') {
        return String::from_str(open_key);
    }
    match digits_modulo_twelve(&chars, first, n - 1) {
        None => String::from_str(open_key),
        Some(turned) => {
            let number: u8 = (turned + 7) % 12;
            proof {
                lemma_modulo_twelve_turn(digits_value(key_number_text(open_key@)));
                assert(number == camelot_number(open_key@));
            }
            let mut camelot = String::new();
            push_decimal(&mut camelot, number as u128);
            camelot.push(if quality == 'm' { 'A' } else { 'B' });
            camelot
        },
    }
}

} // verus!
