//! The records of a Rekordbox collection (a `DJ_PLAYLISTS` document), as the
//! converter writes them.

use vstd::prelude::*;

verus! {

/// A whole `DJ_PLAYLISTS` document.
#[derive(Debug, PartialEq, Eq)]
pub struct DjPlaylists {
    pub version: String,
    pub collection: Collection,
}

/// The track list of the document, absent where there is none.
#[derive(Debug, PartialEq, Eq)]
pub struct Collection {
    pub tracks: Option<Vec<Track>>,
}

/// One track. `key` is in wheel notation, `location` a `file://` URI.
#[derive(Debug, PartialEq, Eq)]
pub struct Track {
    pub title: String,
    pub artist: String,
    pub genre: String,
    pub key: String,
    pub location: String,
    pub bpm: String,
    pub total_time: String,
    pub position_marks: Option<Vec<PositionMark>>,
}

/// One position mark: its name, its kind (always a memory cue), its start in
/// seconds with three decimals, and its number.
#[derive(Debug, PartialEq, Eq)]
pub struct PositionMark {
    pub name: String,
    pub kind: String,
    pub start: String,
    pub num: i32,
}

/// What a [`DjPlaylists`] holds.
pub struct DjPlaylistsView {
    pub version: Seq<char>,
    pub collection: CollectionView,
}

/// What a [`Collection`] holds: its tracks in order, or nothing.
pub struct CollectionView {
    pub tracks: Option<Seq<TrackView>>,
}

/// What a [`Track`] holds.
pub struct TrackView {
    pub title: Seq<char>,
    pub artist: Seq<char>,
    pub genre: Seq<char>,
    pub key: Seq<char>,
    pub location: Seq<char>,
    pub bpm: Seq<char>,
    pub total_time: Seq<char>,
    pub position_marks: Option<Seq<PositionMarkView>>,
}

/// What a [`PositionMark`] holds.
pub struct PositionMarkView {
    pub name: Seq<char>,
    pub kind: Seq<char>,
    pub start: Seq<char>,
    pub num: i32,
}

impl View for PositionMark {
    type V = PositionMarkView;

    open spec fn view(&self) -> PositionMarkView {
        PositionMarkView { name: self.name@, kind: self.kind@, start: self.start@, num: self.num }
    }
}

/// A mark list as its marks' views, in order; no list where there is none.
pub open spec fn mark_list_view(marks: Option<Vec<PositionMark>>) -> Option<
    Seq<PositionMarkView>,
> {
    match marks {
        Some(marks) => Some(marks@.map_values(|mark: PositionMark| mark@)),
        None => None,
    }
}

/// A track list as its tracks' views, in order; no list where there is none.
pub open spec fn track_list_view(tracks: Option<Vec<Track>>) -> Option<Seq<TrackView>> {
    match tracks {
        Some(tracks) => Some(tracks@.map_values(|track: Track| track@)),
        None => None,
    }
}

impl View for Track {
    type V = TrackView;

    open spec fn view(&self) -> TrackView {
        TrackView {
            title: self.title@,
            artist: self.artist@,
            genre: self.genre@,
            key: self.key@,
            location: self.location@,
            bpm: self.bpm@,
            total_time: self.total_time@,
            position_marks: mark_list_view(self.position_marks),
        }
    }
}

impl View for Collection {
    type V = CollectionView;

    open spec fn view(&self) -> CollectionView {
        CollectionView {
            tracks: track_list_view(self.tracks),
        }
    }
}

impl View for DjPlaylists {
    type V = DjPlaylistsView;

    open spec fn view(&self) -> DjPlaylistsView {
        DjPlaylistsView { version: self.version@, collection: self.collection@ }
    }
}

} // verus!
