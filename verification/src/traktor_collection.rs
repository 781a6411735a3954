//! The records of a Traktor collection (an NML document), as the converter
//! reads them.

use vstd::prelude::*;

verus! {

/// A whole NML document.
#[derive(Debug, PartialEq, Eq)]
pub struct Nml {
    pub version: String,
    pub collection: Collection,
}

/// The track list of an NML document. A collection without entries has no
/// list at all.
#[derive(Debug, PartialEq, Eq)]
pub struct Collection {
    pub entries: Option<Vec<Entry>>,
}

/// One track. A track without an artist carries the empty string.
#[derive(Debug, PartialEq, Eq)]
pub struct Entry {
    pub title: String,
    pub artist: String,
    pub location: Location,
    pub info: Info,
    pub tempo: Tempo,
    pub cues: Option<Vec<CueV2>>,
}

/// Where a track's file lies: the volume (`C:`), the directory with its
/// segments set apart by `:`, and the bare file name.
#[derive(Debug, PartialEq, Eq)]
pub struct Location {
    pub dir: String,
    pub file: String,
    pub volume: String,
}

/// Genre, key in open-key notation and playing time in seconds. A missing
/// genre or key is the empty string.
#[derive(Debug, PartialEq, Eq)]
pub struct Info {
    pub genre: String,
    pub key: String,
    pub playtime: String,
}

/// The tempo in beats per minute, as written in the document.
#[derive(Debug, PartialEq, Eq)]
pub struct Tempo {
    pub bpm: String,
}

/// One cue point: its name, its start in milliseconds written as a decimal
/// number, and the hot-cue slot it sits in, counted from zero.
#[derive(Debug, PartialEq, Eq)]
pub struct CueV2 {
    pub name: String,
    pub start: String,
    pub hotcue: i32,
}

/// What an [`Nml`] holds.
pub struct NmlView {
    pub version: Seq<char>,
    pub collection: CollectionView,
}

/// What a [`Collection`] holds: its tracks in order, or nothing.
pub struct CollectionView {
    pub entries: Option<Seq<EntryView>>,
}

/// What an [`Entry`] holds.
pub struct EntryView {
    pub title: Seq<char>,
    pub artist: Seq<char>,
    pub location: LocationView,
    pub info: InfoView,
    pub tempo: TempoView,
    pub cues: Option<Seq<CueV2View>>,
}

/// What a [`Location`] holds.
pub struct LocationView {
    pub dir: Seq<char>,
    pub file: Seq<char>,
    pub volume: Seq<char>,
}

/// What an [`Info`] holds.
pub struct InfoView {
    pub genre: Seq<char>,
    pub key: Seq<char>,
    pub playtime: Seq<char>,
}

/// What a [`Tempo`] holds.
pub struct TempoView {
    pub bpm: Seq<char>,
}

/// What a [`CueV2`] holds.
pub struct CueV2View {
    pub name: Seq<char>,
    pub start: Seq<char>,
    pub hotcue: i32,
}

impl View for CueV2 {
    type V = CueV2View;

    open spec fn view(&self) -> CueV2View {
        CueV2View { name: self.name@, start: self.start@, hotcue: self.hotcue }
    }
}

impl View for Tempo {
    type V = TempoView;

    open spec fn view(&self) -> TempoView {
        TempoView { bpm: self.bpm@ }
    }
}

impl View for Info {
    type V = InfoView;

    open spec fn view(&self) -> InfoView {
        InfoView { genre: self.genre@, key: self.key@, playtime: self.playtime@ }
    }
}

impl View for Location {
    type V = LocationView;

    open spec fn view(&self) -> LocationView {
        LocationView { dir: self.dir@, file: self.file@, volume: self.volume@ }
    }
}

/// A cue list as its cues' views, in order; no list where there is none.
pub open spec fn cue_list_view(cues: Option<Vec<CueV2>>) -> Option<Seq<CueV2View>> {
    match cues {
        Some(cues) => Some(cues@.map_values(|cue: CueV2| cue@)),
        None => None,
    }
}

/// A track list as its tracks' views, in order; no list where there is none.
pub open spec fn entry_list_view(entries: Option<Vec<Entry>>) -> Option<Seq<EntryView>> {
    match entries {
        Some(entries) => Some(entries@.map_values(|entry: Entry| entry@)),
        None => None,
    }
}

impl View for Entry {
    type V = EntryView;

    open spec fn view(&self) -> EntryView {
        EntryView {
            title: self.title@,
            artist: self.artist@,
            location: self.location@,
            info: self.info@,
            tempo: self.tempo@,
            cues: cue_list_view(self.cues),
        }
    }
}

impl View for Collection {
    type V = CollectionView;

    open spec fn view(&self) -> CollectionView {
        CollectionView {
            entries: entry_list_view(self.entries),
        }
    }
}

impl View for Nml {
    type V = NmlView;

    open spec fn view(&self) -> NmlView {
        NmlView { version: self.version@, collection: self.collection@ }
    }
}

/// The value of a text attribute that the document leaves out.
pub fn empty_string() -> (s: String)
    ensures
        s@ == Seq::<char>::empty(),
{
    String::new()
}

} // verus!
