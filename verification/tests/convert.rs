use traktor_n_rekords::error::ConversionError;
use traktor_n_rekords::traktor_collection::{
    empty_string, Collection, CueV2, Entry, Info, Location, Nml, Tempo,
};
use traktor_n_rekords::{convert_entry, traktor_to_rekordbox};

fn cue(name: &str, start: &str, hotcue: i32) -> CueV2 {
    CueV2 { name: name.to_string(), start: start.to_string(), hotcue }
}

fn entry(title: &str, key: &str, cues: Option<Vec<CueV2>>) -> Entry {
    Entry {
        title: title.to_string(),
        artist: "45 Roller".to_string(),
        location: Location {
            dir: "/:Users/:siilwyn/:Music/:Sauce/:".to_string(),
            file: format!("45 Roller - {}.flac", title),
            volume: "C:".to_string(),
        },
        info: Info {
            genre: "Drum & Bass".to_string(),
            key: key.to_string(),
            playtime: "174".to_string(),
        },
        tempo: Tempo { bpm: "176.999725".to_string() },
        cues,
    }
}

fn nml(entries: Option<Vec<Entry>>) -> Nml {
    Nml { version: "19".to_string(), collection: Collection { entries } }
}

#[test]
fn convert_traktor_to_rekordbox() {
    let traktor_collection = nml(Some(vec![entry(
        "Rain",
        "7d",
        Some(vec![
            cue("AutoGrid", "1355.211304", 0),
            cue("n.n.", "16270.488686", 1),
            cue("n.n.", "37965.437605", 2),
            cue("n.n.", "59660.386524", 3),
            cue("n.n.", "113897.758822", 4),
            cue("n.n.", "135592.707741", 5),
        ]),
    )]));
    let rekordbox_collection = traktor_to_rekordbox(traktor_collection).unwrap();

    assert!(rekordbox_collection.collection.tracks.is_some());
    let tracks = rekordbox_collection.collection.tracks.unwrap();
    assert_eq!(tracks.len(), 1);

    let track = &tracks[0];
    assert_eq!(track.title, "Rain");
    assert_eq!(track.artist, "45 Roller");
    assert_eq!(track.genre, "Drum & Bass");
    assert_eq!(track.key, "2B");
    assert_eq!(track.bpm, "176.999725");
    assert_eq!(
        track.location,
        "file://localhost/C:/Users/siilwyn/Music/Sauce/45 Roller - Rain.flac"
    );

    assert!(track.position_marks.is_some());
    let position_marks = track.position_marks.as_ref().unwrap();
    assert_eq!(position_marks.len(), 6);
    assert_eq!(position_marks[0].start, "1.356");
    assert_eq!(position_marks[0].num, 0);
    assert_eq!(position_marks[1].start, "16.271");
    assert_eq!(position_marks[1].num, 1);
    assert_eq!(position_marks[2].start, "37.966");
    assert_eq!(position_marks[3].start, "59.661");
}

#[test]
fn every_field_of_the_converted_track() {
    let made = traktor_to_rekordbox(nml(Some(vec![entry(
        "Rain",
        "7d",
        Some(vec![cue("AutoGrid", "1355.211304", 0), cue("n.n.", "16270.488686", 1)]),
    )])))
    .unwrap();
    assert_eq!(made.version, "1.0.0");
    let tracks = made.collection.tracks.unwrap();
    let track = &tracks[0];
    assert_eq!(track.total_time, "174");
    let marks = track.position_marks.as_ref().unwrap();
    assert_eq!(marks[0].name, "1.1Bars");
    assert_eq!(marks[0].kind, "0");
    assert_eq!(marks[1].name, "");
    assert_eq!(marks[1].kind, "0");
}

#[test]
fn no_entry_list_gives_no_track_list() {
    let made = traktor_to_rekordbox(nml(None)).unwrap();
    assert_eq!(made.version, "1.0.0");
    assert!(made.collection.tracks.is_none());
}

#[test]
fn empty_entry_list_gives_empty_track_list() {
    let made = traktor_to_rekordbox(nml(Some(vec![]))).unwrap();
    assert_eq!(made.collection.tracks, Some(vec![]));
}

#[test]
fn version_does_not_depend_on_the_source() {
    let mut source = nml(None);
    source.version = "20".to_string();
    assert_eq!(traktor_to_rekordbox(source).unwrap().version, "1.0.0");
}

#[test]
fn tracks_come_in_the_order_of_the_entries() {
    let made = traktor_to_rekordbox(nml(Some(vec![
        entry("Rain", "7d", None),
        entry("Outrun", "9m", Some(vec![])),
        entry("Rain", "x", Some(vec![cue("AutoGrid", "0.561628", 0)])),
    ])))
    .unwrap();
    let tracks = made.collection.tracks.unwrap();
    assert_eq!(tracks.len(), 3);
    assert_eq!(tracks[0].title, "Rain");
    assert_eq!(tracks[0].key, "2B");
    assert!(tracks[0].position_marks.is_none());
    assert_eq!(tracks[1].title, "Outrun");
    assert_eq!(tracks[1].key, "4A");
    assert_eq!(
        tracks[1].location,
        "file://localhost/C:/Users/siilwyn/Music/Sauce/45 Roller - Outrun.flac"
    );
    assert_eq!(tracks[1].position_marks, Some(vec![]));
    assert_eq!(tracks[2].title, "Rain");
    assert_eq!(tracks[2].key, "x");
    assert_eq!(tracks[2].position_marks.as_ref().unwrap().len(), 1);
    assert_eq!(tracks[2].position_marks.as_ref().unwrap()[0].start, "0.001");
}

#[test]
fn one_bad_cue_start_fails_the_whole_conversion() {
    let source = nml(Some(vec![
        entry("Rain", "7d", Some(vec![cue("AutoGrid", "1355.211304", 0)])),
        entry("Outrun", "9m", Some(vec![cue("AutoGrid", "0.561628", 0), cue("n.n.", "later", 1)])),
    ]));
    assert_eq!(traktor_to_rekordbox(source), Err(ConversionError::UnparsableCueStart));
}

#[test]
fn track_without_cue_list_has_no_mark_list() {
    let track = convert_entry(&entry("Rain", "7d", None)).unwrap();
    assert!(track.position_marks.is_none());
    assert_eq!(track.title, "Rain");
    assert_eq!(track.artist, "45 Roller");
    assert_eq!(track.genre, "Drum & Bass");
    assert_eq!(track.key, "2B");
    assert_eq!(track.bpm, "176.999725");
    assert_eq!(track.total_time, "174");
}

#[test]
fn track_with_missing_artist_genre_and_key() {
    let mut source = entry("Rain", "", None);
    source.artist = empty_string();
    source.info.genre = empty_string();
    let track = convert_entry(&source).unwrap();
    assert_eq!(track.artist, "");
    assert_eq!(track.genre, "");
    assert_eq!(track.key, "");
}

#[test]
fn track_with_a_bad_cue_start_is_an_error() {
    let source = entry("Rain", "7d", Some(vec![cue("n.n.", "1e", 0)]));
    assert_eq!(convert_entry(&source), Err(ConversionError::UnparsableCueStart));
}

#[test]
fn fields_are_carried_over_as_they_are() {
    let mut source = entry("  Rain & <Thunder>  ", "7d", None);
    source.tempo.bpm = "not a tempo".to_string();
    source.info.playtime = "-1".to_string();
    let track = convert_entry(&source).unwrap();
    assert_eq!(track.title, "  Rain & <Thunder>  ");
    assert_eq!(track.bpm, "not a tempo");
    assert_eq!(track.total_time, "-1");
}
