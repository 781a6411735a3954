use traktor_n_rekords::location::reconstruct_path;
use traktor_n_rekords::traktor_collection::Location;

fn uri(volume: &str, dir: &str, file: &str) -> String {
    reconstruct_path(&Location {
        dir: dir.to_string(),
        file: file.to_string(),
        volume: volume.to_string(),
    })
}

#[test]
fn path_segments_are_joined_with_slashes() {
    assert_eq!(
        uri("C:", "/Users:siilwyn:Music:Sauce/", "track.flac"),
        "file://localhost/C:/Users/siilwyn/Music/Sauce/track.flac"
    );
}

#[test]
fn path_segments_that_end_in_a_slash_get_no_second_one() {
    assert_eq!(
        uri("C:", "/:Users/:siilwyn/:Music/:Sauce/:", "45 Roller - Rain.flac"),
        "file://localhost/C:/Users/siilwyn/Music/Sauce/45 Roller - Rain.flac"
    );
}

#[test]
fn empty_path_segments_are_dropped() {
    assert_eq!(uri("C:", "/a::b/", "f.mp3"), "file://localhost/C:/a/b/f.mp3");
    assert_eq!(uri("C:", ":::a:::", "f.mp3"), "file://localhost/C:/a/f.mp3");
    assert_eq!(uri("C:", "", "f.mp3"), "file://localhost/C:/f.mp3");
    assert_eq!(uri("C:", "/", "f.mp3"), "file://localhost/C:/f.mp3");
    assert_eq!(uri("C:", "//", "f.mp3"), "file://localhost/C:/f.mp3");
    assert_eq!(uri("C:", ":", "f.mp3"), "file://localhost/C:/f.mp3");
}

#[test]
fn directory_without_slashes_round_it_is_taken_whole() {
    assert_eq!(uri("D:", "Music:Live", "set.wav"), "file://localhost/D:/Music/Live/set.wav");
    assert_eq!(uri("D:", "/Music", "set.wav"), "file://localhost/D:/Music/set.wav");
    assert_eq!(uri("D:", "Music/", "set.wav"), "file://localhost/D:/Music/set.wav");
}

#[test]
fn only_one_slash_is_taken_off_each_end_of_the_directory() {
    assert_eq!(uri("C:", "a//", "f"), "file://localhost/C:/a/f");
    assert_eq!(uri("C:", "//a/", "f"), "file://localhost//a/f");
    assert_eq!(uri("C:", "///", "f"), "file://localhost//f");
}

#[test]
fn segment_that_starts_with_a_slash_begins_the_path_anew() {
    assert_eq!(uri("C:", "/a:/b/", "f"), "file://localhost//b/f");
    assert_eq!(uri("C:", "/a/", "/f"), "file://localhost//f");
    assert_eq!(uri("/mnt", "/music/", "f"), "file://localhost//mnt/music/f");
}

#[test]
fn backslashes_become_forward_slashes() {
    assert_eq!(uri("C:", "/a\\b:c/", "d\\e.mp3"), "file://localhost/C:/a/b/c/d/e.mp3");
    assert_eq!(uri("C:\\", "/a/", "f"), "file://localhost/C://a/f");
}

#[test]
fn empty_volume_and_empty_file() {
    assert_eq!(uri("", "/Users/", "f"), "file://localhost/Users/f");
    assert_eq!(uri("", "", "f"), "file://localhost/f");
    assert_eq!(uri("C:", "/a/", ""), "file://localhost/C:/a/");
    assert_eq!(uri("", "", ""), "file://localhost/");
}

#[test]
fn path_keeps_characters_outside_ascii() {
    assert_eq!(
        uri("C:", "/Müsik:日本/", "träck №1.flac"),
        "file://localhost/C:/Müsik/日本/träck №1.flac"
    );
}
