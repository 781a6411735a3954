//! Where a track's file lies: from volume, directory segments and file name
//! to one `file://` URI.

use vstd::prelude::*;
use vstd::string::*;
use crate::digits::chars_of;
use crate::traktor_collection::{Location, LocationView};

verus! {

/// The directory without one `/` in front and one `/` at the end, where it
/// has them.
pub open spec fn trimmed_dir(dir: Seq<char>) -> Seq<char> {
    let rest = if dir.len() > 0 && dir[0] == '/' {
        dir.skip(1)
    } else {
        dir
    };
    if rest.len() > 0 && rest.last() == '/' {
        rest.drop_last()
    } else {
        rest
    }
}

/// The pieces of `text` between its separators, in order. There is one piece
/// more than there are separators, and a piece may be empty.
pub open spec fn split_on(text: Seq<char>, separator: char) -> Seq<Seq<char>>
    decreases text.len(),
{
    if text.len() == 0 {
        seq![Seq::<char>::empty()]
    } else {
        let before = split_on(text.drop_last(), separator);
        if text.last() == separator {
            before.push(Seq::<char>::empty())
        } else {
            before.drop_last().push(before.last().push(text.last()))
        }
    }
}

/// `path` with one more segment. A segment that starts with `/` begins the
/// path anew. Otherwise it follows what is there, after a `/` unless the path
/// is empty or already ends in one.
pub open spec fn push_segment(path: Seq<char>, segment: Seq<char>) -> Seq<char> {
    if segment.len() > 0 && segment[0] == '/' {
        segment
    } else if path.len() > 0 && path.last() != '/' {
        path.push('/') + segment
    } else {
        path + segment
    }
}

/// `path` with the segments that are not empty, one after the other.
pub open spec fn push_segments(path: Seq<char>, segments: Seq<Seq<char>>) -> Seq<char>
    decreases segments.len(),
{
    if segments.len() == 0 {
        path
    } else {
        let before = push_segments(path, segments.drop_last());
        if segments.last().len() == 0 {
            before
        } else {
            push_segment(before, segments.last())
        }
    }
}

/// The file's path: the volume, then the directory's segments, then the file
/// name.
pub open spec fn local_path(location: LocationView) -> Seq<char> {
    push_segment(
        push_segments(location.volume, split_on(trimmed_dir(location.dir), ':')),
        location.file,
    )
}

/// `c`, or `/` where `c` is a backslash.
pub open spec fn forward_slash(c: char) -> char {
    if c == '\\' {
        '/'
    } else {
        c
    }
}

/// The URI of the file: `file://localhost/`, then its path with every
/// backslash turned into `/`.
pub open spec fn location_uri(location: LocationView) -> Seq<char> {
    "file://localhost/"@ + local_path(location).map_values(|c: char| forward_slash(c))
}

/// The segments in one text, with `separator` between each two.
pub open spec fn join_with(segments: Seq<Seq<char>>, separator: char) -> Seq<char>
    decreases segments.len(),
{
    if segments.len() == 0 {
        Seq::<char>::empty()
    } else if segments.len() == 1 {
        segments[0]
    } else {
        join_with(segments.drop_last(), separator).push(separator) + segments.last()
    }
}

/// `c` does not occur in `text`.
pub open spec fn lacks(text: Seq<char>, c: char) -> bool {
    forall|i: int| 0 <= i < text.len() ==> #[trigger] text[i] != c
}

/// A piece of a directory as it is usually written: not empty, and without
/// `:`, `/` or backslash.
pub open spec fn is_plain_segment(segment: Seq<char>) -> bool {
    &&& segment.len() > 0
    &&& lacks(segment, ':')
    &&& lacks(segment, '/')
    &&& lacks(segment, '\\')
}

/// Splitting always gives at least one piece.
pub proof fn lemma_split_on_some(text: Seq<char>, separator: char)
    ensures
        split_on(text, separator).len() >= 1,
    decreases text.len(),
{
    if text.len() > 0 {
        lemma_split_on_some(text.drop_last(), separator);
    }
}

/// Text without a separator, added at the end, goes to the last piece.
pub proof fn lemma_split_on_append(text: Seq<char>, tail: Seq<char>, separator: char)
    requires
        lacks(tail, separator),
    ensures
        split_on(text + tail, separator) == split_on(text, separator).drop_last().push(
            split_on(text, separator).last() + tail,
        ),
    decreases tail.len(),
{
    let pieces = split_on(text, separator);
    lemma_split_on_some(text, separator);
    if tail.len() == 0 {
        assert(text + tail =~= text);
        assert(pieces.last() + tail =~= pieces.last());
        assert(pieces.drop_last().push(pieces.last()) =~= pieces);
    } else {
        let shorter = tail.drop_last();
        assert(lacks(shorter, separator)) by {
            assert forall|i: int| 0 <= i < shorter.len() implies #[trigger] shorter[i]
                != separator by {
                assert(shorter[i] == tail[i]);
            }
        }
        lemma_split_on_append(text, shorter, separator);
        let whole = text + tail;
        assert(whole.drop_last() =~= text + shorter);
        assert(whole.last() == tail[tail.len() - 1]);
        let before = split_on(text + shorter, separator);
        assert(before.drop_last() =~= pieces.drop_last());
        assert(before.last().push(whole.last()) =~= pieces.last() + tail);
    }
}

/// Splitting undoes joining, where no segment holds the separator.
pub proof fn lemma_split_on_join(segments: Seq<Seq<char>>, separator: char)
    requires
        segments.len() >= 1,
        forall|i: int| 0 <= i < segments.len() ==> lacks(#[trigger] segments[i], separator),
    ensures
        split_on(join_with(segments, separator), separator) == segments,
    decreases segments.len(),
{
    let empty = Seq::<char>::empty();
    if segments.len() == 1 {
        assert(empty + segments[0] =~= segments[0]);
        lemma_split_on_append(empty, segments[0], separator);
        assert(split_on(empty, separator) =~= seq![empty]);
        assert(seq![empty].drop_last().push(empty + segments[0]) =~= segments);
    } else {
        let front = segments.drop_last();
        assert forall|i: int| 0 <= i < front.len() implies lacks(
            #[trigger] front[i],
            separator,
        ) by {
            assert(front[i] == segments[i]);
        }
        lemma_split_on_join(front, separator);
        let joined = join_with(front, separator);
        let opened = joined.push(separator);
        assert(opened.drop_last() =~= joined);
        assert(split_on(opened, separator) == front.push(empty));
        assert(lacks(segments[segments.len() - 1], separator));
        lemma_split_on_append(opened, segments.last(), separator);
        assert(front.push(empty).drop_last().push(empty + segments.last()) =~= segments);
    }
}

/// What none of the segments holds, and is not the separator, the joined
/// text does not hold either.
pub proof fn lemma_join_lacks(segments: Seq<Seq<char>>, separator: char, c: char)
    requires
        c != separator,
        forall|i: int| 0 <= i < segments.len() ==> lacks(#[trigger] segments[i], c),
    ensures
        lacks(join_with(segments, separator), c),
    decreases segments.len(),
{
    if segments.len() == 1 {
        assert(lacks(segments[0], c));
    } else if segments.len() > 1 {
        let front = segments.drop_last();
        assert forall|i: int| 0 <= i < front.len() implies lacks(#[trigger] front[i], c) by {
            assert(front[i] == segments[i]);
        }
        lemma_join_lacks(front, separator, c);
        let before = join_with(front, separator);
        let joined = join_with(segments, separator);
        assert(lacks(segments[segments.len() - 1], c));
        assert forall|i: int| 0 <= i < joined.len() implies #[trigger] joined[i] != c by {
            if i < before.len() {
                assert(joined[i] == before[i]);
            } else if i > before.len() {
                assert(joined[i] == segments.last()[i - before.len() - 1]);
            }
        }
    }
}

/// Joined segments that are not empty begin as the first of them begins and
/// end as the last of them ends.
pub proof fn lemma_join_ends(segments: Seq<Seq<char>>, separator: char)
    requires
        segments.len() >= 1,
        forall|i: int| 0 <= i < segments.len() ==> (#[trigger] segments[i]).len() > 0,
    ensures
        join_with(segments, separator).len() > 0,
        join_with(segments, separator)[0] == segments[0][0],
        join_with(segments, separator).last() == segments.last().last(),
    decreases segments.len(),
{
    if segments.len() == 1 {
        assert(segments[0].len() > 0);
    } else {
        let front = segments.drop_last();
        assert forall|i: int| 0 <= i < front.len() implies (#[trigger] front[i]).len() > 0 by {
            assert(front[i] == segments[i]);
        }
        lemma_join_ends(front, separator);
        assert(segments[segments.len() - 1].len() > 0);
        assert(front[0] == segments[0]);
    }
}

/// Plain segments pushed on a path that does not end in `/` stand behind it
/// with one `/` before each.
pub proof fn lemma_push_plain_segments(path: Seq<char>, segments: Seq<Seq<char>>)
    requires
        path.len() > 0,
        path.last() != '/',
        segments.len() >= 1,
        forall|i: int| 0 <= i < segments.len() ==> is_plain_segment(#[trigger] segments[i]),
    ensures
        push_segments(path, segments) == path.push('/') + join_with(segments, '/'),
    decreases segments.len(),
{
    let last = segments[segments.len() - 1];
    assert(is_plain_segment(last));
    assert(last[0] != '/');
    if segments.len() == 1 {
        assert(segments.drop_last() =~= Seq::<Seq<char>>::empty());
        assert(push_segments(path, segments.drop_last()) == path);
    } else {
        let front = segments.drop_last();
        assert forall|i: int| 0 <= i < front.len() implies is_plain_segment(
            #[trigger] front[i],
        ) by {
            assert(front[i] == segments[i]);
        }
        lemma_push_plain_segments(path, front);
        assert forall|i: int| 0 <= i < front.len() implies (#[trigger] front[i]).len() > 0 by {
            assert(is_plain_segment(front[i]));
        }
        lemma_join_ends(front, '/');
        let before = path.push('/') + join_with(front, '/');
        assert(is_plain_segment(front[front.len() - 1]));
        assert(front.last()[front.last().len() - 1] != '/');
        assert(before.last() == join_with(front, '/').last());
        assert(before.push('/') + last =~= path.push('/') + join_with(segments, '/'));
    }
}

/// A location as it is usually written gives the URI one expects: for a
/// volume and a file name without slashes, and a directory made of plain
/// segments set apart by `:` between two `/`, the URI is `file://localhost/`
/// followed by volume, segments and file name with one `/` between each two.
pub proof fn lemma_plain_location(volume: Seq<char>, segments: Seq<Seq<char>>, file: Seq<char>)
    requires
        volume.len() > 0,
        lacks(volume, '/'),
        lacks(volume, '\\'),
        segments.len() >= 1,
        forall|i: int| 0 <= i < segments.len() ==> is_plain_segment(#[trigger] segments[i]),
        lacks(file, '/'),
        lacks(file, '\\'),
    ensures
        location_uri(
            LocationView { volume, dir: seq!['/'] + join_with(segments, ':').push('/'), file },
        ) == "file://localhost/"@ + (volume.push('/') + join_with(segments, '/').push('/') + file),
{
    let joined = join_with(segments, ':');
    let dir = seq!['/'] + joined.push('/');
    assert forall|i: int| 0 <= i < segments.len() implies (#[trigger] segments[i]).len() > 0 by {
        assert(is_plain_segment(segments[i]));
    }
    assert forall|i: int| 0 <= i < segments.len() implies lacks(#[trigger] segments[i], ':') by {
        assert(is_plain_segment(segments[i]));
    }
    assert forall|i: int| 0 <= i < segments.len() implies lacks(#[trigger] segments[i], '/') by {
        assert(is_plain_segment(segments[i]));
    }
    assert forall|i: int| 0 <= i < segments.len() implies lacks(#[trigger] segments[i], '\\') by {
        assert(is_plain_segment(segments[i]));
    }
    lemma_join_ends(segments, ':');
    lemma_join_lacks(segments, ':', '/');
    assert(joined[joined.len() - 1] != '/');
    assert(dir.skip(1) =~= joined.push('/'));
    assert(joined.push('/').drop_last() =~= joined);
    assert(trimmed_dir(dir) == joined);
    lemma_split_on_join(segments, ':');
    assert(volume[volume.len() - 1] != '/');
    lemma_push_plain_segments(volume, segments);
    let slashed = join_with(segments, '/');
    lemma_join_ends(segments, '/');
    lemma_join_lacks(segments, '/', '\\');
    assert(is_plain_segment(segments[segments.len() - 1]));
    assert(segments.last()[segments.last().len() - 1] != '/');
    let folder = volume.push('/') + slashed;
    assert(folder.last() == slashed.last());
    if file.len() > 0 {
        assert(file[0] != '/');
    }
    let path = folder.push('/') + file;
    assert(local_path(LocationView { volume, dir, file }) == path);
    assert(path =~= volume.push('/') + slashed.push('/') + file);
    assert(path.map_values(|c: char| forward_slash(c)) =~= path) by {
        assert forall|i: int| 0 <= i < path.len() implies forward_slash(#[trigger] path[i])
            == path[i] by {
            if i < volume.len() {
                assert(path[i] == volume[i]);
            } else if i == volume.len() {
            } else if i < folder.len() {
                assert(path[i] == slashed[i - volume.len() - 1]);
            } else if i == folder.len() {
            } else {
                assert(path[i] == file[i - folder.len() - 1]);
            }
        }
    }
}

/// Adds one segment to `path`.
fn add_segment(path: &mut Vec<char>, segment: &Vec<char>)
    ensures
        final(path)@ == push_segment(old(path)@, segment@),
{
    if segment.len() > 0 && segment[0] == '/' {
        path.clear();
    } else if path.len() > 0 && path[path.len() - 1] != '/' {
        path.push('/');
    }
    let ghost start = path@;
    let mut i: usize = 0;
    while i < segment.len()
        invariant
            i <= segment.len(),
            path@ == start + segment@.take(i as int),
        decreases segment.len() - i,
    {
        path.push(segment[i]);
        i += 1;
    }
    assert(segment@.take(segment.len() as int) =~= segment@);
    assert(Seq::<char>::empty() + segment@ =~= segment@);
}

/// The path that starts as `volume` and takes the directory's segments.
fn directory_path(volume: &str, dir: &str) -> (path: Vec<char>)
    ensures
        path@ == push_segments(volume@, split_on(trimmed_dir(dir@), ':')),
{
    let mut path = chars_of(volume);
    let chars = chars_of(dir);
    let from: usize = if chars.len() > 0 && chars[0] == '/' { 1 } else { 0 };
    let to: usize = if chars.len() > from && chars[chars.len() - 1] == '/' {
        chars.len() - 1
    } else {
        chars.len()
    };
    let ghost text = chars@.subrange(from as int, to as int);
    assert(trimmed_dir(dir@) =~= text);
    let ghost closed: Seq<Seq<char>> = Seq::empty();
    let mut segment: Vec<char> = Vec::new();
    let mut i: usize = from;
    assert(text.take(0) =~= Seq::<char>::empty());
    assert(split_on(text.take(0), ':') =~= closed.push(segment@));
    while i < to
        invariant
            from <= i <= to <= chars.len(),
            text == chars@.subrange(from as int, to as int),
            split_on(text.take(i - from), ':') == closed.push(segment@),
            path@ == push_segments(volume@, closed),
        decreases to - i,
    {
        let c = chars[i];
        proof {
            assert(text.take(i + 1 - from).drop_last() =~= text.take(i - from));
            assert(text.take(i + 1 - from).last() == c);
            assert(closed.push(segment@).drop_last() =~= closed);
        }
        if c == ':' {
            if segment.len() > 0 {
                add_segment(&mut path, &segment);
            }
            proof {
                let sealed = closed.push(segment@);
                assert(sealed.drop_last() =~= closed);
                closed = sealed;
            }
            segment = Vec::new();
        } else {
            segment.push(c);
        }
        i += 1;
    }
    if segment.len() > 0 {
        add_segment(&mut path, &segment);
    }
    proof {
        assert(text.take(to - from) =~= text);
        assert(closed.push(segment@).drop_last() =~= closed);
    }
    path
}

/// The `file://` URI of a track's file.
pub fn reconstruct_path(location: &Location) -> (uri: String)
    ensures
        uri@ == location_uri(location@),
{
    let mut path = directory_path(location.volume.as_str(), location.dir.as_str());
    let file = chars_of(location.file.as_str());
    add_segment(&mut path, &file);
    let mut uri = String::from_str("file://localhost/");
    let ghost turned = path@.map_values(|c: char| forward_slash(c));
    let mut i: usize = 0;
    while i < path.len()
        invariant
            i <= path.len(),
            turned == path@.map_values(|c: char| forward_slash(c)),
            uri@ == "file://localhost/"@ + turned.take(i as int),
        decreases path.len() - i,
    {
        let c = path[i];
        uri.push(if c == '\\' { '/' } else { c });
        assert(turned.take(i + 1) =~= turned.take(i as int).push(forward_slash(c)));
        i += 1;
    }
    assert(turned.take(path.len() as int) =~= turned);
    uri
}

} // verus!
