//! What is read from the catalogue's answers.

use crate::json::{
    either_member, id_at, int_at, member, member_or_null, named, text_at, text_value, Json,
};
use crate::promises::shelves::{is_left, lemma_left};
use crate::promises::wording::{amount, is_figure};
use crate::qobuz::{
    byte_len, cover_of, first_bytes, image_of, inner_name, is_own, own_of, portrait, sized,
    RemoteAlbum, RemoteTrack,
};
use crate::strings::{digits, two_places};
use vstd::prelude::*;

verus! {

/// `inner` is what the object has first under this name.
pub open spec fn has_first(members: Seq<(String, Json)>, key: Seq<char>, inner: Json, at: int) -> bool {
    &&& 0 <= at < members.len()
    &&& members[at].0@ == key
    &&& members[at].1 == inner
    &&& forall|k: int| 0 <= k < at ==> (#[trigger] members[k]).0@ != key
}

proof fn lemma_named(members: Seq<(String, Json)>, key: Seq<char>)
    ensures
        match named(members, key) {
            Some(inner) => exists|at: int| #[trigger] has_first(members, key, inner, at),
            None => forall|k: int| 0 <= k < members.len() ==> (#[trigger] members[k]).0@ != key,
        },
    decreases members.len(),
{
    if members.len() > 0 {
        if members[0].0@ == key {
            assert(has_first(members, key, members[0].1, 0));
        } else {
            let rest = members.drop_first();
            lemma_named(rest, key);
            match named(rest, key) {
                Some(inner) => {
                    let at = choose|at: int| #[trigger] has_first(rest, key, inner, at);
                    assert forall|k: int| 0 <= k < at + 1 implies (#[trigger] members[k]).0@
                        != key by {
                        if k > 0 {
                            assert(rest[k - 1] == members[k]);
                        }
                    }
                    assert(rest[at] == members[at + 1]);
                    assert(has_first(members, key, inner, at + 1));
                },
                None => {
                    assert forall|k: int| 0 <= k < members.len() implies (#[trigger] members[k]).0@
                        != key by {
                        if k > 0 {
                            assert(rest[k - 1] == members[k]);
                        }
                    }
                },
            }
        }
    }
}

/// A member is found by its name, the first where there are several, and only
/// in an object.
pub proof fn the_first_member_of_a_name_is_found(value: Json, key: Seq<char>)
    ensures
        match member(value, key) {
            Some(inner) => value matches Json::Object(members) && exists|at: int| #[trigger]
                has_first(members@, key, inner, at),
            None => value matches Json::Object(members) ==> forall|k: int|
                0 <= k < members@.len() ==> (#[trigger] members@[k]).0@ != key,
        },
{
    match value {
        Json::Object(members) => lemma_named(members@, key),
        _ => {},
    }
}

/// A text is read where there is one with something in it. A number is read
/// from a whole number or from its digits, and an id from either as it is
/// written. What is missing or of another kind is not read.
pub proof fn a_member_is_read_as_what_it_is(value: Json, key: Seq<char>)
    ensures
        match member(value, key) {
            Some(Json::Text(text)) => {
                &&& text_at(value, key) is Some <==> text@.len() > 0
                &&& text_at(value, key) is Some ==> text_at(value, key) == Some(text@)
                &&& id_at(value, key) is Some <==> text@.len() > 0
                &&& id_at(value, key) is Some ==> id_at(value, key) == Some(text@)
                &&& is_figure(text@) && amount(text@) <= i64::MAX ==> int_at(value, key) == Some(
                    amount(text@) as i64,
                )
                &&& is_figure(text@) && amount(text@) > i64::MAX ==> int_at(value, key) is None
                &&& text@.len() == 0 ==> int_at(value, key) is None
            },
            Some(Json::Number { whole, text }) => {
                &&& text_at(value, key) is None
                &&& int_at(value, key) == whole
                &&& id_at(value, key) == Some(text@)
            },
            _ => {
                &&& text_at(value, key) is None
                &&& int_at(value, key) is None
                &&& id_at(value, key) is None
            },
        },
{
    match member(value, key) {
        Some(Json::Text(text)) => {
            crate::promises::wording::a_number_is_what_its_digits_are_worth(text@);
            if is_figure(text@) {
                lemma_amount_is_positive(text@);
            }
        },
        _ => {},
    }
}

proof fn lemma_amount_is_positive(s: Seq<char>)
    requires
        forall|i: int| 0 <= i < s.len() ==> '0' <= #[trigger] s[i] <= '9',
    ensures
        amount(s) >= 0,
    decreases s.len(),
{
    if s.len() > 0 {
        let less = s.take(s.len() - 1);
        assert forall|i: int| 0 <= i < less.len() implies '0' <= #[trigger] less[i] <= '9' by {
            assert(less[i] == s[i]);
        }
        lemma_amount_is_positive(less);
    }
}

// ------------------------------------------------------------------- tracks

/// The member of that name, or null where there is none.
pub open spec fn inside(value: Json, key: Seq<char>) -> Json {
    match member(value, key) {
        Some(inner) => inner,
        None => Json::Null,
    }
}

/// Who performs a track, as its own object says: the performer where there is
/// one, whatever it holds, and otherwise the artist.
pub open spec fn performer_in(value: Json) -> Json {
    if member(value, "performer"@) is Some {
        inside(value, "performer"@)
    } else {
        inside(value, "artist"@)
    }
}

/// Who made the album that a track's own object holds.
pub open spec fn album_artist_in(value: Json) -> Json {
    inside(inside(value, "album"@), "artist"@)
}

/// A track has its title, with the version in brackets behind it, and its
/// length, its recording and its players from its own object alone.
pub proof fn a_track_says_what_it_is(track: RemoteTrack, value: Json, context: Option<RemoteAlbum>)
    requires
        track.reads(value, context),
    ensures
        int_at(value, "id"@) == Some(track.id),
        text_at(value, "title"@) is Some && text_at(value, "version"@) is Some ==> track.title@
            == text_at(value, "title"@)->0 + " ("@ + text_at(value, "version"@)->0 + ")"@,
        text_at(value, "title"@) is Some && text_at(value, "version"@) is None ==> track.title@
            == text_at(value, "title"@)->0,
        text_at(value, "title"@) is None ==> track.title@ == "Unknown Track"@,
        track.duration == int_at(value, "duration"@),
        track.isrc is Some <==> text_at(value, "isrc"@) is Some,
        track.isrc is Some ==> Some(track.isrc->0@) == text_at(value, "isrc"@),
        track.performers is Some <==> text_at(value, "performers"@) is Some,
        track.performers is Some ==> Some(track.performers->0@) == text_at(value, "performers"@),
        !track.streamable <==> member(value, "streamable"@) == Some(Json::Bool(false)),
        member(value, "hires_streamable"@) is Some ==> (track.hires <==> member(
            value,
            "hires_streamable"@,
        ) == Some(Json::Bool(true))),
        member(value, "hires_streamable"@) is None ==> (track.hires <==> member(value, "hires"@)
            == Some(Json::Bool(true))),
{
}

/// Who a track is by is its performer where that has a name, or else its
/// album's artist where that has one, or else whoever made the album it was
/// listed under. The id goes with the name, as far as there is one.
pub proof fn a_track_is_by_the_nearest_name(
    track: RemoteTrack,
    value: Json,
    context: Option<RemoteAlbum>,
)
    requires
        track.reads(value, context),
    ensures
        ({
            let own = performer_in(value);
            let other = album_artist_in(value);
            &&& text_at(own, "name"@) is Some ==> track.artist@ == text_at(own, "name"@)->0
            &&& text_at(own, "name"@) is None && text_at(other, "name"@) is Some ==> track.artist@
                == text_at(other, "name"@)->0
            &&& text_at(own, "name"@) is None && text_at(other, "name"@) is None ==> track.artist@
                == (match context {
                Some(parent) => parent.artist@,
                None => "Unknown Artist"@,
            })
            &&& text_at(own, "name"@) is Some && int_at(own, "id"@) is Some ==> track.artist_id
                == int_at(own, "id"@)
            &&& text_at(own, "name"@) is None && int_at(other, "id"@) is Some ==> track.artist_id
                == int_at(other, "id"@)
            &&& (text_at(own, "name"@) is Some && int_at(own, "id"@) is None) || (text_at(
                own,
                "name"@,
            ) is None && int_at(other, "id"@) is None) ==> track.artist_id == (match context {
                Some(parent) => parent.artist_id,
                None => None,
            })
        }),
{
    assert(inside(value, "album"@) == member_or_null(value, "album"@));
    assert(performer_in(value) == either_member(value, "performer"@, "artist"@));
}

/// What a track's own object says of its album goes before what is known of
/// the album it was listed under.
pub proof fn a_track_is_on_the_nearest_album(
    track: RemoteTrack,
    value: Json,
    context: Option<RemoteAlbum>,
)
    requires
        track.reads(value, context),
    ensures
        ({
            let album = inside(value, "album"@);
            &&& track.album@ == (if text_at(album, "title"@) is Some {
                text_at(album, "title"@)->0
            } else if context is Some {
                context->0.title@
            } else {
                Seq::empty()
            })
            &&& id_at(album, "id"@) is Some ==> track.album_id is Some && track.album_id->0@
                == id_at(album, "id"@)->0
            &&& id_at(album, "id"@) is None && context is Some ==> track.album_id is Some
                && track.album_id->0@ == context->0.id@
            &&& id_at(album, "id"@) is None && context is None ==> track.album_id is None
            &&& image_of(album) is Some ==> track.image is Some && track.image->0@ == image_of(
                album,
            )->0
            &&& image_of(album) is None && context is Some ==> (match (
                track.image,
                context->0.image,
            ) {
                (Some(one), Some(other)) => one@ == other@,
                (None, None) => true,
                _ => false,
            })
            &&& image_of(album) is None && context is None ==> track.image is None
        }),
{
    assert(inside(value, "album"@) == member_or_null(value, "album"@));
}

/// A track's date is its own, or else the day it came out, or else its album's
/// own, or else that of the album it was listed under.
pub proof fn a_track_has_the_nearest_date(
    track: RemoteTrack,
    value: Json,
    context: Option<RemoteAlbum>,
)
    requires
        track.reads(value, context),
    ensures
        ({
            let album = inside(value, "album"@);
            let date = if text_at(value, "release_date_original"@) is Some {
                text_at(value, "release_date_original"@)
            } else if text_at(value, "released_at"@) is Some {
                text_at(value, "released_at"@)
            } else if text_at(album, "release_date_original"@) is Some {
                text_at(album, "release_date_original"@)
            } else if context is Some && context->0.released is Some {
                Some(context->0.released->0@)
            } else {
                None
            };
            &&& track.released is Some <==> date is Some
            &&& track.released is Some ==> track.released->0@ == date->0
        }),
{
    assert(inside(value, "album"@) == member_or_null(value, "album"@));
}

// ------------------------------------------------------------------- albums

/// An album is described by its own object: its artist before any performer,
/// its original date before another, and its kind and label by their names.
pub proof fn an_album_says_what_it_is(album: RemoteAlbum, value: Json)
    requires
        album.reads(value),
    ensures
        ({
            let artist = if member(value, "artist"@) is Some {
                inside(value, "artist"@)
            } else {
                inside(value, "performer"@)
            };
            &&& id_at(value, "id"@) == Some(album.id@)
            &&& album.title@ == (if text_at(value, "title"@) is Some {
                text_at(value, "title"@)->0
            } else {
                "Unknown Album"@
            })
            &&& album.artist@ == (if text_at(artist, "name"@) is Some {
                text_at(artist, "name"@)->0
            } else {
                "Unknown Artist"@
            })
            &&& album.artist_id == int_at(artist, "id"@)
            &&& album.tracks_count == int_at(value, "tracks_count"@)
            &&& text_at(value, "release_date_original"@) is Some ==> album.released is Some
                && album.released->0@ == text_at(value, "release_date_original"@)->0
            &&& text_at(value, "release_date_original"@) is None && text_at(value, "released_at"@)
                is Some ==> album.released is Some && album.released->0@ == text_at(
                value,
                "released_at"@,
            )->0
            &&& text_at(value, "release_date_original"@) is None && text_at(value, "released_at"@)
                is None ==> album.released is None
            &&& match member(inside(value, "genre"@), "name"@) {
                Some(Json::Text(name)) => album.genre is Some && album.genre->0@ == name@,
                _ => album.genre is None,
            }
            &&& match member(inside(value, "label"@), "name"@) {
                Some(Json::Text(name)) => album.label is Some && album.label->0@ == name@,
                _ => album.label is None,
            }
        }),
{
    assert(inner_name(value, "genre"@) == text_value(member(inside(value, "genre"@), "name"@)));
    assert(inner_name(value, "label"@) == text_value(member(inside(value, "label"@), "name"@)));
}

/// The names of the sizes an image comes in, in the order they are taken.
pub open spec fn size_name(k: int) -> Seq<char> {
    if k == 0 {
        "small"@
    } else if k == 1 {
        "medium"@
    } else if k == 2 {
        "large"@
    } else if k == 3 {
        "thumbnail"@
    } else if k == 4 {
        "extralarge"@
    } else {
        "mega"@
    }
}

/// Of an image in several sizes the first that is there is taken.
pub proof fn the_first_size_is_taken(bag: Json, k: int)
    requires
        0 <= k < 6,
        text_at(bag, size_name(k)) is Some,
        forall|j: int| 0 <= j < k ==> text_at(bag, #[trigger] size_name(j)) is None,
    ensures
        sized(bag) == text_at(bag, size_name(k)),
{
    if k > 0 {
        assert(text_at(bag, size_name(0)) is None);
    }
    if k > 1 {
        assert(text_at(bag, size_name(1)) is None);
    }
    if k > 2 {
        assert(text_at(bag, size_name(2)) is None);
    }
    if k > 3 {
        assert(text_at(bag, size_name(3)) is None);
    }
    if k > 4 {
        assert(text_at(bag, size_name(4)) is None);
    }
}

/// A picture is the address that is given, or the first size of those given,
/// and only where there is neither the portrait that a hash is filed under.
pub proof fn a_picture_is_what_is_given(value: Json)
    ensures
        ({
            let hash = text_at(inside(inside(value, "images"@), "portrait"@), "hash"@);
            let filed = if hash is Some {
                Some("https://static.qobuz.com/images/artists/covers/medium/"@ + hash->0 + ".jpg"@)
            } else {
                None
            };
            match member(value, "image"@) {
                Some(Json::Text(url)) => image_of(value) == (if url@.len() > 0 {
                    Some(url@)
                } else {
                    filed
                }),
                Some(Json::Object(bag)) => {
                    let one = sized(Json::Object(bag));
                    image_of(value) == (if one is Some {
                        one
                    } else {
                        filed
                    })
                },
                _ => image_of(value) == filed,
            }
        }),
{
    assert(member(Json::Null, "portrait"@) is None);
    assert(text_at(Json::Null, "hash"@) is None);
}

/// A cover is filed under the letters and digits of its album's id: the last
/// two, the two before, and all of them. Fewer than four are not enough.
pub proof fn a_cover_is_filed_under_its_album(album_id: Seq<char>) -> (id: Seq<char>)
    ensures
        is_left(
            album_id,
            |c: char| ('0' <= c <= '9' || 'a' <= c <= 'z' || 'A' <= c <= 'Z'),
            id,
        ),
        id.len() < 4 ==> cover_of(album_id) is None,
        id.len() >= 4 ==> cover_of(album_id) == Some(
            "https://static.qobuz.com/images/covers/"@ + seq![id[id.len() - 2], id[id.len() - 1]]
                + "/"@ + seq![id[id.len() - 4], id[id.len() - 3]] + "/"@ + id + "_230.jpg"@,
        ),
{
    let keep = |c: char| ('0' <= c <= '9' || 'a' <= c <= 'z' || 'A' <= c <= 'Z');
    assert(keep =~= (|c: char| crate::qobuz::ascii_alphanumeric(c)));
    let id = album_id.filter(keep);
    lemma_left(album_id, keep);
    if id.len() >= 4 {
        assert(id.subrange(id.len() - 2, id.len() as int) =~= seq![
            id[id.len() - 2],
            id[id.len() - 1],
        ]);
        assert(id.subrange(id.len() - 4, id.len() - 2) =~= seq![
            id[id.len() - 4],
            id[id.len() - 3],
        ]);
    }
    id
}

/// A length is shown as minutes and seconds, the seconds in two digits and
/// below sixty. Where none is known nothing is shown.
pub proof fn a_length_is_shown_in_minutes_and_seconds(track: RemoteTrack) -> (parts: (
    Seq<char>,
    Seq<char>,
))
    ensures
        track.duration is None || track.duration->0 <= 0 ==> track.clock().len() == 0,
        track.duration is Some && track.duration->0 > 0 ==> {
            &&& track.clock() == parts.0 + ":"@ + parts.1
            &&& is_figure(parts.0)
            &&& is_figure(parts.1)
            &&& parts.1.len() == 2
            &&& amount(parts.1) < 60
            &&& 60 * amount(parts.0) + amount(parts.1) == track.duration->0
        },
{
    if track.duration is Some && track.duration->0 > 0 {
        let seconds = track.duration->0;
        let m = (seconds as int / 60) as nat;
        let s = (seconds as int % 60) as nat;
        crate::promises::wording::a_number_is_written_in_its_digits(m);
        crate::promises::wording::two_digits_are_written(s);
        (digits(m), two_places(s))
    } else {
        (Seq::empty(), Seq::empty())
    }
}

/// Of a date in plain characters the year is the first four, where there are
/// so many.
pub proof fn a_year_is_how_a_date_begins(date: Seq<char>)
    requires
        forall|i: int| 0 <= i < 4 && i < date.len() ==> (#[trigger] date[i] as int) < 128,
    ensures
        first_bytes(date, 4) == (if date.len() >= 4 {
            Some(date.take(4))
        } else {
            None
        }),
{
    lemma_plain_bytes(date, 4);
}

proof fn lemma_plain_byte(c: char)
    requires
        (c as int) < 128,
    ensures
        byte_len(c) == 1,
{
}

proof fn lemma_plain_bytes(s: Seq<char>, n: nat)
    requires
        forall|i: int| 0 <= i < n && i < s.len() ==> (#[trigger] s[i] as int) < 128,
    ensures
        first_bytes(s, n) == (if s.len() >= n {
            Some(s.take(n as int))
        } else {
            None
        }),
    decreases n,
{
    if n == 0 {
        assert(s.take(0) =~= Seq::empty());
    } else if s.len() > 0 {
        assert((s[0] as int) < 128);
        lemma_plain_byte(s[0]);
        let rest = s.drop_first();
        assert forall|i: int| 0 <= i < n - 1 && i < rest.len() implies (#[trigger] rest[i] as int)
            < 128 by {
            assert(rest[i] == s[i + 1]);
        }
        lemma_plain_bytes(rest, (n - 1) as nat);
        if s.len() >= n {
            assert(seq![s[0]] + rest.take(n - 1) =~= s.take(n as int));
        }
    }
}

/// An artist's own albums are those said to be theirs and those of which
/// nobody is said to be the artist, in the order they were listed.
pub proof fn only_other_artists_albums_are_left_out(artist_id: i64, albums: Seq<RemoteAlbum>)
    ensures
        is_left(
            albums,
            |album: RemoteAlbum| album.artist_id is None || album.artist_id->0 == artist_id,
            own_of(artist_id, albums),
        ),
{
    let keep = |album: RemoteAlbum| album.artist_id is None || album.artist_id->0 == artist_id;
    assert(keep =~= (|album: RemoteAlbum| is_own(artist_id, album)));
    lemma_left(albums, keep);
}

} // verus!
