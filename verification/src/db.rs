//! Track metadata, row-aligned with the space, and the artists to pretend are
//! not there.

use crate::space::{index_rows, rows_of};
use crate::strings::{decimal_signed, joined, push_text, signed_digits};
use std::collections::{HashMap, HashSet};
use vstd::prelude::*;

verus! {

broadcast use vstd::std_specs::hash::group_hash_axioms;

/// What stands for "no artist".
pub const NO_ARTIST: i64 = -1;

pub struct TrackMeta {
    pub track_id: i64,
    pub title: String,
    pub artist: String,
    pub album: String,
    pub genre: String,
    pub artist_id: i64,
    pub album_id: String,
    /// Beats per minute, in the units of `paths::UNIT`.
    pub bpm: Option<i64>,
    pub seed_distance: i32,
    /// Names the recording rather than the release; see
    /// `qobuz::RemoteTrack::identity`.
    pub isrc: Option<String>,
    /// Map coordinates as 32-bit patterns, if the layout step has been run.
    pub x: Option<u32>,
    pub y: Option<u32>,
}

/// One track and everything joined onto it, as the database hands it out.
pub struct Row {
    pub id: i64,
    pub title: String,
    pub artist_id: Option<i64>,
    pub album_id: Option<String>,
    pub seed_distance: i64,
    pub artist: Option<String>,
    pub album: Option<String>,
    pub genre: Option<String>,
    pub bpm: Option<i64>,
    pub x: Option<u32>,
    pub y: Option<u32>,
    pub isrc: Option<String>,
}

/// A text that may be missing, read as empty where it is.
pub open spec fn text_or_empty(text: Option<String>) -> Seq<char> {
    match text {
        Some(t) => t@,
        None => Seq::empty(),
    }
}

pub fn clone_text(text: &Option<String>) -> (copy: Option<String>)
    ensures
        copy == *text,
{
    match text {
        Some(t) => Some(t.clone()),
        None => None,
    }
}

pub fn or_empty(text: &Option<String>) -> (out: String)
    ensures
        out@ == text_or_empty(*text),
{
    match text {
        Some(t) => t.clone(),
        None => String::new(),
    }
}

impl Clone for TrackMeta {
    fn clone(&self) -> (copy: Self)
        ensures
            copy == *self,
    {
        TrackMeta {
            track_id: self.track_id,
            title: self.title.clone(),
            artist: self.artist.clone(),
            album: self.album.clone(),
            genre: self.genre.clone(),
            artist_id: self.artist_id,
            album_id: self.album_id.clone(),
            bpm: self.bpm,
            seed_distance: self.seed_distance,
            isrc: clone_text(&self.isrc),
            x: self.x,
            y: self.y,
        }
    }
}

impl Default for TrackMeta {
    fn default() -> (meta: Self)
        ensures
            meta.is_blank(),
            meta.track_id == 0,
            meta.title@.len() == 0,
    {
        TrackMeta {
            track_id: 0,
            title: String::new(),
            artist: String::new(),
            album: String::new(),
            genre: String::new(),
            artist_id: 0,
            album_id: String::new(),
            bpm: None,
            seed_distance: 0,
            isrc: None,
            x: None,
            y: None,
        }
    }
}

/// The low 32 bits of a stored distance, as a signed number.
pub open spec fn low_word(n: i64) -> i32 {
    n as i32
}

impl TrackMeta {
    /// Nothing known but, perhaps, an id and a title.
    pub open spec fn is_blank(self) -> bool {
        &&& self.artist@.len() == 0
        &&& self.album@.len() == 0
        &&& self.genre@.len() == 0
        &&& self.artist_id == 0
        &&& self.album_id@.len() == 0
        &&& self.bpm is None
        &&& self.seed_distance == 0
        &&& self.isrc is None
        &&& self.x is None
        &&& self.y is None
    }

    /// Stands in for a track the catalogue does not know.
    pub open spec fn is_missing(self, id: i64) -> bool {
        &&& self.is_blank()
        &&& self.track_id == id
        &&& self.title@ == "<missing "@ + signed_digits(id as int) + ">"@
    }

    /// Says what `row` says, with blanks for what the row leaves out.
    pub open spec fn reads(self, row: Row) -> bool {
        &&& self.track_id == row.id
        &&& self.title@ == row.title@
        &&& self.artist_id == (match row.artist_id {
            Some(id) => id,
            None => NO_ARTIST,
        })
        &&& self.album_id@ == text_or_empty(row.album_id)
        &&& self.seed_distance == low_word(row.seed_distance)
        &&& self.artist@ == text_or_empty(row.artist)
        &&& self.album@ == text_or_empty(row.album)
        &&& self.genre@ == text_or_empty(row.genre)
        &&& self.bpm == row.bpm
        &&& self.x == row.x
        &&& self.y == row.y
        &&& self.isrc == row.isrc
    }

    pub fn from_row(row: &Row) -> (meta: Self)
        ensures
            meta.reads(*row),
    {
        TrackMeta {
            track_id: row.id,
            title: row.title.clone(),
            artist_id: match row.artist_id {
                Some(id) => id,
                None => NO_ARTIST,
            },
            album_id: or_empty(&row.album_id),
            seed_distance: #[verifier::truncate] (row.seed_distance as i32),
            artist: or_empty(&row.artist),
            album: or_empty(&row.album),
            genre: or_empty(&row.genre),
            bpm: row.bpm,
            x: row.x,
            y: row.y,
            isrc: clone_text(&row.isrc),
        }
    }

    fn missing(id: i64) -> (meta: Self)
        ensures
            meta.is_missing(id),
    {
        let mut title = joined("<missing ", decimal_signed(id).as_str());
        push_text(&mut title, ">");
        TrackMeta { track_id: id, title, ..TrackMeta::default() }
    }
}

// -------------------------------------------------------------- embeddings

/// Four bytes as a word, lowest byte first.
pub open spec fn word_low_first(b: Seq<u8>, at: int) -> int {
    b[at] + 256 * b[at + 1] + 65536 * b[at + 2] + 16777216 * b[at + 3]
}

/// Four bytes as a word, highest byte first.
pub open spec fn word_high_first(b: Seq<u8>, at: int) -> int {
    b[at + 3] + 256 * b[at + 2] + 65536 * b[at + 1] + 16777216 * b[at]
}

/// `words` is `bytes` taken four at a time, in one byte order or the other.
pub open spec fn words_in(bytes: Seq<u8>, words: Seq<u32>) -> bool {
    &&& words.len() == bytes.len() / 4
    &&& {
        ||| forall|i: int| 0 <= i < words.len() ==> #[trigger] words[i] == word_low_first(bytes, 4 * i)
        ||| forall|i: int|
            0 <= i < words.len() ==> #[trigger] words[i] == word_high_first(bytes, 4 * i)
    }
}

/// Calls `bytemuck::pod_collect_to_vec`, which copies the bytes over words:
/// every four bytes make one word, in the byte order of the machine, which is
/// left open here. A length that is no multiple of four would be padded.
#[verifier::external_body]
fn collect_words(bytes: &[u8]) -> (words: Vec<u32>)
    requires
        bytes@.len() % 4 == 0,
    ensures
        words_in(bytes@, words@),
{
    bytemuck::pod_collect_to_vec::<u8, u32>(bytes)
}

/// The stored embeddings that are whole words, decoded, in the order they
/// came.
pub open spec fn decoded(blobs: Seq<(i64, Vec<u8>)>, stored: Seq<(i64, Vec<u32>)>) -> bool
    decreases blobs.len(),
{
    if blobs.len() == 0 {
        stored.len() == 0
    } else if blobs.last().1@.len() % 4 != 0 {
        decoded(blobs.drop_last(), stored)
    } else {
        &&& stored.len() > 0
        &&& stored.last().0 == blobs.last().0
        &&& words_in(blobs.last().1@, stored.last().1@)
        &&& decoded(blobs.drop_last(), stored.drop_last())
    }
}

/// Decodes stored embeddings, leaving out any whose length is no whole number
/// of words.
pub fn decode_clap(blobs: &[(i64, Vec<u8>)]) -> (stored: Vec<(i64, Vec<u32>)>)
    ensures
        decoded(blobs@, stored@),
{
    let mut stored: Vec<(i64, Vec<u32>)> = Vec::new();
    let mut i: usize = 0;
    assert(blobs@.take(0) =~= Seq::empty());
    while i < blobs.len()
        invariant
            i <= blobs@.len(),
            decoded(blobs@.take(i as int), stored@),
        decreases blobs@.len() - i,
    {
        assert(blobs@.take(i + 1).drop_last() =~= blobs@.take(i as int));
        if blobs[i].1.len() % 4 == 0 {
            let ghost earlier = stored@;
            let words = collect_words(blobs[i].1.as_slice());
            stored.push((blobs[i].0, words));
            assert(stored@.drop_last() =~= earlier);
        }
        i = i + 1;
    }
    assert(blobs@.take(blobs@.len() as int) =~= blobs@);
    stored
}

/// One coordinate of the embedding of a track: zero where nothing of the
/// right length is stored for it. The last one stored for an id counts.
pub open spec fn clap_at(stored: Seq<(i64, Vec<u32>)>, dims: nat, id: i64, d: int) -> u32 {
    let found = rows_of(stored.map_values(|s: (i64, Vec<u32>)| s.0));
    if found.contains_key(id) && stored[found[id] as int].1@.len() == dims {
        stored[found[id] as int].1@[d]
    } else {
        0
    }
}

/// The stored embeddings as one matrix with a row per track, and its width.
///
/// Every embedding is as long as the first; one that is not counts as missing.
pub fn clap_matrix(stored: &[(i64, Vec<u32>)], track_ids: &[i64]) -> (out: (
    Option<Vec<u32>>,
    usize,
))
    requires
        stored@.len() > 0 ==> track_ids@.len() * stored@[0].1@.len() <= usize::MAX,
    ensures
        stored@.len() == 0 ==> out.0 is None && out.1 == 0,
        stored@.len() > 0 ==> {
            &&& out.1 == stored@[0].1@.len()
            &&& out.0 matches Some(matrix)
            &&& matrix@.len() == track_ids@.len() * out.1
            &&& forall|i: int, d: int|
                0 <= i < track_ids@.len() && 0 <= d < out.1 ==> #[trigger] matrix@[i * out.1 + d]
                    == clap_at(stored@, out.1 as nat, track_ids@[i], d)
        },
{
    if stored.len() == 0 {
        return (None, 0);
    }
    let dims: usize = stored[0].1.len();
    let mut ids: Vec<i64> = Vec::new();
    let mut i: usize = 0;
    while i < stored.len()
        invariant
            i <= stored@.len(),
            ids@ == stored@.map_values(|s: (i64, Vec<u32>)| s.0).take(i as int),
        decreases stored@.len() - i,
    {
        ids.push(stored[i].0);
        i = i + 1;
    }
    let ghost keys = stored@.map_values(|s: (i64, Vec<u32>)| s.0);
    assert(keys.take(stored@.len() as int) =~= keys);
    let found = index_rows(&ids);
    proof {
        crate::space::a_row_holds_its_track(keys);
    }
    let mut matrix: Vec<u32> = Vec::new();
    let mut row: usize = 0;
    while row < track_ids.len()
        invariant
            row <= track_ids@.len(),
            keys == stored@.map_values(|s: (i64, Vec<u32>)| s.0),
            found@ == rows_of(keys),
            forall|id: i64| #[trigger]
                rows_of(keys).contains_key(id) ==> rows_of(keys)[id] < keys.len(),
            track_ids@.len() * dims <= usize::MAX,
            matrix@.len() == row * dims,
            forall|i: int, d: int|
                0 <= i < row && 0 <= d < dims ==> #[trigger] matrix@[i * dims + d] == clap_at(
                    stored@,
                    dims as nat,
                    track_ids@[i],
                    d,
                ),
        decreases track_ids@.len() - row,
    {
        let id: i64 = track_ids[row];
        let hit: Option<usize> = match found.get(&id) {
            Some(at) => if stored[*at].1.len() == dims {
                Some(*at)
            } else {
                None
            },
            None => None,
        };
        let ghost earlier = matrix@;
        let mut d: usize = 0;
        while d < dims
            invariant
                d <= dims,
                row < track_ids@.len(),
                keys == stored@.map_values(|s: (i64, Vec<u32>)| s.0),
                found@ == rows_of(keys),
                id == track_ids@[row as int],
                hit matches Some(at) ==> at < stored@.len() && stored@[at as int].1@.len() == dims
                    && rows_of(keys).contains_key(id) && rows_of(keys)[id] == at,
                hit is None ==> !(rows_of(keys).contains_key(id)
                    && stored@[rows_of(keys)[id] as int].1@.len() == dims),
                earlier.len() == row * dims,
                matrix@.len() == row * dims + d,
                forall|k: int| 0 <= k < earlier.len() ==> matrix@[k] == earlier[k],
                forall|k: int|
                    0 <= k < d ==> #[trigger] matrix@[row * dims + k] == clap_at(
                        stored@,
                        dims as nat,
                        id,
                        k,
                    ),
            decreases dims - d,
        {
            let ghost shorter = matrix@;
            match hit {
                Some(at) => matrix.push(stored[at].1[d]),
                None => matrix.push(0),
            }
            assert forall|k: int| 0 <= k < d + 1 implies #[trigger] matrix@[row * dims + k]
                == clap_at(stored@, dims as nat, id, k) by {
                if k < d {
                    assert(matrix@[row * dims + k] == shorter[row * dims + k]);
                }
            }
            d = d + 1;
        }
        assert forall|i: int, d: int|
            0 <= i < row + 1 && 0 <= d < dims implies #[trigger] matrix@[i * dims + d] == clap_at(
            stored@,
            dims as nat,
            track_ids@[i],
            d,
        ) by {
            if i < row {
                assert(0 <= i * dims + d < row * dims) by (nonlinear_arith)
                    requires
                        0 <= i < row,
                        0 <= d < dims,
                ;
                assert(earlier[i * dims + d] == clap_at(stored@, dims as nat, track_ids@[i], d));
            }
        }
        assert((row + 1) * dims == row * dims + dims) by (nonlinear_arith);
        row = row + 1;
    }
    (Some(matrix), dims)
}

// ----------------------------------------------------------------- catalog

pub struct Catalog {
    pub tracks: Vec<TrackMeta>,
    /// Audio embeddings as 32-bit patterns, row-aligned with `tracks`.
    pub clap: Option<Vec<u32>>,
    pub clap_dims: usize,
    /// Artists to pretend are not there. The space keeps their rows, so
    /// blocking is enforced on every read, which is what lets it take effect
    /// without a rebuild.
    pub blocked_artists: HashSet<i64>,
}

/// The row of the database that answers for position `i` of `ids`, where one
/// does. The first position an id stands at takes its row; the last row of an
/// id is the one taken.
pub open spec fn answering(rows: Seq<Row>, ids: Seq<i64>, i: int) -> Option<int> {
    let found = rows_of(rows.map_values(|r: Row| r.id));
    if found.contains_key(ids[i]) && !ids.take(i).contains(ids[i]) {
        Some(found[ids[i]] as int)
    } else {
        None
    }
}

impl Catalog {
    pub open spec fn blocks(self, i: int) -> bool {
        &&& 0 <= i < self.tracks@.len()
        &&& self.blocked_artists@.contains(self.tracks@[i].artist_id)
    }

    /// The rows up to `n` that are not blocked.
    pub open spec fn visible_rows(self, n: nat) -> Seq<usize>
        decreases n,
    {
        if n == 0 {
            Seq::empty()
        } else {
            let rest = self.visible_rows((n - 1) as nat);
            if self.blocks(n - 1) {
                rest
            } else {
                rest.push((n - 1) as usize)
            }
        }
    }

    /// Metadata for the given track ids, in that exact order, so indices line
    /// up with the rows of the space.
    pub fn load(
        rows: &[Row],
        track_ids: &[i64],
        clap: (Option<Vec<u32>>, usize),
        blocked_artists: HashSet<i64>,
    ) -> (catalog: Self)
        ensures
            catalog.tracks@.len() == track_ids@.len(),
            forall|i: int|
                0 <= i < track_ids@.len() ==> match answering(rows@, track_ids@, i) {
                    Some(row) => (#[trigger] catalog.tracks@[i]).reads(rows@[row]),
                    None => catalog.tracks@[i].is_missing(track_ids@[i]),
                },
            catalog.clap == clap.0,
            catalog.clap_dims == clap.1,
            catalog.blocked_artists == blocked_artists,
    {
        let mut ids: Vec<i64> = Vec::new();
        let mut i: usize = 0;
        while i < rows.len()
            invariant
                i <= rows@.len(),
                ids@ == rows@.map_values(|r: Row| r.id).take(i as int),
            decreases rows@.len() - i,
        {
            ids.push(rows[i].id);
            i = i + 1;
        }
        let ghost keys = rows@.map_values(|r: Row| r.id);
        assert(keys.take(rows@.len() as int) =~= keys);
        let mut by_id: HashMap<i64, usize> = index_rows(&ids);
        proof {
            crate::space::a_row_holds_its_track(keys);
        }
        let mut tracks: Vec<TrackMeta> = Vec::new();
        while tracks.len() < track_ids.len()
            invariant
                tracks@.len() <= track_ids@.len(),
                keys == rows@.map_values(|r: Row| r.id),
                forall|id: i64| #[trigger]
                    rows_of(keys).contains_key(id) ==> rows_of(keys)[id] < keys.len(),
                forall|id: i64| #[trigger]
                    by_id@.contains_key(id) <==> rows_of(keys).contains_key(id) && !track_ids@.take(
                        tracks@.len() as int,
                    ).contains(id),
                forall|id: i64| #[trigger] by_id@.contains_key(id) ==> by_id@[id] == rows_of(keys)[id],
                forall|i: int|
                    0 <= i < tracks@.len() ==> match answering(rows@, track_ids@, i) {
                        Some(row) => (#[trigger] tracks@[i]).reads(rows@[row]),
                        None => tracks@[i].is_missing(track_ids@[i]),
                    },
            decreases track_ids@.len() - tracks@.len(),
        {
            let at: usize = tracks.len();
            let id: i64 = track_ids[at];
            let ghost before = by_id@;
            let hit: Option<usize> = by_id.remove(&id);
            let meta = match hit {
                Some(row) => TrackMeta::from_row(&rows[row]),
                None => TrackMeta::missing(id),
            };
            tracks.push(meta);
            proof {
                let now = track_ids@.take(at + 1);
                let then_ids = track_ids@.take(at as int);
                assert(now =~= then_ids.push(id));
                assert forall|other: i64| #[trigger] now.contains(other) <==> then_ids.contains(other)
                    || other == id by {
                    if then_ids.contains(other) {
                        let k = choose|k: int| 0 <= k < then_ids.len() && then_ids[k] == other;
                        assert(now[k] == other);
                    }
                    if other == id {
                        assert(now[at as int] == id);
                    }
                }
                assert(by_id@ =~= before.remove(id));
            }
        }
        Catalog { tracks, clap: clap.0, clap_dims: clap.1, blocked_artists }
    }

    /// Whether row `i` belongs to a blocked artist.
    pub fn is_blocked(&self, i: usize) -> (yes: bool)
        ensures
            yes == self.blocks(i as int),
    {
        i < self.tracks.len() && self.blocked_artists.contains(&self.tracks[i].artist_id)
    }

    /// Whether the first track with that id belongs to a blocked artist.
    pub fn is_blocked_id(&self, track_id: i64) -> (yes: bool)
        ensures
            yes == exists|i: int|
                0 <= i < self.tracks@.len() && (#[trigger] self.tracks@[i]).track_id == track_id
                    && self.blocks(i) && forall|h: int|
                    0 <= h < i ==> (#[trigger] self.tracks@[h]).track_id != track_id,
    {
        let mut i: usize = 0;
        while i < self.tracks.len()
            invariant
                i <= self.tracks@.len(),
                forall|h: int| 0 <= h < i ==> (#[trigger] self.tracks@[h]).track_id != track_id,
            decreases self.tracks@.len() - i,
        {
            if self.tracks[i].track_id == track_id {
                return self.is_blocked(i);
            }
            i = i + 1;
        }
        false
    }

    /// Row indices that are visible, in catalog order.
    pub fn visible(&self) -> (rows: Vec<usize>)
        ensures
            rows@ == self.visible_rows(self.tracks@.len()),
    {
        let mut rows: Vec<usize> = Vec::new();
        let mut i: usize = 0;
        while i < self.tracks.len()
            invariant
                i <= self.tracks@.len(),
                rows@ == self.visible_rows(i as nat),
            decreases self.tracks@.len() - i,
        {
            if !self.is_blocked(i) {
                rows.push(i);
            }
            i = i + 1;
        }
        rows
    }

    pub fn get(&self, i: usize) -> (track: &TrackMeta)
        requires
            i < self.tracks@.len(),
        ensures
            *track == self.tracks@[i as int],
    {
        &self.tracks[i]
    }

    pub fn len(&self) -> (n: usize)
        ensures
            n == self.tracks@.len(),
    {
        self.tracks.len()
    }

    pub fn is_empty(&self) -> (yes: bool)
        ensures
            yes == (self.tracks@.len() == 0),
    {
        self.tracks.len() == 0
    }

    /// Ids present in the space, for checking whether a search result is
    /// navigable. Blocked tracks are left out.
    pub fn id_set(&self) -> (ids: HashSet<i64>)
        ensures
            forall|id: i64| #[trigger]
                ids@.contains(id) <==> exists|i: int|
                    0 <= i < self.tracks@.len() && !self.blocks(i) && (
                    #[trigger] self.tracks@[i]).track_id == id,
    {
        let mut ids: HashSet<i64> = HashSet::new();
        let mut i: usize = 0;
        while i < self.tracks.len()
            invariant
                i <= self.tracks@.len(),
                forall|id: i64| #[trigger]
                    ids@.contains(id) <==> exists|k: int|
                        0 <= k < i && !self.blocks(k) && (#[trigger] self.tracks@[k]).track_id == id,
            decreases self.tracks@.len() - i,
        {
            let ghost before = ids@;
            if !self.is_blocked(i) {
                ids.insert(self.tracks[i].track_id);
            }
            assert forall|id: i64| #[trigger] ids@.contains(id) <==> exists|k: int|
                0 <= k < i + 1 && !self.blocks(k) && (#[trigger] self.tracks@[k]).track_id == id by {
                if before.contains(id) {
                    let k = choose|k: int|
                        0 <= k < i && !self.blocks(k) && (#[trigger] self.tracks@[k]).track_id == id;
                    assert(self.tracks@[k].track_id == id);
                }
                if ids@.contains(id) && !before.contains(id) {
                    assert(self.tracks@[i as int].track_id == id);
                }
            }
            i = i + 1;
        }
        ids
    }
}

/// A row is listed as visible exactly when it is in the catalog and its
/// artist is not blocked.
pub proof fn visible_rows_are_the_unblocked_ones(catalog: Catalog, n: nat, i: usize)
    requires
        n <= catalog.tracks@.len() <= usize::MAX,
    ensures
        catalog.visible_rows(n).contains(i) <==> i < n && !catalog.blocks(i as int),
    decreases n,
{
    if n > 0 {
        let rest = catalog.visible_rows((n - 1) as nat);
        visible_rows_are_the_unblocked_ones(catalog, (n - 1) as nat, i);
        let all = catalog.visible_rows(n);
        if !catalog.blocks(n - 1) {
            assert(all =~= rest.push((n - 1) as usize));
            assert(all[all.len() - 1] == (n - 1) as usize);
            if rest.contains(i) {
                let k = choose|k: int| 0 <= k < rest.len() && rest[k] == i;
                assert(all[k] == i);
            }
        }
    }
}

} // verus!
