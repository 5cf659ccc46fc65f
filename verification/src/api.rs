//! Wire types shared by the app and the server.
//!
//! Space navigation is deliberately absent: neighbours, radio, paths and drift
//! stay client-side.

use crate::strings::same;
use md5::Digest;
use vstd::prelude::*;

verus! {

// --------------------------------------------------------------- the stages

/// One step of the pipeline.
#[derive(Clone, Copy, PartialEq, Eq, Structural, Debug)]
pub enum Stage {
    Crawl,
    Analyse,
    BuildSpace,
    Layout,
}

impl Stage {
    pub const ALL: [Stage; 4] = [Stage::Crawl, Stage::Analyse, Stage::BuildSpace, Stage::Layout];

    pub open spec fn spoken(self) -> Seq<char> {
        match self {
            Stage::Crawl => "crawl"@,
            Stage::Analyse => "analyse"@,
            Stage::BuildSpace => "build space"@,
            Stage::Layout => "layout"@,
        }
    }

    pub fn label(self) -> (text: &'static str)
        ensures
            text@ == self.spoken(),
    {
        match self {
            Stage::Crawl => "crawl",
            Stage::Analyse => "analyse",
            Stage::BuildSpace => "build space",
            Stage::Layout => "layout",
        }
    }

    /// The subcommand, for the three stages that run as one. Crawl does not,
    /// so it has none.
    pub fn command(self) -> (text: Option<&'static str>)
        ensures
            text is None <==> self is Crawl,
            self is Analyse ==> text->0@ == "analyse"@,
            self is BuildSpace ==> text->0@ == "build-space"@,
            self is Layout ==> text->0@ == "layout"@,
    {
        match self {
            Stage::Crawl => None,
            Stage::Analyse => Some("analyse"),
            Stage::BuildSpace => Some("build-space"),
            Stage::Layout => Some("layout"),
        }
    }

    pub fn blurb(self) -> (text: &'static str)
        ensures
            text@ == match self {
                Stage::Crawl => "Follow similar artists outward from your favourites."@,
                Stage::Analyse => "Download excerpts and extract features. The slow one."@,
                Stage::BuildSpace => "Assemble the vectors. Seconds, no network."@,
                Stage::Layout => "UMAP projection for the map."@,
            },
    {
        match self {
            Stage::Crawl => "Follow similar artists outward from your favourites.",
            Stage::Analyse => "Download excerpts and extract features. The slow one.",
            Stage::BuildSpace => "Assemble the vectors. Seconds, no network.",
            Stage::Layout => "UMAP projection for the map.",
        }
    }

    /// Whether finishing this stage invalidates the client's space. Remotely
    /// that means re-syncing, not just reloading.
    pub fn rebuilds_space(self) -> (yes: bool)
        ensures
            yes <==> self is BuildSpace || self is Layout,
    {
        match self {
            Stage::BuildSpace => true,
            Stage::Layout => true,
            _ => false,
        }
    }
}

/// The three that terminate on their own, in dependency order. Crawl runs
/// until the frontier empties, so it is not queued behind other work.
pub const FULL_RUN: [Stage; 3] = [Stage::Analyse, Stage::BuildSpace, Stage::Layout];

// --------------------------------------------------------------- the counts

/// What still needs doing, phrased as the stages themselves would phrase it.
///
/// Each field is asked the way its stage asks it. Deriving them arithmetically
/// is wrong: the populations differ over blocked artists.
#[derive(Clone, Copy, Debug, PartialEq, Eq, Structural)]
pub struct Corpus {
    pub tracks: i64,
    /// Rows in `features`, whatever their artist.
    pub analysed: i64,
    /// Exactly what `analyse` would queue: unanalysed, not failed, not blocked.
    pub to_analyse: i64,
    pub failed: i64,
    /// Frontier entries waiting for a crawl.
    pub pending: i64,
    /// What `build-space` would take in if run now.
    pub buildable: i64,
    /// Tracks in the space the client has loaded. Filled in by the client,
    /// the server cannot answer for someone else's stale sync.
    pub in_space: i64,
    /// Of those, the ones with coordinates, the points actually drawn.
    pub on_map: i64,
}

impl Default for Corpus {
    fn default() -> (corpus: Self)
        ensures
            corpus == (Corpus {
                tracks: 0,
                analysed: 0,
                to_analyse: 0,
                failed: 0,
                pending: 0,
                buildable: 0,
                in_space: 0,
                on_map: 0,
            }),
    {
        Corpus {
            tracks: 0,
            analysed: 0,
            to_analyse: 0,
            failed: 0,
            pending: 0,
            buildable: 0,
            in_space: 0,
            on_map: 0,
        }
    }
}

// ---------------------------------------------------------------- the crawl

/// A running crawl, as the pipeline view needs to show it.
#[derive(Debug)]
pub struct CrawlStatus {
    pub running: bool,
    pub artists_expanded: usize,
    pub albums_expanded: usize,
    pub tracks_added: i64,
    pub errors: usize,
    pub blocked_skipped: usize,
    /// Total rows in `tracks`, so the view can show the corpus growing.
    pub tracks: i64,
    /// Frontier entries still pending.
    pub pending: i64,
    /// What the last step did, for the one-line ticker.
    pub last: Option<String>,
}

impl Default for CrawlStatus {
    fn default() -> (status: Self)
        ensures
            !status.running,
            status.artists_expanded == 0 && status.albums_expanded == 0 && status.tracks_added == 0,
            status.errors == 0 && status.blocked_skipped == 0,
            status.tracks == 0 && status.pending == 0,
            status.last is None,
    {
        CrawlStatus {
            running: false,
            artists_expanded: 0,
            albums_expanded: 0,
            tracks_added: 0,
            errors: 0,
            blocked_skipped: 0,
            tracks: 0,
            pending: 0,
            last: None,
        }
    }
}

// ------------------------------------------------------------- the pipeline

/// Which stage is running, and whether the space underneath has changed.
#[derive(Debug)]
pub struct PipelineStatus {
    pub running: Option<Stage>,
    /// Stages queued behind the running one, in the order they will run.
    pub queued: Vec<Stage>,
    /// Bumped when a space-rebuilding stage finishes. The client re-syncs when
    /// it differs from what it loaded.
    pub generation: u64,
}

impl Default for PipelineStatus {
    fn default() -> (status: Self)
        ensures
            status.running is None,
            status.queued@.len() == 0,
            status.generation == 0,
    {
        PipelineStatus { running: None, queued: Vec::new(), generation: 0 }
    }
}

/// A slice of a stage's output.
#[derive(Debug)]
pub struct LogSlice {
    pub lines: Vec<String>,
    /// Pass this back as `since` on the next call.
    pub cursor: u64,
}

// --------------------------------------------------------------- the client

/// An artist the user has hidden.
#[derive(Debug)]
pub struct BlockedArtist {
    pub artist_id: i64,
    pub name: String,
    pub reason: Option<String>,
}

/// What the "fetch" buttons did: an album's tracklist, or an artist's
/// discography queued for the frontier.
#[derive(Clone, Copy, Debug, PartialEq, Eq, Structural)]
pub struct FetchResult {
    pub count: usize,
}

// ----------------------------------------------------------------- the sync

/// What the server holds, so a client can tell whether its copy is stale. The
/// digests cover the case where a restart has reset `generation`.
#[derive(Debug)]
pub struct SyncManifest {
    pub generation: u64,
    pub files: Vec<SyncFile>,
}

#[derive(Debug)]
pub struct SyncFile {
    /// Name within the data directory: `space.bin`, `space.json`, `catalog.db`.
    pub name: String,
    pub bytes: u64,
    /// Hex md5 of the contents: a cache key, not a security boundary.
    pub digest: String,
}

/// The MD5 hash of a byte string.
pub uninterp spec fn md5_of(bytes: Seq<u8>) -> Seq<u8>;

/// Calls `md5::Md5::digest`, the MD5 hash of the bytes: sixteen of them, the
/// same ones for the same input. What they are is MD5's to say.
#[verifier::external_body]
fn md5_sum(bytes: &[u8]) -> (sum: Vec<u8>)
    ensures
        sum@ == md5_of(bytes@),
        sum@.len() == 16,
{
    md5::Md5::digest(bytes).to_vec()
}

pub open spec fn hex_digit(n: int) -> char {
    if n < 10 {
        (48 + n) as char
    } else {
        (87 + n) as char
    }
}

/// Every byte as two lower-case hexadecimal digits.
pub open spec fn hex_of(bytes: Seq<u8>) -> Seq<char>
    decreases bytes.len(),
{
    if bytes.len() == 0 {
        Seq::empty()
    } else {
        hex_of(bytes.drop_last()).push(hex_digit(bytes.last() as int / 16)).push(
            hex_digit(bytes.last() as int % 16),
        )
    }
}

fn hex_char(n: u8) -> (c: char)
    requires
        n < 16,
    ensures
        c == hex_digit(n as int),
{
    if n < 10 {
        (48 + n) as char
    } else {
        (87 + n) as char
    }
}

/// Bytes in hexadecimal.
pub fn hex(bytes: &[u8]) -> (text: String)
    ensures
        text@ == hex_of(bytes@),
{
    let mut text = String::new();
    let mut i: usize = 0;
    assert(bytes@.take(0) =~= Seq::empty());
    while i < bytes.len()
        invariant
            i <= bytes@.len(),
            text@ == hex_of(bytes@.take(i as int)),
        decreases bytes@.len() - i,
    {
        assert(bytes@.take(i + 1).drop_last() =~= bytes@.take(i as int));
        let byte: u8 = bytes[i];
        text.push(hex_char(byte / 16));
        text.push(hex_char(byte % 16));
        i = i + 1;
    }
    assert(bytes@.take(bytes@.len() as int) =~= bytes@);
    text
}

/// Two hexadecimal digits for every byte.
pub proof fn hex_is_twice_as_long(bytes: Seq<u8>)
    ensures
        hex_of(bytes).len() == 2 * bytes.len(),
    decreases bytes.len(),
{
    if bytes.len() > 0 {
        hex_is_twice_as_long(bytes.drop_last());
    }
}

/// Different bytes never read the same in hexadecimal.
pub proof fn hex_tells_bytes_apart(a: Seq<u8>, b: Seq<u8>)
    requires
        hex_of(a) == hex_of(b),
    ensures
        a == b,
    decreases a.len(),
{
    hex_is_twice_as_long(a);
    hex_is_twice_as_long(b);
    if a.len() > 0 {
        let x = a.last() as int;
        let y = b.last() as int;
        let n = hex_of(a).len();
        assert(hex_of(a)[n - 1] == hex_digit(x % 16));
        assert(hex_of(b)[n - 1] == hex_digit(y % 16));
        assert(hex_of(a)[n - 2] == hex_digit(x / 16));
        assert(hex_of(b)[n - 2] == hex_digit(y / 16));
        assert(x == y);
        assert(hex_of(a.drop_last()) =~= hex_of(a).take(n - 2));
        assert(hex_of(b.drop_last()) =~= hex_of(b).take(n - 2));
        hex_tells_bytes_apart(a.drop_last(), b.drop_last());
        assert(a =~= a.drop_last().push(a.last()));
        assert(b =~= b.drop_last().push(b.last()));
    } else {
        assert(a =~= b);
    }
}

/// Hex md5, the shape both halves compare sync files by.
pub fn digest(bytes: &[u8]) -> (text: String)
    ensures
        text@ == hex_of(md5_of(bytes@)),
        text@.len() == 32,
{
    let sum = md5_sum(bytes);
    proof {
        hex_is_twice_as_long(sum@);
    }
    hex(&sum)
}

// ----------------------------------------------------------------- the auth

/// What a device is allowed to do. `Play` is every device; `Pipeline` is hours
/// of CPU, the shared rate limit, and deleting rows.
#[derive(Clone, Copy, PartialEq, Eq, Structural, Debug)]
pub enum Scope {
    Play,
    Pipeline,
}

impl Scope {
    pub open spec fn word(self) -> Seq<char> {
        match self {
            Scope::Play => "play"@,
            Scope::Pipeline => "pipeline"@,
        }
    }

    pub fn as_str(self) -> (text: &'static str)
        ensures
            text@ == self.word(),
    {
        match self {
            Scope::Play => "play",
            Scope::Pipeline => "pipeline",
        }
    }

    pub fn parse(text: &str) -> (scope: Option<Self>)
        ensures
            scope == (if text@ == "play"@ {
                Some(Scope::Play)
            } else if text@ == "pipeline"@ {
                Some(Scope::Pipeline)
            } else {
                None
            }),
    {
        if same(text, "play") {
            Some(Scope::Play)
        } else if same(text, "pipeline") {
            Some(Scope::Pipeline)
        } else {
            None
        }
    }

    pub open spec fn allows(self, needed: Scope) -> bool {
        self == needed || (self is Pipeline && needed is Play)
    }

    /// `pipeline` implies `play`: a device trusted to start `analyse` is
    /// already trusted to search. The reverse is not true.
    pub fn covers(self, needed: Scope) -> (yes: bool)
        ensures
            yes == self.allows(needed),
    {
        self == needed || (self == Scope::Pipeline && needed == Scope::Play)
    }
}

/// A scope's word reads back as that scope, and as no other.
pub proof fn a_scope_reads_back(scope: Scope)
    ensures
        scope.word() == "play"@ <==> scope is Play,
        scope.word() == "pipeline"@ <==> scope is Pipeline,
{
    reveal_strlit("play");
    reveal_strlit("pipeline");
    assert("play"@.len() == 4);
    assert("pipeline"@.len() == 8);
}

/// Every scope covers itself, and what covers another covers all it covers.
pub proof fn covering_carries_across(a: Scope, b: Scope, c: Scope)
    ensures
        a.allows(a),
        a.allows(b) && b.allows(c) ==> a.allows(c),
{
}

/// A paired device. The token itself is never in here: it is shown once, at
/// pairing.
#[derive(Debug)]
pub struct Device {
    pub id: i64,
    pub name: String,
    pub scope: Scope,
    pub created_at: String,
    pub last_seen: Option<String>,
}

/// The one time a token is ever transmitted.
#[derive(Debug)]
pub struct PairingGrant {
    pub device: Device,
    pub token: String,
}

// -------------------------------------------------------------- the errors

/// A failure, with the message the server would have logged.
#[derive(Debug)]
pub struct ApiError {
    pub message: String,
}

} // verus!
