//! Reading the command lines of the crawler and of the query tool.

use crate::api::CrawlStatus;
use crate::json::seen;
use crate::strings::{joined, number_of, parse_i64, parse_usize, same, views};
use vstd::prelude::*;

verus! {

/// What a crawl is asked to do. `rate` is a 64-bit pattern.
pub struct Options {
    pub max_tracks: i64,
    pub max_distance: i64,
    pub rate: u64,
    pub seed: bool,
    /// Fetch just this artist's discography, or this album's tracklist, and
    /// stop.
    pub only_artist: Option<i64>,
    pub only_album: Option<String>,
}

/// How a command line was read.
pub enum Reading {
    Run(Options),
    Help,
    /// The option at this place has no value after it.
    NeedsValue(usize),
    /// The value at this place is no whole number.
    NotANumber(usize),
    /// The value at this place is no rate.
    NotARate(usize),
    /// The argument at this place means nothing.
    Unknown(usize),
}

/// Tracks a crawl stops at unless told otherwise.
pub const DEFAULT_MAX_TRACKS: i64 = 5000;

/// What has been read so far, for saying what a command line means.
#[verifier::ext_equal]
pub struct Asked {
    pub max_tracks: i64,
    pub max_distance: i64,
    pub rate: u64,
    pub seed: bool,
    pub only_artist: Option<i64>,
    pub only_album: Option<Seq<char>>,
}

pub enum Meaning {
    Run(Asked),
    Help,
    NeedsValue(int),
    NotANumber(int),
    NotARate(int),
    Unknown(int),
}

pub open spec fn whole(text: Seq<char>) -> Option<i64> {
    match number_of(text) {
        Some(n) => if i64::MIN <= n <= i64::MAX {
            Some(n as i64)
        } else {
            None
        },
        None => None,
    }
}

/// What the arguments from `at` on mean, after what they have meant so far.
/// `rates` holds what each argument is as a rate, where it is one.
pub open spec fn meaning(
    args: Seq<Seq<char>>,
    rates: Seq<Option<u64>>,
    at: int,
    so_far: Asked,
) -> Meaning
    decreases args.len() - at,
{
    if at < 0 || at >= args.len() {
        Meaning::Run(so_far)
    } else if args[at] == "--no-seed"@ {
        meaning(args, rates, at + 1, Asked { seed: false, ..so_far })
    } else if args[at] == "-h"@ || args[at] == "--help"@ {
        Meaning::Help
    } else if args[at] == "--max-tracks"@ || args[at] == "--max-distance"@ || args[at] == "--rate"@
        || args[at] == "--artist"@ || args[at] == "--album"@ {
        if at + 1 >= args.len() {
            Meaning::NeedsValue(at)
        } else if args[at] == "--album"@ {
            meaning(args, rates, at + 2, Asked { only_album: Some(args[at + 1]), ..so_far })
        } else if args[at] == "--rate"@ {
            match rates[at + 1] {
                Some(rate) => meaning(args, rates, at + 2, Asked { rate, ..so_far }),
                None => Meaning::NotARate(at + 1),
            }
        } else {
            match whole(args[at + 1]) {
                None => Meaning::NotANumber(at + 1),
                Some(n) => if args[at] == "--max-tracks"@ {
                    meaning(args, rates, at + 2, Asked { max_tracks: n, ..so_far })
                } else if args[at] == "--max-distance"@ {
                    meaning(args, rates, at + 2, Asked { max_distance: n, ..so_far })
                } else {
                    meaning(args, rates, at + 2, Asked { only_artist: Some(n), ..so_far })
                },
            }
        }
    } else {
        Meaning::Unknown(at)
    }
}

impl Options {
    pub open spec fn view(&self) -> Asked {
        Asked {
            max_tracks: self.max_tracks,
            max_distance: self.max_distance,
            rate: self.rate,
            seed: self.seed,
            only_artist: self.only_artist,
            only_album: seen(self.only_album),
        }
    }
}

impl Reading {
    pub open spec fn view(&self) -> Meaning {
        match self {
            Reading::Run(options) => Meaning::Run(options@),
            Reading::Help => Meaning::Help,
            Reading::NeedsValue(at) => Meaning::NeedsValue(*at as int),
            Reading::NotANumber(at) => Meaning::NotANumber(*at as int),
            Reading::NotARate(at) => Meaning::NotARate(*at as int),
            Reading::Unknown(at) => Meaning::Unknown(*at as int),
        }
    }
}

/// Reads the crawler's command line.
///
/// `rates` holds what each argument is as a rate, where it is one.
pub fn parse_args(
    args: &[String],
    rates: &[Option<u64>],
    default_distance: i64,
    default_rate: u64,
) -> (reading: Reading)
    requires
        rates@.len() == args@.len(),
    ensures
        reading@ == meaning(
            views(args@),
            rates@,
            0,
            (Asked {
                max_tracks: DEFAULT_MAX_TRACKS,
                max_distance: default_distance,
                rate: default_rate,
                seed: true,
                only_artist: None,
                only_album: None,
            }),
        ),
{
    let mut options = Options {
        max_tracks: DEFAULT_MAX_TRACKS,
        max_distance: default_distance,
        rate: default_rate,
        seed: true,
        only_artist: None,
        only_album: None,
    };
    let n: usize = args.len();
    let ghost all = views(args@);
    let ghost start = options@;
    let ghost goal = meaning(all, rates@, 0, start);
    assert(start == (Asked {
        max_tracks: DEFAULT_MAX_TRACKS,
        max_distance: default_distance,
        rate: default_rate,
        seed: true,
        only_artist: None,
        only_album: None,
    }));
    let mut i: usize = 0;
    while i < n
        invariant
            i <= n,
            n == args@.len(),
            rates@.len() == n,
            all == views(args@),
            start == (Asked {
                max_tracks: DEFAULT_MAX_TRACKS,
                max_distance: default_distance,
                rate: default_rate,
                seed: true,
                only_artist: None,
                only_album: None,
            }),
            goal == meaning(all, rates@, 0, start),
            meaning(all, rates@, i as int, options@) == goal,
        decreases n - i,
    {
        let arg = args[i].as_str();
        assert(all[i as int] == arg@);
        if same(arg, "--no-seed") {
            options.seed = false;
            i = i + 1;
        } else if same(arg, "-h") || same(arg, "--help") {
            return Reading::Help;
        } else if same(arg, "--max-tracks") || same(arg, "--max-distance") || same(arg, "--rate")
            || same(arg, "--artist") || same(arg, "--album") {
            if n - i < 2 {
                return Reading::NeedsValue(i);
            }
            let value = args[i + 1].as_str();
            assert(all[i + 1] == value@);
            if same(arg, "--album") {
                options.only_album = Some(value.to_owned());
            } else if same(arg, "--rate") {
                match rates[i + 1] {
                    Some(rate) => {
                        options.rate = rate;
                    },
                    None => return Reading::NotARate(i + 1),
                }
            } else {
                let number: i64 = match parse_i64(value) {
                    Some(number) => number,
                    None => return Reading::NotANumber(i + 1),
                };
                if same(arg, "--max-tracks") {
                    options.max_tracks = number;
                } else if same(arg, "--max-distance") {
                    options.max_distance = number;
                } else {
                    options.only_artist = Some(number);
                }
            }
            i = i + 2;
        } else {
            return Reading::Unknown(i);
        }
    }
    Reading::Run(options)
}

/// What `i64` says of a text that is none of its numbers.
pub uninterp spec fn no_whole_of(text: Seq<char>) -> Seq<char>;

/// Calls `str::parse` for an `i64` and has its error say what is wrong; says
/// nothing of a text that is a number. The words are std's.
#[verifier::external_body]
fn no_whole(text: &str) -> (why: String)
    ensures
        why@ == no_whole_of(text@),
{
    text.parse::<i64>().err().map(|error| error.to_string()).unwrap_or_default()
}

/// What is said about a command line that cannot be run; nothing about one
/// that can.
///
/// `no_rates` holds what is wrong with each argument as a rate.
pub fn complaint(reading: &Reading, args: &[String], no_rates: &[String]) -> (text: Option<String>)
    requires
        no_rates@.len() == args@.len(),
        match *reading {
            Reading::NeedsValue(at) => at < args@.len(),
            Reading::NotANumber(at) => at < args@.len(),
            Reading::NotARate(at) => at < args@.len(),
            Reading::Unknown(at) => at < args@.len(),
            _ => true,
        },
    ensures
        seen(text) == (match *reading {
            Reading::NeedsValue(at) => Some(args@[at as int]@ + " needs a value"@),
            Reading::NotANumber(at) => Some(no_whole_of(args@[at as int]@)),
            Reading::NotARate(at) => Some(no_rates@[at as int]@),
            Reading::Unknown(at) => Some("unknown argument: "@ + args@[at as int]@),
            _ => None,
        }),
{
    match reading {
        Reading::NeedsValue(at) => Some(joined(args[*at].as_str(), " needs a value")),
        Reading::NotANumber(at) => Some(no_whole(args[*at].as_str())),
        Reading::NotARate(at) => Some(no_rates[*at].clone()),
        Reading::Unknown(at) => Some(joined("unknown argument: ", args[*at].as_str())),
        _ => None,
    }
}

/// What a crawl that is being watched comes to next.
#[derive(Clone, Copy, PartialEq, Eq, Structural, Debug)]
pub enum CrawlNext {
    /// Look again later.
    Watch,
    /// It has enough: have it stopped, then look again.
    Stop,
    /// It has ended.
    Done,
}

/// What a crawl that was asked for `max_tracks` comes to, by how it is doing.
pub fn crawl_next(max_tracks: i64, status: &CrawlStatus) -> (next: CrawlNext)
    ensures
        next == (if !status.running {
            CrawlNext::Done
        } else if status.tracks >= max_tracks {
            CrawlNext::Stop
        } else {
            CrawlNext::Watch
        }),
{
    if !status.running {
        CrawlNext::Done
    } else if status.tracks >= max_tracks {
        CrawlNext::Stop
    } else {
        CrawlNext::Watch
    }
}

/// A command line that is complained of is complained of at one of its own
/// arguments.
pub proof fn a_complaint_points_at_an_argument(
    args: Seq<Seq<char>>,
    rates: Seq<Option<u64>>,
    at: int,
    so_far: Asked,
)
    requires
        0 <= at <= args.len(),
    ensures
        match meaning(args, rates, at, so_far) {
            Meaning::NeedsValue(p) => at <= p < args.len(),
            Meaning::NotANumber(p) => at <= p < args.len(),
            Meaning::NotARate(p) => at <= p < args.len(),
            Meaning::Unknown(p) => at <= p < args.len(),
            _ => true,
        },
    decreases args.len() - at,
{
    if at < args.len() {
        if args[at] == "--no-seed"@ {
            a_complaint_points_at_an_argument(
                args,
                rates,
                at + 1,
                Asked { seed: false, ..so_far },
            );
        } else if at + 1 < args.len() {
            let value = args[at + 1];
            a_complaint_points_at_an_argument(
                args,
                rates,
                at + 2,
                Asked { only_album: Some(value), ..so_far },
            );
            if rates[at + 1] is Some {
                a_complaint_points_at_an_argument(
                    args,
                    rates,
                    at + 2,
                    Asked { rate: rates[at + 1]->0, ..so_far },
                );
            }
            if whole(value) is Some {
                let n = whole(value)->0;
                a_complaint_points_at_an_argument(
                    args,
                    rates,
                    at + 2,
                    Asked { max_tracks: n, ..so_far },
                );
                a_complaint_points_at_an_argument(
                    args,
                    rates,
                    at + 2,
                    Asked { max_distance: n, ..so_far },
                );
                a_complaint_points_at_an_argument(
                    args,
                    rates,
                    at + 2,
                    Asked { only_artist: Some(n), ..so_far },
                );
            }
        }
    }
}

// ------------------------------------------------------------ the query tool

/// A query as the tool takes it. A penalty is a 32-bit pattern.
pub enum Query {
    Neighbours { track: i64, k: usize },
    Radio { track: i64, steps: usize, penalty: u32 },
    Path { from: i64, to: i64 },
    Interpolate { from: i64, to: i64, steps: usize },
    Drift { from: i64, phrase: String, steps: usize },
    Embed { phrase: String },
}

/// Neighbours kept for each track of the graph a path goes through.
pub const PATH_NEIGHBOURS: usize = 16;

/// Tracks whose middle a described sound is taken to be.
pub const DRIFT_ANCHORS: usize = 5;

/// How many arguments a mode cannot do without, itself counted.
pub open spec fn needed(mode: Seq<char>) -> nat {
    if mode == "path"@ || mode == "interpolate"@ || mode == "drift"@ {
        3
    } else if mode == "neighbours"@ || mode == "radio"@ || mode == "embed"@ {
        2
    } else {
        1
    }
}

/// Whether a query has the arguments its mode cannot do without.
pub fn has_needed(args: &[String]) -> (yes: bool)
    ensures
        yes == (args@.len() > 0 ==> args@.len() >= needed(args@[0]@)),
{
    if args.len() == 0 {
        return true;
    }
    let mode = args[0].as_str();
    let n: usize = if same(mode, "path") || same(mode, "interpolate") || same(mode, "drift") {
        3
    } else if same(mode, "neighbours") || same(mode, "radio") || same(mode, "embed") {
        2
    } else {
        1
    };
    args.len() >= n
}

/// The number at `at`, or the default where nothing stands there.
pub open spec fn count_at(args: Seq<Seq<char>>, at: int, default: usize) -> Option<usize> {
    if at >= args.len() {
        Some(default)
    } else {
        match number_of(args[at]) {
            Some(n) => if args[at][0] != '-' && n <= usize::MAX {
                Some(n as usize)
            } else {
                None
            },
            None => None,
        }
    }
}

/// `query` is what `args` ask for. `penalties` holds what each argument is as
/// a penalty, where it is one.
pub open spec fn asks(
    args: Seq<Seq<char>>,
    penalties: Seq<Option<u32>>,
    query: Query,
) -> bool {
    match query {
        Query::Neighbours { track, k } => args[0] == "neighbours"@ && whole(args[1]) == Some(track)
            && count_at(args, 2, 10) == Some(k),
        Query::Radio { track, steps, penalty } => args[0] == "radio"@ && whole(args[1]) == Some(
            track,
        ) && count_at(args, 2, 10) == Some(steps) && (if args.len() > 3 {
            penalties[3] == Some(penalty)
        } else {
            penalty == 0
        }),
        Query::Path { from, to } => args[0] == "path"@ && whole(args[1]) == Some(from) && whole(
            args[2],
        ) == Some(to),
        Query::Interpolate { from, to, steps } => args[0] == "interpolate"@ && whole(args[1])
            == Some(from) && whole(args[2]) == Some(to) && count_at(args, 3, 12) == Some(steps),
        Query::Drift { from, phrase, steps } => args[0] == "drift"@ && whole(args[1]) == Some(from)
            && phrase@ == args[2] && count_at(args, 3, 8) == Some(steps),
        Query::Embed { phrase } => args[0] == "embed"@ && phrase@ == args[1],
    }
}

/// Every number a mode reads is one.
pub open spec fn reads_numbers(args: Seq<Seq<char>>, penalties: Seq<Option<u32>>) -> bool {
    let mode = args[0];
    &&& mode == "neighbours"@ ==> whole(args[1]) is Some && count_at(args, 2, 10) is Some
    &&& mode == "radio"@ ==> whole(args[1]) is Some && count_at(args, 2, 10) is Some && (args.len()
        > 3 ==> penalties[3] is Some)
    &&& mode == "path"@ ==> whole(args[1]) is Some && whole(args[2]) is Some
    &&& mode == "interpolate"@ ==> whole(args[1]) is Some && whole(args[2]) is Some && count_at(
        args,
        3,
        12,
    ) is Some
    &&& mode == "drift"@ ==> whole(args[1]) is Some && count_at(args, 3, 8) is Some
}

pub open spec fn is_mode(mode: Seq<char>) -> bool {
    ||| mode == "neighbours"@
    ||| mode == "radio"@
    ||| mode == "path"@
    ||| mode == "interpolate"@
    ||| mode == "drift"@
    ||| mode == "embed"@
}

pub enum QueryError {
    /// No arguments at all.
    Usage,
    UnknownMode(String),
    NotANumber,
}

fn count_or(args: &[String], at: usize, default: usize) -> (count: Option<usize>)
    ensures
        count == count_at(views(args@), at as int, default),
{
    if at >= args.len() {
        Some(default)
    } else {
        assert(views(args@)[at as int] == args@[at as int]@);
        parse_usize(args[at].as_str())
    }
}

/// Reads the query tool's command line.
pub fn parse_query(args: &[String], penalties: &[Option<u32>]) -> (query: Result<Query, QueryError>)
    requires
        penalties@.len() == args@.len(),
        args@.len() > 0 ==> args@.len() >= needed(args@[0]@),
    ensures
        query is Ok <==> args@.len() > 0 && is_mode(args@[0]@) && reads_numbers(
            views(args@),
            penalties@,
        ),
        query matches Ok(q) ==> asks(views(args@), penalties@, q),
        query matches Err(e) ==> match e {
            QueryError::Usage => args@.len() == 0,
            QueryError::UnknownMode(mode) => args@.len() > 0 && !is_mode(args@[0]@) && mode@
                == args@[0]@,
            QueryError::NotANumber => args@.len() > 0 && is_mode(args@[0]@),
        },
{
    if args.len() == 0 {
        return Err(QueryError::Usage);
    }
    let mode = args[0].as_str();
    proof {
        let all = views(args@);
        assert(all[0] == mode@);
        assert(args@.len() > 1 ==> all[1] == args@[1]@);
        assert(args@.len() > 2 ==> all[2] == args@[2]@);
        lemma_modes_differ();
    }
    let known: bool = same(mode, "neighbours") || same(mode, "radio") || same(mode, "path") || same(
        mode,
        "interpolate",
    ) || same(mode, "drift") || same(mode, "embed");
    if !known {
        return Err(QueryError::UnknownMode(mode.to_owned()));
    }
    if same(mode, "embed") {
        return Ok(Query::Embed { phrase: args[1].clone() });
    }
    let first: i64 = match parse_i64(args[1].as_str()) {
        Some(id) => id,
        None => return Err(QueryError::NotANumber),
    };
    if same(mode, "neighbours") {
        return match count_or(args, 2, 10) {
            Some(k) => Ok(Query::Neighbours { track: first, k }),
            None => Err(QueryError::NotANumber),
        };
    }
    if same(mode, "radio") {
        let steps: usize = match count_or(args, 2, 10) {
            Some(steps) => steps,
            None => return Err(QueryError::NotANumber),
        };
        let penalty: u32 = if args.len() > 3 {
            match penalties[3] {
                Some(penalty) => penalty,
                None => return Err(QueryError::NotANumber),
            }
        } else {
            0
        };
        return Ok(Query::Radio { track: first, steps, penalty });
    }
    if same(mode, "drift") {
        return match count_or(args, 3, 8) {
            Some(steps) => Ok(Query::Drift { from: first, phrase: args[2].clone(), steps }),
            None => Err(QueryError::NotANumber),
        };
    }
    let to: i64 = match parse_i64(args[2].as_str()) {
        Some(id) => id,
        None => return Err(QueryError::NotANumber),
    };
    if same(mode, "path") {
        return Ok(Query::Path { from: first, to });
    }
    match count_or(args, 3, 12) {
        Some(steps) => Ok(Query::Interpolate { from: first, to, steps }),
        None => Err(QueryError::NotANumber),
    }
}

proof fn lemma_modes_differ()
    ensures
        "neighbours"@ != "radio"@,
        "neighbours"@ != "path"@,
        "neighbours"@ != "interpolate"@,
        "neighbours"@ != "drift"@,
        "neighbours"@ != "embed"@,
        "radio"@ != "path"@,
        "radio"@ != "interpolate"@,
        "radio"@ != "drift"@,
        "radio"@ != "embed"@,
        "path"@ != "interpolate"@,
        "path"@ != "drift"@,
        "path"@ != "embed"@,
        "interpolate"@ != "drift"@,
        "interpolate"@ != "embed"@,
        "drift"@ != "embed"@,
{
    reveal_strlit("neighbours");
    reveal_strlit("radio");
    reveal_strlit("path");
    reveal_strlit("interpolate");
    reveal_strlit("drift");
    reveal_strlit("embed");
    assert("radio"@[0] == 'r' && "drift"@[0] == 'd' && "embed"@[0] == 'e');
    assert("neighbours"@.len() == 10 && "interpolate"@.len() == 11 && "path"@.len() == 4);
}

} // verus!
