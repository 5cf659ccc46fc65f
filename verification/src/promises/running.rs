//! How the programs are started, and what they are told.

use crate::api::{Scope, Stage};
use crate::cli::{asks, count_at, meaning, needed, whole, Asked, Meaning, Query};
use crate::promises::server::{lemma_one_piece, lemma_pieces_join};
use crate::stages::{line_of, logged, Event, Running};
use crate::strings::{number_of, trim_of};
use crate::ui::crawler::Crawler;
use crate::ui::pipeline::{is_busy, stage_row_of, Pipeline, StageControl};
use crate::wiring::{client_dir, data_dir_of, package_of, under, Surroundings};
use vstd::prelude::*;

verus! {

// --------------------------------------------------------- the command line

/// The options that a value follows.
pub open spec fn takes_a_value(word: Seq<char>) -> bool {
    word == "--max-tracks"@ || word == "--max-distance"@ || word == "--rate"@ || word
        == "--artist"@ || word == "--album"@
}

proof fn lemma_options_differ()
    ensures
        !takes_a_value("--no-seed"@),
        !takes_a_value("-h"@),
        !takes_a_value("--help"@),
        "--no-seed"@ != "-h"@,
        "--no-seed"@ != "--help"@,
        "--max-tracks"@ != "--max-distance"@,
        "--max-tracks"@ != "--rate"@,
        "--max-tracks"@ != "--artist"@,
        "--max-tracks"@ != "--album"@,
        "--max-distance"@ != "--rate"@,
        "--max-distance"@ != "--artist"@,
        "--max-distance"@ != "--album"@,
        "--rate"@ != "--artist"@,
        "--rate"@ != "--album"@,
        "--artist"@ != "--album"@,
{
    reveal_strlit("--no-seed");
    reveal_strlit("-h");
    reveal_strlit("--help");
    reveal_strlit("--max-tracks");
    reveal_strlit("--max-distance");
    reveal_strlit("--rate");
    reveal_strlit("--artist");
    reveal_strlit("--album");
    assert("--no-seed"@.len() == 9 && "-h"@.len() == 2 && "--help"@.len() == 6);
    assert("--max-tracks"@.len() == 12 && "--max-distance"@.len() == 14 && "--rate"@.len() == 6);
    assert("--artist"@.len() == 8 && "--album"@.len() == 7);
    assert("--rate"@[2] != "--help"@[2]);
}

proof fn lemma_more_is_read_after(
    args: Seq<Seq<char>>,
    rates: Seq<Option<u64>>,
    more: Seq<Seq<char>>,
    more_rates: Seq<Option<u64>>,
    at: int,
    so_far: Asked,
    asked: Asked,
)
    requires
        0 <= at <= args.len(),
        rates.len() == args.len(),
        meaning(args, rates, at, so_far) == Meaning::Run(asked),
    ensures
        meaning(args + more, rates + more_rates, at, so_far) == meaning(
            args + more,
            rates + more_rates,
            args.len() as int,
            asked,
        ),
    decreases args.len() - at,
{
    let all = args + more;
    let all_rates = rates + more_rates;
    if at < args.len() {
        assert(all[at] == args[at]);
        if args[at] == "--no-seed"@ {
            lemma_more_is_read_after(
                args,
                rates,
                more,
                more_rates,
                at + 1,
                Asked { seed: false, ..so_far },
                asked,
            );
        } else if args[at] == "-h"@ || args[at] == "--help"@ {
        } else if takes_a_value(args[at]) && at + 1 < args.len() {
            assert(all[at + 1] == args[at + 1]);
            assert(all_rates[at + 1] == rates[at + 1]);
            let next = if args[at] == "--album"@ {
                Asked { only_album: Some(args[at + 1]), ..so_far }
            } else if args[at] == "--rate"@ {
                Asked { rate: rates[at + 1]->0, ..so_far }
            } else if args[at] == "--max-tracks"@ {
                Asked { max_tracks: whole(args[at + 1])->0, ..so_far }
            } else if args[at] == "--max-distance"@ {
                Asked { max_distance: whole(args[at + 1])->0, ..so_far }
            } else {
                Asked { only_artist: Some(whole(args[at + 1])->0), ..so_far }
            };
            lemma_more_is_read_after(args, rates, more, more_rates, at + 2, next, asked);
        }
    }
}

/// A command line means what it meant so far and then what its last option
/// says: the value that is set, nothing else changed.
pub proof fn an_option_sets_what_it_names(
    args: Seq<Seq<char>>,
    rates: Seq<Option<u64>>,
    start: Asked,
    asked: Asked,
    word: Seq<char>,
    value: Seq<char>,
    rate: Option<u64>,
)
    requires
        rates.len() == args.len(),
        meaning(args, rates, 0, start) == Meaning::Run(asked),
    ensures
        ({
            let read = meaning(args + seq![word, value], rates + seq![None, rate], 0, start);
            let n = args.len() as int;
            &&& word == "--max-tracks"@ && whole(value) is Some ==> read == Meaning::Run(
                Asked { max_tracks: whole(value)->0, ..asked },
            )
            &&& word == "--max-distance"@ && whole(value) is Some ==> read == Meaning::Run(
                Asked { max_distance: whole(value)->0, ..asked },
            )
            &&& word == "--artist"@ && whole(value) is Some ==> read == Meaning::Run(
                Asked { only_artist: whole(value), ..asked },
            )
            &&& word == "--album"@ ==> read == Meaning::Run(
                Asked { only_album: Some(value), ..asked },
            )
            &&& word == "--rate"@ && rate is Some ==> read == Meaning::Run(
                Asked { rate: rate->0, ..asked },
            )
            &&& word == "--rate"@ && rate is None ==> read == Meaning::NotARate(n + 1)
            &&& (word == "--max-tracks"@ || word == "--max-distance"@ || word == "--artist"@)
                && whole(value) is None ==> read == Meaning::NotANumber(n + 1)
        }),
{
    lemma_options_differ();
    let more = seq![word, value];
    let more_rates = seq![None, rate];
    let all = args + more;
    let all_rates = rates + more_rates;
    let n = args.len() as int;
    lemma_more_is_read_after(args, rates, more, more_rates, 0, start, asked);
    assert(all[n] == word && all[n + 1] == value && all_rates[n + 1] == rate);
    assert(all.len() == n + 2);
    reveal_with_fuel(meaning, 2);
}

/// A word that stands alone is read as itself: one that turns the seeding off,
/// one that asks for help, one that a value is missing after, or one that
/// means nothing.
pub proof fn a_last_word_is_read_as_itself(
    args: Seq<Seq<char>>,
    rates: Seq<Option<u64>>,
    start: Asked,
    asked: Asked,
    word: Seq<char>,
)
    requires
        rates.len() == args.len(),
        meaning(args, rates, 0, start) == Meaning::Run(asked),
    ensures
        meaning(Seq::empty(), Seq::empty(), 0, start) == Meaning::Run(start),
        ({
            let read = meaning(args + seq![word], rates + seq![None], 0, start);
            let n = args.len() as int;
            &&& word == "--no-seed"@ ==> read == Meaning::Run(Asked { seed: false, ..asked })
            &&& word == "-h"@ || word == "--help"@ ==> read == Meaning::Help
            &&& takes_a_value(word) ==> read == Meaning::NeedsValue(n)
            &&& word != "--no-seed"@ && word != "-h"@ && word != "--help"@ && !takes_a_value(word)
                ==> read == Meaning::Unknown(n)
        }),
{
    lemma_options_differ();
    let more = seq![word];
    let more_rates = seq![None::<u64>];
    let all = args + more;
    let n = args.len() as int;
    lemma_more_is_read_after(args, rates, more, more_rates, 0, start, asked);
    assert(all[n] == word && all.len() == n + 1);
    reveal_with_fuel(meaning, 2);
}

/// Where a number is left out it is the usual one, and otherwise it is the one
/// that is written.
pub open spec fn is_the_count(args: Seq<Seq<char>>, at: int, usual: usize, n: usize) -> bool {
    if at < args.len() {
        number_of(args[at]) == Some(n as int) && args[at][0] != '-'
    } else {
        n == usual
    }
}

/// What is asked for is what the words say: the mode, the tracks by their
/// numbers, and how many, which is ten of the neighbours and of the radio,
/// twelve steps between two tracks and eight towards a phrase unless it is
/// said.
pub proof fn a_query_is_what_its_words_say(
    args: Seq<Seq<char>>,
    penalties: Seq<Option<u32>>,
    query: Query,
)
    requires
        asks(args, penalties, query),
    ensures
        match query {
            Query::Neighbours { track, k } => {
                &&& args[0] == "neighbours"@
                &&& number_of(args[1]) == Some(track as int)
                &&& is_the_count(args, 2, 10, k)
            },
            Query::Radio { track, steps, penalty } => {
                &&& args[0] == "radio"@
                &&& number_of(args[1]) == Some(track as int)
                &&& is_the_count(args, 2, 10, steps)
                &&& args.len() <= 3 ==> penalty == 0
                &&& args.len() > 3 ==> penalties[3] == Some(penalty)
            },
            Query::Path { from, to } => {
                &&& args[0] == "path"@
                &&& number_of(args[1]) == Some(from as int)
                &&& number_of(args[2]) == Some(to as int)
            },
            Query::Interpolate { from, to, steps } => {
                &&& args[0] == "interpolate"@
                &&& number_of(args[1]) == Some(from as int)
                &&& number_of(args[2]) == Some(to as int)
                &&& is_the_count(args, 3, 12, steps)
            },
            Query::Drift { from, phrase, steps } => {
                &&& args[0] == "drift"@
                &&& number_of(args[1]) == Some(from as int)
                &&& phrase@ == args[2]
                &&& is_the_count(args, 3, 8, steps)
            },
            Query::Embed { phrase } => args[0] == "embed"@ && phrase@ == args[1],
        },
{
    assert(count_at(args, 2, 10) is Some ==> is_the_count(args, 2, 10, count_at(args, 2, 10)->0));
    assert(count_at(args, 3, 12) is Some ==> is_the_count(args, 3, 12, count_at(args, 3, 12)->0));
    assert(count_at(args, 3, 8) is Some ==> is_the_count(args, 3, 8, count_at(args, 3, 8)->0));
}

/// A walk between two things needs both of them, and one from a track or of a
/// phrase needs that.
pub proof fn a_mode_needs_what_it_goes_by(mode: Seq<char>)
    ensures
        mode == "path"@ || mode == "interpolate"@ || mode == "drift"@ ==> needed(mode) == 3,
        mode == "neighbours"@ || mode == "radio"@ || mode == "embed"@ ==> needed(mode) == 2,
        needed(mode) >= 1,
{
    reveal_strlit("path");
    reveal_strlit("interpolate");
    reveal_strlit("drift");
    reveal_strlit("neighbours");
    reveal_strlit("radio");
    reveal_strlit("embed");
    assert("path"@.len() == 4 && "interpolate"@.len() == 11 && "drift"@.len() == 5);
    assert("neighbours"@.len() == 10 && "radio"@.len() == 5 && "embed"@.len() == 5);
    assert("drift"@[0] != "radio"@[0] && "drift"@[0] != "embed"@[0]);
}

// ------------------------------------------------------------------- scopes

/// A device that may run the pipeline may play, and one that may play may not
/// run the pipeline.
pub proof fn running_is_more_than_playing(scope: Scope)
    ensures
        scope.allows(Scope::Play),
        scope.allows(Scope::Pipeline) <==> scope is Pipeline,
{
}

// ------------------------------------------------------------------- stages

/// What the streams are after these events, one after another.
pub open spec fn after_all(running: Running, events: Seq<Event>) -> Running
    decreases events.len(),
{
    if events.len() == 0 {
        running
    } else {
        after_all(running, events.drop_last()).after(events.last())
    }
}

/// A stream has ended once its end was told, and not before.
pub proof fn a_stream_ends_once_it_is_told(running: Running, events: Seq<Event>)
    ensures
        after_all(running, events).out_done <==> running.out_done || exists|k: int|
            0 <= k < events.len() && (#[trigger] events[k] matches Event::Output(line) && line
                is None),
        after_all(running, events).err_done <==> running.err_done || exists|k: int|
            0 <= k < events.len() && (#[trigger] events[k] matches Event::Progress(line) && line
                is None),
    decreases events.len(),
{
    if events.len() > 0 {
        let less = events.drop_last();
        a_stream_ends_once_it_is_told(running, less);
        assert(forall|k: int| 0 <= k < less.len() ==> #[trigger] less[k] == events[k]);
        assert(events.last() == events[events.len() - 1]);
        if exists|k: int|
            0 <= k < events.len() && (#[trigger] events[k] matches Event::Output(line) && line
                is None) {
            let k = choose|k: int|
                0 <= k < events.len() && (#[trigger] events[k] matches Event::Output(line) && line
                    is None);
            if k < less.len() {
                assert(less[k] == events[k]);
            }
        }
        if exists|k: int|
            0 <= k < events.len() && (#[trigger] events[k] matches Event::Progress(line) && line
                is None) {
            let k = choose|k: int|
                0 <= k < events.len() && (#[trigger] events[k] matches Event::Progress(line) && line
                    is None);
            if k < less.len() {
                assert(less[k] == events[k]);
            }
        }
        if after_all(running, less).out_done && !running.out_done {
            let k = choose|k: int|
                0 <= k < less.len() && (#[trigger] less[k] matches Event::Output(line) && line
                    is None);
            assert(events[k] == less[k]);
        }
        if after_all(running, less).err_done && !running.err_done {
            let k = choose|k: int|
                0 <= k < less.len() && (#[trigger] less[k] matches Event::Progress(line) && line
                    is None);
            assert(events[k] == less[k]);
        }
    }
}

/// A line on either stream goes into the log, and nothing else does.
pub proof fn a_line_goes_into_the_log(log: crate::logbuffer::Logged, event: Event)
    ensures
        match event {
            Event::Output(Some(line)) => logged(log, event) == log.with(line@),
            Event::Progress(Some(line)) => logged(log, event) == log.with(line@),
            Event::Output(None) => logged(log, event) == log,
            Event::Progress(None) => logged(log, event) == log,
            Event::Tick => logged(log, event) == log,
        },
{
    assert(line_of(Event::Tick) is None);
}

/// A stage that runs is the active one, a queued one says so, a crawl that
/// runs can be stopped, and nothing can be started while something runs.
pub proof fn a_stage_offers_what_can_be_done(pipeline: Pipeline, crawler: Crawler, stage: Stage)
    ensures
        ({
            let row = stage_row_of(pipeline, crawler, stage);
            let waits = pipeline.status.queued@.contains(stage);
            let crawls = stage is Crawl && crawler.status.running;
            &&& row.stage == stage
            &&& row.active <==> pipeline.status.running == Some(stage) || crawls
            &&& row.control is Queued <==> waits
            &&& row.control is StopCrawl <==> !waits && crawls
            &&& row.control matches StageControl::Run { disabled } ==> (disabled
                <==> pipeline.status.running is Some || crawler.status.running)
        }),
        is_busy(pipeline, crawler) <==> pipeline.status.running is Some || crawler.status.running,
{
}

// ------------------------------------------------------------------- places

/// A name under a directory is the directory, one slash, and the name; under
/// no directory it is the name.
pub proof fn a_slash_stands_between(dir: Seq<char>, name: Seq<char>)
    ensures
        dir.len() == 0 ==> under(dir, name) == name,
        dir.len() > 0 && dir[dir.len() - 1] == '/' ==> under(dir, name) == dir + name,
        dir.len() > 0 && dir[dir.len() - 1] != '/' ==> under(dir, name) == dir + seq!['/'] + name,
{
    reveal_strlit("/");
    assert("/"@ =~= seq!['/']);
    if dir.len() == 0 {
        assert(dir + name =~= name);
    }
}

/// Where files are kept is what was chosen, or else what was set, or else the
/// app's own place, or else where the desktop keeps data.
pub proof fn the_nearest_place_is_used(at: Surroundings, set: Option<Seq<char>>, repo: Option<Seq<char>>)
    ensures
        at.chosen is Some ==> client_dir(at) == at.chosen->0@,
        at.chosen is None && at.set is Some ==> client_dir(at) == at.set->0@,
        at.chosen is None && at.set is None && at.private is Some ==> client_dir(at)
            == at.private->0@,
        at.chosen is None && at.set is None && at.private is None && at.data_home is Some
            ==> client_dir(at) == under(at.data_home->0@, "qsuggest"@),
        at.chosen is None && at.set is None && at.private is None && at.data_home is None && at.home
            is Some ==> client_dir(at) == under(
            under(under(at.home->0@, ".local"@), "share"@),
            "qsuggest"@,
        ),
        at.chosen is None && at.set is None && at.private is None && at.data_home is None && at.home
            is None ==> client_dir(at) == under(
            under(under("."@, ".local"@), "share"@),
            "qsuggest"@,
        ),
        set is Some ==> data_dir_of(set, repo) == set->0,
        set is None && repo is Some ==> data_dir_of(set, repo) == under(repo->0, "data"@),
        set is None && repo is None ==> data_dir_of(set, repo) == "data"@,
{
}

/// A package is what a command line begins with, up to the zero that ends its
/// first word and up to a colon in that, without the white space around it.
pub proof fn a_package_is_what_comes_first(
    package: Seq<char>,
    process: Seq<char>,
    rest: Seq<char>,
)
    requires
        forall|i: int|
            0 <= i < package.len() ==> #[trigger] package[i] != '\0' && package[i] != ':',
        forall|i: int| 0 <= i < process.len() ==> #[trigger] process[i] != '\0',
    ensures
        package_of(package) == trim_of(package),
        package_of(package + seq!['\0'] + rest) == trim_of(package),
        package_of(package + seq![':'] + process + seq!['\0'] + rest) == trim_of(package),
{
    lemma_one_piece(package, '\0');
    lemma_one_piece(package, ':');
    lemma_pieces_join(package, rest, '\0');
    let word = package + seq![':'] + process;
    assert forall|i: int| 0 <= i < word.len() implies #[trigger] word[i] != '\0' by {
        if i < package.len() {
            assert(word[i] == package[i]);
        } else if i > package.len() {
            assert(word[i] == process[i - package.len() - 1]);
        }
    }
    lemma_one_piece(word, '\0');
    lemma_pieces_join(word, rest, '\0');
    lemma_pieces_join(package, process, ':');
}

// ---------------------------------------------------------- the usual numbers

/// What is not said is taken to be this much: a path goes along sixteen
/// neighbours each, a drift towards the middle of five tracks, a walk has twenty
/// steps, a crawl stops at five thousand tracks, and the lists are as long as
/// said here.
pub proof fn what_is_not_said_is_usual()
    ensures
        crate::cli::PATH_NEIGHBOURS == 16,
        crate::cli::DRIFT_ANCHORS == 5,
        crate::cli::DEFAULT_MAX_TRACKS == 5000,
        crate::ui::generate::DEFAULT_COUNT == 20,
        crate::ui::generate::DEFAULT_PENALTY == 0x3dcc_cccd,
        crate::ui::panel::FIRST_SHOWN == 80,
        crate::ui::finding::SHOWN == 720,
        crate::ui::finding::SIMILAR_LIMIT == 20,
        crate::ui::context::SEARCH_LIMIT == 50,
        crate::ui::context::LIST_CAP == 500,
        crate::ui::pipeline::CORPUS_EVERY == 10,
        crate::ui::player::SECOND == 1_000_000,
        crate::map::MAX_GENRES == 65535,
        crate::paths::UNIT == 268_435_456,
{
}

} // verus!
