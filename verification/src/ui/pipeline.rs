//! Driving the whole pipeline, wherever it actually runs.
//!
//! Nothing is spawned here: the server is asked to start a stage, and the
//! status and log it publishes are watched. A stage started here outlives the
//! window, which is the point. Stop is the only way one ends early.

use crate::api::{Corpus, Device, PipelineStatus, Stage};
use crate::json::seen;
use crate::strings::{
    decimal_signed, joined, push_text, same, signed_digits, trim, trim_of, views,
};
use crate::ui::crawler::Crawler;
use vstd::prelude::*;

verus! {

/// How many status polls pass between corpus recounts. Six aggregates over the
/// whole catalogue would be the most expensive idle thing the app does at the
/// rate the status is polled.
pub const CORPUS_EVERY: u32 = 10;

pub struct Pipeline {
    pub status: PipelineStatus,
    pub log: Vec<String>,
    pub corpus: Corpus,
    /// Follows the space underneath being rebuilt, so the window knows to
    /// reload the engine and redraw the map.
    pub generation: u64,
    /// How many tracks the loaded space holds, and how many of them have
    /// coordinates.
    pub space_counts: (i64, i64),
    /// Whatever the server last refused to do.
    pub error: Option<String>,
    pub devices: Vec<Device>,
    /// A token, shown exactly once, right after pairing.
    pub granted: Option<String>,
}

/// What to ask of the server.
#[derive(Clone, Copy, PartialEq, Eq, Structural, Debug)]
pub enum Order {
    Nothing,
    Crawl,
    Run(Stage),
    RunAll,
}

impl Pipeline {
    pub fn new() -> (pipeline: Self)
        ensures
            pipeline.status.running is None,
            pipeline.status.queued@.len() == 0,
            pipeline.status.generation == 0,
            pipeline.log@.len() == 0,
            pipeline.corpus == (Corpus {
                tracks: 0,
                analysed: 0,
                to_analyse: 0,
                failed: 0,
                pending: 0,
                buildable: 0,
                in_space: 0,
                on_map: 0,
            }),
            pipeline.generation == 0,
            pipeline.space_counts == (0i64, 0i64),
            pipeline.error is None,
            pipeline.devices@.len() == 0,
            pipeline.granted is None,
    {
        Pipeline {
            status: PipelineStatus { running: None, queued: Vec::new(), generation: 0 },
            log: Vec::new(),
            corpus: Corpus {
                tracks: 0,
                analysed: 0,
                to_analyse: 0,
                failed: 0,
                pending: 0,
                buildable: 0,
                in_space: 0,
                on_map: 0,
            },
            generation: 0,
            space_counts: (0, 0),
            error: None,
            devices: Vec::new(),
            granted: None,
        }
    }

    pub fn running(&self) -> (stage: Option<Stage>)
        ensures
            stage == self.status.running,
    {
        self.status.running
    }

    pub fn clear_log(&mut self)
        ensures
            final(self).log@.len() == 0,
            *final(self) == (Pipeline { log: final(self).log, ..*old(self) }),
    {
        self.log = Vec::new();
    }

    /// The counts that tell you what still needs running came in. What is in
    /// the space and on the map comes from the loaded engine: the question is
    /// what this app is drawing, not what is on disk.
    pub fn refreshed(&mut self, corpus: Corpus)
        ensures
            *final(self) == (Pipeline {
                corpus: Corpus {
                    in_space: old(self).space_counts.0,
                    on_map: old(self).space_counts.1,
                    ..corpus
                },
                ..*old(self)
            }),
    {
        let (in_space, on_map) = self.space_counts;
        self.corpus = Corpus {
            tracks: corpus.tracks,
            analysed: corpus.analysed,
            to_analyse: corpus.to_analyse,
            failed: corpus.failed,
            pending: corpus.pending,
            buildable: corpus.buildable,
            in_space,
            on_map,
        };
    }

    /// Starts a stage, unless one is running. Crawling is not the pipeline's
    /// own, so it is handed on and nothing changes here.
    pub fn start(&mut self, stage: Stage) -> (order: Order)
        ensures
            if old(self).status.running is Some {
                order == Order::Nothing && *final(self) == *old(self)
            } else if stage == Stage::Crawl {
                order == Order::Crawl && *final(self) == *old(self)
            } else {
                order == Order::Run(stage) && *final(self) == (Pipeline {
                    error: None,
                    ..*old(self)
                })
            },
    {
        if self.status.running.is_some() {
            return Order::Nothing;
        }
        if stage == Stage::Crawl {
            return Order::Crawl;
        }
        self.error = None;
        Order::Run(stage)
    }

    /// Queue analyse, then build-space, then layout.
    pub fn start_full_run(&mut self) -> (order: Order)
        ensures
            if old(self).status.running is Some {
                order == Order::Nothing && *final(self) == *old(self)
            } else {
                order == Order::RunAll && *final(self) == (Pipeline { error: None, ..*old(self) })
            },
    {
        if self.status.running.is_some() {
            return Order::Nothing;
        }
        self.error = None;
        Order::RunAll
    }

    /// Stops whatever runs; the crawl and the pipeline are both asked.
    pub fn stop(&mut self)
        ensures
            *final(self) == (Pipeline { error: None, ..*old(self) }),
    {
        self.error = None;
    }

    /// The server refused something.
    pub fn refused(&mut self, message: String)
        ensures
            *final(self) == (Pipeline { error: Some(message), ..*old(self) }),
    {
        self.error = Some(message);
    }

    /// A poll of the status came back. Whether the space underneath has been
    /// rebuilt since the last one that did.
    pub fn polled(&mut self, status: PipelineStatus) -> (rebuilt: bool)
        ensures
            rebuilt == (status.generation != old(self).generation),
            *final(self) == (Pipeline { generation: status.generation, status, ..*old(self) }),
    {
        let generation: u64 = status.generation;
        let rebuilt: bool = generation != self.generation;
        self.status = status;
        self.generation = generation;
        rebuilt
    }

    /// The log came back. A mirror, not an accumulation: the server's buffer is
    /// already bounded and authoritative. Whether anything is different.
    pub fn logged(&mut self, lines: Vec<String>) -> (changed: bool)
        ensures
            changed == (views(lines@) != views(old(self).log@)),
            views(final(self).log@) == views(lines@),
            *final(self) == (Pipeline { log: final(self).log, ..*old(self) }),
    {
        if same_lines(&self.log, &lines) {
            return false;
        }
        self.log = lines;
        true
    }

    /// The devices came in.
    pub fn listed(&mut self, devices: Vec<Device>)
        ensures
            *final(self) == (Pipeline { devices, ..*old(self) }),
    {
        self.devices = devices;
    }

    /// A device was paired; this is its token.
    pub fn paired(&mut self, token: String)
        ensures
            *final(self) == (Pipeline { granted: Some(token), ..*old(self) }),
    {
        self.granted = Some(token);
    }

    /// The token has been noted down.
    pub fn token_noted(&mut self)
        ensures
            *final(self) == (Pipeline { granted: None, ..*old(self) }),
    {
        self.granted = None;
    }
}

impl Default for Pipeline {
    fn default() -> (pipeline: Self)
        ensures
            pipeline.status.running is None,
            pipeline.status.queued@.len() == 0,
            pipeline.status.generation == 0,
            pipeline.log@.len() == 0,
            pipeline.corpus == (Corpus {
                tracks: 0,
                analysed: 0,
                to_analyse: 0,
                failed: 0,
                pending: 0,
                buildable: 0,
                in_space: 0,
                on_map: 0,
            }),
            pipeline.generation == 0,
            pipeline.space_counts == (0i64, 0i64),
            pipeline.error is None,
            pipeline.devices@.len() == 0,
            pipeline.granted is None,
    {
        Pipeline::new()
    }
}

fn same_lines(a: &Vec<String>, b: &Vec<String>) -> (yes: bool)
    ensures
        yes == (views(a@) == views(b@)),
{
    if a.len() != b.len() {
        assert(views(a@).len() != views(b@).len());
        return false;
    }
    let mut i: usize = 0;
    while i < a.len()
        invariant
            i <= a@.len(),
            a@.len() == b@.len(),
            forall|k: int| 0 <= k < i ==> (#[trigger] a@[k])@ == b@[k]@,
        decreases a@.len() - i,
    {
        if !same(a[i].as_str(), b[i].as_str()) {
            assert(views(a@)[i as int] != views(b@)[i as int]);
            return false;
        }
        i = i + 1;
    }
    assert(views(a@) =~= views(b@));
    true
}

/// Whether the counts are due on this tick, and the next one.
pub fn tick(ticks: u32) -> (out: (bool, u32))
    ensures
        out.0 == (ticks % CORPUS_EVERY == 0),
        out.1 == ticks.wrapping_add(1),
{
    (ticks % CORPUS_EVERY == 0, ticks.wrapping_add(1))
}

// ------------------------------------------------------------------- hints

/// What still needs running. Each hint names the stage that would fix it, and
/// is derived from the same question that stage asks.
#[derive(Debug, PartialEq)]
pub struct Hints {
    pub build: Option<String>,
    pub layout: Option<String>,
    pub up_to_date: bool,
}

pub fn hints(corpus: &Corpus) -> (hints: Hints)
    requires
        corpus.in_space - corpus.on_map <= i64::MAX,
    ensures
        seen(hints.build) == (if corpus.buildable != corpus.in_space {
            Some(
                "The space holds "@ + signed_digits(corpus.in_space as int) + " tracks but "@
                    + signed_digits(corpus.buildable as int) + " are ready, run build space."@,
            )
        } else {
            None
        }),
        seen(hints.layout) == (if corpus.in_space > corpus.on_map {
            Some(
                signed_digits(corpus.in_space - corpus.on_map)
                    + " tracks in the space have no coordinates, run layout."@,
            )
        } else {
            None
        }),
        hints.up_to_date == (corpus.buildable == corpus.in_space && corpus.in_space
            <= corpus.on_map && corpus.to_analyse == 0),
{
    let needs_build: bool = corpus.buildable != corpus.in_space;
    let needs_layout: bool = corpus.in_space > corpus.on_map;
    let build = if needs_build {
        let mut text = joined("The space holds ", decimal_signed(corpus.in_space).as_str());
        push_text(&mut text, " tracks but ");
        push_text(&mut text, decimal_signed(corpus.buildable).as_str());
        push_text(&mut text, " are ready, run build space.");
        Some(text)
    } else {
        None
    };
    let layout = if needs_layout {
        let missing: i64 = corpus.in_space - corpus.on_map;
        Some(
            joined(
                decimal_signed(missing).as_str(),
                " tracks in the space have no coordinates, run layout.",
            ),
        )
    } else {
        None
    };
    Hints { build, layout, up_to_date: !needs_build && !needs_layout && corpus.to_analyse == 0 }
}

// ------------------------------------------------------------------ stages

/// What a stage's row offers.
#[derive(Clone, Copy, PartialEq, Eq, Structural, Debug)]
pub enum StageControl {
    Queued,
    StopCrawl,
    Run { disabled: bool },
}

#[derive(Clone, Copy, PartialEq, Eq, Structural, Debug)]
pub struct StageRow {
    pub stage: Stage,
    pub active: bool,
    pub control: StageControl,
}

/// Something is running: a stage, or a crawl.
pub open spec fn is_busy(pipeline: Pipeline, crawler: Crawler) -> bool {
    pipeline.status.running is Some || crawler.status.running
}

pub open spec fn stage_row_of(pipeline: Pipeline, crawler: Crawler, stage: Stage) -> StageRow {
    let crawling = stage == Stage::Crawl && crawler.status.running;
    StageRow {
        stage,
        active: pipeline.status.running == Some(stage) || crawling,
        control: if pipeline.status.queued@.contains(stage) {
            StageControl::Queued
        } else if crawling {
            StageControl::StopCrawl
        } else {
            StageControl::Run { disabled: is_busy(pipeline, crawler) }
        },
    }
}

pub fn busy(pipeline: &Pipeline, crawler: &Crawler) -> (yes: bool)
    ensures
        yes == is_busy(*pipeline, *crawler),
{
    pipeline.status.running.is_some() || crawler.status.running
}

pub fn stage_row(pipeline: &Pipeline, crawler: &Crawler, stage: Stage) -> (row: StageRow)
    ensures
        row == stage_row_of(*pipeline, *crawler, stage),
{
    let mut queued: bool = false;
    let mut i: usize = 0;
    while i < pipeline.status.queued.len() && !queued
        invariant
            i <= pipeline.status.queued@.len(),
            queued ==> pipeline.status.queued@.contains(stage),
            !queued ==> forall|k: int| 0 <= k < i ==> pipeline.status.queued@[k] != stage,
        decreases
                pipeline.status.queued@.len() - i,
                (if queued {
                    0int
                } else {
                    1
                }),
    {
        if pipeline.status.queued[i] == stage {
            assert(pipeline.status.queued@[i as int] == stage);
            queued = true;
        } else {
            i = i + 1;
        }
    }
    let crawling: bool = stage == Stage::Crawl && crawler.status.running;
    let running: bool = match pipeline.status.running {
        Some(now) => now == stage,
        None => false,
    };
    let control = if queued {
        StageControl::Queued
    } else if crawling {
        StageControl::StopCrawl
    } else {
        StageControl::Run { disabled: busy(pipeline, crawler) }
    };
    StageRow { stage, active: running || crawling, control }
}

/// The rows of the stages, in the order they run.
pub fn stage_rows(pipeline: &Pipeline, crawler: &Crawler) -> (rows: [StageRow; 4])
    ensures
        rows@[0] == stage_row_of(*pipeline, *crawler, Stage::Crawl),
        rows@[1] == stage_row_of(*pipeline, *crawler, Stage::Analyse),
        rows@[2] == stage_row_of(*pipeline, *crawler, Stage::BuildSpace),
        rows@[3] == stage_row_of(*pipeline, *crawler, Stage::Layout),
{
    [
        stage_row(pipeline, crawler, Stage::Crawl),
        stage_row(pipeline, crawler, Stage::Analyse),
        stage_row(pipeline, crawler, Stage::BuildSpace),
        stage_row(pipeline, crawler, Stage::Layout),
    ]
}

// ----------------------------------------------------------------- devices

/// The name a device would be paired under, where one was typed.
pub fn device_name(typed: &str) -> (name: Option<String>)
    ensures
        seen(name) == (if trim_of(typed@).len() == 0 {
            None
        } else {
            Some(trim_of(typed@))
        }),
{
    let name = trim(typed);
    if name.as_str().is_empty() {
        None
    } else {
        Some(name)
    }
}

/// How a token is handed over.
pub fn token_line(token: &str) -> (line: String)
    ensures
        line@ == "TWO_KHZ_TOKEN="@ + token@,
{
    joined("TWO_KHZ_TOKEN=", token)
}

/// When a device was last seen.
pub fn last_seen(device: &Device) -> (text: String)
    ensures
        text@ == (match device.last_seen {
            Some(when) => when@,
            None => "never seen"@,
        }),
{
    match &device.last_seen {
        Some(when) => when.clone(),
        None => "never seen".to_owned(),
    }
}

} // verus!
