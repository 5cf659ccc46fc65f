//! Running a pipeline stage, and not leaving it behind.
//!
//! A stage runs as a process of its own. Progress goes to one of its streams
//! and results to the other, so both are read and interleaved. What is read,
//! and when, is the driver's; what to do about it is decided here.

use crate::api::Stage;
use crate::logbuffer::{LogBuffer, Logged};
use crate::strings::joined;
use crate::wiring::{join_path, under};
use vstd::prelude::*;

verus! {

/// How often to look at the cancel flag while a stage is running, in
/// milliseconds. It cannot only be checked between output lines: `layout` goes
/// silent for minutes.
pub const CANCEL_POLL_MS: u64 = 200;

/// What a driver waiting on a stage may be woken by.
pub enum Event {
    /// A line on the output stream, or its end.
    Output(Option<String>),
    /// A line on the progress stream, or its end.
    Progress(Option<String>),
    /// Nothing for a while.
    Tick,
}

/// What to do next.
#[derive(Clone, Copy, PartialEq, Eq, Structural, Debug)]
pub enum Next {
    /// Wait for another event.
    Listen,
    /// Stop the stage and everything it started, then wait for it to end.
    Terminate,
    /// Both streams have ended: wait for the stage to end.
    Finish,
}

/// Which of a running stage's streams have ended.
#[derive(Clone, Copy, PartialEq, Eq, Structural, Debug)]
pub struct Running {
    pub out_done: bool,
    pub err_done: bool,
}

/// The line an event brings, where it brings one.
pub open spec fn line_of(event: Event) -> Option<Seq<char>> {
    match event {
        Event::Output(Some(line)) => Some(line@),
        Event::Progress(Some(line)) => Some(line@),
        _ => None,
    }
}

/// The log once an event's line is in it.
pub open spec fn logged(log: Logged, event: Event) -> Logged {
    match line_of(event) {
        Some(line) => log.with(line),
        None => log,
    }
}

impl Running {
    pub fn new() -> (running: Self)
        ensures
            running == (Running { out_done: false, err_done: false }),
    {
        Running { out_done: false, err_done: false }
    }

    /// The streams after an event.
    pub open spec fn after(self, event: Event) -> Running {
        Running {
            out_done: self.out_done || event == Event::Output(None),
            err_done: self.err_done || event == Event::Progress(None),
        }
    }

    /// Takes in one event, and whether a stop has been asked for meanwhile. A
    /// stop wins over everything else, and says so in the log.
    pub fn step(&mut self, event: Event, cancelled: bool, log: &mut LogBuffer) -> (next: Next)
        requires
            old(log)@.bounded(),
        ensures
            *final(self) == old(self).after(event),
            final(log)@.bounded(),
            final(log)@ == (if cancelled {
                logged(old(log)@, event).with("cancelled"@)
            } else {
                logged(old(log)@, event)
            }),
            next == (if cancelled {
                Next::Terminate
            } else if final(self).out_done && final(self).err_done {
                Next::Finish
            } else {
                Next::Listen
            }),
    {
        match event {
            Event::Output(Some(line)) => log.push(line),
            Event::Output(None) => {
                self.out_done = true;
            },
            Event::Progress(Some(line)) => log.push(line),
            Event::Progress(None) => {
                self.err_done = true;
            },
            Event::Tick => {},
        }
        if cancelled {
            log.push("cancelled".to_owned());
            Next::Terminate
        } else if self.out_done && self.err_done {
            Next::Finish
        } else {
            Next::Listen
        }
    }
}

/// The subcommand that runs a stage, or why there is none.
pub fn command_of(stage: Stage) -> (command: Result<&'static str, String>)
    ensures
        match stage {
            Stage::Crawl => command is Err && command->Err_0@ == "crawl"@ + " is not a Python stage"@,
            Stage::Analyse => command is Ok && command->Ok_0@ == "analyse"@,
            Stage::BuildSpace => command is Ok && command->Ok_0@ == "build-space"@,
            Stage::Layout => command is Ok && command->Ok_0@ == "layout"@,
        },
{
    match stage.command() {
        Some(command) => Ok(command),
        None => Err(joined(stage.label(), " is not a Python stage")),
    }
}

/// What a stage that ended is reported as: its exit code, or -1 where a signal
/// ended it.
pub fn exit_code(code: Option<i32>) -> (reported: i32)
    ensures
        reported == (match code {
            Some(code) => code,
            None => -1i32,
        }),
{
    match code {
        Some(code) => code,
        None => -1,
    }
}

/// The process group of the stage that is running, so that it can be stopped
/// when its driver ends. One stage at a time.
#[derive(Clone, Copy, PartialEq, Eq, Structural, Debug)]
pub struct ActiveGroup {
    pub pgid: i32,
}

impl ActiveGroup {
    pub fn none() -> (group: Self)
        ensures
            group.pgid == 0,
    {
        ActiveGroup { pgid: 0 }
    }

    pub fn set(&mut self, pgid: i32)
        ensures
            final(self).pgid == pgid,
    {
        self.pgid = pgid;
    }

    /// The group to signal, if any. Asking a second time finds none: whatever
    /// was running is signalled once.
    pub fn reap(&mut self) -> (group: Option<i32>)
        ensures
            final(self).pgid == 0,
            group == (if old(self).pgid > 0 {
                Some(old(self).pgid)
            } else {
                None
            }),
    {
        let pgid: i32 = self.pgid;
        self.pgid = 0;
        if pgid > 0 {
            Some(pgid)
        } else {
            None
        }
    }
}

/// Where `uv` lives. Not just "uv": a desktop launcher gives a minimal search
/// path, and the failure then looks like a broken pipeline.
///
/// `is_file` is asked whether a path names a file.
pub fn uv_path<F: Fn(&str) -> bool>(home: Option<&str>, is_file: F) -> (path: String)
    requires
        forall|candidate: &str| #[trigger] is_file.requires((candidate,)),
    ensures
        match home {
            None => path@ == "uv"@,
            Some(home) => {
                let local = under(home@, ".local/bin/uv"@);
                let cargo = under(home@, ".cargo/bin/uv"@);
                ||| path@ == local && says(is_file, local, true)
                ||| path@ == cargo && says(is_file, local, false) && says(is_file, cargo, true)
                ||| path@ == "uv"@ && says(is_file, local, false) && says(is_file, cargo, false)
            },
        },
{
    if let Some(home) = home {
        let local = join_path(home, ".local/bin/uv");
        if is_file(local.as_str()) {
            return local;
        }
        let cargo = join_path(home, ".cargo/bin/uv");
        if is_file(cargo.as_str()) {
            return cargo;
        }
    }
    "uv".to_owned()
}

/// Asked about a path, `is_file` gave that answer.
pub open spec fn says<F: Fn(&str) -> bool>(is_file: F, path: Seq<char>, answer: bool) -> bool {
    exists|asked: &str| #[trigger] is_file.ensures((asked,), answer) && asked@ == path
}

} // verus!
