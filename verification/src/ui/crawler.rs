//! A crawl running in the background while you browse.
//!
//! The loop lives on the server and this is the view's handle on it. That is
//! what lets a crawl outlive the panel, and the client.

use crate::api::CrawlStatus;
use crate::db::clone_text;
use crate::json::seen;
use vstd::prelude::*;

verus! {

pub struct Crawler {
    pub status: CrawlStatus,
    /// Set the moment start is pressed, so the buttons react before the next
    /// poll comes back and confirms it.
    pub pending: bool,
}

impl Crawler {
    pub fn new() -> (crawler: Self)
        ensures
            crawler.status == (CrawlStatus {
                running: false,
                artists_expanded: 0,
                albums_expanded: 0,
                tracks_added: 0,
                errors: 0,
                blocked_skipped: 0,
                tracks: 0,
                pending: 0,
                last: None,
            }),
            !crawler.pending,
    {
        Crawler {
            status: CrawlStatus {
                running: false,
                artists_expanded: 0,
                albums_expanded: 0,
                tracks_added: 0,
                errors: 0,
                blocked_skipped: 0,
                tracks: 0,
                pending: 0,
                last: None,
            },
            pending: false,
        }
    }

    pub fn running(&self) -> (yes: bool)
        ensures
            yes == self.status.running,
    {
        self.status.running
    }

    pub fn last(&self) -> (last: Option<String>)
        ensures
            seen(last) == seen(self.status.last),
    {
        clone_text(&self.status.last)
    }

    /// Starts a crawl, unless one is running. Whether to ask the server.
    pub fn start(&mut self) -> (ask: bool)
        ensures
            ask == !old(self).status.running,
            *final(self) == (Crawler {
                pending: old(self).pending || !old(self).status.running,
                ..*old(self)
            }),
    {
        if self.status.running {
            return false;
        }
        self.pending = true;
        true
    }

    /// The server answered the start, with what it refused if it did.
    pub fn started(&mut self, failed: Option<String>)
        ensures
            !final(self).pending,
            final(self).status == (match failed {
                Some(message) => CrawlStatus { last: Some(message), ..old(self).status },
                None => old(self).status,
            }),
    {
        self.refused(failed);
        self.pending = false;
    }

    /// Something asked of the server came back, with what it refused if it
    /// did.
    pub fn refused(&mut self, failed: Option<String>)
        ensures
            final(self).pending == old(self).pending,
            final(self).status == (match failed {
                Some(message) => CrawlStatus { last: Some(message), ..old(self).status },
                None => old(self).status,
            }),
    {
        match failed {
            Some(message) => {
                self.status.last = Some(message);
            },
            None => {},
        }
    }

    /// A poll came back. A server that has gone away is not running a crawl;
    /// the rest of what was last heard stays.
    pub fn polled(&mut self, status: Option<CrawlStatus>)
        ensures
            final(self).pending == old(self).pending,
            final(self).status == (match status {
                Some(status) => status,
                None => CrawlStatus { running: false, ..old(self).status },
            }),
    {
        match status {
            Some(status) => {
                self.status = status;
            },
            None => {
                self.status.running = false;
            },
        }
    }
}

impl Default for Crawler {
    fn default() -> (crawler: Self)
        ensures
            crawler.status == (CrawlStatus {
                running: false,
                artists_expanded: 0,
                albums_expanded: 0,
                tracks_added: 0,
                errors: 0,
                blocked_skipped: 0,
                tracks: 0,
                pending: 0,
                last: None,
            }),
            !crawler.pending,
    {
        Crawler::new()
    }
}

} // verus!
