//! Where files live, and how this process reaches a server.

use crate::strings::{joined, push_text, trim, trim_end_char, trim_end_char_of, trim_of};
use vstd::prelude::*;

verus! {

// -------------------------------------------------------------------- paths

/// A name under a directory. One that is empty is no directory at all.
pub open spec fn under(dir: Seq<char>, name: Seq<char>) -> Seq<char> {
    if dir.len() == 0 || dir.last() == '/' {
        dir + name
    } else {
        dir + "/"@ + name
    }
}

pub fn join_path(dir: &str, name: &str) -> (path: String)
    ensures
        path@ == under(dir@, name@),
{
    let chars = crate::strings::chars_of(dir);
    let n: usize = chars.len();
    if n == 0 || chars[n - 1] == '/' {
        joined(dir, name)
    } else {
        let mut path = joined(dir, "/");
        push_text(&mut path, name);
        path
    }
}

/// Sets where a client keeps its files. The first setting stays.
pub fn set_data_dir(slot: &mut Option<String>, dir: String)
    ensures
        *final(slot) == (match *old(slot) {
            Some(there) => Some(there),
            None => Some(dir),
        }),
{
    if slot.is_none() {
        *slot = Some(dir);
    }
}

/// The server's own data directory: as set, or `data` beside the program's
/// sources, or `data`.
pub open spec fn data_dir_of(set: Option<Seq<char>>, repo: Option<Seq<char>>) -> Seq<char> {
    match set {
        Some(dir) => dir,
        None => match repo {
            Some(root) => under(root, "data"@),
            None => "data"@,
        },
    }
}

pub open spec fn seen_str(text: Option<&str>) -> Option<Seq<char>> {
    match text {
        Some(t) => Some(t@),
        None => None,
    }
}

pub fn default_data_dir(set: Option<&str>, repo: Option<&str>) -> (dir: String)
    ensures
        dir@ == data_dir_of(seen_str(set), seen_str(repo)),
{
    match set {
        Some(dir) => dir.to_owned(),
        None => match repo {
            Some(root) => join_path(root, "data"),
            None => "data".to_owned(),
        },
    }
}

pub fn default_db_path(set: Option<&str>, repo: Option<&str>) -> (path: String)
    ensures
        path@ == under(data_dir_of(seen_str(set), seen_str(repo)), "qsuggest.db"@),
{
    join_path(default_data_dir(set, repo).as_str(), "qsuggest.db")
}

/// Model weights are shared across corpora, so they do not follow the data
/// directory.
pub fn default_model_dir(set: Option<&str>, repo: Option<&str>) -> (dir: String)
    ensures
        dir@ == (match set {
            Some(dir) => dir@,
            None => match repo {
                Some(root) => under(under(root@, "data"@), "models"@),
                None => under("data"@, "models"@),
            },
        }),
{
    match set {
        Some(dir) => dir.to_owned(),
        None => match repo {
            Some(root) => join_path(join_path(root, "data").as_str(), "models"),
            None => join_path("data", "models"),
        },
    }
}

/// What is known of this machine that bears on where a client's files go.
pub struct Surroundings {
    /// Set by the program itself, before anything reads a path.
    pub chosen: Option<String>,
    /// Set by the user.
    pub set: Option<String>,
    /// The app's private directory, on a system that has one.
    pub private: Option<String>,
    /// Where the desktop keeps data, where it says.
    pub data_home: Option<String>,
    pub home: Option<String>,
}

pub open spec fn client_dir(at: Surroundings) -> Seq<char> {
    match (at.chosen, at.set, at.private) {
        (Some(dir), _, _) => dir@,
        (None, Some(dir), _) => dir@,
        (None, None, Some(dir)) => dir@,
        (None, None, None) => under(
            match (at.data_home, at.home) {
                (Some(base), _) => base@,
                (None, Some(home)) => under(under(home@, ".local"@), "share"@),
                (None, None) => under(under("."@, ".local"@), "share"@),
            },
            "qsuggest"@,
        ),
    }
}

/// Where a client connected to a server keeps its synced copy of the space.
///
/// Not the server's own data directory: overwriting the pipeline's output
/// would be a fine way to lose a corpus.
pub fn client_data_dir(at: &Surroundings) -> (dir: String)
    ensures
        dir@ == client_dir(*at),
{
    if let Some(dir) = &at.chosen {
        return dir.clone();
    }
    if let Some(dir) = &at.set {
        return dir.clone();
    }
    if let Some(dir) = &at.private {
        return dir.clone();
    }
    let base = match &at.data_home {
        Some(base) => base.clone(),
        None => {
            let home = match &at.home {
                Some(home) => home.clone(),
                None => ".".to_owned(),
            };
            join_path(join_path(home.as_str(), ".local").as_str(), "share")
        },
    };
    join_path(base.as_str(), "qsuggest")
}

/// The package a command line belongs to: what stands before the first zero
/// character, and before the first colon in that, trimmed.
pub open spec fn package_of(cmdline: Seq<char>) -> Seq<char> {
    trim_of(
        crate::strings::pieces_of(crate::strings::pieces_of(cmdline, '\0')[0], ':')[0],
    )
}

/// The app's package, worked out from its command line; none where that says
/// nothing.
pub fn package_name(cmdline: &str) -> (package: Option<String>)
    ensures
        match package {
            Some(name) => name@ == package_of(cmdline@) && name@.len() > 0,
            None => package_of(cmdline@).len() == 0,
        },
{
    let outer = crate::strings::pieces(cmdline, '\0');
    let inner = crate::strings::pieces(outer[0].as_str(), ':');
    let name = trim(inner[0].as_str());
    proof {
        assert(crate::strings::views(outer@)[0] == outer@[0]@);
        assert(crate::strings::views(inner@)[0] == inner@[0]@);
    }
    if name.as_str().is_empty() {
        None
    } else {
        Some(name)
    }
}

// ------------------------------------------------------------------- wiring

/// How this process reaches the catalogue and the pipeline.
pub enum Wiring {
    Local { data_dir: String, db_path: String },
    Remote { base: String, token: String, data_dir: String },
}

/// A server address and a device token, as a client stores them.
pub struct ServerConfig {
    pub base: String,
    pub token: String,
}

/// Which backend a wiring calls for, and with what.
pub enum Connection {
    Local { db_path: String, model_dir: String },
    Remote { base: String, token: String, data_dir: String },
}

impl ServerConfig {
    /// Where the pairing is kept.
    pub fn path(client_data_dir: &str) -> (path: String)
        ensures
            path@ == under(client_data_dir@, "server.json"@),
    {
        join_path(client_data_dir, "server.json")
    }

    /// A pairing as typed: blanks around both are dropped, and so are slashes
    /// the address ends in. Refused where either is then empty.
    pub fn typed(address: &str, token: &str) -> (config: Option<Self>)
        ensures
            ({
                let base = trim_end_char_of(trim_of(address@), '/');
                let secret = trim_of(token@);
                match config {
                    Some(c) => c.base@ == base && c.token@ == secret && base.len() > 0
                        && secret.len() > 0,
                    None => base.len() == 0 || secret.len() == 0,
                }
            }),
    {
        let base = trim_end_char(trim(address).as_str(), '/');
        let secret = trim(token);
        if base.as_str().is_empty() || secret.as_str().is_empty() {
            None
        } else {
            Some(ServerConfig { base, token: secret })
        }
    }
}

/// What is said where a server is named without a token.
pub open spec fn unpaired(hostname: Seq<char>) -> Seq<char> {
    "TWO_KHZ_SERVER is set but TWO_KHZ_TOKEN is not.\nPair this device on the server:\n  two-khz-server pair --name \""@
        + hostname + "\" --scope play"@
}

impl Wiring {
    pub fn remote(base: String, token: String, client_data_dir: String) -> (wiring: Self)
        ensures
            wiring == (Wiring::Remote { base, token, data_dir: client_data_dir }),
    {
        Wiring::Remote { base, token, data_dir: client_data_dir }
    }

    /// What the user set first, what is stored second, this machine last.
    ///
    /// `local` is where a build that has everything it needs keeps it: the
    /// data directory and the database. Without it there is nothing to fall
    /// back to.
    pub fn from_env(
        server: Option<String>,
        token: Option<String>,
        stored: Option<ServerConfig>,
        local: Option<(String, String)>,
        client_data_dir: String,
        hostname: &str,
    ) -> (wiring: Result<Self, String>)
        ensures
            match (server, token, stored, local) {
                (Some(base), Some(secret), _, _) => wiring == Ok::<Wiring, String>(
                    Wiring::Remote { base, token: secret, data_dir: client_data_dir },
                ),
                (Some(_), None, _, _) => wiring is Err && wiring->Err_0@ == unpaired(hostname@),
                (None, _, Some(c), _) => wiring == Ok::<Wiring, String>(
                    Wiring::Remote { base: c.base, token: c.token, data_dir: client_data_dir },
                ),
                (None, _, None, Some((data_dir, db_path))) => wiring == Ok::<Wiring, String>(
                    Wiring::Local { data_dir, db_path },
                ),
                (None, _, None, None) => wiring is Err && wiring->Err_0@
                    == "not paired with a server yet"@,
            },
    {
        if let Some(base) = server {
            return match token {
                Some(secret) => Ok(Wiring::remote(base, secret, client_data_dir)),
                None => {
                    let mut text = joined(
                        "TWO_KHZ_SERVER is set but TWO_KHZ_TOKEN is not.\nPair this device on the server:\n  two-khz-server pair --name \"",
                        hostname,
                    );
                    push_text(&mut text, "\" --scope play");
                    Err(text)
                },
            };
        }
        if let Some(c) = stored {
            return Ok(Wiring::remote(c.base, c.token, client_data_dir));
        }
        match local {
            Some((data_dir, db_path)) => Ok(Wiring::Local { data_dir, db_path }),
            None => Err("not paired with a server yet".to_owned()),
        }
    }

    /// Where the engine should load the space from.
    pub fn data_dir(&self) -> (dir: &String)
        ensures
            *dir == (match *self {
                Wiring::Local { data_dir, .. } => data_dir,
                Wiring::Remote { data_dir, .. } => data_dir,
            }),
    {
        match self {
            Wiring::Local { data_dir, .. } => data_dir,
            Wiring::Remote { data_dir, .. } => data_dir,
        }
    }

    /// Which database the catalogue comes from. Remotely this is the slim copy
    /// that sync brings down, not the one the server keeps.
    pub fn db_path(&self) -> (path: String)
        ensures
            path@ == (match *self {
                Wiring::Local { db_path, .. } => db_path@,
                Wiring::Remote { data_dir, .. } => under(data_dir@, "catalog.db"@),
            }),
    {
        match self {
            Wiring::Local { db_path, .. } => db_path.clone(),
            Wiring::Remote { data_dir, .. } => join_path(data_dir.as_str(), "catalog.db"),
        }
    }

    pub fn is_remote(&self) -> (yes: bool)
        ensures
            yes == self is Remote,
    {
        match self {
            Wiring::Remote { .. } => true,
            Wiring::Local { .. } => false,
        }
    }

    pub fn into_backend(self, model_dir: String) -> (connection: Connection)
        ensures
            connection == (match self {
                Wiring::Local { db_path, .. } => Connection::Local { db_path, model_dir },
                Wiring::Remote { base, token, data_dir } => Connection::Remote {
                    base,
                    token,
                    data_dir,
                },
            }),
    {
        match self {
            Wiring::Local { db_path, .. } => Connection::Local { db_path, model_dir },
            Wiring::Remote { base, token, data_dir } => Connection::Remote { base, token, data_dir },
        }
    }
}

/// A device's name, from what its host name file holds: trimmed, and
/// "this device" where that leaves nothing or nothing could be read.
pub fn hostname(file: Option<&str>) -> (name: String)
    ensures
        name@ == (match file {
            Some(text) => if trim_of(text@).len() > 0 {
                trim_of(text@)
            } else {
                "this device"@
            },
            None => "this device"@,
        }),
{
    match file {
        Some(text) => {
            let name = trim(text);
            if name.as_str().is_empty() {
                "this device".to_owned()
            } else {
                name
            }
        },
        None => "this device".to_owned(),
    }
}

} // verus!
