//! The play queue, as a drawer above the player bar.

use crate::qobuz::RemoteTrack;
use crate::strings::{decimal, digits, joined};
use crate::ui::player::Player;
use vstd::prelude::*;

verus! {

/// One row of the drawer.
pub struct QueueRow {
    pub track: RemoteTrack,
    pub playing: bool,
    pub can_move_up: bool,
    pub can_move_down: bool,
    pub duration: String,
}

pub open spec fn shows_row(player: Player, row: QueueRow, index: int) -> bool {
    &&& row.track == player.queue@[index]
    &&& row.playing == (index == player.index)
    &&& row.can_move_up == (index > 0)
    &&& row.can_move_down == (index + 1 < player.queue@.len())
    &&& row.duration@ == player.queue@[index].clock()
}

/// The rows of the drawer, where it is open.
pub fn queue_rows(player: &Player) -> (rows: Option<Vec<QueueRow>>)
    ensures
        rows is Some <==> player.queue_open,
        rows matches Some(all) ==> all@.len() == player.queue@.len() && forall|i: int|
            0 <= i < all@.len() ==> shows_row(*player, #[trigger] all@[i], i),
{
    if !player.queue_open {
        return None;
    }
    let mut rows: Vec<QueueRow> = Vec::new();
    let n: usize = player.queue.len();
    while rows.len() < n
        invariant
            n == player.queue@.len(),
            rows@.len() <= n,
            forall|i: int| 0 <= i < rows@.len() ==> shows_row(*player, #[trigger] rows@[i], i),
        decreases n - rows@.len(),
    {
        let index: usize = rows.len();
        let track = &player.queue[index];
        let row = QueueRow {
            track: track.clone(),
            playing: index == player.index,
            can_move_up: index > 0,
            can_move_down: n - index > 1,
            duration: track.duration_label(),
        };
        rows.push(row);
    }
    Some(rows)
}

/// How many tracks a heading says there are.
pub open spec fn tracks_text(n: nat) -> Seq<char> {
    digits(n) + " tracks"@
}

pub fn tracks_label(n: usize) -> (label: String)
    ensures
        label@ == tracks_text(n as nat),
{
    joined(decimal(n as u128).as_str(), " tracks")
}

} // verus!
