use std::collections::HashSet;
use two_khz::json::Json;
use two_khz::qobuz::{RemoteTrack, FORMAT_FLAC_CD, FORMAT_FLAC_HIRES, FORMAT_MP3_320};
use two_khz::ui::player::{
    clock, index_after_move, metadata_script, play_script, qualities, quality_label, read_event,
    transport_script, unduplicated, Action, PageEvent, Play, Player,
};
use two_khz::ui::queue::{queue_rows, tracks_label};

/// Actually reorder a list and look up where the marked entry went.
fn reorder_and_find(length: usize, index: usize, from: usize, to: usize) -> usize {
    let mut queue: Vec<usize> = (0..length).collect();
    let moved = queue.remove(from);
    queue.insert(to, moved);
    queue.iter().position(|&entry| entry == index).unwrap()
}

#[test]
fn agrees_with_an_actual_reorder_for_every_move() {
    const LENGTH: usize = 7;
    for index in 0..LENGTH {
        for from in 0..LENGTH {
            for to in 0..LENGTH {
                assert_eq!(
                    index_after_move(index, from, to),
                    reorder_and_find(LENGTH, index, from, to),
                    "index {index} after moving {from} -> {to}"
                );
            }
        }
    }
}

#[test]
fn the_dragged_entry_lands_where_it_was_dropped() {
    assert_eq!(index_after_move(3, 3, 0), 0);
    assert_eq!(index_after_move(3, 3, 6), 6);
}

#[test]
fn a_move_on_one_side_leaves_the_playing_track_alone() {
    // Both ends below it.
    assert_eq!(index_after_move(5, 1, 3), 5);
    // Both ends above it.
    assert_eq!(index_after_move(5, 7, 9), 5);
}

#[test]
fn dragging_past_the_playing_track_shifts_it_by_one() {
    // From above it to below it: it rises.
    assert_eq!(index_after_move(5, 2, 8), 4);
    // From below it to above it: it sinks.
    assert_eq!(index_after_move(5, 8, 2), 6);
}

fn track(id: i64) -> RemoteTrack {
    RemoteTrack {
        id,
        title: format!("t{id}"),
        artist: "a".into(),
        streamable: true,
        ..Default::default()
    }
}

fn queue(player: &Player) -> Vec<i64> {
    player.queue.iter().map(|t| t.id).collect()
}

#[test]
fn a_list_is_played_from_where_it_was_clicked() {
    let mut player = Player::new();
    let action = player.play_list(vec![track(1), track(2), track(3)], 1);
    assert_eq!(action, Action::PlayAt(1));
    assert_eq!(queue(&player), vec![1, 2, 3]);
}

#[test]
fn nothing_is_queued_twice() {
    let mut player = Player::new();
    player.play_list(vec![track(1), track(1), track(2)], 0);
    player.enqueue(vec![track(2), track(3)]);
    assert_eq!(queue(&player), vec![1, 2, 3]);
    assert_eq!(unduplicated(&vec![track(1), track(4)], &vec![track(1)]).len(), 1);
}

#[test]
fn next_comes_right_after_the_one_playing() {
    let mut player = Player::new();
    player.play_list(vec![track(1), track(2)], 0);
    player.play_next(vec![track(9)]);
    assert_eq!(queue(&player), vec![1, 9, 2]);
}

#[test]
fn a_removed_track_is_gone_and_the_rest_keep_their_order() {
    let mut player = Player::new();
    player.play_list(vec![track(1), track(2), track(3)], 0);
    player.remove_at(1);
    assert_eq!(queue(&player), vec![1, 3]);
    player.move_to(1, 0);
    assert_eq!(queue(&player), vec![3, 1]);
    player.move_by(0, 1);
    assert_eq!(queue(&player), vec![1, 3]);
    player.clear_queue();
    assert!(player.queue.is_empty());
}

#[test]
fn a_hidden_artist_is_skipped() {
    let mut player = Player::new();
    let mut hidden_one = track(1);
    hidden_one.artist_id = Some(5);
    player.play_list(vec![hidden_one, track(2)], 0);
    let hidden: HashSet<i64> = [5].into_iter().collect();
    assert!(matches!(player.play_at(0, &hidden), Play::Skip(_)));
    assert!(matches!(player.play_at(1, &HashSet::new()), Play::Load { track_id: 2, .. }));
}

#[test]
fn a_clock_counts_minutes_and_seconds() {
    assert_eq!(clock(0), "0:00");
    assert_eq!(clock(61_000_000), "1:01");
}

#[test]
fn every_quality_has_a_name() {
    assert_eq!(quality_label(FORMAT_MP3_320), "MP3 320");
    assert_eq!(quality_label(FORMAT_FLAC_CD), "FLAC 16/44");
    assert_eq!(quality_label(FORMAT_FLAC_HIRES), "FLAC hi-res");
    assert_eq!(quality_label(0), "unknown");
}

fn message(members: &[(&str, Json)]) -> Json {
    Json::Object(
        members
            .iter()
            .map(|(key, value)| {
                let value = match value {
                    Json::Text(text) => Json::Text(text.clone()),
                    Json::Bool(flag) => Json::Bool(*flag),
                    _ => Json::Null,
                };
                (key.to_string(), value)
            })
            .collect(),
    )
}

fn word(text: &str) -> Json {
    Json::Text(text.to_string())
}

#[test]
fn the_page_reports_what_happens() {
    let read = |members: &[(&str, Json)]| read_event(&message(members), 3, 9);
    assert_eq!(read(&[("type", word("time"))]), PageEvent::Time(3, 9));
    assert_eq!(
        read(&[("type", word("playing")), ("playing", Json::Bool(true))]),
        PageEvent::Playing(true)
    );
    assert_eq!(read(&[("type", word("ended"))]), PageEvent::Ended);
    assert_eq!(read(&[("type", word("failed"))]), PageEvent::Failed);
    assert_eq!(
        read(&[("type", word("transport")), ("action", word("next"))]),
        PageEvent::Next
    );
    assert_eq!(
        read(&[("type", word("transport")), ("action", word("previous"))]),
        PageEvent::Previous
    );
    assert_eq!(read(&[("type", word("transport"))]), PageEvent::Other);
    assert_eq!(read_event(&Json::Null, 0, 0), PageEvent::Other);
}

#[test]
fn the_end_of_a_track_moves_on() {
    let mut player = Player::new();
    player.play_list(vec![track(1), track(2)], 0);
    player.index = 0;
    assert_eq!(player.handle(PageEvent::Ended), Action::PlayAt(1));
    player.index = 1;
    player.playing = true;
    assert_eq!(player.handle(PageEvent::Ended), Action::Nothing);
    assert!(!player.playing);
    player.handle(PageEvent::Failed);
    assert_eq!(
        player.status.as_deref(),
        Some("playback failed, the stream URL may have expired")
    );
}

#[test]
fn transport_is_guarded() {
    assert_eq!(
        transport_script(Action::Pause).as_deref(),
        Some("window.twoKhzPause && window.twoKhzPause();")
    );
    assert_eq!(transport_script(Action::Nothing), None);
}

#[test]
fn the_bar_follows_the_queue() {
    let mut player = Player::new();
    assert!(!player.bar().has_current);
    player.play_list(vec![track(1), track(2)], 0);
    player.index = 0;
    let bar = player.bar();
    assert!(bar.has_current && bar.can_go_on);
    assert_eq!(qualities(&player).len(), 3);
}

#[test]
fn volume_stays_within_its_bounds() {
    let mut player = Player::new();
    player.set_volume(250);
    assert_eq!(player.level(), 100);
    player.toggle_mute();
    assert_eq!(player.level(), 0);
    player.set_volume(30);
    assert_eq!(player.level(), 30);
    player.set_volume(-4);
    assert_eq!(player.level(), 0);
}

#[test]
fn a_script_quotes_what_it_is_handed() {
    let script = play_script("https://x/\"y\"");
    assert!(script.contains("\"https://x/\\\"y\\\"\""));
    let mut named = track(1);
    named.title = "a \"b\"\n".into();
    assert!(metadata_script(&named).contains("\"a \\\"b\\\"\\n\""));
    let script = play_script("\\ \u{8}\t\u{c}\r \u{1}\u{1f}\u{7f}é/");
    assert!(script.ends_with("(\"\\\\ \\b\\t\\f\\r \\u0001\\u001f\u{7f}é/\");"));
}

#[test]
fn a_queue_is_listed_while_it_is_open() {
    let mut player = Player::new();
    player.play_list(vec![track(1), track(2)], 0);
    assert!(queue_rows(&player).is_none());
    player.toggle_queue();
    let rows = queue_rows(&player).unwrap();
    assert_eq!(rows.len(), 2);
    assert!(!rows[0].can_move_up && rows[0].can_move_down);
    assert!(rows[1].can_move_up && !rows[1].can_move_down);
    assert_eq!(tracks_label(2), "2 tracks");
}
