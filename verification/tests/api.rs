use two_khz::api::{digest, hex, Corpus, Scope, Stage, FULL_RUN};
use two_khz::stages::{command_of, exit_code, uv_path, ActiveGroup, Event, Next, Running};
use two_khz::logbuffer::LogBuffer;

#[test]
fn a_digest_is_md5_in_hexadecimal() {
    assert_eq!(digest(b"hello world"), "5eb63bbbe01eeed093cb22bb8f5acdc3");
    assert_eq!(digest(b""), "d41d8cd98f00b204e9800998ecf8427e");
    assert_eq!(hex(&[0, 15, 255]), "000fff");
}

#[test]
fn a_scope_covers_what_it_implies() {
    assert!(Scope::Pipeline.covers(Scope::Play));
    assert!(!Scope::Play.covers(Scope::Pipeline));
    for scope in [Scope::Play, Scope::Pipeline] {
        assert_eq!(Scope::parse(scope.as_str()), Some(scope));
        assert!(scope.covers(scope));
    }
    assert_eq!(Scope::parse("Play"), None);
}

#[test]
fn a_stage_knows_its_command() {
    assert_eq!(Stage::Crawl.command(), None);
    assert_eq!(command_of(Stage::BuildSpace), Ok("build-space"));
    assert_eq!(command_of(Stage::Crawl), Err("crawl is not a Python stage".to_string()));
    assert!(Stage::Layout.rebuilds_space() && !Stage::Analyse.rebuilds_space());
    assert_eq!(FULL_RUN, [Stage::Analyse, Stage::BuildSpace, Stage::Layout]);
    assert_eq!(Stage::ALL.len(), 4);
    assert_eq!(Stage::BuildSpace.label(), "build space");
    assert_eq!(Corpus::default().tracks, 0);
}

#[test]
fn a_stage_ends_once_both_streams_have() {
    let mut running = Running::new();
    let mut log = LogBuffer::new();
    assert_eq!(running.step(Event::Output(Some("one".into())), false, &mut log), Next::Listen);
    assert_eq!(running.step(Event::Output(None), false, &mut log), Next::Listen);
    assert_eq!(running.step(Event::Tick, false, &mut log), Next::Listen);
    assert_eq!(running.step(Event::Progress(None), false, &mut log), Next::Finish);
    assert_eq!(log.all(), ["one"]);
}

#[test]
fn a_cancelled_stage_is_terminated() {
    let mut running = Running::new();
    let mut log = LogBuffer::new();
    assert_eq!(running.step(Event::Tick, true, &mut log), Next::Terminate);
    assert_eq!(log.all(), ["cancelled"]);
}

#[test]
fn a_group_is_signalled_once() {
    let mut group = ActiveGroup::none();
    assert_eq!(group.reap(), None);
    group.set(42);
    assert_eq!(group.reap(), Some(42));
    assert_eq!(group.reap(), None);
    assert_eq!(exit_code(Some(3)), 3);
    assert_eq!(exit_code(None), -1);
}

#[test]
fn uv_is_looked_for_where_it_installs() {
    assert_eq!(uv_path(Some("/home/x"), |p| p.contains(".cargo")), "/home/x/.cargo/bin/uv");
    assert_eq!(uv_path(Some("/home/x"), |_| true), "/home/x/.local/bin/uv");
    assert_eq!(uv_path(Some("/home/x"), |_| false), "uv");
    assert_eq!(uv_path(None, |_| true), "uv");
}
