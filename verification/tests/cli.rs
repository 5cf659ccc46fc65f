use two_khz::api::CrawlStatus;
use two_khz::cli::{
    complaint, crawl_next, has_needed, parse_args, parse_query, CrawlNext, Options, Query,
    QueryError, Reading,
};
use two_khz::script::{call, id_list, nullable_id};

fn args(words: &[&str]) -> Vec<String> {
    words.iter().map(|w| w.to_string()).collect()
}

fn read(words: &[&str]) -> Reading {
    let args = args(words);
    let rates: Vec<Option<u64>> =
        args.iter().map(|a| a.parse::<f64>().ok().map(f64::to_bits)).collect();
    parse_args(&args, &rates, 3, 1.0_f64.to_bits())
}

fn options(words: &[&str]) -> Options {
    match read(words) {
        Reading::Run(options) => options,
        _ => panic!("{words:?} should run"),
    }
}

#[test]
fn nothing_said_is_a_crawl_by_default() {
    let plain = options(&[]);
    assert_eq!(plain.max_tracks, 5000);
    assert_eq!(plain.max_distance, 3);
    assert!(plain.seed);
    assert_eq!(plain.only_artist, None);
}

#[test]
fn every_flag_is_heard() {
    let told = options(&[
        "--max-tracks", "9", "--max-distance", "2", "--rate", "0.5", "--no-seed", "--artist", "7",
        "--album", "xyz",
    ]);
    assert_eq!(told.max_tracks, 9);
    assert_eq!(told.max_distance, 2);
    assert_eq!(told.rate, 0.5_f64.to_bits());
    assert!(!told.seed);
    assert_eq!(told.only_artist, Some(7));
    assert_eq!(told.only_album.as_deref(), Some("xyz"));
}

#[test]
fn what_cannot_be_read_is_complained_of() {
    let say = |words: &[&str]| {
        let no_rates: Vec<String> = words
            .iter()
            .map(|w| w.parse::<f64>().err().map(|e| e.to_string()).unwrap_or_default())
            .collect();
        complaint(&read(words), &args(words), &no_rates)
    };
    assert_eq!(say(&["--rate"]).as_deref(), Some("--rate needs a value"));
    assert_eq!(say(&["--max-tracks", "x"]).as_deref(), Some("invalid digit found in string"));
    assert_eq!(
        say(&["--max-distance", ""]).as_deref(),
        Some("cannot parse integer from empty string")
    );
    assert_eq!(say(&["--rate", "x"]).as_deref(), Some("invalid float literal"));
    assert_eq!(say(&["--what"]).as_deref(), Some("unknown argument: --what"));
    assert_eq!(say(&[]), None);
    assert!(matches!(read(&["-h"]), Reading::Help));
}

#[test]
fn a_crawl_is_stopped_once_it_has_enough() {
    let at = |running, tracks| CrawlStatus { running, tracks, ..CrawlStatus::default() };
    assert_eq!(crawl_next(100, &at(true, 99)), CrawlNext::Watch);
    assert_eq!(crawl_next(100, &at(true, 100)), CrawlNext::Stop);
    assert_eq!(crawl_next(100, &at(false, 99)), CrawlNext::Done);
    assert_eq!(crawl_next(100, &at(false, 500)), CrawlNext::Done);
}

fn query(words: &[&str]) -> Result<Query, QueryError> {
    let args = args(words);
    let penalties: Vec<Option<u32>> =
        args.iter().map(|a| a.parse::<f32>().ok().map(f32::to_bits)).collect();
    parse_query(&args, &penalties)
}

#[test]
fn a_query_names_its_mode_and_numbers() {
    assert!(matches!(query(&["neighbours", "5"]), Ok(Query::Neighbours { track: 5, k: 10 })));
    assert!(matches!(query(&["path", "1", "2"]), Ok(Query::Path { from: 1, to: 2 })));
    assert!(matches!(
        query(&["interpolate", "1", "2"]),
        Ok(Query::Interpolate { from: 1, to: 2, steps: 12 })
    ));
    assert!(matches!(query(&["drift", "1", "warm"]), Ok(Query::Drift { steps: 8, .. })));
    assert!(matches!(query(&["radio", "1", "4", "0.5"]), Ok(Query::Radio { steps: 4, .. })));
    assert!(matches!(query(&["embed", "warm"]), Ok(Query::Embed { .. })));
    assert!(matches!(query(&[]), Err(QueryError::Usage)));
    assert!(matches!(query(&["what"]), Err(QueryError::UnknownMode(_))));
    assert!(matches!(query(&["neighbours", "x"]), Err(QueryError::NotANumber)));
}

#[test]
fn numbers_are_written_into_a_script() {
    assert_eq!(call("f", "1"), "window.f && window.f(1);");
    assert_eq!(id_list(&[1, -2]), "[1,-2]");
    assert_eq!(id_list(&[]), "[]");
    assert_eq!(nullable_id(None), "null");
    assert_eq!(nullable_id(Some(4)), "4");
}

#[test]
fn a_mode_says_what_it_cannot_do_without() {
    let has = |args: &[&str]| {
        has_needed(&args.iter().map(|arg| arg.to_string()).collect::<Vec<String>>())
    };
    assert!(has(&[]) && has(&["what"]) && has(&["radio", "1"]) && has(&["drift", "1", "warm"]));
    assert!(!has(&["radio"]) && !has(&["embed"]) && !has(&["path", "1"]) && !has(&["interpolate"]));
}
