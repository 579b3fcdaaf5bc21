use solari::api::{LatLng, ResponseStatus, SolariResponse};
use solari::args::{BuildArgs, BuildSource};
use solari::dates::{days_since_epoch, epoch_day, Date};
use solari::golden::{
    golden_diff, golden_query, judge, query_seconds, record_step, recording_time, show_changes,
    ChangeKind, DiffLine, Golden, Heard, Next, Outcome, Recording, Tally, TimetableParams,
};
use solari::geo::Place;
use std::path::PathBuf;

fn golden(route: Option<SolariResponse>) -> Golden {
    Golden {
        from_location: LatLng { lat: 1, lon: 2, stop: None },
        to_location: LatLng { lat: 3, lon: 4, stop: None },
        start_time: 1_641_729_600,
        route,
    }
}

fn none_found() -> SolariResponse {
    SolariResponse { status: ResponseStatus::NoRouteFound, itineraries: vec![] }
}

#[test]
fn an_answer_is_judged_against_its_case() {
    assert_eq!(judge(&golden(None), &none_found()), Outcome::MissingRoute);
    assert_eq!(judge(&golden(Some(none_found())), &none_found()), Outcome::Passed);
    let late = SolariResponse { status: ResponseStatus::TooLate, itineraries: vec![] };
    assert_eq!(judge(&golden(Some(none_found())), &late), Outcome::Failed);
}

#[test]
fn a_suite_is_good_while_every_case_passes() {
    let t = Tally::new();
    assert!(t.all_ok);
    assert!(t.record(Outcome::Passed).all_ok);
    assert!(!t.record(Outcome::Failed).all_ok);
    assert!(!t.record(Outcome::MissingRoute).all_ok);
    assert!(!t.record(Outcome::Failed).record(Outcome::Passed).all_ok);
}

#[test]
fn a_case_stands_for_its_query() {
    let q = golden_query(&golden(None));
    assert_eq!(q.start_time.epoch_seconds(), 1_641_729_600);
    assert_eq!((q.from.lat, q.from.lon), (1, 2));
    assert_eq!((q.to.lat, q.to.lon), (3, 4));
    assert_eq!(q.max_walk_m, Some(1_500));
    assert_eq!(q.max_itineraries, Some(1_000));
    assert_eq!(q.max_access_stops, Some(4));
    assert_eq!(q.max_egress_stops, Some(2));
    assert_eq!(q.max_rounds, None);
}

#[test]
fn moments_keep_their_low_32_bits() {
    assert_eq!(query_seconds(0), 0);
    assert_eq!(query_seconds(1_641_729_600), 1_641_729_600);
    assert_eq!(query_seconds(0xffff_ffff), u32::MAX);
    assert_eq!(query_seconds(0x1_0000_0005), 5);
    assert_eq!(query_seconds(-1), u32::MAX);
    assert_eq!(query_seconds(i64::MIN), 0);
}

#[test]
fn days_are_counted_from_the_epoch() {
    assert_eq!(epoch_day(&Date { year: 1970, month: 1, day: 1 }), Some(0));
    assert_eq!(epoch_day(&Date { year: 1969, month: 12, day: 31 }), Some(-1));
    assert_eq!(epoch_day(&Date { year: 2022, month: 1, day: 8 }), Some(19_000));
    assert_eq!(epoch_day(&Date { year: 2024, month: 2, day: 29 }), Some(19_782));
    assert_eq!(epoch_day(&Date { year: 2023, month: 2, day: 29 }), None);
    assert_eq!(epoch_day(&Date { year: 2023, month: 13, day: 1 }), None);
    assert_eq!(epoch_day(&Date { year: 2023, month: 0, day: 1 }), None);
    assert_eq!(epoch_day(&Date { year: 400_000, month: 1, day: 1 }), None);
    assert_eq!(days_since_epoch(Some(719_163)), Some(0));
    assert_eq!(days_since_epoch(Some(1)), Some(-719_162));
    assert_eq!(days_since_epoch(Some(i32::MIN)), None);
    assert_eq!(days_since_epoch(Some(i32::MIN + 719_163)), Some(i32::MIN));
    assert_eq!(days_since_epoch(None), None);
}

#[test]
fn a_case_is_recorded_at_noon_of_the_second_day() {
    let params = TimetableParams { start_date: Date { year: 2022, month: 1, day: 8 }, num_days: 7 };
    assert_eq!(recording_time(&params), Some(19_001 * 86_400 + 43_200));
    let first = TimetableParams { start_date: Date { year: 1970, month: 1, day: 1 }, num_days: 1 };
    assert_eq!(recording_time(&first), Some(129_600));
    let never = TimetableParams { start_date: Date { year: 2022, month: 2, day: 30 }, num_days: 7 };
    assert_eq!(recording_time(&never), None);
}

#[test]
fn a_difference_is_shown_line_by_line() {
    assert_eq!(golden_diff("a\nb\nc\n", "a\nx\nc\n"), " a\n-b\n+x\n c\n");
    assert_eq!(golden_diff("same\n", "same\n"), " same\n");
    assert_eq!(golden_diff("", "new\n"), "+new\n");
    assert_eq!(golden_diff("old\n", ""), "-old\n");
    assert_eq!(golden_diff("", ""), "");
    assert_eq!(golden_diff("a", "b"), "-a\n+b\n");
}

#[test]
fn changes_are_shown_with_their_signs() {
    let lines = vec![
        DiffLine { kind: ChangeKind::Equal, text: "x\n".to_string() },
        DiffLine { kind: ChangeKind::Delete, text: "y\n".to_string() },
        DiffLine { kind: ChangeKind::Insert, text: "z".to_string() },
    ];
    assert_eq!(show_changes(&lines), " x\n-y\n+z");
    assert_eq!(show_changes(&vec![]), "");
}

#[test]
fn new_cases_are_recorded_step_by_step() {
    let here = Place { lat: 1, lon: 2 };
    let there = Place { lat: 3, lon: 4 };
    let line = Heard::Line { empty: false };
    let blank = Heard::Line { empty: true };
    assert_eq!(record_step(Recording::Name, blank), (Recording::Name, Next::Finish));
    assert_eq!(record_step(Recording::Name, line), (Recording::From, Next::AskFrom));
    assert_eq!(record_step(Recording::From, line), (Recording::FromPlace, Next::LookUp));
    assert_eq!(record_step(Recording::From, blank), (Recording::To { from: None }, Next::AskTo));
    assert_eq!(
        record_step(Recording::FromPlace, Heard::Place { at: None }),
        (Recording::From, Next::AskFrom)
    );
    assert_eq!(
        record_step(Recording::FromPlace, Heard::Place { at: Some(here) }),
        (Recording::To { from: Some(here) }, Next::AskTo)
    );
    assert_eq!(
        record_step(Recording::To { from: Some(here) }, line),
        (Recording::ToPlace { from: Some(here) }, Next::LookUp)
    );
    assert_eq!(
        record_step(Recording::To { from: Some(here) }, blank),
        (Recording::Name, Next::Finish)
    );
    assert_eq!(
        record_step(Recording::ToPlace { from: Some(here) }, Heard::Place { at: None }),
        (Recording::To { from: Some(here) }, Next::AskTo)
    );
    assert_eq!(
        record_step(Recording::ToPlace { from: Some(here) }, Heard::Place { at: Some(there) }),
        (Recording::Name, Next::Record { from: here, to: there })
    );
    assert_eq!(
        record_step(Recording::ToPlace { from: None }, Heard::Place { at: Some(there) }),
        (Recording::Name, Next::NoOrigin)
    );
    assert_eq!(
        record_step(Recording::Name, Heard::Place { at: Some(there) }),
        (Recording::Name, Next::Finish)
    );
}

#[test]
fn a_build_takes_its_timetables_from_where_it_is_told() {
    let args = |concat_only: bool| BuildArgs {
        base_path: PathBuf::from("out"),
        gtfs_path: PathBuf::from("feeds"),
        valhalla_tiles: PathBuf::from("tiles"),
        num_threads: 1,
        concat_only,
    };
    assert_eq!(args(true).source(true), BuildSource::Compiled);
    assert_eq!(args(true).source(false), BuildSource::Compiled);
    assert_eq!(args(false).source(true), BuildSource::FeedDirectory);
    assert_eq!(args(false).source(false), BuildSource::SingleFeed);
    assert!(args(false).reads_feeds());
    assert!(!args(true).reads_feeds());
}
