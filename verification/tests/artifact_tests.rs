use solari::artifact::{Artifact, OpenError, MAGIC, VERSION};
use solari::compile::{compile, Feed};
use solari::layout::{
    bias, cell_count, get_cell, get_word, holds_records, product_within, push_cell, push_word,
    unbias, word_count,
};
use solari::raptor::Foot;
use solari::reader::{open, read_text};
use solari::timetable::{Calendar, Route, Stop, StopTime, Timetable, Trip};
use solari::writer::{holds_bytes, put_text, put_text_once, TextRef};
use std::collections::HashMap;

fn sample() -> Timetable {
    let feed = Feed {
        stops: vec![
            Stop {
                id: u64::MAX,
                code: "A1".to_string(),
                name: "Älder Straße".to_string(),
                lat: -33_900_000_000,
                lon: 151_200_000_000,
                parent: Some(77),
            },
            Stop {
                id: 2,
                code: String::new(),
                name: "Birch".to_string(),
                lat: 47_640_000_000,
                lon: -122_300_000_000,
                parent: None,
            },
            Stop { id: 3, code: "C".to_string(), name: "渋谷".to_string(), lat: 0, lon: 0, parent: None },
        ],
        routes: vec![
            Route {
                agency: "Metro".to_string(),
                short_name: "10".to_string(),
                long_name: "Tenth Avenue".to_string(),
                route_type: 3,
            },
            Route {
                agency: "Rail".to_string(),
                short_name: String::new(),
                long_name: "Coast Line".to_string(),
                route_type: 65_535,
            },
        ],
        trips: vec![
            Trip {
                id: 900,
                route: 1,
                headsign: "North".to_string(),
                days: vec![0xff, 0x01],
                stops: vec![0, 1, 2],
                times: vec![
                    StopTime { arrival: 100, departure: 110 },
                    StopTime { arrival: 200, departure: 210 },
                    StopTime { arrival: 90_000, departure: u32::MAX },
                ],
            },
            Trip {
                id: 901,
                route: 0,
                headsign: String::new(),
                days: vec![0x00, 0x00],
                stops: vec![2, 0],
                times: vec![
                    StopTime { arrival: 0, departure: 0 },
                    StopTime { arrival: 5, departure: 5 },
                ],
            },
            Trip {
                id: 902,
                route: 1,
                headsign: "North".to_string(),
                days: vec![0x0f, 0x00],
                stops: vec![0, 1, 2],
                times: vec![
                    StopTime { arrival: 50, departure: 60 },
                    StopTime { arrival: 70, departure: 80 },
                    StopTime { arrival: 90, departure: 95 },
                ],
            },
        ],
        calendar: Calendar { start_day: -12, num_days: 9 },
    };
    compile(feed, "/data/valhalla".to_string()).unwrap().with_transfers(&vec![
        vec![Foot { stop: 1, seconds: 300 }, Foot { stop: 2, seconds: 20 }],
        vec![],
        vec![Foot { stop: 0, seconds: 25 }],
    ])
}

fn same(a: &Timetable, b: &Timetable) -> bool {
    format!("{:?}", a) == format!("{:?}", b)
}

#[test]
fn a_written_timetable_opens_as_itself() {
    let tt = sample();
    let files = solari::writer::write(&tt);
    let back = open(&files).unwrap();
    assert!(same(&tt, &back));
    assert!(back.check());
    assert_eq!(back.stops[0].name, "Älder Straße");
    assert_eq!(back.transfers[0].len(), 2);
    let again = solari::writer::write(&back);
    assert_eq!(again.manifest, files.manifest);
    assert_eq!(again.strings, files.strings);
    assert_eq!(again.stop_times, files.stop_times);
}

#[test]
fn an_empty_timetable_opens_as_itself() {
    let feed = Feed {
        stops: vec![],
        routes: vec![],
        trips: vec![],
        calendar: Calendar { start_day: 0, num_days: 0 },
    };
    let tt = compile(feed, String::new()).unwrap();
    let files = solari::writer::write(&tt);
    assert_eq!(files.manifest.len(), 80);
    assert_eq!(files.transfer_offsets.len(), 8);
    assert!(files.stops.is_empty());
    assert!(same(&tt, &open(&files).unwrap()));
}

#[test]
fn the_files_have_their_layout() {
    let files = solari::writer::write(&sample());
    assert_eq!(get_cell(&files.manifest, 0), MAGIC);
    assert_eq!(&files.manifest[0..8], b"SOLARITT");
    assert_eq!(get_cell(&files.manifest, 1), VERSION);
    assert_eq!(get_cell(&files.manifest, 2), 3);
    assert_eq!(get_cell(&files.manifest, 3), 2);
    assert_eq!(get_cell(&files.manifest, 4), 3);
    assert_eq!(get_cell(&files.manifest, 5), 2);
    assert_eq!(get_cell(&files.manifest, 6), 0x8000_0000 - 12);
    assert_eq!(get_cell(&files.manifest, 7), 9);
    assert_eq!(files.stops.len(), 3 * 9 * 8);
    assert_eq!(files.routes.len(), 2 * 7 * 8);
    assert_eq!(files.trips.len(), 3 * 6 * 8);
    assert_eq!(files.patterns.len(), 2 * 5 * 8);
    assert_eq!(files.calendar, vec![0xff, 0x01, 0x00, 0x00, 0x0f, 0x00]);
    assert_eq!(files.trip_stops.len(), 8 * 4);
    assert_eq!(files.stop_times.len(), 8 * 2 * 4);
    assert_eq!(get_word(&files.stop_times, 5), u32::MAX);
    assert_eq!(files.transfers.len(), 3 * 2 * 4);
    assert_eq!(get_cell(&files.transfer_offsets, 0), 0);
    assert_eq!(get_cell(&files.transfer_offsets, 1), 2);
    assert_eq!(get_cell(&files.transfer_offsets, 2), 2);
    assert_eq!(get_cell(&files.transfer_offsets, 3), 3);
    assert_eq!(&files.strings[0..14], b"/data/valhalla");
}

#[test]
fn a_manifest_without_the_magic_number_is_refused() {
    let mut files = solari::writer::write(&sample());
    files.manifest[0] ^= 1;
    assert_eq!(open(&files).err(), Some(OpenError::BadMagic));
}

#[test]
fn a_manifest_of_another_version_is_refused() {
    let mut files = solari::writer::write(&sample());
    files.manifest[8] = 2;
    assert_eq!(open(&files).err(), Some(OpenError::BadVersion));
    files.manifest[0] ^= 1;
    assert_eq!(open(&files).err(), Some(OpenError::BadMagic));
}

#[test]
fn damaged_files_are_refused() {
    let whole = solari::writer::write(&sample());
    let broken = |change: &dyn Fn(&mut Artifact)| {
        let mut files = whole.clone();
        change(&mut files);
        open(&files).err()
    };
    assert_eq!(broken(&|f| f.manifest.truncate(15)), Some(OpenError::Damaged));
    assert_eq!(broken(&|f| f.manifest.truncate(72)), Some(OpenError::Damaged));
    assert_eq!(broken(&|f| f.manifest.clear()), Some(OpenError::Damaged));
    assert_eq!(broken(&|f| f.stops.truncate(100)), Some(OpenError::Damaged));
    assert_eq!(broken(&|f| f.stops.extend_from_slice(&[0u8; 72])), Some(OpenError::Damaged));
    assert_eq!(broken(&|f| f.strings.truncate(20)), Some(OpenError::Damaged));
    assert_eq!(broken(&|f| f.strings[16] = 0xff), Some(OpenError::Damaged));
    assert_eq!(broken(&|f| f.calendar.truncate(5)), Some(OpenError::Damaged));
    assert_eq!(broken(&|f| f.stop_times.truncate(60)), Some(OpenError::Damaged));
    assert_eq!(broken(&|f| f.pattern_trips.clear()), Some(OpenError::Damaged));
    assert_eq!(broken(&|f| f.transfers.truncate(8)), Some(OpenError::Damaged));
    assert_eq!(broken(&|f| f.transfer_offsets.truncate(24)), Some(OpenError::Damaged));
    assert_eq!(broken(&|f| f.manifest[7 * 8 + 2] = 1), Some(OpenError::Damaged));
    assert_eq!(broken(&|f| f.manifest[6 * 8 + 4] = 1), Some(OpenError::Damaged));
    // A stop that is its own parent flag of 2.
    assert_eq!(broken(&|f| f.stops[3 * 8] = 2), Some(OpenError::Damaged));
    // A route type beyond 16 bits.
    assert_eq!(broken(&|f| f.routes[2] = 1), Some(OpenError::Damaged));
    assert!(open(&whole).is_ok());
}

#[test]
fn readable_files_that_break_the_rules_are_refused() {
    let whole = solari::writer::write(&sample());
    // A walk from stop 0 to itself.
    let mut to_itself = whole.clone();
    to_itself.transfers[0] = 0;
    assert_eq!(open(&to_itself).err(), Some(OpenError::Damaged));
    // Times that run backwards.
    let mut backwards = whole.clone();
    backwards.stop_times[0] = 200;
    assert_eq!(open(&backwards).err(), Some(OpenError::Damaged));
    // A latitude off the globe.
    let mut off_globe = whole.clone();
    off_globe.stops[9 * 8 + 8 + 7] = 0xff;
    assert_eq!(open(&off_globe).err(), Some(OpenError::Damaged));
    // A pattern whose trips stand in the wrong order.
    let mut swapped = whole.clone();
    swapped.pattern_trips.copy_within(0..4, 8);
    assert!(open(&swapped).is_err());
}

#[test]
fn integers_are_stored_lowest_byte_first() {
    let mut file = Vec::new();
    push_cell(&mut file, 0x0102_0304_0506_0708);
    push_cell(&mut file, u64::MAX);
    assert_eq!(file[0..8], [8, 7, 6, 5, 4, 3, 2, 1]);
    assert_eq!(cell_count(&file), 2);
    assert_eq!(get_cell(&file, 0), 0x0102_0304_0506_0708);
    assert_eq!(get_cell(&file, 1), u64::MAX);
    let mut words = Vec::new();
    push_word(&mut words, 0x0a0b_0c0d);
    push_word(&mut words, 7);
    assert_eq!(words, vec![0x0d, 0x0c, 0x0b, 0x0a, 7, 0, 0, 0]);
    assert_eq!(word_count(&words), 2);
    assert_eq!(get_word(&words, 0), 0x0a0b_0c0d);
    assert_eq!(get_word(&words, 1), 7);
    assert_eq!(cell_count(&vec![0u8; 15]), 1);
}

#[test]
fn signed_integers_are_stored_above_2_to_the_63() {
    assert_eq!(bias(0), 0x8000_0000_0000_0000);
    assert_eq!(bias(i64::MIN), 0);
    assert_eq!(bias(i64::MAX), u64::MAX);
    assert_eq!(bias(-1), 0x7fff_ffff_ffff_ffff);
    assert_eq!(unbias(0), i64::MIN);
    assert_eq!(unbias(u64::MAX), i64::MAX);
    assert_eq!(unbias(bias(-33_900_000_000)), -33_900_000_000);
}

#[test]
fn products_are_held_against_limits_without_overflow() {
    assert!(product_within(3, 4, 12));
    assert!(!product_within(3, 4, 11));
    assert!(!product_within(usize::MAX, usize::MAX, usize::MAX));
    assert!(product_within(usize::MAX, 1, usize::MAX));
    assert!(product_within(0, usize::MAX, 0));
    assert!(holds_records(18, 9, 2));
    assert!(!holds_records(18, 9, 3));
    assert!(!holds_records(0, 9, u64::MAX));
    assert!(holds_records(0, 9, 0));
}

#[test]
fn each_text_is_written_once() {
    let files = solari::writer::write(&sample());
    let count = |needle: &[u8]| files.strings.windows(needle.len()).filter(|w| *w == needle).count();
    assert_eq!(count(b"North"), 1);
    assert_eq!(count(b"Metro"), 1);
    let mut strings = Vec::new();
    let mut seen = HashMap::new();
    let first = put_text_once(&mut strings, &mut seen, "Alder");
    let second = put_text_once(&mut strings, &mut seen, "Birch");
    let again = put_text_once(&mut strings, &mut seen, "Alder");
    assert_eq!(first, TextRef { off: 0, len: 5 });
    assert_eq!(second, TextRef { off: 5, len: 5 });
    assert_eq!(again, first);
    assert_eq!(strings, b"AlderBirch".to_vec());
    assert!(holds_bytes(&strings, second, b"Birch"));
    assert!(!holds_bytes(&strings, second, b"Alder"));
    assert!(!holds_bytes(&strings, TextRef { off: 6, len: 5 }, b"Birch"));
    assert!(!holds_bytes(&strings, TextRef { off: u64::MAX, len: 5 }, b"Birch"));
}

#[test]
fn text_is_read_from_where_it_was_put() {
    let mut strings = Vec::new();
    let first = put_text(&mut strings, "Älder");
    let second = put_text(&mut strings, "");
    let third = put_text(&mut strings, "Birch");
    assert_eq!((first.off, first.len), (0, 6));
    assert_eq!((second.off, second.len), (6, 0));
    assert_eq!((third.off, third.len), (6, 5));
    assert_eq!(read_text(&strings, 0, 6), Some("Älder".to_string()));
    assert_eq!(read_text(&strings, 6, 0), Some(String::new()));
    assert_eq!(read_text(&strings, 6, 5), Some("Birch".to_string()));
    assert_eq!(read_text(&strings, 1, 5), None);
    assert_eq!(read_text(&strings, 7, 5), None);
    assert_eq!(read_text(&strings, u64::MAX, 1), None);
    assert_eq!(read_text(&strings, 11, 0), Some(String::new()));
}
