//! The files of a compiled timetable, and what they mean.
//!
//! Each table is a file of fixed-width records of 64-bit integers. Lists of
//! varying length lie in files of their own and are referred to by place
//! and length: stop indices, times and walks in files of 32-bit integers,
//! text in one file of UTF-8 bytes, and the days of the trips in a file of
//! bitmaps of equal width. All integers are stored lowest byte first.

use crate::layout::{cells, unbiased, words};
use crate::timetable::{bitmap_len, Calendar, StopTime, Timetable, Transfer};
use crate::view::{PatternView, RouteView, StopView, TimetableView, TripView};
use vstd::prelude::*;
use vstd::utf8::{decode_utf8, valid_utf8};

verus! {

/// The number that marks a manifest.
pub const MAGIC: u64 = 0x5454_4952_414c_4f53;

/// The version of the layout that this library reads and writes.
pub const VERSION: u64 = 1;

/// The 64-bit integers of a manifest.
pub const MANIFEST_CELLS: usize = 10;

/// The 64-bit integers of the record of a stop.
pub const STOP_CELLS: usize = 9;

/// The 64-bit integers of the record of a route.
pub const ROUTE_CELLS: usize = 7;

/// The 64-bit integers of the record of a trip.
pub const TRIP_CELLS: usize = 6;

/// The 64-bit integers of the record of a pattern.
pub const PATTERN_CELLS: usize = 5;

/// The files of a compiled timetable, each as its bytes.
#[derive(Debug, Clone)]
pub struct Artifact {
    pub manifest: Vec<u8>,
    pub stops: Vec<u8>,
    pub routes: Vec<u8>,
    pub patterns: Vec<u8>,
    pub pattern_stops: Vec<u8>,
    pub pattern_trips: Vec<u8>,
    pub trips: Vec<u8>,
    pub trip_stops: Vec<u8>,
    pub stop_times: Vec<u8>,
    pub calendar: Vec<u8>,
    pub transfers: Vec<u8>,
    pub transfer_offsets: Vec<u8>,
    pub strings: Vec<u8>,
}

/// The files of a compiled timetable, each as the array of integers that
/// it holds.
pub struct Tables {
    pub manifest: Seq<u64>,
    pub stops: Seq<u64>,
    pub routes: Seq<u64>,
    pub patterns: Seq<u64>,
    pub pattern_stops: Seq<u32>,
    pub pattern_trips: Seq<u32>,
    pub trips: Seq<u64>,
    pub trip_stops: Seq<u32>,
    pub stop_times: Seq<u32>,
    pub calendar: Seq<u8>,
    pub transfers: Seq<u32>,
    pub transfer_offsets: Seq<u64>,
    pub strings: Seq<u8>,
}

impl View for Artifact {
    type V = Tables;

    open spec fn view(&self) -> Tables {
        Tables {
            manifest: cells(self.manifest@),
            stops: cells(self.stops@),
            routes: cells(self.routes@),
            patterns: cells(self.patterns@),
            pattern_stops: words(self.pattern_stops@),
            pattern_trips: words(self.pattern_trips@),
            trips: cells(self.trips@),
            trip_stops: words(self.trip_stops@),
            stop_times: words(self.stop_times@),
            calendar: self.calendar@,
            transfers: words(self.transfers@),
            transfer_offsets: cells(self.transfer_offsets@),
            strings: self.strings@,
        }
    }
}

/// The text of `len` bytes at place `off` of the file of text; none where
/// the file ends before, or the bytes are no UTF-8.
pub open spec fn text_in(strings: Seq<u8>, off: u64, len: u64) -> Option<Seq<char>> {
    if off + len <= strings.len() && valid_utf8(strings.subrange(off as int, off + len)) {
        Some(decode_utf8(strings.subrange(off as int, off + len)))
    } else {
        None
    }
}

/// The `count` integers from place `first` on; none where the file ends
/// before.
pub open spec fn span_in(file: Seq<u32>, first: u64, count: u64) -> Option<Seq<u32>> {
    if first + count <= file.len() {
        Some(file.subrange(first as int, first + count))
    } else {
        None
    }
}

/// The `count` pairs of times from pair `first` on; none where the file
/// ends before.
pub open spec fn times_in(file: Seq<u32>, first: u64, count: u64) -> Option<Seq<StopTime>> {
    if 2 * (first + count) <= file.len() {
        Some(
            Seq::new(
                count as nat,
                |j: int|
                    StopTime { arrival: file[2 * (first + j)], departure: file[2 * (first + j) + 1] },
            ),
        )
    } else {
        None
    }
}

/// The walks from pair `first` to before pair `end`; none where the pairs
/// run backwards or the file ends before.
pub open spec fn walks_in(file: Seq<u32>, first: u64, end: u64) -> Option<Seq<Transfer>> {
    if first <= end && 2 * end <= file.len() {
        Some(
            Seq::new(
                (end - first) as nat,
                |j: int| Transfer { to: file[2 * (first + j)], seconds: file[2 * (first + j) + 1] },
            ),
        )
    } else {
        None
    }
}

/// The stop of record `i`: its id, its latitude and longitude as the
/// numbers 2^63 above them, whether it has a parent, the parent, and where
/// its code and its name lie in the file of text.
pub open spec fn stop_in(stops: Seq<u64>, strings: Seq<u8>, i: int) -> Option<StopView> {
    let r = stops.subrange(STOP_CELLS * i, STOP_CELLS * i + STOP_CELLS);
    match (text_in(strings, r[5], r[6]), text_in(strings, r[7], r[8])) {
        (Some(code), Some(name)) => if r[3] <= 1 {
            Some(
                StopView {
                    id: r[0],
                    code,
                    name,
                    lat: unbiased(r[1]),
                    lon: unbiased(r[2]),
                    parent: if r[3] == 1 {
                        Some(r[4])
                    } else {
                        None
                    },
                },
            )
        } else {
            None
        },
        _ => None,
    }
}

/// The route of record `i`: its type, and where the agency, the short name
/// and the long name lie in the file of text.
pub open spec fn route_in(routes: Seq<u64>, strings: Seq<u8>, i: int) -> Option<RouteView> {
    let r = routes.subrange(ROUTE_CELLS * i, ROUTE_CELLS * i + ROUTE_CELLS);
    match (text_in(strings, r[1], r[2]), text_in(strings, r[3], r[4]), text_in(strings, r[5], r[6])) {
        (Some(agency), Some(short_name), Some(long_name)) => if r[0] <= u16::MAX {
            Some(RouteView { agency, short_name, long_name, route_type: r[0] as u16 })
        } else {
            None
        },
        _ => None,
    }
}

/// The trip of record `i`: its id, its route, where its headsign lies in
/// the file of text, and the place and number of its stops and times. Its
/// days are bitmap `i` of the calendar, `width` bytes wide.
pub open spec fn trip_in(
    trips: Seq<u64>,
    trip_stops: Seq<u32>,
    stop_times: Seq<u32>,
    calendar: Seq<u8>,
    strings: Seq<u8>,
    width: int,
    i: int,
) -> Option<TripView> {
    let r = trips.subrange(TRIP_CELLS * i, TRIP_CELLS * i + TRIP_CELLS);
    match (text_in(strings, r[2], r[3]), span_in(trip_stops, r[4], r[5]), times_in(
        stop_times,
        r[4],
        r[5],
    )) {
        (Some(headsign), Some(stops), Some(times)) => if r[1] <= u32::MAX && width * (i + 1)
            <= calendar.len() {
            Some(
                TripView {
                    id: r[0],
                    route: r[1] as u32,
                    headsign,
                    days: calendar.subrange(width * i, width * (i + 1)),
                    stops,
                    times,
                },
            )
        } else {
            None
        },
        _ => None,
    }
}

/// The pattern of record `i`: its lane, and the place and number of its
/// stops and of its trips.
pub open spec fn pattern_in(
    patterns: Seq<u64>,
    pattern_stops: Seq<u32>,
    pattern_trips: Seq<u32>,
    i: int,
) -> Option<PatternView> {
    let r = patterns.subrange(PATTERN_CELLS * i, PATTERN_CELLS * i + PATTERN_CELLS);
    match (span_in(pattern_stops, r[1], r[2]), span_in(pattern_trips, r[3], r[4])) {
        (Some(stops), Some(trips)) => if r[0] <= u32::MAX {
            Some(PatternView { stops, lane: r[0] as u32, trips })
        } else {
            None
        },
        _ => None,
    }
}

/// The walks out of stop `s`: those between the offsets `s` and `s + 1`.
pub open spec fn transfers_in(offsets: Seq<u64>, transfers: Seq<u32>, s: int) -> Option<
    Seq<Transfer>,
> {
    walks_in(transfers, offsets[s], offsets[s + 1])
}

impl Tables {
    /// How many stops the manifest counts.
    pub open spec fn n_stops(self) -> int {
        self.manifest[2] as int
    }

    /// How many routes the manifest counts.
    pub open spec fn n_routes(self) -> int {
        self.manifest[3] as int
    }

    /// How many trips the manifest counts.
    pub open spec fn n_trips(self) -> int {
        self.manifest[4] as int
    }

    /// How many patterns the manifest counts.
    pub open spec fn n_patterns(self) -> int {
        self.manifest[5] as int
    }

    /// The calendar of the manifest; the first day is stored as the number
    /// 2^31 above it.
    pub open spec fn calendar_of(self) -> Calendar {
        Calendar {
            start_day: (self.manifest[6] - 0x8000_0000) as i32,
            num_days: self.manifest[7] as u16,
        }
    }

    /// The bytes of the bitmap of one trip.
    pub open spec fn width(self) -> int {
        bitmap_len(self.manifest[7] as int)
    }

    /// The stop of record `i`, if it can be read.
    pub open spec fn stop(self, i: int) -> Option<StopView> {
        stop_in(self.stops, self.strings, i)
    }

    /// The route of record `i`, if it can be read.
    pub open spec fn route(self, i: int) -> Option<RouteView> {
        route_in(self.routes, self.strings, i)
    }

    /// The trip of record `i`, if it can be read.
    pub open spec fn trip(self, i: int) -> Option<TripView> {
        trip_in(
            self.trips,
            self.trip_stops,
            self.stop_times,
            self.calendar,
            self.strings,
            self.width(),
            i,
        )
    }

    /// The pattern of record `i`, if it can be read.
    pub open spec fn pattern(self, i: int) -> Option<PatternView> {
        pattern_in(self.patterns, self.pattern_stops, self.pattern_trips, i)
    }

    /// The walks out of stop `s`, if they can be read.
    pub open spec fn walks(self, s: int) -> Option<Seq<Transfer>> {
        transfers_in(self.transfer_offsets, self.transfers, s)
    }

    /// The manifest starts with the magic number and the version.
    pub open spec fn marked(self) -> bool {
        &&& self.manifest.len() >= 2
        &&& self.manifest[0] == MAGIC
        &&& self.manifest[1] == VERSION
    }

    /// The manifest is whole, and each table holds as many records as the
    /// manifest counts.
    pub open spec fn counted(self) -> bool {
        &&& self.manifest.len() == MANIFEST_CELLS
        &&& self.manifest[6] <= u32::MAX
        &&& self.manifest[7] <= u16::MAX
        &&& self.stops.len() == STOP_CELLS * self.n_stops()
        &&& self.routes.len() == ROUTE_CELLS * self.n_routes()
        &&& self.trips.len() == TRIP_CELLS * self.n_trips()
        &&& self.patterns.len() == PATTERN_CELLS * self.n_patterns()
        &&& self.transfer_offsets.len() == self.n_stops() + 1
        &&& text_in(self.strings, self.manifest[8], self.manifest[9]) is Some
    }

    /// The files can be read: the manifest is marked and counts the
    /// tables, and every record refers to what its files hold.
    pub open spec fn readable(self) -> bool {
        &&& self.marked()
        &&& self.counted()
        &&& forall|i: int| 0 <= i < self.n_stops() ==> (#[trigger] self.stop(i)) is Some
        &&& forall|i: int| 0 <= i < self.n_routes() ==> (#[trigger] self.route(i)) is Some
        &&& forall|i: int| 0 <= i < self.n_trips() ==> (#[trigger] self.trip(i)) is Some
        &&& forall|i: int| 0 <= i < self.n_patterns() ==> (#[trigger] self.pattern(i)) is Some
        &&& forall|i: int| 0 <= i < self.n_stops() ==> (#[trigger] self.walks(i)) is Some
    }

    /// The timetable that readable files hold.
    pub open spec fn value(self) -> TimetableView {
        TimetableView {
            stops: Seq::new(self.n_stops() as nat, |i: int| self.stop(i).unwrap()),
            routes: Seq::new(self.n_routes() as nat, |i: int| self.route(i).unwrap()),
            trips: Seq::new(self.n_trips() as nat, |i: int| self.trip(i).unwrap()),
            patterns: Seq::new(self.n_patterns() as nat, |i: int| self.pattern(i).unwrap()),
            transfers: Seq::new(self.n_stops() as nat, |i: int| self.walks(i).unwrap()),
            calendar: self.calendar_of(),
            valhalla_tiles: text_in(self.strings, self.manifest[8], self.manifest[9]).unwrap(),
        }
    }
}

/// The content is that of a well-formed timetable.
pub open spec fn sound(v: TimetableView) -> bool {
    exists|tt: Timetable| tt@ == v && #[trigger] tt.wf()
}

/// Why files cannot be opened as a timetable.
#[derive(Debug, Clone, Copy, PartialEq, Eq, Structural)]
pub enum OpenError {
    /// The manifest does not start with the magic number.
    BadMagic,
    /// The manifest names another version of the layout.
    BadVersion,
    /// A file is cut short, a record refers to what its files do not hold,
    /// or the tables break the rules of a timetable.
    Damaged,
}

impl Tables {
    /// Why the files cannot be opened, if they cannot.
    pub open spec fn fault(self) -> Option<OpenError> {
        if self.manifest.len() < 2 {
            Some(OpenError::Damaged)
        } else if self.manifest[0] != MAGIC {
            Some(OpenError::BadMagic)
        } else if self.manifest[1] != VERSION {
            Some(OpenError::BadVersion)
        } else if !self.readable() || !sound(self.value()) {
            Some(OpenError::Damaged)
        } else {
            None
        }
    }
}

/// What [`crate::writer::write`] promises of the files that it makes of a
/// timetable.
pub open spec fn written(tt: &Timetable, a: &Artifact) -> bool {
    a@.readable() && a@.value() == tt@
}

/// What [`crate::reader::open`] promises of what it makes of files.
pub open spec fn opened(a: &Artifact, r: Result<Timetable, OpenError>) -> bool {
    match a@.fault() {
        Some(e) => r == Err::<Timetable, OpenError>(e),
        None => r matches Ok(tt) && tt@ == a@.value() && tt.wf(),
    }
}

/// Round trip: the files written of a well-formed timetable open as a
/// timetable of the same content.
pub proof fn lemma_round_trip(tt: &Timetable, a: &Artifact, r: Result<Timetable, OpenError>)
    requires
        tt.wf(),
        written(tt, a),
        opened(a, r),
    ensures
        r matches Ok(back) && back@ == tt@ && back.wf(),
{
    assert(sound(a@.value()));
}

} // verus!
