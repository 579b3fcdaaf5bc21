//! Opens the files of a compiled timetable.

use crate::artifact::{
    opened, pattern_in, route_in, sound, span_in, stop_in, text_in, times_in, transfers_in, trip_in,
    walks_in, Artifact, OpenError, MAGIC, MANIFEST_CELLS, PATTERN_CELLS, ROUTE_CELLS, STOP_CELLS,
    TRIP_CELLS, VERSION,
};
use crate::layout::{
    cell_count, cells, get_cell, get_word, holds_records, product_within, unbias, word_count,
    words,
};
use crate::timetable::{Calendar, Pattern, Route, Stop, StopTime, Timetable, Transfer, Trip};
use crate::view::lemma_wf_by_view;
use vstd::prelude::*;
use vstd::slice::{slice_subrange, slice_to_vec};
use vstd::utf8::{decode_utf8, valid_utf8};

verus! {

/// Makes a string of bytes with `String::from_utf8`, which takes exactly
/// the bytes that are UTF-8 and gives the text that they encode.
#[verifier::external_body]
pub(crate) fn text_from_utf8(bytes: Vec<u8>) -> (r: Option<String>)
    ensures
        r is Some <==> valid_utf8(bytes@),
        r matches Some(s) ==> s@ == decode_utf8(bytes@),
{
    String::from_utf8(bytes).ok()
}

/// What was read is what the files hold.
pub open spec fn read_as<A: View>(got: Option<A>, held: Option<A::V>) -> bool {
    match held {
        Some(v) => got matches Some(x) && x@ == v,
        None => got is None,
    }
}

/// Reads [`text_in`].
pub fn read_text(strings: &Vec<u8>, off: u64, len: u64) -> (r: Option<String>)
    ensures
        read_as(r, text_in(strings@, off, len)),
{
    if off as u128 + len as u128 > strings.len() as u128 {
        return None;
    }
    let bytes = slice_to_vec(
        slice_subrange(strings.as_slice(), off as usize, (off + len) as usize),
    );
    text_from_utf8(bytes)
}

/// Reads [`span_in`].
pub fn read_span(file: &Vec<u8>, first: u64, count: u64) -> (r: Option<Vec<u32>>)
    ensures
        read_as(r, span_in(words(file@), first, count)),
{
    if first as u128 + count as u128 > word_count(file) as u128 {
        return None;
    }
    let start = first as usize;
    let n = count as usize;
    let mut out: Vec<u32> = Vec::new();
    let mut j: usize = 0;
    while j < n
        invariant
            j <= n,
            start + n <= words(file@).len() <= usize::MAX,
            out@ == words(file@).subrange(start as int, start + j),
        decreases n - j,
    {
        out.push(get_word(file, start + j));
        assert(out@ =~= words(file@).subrange(start as int, start + j + 1));
        j += 1;
    }
    Some(out)
}

/// Reads [`times_in`].
pub fn read_times(file: &Vec<u8>, first: u64, count: u64) -> (r: Option<Vec<StopTime>>)
    ensures
        read_as(r, times_in(words(file@), first, count)),
{
    if 2 * (first as u128 + count as u128) > word_count(file) as u128 {
        return None;
    }
    let start = first as usize;
    let n = count as usize;
    let mut out: Vec<StopTime> = Vec::new();
    let mut j: usize = 0;
    while j < n
        invariant
            j <= n,
            2 * (start + n) <= words(file@).len() <= usize::MAX,
            out@.len() == j,
            forall|k: int|
                0 <= k < j ==> (#[trigger] out@[k]) == (StopTime {
                    arrival: words(file@)[2 * (start + k)],
                    departure: words(file@)[2 * (start + k) + 1],
                }),
        decreases n - j,
    {
        let arrival = get_word(file, 2 * (start + j));
        let departure = get_word(file, 2 * (start + j) + 1);
        out.push(StopTime { arrival, departure });
        j += 1;
    }
    assert(out@ =~= times_in(words(file@), first, count).unwrap());
    Some(out)
}

/// Reads [`walks_in`].
pub fn read_walks(file: &Vec<u8>, first: u64, end: u64) -> (r: Option<Vec<Transfer>>)
    ensures
        read_as(r, walks_in(words(file@), first, end)),
{
    if first > end || 2 * (end as u128) > word_count(file) as u128 {
        return None;
    }
    let start = first as usize;
    let n = (end - first) as usize;
    let mut out: Vec<Transfer> = Vec::new();
    let mut j: usize = 0;
    while j < n
        invariant
            j <= n,
            2 * (start + n) <= words(file@).len() <= usize::MAX,
            out@.len() == j,
            forall|k: int|
                0 <= k < j ==> (#[trigger] out@[k]) == (Transfer {
                    to: words(file@)[2 * (start + k)],
                    seconds: words(file@)[2 * (start + k) + 1],
                }),
        decreases n - j,
    {
        let to = get_word(file, 2 * (start + j));
        let seconds = get_word(file, 2 * (start + j) + 1);
        out.push(Transfer { to, seconds });
        j += 1;
    }
    assert(out@ =~= walks_in(words(file@), first, end).unwrap());
    Some(out)
}

/// Reads [`stop_in`].
pub fn read_stop(stops: &Vec<u8>, strings: &Vec<u8>, i: usize) -> (r: Option<Stop>)
    requires
        STOP_CELLS * (i + 1) <= cells(stops@).len(),
    ensures
        read_as(r, stop_in(cells(stops@), strings@, i as int)),
{
    let total = cell_count(stops);
    let at = STOP_CELLS * i;
    let ghost rec = cells(stops@).subrange(STOP_CELLS * i, STOP_CELLS * i + STOP_CELLS);
    let id = get_cell(stops, at);
    let lat = get_cell(stops, at + 1);
    let lon = get_cell(stops, at + 2);
    let has_parent = get_cell(stops, at + 3);
    let parent = get_cell(stops, at + 4);
    let code = read_text(strings, get_cell(stops, at + 5), get_cell(stops, at + 6));
    let name = read_text(strings, get_cell(stops, at + 7), get_cell(stops, at + 8));
    assert(rec[0] == id && rec[1] == lat && rec[2] == lon && rec[3] == has_parent && rec[4]
        == parent);
    assert(rec[5] == cells(stops@)[at + 5] && rec[6] == cells(stops@)[at + 6] && rec[7] == cells(
        stops@,
    )[at + 7] && rec[8] == cells(stops@)[at + 8]);
    match (code, name) {
        (Some(code), Some(name)) => {
            if has_parent <= 1 {
                Some(
                    Stop {
                        id,
                        code,
                        name,
                        lat: unbias(lat),
                        lon: unbias(lon),
                        parent: if has_parent == 1 {
                            Some(parent)
                        } else {
                            None
                        },
                    },
                )
            } else {
                None
            }
        },
        _ => None,
    }
}

/// Reads [`route_in`].
pub fn read_route(routes: &Vec<u8>, strings: &Vec<u8>, i: usize) -> (r: Option<Route>)
    requires
        ROUTE_CELLS * (i + 1) <= cells(routes@).len(),
    ensures
        read_as(r, route_in(cells(routes@), strings@, i as int)),
{
    let total = cell_count(routes);
    let at = ROUTE_CELLS * i;
    let ghost rec = cells(routes@).subrange(ROUTE_CELLS * i, ROUTE_CELLS * i + ROUTE_CELLS);
    let route_type = get_cell(routes, at);
    let agency = read_text(strings, get_cell(routes, at + 1), get_cell(routes, at + 2));
    let short_name = read_text(strings, get_cell(routes, at + 3), get_cell(routes, at + 4));
    let long_name = read_text(strings, get_cell(routes, at + 5), get_cell(routes, at + 6));
    assert(rec[0] == route_type && rec[1] == cells(routes@)[at + 1] && rec[2] == cells(routes@)[at
        + 2] && rec[3] == cells(routes@)[at + 3] && rec[4] == cells(routes@)[at + 4] && rec[5]
        == cells(routes@)[at + 5] && rec[6] == cells(routes@)[at + 6]);
    match (agency, short_name, long_name) {
        (Some(agency), Some(short_name), Some(long_name)) => {
            if route_type <= u16::MAX as u64 {
                Some(Route { agency, short_name, long_name, route_type: route_type as u16 })
            } else {
                None
            }
        },
        _ => None,
    }
}

/// Reads [`trip_in`].
pub fn read_trip(a: &Artifact, width: usize, i: usize) -> (r: Option<Trip>)
    requires
        TRIP_CELLS * (i + 1) <= cells(a.trips@).len(),
    ensures
        read_as(
            r,
            trip_in(
                cells(a.trips@),
                words(a.trip_stops@),
                words(a.stop_times@),
                a.calendar@,
                a.strings@,
                width as int,
                i as int,
            ),
        ),
{
    let total = cell_count(&a.trips);
    let at = TRIP_CELLS * i;
    let ghost rec = cells(a.trips@).subrange(TRIP_CELLS * i, TRIP_CELLS * i + TRIP_CELLS);
    let id = get_cell(&a.trips, at);
    let route = get_cell(&a.trips, at + 1);
    let headsign = read_text(&a.strings, get_cell(&a.trips, at + 2), get_cell(&a.trips, at + 3));
    let first = get_cell(&a.trips, at + 4);
    let count = get_cell(&a.trips, at + 5);
    let stops = read_span(&a.trip_stops, first, count);
    let times = read_times(&a.stop_times, first, count);
    assert(rec[0] == id && rec[1] == route && rec[2] == cells(a.trips@)[at + 2] && rec[3] == cells(
        a.trips@,
    )[at + 3] && rec[4] == first && rec[5] == count);
    match (headsign, stops, times) {
        (Some(headsign), Some(stops), Some(times)) => {
            let within = product_within(width, i + 1, a.calendar.len());
            if route <= u32::MAX as u64 && within {
                assert(width * i <= width * (i + 1)) by (nonlinear_arith)
                    requires
                        0 <= width,
                        0 <= i,
                ;
                let days = slice_to_vec(
                    slice_subrange(a.calendar.as_slice(), width * i, width * (i + 1)),
                );
                Some(Trip { id, route: route as u32, headsign, days, stops, times })
            } else {
                None
            }
        },
        _ => None,
    }
}

/// Reads [`pattern_in`].
pub fn read_pattern(a: &Artifact, i: usize) -> (r: Option<Pattern>)
    requires
        PATTERN_CELLS * (i + 1) <= cells(a.patterns@).len(),
    ensures
        read_as(
            r,
            pattern_in(
                cells(a.patterns@),
                words(a.pattern_stops@),
                words(a.pattern_trips@),
                i as int,
            ),
        ),
{
    let total = cell_count(&a.patterns);
    let at = PATTERN_CELLS * i;
    let ghost rec = cells(a.patterns@).subrange(
        PATTERN_CELLS * i,
        PATTERN_CELLS * i + PATTERN_CELLS,
    );
    let lane = get_cell(&a.patterns, at);
    let stops = read_span(&a.pattern_stops, get_cell(&a.patterns, at + 1), get_cell(&a.patterns, at + 2));
    let trips = read_span(&a.pattern_trips, get_cell(&a.patterns, at + 3), get_cell(&a.patterns, at + 4));
    assert(rec[0] == lane && rec[1] == cells(a.patterns@)[at + 1] && rec[2] == cells(
        a.patterns@,
    )[at + 2] && rec[3] == cells(a.patterns@)[at + 3] && rec[4] == cells(a.patterns@)[at + 4]);
    match (stops, trips) {
        (Some(stops), Some(trips)) => {
            if lane <= u32::MAX as u64 {
                Some(Pattern { stops, lane: lane as u32, trips })
            } else {
                None
            }
        },
        _ => None,
    }
}

/// Reads [`transfers_in`].
pub fn read_transfers(a: &Artifact, s: usize) -> (r: Option<Vec<Transfer>>)
    requires
        s + 1 < cells(a.transfer_offsets@).len(),
    ensures
        read_as(r, transfers_in(cells(a.transfer_offsets@), words(a.transfers@), s as int)),
{
    let total = cell_count(&a.transfer_offsets);
    read_walks(&a.transfers, get_cell(&a.transfer_offsets, s), get_cell(&a.transfer_offsets, s + 1))
}

/// Reads the table of stops; none where a record cannot be read.
fn read_stops(a: &Artifact, n: usize) -> (r: Option<Vec<Stop>>)
    requires
        cells(a.stops@).len() == STOP_CELLS * n,
    ensures
        r matches Some(v) ==> v@.len() == n && forall|i: int|
            0 <= i < n ==> a@.stop(i) == Some((#[trigger] v@[i])@),
        r is None ==> exists|i: int| 0 <= i < n && (#[trigger] a@.stop(i)) is None,
{
    let mut out: Vec<Stop> = Vec::new();
    let mut i: usize = 0;
    while i < n
        invariant
            i <= n,
            cells(a.stops@).len() == STOP_CELLS * n,
            out@.len() == i,
            forall|k: int| 0 <= k < i ==> a@.stop(k) == Some((#[trigger] out@[k])@),
        decreases n - i,
    {
        match read_stop(&a.stops, &a.strings, i) {
            Some(stop) => {
                out.push(stop);
            },
            None => {
                assert(a@.stop(i as int) is None);
                return None;
            },
        }
        i += 1;
    }
    Some(out)
}

/// Reads the table of routes; none where a record cannot be read.
fn read_routes(a: &Artifact, n: usize) -> (r: Option<Vec<Route>>)
    requires
        cells(a.routes@).len() == ROUTE_CELLS * n,
    ensures
        r matches Some(v) ==> v@.len() == n && forall|i: int|
            0 <= i < n ==> a@.route(i) == Some((#[trigger] v@[i])@),
        r is None ==> exists|i: int| 0 <= i < n && (#[trigger] a@.route(i)) is None,
{
    let mut out: Vec<Route> = Vec::new();
    let mut i: usize = 0;
    while i < n
        invariant
            i <= n,
            cells(a.routes@).len() == ROUTE_CELLS * n,
            out@.len() == i,
            forall|k: int| 0 <= k < i ==> a@.route(k) == Some((#[trigger] out@[k])@),
        decreases n - i,
    {
        match read_route(&a.routes, &a.strings, i) {
            Some(route) => {
                out.push(route);
            },
            None => {
                assert(a@.route(i as int) is None);
                return None;
            },
        }
        i += 1;
    }
    Some(out)
}

/// Reads the table of trips; none where a record cannot be read.
fn read_trips(a: &Artifact, width: usize, n: usize) -> (r: Option<Vec<Trip>>)
    requires
        cells(a.trips@).len() == TRIP_CELLS * n,
        width == a@.width(),
    ensures
        r matches Some(v) ==> v@.len() == n && forall|i: int|
            0 <= i < n ==> a@.trip(i) == Some((#[trigger] v@[i])@),
        r is None ==> exists|i: int| 0 <= i < n && (#[trigger] a@.trip(i)) is None,
{
    let mut out: Vec<Trip> = Vec::new();
    let mut i: usize = 0;
    while i < n
        invariant
            i <= n,
            cells(a.trips@).len() == TRIP_CELLS * n,
            width == a@.width(),
            out@.len() == i,
            forall|k: int| 0 <= k < i ==> a@.trip(k) == Some((#[trigger] out@[k])@),
        decreases n - i,
    {
        match read_trip(a, width, i) {
            Some(trip) => {
                out.push(trip);
            },
            None => {
                assert(a@.trip(i as int) is None);
                return None;
            },
        }
        i += 1;
    }
    Some(out)
}

/// Reads the table of patterns; none where a record cannot be read.
fn read_patterns(a: &Artifact, n: usize) -> (r: Option<Vec<Pattern>>)
    requires
        cells(a.patterns@).len() == PATTERN_CELLS * n,
    ensures
        r matches Some(v) ==> v@.len() == n && forall|i: int|
            0 <= i < n ==> a@.pattern(i) == Some((#[trigger] v@[i])@),
        r is None ==> exists|i: int| 0 <= i < n && (#[trigger] a@.pattern(i)) is None,
{
    let mut out: Vec<Pattern> = Vec::new();
    let mut i: usize = 0;
    while i < n
        invariant
            i <= n,
            cells(a.patterns@).len() == PATTERN_CELLS * n,
            out@.len() == i,
            forall|k: int| 0 <= k < i ==> a@.pattern(k) == Some((#[trigger] out@[k])@),
        decreases n - i,
    {
        match read_pattern(a, i) {
            Some(pattern) => {
                out.push(pattern);
            },
            None => {
                assert(a@.pattern(i as int) is None);
                return None;
            },
        }
        i += 1;
    }
    Some(out)
}

/// Reads the table of walks; none where a list cannot be read.
fn read_table(a: &Artifact, n: usize) -> (r: Option<Vec<Vec<Transfer>>>)
    requires
        cells(a.transfer_offsets@).len() == n + 1,
    ensures
        r matches Some(v) ==> v@.len() == n && forall|i: int|
            0 <= i < n ==> a@.walks(i) == Some((#[trigger] v@[i])@),
        r is None ==> exists|i: int| 0 <= i < n && (#[trigger] a@.walks(i)) is None,
{
    let mut out: Vec<Vec<Transfer>> = Vec::new();
    let mut i: usize = 0;
    while i < n
        invariant
            i <= n,
            cells(a.transfer_offsets@).len() == n + 1,
            out@.len() == i,
            forall|k: int| 0 <= k < i ==> a@.walks(k) == Some((#[trigger] out@[k])@),
        decreases n - i,
    {
        match read_transfers(a, i) {
            Some(list) => {
                out.push(list);
            },
            None => {
                assert(a@.walks(i as int) is None);
                return None;
            },
        }
        i += 1;
    }
    Some(out)
}

/// Reads the tables that the manifest counts; none where the files are
/// not [`crate::artifact::Tables::readable`].
#[verifier::rlimit(50)]
fn read_tables(a: &Artifact) -> (r: Option<Timetable>)
    requires
        a@.marked(),
    ensures
        r matches Some(tt) ==> a@.readable() && tt@ == a@.value(),
        r is None ==> !a@.readable(),
{
    if cell_count(&a.manifest) != MANIFEST_CELLS {
        return None;
    }
    let n_stops = get_cell(&a.manifest, 2);
    let n_routes = get_cell(&a.manifest, 3);
    let n_trips = get_cell(&a.manifest, 4);
    let n_patterns = get_cell(&a.manifest, 5);
    let first_day = get_cell(&a.manifest, 6);
    let num_days = get_cell(&a.manifest, 7);
    let offsets = cell_count(&a.transfer_offsets);
    if first_day > u32::MAX as u64 || num_days > u16::MAX as u64 || !holds_records(
        cell_count(&a.stops),
        STOP_CELLS,
        n_stops,
    ) || !holds_records(cell_count(&a.routes), ROUTE_CELLS, n_routes) || !holds_records(
        cell_count(&a.trips),
        TRIP_CELLS,
        n_trips,
    ) || !holds_records(cell_count(&a.patterns), PATTERN_CELLS, n_patterns) || offsets as u128
        != n_stops as u128 + 1 {
        return None;
    }
    let tiles = match read_text(&a.strings, get_cell(&a.manifest, 8), get_cell(&a.manifest, 9)) {
        Some(tiles) => tiles,
        None => {
            return None;
        },
    };
    assert(a@.counted());
    let width = (num_days as usize + 7) / 8;
    let stops = match read_stops(a, n_stops as usize) {
        Some(v) => v,
        None => {
            return None;
        },
    };
    let routes = match read_routes(a, n_routes as usize) {
        Some(v) => v,
        None => {
            return None;
        },
    };
    let trips = match read_trips(a, width, n_trips as usize) {
        Some(v) => v,
        None => {
            return None;
        },
    };
    let patterns = match read_patterns(a, n_patterns as usize) {
        Some(v) => v,
        None => {
            return None;
        },
    };
    let transfers = match read_table(a, n_stops as usize) {
        Some(v) => v,
        None => {
            return None;
        },
    };
    let calendar = Calendar {
        start_day: (first_day as i64 - 0x8000_0000) as i32,
        num_days: num_days as u16,
    };
    let tt = Timetable { stops, routes, trips, patterns, transfers, calendar, valhalla_tiles: tiles };
    proof {
        let v = a@.value();
        assert forall|i: int| 0 <= i < a@.n_stops() implies (#[trigger] a@.stop(i)) is Some by {
            assert(a@.stop(i) == Some(tt.stops@[i]@));
        }
        assert forall|i: int| 0 <= i < a@.n_routes() implies (#[trigger] a@.route(i)) is Some by {
            assert(a@.route(i) == Some(tt.routes@[i]@));
        }
        assert forall|i: int| 0 <= i < a@.n_trips() implies (#[trigger] a@.trip(i)) is Some by {
            assert(a@.trip(i) == Some(tt.trips@[i]@));
        }
        assert forall|i: int| 0 <= i < a@.n_patterns() implies (#[trigger] a@.pattern(i)) is Some by {
            assert(a@.pattern(i) == Some(tt.patterns@[i]@));
        }
        assert forall|i: int| 0 <= i < a@.n_stops() implies (#[trigger] a@.walks(i)) is Some by {
            assert(a@.walks(i) == Some(tt.transfers@[i]@));
        }
        assert(a@.readable());
        assert(tt@.stops =~= v.stops);
        assert(tt@.routes =~= v.routes);
        assert(tt@.trips =~= v.trips);
        assert(tt@.patterns =~= v.patterns);
        assert(tt@.transfers =~= v.transfers);
        assert(tt@.calendar == v.calendar);
        assert(tt@.valhalla_tiles == v.valhalla_tiles);
    }
    Some(tt)
}

/// Opens the files of a compiled timetable.
///
/// Files that cannot be opened give their [`crate::artifact::Tables::fault`]:
/// a manifest without the magic number or of another version, files that
/// are not readable, or tables that break the rules of a timetable. Any
/// other files give the well-formed timetable that they hold.
#[verifier::rlimit(50)]
pub fn open(a: &Artifact) -> (r: Result<Timetable, OpenError>)
    ensures
        opened(a, r),
{
    if cell_count(&a.manifest) < 2 {
        return Err(OpenError::Damaged);
    }
    if get_cell(&a.manifest, 0) != MAGIC {
        return Err(OpenError::BadMagic);
    }
    if get_cell(&a.manifest, 1) != VERSION {
        return Err(OpenError::BadVersion);
    }
    match read_tables(a) {
        Some(tt) => {
            if tt.check() {
                assert(sound(a@.value()));
                Ok(tt)
            } else {
                proof {
                    if sound(a@.value()) {
                        let other = choose|other: Timetable|
                            other@ == a@.value() && #[trigger] other.wf();
                        lemma_wf_by_view(&other, &tt);
                    }
                }
                Err(OpenError::Damaged)
            }
        },
        None => Err(OpenError::Damaged),
    }
}

} // verus!
