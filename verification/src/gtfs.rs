//! Reads the text files of a feed into rows.

use crate::feed::{AgencyRow, ExceptionRow, RouteRow, ServiceRow, StopTimeRow, TripRow};
use crate::fields::{
    date_of, degrees_of, parse_date, parse_degrees, parse_time, parse_uint, stable_id,
    stable_id_of, time_of, uint_of,
};
use crate::dates::{ce_days, epoch_day, since_epoch, Date};
use crate::reader::text_from_utf8;
use crate::timetable::Stop;
use vstd::prelude::*;
use vstd::utf8::{decode_utf8, encode_utf8, valid_utf8};

verus! {

/// The records into which the `csv` crate splits comma-separated text, each
/// with its fields; none where the crate reports an error.
pub uninterp spec fn csv_of(text: Seq<u8>) -> Option<Seq<Seq<Seq<u8>>>>;

/// The fields of a record, each as its bytes.
pub open spec fn fields_of(row: Vec<Vec<u8>>) -> Seq<Seq<u8>> {
    row@.map_values(|f: Vec<u8>| f@)
}

/// The records, each as its fields.
pub open spec fn records_of(rows: Seq<Vec<Vec<u8>>>) -> Seq<Seq<Seq<u8>>> {
    rows.map_values(|r: Vec<Vec<u8>>| fields_of(r))
}

/// Splits comma-separated text into records with a reader that
/// `csv::ReaderBuilder` makes without a header row and for records of any
/// length, and lists the fields of the records of `into_byte_records`. The
/// contract gives the result its name and claims nothing else of it.
#[verifier::external_body]
fn csv_records(text: &Vec<u8>) -> (r: Option<Vec<Vec<Vec<u8>>>>)
    ensures
        match csv_of(text@) {
            Some(rows) => r matches Some(v) && records_of(v@) == rows,
            None => r is None,
        },
{
    csv::ReaderBuilder::new().has_headers(false).flexible(true).from_reader(
        text.as_slice(),
    ).into_byte_records().map(|rec| rec.map(|r| r.iter().map(|f| f.to_vec()).collect())).collect::<
        Result<Vec<Vec<Vec<u8>>>, csv::Error>,
    >().ok()
}

/// A table of text: the names of its columns and its rows.
#[derive(Debug, Clone)]
pub struct Table {
    pub header: Vec<Vec<u8>>,
    pub rows: Vec<Vec<Vec<u8>>>,
}

/// Whether bytes start with the mark that some writers put at the start of
/// a UTF-8 file.
pub open spec fn marked(s: Seq<u8>) -> bool {
    s.len() >= 3 && s[0] == 0xef && s[1] == 0xbb && s[2] == 0xbf
}

/// The name of the first column without the mark at the start of the file.
pub open spec fn unmarked(s: Seq<u8>) -> Seq<u8> {
    if marked(s) {
        s.skip(3)
    } else {
        s
    }
}

/// The table that records make: the first record names the columns, the
/// others are the rows. No records make no table.
pub open spec fn table_of(records: Option<Seq<Seq<Seq<u8>>>>, t: Option<Table>) -> bool {
    match records {
        Some(all) => if all.len() > 0 {
            t matches Some(table) && fields_of(table.header) == (if all[0].len() > 0 {
                all[0].update(0, unmarked(all[0][0]))
            } else {
                all[0]
            }) && records_of(table.rows@) == all.skip(1)
        } else {
            t is None
        },
        None => t is None,
    }
}

/// Reads a table of comma-separated text.
pub fn read_table(text: &Vec<u8>) -> (t: Option<Table>)
    ensures
        table_of(csv_of(text@), t),
{
    let mut records = match csv_records(text) {
        Some(records) => records,
        None => {
            return None;
        },
    };
    if records.len() == 0 {
        return None;
    }
    let ghost all = records_of(records@);
    let mut header = records.remove(0);
    proof {
        assert(fields_of(header) == all[0]);
        assert(records_of(records@) =~= all.skip(1));
    }
    if header.len() > 0 && header[0].len() >= 3 && header[0][0] == 0xef && header[0][1] == 0xbb
        && header[0][2] == 0xbf {
        let ghost before = fields_of(header);
        let mut name: Vec<u8> = Vec::new();
        let mut i: usize = 3;
        while i < header[0].len()
            invariant
                3 <= i <= header@[0]@.len(),
                header@.len() > 0,
                name@ == header@[0]@.subrange(3, i as int),
            decreases header@[0]@.len() - i,
        {
            name.push(header[0][i]);
            assert(name@ =~= header@[0]@.subrange(3, i + 1));
            i += 1;
        }
        assert(marked(before[0]));
        assert(name@ =~= unmarked(before[0]));
        header[0] = name;
        assert(fields_of(header) =~= before.update(0, unmarked(before[0])));
    } else {
        if header.len() > 0 {
            assert(fields_of(header)[0] == header@[0]@);
            assert(!marked(all[0][0]));
            assert(all[0].update(0, unmarked(all[0][0])) =~= all[0]);
        }
    }
    Some(Table { header, rows: records })
}

/// The place of the last column of a name; none where no column has it.
pub open spec fn column_of(header: Seq<Seq<u8>>, name: Seq<u8>) -> Option<int>
    decreases header.len(),
{
    if header.len() == 0 {
        None
    } else if header.last() == name {
        Some(header.len() - 1)
    } else {
        column_of(header.drop_last(), name)
    }
}

/// Decides whether two lists of bytes are the same.
pub fn same_bytes(a: &Vec<u8>, b: &[u8]) -> (r: bool)
    ensures
        r == (a@ == b@),
{
    if a.len() != b.len() {
        return false;
    }
    let mut i: usize = 0;
    while i < a.len()
        invariant
            i <= a@.len(),
            a@.len() == b@.len(),
            forall|k: int| 0 <= k < i ==> a@[k] == b@[k],
        decreases a@.len() - i,
    {
        if a[i] != b[i] {
            return false;
        }
        i += 1;
    }
    assert(a@ =~= b@);
    true
}

/// Finds the column of a name.
pub fn find_column(header: &Vec<Vec<u8>>, name: &str) -> (r: Option<usize>)
    ensures
        column_of(fields_of(*header), encode_utf8(name@)) == match r {
            Some(c) => Some(c as int),
            None => None,
        },
        r matches Some(c) ==> c < header@.len(),
{
    let ghost names = fields_of(*header);
    let bytes = name.as_bytes();
    let mut found: Option<usize> = None;
    let mut i: usize = 0;
    assert(names.take(0) =~= Seq::<Seq<u8>>::empty());
    while i < header.len()
        invariant
            i <= header@.len(),
            names == fields_of(*header),
            bytes@ == encode_utf8(name@),
            found matches Some(c) ==> c < i,
            column_of(names.take(i as int), bytes@) == match found {
                Some(c) => Some(c as int),
                None => None,
            },
        decreases header@.len() - i,
    {
        proof {
            assert(names.take(i + 1).drop_last() =~= names.take(i as int));
            assert(names.take(i + 1).last() == header@[i as int]@);
        }
        if same_bytes(&header[i], bytes) {
            found = Some(i);
        }
        i += 1;
    }
    assert(names.take(header@.len() as int) =~= names);
    found
}

/// The field of a row under the name of a column: empty where the table
/// lacks the column or the row ends before it.
pub open spec fn named(header: Seq<Seq<u8>>, row: Seq<Seq<u8>>, name: Seq<char>) -> Seq<u8> {
    match column_of(header, encode_utf8(name)) {
        Some(c) => if c < row.len() {
            row[c]
        } else {
            Seq::empty()
        },
        None => Seq::empty(),
    }
}

/// Copies [`named`].
pub fn field(header: &Vec<Vec<u8>>, row: &Vec<Vec<u8>>, name: &str) -> (r: Vec<u8>)
    ensures
        r@ == named(fields_of(*header), fields_of(*row), name@),
{
    assert(fields_of(*row).len() == row@.len());
    match find_column(header, name) {
        Some(c) => if c < row.len() {
            let copy = row[c].clone();
            assert(copy@ =~= row@[c as int]@);
            assert(fields_of(*row)[c as int] == row@[c as int]@);
            copy
        } else {
            Vec::new()
        },
        None => Vec::new(),
    }
}

/// The text that a field holds; none where its bytes are no UTF-8.
pub open spec fn text_of(bytes: Seq<u8>) -> Option<Seq<char>> {
    if valid_utf8(bytes) {
        Some(decode_utf8(bytes))
    } else {
        None
    }
}

/// Reads [`text_of`] of a field.
pub fn text(bytes: Vec<u8>) -> (r: Option<String>)
    ensures
        match text_of(bytes@) {
            Some(t) => r matches Some(s) && s@ == t,
            None => r is None,
        },
{
    text_from_utf8(bytes)
}

/// A row of agencies can be read where its name is UTF-8.
pub open spec fn agency_ok(h: Seq<Seq<u8>>, r: Seq<Seq<u8>>) -> bool {
    text_of(named(h, r, "agency_name"@)) is Some
}

/// What a row of agencies holds: the id that stands for its `agency_id`,
/// and its `agency_name`.
pub open spec fn agency_held(h: Seq<Seq<u8>>, r: Seq<Seq<u8>>, a: AgencyRow) -> bool {
    &&& a.id == stable_id_of(named(h, r, "agency_id"@))
    &&& Some(a.name@) == text_of(named(h, r, "agency_name"@))
}

/// What [`read_agencies`] makes of a table: what each row holds, or the place
/// of the first row that cannot be read.
pub open spec fn agencies_read(t: &Table, got: Result<Vec<AgencyRow>, usize>) -> bool {
    let h = fields_of(t.header);
    match got {
        Ok(v) => v@.len() == t.rows@.len() && forall|i: int|
            0 <= i < v@.len() ==> agency_ok(h, fields_of(t.rows@[i])) && agency_held(
                h,
                fields_of(t.rows@[i]),
                #[trigger] v@[i],
            ),
        Err(i) => i < t.rows@.len() && !(agency_ok(h, fields_of(t.rows@[i as int])))
            && forall|j: int|
            0 <= j < i ==> agency_ok(h, fields_of(#[trigger] t.rows@[j])),
    }
}

/// Reads the agencies of a feed.
pub fn read_agencies(t: &Table) -> (got: Result<Vec<AgencyRow>, usize>)
    ensures
        agencies_read(t, got),
{
    let mut out: Vec<AgencyRow> = Vec::new();
    let mut i: usize = 0;
    while i < t.rows.len()
        invariant
            i <= t.rows@.len(),
            out@.len() == i,
            forall|k: int|
                0 <= k < i ==> agency_ok(fields_of(t.header), fields_of(#[trigger] t.rows@[k])),
            forall|k: int|
                0 <= k < i ==> agency_held(fields_of(t.header), fields_of(t.rows@[k]), #[trigger] out@[k]),
        decreases t.rows@.len() - i,
    {
        let row = &t.rows[i];
        let id = stable_id(&field(&t.header, row, "agency_id"));
        match text(field(&t.header, row, "agency_name")) {
            Some(name) => {
                out.push(AgencyRow { id, name });
            },
            None => {
                return Err(i);
            },
        }
        i += 1;
    }
    Ok(out)
}

/// A row of stops can be read where its code and its name are UTF-8 and
/// its latitude and longitude are angles, the latitude of no more than 90
/// degrees either way.
pub open spec fn stop_ok(h: Seq<Seq<u8>>, r: Seq<Seq<u8>>) -> bool {
    &&& text_of(named(h, r, "stop_code"@)) is Some
    &&& text_of(named(h, r, "stop_name"@)) is Some
    &&& degrees_of(named(h, r, "stop_lat"@)) matches Some(lat) && -90_000_000_000 <= lat
        <= 90_000_000_000
    &&& degrees_of(named(h, r, "stop_lon"@)) is Some
}

/// What a row of stops holds: the id that stands for its `stop_id`, its
/// `stop_code` and `stop_name`, its `stop_lat` and `stop_lon` in nanodegrees,
/// and the id that stands for its `parent_station`, if it names one.
pub open spec fn stop_held(h: Seq<Seq<u8>>, r: Seq<Seq<u8>>, s: Stop) -> bool {
    &&& s.id == stable_id_of(named(h, r, "stop_id"@))
    &&& Some(s.code@) == text_of(named(h, r, "stop_code"@))
    &&& Some(s.name@) == text_of(named(h, r, "stop_name"@))
    &&& Some(s.lat) == degrees_of(named(h, r, "stop_lat"@))
    &&& Some(s.lon) == degrees_of(named(h, r, "stop_lon"@))
    &&& s.parent == if named(h, r, "parent_station"@).len() == 0 {
        None
    } else {
        Some(stable_id_of(named(h, r, "parent_station"@)))
    }
}

/// What [`read_stops`] makes of a table: what each row holds, or the place
/// of the first row that cannot be read.
pub open spec fn stops_read(t: &Table, got: Result<Vec<Stop>, usize>) -> bool {
    let h = fields_of(t.header);
    match got {
        Ok(v) => v@.len() == t.rows@.len() && forall|i: int|
            0 <= i < v@.len() ==> stop_ok(h, fields_of(t.rows@[i])) && stop_held(
                h,
                fields_of(t.rows@[i]),
                #[trigger] v@[i],
            ),
        Err(i) => i < t.rows@.len() && !(stop_ok(h, fields_of(t.rows@[i as int])))
            && forall|j: int|
            0 <= j < i ==> stop_ok(h, fields_of(#[trigger] t.rows@[j])),
    }
}

/// Reads the stops of a feed.
pub fn read_stops(t: &Table) -> (got: Result<Vec<Stop>, usize>)
    ensures
        stops_read(t, got),
{
    let mut out: Vec<Stop> = Vec::new();
    let mut i: usize = 0;
    while i < t.rows.len()
        invariant
            i <= t.rows@.len(),
            out@.len() == i,
            forall|k: int|
                0 <= k < i ==> stop_ok(fields_of(t.header), fields_of(#[trigger] t.rows@[k])),
            forall|k: int|
                0 <= k < i ==> stop_held(fields_of(t.header), fields_of(t.rows@[k]), #[trigger] out@[k]),
        decreases t.rows@.len() - i,
    {
        let row = &t.rows[i];
        let id = stable_id(&field(&t.header, row, "stop_id"));
        let parent_name = field(&t.header, row, "parent_station");
        let parent = if parent_name.len() == 0 {
            None
        } else {
            Some(stable_id(&parent_name))
        };
        match (
            text(field(&t.header, row, "stop_code")),
            text(field(&t.header, row, "stop_name")),
            parse_degrees(&field(&t.header, row, "stop_lat")),
            parse_degrees(&field(&t.header, row, "stop_lon")),
        ) {
            (Some(code), Some(name), Some(lat), Some(lon)) => {
                if lat < -90_000_000_000 || lat > 90_000_000_000 {
                    return Err(i);
                }
                out.push(Stop { id, code, name, lat, lon, parent });
            },
            _ => {
                return Err(i);
            },
        }
        i += 1;
    }
    Ok(out)
}

/// A row of routes can be read where its names are UTF-8 and its type is
/// a number of no more than 16 bits.
pub open spec fn route_ok(h: Seq<Seq<u8>>, r: Seq<Seq<u8>>) -> bool {
    &&& text_of(named(h, r, "route_short_name"@)) is Some
    &&& text_of(named(h, r, "route_long_name"@)) is Some
    &&& uint_of(named(h, r, "route_type"@)) matches Some(t) && t <= u16::MAX
}

/// What a row of routes holds: the ids that stand for its `route_id` and
/// its `agency_id`, its `route_short_name` and `route_long_name`, and its
/// `route_type`.
pub open spec fn route_held(h: Seq<Seq<u8>>, r: Seq<Seq<u8>>, x: RouteRow) -> bool {
    &&& x.id == stable_id_of(named(h, r, "route_id"@))
    &&& x.agency == stable_id_of(named(h, r, "agency_id"@))
    &&& Some(x.short_name@) == text_of(named(h, r, "route_short_name"@))
    &&& Some(x.long_name@) == text_of(named(h, r, "route_long_name"@))
    &&& Some(x.route_type as u64) == uint_of(named(h, r, "route_type"@))
}

/// What [`read_routes`] makes of a table: what each row holds, or the place
/// of the first row that cannot be read.
pub open spec fn routes_read(t: &Table, got: Result<Vec<RouteRow>, usize>) -> bool {
    let h = fields_of(t.header);
    match got {
        Ok(v) => v@.len() == t.rows@.len() && forall|i: int|
            0 <= i < v@.len() ==> route_ok(h, fields_of(t.rows@[i])) && route_held(
                h,
                fields_of(t.rows@[i]),
                #[trigger] v@[i],
            ),
        Err(i) => i < t.rows@.len() && !(route_ok(h, fields_of(t.rows@[i as int])))
            && forall|j: int|
            0 <= j < i ==> route_ok(h, fields_of(#[trigger] t.rows@[j])),
    }
}

/// Reads the routes of a feed.
pub fn read_routes(t: &Table) -> (got: Result<Vec<RouteRow>, usize>)
    ensures
        routes_read(t, got),
{
    let mut out: Vec<RouteRow> = Vec::new();
    let mut i: usize = 0;
    while i < t.rows.len()
        invariant
            i <= t.rows@.len(),
            out@.len() == i,
            forall|k: int|
                0 <= k < i ==> route_ok(fields_of(t.header), fields_of(#[trigger] t.rows@[k])),
            forall|k: int|
                0 <= k < i ==> route_held(fields_of(t.header), fields_of(t.rows@[k]), #[trigger] out@[k]),
        decreases t.rows@.len() - i,
    {
        let row = &t.rows[i];
        let id = stable_id(&field(&t.header, row, "route_id"));
        let agency = stable_id(&field(&t.header, row, "agency_id"));
        match (
            text(field(&t.header, row, "route_short_name")),
            text(field(&t.header, row, "route_long_name")),
            parse_uint(&field(&t.header, row, "route_type")),
        ) {
            (Some(short_name), Some(long_name), Some(kind)) => {
                if kind > u16::MAX as u64 {
                    return Err(i);
                }
                out.push(RouteRow { id, agency, short_name, long_name, route_type: kind as u16 });
            },
            _ => {
                return Err(i);
            },
        }
        i += 1;
    }
    Ok(out)
}

/// A row of trips can be read where its headsign is UTF-8.
pub open spec fn trip_ok(h: Seq<Seq<u8>>, r: Seq<Seq<u8>>) -> bool {
    text_of(named(h, r, "trip_headsign"@)) is Some
}

/// What a row of trips holds: the ids that stand for its `trip_id`, its
/// `route_id` and its `service_id`, and its `trip_headsign`.
pub open spec fn trip_held(h: Seq<Seq<u8>>, r: Seq<Seq<u8>>, x: TripRow) -> bool {
    &&& x.id == stable_id_of(named(h, r, "trip_id"@))
    &&& x.route == stable_id_of(named(h, r, "route_id"@))
    &&& x.service == stable_id_of(named(h, r, "service_id"@))
    &&& Some(x.headsign@) == text_of(named(h, r, "trip_headsign"@))
}

/// What [`read_trips`] makes of a table: what each row holds, or the place
/// of the first row that cannot be read.
pub open spec fn trips_read(t: &Table, got: Result<Vec<TripRow>, usize>) -> bool {
    let h = fields_of(t.header);
    match got {
        Ok(v) => v@.len() == t.rows@.len() && forall|i: int|
            0 <= i < v@.len() ==> trip_ok(h, fields_of(t.rows@[i])) && trip_held(
                h,
                fields_of(t.rows@[i]),
                #[trigger] v@[i],
            ),
        Err(i) => i < t.rows@.len() && !(trip_ok(h, fields_of(t.rows@[i as int])))
            && forall|j: int|
            0 <= j < i ==> trip_ok(h, fields_of(#[trigger] t.rows@[j])),
    }
}

/// Reads the trips of a feed.
pub fn read_trips(t: &Table) -> (got: Result<Vec<TripRow>, usize>)
    ensures
        trips_read(t, got),
{
    let mut out: Vec<TripRow> = Vec::new();
    let mut i: usize = 0;
    while i < t.rows.len()
        invariant
            i <= t.rows@.len(),
            out@.len() == i,
            forall|k: int|
                0 <= k < i ==> trip_ok(fields_of(t.header), fields_of(#[trigger] t.rows@[k])),
            forall|k: int|
                0 <= k < i ==> trip_held(fields_of(t.header), fields_of(t.rows@[k]), #[trigger] out@[k]),
        decreases t.rows@.len() - i,
    {
        let row = &t.rows[i];
        let id = stable_id(&field(&t.header, row, "trip_id"));
        let route = stable_id(&field(&t.header, row, "route_id"));
        let service = stable_id(&field(&t.header, row, "service_id"));
        match text(field(&t.header, row, "trip_headsign")) {
            Some(headsign) => {
                out.push(TripRow { id, route, service, headsign });
            },
            None => {
                return Err(i);
            },
        }
        i += 1;
    }
    Ok(out)
}

/// The time of a call: the one that its field writes, or, where the field
/// is empty, the one that the other field writes.
pub open spec fn call_time(own: Seq<u8>, other: Seq<u8>) -> Option<u32> {
    if own.len() == 0 {
        time_of(other)
    } else {
        time_of(own)
    }
}

/// What a row of calls holds, if it can be read: the ids that stand for
/// its `trip_id` and its `stop_id`, its `stop_sequence`, and its
/// `arrival_time` and `departure_time`, each standing in for the other where
/// that one is empty.
pub open spec fn call_in(h: Seq<Seq<u8>>, r: Seq<Seq<u8>>) -> Option<StopTimeRow> {
    let arrival = named(h, r, "arrival_time"@);
    let departure = named(h, r, "departure_time"@);
    match (uint_of(named(h, r, "stop_sequence"@)), call_time(arrival, departure), call_time(
        departure,
        arrival,
    )) {
        (Some(sequence), Some(a), Some(d)) => if sequence <= u32::MAX {
            Some(
                StopTimeRow {
                    trip: stable_id_of(named(h, r, "trip_id"@)),
                    stop: stable_id_of(named(h, r, "stop_id"@)),
                    sequence: sequence as u32,
                    arrival: a,
                    departure: d,
                },
            )
        } else {
            None
        },
        _ => None,
    }
}

/// What [`read_stop_times`] makes of a table: what each row holds, or the place
/// of the first row that cannot be read.
pub open spec fn calls_read(t: &Table, got: Result<Vec<StopTimeRow>, usize>) -> bool {
    let h = fields_of(t.header);
    match got {
        Ok(v) => v@.len() == t.rows@.len() && forall|i: int|
            0 <= i < v@.len() ==> call_in(h, fields_of(t.rows@[i])) is Some && call_in(h, fields_of(t.rows@[i])) == Some(
                #[trigger] v@[i],
            ),
        Err(i) => i < t.rows@.len() && !(call_in(h, fields_of(t.rows@[i as int])) is Some)
            && forall|j: int|
            0 <= j < i ==> call_in(h, fields_of(#[trigger] t.rows@[j])) is Some,
    }
}

/// Reads the calls of a feed.
pub fn read_stop_times(t: &Table) -> (got: Result<Vec<StopTimeRow>, usize>)
    ensures
        calls_read(t, got),
{
    let mut out: Vec<StopTimeRow> = Vec::new();
    let mut i: usize = 0;
    while i < t.rows.len()
        invariant
            i <= t.rows@.len(),
            out@.len() == i,
            forall|k: int|
                0 <= k < i ==> call_in(fields_of(t.header), fields_of(#[trigger] t.rows@[k])) is Some,
            forall|k: int|
                0 <= k < i ==> call_in(fields_of(t.header), fields_of(t.rows@[k])) == Some(
                    #[trigger] out@[k],
                ),
        decreases t.rows@.len() - i,
    {
        let row = &t.rows[i];
        let trip = stable_id(&field(&t.header, row, "trip_id"));
        let stop = stable_id(&field(&t.header, row, "stop_id"));
        let arrival = field(&t.header, row, "arrival_time");
        let departure = field(&t.header, row, "departure_time");
        let a = if arrival.len() == 0 {
            parse_time(&departure)
        } else {
            parse_time(&arrival)
        };
        let d = if departure.len() == 0 {
            parse_time(&arrival)
        } else {
            parse_time(&departure)
        };
        match (parse_uint(&field(&t.header, row, "stop_sequence")), a, d) {
            (Some(sequence), Some(a), Some(d)) => {
                if sequence > u32::MAX as u64 {
                    return Err(i);
                }
                out.push(
                    StopTimeRow { trip, stop, sequence: sequence as u32, arrival: a, departure: d },
                );
            },
            _ => {
                return Err(i);
            },
        }
        i += 1;
    }
    Ok(out)
}

/// The day that a field writes, in days since 1 January 1970; none where
/// the field writes no day or the calendar has no such day.
pub open spec fn day_of(bytes: Seq<u8>) -> Option<i32> {
    match date_of(bytes) {
        Some(date) => since_epoch(ce_days(date.year, date.month, date.day)),
        None => None,
    }
}

/// Reads [`day_of`].
pub fn parse_day(bytes: &Vec<u8>) -> (r: Option<i32>)
    ensures
        r == day_of(bytes@),
{
    match parse_date(bytes) {
        Some(date) => epoch_day(&date),
        None => None,
    }
}

/// Whether a field says yes: it holds the one digit 1.
pub open spec fn says_yes(bytes: Seq<u8>) -> bool {
    bytes.len() == 1 && bytes[0] == 49
}

/// The days of the week that a row of services names, bit 0 for Monday to
/// bit 6 for Sunday.
pub open spec fn weekdays_of(h: Seq<Seq<u8>>, r: Seq<Seq<u8>>) -> u8 {
    ((if says_yes(named(h, r, "monday"@)) { 1u8 } else { 0u8 })
        + (if says_yes(named(h, r, "tuesday"@)) { 2u8 } else { 0u8 })
        + (if says_yes(named(h, r, "wednesday"@)) { 4u8 } else { 0u8 })
        + (if says_yes(named(h, r, "thursday"@)) { 8u8 } else { 0u8 })
        + (if says_yes(named(h, r, "friday"@)) { 16u8 } else { 0u8 })
        + (if says_yes(named(h, r, "saturday"@)) { 32u8 } else { 0u8 })
        + (if says_yes(named(h, r, "sunday"@)) { 64u8 } else { 0u8 })) as u8
}

/// Decides [`says_yes`] of a field.
pub fn yes(header: &Vec<Vec<u8>>, row: &Vec<Vec<u8>>, name: &str) -> (r: bool)
    ensures
        r == says_yes(named(fields_of(*header), fields_of(*row), name@)),
{
    let f = field(header, row, name);
    f.len() == 1 && f[0] == 49
}

/// What a row of services holds, if it can be read: the id that stands
/// for its `service_id`, its days of the week, and its `start_date` and
/// `end_date`.
pub open spec fn service_in(h: Seq<Seq<u8>>, r: Seq<Seq<u8>>) -> Option<ServiceRow> {
    match (day_of(named(h, r, "start_date"@)), day_of(named(h, r, "end_date"@))) {
        (Some(first_day), Some(last_day)) => Some(
            ServiceRow {
                id: stable_id_of(named(h, r, "service_id"@)),
                weekdays: weekdays_of(h, r),
                first_day,
                last_day,
            },
        ),
        _ => None,
    }
}

/// What [`read_services`] makes of a table: what each row holds, or the place
/// of the first row that cannot be read.
pub open spec fn services_read(t: &Table, got: Result<Vec<ServiceRow>, usize>) -> bool {
    let h = fields_of(t.header);
    match got {
        Ok(v) => v@.len() == t.rows@.len() && forall|i: int|
            0 <= i < v@.len() ==> service_in(h, fields_of(t.rows@[i])) is Some && service_in(h, fields_of(t.rows@[i])) == Some(
                #[trigger] v@[i],
            ),
        Err(i) => i < t.rows@.len() && !(service_in(h, fields_of(t.rows@[i as int])) is Some)
            && forall|j: int|
            0 <= j < i ==> service_in(h, fields_of(#[trigger] t.rows@[j])) is Some,
    }
}

/// Reads the services of a feed.
pub fn read_services(t: &Table) -> (got: Result<Vec<ServiceRow>, usize>)
    ensures
        services_read(t, got),
{
    let mut out: Vec<ServiceRow> = Vec::new();
    let mut i: usize = 0;
    while i < t.rows.len()
        invariant
            i <= t.rows@.len(),
            out@.len() == i,
            forall|k: int|
                0 <= k < i ==> service_in(fields_of(t.header), fields_of(#[trigger] t.rows@[k])) is Some,
            forall|k: int|
                0 <= k < i ==> service_in(fields_of(t.header), fields_of(t.rows@[k])) == Some(
                    #[trigger] out@[k],
                ),
        decreases t.rows@.len() - i,
    {
        let row = &t.rows[i];
        let h = &t.header;
        let id = stable_id(&field(h, row, "service_id"));
        let mut weekdays: u8 = 0;
        if yes(h, row, "monday") {
            weekdays = weekdays + 1;
        }
        if yes(h, row, "tuesday") {
            weekdays = weekdays + 2;
        }
        if yes(h, row, "wednesday") {
            weekdays = weekdays + 4;
        }
        if yes(h, row, "thursday") {
            weekdays = weekdays + 8;
        }
        if yes(h, row, "friday") {
            weekdays = weekdays + 16;
        }
        if yes(h, row, "saturday") {
            weekdays = weekdays + 32;
        }
        if yes(h, row, "sunday") {
            weekdays = weekdays + 64;
        }
        match (parse_day(&field(h, row, "start_date")), parse_day(&field(h, row, "end_date"))) {
            (Some(first_day), Some(last_day)) => {
                out.push(ServiceRow { id, weekdays, first_day, last_day });
            },
            _ => {
                return Err(i);
            },
        }
        i += 1;
    }
    Ok(out)
}

/// What a row of exceptions holds, if it can be read: the id that stands
/// for its `service_id`, its `date`, and whether its `exception_type` adds
/// the service (1) or removes it (2).
pub open spec fn exception_in(h: Seq<Seq<u8>>, r: Seq<Seq<u8>>) -> Option<ExceptionRow> {
    match (day_of(named(h, r, "date"@)), uint_of(named(h, r, "exception_type"@))) {
        (Some(day), Some(kind)) => if kind == 1 || kind == 2 {
            Some(
                ExceptionRow {
                    service: stable_id_of(named(h, r, "service_id"@)),
                    day,
                    added: kind == 1,
                },
            )
        } else {
            None
        },
        _ => None,
    }
}

/// What [`read_exceptions`] makes of a table: what each row holds, or the place
/// of the first row that cannot be read.
pub open spec fn exceptions_read(t: &Table, got: Result<Vec<ExceptionRow>, usize>) -> bool {
    let h = fields_of(t.header);
    match got {
        Ok(v) => v@.len() == t.rows@.len() && forall|i: int|
            0 <= i < v@.len() ==> exception_in(h, fields_of(t.rows@[i])) is Some && exception_in(
                h,
                fields_of(t.rows@[i]),
            ) == Some(#[trigger] v@[i]),
        Err(i) => i < t.rows@.len() && !(exception_in(h, fields_of(t.rows@[i as int])) is Some)
            && forall|j: int|
            0 <= j < i ==> exception_in(h, fields_of(#[trigger] t.rows@[j])) is Some,
    }
}

/// Reads the exceptions of a feed.
pub fn read_exceptions(t: &Table) -> (got: Result<Vec<ExceptionRow>, usize>)
    ensures
        exceptions_read(t, got),
{
    let mut out: Vec<ExceptionRow> = Vec::new();
    let mut i: usize = 0;
    while i < t.rows.len()
        invariant
            i <= t.rows@.len(),
            out@.len() == i,
            forall|k: int|
                0 <= k < i ==> exception_in(fields_of(t.header), fields_of(#[trigger] t.rows@[k])) is Some,
            forall|k: int|
                0 <= k < i ==> exception_in(fields_of(t.header), fields_of(t.rows@[k])) == Some(
                    #[trigger] out@[k],
                ),
        decreases t.rows@.len() - i,
    {
        let row = &t.rows[i];
        let service = stable_id(&field(&t.header, row, "service_id"));
        match (
            parse_day(&field(&t.header, row, "date")),
            parse_uint(&field(&t.header, row, "exception_type")),
        ) {
            (Some(day), Some(kind)) => {
                if kind != 1 && kind != 2 {
                    return Err(i);
                }
                out.push(ExceptionRow { service, day, added: kind == 1 });
            },
            _ => {
                return Err(i);
            },
        }
        i += 1;
    }
    Ok(out)
}

/// The text files of a feed, each as its bytes; a file that the feed lacks
/// is empty.
#[derive(Debug, Clone)]
pub struct FeedFiles {
    pub stops: Vec<u8>,
    pub agency: Vec<u8>,
    pub routes: Vec<u8>,
    pub trips: Vec<u8>,
    pub stop_times: Vec<u8>,
    pub calendar: Vec<u8>,
    pub calendar_dates: Vec<u8>,
}

/// The rows of a feed.
#[derive(Debug, Clone)]
pub struct Rows {
    pub stops: Vec<Stop>,
    pub agencies: Vec<AgencyRow>,
    pub routes: Vec<RouteRow>,
    pub trips: Vec<TripRow>,
    pub calls: Vec<StopTimeRow>,
    pub services: Vec<ServiceRow>,
    pub exceptions: Vec<ExceptionRow>,
}

/// The files of a feed.
#[derive(Debug, Clone, Copy, PartialEq, Eq, Structural)]
pub enum FeedFile {
    Stops,
    Agency,
    Routes,
    Trips,
    StopTimes,
    Calendar,
    CalendarDates,
}

/// Why the files of a feed cannot be read.
#[derive(Debug, Clone, Copy, PartialEq, Eq, Structural)]
pub enum ReadError {
    /// The file is no table of comma-separated text with a row of names.
    NoTable { file: FeedFile },
    /// The row of the file cannot be read.
    BadRow { file: FeedFile, row: usize },
}

/// The table of a file that a feed may lack: none where the file is
/// empty, else the table that it holds, or a fault of the file.
pub fn read_optional(text: &Vec<u8>, file: FeedFile) -> (r: Result<Option<Table>, ReadError>)
    ensures
        match r {
            Ok(None) => text@.len() == 0,
            Ok(Some(t)) => text@.len() > 0 && table_of(csv_of(text@), Some(t)),
            Err(e) => text@.len() > 0 && e == (ReadError::NoTable { file }) && table_of(
                csv_of(text@),
                None,
            ),
        },
{
    if text.len() == 0 {
        return Ok(None);
    }
    match read_table(text) {
        Some(t) => Ok(Some(t)),
        None => Err(ReadError::NoTable { file }),
    }
}

/// The table of a file that a feed must have.
pub fn read_required(text: &Vec<u8>, file: FeedFile) -> (r: Result<Table, ReadError>)
    ensures
        match r {
            Ok(t) => table_of(csv_of(text@), Some(t)),
            Err(e) => e == (ReadError::NoTable { file }) && table_of(csv_of(text@), None),
        },
{
    match read_table(text) {
        Some(t) => Ok(t),
        None => Err(ReadError::NoTable { file }),
    }
}

/// The rows are those of the files: for each file the rows of its table,
/// and no rows for a file that the feed lacks.
pub open spec fn rows_of_files(files: &FeedFiles, rows: &Rows) -> bool {
    &&& exists|t: Table| #[trigger]
        table_of(csv_of(files.stops@), Some(t)) && stops_read(&t, Ok(rows.stops))
    &&& exists|t: Table| #[trigger]
        table_of(csv_of(files.routes@), Some(t)) && routes_read(&t, Ok(rows.routes))
    &&& exists|t: Table| #[trigger]
        table_of(csv_of(files.trips@), Some(t)) && trips_read(&t, Ok(rows.trips))
    &&& exists|t: Table| #[trigger]
        table_of(csv_of(files.stop_times@), Some(t)) && calls_read(&t, Ok(rows.calls))
    &&& if files.agency@.len() == 0 {
        rows.agencies@.len() == 0
    } else {
        exists|t: Table| #[trigger]
            table_of(csv_of(files.agency@), Some(t)) && agencies_read(&t, Ok(rows.agencies))
    }
    &&& if files.calendar@.len() == 0 {
        rows.services@.len() == 0
    } else {
        exists|t: Table| #[trigger]
            table_of(csv_of(files.calendar@), Some(t)) && services_read(&t, Ok(rows.services))
    }
    &&& if files.calendar_dates@.len() == 0 {
        rows.exceptions@.len() == 0
    } else {
        exists|t: Table| #[trigger]
            table_of(csv_of(files.calendar_dates@), Some(t)) && exceptions_read(
                &t,
                Ok(rows.exceptions),
            )
    }
}

/// The text of a file of the feed.
pub open spec fn text_of_file(files: &FeedFiles, file: FeedFile) -> Seq<u8> {
    match file {
        FeedFile::Stops => files.stops@,
        FeedFile::Agency => files.agency@,
        FeedFile::Routes => files.routes@,
        FeedFile::Trips => files.trips@,
        FeedFile::StopTimes => files.stop_times@,
        FeedFile::Calendar => files.calendar@,
        FeedFile::CalendarDates => files.calendar_dates@,
    }
}

/// The row of the file cannot be read.
pub open spec fn row_fault(files: &FeedFiles, file: FeedFile, row: usize) -> bool {
    exists|t: Table| #[trigger]
        table_of(csv_of(text_of_file(files, file)), Some(t)) && match file {
            FeedFile::Stops => stops_read(&t, Err(row)),
            FeedFile::Agency => agencies_read(&t, Err(row)),
            FeedFile::Routes => routes_read(&t, Err(row)),
            FeedFile::Trips => trips_read(&t, Err(row)),
            FeedFile::StopTimes => calls_read(&t, Err(row)),
            FeedFile::Calendar => services_read(&t, Err(row)),
            FeedFile::CalendarDates => exceptions_read(&t, Err(row)),
        }
}

/// Reads the rows of the files of a feed: stops, routes, trips and calls,
/// which every feed has, and agencies, services and exceptions, which a feed
/// may lack. The first file that is no table, or the first row that cannot
/// be read, ends the work.
pub fn read_rows(files: &FeedFiles) -> (r: Result<Rows, ReadError>)
    ensures
        match r {
            Ok(rows) => rows_of_files(files, &rows),
            Err(ReadError::NoTable { file }) => table_of(csv_of(text_of_file(files, file)), None),
            Err(ReadError::BadRow { file, row }) => row_fault(files, file, row),
        },
{
    let stops = match read_required(&files.stops, FeedFile::Stops) {
        Ok(t) => match read_stops(&t) {
            Ok(v) => v,
            Err(row) => {
                assert(row_fault(files, FeedFile::Stops, row));
                return Err(ReadError::BadRow { file: FeedFile::Stops, row });
            },
        },
        Err(e) => {
            return Err(e);
        },
    };
    let routes = match read_required(&files.routes, FeedFile::Routes) {
        Ok(t) => match read_routes(&t) {
            Ok(v) => v,
            Err(row) => {
                assert(row_fault(files, FeedFile::Routes, row));
                return Err(ReadError::BadRow { file: FeedFile::Routes, row });
            },
        },
        Err(e) => {
            return Err(e);
        },
    };
    let trips = match read_required(&files.trips, FeedFile::Trips) {
        Ok(t) => match read_trips(&t) {
            Ok(v) => v,
            Err(row) => {
                assert(row_fault(files, FeedFile::Trips, row));
                return Err(ReadError::BadRow { file: FeedFile::Trips, row });
            },
        },
        Err(e) => {
            return Err(e);
        },
    };
    let calls = match read_required(&files.stop_times, FeedFile::StopTimes) {
        Ok(t) => match read_stop_times(&t) {
            Ok(v) => v,
            Err(row) => {
                assert(row_fault(files, FeedFile::StopTimes, row));
                return Err(ReadError::BadRow { file: FeedFile::StopTimes, row });
            },
        },
        Err(e) => {
            return Err(e);
        },
    };
    let agencies = match read_optional(&files.agency, FeedFile::Agency) {
        Ok(Some(t)) => match read_agencies(&t) {
            Ok(v) => v,
            Err(row) => {
                assert(row_fault(files, FeedFile::Agency, row));
                return Err(ReadError::BadRow { file: FeedFile::Agency, row });
            },
        },
        Ok(None) => Vec::new(),
        Err(e) => {
            return Err(e);
        },
    };
    let services = match read_optional(&files.calendar, FeedFile::Calendar) {
        Ok(Some(t)) => match read_services(&t) {
            Ok(v) => v,
            Err(row) => {
                assert(row_fault(files, FeedFile::Calendar, row));
                return Err(ReadError::BadRow { file: FeedFile::Calendar, row });
            },
        },
        Ok(None) => Vec::new(),
        Err(e) => {
            return Err(e);
        },
    };
    let exceptions = match read_optional(&files.calendar_dates, FeedFile::CalendarDates) {
        Ok(Some(t)) => match read_exceptions(&t) {
            Ok(v) => v,
            Err(row) => {
                assert(row_fault(files, FeedFile::CalendarDates, row));
                return Err(ReadError::BadRow { file: FeedFile::CalendarDates, row });
            },
        },
        Ok(None) => Vec::new(),
        Err(e) => {
            return Err(e);
        },
    };
    Ok(Rows { stops, agencies, routes, trips, calls, services, exceptions })
}

} // verus!
