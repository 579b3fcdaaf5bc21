//! The rows of a feed, and the days on which its services run.

use crate::timetable::{bitmap_len, day_bit, Calendar};
use std::collections::HashMap;
use vstd::prelude::*;
use vstd::std_specs::hash::*;

verus! {

/// One agency of a feed.
#[derive(Debug, Clone)]
pub struct AgencyRow {
    pub id: u64,
    pub name: String,
}

/// One route of a feed, with the id of its agency.
#[derive(Debug, Clone)]
pub struct RouteRow {
    pub id: u64,
    pub agency: u64,
    pub short_name: String,
    pub long_name: String,
    pub route_type: u16,
}

/// One trip of a feed, with the ids of its route and of its service.
#[derive(Debug, Clone)]
pub struct TripRow {
    pub id: u64,
    pub route: u64,
    pub service: u64,
    pub headsign: String,
}

/// One call of a trip at a stop, with the ids of both. Times are seconds
/// since the midnight that starts the service day.
#[derive(Debug, Clone, Copy, PartialEq, Eq, Structural)]
pub struct StopTimeRow {
    pub trip: u64,
    pub stop: u64,
    pub sequence: u32,
    pub arrival: u32,
    pub departure: u32,
}

/// The weekly pattern of a service: on which days of the week it runs
/// (bit 0 for Monday to bit 6 for Sunday), from which day to which, both in
/// days since 1 January 1970.
#[derive(Debug, Clone, Copy, PartialEq, Eq, Structural)]
pub struct ServiceRow {
    pub id: u64,
    pub weekdays: u8,
    pub first_day: i32,
    pub last_day: i32,
}

/// One day on which a service runs or rests against its weekly pattern.
#[derive(Debug, Clone, Copy, PartialEq, Eq, Structural)]
pub struct ExceptionRow {
    pub service: u64,
    pub day: i32,
    pub added: bool,
}

/// The day of the week of a day counted from 1 January 1970, a Thursday:
/// 0 for Monday to 6 for Sunday.
pub open spec fn weekday_of(day: int) -> int {
    (day + 3) % 7
}

/// Computes [`weekday_of`].
pub fn weekday(day: i32) -> (r: u8)
    ensures
        r == weekday_of(day as int),
        r < 7,
{
    // 2147483653 is a multiple of 7 above 2^31.
    ((day as i64 + 3 + 2_147_483_653) % 7) as u8
}

/// What the exceptions say of a service on a day: whether it was added or
/// removed, by the last exception for the service and the day; nothing
/// where there is none.
pub open spec fn exception_for(rows: Seq<ExceptionRow>, service: u64, day: int) -> Option<bool>
    decreases rows.len(),
{
    if rows.len() == 0 {
        None
    } else if rows.last().service == service && rows.last().day == day {
        Some(rows.last().added)
    } else {
        exception_for(rows.drop_last(), service, day)
    }
}

/// The weekly pattern of a service: the last row with its id.
pub open spec fn pattern_for(rows: Seq<ServiceRow>, service: u64) -> Option<ServiceRow>
    decreases rows.len(),
{
    if rows.len() == 0 {
        None
    } else if rows.last().id == service {
        Some(rows.last())
    } else {
        pattern_for(rows.drop_last(), service)
    }
}

/// Whether the weekly pattern has the service run on a day.
pub open spec fn in_pattern(row: ServiceRow, day: int) -> bool {
    row.first_day <= day <= row.last_day && (row.weekdays >> (weekday_of(day) as u8)) & 1u8 == 1u8
}

/// Whether a service runs on a day: as the exceptions say, and where they
/// say nothing, as its weekly pattern says; a service without a pattern
/// runs on the days that the exceptions add.
pub open spec fn runs_on(
    services: Seq<ServiceRow>,
    exceptions: Seq<ExceptionRow>,
    service: u64,
    day: int,
) -> bool {
    match exception_for(exceptions, service, day) {
        Some(added) => added,
        None => match pattern_for(services, service) {
            Some(row) => in_pattern(row, day),
            None => false,
        },
    }
}

/// Computes [`exception_for`].
pub fn find_exception(rows: &Vec<ExceptionRow>, service: u64, day: i32) -> (r: Option<bool>)
    ensures
        r == exception_for(rows@, service, day as int),
{
    let mut found: Option<bool> = None;
    let mut i: usize = 0;
    assert(rows@.take(0) =~= Seq::<ExceptionRow>::empty());
    while i < rows.len()
        invariant
            i <= rows@.len(),
            found == exception_for(rows@.take(i as int), service, day as int),
        decreases rows@.len() - i,
    {
        proof {
            assert(rows@.take(i + 1).drop_last() =~= rows@.take(i as int));
            assert(rows@.take(i + 1).last() == rows@[i as int]);
        }
        if rows[i].service == service && rows[i].day == day {
            found = Some(rows[i].added);
        }
        i += 1;
    }
    assert(rows@.take(rows@.len() as int) =~= rows@);
    found
}

/// Computes [`pattern_for`].
pub fn find_pattern(rows: &Vec<ServiceRow>, service: u64) -> (r: Option<ServiceRow>)
    ensures
        r == pattern_for(rows@, service),
{
    let mut found: Option<ServiceRow> = None;
    let mut i: usize = 0;
    assert(rows@.take(0) =~= Seq::<ServiceRow>::empty());
    while i < rows.len()
        invariant
            i <= rows@.len(),
            found == pattern_for(rows@.take(i as int), service),
        decreases rows@.len() - i,
    {
        proof {
            assert(rows@.take(i + 1).drop_last() =~= rows@.take(i as int));
            assert(rows@.take(i + 1).last() == rows@[i as int]);
        }
        if rows[i].id == service {
            found = Some(rows[i]);
        }
        i += 1;
    }
    assert(rows@.take(rows@.len() as int) =~= rows@);
    found
}

/// Decides [`runs_on`].
pub fn service_runs(
    services: &Vec<ServiceRow>,
    exceptions: &Vec<ExceptionRow>,
    service: u64,
    day: i32,
) -> (r: bool)
    ensures
        r == runs_on(services@, exceptions@, service, day as int),
{
    match find_exception(exceptions, service, day) {
        Some(added) => added,
        None => match find_pattern(services, service) {
            Some(row) => row.first_day <= day && day <= row.last_day && (row.weekdays >> weekday(
                day,
            )) & 1u8 == 1u8,
            None => false,
        },
    }
}

/// Setting one bit of a byte leaves the other bits as they were.
pub proof fn lemma_set_bit(b: u8, k: u8, j: u8)
    requires
        k < 8,
        j < 8,
    ensures
        ((b | (1u8 << k)) >> j) & 1u8 == if j == k {
            1u8
        } else {
            (b >> j) & 1u8
        },
        (0u8 >> j) & 1u8 == 0u8,
{
    assert(((b | (1u8 << k)) >> j) & 1u8 == if j == k {
        1u8
    } else {
        (b >> j) & 1u8
    }) by (bit_vector)
        requires
            k < 8,
            j < 8,
    ;
    assert((0u8 >> j) & 1u8 == 0u8) by (bit_vector)
        requires
            j < 8,
    ;
}

/// The days of the calendar on which a service runs, one bit for each day,
/// lowest bit first.
#[verifier::rlimit(50)]
pub fn service_days(
    services: &Vec<ServiceRow>,
    exceptions: &Vec<ExceptionRow>,
    service: u64,
    cal: &Calendar,
) -> (days: Vec<u8>)
    ensures
        days@.len() == bitmap_len(cal.num_days as int),
        forall|d: u16|
            d < cal.num_days ==> #[trigger] day_bit(days@, d) == runs_on(
                services@,
                exceptions@,
                service,
                cal.start_day + d,
            ),
{
    let bytes = (cal.num_days as usize + 7) / 8;
    let mut days: Vec<u8> = Vec::new();
    let mut i: usize = 0;
    while i < bytes
        invariant
            i <= bytes,
            days@.len() == i,
            forall|k: int| 0 <= k < i ==> #[trigger] days@[k] == 0u8,
        decreases bytes - i,
    {
        days.push(0);
        i += 1;
    }
    proof {
        assert forall|e: u16| e < 8 * bytes implies !(#[trigger] day_bit(days@, e)) by {
            lemma_set_bit(0, 0, (e % 8) as u8);
        }
    }
    let mut d: u16 = 0;
    while d < cal.num_days
        invariant
            d <= cal.num_days,
            bytes == bitmap_len(cal.num_days as int),
            days@.len() == bytes,
            forall|e: u16|
                e < d ==> #[trigger] day_bit(days@, e) == runs_on(
                    services@,
                    exceptions@,
                    service,
                    cal.start_day + e,
                ),
            forall|e: u16| d <= e < 8 * bytes ==> !(#[trigger] day_bit(days@, e)),
        decreases cal.num_days - d,
    {
        let day: i64 = cal.start_day as i64 + d as i64;
        let runs = day <= i32::MAX as i64 && service_runs(services, exceptions, service, day as i32);
        let ghost before = days@;
        let at = (d / 8) as usize;
        let bit = (d % 8) as u8;
        if runs {
            let byte = days[at];
            days[at] = byte | (1u8 << bit);
        }
        proof {
            assert forall|e: u16| e < 8 * bytes implies #[trigger] day_bit(days@, e) == if e == d
                && runs {
                true
            } else {
                day_bit(before, e)
            } by {
                if runs {
                    if e / 8 == d / 8 {
                        lemma_set_bit(before[at as int], bit, (e % 8) as u8);
                    }
                }
            }
            if day > i32::MAX {
                lemma_beyond_days(services@, exceptions@, service, day as int);
            }
        }
        d += 1;
    }
    days
}

/// No service runs on a day that 32 bits cannot number: no row names it.
pub proof fn lemma_beyond_days(
    services: Seq<ServiceRow>,
    exceptions: Seq<ExceptionRow>,
    service: u64,
    day: int,
)
    requires
        day > i32::MAX,
    ensures
        !runs_on(services, exceptions, service, day),
    decreases exceptions.len(),
{
    if exceptions.len() > 0 {
        lemma_beyond_days(services, exceptions.drop_last(), service, day);
    }
}

/// The place of the last of the ids that is `id`.
pub open spec fn index_for(ids: Seq<u64>, id: u64) -> Option<int>
    decreases ids.len(),
{
    if ids.len() == 0 {
        None
    } else if ids.last() == id {
        Some(ids.len() - 1)
    } else {
        index_for(ids.drop_last(), id)
    }
}

/// The place that [`index_for`] gives is a place of `id`.
pub proof fn lemma_index_for(ids: Seq<u64>, id: u64)
    ensures
        index_for(ids, id) matches Some(i) ==> 0 <= i < ids.len() && ids[i] == id,
        index_for(ids, id) is None ==> forall|i: int| 0 <= i < ids.len() ==> ids[i] != id,
    decreases ids.len(),
{
    if ids.len() > 0 {
        lemma_index_for(ids.drop_last(), id);
        if ids.last() != id {
            assert forall|i: int| 0 <= i < ids.len() && index_for(ids, id) is None implies ids[i]
                != id by {
                if i < ids.len() - 1 {
                    assert(ids.drop_last()[i] == ids[i]);
                }
            }
        }
    }
}

/// The map holds for each id its place by [`index_for`].
pub open spec fn indexes(m: Map<u64, usize>, ids: Seq<u64>) -> bool {
    forall|id: u64|
        match #[trigger] index_for(ids, id) {
            Some(i) => m.contains_key(id) && m[id] == i,
            None => !m.contains_key(id),
        }
}

/// Builds the map from each id to its place.
#[verifier::rlimit(50)]
pub fn build_index(ids: &Vec<u64>) -> (m: HashMap<u64, usize>)
    ensures
        indexes(m@, ids@),
{
    broadcast use group_hash_axioms;

    let mut m: HashMap<u64, usize> = HashMap::new();
    let mut i: usize = 0;
    assert(ids@.take(0) =~= Seq::<u64>::empty());
    while i < ids.len()
        invariant
            i <= ids@.len(),
            indexes(m@, ids@.take(i as int)),
        decreases ids@.len() - i,
    {
        let ghost before = m@;
        m.insert(ids[i], i);
        proof {
            let seen = ids@.take(i as int);
            let next = ids@.take(i + 1);
            assert(next.drop_last() =~= seen);
            assert(next.last() == ids@[i as int]);
            assert forall|id: u64|
                match #[trigger] index_for(next, id) {
                    Some(k) => m@.contains_key(id) && m@[id] == k,
                    None => !m@.contains_key(id),
                } by {
                if id != ids@[i as int] {
                    assert(index_for(next, id) == index_for(seen, id));
                }
            }
        }
        i += 1;
    }
    assert(ids@.take(ids@.len() as int) =~= ids@);
    m
}

/// Looks an id up in the map of places.
pub fn look_up(m: &HashMap<u64, usize>, ids: &Vec<u64>, id: u64) -> (r: Option<usize>)
    requires
        indexes(m@, ids@),
    ensures
        match index_for(ids@, id) {
            Some(i) => r == Some(i as usize),
            None => r is None,
        },
        r matches Some(i) ==> i < ids@.len() && ids@[i as int] == id,
{
    broadcast use group_hash_axioms;

    proof {
        lemma_index_for(ids@, id);
    }
    match m.get(&id) {
        Some(i) => Some(*i),
        None => None,
    }
}

} // verus!
