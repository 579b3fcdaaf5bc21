//! Writes a timetable into its files.

use crate::artifact::{
    pattern_in, route_in, span_in, stop_in, text_in, times_in, transfers_in, trip_in, walks_in,
    Artifact, MAGIC, PATTERN_CELLS, ROUTE_CELLS, STOP_CELLS, TRIP_CELLS, VERSION,
};
use crate::layout::{bias, cells, push_cell, push_word, words};
use crate::artifact::{sound, written};
use crate::timetable::{
    bitmap_len, trip_fits, Pattern, Route, Stop, StopTime, Timetable, Transfer, Trip,
};
use crate::fields::stable_id_bytes;
use std::collections::HashMap;
use vstd::prelude::*;
use vstd::std_specs::hash::*;
use vstd::utf8::{encode_utf8, encode_utf8_decode_utf8, encode_utf8_valid_utf8};

verus! {

/// Where a text lies in the file of text.
#[derive(Debug, Clone, Copy, PartialEq, Eq, Structural)]
pub struct TextRef {
    pub off: u64,
    pub len: u64,
}

/// The text at `r` is `text`.
pub open spec fn holds_text(strings: Seq<u8>, r: TextRef, text: Seq<char>) -> bool {
    text_in(strings, r.off, r.len) == Some(text)
}

/// Text that a file holds stays where it is when the file grows.
pub proof fn lemma_text_kept(a: Seq<u8>, b: Seq<u8>, r: TextRef, text: Seq<char>)
    requires
        a.is_prefix_of(b),
        holds_text(a, r, text),
    ensures
        holds_text(b, r, text),
{
    assert(b.subrange(r.off as int, r.off + r.len) =~= a.subrange(r.off as int, r.off + r.len));
}

/// Appends a text to the file of text.
pub fn put_text(strings: &mut Vec<u8>, s: &str) -> (r: TextRef)
    ensures
        old(strings)@.is_prefix_of(final(strings)@),
        holds_text(final(strings)@, r, s@),
{
    let off = strings.len();
    let bytes = s.as_bytes();
    let len = bytes.len();
    strings.extend_from_slice(bytes);
    proof {
        let after = strings@;
        assert(old(strings)@.is_prefix_of(after));
        assert(after.subrange(off as int, off + len) =~= encode_utf8(s@));
        encode_utf8_valid_utf8(s@);
        encode_utf8_decode_utf8(s@);
    }
    TextRef { off: off as u64, len: len as u64 }
}

/// Decides whether the file holds the bytes at a place.
pub fn holds_bytes(strings: &Vec<u8>, r: TextRef, bytes: &[u8]) -> (held: bool)
    ensures
        held == (r.off + r.len <= strings@.len() && strings@.subrange(r.off as int, r.off + r.len)
            == bytes@),
{
    if r.off as u128 + r.len as u128 > strings.len() as u128 || r.len as u128 != bytes.len() as u128 {
        return false;
    }
    let off = r.off as usize;
    let len = r.len as usize;
    let total = strings.len();
    let mut i: usize = 0;
    while i < len
        invariant
            i <= len,
            off == r.off,
            len == r.len,
            total == strings@.len(),
            off + len <= total,
            len == bytes@.len(),
            forall|k: int| 0 <= k < i ==> strings@[off + k] == bytes@[k],
        decreases len - i,
    {
        if strings[off + i] != bytes[i] {
            assert(strings@.subrange(off as int, off + len)[i as int] != bytes@[i as int]);
            return false;
        }
        i += 1;
    }
    assert(strings@.subrange(off as int, off + len) =~= bytes@);
    true
}

/// Puts a text into the file of text once: a text that the file holds
/// already, at a place that `seen` remembers, is not appended again.
pub fn put_text_once(strings: &mut Vec<u8>, seen: &mut HashMap<u64, TextRef>, s: &str) -> (r:
    TextRef)
    ensures
        old(strings)@.is_prefix_of(final(strings)@),
        holds_text(final(strings)@, r, s@),
{
    broadcast use group_hash_axioms;

    let bytes = s.as_bytes();
    let key = stable_id_bytes(bytes);
    let known = match seen.get(&key) {
        Some(r) => Some(*r),
        None => None,
    };
    match known {
        Some(r) => {
            if holds_bytes(strings, r, bytes) {
                proof {
                    encode_utf8_valid_utf8(s@);
                    encode_utf8_decode_utf8(s@);
                }
                return r;
            }
        },
        None => {},
    }
    let r = put_text(strings, s);
    seen.insert(key, r);
    r
}

/// Appends 64-bit integers to a file.
pub fn push_cells(out: &mut Vec<u8>, record: &Vec<u64>)
    requires
        old(out)@.len() % 8 == 0,
    ensures
        final(out)@.len() % 8 == 0,
        cells(final(out)@) == cells(old(out)@) + record@,
{
    let mut j: usize = 0;
    assert(cells(out@) =~= cells(old(out)@) + record@.take(0));
    while j < record.len()
        invariant
            j <= record@.len(),
            out@.len() % 8 == 0,
            cells(out@) == cells(old(out)@) + record@.take(j as int),
        decreases record@.len() - j,
    {
        push_cell(out, record[j]);
        assert(cells(out@) =~= cells(old(out)@) + record@.take(j + 1));
        j += 1;
    }
    assert(record@.take(record@.len() as int) =~= record@);
}

/// Appends 32-bit integers to a file.
pub fn push_words(out: &mut Vec<u8>, list: &Vec<u32>)
    requires
        old(out)@.len() % 4 == 0,
    ensures
        final(out)@.len() % 4 == 0,
        words(final(out)@) == words(old(out)@) + list@,
{
    let mut j: usize = 0;
    assert(words(out@) =~= words(old(out)@) + list@.take(0));
    while j < list.len()
        invariant
            j <= list@.len(),
            out@.len() % 4 == 0,
            words(out@) == words(old(out)@) + list@.take(j as int),
        decreases list@.len() - j,
    {
        push_word(out, list[j]);
        assert(words(out@) =~= words(old(out)@) + list@.take(j + 1));
        j += 1;
    }
    assert(list@.take(list@.len() as int) =~= list@);
}

/// The pairs of the times, arrival first.
pub open spec fn time_words(times: Seq<StopTime>) -> Seq<u32> {
    Seq::new(
        2 * times.len(),
        |j: int|
            if j % 2 == 0 {
                times[j / 2].arrival
            } else {
                times[j / 2].departure
            },
    )
}

/// The pairs of the walks, the stop first.
pub open spec fn walk_words(walks: Seq<Transfer>) -> Seq<u32> {
    Seq::new(
        2 * walks.len(),
        |j: int|
            if j % 2 == 0 {
                walks[j / 2].to
            } else {
                walks[j / 2].seconds
            },
    )
}

/// Appends pairs of times to a file.
pub fn push_times(out: &mut Vec<u8>, times: &Vec<StopTime>)
    requires
        old(out)@.len() % 4 == 0,
    ensures
        final(out)@.len() % 4 == 0,
        words(final(out)@) == words(old(out)@) + time_words(times@),
{
    let mut j: usize = 0;
    assert(words(out@) =~= words(old(out)@) + time_words(times@.take(0)));
    while j < times.len()
        invariant
            j <= times@.len(),
            out@.len() % 4 == 0,
            words(out@) == words(old(out)@) + time_words(times@.take(j as int)),
        decreases times@.len() - j,
    {
        push_word(out, times[j].arrival);
        push_word(out, times[j].departure);
        assert(words(out@) =~= words(old(out)@) + time_words(times@.take(j + 1)));
        j += 1;
    }
    assert(times@.take(times@.len() as int) =~= times@);
}

/// Appends pairs of walks to a file.
pub fn push_walks(out: &mut Vec<u8>, walks: &Vec<Transfer>)
    requires
        old(out)@.len() % 4 == 0,
    ensures
        final(out)@.len() % 4 == 0,
        words(final(out)@) == words(old(out)@) + walk_words(walks@),
{
    let mut j: usize = 0;
    assert(words(out@) =~= words(old(out)@) + walk_words(walks@.take(0)));
    while j < walks.len()
        invariant
            j <= walks@.len(),
            out@.len() % 4 == 0,
            words(out@) == words(old(out)@) + walk_words(walks@.take(j as int)),
        decreases walks@.len() - j,
    {
        push_word(out, walks[j].to);
        push_word(out, walks[j].seconds);
        assert(words(out@) =~= words(old(out)@) + walk_words(walks@.take(j + 1)));
        j += 1;
    }
    assert(walks@.take(walks@.len() as int) =~= walks@);
}

/// A list appended at integer `first` of a file is read back from there.
pub proof fn lemma_span_written(before: Seq<u32>, list: Seq<u32>, first: u64)
    requires
        first == before.len(),
        list.len() <= u64::MAX,
    ensures
        span_in(before + list, first, list.len() as u64) == Some(list),
{
    assert((before + list).subrange(first as int, first + list.len()) =~= list);
}

/// Pairs of times appended at pair `first` of a file are read back from
/// there.
pub proof fn lemma_times_written(before: Seq<u32>, times: Seq<StopTime>, first: u64)
    requires
        2 * first == before.len(),
        times.len() <= u64::MAX,
    ensures
        times_in(before + time_words(times), first, times.len() as u64) == Some(times),
{
    let file = before + time_words(times);
    assert(times_in(file, first, times.len() as u64).unwrap() =~= times);
}

/// Pairs of walks appended at pair `first` of a file are read back from
/// there.
pub proof fn lemma_walks_written(before: Seq<u32>, walks: Seq<Transfer>, first: u64, end: u64)
    requires
        2 * first == before.len(),
        end == first + walks.len(),
    ensures
        walks_in(before + walk_words(walks), first, end) == Some(walks),
{
    let file = before + walk_words(walks);
    assert(walks_in(file, first, end).unwrap() =~= walks);
}

/// What a file of 32-bit integers holds stays where it is when the file
/// grows.
pub proof fn lemma_span_kept(a: Seq<u32>, b: Seq<u32>, first: u64, count: u64)
    requires
        a.is_prefix_of(b),
        span_in(a, first, count) is Some,
    ensures
        span_in(b, first, count) == span_in(a, first, count),
        times_in(a, first, count) is Some ==> times_in(b, first, count) == times_in(
            a,
            first,
            count,
        ),
{
    assert(b.subrange(first as int, first + count) =~= a.subrange(first as int, first + count));
    if times_in(a, first, count) is Some {
        assert(times_in(b, first, count).unwrap() =~= times_in(a, first, count).unwrap());
    }
}

/// The times that a file holds stay where they are when the file grows.
pub proof fn lemma_times_kept(a: Seq<u32>, b: Seq<u32>, first: u64, count: u64)
    requires
        a.is_prefix_of(b),
        times_in(a, first, count) is Some,
    ensures
        times_in(b, first, count) == times_in(a, first, count),
{
    assert(times_in(b, first, count).unwrap() =~= times_in(a, first, count).unwrap());
}

/// The walks that a file holds stay where they are when the file grows.
pub proof fn lemma_walks_kept(a: Seq<u32>, b: Seq<u32>, first: u64, end: u64)
    requires
        a.is_prefix_of(b),
        walks_in(a, first, end) is Some,
    ensures
        walks_in(b, first, end) == walks_in(a, first, end),
{
    assert(walks_in(b, first, end).unwrap() =~= walks_in(a, first, end).unwrap());
}

/// Each of the texts lies at its place in the file of text.
pub open spec fn all_hold(strings: Seq<u8>, refs: Seq<TextRef>, texts: Seq<Seq<char>>) -> bool {
    &&& refs.len() == texts.len()
    &&& forall|k: int| 0 <= k < refs.len() ==> holds_text(strings, #[trigger] refs[k], texts[k])
}

/// Texts that a file holds stay where they are when the file grows.
pub proof fn lemma_all_kept(a: Seq<u8>, b: Seq<u8>, refs: Seq<TextRef>, texts: Seq<Seq<char>>)
    requires
        a.is_prefix_of(b),
        all_hold(a, refs, texts),
    ensures
        all_hold(b, refs, texts),
{
    assert forall|k: int| 0 <= k < refs.len() implies holds_text(b, #[trigger] refs[k], texts[k]) by {
        lemma_text_kept(a, b, refs[k], texts[k]);
    }
}

/// One more text that the file holds.
pub proof fn lemma_all_push(
    strings: Seq<u8>,
    refs: Seq<TextRef>,
    texts: Seq<Seq<char>>,
    r: TextRef,
    text: Seq<char>,
)
    requires
        all_hold(strings, refs, texts),
        holds_text(strings, r, text),
    ensures
        all_hold(strings, refs.push(r), texts.push(text)),
{
    let refs2 = refs.push(r);
    let texts2 = texts.push(text);
    assert forall|k: int| 0 <= k < refs2.len() implies holds_text(
        strings,
        #[trigger] refs2[k],
        texts2[k],
    ) by {
        if k < refs.len() {
            assert(refs2[k] == refs[k] && texts2[k] == texts[k]);
        }
    }
}

/// The codes of the stops.
pub open spec fn codes_of(stops: Seq<Stop>) -> Seq<Seq<char>> {
    Seq::new(stops.len(), |i: int| stops[i].code@)
}

/// The names of the stops.
pub open spec fn names_of(stops: Seq<Stop>) -> Seq<Seq<char>> {
    Seq::new(stops.len(), |i: int| stops[i].name@)
}

/// The agencies of the routes.
pub open spec fn agencies_of(routes: Seq<Route>) -> Seq<Seq<char>> {
    Seq::new(routes.len(), |i: int| routes[i].agency@)
}

/// The short names of the routes.
pub open spec fn short_names_of(routes: Seq<Route>) -> Seq<Seq<char>> {
    Seq::new(routes.len(), |i: int| routes[i].short_name@)
}

/// The long names of the routes.
pub open spec fn long_names_of(routes: Seq<Route>) -> Seq<Seq<char>> {
    Seq::new(routes.len(), |i: int| routes[i].long_name@)
}

/// The headsigns of the trips.
pub open spec fn headsigns_of(trips: Seq<Trip>) -> Seq<Seq<char>> {
    Seq::new(trips.len(), |i: int| trips[i].headsign@)
}

/// The file of text of a timetable, and where each text lies in it.
pub struct Texts {
    pub strings: Vec<u8>,
    pub tiles: TextRef,
    pub codes: Vec<TextRef>,
    pub names: Vec<TextRef>,
    pub agencies: Vec<TextRef>,
    pub short_names: Vec<TextRef>,
    pub long_names: Vec<TextRef>,
    pub headsigns: Vec<TextRef>,
}

impl Texts {
    /// The file holds every text of the timetable at its place.
    pub open spec fn of(&self, tt: &Timetable) -> bool {
        &&& holds_text(self.strings@, self.tiles, tt.valhalla_tiles@)
        &&& all_hold(self.strings@, self.codes@, codes_of(tt.stops@))
        &&& all_hold(self.strings@, self.names@, names_of(tt.stops@))
        &&& all_hold(self.strings@, self.agencies@, agencies_of(tt.routes@))
        &&& all_hold(self.strings@, self.short_names@, short_names_of(tt.routes@))
        &&& all_hold(self.strings@, self.long_names@, long_names_of(tt.routes@))
        &&& all_hold(self.strings@, self.headsigns@, headsigns_of(tt.trips@))
    }
}

/// Puts the codes and the names of the stops into the file of text.
#[verifier::rlimit(50)]
fn put_stop_texts(
    strings: &mut Vec<u8>,
    seen: &mut HashMap<u64, TextRef>,
    stops: &Vec<Stop>,
) -> (r: (Vec<TextRef>, Vec<TextRef>))
    ensures
        old(strings)@.is_prefix_of(final(strings)@),
        all_hold(final(strings)@, r.0@, codes_of(stops@)),
        all_hold(final(strings)@, r.1@, names_of(stops@)),
{
    let mut codes: Vec<TextRef> = Vec::new();
    let mut names: Vec<TextRef> = Vec::new();
    let mut i: usize = 0;
    assert(codes_of(stops@).take(0) =~= Seq::<Seq<char>>::empty());
    assert(names_of(stops@).take(0) =~= Seq::<Seq<char>>::empty());
    while i < stops.len()
        invariant
            i <= stops@.len(),
            old(strings)@.is_prefix_of(strings@),
            all_hold(strings@, codes@, codes_of(stops@).take(i as int)),
            all_hold(strings@, names@, names_of(stops@).take(i as int)),
        decreases stops@.len() - i,
    {
        let ghost s0 = strings@;
        let code = put_text_once(strings, seen, stops[i].code.as_str());
        let ghost s1 = strings@;
        let name = put_text_once(strings, seen, stops[i].name.as_str());
        proof {
            let s2 = strings@;
            let ct = codes_of(stops@).take(i as int);
            let nt = names_of(stops@).take(i as int);
            assert(s0.is_prefix_of(s2));
            lemma_text_kept(s1, s2, code, stops@[i as int].code@);
            lemma_all_kept(s0, s2, codes@, ct);
            lemma_all_kept(s0, s2, names@, nt);
            lemma_all_push(s2, codes@, ct, code, stops@[i as int].code@);
            lemma_all_push(s2, names@, nt, name, stops@[i as int].name@);
            assert(codes_of(stops@).take(i + 1) =~= ct.push(stops@[i as int].code@));
            assert(names_of(stops@).take(i + 1) =~= nt.push(stops@[i as int].name@));
        }
        codes.push(code);
        names.push(name);
        i += 1;
    }
    assert(codes_of(stops@).take(stops@.len() as int) =~= codes_of(stops@));
    assert(names_of(stops@).take(stops@.len() as int) =~= names_of(stops@));
    (codes, names)
}

/// Puts the agencies and the names of the routes into the file of text.
#[verifier::rlimit(50)]
fn put_route_texts(
    strings: &mut Vec<u8>,
    seen: &mut HashMap<u64, TextRef>,
    routes: &Vec<Route>,
) -> (r: (Vec<TextRef>, Vec<TextRef>, Vec<TextRef>))
    ensures
        old(strings)@.is_prefix_of(final(strings)@),
        all_hold(final(strings)@, r.0@, agencies_of(routes@)),
        all_hold(final(strings)@, r.1@, short_names_of(routes@)),
        all_hold(final(strings)@, r.2@, long_names_of(routes@)),
{
    let mut agencies: Vec<TextRef> = Vec::new();
    let mut short_names: Vec<TextRef> = Vec::new();
    let mut long_names: Vec<TextRef> = Vec::new();
    let mut i: usize = 0;
    assert(agencies_of(routes@).take(0) =~= Seq::<Seq<char>>::empty());
    assert(short_names_of(routes@).take(0) =~= Seq::<Seq<char>>::empty());
    assert(long_names_of(routes@).take(0) =~= Seq::<Seq<char>>::empty());
    while i < routes.len()
        invariant
            i <= routes@.len(),
            old(strings)@.is_prefix_of(strings@),
            all_hold(strings@, agencies@, agencies_of(routes@).take(i as int)),
            all_hold(strings@, short_names@, short_names_of(routes@).take(i as int)),
            all_hold(strings@, long_names@, long_names_of(routes@).take(i as int)),
        decreases routes@.len() - i,
    {
        let ghost s0 = strings@;
        let agency = put_text_once(strings, seen, routes[i].agency.as_str());
        let ghost s1 = strings@;
        let short_name = put_text_once(strings, seen, routes[i].short_name.as_str());
        let ghost s2 = strings@;
        let long_name = put_text_once(strings, seen, routes[i].long_name.as_str());
        proof {
            let s3 = strings@;
            let at = agencies_of(routes@).take(i as int);
            let st = short_names_of(routes@).take(i as int);
            let lt = long_names_of(routes@).take(i as int);
            let route = routes@[i as int];
            assert(s0.is_prefix_of(s3) && s1.is_prefix_of(s3));
            lemma_text_kept(s1, s3, agency, route.agency@);
            lemma_text_kept(s2, s3, short_name, route.short_name@);
            lemma_all_kept(s0, s3, agencies@, at);
            lemma_all_kept(s0, s3, short_names@, st);
            lemma_all_kept(s0, s3, long_names@, lt);
            lemma_all_push(s3, agencies@, at, agency, route.agency@);
            lemma_all_push(s3, short_names@, st, short_name, route.short_name@);
            lemma_all_push(s3, long_names@, lt, long_name, route.long_name@);
            assert(agencies_of(routes@).take(i + 1) =~= at.push(route.agency@));
            assert(short_names_of(routes@).take(i + 1) =~= st.push(route.short_name@));
            assert(long_names_of(routes@).take(i + 1) =~= lt.push(route.long_name@));
        }
        agencies.push(agency);
        short_names.push(short_name);
        long_names.push(long_name);
        i += 1;
    }
    assert(agencies_of(routes@).take(routes@.len() as int) =~= agencies_of(routes@));
    assert(short_names_of(routes@).take(routes@.len() as int) =~= short_names_of(routes@));
    assert(long_names_of(routes@).take(routes@.len() as int) =~= long_names_of(routes@));
    (agencies, short_names, long_names)
}

/// Puts the headsigns of the trips into the file of text.
fn put_trip_texts(
    strings: &mut Vec<u8>,
    seen: &mut HashMap<u64, TextRef>,
    trips: &Vec<Trip>,
) -> (headsigns: Vec<TextRef>)
    ensures
        old(strings)@.is_prefix_of(final(strings)@),
        all_hold(final(strings)@, headsigns@, headsigns_of(trips@)),
{
    let mut headsigns: Vec<TextRef> = Vec::new();
    let mut i: usize = 0;
    assert(headsigns_of(trips@).take(0) =~= Seq::<Seq<char>>::empty());
    while i < trips.len()
        invariant
            i <= trips@.len(),
            old(strings)@.is_prefix_of(strings@),
            all_hold(strings@, headsigns@, headsigns_of(trips@).take(i as int)),
        decreases trips@.len() - i,
    {
        let ghost s0 = strings@;
        let headsign = put_text_once(strings, seen, trips[i].headsign.as_str());
        proof {
            let s1 = strings@;
            let ht = headsigns_of(trips@).take(i as int);
            lemma_all_kept(s0, s1, headsigns@, ht);
            lemma_all_push(s1, headsigns@, ht, headsign, trips@[i as int].headsign@);
            assert(headsigns_of(trips@).take(i + 1) =~= ht.push(trips@[i as int].headsign@));
        }
        headsigns.push(headsign);
        i += 1;
    }
    assert(headsigns_of(trips@).take(trips@.len() as int) =~= headsigns_of(trips@));
    headsigns
}

/// Writes the file of text: the path of the road tiles, then code and name
/// of each stop, then agency and names of each route, then the headsign of
/// each trip, each text once.
pub fn write_texts(tt: &Timetable) -> (texts: Texts)
    ensures
        texts.of(tt),
{
    let mut strings: Vec<u8> = Vec::new();
    let mut seen: HashMap<u64, TextRef> = HashMap::new();
    let tiles = put_text_once(&mut strings, &mut seen, tt.valhalla_tiles.as_str());
    let ghost s0 = strings@;
    let (codes, names) = put_stop_texts(&mut strings, &mut seen, &tt.stops);
    let ghost s1 = strings@;
    let (agencies, short_names, long_names) = put_route_texts(&mut strings, &mut seen, &tt.routes);
    let ghost s2 = strings@;
    let headsigns = put_trip_texts(&mut strings, &mut seen, &tt.trips);
    proof {
        let s3 = strings@;
        assert(s0.is_prefix_of(s3) && s1.is_prefix_of(s3));
        lemma_text_kept(s0, s3, tiles, tt.valhalla_tiles@);
        lemma_all_kept(s1, s3, codes@, codes_of(tt.stops@));
        lemma_all_kept(s1, s3, names@, names_of(tt.stops@));
        lemma_all_kept(s2, s3, agencies@, agencies_of(tt.routes@));
        lemma_all_kept(s2, s3, short_names@, short_names_of(tt.routes@));
        lemma_all_kept(s2, s3, long_names@, long_names_of(tt.routes@));
    }
    Texts { strings, tiles, codes, names, agencies, short_names, long_names, headsigns }
}

/// A record of stops that a file holds stays where it is when the file
/// grows.
pub proof fn lemma_stop_kept(a: Seq<u64>, b: Seq<u64>, strings: Seq<u8>, k: int)
    requires
        a.is_prefix_of(b),
        0 <= k,
        STOP_CELLS * (k + 1) <= a.len(),
    ensures
        stop_in(b, strings, k) == stop_in(a, strings, k),
{
    assert(b.subrange(STOP_CELLS * k, STOP_CELLS * k + STOP_CELLS) =~= a.subrange(
        STOP_CELLS * k,
        STOP_CELLS * k + STOP_CELLS,
    ));
}

/// Writes the table of stops.
pub fn write_stops(tt: &Timetable, texts: &Texts) -> (file: Vec<u8>)
    requires
        texts.of(tt),
    ensures
        cells(file@).len() == STOP_CELLS * tt.stops@.len(),
        forall|i: int|
            0 <= i < tt.stops@.len() ==> #[trigger] stop_in(cells(file@), texts.strings@, i) == Some(
                tt.stops@[i]@,
            ),
{
    let mut file: Vec<u8> = Vec::new();
    let mut i: usize = 0;
    assert(cells(file@) =~= Seq::<u64>::empty());
    while i < tt.stops.len()
        invariant
            i <= tt.stops@.len(),
            texts.of(tt),
            file@.len() % 8 == 0,
            cells(file@).len() == STOP_CELLS * i,
            forall|k: int|
                0 <= k < i ==> #[trigger] stop_in(cells(file@), texts.strings@, k) == Some(
                    tt.stops@[k]@,
                ),
        decreases tt.stops@.len() - i,
    {
        let stop = &tt.stops[i];
        assert(codes_of(tt.stops@)[i as int] == stop.code@);
        assert(names_of(tt.stops@)[i as int] == stop.name@);
        let code = texts.codes[i];
        let name = texts.names[i];
        let (has_parent, parent): (u64, u64) = match stop.parent {
            Some(p) => (1, p),
            None => (0, 0),
        };
        let mut record: Vec<u64> = Vec::new();
        record.push(stop.id);
        record.push(bias(stop.lat));
        record.push(bias(stop.lon));
        record.push(has_parent);
        record.push(parent);
        record.push(code.off);
        record.push(code.len);
        record.push(name.off);
        record.push(name.len);
        let ghost before = cells(file@);
        push_cells(&mut file, &record);
        proof {
            let after = cells(file@);
            assert(before.is_prefix_of(after));
            assert(after.subrange(STOP_CELLS * i, STOP_CELLS * i + STOP_CELLS) =~= record@);
            assert forall|k: int| 0 <= k < i + 1 implies #[trigger] stop_in(
                after,
                texts.strings@,
                k,
            ) == Some(tt.stops@[k]@) by {
                if k < i {
                    lemma_stop_kept(before, after, texts.strings@, k);
                    assert(stop_in(before, texts.strings@, k) == Some(tt.stops@[k]@));
                }
            }
        }
        i += 1;
    }
    file
}

/// A record of routes that a file holds stays where it is when the file
/// grows.
pub proof fn lemma_route_kept(a: Seq<u64>, b: Seq<u64>, strings: Seq<u8>, k: int)
    requires
        a.is_prefix_of(b),
        0 <= k,
        ROUTE_CELLS * (k + 1) <= a.len(),
    ensures
        route_in(b, strings, k) == route_in(a, strings, k),
{
    assert(b.subrange(ROUTE_CELLS * k, ROUTE_CELLS * k + ROUTE_CELLS) =~= a.subrange(
        ROUTE_CELLS * k,
        ROUTE_CELLS * k + ROUTE_CELLS,
    ));
}

/// Writes the table of routes.
pub fn write_routes(tt: &Timetable, texts: &Texts) -> (file: Vec<u8>)
    requires
        texts.of(tt),
    ensures
        cells(file@).len() == ROUTE_CELLS * tt.routes@.len(),
        forall|i: int|
            0 <= i < tt.routes@.len() ==> #[trigger] route_in(cells(file@), texts.strings@, i)
                == Some(tt.routes@[i]@),
{
    let mut file: Vec<u8> = Vec::new();
    let mut i: usize = 0;
    assert(cells(file@) =~= Seq::<u64>::empty());
    while i < tt.routes.len()
        invariant
            i <= tt.routes@.len(),
            texts.of(tt),
            file@.len() % 8 == 0,
            cells(file@).len() == ROUTE_CELLS * i,
            forall|k: int|
                0 <= k < i ==> #[trigger] route_in(cells(file@), texts.strings@, k) == Some(
                    tt.routes@[k]@,
                ),
        decreases tt.routes@.len() - i,
    {
        let route = &tt.routes[i];
        assert(agencies_of(tt.routes@)[i as int] == route.agency@);
        assert(short_names_of(tt.routes@)[i as int] == route.short_name@);
        assert(long_names_of(tt.routes@)[i as int] == route.long_name@);
        let agency = texts.agencies[i];
        let short_name = texts.short_names[i];
        let long_name = texts.long_names[i];
        let mut record: Vec<u64> = Vec::new();
        record.push(route.route_type as u64);
        record.push(agency.off);
        record.push(agency.len);
        record.push(short_name.off);
        record.push(short_name.len);
        record.push(long_name.off);
        record.push(long_name.len);
        let ghost before = cells(file@);
        push_cells(&mut file, &record);
        proof {
            let after = cells(file@);
            assert(before.is_prefix_of(after));
            assert(after.subrange(ROUTE_CELLS * i, ROUTE_CELLS * i + ROUTE_CELLS) =~= record@);
            assert forall|k: int| 0 <= k < i + 1 implies #[trigger] route_in(
                after,
                texts.strings@,
                k,
            ) == Some(tt.routes@[k]@) by {
                if k < i {
                    lemma_route_kept(before, after, texts.strings@, k);
                    assert(route_in(before, texts.strings@, k) == Some(tt.routes@[k]@));
                }
            }
        }
        i += 1;
    }
    file
}

/// A record of trips that the files hold stays where it is when the files
/// grow.
pub proof fn lemma_trip_kept(
    a: Seq<u64>,
    a_stops: Seq<u32>,
    a_times: Seq<u32>,
    a_days: Seq<u8>,
    b: Seq<u64>,
    b_stops: Seq<u32>,
    b_times: Seq<u32>,
    b_days: Seq<u8>,
    strings: Seq<u8>,
    width: int,
    k: int,
)
    requires
        a.is_prefix_of(b),
        a_stops.is_prefix_of(b_stops),
        a_times.is_prefix_of(b_times),
        a_days.is_prefix_of(b_days),
        0 <= k,
        0 <= width,
        TRIP_CELLS * (k + 1) <= a.len(),
        trip_in(a, a_stops, a_times, a_days, strings, width, k) is Some,
    ensures
        trip_in(b, b_stops, b_times, b_days, strings, width, k) == trip_in(
            a,
            a_stops,
            a_times,
            a_days,
            strings,
            width,
            k,
        ),
{
    let r = a.subrange(TRIP_CELLS * k, TRIP_CELLS * k + TRIP_CELLS);
    assert(b.subrange(TRIP_CELLS * k, TRIP_CELLS * k + TRIP_CELLS) =~= r);
    lemma_span_kept(a_stops, b_stops, r[4], r[5]);
    lemma_times_kept(a_times, b_times, r[4], r[5]);
    assert(width * k <= width * (k + 1)) by (nonlinear_arith)
        requires
            0 <= width,
            0 <= k,
    ;
    assert(b_days.subrange(width * k, width * (k + 1)) =~= a_days.subrange(
        width * k,
        width * (k + 1),
    ));
}

/// The files of the trips.
pub struct TripFiles {
    pub trips: Vec<u8>,
    pub trip_stops: Vec<u8>,
    pub stop_times: Vec<u8>,
    pub calendar: Vec<u8>,
}

impl TripFiles {
    /// The trip that record `k` of the files holds.
    pub open spec fn trip(&self, strings: Seq<u8>, width: int, k: int) -> Option<crate::view::TripView> {
        trip_in(
            cells(self.trips@),
            words(self.trip_stops@),
            words(self.stop_times@),
            self.calendar@,
            strings,
            width,
            k,
        )
    }
}

/// Writes the table of trips, with the stops, the times and the days of
/// each trip.
#[verifier::rlimit(50)]
pub fn write_trips(tt: &Timetable, texts: &Texts) -> (files: TripFiles)
    requires
        texts.of(tt),
        tt.wf(),
    ensures
        cells(files.trips@).len() == TRIP_CELLS * tt.trips@.len(),
        forall|i: int|
            0 <= i < tt.trips@.len() ==> #[trigger] files.trip(
                texts.strings@,
                bitmap_len(tt.calendar.num_days as int),
                i,
            ) == Some(tt.trips@[i]@),
{
    let ghost width = bitmap_len(tt.calendar.num_days as int);
    let ghost strings = texts.strings@;
    let mut files = TripFiles {
        trips: Vec::new(),
        trip_stops: Vec::new(),
        stop_times: Vec::new(),
        calendar: Vec::new(),
    };
    let mut i: usize = 0;
    assert(cells(files.trips@) =~= Seq::<u64>::empty());
    assert(words(files.trip_stops@) =~= Seq::<u32>::empty());
    assert(words(files.stop_times@) =~= Seq::<u32>::empty());
    while i < tt.trips.len()
        invariant
            i <= tt.trips@.len(),
            texts.of(tt),
            tt.wf(),
            width == bitmap_len(tt.calendar.num_days as int),
            0 <= width,
            strings == texts.strings@,
            files.trips@.len() % 8 == 0,
            files.trip_stops@.len() % 4 == 0,
            files.stop_times@.len() % 4 == 0,
            cells(files.trips@).len() == TRIP_CELLS * i,
            words(files.stop_times@).len() == 2 * words(files.trip_stops@).len(),
            files.calendar@.len() == width * i,
            forall|k: int| 0 <= k < i ==> #[trigger] files.trip(strings, width, k) == Some(tt.trips@[k]@),
        decreases tt.trips@.len() - i,
    {
        let trip = &tt.trips[i];
        proof {
            assert(headsigns_of(tt.trips@)[i as int] == trip.headsign@);
            assert(trip.valid());
            assert(trip_fits(
                *trip,
                tt.stops@.len() as int,
                tt.routes@.len() as int,
                tt.calendar.num_days as int,
            ));
        }
        let headsign = texts.headsigns[i];
        let first = files.trip_stops.len() / 4;
        let count = trip.stops.len();
        let mut record: Vec<u64> = Vec::new();
        record.push(trip.id);
        record.push(trip.route as u64);
        record.push(headsign.off);
        record.push(headsign.len);
        record.push(first as u64);
        record.push(count as u64);
        let ghost a = cells(files.trips@);
        let ghost a_stops = words(files.trip_stops@);
        let ghost a_times = words(files.stop_times@);
        let ghost a_days = files.calendar@;
        let ghost old_files = files;
        push_cells(&mut files.trips, &record);
        push_words(&mut files.trip_stops, &trip.stops);
        push_times(&mut files.stop_times, &trip.times);
        files.calendar.extend_from_slice(trip.days.as_slice());
        proof {
            let b = cells(files.trips@);
            let b_stops = words(files.trip_stops@);
            let b_times = words(files.stop_times@);
            let b_days = files.calendar@;
            assert(b_days =~= a_days + trip.days@);
            assert(a.is_prefix_of(b) && a_stops.is_prefix_of(b_stops) && a_times.is_prefix_of(
                b_times,
            ) && a_days.is_prefix_of(b_days));
            assert(b.subrange(TRIP_CELLS * i, TRIP_CELLS * i + TRIP_CELLS) =~= record@);
            lemma_span_written(a_stops, trip.stops@, first as u64);
            lemma_times_written(a_times, trip.times@, first as u64);
            assert(width * (i + 1) == width * i + width) by (nonlinear_arith);
            assert(b_days.subrange(width * i, width * (i + 1)) =~= trip.days@);
            assert(files.trip(strings, width, i as int) == Some(tt.trips@[i as int]@));
            assert forall|k: int| 0 <= k < i + 1 implies #[trigger] files.trip(strings, width, k)
                == Some(tt.trips@[k]@) by {
                if k < i {
                    assert(old_files.trip(strings, width, k) == Some(tt.trips@[k]@));
                    lemma_trip_kept(
                        a,
                        a_stops,
                        a_times,
                        a_days,
                        b,
                        b_stops,
                        b_times,
                        b_days,
                        strings,
                        width,
                        k,
                    );
                }
            }
        }
        i += 1;
    }
    files
}

/// A record of patterns that the files hold stays where it is when the
/// files grow.
pub proof fn lemma_pattern_kept(
    a: Seq<u64>,
    a_stops: Seq<u32>,
    a_trips: Seq<u32>,
    b: Seq<u64>,
    b_stops: Seq<u32>,
    b_trips: Seq<u32>,
    k: int,
)
    requires
        a.is_prefix_of(b),
        a_stops.is_prefix_of(b_stops),
        a_trips.is_prefix_of(b_trips),
        0 <= k,
        PATTERN_CELLS * (k + 1) <= a.len(),
        pattern_in(a, a_stops, a_trips, k) is Some,
    ensures
        pattern_in(b, b_stops, b_trips, k) == pattern_in(a, a_stops, a_trips, k),
{
    let r = a.subrange(PATTERN_CELLS * k, PATTERN_CELLS * k + PATTERN_CELLS);
    assert(b.subrange(PATTERN_CELLS * k, PATTERN_CELLS * k + PATTERN_CELLS) =~= r);
    lemma_span_kept(a_stops, b_stops, r[1], r[2]);
    lemma_span_kept(a_trips, b_trips, r[3], r[4]);
}

/// The files of the patterns.
pub struct PatternFiles {
    pub patterns: Vec<u8>,
    pub pattern_stops: Vec<u8>,
    pub pattern_trips: Vec<u8>,
}

impl PatternFiles {
    /// The pattern that record `k` of the files holds.
    pub open spec fn pattern(&self, k: int) -> Option<crate::view::PatternView> {
        pattern_in(cells(self.patterns@), words(self.pattern_stops@), words(self.pattern_trips@), k)
    }
}

/// Writes the table of patterns, with the stops and the trips of each.
#[verifier::rlimit(50)]
pub fn write_patterns(tt: &Timetable) -> (files: PatternFiles)
    ensures
        cells(files.patterns@).len() == PATTERN_CELLS * tt.patterns@.len(),
        forall|i: int|
            0 <= i < tt.patterns@.len() ==> #[trigger] files.pattern(i) == Some(tt.patterns@[i]@),
{
    let mut files = PatternFiles {
        patterns: Vec::new(),
        pattern_stops: Vec::new(),
        pattern_trips: Vec::new(),
    };
    let mut i: usize = 0;
    assert(cells(files.patterns@) =~= Seq::<u64>::empty());
    assert(words(files.pattern_stops@) =~= Seq::<u32>::empty());
    assert(words(files.pattern_trips@) =~= Seq::<u32>::empty());
    while i < tt.patterns.len()
        invariant
            i <= tt.patterns@.len(),
            files.patterns@.len() % 8 == 0,
            files.pattern_stops@.len() % 4 == 0,
            files.pattern_trips@.len() % 4 == 0,
            cells(files.patterns@).len() == PATTERN_CELLS * i,
            forall|k: int| 0 <= k < i ==> #[trigger] files.pattern(k) == Some(tt.patterns@[k]@),
        decreases tt.patterns@.len() - i,
    {
        let pattern = &tt.patterns[i];
        let stops_first = files.pattern_stops.len() / 4;
        let trips_first = files.pattern_trips.len() / 4;
        let mut record: Vec<u64> = Vec::new();
        record.push(pattern.lane as u64);
        record.push(stops_first as u64);
        record.push(pattern.stops.len() as u64);
        record.push(trips_first as u64);
        record.push(pattern.trips.len() as u64);
        let ghost a = cells(files.patterns@);
        let ghost a_stops = words(files.pattern_stops@);
        let ghost a_trips = words(files.pattern_trips@);
        let ghost old_files = files;
        push_cells(&mut files.patterns, &record);
        push_words(&mut files.pattern_stops, &pattern.stops);
        push_words(&mut files.pattern_trips, &pattern.trips);
        proof {
            let b = cells(files.patterns@);
            let b_stops = words(files.pattern_stops@);
            let b_trips = words(files.pattern_trips@);
            assert(a.is_prefix_of(b) && a_stops.is_prefix_of(b_stops) && a_trips.is_prefix_of(
                b_trips,
            ));
            assert(b.subrange(PATTERN_CELLS * i, PATTERN_CELLS * i + PATTERN_CELLS) =~= record@);
            lemma_span_written(a_stops, pattern.stops@, stops_first as u64);
            lemma_span_written(a_trips, pattern.trips@, trips_first as u64);
            assert(files.pattern(i as int) == Some(tt.patterns@[i as int]@));
            assert forall|k: int| 0 <= k < i + 1 implies #[trigger] files.pattern(k) == Some(
                tt.patterns@[k]@,
            ) by {
                if k < i {
                    assert(old_files.pattern(k) == Some(tt.patterns@[k]@));
                    lemma_pattern_kept(a, a_stops, a_trips, b, b_stops, b_trips, k);
                }
            }
        }
        i += 1;
    }
    files
}

/// The files of the walks.
pub struct WalkFiles {
    pub transfers: Vec<u8>,
    pub transfer_offsets: Vec<u8>,
}

impl WalkFiles {
    /// The walks out of stop `s` that the files hold.
    pub open spec fn walks(&self, s: int) -> Option<Seq<Transfer>> {
        transfers_in(cells(self.transfer_offsets@), words(self.transfers@), s)
    }
}

/// Writes the table of walks: the walks of all stops one after the other,
/// and for each stop the place where its walks begin.
#[verifier::rlimit(50)]
pub fn write_table(tt: &Timetable) -> (files: WalkFiles)
    ensures
        cells(files.transfer_offsets@).len() == tt.transfers@.len() + 1,
        forall|s: int|
            0 <= s < tt.transfers@.len() ==> #[trigger] files.walks(s) == Some(tt.transfers@[s]@),
{
    let mut files = WalkFiles { transfers: Vec::new(), transfer_offsets: Vec::new() };
    assert(cells(files.transfer_offsets@) =~= Seq::<u64>::empty());
    assert(words(files.transfers@) =~= Seq::<u32>::empty());
    push_cell(&mut files.transfer_offsets, 0);
    let mut s: usize = 0;
    while s < tt.transfers.len()
        invariant
            s <= tt.transfers@.len(),
            files.transfer_offsets@.len() % 8 == 0,
            files.transfers@.len() % 4 == 0,
            cells(files.transfer_offsets@).len() == s + 1,
            2 * cells(files.transfer_offsets@)[s as int] == words(files.transfers@).len(),
            forall|k: int| 0 <= k < s ==> #[trigger] files.walks(k) == Some(tt.transfers@[k]@),
        decreases tt.transfers@.len() - s,
    {
        let list = &tt.transfers[s];
        let ghost a = cells(files.transfer_offsets@);
        let ghost a_walks = words(files.transfers@);
        let ghost old_files = files;
        push_walks(&mut files.transfers, list);
        let end = files.transfers.len() / 8;
        push_cell(&mut files.transfer_offsets, end as u64);
        proof {
            let b = cells(files.transfer_offsets@);
            let b_walks = words(files.transfers@);
            assert(b_walks.len() == a_walks.len() + 2 * list@.len());
            assert(files.transfers@.len() / 4 == b_walks.len());
            assert(end == b_walks.len() / 2);
            assert(a_walks.is_prefix_of(b_walks));
            lemma_walks_written(a_walks, list@, a[s as int], end as u64);
            assert(b[s as int] == a[s as int] && b[s + 1] == end);
            assert forall|k: int| 0 <= k < s + 1 implies #[trigger] files.walks(k) == Some(
                tt.transfers@[k]@,
            ) by {
                if k < s {
                    assert(old_files.walks(k) == Some(tt.transfers@[k]@));
                    assert(b[k] == a[k] && b[k + 1] == a[k + 1]);
                    lemma_walks_kept(a_walks, b_walks, a[k], a[k + 1]);
                }
            }
        }
        s += 1;
    }
    files
}

/// Writes a timetable into its files.
///
/// The files are readable and hold the timetable: opened again, they give
/// a timetable of the same content.
#[verifier::rlimit(50)]
pub fn write(tt: &Timetable) -> (a: Artifact)
    requires
        tt.wf(),
    ensures
        written(tt, &a),
        a@.fault() is None,
{
    let texts = write_texts(tt);
    let stops = write_stops(tt, &texts);
    let routes = write_routes(tt, &texts);
    let trip_files = write_trips(tt, &texts);
    let pattern_files = write_patterns(tt);
    let walk_files = write_table(tt);
    let mut record: Vec<u64> = Vec::new();
    record.push(MAGIC);
    record.push(VERSION);
    record.push(tt.stops.len() as u64);
    record.push(tt.routes.len() as u64);
    record.push(tt.trips.len() as u64);
    record.push(tt.patterns.len() as u64);
    record.push((tt.calendar.start_day as i64 + 0x8000_0000) as u64);
    record.push(tt.calendar.num_days as u64);
    record.push(texts.tiles.off);
    record.push(texts.tiles.len);
    let mut manifest: Vec<u8> = Vec::new();
    assert(cells(manifest@) =~= Seq::<u64>::empty());
    push_cells(&mut manifest, &record);
    assert(cells(manifest@) =~= record@);
    let a = Artifact {
        manifest,
        stops,
        routes,
        patterns: pattern_files.patterns,
        pattern_stops: pattern_files.pattern_stops,
        pattern_trips: pattern_files.pattern_trips,
        trips: trip_files.trips,
        trip_stops: trip_files.trip_stops,
        stop_times: trip_files.stop_times,
        calendar: trip_files.calendar,
        transfers: walk_files.transfers,
        transfer_offsets: walk_files.transfer_offsets,
        strings: texts.strings,
    };
    proof {
        let t = a@;
        assert(t.width() == bitmap_len(tt.calendar.num_days as int));
        assert forall|i: int| 0 <= i < t.n_stops() implies #[trigger] t.stop(i) == Some(tt.stops@[i]@) by {
            assert(stop_in(cells(a.stops@), a.strings@, i) == Some(tt.stops@[i]@));
        }
        assert forall|i: int| 0 <= i < t.n_routes() implies #[trigger] t.route(i) == Some(
            tt.routes@[i]@,
        ) by {
            assert(route_in(cells(a.routes@), a.strings@, i) == Some(tt.routes@[i]@));
        }
        assert forall|i: int| 0 <= i < t.n_trips() implies #[trigger] t.trip(i) == Some(tt.trips@[i]@) by {
            assert(trip_files.trip(a.strings@, t.width(), i) == Some(tt.trips@[i]@));
        }
        assert forall|i: int| 0 <= i < t.n_patterns() implies #[trigger] t.pattern(i) == Some(
            tt.patterns@[i]@,
        ) by {
            assert(pattern_files.pattern(i) == Some(tt.patterns@[i]@));
        }
        assert forall|i: int| 0 <= i < t.n_stops() implies #[trigger] t.walks(i) == Some(
            tt.transfers@[i]@,
        ) by {
            assert(walk_files.walks(i) == Some(tt.transfers@[i]@));
        }
        assert(t.counted());
        assert(t.readable());
        let v = t.value();
        assert(v.stops =~= tt@.stops);
        assert(v.routes =~= tt@.routes);
        assert(v.trips =~= tt@.trips);
        assert(v.patterns =~= tt@.patterns);
        assert(v.transfers =~= tt@.transfers);
        assert(v.calendar == tt@.calendar);
        assert(v.valhalla_tiles == tt@.valhalla_tiles);
        assert(sound(v));
    }
    a
}

} // verus!
