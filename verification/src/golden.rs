//! Recorded routing cases: what a case holds, how an answer is held
//! against it, and how a difference is shown.

use crate::api::{LatLng, SolariResponse};
use crate::dates::{ce_days, epoch_day, since_epoch, Date};
use crate::geo::Place;
use crate::route::{Query, Time};
use vstd::prelude::*;
use vstd::string::StringExecFns;

verus! {

/// The days that a set of recorded cases was compiled for.
#[derive(Debug, Clone, Copy, PartialEq, Eq, Structural)]
pub struct TimetableParams {
    pub start_date: Date,
    pub num_days: u16,
}

/// Noon of the day after the day that lies `day` days after 1 January 1970,
/// in seconds since the Unix epoch.
pub open spec fn noon_after(day: i32) -> int {
    (day + 1) * 86_400 + 43_200
}

/// The moment at which a new case is recorded: noon, universal time, of
/// the day after the first day of the parameters.
pub fn recording_time(params: &TimetableParams) -> (r: Option<i64>)
    ensures
        r == match since_epoch(
            ce_days(params.start_date.year, params.start_date.month, params.start_date.day),
        ) {
            Some(day) => Some(noon_after(day) as i64),
            None => None,
        },
{
    match epoch_day(&params.start_date) {
        Some(day) => Some((day as i64 + 1) * 86_400 + 43_200),
        None => None,
    }
}

/// A moment in seconds since the Unix epoch as the router takes it: the low
/// 32 bits.
pub fn query_seconds(unix_timestamp: i64) -> (r: u32)
    ensures
        r == unix_timestamp as int % 0x1_0000_0000,
{
    let low: i64 = unix_timestamp & 0xffff_ffff;
    assert(0 <= low < 0x1_0000_0000 && low == unix_timestamp as int % 0x1_0000_0000) by (bit_vector)
        requires
            low == unix_timestamp & 0xffff_ffff,
    ;
    low as u32
}

/// A recorded case: a query and, once it has been recorded, the answer
/// that is expected. `start_time` is in seconds since the Unix epoch.
#[derive(Debug, Clone)]
pub struct Golden {
    pub from_location: LatLng,
    pub to_location: LatLng,
    pub start_time: i64,
    pub route: Option<SolariResponse>,
}

/// How an answer compares with a recorded case.
#[derive(Debug, Clone, Copy, PartialEq, Eq, Structural)]
pub enum Outcome {
    /// The case holds no expected answer.
    MissingRoute,
    /// The answer is the expected one.
    Passed,
    /// The answer differs from the expected one.
    Failed,
}

/// Holds an answer against a recorded case.
pub fn judge(golden: &Golden, route: &SolariResponse) -> (r: Outcome)
    ensures
        r == match golden.route {
            None => Outcome::MissingRoute,
            Some(expected) => if expected@.same_answer(route@) {
                Outcome::Passed
            } else {
                Outcome::Failed
            },
        },
{
    match &golden.route {
        None => Outcome::MissingRoute,
        Some(expected) => if *expected == *route {
            Outcome::Passed
        } else {
            Outcome::Failed
        },
    }
}

/// The query that a recorded case stands for: a walk of up to 1500 metres,
/// up to 1000 itineraries, 4 stops near the origin and 2 near the
/// destination.
pub fn golden_query(golden: &Golden) -> (q: Query)
    ensures
        q.start_time.epoch_seconds == golden.start_time as int % 0x1_0000_0000,
        q.from@ == golden.from_location@,
        q.to@ == golden.to_location@,
        q.max_walk_m == Some(1500u32),
        q.max_itineraries == Some(1000u32),
        q.max_access_stops == Some(4u32),
        q.max_egress_stops == Some(2u32),
        q.max_rounds == None::<u32>,
{
    Query {
        start_time: Time::from_epoch_seconds(query_seconds(golden.start_time)),
        from: golden.from_location.copy(),
        to: golden.to_location.copy(),
        max_walk_m: Some(1500),
        max_itineraries: Some(1000),
        max_access_stops: Some(4),
        max_egress_stops: Some(2),
        max_rounds: None,
    }
}

/// Whether every case of a suite judged so far has passed.
#[derive(Debug, Clone, Copy, PartialEq, Eq, Structural)]
pub struct Tally {
    pub all_ok: bool,
}

impl Tally {
    /// The tally of a suite of which no case has been judged.
    pub fn new() -> (t: Tally)
        ensures
            t.all_ok,
    {
        Tally { all_ok: true }
    }

    /// The tally after one more outcome: it stays good only where the case
    /// passed.
    pub fn record(self, outcome: Outcome) -> (t: Tally)
        ensures
            t.all_ok == (self.all_ok && outcome == Outcome::Passed),
    {
        Tally { all_ok: self.all_ok && outcome == Outcome::Passed }
    }
}

/// What a line of a difference says of its text.
#[derive(Debug, Clone, Copy, PartialEq, Eq, Structural)]
pub enum ChangeKind {
    Delete,
    Insert,
    Equal,
}

/// One line of a difference between two texts.
#[derive(Debug, Clone)]
pub struct DiffLine {
    pub kind: ChangeKind,
    pub text: String,
}

/// The mathematical content of a [`DiffLine`].
pub struct DiffLineView {
    pub kind: ChangeKind,
    pub text: Seq<char>,
}

impl View for DiffLine {
    type V = DiffLineView;

    open spec fn view(&self) -> DiffLineView {
        DiffLineView { kind: self.kind, text: self.text@ }
    }
}

/// The lines in which `similar` tells two texts apart, each with the text
/// that `similar` prints for it.
pub uninterp spec fn changes_of(old: Seq<char>, new: Seq<char>) -> Seq<DiffLineView>;

/// Compares two texts line by line with `similar::TextDiff::from_lines` and
/// lists the changes of `iter_all_changes`, each with its tag and the text
/// that its `Display` gives. The contract gives the result its name and
/// claims nothing else of it.
#[verifier::external_body]
fn line_changes(old: &str, new: &str) -> (r: Vec<DiffLine>)
    ensures
        r@.map_values(|l: DiffLine| l@) == changes_of(old@, new@),
{
    similar::TextDiff::from_lines(old, new).iter_all_changes().map(
        |c| DiffLine {
            kind: match c.tag() {
                similar::ChangeTag::Delete => ChangeKind::Delete,
                similar::ChangeTag::Insert => ChangeKind::Insert,
                similar::ChangeTag::Equal => ChangeKind::Equal,
            },
            text: c.to_string(),
        },
    ).collect()
}

/// The sign that a shown line starts with.
pub open spec fn sign_of(kind: ChangeKind) -> Seq<char> {
    match kind {
        ChangeKind::Delete => "-"@,
        ChangeKind::Insert => "+"@,
        ChangeKind::Equal => " "@,
    }
}

/// The lines of a difference as they are shown: each with its sign in
/// front, one after the other.
pub open spec fn shown(lines: Seq<DiffLineView>) -> Seq<char>
    decreases lines.len(),
{
    if lines.len() == 0 {
        Seq::empty()
    } else {
        shown(lines.drop_last()) + sign_of(lines.last().kind) + lines.last().text
    }
}

/// Writes the lines of a difference as they are shown.
pub fn show_changes(lines: &Vec<DiffLine>) -> (r: String)
    ensures
        r@ == shown(lines@.map_values(|l: DiffLine| l@)),
{
    let ghost all = lines@.map_values(|l: DiffLine| l@);
    let mut out = String::new();
    let mut i: usize = 0;
    assert(all.take(0) =~= Seq::<DiffLineView>::empty());
    while i < lines.len()
        invariant
            i <= lines@.len(),
            all == lines@.map_values(|l: DiffLine| l@),
            out@ == shown(all.take(i as int)),
        decreases lines@.len() - i,
    {
        let sign = match lines[i].kind {
            ChangeKind::Delete => "-",
            ChangeKind::Insert => "+",
            ChangeKind::Equal => " ",
        };
        out.append(sign);
        out.append(lines[i].text.as_str());
        proof {
            assert(all.take(i + 1).drop_last() =~= all.take(i as int));
            assert(all.take(i + 1).last() == lines@[i as int]@);
        }
        i += 1;
    }
    assert(all.take(lines@.len() as int) =~= all);
    out
}

/// The difference between an expected and an actual text as it is shown:
/// the lines in which `similar` tells them apart, each with its sign.
pub fn golden_diff(old: &str, new: &str) -> (r: String)
    ensures
        r@ == shown(changes_of(old@, new@)),
{
    let lines = line_changes(old, new);
    show_changes(&lines)
}

/// What the recording of new cases waits for.
#[derive(Debug, Clone, Copy, PartialEq, Eq, Structural)]
pub enum Recording {
    /// The name of the next case.
    Name,
    /// The address of the origin.
    From,
    /// The place of the origin's address.
    FromPlace,
    /// The address of the destination.
    To { from: Option<Place> },
    /// The place of the destination's address.
    ToPlace { from: Option<Place> },
}

/// What happened while new cases are recorded.
#[derive(Debug, Clone, Copy, PartialEq, Eq, Structural)]
pub enum Heard {
    /// The user entered a line.
    Line { empty: bool },
    /// The look-up of an address came back.
    Place { at: Option<Place> },
}

/// What the recording does next.
#[derive(Debug, Clone, Copy, PartialEq, Eq, Structural)]
pub enum Next {
    /// Ask for the address of the origin.
    AskFrom,
    /// Ask for the address of the destination.
    AskTo,
    /// Look up the address that was entered.
    LookUp,
    /// Route from one place to the other, record the case, and ask for the
    /// name of the next.
    Record { from: Place, to: Place },
    /// End the recording.
    Finish,
    /// A destination was found for a case without an origin.
    NoOrigin,
}

/// One step of the recording of new cases.
///
/// An empty name ends the recording. An empty address of the origin leaves
/// the case without one; an address that cannot be found is asked for again.
/// An empty address of the destination ends the recording. A case with both
/// places is recorded, one with a destination alone is a fault.
pub open spec fn recording_step(state: Recording, heard: Heard) -> (Recording, Next) {
    match (state, heard) {
        (Recording::Name, Heard::Line { empty }) => if empty {
            (Recording::Name, Next::Finish)
        } else {
            (Recording::From, Next::AskFrom)
        },
        (Recording::From, Heard::Line { empty }) => if empty {
            (Recording::To { from: None }, Next::AskTo)
        } else {
            (Recording::FromPlace, Next::LookUp)
        },
        (Recording::FromPlace, Heard::Place { at }) => match at {
            Some(p) => (Recording::To { from: Some(p) }, Next::AskTo),
            None => (Recording::From, Next::AskFrom),
        },
        (Recording::To { from }, Heard::Line { empty }) => if empty {
            (Recording::Name, Next::Finish)
        } else {
            (Recording::ToPlace { from }, Next::LookUp)
        },
        (Recording::ToPlace { from }, Heard::Place { at }) => match at {
            Some(q) => match from {
                Some(p) => (Recording::Name, Next::Record { from: p, to: q }),
                None => (Recording::Name, Next::NoOrigin),
            },
            None => (Recording::To { from }, Next::AskTo),
        },
        _ => (Recording::Name, Next::Finish),
    }
}

/// Computes [`recording_step`].
pub fn record_step(state: Recording, heard: Heard) -> (r: (Recording, Next))
    ensures
        r == recording_step(state, heard),
{
    match (state, heard) {
        (Recording::Name, Heard::Line { empty }) => if empty {
            (Recording::Name, Next::Finish)
        } else {
            (Recording::From, Next::AskFrom)
        },
        (Recording::From, Heard::Line { empty }) => if empty {
            (Recording::To { from: None }, Next::AskTo)
        } else {
            (Recording::FromPlace, Next::LookUp)
        },
        (Recording::FromPlace, Heard::Place { at }) => match at {
            Some(p) => (Recording::To { from: Some(p) }, Next::AskTo),
            None => (Recording::From, Next::AskFrom),
        },
        (Recording::To { from }, Heard::Line { empty }) => if empty {
            (Recording::Name, Next::Finish)
        } else {
            (Recording::ToPlace { from }, Next::LookUp)
        },
        (Recording::ToPlace { from }, Heard::Place { at }) => match at {
            Some(q) => match from {
                Some(p) => (Recording::Name, Next::Record { from: p, to: q }),
                None => (Recording::Name, Next::NoOrigin),
            },
            None => (Recording::To { from }, Next::AskTo),
        },
        _ => (Recording::Name, Next::Finish),
    }
}

} // verus!
