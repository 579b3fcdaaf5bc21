//! Values that cross the routing interface: positions, legs, itineraries
//! and responses, together with the relation that decides whether two
//! itineraries describe the same journey.

use vstd::prelude::*;
use vstd::std_specs::cmp::PartialEqSpecImpl;

verus! {

/// One hundred-millionth of a degree, in nanodegrees: two angles closer than
/// this are taken to be the same angle.
pub const ANGLE_EPSILON: i64 = 10;

/// A position on the Earth. Latitude and longitude are whole nanodegrees
/// (degrees times 10^9); `stop` names the transit stop at the position, if
/// there is one.
#[derive(Debug, Clone)]
pub struct LatLng {
    pub lat: i64,
    pub lon: i64,
    pub stop: Option<String>,
}

/// The mathematical content of a [`LatLng`].
pub struct LatLngView {
    pub lat: int,
    pub lon: int,
    pub stop: Option<Seq<char>>,
}

/// The characters of an optional string.
pub open spec fn text(s: Option<String>) -> Option<Seq<char>> {
    match s {
        Some(t) => Some(t@),
        None => None,
    }
}

/// Two angles in nanodegrees differ by less than [`ANGLE_EPSILON`].
pub open spec fn near(a: int, b: int) -> bool {
    -(ANGLE_EPSILON as int) < a - b < ANGLE_EPSILON as int
}

impl LatLngView {
    /// Latitude within [-90, 90] degrees and longitude within [-180, 180].
    pub open spec fn in_range(self) -> bool {
        &&& -90_000_000_000 <= self.lat <= 90_000_000_000
        &&& -180_000_000_000 <= self.lon <= 180_000_000_000
    }

    /// Both positions name the same stop and their angles are near each other.
    pub open spec fn coincides(self, other: LatLngView) -> bool {
        &&& near(self.lat, other.lat)
        &&& near(self.lon, other.lon)
        &&& self.stop == other.stop
    }
}

impl View for LatLng {
    type V = LatLngView;

    open spec fn view(&self) -> LatLngView {
        LatLngView { lat: self.lat as int, lon: self.lon as int, stop: text(self.stop) }
    }
}

/// Compares two optional strings by their characters.
pub fn same_text(a: &Option<String>, b: &Option<String>) -> (r: bool)
    ensures
        r == (text(*a) == text(*b)),
{
    match (a, b) {
        (None, None) => true,
        (Some(x), Some(y)) => *x == *y,
        _ => false,
    }
}

fn near_angles(a: i64, b: i64) -> (r: bool)
    ensures
        r == near(a as int, b as int),
{
    let d: i128 = (a as i128) - (b as i128);
    -(ANGLE_EPSILON as i128) < d && d < (ANGLE_EPSILON as i128)
}

/// A copy of an optional string.
pub fn copy_text(a: &Option<String>) -> (r: Option<String>)
    ensures
        text(r) == text(*a),
{
    match a {
        Some(x) => Some(x.clone()),
        None => None,
    }
}

impl LatLng {
    /// A copy of the position.
    pub fn copy(&self) -> (r: LatLng)
        ensures
            r@ == self@,
    {
        LatLng { lat: self.lat, lon: self.lon, stop: copy_text(&self.stop) }
    }

    /// Whether the position lies on the globe.
    pub fn is_valid(&self) -> (r: bool)
        ensures
            r == self@.in_range(),
    {
        -90_000_000_000 <= self.lat && self.lat <= 90_000_000_000 && -180_000_000_000 <= self.lon
            && self.lon <= 180_000_000_000
    }
}

impl PartialEq for LatLng {
    fn eq(&self, other: &LatLng) -> (r: bool) {
        near_angles(self.lat, other.lat) && near_angles(self.lon, other.lon) && same_text(
            &self.stop,
            &other.stop,
        )
    }
}

impl PartialEqSpecImpl for LatLng {
    open spec fn obeys_eq_spec() -> bool {
        true
    }

    open spec fn eq_spec(&self, other: &LatLng) -> bool {
        self@.coincides(other@)
    }
}

/// One leg of an itinerary: a ride on a transit vehicle, or a walk.
/// Times are milliseconds since the Unix epoch.
#[derive(Debug, Clone)]
pub enum SolariLeg {
    Transit {
        start_time: i64,
        end_time: i64,
        start_location: LatLng,
        end_location: LatLng,
        route_shape: Option<String>,
        transit_route: Option<String>,
        transit_agency: Option<String>,
    },
    Transfer {
        start_time: i64,
        end_time: i64,
        start_location: LatLng,
        end_location: LatLng,
        route_shape: Option<String>,
    },
}

/// The mathematical content of a [`SolariLeg`].
pub enum LegView {
    Transit {
        start_time: int,
        end_time: int,
        start_location: LatLngView,
        end_location: LatLngView,
        route_shape: Option<Seq<char>>,
        transit_route: Option<Seq<char>>,
        transit_agency: Option<Seq<char>>,
    },
    Transfer {
        start_time: int,
        end_time: int,
        start_location: LatLngView,
        end_location: LatLngView,
        route_shape: Option<Seq<char>>,
    },
}

impl LegView {
    /// When the leg begins, in milliseconds since the Unix epoch.
    pub open spec fn start_time(self) -> int {
        match self {
            LegView::Transit { start_time, .. } => start_time,
            LegView::Transfer { start_time, .. } => start_time,
        }
    }

    /// When the leg ends, in milliseconds since the Unix epoch.
    pub open spec fn end_time(self) -> int {
        match self {
            LegView::Transit { end_time, .. } => end_time,
            LegView::Transfer { end_time, .. } => end_time,
        }
    }

    /// Where the leg begins.
    pub open spec fn start_location(self) -> LatLngView {
        match self {
            LegView::Transit { start_location, .. } => start_location,
            LegView::Transfer { start_location, .. } => start_location,
        }
    }

    /// Where the leg ends.
    pub open spec fn end_location(self) -> LatLngView {
        match self {
            LegView::Transit { end_location, .. } => end_location,
            LegView::Transfer { end_location, .. } => end_location,
        }
    }

    /// The line that the leg draws on the map, if it carries one.
    pub open spec fn route_shape(self) -> Option<Seq<char>> {
        match self {
            LegView::Transit { route_shape, .. } => route_shape,
            LegView::Transfer { route_shape, .. } => route_shape,
        }
    }

    /// Whether the leg is a ride on a transit vehicle.
    pub open spec fn is_transit(self) -> bool {
        self is Transit
    }

    /// Field by field equality, positions compared by
    /// [`LatLngView::coincides`].
    pub open spec fn same_leg(self, other: LegView) -> bool {
        &&& self.is_transit() == other.is_transit()
        &&& self.start_time() == other.start_time()
        &&& self.end_time() == other.end_time()
        &&& self.start_location().coincides(other.start_location())
        &&& self.end_location().coincides(other.end_location())
        &&& self.route_shape() == other.route_shape()
        &&& (self matches LegView::Transit { transit_route, transit_agency, .. } ==> other matches LegView::Transit {
            transit_route: other_route,
            transit_agency: other_agency,
            ..
        } && transit_route == other_route && transit_agency == other_agency)
    }

    /// Two legs use the same vehicle, or are the same walk, even where the
    /// traveller boards or alights one stop apart.
    ///
    /// Legs of different kinds never match. Two rides match when route and
    /// agency agree, at least one end coincides, each coinciding end has the
    /// same time on both sides, and, where both ends coincide, the shapes
    /// agree. Two walks match when at least one end coincides, at least one
    /// of the two times agrees, and, where both ends coincide, the shapes
    /// agree.
    pub open spec fn equivalent(self, other: LegView) -> bool {
        let same_start = self.start_location().coincides(other.start_location());
        let same_end = self.end_location().coincides(other.end_location());
        match (self, other) {
            (
                LegView::Transit { transit_route, transit_agency, .. },
                LegView::Transit { transit_route: other_route, transit_agency: other_agency, .. },
            ) => {
                &&& transit_route == other_route
                &&& transit_agency == other_agency
                &&& (same_start ==> self.start_time() == other.start_time())
                &&& (same_end ==> self.end_time() == other.end_time())
                &&& (same_start && same_end ==> self.route_shape() == other.route_shape())
                &&& (same_start || same_end)
            },
            (LegView::Transfer { .. }, LegView::Transfer { .. }) => {
                &&& (same_start || same_end)
                &&& (self.start_time() == other.start_time() || self.end_time()
                    == other.end_time())
                &&& (same_start && same_end ==> self.route_shape() == other.route_shape())
            },
            _ => false,
        }
    }
}

impl View for SolariLeg {
    type V = LegView;

    open spec fn view(&self) -> LegView {
        match *self {
            SolariLeg::Transit {
                start_time,
                end_time,
                start_location,
                end_location,
                route_shape,
                transit_route,
                transit_agency,
            } => LegView::Transit {
                start_time: start_time as int,
                end_time: end_time as int,
                start_location: start_location@,
                end_location: end_location@,
                route_shape: text(route_shape),
                transit_route: text(transit_route),
                transit_agency: text(transit_agency),
            },
            SolariLeg::Transfer {
                start_time,
                end_time,
                start_location,
                end_location,
                route_shape,
            } => LegView::Transfer {
                start_time: start_time as int,
                end_time: end_time as int,
                start_location: start_location@,
                end_location: end_location@,
                route_shape: text(route_shape),
            },
        }
    }
}

impl SolariLeg {
    /// When the leg begins, in milliseconds since the Unix epoch.
    pub fn start_time(&self) -> (r: i64)
        ensures
            r == self@.start_time(),
    {
        match self {
            SolariLeg::Transit { start_time, .. } => *start_time,
            SolariLeg::Transfer { start_time, .. } => *start_time,
        }
    }

    /// When the leg ends, in milliseconds since the Unix epoch.
    pub fn end_time(&self) -> (r: i64)
        ensures
            r == self@.end_time(),
    {
        match self {
            SolariLeg::Transit { end_time, .. } => *end_time,
            SolariLeg::Transfer { end_time, .. } => *end_time,
        }
    }

    /// Where the leg begins.
    pub fn start_location(&self) -> (r: &LatLng)
        ensures
            r@ == self@.start_location(),
    {
        match self {
            SolariLeg::Transit { start_location, .. } => start_location,
            SolariLeg::Transfer { start_location, .. } => start_location,
        }
    }

    /// Where the leg ends.
    pub fn end_location(&self) -> (r: &LatLng)
        ensures
            r@ == self@.end_location(),
    {
        match self {
            SolariLeg::Transit { end_location, .. } => end_location,
            SolariLeg::Transfer { end_location, .. } => end_location,
        }
    }

    /// Whether the leg is a ride on a transit vehicle.
    pub fn is_transit(&self) -> (r: bool)
        ensures
            r == self@.is_transit(),
    {
        match self {
            SolariLeg::Transit { .. } => true,
            SolariLeg::Transfer { .. } => false,
        }
    }

    /// Decides [`LegView::equivalent`].
    pub fn equivalent(&self, other: &SolariLeg) -> (r: bool)
        ensures
            r == self@.equivalent(other@),
    {
        let same_start = *self.start_location() == *other.start_location();
        let same_end = *self.end_location() == *other.end_location();
        match (self, other) {
            (
                SolariLeg::Transit {
                    start_time,
                    end_time,
                    route_shape,
                    transit_route,
                    transit_agency,
                    ..
                },
                SolariLeg::Transit {
                    start_time: other_start_time,
                    end_time: other_end_time,
                    route_shape: other_route_shape,
                    transit_route: other_transit_route,
                    transit_agency: other_transit_agency,
                    ..
                },
            ) => {
                same_text(transit_route, other_transit_route) && same_text(
                    transit_agency,
                    other_transit_agency,
                ) && (!same_start || *start_time == *other_start_time) && (!same_end || *end_time
                    == *other_end_time) && (!same_start || !same_end || same_text(
                    route_shape,
                    other_route_shape,
                )) && (same_start || same_end)
            },
            (
                SolariLeg::Transfer { start_time, end_time, route_shape, .. },
                SolariLeg::Transfer {
                    start_time: other_start_time,
                    end_time: other_end_time,
                    route_shape: other_route_shape,
                    ..
                },
            ) => {
                (same_start || same_end) && (*start_time == *other_start_time || *end_time
                    == *other_end_time) && (!same_start || !same_end || same_text(
                    route_shape,
                    other_route_shape,
                ))
            },
            _ => false,
        }
    }
}

impl PartialEq for SolariLeg {
    fn eq(&self, other: &SolariLeg) -> (r: bool) {
        let kinds = self.is_transit() == other.is_transit();
        let ends = self.start_time() == other.start_time() && self.end_time() == other.end_time()
            && *self.start_location() == *other.start_location() && *self.end_location()
            == *other.end_location();
        let rest = match (self, other) {
            (
                SolariLeg::Transit { route_shape, transit_route, transit_agency, .. },
                SolariLeg::Transit {
                    route_shape: other_route_shape,
                    transit_route: other_transit_route,
                    transit_agency: other_transit_agency,
                    ..
                },
            ) => same_text(route_shape, other_route_shape) && same_text(
                transit_route,
                other_transit_route,
            ) && same_text(transit_agency, other_transit_agency),
            (
                SolariLeg::Transfer { route_shape, .. },
                SolariLeg::Transfer { route_shape: other_route_shape, .. },
            ) => same_text(route_shape, other_route_shape),
            _ => false,
        };
        kinds && ends && rest
    }
}

impl PartialEqSpecImpl for SolariLeg {
    open spec fn obeys_eq_spec() -> bool {
        true
    }

    open spec fn eq_spec(&self, other: &SolariLeg) -> bool {
        self@.same_leg(other@)
    }
}

/// A journey from one position to another: its ends, its times in
/// milliseconds since the Unix epoch, and its legs in travel order.
#[derive(Debug, Clone)]
pub struct SolariItinerary {
    pub start_location: LatLng,
    pub end_location: LatLng,
    pub start_time: i64,
    pub end_time: i64,
    pub legs: Vec<SolariLeg>,
}

/// The mathematical content of a [`SolariItinerary`].
pub struct ItineraryView {
    pub start_location: LatLngView,
    pub end_location: LatLngView,
    pub start_time: int,
    pub end_time: int,
    pub legs: Seq<LegView>,
}

/// How many of the legs are rides.
pub open spec fn transit_count(legs: Seq<LegView>) -> nat
    decreases legs.len(),
{
    if legs.len() == 0 {
        0
    } else {
        transit_count(legs.drop_last()) + if legs.last().is_transit() {
            1nat
        } else {
            0nat
        }
    }
}

impl ItineraryView {
    /// The two itineraries have coinciding ends, equal times, equally many
    /// legs, and each leg is [`LegView::equivalent`] to the leg at the same
    /// place in the other.
    pub open spec fn same_journey(self, other: ItineraryView) -> bool {
        &&& self.start_location.coincides(other.start_location)
        &&& self.end_location.coincides(other.end_location)
        &&& self.start_time == other.start_time
        &&& self.end_time == other.end_time
        &&& self.legs.len() == other.legs.len()
        &&& forall|i: int|
            0 <= i < self.legs.len() ==> (#[trigger] self.legs[i]).equivalent(other.legs[i])
    }

    /// How many legs are rides.
    pub open spec fn transit_legs(self) -> nat {
        transit_count(self.legs)
    }

    /// Each leg ends no later than the next one starts, and where the next
    /// one starts.
    pub open spec fn contiguous(self) -> bool {
        forall|i: int|
            0 <= i < self.legs.len() - 1 ==> {
                &&& (#[trigger] self.legs[i]).end_time() <= self.legs[i + 1].start_time()
                &&& self.legs[i].end_location() == self.legs[i + 1].start_location()
            }
    }
}

impl View for SolariItinerary {
    type V = ItineraryView;

    open spec fn view(&self) -> ItineraryView {
        ItineraryView {
            start_location: self.start_location@,
            end_location: self.end_location@,
            start_time: self.start_time as int,
            end_time: self.end_time as int,
            legs: self.legs@.map_values(|l: SolariLeg| l@),
        }
    }
}

impl PartialEq for SolariItinerary {
    fn eq(&self, other: &SolariItinerary) -> (r: bool) {
        let meta = self.start_location == other.start_location && self.end_location
            == other.end_location && self.start_time == other.start_time && self.end_time
            == other.end_time && self.legs.len() == other.legs.len();
        if !meta {
            return false;
        }
        let n = self.legs.len();
        let mut i: usize = 0;
        while i < n
            invariant
                i <= n,
                n == self.legs.len(),
                n == other.legs.len(),
                forall|j: int| 0 <= j < i ==> (#[trigger] self@.legs[j]).equivalent(other@.legs[j]),
            decreases n - i,
        {
            if !self.legs[i].equivalent(&other.legs[i]) {
                assert(!self@.legs[i as int].equivalent(other@.legs[i as int]));
                return false;
            }
            i += 1;
        }
        true
    }
}

impl PartialEqSpecImpl for SolariItinerary {
    open spec fn obeys_eq_spec() -> bool {
        true
    }

    open spec fn eq_spec(&self, other: &SolariItinerary) -> bool {
        self@.same_journey(other@)
    }
}

/// How a routing query ended.
#[derive(Debug, Clone, Copy, PartialEq, Eq, Structural)]
pub enum ResponseStatus {
    Success,
    NoRouteFound,
    TooEarly,
    TooLate,
}

impl ResponseStatus {
    /// The status as it is written on the wire.
    pub fn wire_name(&self) -> (r: &'static str)
        ensures
            r@ == match *self {
                ResponseStatus::Success => "ok"@,
                ResponseStatus::NoRouteFound => "no_route_found"@,
                ResponseStatus::TooEarly => "too_early"@,
                ResponseStatus::TooLate => "too_late"@,
            },
    {
        match self {
            ResponseStatus::Success => "ok",
            ResponseStatus::NoRouteFound => "no_route_found",
            ResponseStatus::TooEarly => "too_early",
            ResponseStatus::TooLate => "too_late",
        }
    }
}

/// The answer to a routing query.
#[derive(Debug, Clone)]
pub struct SolariResponse {
    pub status: ResponseStatus,
    pub itineraries: Vec<SolariItinerary>,
}

/// The mathematical content of a [`SolariResponse`].
pub struct ResponseView {
    pub status: ResponseStatus,
    pub itineraries: Seq<ItineraryView>,
}

impl ResponseView {
    /// Equal status, equally many itineraries, and each itinerary the
    /// [`ItineraryView::same_journey`] as the one at the same place.
    pub open spec fn same_answer(self, other: ResponseView) -> bool {
        &&& self.status == other.status
        &&& self.itineraries.len() == other.itineraries.len()
        &&& forall|i: int|
            0 <= i < self.itineraries.len() ==> (#[trigger] self.itineraries[i]).same_journey(
                other.itineraries[i],
            )
    }
}

impl View for SolariResponse {
    type V = ResponseView;

    open spec fn view(&self) -> ResponseView {
        ResponseView {
            status: self.status,
            itineraries: self.itineraries@.map_values(|it: SolariItinerary| it@),
        }
    }
}

impl PartialEq for SolariResponse {
    fn eq(&self, other: &SolariResponse) -> (r: bool) {
        if !(self.status == other.status && self.itineraries.len() == other.itineraries.len()) {
            return false;
        }
        let n = self.itineraries.len();
        let mut i: usize = 0;
        while i < n
            invariant
                i <= n,
                n == self.itineraries.len(),
                n == other.itineraries.len(),
                forall|j: int|
                    0 <= j < i ==> (#[trigger] self@.itineraries[j]).same_journey(
                        other@.itineraries[j],
                    ),
            decreases n - i,
        {
            if !(self.itineraries[i] == other.itineraries[i]) {
                assert(!self@.itineraries[i as int].same_journey(other@.itineraries[i as int]));
                return false;
            }
            i += 1;
        }
        true
    }
}

impl PartialEqSpecImpl for SolariResponse {
    open spec fn obeys_eq_spec() -> bool {
        true
    }

    open spec fn eq_spec(&self, other: &SolariResponse) -> bool {
        self@.same_answer(other@)
    }
}

/// A leg as an earlier revision of the interface wrote it, without a shape
/// on walks.
#[derive(Debug, Clone)]
pub enum FareboxLeg {
    Transit {
        start_time: i64,
        end_time: i64,
        start_location: LatLng,
        end_location: LatLng,
        route_shape: Option<String>,
        transit_route: Option<String>,
        transit_agency: Option<String>,
    },
    Transfer { start_time: i64, end_time: i64, start_location: LatLng, end_location: LatLng },
}

/// An itinerary as an earlier revision of the interface wrote it, without
/// its end positions.
#[derive(Debug, Clone)]
pub struct FareboxItinerary {
    pub start_time: i64,
    pub end_time: i64,
    pub legs: Vec<FareboxLeg>,
}

} // verus!
