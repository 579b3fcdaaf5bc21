//! Solari: a public-transport journey planner.
//!
//! Given an origin, a destination and a time to start, the planner answers
//! with the itineraries that no other beats both in arrival time and in the
//! number of vehicles ridden. Every executable function carries a contract
//! that Verus proves.
//!
//! Reading a feed: [`gtfs`] reads the text files of a feed into rows,
//! [`fields`] reads the numbers, times, dates and angles of their fields,
//! [`feed`] tells on which days a service runs, and [`assemble`] puts the rows
//! together. [`patterns`] groups trips into route patterns, [`compile`] makes
//! the timetable of a feed, and [`merge`] merges the timetables of several
//! feeds. [`timetable`] and [`view`] hold the data model.
//!
//! Walking: [`geo`] measures distances on the globe, [`walks`] finds walking
//! times on the road network, and [`transfers`] builds the table of walks
//! between stops.
//!
//! Routing: [`raptor`] runs the round-based search, [`journey`] reads
//! journeys back from its labels, [`itinerary`] writes them as itineraries,
//! and [`route`] answers a query. [`api`] holds the values of the interface.
//!
//! Storing: [`artifact`] says what the files of a timetable mean, [`writer`]
//! writes them, [`reader`] opens them, and [`layout`] reads and writes their
//! integers.
//!
//! Around it: [`args`] holds the arguments of a build, [`dates`] counts days,
//! and [`golden`] holds recorded routing cases against answers.

pub mod api;
pub mod args;
pub mod artifact;
pub mod assemble;
pub mod compile;
pub mod dates;
pub mod feed;
pub mod fields;
pub mod geo;
pub mod golden;
pub mod gtfs;
pub mod itinerary;
pub mod journey;
pub mod layout;
pub mod merge;
pub mod patterns;
pub mod raptor;
pub mod reader;
pub mod route;
pub mod timetable;
pub mod transfers;
pub mod view;
pub mod walks;
pub mod writer;
