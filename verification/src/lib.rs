//! A declarative HTTP request router and decoder.
//!
//! A [`table::Router`] is built once, at startup, from a list of route
//! descriptors: an HTTP method, a path pattern such as `/users/{id}`, and a
//! description of the value to construct when the route matches. Building the
//! table rejects overlapping patterns, duplicate routes and ill-formed
//! descriptors, and synthesizes a `HEAD` route for every `GET` route that has
//! none. Matching an incoming request then resolves to at most one route,
//! extracts and parses the placeholder segments, and drives the decode
//! pipeline: query parameters, guards in declared order, and finally the
//! request body or a forward to a nested router.

pub mod byproxy;
pub mod decode;
pub mod field;
pub mod method;
pub mod pattern;
pub mod strutil;
pub mod table;
