//! A declarative binding layer between typed endpoint descriptions and raw
//! HTTP transport messages.
//!
//! An endpoint is declared once: method, path template, authentication
//! requirement, rate-limit flag, and a list of typed fields, each placed in
//! the path, query string, headers, or body.  From that declaration the
//! library builds outgoing messages and parses incoming ones, in both
//! directions, with a proved round trip.

pub mod ident;
pub mod wire;
pub mod descriptor;
pub mod placement;
pub mod marshal;
pub mod endpoints;
