//! Monitoring core for an OpenVPN management endpoint: parsing the
//! line-oriented status protocol into client rosters, diffing rosters into
//! connect/disconnect events, and tracking consecutive poll failures to
//! decide when to escalate.

pub mod conf;
pub mod controller;
pub mod diff;
pub mod laws;
pub mod parse;
pub mod records;
