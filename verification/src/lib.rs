//! Reconstructs, from a gateway's DHCP lease log and its HTTP proxy log, which
//! device issued each HTTP request.
//!
//! The [`calendar`], [`dhcp`] and [`http`] modules hold the line grammars that
//! turn log text into typed records, built on the primitives of [`scan`] and
//! on the [`preamble`] that both logs share. [`replay`] feeds the DHCP log
//! into the lease history of [`index`] and the name [`directory`]; the
//! finished index answers which hardware address held an IP address just
//! before a given instant, by the timelines of [`lease`]. [`correlate`] joins
//! HTTP records against index, directory and allow-list, and [`sink`] spells
//! what the database is told.
pub mod calendar;
pub mod correlate;
pub mod dhcp;
pub mod directory;
pub mod http;
pub mod index;
pub mod lease;
pub mod preamble;
pub mod replay;
pub mod scan;
pub mod sink;
