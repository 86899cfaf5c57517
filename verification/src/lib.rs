//! A record bridge between a building-automation field bus and a
//! publish/subscribe message broker.
//!
//! The bridge binds strongly typed record values — switch states and
//! commands ([`switch`]), temperature readings ([`temperature`]) — to
//! inbound sources and outbound sinks, buffering values for independent
//! consumers.  Two wire encodings are spoken: the bus's compact binary
//! telegram format ([`dpt`]) and the broker's flat textual object format
//! ([`text`]).  Buffer cells with latest-value and bounded ring
//! disciplines live in [`cell`], and the declarative assembly of record
//! specifications into a running bridge in [`bridge`].

pub mod bridge;
pub mod cell;
pub mod dpt;
pub mod errors;
pub mod switch;
pub mod temperature;
pub mod text;
