//! Wire encoding of announcements and the bookkeeping of broadcasts and
//! subscriptions in a media-over-QUIC session, with their contracts.

pub mod buffer;
pub mod coding;
pub mod announce;
pub mod names;
pub mod tracks;
pub mod session;
pub mod messaging;
