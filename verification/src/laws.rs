//! What holds of the library as a whole.

pub mod addresses;
pub mod answers;
pub mod claims;
pub mod documents;
pub mod entities;
pub mod exchange;
pub mod incoming;
pub mod listing;
pub mod messages;
pub mod methods;
pub mod order;
pub mod outgoing;
pub mod prefixes;
pub mod receiving;
pub mod sending;
pub mod server;
pub mod tags;
pub mod taking;
pub mod texts;
