//! `tome`: a central limit order book with price-time-priority matching.
//!
//! Two engines implement the [`Engine`] trait: [`OrderBook`] keeps its price
//! levels in a `BTreeMap`, [`LadderBook`] in a flat array indexed by tick and
//! backed by an occupancy bitmap. Both are verified against one mathematical
//! model of a book, [`model::Book`], so they agree on every operation.

pub mod bitset;
pub mod book;
pub mod engine;
pub mod journal;
pub mod ladder;
pub mod laws;
pub mod ledger;
pub mod model;
pub mod pool;
pub mod promises;
pub mod shelf;
pub mod sim;
pub mod types;

pub use book::OrderBook;
pub use engine::Engine;
pub use journal::{Event, Outcome};
pub use ladder::LadderBook;
pub use types::{L2Snapshot, Level2, OrderId, Price, Qty, Side, SubmitResult, Trade};
