//! Announcement graph over a snapshot of coin spends: which coins a settlement
//! payment transitively depends on through announcement creations and
//! assertions.

pub mod hash;
pub mod index;
pub mod reach;
pub mod record;
pub mod select;

pub use hash::{derive_announcement_id, same_id, Bytes32};
pub use index::{build_index, AnnouncementIndex, Assertion, Creation, IndexError};
pub use reach::{coins_asserted_by, coins_directly_asserted_by};
pub use record::{flatten, Condition, FlatRecord, SpendRecord};
pub use select::{analyze, is_settlement_payment, settlement_reports, SettlementReport, SETTLEMENT_TAG};
