//! The error kinds that game and collection operations report.

use vstd::prelude::*;

verus! {

/// An error from a card-game operation.
///
/// `NotFound` and `AlreadyExists` are the two errors that game
/// orchestration produces: a referenced pile name that does not exist,
/// and a pile created under a name already in use. The remaining kinds
/// are reserved for strict selection policies; the library clamps
/// numeric selections to the available count instead of failing, so it
/// never produces them itself.
#[derive(Debug, Clone, Copy, PartialEq, Eq, Structural)]
pub enum CardAPIError {
    NotFound,
    AlreadyExists,
    NotEnoughCards,
    CardNotInCollection,
    CardAlreadyInCollection,
}

} // verus!
