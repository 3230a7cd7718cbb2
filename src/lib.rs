//! Probability that a randomly generated relic matches a quality predicate.
//!
//! Every probability is computed exactly: a probability is a finite sum of
//! fractions of integers, and the contracts state each term.
pub mod combinatorics;
pub mod laws;
pub mod names;
pub mod outcomes;
pub mod probability;
pub mod ratio;
pub mod relic;
pub mod roll_result;
pub mod sampling;
pub mod stat;

pub use names::{parse_slot, parse_stat};
pub use outcomes::SubstatIterator;
pub use probability::{AnyRelic, AtLeastLines, ConditionalRelicProbabilityCalculator, RelicFilter};
pub use ratio::Ratio;
pub use relic::Relic;
pub use roll_result::{RollResult, RollResultIterator};
pub use stat::{RelicSlot, RelicStat};
