//! Monte-Carlo estimation of the "100 prisoners" puzzle under several
//! search strategies, with every strategy's outcome stated and proved.
pub mod permutation;
pub mod random;
pub mod strategy;
pub mod trials;
