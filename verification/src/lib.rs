//! Sprague-Grundy values of octal games, computed with the rare/common
//! decomposition of the nimber alphabet.
pub mod bitset;
pub mod checkpoint;
pub mod drive;
pub mod game;
pub mod grundy;
pub mod nimber;
pub mod nimber_set;
pub mod nimbers;
pub mod parallel;
pub mod partition;
pub mod period;
pub mod pow2;
pub mod prove;
pub mod report;
pub mod rules;
pub mod scan;
pub mod sieve;
pub mod stats;
pub mod tail;
pub mod tail_laws;
pub mod wide;
pub mod window;
pub mod workers;
