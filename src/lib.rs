pub mod distance;
pub mod threshold;
pub mod search;
pub mod refine;
pub mod resolve;
pub mod rename;
pub mod fingerprint;
pub mod stream;
pub mod partition;
