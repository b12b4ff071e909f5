//! Replacement policies of the cache. Only the random policy is
//! implemented; its victim-selection rule is the one policy-specific step.

pub mod random;
