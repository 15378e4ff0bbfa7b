//! The no-op reference policy: accepts any non-empty tier list, tracks
//! nothing, and never moves a file.

use vstd::prelude::*;

use crate::policy_engine::{AccessEvent, ConfigError, PolicyEngine, ReorganizeError};

verus! {

/// A policy that observes events and does nothing with them.
pub struct DummyPolicy {
    pub hot_storage: Vec<u8>,
    pub cold_storage: Vec<Vec<u8>>,
}

impl DummyPolicy {
    pub fn new(hot_storage: Vec<u8>, cold_storage: Vec<Vec<u8>>) -> (r: Self)
        ensures
            r.hot_storage@ == hot_storage@,
            r.cold_storage@ == cold_storage@,
    {
        DummyPolicy { hot_storage, cold_storage }
    }

}

impl PolicyEngine for DummyPolicy {
    open spec fn inv(&self) -> bool {
        true
    }

    /// Accept any configuration with at least one cold tier.
    fn validate_config(hot_storage: &Vec<u8>, cold_storage: &Vec<Vec<u8>>) -> (r: Result<
        (),
        ConfigError,
    >)
        ensures
            r is Ok <==> cold_storage@.len() > 0,
            r is Err ==> (r matches Err(ConfigError::NoColdTier)),
    {
        if cold_storage.len() == 0 {
            Err(ConfigError::NoColdTier)
        } else {
            Ok(())
        }
    }

    fn ingest(&mut self, events: &[AccessEvent])
        ensures
            final(self).hot_storage@ == old(self).hot_storage@,
            final(self).cold_storage@ == old(self).cold_storage@,
    {
    }

    fn reorganize(&mut self) -> (r: Result<(), ReorganizeError>)
        ensures
            r is Ok,
            final(self).hot_storage@ == old(self).hot_storage@,
            final(self).cold_storage@ == old(self).cold_storage@,
    {
        Ok(())
    }
}

} // verus!
