//! Policy implementations and the name-to-constructor lookup.

pub mod dummy;
pub mod lru_2q;

use vstd::prelude::*;

use crate::policies::dummy::DummyPolicy;
use crate::policies::lru_2q::{config_ok, path_views, Lru2qPolicy};
use crate::policy_engine::{ConfigError, PolicyEngine};

verus! {

/// Default byte capacity of each bounded tier when none is configured.
pub const DEFAULT_TIER_CAPACITY: u64 = 1073741824;

/// Default bound on the `A1Out` ghost queue.
pub const DEFAULT_A1OUT_CAP: usize = 64;

/// The closed set of policies that can be selected by name at startup.
pub enum SelectedPolicy {
    Dummy(DummyPolicy),
    Lru2q(Lru2qPolicy),
}

/// Look a policy up by name, validate the configuration against it, and
/// build it. Rejects unknown names and configurations the policy refuses.
/// The LRU-2Q policy is built with the default tier capacities.
pub fn make_policy(name: &str, hot_storage: Vec<u8>, cold_storage: Vec<Vec<u8>>) -> (r: Result<
    SelectedPolicy,
    ConfigError,
>)
    ensures
        name@ == "dummy"@ && cold_storage@.len() > 0 ==> r is Ok,
        name@ == "dummy"@ && cold_storage@.len() == 0 ==> (r matches Err(
            ConfigError::NoColdTier,
        )),
        name@ == "lru_2q"@ && config_ok(hot_storage@, path_views(cold_storage@)) ==> r is Ok,
        name@ == "lru_2q"@ && !config_ok(hot_storage@, path_views(cold_storage@)) ==> r is Err,
        name@ != "dummy"@ && name@ != "lru_2q"@ ==> (r matches Err(ConfigError::UnknownPolicy)),
        name@ == "dummy"@ && r is Ok ==> (r matches Ok(SelectedPolicy::Dummy(_))),
        name@ == "lru_2q"@ && r is Ok ==> (r matches Ok(SelectedPolicy::Lru2q(_))),
        r matches Ok(SelectedPolicy::Dummy(p)) ==> p.hot_storage@ == hot_storage@
            && p.cold_storage@ == cold_storage@,
        r matches Ok(SelectedPolicy::Lru2q(p)) ==> p.wf() && p.hot_storage@ == hot_storage@
            && p.cold_storage@ == cold_storage@ && p.fm() == Seq::<
            crate::policies::lru_2q::FileModel,
        >::empty(),
{
    let requested: String = name.to_owned();
    let dummy_name: String = "dummy".to_owned();
    let lru_name: String = "lru_2q".to_owned();
    if requested == dummy_name {
        proof {
            reveal_strlit("dummy");
            reveal_strlit("lru_2q");
            assert("dummy"@.len() != "lru_2q"@.len());
        }
        match DummyPolicy::validate_config(&hot_storage, &cold_storage) {
            Ok(_) => Ok(SelectedPolicy::Dummy(DummyPolicy::new(hot_storage, cold_storage))),
            Err(e) => Err(e),
        }
    } else if requested == lru_name {
        match Lru2qPolicy::validate_config(&hot_storage, &cold_storage) {
            Ok(_) => {
                let n = cold_storage.len();
                let mut capacities: Vec<u64> = Vec::new();
                while capacities.len() < n
                    invariant
                        capacities@.len() <= n,
                    decreases n - capacities@.len(),
                {
                    capacities.push(DEFAULT_TIER_CAPACITY);
                }
                Ok(
                    SelectedPolicy::Lru2q(
                        Lru2qPolicy::new(hot_storage, cold_storage, capacities, DEFAULT_A1OUT_CAP),
                    ),
                )
            },
            Err(e) => Err(e),
        }
    } else {
        Err(ConfigError::UnknownPolicy)
    }
}

} // verus!
