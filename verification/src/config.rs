use vstd::prelude::*;
use crate::{Config, Contract, LedgerView};

verus! {

/// Access to the configuration that a ledger was created with.
pub trait ConfigApi: View<V = LedgerView> + Sized {
    /// The two durations that shape the grants of the ledger.
    fn get_config(&self) -> (config: Config)
        ensures
            config == self@.config,
    ;
}

impl ConfigApi for Contract {
    fn get_config(&self) -> (config: Config) {
        self.config
    }
}

} // verus!
