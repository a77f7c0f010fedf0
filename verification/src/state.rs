use vstd::prelude::*;

use crate::config::{ClientKeyConfig, DownstreamKeyConfig};
use crate::middleware::auth::ClientKeySet;
use crate::storage::models::{ClientKeyModel, DownstreamKeyModel};

verus! {

/// How the accepted client keys are set up at start: from the database, or,
/// when it has none and the configuration has some, from the configuration,
/// which is then written to the database.
pub struct ClientKeyPlan {
    /// Whether the configured keys must be written to the database.
    pub seed_from_config: bool,
    /// The keys the proxy accepts.
    pub keys: ClientKeySet,
}

/// How the downstream keys are set up at start, in the same way as the
/// client keys.
pub struct DownstreamKeyPlan {
    /// Whether the configured keys must be written to the database.
    pub seed_from_config: bool,
    /// The keys the pool is built from, in order.
    pub keys: Vec<DownstreamKeyConfig>,
}

/// The configuration seeds the database when the database has no key and
/// the configuration has some.
pub open spec fn seeds(stored: nat, configured: nat) -> bool {
    stored == 0 && configured > 0
}

/// Chooses the accepted client keys from the stored and the configured ones.
pub fn plan_client_keys(stored: &Vec<ClientKeyModel>, configured: &Vec<ClientKeyConfig>) -> (r: ClientKeyPlan)
    ensures
        r.seed_from_config == seeds(stored@.len(), configured@.len()),
        r.seed_from_config ==> r.keys@ == Set::new(
            |k: Seq<char>| exists|i: int| 0 <= i < configured@.len() && #[trigger] configured@[i].key@ == k,
        ),
        !r.seed_from_config ==> r.keys@ == Set::new(
            |k: Seq<char>| exists|i: int| 0 <= i < stored@.len() && #[trigger] stored@[i].key@ == k,
        ),
{
    let mut keys = ClientKeySet::new();
    if stored.len() == 0 && configured.len() > 0 {
        let mut i: usize = 0;
        while i < configured.len()
            invariant
                0 <= i <= configured@.len(),
                keys@ == Set::new(
                    |k: Seq<char>| exists|j: int| 0 <= j < i && #[trigger] configured@[j].key@ == k,
                ),
            decreases configured@.len() - i,
        {
            let ghost before = keys@;
            keys.insert(configured[i].key.clone());
            proof {
                assert forall|k: Seq<char>| keys@.contains(k) == (exists|j: int| 0 <= j < i + 1 && #[trigger] configured@[j].key@ == k) by {
                    if k == configured@[i as int].key@ {
                        assert(configured@[i as int].key@ == k);
                    }
                }
                assert(keys@ =~= Set::new(
                    |k: Seq<char>| exists|j: int| 0 <= j < i + 1 && #[trigger] configured@[j].key@ == k,
                ));
            }
            i = i + 1;
        }
        ClientKeyPlan { seed_from_config: true, keys }
    } else {
        let mut i: usize = 0;
        while i < stored.len()
            invariant
                0 <= i <= stored@.len(),
                keys@ == Set::new(
                    |k: Seq<char>| exists|j: int| 0 <= j < i && #[trigger] stored@[j].key@ == k,
                ),
            decreases stored@.len() - i,
        {
            keys.insert(stored[i].key.clone());
            proof {
                assert forall|k: Seq<char>| keys@.contains(k) == (exists|j: int| 0 <= j < i + 1 && #[trigger] stored@[j].key@ == k) by {
                    if k == stored@[i as int].key@ {
                        assert(stored@[i as int].key@ == k);
                    }
                }
                assert(keys@ =~= Set::new(
                    |k: Seq<char>| exists|j: int| 0 <= j < i + 1 && #[trigger] stored@[j].key@ == k,
                ));
            }
            i = i + 1;
        }
        ClientKeyPlan { seed_from_config: false, keys }
    }
}

/// Chooses the downstream keys from the stored and the configured ones. A
/// stored weight keeps its low 32 bits.
pub fn plan_downstream_keys(stored: &Vec<DownstreamKeyModel>, configured: &Vec<DownstreamKeyConfig>) -> (r: DownstreamKeyPlan)
    ensures
        r.seed_from_config == seeds(stored@.len(), configured@.len()),
        r.seed_from_config ==> r.keys@.len() == configured@.len() && forall|i: int|
            0 <= i < configured@.len() ==> #[trigger] r.keys@[i].key@ == configured@[i].key@
                && r.keys@[i].weight == configured@[i].weight,
        !r.seed_from_config ==> r.keys@.len() == stored@.len() && forall|i: int|
            0 <= i < stored@.len() ==> #[trigger] r.keys@[i].key@ == stored@[i].key@
                && r.keys@[i].weight == stored@[i].weight as u32,
{
    let mut keys: Vec<DownstreamKeyConfig> = Vec::new();
    if stored.len() == 0 && configured.len() > 0 {
        let mut i: usize = 0;
        while i < configured.len()
            invariant
                0 <= i <= configured@.len(),
                keys@.len() == i,
                forall|j: int|
                    0 <= j < i ==> #[trigger] keys@[j].key@ == configured@[j].key@ && keys@[j].weight
                        == configured@[j].weight,
            decreases configured@.len() - i,
        {
            keys.push(DownstreamKeyConfig { key: configured[i].key.clone(), weight: configured[i].weight });
            i = i + 1;
        }
        DownstreamKeyPlan { seed_from_config: true, keys }
    } else {
        let mut i: usize = 0;
        while i < stored.len()
            invariant
                0 <= i <= stored@.len(),
                keys@.len() == i,
                forall|j: int|
                    0 <= j < i ==> #[trigger] keys@[j].key@ == stored@[j].key@ && keys@[j].weight
                        == stored@[j].weight as u32,
            decreases stored@.len() - i,
        {
            keys.push(DownstreamKeyConfig { key: stored[i].key.clone(), weight: stored[i].weight as u32 });
            i = i + 1;
        }
        DownstreamKeyPlan { seed_from_config: false, keys }
    }
}

} // verus!
