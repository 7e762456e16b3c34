//! A user's stable delivery endpoint: one mixnode drawn from a given set
//! of layers, remembered by id and compromise flag.

use vstd::prelude::*;

use crate::mixnode::Mixnode;
use crate::rng::{gen_index, rng_from_entropy};

verus! {

/// A mailbox: the identifier and compromise flag of the mixnode chosen to
/// hold a user's inbound traffic.
#[derive(Clone, Copy, Debug, PartialEq, Eq, Structural)]
pub struct MailBox {
    pub mixid: u32,
    pub is_malicious: bool,
}

impl MailBox {
    /// Construct a mailbox by uniformly choosing one of the given layers,
    /// then uniformly choosing a mixnode within it.
    pub fn new(from_layers: &[Vec<Mixnode>]) -> (m: MailBox)
        requires
            from_layers@.len() > 0,
            forall|i: int| 0 <= i < from_layers@.len() ==> #[trigger] from_layers@[i]@.len() > 0,
        ensures
            exists|i: int, j: int|
                0 <= i < from_layers@.len() && 0 <= j < from_layers@[i]@.len() && m.mixid == (
                #[trigger] from_layers@[i]@[j]).mixid && m.is_malicious
                    == from_layers@[i]@[j].is_malicious,
    {
        let mut rng = rng_from_entropy();
        let li = gen_index(&mut rng, from_layers.len());
        let layer = &from_layers[li];
        let mi = gen_index(&mut rng, layer.len());
        let mixnode = &layer[mi];
        let m = MailBox { mixid: mixnode.mixid, is_malicious: mixnode.is_malicious };
        proof {
            assert(0 <= li < from_layers@.len() && 0 <= mi < from_layers@[li as int]@.len()
                && m.mixid == from_layers@[li as int]@[mi as int].mixid && m.is_malicious
                == from_layers@[li as int]@[mi as int].is_malicious);
        }
        m
    }
}

} // verus!
