//! Monte-Carlo simulator for deanonymization risk in a layered mix network.
//!
//! A set of time-ordered topologies (mixnodes tagged with layer, weight and a
//! compromise flag) is loaded once; simulated users then draw message timings
//! from a behavioural model, paths are sampled through the layers, and each
//! emitted record says whether the whole route (plus an optional mailbox hop)
//! was adversarial.

pub mod channels;
pub mod config;
pub mod histogram;
pub mod loopixemailmodel;
pub mod mailbox;
pub mod mixerror;
pub mod mixnode;
pub mod parse;
pub mod render;
pub mod userasyncmodel;
pub mod usermodel;
pub mod rng;
pub mod routesim;
pub mod shared;
pub mod simplemodel;
pub mod weighted;

pub use mixerror::MixError;
pub use mixnode::Mixnode;
pub use userasyncmodel::UserRequest;
