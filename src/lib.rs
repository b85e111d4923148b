//! Snapshots of directory trees and their classified differences, the STUN
//! message encoding, and an Ed25519 identity key pair.
use vstd::prelude::*;

pub mod index;
pub mod key_pair;
pub mod stun;

verus! {

} // verus!
