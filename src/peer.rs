//! Peer identity.
use vstd::prelude::*;

verus! {

/// The prefix that names this client in its peer ids: `-RS0100-`.
pub open spec fn client_prefix() -> Seq<u8> {
    seq![45u8, 82, 83, 48, 49, 48, 48, 45]
}

/// Relies on `rand::thread_rng` and `Rng::fill` (rand 0.8): twelve random
/// bytes; nothing is promised of their values.
#[verifier::external_body]
fn random_suffix() -> (r: [u8; 12]) {
    let mut b = [0u8; 12];
    rand::Rng::fill(&mut rand::thread_rng(), &mut b[..]);
    b
}

/// A peer id made of the client prefix followed by `suffix`.
pub fn peer_id_with_suffix(suffix: [u8; 12]) -> (r: [u8; 20])
    ensures
        r@ == client_prefix() + suffix@,
{
    let mut id = [0u8; 20];
    id[0] = 45;
    id[1] = 82;
    id[2] = 83;
    id[3] = 48;
    id[4] = 49;
    id[5] = 48;
    id[6] = 48;
    id[7] = 45;
    let mut i: usize = 0;
    while i < 12
        invariant
            i <= 12,
            id@.subrange(0, 8) == client_prefix(),
            forall|k: int| 0 <= k < i ==> id@[8 + k] == suffix@[k],
        decreases 12 - i,
    {
        id[8 + i] = suffix[i];
        i = i + 1;
        assert(id@.subrange(0, 8) =~= client_prefix());
    }
    assert(id@ =~= client_prefix() + suffix@);
    id
}

/// A fresh peer id: the client prefix followed by twelve random bytes.
pub fn generate_peer_id() -> (r: [u8; 20])
    ensures
        r@.subrange(0, 8) == client_prefix(),
{
    let id = peer_id_with_suffix(random_suffix());
    assert(id@.subrange(0, 8) =~= client_prefix());
    id
}

} // verus!
