//! The names of the connected peers, as they are shown.

use vstd::prelude::*;

use crate::message::{PeerInfo, PeerInfoView};
use crate::state::GooBusState;

verus! {

/// The names of `peers`.
pub open spec fn names_of(peers: Seq<PeerInfoView>) -> Seq<Seq<char>> {
    peers.map_values(|info: PeerInfoView| info.name)
}

/// What `names` says.
pub open spec fn texts(names: Seq<String>) -> Seq<Seq<char>> {
    names.map_values(|name: String| name@)
}

/// Brings `shown` up to date: afterwards it has the names of the peers that
/// are connected, and no others.
pub fn refresh_peer_names(shown: &mut Vec<String>, state: &GooBusState)
    ensures
        texts(final(shown)@) == names_of(state@.connected()),
        final(shown)@.len() == state@.connected().len(),
        forall|i: int|
            0 <= i < final(shown)@.len() ==> (#[trigger] final(shown)@[i])@
                == state@.connected()[i].name,
{
    let peers: Vec<&PeerInfo> = state.peers();
    let ghost names = names_of(state@.connected());
    assert(forall|i: int| 0 <= i < peers@.len() ==> names[i] == (#[trigger] peers@[i])@.name) by {
        let infos = peers@.map_values(|info: &PeerInfo| info@);
        assert forall|i: int| 0 <= i < peers@.len() implies names[i] == (
        #[trigger] peers@[i])@.name by {
            assert(infos[i] == peers@[i]@);
        }
    }
    let mut i: usize = 0;
    while i < peers.len()
        invariant
            i <= peers@.len(),
            peers@.len() == names.len(),
            forall|j: int| 0 <= j < peers@.len() ==> names[j] == (#[trigger] peers@[j])@.name,
            i <= shown@.len(),
            forall|j: int| 0 <= j < i ==> (#[trigger] shown@[j])@ == names[j],
        decreases peers@.len() - i,
    {
        if i >= shown.len() || shown[i] != peers[i].name {
            shown.insert(i, peers[i].name.clone());
        }
        i += 1;
    }
    // Names that are left over belong to peers that have disconnected.
    shown.truncate(peers.len());
    assert(texts(shown@) =~= names);
}

/// The names of peers are those that they have told, each whole and in its place.
pub proof fn names_are_those_told(peers: Seq<PeerInfoView>, shown: Seq<String>)
    ensures
        names_of(peers).len() == peers.len(),
        forall|i: int| 0 <= i < peers.len() ==> #[trigger] names_of(peers)[i] == peers[i].name,
        texts(shown).len() == shown.len(),
        forall|i: int| 0 <= i < shown.len() ==> #[trigger] texts(shown)[i] == shown[i]@,
{
}

} // verus!
