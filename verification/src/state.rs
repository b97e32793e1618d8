//! What a bus node knows, and the steps by which it changes.

use alot::{LotId, Lots};
use vstd::prelude::*;

use crate::address::SocketAddress;
use crate::message::{Filter, FilterView, Message, MessageView, PeerInfo};
use crate::model::{announcement, each_once, key_if_named, StateView, SubscriptionView};
use crate::names::NameMap;
use crate::peer::{
    count_lots, entries_of_lots, is_lot_at, lemma_only_lot_at, lot_mut, lots_emptied, lots_entries,
    new_lots, push_lot, remove_lot, Peer, PeerView,
};

verus! {

/// A message to be sent to a peer.
#[derive(Debug, PartialEq, Eq)]
pub struct Outgoing {
    /// The peer.
    pub to: LotId,
    /// The message.
    pub message: Message,
}

impl View for Outgoing {
    type V = (LotId, MessageView);

    open spec fn view(&self) -> (LotId, MessageView) {
        (self.to, self.message@)
    }
}

/// What `outgoing` sends to whom.
pub open spec fn sent(outgoing: Seq<Outgoing>) -> Seq<(LotId, MessageView)> {
    outgoing.map_values(|message: Outgoing| message@)
}

/// A published value.
#[derive(Debug)]
struct GooValue {
    /// The peers to be told of its changes, each once.
    subscribers: Vec<LotId>,
}

impl View for GooValue {
    type V = Set<LotId>;

    closed spec fn view(&self) -> Set<LotId> {
        self.subscribers@.to_set()
    }
}

/// Whether `ids` has `id`.
fn has_id(ids: &Vec<LotId>, id: LotId) -> (res: bool)
    ensures
        res == ids@.contains(id),
{
    let mut i: usize = 0;
    while i < ids.len()
        invariant
            i <= ids@.len(),
            forall|j: int| 0 <= j < i ==> ids@[j] != id,
        decreases ids@.len() - i,
    {
        if ids[i] == id {
            return true;
        }
        i += 1;
    }
    false
}

impl GooValue {
    /// Notes that the peer `id` is to be told of changes.
    fn add_subscriber(&mut self, id: LotId)
        requires
            old(self).subscribers@.no_duplicates(),
        ensures
            final(self).subscribers@.no_duplicates(),
            final(self)@ == old(self)@.insert(id),
    {
        if !has_id(&self.subscribers, id) {
            self.subscribers.push(id);
            proof {
                let before = old(self).subscribers@;
                assert(self.subscribers@[before.len() as int] == id);
                assert forall|other: LotId| before.contains(other) implies #[trigger] self.subscribers@.contains(
                    other,
                ) by {
                    let j = choose|j: int| 0 <= j < before.len() && before[j] == other;
                    assert(self.subscribers@[j] == other);
                }
            }
        }
        assert(self@ =~= old(self)@.insert(id));
    }
}

impl GooValue {
    /// Notes that the peer `id` is not to be told of changes any more.
    fn remove_subscriber(&mut self, id: LotId)
        requires
            old(self).subscribers@.no_duplicates(),
        ensures
            final(self).subscribers@.no_duplicates(),
            final(self)@ == old(self)@.remove(id),
    {
        let ghost before = self.subscribers@;
        let mut i: usize = 0;
        while i < self.subscribers.len()
            invariant
                i <= self.subscribers@.len(),
                self.subscribers@ == before,
                before == old(self).subscribers@,
                before.no_duplicates(),
                forall|j: int| 0 <= j < i ==> before[j] != id,
            decreases self.subscribers@.len() - i,
        {
            if self.subscribers[i] == id {
                self.subscribers.remove(i);
                proof {
                    let after = self.subscribers@;
                    assert forall|other: LotId| #[trigger] after.contains(other) == (
                    before.contains(other) && other != id) by {
                        if before.contains(other) && other != id {
                            let j = choose|j: int| 0 <= j < before.len() && before[j] == other;
                            assert(after[if j < i { j } else { j - 1 }] == other);
                        }
                        if after.contains(other) {
                            let j = choose|j: int| 0 <= j < after.len() && after[j] == other;
                            assert(before[if j < i { j } else { j + 1 }] == other);
                        }
                    }
                    assert(self@ =~= old(self)@.remove(id));
                }
                return ;
            }
            i += 1;
        }
        assert(self@ =~= old(self)@.remove(id));
    }
}

/// A value of another node that this node observes.
#[derive(Debug)]
struct SubscribingTo {
    /// The serialized contents received last.
    input: Vec<u8>,
    /// The readers that decode the contents, each once.
    readers: Vec<u64>,
}

impl View for SubscribingTo {
    type V = SubscriptionView;

    closed spec fn view(&self) -> SubscriptionView {
        SubscriptionView { input: self.input@, readers: self.readers@.to_set() }
    }
}

impl SubscribingTo {
    /// A value of which nothing has been received and which has no readers.
    fn new() -> (res: Self)
        ensures
            res@ == (SubscriptionView { input: Seq::empty(), readers: Set::empty() }),
            res.readers@.no_duplicates(),
    {
        let res = SubscribingTo { input: Vec::new(), readers: Vec::new() };
        assert(res@.readers =~= Set::empty());
        res
    }

    /// Adds `reader`, and says whether it is new.
    fn add_reader(&mut self, reader: u64) -> (res: bool)
        requires
            old(self).readers@.no_duplicates(),
        ensures
            final(self).readers@.no_duplicates(),
            final(self)@ == (SubscriptionView {
                readers: old(self)@.readers.insert(reader),
                ..old(self)@
            }),
            res == !old(self)@.readers.contains(reader),
    {
        let mut i: usize = 0;
        while i < self.readers.len()
            invariant
                i <= self.readers@.len(),
                *self == *old(self),
                self.readers@.no_duplicates(),
                forall|j: int| 0 <= j < i ==> self.readers@[j] != reader,
            decreases self.readers@.len() - i,
        {
            if self.readers[i] == reader {
                assert(self@.readers =~= self@.readers.insert(reader));
                return false;
            }
            i += 1;
        }
        self.readers.push(reader);
        proof {
            let before = old(self).readers@;
            assert(self.readers@[before.len() as int] == reader);
            assert forall|other: u64| before.contains(other) implies #[trigger] self.readers@.contains(
                other,
            ) by {
                let j = choose|j: int| 0 <= j < before.len() && before[j] == other;
                assert(self.readers@[j] == other);
            }
            assert(self@.readers =~= old(self)@.readers.insert(reader));
        }
        true
    }
}

/// The internal state of a bus node.
#[derive(Debug)]
pub struct GooBusState {
    peers: Lots<Peer>,
    values: NameMap<GooValue>,
    subscribing_to: NameMap<NameMap<SubscribingTo>>,
}

/// The entries of a collection of lots, as what is known of the peers.
spec fn peers_view(entries: Seq<(LotId, Peer)>) -> Seq<(LotId, PeerView)> {
    entries.map_values(|entry: (LotId, Peer)| (entry.0, entry.1@))
}

/// The published values with the peers to be told of their changes.
spec fn values_view(values: Map<Seq<char>, GooValue>) -> Map<Seq<char>, Set<LotId>> {
    values.map_values(|value: GooValue| value@)
}

/// The values observed of one node.
spec fn observed_view(values: Map<Seq<char>, SubscribingTo>) -> Map<Seq<char>, SubscriptionView> {
    values.map_values(|value: SubscribingTo| value@)
}

/// No value and no reader of a value is listed twice.
spec fn observed_wf(values: NameMap<SubscribingTo>) -> bool {
    &&& values.wf()
    &&& forall|name: Seq<char>| #[trigger]
        values@.contains_key(name) ==> values@[name].readers@.no_duplicates()
}

/// The values observed of all nodes.
spec fn subscribing_view(nodes: Map<Seq<char>, NameMap<SubscribingTo>>) -> Map<
    Seq<char>,
    Map<Seq<char>, SubscriptionView>,
> {
    nodes.map_values(|values: NameMap<SubscribingTo>| observed_view(values@))
}

/// A value that is put in for a node is observed of that node.
proof fn lemma_observed_insert(
    nodes: Map<Seq<char>, NameMap<SubscribingTo>>,
    peer: Seq<char>,
    after: NameMap<SubscribingTo>,
    before: Map<Seq<char>, SubscribingTo>,
    name: Seq<char>,
    value: SubscribingTo,
)
    requires
        after@ == before.insert(name, value),
    ensures
        subscribing_view(nodes.insert(peer, after)) == subscribing_view(nodes).insert(
            peer,
            observed_view(before).insert(name, value@),
        ),
{
    assert(observed_view(after@) =~= observed_view(before).insert(name, value@));
    assert(subscribing_view(nodes.insert(peer, after)) =~= subscribing_view(nodes).insert(
        peer,
        observed_view(after@),
    ));
}

impl View for GooBusState {
    type V = StateView;

    closed spec fn view(&self) -> StateView {
        StateView {
            peers: peers_view(lots_entries(self.peers)),
            emptied: lots_emptied(self.peers),
            values: values_view(self.values@),
            subscribing_to: subscribing_view(self.subscribing_to@),
        }
    }
}

impl Default for GooBusState {
    fn default() -> (res: Self)
        ensures
            res.wf(),
            res@ == StateView::empty(),
    {
        let res = GooBusState {
            peers: new_lots(),
            values: NameMap::new(),
            subscribing_to: NameMap::new(),
        };
        assert(res@ =~= StateView::empty());
        res
    }
}

impl GooBusState {
    /// What holds of the state of every node: there are no more open connections
    /// than there can be, no two of them share a key or an address, only connected
    /// peers are told of changes, and nothing is listed twice.
    pub open spec fn wf(&self) -> bool {
        self@.wf() && self.lists_nothing_twice()
    }

    /// No name, filter, subscriber or reader is listed twice.
    pub closed spec fn lists_nothing_twice(&self) -> bool {
        &&& forall|i: int|
            0 <= i < lots_entries(self.peers).len() ==> (#[trigger] lots_entries(
                self.peers,
            )[i]).1.wf()
        &&& self.values.wf()
        &&& forall|name: Seq<char>| #[trigger]
            self.values@.contains_key(name) ==> self.values@[name].subscribers@.no_duplicates()
        &&& self.subscribing_to.wf()
        &&& forall|peer: Seq<char>| #[trigger]
            self.subscribing_to@.contains_key(peer) ==> observed_wf(self.subscribing_to@[peer])
    }

    /// Returns what each connected peer has told of itself.
    pub fn peers(&self) -> (res: Vec<&PeerInfo>)
        ensures
            res@.map_values(|info: &PeerInfo| info@) == self@.connected(),
            res@.len() == self@.connected().len(),
            forall|i: int|
                0 <= i < res@.len() ==> (#[trigger] res@[i]).name@ == self@.connected()[i].name
                    && res@[i].public_addr == self@.connected()[i].public_addr,
    {
        let entries: Vec<(LotId, &Peer)> = entries_of_lots(&self.peers);
        let mut res: Vec<&PeerInfo> = Vec::new();
        let ghost f = |entry: (LotId, PeerView)| entry.1.info;
        let mut i: usize = 0;
        assert(self@.peers.take(0) =~= Seq::empty());
        assert(res@.map_values(|info: &PeerInfo| info@) =~= self@.peers.take(0).filter_map(f));
        while i < entries.len()
            invariant
                i <= entries@.len(),
                entries@.len() == self@.peers.len(),
                forall|j: int| 0 <= j < entries@.len() ==> (#[trigger] entries@[j]).1@ == self@.peers[j].1,
                f == (|entry: (LotId, PeerView)| entry.1.info),
                res@.map_values(|info: &PeerInfo| info@) == self@.peers.take(i as int).filter_map(f),
            decreases entries@.len() - i,
        {
            proof {
                self@.peers.lemma_filter_map_take_succ(f, i as int);
            }
            let ghost before = res@;
            if let Some(info) = &entries[i].1.info {
                res.push(info);
                assert(res@.map_values(|info: &PeerInfo| info@) =~= before.map_values(
                    |info: &PeerInfo| info@,
                ).push(info@));
            }
            i += 1;
        }
        assert(self@.peers.take(i as int) =~= self@.peers);
        assert forall|j: int| 0 <= j < res@.len() implies (
        #[trigger] res@[j]).name@ == self@.connected()[j].name && res@[j].public_addr
            == self@.connected()[j].public_addr by {
            assert(res@.map_values(|info: &PeerInfo| info@)[j] == res@[j]@);
        }
        res
    }

    /// Whether there is room for one more peer.
    pub fn has_room(&self) -> (res: bool)
        ensures
            res == self@.has_room(),
    {
        let limit: u64 = if usize::BITS == 64 {
            0x1_0000_0000_0000
        } else {
            0x100_0000
        };
        (count_lots(&self.peers) as u64) < limit
    }

    /// Returns what the peer `id` has told of itself.
    pub fn info_of(&self, id: LotId) -> (res: Option<&PeerInfo>)
        requires
            self.wf(),
        ensures
            res is Some <==> self@.info_of(id) is Some,
            res matches Some(info) ==> self@.info_of(id) == Some(info@),
            res matches Some(info) ==> exists|i: int|
                {
                    &&& 0 <= i < self@.peers.len()
                    &&& (#[trigger] self@.peers[i]).0 == id
                    &&& self@.peers[i].1.info matches Some(told)
                    &&& info.name@ == told.name
                    &&& info.public_addr == told.public_addr
                },
    {
        let entries: Vec<(LotId, &Peer)> = entries_of_lots(&self.peers);
        let mut i: usize = 0;
        while i < entries.len()
            invariant
                i <= entries@.len(),
                self.wf(),
                entries@.len() == self@.peers.len(),
                forall|j: int|
                    0 <= j < entries@.len() ==> (#[trigger] entries@[j]).0 == self@.peers[j].0
                        && entries@[j].1@ == self@.peers[j].1,
                forall|j: int| 0 <= j < i ==> (#[trigger] self@.peers[j]).0 != id,
            decreases entries@.len() - i,
        {
            if entries[i].0 == id {
                proof {
                    self@.lemma_without_peer_at(i as int);
                }
                return match &entries[i].1.info {
                    Some(info) => Some(info),
                    None => None,
                };
            }
            i += 1;
        }
        None
    }

    /// Whether there is an open connection to the node at `address`, whichever
    /// side made it.
    pub(crate) fn is_connected_to(&self, address: SocketAddress) -> (res: bool)
        ensures
            res == self@.is_connected_to(address),
    {
        let entries: Vec<(LotId, &Peer)> = entries_of_lots(&self.peers);
        let mut i: usize = 0;
        while i < entries.len()
            invariant
                i <= entries@.len(),
                entries@.len() == self@.peers.len(),
                forall|j: int|
                    0 <= j < entries@.len() ==> (#[trigger] entries@[j]).1@ == self@.peers[j].1,
                forall|j: int| 0 <= j < i ==> !(#[trigger] self@.peers[j]).1.is_at(address),
            decreases entries@.len() - i,
        {
            if entries[i].1.address == address {
                assert(self@.peers[i as int].1.is_at(address));
                return true;
            }
            if let Some(info) = &entries[i].1.info {
                if info.public_addr == address {
                    assert(self@.peers[i as int].1.is_at(address));
                    return true;
                }
            }
            i += 1;
        }
        false
    }

    /// Whether a connected peer has introduced itself by `info`.
    pub(crate) fn has_info(&self, info: &PeerInfo) -> (res: bool)
        ensures
            res == self@.has_info(info@),
    {
        let entries: Vec<(LotId, &Peer)> = entries_of_lots(&self.peers);
        let mut i: usize = 0;
        while i < entries.len()
            invariant
                i <= entries@.len(),
                entries@.len() == self@.peers.len(),
                forall|j: int|
                    0 <= j < entries@.len() ==> (#[trigger] entries@[j]).1@ == self@.peers[j].1,
                forall|j: int| 0 <= j < i ==> (#[trigger] self@.peers[j]).1.info != Some(info@),
            decreases entries@.len() - i,
        {
            if let Some(known) = &entries[i].1.info {
                if *known == *info {
                    assert(self@.peers[i as int].1.info == Some(info@));
                    return true;
                }
            }
            i += 1;
        }
        false
    }

    /// The key of the first open connection to a node named `name`.
    pub(crate) fn first_named(&self, name: &str) -> (res: Option<LotId>)
        ensures
            match res {
                Some(id) => self@.named(name@).len() > 0 && id == self@.named(name@)[0],
                None => self@.named(name@).len() == 0,
            },
    {
        let wanted: String = name.to_owned();
        let entries: Vec<(LotId, &Peer)> = entries_of_lots(&self.peers);
        let ghost f = key_if_named(name@);
        let mut i: usize = 0;
        while i < entries.len()
            invariant
                i <= entries@.len(),
                wanted@ == name@,
                entries@.len() == self@.peers.len(),
                forall|j: int|
                    0 <= j < entries@.len() ==> (#[trigger] entries@[j]).0 == self@.peers[j].0
                        && entries@[j].1@ == self@.peers[j].1,
                f == key_if_named(name@),
                self@.peers.take(i as int).filter_map(f).len() == 0,
            decreases entries@.len() - i,
        {
            proof {
                self@.peers.lemma_filter_map_take_succ(f, i as int);
            }
            if let Some(info) = &entries[i].1.info {
                if info.name == wanted {
                    proof {
                        lemma_filter_map_first(self@.peers, f, i as int);
                    }
                    return Some(entries[i].0);
                }
            }
            i += 1;
        }
        assert(self@.peers.take(i as int) =~= self@.peers);
        None
    }

    /// Adds a connection to `address`.
    pub(crate) fn push_peer(&mut self, address: SocketAddress) -> (id: LotId)
        requires
            old(self).wf(),
            old(self)@.has_room(),
            !old(self)@.has_address(address),
        ensures
            final(self).wf(),
            !old(self)@.has_peer(id),
            final(self)@ == old(self)@.with_peer(id, address),
    {
        let peer = Peer { info: None, address, subscriptions: Vec::new() };
        assert(peer@.subscriptions =~= Set::empty());
        let id: LotId = push_lot(&mut self.peers, peer);
        proof {
            let before = old(self)@;
            let entries = lots_entries(old(self).peers);
            let at = before.next_place();
            before.lemma_next_place();
            assert forall|i: int| 0 <= i < before.peers.len() implies (
            #[trigger] before.peers[i]).0 != id by {
                assert(entries[i].0 != id);
            }
            before.lemma_with_peer_wf(id, address);
            assert(self@ =~= before.with_peer(id, address));
            assert forall|i: int| 0 <= i < lots_entries(self.peers).len() implies (
            #[trigger] lots_entries(self.peers)[i]).1.wf() by {
                if i != at {
                    assert(entries[if i < at { i } else { i - 1 }].1.wf());
                }
            }
        }
        id
    }

    /// Forgets the connection `id`.
    pub(crate) fn remove_peer(&mut self, id: LotId)
        requires
            old(self).wf(),
        ensures
            final(self).wf(),
            final(self)@ == old(self)@.without_peer(id),
    {
        let removed: Option<Peer> = remove_lot(&mut self.peers, id);
        let ghost before = old(self)@;
        let ghost after = before.without_peer(id);
        proof {
            let entries = lots_entries(old(self).peers);
            match removed {
                Some(peer) => {
                    let (i, n) = choose|i: int, n: nat|
                        0 <= i < entries.len() && #[trigger] entries[i] == (id, peer)
                            && lots_entries(self.peers) == entries.remove(i)
                            && #[trigger] is_lot_at(before.emptied, i, n) && lots_emptied(
                            self.peers,
                        ) == before.emptied.push(n);
                    assert(before.peers[i].0 == id);
                    lemma_only_lot_at(before.emptied, i, n);
                    before.lemma_without_peer_at(i);
                    assert forall|j: int| 0 <= j < lots_entries(self.peers).len() implies (
                    #[trigger] lots_entries(self.peers)[j]).1.wf() by {
                        assert(entries[if j < i { j } else { j + 1 }].1.wf());
                    }
                },
                None => {
                    assert forall|i: int| 0 <= i < before.peers.len() implies (
                    #[trigger] before.peers[i]).0 != id by {
                        assert(entries[i].0 != id);
                    }
                    before.lemma_without_stranger(id);
                },
            }
            before.lemma_without_peer_wf(id);
            assert(self@.peers =~= after.peers);
            assert(self@.emptied == after.emptied);
        }
        self.remove_subscriber(id);
        assert(self@.values =~= after.values);
    }

    /// Takes the peer `id` out of the subscribers of every published value.
    fn remove_subscriber(&mut self, id: LotId)
        requires
            old(self).lists_nothing_twice(),
        ensures
            final(self).lists_nothing_twice(),
            final(self).peers == old(self).peers,
            final(self).subscribing_to == old(self).subscribing_to,
            final(self)@.values == old(self)@.values.map_values(
                |subscribers: Set<LotId>| subscribers.remove(id),
            ),
    {
        let names: Vec<String> = self.values.names();
        let ghost before = self.values@;
        let mut i: usize = 0;
        while i < names.len()
            invariant
                i <= names@.len(),
                before == old(self).values@,
                self.peers == old(self).peers,
                self.subscribing_to == old(self).subscribing_to,
                self.lists_nothing_twice(),
                forall|j: int, k: int|
                    0 <= j < k < names@.len() ==> (#[trigger] names@[j])@ != (
                    #[trigger] names@[k])@,
                forall|j: int|
                    0 <= j < names@.len() ==> before.contains_key((#[trigger] names@[j])@),
                forall|name: Seq<char>| #[trigger]
                    before.contains_key(name) ==> exists|j: int|
                        0 <= j < names@.len() && (#[trigger] names@[j])@ == name,
                self.values@.dom() == before.dom(),
                forall|j: int|
                    0 <= j < i ==> self.values@[(#[trigger] names@[j])@]@
                        == before[names@[j]@]@.remove(id),
                forall|j: int|
                    i <= j < names@.len() ==> self.values@[(#[trigger] names@[j])@]
                        == before[names@[j]@],
            decreases names@.len() - i,
        {
            assert(before.contains_key(names@[i as int]@));
            if let Some(value) = self.values.get_mut(names[i].as_str()) {
                value.remove_subscriber(id);
            }
            assert(self.values@.dom() =~= before.dom());
            i += 1;
        }
        proof {
            let after = old(self)@.values.map_values(
                |subscribers: Set<LotId>| subscribers.remove(id),
            );
            assert forall|name: Seq<char>| #[trigger] self@.values.contains_key(
                name,
            ) implies self@.values[name] == after[name] by {
                assert(before.contains_key(name));
                let j = choose|j: int| 0 <= j < names@.len() && (#[trigger] names@[j])@ == name;
                assert(self.values@[names@[j]@]@ == before[names@[j]@]@.remove(id));
            }
            assert(self@.values =~= after);
        }
    }

    /// Notes that the peer `id` has introduced itself by `info`.
    pub(crate) fn set_info(&mut self, id: LotId, info: PeerInfo)
        requires
            old(self).wf(),
            old(self)@.has_peer(id),
        ensures
            final(self).wf(),
            final(self)@ == old(self)@.with_info(id, info@),
    {
        proof {
            self.lemma_lot_of(id);
            self@.lemma_with_info_wf(id, info@);
        }
        let peer: &mut Peer = lot_mut(&mut self.peers, id);
        peer.info = Some(info);
        assert(self@.peers =~= old(self)@.with_info(id, info@).peers);
    }

    /// Notes that the peer `id` has asked for what `filter` selects.
    pub(crate) fn add_filter(&mut self, id: LotId, filter: Filter)
        requires
            old(self).wf(),
            old(self)@.has_peer(id),
        ensures
            final(self).wf(),
            final(self)@ == old(self)@.with_filter(id, filter@),
    {
        proof {
            self.lemma_lot_of(id);
            self@.lemma_with_filter_wf(id, filter@);
        }
        let peer: &mut Peer = lot_mut(&mut self.peers, id);
        peer.add_filter(filter);
        assert(self@.peers =~= old(self)@.with_filter(id, filter@).peers);
    }

    /// What the other peers are told when the peer `id` introduces itself by
    /// `info`.
    pub(crate) fn announcements(&self, id: LotId, info: &PeerInfo) -> (res: Vec<Outgoing>)
        ensures
            sent(res@) == self@.announcements(id, info@),
    {
        let entries: Vec<(LotId, &Peer)> = entries_of_lots(&self.peers);
        let mut res: Vec<Outgoing> = Vec::new();
        let ghost f = announcement(id, info@);
        let mut i: usize = 0;
        assert(sent(res@) =~= self@.peers.take(0).filter_map(f));
        while i < entries.len()
            invariant
                i <= entries@.len(),
                entries@.len() == self@.peers.len(),
                forall|j: int|
                    0 <= j < entries@.len() ==> (#[trigger] entries@[j]).0 == self@.peers[j].0,
                f == announcement(id, info@),
                sent(res@) == self@.peers.take(i as int).filter_map(f),
            decreases entries@.len() - i,
        {
            proof {
                self@.peers.lemma_filter_map_take_succ(f, i as int);
            }
            let to: LotId = entries[i].0;
            if to != id {
                let ghost before = res@;
                res.push(Outgoing { to, message: Message::NewPeer(info.clone()) });
                assert(sent(res@) =~= sent(before).push((to, MessageView::NewPeer(info@))));
            }
            i += 1;
        }
        assert(self@.peers.take(i as int) =~= self@.peers);
        res
    }

    /// What the peer `id` is asked for when it turns out to be named `peer`.
    pub(crate) fn requests(&self, id: LotId, peer: &str) -> (res: Vec<Outgoing>)
        requires
            self.wf(),
        ensures
            each_once(sent(res@), self@.requests(id, peer@)),
    {
        let mut res: Vec<Outgoing> = Vec::new();
        if let Some(values) = self.subscribing_to.get(peer) {
            let names: Vec<String> = values.names();
            let mut i: usize = 0;
            while i < names.len()
                invariant
                    i <= names@.len(),
                    res@.len() == i,
                    forall|j: int|
                        0 <= j < i ==> (#[trigger] res@[j])@ == (
                            id,
                            MessageView::Subscribe(FilterView::Named(names@[j]@)),
                        ),
                decreases names@.len() - i,
            {
                res.push(
                    Outgoing {
                        to: id,
                        message: Message::Subscribe(Filter::Named(names[i].clone())),
                    },
                );
                i += 1;
            }
            proof {
                assert forall|j: int| 0 <= j < res@.len() implies self@.requests(id, peer@).contains(
                    #[trigger] sent(res@)[j],
                ) by {
                    assert(self@.observes(peer@, names@[j]@));
                }
                assert forall|message: (LotId, MessageView)|
                    self@.requests(id, peer@).contains(message) implies #[trigger] sent(
                    res@,
                ).contains(message) by {
                    let name = message.1->Subscribe_0->Named_0;
                    assert(values@.contains_key(name));
                    let j = choose|j: int| 0 <= j < names@.len() && (#[trigger] names@[j])@ == name;
                    assert(sent(res@)[j] == message);
                }
            }
        }
        assert(sent(res@).to_set() =~= self@.requests(id, peer@));
        res
    }

    /// Lets `reader` observe the value `name` of the node `peer`, and says
    /// whether it did not before.
    pub(crate) fn add_reader(&mut self, peer: &str, name: &str, reader: u64) -> (res: bool)
        requires
            old(self).wf(),
        ensures
            final(self).wf(),
            final(self)@ == old(self)@.with_reader(peer@, name@, reader),
            res == !old(self)@.observed(peer@, name@).readers.contains(reader),
    {
        let values: &mut NameMap<SubscribingTo> = self.subscribing_to.get_or_insert(
            peer,
            NameMap::new(),
        );
        let ghost values_before = values@;
        let value: &mut SubscribingTo = values.get_or_insert(name, SubscribingTo::new());
        let res: bool = value.add_reader(reader);
        proof {
            let nodes = old(self).subscribing_to@;
            let after = self.subscribing_to@[peer@];
            assert(nodes.insert(peer@, after) =~= self.subscribing_to@);
            assert(observed_view(values_before) =~= old(self)@.observed_of(peer@));
            lemma_observed_insert(nodes, peer@, after, values_before, name@, after@[name@]);
            Self::lemma_observed_wf(*old(self), *self, peer@, after);
        }
        res
    }

    /// Notes that `data` has come in for the value `name` of the node `peer`,
    /// and says whether that value is observed.
    pub(crate) fn set_input(&mut self, peer: &str, name: &str, data: Vec<u8>) -> (res: bool)
        requires
            old(self).wf(),
        ensures
            final(self).wf(),
            final(self)@ == old(self)@.with_input(peer@, name@, data@),
            res == old(self)@.observes(peer@, name@),
    {
        match self.subscribing_to.get_mut(peer) {
            Some(values) => {
                let ghost values_before = values@;
                match values.get_mut(name) {
                    Some(value) => {
                        value.input = data;
                        proof {
                            let nodes = old(self).subscribing_to@;
                            let after = self.subscribing_to@[peer@];
                            assert(nodes.insert(peer@, after) =~= self.subscribing_to@);
                            lemma_observed_insert(
                                nodes,
                                peer@,
                                after,
                                values_before,
                                name@,
                                after@[name@],
                            );
                            Self::lemma_observed_wf(*old(self), *self, peer@, after);
                        }
                        true
                    },
                    None => {
                        assert(old(self).subscribing_to@.insert(
                            peer@,
                            self.subscribing_to@[peer@],
                        ) =~= old(self).subscribing_to@);
                        false
                    },
                }
            },
            None => false,
        }
    }

    /// The serialized contents received last for the value `name` of the node
    /// `peer`, if that value is observed.
    pub fn input(&self, peer: &str, name: &str) -> (res: Option<&Vec<u8>>)
        requires
            self.wf(),
        ensures
            res is Some <==> self@.observes(peer@, name@),
            res matches Some(input) ==> input@ == self@.observed(peer@, name@).input,
    {
        match self.subscribing_to.get(peer) {
            Some(values) => match values.get(name) {
                Some(value) => Some(&value.input),
                None => None,
            },
            None => None,
        }
    }

    /// Whether a value is published as `name`.
    pub fn is_published(&self, name: &str) -> (res: bool)
        ensures
            res == self@.values.contains_key(name@),
    {
        self.values.contains(name)
    }

    /// Publishes a value as `name`.
    pub(crate) fn add_value(&mut self, name: String)
        requires
            old(self).wf(),
        ensures
            final(self).wf(),
            final(self)@ == old(self)@.with_value(name@),
    {
        let value = GooValue { subscribers: Vec::new() };
        assert(value@ =~= Set::empty());
        self.values.insert(name, value);
        assert(self@.values =~= old(self)@.with_value(name@).values);
        proof {
            Self::lemma_values_wf(*old(self), *self);
        }
    }

    /// Ends the publication of the value `name`.
    pub(crate) fn remove_value(&mut self, name: &str)
        requires
            old(self).wf(),
        ensures
            final(self).wf(),
            final(self)@ == (StateView {
                values: old(self)@.values.remove(name@),
                ..old(self)@
            }),
    {
        self.values.remove(name);
        assert(self@.values =~= old(self)@.values.remove(name@));
        proof {
            Self::lemma_values_wf(*old(self), *self);
        }
    }

    /// Notes that the peer `id` is to be told of the changes of the value
    /// `name`.
    pub(crate) fn add_subscriber(&mut self, name: &str, id: LotId)
        requires
            old(self).wf(),
            old(self)@.values.contains_key(name@),
            old(self)@.has_peer(id),
        ensures
            final(self).wf(),
            final(self)@ == (StateView {
                values: old(self)@.values.insert(name@, old(self)@.values[name@].insert(id)),
                ..old(self)@
            }),
    {
        if let Some(value) = self.values.get_mut(name) {
            value.add_subscriber(id);
        }
        assert(self@.values =~= old(self)@.values.insert(
            name@,
            old(self)@.values[name@].insert(id),
        ));
        proof {
            Self::lemma_values_wf(*old(self), *self);
        }
    }

    /// What goes out when the contents of the value published as `name` become
    /// `data`.
    pub(crate) fn change_messages(&self, name: &str, data: &Vec<u8>) -> (res: Vec<Outgoing>)
        requires
            self.wf(),
        ensures
            each_once(sent(res@), self@.change_messages(name@, data@)),
    {
        let mut res: Vec<Outgoing> = Vec::new();
        if let Some(value) = self.values.get(name) {
            let message = Message::Value { name: name.to_owned(), data: data.clone() };
            let ghost ids = value.subscribers@;
            let mut i: usize = 0;
            while i < value.subscribers.len()
                invariant
                    i <= value.subscribers@.len(),
                    ids == value.subscribers@,
                    message@ == (MessageView::Value { name: name@, data: data@ }),
                    res@.len() == i,
                    forall|j: int| 0 <= j < i ==> (#[trigger] res@[j])@ == (ids[j], message@),
                decreases value.subscribers@.len() - i,
            {
                res.push(Outgoing { to: value.subscribers[i], message: message.clone() });
                i += 1;
            }
            proof {
                assert(self@.values[name@] == ids.to_set());
                assert forall|j: int| 0 <= j < res@.len() implies self@.change_messages(
                    name@,
                    data@,
                ).contains(#[trigger] sent(res@)[j]) by {
                    assert(ids.contains(ids[j]));
                }
                assert forall|message: (LotId, MessageView)|
                    self@.change_messages(name@, data@).contains(message) implies #[trigger] sent(
                    res@,
                ).contains(message) by {
                    let j = choose|j: int| 0 <= j < ids.len() && ids[j] == message.0;
                    assert(sent(res@)[j] == message);
                }
            }
        }
        assert(sent(res@).to_set() =~= self@.change_messages(name@, data@));
        res
    }

    /// The state stays well-formed when the published values change.
    proof fn lemma_values_wf(before: Self, after: Self)
        requires
            before.wf(),
            after.peers == before.peers,
            after.subscribing_to == before.subscribing_to,
            after.values.wf(),
            forall|name: Seq<char>| #[trigger]
                after.values@.contains_key(name)
                    ==> after.values@[name].subscribers@.no_duplicates(),
            forall|name: Seq<char>, id: LotId|
                after.values@.contains_key(name) && #[trigger] after@.values[name].contains(id)
                    ==> before@.has_peer(id),
        ensures
            after.wf(),
    {
        assert(after@.peers == before@.peers);
        assert forall|name: Seq<char>, id: LotId|
            after@.values.contains_key(name) && #[trigger] after@.values[name].contains(
                id,
            ) implies after@.has_peer(id) by {
            assert(before@.has_peer(id));
        }
    }

    /// The state stays well-formed when the values observed of a node change.
    proof fn lemma_observed_wf(
        before: Self,
        after: Self,
        peer: Seq<char>,
        values: NameMap<SubscribingTo>,
    )
        requires
            before.wf(),
            after.peers == before.peers,
            after.values == before.values,
            after.subscribing_to.wf(),
            after.subscribing_to@ == before.subscribing_to@.insert(peer, values),
            observed_wf(values),
        ensures
            after.wf(),
    {
        assert(after@.peers == before@.peers);
        assert(after@.values == before@.values);
        assert forall|name: Seq<char>, id: LotId|
            after@.values.contains_key(name) && #[trigger] after@.values[name].contains(
                id,
            ) implies after@.has_peer(id) by {
            assert(before@.has_peer(id));
        }
    }

    /// A connection's key is the key of one lot.
    proof fn lemma_lot_of(&self, id: LotId) -> (i: int)
        requires
            self.wf(),
            self@.has_peer(id),
        ensures
            0 <= i < lots_entries(self.peers).len(),
            lots_entries(self.peers)[i].0 == id,
            forall|j: int|
                0 <= j < lots_entries(self.peers).len() && (#[trigger] lots_entries(
                    self.peers,
                )[j]).0 == id ==> j == i,
    {
        let i = choose|i: int| 0 <= i < self@.peers.len() && (#[trigger] self@.peers[i]).0 == id;
        assert forall|j: int|
            0 <= j < lots_entries(self.peers).len() && (#[trigger] lots_entries(self.peers)[j]).0
                == id implies j == i by {
            assert(self@.peers[j].0 == id);
        }
        i
    }
}

/// What the first element that `f` keeps is mapped to comes first.
pub(crate) proof fn lemma_filter_map_first<A, B>(s: Seq<A>, f: spec_fn(A) -> Option<B>, i: int)
    requires
        0 <= i < s.len(),
        s.take(i).filter_map(f).len() == 0,
        f(s[i]) is Some,
    ensures
        s.filter_map(f).len() > 0,
        s.filter_map(f)[0] == f(s[i])->0,
    decreases s.len(),
{
    if i == s.len() - 1 {
        s.lemma_filter_map_take_succ(f, i);
        assert(s.take(i + 1) =~= s);
    } else {
        let rest = s.drop_last();
        assert(rest.take(i) =~= s.take(i));
        lemma_filter_map_first(rest, f, i);
        s.lemma_filter_map_take_succ(f, s.len() - 1);
        assert(s.take(s.len() - 1) =~= rest);
        assert(s.take(s.len() as int) =~= s);
    }
}

} // verus!
