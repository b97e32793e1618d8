//! What a bus node knows, as mathematical values, and how it changes.

use alot::LotId;
use vstd::prelude::*;

use crate::address::SocketAddress;
use crate::message::{FilterView, MessageView, PeerInfoView};
use crate::peer::{
    filled_before, is_lot_at, lemma_emptying, lemma_filled_before_grows, lemma_lot_at, lot_at,
    lots_limit, next_place, still_empty, PeerView,
};

verus! {

/// A value of another node that this node observes.
#[verifier::ext_equal]
pub struct SubscriptionView {
    /// The serialized contents received last, empty before any were.
    pub input: Seq<u8>,
    /// The readers that decode the contents.
    pub readers: Set<u64>,
}

/// What a bus node knows of its peers, its own values and those it observes.
#[verifier::ext_equal]
pub struct StateView {
    /// The open connections, each under its key, in the order in which they are
    /// walked.
    pub peers: Seq<(LotId, PeerView)>,
    /// The numbers of the lots that ended connections have left and no later one
    /// has got, the one left last at the end.
    pub emptied: Seq<nat>,
    /// The names of the published values, each with the peers to be told of
    /// its changes.
    pub values: Map<Seq<char>, Set<LotId>>,
    /// By the name of a node and the name of a value, what is observed.
    pub subscribing_to: Map<Seq<char>, Map<Seq<char>, SubscriptionView>>,
}

/// A bus node.
#[verifier::ext_equal]
pub struct BusView {
    /// The name by which the node introduces itself.
    pub name: Seq<char>,
    /// The address on which the node accepts connections.
    pub listening_on: SocketAddress,
    /// What the node knows.
    pub state: StateView,
}

/// What a node does about a message that it has received.
pub enum ReactionView {
    /// Nothing.
    Continue,
    /// It connects to this address.
    Connect(SocketAddress),
    /// It sends this message to this peer.
    Reply(LotId, MessageView),
    /// It hands the contents received for the value of this name to its
    /// readers.
    Updated(Seq<char>),
    /// It ends the connection.
    Closed,
    /// It gives the connection up: the message may only come first.
    UnexpectedHello,
}

/// `messages` are those of `all`, each sent once, in some order.
pub open spec fn each_once(
    messages: Seq<(LotId, MessageView)>,
    all: Set<(LotId, MessageView)>,
) -> bool {
    messages.no_duplicates() && messages.to_set() == all
}

/// Whether `id` is a key in `peers`.
pub open spec fn is_key(peers: Seq<(LotId, PeerView)>, id: LotId) -> bool {
    exists|i: int| 0 <= i < peers.len() && (#[trigger] peers[i]).0 == id
}

/// Whether a connection has another key than `id`.
pub open spec fn has_other_key(id: LotId) -> spec_fn((LotId, PeerView)) -> bool {
    |entry: (LotId, PeerView)| entry.0 != id
}

/// The key of a connection, if it is one to a node named `name`.
pub open spec fn key_if_named(name: Seq<char>) -> spec_fn((LotId, PeerView)) -> Option<LotId> {
    |entry: (LotId, PeerView)|
        if entry.1.is_named(name) {
            Some(entry.0)
        } else {
            None
        }
}

/// What a peer is told when the peer `id` introduces itself by `info`: that
/// peer itself, nothing.
pub open spec fn announcement(id: LotId, info: PeerInfoView) -> spec_fn(
    (LotId, PeerView),
) -> Option<(LotId, MessageView)> {
    |entry: (LotId, PeerView)|
        if entry.0 == id {
            None
        } else {
            Some((entry.0, MessageView::NewPeer(info)))
        }
}

impl StateView {
    /// Nothing known, published or observed.
    pub open spec fn empty() -> StateView {
        StateView {
            peers: Seq::empty(),
            emptied: Seq::empty(),
            values: Map::empty(),
            subscribing_to: Map::empty(),
        }
    }

    /// There are no more open connections than there can be, no two of them share a
    /// key or an address, each empty lot is one and stands among those of the
    /// connections, and only peers are told of changes.
    pub open spec fn wf(self) -> bool {
        &&& self.peers.len() <= lots_limit()
        &&& self.emptied.no_duplicates()
        &&& forall|i: int|
            0 <= i < self.emptied.len() ==> filled_before(self.emptied, #[trigger] self.emptied[i])
                <= self.peers.len()
        &&& forall|i: int, j: int|
            0 <= i < j < self.peers.len() ==> (#[trigger] self.peers[i]).0 != (
            #[trigger] self.peers[j]).0
        &&& forall|i: int, j: int|
            0 <= i < j < self.peers.len() ==> (#[trigger] self.peers[i]).1.address != (
            #[trigger] self.peers[j]).1.address
        &&& forall|name: Seq<char>, id: LotId|
            self.values.contains_key(name) && #[trigger] self.values[name].contains(id)
                ==> self.has_peer(id)
    }

    /// Whether there is room for one more connection.
    pub open spec fn has_room(self) -> bool {
        self.peers.len() < lots_limit()
    }

    /// Whether `id` is the key of an open connection.
    pub open spec fn has_peer(self, id: LotId) -> bool {
        is_key(self.peers, id)
    }

    /// Whether there is an open connection whose other end is at `address`.
    pub open spec fn has_address(self, address: SocketAddress) -> bool {
        exists|i: int|
            0 <= i < self.peers.len() && (#[trigger] self.peers[i]).1.address == address
    }

    /// Whether there is an open connection to the node at `address`, whichever
    /// side made it.
    pub open spec fn is_connected_to(self, address: SocketAddress) -> bool {
        exists|i: int| 0 <= i < self.peers.len() && (#[trigger] self.peers[i]).1.is_at(address)
    }

    /// Whether a connected peer has introduced itself by `info`.
    pub open spec fn has_info(self, info: PeerInfoView) -> bool {
        exists|i: int| 0 <= i < self.peers.len() && (#[trigger] self.peers[i]).1.info == Some(info)
    }

    /// What the connected peers have told of themselves.
    pub open spec fn connected(self) -> Seq<PeerInfoView> {
        self.peers.filter_map(|entry: (LotId, PeerView)| entry.1.info)
    }

    /// The keys of the open connections to nodes named `name`.
    pub open spec fn named(self, name: Seq<char>) -> Seq<LotId> {
        self.peers.filter_map(key_if_named(name))
    }

    /// Where the next connection comes to be walked: in the place of the one that
    /// ended last, if that is free, or else behind all others.
    pub open spec fn next_place(self) -> int {
        next_place(self.peers.len(), self.emptied)
    }

    /// Where the connection `id` is walked.
    pub open spec fn place_of(self, id: LotId) -> int {
        choose|i: int| 0 <= i < self.peers.len() && (#[trigger] self.peers[i]).0 == id
    }

    /// What the peer `id` has told of itself.
    pub open spec fn info_of(self, id: LotId) -> Option<PeerInfoView> {
        if self.has_peer(id) {
            self.peers[self.place_of(id)].1.info
        } else {
            None
        }
    }

    /// After a connection to `address` has been made, under the key `id`.
    pub open spec fn with_peer(self, id: LotId, address: SocketAddress) -> StateView {
        StateView {
            peers: self.peers.insert(
                self.next_place(),
                (id, PeerView { info: None, address, subscriptions: Set::empty() }),
            ),
            emptied: still_empty(self.emptied),
            ..self
        }
    }

    /// After the connection `id` has ended: it is forgotten, and its peer is
    /// told of no more changes. What is observed of other nodes stays.
    pub open spec fn without_peer(self, id: LotId) -> StateView {
        StateView {
            peers: self.peers.filter(has_other_key(id)),
            emptied: if self.has_peer(id) {
                self.emptied.push(lot_at(self.emptied, self.place_of(id)))
            } else {
                self.emptied
            },
            values: self.values.map_values(|subscribers: Set<LotId>| subscribers.remove(id)),
            ..self
        }
    }

    /// After the peer `id` has introduced itself by `info`.
    pub open spec fn with_info(self, id: LotId, info: PeerInfoView) -> StateView {
        StateView {
            peers: self.peers.map_values(
                |entry: (LotId, PeerView)|
                    if entry.0 == id {
                        (id, PeerView { info: Some(info), ..entry.1 })
                    } else {
                        entry
                    },
            ),
            ..self
        }
    }

    /// After the peer `id` has asked for what `filter` selects.
    pub open spec fn with_filter(self, id: LotId, filter: FilterView) -> StateView {
        StateView {
            peers: self.peers.map_values(
                |entry: (LotId, PeerView)|
                    if entry.0 == id {
                        (
                            id,
                            PeerView {
                                subscriptions: entry.1.subscriptions.insert(filter),
                                ..entry.1
                            },
                        )
                    } else {
                        entry
                    },
            ),
            ..self
        }
    }

    /// What the other peers are told when the peer `id` introduces itself by
    /// `info`.
    pub open spec fn announcements(self, id: LotId, info: PeerInfoView) -> Seq<
        (LotId, MessageView),
    > {
        self.peers.filter_map(announcement(id, info))
    }

    /// Whether the value `name` of the node `peer` is observed.
    pub open spec fn observes(self, peer: Seq<char>, name: Seq<char>) -> bool {
        self.subscribing_to.contains_key(peer) && self.subscribing_to[peer].contains_key(name)
    }

    /// What the peer `id` is asked for when it turns out to be named `peer`.
    pub open spec fn requests(self, id: LotId, peer: Seq<char>) -> Set<(LotId, MessageView)> {
        Set::new(
            |sent: (LotId, MessageView)|
                sent.0 == id && (sent.1 matches MessageView::Subscribe(FilterView::Named(name))
                    && self.observes(peer, name)),
        )
    }

    /// The request that goes out when a reader starts to observe the value
    /// `name` of the node `peer`: to the first open connection to a node of
    /// that name.
    pub open spec fn subscription_request(self, peer: Seq<char>, name: Seq<char>) -> Option<
        (LotId, MessageView),
    > {
        if self.named(peer).len() == 0 {
            None
        } else {
            Some((self.named(peer)[0], MessageView::Subscribe(FilterView::Named(name))))
        }
    }

    /// The values observed of the node `peer`.
    pub open spec fn observed_of(self, peer: Seq<char>) -> Map<Seq<char>, SubscriptionView> {
        if self.subscribing_to.contains_key(peer) {
            self.subscribing_to[peer]
        } else {
            Map::empty()
        }
    }

    /// What is observed of the value `name` of the node `peer`; of one that is
    /// not observed, nothing received and no readers.
    pub open spec fn observed(self, peer: Seq<char>, name: Seq<char>) -> SubscriptionView {
        if self.observes(peer, name) {
            self.subscribing_to[peer][name]
        } else {
            SubscriptionView { input: Seq::empty(), readers: Set::empty() }
        }
    }

    /// With `subscription` for the value `name` of the node `peer`.
    pub open spec fn with_observed(
        self,
        peer: Seq<char>,
        name: Seq<char>,
        subscription: SubscriptionView,
    ) -> StateView {
        StateView {
            subscribing_to: self.subscribing_to.insert(
                peer,
                self.observed_of(peer).insert(name, subscription),
            ),
            ..self
        }
    }

    /// After `reader` has started to observe the value `name` of the node
    /// `peer`.
    pub open spec fn with_reader(
        self,
        peer: Seq<char>,
        name: Seq<char>,
        reader: u64,
    ) -> StateView {
        let subscription = self.observed(peer, name);
        self.with_observed(
            peer,
            name,
            SubscriptionView { readers: subscription.readers.insert(reader), ..subscription },
        )
    }

    /// After `data` has come in for the value `name` of the node `peer`.
    pub open spec fn with_input(
        self,
        peer: Seq<char>,
        name: Seq<char>,
        data: Seq<u8>,
    ) -> StateView {
        if self.observes(peer, name) {
            self.with_observed(
                peer,
                name,
                SubscriptionView { input: data, ..self.observed(peer, name) },
            )
        } else {
            self
        }
    }

    /// After a value has been published as `name`.
    pub open spec fn with_value(self, name: Seq<char>) -> StateView {
        StateView { values: self.values.insert(name, Set::empty()), ..self }
    }

    /// What goes out when the contents of the value published as `name` become
    /// `data`.
    pub open spec fn change_messages(self, name: Seq<char>, data: Seq<u8>) -> Set<
        (LotId, MessageView),
    > {
        Set::new(
            |sent: (LotId, MessageView)|
                self.values.contains_key(name) && self.values[name].contains(sent.0) && sent.1
                    == (MessageView::Value { name, data }),
        )
    }

    /// After the peer `id` has asked for the value `name`, whose contents are
    /// `current`, or which is gone. A value that is gone is no longer
    /// published.
    pub open spec fn with_subscriber(
        self,
        id: LotId,
        name: Seq<char>,
        current: Option<Seq<u8>>,
    ) -> StateView {
        let values = if !self.values.contains_key(name) {
            self.values
        } else if current is Some {
            self.values.insert(name, self.values[name].insert(id))
        } else {
            self.values.remove(name)
        };
        StateView { values, ..self }.with_filter(id, FilterView::Named(name))
    }

    /// What the node knows after the peer `id`, a node named `peer`, has sent
    /// `message`. Where that asks for a published value, `current` are its
    /// contents.
    pub open spec fn after_message(
        self,
        id: LotId,
        peer: Seq<char>,
        message: MessageView,
        current: Option<Seq<u8>>,
    ) -> StateView {
        match message {
            MessageView::Subscribe(FilterView::Named(name)) => self.with_subscriber(
                id,
                name,
                current,
            ),
            MessageView::Value { name, data } => self.with_input(peer, name, data),
            MessageView::Hello(_) => self.without_peer(id),
            MessageView::Bye => self.without_peer(id),
            _ => self,
        }
    }

    /// What the node does about `message` from the peer `id`, a node named
    /// `peer`. Where that asks for a published value, `current` are its
    /// contents.
    pub open spec fn reaction(
        self,
        id: LotId,
        peer: Seq<char>,
        message: MessageView,
        current: Option<Seq<u8>>,
    ) -> ReactionView {
        match message {
            MessageView::Hello(_) => ReactionView::UnexpectedHello,
            MessageView::NewPeer(info) => if self.has_info(info) {
                ReactionView::Continue
            } else {
                ReactionView::Connect(info.public_addr)
            },
            MessageView::Subscribe(FilterView::Named(name)) => match current {
                Some(data) if self.values.contains_key(name) => ReactionView::Reply(
                    id,
                    MessageView::Value { name, data },
                ),
                _ => ReactionView::Continue,
            },
            MessageView::Subscribe(FilterView::Any) => ReactionView::Continue,
            MessageView::Value { name, .. } => if self.observes(peer, name) {
                ReactionView::Updated(name)
            } else {
                ReactionView::Continue
            },
            MessageView::Bye => ReactionView::Closed,
        }
    }

    /// The next connection is walked among the others.
    pub proof fn lemma_next_place(self)
        requires
            self.wf(),
        ensures
            0 <= self.next_place() <= self.peers.len(),
    {
        if self.emptied.len() > 0 {
            assert(self.emptied.last() == self.emptied[self.emptied.len() - 1]);
        }
    }

    /// A new connection, under a key and to an address that no other has, keeps
    /// the state well-formed.
    pub proof fn lemma_with_peer_wf(self, id: LotId, address: SocketAddress)
        requires
            self.wf(),
            self.has_room(),
            !self.has_peer(id),
            !self.has_address(address),
        ensures
            self.with_peer(id, address).wf(),
    {
        let at = self.next_place();
        let after = self.with_peer(id, address);
        self.lemma_next_place();
        self.lemma_with_peer_keys(id, address);
        if self.emptied.len() > 0 {
            let last = self.emptied.last();
            assert(after.emptied.push(last) =~= self.emptied);
            assert(!after.emptied.contains(last));
            assert forall|i: int| 0 <= i < after.emptied.len() implies filled_before(
                after.emptied,
                #[trigger] after.emptied[i],
            ) <= after.peers.len() by {
                lemma_emptying(after.emptied, last, after.emptied[i]);
                assert(self.emptied[i] == after.emptied[i]);
            }
        }
        assert forall|i: int, j: int| 0 <= i < j < after.peers.len() implies (
        #[trigger] after.peers[i]).0 != (#[trigger] after.peers[j]).0 && after.peers[i].1.address
            != after.peers[j].1.address by {
            let before_i = if i < at { i } else { i - 1 };
            let before_j = if j < at { j } else { j - 1 };
            if i != at {
                assert(after.peers[i] == self.peers[before_i]);
            }
            if j != at {
                assert(after.peers[j] == self.peers[before_j]);
            }
        }
        assert forall|name: Seq<char>, other: LotId|
            after.values.contains_key(name) && #[trigger] after.values[name].contains(
                other,
            ) implies after.has_peer(other) by {
            assert(self.values[name].contains(other));
            assert(self.has_peer(other));
        }
    }

    /// Where there is no connection to a node, none has its other end there.
    pub proof fn lemma_stranger_has_no_address(self, address: SocketAddress)
        requires
            !self.is_connected_to(address),
        ensures
            !self.has_address(address),
    {
        assert forall|i: int| 0 <= i < self.peers.len() implies (
        #[trigger] self.peers[i]).1.address != address by {
            assert(!self.peers[i].1.is_at(address));
        }
    }

    /// A new connection adds its key to those that there are.
    pub proof fn lemma_with_peer_keys(self, id: LotId, address: SocketAddress)
        requires
            self.wf(),
        ensures
            forall|other: LotId| #[trigger]
                is_key(self.with_peer(id, address).peers, other) == (is_key(self.peers, other)
                    || other == id),
    {
        let at = self.next_place();
        let after = self.with_peer(id, address);
        self.lemma_next_place();
        assert(after.peers[at].0 == id);
        assert forall|other: LotId| #[trigger] is_key(after.peers, other) == (is_key(
            self.peers,
            other,
        ) || other == id) by {
            if is_key(self.peers, other) {
                let i = choose|i: int|
                    0 <= i < self.peers.len() && (#[trigger] self.peers[i]).0 == other;
                assert(after.peers[if i < at { i } else { i + 1 }] == self.peers[i]);
            }
            if is_key(after.peers, other) && other != id {
                let i = choose|i: int|
                    0 <= i < after.peers.len() && (#[trigger] after.peers[i]).0 == other;
                assert(self.peers[if i < at { i } else { i - 1 }] == after.peers[i]);
            }
        }
    }

    /// The end of a connection takes the connections with its key away, and no
    /// others.
    pub proof fn lemma_without_peer_contains(self, id: LotId, entry: (LotId, PeerView))
        ensures
            self.without_peer(id).peers.contains(entry) <==> self.peers.contains(entry) && entry.0
                != id,
    {
        lemma_filter_contains_iff(self.peers, has_other_key(id), entry);
    }

    /// The end of a connection takes its key away, and no other.
    pub proof fn lemma_without_peer_keys(self, id: LotId)
        ensures
            forall|other: LotId| #[trigger]
                is_key(self.without_peer(id).peers, other) == (is_key(self.peers, other) && other
                    != id),
    {
        let after = self.without_peer(id);
        assert forall|other: LotId| #[trigger] is_key(after.peers, other) == (is_key(
            self.peers,
            other,
        ) && other != id) by {
            if is_key(self.peers, other) && other != id {
                let i = choose|i: int|
                    0 <= i < self.peers.len() && (#[trigger] self.peers[i]).0 == other;
                self.lemma_without_peer_contains(id, self.peers[i]);
                let j = choose|j: int| 0 <= j < after.peers.len() && after.peers[j] == self.peers[i];
                assert(after.peers[j].0 == other);
            }
            if is_key(after.peers, other) {
                let j = choose|j: int|
                    0 <= j < after.peers.len() && (#[trigger] after.peers[j]).0 == other;
                assert(after.peers.contains(after.peers[j]));
                self.lemma_without_peer_contains(id, after.peers[j]);
                let i = choose|i: int| 0 <= i < self.peers.len() && self.peers[i] == after.peers[j];
                assert(self.peers[i].0 == other);
            }
        }
    }

    /// Where keys are distinct, the end of a connection takes one entry away.
    pub proof fn lemma_without_peer_at(self, i: int)
        requires
            self.wf(),
            0 <= i < self.peers.len(),
        ensures
            self.place_of(self.peers[i].0) == i,
            self.without_peer(self.peers[i].0).peers == self.peers.remove(i),
            is_lot_at(self.emptied, i, lot_at(self.emptied, i)),
            self.without_peer(self.peers[i].0).emptied == self.emptied.push(
                lot_at(self.emptied, i),
            ),
    {
        assert(self.has_peer(self.peers[i].0));
        lemma_filter_one_out(self.peers, i);
        lemma_lot_at(self.emptied, i);
    }

    /// The end of a connection makes room for another one.
    pub proof fn lemma_without_peer_has_room(self, id: LotId)
        requires
            self.wf(),
            self.has_peer(id),
        ensures
            self.without_peer(id).has_room(),
    {
        let i = choose|i: int| 0 <= i < self.peers.len() && (#[trigger] self.peers[i]).0 == id;
        self.lemma_without_peer_at(i);
    }

    /// Without a connection that has the key, no connection goes.
    pub proof fn lemma_without_stranger(self, id: LotId)
        requires
            !self.has_peer(id),
        ensures
            self.without_peer(id).peers == self.peers,
            self.without_peer(id).emptied == self.emptied,
    {
        lemma_filter_none_out(self.peers, id);
    }

    /// The end of a connection keeps the state well-formed.
    pub proof fn lemma_without_peer_wf(self, id: LotId)
        requires
            self.wf(),
        ensures
            self.without_peer(id).wf(),
    {
        let after = self.without_peer(id);
        self.lemma_without_peer_keys(id);
        if self.has_peer(id) {
            let k = choose|k: int| 0 <= k < self.peers.len() && (#[trigger] self.peers[k]).0 == id;
            self.lemma_without_peer_at(k);
            let n = lot_at(self.emptied, k);
            assert forall|i: int| 0 <= i < after.emptied.len() implies filled_before(
                after.emptied,
                #[trigger] after.emptied[i],
            ) <= after.peers.len() by {
                let m = after.emptied[i];
                lemma_emptying(self.emptied, n, m);
                if m <= n {
                    lemma_filled_before_grows(self.emptied, m, n);
                } else {
                    assert(self.emptied[i] == m);
                }
            }
            assert forall|i: int, j: int| 0 <= i < j < after.peers.len() implies (
            #[trigger] after.peers[i]).0 != (#[trigger] after.peers[j]).0
                && after.peers[i].1.address != after.peers[j].1.address by {
                let before_i = if i < k { i } else { i + 1 };
                let before_j = if j < k { j } else { j + 1 };
                assert(after.peers[i] == self.peers[before_i]);
                assert(after.peers[j] == self.peers[before_j]);
            }
        } else {
            self.lemma_without_stranger(id);
        }
        assert forall|name: Seq<char>, other: LotId|
            after.values.contains_key(name) && #[trigger] after.values[name].contains(
                other,
            ) implies after.has_peer(other) by {
            assert(self.values[name].contains(other));
            assert(self.has_peer(other));
        }
    }

    /// An introduction keeps the state well-formed.
    pub proof fn lemma_with_info_wf(self, id: LotId, info: PeerInfoView)
        requires
            self.wf(),
        ensures
            self.with_info(id, info).wf(),
    {
        let after = self.with_info(id, info);
        lemma_same_keys(self, after);
        assert forall|name: Seq<char>, other: LotId|
            after.values.contains_key(name) && #[trigger] after.values[name].contains(
                other,
            ) implies after.has_peer(other) by {
            assert(self.has_peer(other));
        }
    }

    /// A request keeps the state well-formed.
    pub proof fn lemma_with_filter_wf(self, id: LotId, filter: FilterView)
        requires
            self.wf(),
        ensures
            self.with_filter(id, filter).wf(),
    {
        let after = self.with_filter(id, filter);
        lemma_same_keys(self, after);
        assert forall|name: Seq<char>, other: LotId|
            after.values.contains_key(name) && #[trigger] after.values[name].contains(
                other,
            ) implies after.has_peer(other) by {
            assert(self.has_peer(other));
        }
    }

    /// An introduction adds and drops no connection.
    pub proof fn lemma_introduction_keeps_peers(self, id: LotId, info: PeerInfoView)
        ensures
            forall|other: LotId| #[trigger]
                is_key(self.with_info(id, info).peers, other) == is_key(self.peers, other),
    {
        lemma_same_keys(self, self.with_info(id, info));
    }

    /// A message drops no connection but the one on which it has come, and that
    /// only where it ends it; it adds none.
    pub proof fn lemma_message_keeps_peers(
        self,
        id: LotId,
        peer: Seq<char>,
        message: MessageView,
        current: Option<Seq<u8>>,
    )
        ensures
            forall|other: LotId| #[trigger]
                is_key(self.after_message(id, peer, message, current).peers, other) == (is_key(
                    self.peers,
                    other,
                ) && !(message.ends_connection() && other == id)),
    {
        if message.ends_connection() {
            self.lemma_without_peer_keys(id);
        } else {
            lemma_same_keys(self, self.after_message(id, peer, message, current));
        }
    }
}

/// What a filter keeps are the elements that it selects.
proof fn lemma_filter_contains_iff<A>(s: Seq<A>, keep: spec_fn(A) -> bool, element: A)
    ensures
        s.filter(keep).contains(element) <==> s.contains(element) && keep(element),
    decreases s.len(),
{
    reveal(Seq::filter);
    if s.len() > 0 {
        let rest = s.drop_last();
        let kept = rest.filter(keep);
        lemma_filter_contains_iff(rest, keep, element);
        if s.contains(element) && element != s.last() {
            let i = choose|i: int| 0 <= i < s.len() && s[i] == element;
            assert(rest[i] == element);
        }
        if rest.contains(element) {
            let i = choose|i: int| 0 <= i < rest.len() && rest[i] == element;
            assert(s[i] == element);
        }
        assert(s.contains(s.last()));
        if keep(s.last()) {
            let all = kept.push(s.last());
            assert(all[kept.len() as int] == s.last());
            if kept.contains(element) {
                let i = choose|i: int| 0 <= i < kept.len() && kept[i] == element;
                assert(all[i] == element);
            }
            if all.contains(element) && element != s.last() {
                let i = choose|i: int| 0 <= i < all.len() && all[i] == element;
                assert(kept[i] == element);
            }
        }
    }
}

/// Where no entry has the key `id`, all are kept.
proof fn lemma_filter_none_out(peers: Seq<(LotId, PeerView)>, id: LotId)
    requires
        forall|i: int| 0 <= i < peers.len() ==> (#[trigger] peers[i]).0 != id,
    ensures
        peers.filter(has_other_key(id)) == peers,
    decreases peers.len(),
{
    reveal(Seq::filter);
    if peers.len() > 0 {
        let rest = peers.drop_last();
        assert forall|i: int| 0 <= i < rest.len() implies (#[trigger] rest[i]).0 != id by {
            assert(rest[i] == peers[i]);
        }
        lemma_filter_none_out(rest, id);
        assert(peers.last().0 != id);
        assert(rest.push(peers.last()) =~= peers);
    }
}

/// Where one entry has the key, all others are kept.
proof fn lemma_filter_one_out(peers: Seq<(LotId, PeerView)>, i: int)
    requires
        0 <= i < peers.len(),
        forall|j: int, k: int|
            0 <= j < k < peers.len() ==> (#[trigger] peers[j]).0 != (#[trigger] peers[k]).0,
    ensures
        peers.filter(has_other_key(peers[i].0)) == peers.remove(i),
    decreases peers.len(),
{
    reveal(Seq::filter);
    let id = peers[i].0;
    let rest = peers.drop_last();
    let last = peers.last();
    assert(last == peers[peers.len() - 1]);
    assert forall|j: int| 0 <= j < rest.len() implies #[trigger] rest[j] == peers[j] by {}
    if i == peers.len() - 1 {
        lemma_filter_none_out(rest, id);
        assert(peers.remove(i) =~= rest);
    } else {
        lemma_filter_one_out(rest, i);
        assert(last.0 != id);
        assert(peers.remove(i) =~= rest.remove(i).push(last));
    }
}

/// Where the keys are the same, the same connections are known.
proof fn lemma_same_keys(before: StateView, after: StateView)
    requires
        after.peers.len() == before.peers.len(),
        forall|i: int|
            0 <= i < before.peers.len() ==> (#[trigger] after.peers[i]).0 == before.peers[i].0,
    ensures
        forall|id: LotId| #[trigger] is_key(after.peers, id) == is_key(before.peers, id),
{
    assert forall|id: LotId| #[trigger] is_key(after.peers, id) == is_key(before.peers, id) by {
        if after.has_peer(id) {
            let i = choose|i: int| 0 <= i < after.peers.len() && (#[trigger] after.peers[i]).0 == id;
            assert(before.peers[i].0 == id);
        }
        if before.has_peer(id) {
            let i = choose|i: int|
                0 <= i < before.peers.len() && (#[trigger] before.peers[i]).0 == id;
            assert(after.peers[i].0 == id);
        }
    }
}

} // verus!
