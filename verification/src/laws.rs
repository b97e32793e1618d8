//! What holds of a node through everything that happens to it.

use alot::LotId;
use vstd::prelude::*;

use crate::address::SocketAddress;
use crate::message::{FilterView, MessageView, PeerInfoView};
use crate::model::{
    announcement, each_once, has_other_key, is_key, key_if_named, ReactionView, StateView,
};
use crate::peer::{lemma_emptying, lot_at, PeerView};
use crate::state::lemma_filter_map_first;

verus! {

/// Something that happens to a node.
pub enum Event {
    /// A connection to `address` has been made, under the key `id`.
    Connected {
        /// The key.
        id: LotId,
        /// The address of the other end.
        address: SocketAddress,
    },
    /// The connection `id` has ended.
    Disconnected {
        /// The key.
        id: LotId,
    },
    /// The peer `id` has introduced itself by `info`.
    Introduced {
        /// The key of the peer.
        id: LotId,
        /// What it tells of itself.
        info: PeerInfoView,
    },
    /// The peer `id`, a node named `peer`, has sent `message`, at a time when
    /// the contents of the value that this asks for were `current`.
    Received {
        /// The key of the peer.
        id: LotId,
        /// The name of the peer.
        peer: Seq<char>,
        /// The message.
        message: MessageView,
        /// The contents of the value that the message asks for.
        current: Option<Seq<u8>>,
    },
    /// `reader` has subscribed to the value `name` of the node `peer`.
    Subscribed {
        /// The name of the node.
        peer: Seq<char>,
        /// The name of the value.
        name: Seq<char>,
        /// The reader.
        reader: u64,
    },
    /// A value has been published as `name`.
    Published {
        /// The name of the value.
        name: Seq<char>,
    },
}

impl StateView {
    /// Whether `event` can happen to a node in this state.
    pub open spec fn admits(self, event: Event) -> bool {
        match event {
            Event::Connected { id, address } => self.has_room() && !self.has_peer(id)
                && !self.is_connected_to(address),
            Event::Disconnected { .. } => true,
            Event::Introduced { id, .. } => self.has_peer(id),
            Event::Received { id, message, .. } => self.has_peer(id) && message
                != MessageView::Subscribe(FilterView::Any),
            Event::Subscribed { .. } => true,
            Event::Published { .. } => true,
        }
    }

    /// The state after `event`.
    pub open spec fn after(self, event: Event) -> StateView {
        match event {
            Event::Connected { id, address } => self.with_peer(id, address),
            Event::Disconnected { id } => self.without_peer(id),
            Event::Introduced { id, info } => self.with_info(id, info),
            Event::Received { id, peer, message, current } => self.after_message(
                id,
                peer,
                message,
                current,
            ),
            Event::Subscribed { peer, name, reader } => self.with_reader(peer, name, reader),
            Event::Published { name } => self.with_value(name),
        }
    }

    /// Whether `events` can happen, one after the other.
    pub open spec fn admits_all(self, events: Seq<Event>) -> bool
        decreases events.len(),
    {
        events.len() == 0 || (self.admits_all(events.drop_last()) && self.after_all(
            events.drop_last(),
        ).admits(events.last()))
    }

    /// The state after `events`.
    pub open spec fn after_all(self, events: Seq<Event>) -> StateView
        decreases events.len(),
    {
        if events.len() == 0 {
            self
        } else {
            self.after_all(events.drop_last()).after(events.last())
        }
    }

    /// Whether the peer `id` is to be told of changes of the value `name`.
    pub open spec fn tells(self, name: Seq<char>, id: LotId) -> bool {
        self.values.contains_key(name) && self.values[name].contains(id)
    }
}

/// Whether by `event` the peer `id` asks for the value `name`, which has contents
/// at the time.
pub open spec fn asks(event: Event, id: LotId, name: Seq<char>) -> bool {
    event matches Event::Received { id: sender, message, current, .. } && sender == id && message
        == MessageView::Subscribe(FilterView::Named(name)) && current is Some
}

/// Whether `event` ends the connection `id`.
pub open spec fn ends_connection(event: Event, id: LotId) -> bool {
    match event {
        Event::Disconnected { id: ended } => ended == id,
        Event::Received { id: sender, message, .. } => sender == id && message.ends_connection(),
        _ => false,
    }
}

/// Whether `event` ends what peers have asked for of the value `name`: either
/// a value is published in its place, or it turns out to be gone.
pub open spec fn ends_publication(event: Event, name: Seq<char>) -> bool {
    match event {
        Event::Published { name: published } => published == name,
        Event::Received { message, current, .. } => message == MessageView::Subscribe(
            FilterView::Named(name),
        ) && current is None,
        _ => false,
    }
}

/// Whatever happens to a node, its state stays well-formed: there are no more
/// connections than there can be, no two of them share a key or an address, and
/// only peers are told of changes.
pub proof fn state_stays_well_formed(state: StateView, event: Event)
    requires
        state.wf(),
        state.admits(event),
    ensures
        state.after(event).wf(),
{
    match event {
        Event::Connected { id, address } => {
            state.lemma_stranger_has_no_address(address);
            state.lemma_with_peer_wf(id, address);
        },
        Event::Disconnected { id } => {
            state.lemma_without_peer_wf(id);
        },
        Event::Introduced { id, info } => {
            state.lemma_with_info_wf(id, info);
        },
        Event::Received { id, peer, message, current } => {
            if let MessageView::Subscribe(FilterView::Named(name)) = message {
                let told = StateView {
                    values: if !state.values.contains_key(name) {
                        state.values
                    } else if current is Some {
                        state.values.insert(name, state.values[name].insert(id))
                    } else {
                        state.values.remove(name)
                    },
                    ..state
                };
                assert forall|n: Seq<char>, other: LotId| #[trigger]
                    told.values[n].contains(other) && told.values.contains_key(
                        n,
                    ) implies state.has_peer(other) by {
                    if other != id {
                        assert(state.values[n].contains(other));
                    }
                }
                lemma_same_peers_wf(state, told);
                told.lemma_with_filter_wf(id, FilterView::Named(name));
            } else if message.ends_connection() {
                state.lemma_without_peer_wf(id);
            } else {
                lemma_same_peers_wf(state, state.after(event));
            }
        },
        Event::Subscribed { .. } => {
            lemma_same_peers_wf(state, state.after(event));
        },
        Event::Published { .. } => {
            lemma_same_peers_wf(state, state.after(event));
        },
    }
}

/// A state is well-formed if it has the peers of one that is, and tells no
/// others of changes.
proof fn lemma_same_peers_wf(before: StateView, after: StateView)
    requires
        before.wf(),
        after.peers == before.peers,
        after.emptied == before.emptied,
        forall|name: Seq<char>, id: LotId| #[trigger]
            after.values[name].contains(id) && after.values.contains_key(name)
                ==> before.has_peer(id),
    ensures
        after.wf(),
{
    assert forall|name: Seq<char>, id: LotId|
        after.values.contains_key(name) && #[trigger] after.values[name].contains(
            id,
        ) implies after.has_peer(id) by {
        assert(before.has_peer(id));
    }
}

/// Through any course of events the state of a node stays well-formed.
pub proof fn state_is_always_well_formed(state: StateView, events: Seq<Event>)
    requires
        state.wf(),
        state.admits_all(events),
    ensures
        state.after_all(events).wf(),
    decreases events.len(),
{
    if events.len() > 0 {
        state_is_always_well_formed(state, events.drop_last());
        state_stays_well_formed(state.after_all(events.drop_last()), events.last());
    }
}

/// Whatever has happened to a node, no two of its open connections have their
/// other ends at one address.
pub proof fn one_connection_per_address(events: Seq<Event>, i: int, j: int)
    requires
        StateView::empty().admits_all(events),
        0 <= i < j < StateView::empty().after_all(events).peers.len(),
    ensures
        StateView::empty().after_all(events).peers[i].1.address
            != StateView::empty().after_all(events).peers[j].1.address,
{
    state_is_always_well_formed(StateView::empty(), events);
}

/// Of several connections to one address, in whatever order they are taken up,
/// one is kept: once there is a connection, no second one is admitted.
pub proof fn connected_address_admits_no_second(
    state: StateView,
    id: LotId,
    address: SocketAddress,
    other_id: LotId,
)
    requires
        state.wf(),
    ensures
        !state.with_peer(id, address).admits(Event::Connected { id: other_id, address }),
{
    let after = state.with_peer(id, address);
    state.lemma_next_place();
    assert(after.peers[state.next_place()].1.is_at(address));
}

/// A connection stays what it is through every event that does not end it.
proof fn lemma_connection_stays(state: StateView, event: Event, i: int) -> (j: int)
    requires
        state.wf(),
        state.admits(event),
        0 <= i < state.peers.len(),
        !ends_connection(event, state.peers[i].0),
    ensures
        0 <= j < state.after(event).peers.len(),
        state.after(event).peers[j].0 == state.peers[i].0,
        state.after(event).peers[j].1.address == state.peers[i].1.address,
        !(event matches Event::Introduced { id, .. } && id == state.peers[i].0)
            ==> state.after(event).peers[j].1.info == state.peers[i].1.info,
{
    let after = state.after(event);
    let entry = state.peers[i];
    assert(state.peers.contains(entry));
    match event {
        Event::Connected { .. } => {
            let at = state.next_place();
            state.lemma_next_place();
            let j = if i < at { i } else { i + 1 };
            assert(after.peers[j] == entry);
            j
        },
        Event::Disconnected { id } => {
            state.lemma_without_peer_contains(id, entry);
            choose|j: int| 0 <= j < after.peers.len() && after.peers[j] == entry
        },
        Event::Received { id, message, .. } => {
            if message.ends_connection() {
                state.lemma_without_peer_contains(id, entry);
                choose|j: int| 0 <= j < after.peers.len() && after.peers[j] == entry
            } else {
                i
            }
        },
        _ => i,
    }
}

/// A connection stays what it is through every course of events that does not
/// end it.
proof fn lemma_connection_stays_throughout(state: StateView, events: Seq<Event>, i: int) -> (j: int)
    requires
        state.wf(),
        state.admits_all(events),
        0 <= i < state.peers.len(),
        forall|k: int|
            0 <= k < events.len() ==> !ends_connection(#[trigger] events[k], state.peers[i].0),
    ensures
        0 <= j < state.after_all(events).peers.len(),
        state.after_all(events).peers[j].0 == state.peers[i].0,
        state.after_all(events).peers[j].1.address == state.peers[i].1.address,
        (forall|k: int|
            0 <= k < events.len() ==> !(#[trigger] events[k] matches Event::Introduced { id, .. }
                && id == state.peers[i].0)) ==> state.after_all(events).peers[j].1.info
            == state.peers[i].1.info,
    decreases events.len(),
{
    if events.len() == 0 {
        i
    } else {
        let before = events.drop_last();
        assert(forall|k: int| 0 <= k < before.len() ==> before[k] == events[k]);
        assert(events.last() == events[events.len() - 1]);
        let m = lemma_connection_stays_throughout(state, before, i);
        state_is_always_well_formed(state, before);
        lemma_connection_stays(state.after_all(before), events.last(), m)
    }
}

/// A connection stays open, under its key and with its other end at its
/// address, until it is ended.
pub proof fn connection_stays_until_it_ends(state: StateView, events: Seq<Event>, i: int)
    requires
        state.wf(),
        state.admits_all(events),
        0 <= i < state.peers.len(),
        forall|k: int|
            0 <= k < events.len() ==> !ends_connection(#[trigger] events[k], state.peers[i].0),
    ensures
        state.after_all(events).has_peer(state.peers[i].0),
        state.after_all(events).has_address(state.peers[i].1.address),
{
    let j = lemma_connection_stays_throughout(state, events, i);
    let after = state.after_all(events).peers[j];
    assert(after.0 == state.peers[i].0);
}

/// A connection that has ended counts no more: it has no key, nothing is sent
/// over it, and all others are as they were. What is observed stays observed.
pub proof fn ended_connection_is_forgotten(state: StateView, id: LotId)
    ensures
        !state.without_peer(id).has_peer(id),
        forall|other: LotId|
            other != id ==> #[trigger] state.without_peer(id).has_peer(other) == state.has_peer(
                other,
            ),
        forall|name: Seq<char>| !#[trigger] state.without_peer(id).named(name).contains(id),
        forall|other: LotId, info: PeerInfoView, message: MessageView|
            !#[trigger] state.without_peer(id).announcements(other, info).contains((id, message)),
        forall|name: Seq<char>, data: Seq<u8>, message: MessageView|
            !#[trigger] state.without_peer(id).change_messages(name, data).contains((id, message)),
        forall|name: Seq<char>, other: LotId|
            other != id ==> #[trigger] state.without_peer(id).tells(name, other) == state.tells(
                name,
                other,
            ),
        state.without_peer(id).subscribing_to == state.subscribing_to,
{
    let after = state.without_peer(id);
    state.lemma_without_peer_keys(id);
    assert(!is_key(after.peers, id));
    assert forall|other: LotId| other != id implies #[trigger] after.has_peer(other)
        == state.has_peer(other) by {
        assert(is_key(after.peers, other) == is_key(state.peers, other));
    }
    assert forall|name: Seq<char>| !#[trigger] after.named(name).contains(id) by {
        if after.named(name).contains(id) {
            let f = key_if_named(name);
            after.peers.lemma_filter_map_contains(f, id);
            let entry = choose|entry: (LotId, PeerView)| #[trigger]
                after.peers.contains(entry) && f(entry) == Some(id);
            let i = choose|i: int| 0 <= i < after.peers.len() && after.peers[i] == entry;
            assert(after.peers[i].0 == id);
        }
    }
    assert forall|other: LotId, info: PeerInfoView, message: MessageView|
        !#[trigger] after.announcements(other, info).contains((id, message)) by {
        if after.announcements(other, info).contains((id, message)) {
            let f = announcement(other, info);
            after.peers.lemma_filter_map_contains(f, (id, message));
            let entry = choose|entry: (LotId, PeerView)| #[trigger]
                after.peers.contains(entry) && f(entry) == Some((id, message));
            let i = choose|i: int| 0 <= i < after.peers.len() && after.peers[i] == entry;
            assert(after.peers[i].0 == id);
        }
    }
}

/// Once a connection has ended, there is a connection to a node at an address
/// exactly if another one is open to it.
pub proof fn ended_connection_counts_at_no_address(
    state: StateView,
    i: int,
    address: SocketAddress,
)
    requires
        state.wf(),
        0 <= i < state.peers.len(),
    ensures
        !state.without_peer(state.peers[i].0).has_address(state.peers[i].1.address),
        state.without_peer(state.peers[i].0).is_connected_to(address) <==> exists|j: int|
            0 <= j < state.peers.len() && j != i && (#[trigger] state.peers[j]).1.is_at(address),
{
    let after = state.without_peer(state.peers[i].0);
    state.lemma_without_peer_at(i);
    assert forall|k: int| 0 <= k < after.peers.len() implies (
    #[trigger] after.peers[k]).1.address != state.peers[i].1.address by {
        assert(after.peers[k] == state.peers[if k < i { k } else { k + 1 }]);
    }
    if after.is_connected_to(address) {
        let k = choose|k: int|
            0 <= k < after.peers.len() && (#[trigger] after.peers[k]).1.is_at(address);
        assert(state.peers[if k < i { k } else { k + 1 }].1.is_at(address));
    }
    if exists|j: int|
        0 <= j < state.peers.len() && j != i && (#[trigger] state.peers[j]).1.is_at(address) {
        let j = choose|j: int|
            0 <= j < state.peers.len() && j != i && (#[trigger] state.peers[j]).1.is_at(address);
        assert(after.peers[if j < i { j } else { j - 1 }].1.is_at(address));
    }
}

/// The address of a connection that has ended is free: unless another
/// connection is open to the node there, one to it is admitted again. There is
/// room for it, however many connections there were.
pub proof fn ended_connection_frees_its_address(state: StateView, i: int, id: LotId)
    requires
        state.wf(),
        0 <= i < state.peers.len(),
        forall|j: int|
            0 <= j < state.peers.len() && j != i ==> !(#[trigger] state.peers[j]).1.is_at(
                state.peers[i].1.address,
            ),
        !state.without_peer(state.peers[i].0).has_peer(id),
    ensures
        state.without_peer(state.peers[i].0).admits(
            Event::Connected { id, address: state.peers[i].1.address },
        ),
{
    ended_connection_counts_at_no_address(state, i, state.peers[i].1.address);
    state.lemma_without_peer_at(i);
}

/// Right after a connection has ended, the next one takes its place among the
/// others.
pub proof fn next_connection_takes_the_place_of_the_ended(
    state: StateView,
    i: int,
    id: LotId,
    address: SocketAddress,
)
    requires
        state.wf(),
        0 <= i < state.peers.len(),
    ensures
        state.without_peer(state.peers[i].0).with_peer(id, address).peers == state.peers.update(
            i,
            (id, PeerView { info: None, address, subscriptions: Set::empty() }),
        ),
        state.without_peer(state.peers[i].0).with_peer(id, address).emptied == state.emptied,
{
    let ended = state.without_peer(state.peers[i].0);
    let n = lot_at(state.emptied, i);
    state.lemma_without_peer_at(i);
    lemma_emptying(state.emptied, n, n);
    assert(ended.emptied.drop_last() =~= state.emptied);
    assert(ended.with_peer(id, address).peers =~= state.peers.update(
        i,
        (id, PeerView { info: None, address, subscriptions: Set::empty() }),
    ));
}

/// As long as no connection has ended, connections are walked in the order in
/// which they were made: a new one comes behind all others.
pub proof fn connections_are_walked_as_made(events: Seq<Event>, id: LotId, address: SocketAddress)
    requires
        forall|k: int, ended: LotId|
            0 <= k < events.len() ==> !#[trigger] ends_connection(events[k], ended),
    ensures
        StateView::empty().after_all(events).with_peer(id, address).peers
            == StateView::empty().after_all(events).peers.push(
            (id, PeerView { info: None, address, subscriptions: Set::empty() }),
        ),
{
    let state = StateView::empty().after_all(events);
    lemma_no_place_is_free(events);
    assert(state.with_peer(id, address).peers =~= state.peers.push(
        (id, PeerView { info: None, address, subscriptions: Set::empty() }),
    ));
}

/// As long as no connection has ended, no place is free.
proof fn lemma_no_place_is_free(events: Seq<Event>)
    requires
        forall|k: int, ended: LotId|
            0 <= k < events.len() ==> !#[trigger] ends_connection(events[k], ended),
    ensures
        StateView::empty().after_all(events).emptied.len() == 0,
    decreases events.len(),
{
    if events.len() > 0 {
        let before = events.drop_last();
        let last = events.last();
        assert(last == events[events.len() - 1]);
        assert forall|k: int, ended: LotId| 0 <= k < before.len() implies !#[trigger] ends_connection(
            before[k],
            ended,
        ) by {
            assert(before[k] == events[k]);
        }
        lemma_no_place_is_free(before);
        match last {
            Event::Disconnected { id } => {
                assert(ends_connection(events[events.len() - 1], id));
            },
            Event::Received { id, .. } => {
                assert(!ends_connection(events[events.len() - 1], id));
            },
            _ => {},
        }
    }
}

/// A peer is listed as connected no longer than it is: once its connection has
/// ended, what it told of itself is listed only if another open connection has
/// told the same.
pub proof fn ended_peer_is_not_listed(state: StateView, i: int, info: PeerInfoView)
    requires
        state.wf(),
        0 <= i < state.peers.len(),
    ensures
        state.without_peer(state.peers[i].0).connected().contains(info) <==> exists|j: int|
            0 <= j < state.peers.len() && j != i && (#[trigger] state.peers[j]).1.info == Some(
                info,
            ),
{
    let after = state.without_peer(state.peers[i].0);
    connected_peers_are_those_introduced(after, info);
    state.lemma_without_peer_at(i);
    if after.has_info(info) {
        let k = choose|k: int|
            0 <= k < after.peers.len() && (#[trigger] after.peers[k]).1.info == Some(info);
        assert(state.peers[if k < i { k } else { k + 1 }].1.info == Some(info));
    }
    if exists|j: int|
        0 <= j < state.peers.len() && j != i && (#[trigger] state.peers[j]).1.info == Some(info) {
        let j = choose|j: int|
            0 <= j < state.peers.len() && j != i && (#[trigger] state.peers[j]).1.info == Some(
                info,
            );
        assert(after.peers[if j < i { j } else { j - 1 }].1.info == Some(info));
    }
}

/// What a node observes it goes on observing, and no reader is dropped.
pub proof fn subscriptions_are_kept(
    state: StateView,
    events: Seq<Event>,
    peer: Seq<char>,
    name: Seq<char>,
)
    requires
        state.observes(peer, name),
    ensures
        state.after_all(events).observes(peer, name),
        state.observed(peer, name).readers.subset_of(
            state.after_all(events).observed(peer, name).readers,
        ),
    decreases events.len(),
{
    if events.len() > 0 {
        subscriptions_are_kept(state, events.drop_last(), peer, name);
    }
}

/// A subscription is requested of every peer that turns out to have the name
/// subscribed to, whatever happens before it introduces itself.
pub proof fn subscription_is_requested_on_connection(
    state: StateView,
    peer: Seq<char>,
    name: Seq<char>,
    reader: u64,
    events: Seq<Event>,
    id: LotId,
)
    ensures
        state.with_reader(peer, name, reader).after_all(events).requests(id, peer).contains(
            (id, MessageView::Subscribe(FilterView::Named(name))),
        ),
{
    subscriptions_are_kept(state.with_reader(peer, name, reader), events, peer, name);
}

/// A peer that disconnects and reconnects is asked again for each value that is
/// observed of it, over its new connection.
pub proof fn returning_peer_is_asked_again(
    state: StateView,
    peer: Seq<char>,
    name: Seq<char>,
    ended: LotId,
    events: Seq<Event>,
    id: LotId,
    address: SocketAddress,
)
    requires
        state.observes(peer, name),
    ensures
        state.without_peer(ended).after_all(events).with_peer(id, address).requests(
            id,
            peer,
        ).contains((id, MessageView::Subscribe(FilterView::Named(name)))),
{
    subscriptions_are_kept(state.without_peer(ended), events, peer, name);
}

/// A node that went away and is back is connected to anew, at any address at
/// which no connection is open, and what was observed of it is observed again.
/// Whatever has happened in between, there is room for the new connection,
/// unless others that were made in the meantime have taken it. Once the node
/// introduces itself, it is asked for the value, and what it sends for it goes to
/// all readers that there were.
pub proof fn returning_node_is_observed_again(
    state: StateView,
    i: int,
    name: Seq<char>,
    events: Seq<Event>,
    id: LotId,
    address: SocketAddress,
    info: PeerInfoView,
    data: Seq<u8>,
)
    requires
        state.wf(),
        0 <= i < state.peers.len(),
        state.observes(info.name, name),
        state.without_peer(state.peers[i].0).admits_all(events),
        (forall|k: int| 0 <= k < events.len() ==> !(#[trigger] events[k] is Connected))
            || state.without_peer(state.peers[i].0).after_all(events).has_room(),
        !state.without_peer(state.peers[i].0).after_all(events).is_connected_to(address),
        !state.without_peer(state.peers[i].0).after_all(events).has_peer(id),
    ensures
        ({
            let waiting = state.without_peer(state.peers[i].0).after_all(events);
            let connected = waiting.with_peer(id, address);
            let introduced = connected.with_info(id, info);
            let value = MessageView::Value { name, data };
            let updated = introduced.after_message(id, info.name, value, None);
            &&& waiting.admits(Event::Connected { id, address })
            &&& connected.admits(Event::Introduced { id, info })
            &&& connected.requests(id, info.name).contains(
                (id, MessageView::Subscribe(FilterView::Named(name))),
            )
            &&& introduced.admits(
                Event::Received { id, peer: info.name, message: value, current: None },
            )
            &&& introduced.reaction(id, info.name, value, None) == ReactionView::Updated(name)
            &&& updated.observed(info.name, name).input == data
            &&& state.observed(info.name, name).readers.subset_of(
                updated.observed(info.name, name).readers,
            )
        }),
{
    let gone = state.without_peer(state.peers[i].0);
    let waiting = gone.after_all(events);
    let connected = waiting.with_peer(id, address);
    state.lemma_without_peer_at(i);
    state.lemma_without_peer_wf(state.peers[i].0);
    state_is_always_well_formed(gone, events);
    if !gone.after_all(events).has_room() {
        lemma_connections_only_end(gone, events);
    }
    subscriptions_are_kept(gone, events, info.name, name);
    waiting.lemma_with_peer_keys(id, address);
    connected.lemma_introduction_keeps_peers(id, info);
    assert(is_key(connected.peers, id));
    assert(is_key(connected.with_info(id, info).peers, id));
}

/// Where no connection is made, there are no more than there were.
proof fn lemma_connections_only_end(state: StateView, events: Seq<Event>)
    requires
        state.wf(),
        state.admits_all(events),
        forall|k: int| 0 <= k < events.len() ==> !(#[trigger] events[k] is Connected),
    ensures
        state.after_all(events).peers.len() <= state.peers.len(),
    decreases events.len(),
{
    if events.len() > 0 {
        let before = events.drop_last();
        let last = events.last();
        assert(forall|k: int| 0 <= k < before.len() ==> before[k] == events[k]);
        assert(last == events[events.len() - 1]);
        lemma_connections_only_end(state, before);
        match last {
            Event::Disconnected { id } => {
                state.after_all(before).peers.lemma_filter_len(has_other_key(id));
            },
            Event::Received { id, .. } => {
                state.after_all(before).peers.lemma_filter_len(has_other_key(id));
            },
            _ => {},
        }
    }
}

/// A subscription is requested over an open connection to a node of the name
/// subscribed to, and is not requested only if there is none.
pub proof fn subscription_is_requested_over_an_open_connection(
    state: StateView,
    peer: Seq<char>,
    name: Seq<char>,
)
    ensures
        match state.subscription_request(peer, name) {
            Some((to, message)) => message == MessageView::Subscribe(FilterView::Named(name))
                && exists|i: int|
                0 <= i < state.peers.len() && (#[trigger] state.peers[i]).0 == to
                    && state.peers[i].1.is_named(peer),
            None => forall|i: int|
                0 <= i < state.peers.len() ==> !(#[trigger] state.peers[i]).1.is_named(peer),
        },
{
    let f = key_if_named(peer);
    let keys = state.named(peer);
    if keys.len() > 0 {
        assert(keys.contains(keys[0]));
        state.peers.lemma_filter_map_contains(f, keys[0]);
        let entry = choose|entry: (LotId, PeerView)| #[trigger]
            state.peers.contains(entry) && f(entry) == Some(keys[0]);
        let i = choose|i: int| 0 <= i < state.peers.len() && state.peers[i] == entry;
        assert(state.peers[i].0 == keys[0]);
    } else {
        assert forall|i: int| 0 <= i < state.peers.len() implies !(
        #[trigger] state.peers[i]).1.is_named(peer) by {
            if state.peers[i].1.is_named(peer) {
                lemma_some_kept(state.peers, f, i);
            }
        }
    }
}

/// What keeps an element keeps something.
proof fn lemma_some_kept<A, B>(s: Seq<A>, f: spec_fn(A) -> Option<B>, i: int)
    requires
        0 <= i < s.len(),
        f(s[i]) is Some,
    ensures
        s.filter_map(f).len() > 0,
    decreases s.len(),
{
    s.lemma_filter_map_take_succ(f, s.len() - 1);
    assert(s.take(s.len() - 1) =~= s.drop_last());
    assert(s.take(s.len() as int) =~= s);
    if i < s.len() - 1 {
        lemma_some_kept(s.drop_last(), f, i);
    }
}

/// If a peer of the name subscribed to is connected, a subscription is
/// requested of it at once: over the first connection, if there are several.
pub proof fn subscription_is_requested_of_connected_peer(
    state: StateView,
    peer: Seq<char>,
    name: Seq<char>,
    i: int,
)
    requires
        0 <= i < state.peers.len(),
        state.peers[i].1.is_named(peer),
        forall|j: int| 0 <= j < i ==> !(#[trigger] state.peers[j]).1.is_named(peer),
    ensures
        state.subscription_request(peer, name) == Some(
            (state.peers[i].0, MessageView::Subscribe(FilterView::Named(name))),
        ),
{
    let f = key_if_named(peer);
    lemma_none_kept(state.peers.take(i), f);
    lemma_filter_map_first(state.peers, f, i);
}

/// What keeps no element keeps nothing.
proof fn lemma_none_kept<A, B>(s: Seq<A>, f: spec_fn(A) -> Option<B>)
    requires
        forall|i: int| 0 <= i < s.len() ==> f(#[trigger] s[i]) is None,
    ensures
        s.filter_map(f).len() == 0,
    decreases s.len(),
{
    if s.len() > 0 {
        lemma_none_kept(s.drop_last(), f);
        s.lemma_filter_map_take_succ(f, s.len() - 1);
        assert(s.take(s.len() - 1) =~= s.drop_last());
        assert(s.take(s.len() as int) =~= s);
    }
}

/// Subscribing again changes nothing.
pub proof fn subscribing_twice_is_subscribing_once(
    state: StateView,
    peer: Seq<char>,
    name: Seq<char>,
    reader: u64,
)
    ensures
        state.with_reader(peer, name, reader).with_reader(peer, name, reader) == state.with_reader(
            peer,
            name,
            reader,
        ),
{
    let once = state.with_reader(peer, name, reader);
    let twice = once.with_reader(peer, name, reader);
    assert(twice.observed(peer, name).readers =~= once.observed(peer, name).readers);
    assert(twice.observed_of(peer) =~= once.observed_of(peer));
    assert(twice.subscribing_to =~= once.subscribing_to);
}

/// What has been received for a value stays until the node that publishes it
/// sends something else for it.
pub proof fn input_changes_only_by_what_is_received(
    state: StateView,
    event: Event,
    peer: Seq<char>,
    name: Seq<char>,
)
    requires
        !(event matches Event::Received { peer: sender, message, .. } && sender == peer && (
        message matches MessageView::Value { name: sent, .. } && sent == name)),
    ensures
        state.after(event).observed(peer, name).input == state.observed(peer, name).input,
{
}

/// Every other peer, and only those, is told of a peer that introduces itself,
/// each once.
pub proof fn new_peer_is_announced_to_all_others(state: StateView, id: LotId, info: PeerInfoView)
    requires
        state.wf(),
    ensures
        each_once(
            state.announcements(id, info),
            Set::new(
                |sent: (LotId, MessageView)|
                    state.has_peer(sent.0) && sent.0 != id && sent.1 == MessageView::NewPeer(info),
            ),
        ),
{
    let told = Set::new(
        |sent: (LotId, MessageView)|
            state.has_peer(sent.0) && sent.0 != id && sent.1 == MessageView::NewPeer(info),
    );
    lemma_announced(state.peers, id, info);
    assert(state.announcements(id, info).to_set() =~= told);
}

/// The announcements go, each once, to the keys in `peers` other than `id`.
proof fn lemma_announced(peers: Seq<(LotId, PeerView)>, id: LotId, info: PeerInfoView)
    requires
        forall|i: int, j: int|
            0 <= i < j < peers.len() ==> (#[trigger] peers[i]).0 != (#[trigger] peers[j]).0,
    ensures
        ({
            let all = peers.filter_map(announcement(id, info));
            &&& all.no_duplicates()
            &&& forall|sent: (LotId, MessageView)| #[trigger]
                all.contains(sent) <==> sent.0 != id && sent.1 == MessageView::NewPeer(info)
                    && exists|i: int| 0 <= i < peers.len() && (#[trigger] peers[i]).0 == sent.0
        }),
    decreases peers.len(),
{
    let f = announcement(id, info);
    let all = peers.filter_map(f);
    if peers.len() > 0 {
        let rest = peers.drop_last();
        let last = peers.last();
        lemma_announced(rest, id, info);
        let before = rest.filter_map(f);
        peers.lemma_filter_map_take_succ(f, peers.len() - 1);
        assert(peers.take(peers.len() - 1) =~= rest);
        assert(peers.take(peers.len() as int) =~= peers);
        let message = (last.0, MessageView::NewPeer(info));
        if last.0 != id {
            assert(all =~= before.push(message));
            assert(!before.contains(message)) by {
                if before.contains(message) {
                    let i = choose|i: int|
                        0 <= i < rest.len() && (#[trigger] rest[i]).0 == message.0;
                    assert(peers[i].0 == last.0);
                }
            }
        } else {
            assert(all =~= before);
        }
        assert forall|sent: (LotId, MessageView)| #[trigger] all.contains(sent) <==> sent.0 != id
            && sent.1 == MessageView::NewPeer(info) && exists|i: int|
            0 <= i < peers.len() && (#[trigger] peers[i]).0 == sent.0 by {
            if all.contains(sent) {
                if last.0 != id && sent == message {
                    assert(peers[peers.len() - 1].0 == sent.0);
                } else {
                    let k = choose|k: int| 0 <= k < all.len() && all[k] == sent;
                    assert(before[k] == sent);
                    assert(before.contains(sent));
                    let i = choose|i: int| 0 <= i < rest.len() && (#[trigger] rest[i]).0 == sent.0;
                    assert(peers[i].0 == sent.0);
                }
            }
            if sent.0 != id && sent.1 == MessageView::NewPeer(info) && exists|i: int|
                0 <= i < peers.len() && (#[trigger] peers[i]).0 == sent.0 {
                let i = choose|i: int| 0 <= i < peers.len() && (#[trigger] peers[i]).0 == sent.0;
                if i == peers.len() - 1 {
                    assert(all[all.len() - 1] == sent);
                } else {
                    assert(rest[i].0 == sent.0);
                    assert(before.contains(sent));
                    let k = choose|k: int| 0 <= k < before.len() && before[k] == sent;
                    assert(all[k] == sent);
                }
            }
        }
    }
}

/// The peers listed as connected are those that have introduced themselves.
pub proof fn connected_peers_are_those_introduced(state: StateView, info: PeerInfoView)
    ensures
        state.connected().contains(info) <==> state.has_info(info),
    decreases state.peers.len(),
{
    let f = |entry: (LotId, PeerView)| entry.1.info;
    let peers = state.peers;
    if peers.len() > 0 {
        let rest = StateView { peers: peers.drop_last(), ..state };
        connected_peers_are_those_introduced(rest, info);
        let before = rest.connected();
        let all = state.connected();
        peers.lemma_filter_map_take_succ(f, peers.len() - 1);
        assert(peers.take(peers.len() - 1) =~= rest.peers);
        assert(peers.take(peers.len() as int) =~= peers);
        assert(forall|i: int| 0 <= i < before.len() ==> all[i] == before[i]);
        if all.contains(info) && !before.contains(info) {
            let i = choose|i: int| 0 <= i < all.len() && all[i] == info;
            assert(i == before.len());
            assert(peers[peers.len() - 1].1.info == Some(info));
        }
        if before.contains(info) {
            let i = choose|i: int| 0 <= i < before.len() && before[i] == info;
            assert(all[i] == info);
            let j = choose|j: int|
                0 <= j < rest.peers.len() && (#[trigger] rest.peers[j]).1.info == Some(info);
            assert(peers[j].1.info == Some(info));
        }
        if state.has_info(info) && !rest.has_info(info) {
            let j = choose|j: int|
                0 <= j < peers.len() && (#[trigger] peers[j]).1.info == Some(info);
            if j < peers.len() - 1 {
                assert(rest.peers[j].1.info == Some(info));
            }
            assert(all[before.len() as int] == info);
        }
    }
}

/// A node that has introduced itself is not connected to again, whichever side
/// made the connection: as long as that is open, none to the address at which
/// the node accepts connections is admitted, and nothing is done when another
/// peer announces the node.
pub proof fn introduced_node_is_not_connected_to_again(
    state: StateView,
    i: int,
    info: PeerInfoView,
    events: Seq<Event>,
    id: LotId,
    announcer: LotId,
    announcer_name: Seq<char>,
)
    requires
        state.wf(),
        0 <= i < state.peers.len(),
        state.peers[i].1.info == Some(info),
        state.admits_all(events),
        forall|k: int|
            0 <= k < events.len() ==> !ends_connection(#[trigger] events[k], state.peers[i].0),
        forall|k: int|
            0 <= k < events.len() ==> !(#[trigger] events[k] matches Event::Introduced {
                id: introduced,
                ..
            } && introduced == state.peers[i].0),
    ensures
        state.after_all(events).is_connected_to(info.public_addr),
        !state.after_all(events).admits(Event::Connected { id, address: info.public_addr }),
        state.after_all(events).reaction(
            announcer,
            announcer_name,
            MessageView::NewPeer(info),
            None,
        ) == ReactionView::Continue,
{
    let after = state.after_all(events);
    let j = lemma_connection_stays_throughout(state, events, i);
    assert(after.peers[j].1.is_at(info.public_addr));
    assert(after.peers[j].1.info == Some(info));
}

/// A peer that has subscribed to a value is told of every change of it, until
/// its connection ends, another value is published in its place, or the value
/// turns out to be gone.
pub proof fn subscriber_is_told_of_changes(
    state: StateView,
    events: Seq<Event>,
    name: Seq<char>,
    id: LotId,
    data: Seq<u8>,
)
    requires
        state.tells(name, id),
        forall|i: int|
            0 <= i < events.len() ==> !ends_publication(#[trigger] events[i], name)
                && !ends_connection(events[i], id),
    ensures
        state.after_all(events).tells(name, id),
        state.after_all(events).change_messages(name, data).contains(
            (id, MessageView::Value { name, data }),
        ),
    decreases events.len(),
{
    if events.len() > 0 {
        let before = events.drop_last();
        assert(forall|i: int| 0 <= i < before.len() ==> before[i] == events[i]);
        subscriber_is_told_of_changes(state, before, name, id, data);
        assert(!ends_publication(events[events.len() - 1], name));
        assert(!ends_connection(events[events.len() - 1], id));
    }
}

/// A peer is told of changes of a value only because it has asked for it since:
/// after its request no value was published in place of the one asked for, that
/// one did not turn out to be gone, and the connection did not end.
pub proof fn only_who_asked_is_told(state: StateView, events: Seq<Event>, name: Seq<char>, id: LotId)
    requires
        !state.tells(name, id),
        state.after_all(events).tells(name, id),
    ensures
        exists|k: int|
            0 <= k < events.len() && #[trigger] asks(events[k], id, name) && forall|m: int|
                k < m < events.len() ==> !ends_publication(#[trigger] events[m], name)
                    && !ends_connection(events[m], id),
    decreases events.len(),
{
    if events.len() > 0 {
        let before = events.drop_last();
        let last = events[events.len() - 1];
        assert(last == events.last());
        if asks(last, id, name) {
            assert(asks(events[events.len() - 1], id, name));
        } else {
            assert(state.after_all(before).tells(name, id));
            assert(!ends_publication(last, name));
            assert(!ends_connection(last, id));
            only_who_asked_is_told(state, before, name, id);
            let k = choose|k: int|
                0 <= k < before.len() && #[trigger] asks(before[k], id, name) && forall|m: int|
                    k < m < before.len() ==> !ends_publication(#[trigger] before[m], name)
                        && !ends_connection(before[m], id);
            assert(asks(events[k], id, name));
            assert forall|m: int| k < m < events.len() implies !ends_publication(
                #[trigger] events[m],
                name,
            ) && !ends_connection(events[m], id) by {
                if m < events.len() - 1 {
                    assert(before[m] == events[m]);
                }
            }
        }
    }
}

/// Once a value has been published, and as long as it is neither replaced nor
/// gone, a change of it goes exactly to the peers that have asked for it since
/// and whose connections have not ended after that.
pub proof fn change_goes_to_who_asked_since_publication(
    state: StateView,
    events: Seq<Event>,
    name: Seq<char>,
    id: LotId,
    data: Seq<u8>,
)
    requires
        forall|k: int| 0 <= k < events.len() ==> !ends_publication(#[trigger] events[k], name),
    ensures
        state.with_value(name).after_all(events).change_messages(name, data).contains(
            (id, MessageView::Value { name, data }),
        ) <==> exists|k: int|
            0 <= k < events.len() && #[trigger] asks(events[k], id, name) && forall|m: int|
                k < m < events.len() ==> !ends_connection(#[trigger] events[m], id),
{
    let published = state.with_value(name);
    if published.after_all(events).tells(name, id) {
        only_who_asked_is_told(published, events, name, id);
        let k = choose|k: int|
            0 <= k < events.len() && #[trigger] asks(events[k], id, name) && forall|m: int|
                k < m < events.len() ==> !ends_publication(#[trigger] events[m], name)
                    && !ends_connection(events[m], id);
        assert forall|m: int| k < m < events.len() implies !ends_connection(
            #[trigger] events[m],
            id,
        ) by {
            assert(!ends_publication(events[m], name));
        }
    }
    if exists|k: int|
        0 <= k < events.len() && #[trigger] asks(events[k], id, name) && forall|m: int|
            k < m < events.len() ==> !ends_connection(#[trigger] events[m], id) {
        let k = choose|k: int|
            0 <= k < events.len() && #[trigger] asks(events[k], id, name) && forall|m: int|
                k < m < events.len() ==> !ends_connection(#[trigger] events[m], id);
        lemma_who_asked_is_told(published, events, name, id, k);
    }
}

/// Who has asked for a published value is told of its changes.
proof fn lemma_who_asked_is_told(
    state: StateView,
    events: Seq<Event>,
    name: Seq<char>,
    id: LotId,
    k: int,
)
    requires
        state.values.contains_key(name),
        forall|m: int| 0 <= m < events.len() ==> !ends_publication(#[trigger] events[m], name),
        0 <= k < events.len(),
        asks(events[k], id, name),
        forall|m: int| k < m < events.len() ==> !ends_connection(#[trigger] events[m], id),
    ensures
        state.after_all(events).tells(name, id),
    decreases events.len(),
{
    let before = events.drop_last();
    assert(events.last() == events[events.len() - 1]);
    assert(forall|m: int| 0 <= m < before.len() ==> before[m] == events[m]);
    if k == events.len() - 1 {
        lemma_value_stays_published(state, before, name);
    } else {
        lemma_who_asked_is_told(state, before, name, id, k);
        assert(!ends_publication(events[events.len() - 1], name));
        assert(!ends_connection(events[events.len() - 1], id));
    }
}

/// A value stays published unless it turns out to be gone.
proof fn lemma_value_stays_published(state: StateView, events: Seq<Event>, name: Seq<char>)
    requires
        state.values.contains_key(name),
        forall|m: int| 0 <= m < events.len() ==> !ends_publication(#[trigger] events[m], name),
    ensures
        state.after_all(events).values.contains_key(name),
    decreases events.len(),
{
    if events.len() > 0 {
        let before = events.drop_last();
        assert(forall|m: int| 0 <= m < before.len() ==> before[m] == events[m]);
        lemma_value_stays_published(state, before, name);
        assert(!ends_publication(events[events.len() - 1], name));
    }
}

/// A node observes what another one publishes: it asks for the value, is
/// answered with its contents and from then on told of each change; and what
/// it is sent it hands to its readers.
pub proof fn published_value_is_observed(
    publisher: StateView,
    publisher_name: Seq<char>,
    observer: StateView,
    observer_name: Seq<char>,
    observer_id: LotId,
    publisher_id: LotId,
    name: Seq<char>,
    data: Seq<u8>,
    changed: Seq<u8>,
)
    requires
        publisher.values.contains_key(name),
        observer.observes(publisher_name, name),
    ensures
        ({
            let request = MessageView::Subscribe(FilterView::Named(name));
            let answer = MessageView::Value { name, data };
            let change = MessageView::Value { name, data: changed };
            let subscribed = publisher.after_message(
                observer_id,
                observer_name,
                request,
                Some(data),
            );
            let answered = observer.after_message(publisher_id, publisher_name, answer, None);
            let updated = answered.after_message(publisher_id, publisher_name, change, None);
            &&& observer.requests(publisher_id, publisher_name).contains((publisher_id, request))
            &&& publisher.reaction(observer_id, observer_name, request, Some(data))
                == ReactionView::Reply(observer_id, answer)
            &&& observer.reaction(publisher_id, publisher_name, answer, None)
                == ReactionView::Updated(name)
            &&& answered.observed(publisher_name, name).input == data
            &&& subscribed.change_messages(name, changed).contains((observer_id, change))
            &&& answered.reaction(publisher_id, publisher_name, change, None)
                == ReactionView::Updated(name)
            &&& updated.observed(publisher_name, name).input == changed
        }),
{
}

/// A value that is published anew is told to nobody until somebody asks for it.
pub proof fn published_value_has_no_subscribers(state: StateView, name: Seq<char>, data: Seq<u8>)
    ensures
        state.with_value(name).change_messages(name, data) == Set::<(LotId, MessageView)>::empty(),
{
    assert(state.with_value(name).change_messages(name, data) =~= Set::empty());
}

/// A value that is gone when a peer asks for it is not answered with, is no
/// longer published, and is told to nobody.
pub proof fn gone_value_is_withdrawn(
    state: StateView,
    id: LotId,
    peer: Seq<char>,
    name: Seq<char>,
    data: Seq<u8>,
)
    ensures
        ({
            let request = MessageView::Subscribe(FilterView::Named(name));
            let after = state.after_message(id, peer, request, None);
            &&& state.reaction(id, peer, request, None) == ReactionView::Continue
            &&& !after.values.contains_key(name)
            &&& after.change_messages(name, data) == Set::<(LotId, MessageView)>::empty()
        }),
{
    let after = state.after_message(
        id,
        peer,
        MessageView::Subscribe(FilterView::Named(name)),
        None,
    );
    assert(after.change_messages(name, data) =~= Set::empty());
}

} // verus!
