//! A node of the bus: what it tells its peers, and what it does about what
//! they tell it.

use alot::LotId;
use vstd::prelude::*;

use crate::address::SocketAddress;
use crate::effects::introduction_is_announced_in_order;
use crate::message::{Filter, FilterView, Message, MessageView, PeerInfo, PeerInfoView};
use crate::model::{each_once, is_key, BusView, ReactionView, StateView};
use crate::state::{sent, GooBusState, Outgoing};

verus! {

/// A node of a bus that enables [publishing](Self::publish) values and
/// [subscribing](Self::subscribe_to) to those of other nodes.
#[derive(Debug)]
pub struct GooBus {
    name: String,
    listening_on: SocketAddress,
    state: GooBusState,
}

impl View for GooBus {
    type V = BusView;

    closed spec fn view(&self) -> BusView {
        BusView { name: self.name@, listening_on: self.listening_on, state: self.state@ }
    }
}

/// What follows from a peer's introduction.
#[derive(Debug, PartialEq, Eq)]
pub struct Introduction {
    /// The name of the peer.
    pub peer_name: String,
    /// What the other peers are told.
    pub announcements: Vec<Outgoing>,
    /// What the peer is asked for.
    pub requests: Vec<Outgoing>,
}

/// What a node does about a message that it has received.
#[derive(Debug, PartialEq, Eq)]
pub enum Reaction {
    /// Nothing.
    Continue,
    /// It connects to this address.
    Connect(SocketAddress),
    /// It sends this message.
    Reply(Outgoing),
    /// It hands the contents received for the value of this name to its
    /// readers.
    Updated(String),
    /// It ends the connection.
    Closed,
    /// It gives the connection up: the message may only come first.
    UnexpectedHello,
}

impl View for Reaction {
    type V = ReactionView;

    open spec fn view(&self) -> ReactionView {
        match self {
            Reaction::Continue => ReactionView::Continue,
            Reaction::Connect(address) => ReactionView::Connect(*address),
            Reaction::Reply(outgoing) => ReactionView::Reply(outgoing.to, outgoing.message@),
            Reaction::Updated(name) => ReactionView::Updated(name@),
            Reaction::Closed => ReactionView::Closed,
            Reaction::UnexpectedHello => ReactionView::UnexpectedHello,
        }
    }
}

/// What follows from a subscription.
#[derive(Debug, PartialEq, Eq)]
pub struct Subscribed {
    /// The request for the value, if a peer of the wanted name is connected.
    pub request: Option<Outgoing>,
    /// Whether the reader did not observe the value before.
    pub is_new: bool,
}

/// What a message that may be missing says to whom.
pub open spec fn maybe_sent(outgoing: Option<Outgoing>) -> Option<(LotId, MessageView)> {
    match outgoing {
        Some(outgoing) => Some(outgoing@),
        None => None,
    }
}

/// The contents of a value that may be gone.
pub open spec fn contents(current: Option<Vec<u8>>) -> Option<Seq<u8>> {
    match current {
        Some(data) => Some(data@),
        None => None,
    }
}

impl GooBus {
    /// What holds of every node: there are no more open connections than there can
    /// be, no two of them share a key or an address, only connected peers are told
    /// of changes, and nothing is listed twice.
    pub open spec fn wf(&self) -> bool {
        self@.state.wf() && self.lists_nothing_twice()
    }

    /// The node's state lists nothing twice.
    pub closed spec fn lists_nothing_twice(&self) -> bool {
        self.state.lists_nothing_twice()
    }

    /// Returns a new node that identifies itself as `name` and accepts
    /// connections on `listening_on`.
    pub fn new(name: String, listening_on: SocketAddress) -> (res: GooBus)
        ensures
            res.wf(),
            res@ == (BusView { name: name@, listening_on, state: StateView::empty() }),
    {
        GooBus { name, listening_on, state: GooBusState::default() }
    }

    /// Returns the name of this node.
    #[must_use]
    pub fn name(&self) -> (res: &str)
        ensures
            res@ == self@.name,
    {
        self.name.as_str()
    }

    /// Returns the address on which this node accepts connections.
    #[must_use]
    pub fn listening_on(&self) -> (res: SocketAddress)
        ensures
            res == self@.listening_on,
    {
        self.listening_on
    }

    /// Returns what this node knows.
    pub fn state(&self) -> (res: &GooBusState)
        ensures
            res@ == self@.state,
            self.wf() ==> res.wf(),
    {
        &self.state
    }

    /// Whether there is an open connection to the node at `address`, whichever
    /// side made it: to connect there once more would add nothing.
    pub fn is_connected_to(&self, address: SocketAddress) -> (res: bool)
        ensures
            res == self@.state.is_connected_to(address),
    {
        self.state.is_connected_to(address)
    }

    /// Starts with a connection whose other end is at `address`: returns the
    /// key of the new peer, and the message to greet it with.
    ///
    /// If there is a connection to the node at that address already, returns
    /// nothing: this one is to be dropped.
    pub fn initialize_peer(&mut self, address: SocketAddress) -> (res: Option<(LotId, Message)>)
        requires
            old(self).wf(),
            old(self)@.state.is_connected_to(address) || old(self)@.state.has_room(),
        ensures
            final(self).wf(),
            res is None <==> old(self)@.state.is_connected_to(address),
            res is None ==> final(self)@ == old(self)@,
            res matches Some((id, _)) ==> !old(self)@.state.has_peer(id)
                && final(self)@.state.has_peer(id),
            res matches Some((id, _)) ==> final(self)@ == (BusView {
                state: old(self)@.state.with_peer(id, address),
                ..old(self)@
            }),
            res matches Some((_, hello)) ==> hello@ == MessageView::Hello(
                PeerInfoView { name: old(self)@.name, public_addr: old(self)@.listening_on },
            ),
            res matches Some((_, hello)) ==> (hello matches Message::Hello(info) && info.name@
                == old(self)@.name && info.public_addr == old(self)@.listening_on),
            forall|other: LotId| #[trigger]
                is_key(final(self)@.state.peers, other) == (is_key(old(self)@.state.peers, other)
                    || (res matches Some((id, _)) && other == id)),
    {
        if self.state.is_connected_to(address) {
            return None;
        }
        proof {
            self@.state.lemma_stranger_has_no_address(address);
        }
        let id: LotId = self.state.push_peer(address);
        proof {
            old(self)@.state.lemma_with_peer_keys(id, address);
        }
        let info = PeerInfo { name: self.name.clone(), public_addr: self.listening_on };
        Some((id, Message::Hello(info)))
    }

    /// Forgets the connection `id`, which has ended, and so makes room for another
    /// one. Its peer is told of no more changes; what is observed of the node stays
    /// observed, and is asked for again when the node reconnects.
    pub fn disconnect_peer(&mut self, id: LotId)
        requires
            old(self).wf(),
        ensures
            final(self).wf(),
            final(self)@ == (BusView {
                state: old(self)@.state.without_peer(id),
                ..old(self)@
            }),
            forall|other: LotId| #[trigger]
                is_key(final(self)@.state.peers, other) == (is_key(old(self)@.state.peers, other)
                    && other != id),
            old(self)@.state.has_peer(id) ==> final(self)@.state.has_room(),
    {
        proof {
            self@.state.lemma_without_peer_keys(id);
            if self@.state.has_peer(id) {
                self@.state.lemma_without_peer_has_room(id);
            }
        }
        self.state.remove_peer(id);
    }

    /// Takes the first message of the peer `id`, by which it introduces itself.
    ///
    /// # Errors
    ///
    /// Returns the message if it is no greeting. The connection is given up.
    pub fn introduce_peer(&mut self, id: LotId, first: Message) -> (res: Result<
        Introduction,
        Message,
    >)
        requires
            old(self).wf(),
            old(self)@.state.has_peer(id),
        ensures
            final(self).wf(),
            match first@ {
                MessageView::Hello(info) => {
                    &&& final(self)@ == (BusView {
                        state: old(self)@.state.with_info(id, info),
                        ..old(self)@
                    })
                    &&& res matches Ok(introduction)
                    &&& introduction.peer_name@ == info.name
                    &&& sent(introduction.announcements@) == old(self)@.state.announcements(id, info)
                    &&& each_once(
                        sent(introduction.requests@),
                        old(self)@.state.requests(id, info.name),
                    )
                },
                _ => {
                    &&& final(self)@ == (BusView {
                        state: old(self)@.state.without_peer(id),
                        ..old(self)@
                    })
                    &&& res == Err::<Introduction, Message>(first)
                },
            },
            forall|other: LotId| #[trigger]
                is_key(final(self)@.state.peers, other) == (is_key(old(self)@.state.peers, other)
                    && !(res is Err && other == id)),
            res is Err ==> final(self)@.state.has_room(),
            res is Ok <==> first is Hello,
            (res, first) matches (Ok(introduction), Message::Hello(info)) ==> {
                &&& introduction.peer_name@ == info.name@
                &&& forall|i: int|
                    0 <= i < introduction.announcements@.len() ==> {
                        &&& (#[trigger] introduction.announcements@[i]).to != id
                        &&& introduction.announcements@[i].message matches Message::NewPeer(told)
                        &&& told.name@ == info.name@
                        &&& told.public_addr == info.public_addr
                    }
                &&& forall|i: int|
                    0 <= i < introduction.requests@.len() ==> {
                        &&& (#[trigger] introduction.requests@[i]).to == id
                        &&& introduction.requests@[i].message matches Message::Subscribe(
                            Filter::Named(name),
                        )
                        &&& old(self)@.state.subscribing_to.contains_key(info.name@)
                        &&& old(self)@.state.subscribing_to[info.name@].contains_key(name@)
                    }
            },
    {
        match first {
            Message::Hello(info) => {
                let announcements: Vec<Outgoing> = self.state.announcements(id, &info);
                let requests: Vec<Outgoing> = self.state.requests(id, info.name.as_str());
                let peer_name: String = info.name.clone();
                proof {
                    self@.state.lemma_introduction_keeps_peers(id, info@);
                    let places = introduction_is_announced_in_order(self@.state, id, info@);
                    assert forall|i: int| 0 <= i < announcements@.len() implies {
                        &&& (#[trigger] announcements@[i]).to != id
                        &&& announcements@[i].message@ == MessageView::NewPeer(info@)
                    } by {
                        assert(sent(announcements@)[i] == announcements@[i]@);
                        assert(0 <= places[i] < self@.state.peers.len());
                    }
                    assert forall|i: int| 0 <= i < requests@.len() implies self@.state.requests(
                        id,
                        info@.name,
                    ).contains((#[trigger] requests@[i])@) by {
                        assert(sent(requests@)[i] == requests@[i]@);
                        assert(sent(requests@).to_set().contains(requests@[i]@));
                    }
                }
                self.state.set_info(id, info);
                Ok(Introduction { peer_name, announcements, requests })
            },
            other => {
                proof {
                    self@.state.lemma_without_peer_keys(id);
                    self@.state.lemma_without_peer_has_room(id);
                }
                self.state.remove_peer(id);
                Err(other)
            },
        }
    }

    /// Returns the name of the published value that `message` asks for: its
    /// contents are needed to
    /// [process](Self::process_incoming_message) the message.
    pub fn wanted_value(&self, message: &Message) -> (res: Option<String>)
        ensures
            match message@ {
                MessageView::Subscribe(FilterView::Named(name)) => {
                    &&& res is Some <==> self@.state.values.contains_key(name)
                    &&& res matches Some(wanted) ==> wanted@ == name
                },
                _ => res is None,
            },
    {
        match message {
            Message::Subscribe(Filter::Named(name)) => if self.state.is_published(name.as_str()) {
                Some(name.clone())
            } else {
                None
            },
            _ => None,
        }
    }

    /// Takes a message of the peer `id`, which has introduced itself as
    /// `peer_name`, and says what to do about it. Where the message asks for a
    /// published value, `current` are its serialized contents, if it still has
    /// any. Where the connection is over, it is forgotten.
    pub fn process_incoming_message(
        &mut self,
        id: LotId,
        peer_name: &str,
        message: Message,
        current: Option<Vec<u8>>,
    ) -> (res: Reaction)
        requires
            old(self).wf(),
            message@ is Subscribe ==> old(self)@.state.has_peer(id),
            message@ != MessageView::Subscribe(FilterView::Any),
        ensures
            final(self).wf(),
            final(self)@ == (BusView {
                state: old(self)@.state.after_message(id, peer_name@, message@, contents(current)),
                ..old(self)@
            }),
            res@ == old(self)@.state.reaction(id, peer_name@, message@, contents(current)),
            forall|other: LotId| #[trigger]
                is_key(final(self)@.state.peers, other) == (is_key(old(self)@.state.peers, other)
                    && !(message@.ends_connection() && other == id)),
            message@.ends_connection() && old(self)@.state.has_peer(id)
                ==> final(self)@.state.has_room(),
    {
        proof {
            self@.state.lemma_message_keeps_peers(id, peer_name@, message@, contents(current));
            if message@.ends_connection() && self@.state.has_peer(id) {
                self@.state.lemma_without_peer_has_room(id);
            }
        }
        match message {
            Message::Hello(_) => {
                self.state.remove_peer(id);
                Reaction::UnexpectedHello
            },
            Message::NewPeer(info) => if self.state.has_info(&info) {
                Reaction::Continue
            } else {
                Reaction::Connect(info.public_addr)
            },
            Message::Subscribe(filter) => {
                let mut reaction = Reaction::Continue;
                if let Filter::Named(name) = &filter {
                    if self.state.is_published(name.as_str()) {
                        match current {
                            Some(data) => {
                                self.state.add_subscriber(name.as_str(), id);
                                let message = Message::Value { name: name.clone(), data };
                                reaction = Reaction::Reply(Outgoing { to: id, message });
                            },
                            None => {
                                self.state.remove_value(name.as_str());
                            },
                        }
                    }
                }
                self.state.add_filter(id, filter);
                reaction
            },
            Message::Value { name, data } => if self.state.set_input(
                peer_name,
                name.as_str(),
                data,
            ) {
                Reaction::Updated(name)
            } else {
                Reaction::Continue
            },
            Message::Bye => {
                self.state.remove_peer(id);
                Reaction::Closed
            },
        }
    }

    /// Subscribes `reader` to the value published as `name` by the node named
    /// `peer`.
    ///
    /// If a peer with that name is already connected, a subscription request is
    /// made immediately. When a new peer connects with the given name, a
    /// subscription will be requested.
    ///
    /// The subscription outlives the connection: it is requested anew each time
    /// the peer disconnects and reconnects.
    pub fn subscribe_to(&mut self, peer: &str, name: &str, reader: u64) -> (res: Subscribed)
        requires
            old(self).wf(),
        ensures
            final(self).wf(),
            final(self)@ == (BusView {
                state: old(self)@.state.with_reader(peer@, name@, reader),
                ..old(self)@
            }),
            maybe_sent(res.request) == old(self)@.state.subscription_request(peer@, name@),
            res.request matches Some(request) ==> {
                &&& request.message matches Message::Subscribe(Filter::Named(wanted))
                &&& wanted@ == name@
            },
            res.is_new == !old(self)@.state.observed(peer@, name@).readers.contains(reader),
    {
        let request: Option<Outgoing> = match self.state.first_named(peer) {
            Some(to) => {
                let message = Message::Subscribe(Filter::Named(name.to_owned()));
                Some(Outgoing { to, message })
            },
            None => None,
        };
        let is_new: bool = self.state.add_reader(peer, name, reader);
        Subscribed { request, is_new }
    }

    /// Publishes a value as `name` on the bus.
    ///
    /// Any bus nodes will be able to subscribe to and observe this value's
    /// changes. Those that observe a value published under that name before
    /// have to subscribe anew.
    pub fn publish(&mut self, name: String)
        requires
            old(self).wf(),
        ensures
            final(self).wf(),
            final(self)@ == (BusView {
                state: old(self)@.state.with_value(name@),
                ..old(self)@
            }),
    {
        self.state.add_value(name);
    }

    /// Returns what to send when the contents of the value published as `name`
    /// become `data`: nothing if they could not be serialized.
    pub fn value_changed(&self, name: &str, data: &Option<Vec<u8>>) -> (res: Vec<Outgoing>)
        requires
            self.wf(),
        ensures
            match data {
                Some(data) => each_once(
                    sent(res@),
                    self@.state.change_messages(name@, data@),
                ),
                None => res@.len() == 0,
            },
            data matches Some(data) ==> forall|i: int|
                0 <= i < res@.len() ==> {
                    &&& self@.state.values.contains_key(name@)
                    &&& self@.state.values[name@].contains((#[trigger] res@[i]).to)
                    &&& res@[i].message matches Message::Value { name: sent_name, data: sent_data }
                    &&& sent_name@ == name@
                    &&& sent_data@ == data@
                },
    {
        match data {
            Some(data) => {
                let res: Vec<Outgoing> = self.state.change_messages(name, data);
                assert forall|i: int| 0 <= i < res@.len() implies self@.state.change_messages(
                    name@,
                    data@,
                ).contains((#[trigger] res@[i])@) by {
                    assert(sent(res@)[i] == res@[i]@);
                    assert(sent(res@).to_set().contains(res@[i]@));
                }
                res
            },
            None => Vec::new(),
        }
    }
}

} // verus!
