//! The messages that the nodes of a bus exchange.

use vstd::prelude::*;
use vstd::std_specs::cmp::PartialEqSpec;

use crate::address::SocketAddress;

verus! {

/// Information about a peer of a bus node.
#[derive(Debug)]
pub struct PeerInfo {
    /// The name of the peer.
    pub name: String,
    /// The address the peer accepts connections on.
    pub public_addr: SocketAddress,
}

/// What a [`PeerInfo`] says.
pub struct PeerInfoView {
    /// The name of the peer.
    pub name: Seq<char>,
    /// The address the peer accepts connections on.
    pub public_addr: SocketAddress,
}

impl View for PeerInfo {
    type V = PeerInfoView;

    open spec fn view(&self) -> PeerInfoView {
        PeerInfoView { name: self.name@, public_addr: self.public_addr }
    }
}

impl Clone for PeerInfo {
    fn clone(&self) -> (res: Self)
        ensures
            res@ == self@,
            res.name@ == self.name@,
            res.public_addr == self.public_addr,
    {
        PeerInfo { name: self.name.clone(), public_addr: self.public_addr }
    }
}

impl PartialEq for PeerInfo {
    fn eq(&self, other: &Self) -> (res: bool) {
        self.name == other.name && self.public_addr == other.public_addr
    }
}

impl vstd::std_specs::cmp::PartialEqSpecImpl for PeerInfo {
    open spec fn obeys_eq_spec() -> bool {
        true
    }

    open spec fn eq_spec(&self, other: &Self) -> bool {
        self@ == other@
    }
}

impl Eq for PeerInfo {

}

/// Selects the values that a subscription is about.
#[derive(Debug)]
pub enum Filter {
    /// Every value.
    Any,
    /// The value published under this name.
    Named(String),
}

/// What a [`Filter`] selects.
pub enum FilterView {
    /// Every value.
    Any,
    /// The value published under this name.
    Named(Seq<char>),
}

impl View for Filter {
    type V = FilterView;

    open spec fn view(&self) -> FilterView {
        match self {
            Filter::Any => FilterView::Any,
            Filter::Named(name) => FilterView::Named(name@),
        }
    }
}

impl Clone for Filter {
    fn clone(&self) -> (res: Self)
        ensures
            res@ == self@,
            self is Any <==> res is Any,
            (*self, res) matches (Filter::Named(name), Filter::Named(copy)) ==> copy@ == name@,
    {
        match self {
            Filter::Any => Filter::Any,
            Filter::Named(name) => Filter::Named(name.clone()),
        }
    }
}

impl PartialEq for Filter {
    fn eq(&self, other: &Self) -> (res: bool) {
        match (self, other) {
            (Filter::Any, Filter::Any) => true,
            (Filter::Named(name), Filter::Named(other_name)) => *name == *other_name,
            _ => false,
        }
    }
}

impl vstd::std_specs::cmp::PartialEqSpecImpl for Filter {
    open spec fn obeys_eq_spec() -> bool {
        true
    }

    open spec fn eq_spec(&self, other: &Self) -> bool {
        self@ == other@
    }
}

impl Eq for Filter {

}

/// A message from one bus node to another.
#[derive(Debug, PartialEq, Eq)]
pub enum Message {
    /// Exchanged by both peers as their first message.
    Hello(PeerInfo),
    /// Tells of a node that has joined the bus.
    NewPeer(PeerInfo),
    /// Asks for values, now and each time they change.
    Subscribe(Filter),
    /// The serialized contents of a published value.
    Value {
        /// The name under which the value is published.
        name: String,
        /// The serialized contents.
        data: Vec<u8>,
    },
    /// Ends the connection.
    Bye,
}

/// What a [`Message`] says.
pub enum MessageView {
    /// Exchanged by both peers as their first message.
    Hello(PeerInfoView),
    /// Tells of a node that has joined the bus.
    NewPeer(PeerInfoView),
    /// Asks for values, now and each time they change.
    Subscribe(FilterView),
    /// The serialized contents of a published value.
    Value {
        /// The name under which the value is published.
        name: Seq<char>,
        /// The serialized contents.
        data: Seq<u8>,
    },
    /// Ends the connection.
    Bye,
}

impl MessageView {
    /// Whether a peer that has introduced itself ends the connection by this
    /// message: it says goodbye, or it introduces itself once more, on which
    /// the connection is given up.
    pub open spec fn ends_connection(self) -> bool {
        self is Hello || self is Bye
    }
}

impl View for Message {
    type V = MessageView;

    open spec fn view(&self) -> MessageView {
        match self {
            Message::Hello(info) => MessageView::Hello(info@),
            Message::NewPeer(info) => MessageView::NewPeer(info@),
            Message::Subscribe(filter) => MessageView::Subscribe(filter@),
            Message::Value { name, data } => MessageView::Value { name: name@, data: data@ },
            Message::Bye => MessageView::Bye,
        }
    }
}

impl Clone for Message {
    fn clone(&self) -> (res: Self)
        ensures
            res@ == self@,
            match (*self, res) {
                (Message::Hello(info), Message::Hello(copy)) => copy.name@ == info.name@
                    && copy.public_addr == info.public_addr,
                (Message::NewPeer(info), Message::NewPeer(copy)) => copy.name@ == info.name@
                    && copy.public_addr == info.public_addr,
                (
                    Message::Subscribe(Filter::Named(name)),
                    Message::Subscribe(Filter::Named(copy)),
                ) => copy@ == name@,
                (Message::Subscribe(Filter::Any), Message::Subscribe(Filter::Any)) => true,
                (
                    Message::Value { name, data },
                    Message::Value { name: name_copy, data: data_copy },
                ) => name_copy@ == name@ && data_copy@ == data@,
                (Message::Bye, Message::Bye) => true,
                _ => false,
            },
    {
        match self {
            Message::Hello(info) => Message::Hello(info.clone()),
            Message::NewPeer(info) => Message::NewPeer(info.clone()),
            Message::Subscribe(filter) => Message::Subscribe(filter.clone()),
            Message::Value { name, data } => Message::Value {
                name: name.clone(),
                data: data.clone(),
            },
            Message::Bye => Message::Bye,
        }
    }
}

/// Two greetings or announcements are the same if the names and the addresses in
/// them are, and two requests if the names in them are, or both ask for every
/// value.
pub proof fn equal_means_saying_the_same(
    info: PeerInfo,
    other_info: PeerInfo,
    name: String,
    other_name: String,
)
    ensures
        info.eq_spec(&other_info) <==> info.name@ == other_info.name@ && info.public_addr
            == other_info.public_addr,
        Filter::Named(name).eq_spec(&Filter::Named(other_name)) <==> name@ == other_name@,
        Filter::Any.eq_spec(&Filter::Any),
        !Filter::Any.eq_spec(&Filter::Named(name)),
        !Filter::Named(name).eq_spec(&Filter::Any),
{
}

} // verus!
