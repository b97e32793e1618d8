//! What each step changes of what a node knows and what it makes the node do,
//! entry by entry.

use alot::LotId;
use vstd::arithmetic::power2::pow2;
use vstd::prelude::*;

use crate::address::SocketAddress;
use crate::bus::{contents, maybe_sent, Reaction};
use crate::message::{Filter, FilterView, Message, MessageView, PeerInfo, PeerInfoView};
use crate::model::{
    announcement, each_once, is_key, key_if_named, ReactionView, StateView, SubscriptionView,
};
use crate::peer::{Peer, PeerView};
use crate::state::{sent, Outgoing};

verus! {

/// A node starts without connections, and neither publishes nor observes
/// anything.
pub proof fn new_node_knows_nothing(name: Seq<char>)
    ensures
        StateView::empty().peers.len() == 0,
        StateView::empty().emptied.len() == 0,
        !StateView::empty().values.contains_key(name),
        !StateView::empty().subscribing_to.contains_key(name),
{
}

/// There is room for a connection as long as there are fewer than the numbers
/// that three quarters of the bits of a machine word can spell.
pub proof fn room_is_for_every_number(state: StateView)
    ensures
        state.has_room() <==> state.peers.len() < pow2(usize::BITS as nat / 4 * 3),
{
    vstd::arithmetic::power2::lemma2_to64();
    vstd::arithmetic::power2::lemma2_to64_rest();
}

/// A new connection is one entry more: it has the address of its other end,
/// nothing told and nothing asked for. All others stay as they are and in their
/// order, and so does what is published and observed.
pub proof fn connecting_adds_one_entry(state: StateView, id: LotId, address: SocketAddress) -> (at:
    int)
    requires
        state.wf(),
    ensures
        0 <= at <= state.peers.len(),
        state.with_peer(id, address).peers.len() == state.peers.len() + 1,
        state.with_peer(id, address).peers[at].0 == id,
        state.with_peer(id, address).peers[at].1.info is None,
        state.with_peer(id, address).peers[at].1.address == address,
        forall|filter: FilterView|
            !state.with_peer(id, address).peers[at].1.subscriptions.contains(filter),
        forall|i: int|
            0 <= i < at ==> #[trigger] state.with_peer(id, address).peers[i] == state.peers[i],
        forall|i: int|
            at < i <= state.peers.len() ==> #[trigger] state.with_peer(id, address).peers[i]
                == state.peers[i - 1],
        state.with_peer(id, address).values == state.values,
        state.with_peer(id, address).subscribing_to == state.subscribing_to,
{
    state.lemma_next_place();
    state.next_place()
}

/// The end of a connection takes its one entry away and its peer out of every
/// published value's subscribers. All else stays.
pub proof fn disconnecting_takes_one_entry(state: StateView, i: int)
    requires
        state.wf(),
        0 <= i < state.peers.len(),
    ensures
        state.without_peer(state.peers[i].0).peers.len() == state.peers.len() - 1,
        forall|j: int|
            0 <= j < i ==> #[trigger] state.without_peer(state.peers[i].0).peers[j]
                == state.peers[j],
        forall|j: int|
            i <= j < state.peers.len() - 1 ==> #[trigger] state.without_peer(
                state.peers[i].0,
            ).peers[j] == state.peers[j + 1],
        forall|name: Seq<char>|
            state.values.contains_key(name) <==> #[trigger] state.without_peer(
                state.peers[i].0,
            ).values.contains_key(name),
        forall|name: Seq<char>, other: LotId|
            state.values.contains_key(name) ==> (#[trigger] state.without_peer(
                state.peers[i].0,
            ).values[name].contains(other) <==> state.values[name].contains(other) && other
                != state.peers[i].0),
        state.without_peer(state.peers[i].0).subscribing_to == state.subscribing_to,
{
    state.lemma_without_peer_at(i);
}

/// What is not the key of a connection ends none.
pub proof fn disconnecting_a_stranger_takes_no_entry(state: StateView, id: LotId)
    requires
        state.wf(),
        forall|i: int| 0 <= i < state.peers.len() ==> (#[trigger] state.peers[i]).0 != id,
    ensures
        state.without_peer(id) == state,
{
    state.lemma_without_stranger(id);
    let after = state.without_peer(id);
    assert forall|name: Seq<char>| #[trigger] state.values.contains_key(
        name,
    ) implies after.values[name] == state.values[name] by {
        assert(!state.has_peer(id));
        assert(after.values[name] =~= state.values[name]);
    }
    assert(after.values =~= state.values);
}

/// What a peer tells when it introduces itself is kept as told, for that peer
/// and no other, and nothing else changes.
pub proof fn introduction_is_kept_as_told(state: StateView, id: LotId, info: PeerInfoView)
    ensures
        state.with_info(id, info).peers.len() == state.peers.len(),
        forall|i: int|
            0 <= i < state.peers.len() ==> {
                let after = #[trigger] state.with_info(id, info).peers[i];
                &&& after.0 == state.peers[i].0
                &&& after.1.address == state.peers[i].1.address
                &&& after.1.subscriptions == state.peers[i].1.subscriptions
                &&& after.1.info == if state.peers[i].0 == id {
                    Some(info)
                } else {
                    state.peers[i].1.info
                }
            },
        state.with_info(id, info).emptied == state.emptied,
        state.with_info(id, info).values == state.values,
        state.with_info(id, info).subscribing_to == state.subscribing_to,
{
}

/// A peer that has introduced itself is known by exactly what it has told: it is
/// listed so, its node is known to be connected, and nobody connects to it
/// because it is announced.
pub proof fn introduced_peer_is_known_as_told(
    state: StateView,
    id: LotId,
    info: PeerInfoView,
    announcer: LotId,
    announcer_name: Seq<char>,
    current: Option<Seq<u8>>,
)
    requires
        state.wf(),
        state.has_peer(id),
    ensures
        state.with_info(id, info).info_of(id) == Some(info),
        state.with_info(id, info).connected().contains(info),
        state.with_info(id, info).has_info(info),
        state.with_info(id, info).is_connected_to(info.public_addr),
        state.with_info(id, info).reaction(
            announcer,
            announcer_name,
            MessageView::NewPeer(info),
            current,
        ) == ReactionView::Continue,
        forall|other: LotId|
            other != id ==> #[trigger] state.with_info(id, info).info_of(other) == state.info_of(
                other,
            ),
{
    let after = state.with_info(id, info);
    state.lemma_with_info_wf(id, info);
    state.lemma_introduction_keeps_peers(id, info);
    let i = choose|i: int| 0 <= i < state.peers.len() && (#[trigger] state.peers[i]).0 == id;
    assert(after.peers[i].0 == id);
    after.lemma_without_peer_at(i);
    assert(after.peers[i].1.info == Some(info));
    assert(after.peers[i].1.is_at(info.public_addr));
    crate::laws::connected_peers_are_those_introduced(after, info);
    assert forall|other: LotId| other != id implies #[trigger] after.info_of(other)
        == state.info_of(other) by {
        assert(is_key(after.peers, other) == is_key(state.peers, other));
        if state.has_peer(other) {
            let j = choose|j: int|
                0 <= j < state.peers.len() && (#[trigger] state.peers[j]).0 == other;
            assert(after.peers[j].0 == other);
            state.lemma_without_peer_at(j);
            after.lemma_without_peer_at(j);
        }
    }
}

/// What is known of the peer of a connection is what stands in its entry, and of
/// others nothing is known.
pub proof fn peer_is_known_by_its_entry(state: StateView, id: LotId)
    requires
        state.wf(),
    ensures
        forall|i: int|
            0 <= i < state.peers.len() && (#[trigger] state.peers[i]).0 == id ==> state.info_of(id)
                == state.peers[i].1.info,
        (forall|i: int| 0 <= i < state.peers.len() ==> (#[trigger] state.peers[i]).0 != id)
            ==> state.info_of(id) is None,
{
    assert forall|i: int|
        0 <= i < state.peers.len() && (#[trigger] state.peers[i]).0 == id implies state.info_of(id)
        == state.peers[i].1.info by {
        state.lemma_without_peer_at(i);
    }
}

/// A key is a peer's if the entry of a connection has it.
pub proof fn keys_are_those_of_entries(state: StateView, id: LotId)
    ensures
        state.has_peer(id) <==> exists|i: int|
            0 <= i < state.peers.len() && (#[trigger] state.peers[i]).0 == id,
{
}

/// There is a connection to the node at an address exactly if an open one has
/// that very address, either as its other end or as the one that its peer has
/// told. To every other address a connection is taken up.
pub proof fn connected_addresses_are_those_of_entries(
    state: StateView,
    address: SocketAddress,
)
    ensures
        state.is_connected_to(address) <==> exists|i: int|
            0 <= i < state.peers.len() && ((#[trigger] state.peers[i]).1.address == address || (
            state.peers[i].1.info matches Some(info) && info.public_addr == address)),
        state.has_address(address) <==> exists|i: int|
            0 <= i < state.peers.len() && (#[trigger] state.peers[i]).1.address == address,
{
    if state.is_connected_to(address) {
        let i = choose|i: int|
            0 <= i < state.peers.len() && (#[trigger] state.peers[i]).1.is_at(address);
        assert(state.peers[i].1.address == address || (state.peers[i].1.info matches Some(info)
            && info.public_addr == address));
    }
    if exists|i: int|
        0 <= i < state.peers.len() && ((#[trigger] state.peers[i]).1.address == address || (
        state.peers[i].1.info matches Some(info) && info.public_addr == address)) {
        let i = choose|i: int|
            0 <= i < state.peers.len() && ((#[trigger] state.peers[i]).1.address == address || (
            state.peers[i].1.info matches Some(info) && info.public_addr == address));
        assert(state.peers[i].1.is_at(address));
    }
}

/// What a selection keeps stands, in order, at the places of what it selects.
proof fn lemma_places<A, B>(s: Seq<A>, f: spec_fn(A) -> Option<B>) -> (places: Seq<int>)
    ensures
        places.len() == s.filter_map(f).len(),
        forall|k: int|
            0 <= k < places.len() ==> 0 <= #[trigger] places[k] < s.len() && f(s[places[k]]) == Some(
                s.filter_map(f)[k],
            ),
        forall|k: int, l: int|
            0 <= k < l < places.len() ==> #[trigger] places[k] < #[trigger] places[l],
        forall|i: int| 0 <= i < s.len() && f(#[trigger] s[i]) is Some ==> places.contains(i),
    decreases s.len(),
{
    if s.len() == 0 {
        reveal(Seq::filter_map);
        Seq::empty()
    } else {
        let last = s.len() - 1;
        let rest = s.drop_last();
        let before = lemma_places(rest, f);
        s.lemma_filter_map_take_succ(f, last);
        assert(s.take(last) =~= rest);
        assert(s.take(s.len() as int) =~= s);
        assert forall|k: int| 0 <= k < before.len() implies rest[#[trigger] before[k]]
            == s[before[k]] by {}
        let places = if f(s[last]) is Some {
            before.push(last)
        } else {
            before
        };
        assert forall|i: int| 0 <= i < s.len() && f(#[trigger] s[i]) is Some implies places.contains(
            i,
        ) by {
            if i < last {
                assert(f(rest[i]) is Some);
                let k = choose|k: int| 0 <= k < before.len() && before[k] == i;
                assert(places[k] == i);
            } else {
                assert(places[before.len() as int] == i);
            }
        }
        places
    }
}

/// The connected peers are listed in the order of their connections: each one
/// that has introduced itself once, as it did, and no others.
pub proof fn connected_peers_are_listed_in_order(state: StateView) -> (places: Seq<int>)
    ensures
        places.len() == state.connected().len(),
        forall|k: int|
            0 <= k < places.len() ==> 0 <= #[trigger] places[k] < state.peers.len()
                && state.peers[places[k]].1.info == Some(state.connected()[k]),
        forall|k: int, l: int|
            0 <= k < l < places.len() ==> #[trigger] places[k] < #[trigger] places[l],
        forall|i: int|
            0 <= i < state.peers.len() && (#[trigger] state.peers[i]).1.info is Some
                ==> places.contains(i),
{
    let f = |entry: (LotId, PeerView)| entry.1.info;
    let places = lemma_places(state.peers, f);
    assert forall|i: int|
        0 <= i < state.peers.len() && (
        #[trigger] state.peers[i]).1.info is Some implies places.contains(i) by {
        assert(f(state.peers[i]) is Some);
    }
    places
}

/// A peer is known by what it has told exactly if some entry says so.
pub proof fn known_nodes_are_those_of_entries(state: StateView, info: PeerInfoView)
    ensures
        state.has_info(info) <==> exists|i: int|
            0 <= i < state.peers.len() && (#[trigger] state.peers[i]).1.info == Some(info),
{
}

/// When a peer introduces itself, all others are told, in the order of their
/// connections and in its own words, and it itself is not.
pub proof fn introduction_is_announced_in_order(
    state: StateView,
    id: LotId,
    info: PeerInfoView,
) -> (places: Seq<int>)
    ensures
        places.len() == state.announcements(id, info).len(),
        forall|k: int|
            0 <= k < places.len() ==> 0 <= #[trigger] places[k] < state.peers.len()
                && state.peers[places[k]].0 != id && state.announcements(id, info)[k] == (
                state.peers[places[k]].0,
                MessageView::NewPeer(info),
            ),
        forall|k: int, l: int|
            0 <= k < l < places.len() ==> #[trigger] places[k] < #[trigger] places[l],
        forall|i: int|
            0 <= i < state.peers.len() && (#[trigger] state.peers[i]).0 != id ==> places.contains(
                i,
            ),
{
    let f = announcement(id, info);
    let places = lemma_places(state.peers, f);
    assert forall|i: int|
        0 <= i < state.peers.len() && (
        #[trigger] state.peers[i]).0 != id implies places.contains(i) by {
        assert(f(state.peers[i]) is Some);
    }
    places
}

/// A subscription is requested of the first connection whose peer has told
/// exactly the name subscribed to, and of none only if no peer has told it.
pub proof fn subscription_is_requested_of_the_name_told(
    state: StateView,
    peer: Seq<char>,
    name: Seq<char>,
)
    ensures
        match state.subscription_request(peer, name) {
            Some((to, message)) => {
                &&& message == MessageView::Subscribe(FilterView::Named(name))
                &&& exists|i: int|
                    {
                        &&& 0 <= i < state.peers.len()
                        &&& (#[trigger] state.peers[i]).0 == to
                        &&& state.peers[i].1.info matches Some(info)
                        &&& info.name == peer
                        &&& forall|j: int|
                            0 <= j < i ==> ((#[trigger] state.peers[j]).1.info matches Some(
                                earlier,
                            ) ==> earlier.name != peer)
                    }
            },
            None => forall|i: int|
                0 <= i < state.peers.len() ==> ((#[trigger] state.peers[i]).1.info matches Some(
                    info,
                ) ==> info.name != peer),
        },
        state.wf() ==> (state.subscription_request(peer, name) matches Some((to, _)) ==> (
        state.info_of(to) matches Some(info) && info.name == peer)),
{
    let f = key_if_named(peer);
    let places = lemma_places(state.peers, f);
    if places.len() > 0 {
        let i = places[0];
        assert(f(state.peers[i]) == Some(state.named(peer)[0]));
        assert forall|j: int| 0 <= j < i implies ((#[trigger] state.peers[j]).1.info matches Some(
            earlier,
        ) ==> earlier.name != peer) by {
            if f(state.peers[j]) is Some {
                let k = choose|k: int| 0 <= k < places.len() && places[k] == j;
                assert(places[0] <= places[k]);
            }
        }
        if state.wf() {
            peer_is_known_by_its_entry(state, state.peers[i].0);
        }
    } else {
        assert forall|i: int| 0 <= i < state.peers.len() implies ((
        #[trigger] state.peers[i]).1.info matches Some(info) ==> info.name != peer) by {
            assert(f(state.peers[i]) is None);
        }
    }
}

/// A peer is asked for exactly the values that are observed of the node of its
/// name, and nobody else is asked.
pub proof fn requests_are_for_what_is_observed(
    state: StateView,
    id: LotId,
    peer: Seq<char>,
    to: LotId,
    message: MessageView,
)
    ensures
        state.requests(id, peer).contains((to, message)) <==> to == id && (
        message matches MessageView::Subscribe(FilterView::Named(name))
            && state.subscribing_to.contains_key(peer)
            && state.subscribing_to[peer].contains_key(name)),
{
}

/// A value is observed if it is kept among those of its node.
pub proof fn observed_values_are_those_kept(state: StateView, peer: Seq<char>, name: Seq<char>)
    ensures
        state.observes(peer, name) <==> state.subscribing_to.contains_key(peer)
            && state.subscribing_to[peer].contains_key(name),
        state.observes(peer, name) ==> state.observed(peer, name).input
            == state.subscribing_to[peer][name].input,
        state.observes(peer, name) ==> state.observed(peer, name).readers
            == state.subscribing_to[peer][name].readers,
        !state.observes(peer, name) ==> state.observed(peer, name).input.len() == 0,
        forall|reader: u64|
            !state.observes(peer, name) ==> !state.observed(peer, name).readers.contains(reader),
{
}

/// A reader that subscribes is added to those of the value, whose contents stay:
/// nothing, if it was not observed before. Nothing else changes.
pub proof fn subscribing_adds_one_reader(
    state: StateView,
    peer: Seq<char>,
    name: Seq<char>,
    reader: u64,
    other_peer: Seq<char>,
    other_name: Seq<char>,
    other_reader: u64,
)
    ensures
        ({
            let before = state.subscribing_to;
            let after = state.with_reader(peer, name, reader).subscribing_to;
            let known = before.contains_key(peer) && before[peer].contains_key(name);
            &&& after.contains_key(peer)
            &&& after[peer].contains_key(name)
            &&& known ==> after[peer][name].input == before[peer][name].input
            &&& !known ==> after[peer][name].input.len() == 0
            &&& after[peer][name].readers.contains(other_reader) <==> other_reader == reader || (
            known && before[peer][name].readers.contains(other_reader))
            &&& other_peer != peer ==> (after.contains_key(other_peer) <==> before.contains_key(
                other_peer,
            ))
            &&& other_peer != peer && before.contains_key(other_peer) ==> after[other_peer]
                == before[other_peer]
            &&& other_name != name ==> (after[peer].contains_key(other_name)
                <==> before.contains_key(peer) && before[peer].contains_key(other_name))
            &&& other_name != name && after[peer].contains_key(other_name)
                ==> after[peer][other_name] == before[peer][other_name]
        }),
        state.with_reader(peer, name, reader).peers == state.peers,
        state.with_reader(peer, name, reader).emptied == state.emptied,
        state.with_reader(peer, name, reader).values == state.values,
{
}

/// What comes in for a value that is observed is kept whole in place of what came
/// in before, for the readers that there are. For a value that is not observed
/// nothing is kept. Nothing else changes.
pub proof fn received_contents_are_kept_whole(
    state: StateView,
    id: LotId,
    peer: Seq<char>,
    name: Seq<char>,
    data: Seq<u8>,
    current: Option<Seq<u8>>,
)
    ensures
        ({
            let message = MessageView::Value { name, data };
            let before = state.subscribing_to;
            let after = state.after_message(id, peer, message, current);
            let known = before.contains_key(peer) && before[peer].contains_key(name);
            &&& known ==> after.subscribing_to == before.insert(
                peer,
                before[peer].insert(
                    name,
                    SubscriptionView { input: data, readers: before[peer][name].readers },
                ),
            )
            &&& !known ==> after.subscribing_to == before
            &&& after.peers == state.peers
            &&& after.emptied == state.emptied
            &&& after.values == state.values
            &&& state.reaction(id, peer, message, current) == if known {
                ReactionView::Updated(name)
            } else {
                ReactionView::Continue
            }
        }),
{
}

/// A value that is published has its name and no subscribers. All other values,
/// and all else that the node knows, stay.
pub proof fn publishing_adds_one_value(
    state: StateView,
    name: Seq<char>,
    other: Seq<char>,
    id: LotId,
)
    ensures
        state.with_value(name).values.contains_key(name),
        !state.with_value(name).values[name].contains(id),
        other != name ==> (state.with_value(name).values.contains_key(other)
            <==> state.values.contains_key(other)),
        other != name && state.values.contains_key(other) ==> state.with_value(name).values[other]
            == state.values[other],
        state.with_value(name).peers == state.peers,
        state.with_value(name).emptied == state.emptied,
        state.with_value(name).subscribing_to == state.subscribing_to,
{
}

/// A change of a published value goes to its subscribers, under its name and
/// with all its contents, and to nobody else.
pub proof fn change_goes_to_subscribers_whole(
    state: StateView,
    name: Seq<char>,
    data: Seq<u8>,
    to: LotId,
    message: MessageView,
)
    ensures
        state.change_messages(name, data).contains((to, message)) <==> {
            &&& state.values.contains_key(name)
            &&& state.values[name].contains(to)
            &&& message matches MessageView::Value { name: sent_name, data: sent_data }
            &&& sent_name == name
            &&& sent_data == data
        },
{
}

/// A node that is announced and of which no connected peer has told the same is
/// connected to at the very address announced; one that is known is not. An
/// announcement by itself changes nothing.
pub proof fn announced_node_is_connected_to(
    state: StateView,
    id: LotId,
    peer: Seq<char>,
    info: PeerInfoView,
    current: Option<Seq<u8>>,
)
    ensures
        (forall|i: int| 0 <= i < state.peers.len() ==> (#[trigger] state.peers[i]).1.info != Some(info))
            ==> state.reaction(id, peer, MessageView::NewPeer(info), current)
            == ReactionView::Connect(info.public_addr),
        (exists|i: int| 0 <= i < state.peers.len() && (#[trigger] state.peers[i]).1.info == Some(info))
            ==> state.reaction(id, peer, MessageView::NewPeer(info), current)
            == ReactionView::Continue,
        state.after_message(id, peer, MessageView::NewPeer(info), current) == state,
{
}

/// A request for a published value that has contents is answered to the peer that
/// asked, under the name asked for and with all its contents; no other request
/// for a value is answered.
pub proof fn request_is_answered_with_the_contents(
    state: StateView,
    id: LotId,
    peer: Seq<char>,
    name: Seq<char>,
    data: Seq<u8>,
)
    ensures
        ({
            let request = MessageView::Subscribe(FilterView::Named(name));
            &&& state.values.contains_key(name) ==> state.reaction(id, peer, request, Some(data))
                == ReactionView::Reply(id, MessageView::Value { name, data })
            &&& !state.values.contains_key(name) ==> state.reaction(
                id,
                peer,
                request,
                Some(data),
            ) == ReactionView::Continue
            &&& state.reaction(id, peer, request, None) == ReactionView::Continue
        }),
{
}

/// A request for a published value that has contents adds the peer that asked to
/// those that are told of its changes. One for a value that is gone ends its
/// publication. All other values stay as they are.
pub proof fn request_adds_one_subscriber(
    state: StateView,
    id: LotId,
    peer: Seq<char>,
    name: Seq<char>,
    current: Option<Seq<u8>>,
    other: Seq<char>,
    other_id: LotId,
)
    ensures
        ({
            let before = state.values;
            let request = MessageView::Subscribe(FilterView::Named(name));
            let after = state.after_message(id, peer, request, current).values;
            &&& after.contains_key(name) <==> before.contains_key(name) && current is Some
            &&& after.contains_key(name) ==> (after[name].contains(other_id) <==> other_id == id
                || before[name].contains(other_id))
            &&& other != name ==> (after.contains_key(other) <==> before.contains_key(other))
            &&& other != name && before.contains_key(other) ==> after[other] == before[other]
        }),
{
}

/// What a peer asks for is noted with it and with no other peer, and adds to what
/// it has asked for before. What is known of the peers and observed of them
/// stays.
pub proof fn request_is_noted(
    state: StateView,
    id: LotId,
    peer: Seq<char>,
    name: Seq<char>,
    current: Option<Seq<u8>>,
    filter: FilterView,
    i: int,
)
    requires
        0 <= i < state.peers.len(),
    ensures
        ({
            let request = MessageView::Subscribe(FilterView::Named(name));
            let after = state.after_message(id, peer, request, current);
            &&& after.peers.len() == state.peers.len()
            &&& after.peers[i].0 == state.peers[i].0
            &&& after.peers[i].1.address == state.peers[i].1.address
            &&& after.peers[i].1.info == state.peers[i].1.info
            &&& after.peers[i].1.subscriptions.contains(filter)
                <==> state.peers[i].1.subscriptions.contains(filter) || (state.peers[i].0 == id
                && filter == FilterView::Named(name))
            &&& after.emptied == state.emptied
            &&& after.subscribing_to == state.subscribing_to
        }),
{
}

/// A peer that says goodbye, or introduces itself once more, is done with: its
/// entry goes, and no other.
pub proof fn goodbye_and_second_greeting_end_the_connection(
    state: StateView,
    i: int,
    peer: Seq<char>,
    info: PeerInfoView,
    current: Option<Seq<u8>>,
)
    requires
        state.wf(),
        0 <= i < state.peers.len(),
    ensures
        ({
            let id = state.peers[i].0;
            let bye = MessageView::Bye;
            let hello = MessageView::Hello(info);
            &&& state.reaction(id, peer, bye, current) == ReactionView::Closed
            &&& state.reaction(id, peer, hello, current) == ReactionView::UnexpectedHello
            &&& state.after_message(id, peer, bye, current).peers == state.peers.remove(i)
            &&& state.after_message(id, peer, hello, current).peers == state.peers.remove(i)
            &&& state.after_message(id, peer, bye, current).subscribing_to == state.subscribing_to
            &&& state.after_message(id, peer, hello, current).subscribing_to
                == state.subscribing_to
            &&& forall|name: Seq<char>|
                state.values.contains_key(name) <==> #[trigger] state.after_message(
                    id,
                    peer,
                    bye,
                    current,
                ).values.contains_key(name)
            &&& forall|name: Seq<char>, other: LotId|
                state.values.contains_key(name) ==> (#[trigger] state.after_message(
                    id,
                    peer,
                    bye,
                    current,
                ).values[name].contains(other) <==> state.values[name].contains(other) && other
                    != id)
            &&& state.after_message(id, peer, hello, current) == state.after_message(
                id,
                peer,
                bye,
                current,
            )
        }),
{
    state.lemma_without_peer_at(i);
}

/// A goodbye or a greeting that comes over no open connection is taken for what it
/// is and changes nothing.
pub proof fn stranger_ends_no_connection(
    state: StateView,
    id: LotId,
    peer: Seq<char>,
    info: PeerInfoView,
    current: Option<Seq<u8>>,
)
    requires
        state.wf(),
        forall|i: int| 0 <= i < state.peers.len() ==> (#[trigger] state.peers[i]).0 != id,
    ensures
        state.reaction(id, peer, MessageView::Bye, current) == ReactionView::Closed,
        state.reaction(id, peer, MessageView::Hello(info), current)
            == ReactionView::UnexpectedHello,
        state.after_message(id, peer, MessageView::Bye, current) == state,
        state.after_message(id, peer, MessageView::Hello(info), current) == state,
{
    disconnecting_a_stranger_takes_no_entry(state, id);
}

/// Messages that are sent once each are those that there are, and no two of them
/// are the same.
pub proof fn each_message_is_sent_once(
    messages: Seq<(LotId, MessageView)>,
    all: Set<(LotId, MessageView)>,
)
    ensures
        each_once(messages, all) <==> {
            &&& forall|i: int, j: int|
                0 <= i < j < messages.len() ==> #[trigger] messages[i] != #[trigger] messages[j]
            &&& forall|i: int| 0 <= i < messages.len() ==> all.contains(#[trigger] messages[i])
            &&& forall|message: (LotId, MessageView)| #[trigger]
                all.contains(message) ==> exists|i: int|
                    0 <= i < messages.len() && messages[i] == message
        },
{
    if each_once(messages, all) {
        assert forall|i: int| 0 <= i < messages.len() implies all.contains(
            #[trigger] messages[i],
        ) by {
            assert(messages.to_set().contains(messages[i]));
        }
        assert forall|message: (LotId, MessageView)| #[trigger]
            all.contains(message) implies exists|i: int|
            0 <= i < messages.len() && messages[i] == message by {
            assert(messages.to_set().contains(message));
        }
    }
    if (forall|i: int, j: int|
        0 <= i < j < messages.len() ==> #[trigger] messages[i] != #[trigger] messages[j]) && (
    forall|i: int| 0 <= i < messages.len() ==> all.contains(#[trigger] messages[i])) && (forall|
        message: (LotId, MessageView),
    | #[trigger]
        all.contains(message) ==> exists|i: int| 0 <= i < messages.len() && messages[i] == message) {
        assert forall|i: int, j: int|
            0 <= i < messages.len() && 0 <= j < messages.len() && i != j implies messages[i]
            != messages[j] by {
            if j < i {
                assert(messages[j] != messages[i]);
            }
        }
        assert(messages.to_set() =~= all);
    }
}

/// What goes out, in order: each message to the peer that it is for, saying what
/// it says.
pub proof fn outgoing_says_what_is_sent(outgoing: Seq<Outgoing>, i: int)
    requires
        0 <= i < outgoing.len(),
    ensures
        sent(outgoing).len() == outgoing.len(),
        sent(outgoing)[i].0 == outgoing[i].to,
        sent(outgoing)[i].1 == outgoing[i].message@,
        maybe_sent(Some(outgoing[i])) == Some((outgoing[i].to, outgoing[i].message@)),
        maybe_sent(None) is None,
{
}

/// What a greeting or an announcement says is the name and the address in it.
pub proof fn info_says_what_it_holds(info: PeerInfo)
    ensures
        info@.name == info.name@,
        info@.public_addr == info.public_addr,
        Message::Hello(info)@ == MessageView::Hello(
            PeerInfoView { name: info.name@, public_addr: info.public_addr },
        ),
        Message::NewPeer(info)@ == MessageView::NewPeer(
            PeerInfoView { name: info.name@, public_addr: info.public_addr },
        ),
{
}

/// What a request asks for is the value of the name in it, or every value.
pub proof fn request_says_what_it_holds(name: String)
    ensures
        Filter::Named(name)@ == FilterView::Named(name@),
        Filter::Any@ == FilterView::Any,
        Message::Subscribe(Filter::Named(name))@ == MessageView::Subscribe(
            FilterView::Named(name@),
        ),
        Message::Subscribe(Filter::Any)@ == MessageView::Subscribe(FilterView::Any),
{
}

/// What is sent of a value is its name and contents.
pub proof fn value_says_what_it_holds(name: String, data: Vec<u8>)
    ensures
        (Message::Value { name, data })@ == (MessageView::Value { name: name@, data: data@ }),
        Message::Bye@ == MessageView::Bye,
        contents(Some(data)) == Some(data@),
        contents(None) is None,
{
}

/// What a node is to do is what the reaction holds.
pub proof fn reaction_says_what_it_holds(
    address: SocketAddress,
    outgoing: Outgoing,
    name: String,
)
    ensures
        Reaction::Continue@ == ReactionView::Continue,
        Reaction::Connect(address)@ == ReactionView::Connect(address),
        Reaction::Reply(outgoing)@ == ReactionView::Reply(outgoing.to, outgoing.message@),
        Reaction::Updated(name)@ == ReactionView::Updated(name@),
        Reaction::Closed@ == ReactionView::Closed,
        Reaction::UnexpectedHello@ == ReactionView::UnexpectedHello,
{
}

/// What is known of a peer is what its entry holds.
pub proof fn peer_says_what_it_holds(peer: Peer, filter: FilterView)
    ensures
        peer@.address == peer.address,
        match peer.info {
            Some(info) => peer@.info == Some(
                PeerInfoView { name: info.name@, public_addr: info.public_addr },
            ),
            None => peer@.info is None,
        },
        peer@.subscriptions.contains(filter) <==> exists|i: int|
            0 <= i < peer.subscriptions@.len() && (#[trigger] peer.subscriptions@[i])@ == filter,
{
}

} // verus!
