//! The peers of a bus node, kept in lots.

use alot::{LotId, Lots};
use vstd::prelude::*;

use crate::address::SocketAddress;
use crate::message::{Filter, FilterView, PeerInfo, PeerInfoView};

verus! {

/// One end of a connection to another node of the bus.
#[derive(Debug)]
pub struct Peer {
    /// What the peer has told about itself, once it has.
    pub info: Option<PeerInfo>,
    /// The address of the other end of the connection.
    pub address: SocketAddress,
    /// What the peer has asked for, each filter once.
    pub subscriptions: Vec<Filter>,
}

/// What is known of a peer.
pub struct PeerView {
    /// What the peer has told about itself, once it has.
    pub info: Option<PeerInfoView>,
    /// The address of the other end of the connection.
    pub address: SocketAddress,
    /// What the peer has asked for.
    pub subscriptions: Set<FilterView>,
}

impl View for Peer {
    type V = PeerView;

    open spec fn view(&self) -> PeerView {
        PeerView {
            info: match self.info {
                Some(info) => Some(info@),
                None => None,
            },
            address: self.address,
            subscriptions: Set::new(
                |filter: FilterView|
                    exists|i: int|
                        0 <= i < self.subscriptions@.len() && (
                        #[trigger] self.subscriptions@[i])@ == filter,
            ),
        }
    }
}

impl Peer {
    /// No filter is listed twice.
    pub open spec fn wf(&self) -> bool {
        forall|i: int, j: int|
            0 <= i < j < self.subscriptions@.len() ==> (#[trigger] self.subscriptions@[i])@ != (
            #[trigger] self.subscriptions@[j])@
    }

    /// Notes that the peer has asked for what `filter` selects.
    pub(crate) fn add_filter(&mut self, filter: Filter)
        requires
            old(self).wf(),
        ensures
            final(self).wf(),
            final(self)@ == (PeerView {
                subscriptions: old(self)@.subscriptions.insert(filter@),
                ..old(self)@
            }),
    {
        let mut i: usize = 0;
        while i < self.subscriptions.len()
            invariant
                i <= self.subscriptions@.len(),
                *self == *old(self),
                self.wf(),
                forall|j: int| 0 <= j < i ==> (#[trigger] self.subscriptions@[j])@ != filter@,
            decreases self.subscriptions@.len() - i,
        {
            if self.subscriptions[i] == filter {
                assert(self@.subscriptions.contains(filter@));
                assert(self@.subscriptions =~= old(self)@.subscriptions.insert(filter@));
                return ;
            }
            i += 1;
        }
        self.subscriptions.push(filter);
        proof {
            let before = old(self).subscriptions@;
            let after = self.subscriptions@;
            assert(after[before.len() as int]@ == filter@);
            assert forall|other: FilterView| #[trigger]
                old(self)@.subscriptions.contains(other) implies self@.subscriptions.contains(
                other,
            ) by {
                let j = choose|j: int| 0 <= j < before.len() && (#[trigger] before[j])@ == other;
                assert(after[j]@ == other);
            }
            assert(self@.subscriptions =~= old(self)@.subscriptions.insert(filter@));
        }
    }
}

impl PeerView {
    /// Whether the peer has told that it is named `name`.
    pub open spec fn is_named(self, name: Seq<char>) -> bool {
        self.info matches Some(info) && info.name == name
    }

    /// Whether the peer is the node at `address`: either the connection's other
    /// end is there, or the peer has told that it accepts connections there.
    pub open spec fn is_at(self, address: SocketAddress) -> bool {
        self.address == address || (self.info matches Some(info) && info.public_addr == address)
    }
}

/// `alot::LotId`, the key of a value in a collection of lots.
#[verifier::external_type_specification]
#[verifier::external_body]
pub struct ExLotId(alot::LotId);

/// `alot::Lots`, a collection that hands out a key for each value put into it.
#[verifier::external_type_specification]
#[verifier::external_body]
#[verifier::reject_recursive_types(T)]
pub struct ExLots<T>(alot::Lots<T>);

/// `==` on `alot::LotId` tells whether two keys are the same.
pub assume_specification[ <alot::LotId as PartialEq>::eq ](
    id: &alot::LotId,
    other: &alot::LotId,
) -> (res: bool)
    ensures
        res == (*id == *other),
;

/// The peers in a collection of lots, each with its key, in the order in which
/// the collection is walked.
pub uninterp spec fn lots_entries(peers: Lots<Peer>) -> Seq<(LotId, Peer)>;

/// How many lots a collection can have: three quarters of the bits of a key
/// number the lot.
pub open spec fn lots_limit() -> nat {
    if usize::BITS == 64 {
        0x1_0000_0000_0000
    } else {
        0x100_0000
    }
}

/// The numbers of those lots in a collection that were emptied and have not been
/// filled again, the one emptied last at the end.
pub uninterp spec fn lots_emptied(peers: Lots<Peer>) -> Seq<nat>;

/// How many of the lots numbered below `n` hold a value, where those in `emptied`
/// do not: so many values are walked before that of the lot `n`.
pub open spec fn filled_before(emptied: Seq<nat>, n: nat) -> nat
    decreases n,
{
    if n == 0 {
        0
    } else if emptied.contains((n - 1) as nat) {
        filled_before(emptied, (n - 1) as nat)
    } else {
        filled_before(emptied, (n - 1) as nat) + 1
    }
}

/// Whether the lot `n` holds the value that is walked at `place`.
pub open spec fn is_lot_at(emptied: Seq<nat>, place: int, n: nat) -> bool {
    !emptied.contains(n) && filled_before(emptied, n) == place
}

/// The number of the lot that holds the value that is walked at `place`.
pub open spec fn lot_at(emptied: Seq<nat>, place: int) -> nat {
    choose|n: nat| is_lot_at(emptied, place, n)
}

/// Where a value that is put into a collection of `len` values comes to be
/// walked: it gets the lot that was emptied last, or else a new one behind all
/// others.
pub open spec fn next_place(len: nat, emptied: Seq<nat>) -> int {
    if emptied.len() == 0 {
        len as int
    } else {
        filled_before(emptied, emptied.last()) as int
    }
}

/// The lots that are left empty once a value has been put into a collection.
pub open spec fn still_empty(emptied: Seq<nat>) -> Seq<nat> {
    if emptied.len() == 0 {
        emptied
    } else {
        emptied.drop_last()
    }
}

/// At least as many values are walked before a later lot.
pub proof fn lemma_filled_before_grows(emptied: Seq<nat>, n: nat, m: nat)
    requires
        n <= m,
    ensures
        filled_before(emptied, n) <= filled_before(emptied, m),
    decreases m,
{
    if n < m {
        lemma_filled_before_grows(emptied, n, (m - 1) as nat);
    }
}

/// When a lot is emptied, one value less is walked before each later one.
pub proof fn lemma_emptying(emptied: Seq<nat>, n: nat, m: nat)
    requires
        !emptied.contains(n),
    ensures
        filled_before(emptied, m) == filled_before(emptied.push(n), m) + if n < m {
            1int
        } else {
            0
        },
    decreases m,
{
    if m > 0 {
        let k = (m - 1) as nat;
        lemma_emptying(emptied, n, k);
        lemma_push_contains(emptied, n, k);
    }
}

/// A sequence with an element more has that one and those that it had.
proof fn lemma_push_contains(emptied: Seq<nat>, n: nat, k: nat)
    ensures
        emptied.push(n).contains(k) == (emptied.contains(k) || k == n),
{
    assert(emptied.push(n)[emptied.len() as int] == n);
    if emptied.contains(k) {
        let i = choose|i: int| 0 <= i < emptied.len() && emptied[i] == k;
        assert(emptied.push(n)[i] == k);
    }
}

/// One lot holds the value that is walked at a place.
pub proof fn lemma_only_lot_at(emptied: Seq<nat>, place: int, n: nat)
    requires
        is_lot_at(emptied, place, n),
    ensures
        lot_at(emptied, place) == n,
{
    let m = lot_at(emptied, place);
    if n < m {
        lemma_filled_before_grows(emptied, n + 1, m);
    } else if m < n {
        lemma_filled_before_grows(emptied, m + 1, n);
    }
}

/// Some lot holds the value that is walked at a place.
pub proof fn lemma_lot_at(emptied: Seq<nat>, place: int)
    requires
        emptied.no_duplicates(),
        0 <= place,
    ensures
        is_lot_at(emptied, place, lot_at(emptied, place)),
    decreases emptied.len(),
{
    if emptied.len() == 0 {
        lemma_none_emptied(emptied, place as nat);
        assert(is_lot_at(emptied, place, place as nat));
    } else {
        let rest = emptied.drop_last();
        let last = emptied.last();
        assert(rest.push(last) =~= emptied);
        assert(!rest.contains(last));
        lemma_lot_at(rest, place);
        lemma_lot_at(rest, place + 1);
        let n = lot_at(rest, place);
        let m = lot_at(rest, place + 1);
        if n < last {
            lemma_emptying(rest, last, n);
            lemma_push_contains(rest, last, n);
            assert(is_lot_at(emptied, place, n));
        } else {
            if m <= n {
                lemma_filled_before_grows(rest, m, n);
            }
            lemma_emptying(rest, last, m);
            lemma_push_contains(rest, last, m);
            assert(is_lot_at(emptied, place, m));
        }
    }
}

/// Where no lot is empty, the lots before one are as many as its number.
proof fn lemma_none_emptied(emptied: Seq<nat>, n: nat)
    requires
        emptied.len() == 0,
    ensures
        filled_before(emptied, n) == n,
    decreases n,
{
    if n > 0 {
        lemma_none_emptied(emptied, (n - 1) as nat);
    }
}

/// `alot::Lots::new` makes a collection that holds nothing, and in which no lot
/// was emptied.
#[verifier::external_body]
pub(crate) fn new_lots() -> (peers: Lots<Peer>)
    ensures
        lots_entries(peers) == Seq::<(LotId, Peer)>::empty(),
        lots_emptied(peers) == Seq::<nat>::empty(),
{
    Lots::new()
}

/// `alot::Lots::push` puts a value into a collection and returns a key that no
/// other value in it has. The value gets the lot that was emptied last, or else
/// a new one behind all others, for which the collection must have room. The
/// other values keep their keys and their order.
#[verifier::external_body]
pub(crate) fn push_lot(peers: &mut Lots<Peer>, peer: Peer) -> (id: LotId)
    requires
        lots_entries(*old(peers)).len() < lots_limit(),
    ensures
        lots_entries(*final(peers)) == lots_entries(*old(peers)).insert(
            next_place(lots_entries(*old(peers)).len(), lots_emptied(*old(peers))),
            (id, peer),
        ),
        lots_emptied(*final(peers)) == still_empty(lots_emptied(*old(peers))),
        forall|i: int|
            0 <= i < lots_entries(*old(peers)).len() ==> (#[trigger] lots_entries(
                *old(peers),
            )[i]).0 != id,
{
    peers.push(peer)
}

/// `alot::Lots::remove` takes the value that has the key `id` out of a
/// collection, if there is one: its lot is the one emptied last. The other values
/// keep their keys and their order.
#[verifier::external_body]
pub(crate) fn remove_lot(peers: &mut Lots<Peer>, id: LotId) -> (res: Option<Peer>)
    ensures
        match res {
            Some(peer) => exists|i: int, n: nat|
                0 <= i < lots_entries(*old(peers)).len() && #[trigger] lots_entries(*old(peers))[i]
                    == (id, peer) && lots_entries(*final(peers)) == lots_entries(
                    *old(peers),
                ).remove(i) && #[trigger] is_lot_at(lots_emptied(*old(peers)), i, n)
                    && lots_emptied(*final(peers)) == lots_emptied(*old(peers)).push(n),
            None => lots_entries(*final(peers)) == lots_entries(*old(peers)) && lots_emptied(
                *final(peers),
            ) == lots_emptied(*old(peers)) && forall|i: int|
                0 <= i < lots_entries(*old(peers)).len() ==> (#[trigger] lots_entries(
                    *old(peers),
                )[i]).0 != id,
        },
{
    peers.remove(id)
}

/// `alot::Lots::entries` walks the values of a collection with their keys.
#[verifier::external_body]
pub(crate) fn entries_of_lots<'a>(peers: &'a Lots<Peer>) -> (res: Vec<(LotId, &'a Peer)>)
    ensures
        res@.len() == lots_entries(*peers).len(),
        forall|i: int|
            0 <= i < res@.len() ==> (#[trigger] res@[i]).0 == lots_entries(*peers)[i].0 && *res@[i].1
                == lots_entries(*peers)[i].1,
{
    peers.entries().collect()
}

/// Indexing an `alot::Lots` by a key that one of its values has gives access to
/// that value. The collection keeps its keys, all its other values and its empty
/// lots.
#[verifier::external_body]
pub(crate) fn lot_mut<'a>(peers: &'a mut Lots<Peer>, id: LotId) -> (res: &'a mut Peer)
    requires
        exists|i: int|
            0 <= i < lots_entries(*old(peers)).len() && (#[trigger] lots_entries(*old(peers))[i]).0
                == id,
    ensures
        exists|i: int|
            0 <= i < lots_entries(*old(peers)).len() && #[trigger] lots_entries(*old(peers))[i] == (
                id,
                *res,
            ) && lots_entries(*final(peers)) == lots_entries(*old(peers)).update(
                i,
                (id, *final(res)),
            ),
        lots_emptied(*final(peers)) == lots_emptied(*old(peers)),
{
    &mut peers[id]
}

/// `alot::Lots::len` counts the values in a collection.
#[verifier::external_body]
pub(crate) fn count_lots(peers: &Lots<Peer>) -> (res: usize)
    ensures
        res == lots_entries(*peers).len(),
{
    peers.len()
}

} // verus!
