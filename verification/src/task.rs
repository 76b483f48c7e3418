//! The exchange coordinator: a state machine over the per-CID want
//! table. The surrounding event loop feeds it requests, network events,
//! storage events and timer ticks; it answers with network actions and
//! deliveries to waiters, and it alone owns the want table.
use vstd::prelude::*;

use crate::block::clone_bytes;
use crate::block::Block;
use crate::block::Cid;
use crate::storage::StorageEvent;
use crate::storage::StorageService;

verus! {

/// A peer on the network, by the opaque token the transport assigned it.
pub type PeerId = u64;

/// The priority sent with every want broadcast.
pub const WANT_PRIORITY: u32 = 1000;

/// What the network layer reports to the coordinator.
pub enum NetworkEvent {
    Providers(Cid, Vec<PeerId>),
    GetProvidersFailed(Cid),
    Providing(Cid),
    StartProvidingFailed(Cid),
    ReceivedBlock(PeerId, Cid, Vec<u8>),
    ReceivedWant(PeerId, Cid, u32),
    BootstrapComplete,
}

/// What the coordinator asks the network layer to do.
pub enum NetworkAction {
    Providers(Cid),
    Want(Cid, u32),
    Connect(PeerId),
    SendTo(PeerId, Cid, Vec<u8>),
    Provide(Cid),
    Send(Cid, Vec<u8>),
    Unprovide(Cid),
    Cancel(Cid),
}

impl NetworkAction {
    /// The CID the action speaks of; empty for a plain connect.
    pub open spec fn cid(&self) -> Seq<u8> {
        match self {
            NetworkAction::Providers(c) => c@,
            NetworkAction::Want(c, _) => c@,
            NetworkAction::Connect(_) => Seq::empty(),
            NetworkAction::SendTo(_, c, _) => c@,
            NetworkAction::Provide(c) => c@,
            NetworkAction::Send(c, _) => c@,
            NetworkAction::Unprovide(c) => c@,
            NetworkAction::Cancel(c) => c@,
        }
    }

    pub open spec fn is_providers(&self) -> bool {
        self matches NetworkAction::Providers(_)
    }

    pub open spec fn is_want(&self) -> bool {
        self matches NetworkAction::Want(_, _)
    }

    pub open spec fn is_connect(&self) -> bool {
        self matches NetworkAction::Connect(_)
    }

    pub open spec fn is_send_to(&self) -> bool {
        self matches NetworkAction::SendTo(_, _, _)
    }

    pub open spec fn is_provide(&self) -> bool {
        self matches NetworkAction::Provide(_)
    }

    pub open spec fn is_send(&self) -> bool {
        self matches NetworkAction::Send(_, _)
    }

    pub open spec fn is_unprovide(&self) -> bool {
        self matches NetworkAction::Unprovide(_)
    }

    pub open spec fn is_cancel(&self) -> bool {
        self matches NetworkAction::Cancel(_)
    }

    /// The priority of a want action.
    pub open spec fn priority(&self) -> u32 {
        match self {
            NetworkAction::Want(_, p) => *p,
            _ => 0,
        }
    }

    /// The payload of a send action.
    pub open spec fn payload(&self) -> Seq<u8> {
        match self {
            NetworkAction::SendTo(_, _, d) => d@,
            NetworkAction::Send(_, d) => d@,
            _ => Seq::empty(),
        }
    }

    /// The peer a targeted action goes to.
    pub open spec fn peer(&self) -> PeerId {
        match self {
            NetworkAction::Connect(p) => *p,
            NetworkAction::SendTo(p, _, _) => *p,
            _ => 0,
        }
    }
}

/// The callers waiting for one CID, and when the first of them asked.
pub struct Wanted {
    waiters: Vec<u64>,
    timestamp: u64,
}

impl Wanted {
    /// The waiter tokens, oldest first.
    pub closed spec fn waiters(&self) -> Seq<u64> {
        self.waiters@
    }

    /// When the first waiter asked.
    pub closed spec fn stamp(&self) -> u64 {
        self.timestamp
    }
}

struct WantEntry {
    cid: Cid,
    wanted: Wanted,
}

/// Whether some action in the list is a cancel for `c`.
pub open spec fn has_cancel_for(acts: Seq<NetworkAction>, c: Seq<u8>) -> bool {
    exists|i: int| 0 <= i < acts.len() && (#[trigger] acts[i]).cid() == c && acts[i].is_cancel()
}

/// Whether some action in the list advertises `c` on the DHT.
pub open spec fn has_provide_for(acts: Seq<NetworkAction>, c: Seq<u8>) -> bool {
    exists|i: int| 0 <= i < acts.len() && (#[trigger] acts[i]).cid() == c && acts[i].is_provide()
}

/// Whether some action in the list retracts the advertisement of `c`.
pub open spec fn has_unprovide_for(acts: Seq<NetworkAction>, c: Seq<u8>) -> bool {
    exists|i: int| 0 <= i < acts.len() && (#[trigger] acts[i]).cid() == c && acts[i].is_unprovide()
}

/// Whether some action in the list broadcasts the bytes `d` under `c`.
pub open spec fn has_send_of(acts: Seq<NetworkAction>, c: Seq<u8>, d: Seq<u8>) -> bool {
    exists|i: int|
        0 <= i < acts.len() && (#[trigger] acts[i]).cid() == c && acts[i].is_send()
            && acts[i].payload() == d
}

/// Whether some action in the list sends the bytes `d` under `c` to `p`.
pub open spec fn has_send_to_for(acts: Seq<NetworkAction>, p: PeerId, c: Seq<u8>, d: Seq<u8>) -> bool {
    exists|i: int|
        0 <= i < acts.len() && (#[trigger] acts[i]).cid() == c && acts[i].is_send_to()
            && acts[i].peer() == p && acts[i].payload() == d
}

/// Whether some action in the list connects to peer `p`.
pub open spec fn has_connect_to(acts: Seq<NetworkAction>, p: PeerId) -> bool {
    exists|i: int| 0 <= i < acts.len() && (#[trigger] acts[i]).is_connect() && acts[i].peer() == p
}

/// Every action query is stable under appending more actions.
pub proof fn lemma_actions_extend(a: Seq<NetworkAction>, b: Seq<NetworkAction>)
    requires
        a.len() <= b.len(),
        forall|i: int| 0 <= i < a.len() ==> a[i] == b[i],
    ensures
        forall|c: Seq<u8>| #[trigger] has_cancel_for(a, c) ==> has_cancel_for(b, c),
        forall|c: Seq<u8>| #[trigger] has_provide_for(a, c) ==> has_provide_for(b, c),
        forall|c: Seq<u8>| #[trigger] has_unprovide_for(a, c) ==> has_unprovide_for(b, c),
        forall|c: Seq<u8>, d: Seq<u8>| #[trigger] has_send_of(a, c, d) ==> has_send_of(b, c, d),
        forall|p: PeerId, c: Seq<u8>, d: Seq<u8>| #[trigger]
            has_send_to_for(a, p, c, d) ==> has_send_to_for(b, p, c, d),
        forall|p: PeerId| #[trigger] has_connect_to(a, p) ==> has_connect_to(b, p),
{
    assert forall|c: Seq<u8>| #[trigger] has_cancel_for(a, c) implies has_cancel_for(b, c) by {
        let i = choose|i: int|
            0 <= i < a.len() && (#[trigger] a[i]).cid() == c && a[i].is_cancel();
        assert(b[i] == a[i]);
    }
    assert forall|c: Seq<u8>| #[trigger] has_provide_for(a, c) implies has_provide_for(b, c) by {
        let i = choose|i: int|
            0 <= i < a.len() && (#[trigger] a[i]).cid() == c && a[i].is_provide();
        assert(b[i] == a[i]);
    }
    assert forall|c: Seq<u8>| #[trigger] has_unprovide_for(a, c) implies has_unprovide_for(
        b,
        c,
    ) by {
        let i = choose|i: int|
            0 <= i < a.len() && (#[trigger] a[i]).cid() == c && a[i].is_unprovide();
        assert(b[i] == a[i]);
    }
    assert forall|c: Seq<u8>, d: Seq<u8>| #[trigger] has_send_of(a, c, d) implies has_send_of(
        b,
        c,
        d,
    ) by {
        let i = choose|i: int|
            0 <= i < a.len() && (#[trigger] a[i]).cid() == c && a[i].is_send() && a[i].payload()
                == d;
        assert(b[i] == a[i]);
    }
    assert forall|p: PeerId, c: Seq<u8>, d: Seq<u8>| #[trigger]
        has_send_to_for(a, p, c, d) implies has_send_to_for(b, p, c, d) by {
        let i = choose|i: int|
            0 <= i < a.len() && (#[trigger] a[i]).cid() == c && a[i].is_send_to() && a[i].peer()
                == p && a[i].payload() == d;
        assert(b[i] == a[i]);
    }
    assert forall|p: PeerId| #[trigger] has_connect_to(a, p) implies has_connect_to(b, p) by {
        let i = choose|i: int|
            0 <= i < a.len() && (#[trigger] a[i]).is_connect() && a[i].peer() == p;
        assert(b[i] == a[i]);
    }
}

/// Whether the dropped list returns waiter `w` of the want for `c`.
pub open spec fn has_drop_for(drops: Seq<(u64, Cid)>, c: Seq<u8>, w: u64) -> bool {
    exists|i: int| 0 <= i < drops.len() && (#[trigger] drops[i]).1@ == c && drops[i].0 == w
}

/// Two want entries carry the same CID, waiters and timestamp.
spec fn entry_like(a: WantEntry, b: WantEntry) -> bool {
    a.cid@ == b.cid@ && a.wanted.waiters@ == b.wanted.waiters@ && a.wanted.timestamp
        == b.wanted.timestamp
}

/// The coordinator state: the want table, the per-want deadline, and
/// the bootstrap gate for advertising.
pub struct IpfsTask {
    wanted: Vec<WantEntry>,
    timeout: u64,
    bootstrap_complete: bool,
}

impl IpfsTask {
    pub closed spec fn n_wants(&self) -> int {
        self.wanted@.len() as int
    }

    /// Whether a want for this CID is outstanding.
    pub closed spec fn has_want(&self, c: Seq<u8>) -> bool {
        exists|i: int| 0 <= i < self.n_wants() && self.wanted@[i].cid@ == c
    }

    pub closed spec fn want_idx(&self, c: Seq<u8>) -> int {
        choose|i: int| 0 <= i < self.n_wants() && self.wanted@[i].cid@ == c
    }

    /// The waiters joined on this CID, oldest first.
    pub closed spec fn waiters_of(&self, c: Seq<u8>) -> Seq<u64> {
        self.wanted@[self.want_idx(c)].wanted.waiters@
    }

    /// When the first waiter asked for this CID.
    pub closed spec fn stamp_of(&self, c: Seq<u8>) -> u64 {
        self.wanted@[self.want_idx(c)].wanted.timestamp
    }

    /// The per-want deadline.
    pub closed spec fn timeout_spec(&self) -> u64 {
        self.timeout
    }

    /// Whether storage events may be consumed and advertised.
    pub closed spec fn bootstrapped(&self) -> bool {
        self.bootstrap_complete
    }

    /// A want stamped `ts` has outlived the deadline at `now`.
    pub open spec fn expired(&self, ts: u64, now: u64) -> bool {
        now >= self.timeout_spec() && ts <= now - self.timeout_spec()
    }

    /// At most one entry per CID.
    pub closed spec fn wf(&self) -> bool {
        forall|i: int, j: int|
            0 <= i < self.n_wants() && 0 <= j < self.n_wants() && self.wanted@[i].cid@
                == self.wanted@[j].cid@ ==> i == j
    }

    /// A coordinator with an empty want table. The bootstrap gate
    /// latches initially open, so purely local stores advertise at once;
    /// a late bootstrap event merely re-confirms it.
    pub fn new(timeout: u64) -> (r: IpfsTask)
        ensures
            r.wf(),
            r.timeout_spec() == timeout,
            r.bootstrapped(),
            forall|c: Seq<u8>| !r.has_want(c),
    {
        IpfsTask { wanted: Vec::new(), timeout, bootstrap_complete: true }
    }

    /// Whether the bootstrap gate is open.
    pub fn is_bootstrapped(&self) -> (r: bool)
        ensures
            r == self.bootstrapped(),
    {
        self.bootstrap_complete
    }

    fn find_want(&self, c: &Cid) -> (r: Option<usize>)
        requires
            self.wf(),
        ensures
            match r {
                Some(i) => self.has_want(c@) && i == self.want_idx(c@) && 0 <= i < self.n_wants(),
                None => !self.has_want(c@),
            },
    {
        let n = self.wanted.len();
        let mut i: usize = 0;
        while i < n
            invariant
                self.wf(),
                n == self.n_wants(),
                0 <= i <= n,
                forall|j: int| 0 <= j < i ==> self.wanted@[j].cid@ != c@,
            decreases n - i,
        {
            if self.wanted[i].cid.equals(c) {
                proof {
                    assert(self.wanted@[i as int].cid@ == c@);
                    assert(self.has_want(c@));
                    let w = self.want_idx(c@);
                    assert(self.wanted@[w].cid@ == c@);
                    assert(w == i);
                }
                return Some(i);
            }
            i = i + 1;
        }
        None
    }

    /// A caller asks for a missing block. Joining an already wanted CID
    /// only appends the waiter; only the first request for a CID issues
    /// the provider lookup and the want broadcast, so concurrent
    /// requests produce one want on the network.
    pub fn handle_request(&mut self, cid: &Cid, waiter: u64, now: u64) -> (r: Vec<NetworkAction>)
        requires
            old(self).wf(),
        ensures
            final(self).wf(),
            final(self).timeout_spec() == old(self).timeout_spec(),
            final(self).bootstrapped() == old(self).bootstrapped(),
            final(self).has_want(cid@),
            forall|c: Seq<u8>|
                c != cid@ ==> #[trigger] final(self).has_want(c) == old(self).has_want(c),
            forall|c: Seq<u8>|
                c != cid@ && old(self).has_want(c) ==> #[trigger] final(self).waiters_of(c) == old(
                    self,
                ).waiters_of(c) && final(self).stamp_of(c) == old(self).stamp_of(c),
            old(self).has_want(cid@) ==> {
                &&& final(self).waiters_of(cid@) =~= old(self).waiters_of(cid@).push(waiter)
                &&& final(self).stamp_of(cid@) == old(self).stamp_of(cid@)
                &&& r@ =~= Seq::<NetworkAction>::empty()
            },
            !old(self).has_want(cid@) ==> {
                &&& final(self).waiters_of(cid@) =~= seq![waiter]
                &&& final(self).stamp_of(cid@) == now
                &&& r@.len() == 2
                &&& r@[0].is_providers() && r@[0].cid() == cid@
                &&& r@[1].is_want() && r@[1].cid() == cid@ && r@[1].priority() == WANT_PRIORITY
            },
    {
        let ghost base = *self;
        match self.find_want(cid) {
            Some(i) => {
                let entry = &mut self.wanted[i].wanted;
                entry.waiters.push(waiter);
                proof {
                    assert(self.wanted@[i as int].cid@ == cid@);
                    assert forall|i2: int, j2: int|
                        0 <= i2 < self.n_wants() && 0 <= j2 < self.n_wants()
                            && self.wanted@[i2].cid@ == self.wanted@[j2].cid@ implies i2 == j2 by {
                        assert(base.wanted@[i2].cid@ == self.wanted@[i2].cid@);
                        assert(base.wanted@[j2].cid@ == self.wanted@[j2].cid@);
                    }
                    assert(self.has_want(cid@));
                    assert(self.want_idx(cid@) == i);
                    assert forall|c: Seq<u8>|
                        c != cid@ implies #[trigger] self.has_want(c) == base.has_want(c) by {
                        if base.has_want(c) {
                            let w = base.want_idx(c);
                            assert(self.wanted@[w].cid@ == c);
                        }
                        if self.has_want(c) {
                            let w = self.want_idx(c);
                            assert(base.wanted@[w].cid@ == c);
                        }
                    }
                    assert forall|c: Seq<u8>|
                        c != cid@ && base.has_want(c) implies #[trigger] self.waiters_of(c)
                            == base.waiters_of(c) && self.stamp_of(c) == base.stamp_of(c) by {
                        let w = base.want_idx(c);
                        assert(base.wanted@[w].cid@ == c);
                        assert(self.wanted@[w].cid@ == c);
                        assert(self.has_want(c));
                        let w2 = self.want_idx(c);
                        assert(self.wanted@[w2].cid@ == c);
                        assert(w2 == w);
                        assert(w != i);
                        assert(self.wanted@[w] == base.wanted@[w]);
                    }
                }
                Vec::new()
            },
            None => {
                let mut waiters: Vec<u64> = Vec::new();
                waiters.push(waiter);
                self.wanted.push(
                    WantEntry { cid: cid.clone(), wanted: Wanted { waiters, timestamp: now } },
                );
                let mut acts: Vec<NetworkAction> = Vec::new();
                acts.push(NetworkAction::Providers(cid.clone()));
                acts.push(NetworkAction::Want(cid.clone(), WANT_PRIORITY));
                proof {
                    let ni = base.n_wants();
                    assert(self.wanted@[ni].cid@ == cid@);
                    assert(self.has_want(cid@));
                    assert forall|i2: int, j2: int|
                        0 <= i2 < self.n_wants() && 0 <= j2 < self.n_wants()
                            && self.wanted@[i2].cid@ == self.wanted@[j2].cid@ implies i2 == j2 by {
                        if i2 < ni && j2 < ni {
                            assert(base.wanted@[i2].cid@ == base.wanted@[j2].cid@);
                        } else if i2 < ni && j2 == ni {
                            assert(base.wanted@[i2].cid@ == cid@);
                            assert(base.has_want(cid@));
                        } else if i2 == ni && j2 < ni {
                            assert(base.wanted@[j2].cid@ == cid@);
                            assert(base.has_want(cid@));
                        }
                    }
                    assert(self.want_idx(cid@) == ni);
                    assert forall|c: Seq<u8>|
                        c != cid@ implies #[trigger] self.has_want(c) == base.has_want(c) by {
                        if base.has_want(c) {
                            let w = base.want_idx(c);
                            assert(self.wanted@[w].cid@ == c);
                        }
                        if self.has_want(c) {
                            let w = self.want_idx(c);
                            assert(w < ni);
                            assert(base.wanted@[w].cid@ == c);
                        }
                    }
                    assert forall|c: Seq<u8>|
                        c != cid@ && base.has_want(c) implies #[trigger] self.waiters_of(c)
                            == base.waiters_of(c) && self.stamp_of(c) == base.stamp_of(c) by {
                        let w = base.want_idx(c);
                        assert(base.wanted@[w].cid@ == c);
                        assert(self.wanted@[w].cid@ == c);
                        assert(self.has_want(c));
                        let w2 = self.want_idx(c);
                        assert(self.wanted@[w2].cid@ == c);
                        assert(w2 == w);
                        assert(self.wanted@[w] == base.wanted@[w]);
                    }
                }
                acts
            },
        }
    }
}

impl IpfsTask {
    /// One network event. A received block resolves the want: the entry
    /// leaves the table and every waiter is handed a copy; the
    /// coordinator does not write to storage itself. A received want is
    /// served from storage when the block is present and ignored
    /// otherwise. A provider list connects to the first peer; failed
    /// lookups and advertisements only get logged by the loop outside.
    /// Bootstrap completion opens the advertising gate for good.
    #[verifier::rlimit(100)]
    pub fn handle_network_event(&mut self, ev: NetworkEvent, storage: &StorageService) -> (r: (
        Vec<NetworkAction>,
        Vec<(u64, Block)>,
    ))
        requires
            old(self).wf(),
            storage.wf(),
        ensures
            final(self).wf(),
            final(self).timeout_spec() == old(self).timeout_spec(),
            match ev {
                NetworkEvent::ReceivedBlock(_, c, d) => {
                    &&& final(self).bootstrapped() == old(self).bootstrapped()
                    &&& !final(self).has_want(c@)
                    &&& forall|c2: Seq<u8>|
                        c2 != c@ ==> #[trigger] final(self).has_want(c2) == old(self).has_want(c2)
                    &&& forall|c2: Seq<u8>|
                        c2 != c@ && old(self).has_want(c2) ==> #[trigger] final(self).waiters_of(
                            c2,
                        ) == old(self).waiters_of(c2) && final(self).stamp_of(c2) == old(
                            self,
                        ).stamp_of(c2)
                    &&& r.0@ =~= Seq::<NetworkAction>::empty()
                    &&& (old(self).has_want(c@) ==> r.1@.len() == old(self).waiters_of(c@).len()
                        && (forall|i: int|
                        0 <= i < r.1@.len() ==> (#[trigger] r.1@[i]).0 == old(self).waiters_of(
                            c@,
                        )[i] && r.1@[i].1.key() == c@ && r.1@[i].1.payload() == d@))
                    &&& (!old(self).has_want(c@) ==> r.1@.len() == 0)
                },
                NetworkEvent::ReceivedWant(p, c, _) => {
                    &&& *final(self) == *old(self)
                    &&& r.1@.len() == 0
                    &&& (storage.stored(c@) matches Some(d) ==> r.0@.len() == 1
                        && r.0@[0].is_send_to() && r.0@[0].peer() == p && r.0@[0].cid() == c@
                        && r.0@[0].payload() == d)
                    &&& (storage.stored(c@) is None ==> r.0@.len() == 0)
                },
                NetworkEvent::Providers(_, peers) => {
                    &&& *final(self) == *old(self)
                    &&& r.1@.len() == 0
                    &&& (peers@.len() > 0 ==> r.0@.len() == 1 && r.0@[0].is_connect()
                        && r.0@[0].peer() == peers@[0])
                    &&& (peers@.len() == 0 ==> r.0@.len() == 0)
                },
                NetworkEvent::BootstrapComplete => {
                    &&& final(self).bootstrapped()
                    &&& r.0@.len() == 0 && r.1@.len() == 0
                    &&& forall|c2: Seq<u8>| #[trigger]
                        final(self).has_want(c2) == old(self).has_want(c2)
                    &&& forall|c2: Seq<u8>|
                        old(self).has_want(c2) ==> #[trigger] final(self).waiters_of(c2) == old(
                            self,
                        ).waiters_of(c2) && final(self).stamp_of(c2) == old(self).stamp_of(c2)
                },
                _ => *final(self) == *old(self) && r.0@.len() == 0 && r.1@.len() == 0,
            },
    {
        let mut acts: Vec<NetworkAction> = Vec::new();
        let mut outs: Vec<(u64, Block)> = Vec::new();
        match ev {
            NetworkEvent::ReceivedBlock(_, c, d) => {
                let ghost base = *self;
                match self.find_want(&c) {
                    Some(i) => {
                        let entry = self.wanted.remove(i);
                        let nw = entry.wanted.waiters.len();
                        let mut j: usize = 0;
                        while j < nw
                            invariant
                                nw == entry.wanted.waiters@.len(),
                                0 <= j <= nw,
                                outs@.len() == j,
                                c@ == base.wanted@[base.want_idx(c@)].cid@,
                                entry == base.wanted@[base.want_idx(c@)],
                                forall|j2: int|
                                    0 <= j2 < j ==> (#[trigger] outs@[j2]).0
                                        == entry.wanted.waiters@[j2] && outs@[j2].1.key() == c@
                                        && outs@[j2].1.payload() == d@,
                            decreases nw - j,
                        {
                            let w = entry.wanted.waiters[j];
                            let b = Block::new(c.clone(), clone_bytes(&d));
                            outs.push((w, b));
                            j = j + 1;
                        }
                        proof {
                            let ki = base.want_idx(c@);
                            assert forall|i2: int, j2: int|
                                0 <= i2 < self.n_wants() && 0 <= j2 < self.n_wants()
                                    && self.wanted@[i2].cid@ == self.wanted@[j2].cid@ implies i2
                                == j2 by {
                                let o1 = if i2 < ki {
                                    i2
                                } else {
                                    i2 + 1
                                };
                                let o2 = if j2 < ki {
                                    j2
                                } else {
                                    j2 + 1
                                };
                                assert(self.wanted@[i2] == base.wanted@[o1]);
                                assert(self.wanted@[j2] == base.wanted@[o2]);
                                assert(base.wanted@[o1].cid@ == base.wanted@[o2].cid@);
                            }
                            assert(!self.has_want(c@)) by {
                                if self.has_want(c@) {
                                    let k2 = self.want_idx(c@);
                                    assert(self.wanted@[k2].cid@ == c@);
                                    let o = if k2 < ki {
                                        k2
                                    } else {
                                        k2 + 1
                                    };
                                    assert(self.wanted@[k2] == base.wanted@[o]);
                                    assert(base.wanted@[o].cid@ == c@ && base.wanted@[ki].cid@
                                        == c@);
                                    assert(o == ki);
                                }
                            }
                            assert forall|c2: Seq<u8>|
                                c2 != c@ implies #[trigger] self.has_want(c2) == base.has_want(
                                c2,
                            ) by {
                                if base.has_want(c2) {
                                    let w = base.want_idx(c2);
                                    assert(base.wanted@[w].cid@ == c2);
                                    assert(w != ki);
                                    let k2 = if w < ki {
                                        w
                                    } else {
                                        w - 1
                                    };
                                    assert(self.wanted@[k2] == base.wanted@[w]);
                                    assert(self.has_want(c2));
                                }
                                if self.has_want(c2) {
                                    let k2 = self.want_idx(c2);
                                    assert(self.wanted@[k2].cid@ == c2);
                                    let o = if k2 < ki {
                                        k2
                                    } else {
                                        k2 + 1
                                    };
                                    assert(self.wanted@[k2] == base.wanted@[o]);
                                    assert(base.has_want(c2));
                                }
                            }
                            assert forall|c2: Seq<u8>|
                                c2 != c@ && base.has_want(c2) implies #[trigger] self.waiters_of(
                                c2,
                            ) == base.waiters_of(c2) && self.stamp_of(c2) == base.stamp_of(
                                c2,
                            ) by {
                                let w = base.want_idx(c2);
                                assert(base.wanted@[w].cid@ == c2);
                                assert(w != ki);
                                let k2 = if w < ki {
                                    w
                                } else {
                                    w - 1
                                };
                                assert(self.wanted@[k2] == base.wanted@[w]);
                                assert(self.has_want(c2));
                                let kx = self.want_idx(c2);
                                assert(self.wanted@[kx].cid@ == c2);
                                assert(kx == k2);
                            }
                        }
                    },
                    None => {},
                }
            },
            NetworkEvent::ReceivedWant(p, c, _) => {
                match storage.get(&c) {
                    Some(data) => {
                        acts.push(NetworkAction::SendTo(p, c, data));
                    },
                    None => {},
                }
            },
            NetworkEvent::Providers(_, peers) => {
                if peers.len() > 0 {
                    acts.push(NetworkAction::Connect(peers[0]));
                }
            },
            NetworkEvent::BootstrapComplete => {
                self.bootstrap_complete = true;
                proof {
                    assert forall|c2: Seq<u8>| #[trigger]
                        self.has_want(c2) == old(self).has_want(c2) by {
                        if old(self).has_want(c2) {
                            let w = old(self).want_idx(c2);
                            assert(self.wanted@[w].cid@ == c2);
                        }
                        if self.has_want(c2) {
                            let w = self.want_idx(c2);
                            assert(old(self).wanted@[w].cid@ == c2);
                        }
                    }
                    assert forall|c2: Seq<u8>|
                        old(self).has_want(c2) implies #[trigger] self.waiters_of(c2) == old(
                        self,
                    ).waiters_of(c2) && self.stamp_of(c2) == old(self).stamp_of(c2) by {
                        let w = old(self).want_idx(c2);
                        assert(old(self).wanted@[w].cid@ == c2);
                        assert(self.wanted@[w].cid@ == c2);
                        assert(self.has_want(c2));
                        let w2 = self.want_idx(c2);
                        assert(self.wanted@[w2].cid@ == c2);
                        assert(w2 == w);
                    }
                }
            },
            NetworkEvent::GetProvidersFailed(_) => {},
            NetworkEvent::Providing(_) => {},
            NetworkEvent::StartProvidingFailed(_) => {},
        }
        (acts, outs)
    }

    /// One storage event, consumed only after bootstrap: a fresh insert
    /// is advertised on the DHT and pushed to interested peers; a sweep
    /// removal retracts the advertisement.
    pub fn handle_storage_event(&mut self, ev: StorageEvent, storage: &StorageService) -> (r: Vec<
        NetworkAction,
    >)
        requires
            old(self).wf(),
            storage.wf(),
            old(self).bootstrapped(),
        ensures
            *final(self) == *old(self),
            match ev {
                StorageEvent::Insert(c) => {
                    &&& (storage.stored(c@) matches Some(d) ==> r@.len() == 2
                        && r@[0].is_provide() && r@[0].cid() == c@ && r@[1].is_send()
                        && r@[1].cid() == c@ && r@[1].payload() == d)
                    &&& (storage.stored(c@) is None ==> r@.len() == 0)
                },
                StorageEvent::Remove(c) => r@.len() == 1 && r@[0].is_unprovide() && r@[0].cid()
                    == c@,
            },
    {
        let mut acts: Vec<NetworkAction> = Vec::new();
        match ev {
            StorageEvent::Insert(c) => {
                match storage.get(&c) {
                    Some(data) => {
                        acts.push(NetworkAction::Provide(c.clone()));
                        acts.push(NetworkAction::Send(c, data));
                    },
                    None => {},
                }
            },
            StorageEvent::Remove(c) => {
                acts.push(NetworkAction::Unprovide(c));
            },
        }
        acts
    }
}

impl IpfsTask {
    /// A sweep tick. Wants older than the deadline leave the table —
    /// not sooner — with one cancel to the network per expired CID; the
    /// dropped waiters are handed back so their callers can observe the
    /// block as not found. Fresh wants are kept untouched.
    #[verifier::rlimit(100)]
    #[verifier::spinoff_prover]
    #[verifier::loop_isolation(false)]
    pub fn handle_tick(&mut self, now: u64) -> (r: (Vec<NetworkAction>, Vec<(u64, Cid)>))
        requires
            old(self).wf(),
        ensures
            final(self).wf(),
            final(self).timeout_spec() == old(self).timeout_spec(),
            final(self).bootstrapped() == old(self).bootstrapped(),
            forall|c: Seq<u8>| #[trigger]
                final(self).has_want(c) == (old(self).has_want(c) && !old(self).expired(
                    old(self).stamp_of(c),
                    now,
                )),
            forall|c: Seq<u8>|
                final(self).has_want(c) ==> #[trigger] final(self).waiters_of(c) == old(
                    self,
                ).waiters_of(c) && final(self).stamp_of(c) == old(self).stamp_of(c),
            forall|i: int|
                0 <= i < r.0@.len() ==> (#[trigger] r.0@[i]).is_cancel() && old(self).has_want(
                    r.0@[i].cid(),
                ) && old(self).expired(old(self).stamp_of(r.0@[i].cid()), now),
            forall|c: Seq<u8>|
                old(self).has_want(c) && old(self).expired(old(self).stamp_of(c), now)
                    ==> #[trigger] has_cancel_for(r.0@, c),
            forall|i: int|
                0 <= i < r.1@.len() ==> old(self).has_want((#[trigger] r.1@[i]).1@) && old(
                    self,
                ).expired(old(self).stamp_of(r.1@[i].1@), now) && old(self).waiters_of(
                    r.1@[i].1@,
                ).contains(r.1@[i].0),
            forall|c: Seq<u8>, j: int| #![trigger old(self).waiters_of(c)[j]]
                old(self).has_want(c) && old(self).expired(old(self).stamp_of(c), now) && 0 <= j
                    < old(self).waiters_of(c).len() ==> has_drop_for(
                    r.1@,
                    c,
                    old(self).waiters_of(c)[j],
                ),
            forall|i1: int, i2: int|
                0 <= i1 < i2 < r.0@.len() ==> (#[trigger] r.0@[i1]).cid() != (
                #[trigger] r.0@[i2]).cid(),
    {
        let ghost base = *self;
        let mut old_tab: Vec<WantEntry> = Vec::new();
        core::mem::swap(&mut old_tab, &mut self.wanted);
        let n = old_tab.len();
        let mut cancels: Vec<NetworkAction> = Vec::new();
        let mut dropped: Vec<(u64, Cid)> = Vec::new();
        let ghost mut idxmap: Seq<int> = Seq::empty();
        let mut k: usize = 0;
        while k < n
            invariant
                base.wf(),
                n == base.n_wants(),
                old_tab@ == base.wanted@,
                0 <= k <= n,
                self.timeout == base.timeout,
                self.bootstrap_complete == base.bootstrap_complete,
                idxmap.len() == self.n_wants(),
                forall|i2: int|
                    0 <= i2 < idxmap.len() ==> 0 <= #[trigger] idxmap[i2] < k
                        && entry_like(self.wanted@[i2], base.wanted@[idxmap[i2]])
                        && !base.expired(base.wanted@[idxmap[i2]].wanted.timestamp, now),
                forall|i2: int, j2: int|
                    0 <= i2 < j2 < idxmap.len() ==> #[trigger] idxmap[i2] < #[trigger] idxmap[j2],
                forall|io: int|
                    0 <= io < k && !base.expired(#[trigger] base.wanted@[io].wanted.timestamp, now)
                        ==> exists|i2: int| 0 <= i2 < idxmap.len() && idxmap[i2] == io,
                forall|i: int|
                    0 <= i < cancels@.len() ==> (#[trigger] cancels@[i]).is_cancel()
                        && base.has_want(cancels@[i].cid()) && base.expired(
                        base.stamp_of(cancels@[i].cid()),
                        now,
                    ),
                forall|io: int|
                    0 <= io < k && base.expired(#[trigger] base.wanted@[io].wanted.timestamp, now)
                        ==> has_cancel_for(cancels@, base.wanted@[io].cid@),
                forall|i: int|
                    0 <= i < dropped@.len() ==> base.has_want((#[trigger] dropped@[i]).1@)
                        && base.expired(base.stamp_of(dropped@[i].1@), now) && base.waiters_of(
                        dropped@[i].1@,
                    ).contains(dropped@[i].0),
                forall|i: int|
                    0 <= i < cancels@.len() ==> base.want_idx((#[trigger] cancels@[i]).cid()) < k,
                forall|i1: int, i2: int|
                    0 <= i1 < i2 < cancels@.len() ==> (#[trigger] cancels@[i1]).cid() != (
                    #[trigger] cancels@[i2]).cid(),
                forall|io: int, j: int| #![trigger base.wanted@[io].wanted.waiters@[j]]
                    0 <= io < k && base.expired(base.wanted@[io].wanted.timestamp, now) && 0 <= j
                        < base.wanted@[io].wanted.waiters@.len() ==> has_drop_for(
                        dropped@,
                        base.wanted@[io].cid@,
                        base.wanted@[io].wanted.waiters@[j],
                    ),
            decreases n - k,
        {
            proof {
                assert(base.has_want(base.wanted@[k as int].cid@));
                let w = base.want_idx(base.wanted@[k as int].cid@);
                assert(base.wanted@[w].cid@ == base.wanted@[k as int].cid@);
                assert(w == k);
            }
            let entry = &old_tab[k];
            let ts = entry.wanted.timestamp;
            let is_expired = now >= self.timeout && ts <= now - self.timeout;
            if is_expired {
                let ghost d0 = dropped@;
                let ghost cc0 = cancels@;
                cancels.push(NetworkAction::Cancel(entry.cid.clone()));
                proof {
                    assert forall|i: int|
                        0 <= i < cancels@.len() implies (#[trigger] cancels@[i]).is_cancel()
                            && base.has_want(cancels@[i].cid()) && base.expired(
                            base.stamp_of(cancels@[i].cid()),
                            now,
                        ) by {
                        if i < cancels@.len() - 1 {
                            assert(cancels@[i] == cc0[i]);
                        } else {
                            assert(cancels@[i].cid() == base.wanted@[k as int].cid@);
                            assert(base.stamp_of(base.wanted@[k as int].cid@)
                                == base.wanted@[k as int].wanted.timestamp);
                        }
                    }
                    assert forall|io: int|
                        0 <= io < k + 1 && base.expired(
                            #[trigger] base.wanted@[io].wanted.timestamp,
                            now,
                        ) implies has_cancel_for(cancels@, base.wanted@[io].cid@) by {
                        if io < k {
                            assert(has_cancel_for(cc0, base.wanted@[io].cid@));
                            let i = choose|i: int|
                                0 <= i < cc0.len() && (#[trigger] cc0[i]).cid()
                                    == base.wanted@[io].cid@ && cc0[i].is_cancel();
                            assert(cancels@[i] == cc0[i]);
                            assert(has_cancel_for(cancels@, base.wanted@[io].cid@));
                        } else {
                            assert(cancels@[cancels@.len() - 1].cid()
                                == base.wanted@[k as int].cid@);
                            assert(cancels@[cancels@.len() - 1].is_cancel());
                            assert(has_cancel_for(cancels@, base.wanted@[k as int].cid@));
                        }
                    }
                    assert forall|i: int|
                        0 <= i < cancels@.len() implies base.want_idx(
                        (#[trigger] cancels@[i]).cid(),
                    ) < k + 1 by {
                        if i < cancels@.len() - 1 {
                            assert(cancels@[i] == cc0[i]);
                            assert(base.want_idx(cc0[i].cid()) < k);
                        } else {
                            assert(cancels@[i].cid() == base.wanted@[k as int].cid@);
                            assert(base.want_idx(base.wanted@[k as int].cid@) == k);
                        }
                    }
                    assert forall|i1: int, i2: int|
                        0 <= i1 < i2 < cancels@.len() implies (#[trigger] cancels@[i1]).cid() != (
                        #[trigger] cancels@[i2]).cid() by {
                        if i2 < cancels@.len() - 1 {
                            assert(cancels@[i1] == cc0[i1] && cancels@[i2] == cc0[i2]);
                        } else {
                            assert(cancels@[i1] == cc0[i1]);
                            assert(base.want_idx(cc0[i1].cid()) < k);
                            assert(cancels@[i2].cid() == base.wanted@[k as int].cid@);
                            if cancels@[i1].cid() == cancels@[i2].cid() {
                                assert(base.want_idx(base.wanted@[k as int].cid@) == k);
                            }
                        }
                    }
                }
                let nw = entry.wanted.waiters.len();
                let mut j: usize = 0;
                while j < nw
                    invariant
                        base.wf(),
                        n == base.n_wants(),
                        old_tab@ == base.wanted@,
                        0 <= k < n,
                        nw == base.wanted@[k as int].wanted.waiters@.len(),
                        base.expired(base.wanted@[k as int].wanted.timestamp, now),
                        base.want_idx(base.wanted@[k as int].cid@) == k,
                        base.has_want(base.wanted@[k as int].cid@),
                        0 <= j <= nw,
                        dropped@.len() == d0.len() + j,
                        forall|i2: int| 0 <= i2 < d0.len() ==> #[trigger] dropped@[i2] == d0[i2],
                        forall|j2: int|
                            0 <= j2 < j ==> (#[trigger] dropped@[d0.len() + j2]).1@
                                == base.wanted@[k as int].cid@ && dropped@[d0.len() + j2].0
                                == base.wanted@[k as int].wanted.waiters@[j2],
                        forall|i: int|
                            0 <= i < dropped@.len() ==> base.has_want(
                                (#[trigger] dropped@[i]).1@,
                            ) && base.expired(base.stamp_of(dropped@[i].1@), now)
                                && base.waiters_of(dropped@[i].1@).contains(dropped@[i].0),
                    decreases nw - j,
                {
                    let w = old_tab[k].wanted.waiters[j];
                    dropped.push((w, old_tab[k].cid.clone()));
                    proof {
                        assert(base.stamp_of(base.wanted@[k as int].cid@)
                            == base.wanted@[k as int].wanted.timestamp);
                        assert(base.waiters_of(base.wanted@[k as int].cid@)
                            == base.wanted@[k as int].wanted.waiters@);
                        assert(base.waiters_of(base.wanted@[k as int].cid@).contains(
                            base.wanted@[k as int].wanted.waiters@[j as int],
                        ));
                    }
                    j = j + 1;
                }
                proof {
                    assert(base.expired(base.wanted@[k as int].wanted.timestamp, now));
                    assert forall|io: int|
                        0 <= io < k + 1 && !base.expired(
                            #[trigger] base.wanted@[io].wanted.timestamp,
                            now,
                        ) implies exists|i2: int|
                        0 <= i2 < idxmap.len() && idxmap[i2] == io by {
                        assert(io < k);
                    }
                    assert forall|io: int, j2: int|
                        #![trigger base.wanted@[io].wanted.waiters@[j2]]
                        0 <= io < k + 1 && base.expired(base.wanted@[io].wanted.timestamp, now)
                            && 0 <= j2 < base.wanted@[io].wanted.waiters@.len()
                            implies has_drop_for(
                            dropped@,
                            base.wanted@[io].cid@,
                            base.wanted@[io].wanted.waiters@[j2],
                        ) by {
                        if io < k {
                            assert(has_drop_for(
                                d0,
                                base.wanted@[io].cid@,
                                base.wanted@[io].wanted.waiters@[j2],
                            ));
                            let i = choose|i: int|
                                0 <= i < d0.len() && (#[trigger] d0[i]).1@ == base.wanted@[io].cid@
                                    && d0[i].0 == base.wanted@[io].wanted.waiters@[j2];
                            assert(dropped@[i] == d0[i]);
                            assert(has_drop_for(
                                dropped@,
                                base.wanted@[io].cid@,
                                base.wanted@[io].wanted.waiters@[j2],
                            ));
                        } else {
                            assert((dropped@[d0.len() + j2]).1@ == base.wanted@[k as int].cid@
                                && dropped@[d0.len() + j2].0
                                == base.wanted@[k as int].wanted.waiters@[j2]);
                            assert(has_drop_for(
                                dropped@,
                                base.wanted@[k as int].cid@,
                                base.wanted@[k as int].wanted.waiters@[j2],
                            ));
                        }
                    }
                }
            } else {
                let kept = &old_tab[k];
                self.wanted.push(
                    WantEntry {
                        cid: kept.cid.clone(),
                        wanted: Wanted {
                            waiters: clone_u64s(&kept.wanted.waiters),
                            timestamp: kept.wanted.timestamp,
                        },
                    },
                );
                proof {
                    let im0 = idxmap;
                    idxmap = idxmap.push(k as int);
                    let li = self.wanted@.len() - 1;
                    assert(self.wanted@[li].cid@ == base.wanted@[k as int].cid@);
                    assert(self.wanted@[li].wanted.waiters@
                        =~= base.wanted@[k as int].wanted.waiters@);
                    assert(self.wanted@[li].wanted.timestamp
                        == base.wanted@[k as int].wanted.timestamp);
                    assert forall|i2: int|
                        0 <= i2 < idxmap.len() implies 0 <= #[trigger] idxmap[i2] < k + 1
                            && entry_like(self.wanted@[i2], base.wanted@[idxmap[i2]])
                            && !base.expired(base.wanted@[idxmap[i2]].wanted.timestamp, now) by {
                        if i2 < idxmap.len() - 1 {
                        } else {
                            assert(idxmap[i2] == k as int);
                            assert(self.wanted@[i2] == self.wanted@.last());
                        }
                    }
                    assert(!base.expired(base.wanted@[k as int].wanted.timestamp, now));
                    assert forall|io: int|
                        0 <= io < k + 1 && !base.expired(
                            #[trigger] base.wanted@[io].wanted.timestamp,
                            now,
                        ) implies exists|i2: int|
                        0 <= i2 < idxmap.len() && idxmap[i2] == io by {
                        if io < k {
                            let i2 = choose|i2: int|
                                0 <= i2 < im0.len() && #[trigger] im0[i2] == io;
                            assert(idxmap[i2] == io);
                        } else {
                            assert(idxmap[idxmap.len() - 1] == k as int);
                        }
                    }
                    assert forall|io: int|
                        0 <= io < k + 1 && base.expired(
                            #[trigger] base.wanted@[io].wanted.timestamp,
                            now,
                        ) implies has_cancel_for(cancels@, base.wanted@[io].cid@) by {
                        assert(io < k);
                    }
                    assert forall|io: int, j2: int|
                        #![trigger base.wanted@[io].wanted.waiters@[j2]]
                        0 <= io < k + 1 && base.expired(base.wanted@[io].wanted.timestamp, now)
                            && 0 <= j2 < base.wanted@[io].wanted.waiters@.len()
                            implies has_drop_for(
                            dropped@,
                            base.wanted@[io].cid@,
                            base.wanted@[io].wanted.waiters@[j2],
                        ) by {
                        assert(!base.expired(base.wanted@[k as int].wanted.timestamp, now));
                        assert(io < k);
                    }
                }
            }
            k = k + 1;
        }
        proof {
            assert forall|i2: int, j2: int|
                0 <= i2 < self.n_wants() && 0 <= j2 < self.n_wants() && self.wanted@[i2].cid@
                    == self.wanted@[j2].cid@ implies i2 == j2 by {
                assert(entry_like(self.wanted@[i2], base.wanted@[idxmap[i2]]));
                assert(entry_like(self.wanted@[j2], base.wanted@[idxmap[j2]]));
                assert(base.wanted@[idxmap[i2]].cid@ == base.wanted@[idxmap[j2]].cid@);
                assert(idxmap[i2] == idxmap[j2]);
                if i2 < j2 {
                    assert(idxmap[i2] < idxmap[j2]);
                } else if j2 < i2 {
                    assert(idxmap[j2] < idxmap[i2]);
                }
            }
            assert forall|c: Seq<u8>| #[trigger]
                self.has_want(c) == (base.has_want(c) && !base.expired(base.stamp_of(c), now)) by {
                if self.has_want(c) {
                    let i2 = self.want_idx(c);
                    assert(self.wanted@[i2].cid@ == c);
                    let io = idxmap[i2];
                    assert(entry_like(self.wanted@[i2], base.wanted@[io]));
                    assert(base.wanted@[io].cid@ == c);
                    assert(base.has_want(c));
                    let w = base.want_idx(c);
                    assert(base.wanted@[w].cid@ == c);
                    assert(w == io);
                }
                if base.has_want(c) && !base.expired(base.stamp_of(c), now) {
                    let io = base.want_idx(c);
                    assert(base.wanted@[io].cid@ == c);
                    assert(!base.expired(base.wanted@[io].wanted.timestamp, now));
                    let i2 = choose|i2: int| 0 <= i2 < idxmap.len() && #[trigger] idxmap[i2] == io;
                    assert(entry_like(self.wanted@[i2], base.wanted@[io]));
                    assert(self.wanted@[i2].cid@ == c);
                    assert(self.has_want(c));
                }
            }
            assert(base == *old(self));
            assert forall|c: Seq<u8>|
                old(self).has_want(c) && old(self).expired(old(self).stamp_of(c), now)
                    implies #[trigger] has_cancel_for(cancels@, c) by {
                assert(base.has_want(c) && base.expired(base.stamp_of(c), now));
                let io = base.want_idx(c);
                assert(base.wanted@[io].cid@ == c);
                assert(base.expired(base.wanted@[io].wanted.timestamp, now));
                assert(has_cancel_for(cancels@, base.wanted@[io].cid@));
            }
            assert forall|c: Seq<u8>, j: int| #![trigger old(self).waiters_of(c)[j]]
                old(self).has_want(c) && old(self).expired(old(self).stamp_of(c), now) && 0 <= j
                    < old(self).waiters_of(c).len() implies has_drop_for(
                dropped@,
                c,
                old(self).waiters_of(c)[j],
            ) by {
                assert(base.has_want(c) && base.expired(base.stamp_of(c), now));
                let io = base.want_idx(c);
                assert(base.wanted@[io].cid@ == c);
                assert(base.expired(base.wanted@[io].wanted.timestamp, now));
                assert(base.waiters_of(c) == base.wanted@[io].wanted.waiters@);
                assert(base.wanted@[io].wanted.waiters@[j] == base.waiters_of(c)[j]);
                assert(has_drop_for(
                    dropped@,
                    base.wanted@[io].cid@,
                    base.wanted@[io].wanted.waiters@[j],
                ));
            }
            assert forall|c: Seq<u8>|
                self.has_want(c) implies #[trigger] self.waiters_of(c) == base.waiters_of(c)
                    && self.stamp_of(c) == base.stamp_of(c) by {
                let i2 = self.want_idx(c);
                assert(self.wanted@[i2].cid@ == c);
                let io = idxmap[i2];
                assert(entry_like(self.wanted@[i2], base.wanted@[io]));
                assert(base.wanted@[io].cid@ == c);
                let w = base.want_idx(c);
                assert(base.wanted@[w].cid@ == c);
                assert(w == io);
            }
        }
        (cancels, dropped)
    }
}

/// Copy a vector of waiter tokens.
fn clone_u64s(v: &Vec<u64>) -> (r: Vec<u64>)
    ensures
        r@ =~= v@,
{
    let mut r: Vec<u64> = Vec::new();
    let n = v.len();
    let mut i: usize = 0;
    while i < n
        invariant
            n == v@.len(),
            0 <= i <= n,
            r@ =~= v@.subrange(0, i as int),
        decreases n - i,
    {
        r.push(v[i]);
        i = i + 1;
    }
    r
}

} // verus!
