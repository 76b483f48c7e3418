//! An embeddable content-addressed block store with peer-to-peer exchange.
//!
//! Blocks are immutable byte strings keyed by their content identifiers
//! (CIDs). User-named aliases root DAGs of blocks; everything reachable
//! from an alias root through decoded child links is pinned and survives
//! the periodic sweep that evicts unpinned blocks over the cache bound.
//! Missing blocks are fetched from peers by an exchange coordinator that
//! coalesces concurrent requests per CID.
use vstd::prelude::*;

mod block;
mod id;
mod live;
mod storage;
mod task;

pub use block::Block;
pub use block::Cid;
pub use block::links_of;
pub use block::Error;
pub use id::Id;
pub use id::Ids;
pub use id::IdsIter;
pub use live::LiveSet;
pub use storage::lemma_alias_pins_reachable;
pub use storage::lemma_cid_of_id;
pub use storage::StorageEvent;
pub use storage::StorageService;
pub use task::has_cancel_for;
pub use task::has_connect_to;
pub use task::has_drop_for;
pub use task::has_provide_for;
pub use task::has_send_of;
pub use task::has_send_to_for;
pub use task::has_unprovide_for;
pub use task::lemma_actions_extend;
pub use task::IpfsTask;
pub use task::NetworkAction;
pub use task::NetworkEvent;
pub use task::PeerId;
pub use task::Wanted;

verus! {

/// What a `get` call came to: the block was local, or a fetch is in
/// flight under the returned waiter token.
pub enum GetResult {
    Local(Block),
    Pending(u64),
}

/// How an in-flight fetch ended: the block arrived and was delivered to
/// the waiter, or its want expired and the caller observes the block as
/// not found.
pub enum Completion {
    Delivered(u64, Block),
    TimedOut(u64, Cid),
}

/// Whether a timed-out completion for waiter `w` of `c` is queued.
pub open spec fn has_timeout_for(done: Seq<Completion>, c: Seq<u8>, w: u64) -> bool {
    exists|i: int|
        0 <= i < done.len() && ((#[trigger] done[i]) matches Completion::TimedOut(w2, c2) && w2
            == w && c2@ == c)
}

/// Whether a delivery of the bytes `d` under `c` to waiter `w` is queued.
pub open spec fn has_delivery_for(done: Seq<Completion>, c: Seq<u8>, w: u64, d: Seq<u8>) -> bool {
    exists|i: int|
        0 <= i < done.len() && ((#[trigger] done[i]) matches Completion::Delivered(w2, b) && w2
            == w && b.key() == c && b.payload() == d)
}

/// The embeddable store façade: a verified storage engine, the exchange
/// coordinator, and the queues the surrounding event loop drains. The
/// loop performs the network actions and feeds back network events.
pub struct Ipfs {
    storage: StorageService,
    task: IpfsTask,
    peer_id: PeerId,
    addresses: Vec<String>,
    outbox: Vec<NetworkAction>,
    completions: Vec<Completion>,
    next_waiter: u64,
}

impl Ipfs {
    /// The storage engine as the contracts see it.
    pub closed spec fn store(&self) -> StorageService {
        self.storage
    }

    /// The coordinator state as the contracts see it.
    pub closed spec fn coordinator(&self) -> IpfsTask {
        self.task
    }

    /// The network actions not yet handed to the event loop.
    pub closed spec fn pending_actions(&self) -> Seq<NetworkAction> {
        self.outbox@
    }

    /// The finished fetches not yet handed back to callers.
    pub closed spec fn done(&self) -> Seq<Completion> {
        self.completions@
    }

    /// The local node's peer id.
    pub closed spec fn peer(&self) -> PeerId {
        self.peer_id
    }

    /// The local node's external addresses.
    pub closed spec fn addrs(&self) -> Seq<String> {
        self.addresses@
    }

    pub open spec fn wf(&self) -> bool {
        self.store().wf() && self.coordinator().wf()
    }

    /// Wire a storage engine to the coordinator. The peer id and the
    /// addresses come from the network layer outside.
    pub fn new(storage: StorageService, peer_id: PeerId, addresses: Vec<String>, timeout: u64) -> (r:
        Ipfs)
        requires
            storage.wf(),
        ensures
            r.wf(),
            r.store() == storage,
            r.coordinator().timeout_spec() == timeout,
            forall|c: Seq<u8>| !r.coordinator().has_want(c),
            r.pending_actions() =~= Seq::<NetworkAction>::empty(),
            r.done() =~= Seq::<Completion>::empty(),
    {
        Ipfs {
            storage,
            task: IpfsTask::new(timeout),
            peer_id,
            addresses,
            outbox: Vec::new(),
            completions: Vec::new(),
            next_waiter: 0,
        }
    }

    /// The peer id of the local node.
    pub fn local_peer_id(&self) -> (r: PeerId)
        ensures
            r == self.peer(),
    {
        self.peer_id
    }

    /// The addresses the local node is reachable under.
    pub fn external_addresses(&self) -> (r: &Vec<String>)
        ensures
            r@ == self.addrs(),
    {
        &self.addresses
    }

    /// Whether a block is pinned; nothing if its CID was never seen.
    pub fn pinned(&self, cid: &Cid) -> (r: Option<bool>)
        requires
            self.wf(),
        ensures
            r == self.store().pinned_cid(cid@),
    {
        self.storage.pinned(cid)
    }

    /// The current root of an alias.
    pub fn resolve(&self, name: &Vec<u8>) -> (r: Option<Cid>)
        requires
            self.wf(),
        ensures
            match r {
                Some(c) => self.store().has_alias(name@) && c@ == self.store().cid_at(
                    self.store().alias_root(name@) as int,
                ),
                None => !self.store().has_alias(name@),
            },
    {
        self.storage.resolve(name)
    }

    /// Store a block locally and queue its announcement.
    pub fn insert(&mut self, block: &Block) -> (r: Result<(), Error>)
        requires
            old(self).wf(),
            old(self).store().stored(block.key()) matches Some(d) ==> d == block.payload(),
        ensures
            final(self).wf(),
            r is Ok <==> links_of(block.key(), block.payload()) is Some,
            r is Ok ==> final(self).store().stored(block.key()) == Some(block.payload()),
            r is Ok ==> forall|x: Seq<u8>|
                x != block.key() ==> final(self).store().stored(x) == old(self).store().stored(x),
            r is Err ==> r == Err::<(), Error>(Error::CodecFailure) && final(self).store() == old(self).store(),
            forall|v: u64| #[trigger]
                final(self).store().pinned_id(v) == old(self).store().pinned_id(v),
            final(self).coordinator() == old(self).coordinator(),
    {
        self.storage.insert(block)
    }

    /// Fetch a block: from storage when it is there — the bytes come
    /// back bit for bit as inserted — and otherwise by joining or
    /// opening a want on the network. Only the first waiter for a CID
    /// puts a want and a provider lookup on the wire.
    pub fn get(&mut self, cid: &Cid, now: u64) -> (r: GetResult)
        requires
            old(self).wf(),
        ensures
            final(self).wf(),
            final(self).store() == old(self).store(),
            match r {
                GetResult::Local(b) => b.key() == cid@ && old(self).store().stored(cid@) == Some(
                    b.payload(),
                ) && *final(self) == *old(self),
                GetResult::Pending(w) => {
                    &&& old(self).store().stored(cid@) is None
                    &&& final(self).coordinator().has_want(cid@)
                    &&& (old(self).coordinator().has_want(cid@) ==> final(self).pending_actions() == old(self).pending_actions() && final(self).coordinator().waiters_of(cid@) =~= old(self).coordinator().waiters_of(
                        cid@,
                    ).push(w))
                    &&& (!old(self).coordinator().has_want(cid@) ==> {
                        let pa = final(self).pending_actions();
                        &&& pa.len() == old(self).pending_actions().len() + 2
                        &&& pa[pa.len() - 2].is_providers() && pa[pa.len() - 2].cid() == cid@
                        &&& pa[pa.len() - 1].is_want() && pa[pa.len() - 1].cid() == cid@
                        &&& final(self).coordinator().waiters_of(cid@) =~= seq![w]
                        &&& final(self).coordinator().stamp_of(cid@) == now
                    })
                },
            },
    {
        match self.storage.get(cid) {
            Some(d) => GetResult::Local(Block::new(cid.clone(), d)),
            None => {
                let w = self.next_waiter;
                self.next_waiter = self.next_waiter.wrapping_add(1);
                let mut acts = self.task.handle_request(cid, w, now);
                for_each_push(&mut self.outbox, &mut acts);
                GetResult::Pending(w)
            },
        }
    }

    /// Point an alias at a root, or clear it. A missing descendant
    /// aborts the change, is reported, and a fetch for it is started, so
    /// that retrying walks the DAG one missing block at a time until it
    /// converges.
    pub fn alias(&mut self, name: &Vec<u8>, cid: Option<&Cid>, now: u64) -> (r: Result<(), Error>)
        requires
            old(self).wf(),
        ensures
            final(self).wf(),
            forall|x: Seq<u8>| #[trigger]
                final(self).store().stored(x) == old(self).store().stored(x),
            forall|x: Seq<u8>| #[trigger]
                final(self).store().has_id(x) == old(self).store().has_id(x),
            forall|x: Seq<u8>|
                old(self).store().has_id(x) ==> #[trigger] final(self).store().id_of(x) == old(self).store().id_of(x),
            match cid {
                None => r is Ok && !final(self).store().has_alias(name@) && forall|v: u64|
                    #[trigger] final(self).store().pinned_id(v) == old(self).store().pinned_excluding(name@, v),
                Some(c) => {
                    &&& (r is Ok <==> old(self).store().dag_complete(c@))
                    &&& (r is Ok ==> final(self).store().has_alias(name@) && final(self).store().alias_root(name@) as int == old(self).store().id_of(c@) && (forall|
                        v: u64,
                    | #[trigger]
                        final(self).store().pinned_id(v) == (old(self).store().reaches(
                            old(self).store().id_of(c@) as u64,
                            v,
                        ) || old(self).store().pinned_excluding(name@, v))))
                    &&& match r {
                        Ok(_) => true,
                        Err(Error::BlockNotFound(m)) => {
                            &&& old(self).store().stored(m@) is None
                            &&& final(self).coordinator().has_want(m@)
                            &&& forall|n2: Seq<u8>| #[trigger]
                                final(self).store().has_alias(n2) == old(self).store().has_alias(
                                    n2,
                                )
                            &&& forall|n2: Seq<u8>|
                                old(self).store().has_alias(n2) ==> #[trigger] final(self).store().alias_root(n2) == old(self).store().alias_root(n2)
                                    && final(self).store().alias_set(n2) == old(self).store().alias_set(n2)
                            &&& forall|v: u64| #[trigger]
                                final(self).store().pinned_id(v) == old(self).store().pinned_id(v)
                        },
                        Err(_) => false,
                    }
                },
            },
    {
        let r = self.storage.alias(name, cid);
        match r {
            Ok(()) => Ok(()),
            Err(e) => {
                match e {
                    Error::BlockNotFound(m) => {
                        let w = self.next_waiter;
                        self.next_waiter = self.next_waiter.wrapping_add(1);
                        let mut acts = self.task.handle_request(&m, w, now);
                        for_each_push(&mut self.outbox, &mut acts);
                        Err(Error::BlockNotFound(m))
                    },
                    e => Err(e),
                }
            },
        }
    }

    /// Feed one network event through the coordinator: deliver arrived
    /// blocks to their waiters — persisting them first — serve incoming
    /// wants from storage, and queue whatever the coordinator asks of
    /// the network.
    #[verifier::rlimit(100)]
    #[verifier::spinoff_prover]
    #[verifier::loop_isolation(false)]
    pub fn handle_network_event(&mut self, ev: NetworkEvent) -> (r: ())
        requires
            old(self).wf(),
        ensures
            final(self).wf(),
            final(self).done().len() >= old(self).done().len(),
            forall|q: int|
                0 <= q < old(self).done().len() ==> #[trigger] final(self).done()[q] == old(self).done()[q],
            final(self).pending_actions().len() >= old(self).pending_actions().len(),
            forall|q: int|
                0 <= q < old(self).pending_actions().len() ==> #[trigger] final(self).pending_actions()[q] == old(self).pending_actions()[q],
            match ev {
                NetworkEvent::ReceivedBlock(_, c, d) => {
                    &&& !final(self).coordinator().has_want(c@)
                    &&& (old(self).store().stored(c@) is Some ==> final(self).store().stored(c@)
                        == old(self).store().stored(c@))
                    &&& (old(self).store().stored(c@) is None && links_of(c@, d@) is Some && old(self).coordinator().has_want(c@) && old(self).coordinator().waiters_of(c@).len() > 0
                        ==> final(self).store().stored(c@) == Some(d@))
                    &&& forall|x: Seq<u8>|
                        x != c@ ==> #[trigger] final(self).store().stored(x) == old(self).store().stored(x)
                    &&& forall|v: u64| #[trigger]
                        final(self).store().pinned_id(v) == old(self).store().pinned_id(v)
                    &&& (old(self).coordinator().has_want(c@) ==> forall|j: int|
                        #![trigger old(self).coordinator().waiters_of(c@)[j]]
                        0 <= j < old(self).coordinator().waiters_of(c@).len()
                            ==> has_delivery_for(
                            final(self).done(),
                            c@,
                            old(self).coordinator().waiters_of(c@)[j],
                            d@,
                        ))
                    &&& forall|q: int|
                        old(self).done().len() <= q < final(self).done().len() ==> ((
                        #[trigger] final(self).done()[q]) matches Completion::Delivered(_, b2)
                            && b2.key() == c@ && b2.payload() == d@)
                },
                NetworkEvent::ReceivedWant(p, c, _) => {
                    &&& final(self).store() == old(self).store()
                    &&& final(self).coordinator() == old(self).coordinator()
                    &&& final(self).done() == old(self).done()
                    &&& (old(self).store().stored(c@) matches Some(d) ==> has_send_to_for(
                        final(self).pending_actions(),
                        p,
                        c@,
                        d,
                    ))
                },
                NetworkEvent::Providers(_, peers) => {
                    &&& final(self).store() == old(self).store()
                    &&& final(self).coordinator() == old(self).coordinator()
                    &&& final(self).done() == old(self).done()
                    &&& (peers@.len() > 0 ==> has_connect_to(
                        final(self).pending_actions(),
                        peers@[0],
                    ))
                },
                NetworkEvent::BootstrapComplete => {
                    &&& final(self).store() == old(self).store()
                    &&& final(self).coordinator().bootstrapped()
                    &&& final(self).done() == old(self).done()
                },
                _ => {
                    &&& final(self).store() == old(self).store()
                    &&& final(self).coordinator() == old(self).coordinator()
                    &&& final(self).done() == old(self).done()
                },
            },
    {
        let ghost gev = ev;
        let ghost st0 = self.storage;
        let ghost t0 = self.task;
        let ghost ob0 = self.outbox@;
        let (mut acts, mut delivs) = self.task.handle_network_event(ev, &self.storage);
        let ghost ga = acts@;
        let ghost gdel = delivs@;
        for_each_push(&mut self.outbox, &mut acts);
        proof {
            lemma_actions_extend(ob0, self.outbox@);
            match gev {
                NetworkEvent::ReceivedWant(p, c, _) => {
                    if st0.stored(c@) is Some {
                        assert(self.outbox@[ob0.len() as int] == ga[0]);
                        assert(has_send_to_for(self.outbox@, p, c@, st0.stored(c@).unwrap()));
                    }
                },
                NetworkEvent::Providers(_, peers) => {
                    if peers@.len() > 0 {
                        assert(self.outbox@[ob0.len() as int] == ga[0]);
                        assert(has_connect_to(self.outbox@, peers@[0]));
                    }
                },
                _ => {},
            }
        }
        let ghost kc: Seq<u8> = match gev {
            NetworkEvent::ReceivedBlock(_, c, _) => c@,
            _ => Seq::empty(),
        };
        let ghost kd: Seq<u8> = match gev {
            NetworkEvent::ReceivedBlock(_, _, d) => d@,
            _ => Seq::empty(),
        };
        proof {
            assert forall|q: int|
                0 <= q < gdel.len() implies (#[trigger] gdel[q]).1.key() == kc
                    && gdel[q].1.payload() == kd by {
            }
        }
        let ghost cbase = self.completions@;
        let ghost obf = self.outbox@;
        let ghost tf = self.task;
        let nd = delivs.len();
        let mut i: usize = 0;
        while i < nd
            invariant
                self.wf(),
                self.task == tf,
                self.outbox@ == obf,
                nd == gdel.len(),
                delivs@ =~= gdel.skip(i as int),
                0 <= i <= nd,
                gdel.len() == 0 ==> self.storage == st0 && self.completions@ == cbase,
                self.completions@.len() == cbase.len() + i,
                forall|q: int| 0 <= q < cbase.len() ==> #[trigger] self.completions@[q] == cbase[q],
                forall|jj: int|
                    0 <= jj < i ==> ((#[trigger] self.completions@[cbase.len() + jj]) matches
                        Completion::Delivered(w2, b2) && w2 == gdel[jj].0 && b2.key() == kc
                        && b2.payload() == kd),
                st0.stored(kc) is Some ==> self.storage.stored(kc) == st0.stored(kc),
                st0.stored(kc) is None && links_of(kc, kd) is Some && i > 0
                    ==> self.storage.stored(kc) == Some(kd),
                self.storage.stored(kc) == st0.stored(kc) || self.storage.stored(kc) == Some(kd),
                forall|x: Seq<u8>|
                    x != kc ==> #[trigger] self.storage.stored(x) == st0.stored(x),
                forall|v: u64| #[trigger] self.storage.pinned_id(v) == st0.pinned_id(v),
            decreases nd - i,
        {
            let (w, b) = delivs.remove(0);
            proof {
                assert(delivs@ =~= gdel.skip(i + 1));
                assert(gdel[i as int].1.key() == kc && gdel[i as int].1.payload() == kd);
            }
            let ghost smid = self.storage;
            if self.storage.get(b.cid()).is_none() {
                let _ = self.storage.insert(&b);
                proof {
                    assert forall|x: Seq<u8>|
                        x != kc implies #[trigger] self.storage.stored(x) == st0.stored(x) by {
                        assert(self.storage.stored(x) == smid.stored(x));
                        assert(smid.stored(x) == st0.stored(x));
                    }
                    assert forall|v: u64| #[trigger]
                        self.storage.pinned_id(v) == st0.pinned_id(v) by {
                        assert(self.storage.pinned_id(v) == smid.pinned_id(v));
                        assert(smid.pinned_id(v) == st0.pinned_id(v));
                    }
                }
            }
            self.completions.push(Completion::Delivered(w, b));
            i = i + 1;
        }
        proof {
            match gev {
                NetworkEvent::ReceivedBlock(_, c, d) => {
                    assert forall|q: int|
                        cbase.len() <= q < self.completions@.len() implies ((
                    #[trigger] self.completions@[q]) matches Completion::Delivered(_, b2)
                        && b2.key() == c@ && b2.payload() == d@) by {
                        let jj = q - cbase.len();
                        assert((self.completions@[cbase.len() + jj]) matches
                            Completion::Delivered(w2, b2) && w2 == gdel[jj].0 && b2.key() == kc
                            && b2.payload() == kd);
                    }
                    if t0.has_want(c@) {
                        assert forall|j: int| #![trigger t0.waiters_of(c@)[j]]
                            0 <= j < t0.waiters_of(c@).len() implies has_delivery_for(
                            self.completions@,
                            c@,
                            t0.waiters_of(c@)[j],
                            d@,
                        ) by {
                            assert(gdel[j].0 == t0.waiters_of(c@)[j]);
                            assert((self.completions@[cbase.len() + j]) matches
                                Completion::Delivered(w2, b2) && w2 == gdel[j].0 && b2.key() == kc
                                && b2.payload() == kd);
                        }
                    }
                },
                _ => {},
            }
        }
    }

    /// One turn of the loop's timer: consume queued storage events into
    /// advertisements once bootstrap is complete, and expire wants that
    /// outlived the deadline — their callers observe the block as not
    /// found, and not sooner.
    #[verifier::rlimit(100)]
    #[verifier::spinoff_prover]
    #[verifier::loop_isolation(false)]
    pub fn tick(&mut self, now: u64) -> (r: ())
        requires
            old(self).wf(),
        ensures
            final(self).wf(),
            forall|c: Seq<u8>| #[trigger]
                final(self).coordinator().has_want(c) == (old(self).coordinator().has_want(c)
                    && !old(self).coordinator().expired(old(self).coordinator().stamp_of(c), now)),
            forall|c: Seq<u8>, j: int| #![trigger old(self).coordinator().waiters_of(c)[j]]
                old(self).coordinator().has_want(c) && old(self).coordinator().expired(
                    old(self).coordinator().stamp_of(c),
                    now,
                ) && 0 <= j < old(self).coordinator().waiters_of(c).len() ==> has_timeout_for(
                    final(self).done(),
                    c,
                    old(self).coordinator().waiters_of(c)[j],
                ),
            forall|c: Seq<u8>|
                old(self).coordinator().has_want(c) && old(self).coordinator().expired(
                    old(self).coordinator().stamp_of(c),
                    now,
                ) ==> #[trigger] has_cancel_for(final(self).pending_actions(), c),
            final(self).done().len() >= old(self).done().len(),
            forall|q: int|
                0 <= q < old(self).done().len() ==> #[trigger] final(self).done()[q] == old(self).done()[q],
            forall|q: int|
                old(self).done().len() <= q < final(self).done().len() ==> ((#[trigger] final(self).done()[q]) matches Completion::TimedOut(w2, c2)
                    && old(self).coordinator().has_want(c2@) && old(self).coordinator().expired(
                    old(self).coordinator().stamp_of(c2@),
                    now,
                ) && old(self).coordinator().waiters_of(c2@).contains(w2)),
            final(self).pending_actions().len() >= old(self).pending_actions().len(),
            forall|q: int|
                0 <= q < old(self).pending_actions().len() ==> #[trigger] final(self).pending_actions()[q] == old(self).pending_actions()[q],
            forall|x: Seq<u8>| #[trigger]
                final(self).store().stored(x) == old(self).store().stored(x),
            forall|v: u64| #[trigger]
                final(self).store().pinned_id(v) == old(self).store().pinned_id(v),
            old(self).coordinator().bootstrapped() ==> final(self).store().event_log()
                =~= Seq::<StorageEvent>::empty(),
            old(self).coordinator().bootstrapped() ==> forall|k: int|
                #![trigger old(self).store().event_log()[k]]
                0 <= k < old(self).store().event_log().len() ==> {
                    let ev = old(self).store().event_log()[k];
                    &&& (ev.is_insert() && old(self).store().stored(ev.cid()) is Some
                        ==> has_provide_for(final(self).pending_actions(), ev.cid())
                            && has_send_of(
                            final(self).pending_actions(),
                            ev.cid(),
                            old(self).store().stored(ev.cid()).unwrap(),
                        ))
                    &&& (!ev.is_insert() ==> has_unprovide_for(
                        final(self).pending_actions(),
                        ev.cid(),
                    ))
                },
    {
        if self.task.is_bootstrapped() {
            let mut evs = self.storage.take_events();
            let ghost e_all = evs@;
            let ghost st0 = self.storage;
            let ne = evs.len();
            let mut i: usize = 0;
            while i < ne
                invariant
                    self.wf(),
                    self.task == old(self).coordinator(),
                    self.task.bootstrapped(),
                    self.storage == st0,
                    ne == e_all.len(),
                    evs@ =~= e_all.skip(i as int),
                    0 <= i <= ne,
                    self.completions@ == old(self).done(),
                    self.outbox@.len() >= old(self).pending_actions().len(),
                    forall|q: int|
                        0 <= q < old(self).pending_actions().len() ==> #[trigger] self.outbox@[q]
                            == old(self).pending_actions()[q],
                    forall|k2: int| #![trigger e_all[k2]]
                        0 <= k2 < i ==> {
                            let ev = e_all[k2];
                            &&& (ev.is_insert() && st0.stored(ev.cid()) is Some
                                ==> has_provide_for(self.outbox@, ev.cid()) && has_send_of(
                                self.outbox@,
                                ev.cid(),
                                st0.stored(ev.cid()).unwrap(),
                            ))
                            &&& (!ev.is_insert() ==> has_unprovide_for(self.outbox@, ev.cid()))
                        },
                decreases ne - i,
            {
                let ev = evs.remove(0);
                let ghost gev = ev;
                let ghost ob0 = self.outbox@;
                let mut acts = self.task.handle_storage_event(ev, &self.storage);
                let ghost ga = acts@;
                for_each_push(&mut self.outbox, &mut acts);
                proof {
                    assert(gev == e_all[i as int]);
                    assert(evs@ =~= e_all.skip(i + 1));
                    lemma_actions_extend(ob0, self.outbox@);
                    assert forall|k2: int| #![trigger e_all[k2]]
                        0 <= k2 < i + 1 implies {
                        let ev2 = e_all[k2];
                        &&& (ev2.is_insert() && st0.stored(ev2.cid()) is Some
                            ==> has_provide_for(self.outbox@, ev2.cid()) && has_send_of(
                            self.outbox@,
                            ev2.cid(),
                            st0.stored(ev2.cid()).unwrap(),
                        ))
                        &&& (!ev2.is_insert() ==> has_unprovide_for(self.outbox@, ev2.cid()))
                    } by {
                        if k2 == i as int {
                            match gev {
                                StorageEvent::Insert(c) => {
                                    if st0.stored(c@) is Some {
                                        assert(self.outbox@[ob0.len() as int] == ga[0]);
                                        assert(self.outbox@[ob0.len() as int + 1] == ga[1]);
                                        assert(has_provide_for(self.outbox@, c@));
                                        assert(has_send_of(
                                            self.outbox@,
                                            c@,
                                            st0.stored(c@).unwrap(),
                                        ));
                                    }
                                },
                                StorageEvent::Remove(c) => {
                                    assert(self.outbox@[ob0.len() as int] == ga[0]);
                                    assert(has_unprovide_for(self.outbox@, c@));
                                },
                            }
                        }
                    }
                }
                i = i + 1;
            }
            proof {
                assert(e_all.skip(ne as int) =~= Seq::<StorageEvent>::empty());
                assert forall|k: int| #![trigger old(self).store().event_log()[k]]
                    0 <= k < old(self).store().event_log().len() implies {
                    let ev = old(self).store().event_log()[k];
                    &&& (ev.is_insert() && old(self).store().stored(ev.cid()) is Some
                        ==> has_provide_for(self.outbox@, ev.cid()) && has_send_of(
                        self.outbox@,
                        ev.cid(),
                        old(self).store().stored(ev.cid()).unwrap(),
                    ))
                    &&& (!ev.is_insert() ==> has_unprovide_for(self.outbox@, ev.cid()))
                } by {
                    assert(e_all[k] == old(self).store().event_log()[k]);
                    let ev = e_all[k];
                    assert(st0.stored(ev.cid()) == old(self).store().stored(ev.cid()));
                }
                assert(self.storage.event_log() =~= Seq::<StorageEvent>::empty());
            }
        }
        let ghost t0 = self.task;
        let (mut cancels, mut dropped) = self.task.handle_tick(now);
        let ghost tpost = self.task;
        let ghost gc = cancels@;
        let ghost gd = dropped@;
        let ghost ob1 = self.outbox@;
        for_each_push(&mut self.outbox, &mut cancels);
        proof {
            lemma_actions_extend(ob1, self.outbox@);
            assert forall|c: Seq<u8>|
                t0.has_want(c) && t0.expired(t0.stamp_of(c), now)
                    implies #[trigger] has_cancel_for(self.outbox@, c) by {
                assert(has_cancel_for(gc, c));
                let i = choose|i: int|
                    0 <= i < gc.len() && (#[trigger] gc[i]).cid() == c && gc[i].is_cancel();
                assert(self.outbox@[ob1.len() as int + i] == gc[i]);
            }
        }
        let ghost cbase = self.completions@;
        let ghost obf = self.outbox@;
        let ghost stf = self.storage;
        let nd = dropped.len();
        let mut j: usize = 0;
        while j < nd
            invariant
                self.wf(),
                self.task == tpost,
                self.storage == stf,
                self.outbox@ == obf,
                nd == gd.len(),
                dropped@ =~= gd.skip(j as int),
                0 <= j <= nd,
                self.completions@.len() == cbase.len() + j,
                forall|q: int| 0 <= q < cbase.len() ==> #[trigger] self.completions@[q] == cbase[q],
                forall|jj: int|
                    0 <= jj < j ==> ((#[trigger] self.completions@[cbase.len() + jj]) matches
                        Completion::TimedOut(w2, c2) && w2 == gd[jj].0 && c2@ == gd[jj].1@),
            decreases nd - j,
        {
            let (w, c) = dropped.remove(0);
            self.completions.push(Completion::TimedOut(w, c));
            proof {
                assert(dropped@ =~= gd.skip(j + 1));
            }
            j = j + 1;
        }
        proof {
            assert(t0 == old(self).coordinator());
            assert forall|q: int|
                cbase.len() <= q < self.completions@.len() implies ((
            #[trigger] self.completions@[q]) matches Completion::TimedOut(w2, c2)
                && t0.has_want(c2@) && t0.expired(t0.stamp_of(c2@), now) && t0.waiters_of(
                c2@,
            ).contains(w2)) by {
                let jj = q - cbase.len();
                assert((self.completions@[cbase.len() + jj]) matches Completion::TimedOut(w2, c2)
                    && w2 == gd[jj].0 && c2@ == gd[jj].1@);
                assert(t0.has_want(gd[jj].1@) && t0.expired(t0.stamp_of(gd[jj].1@), now)
                    && t0.waiters_of(gd[jj].1@).contains(gd[jj].0));
            }
            assert forall|c: Seq<u8>, j2: int| #![trigger t0.waiters_of(c)[j2]]
                t0.has_want(c) && t0.expired(t0.stamp_of(c), now) && 0 <= j2 < t0.waiters_of(
                    c,
                ).len() implies has_timeout_for(
                self.completions@,
                c,
                t0.waiters_of(c)[j2],
            ) by {
                assert(has_drop_for(gd, c, t0.waiters_of(c)[j2]));
                let i = choose|i: int|
                    0 <= i < gd.len() && (#[trigger] gd[i]).1@ == c && gd[i].0 == t0.waiters_of(
                        c,
                    )[j2];
                assert((self.completions@[cbase.len() + i]) matches Completion::TimedOut(w2, c2)
                    && w2 == gd[i].0 && c2@ == gd[i].1@);
            }
        }
    }

    /// The stored blocks whose persisted children lists link to `id`.
    pub fn referrers(&self, id: &Id) -> (r: Ids)
        requires
            self.wf(),
        ensures
            r.wf(),
            forall|v: u64| #[trigger]
                r@.contains(v) <==> (v < self.store().n_ids() && self.store().stored_at(v as int)
                    && self.store().children_at(v as int).contains(id@)),
    {
        self.storage.referrers(id)
    }

    /// Run one garbage-collection sweep: stored blocks that no alias
    /// pins are reclaimed while they outnumber the cache bound, and each
    /// removal is queued for the next tick to retract its advertisement.
    /// Pinned blocks are never touched.
    pub fn sweep(&mut self)
        requires
            old(self).wf(),
        ensures
            final(self).wf(),
            forall|v: u64| #[trigger]
                final(self).store().pinned_id(v) == old(self).store().pinned_id(v),
            forall|x: Seq<u8>| #[trigger]
                final(self).store().stored(x) == old(self).store().stored(x) || (final(self).store().stored(x) is None && old(self).store().pinned_cid(x) == Some(false)),
            old(self).store().unpinned_count() <= old(self).store().cache_limit() ==> final(self).store() == old(self).store(),
            final(self).store().unpinned_count() <= final(self).store().cache_limit() || (forall|
                j: u64,
            |
                j < final(self).store().n_ids() && final(self).store().stored_at(j as int)
                    && !final(self).store().pinned_id(j) ==> final(self).store().live_reported().contains(j)),
            final(self).coordinator() == old(self).coordinator(),
    {
        self.storage.sweep()
    }

    /// Hand the queued network actions to the event loop.
    pub fn take_actions(&mut self) -> (r: Vec<NetworkAction>)
        requires
            old(self).wf(),
        ensures
            final(self).wf(),
            r@ == old(self).pending_actions(),
            final(self).pending_actions() =~= Seq::<NetworkAction>::empty(),
            final(self).store() == old(self).store(),
            final(self).coordinator() == old(self).coordinator(),
    {
        let mut taken: Vec<NetworkAction> = Vec::new();
        core::mem::swap(&mut taken, &mut self.outbox);
        taken
    }

    /// Hand the finished fetches back to their callers.
    pub fn take_completions(&mut self) -> (r: Vec<Completion>)
        requires
            old(self).wf(),
        ensures
            final(self).wf(),
            r@ == old(self).done(),
            final(self).done() =~= Seq::<Completion>::empty(),
            final(self).store() == old(self).store(),
            final(self).coordinator() == old(self).coordinator(),
    {
        let mut taken: Vec<Completion> = Vec::new();
        core::mem::swap(&mut taken, &mut self.completions);
        taken
    }
}

/// Append every action to the queue, in order.
fn for_each_push(out: &mut Vec<NetworkAction>, acts: &mut Vec<NetworkAction>)
    ensures
        final(out)@ =~= old(out)@ + old(acts)@,
{
    let ghost a0 = acts@;
    let ghost o0 = out@;
    let n = acts.len();
    let mut i: usize = 0;
    while i < n
        invariant
            n == a0.len(),
            acts@ =~= a0.skip(i as int),
            0 <= i <= n,
            out@ =~= o0 + a0.subrange(0, i as int),
        decreases n - i,
    {
        let a = acts.remove(0);
        out.push(a);
        proof {
            assert(acts@ =~= a0.skip(i + 1));
            assert(a0.subrange(0, i + 1) =~= a0.subrange(0, i as int).push(a0[i as int]));
        }
        i = i + 1;
    }
    proof {
        assert(a0.subrange(0, n as int) =~= a0);
    }
}

} // verus!
