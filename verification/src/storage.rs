//! The storage engine: persistence of blocks, the CID to internal id
//! mapping, alias tracking, transitive pin computation, and the
//! capacity-bounded sweep. All state is kept in tables keyed by the
//! internal id; the persisted children lists make the eviction path
//! independent of the codec.
use vstd::prelude::*;

use crate::block::bytes_eq;
use crate::block::clone_bytes;
use crate::block::decode_links;
use crate::block::links_of;
use crate::block::Block;
use crate::block::Cid;
use crate::block::Error;
use crate::id::Id;
use crate::id::Ids;
use crate::live::LiveSet;

verus! {

/// What the storage engine announces: a block appeared, or the sweep
/// reclaimed one.
pub enum StorageEvent {
    Insert(Cid),
    Remove(Cid),
}

impl StorageEvent {
    /// Whether the event announces an insert.
    pub open spec fn is_insert(&self) -> bool {
        match self {
            StorageEvent::Insert(_) => true,
            StorageEvent::Remove(_) => false,
        }
    }

    /// The content identifier the event speaks of.
    pub open spec fn cid(&self) -> Seq<u8> {
        match self {
            StorageEvent::Insert(c) => c@,
            StorageEvent::Remove(c) => c@,
        }
    }
}

/// One user-named root: the alias name, the id of its root block, and
/// the ids reachable from the root at the time the alias was set.
pub struct AliasRec {
    name: Vec<u8>,
    root: u64,
    reachable: Ids,
}

/// The storage engine.
pub struct StorageService {
    cids: Vec<Cid>,
    data: Vec<Option<Vec<u8>>>,
    children: Vec<Option<Ids>>,
    aliases: Vec<AliasRec>,
    live: LiveSet,
    events: Vec<StorageEvent>,
    cache_size: usize,
}

impl StorageService {
    /// How many internal ids have been assigned.
    pub closed spec fn n_ids(&self) -> int {
        self.cids@.len() as int
    }

    /// The CID the id `i` was assigned to.
    pub closed spec fn cid_at(&self, i: int) -> Seq<u8> {
        self.cids@[i]@
    }

    /// Whether some id was assigned to `c`.
    pub closed spec fn has_id(&self, c: Seq<u8>) -> bool {
        exists|i: int| 0 <= i < self.n_ids() && self.cid_at(i) == c
    }

    /// The id assigned to `c`.
    pub closed spec fn id_of(&self, c: Seq<u8>) -> int {
        choose|i: int| 0 <= i < self.n_ids() && self.cid_at(i) == c
    }

    /// Whether the block of id `i` is stored.
    pub closed spec fn stored_at(&self, i: int) -> bool {
        self.data@[i] is Some
    }

    /// The stored bytes of id `i`.
    pub closed spec fn data_at(&self, i: int) -> Seq<u8> {
        self.data@[i].unwrap()@
    }

    /// Whether id `i` has a persisted children list.
    pub closed spec fn has_children(&self, i: int) -> bool {
        self.children@[i] is Some
    }

    /// The persisted children ids of id `i`.
    pub closed spec fn children_at(&self, i: int) -> Seq<u64> {
        self.children@[i].unwrap()@
    }

    /// The bytes stored for `c`, if a block by that CID is present.
    pub closed spec fn stored(&self, c: Seq<u8>) -> Option<Seq<u8>> {
        if self.has_id(c) && self.stored_at(self.id_of(c)) {
            Some(self.data_at(self.id_of(c)))
        } else {
            None
        }
    }

    /// How many alias records exist.
    pub closed spec fn n_aliases(&self) -> int {
        self.aliases@.len() as int
    }

    /// Whether an alias by this name is set.
    pub closed spec fn has_alias(&self, name: Seq<u8>) -> bool {
        exists|k: int| 0 <= k < self.n_aliases() && self.aliases@[k].name@ == name
    }

    /// The record index of the alias by this name.
    pub closed spec fn alias_idx(&self, name: Seq<u8>) -> int {
        choose|k: int| 0 <= k < self.n_aliases() && self.aliases@[k].name@ == name
    }

    /// The root id of the alias by this name.
    pub closed spec fn alias_root(&self, name: Seq<u8>) -> u64 {
        self.aliases@[self.alias_idx(name)].root
    }

    /// The reachable set attributed to the alias by this name.
    pub closed spec fn alias_set(&self, name: Seq<u8>) -> Seq<u64> {
        self.aliases@[self.alias_idx(name)].reachable@
    }

    /// Whether id `v` is pinned: attributed to some alias's reachable set.
    pub closed spec fn pinned_id(&self, v: u64) -> bool {
        exists|k: int| 0 <= k < self.n_aliases() && self.aliases@[k].reachable@.contains(v)
    }

    /// Whether the block named `c` is pinned; nothing if `c` was never seen.
    pub open spec fn pinned_cid(&self, c: Seq<u8>) -> Option<bool> {
        if self.has_id(c) {
            Some(self.pinned_id(self.id_of(c) as u64))
        } else {
            None
        }
    }

    /// Id `i` links to id `j`: `i` has a persisted children list and `j`
    /// is on it.
    pub closed spec fn step(&self, i: u64, j: u64) -> bool {
        &&& 0 <= i < self.n_ids()
        &&& self.has_children(i as int)
        &&& self.children_at(i as int).contains(j)
    }

    /// `j` lies at most `n` links below `i`.
    pub closed spec fn reaches_n(&self, i: u64, j: u64, n: nat) -> bool
        decreases n,
    {
        i == j || (n > 0 && exists|k: u64|
            self.step(i, k) && self.reaches_n(k, j, (n - 1) as nat))
    }

    /// `j` is reachable from `i` over the persisted children links.
    pub closed spec fn reaches(&self, i: u64, j: u64) -> bool {
        exists|n: nat| self.reaches_n(i, j, n)
    }

    /// Everything reachable from `root` is stored locally.
    pub closed spec fn complete_from(&self, root: u64) -> bool {
        forall|j: u64| self.reaches(root, j) ==> 0 <= j < self.n_ids() && self.stored_at(j as int)
    }

    /// The whole DAG under `c` is locally present.
    pub open spec fn dag_complete(&self, c: Seq<u8>) -> bool {
        self.has_id(c) && self.complete_from(self.id_of(c) as u64)
    }

    /// The events announced so far and not yet taken.
    pub closed spec fn event_log(&self) -> Seq<StorageEvent> {
        self.events@
    }

    /// The configured soft bound on stored unpinned blocks.
    pub closed spec fn cache_limit(&self) -> nat {
        self.cache_size as nat
    }

    /// The ids the live-set filter currently reports as present.
    pub closed spec fn live_reported(&self) -> Set<u64> {
        self.live.reported()
    }

    /// The reachable sets of one alias record are sane: inside the id
    /// range, rooted, and closed under the persisted children links.
    pub closed spec fn alias_rec_ok(&self, k: int) -> bool {
        let rec = self.aliases@[k];
        &&& rec.reachable.wf()
        &&& rec.root < self.n_ids()
        &&& rec.reachable@.contains(rec.root)
        &&& forall|v: u64| #[trigger]
            rec.reachable@.contains(v) ==> v < self.n_ids() && self.has_children(v as int)
        &&& forall|v: u64, w: u64|
            rec.reachable@.contains(v) && #[trigger] self.children_at(v as int).contains(w)
                ==> rec.reachable@.contains(w)
    }

    /// The engine's invariant.
    pub closed spec fn wf(&self) -> bool {
        let n = self.n_ids();
        &&& self.data@.len() == n
        &&& self.children@.len() == n
        &&& forall|i: int| 0 <= i < n ==> (self.has_children(i) <==> #[trigger] self.stored_at(i))
        &&& forall|i: int| 0 <= i < n && #[trigger] self.has_children(i) ==> self.children@[i].unwrap().wf()
        &&& forall|i: int, v: u64|
            0 <= i < n && self.has_children(i) && #[trigger] self.children_at(i).contains(v) ==> v
                < n
        &&& forall|i: int, j: int|
            0 <= i < n && 0 <= j < n && self.cid_at(i) == self.cid_at(j) ==> i == j
        &&& forall|k: int| 0 <= k < self.n_aliases() ==> #[trigger] self.alias_rec_ok(k)
        &&& forall|k1: int, k2: int|
            0 <= k1 < self.n_aliases() && 0 <= k2 < self.n_aliases()
                && self.aliases@[k1].name@ == self.aliases@[k2].name@ ==> k1 == k2
    }

    /// Two states agree on everything the per-id spec functions read at
    /// index `i`.
    proof fn lemma_same_slot(a: StorageService, b: StorageService, i: int)
        requires
            0 <= i < a.cids@.len() && 0 <= i < a.data@.len() && 0 <= i < a.children@.len(),
            0 <= i < b.cids@.len() && 0 <= i < b.data@.len() && 0 <= i < b.children@.len(),
            a.cids@[i] == b.cids@[i],
            a.data@[i] == b.data@[i],
            a.children@[i] == b.children@[i],
        ensures
            a.cid_at(i) == b.cid_at(i),
            a.stored_at(i) == b.stored_at(i),
            a.has_children(i) == b.has_children(i),
            a.has_children(i) ==> a.children_at(i) == b.children_at(i),
            a.stored_at(i) ==> a.data_at(i) == b.data_at(i),
    {
    }

    /// A fresh engine with the given soft cache bound.
    pub fn open(cache_size: usize) -> (r: StorageService)
        ensures
            r.wf(),
            r.n_ids() == 0,
            r.n_aliases() == 0,
            r.event_log() =~= Seq::<StorageEvent>::empty(),
            r.cache_limit() == cache_size,
            forall|c: Seq<u8>| !r.has_id(c),
    {
        StorageService {
            cids: Vec::new(),
            data: Vec::new(),
            children: Vec::new(),
            aliases: Vec::new(),
            live: LiveSet::new(),
            events: Vec::new(),
            cache_size,
        }
    }

    /// Find the id assigned to a CID, if any.
    fn lookup_id(&self, c: &Cid) -> (r: Option<usize>)
        requires
            self.wf(),
        ensures
            match r {
                Some(v) => self.has_id(c@) && v == self.id_of(c@) && 0 <= v < self.n_ids(),
                None => !self.has_id(c@),
            },
    {
        let n = self.cids.len();
        let mut i: usize = 0;
        while i < n
            invariant
                self.wf(),
                n == self.n_ids(),
                0 <= i <= n,
                forall|j: int| 0 <= j < i ==> self.cid_at(j) != c@,
            decreases n - i,
        {
            if self.cids[i].equals(c) {
                proof {
                    assert(self.cid_at(i as int) == c@);
                    assert(self.has_id(c@));
                    let w = self.id_of(c@);
                    assert(0 <= w < self.n_ids() && self.cid_at(w) == c@);
                    assert(w == i);
                }
                return Some(i);
            }
            i = i + 1;
        }
        None
    }

    /// Look up the bytes of a block.
    pub fn get(&self, cid: &Cid) -> (r: Option<Vec<u8>>)
        requires
            self.wf(),
        ensures
            match r {
                Some(d) => self.stored(cid@) == Some(d@),
                None => self.stored(cid@) is None,
            },
    {
        match self.lookup_id(cid) {
            Some(v) => match &self.data[v] {
                Some(d) => Some(clone_bytes(d)),
                None => None,
            },
            None => None,
        }
    }

    /// The current root of an alias.
    pub fn resolve(&self, name: &Vec<u8>) -> (r: Option<Cid>)
        requires
            self.wf(),
        ensures
            match r {
                Some(c) => self.has_alias(name@) && c@ == self.cid_at(
                    self.alias_root(name@) as int,
                ),
                None => !self.has_alias(name@),
            },
    {
        let m = self.aliases.len();
        let mut k: usize = 0;
        while k < m
            invariant
                self.wf(),
                m == self.n_aliases(),
                0 <= k <= m,
                forall|j: int| 0 <= j < k ==> self.aliases@[j].name@ != name@,
            decreases m - k,
        {
            if bytes_eq(&self.aliases[k].name, name) {
                let n = self.cids.len();
                proof {
                    assert(self.aliases@[k as int].name@ == name@);
                    assert(self.has_alias(name@));
                    let w = self.alias_idx(name@);
                    assert(self.aliases@[w].name@ == name@);
                    assert(w == k);
                    assert(self.alias_rec_ok(k as int));
                    assert(self.aliases@[k as int].root < n);
                }
                let root = self.aliases[k].root;
                return Some(self.cids[root as usize].clone());
            }
            k = k + 1;
        }
        None
    }

    /// Whether the block named by `cid` is pinned by some alias; nothing
    /// if the CID was never seen.
    pub fn pinned(&self, cid: &Cid) -> (r: Option<bool>)
        requires
            self.wf(),
        ensures
            r == self.pinned_cid(cid@),
    {
        let v = match self.lookup_id(cid) {
            Some(v) => v,
            None => {
                return None;
            },
        };
        let m = self.aliases.len();
        let mut k: usize = 0;
        while k < m
            invariant
                self.wf(),
                m == self.n_aliases(),
                0 <= k <= m,
                self.has_id(cid@),
                v as int == self.id_of(cid@),
                forall|j: int| 0 <= j < k ==> !self.aliases@[j].reachable@.contains(v as u64),
            decreases m - k,
        {
            proof {
                assert(self.alias_rec_ok(k as int));
            }
            if self.aliases[k].reachable.contains_id(v as u64) {
                proof {
                    assert(self.aliases@[k as int].reachable@.contains(v as u64));
                    assert(self.pinned_id(v as u64));
                    assert(self.id_of(cid@) == v as int);
                    assert(self.id_of(cid@) as u64 == v as u64);
                }
                return Some(true);
            }
            k = k + 1;
        }
        proof {
            assert(!self.pinned_id(v as u64));
            assert(self.id_of(cid@) == v as int);
            assert(self.id_of(cid@) as u64 == v as u64);
        }
        Some(false)
    }

    /// The id assigned to a CID, assigning a fresh one on first sight.
    fn ensure_id(&mut self, c: &Cid) -> (r: usize)
        requires
            old(self).wf(),
        ensures
            final(self).wf(),
            final(self).has_id(c@),
            r == final(self).id_of(c@),
            0 <= r < final(self).n_ids(),
            old(self).has_id(c@) ==> *final(self) == *old(self),
            !old(self).has_id(c@) ==> {
                &&& r == old(self).n_ids()
                &&& final(self).n_ids() == old(self).n_ids() + 1
                &&& final(self).cid_at(r as int) == c@
                &&& !final(self).stored_at(r as int)
                &&& !final(self).has_children(r as int)
                &&& final(self).aliases@ == old(self).aliases@
                &&& final(self).events@ == old(self).events@
                &&& final(self).live == old(self).live
                &&& final(self).cache_size == old(self).cache_size
                &&& forall|i: int|
                    0 <= i < old(self).n_ids() ==> #[trigger] final(self).cids@[i] == old(self).cids@[i]
                &&& forall|i: int|
                    0 <= i < old(self).n_ids() ==> #[trigger] final(self).data@[i] == old(self).data@[i]
                &&& forall|i: int|
                    0 <= i < old(self).n_ids() ==> #[trigger] final(self).children@[i] == old(self).children@[i]
            },
            forall|x: Seq<u8>| #[trigger]
                old(self).has_id(x) ==> final(self).has_id(x) && final(self).id_of(x) == old(self).id_of(x),
            forall|x: Seq<u8>| #[trigger] final(self).stored(x) == old(self).stored(x),
            forall|v: u64| #[trigger] final(self).pinned_id(v) == old(self).pinned_id(v),
    {
        match self.lookup_id(c) {
            Some(v) => v,
            None => {
                let ghost before = *self;
                let v = self.cids.len();
                self.cids.push(c.clone());
                self.data.push(None);
                self.children.push(None);
                proof {
                    let n0 = before.n_ids();
                    assert(self.cid_at(n0) == c@);
                    assert forall|i: int| 0 <= i < n0 implies self.cid_at(i) == before.cid_at(i) by {
                        assert(self.cids@[i] == before.cids@[i]);
                    }
                    assert(self.has_id(c@));
                    // the fresh id is the unique witness for c
                    assert forall|i: int, j: int|
                        0 <= i < self.n_ids() && 0 <= j < self.n_ids() && self.cid_at(i)
                            == self.cid_at(j) implies i == j by {
                        if i < n0 && j < n0 {
                            assert(before.cid_at(i) == before.cid_at(j));
                        } else if i < n0 && j == n0 {
                            assert(before.cid_at(i) == c@);
                            assert(before.has_id(c@));
                        } else if i == n0 && j < n0 {
                            assert(before.cid_at(j) == c@);
                            assert(before.has_id(c@));
                        }
                    }
                    assert(self.id_of(c@) == n0);
                    assert forall|k: int| 0 <= k < self.n_aliases() implies self.alias_rec_ok(k) by {
                        assert(before.alias_rec_ok(k));
                        assert(self.aliases@[k] == before.aliases@[k]);
                        assert forall|x: u64| #[trigger]
                            self.aliases@[k].reachable@.contains(x) implies x < self.n_ids()
                            && self.has_children(x as int) by {
                            assert(before.aliases@[k].reachable@.contains(x));
                            assert(x < n0);
                            assert(before.has_children(x as int));
                            assert(self.children@[x as int] == before.children@[x as int]);
                        }
                        assert forall|x: u64, w: u64|
                            self.aliases@[k].reachable@.contains(x) && #[trigger] self.children_at(
                                x as int,
                            ).contains(w) implies self.aliases@[k].reachable@.contains(w) by {
                            assert(before.aliases@[k].reachable@.contains(x));
                            assert(x < n0);
                            assert(self.children@[x as int] == before.children@[x as int]);
                            assert(before.children_at(x as int).contains(w));
                            assert(before.aliases@[k].reachable@.contains(w));
                        }
                    }
                    assert forall|i: int|
                        0 <= i < self.n_ids() implies (self.has_children(i) <==> #[trigger] self.stored_at(i)) by {
                        if i < n0 {
                            Self::lemma_same_slot(before, *self, i);
                            assert(before.has_children(i) <==> before.stored_at(i));
                        }
                    }
                    assert forall|i: int|
                        0 <= i < self.n_ids() && #[trigger] self.has_children(i) implies self.children@[i].unwrap().wf() by {
                        assert(i < n0);
                        Self::lemma_same_slot(before, *self, i);
                        assert(before.has_children(i));
                        assert(before.children@[i].unwrap().wf());
                    }
                    assert forall|i: int, v2: u64|
                        0 <= i < self.n_ids() && self.has_children(i) && #[trigger] self.children_at(i).contains(v2) implies v2 < self.n_ids() by {
                        assert(i < n0);
                        Self::lemma_same_slot(before, *self, i);
                        assert(before.has_children(i));
                        assert(before.children_at(i).contains(v2));
                    }
                    assert forall|k1: int, k2: int|
                        0 <= k1 < self.n_aliases() && 0 <= k2 < self.n_aliases()
                            && self.aliases@[k1].name@ == self.aliases@[k2].name@ implies k1 == k2 by {
                        assert(before.aliases@[k1].name@ == before.aliases@[k2].name@);
                    }
                    assert(self.wf());
                    assert forall|x: Seq<u8>|
                        before.has_id(x) implies self.has_id(x) && self.id_of(x) == before.id_of(
                        x,
                    ) by {
                        let w = before.id_of(x);
                        assert(self.cid_at(w) == x);
                        let w2 = self.id_of(x);
                        assert(self.cid_at(w2) == x);
                    }
                    assert forall|x: Seq<u8>| #[trigger]
                        self.stored(x) == before.stored(x) by {
                        if before.has_id(x) {
                            assert(self.id_of(x) == before.id_of(x));
                            Self::lemma_same_slot(before, *self, before.id_of(x));
                        } else if x == c@ {
                            assert(!self.stored_at(self.id_of(x)));
                        } else {
                            assert(!self.has_id(x)) by {
                                if self.has_id(x) {
                                    let i = choose|i: int|
                                        0 <= i < self.n_ids() && self.cid_at(i) == x;
                                    if i < n0 {
                                        assert(before.cid_at(i) == x);
                                        assert(before.has_id(x));
                                    } else {
                                        assert(self.cid_at(i) == c@);
                                    }
                                }
                            }
                        }
                    }
                    assert forall|v2: u64| #[trigger]
                        self.pinned_id(v2) == before.pinned_id(v2) by {
                        assert(self.aliases@ == before.aliases@);
                    }
                }
                v
            },
        }
    }

    /// Store a block: assign ids, persist the bytes and the decoded
    /// child links, and announce the insert. Blocks are immutable, so a
    /// re-insert of a stored block changes nothing.
    #[verifier::rlimit(60)]
    pub fn insert(&mut self, block: &Block) -> (r: Result<(), Error>)
        requires
            old(self).wf(),
            old(self).stored(block.key()) matches Some(d) ==> d == block.payload(),
        ensures
            final(self).wf(),
            r is Ok <==> links_of(block.key(), block.payload()) is Some,
            r is Err ==> *final(self) == *old(self) && r == Err::<(), Error>(Error::CodecFailure),
            r is Ok ==> final(self).stored(block.key()) == Some(block.payload()),
            r is Ok ==> forall|x: Seq<u8>|
                x != block.key() ==> final(self).stored(x) == old(self).stored(x),
            r is Ok ==> forall|v: u64| #[trigger] final(self).pinned_id(v) == old(self).pinned_id(v),
            r is Ok ==> forall|n: Seq<u8>| final(self).has_alias(n) == old(self).has_alias(n),
            r is Ok ==> forall|n: Seq<u8>|
                old(self).has_alias(n) ==> final(self).alias_root(n) == old(self).alias_root(n)
                    && final(self).alias_set(n) == old(self).alias_set(n),
            final(self).cache_limit() == old(self).cache_limit(),
            r is Ok && old(self).stored(block.key()) is Some ==> *final(self) == *old(self),
            r is Ok && old(self).stored(block.key()) is None ==> {
                &&& final(self).event_log().len() == old(self).event_log().len() + 1
                &&& final(self).event_log().last().is_insert()
                &&& final(self).event_log().last().cid() == block.key()
                &&& final(self).event_log().subrange(0, old(self).event_log().len() as int) == old(self).event_log()
                &&& final(self).pinned_cid(block.key()) == Some(false)
            },
            r is Err ==> final(self).event_log() == old(self).event_log(),
            r is Ok && old(self).stored(block.key()) is Some ==> final(self).event_log() == old(self).event_log(),
    {
        let links = match decode_links(block.cid(), block.data()) {
            Some(ls) => ls,
            None => {
                return Err(Error::CodecFailure);
            },
        };
        let v = self.ensure_id(block.cid());
        if self.data[v].is_some() {
            proof {
                assert(self.stored_at(v as int));
                assert(self.stored(block.key()) is Some);
                assert(self.stored(block.key()) == old(self).stored(block.key()));
            }
            return Ok(());
        }
        proof {
            assert(self.stored(block.key()) is None);
            assert(old(self).stored(block.key()) is None);
        }
        let ghost mid = *self;
        let mut child_ids = Ids::new();
        let m = links.len();
        let mut k: usize = 0;
        while k < m
            invariant
                self.wf(),
                m == links@.len(),
                0 <= k <= m,
                child_ids.wf(),
                child_ids@.len() == k,
                forall|j: int|
                    0 <= j < k ==> #[trigger] self.has_id(links@[j]@) && child_ids@[j]
                        == self.id_of(links@[j]@),
                mid.n_ids() <= self.n_ids(),
                self.has_id(block.key()) && v == self.id_of(block.key()),
                0 <= v < mid.n_ids(),
                !self.stored_at(v as int),
                forall|x: Seq<u8>| #[trigger]
                    mid.has_id(x) ==> self.has_id(x) && self.id_of(x) == mid.id_of(x),
                forall|x: Seq<u8>| #[trigger] self.stored(x) == mid.stored(x),
                forall|v2: u64| #[trigger] self.pinned_id(v2) == mid.pinned_id(v2),
                self.aliases@ == mid.aliases@,
                self.events@ == mid.events@,
                self.live == mid.live,
                self.cache_size == mid.cache_size,
                forall|i: int| 0 <= i < mid.n_ids() ==> #[trigger] self.cids@[i] == mid.cids@[i],
                forall|i: int| 0 <= i < mid.n_ids() ==> #[trigger] self.data@[i] == mid.data@[i],
                forall|i: int|
                    0 <= i < mid.n_ids() ==> #[trigger] self.children@[i] == mid.children@[i],
            decreases m - k,
        {
            let ghost pre = *self;
            let ghost oc = child_ids@;
            let ghost k0 = k as int;
            let j = self.ensure_id(&links[k as usize]);
            child_ids.push(Id::from_u64(j as u64));
            k = k + 1;
            proof {
                assert(child_ids@ =~= oc.push(j as u64));
                assert forall|jj: int|
                    0 <= jj < k implies #[trigger] self.has_id(links@[jj]@) && child_ids@[jj]
                    == self.id_of(links@[jj]@) by {
                    if jj < k0 {
                        assert(pre.has_id(links@[jj]@));
                        assert(oc[jj] == pre.id_of(links@[jj]@));
                        assert(self.has_id(links@[jj]@) && self.id_of(links@[jj]@) == pre.id_of(links@[jj]@));
                        assert(child_ids@[jj] == oc[jj]);
                    } else {
                        assert(child_ids@[jj] == j as u64);
                        assert(j == self.id_of(links@[jj]@));
                    }
                }

                assert forall|x: Seq<u8>| #[trigger]
                    mid.has_id(x) implies self.has_id(x) && self.id_of(x) == mid.id_of(x) by {
                    assert(pre.has_id(x) && pre.id_of(x) == mid.id_of(x));
                    assert(self.has_id(x) && self.id_of(x) == pre.id_of(x));
                }
                assert forall|x: Seq<u8>| #[trigger]
                    self.stored(x) == mid.stored(x) by {
                    assert(self.stored(x) == pre.stored(x));
                    assert(pre.stored(x) == mid.stored(x));
                }
                assert forall|v2: u64| #[trigger]
                    self.pinned_id(v2) == mid.pinned_id(v2) by {
                    assert(self.pinned_id(v2) == pre.pinned_id(v2));
                    assert(pre.pinned_id(v2) == mid.pinned_id(v2));
                }
                assert(self.has_id(block.key()) && v == self.id_of(block.key())) by {
                    assert(pre.has_id(block.key()));
                    assert(self.has_id(block.key()) && self.id_of(block.key()) == pre.id_of(
                        block.key(),
                    ));
                }
                assert(!self.stored_at(v as int)) by {
                    assert(pre.data@[v as int] == mid.data@[v as int]);
                    if !pre.has_id(links@[k as int]@) {
                        assert(self.data@[v as int] == pre.data@[v as int]);
                    }
                    assert(!mid.stored_at(v as int));
                }
                assert forall|i: int|
                    0 <= i < mid.n_ids() implies #[trigger] self.cids@[i] == mid.cids@[i]
                        && self.data@[i] == mid.data@[i] && self.children@[i]
                        == mid.children@[i] by {
                    assert(pre.cids@[i] == mid.cids@[i]);
                    assert(pre.data@[i] == mid.data@[i]);
                    assert(pre.children@[i] == mid.children@[i]);
                    if !pre.has_id(links@[k as int]@) {
                        assert(self.cids@[i] == pre.cids@[i]);
                        assert(self.data@[i] == pre.data@[i]);
                        assert(self.children@[i] == pre.children@[i]);
                    }
                }
            }
        }
        let ghost grown = *self;
        self.data.set(v, Some(clone_bytes(block.data())));
        self.children.set(v, Some(child_ids));
        self.events.push(StorageEvent::Insert(block.cid().clone()));
        proof {
            let n = self.n_ids();
            assert(self.data@.len() == n && self.children@.len() == n);
            assert forall|i: int|
                0 <= i < n implies (self.has_children(i) <==> #[trigger] self.stored_at(i)) by {
                if i != v as int {
                    Self::lemma_same_slot(grown, *self, i);
                    assert(grown.has_children(i) <==> grown.stored_at(i));
                } else {
                    assert(self.data@[i] is Some && self.children@[i] is Some);
                }
            }
            assert forall|i: int|
                0 <= i < n && #[trigger] self.has_children(i) implies self.children@[i].unwrap().wf() by {
                if i != v as int {
                    Self::lemma_same_slot(grown, *self, i);
                    assert(grown.has_children(i));
                    assert(grown.children@[i].unwrap().wf());
                }
            }
            assert forall|i: int, v2: u64|
                0 <= i < n && self.has_children(i) && #[trigger] self.children_at(i).contains(
                    v2,
                ) implies v2 < n by {
                if i != v as int {
                    Self::lemma_same_slot(grown, *self, i);
                    assert(grown.has_children(i));
                    assert(grown.children_at(i).contains(v2));
                } else {
                    assert(self.children_at(i) == child_ids@);
                    assert(child_ids@.contains(v2));
                    let jj = choose|jj: int| 0 <= jj < child_ids@.len() && child_ids@[jj] == v2;
                    assert(grown.has_id(links@[jj]@));
                    assert(child_ids@[jj] == grown.id_of(links@[jj]@));
                    assert(0 <= grown.id_of(links@[jj]@) < grown.n_ids());
                }
            }
            assert forall|i: int, j: int|
                0 <= i < n && 0 <= j < n && self.cid_at(i) == self.cid_at(j) implies i == j by {
                assert(self.cids@ == grown.cids@);
                assert(grown.cid_at(i) == grown.cid_at(j));
            }
            assert forall|k2: int| 0 <= k2 < self.n_aliases() implies self.alias_rec_ok(k2) by {
                assert(grown.alias_rec_ok(k2));
                assert(self.aliases@[k2] == grown.aliases@[k2]);
                let rec = self.aliases@[k2];
                assert(!rec.reachable@.contains(v as u64)) by {
                    if rec.reachable@.contains(v as u64) {
                        assert(grown.has_children(v as int));
                        assert(grown.stored_at(v as int));
                    }
                }
                assert forall|x: u64| #[trigger]
                    rec.reachable@.contains(x) implies x < self.n_ids() && self.has_children(
                    x as int,
                ) by {
                    assert(grown.aliases@[k2].reachable@.contains(x));
                    assert(grown.has_children(x as int));
                    assert(x != v);
                    assert(self.children@[x as int] == grown.children@[x as int]);
                }
                assert forall|x: u64, w: u64|
                    rec.reachable@.contains(x) && #[trigger] self.children_at(x as int).contains(
                        w,
                    ) implies rec.reachable@.contains(w) by {
                    assert(grown.aliases@[k2].reachable@.contains(x));
                    assert(x != v);
                    assert(self.children@[x as int] == grown.children@[x as int]);
                    assert(grown.children_at(x as int).contains(w));
                    assert(grown.aliases@[k2].reachable@.contains(w));
                }
            }
            assert forall|k1: int, k2: int|
                0 <= k1 < self.n_aliases() && 0 <= k2 < self.n_aliases()
                    && self.aliases@[k1].name@ == self.aliases@[k2].name@ implies k1 == k2 by {
                assert(grown.aliases@[k1].name@ == grown.aliases@[k2].name@);
            }
            assert(self.wf());
            assert(self.has_id(block.key()) && self.id_of(block.key()) == v as int) by {
                assert(grown.has_id(block.key()) && grown.id_of(block.key()) == v as int);
                assert(grown.cid_at(grown.id_of(block.key())) == block.key());
                assert(grown.cid_at(v as int) == block.key());
                assert(self.cids@ == grown.cids@);
                assert(self.cid_at(v as int) == block.key());
                assert(self.has_id(block.key()));
                let w2 = self.id_of(block.key());
                assert(self.cid_at(w2) == block.key());
                assert(self.cid_at(w2) == self.cid_at(v as int));
            }
            assert(self.stored(block.key()) == Some(block.payload())) by {
                assert(self.stored_at(v as int));
                assert(self.data_at(v as int) == block.payload());
            }
            assert forall|x: Seq<u8>|
                x != block.key() implies self.stored(x) == old(self).stored(x) by {
                assert(grown.stored(x) == mid.stored(x));
                assert(mid.stored(x) == old(self).stored(x));
                if grown.has_id(x) {
                    let w = grown.id_of(x);
                    assert(grown.cid_at(w) == x);
                    assert(self.cids@ == grown.cids@);
                    assert(self.cid_at(w) == x);
                    assert(self.has_id(x));
                    let w2 = self.id_of(x);
                    assert(self.cid_at(w2) == x);
                    assert(self.cid_at(w2) == self.cid_at(w));
                    assert(self.id_of(x) == w);
                    assert(w != v as int) by {
                        if w == v as int {
                            assert(grown.cid_at(w) == x);
                            assert(grown.cid_at(v as int) == block.key());
                        }
                    }
                    assert(self.data@[w] == grown.data@[w]);
                } else {
                    assert(!self.has_id(x)) by {
                        assert(self.cids@ == grown.cids@);
                        if self.has_id(x) {
                            let i = choose|i: int| 0 <= i < self.n_ids() && self.cid_at(i) == x;
                            assert(grown.cid_at(i) == x);
                            assert(grown.has_id(x));
                        }
                    }
                }
            }
            assert forall|v2: u64| #[trigger]
                self.pinned_id(v2) == old(self).pinned_id(v2) by {
                assert(self.aliases@ == grown.aliases@);
                assert(grown.pinned_id(v2) == mid.pinned_id(v2));
                assert(mid.pinned_id(v2) == old(self).pinned_id(v2));
            }
            assert forall|nm: Seq<u8>| self.has_alias(nm) == old(self).has_alias(nm) by {
                assert(self.aliases@ == old(self).aliases@);
            }
            assert forall|nm: Seq<u8>|
                old(self).has_alias(nm) implies self.alias_root(nm) == old(self).alias_root(nm)
                    && self.alias_set(nm) == old(self).alias_set(nm) by {
                assert(self.aliases@ == old(self).aliases@);
            }
            assert(self.pinned_cid(block.key()) == Some(false)) by {
                assert(!grown.pinned_id(v as u64)) by {
                    if grown.pinned_id(v as u64) {
                        let kk = choose|kk: int|
                            0 <= kk < grown.n_aliases()
                                && grown.aliases@[kk].reachable@.contains(v as u64);
                        assert(grown.alias_rec_ok(kk));
                        assert(grown.has_children(v as int));
                        assert(grown.stored_at(v as int));
                    }
                }
                assert(!self.pinned_id(v as u64));
            }
            assert(self.event_log().subrange(0, mid.event_log().len() as int) =~= mid.event_log());
        }
        Ok(())
    }
}

/// How many entries of a boolean sequence are set.
pub open spec fn count_true(s: Seq<bool>) -> nat
    decreases s.len(),
{
    if s.len() == 0 {
        0
    } else {
        count_true(s.drop_last()) + (if s.last() {
            1nat
        } else {
            0nat
        })
    }
}

proof fn lemma_count_true_le(s: Seq<bool>)
    ensures
        count_true(s) <= s.len(),
    decreases s.len(),
{
    if s.len() > 0 {
        lemma_count_true_le(s.drop_last());
    }
}

proof fn lemma_count_false(s: Seq<bool>)
    requires
        forall|i: int| 0 <= i < s.len() ==> !s[i],
    ensures
        count_true(s) == 0,
    decreases s.len(),
{
    if s.len() > 0 {
        lemma_count_false(s.drop_last());
    }
}

proof fn lemma_count_true_update(s: Seq<bool>, i: int)
    requires
        0 <= i < s.len(),
        !s[i],
    ensures
        count_true(s.update(i, true)) == count_true(s) + 1,
    decreases s.len(),
{
    let t = s.update(i, true);
    if i == s.len() - 1 {
        assert(t.drop_last() =~= s.drop_last());
    } else {
        assert(t.drop_last() =~= s.drop_last().update(i, true));
        assert(t.last() == s.last());
        lemma_count_true_update(s.drop_last(), i);
    }
}

impl StorageService {
    /// Whether some alias other than `name` pins id `v`.
    pub closed spec fn pinned_excluding(&self, name: Seq<u8>, v: u64) -> bool {
        exists|k: int|
            0 <= k < self.n_aliases() && self.aliases@[k].name@ != name
                && self.aliases@[k].reachable@.contains(v)
    }

    /// A link step from a reachable node reaches further.
    proof fn lemma_reaches_n_step(&self, i: u64, x: u64, y: u64, n: nat)
        requires
            self.reaches_n(i, x, n),
            self.step(x, y),
        ensures
            self.reaches_n(i, y, (n + 1) as nat),
        decreases n,
    {
        if i == x {
            assert(self.reaches_n(y, y, n));
            assert(self.step(i, y) && self.reaches_n(y, y, n));
        } else {
            let k = choose|k: u64| self.step(i, k) && self.reaches_n(k, x, (n - 1) as nat);
            self.lemma_reaches_n_step(k, x, y, (n - 1) as nat);
            assert(self.step(i, k) && self.reaches_n(k, y, n));
        }
    }

    /// Reachability extends over one more link.
    proof fn lemma_reaches_step(&self, i: u64, x: u64, y: u64)
        requires
            self.reaches(i, x),
            self.step(x, y),
        ensures
            self.reaches(i, y),
    {
        let n = choose|n: nat| #[trigger] self.reaches_n(i, x, n);
        self.lemma_reaches_n_step(i, x, y, n);
        assert(self.reaches_n(i, y, (n + 1) as nat));
    }

    /// A set that holds the root and is closed under the children links
    /// holds everything reachable from the root.
    proof fn lemma_closed_contains(&self, root: u64, s: Seq<u64>, j: u64, n: nat)
        requires
            s.contains(root),
            forall|v: u64, w: u64|
                s.contains(v) && #[trigger] self.children_at(v as int).contains(w) ==> s.contains(
                    w,
                ),
            forall|v: u64| #[trigger] s.contains(v) ==> self.has_children(v as int),
            self.reaches_n(root, j, n),
        ensures
            s.contains(j),
        decreases n,
    {
        if root != j {
            let k = choose|k: u64| self.step(root, k) && self.reaches_n(k, j, (n - 1) as nat);
            assert(self.children_at(root as int).contains(k));
            assert(s.contains(k));
            self.lemma_closed_contains(k, s, j, (n - 1) as nat);
        }
    }

    /// Walk the persisted children links from `root` and collect every
    /// reachable id, or report the first reachable id whose block is not
    /// stored locally.
    #[verifier::rlimit(80)]
    fn reach_from(&self, root: usize) -> (r: Result<Ids, Error>)
        requires
            self.wf(),
            root < self.n_ids(),
        ensures
            match r {
                Ok(out) => {
                    &&& out.wf()
                    &&& forall|x: u64| #[trigger]
                        out@.contains(x) <==> self.reaches(root as u64, x)
                    &&& self.complete_from(root as u64)
                },
                Err(e) => {
                    &&& !self.complete_from(root as u64)
                    &&& match e {
                        Error::BlockNotFound(m) => exists|x: u64|
                            #[trigger] self.reaches(root as u64, x) && 0 <= x < self.n_ids()
                                && !self.stored_at(x as int) && m@ == self.cid_at(x as int),
                        _ => false,
                    }
                },
            },
    {
        let n = self.cids.len();
        let mut visited: Vec<bool> = Vec::new();
        let mut f: usize = 0;
        while f < n
            invariant
                0 <= f <= n,
                visited@.len() == f,
                forall|i: int| 0 <= i < f ==> !visited@[i],
            decreases n - f,
        {
            visited.push(false);
            f = f + 1;
        }
        proof {
            lemma_count_false(visited@);
        }
        let ghost blank = visited@;
        let mut stack: Vec<u64> = Vec::new();
        let mut out = Ids::new();
        visited.set(root, true);
        proof {
            lemma_count_true_update(blank, root as int);
        }
        let mut visited_count: usize = 1;
        stack.push(root as u64);
        out.push(Id::from_u64(root as u64));
        proof {
            assert(out@ =~= seq![root as u64]);
            assert(out@[0] == root as u64);
            assert(out@.contains(root as u64));
            assert(self.reaches_n(root as u64, root as u64, 0));
            assert(self.reaches(root as u64, root as u64));
            assert(stack@ =~= seq![root as u64]);
            assert(stack@[0] == root as u64);
            assert forall|i: int|
                0 <= i < n && #[trigger] visited@[i] implies out@.contains(i as u64) by {
                if i != root as int {
                    assert(!blank[i]);
                }
            }
        }
        while stack.len() > 0
            invariant
                self.wf(),
                n == self.n_ids(),
                root < n,
                visited@.len() == n,
                visited_count == count_true(visited@),
                visited_count <= n,
                out.wf(),
                out@.contains(root as u64),
                out@.len() == visited_count,
                forall|x: u64| #[trigger] out@.contains(x) ==> x < n && visited@[x as int],
                forall|i: int| 0 <= i < n && #[trigger] visited@[i] ==> out@.contains(i as u64),
                forall|x: u64| #[trigger] out@.contains(x) ==> self.reaches(root as u64, x),
                stack@.no_duplicates(),
                forall|i: int| 0 <= i < stack@.len() ==> out@.contains(#[trigger] stack@[i]),
                forall|x: u64|
                    #[trigger] out@.contains(x) && !stack@.contains(x) ==> self.has_children(
                        x as int,
                    ) && self.stored_at(x as int),
                forall|x: u64, w: u64|
                    out@.contains(x) && !stack@.contains(x) && #[trigger] self.children_at(
                        x as int,
                    ).contains(w) ==> out@.contains(w),
            decreases n - visited_count, stack@.len(),
        {
            let ghost pre_stack = stack@;
            let x = match stack.pop() {
                Some(x) => x,
                None => {
                    return Err(Error::CodecFailure);
                },
            };
            proof {
                assert(pre_stack[pre_stack.len() - 1] == x);
                assert(pre_stack.contains(x));
                assert(out@.contains(x));
                assert(x < n);
                assert(!stack@.contains(x)) by {
                    if stack@.contains(x) {
                        let i = choose|i: int| 0 <= i < stack@.len() && stack@[i] == x;
                        assert(pre_stack[i] == x);
                        assert(pre_stack[pre_stack.len() - 1] == x);
                    }
                }
            }
            let ghost vc0 = visited_count;
            let ghost sb = stack@.len();
            match &self.children[x as usize] {
                None => {
                    proof {
                        assert(!self.has_children(x as int));
                        assert(!self.stored_at(x as int));
                        assert(self.reaches(root as u64, x));
                        assert(!self.complete_from(root as u64));
                    }
                    return Err(Error::BlockNotFound(self.cids[x as usize].clone()));
                },
                Some(ch) => {
                    proof {
                        assert(self.has_children(x as int));
                        assert(self.children@[x as int].unwrap().wf());
                        assert(self.stored_at(x as int));
                        assert forall|y: u64|
                            #[trigger] out@.contains(y) && !stack@.contains(y) && y != x
                                implies self.has_children(y as int) && self.stored_at(
                                y as int,
                            ) by {
                            assert(!pre_stack.contains(y)) by {
                                if pre_stack.contains(y) {
                                    let i = choose|i: int|
                                        0 <= i < pre_stack.len() && pre_stack[i] == y;
                                    if i < pre_stack.len() - 1 {
                                        assert(stack@[i] == y);
                                    }
                                }
                            }
                        }
                        assert forall|y: u64, w: u64|
                            out@.contains(y) && !stack@.contains(y) && y != x
                                && #[trigger] self.children_at(y as int).contains(w)
                                implies out@.contains(w) by {
                            assert(!pre_stack.contains(y)) by {
                                if pre_stack.contains(y) {
                                    let i = choose|i: int|
                                        0 <= i < pre_stack.len() && pre_stack[i] == y;
                                    if i < pre_stack.len() - 1 {
                                        assert(stack@[i] == y);
                                    }
                                }
                            }
                        }
                    }
                    let cm = ch.len();
                    let mut ii: usize = 0;
                    while ii < cm
                        invariant
                            self.wf(),
                            n == self.n_ids(),
                            root < n,
                            x < n,
                            self.has_children(x as int),
                            self.stored_at(x as int),
                            self.children@[x as int] == Some(*ch),
                            ch.wf(),
                            cm == ch@.len(),
                            0 <= ii <= cm,
                            visited_count >= vc0,
                            stack@.len() == sb + (visited_count - vc0),
                            visited@.len() == n,
                            visited_count == count_true(visited@),
                            visited_count <= n,
                            out.wf(),
                            out@.contains(root as u64),
                            out@.contains(x),
                            out@.len() == visited_count,
                            forall|y: u64| #[trigger]
                                out@.contains(y) ==> y < n && visited@[y as int],
                            forall|i: int|
                                0 <= i < n && #[trigger] visited@[i] ==> out@.contains(i as u64),
                            forall|y: u64| #[trigger]
                                out@.contains(y) ==> self.reaches(root as u64, y),
                            stack@.no_duplicates(),
                            !stack@.contains(x),
                            forall|i: int|
                                0 <= i < stack@.len() ==> out@.contains(#[trigger] stack@[i]),
                            forall|y: u64|
                                #[trigger] out@.contains(y) && !stack@.contains(y) && y != x
                                    ==> self.has_children(y as int) && self.stored_at(y as int),
                            forall|y: u64, w: u64|
                                out@.contains(y) && !stack@.contains(y) && y != x
                                    && #[trigger] self.children_at(y as int).contains(w)
                                    ==> out@.contains(w),
                            forall|j: int| 0 <= j < ii ==> out@.contains(#[trigger] ch@[j]),
                        decreases cm - ii,
                    {
                        let w = ch.get(ii).to_u64();
                        proof {
                            assert(ch@[ii as int] == w);
                            assert(self.children_at(x as int).contains(w));
                            assert(w < n);
                            assert(self.step(x, w));
                            self.lemma_reaches_step(root as u64, x, w);
                        }
                        if !visited[w as usize] {
                            let ghost vis0 = visited@;
                            let ghost stk0 = stack@;
                            let ghost out0 = out@;
                            visited.set(w as usize, true);
                            proof {
                                lemma_count_true_update(vis0, w as int);
                                lemma_count_true_le(visited@);
                            }
                            visited_count = visited_count + 1;
                            stack.push(w);
                            out.push(Id::from_u64(w));
                            proof {
                                assert(!out0.contains(w));
                                assert(out@ =~= out0.push(w));
                                assert(out@.contains(root as u64)) by {
                                    let jdx = choose|jdx: int|
                                        0 <= jdx < out0.len() && out0[jdx] == root as u64;
                                    assert(out@[jdx] == root as u64);
                                }
                                assert(out@.contains(x)) by {
                                    let jdx = choose|jdx: int|
                                        0 <= jdx < out0.len() && out0[jdx] == x;
                                    assert(out@[jdx] == x);
                                }
                                assert forall|i2: int|
                                    0 <= i2 < stack@.len() implies out@.contains(
                                    #[trigger] stack@[i2],
                                ) by {
                                    if i2 < stack@.len() - 1 {
                                        assert(stack@[i2] == stk0[i2]);
                                        assert(out0.contains(stk0[i2]));
                                        let jdx = choose|jdx: int|
                                            0 <= jdx < out0.len() && out0[jdx] == stk0[i2];
                                        assert(out@[jdx] == stk0[i2]);
                                    } else {
                                        assert(stack@[i2] == w);
                                        assert(out@[out@.len() - 1] == w);
                                    }
                                }
                                assert forall|j2: int|
                                    0 <= j2 < ii + 1 implies out@.contains(
                                    #[trigger] ch@[j2],
                                ) by {
                                    if j2 < ii {
                                        assert(out0.contains(ch@[j2]));
                                        let jdx = choose|jdx: int|
                                            0 <= jdx < out0.len() && out0[jdx] == ch@[j2];
                                        assert(out@[jdx] == ch@[j2]);
                                    } else {
                                        assert(ch@[j2] == w);
                                        assert(out@[out@.len() - 1] == w);
                                    }
                                }
                                assert forall|y: u64| #[trigger]
                                    out@.contains(y) implies y < n && visited@[y as int] by {
                                    if y != w {
                                        assert(out0.contains(y));
                                        assert(vis0[y as int]);
                                    }
                                }
                                assert forall|i: int|
                                    0 <= i < n && #[trigger] visited@[i] implies out@.contains(
                                    i as u64,
                                ) by {
                                    if i != w as int {
                                        assert(vis0[i]);
                                        assert(out0.contains(i as u64));
                                        let jdx = choose|jdx: int|
                                            0 <= jdx < out0.len() && out0[jdx] == i as u64;
                                        assert(out@[jdx] == i as u64);
                                    } else {
                                        assert(out@[out@.len() - 1] == w);
                                    }
                                }
                                assert(stack@ =~= stk0.push(w));
                                assert(stack@.no_duplicates()) by {
                                    assert(!stk0.contains(w)) by {
                                        if stk0.contains(w) {
                                            assert(out0.contains(w));
                                        }
                                    }
                                    assert forall|i: int, j: int|
                                        0 <= i < stack@.len() && 0 <= j < stack@.len() && i != j
                                            implies stack@[i] != stack@[j] by {
                                        if i < stack@.len() - 1 && j < stack@.len() - 1 {
                                            assert(stk0[i] != stk0[j]);
                                        } else if i == stack@.len() - 1 && j < stack@.len() - 1 {
                                            assert(stack@[j] == stk0[j] && stk0.contains(stk0[j]));
                                        } else if j == stack@.len() - 1 && i < stack@.len() - 1 {
                                            assert(stack@[i] == stk0[i] && stk0.contains(stk0[i]));
                                        }
                                    }
                                }
                                assert forall|y: u64|
                                    #[trigger] out@.contains(y) && !stack@.contains(y) && y != x
                                        implies self.has_children(y as int) && self.stored_at(
                                        y as int,
                                    ) by {
                                    assert(y != w) by {
                                        if y == w {
                                            assert(stack@[stack@.len() - 1] == w);
                                        }
                                    }
                                    assert(out0.contains(y));
                                    assert(!stk0.contains(y)) by {
                                        if stk0.contains(y) {
                                            let i = choose|i: int|
                                                0 <= i < stk0.len() && stk0[i] == y;
                                            assert(stack@[i] == y);
                                        }
                                    }
                                }
                                assert forall|y: u64, w2: u64|
                                    out@.contains(y) && !stack@.contains(y) && y != x
                                        && #[trigger] self.children_at(y as int).contains(w2)
                                        implies out@.contains(w2) by {
                                    assert(y != w) by {
                                        if y == w {
                                            assert(stack@[stack@.len() - 1] == w);
                                        }
                                    }
                                    assert(out0.contains(y));
                                    assert(!stk0.contains(y)) by {
                                        if stk0.contains(y) {
                                            let i = choose|i: int|
                                                0 <= i < stk0.len() && stk0[i] == y;
                                            assert(stack@[i] == y);
                                        }
                                    }
                                    assert(out0.contains(w2));
                                    let jdx = choose|jdx: int|
                                        0 <= jdx < out0.len() && out0[jdx] == w2;
                                    assert(out@[jdx] == w2);
                                }
                            }
                        } else {
                            proof {
                                assert(visited@[w as int]);
                                assert(out@.contains(w));
                            }
                        }
                        ii = ii + 1;
                    }
                    proof {
                        assert forall|w: u64| #[trigger]
                            self.children_at(x as int).contains(w) implies out@.contains(w) by {
                            let j = choose|j: int| 0 <= j < ch@.len() && ch@[j] == w;
                            assert(out@.contains(ch@[j]));
                        }
                        assert forall|y: u64|
                            #[trigger] out@.contains(y) && !stack@.contains(y)
                                implies self.has_children(y as int) && self.stored_at(
                                y as int,
                            ) by {
                            if y != x {
                            }
                        }
                    }
                },
            }
        }
        proof {
            assert forall|j: u64| #[trigger]
                self.reaches(root as u64, j) implies out@.contains(j) by {
                let nn = choose|nn: nat| #[trigger] self.reaches_n(root as u64, j, nn);
                assert forall|y: u64| #[trigger] out@.contains(y) implies self.has_children(
                    y as int,
                ) by {
                    assert(!stack@.contains(y));
                }
                self.lemma_closed_contains(root as u64, out@, j, nn);
            }
            assert forall|j: u64| #[trigger]
                self.reaches(root as u64, j) implies 0 <= j < self.n_ids() && self.stored_at(
                j as int,
            ) by {
                assert(out@.contains(j));
                assert(!stack@.contains(j));
            }
        }
        Ok(out)
    }

    /// Find the record index of an alias by name.
    fn find_alias(&self, name: &Vec<u8>) -> (r: Option<usize>)
        requires
            self.wf(),
        ensures
            match r {
                Some(k) => 0 <= k < self.n_aliases() && self.aliases@[k as int].name@ == name@
                    && k == self.alias_idx(name@) && self.has_alias(name@),
                None => !self.has_alias(name@),
            },
    {
        let m = self.aliases.len();
        let mut k: usize = 0;
        while k < m
            invariant
                self.wf(),
                m == self.n_aliases(),
                0 <= k <= m,
                forall|j: int| 0 <= j < k ==> self.aliases@[j].name@ != name@,
            decreases m - k,
        {
            if bytes_eq(&self.aliases[k].name, name) {
                proof {
                    assert(self.aliases@[k as int].name@ == name@);
                    assert(self.has_alias(name@));
                    let w = self.alias_idx(name@);
                    assert(self.aliases@[w].name@ == name@);
                    assert(w == k);
                }
                return Some(k);
            }
            k = k + 1;
        }
        None
    }
}

/// Reachability depends only on the assigned ids and children tables.
proof fn lemma_reaches_n_same(a: StorageService, b: StorageService, i: u64, j: u64, n: nat)
    requires
        a.cids@.len() == b.cids@.len(),
        a.children@ == b.children@,
        a.reaches_n(i, j, n),
    ensures
        b.reaches_n(i, j, n),
    decreases n,
{
    if i != j {
        let k = choose|k: u64| a.step(i, k) && a.reaches_n(k, j, (n - 1) as nat);
        lemma_reaches_n_same(a, b, k, j, (n - 1) as nat);
        assert(b.step(i, k) && b.reaches_n(k, j, (n - 1) as nat));
    }
}

proof fn lemma_reaches_same(a: StorageService, b: StorageService)
    requires
        a.cids@.len() == b.cids@.len(),
        a.children@ == b.children@,
    ensures
        forall|i: u64, j: u64| #[trigger] b.reaches(i, j) == a.reaches(i, j),
{
    assert forall|i: u64, j: u64| #[trigger] b.reaches(i, j) == a.reaches(i, j) by {
        if a.reaches(i, j) {
            let n = choose|n: nat| #[trigger] a.reaches_n(i, j, n);
            lemma_reaches_n_same(a, b, i, j, n);
            assert(b.reaches_n(i, j, n));
        }
        if b.reaches(i, j) {
            let n = choose|n: nat| #[trigger] b.reaches_n(i, j, n);
            lemma_reaches_n_same(b, a, i, j, n);
            assert(a.reaches_n(i, j, n));
        }
    }
}

/// Law: the CID to internal id mapping is a bijection for the life of
/// the store — the id assigned to a CID names that CID back.
pub proof fn lemma_cid_of_id(s: StorageService, c: Seq<u8>)
    requires
        s.wf(),
        s.has_id(c),
    ensures
        0 <= s.id_of(c) < s.n_ids(),
        s.cid_at(s.id_of(c)) == c,
        forall|i: int| 0 <= i < s.n_ids() && s.cid_at(i) == c ==> i == s.id_of(c),
{
    let w = s.id_of(c);
    assert(0 <= w < s.n_ids() && s.cid_at(w) == c);
    assert forall|i: int| 0 <= i < s.n_ids() && s.cid_at(i) == c implies i == w by {
        assert(s.cid_at(i) == s.cid_at(w));
    }
}

/// Law: for every alias and every id reachable from its root over the
/// persisted children links, the id is pinned.
pub proof fn lemma_alias_pins_reachable(s: StorageService, name: Seq<u8>, x: u64)
    requires
        s.wf(),
        s.has_alias(name),
        s.reaches(s.alias_root(name), x),
    ensures
        s.pinned_id(x),
{
    let k = s.alias_idx(name);
    assert(0 <= k < s.n_aliases() && s.aliases@[k].name@ == name);
    assert(s.alias_rec_ok(k));
    let rec = s.aliases@[k];
    let n = choose|n: nat| #[trigger] s.reaches_n(s.alias_root(name), x, n);
    assert forall|v: u64| #[trigger] rec.reachable@.contains(v) implies s.has_children(
        v as int,
    ) by {
    }
    s.lemma_closed_contains(rec.root, rec.reachable@, x, n);
    assert(s.aliases@[k].reachable@.contains(x));
}

impl StorageService {
    /// Everything the alias operations leave untouched: the id
    /// assignment, the stored blocks, the children tables, the event
    /// log, and the cache bound.
    spec fn same_blocks(&self, other: &StorageService) -> bool {
        &&& self.cids@ == other.cids@
        &&& self.data@ == other.data@
        &&& self.children@ == other.children@
        &&& self.events@ == other.events@
        &&& self.cache_size == other.cache_size
    }

    /// Point a user-named alias at a root, or clear it. Setting a root
    /// requires the whole DAG under it to be present locally; the first
    /// missing descendant is reported otherwise and nothing changes.
    /// Clearing always succeeds and unpins whatever only this alias
    /// reached.
    #[verifier::rlimit(100)]
    #[verifier::spinoff_prover]
    pub fn alias(&mut self, name: &Vec<u8>, cid: Option<&Cid>) -> (r: Result<(), Error>)
        requires
            old(self).wf(),
        ensures
            final(self).wf(),
            forall|x: Seq<u8>| #[trigger] final(self).stored(x) == old(self).stored(x),
            forall|x: Seq<u8>| #[trigger] final(self).has_id(x) == old(self).has_id(x),
            forall|x: Seq<u8>|
                old(self).has_id(x) ==> #[trigger] final(self).id_of(x) == old(self).id_of(x),
            final(self).event_log() == old(self).event_log(),
            final(self).cache_limit() == old(self).cache_limit(),
            forall|i: u64, j: u64| #[trigger] final(self).reaches(i, j) == old(self).reaches(i, j),
            match cid {
                None => {
                    &&& r is Ok
                    &&& !final(self).has_alias(name@)
                    &&& forall|n2: Seq<u8>|
                        n2 != name@ ==> #[trigger] final(self).has_alias(n2) == old(self).has_alias(n2)
                    &&& forall|n2: Seq<u8>|
                        n2 != name@ && old(self).has_alias(n2) ==> #[trigger] final(self).alias_root(n2)
                            == old(self).alias_root(n2) && final(self).alias_set(n2) == old(self).alias_set(n2)
                    &&& forall|v: u64| #[trigger]
                        final(self).pinned_id(v) == old(self).pinned_excluding(name@, v)
                },
                Some(c) => {
                    &&& (r is Ok <==> old(self).dag_complete(c@))
                    &&& (r is Ok ==> {
                        &&& final(self).has_alias(name@)
                        &&& final(self).alias_root(name@) as int == old(self).id_of(c@)
                        &&& forall|v: u64| #[trigger]
                            final(self).alias_set(name@).contains(v) <==> old(self).reaches(old(self).id_of(c@) as u64, v)
                        &&& forall|n2: Seq<u8>|
                            n2 != name@ ==> #[trigger] final(self).has_alias(n2) == old(self).has_alias(n2)
                        &&& forall|n2: Seq<u8>|
                            n2 != name@ && old(self).has_alias(n2) ==> #[trigger] final(self).alias_root(n2)
                                == old(self).alias_root(n2) && final(self).alias_set(n2) == old(self).alias_set(n2)
                        &&& forall|v: u64| #[trigger]
                            final(self).pinned_id(v) == (old(self).reaches(old(self).id_of(c@) as u64, v)
                                || old(self).pinned_excluding(name@, v))
                    })
                    &&& match r {
                        Ok(_) => true,
                        Err(Error::BlockNotFound(m)) => (forall|n2: Seq<u8>| #[trigger]
                            final(self).has_alias(n2) == old(self).has_alias(n2)) && (forall|
                            n2: Seq<u8>,
                        |
                            old(self).has_alias(n2) ==> #[trigger] final(self).alias_root(n2)
                                == old(self).alias_root(n2) && final(self).alias_set(n2) == old(self).alias_set(n2)) && (forall|v: u64| #[trigger]
                            final(self).pinned_id(v) == old(self).pinned_id(v)) && old(self).stored(m@) is None,
                        Err(_) => false,
                    }
                },
            },
    {
        match cid {
            None => {
                match self.find_alias(name) {
                    Some(k) => {
                        let ghost before = *self;
                        proof {
                            assert(self.alias_rec_ok(k as int));
                        }
                        let rec_len = self.aliases[k].reachable.len();
                        let mut i: usize = 0;
                        while i < rec_len
                            invariant
                                before.wf(),
                                self.wf(),
                                self.same_blocks(&before),
                                self.aliases@ == before.aliases@,
                                0 <= k < self.n_aliases(),
                                rec_len == self.aliases@[k as int].reachable@.len(),
                                0 <= i <= rec_len,
                            decreases rec_len - i,
                        {
                            proof {
                                assert(self.alias_rec_ok(k as int));
                            }
                            let id = self.aliases[k].reachable.get(i);
                            self.live.delete(&id);
                            proof {
                                self.lemma_wf_same(before);
                            }
                            i = i + 1;
                        }
                        let ghost pre = *self;
                        self.aliases.remove(k);
                        proof {
                            self.lemma_alias_slot_gone(*old(self), k as int, name@);
                            lemma_reaches_same(*old(self), *self);
                            self.lemma_model_same_blocks_only(*old(self));
                        }
                        Ok(())
                    },
                    None => {
                        proof {
                            assert forall|v: u64| #[trigger]
                                self.pinned_id(v) == old(self).pinned_excluding(name@, v) by {
                                if self.pinned_id(v) {
                                    let kk = choose|kk: int|
                                        0 <= kk < self.n_aliases()
                                            && self.aliases@[kk].reachable@.contains(v);
                                    assert(self.aliases@[kk].name@ != name@);
                                }
                            }
                        }
                        Ok(())
                    },
                }
            },
            Some(c) => {
                let root = match self.lookup_id(c) {
                    Some(v) => v,
                    None => {
                        proof {
                            assert(!self.dag_complete(c@));
                        }
                        return Err(Error::BlockNotFound(c.clone()));
                    },
                };
                let reach = match self.reach_from(root) {
                    Ok(o) => o,
                    Err(e) => {
                        proof {
                            assert(!self.complete_from(root as u64));
                            assert(!self.dag_complete(c@));
                            if let Error::BlockNotFound(m) = &e {
                                let x = choose|x: u64|
                                    #[trigger] self.reaches(root as u64, x) && 0 <= x
                                        < self.n_ids() && !self.stored_at(x as int) && m@
                                        == self.cid_at(x as int);
                                assert(self.has_id(m@));
                                let w = self.id_of(m@);
                                assert(self.cid_at(w) == m@ && self.cid_at(x as int) == m@);
                                assert(w == x as int);
                                assert(self.stored(m@) is None);
                            }
                        }
                        return Err(e);
                    },
                };
                let ghost start = *self;
                let reach_len = reach.len();
                let mut i: usize = 0;
                while i < reach_len
                    invariant
                        start.wf(),
                        self.wf(),
                        self.same_blocks(&start),
                        self.aliases@ == start.aliases@,
                        reach.wf(),
                        reach_len == reach@.len(),
                        0 <= i <= reach_len,
                    decreases reach_len - i,
                {
                    let id = reach.get(i);
                    if self.live.len() < usize::MAX {
                        let _ = self.live.add(&id);
                    }
                    proof {
                        self.lemma_wf_same(start);
                    }
                    i = i + 1;
                }
                let existing = self.find_alias(name);
                match existing {
                    Some(k) => {
                        proof {
                            assert(self.alias_rec_ok(k as int));
                        }
                        let rec_len = self.aliases[k].reachable.len();
                        let mut i2: usize = 0;
                        while i2 < rec_len
                            invariant
                                start.wf(),
                                self.wf(),
                                self.same_blocks(&start),
                                self.aliases@ == start.aliases@,
                                0 <= k < self.n_aliases(),
                                rec_len == self.aliases@[k as int].reachable@.len(),
                                0 <= i2 <= rec_len,
                            decreases rec_len - i2,
                        {
                            proof {
                                assert(self.alias_rec_ok(k as int));
                            }
                            let id = self.aliases[k].reachable.get(i2);
                            self.live.delete(&id);
                            proof {
                                self.lemma_wf_same(start);
                            }
                            i2 = i2 + 1;
                        }
                        let rec = AliasRec {
                            name: clone_bytes(name),
                            root: root as u64,
                            reachable: reach,
                        };
                        let ghost pre = *self;
                        self.aliases.set(k, rec);
                        proof {
                            self.lemma_alias_slot_set(*old(self), k as int, name@, root as u64);
                            lemma_reaches_same(*old(self), *self);
                            self.lemma_model_same_blocks_only(*old(self));
                        }
                        Ok(())
                    },
                    None => {
                        let rec = AliasRec {
                            name: clone_bytes(name),
                            root: root as u64,
                            reachable: reach,
                        };
                        let ghost pre = *self;
                        self.aliases.push(rec);
                        proof {
                            self.lemma_alias_slot_pushed(*old(self), name@, root as u64);
                            lemma_reaches_same(*old(self), *self);
                            self.lemma_model_same_blocks_only(*old(self));
                        }
                        Ok(())
                    },
                }
            },
        }
    }
}

impl StorageService {
    /// The per-id invariant conjuncts carry over between states that
    /// agree on all block tables.
    proof fn lemma_wf_blocks(&self, base: StorageService)
        requires
            base.wf(),
            self.cids@ == base.cids@,
            self.data@ == base.data@,
            self.children@ == base.children@,
        ensures
            self.data@.len() == self.n_ids(),
            self.children@.len() == self.n_ids(),
            forall|i: int|
                0 <= i < self.n_ids() ==> (self.has_children(i) <==> #[trigger] self.stored_at(
                    i,
                )),
            forall|i: int|
                0 <= i < self.n_ids() && #[trigger] self.has_children(i)
                    ==> self.children@[i].unwrap().wf(),
            forall|i: int, v: u64|
                0 <= i < self.n_ids() && self.has_children(i) && #[trigger] self.children_at(
                    i,
                ).contains(v) ==> v < self.n_ids(),
            forall|i: int, j: int|
                0 <= i < self.n_ids() && 0 <= j < self.n_ids() && self.cid_at(i) == self.cid_at(j)
                    ==> i == j,
    {
        assert forall|i: int|
            0 <= i < self.n_ids() implies (self.has_children(i) <==> #[trigger] self.stored_at(
                i,
            )) by {
            assert(base.has_children(i) <==> base.stored_at(i));
        }
        assert forall|i: int|
            0 <= i < self.n_ids() && #[trigger] self.has_children(i)
                implies self.children@[i].unwrap().wf() by {
            assert(base.has_children(i));
            assert(base.children@[i].unwrap().wf());
        }
        assert forall|i: int, v: u64|
            0 <= i < self.n_ids() && self.has_children(i) && #[trigger] self.children_at(
                i,
            ).contains(v) implies v < self.n_ids() by {
            assert(base.has_children(i));
            assert(base.children_at(i).contains(v));
        }
        assert forall|i: int, j: int|
            0 <= i < self.n_ids() && 0 <= j < self.n_ids() && self.cid_at(i) == self.cid_at(
                j,
            ) implies i == j by {
            assert(base.cid_at(i) == base.cid_at(j));
        }
    }

    /// One alias record's sanity carries over between states that agree
    /// on the block tables, for a record both hold.
    proof fn lemma_rec_ok_transfer(&self, base: StorageService, k2: int, ko: int)
        requires
            base.wf(),
            self.cids@ == base.cids@,
            self.data@ == base.data@,
            self.children@ == base.children@,
            0 <= k2 < self.n_aliases(),
            0 <= ko < base.n_aliases(),
            self.aliases@[k2] == base.aliases@[ko],
        ensures
            self.alias_rec_ok(k2),
    {
        assert(base.alias_rec_ok(ko));
        assert forall|v: u64| #[trigger]
            self.aliases@[k2].reachable@.contains(v) implies v < self.n_ids()
            && self.has_children(v as int) by {
            assert(base.aliases@[ko].reachable@.contains(v));
            assert(base.has_children(v as int));
        }
        assert forall|v: u64, w: u64|
            self.aliases@[k2].reachable@.contains(v) && #[trigger] self.children_at(
                v as int,
            ).contains(w) implies self.aliases@[k2].reachable@.contains(w) by {
            assert(base.aliases@[ko].reachable@.contains(v));
            assert(base.children_at(v as int).contains(w));
            assert(base.aliases@[ko].reachable@.contains(w));
        }
    }

    /// After removing the record of `name`, the store is sound, the
    /// alias is gone, the others are untouched, and pinned is exactly
    /// "pinned by some other alias".
    proof fn lemma_alias_slot_gone(&self, base: StorageService, k: int, name: Seq<u8>)
        requires
            base.wf(),
            self.same_blocks(&base),
            0 <= k < base.n_aliases(),
            base.aliases@[k].name@ == name,
            self.aliases@ == base.aliases@.remove(k),
        ensures
            self.wf(),
            !self.has_alias(name),
            forall|n2: Seq<u8>|
                n2 != name ==> #[trigger] self.has_alias(n2) == base.has_alias(n2),
            forall|n2: Seq<u8>|
                n2 != name && base.has_alias(n2) ==> #[trigger] self.alias_root(n2)
                    == base.alias_root(n2) && self.alias_set(n2) == base.alias_set(n2),
            forall|v: u64| #[trigger] self.pinned_id(v) == base.pinned_excluding(name, v),
    {
        self.lemma_wf_blocks(base);
        assert(self.n_aliases() == base.n_aliases() - 1);
        assert forall|k2: int| 0 <= k2 < self.n_aliases() implies #[trigger] self.alias_rec_ok(
            k2,
        ) by {
            let ko = if k2 < k {
                k2
            } else {
                k2 + 1
            };
            assert(self.aliases@[k2] == base.aliases@[ko]);
            self.lemma_rec_ok_transfer(base, k2, ko);
        }
        assert forall|k1: int, k2: int|
            0 <= k1 < self.n_aliases() && 0 <= k2 < self.n_aliases() && self.aliases@[k1].name@
                == self.aliases@[k2].name@ implies k1 == k2 by {
            let ko1 = if k1 < k {
                k1
            } else {
                k1 + 1
            };
            let ko2 = if k2 < k {
                k2
            } else {
                k2 + 1
            };
            assert(self.aliases@[k1] == base.aliases@[ko1]);
            assert(self.aliases@[k2] == base.aliases@[ko2]);
            assert(base.aliases@[ko1].name@ == base.aliases@[ko2].name@);
        }
        assert(self.wf());
        assert(!self.has_alias(name)) by {
            if self.has_alias(name) {
                let k2 = choose|k2: int|
                    0 <= k2 < self.n_aliases() && self.aliases@[k2].name@ == name;
                let ko = if k2 < k {
                    k2
                } else {
                    k2 + 1
                };
                assert(self.aliases@[k2] == base.aliases@[ko]);
                assert(base.aliases@[ko].name@ == name && base.aliases@[k].name@ == name);
                assert(ko == k);
            }
        }
        assert forall|n2: Seq<u8>|
            n2 != name implies #[trigger] self.has_alias(n2) == base.has_alias(n2) by {
            if base.has_alias(n2) {
                let ko = base.alias_idx(n2);
                assert(base.aliases@[ko].name@ == n2);
                assert(ko != k);
                let k2 = if ko < k {
                    ko
                } else {
                    ko - 1
                };
                assert(self.aliases@[k2] == base.aliases@[ko]);
                assert(self.has_alias(n2));
            }
            if self.has_alias(n2) {
                let k2 = self.alias_idx(n2);
                assert(self.aliases@[k2].name@ == n2);
                let ko = if k2 < k {
                    k2
                } else {
                    k2 + 1
                };
                assert(base.aliases@[ko] == self.aliases@[k2]);
                assert(base.has_alias(n2));
            }
        }
        assert forall|n2: Seq<u8>|
            n2 != name && base.has_alias(n2) implies #[trigger] self.alias_root(n2)
                == base.alias_root(n2) && self.alias_set(n2) == base.alias_set(n2) by {
            let ko = base.alias_idx(n2);
            assert(base.aliases@[ko].name@ == n2);
            assert(ko != k);
            let k2 = if ko < k {
                ko
            } else {
                ko - 1
            };
            assert(self.aliases@[k2] == base.aliases@[ko]);
            assert(self.has_alias(n2));
            let kx = self.alias_idx(n2);
            assert(self.aliases@[kx].name@ == n2);
            assert(kx == k2);
        }
        assert forall|v: u64| #[trigger]
            self.pinned_id(v) == base.pinned_excluding(name, v) by {
            if self.pinned_id(v) {
                let k2 = choose|k2: int|
                    0 <= k2 < self.n_aliases() && self.aliases@[k2].reachable@.contains(v);
                let ko = if k2 < k {
                    k2
                } else {
                    k2 + 1
                };
                assert(self.aliases@[k2] == base.aliases@[ko]);
                assert(base.aliases@[ko].name@ != name) by {
                    if base.aliases@[ko].name@ == name {
                        assert(base.aliases@[k].name@ == name);
                        assert(ko == k);
                    }
                }
                assert(base.pinned_excluding(name, v));
            }
            if base.pinned_excluding(name, v) {
                let ko = choose|ko: int|
                    0 <= ko < base.n_aliases() && base.aliases@[ko].name@ != name
                        && base.aliases@[ko].reachable@.contains(v);
                assert(ko != k);
                let k2 = if ko < k {
                    ko
                } else {
                    ko - 1
                };
                assert(self.aliases@[k2] == base.aliases@[ko]);
                assert(self.pinned_id(v));
            }
        }
    }
}

impl StorageService {
    /// Common facts for a freshly written record: it is sane, the alias
    /// resolves to it, the others are untouched, and pinned becomes
    /// "reachable from the new root, or pinned by some other alias".
    proof fn lemma_new_rec_ok(&self, base: StorageService, k: int, name: Seq<u8>, root: u64)
        requires
            base.wf(),
            self.same_blocks(&base),
            0 <= k < self.n_aliases(),
            self.aliases@[k].name@ == name,
            self.aliases@[k].root == root,
            self.aliases@[k].reachable.wf(),
            root < base.n_ids(),
            base.complete_from(root),
            forall|v: u64| #[trigger]
                self.aliases@[k].reachable@.contains(v) <==> base.reaches(root, v),
        ensures
            self.alias_rec_ok(k),
    {
        assert(base.reaches_n(root, root, 0));
        assert(base.reaches(root, root));
        assert(self.aliases@[k].reachable@.contains(root));
        assert forall|v: u64| #[trigger]
            self.aliases@[k].reachable@.contains(v) implies v < self.n_ids()
            && self.has_children(v as int) by {
            assert(base.reaches(root, v));
            assert(base.stored_at(v as int));
            assert(base.has_children(v as int));
        }
        assert forall|v: u64, w: u64|
            self.aliases@[k].reachable@.contains(v) && #[trigger] self.children_at(
                v as int,
            ).contains(w) implies self.aliases@[k].reachable@.contains(w) by {
            assert(base.reaches(root, v));
            assert(base.stored_at(v as int) && base.has_children(v as int));
            assert(base.children_at(v as int).contains(w));
            assert(base.step(v, w));
            base.lemma_reaches_step(root, v, w);
            assert(base.reaches(root, w));
        }
    }

    /// After overwriting the record of `name` in place.
    proof fn lemma_alias_slot_set(&self, base: StorageService, k: int, name: Seq<u8>, root: u64)
        requires
            base.wf(),
            self.same_blocks(&base),
            0 <= k < base.n_aliases(),
            base.aliases@[k].name@ == name,
            self.aliases@.len() == base.aliases@.len(),
            forall|k2: int|
                0 <= k2 < base.n_aliases() && k2 != k ==> self.aliases@[k2] == base.aliases@[k2],
            self.aliases@[k].name@ == name,
            self.aliases@[k].root == root,
            self.aliases@[k].reachable.wf(),
            root < base.n_ids(),
            base.complete_from(root),
            forall|v: u64| #[trigger]
                self.aliases@[k].reachable@.contains(v) <==> base.reaches(root, v),
        ensures
            self.wf(),
            self.has_alias(name),
            self.alias_root(name) == root,
            forall|v: u64| #[trigger]
                self.alias_set(name).contains(v) <==> base.reaches(root, v),
            forall|n2: Seq<u8>|
                n2 != name ==> #[trigger] self.has_alias(n2) == base.has_alias(n2),
            forall|n2: Seq<u8>|
                n2 != name && base.has_alias(n2) ==> #[trigger] self.alias_root(n2)
                    == base.alias_root(n2) && self.alias_set(n2) == base.alias_set(n2),
            forall|v: u64| #[trigger]
                self.pinned_id(v) == (base.reaches(root, v) || base.pinned_excluding(name, v)),
    {
        self.lemma_wf_blocks(base);
        assert forall|k2: int| 0 <= k2 < self.n_aliases() implies #[trigger] self.alias_rec_ok(
            k2,
        ) by {
            if k2 == k {
                self.lemma_new_rec_ok(base, k, name, root);
            } else {
                self.lemma_rec_ok_transfer(base, k2, k2);
            }
        }
        assert forall|k1: int, k2: int|
            0 <= k1 < self.n_aliases() && 0 <= k2 < self.n_aliases() && self.aliases@[k1].name@
                == self.aliases@[k2].name@ implies k1 == k2 by {
            assert(self.aliases@[k1].name@ == base.aliases@[k1].name@);
            assert(self.aliases@[k2].name@ == base.aliases@[k2].name@);
        }
        assert(self.wf());
        assert(self.aliases@[k].name@ == name);
        assert(self.has_alias(name));
        let kx = self.alias_idx(name);
        assert(self.aliases@[kx].name@ == name);
        assert(kx == k);
        assert forall|n2: Seq<u8>|
            n2 != name implies #[trigger] self.has_alias(n2) == base.has_alias(n2) by {
            if base.has_alias(n2) {
                let ko = base.alias_idx(n2);
                assert(base.aliases@[ko].name@ == n2);
                assert(ko != k);
                assert(self.aliases@[ko].name@ == n2);
            }
            if self.has_alias(n2) {
                let kz = self.alias_idx(n2);
                assert(self.aliases@[kz].name@ == n2);
                assert(kz != k);
                assert(base.aliases@[kz].name@ == n2);
            }
        }
        assert forall|n2: Seq<u8>|
            n2 != name && base.has_alias(n2) implies #[trigger] self.alias_root(n2)
                == base.alias_root(n2) && self.alias_set(n2) == base.alias_set(n2) by {
            let ko = base.alias_idx(n2);
            assert(base.aliases@[ko].name@ == n2);
            assert(ko != k);
            assert(self.aliases@[ko] == base.aliases@[ko]);
            assert(self.has_alias(n2));
            let kz = self.alias_idx(n2);
            assert(self.aliases@[kz].name@ == n2);
            assert(kz == ko);
        }
        assert forall|v: u64| #[trigger]
            self.pinned_id(v) == (base.reaches(root, v) || base.pinned_excluding(name, v)) by {
            if self.pinned_id(v) {
                let k2 = choose|k2: int|
                    0 <= k2 < self.n_aliases() && self.aliases@[k2].reachable@.contains(v);
                if k2 == k {
                    assert(base.reaches(root, v));
                } else {
                    assert(self.aliases@[k2] == base.aliases@[k2]);
                    assert(base.aliases@[k2].name@ != name) by {
                        if base.aliases@[k2].name@ == name {
                            assert(base.aliases@[k].name@ == name);
                        }
                    }
                    assert(base.pinned_excluding(name, v));
                }
            }
            if base.reaches(root, v) {
                assert(self.aliases@[k].reachable@.contains(v));
                assert(self.pinned_id(v));
            }
            if base.pinned_excluding(name, v) {
                let ko = choose|ko: int|
                    0 <= ko < base.n_aliases() && base.aliases@[ko].name@ != name
                        && base.aliases@[ko].reachable@.contains(v);
                assert(ko != k);
                assert(self.aliases@[ko] == base.aliases@[ko]);
                assert(self.pinned_id(v));
            }
        }
    }

    /// After appending a record for a name no alias used.
    proof fn lemma_alias_slot_pushed(&self, base: StorageService, name: Seq<u8>, root: u64)
        requires
            base.wf(),
            self.same_blocks(&base),
            !base.has_alias(name),
            self.aliases@.len() == base.aliases@.len() + 1,
            forall|k2: int|
                0 <= k2 < base.n_aliases() ==> self.aliases@[k2] == base.aliases@[k2],
            self.aliases@[base.n_aliases()].name@ == name,
            self.aliases@[base.n_aliases()].root == root,
            self.aliases@[base.n_aliases()].reachable.wf(),
            root < base.n_ids(),
            base.complete_from(root),
            forall|v: u64| #[trigger]
                self.aliases@[base.n_aliases()].reachable@.contains(v) <==> base.reaches(root, v),
        ensures
            self.wf(),
            self.has_alias(name),
            self.alias_root(name) == root,
            forall|v: u64| #[trigger]
                self.alias_set(name).contains(v) <==> base.reaches(root, v),
            forall|n2: Seq<u8>|
                n2 != name ==> #[trigger] self.has_alias(n2) == base.has_alias(n2),
            forall|n2: Seq<u8>|
                n2 != name && base.has_alias(n2) ==> #[trigger] self.alias_root(n2)
                    == base.alias_root(n2) && self.alias_set(n2) == base.alias_set(n2),
            forall|v: u64| #[trigger]
                self.pinned_id(v) == (base.reaches(root, v) || base.pinned_excluding(name, v)),
    {
        let k = base.n_aliases();
        self.lemma_wf_blocks(base);
        assert forall|k2: int| 0 <= k2 < self.n_aliases() implies #[trigger] self.alias_rec_ok(
            k2,
        ) by {
            if k2 == k {
                self.lemma_new_rec_ok(base, k, name, root);
            } else {
                self.lemma_rec_ok_transfer(base, k2, k2);
            }
        }
        assert forall|k1: int, k2: int|
            0 <= k1 < self.n_aliases() && 0 <= k2 < self.n_aliases() && self.aliases@[k1].name@
                == self.aliases@[k2].name@ implies k1 == k2 by {
            if k1 < k && k2 < k {
                assert(base.aliases@[k1].name@ == base.aliases@[k2].name@);
            } else if k1 < k && k2 == k {
                assert(base.aliases@[k1].name@ == name);
                assert(base.has_alias(name));
            } else if k1 == k && k2 < k {
                assert(base.aliases@[k2].name@ == name);
                assert(base.has_alias(name));
            }
        }
        assert(self.wf());
        assert(self.aliases@[k].name@ == name);
        assert(self.has_alias(name));
        let kx = self.alias_idx(name);
        assert(self.aliases@[kx].name@ == name);
        assert(kx == k);
        assert forall|n2: Seq<u8>|
            n2 != name implies #[trigger] self.has_alias(n2) == base.has_alias(n2) by {
            if base.has_alias(n2) {
                let ko = base.alias_idx(n2);
                assert(base.aliases@[ko].name@ == n2);
                assert(self.aliases@[ko].name@ == n2);
            }
            if self.has_alias(n2) {
                let kz = self.alias_idx(n2);
                assert(self.aliases@[kz].name@ == n2);
                assert(kz != k);
                assert(base.aliases@[kz].name@ == n2);
            }
        }
        assert forall|n2: Seq<u8>|
            n2 != name && base.has_alias(n2) implies #[trigger] self.alias_root(n2)
                == base.alias_root(n2) && self.alias_set(n2) == base.alias_set(n2) by {
            let ko = base.alias_idx(n2);
            assert(base.aliases@[ko].name@ == n2);
            assert(self.aliases@[ko] == base.aliases@[ko]);
            assert(self.has_alias(n2));
            let kz = self.alias_idx(n2);
            assert(self.aliases@[kz].name@ == n2);
            assert(kz == ko);
        }
        assert forall|v: u64| #[trigger]
            self.pinned_id(v) == (base.reaches(root, v) || base.pinned_excluding(name, v)) by {
            if self.pinned_id(v) {
                let k2 = choose|k2: int|
                    0 <= k2 < self.n_aliases() && self.aliases@[k2].reachable@.contains(v);
                if k2 == k {
                    assert(base.reaches(root, v));
                } else {
                    assert(self.aliases@[k2] == base.aliases@[k2]);
                    assert(base.aliases@[k2].name@ != name) by {
                        if base.aliases@[k2].name@ == name {
                            assert(base.has_alias(name));
                        }
                    }
                    assert(base.pinned_excluding(name, v));
                }
            }
            if base.reaches(root, v) {
                assert(self.aliases@[k].reachable@.contains(v));
                assert(self.pinned_id(v));
            }
            if base.pinned_excluding(name, v) {
                let ko = choose|ko: int|
                    0 <= ko < base.n_aliases() && base.aliases@[ko].name@ != name
                        && base.aliases@[ko].reachable@.contains(v);
                assert(self.aliases@[ko] == base.aliases@[ko]);
                assert(self.pinned_id(v));
            }
        }
    }

    /// Hand out the events announced since the last call, oldest first.
    pub fn take_events(&mut self) -> (r: Vec<StorageEvent>)
        requires
            old(self).wf(),
        ensures
            final(self).wf(),
            r@ == old(self).event_log(),
            final(self).event_log() =~= Seq::<StorageEvent>::empty(),
            forall|x: Seq<u8>| #[trigger] final(self).stored(x) == old(self).stored(x),
            forall|x: Seq<u8>| #[trigger] final(self).has_id(x) == old(self).has_id(x),
            forall|x: Seq<u8>|
                old(self).has_id(x) ==> #[trigger] final(self).id_of(x) == old(self).id_of(x),
            forall|n2: Seq<u8>| #[trigger] final(self).has_alias(n2) == old(self).has_alias(n2),
            forall|n2: Seq<u8>|
                old(self).has_alias(n2) ==> #[trigger] final(self).alias_root(n2) == old(self).alias_root(n2) && final(self).alias_set(n2) == old(self).alias_set(n2),
            forall|v: u64| #[trigger] final(self).pinned_id(v) == old(self).pinned_id(v),
            final(self).cache_limit() == old(self).cache_limit(),
    {
        let ghost base = *self;
        let mut taken: Vec<StorageEvent> = Vec::new();
        core::mem::swap(&mut taken, &mut self.events);
        proof {
            self.lemma_wf_same(base);
            self.lemma_model_same_aliases(base);
        }
        taken
    }
}

impl StorageService {
    /// The block-side model carries over between states that agree on
    /// the block tables, whatever happened to the aliases.
    proof fn lemma_model_same_blocks_only(&self, base: StorageService)
        requires
            base.wf(),
            self.cids@ == base.cids@,
            self.data@ == base.data@,
            self.events@ == base.events@,
        ensures
            forall|x: Seq<u8>| #[trigger] self.stored(x) == base.stored(x),
            forall|x: Seq<u8>| #[trigger] self.has_id(x) == base.has_id(x),
            forall|x: Seq<u8>| base.has_id(x) ==> #[trigger] self.id_of(x) == base.id_of(x),
            self.event_log() == base.event_log(),
    {
        assert forall|x: Seq<u8>| #[trigger] self.has_id(x) == base.has_id(x) by {
            if base.has_id(x) {
                let i = base.id_of(x);
                assert(base.cid_at(i) == x);
                assert(self.cid_at(i) == x);
            }
            if self.has_id(x) {
                let i = choose|i: int| 0 <= i < self.n_ids() && self.cid_at(i) == x;
                assert(base.cid_at(i) == x);
            }
        }
        assert forall|x: Seq<u8>| base.has_id(x) implies #[trigger] self.id_of(x) == base.id_of(
            x,
        ) by {
            let i0 = base.id_of(x);
            assert(base.cid_at(i0) == x);
            assert(self.cid_at(i0) == x);
            assert(self.has_id(x));
            let i1 = self.id_of(x);
            assert(self.cid_at(i1) == x);
            assert(base.cid_at(i1) == x && base.cid_at(i0) == x);
        }
        assert forall|x: Seq<u8>| #[trigger] self.stored(x) == base.stored(x) by {
            assert(self.has_id(x) == base.has_id(x));
            if base.has_id(x) {
                assert(self.id_of(x) == base.id_of(x));
            }
        }
    }
}

impl StorageService {
    /// As `lemma_model_same`, for states that differ only in the event
    /// queue.
    proof fn lemma_model_same_aliases(&self, base: StorageService)
        requires
            base.wf(),
            self.cids@ == base.cids@,
            self.data@ == base.data@,
            self.aliases@ == base.aliases@,
        ensures
            forall|x: Seq<u8>| #[trigger] self.stored(x) == base.stored(x),
            forall|x: Seq<u8>| #[trigger] self.has_id(x) == base.has_id(x),
            forall|x: Seq<u8>| base.has_id(x) ==> #[trigger] self.id_of(x) == base.id_of(x),
            forall|n2: Seq<u8>| #[trigger] self.has_alias(n2) == base.has_alias(n2),
            forall|n2: Seq<u8>|
                base.has_alias(n2) ==> #[trigger] self.alias_root(n2) == base.alias_root(n2)
                    && self.alias_set(n2) == base.alias_set(n2),
            forall|v: u64| #[trigger] self.pinned_id(v) == base.pinned_id(v),
    {
        assert forall|x: Seq<u8>| #[trigger] self.has_id(x) == base.has_id(x) by {
            if base.has_id(x) {
                let i = base.id_of(x);
                assert(base.cid_at(i) == x);
                assert(self.cid_at(i) == x);
            }
            if self.has_id(x) {
                let i = choose|i: int| 0 <= i < self.n_ids() && self.cid_at(i) == x;
                assert(base.cid_at(i) == x);
            }
        }
        assert forall|x: Seq<u8>| base.has_id(x) implies #[trigger] self.id_of(x) == base.id_of(
            x,
        ) by {
            let i0 = base.id_of(x);
            assert(base.cid_at(i0) == x);
            assert(self.cid_at(i0) == x);
            assert(self.has_id(x));
            let i1 = self.id_of(x);
            assert(self.cid_at(i1) == x);
            assert(base.cid_at(i1) == x && base.cid_at(i0) == x);
        }
        assert forall|x: Seq<u8>| #[trigger] self.stored(x) == base.stored(x) by {
            assert(self.has_id(x) == base.has_id(x));
            if base.has_id(x) {
                assert(self.id_of(x) == base.id_of(x));
            }
        }
        assert forall|n2: Seq<u8>| #[trigger] self.has_alias(n2) == base.has_alias(n2) by {
            if base.has_alias(n2) {
                let kk = base.alias_idx(n2);
                assert(base.aliases@[kk].name@ == n2);
            }
            if self.has_alias(n2) {
                let kk = choose|kk: int|
                    0 <= kk < self.n_aliases() && self.aliases@[kk].name@ == n2;
                assert(base.aliases@[kk].name@ == n2);
            }
        }
        assert forall|n2: Seq<u8>|
            base.has_alias(n2) implies #[trigger] self.alias_root(n2) == base.alias_root(n2)
                && self.alias_set(n2) == base.alias_set(n2) by {
            let k0 = base.alias_idx(n2);
            assert(base.aliases@[k0].name@ == n2);
            assert(self.has_alias(n2));
            let k1 = self.alias_idx(n2);
            assert(self.aliases@[k1].name@ == n2);
            assert(base.aliases@[k1].name@ == n2);
            assert(k1 == k0);
        }
        assert forall|v: u64| #[trigger] self.pinned_id(v) == base.pinned_id(v) by {
            if base.pinned_id(v) {
                let kk = choose|kk: int|
                    0 <= kk < base.n_aliases() && base.aliases@[kk].reachable@.contains(v);
                assert(self.aliases@[kk].reachable@.contains(v));
            }
            if self.pinned_id(v) {
                let kk = choose|kk: int|
                    0 <= kk < self.n_aliases() && self.aliases@[kk].reachable@.contains(v);
                assert(base.aliases@[kk].reachable@.contains(v));
            }
        }
    }
}

impl StorageService {
    /// The whole invariant carries over between states that agree on
    /// the block tables and the alias records.
    proof fn lemma_wf_same(&self, base: StorageService)
        requires
            base.wf(),
            self.cids@ == base.cids@,
            self.data@ == base.data@,
            self.children@ == base.children@,
            self.aliases@ == base.aliases@,
        ensures
            self.wf(),
    {
        self.lemma_wf_blocks(base);
        assert forall|k2: int| 0 <= k2 < self.n_aliases() implies #[trigger] self.alias_rec_ok(
            k2,
        ) by {
            self.lemma_rec_ok_transfer(base, k2, k2);
        }
        assert forall|k1: int, k2: int|
            0 <= k1 < self.n_aliases() && 0 <= k2 < self.n_aliases() && self.aliases@[k1].name@
                == self.aliases@[k2].name@ implies k1 == k2 by {
            assert(base.aliases@[k1].name@ == base.aliases@[k2].name@);
        }
    }
}

impl StorageService {
    /// How many stored blocks among the ids below `upto` no alias pins.
    pub closed spec fn unpinned_below(&self, upto: int) -> nat
        decreases upto,
    {
        if upto <= 0 {
            0
        } else {
            self.unpinned_below(upto - 1) + (if self.stored_at(upto - 1) && !self.pinned_id(
                (upto - 1) as u64,
            ) {
                1nat
            } else {
                0nat
            })
        }
    }

    /// How many stored blocks no alias pins.
    pub open spec fn unpinned_count(&self) -> nat {
        self.unpinned_below(self.n_ids())
    }

    proof fn lemma_unpinned_below_le(&self, upto: int)
        ensures
            self.unpinned_below(upto) <= (if upto <= 0 {
                0int
            } else {
                upto
            }),
        decreases upto,
    {
        if upto > 0 {
            self.lemma_unpinned_below_le(upto - 1);
        }
    }

    /// The alias model depends only on the alias records.
    proof fn lemma_alias_view_same(&self, base: StorageService)
        requires
            base.wf(),
            self.aliases@ == base.aliases@,
        ensures
            forall|n2: Seq<u8>| #[trigger] self.has_alias(n2) == base.has_alias(n2),
            forall|n2: Seq<u8>|
                base.has_alias(n2) ==> #[trigger] self.alias_root(n2) == base.alias_root(n2)
                    && self.alias_set(n2) == base.alias_set(n2),
            forall|v: u64| #[trigger] self.pinned_id(v) == base.pinned_id(v),
    {
        assert forall|n2: Seq<u8>| #[trigger] self.has_alias(n2) == base.has_alias(n2) by {
            if base.has_alias(n2) {
                let kk = base.alias_idx(n2);
                assert(base.aliases@[kk].name@ == n2);
            }
            if self.has_alias(n2) {
                let kk = choose|kk: int|
                    0 <= kk < self.n_aliases() && self.aliases@[kk].name@ == n2;
                assert(base.aliases@[kk].name@ == n2);
            }
        }
        assert forall|n2: Seq<u8>|
            base.has_alias(n2) implies #[trigger] self.alias_root(n2) == base.alias_root(n2)
                && self.alias_set(n2) == base.alias_set(n2) by {
            let k0 = base.alias_idx(n2);
            assert(base.aliases@[k0].name@ == n2);
            assert(self.has_alias(n2));
            let k1 = self.alias_idx(n2);
            assert(self.aliases@[k1].name@ == n2);
            assert(base.aliases@[k1].name@ == n2);
            assert(k1 == k0);
        }
        assert forall|v: u64| #[trigger] self.pinned_id(v) == base.pinned_id(v) by {
            if base.pinned_id(v) {
                let kk = choose|kk: int|
                    0 <= kk < base.n_aliases() && base.aliases@[kk].reachable@.contains(v);
                assert(self.aliases@[kk].reachable@.contains(v));
            }
            if self.pinned_id(v) {
                let kk = choose|kk: int|
                    0 <= kk < self.n_aliases() && self.aliases@[kk].reachable@.contains(v);
                assert(base.aliases@[kk].reachable@.contains(v));
            }
        }
    }

    /// Whether any alias pins the id `v`.
    fn id_pinned(&self, v: u64) -> (r: bool)
        requires
            self.wf(),
        ensures
            r == self.pinned_id(v),
    {
        let m = self.aliases.len();
        let mut k: usize = 0;
        while k < m
            invariant
                self.wf(),
                m == self.n_aliases(),
                0 <= k <= m,
                forall|j: int| 0 <= j < k ==> !self.aliases@[j].reachable@.contains(v),
            decreases m - k,
        {
            proof {
                assert(self.alias_rec_ok(k as int));
            }
            if self.aliases[k].reachable.contains_id(v) {
                proof {
                    assert(self.aliases@[k as int].reachable@.contains(v));
                }
                return true;
            }
            k = k + 1;
        }
        false
    }

    /// How many stored blocks no alias pins, counted.
    fn count_unpinned(&self) -> (r: usize)
        requires
            self.wf(),
        ensures
            r == self.unpinned_count(),
    {
        let n = self.cids.len();
        let mut cnt: usize = 0;
        let mut i: usize = 0;
        while i < n
            invariant
                self.wf(),
                n == self.n_ids(),
                0 <= i <= n,
                cnt == self.unpinned_below(i as int),
                cnt <= i,
            decreases n - i,
        {
            if self.data[i].is_some() && !self.id_pinned(i as u64) {
                cnt = cnt + 1;
            }
            i = i + 1;
        }
        cnt
    }

    /// Evicting one stored unpinned block lowers the unpinned count by
    /// exactly one.
    proof fn lemma_unpinned_evict(pre: StorageService, post: StorageService, i: int, upto: int)
        requires
            0 <= i < pre.data@.len(),
            upto <= pre.data@.len(),
            post.data@ == pre.data@.update(i, None),
            forall|v: u64| #[trigger] post.pinned_id(v) == pre.pinned_id(v),
            pre.stored_at(i),
            !pre.pinned_id(i as u64),
        ensures
            post.unpinned_below(upto) == pre.unpinned_below(upto) - (if i < upto {
                1int
            } else {
                0int
            }),
        decreases upto,
    {
        if upto > 0 {
            Self::lemma_unpinned_evict(pre, post, i, upto - 1);
            if upto - 1 == i {
                assert(!post.stored_at(i));
                assert(pre.stored_at(i) && !pre.pinned_id(i as u64));
            } else {
                assert(post.data@[upto - 1] == pre.data@[upto - 1]);
                assert(post.stored_at(upto - 1) == pre.stored_at(upto - 1));
                assert(post.pinned_id((upto - 1) as u64) == pre.pinned_id((upto - 1) as u64));
            }
        }
    }

    /// The periodic sweep: while the stored unpinned blocks outnumber
    /// the cache bound, walk the ids in ascending order and evict blocks
    /// that no alias pins and the live set does not report, announcing
    /// each removal. A pinned block is never touched, whatever the
    /// filter says; under the bound the sweep is a no-op.
    #[verifier::rlimit(100)]
    pub fn sweep(&mut self)
        requires
            old(self).wf(),
        ensures
            final(self).wf(),
            forall|x: Seq<u8>| #[trigger] final(self).has_id(x) == old(self).has_id(x),
            forall|x: Seq<u8>|
                old(self).has_id(x) ==> #[trigger] final(self).id_of(x) == old(self).id_of(x),
            forall|n2: Seq<u8>| #[trigger] final(self).has_alias(n2) == old(self).has_alias(n2),
            forall|n2: Seq<u8>|
                old(self).has_alias(n2) ==> #[trigger] final(self).alias_root(n2) == old(self).alias_root(n2) && final(self).alias_set(n2) == old(self).alias_set(n2),
            forall|v: u64| #[trigger] final(self).pinned_id(v) == old(self).pinned_id(v),
            final(self).cache_limit() == old(self).cache_limit(),
            forall|x: Seq<u8>| #[trigger]
                final(self).stored(x) == old(self).stored(x) || (final(self).stored(x) is None
                    && old(self).pinned_cid(x) == Some(false)),
            old(self).unpinned_count() <= old(self).cache_limit() ==> *final(self) == *old(self),
            final(self).unpinned_count() <= final(self).cache_limit() || (forall|j: u64|
                j < final(self).n_ids() && final(self).stored_at(j as int) && !final(self).pinned_id(j) ==> final(self).live_reported().contains(j)),
            final(self).event_log().len() >= old(self).event_log().len(),
            final(self).event_log().subrange(0, old(self).event_log().len() as int) == old(self).event_log(),
            forall|k: int|
                old(self).event_log().len() <= k < final(self).event_log().len() ==> !(
                #[trigger] final(self).event_log()[k]).is_insert() && old(self).pinned_cid(
                    final(self).event_log()[k].cid(),
                ) == Some(false) && final(self).stored(final(self).event_log()[k].cid()) is None,
    {
        let total = self.count_unpinned();
        if total <= self.cache_size {
            return;
        }
        let n = self.cids.len();
        let mut remaining = total;
        let mut i: usize = 0;
        while i < n && self.cache_size < remaining
            invariant
                self.wf(),
                old(self).wf(),
                n == self.n_ids(),
                n == old(self).n_ids(),
                0 <= i <= n,
                self.cids@ == old(self).cids@,
                self.aliases@ == old(self).aliases@,
                self.cache_size == old(self).cache_size,
                self.live == old(self).live,
                remaining == self.unpinned_count(),
                forall|j: u64|
                    j < i && self.stored_at(j as int) && !self.pinned_id(j)
                        ==> self.live.reported().contains(j),
                forall|j: int|
                    0 <= j < n ==> (#[trigger] self.data@[j] == old(self).data@[j]
                        && self.children@[j] == old(self).children@[j]) || (self.data@[j] is None
                        && self.children@[j] is None && old(self).stored_at(j) && !old(self).pinned_id(j as u64)),
                self.events@.len() >= old(self).events@.len(),
                self.events@.subrange(0, old(self).events@.len() as int) == old(self).events@,
                forall|k: int|
                    old(self).events@.len() <= k < self.events@.len() ==> !(
                    #[trigger] self.events@[k]).is_insert() && old(self).has_id(
                        self.events@[k].cid(),
                    ) && !old(self).pinned_id(old(self).id_of(self.events@[k].cid()) as u64)
                        && old(self).stored_at(old(self).id_of(self.events@[k].cid()))
                        && self.data@[old(self).id_of(self.events@[k].cid())] is None,
            decreases n - i,
        {
            let evict = self.data[i].is_some() && {
                let id = Id::from_u64(i as u64);
                !self.live.contains(&id) && !self.id_pinned(i as u64)
            };
            if evict {
                let ghost pre = *self;
                proof {
                    assert(pre.data@[i as int] == old(self).data@[i as int] || pre.data@[i as int]
                        is None);
                    assert(old(self).stored_at(i as int));
                    self.lemma_alias_view_same(*old(self));
                    assert(!old(self).pinned_id(i as u64));
                }
                self.data.set(i, None);
                self.children.set(i, None);
                self.events.push(StorageEvent::Remove(self.cids[i].clone()));
                remaining = remaining - 1;
                proof {
                    assert forall|j: int|
                        0 <= j < n implies (self.has_children(j) <==> #[trigger] self.stored_at(
                        j,
                    )) by {
                        if j != i as int {
                            assert(self.data@[j] == pre.data@[j]);
                            assert(self.children@[j] == pre.children@[j]);
                            assert(pre.has_children(j) <==> pre.stored_at(j));
                        }
                    }
                    assert forall|j: int|
                        0 <= j < n && #[trigger] self.has_children(j)
                            implies self.children@[j].unwrap().wf() by {
                        assert(j != i as int);
                        assert(self.children@[j] == pre.children@[j]);
                        assert(pre.has_children(j));
                        assert(pre.children@[j].unwrap().wf());
                    }
                    assert forall|j: int, v2: u64|
                        0 <= j < n && self.has_children(j) && #[trigger] self.children_at(
                            j,
                        ).contains(v2) implies v2 < n by {
                        assert(j != i as int);
                        assert(self.children@[j] == pre.children@[j]);
                        assert(pre.has_children(j));
                        assert(pre.children_at(j).contains(v2));
                    }
                    assert forall|j1: int, j2: int|
                        0 <= j1 < n && 0 <= j2 < n && self.cid_at(j1) == self.cid_at(
                            j2,
                        ) implies j1 == j2 by {
                        assert(pre.cid_at(j1) == pre.cid_at(j2));
                    }
                    assert forall|k2: int|
                        0 <= k2 < self.n_aliases() implies #[trigger] self.alias_rec_ok(k2) by {
                        assert(pre.alias_rec_ok(k2));
                        assert(self.aliases@[k2] == pre.aliases@[k2]);
                        let rec = self.aliases@[k2];
                        assert(!rec.reachable@.contains(i as u64)) by {
                            if rec.reachable@.contains(i as u64) {
                                assert(pre.pinned_id(i as u64));
                                assert(old(self).pinned_id(i as u64));
                            }
                        }
                        assert forall|v: u64| #[trigger]
                            rec.reachable@.contains(v) implies v < self.n_ids()
                            && self.has_children(v as int) by {
                            assert(pre.aliases@[k2].reachable@.contains(v));
                            assert(pre.has_children(v as int));
                            assert(v != i as u64);
                            assert(self.children@[v as int] == pre.children@[v as int]);
                        }
                        assert forall|v: u64, w: u64|
                            rec.reachable@.contains(v) && #[trigger] self.children_at(
                                v as int,
                            ).contains(w) implies rec.reachable@.contains(w) by {
                            assert(pre.aliases@[k2].reachable@.contains(v));
                            assert(v != i as u64);
                            assert(self.children@[v as int] == pre.children@[v as int]);
                            assert(pre.children_at(v as int).contains(w));
                            assert(pre.aliases@[k2].reachable@.contains(w));
                        }
                    }
                    assert forall|k1: int, k2: int|
                        0 <= k1 < self.n_aliases() && 0 <= k2 < self.n_aliases()
                            && self.aliases@[k1].name@ == self.aliases@[k2].name@ implies k1
                        == k2 by {
                        assert(pre.aliases@[k1].name@ == pre.aliases@[k2].name@);
                    }
                    assert(self.wf());
                    assert(self.events@.subrange(0, old(self).events@.len() as int) =~= old(self).events@);
                    let ghost le = self.events@.len() - 1;
                    assert(self.events@[le].cid() == old(self).cid_at(i as int));
                    assert(old(self).has_id(old(self).cid_at(i as int)));
                    assert(old(self).id_of(old(self).cid_at(i as int)) == i as int) by {
                        let w = old(self).id_of(old(self).cid_at(i as int));
                        assert(old(self).cid_at(w) == old(self).cid_at(i as int));
                    }
                    assert forall|k: int|
                        old(self).events@.len() <= k < self.events@.len() implies !(
                        #[trigger] self.events@[k]).is_insert() && old(self).has_id(
                            self.events@[k].cid(),
                        ) && !old(self).pinned_id(old(self).id_of(self.events@[k].cid()) as u64)
                            && old(self).stored_at(old(self).id_of(self.events@[k].cid()))
                            && self.data@[old(self).id_of(self.events@[k].cid())] is None by {
                        if k < self.events@.len() - 1 {
                            assert(self.events@[k] == pre.events@[k]);
                            assert(self.data@[old(self).id_of(self.events@[k].cid())]
                                == pre.data@[old(self).id_of(self.events@[k].cid())] || old(self).id_of(self.events@[k].cid()) == i as int);
                        }
                    }
                    self.lemma_alias_view_same(pre);
                    assert(self.data@ == pre.data@.update(i as int, None));
                    Self::lemma_unpinned_evict(pre, *self, i as int, n as int);
                    assert(self.unpinned_count() == pre.unpinned_count() - 1);
                }
            }
            proof {
                assert forall|j: u64|
                    j < i + 1 && self.stored_at(j as int) && !self.pinned_id(j)
                        implies self.live.reported().contains(j) by {
                    if j == i as u64 {
                        assert(self.data@[i as int] is Some);
                        assert(!evict);
                    }
                }
            }
            i = i + 1;
        }
        proof {
            assert(remaining == self.unpinned_count());
            if i < n {
                assert(self.unpinned_count() <= self.cache_limit());
            } else {
                assert forall|j: u64|
                    j < self.n_ids() && self.stored_at(j as int) && !self.pinned_id(
                        j,
                    ) implies self.live_reported().contains(j) by {
                    assert(j < i);
                }
            }
            self.lemma_alias_view_same(*old(self));
            self.lemma_wf_same_note(*old(self));
            assert forall|x: Seq<u8>| #[trigger]
                final(self).stored(x) == old(self).stored(x) || (final(self).stored(x) is None
                    && old(self).pinned_cid(x) == Some(false)) by {
                if old(self).has_id(x) {
                    let w = old(self).id_of(x);
                    assert(old(self).cid_at(w) == x);
                    assert(self.has_id(x) && self.id_of(x) == w);
                    if self.data@[w] == old(self).data@[w] {
                        assert(self.stored(x) == old(self).stored(x));
                    } else {
                        assert(self.data@[w] is None && !old(self).pinned_id(w as u64));
                        assert(self.stored(x) is None);
                        assert(old(self).pinned_cid(x) == Some(false));
                    }
                } else {
                    assert(!self.has_id(x));
                    assert(self.stored(x) is None && old(self).stored(x) is None);
                }
            }
            assert forall|k: int|
                old(self).event_log().len() <= k < self.event_log().len() implies !(
                #[trigger] self.event_log()[k]).is_insert() && old(self).pinned_cid(
                    self.event_log()[k].cid(),
                ) == Some(false) && self.stored(self.event_log()[k].cid()) is None by {
                let c = self.events@[k].cid();
                assert(old(self).has_id(c));
                let w = old(self).id_of(c);
                assert(self.has_id(c) && self.id_of(c) == w);
                assert(self.data@[w] is None);
                assert(self.stored(c) is None);
            }
        }
    }

    /// The id model depends only on the cid table.
    proof fn lemma_wf_same_note(&self, base: StorageService)
        requires
            base.wf(),
            self.cids@ == base.cids@,
        ensures
            forall|x: Seq<u8>| #[trigger] self.has_id(x) == base.has_id(x),
            forall|x: Seq<u8>| base.has_id(x) ==> #[trigger] self.id_of(x) == base.id_of(x),
    {
        assert forall|x: Seq<u8>| #[trigger] self.has_id(x) == base.has_id(x) by {
            if base.has_id(x) {
                let i = base.id_of(x);
                assert(base.cid_at(i) == x);
                assert(self.cid_at(i) == x);
            }
            if self.has_id(x) {
                let i = choose|i: int| 0 <= i < self.n_ids() && self.cid_at(i) == x;
                assert(base.cid_at(i) == x);
            }
        }
        assert forall|x: Seq<u8>| base.has_id(x) implies #[trigger] self.id_of(x) == base.id_of(
            x,
        ) by {
            let i0 = base.id_of(x);
            assert(base.cid_at(i0) == x);
            assert(self.cid_at(i0) == x);
            assert(self.has_id(x));
            let i1 = self.id_of(x);
            assert(self.cid_at(i1) == x);
            assert(base.cid_at(i1) == x && base.cid_at(i0) == x);
        }
    }
}

impl StorageService {
    /// The referrers of a block: every stored block whose persisted
    /// children list links to `id`, in ascending id order. This is the
    /// inverse of the children table, computed from it so that the two
    /// can never disagree.
    pub fn referrers(&self, id: &Id) -> (r: Ids)
        requires
            self.wf(),
        ensures
            r.wf(),
            forall|v: u64| #[trigger]
                r@.contains(v) <==> (v < self.n_ids() && self.stored_at(v as int)
                    && self.children_at(v as int).contains(id@)),
    {
        let n = self.cids.len();
        let mut out = Ids::new();
        let mut i: usize = 0;
        while i < n
            invariant
                self.wf(),
                n == self.n_ids(),
                0 <= i <= n,
                out.wf(),
                forall|v: u64| #[trigger]
                    out@.contains(v) <==> (v < i && self.stored_at(v as int) && self.children_at(
                        v as int,
                    ).contains(id@)),
            decreases n - i,
        {
            let linked = match &self.children[i] {
                Some(ch) => {
                    proof {
                        assert(self.has_children(i as int));
                        assert(self.children@[i as int].unwrap().wf());
                    }
                    ch.contains_id(id.to_u64())
                },
                None => false,
            };
            let ghost o0 = out@;
            if linked {
                out.push(Id::from_u64(i as u64));
            }
            proof {
                assert forall|v: u64| #[trigger]
                    out@.contains(v) <==> (v < i + 1 && self.stored_at(v as int)
                        && self.children_at(v as int).contains(id@)) by {
                    if linked {
                        assert(out@ =~= o0.push(i as u64));
                        if out@.contains(v) {
                            let j = choose|j: int| 0 <= j < out@.len() && out@[j] == v;
                            if j < out@.len() - 1 {
                                assert(o0[j] == v);
                                assert(o0.contains(v));
                            } else {
                                assert(v == i as u64);
                                assert(self.stored_at(i as int));
                            }
                        }
                        if v < i + 1 && self.stored_at(v as int) && self.children_at(
                            v as int,
                        ).contains(id@) {
                            if v < i {
                                assert(o0.contains(v));
                                let j = choose|j: int| 0 <= j < o0.len() && o0[j] == v;
                                assert(out@[j] == v);
                            } else {
                                assert(out@[out@.len() - 1] == i as u64);
                            }
                        }
                    } else {
                        if v == i as u64 && self.stored_at(v as int) {
                            assert(self.has_children(i as int));
                            assert(!self.children_at(i as int).contains(id@));
                        }
                    }
                }
            }
            i = i + 1;
        }
        out
    }
}

} // verus!
