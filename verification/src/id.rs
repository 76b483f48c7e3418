//! Internal block identifiers: a fixed eight-byte big-endian integer
//! wrapper, and packed sequences of such identifiers.
use vstd::prelude::*;

verus! {

/// The eight big-endian bytes of `v`, most significant first.
pub open spec fn be_bytes_of(v: u64) -> Seq<u8> {
    seq![
        (v >> 56) as u8,
        (v >> 48) as u8,
        (v >> 40) as u8,
        (v >> 32) as u8,
        (v >> 24) as u8,
        (v >> 16) as u8,
        (v >> 8) as u8,
        v as u8,
    ]
}

/// The value encoded by eight big-endian bytes.
pub open spec fn be_u64(b: Seq<u8>) -> u64
    recommends
        b.len() == 8,
{
    ((b[0] as u64) << 56) | ((b[1] as u64) << 48) | ((b[2] as u64) << 40)
        | ((b[3] as u64) << 32) | ((b[4] as u64) << 24) | ((b[5] as u64) << 16)
        | ((b[6] as u64) << 8) | (b[7] as u64)
}

/// Encoding a value and decoding the bytes gives the value back.
pub proof fn lemma_be_round_trip(v: u64)
    ensures
        be_u64(be_bytes_of(v)) == v,
{
    assert((((v >> 56) as u8 as u64) << 56) | (((v >> 48) as u8 as u64) << 48)
        | (((v >> 40) as u8 as u64) << 40) | (((v >> 32) as u8 as u64) << 32)
        | (((v >> 24) as u8 as u64) << 24) | (((v >> 16) as u8 as u64) << 16)
        | (((v >> 8) as u8 as u64) << 8) | (v as u8 as u64) == v) by (bit_vector);
}

/// Decoding eight bytes and encoding the value gives the bytes back.
pub proof fn lemma_be_bytes_round_trip(b: Seq<u8>)
    requires
        b.len() == 8,
    ensures
        be_bytes_of(be_u64(b)) =~= b,
{
    let b0 = b[0];
    let b1 = b[1];
    let b2 = b[2];
    let b3 = b[3];
    let b4 = b[4];
    let b5 = b[5];
    let b6 = b[6];
    let b7 = b[7];
    let v = ((b0 as u64) << 56) | ((b1 as u64) << 48) | ((b2 as u64) << 40)
        | ((b3 as u64) << 32) | ((b4 as u64) << 24) | ((b5 as u64) << 16)
        | ((b6 as u64) << 8) | (b7 as u64);
    assert((v >> 56) as u8 == b0 && (v >> 48) as u8 == b1 && (v >> 40) as u8 == b2
        && (v >> 32) as u8 == b3 && (v >> 24) as u8 == b4 && (v >> 16) as u8 == b5
        && (v >> 8) as u8 == b6 && v as u8 == b7) by (bit_vector)
        requires
            v == ((b0 as u64) << 56) | ((b1 as u64) << 48) | ((b2 as u64) << 40)
                | ((b3 as u64) << 32) | ((b4 as u64) << 24) | ((b5 as u64) << 16)
                | ((b6 as u64) << 8) | (b7 as u64),
    ;
}

/// An internal block identifier: an eight-byte big-endian integer.
/// Identifiers are assigned on first sight of a CID and used everywhere
/// internally to keep keys fixed-width.
#[derive(Clone, Copy, PartialEq, Eq, Hash, Debug, Structural)]
pub struct Id {
    value: u64,
}

impl View for Id {
    type V = u64;

    closed spec fn view(&self) -> u64 {
        self.value
    }
}

impl Id {
    /// Wrap a numeric identifier.
    pub fn from_u64(value: u64) -> (r: Id)
        ensures
            r@ == value,
    {
        Id { value }
    }

    /// The numeric value, for display and indexing.
    pub fn to_u64(&self) -> (r: u64)
        ensures
            r == self@,
    {
        self.value
    }

    /// The eight big-endian bytes of the identifier.
    pub fn to_bytes(&self) -> (r: Vec<u8>)
        ensures
            r@ =~= be_bytes_of(self@),
    {
        let v = self.value;
        let mut r: Vec<u8> = Vec::new();
        r.push((v >> 56) as u8);
        r.push((v >> 48) as u8);
        r.push((v >> 40) as u8);
        r.push((v >> 32) as u8);
        r.push((v >> 24) as u8);
        r.push((v >> 16) as u8);
        r.push((v >> 8) as u8);
        r.push(v as u8);
        r
    }
}

/// The identifiers packed into a byte string, eight bytes per identifier.
pub open spec fn ids_of_bytes(b: Seq<u8>) -> Seq<u64> {
    Seq::new((b.len() / 8) as nat, |i: int| be_u64(b.subrange(8 * i, 8 * i + 8)))
}

/// The views of a sequence of id sequences, laid end to end.
pub open spec fn ids_concat(s: Seq<Ids>) -> Seq<u64>
    decreases s.len(),
{
    if s.len() == 0 {
        Seq::empty()
    } else {
        ids_concat(s.drop_last()) + s.last()@
    }
}

/// A packed sequence of internal identifiers: a byte string whose length
/// is a multiple of eight, holding one big-endian identifier per group of
/// eight bytes. Used to persist children and referrer sets compactly.
pub struct Ids {
    bytes: Vec<u8>,
}

impl View for Ids {
    type V = Seq<u64>;

    closed spec fn view(&self) -> Seq<u64> {
        ids_of_bytes(self.bytes@)
    }
}

proof fn lemma_ids_of_bytes_append(x: Seq<u8>, y: Seq<u8>)
    requires
        x.len() % 8 == 0,
    ensures
        ids_of_bytes(x + y) =~= ids_of_bytes(x) + ids_of_bytes(y),
{
    let whole = ids_of_bytes(x + y);
    let parts = ids_of_bytes(x) + ids_of_bytes(y);
    assert((x + y).len() / 8 == x.len() / 8 + y.len() / 8);
    assert forall|i: int| 0 <= i < whole.len() implies whole[i] == parts[i] by {
        if i < x.len() / 8 {
            assert((x + y).subrange(8 * i, 8 * i + 8) =~= x.subrange(8 * i, 8 * i + 8));
        } else {
            let j = i - x.len() / 8;
            assert((x + y).subrange(8 * i, 8 * i + 8) =~= y.subrange(8 * j, 8 * j + 8));
        }
    }
}

impl Ids {
    /// The byte string is well formed: whole identifiers only.
    pub closed spec fn wf(&self) -> bool {
        self.bytes@.len() % 8 == 0
    }

    /// An empty identifier sequence.
    pub fn new() -> (r: Ids)
        ensures
            r.wf(),
            r@ =~= Seq::<u64>::empty(),
    {
        Ids { bytes: Vec::new() }
    }

    /// How many identifiers are packed in the sequence.
    pub fn len(&self) -> (r: usize)
        requires
            self.wf(),
        ensures
            r == self@.len(),
    {
        self.bytes.len() / 8
    }

    /// The identifier at position `i`.
    pub fn get(&self, i: usize) -> (r: Id)
        requires
            self.wf(),
            i < self@.len(),
        ensures
            r@ == self@[i as int],
    {
        let nb = self.bytes.len();
        proof {
            vstd::arithmetic::div_mod::lemma_fundamental_div_mod(nb as int, 8);
            assert(nb == 8 * (nb as int / 8));
            assert(8 * (i as int) + 8 <= nb);
        }
        let base = i * 8;
        let v = ((self.bytes[base] as u64) << 56) | ((self.bytes[base + 1] as u64) << 48)
            | ((self.bytes[base + 2] as u64) << 40) | ((self.bytes[base + 3] as u64) << 32)
            | ((self.bytes[base + 4] as u64) << 24) | ((self.bytes[base + 5] as u64) << 16)
            | ((self.bytes[base + 6] as u64) << 8) | (self.bytes[base + 7] as u64);
        proof {
            let g = self.bytes@.subrange(8 * i, 8 * i + 8);
            assert(g[0] == self.bytes@[8 * i]);
            assert(v == be_u64(g));
        }
        Id::from_u64(v)
    }

    /// Append one identifier at the end.
    pub fn push(&mut self, id: Id)
        requires
            old(self).wf(),
        ensures
            final(self).wf(),
            final(self)@ =~= old(self)@.push(id@),
    {
        let ghost before = self.bytes@;
        let mut tail = id.to_bytes();
        let mut k: usize = 0;
        while k < 8
            invariant
                0 <= k <= 8,
                tail@ =~= be_bytes_of(id@),
                self.bytes@ =~= before + be_bytes_of(id@).subrange(0, k as int),
            decreases 8 - k,
        {
            self.bytes.push(tail[k]);
            k = k + 1;
        }
        proof {
            assert(self.bytes@ =~= before + be_bytes_of(id@));
            lemma_ids_of_bytes_append(before, be_bytes_of(id@));
            lemma_be_round_trip(id@);
            assert(ids_of_bytes(be_bytes_of(id@)) =~= seq![id@]);
        }
    }

    /// Whether some identifier in the sequence has value `v`.
    pub fn contains_id(&self, v: u64) -> (r: bool)
        requires
            self.wf(),
        ensures
            r == self@.contains(v),
    {
        let n = self.len();
        let mut i: usize = 0;
        while i < n
            invariant
                self.wf(),
                n == self@.len(),
                0 <= i <= n,
                forall|j: int| 0 <= j < i ==> self@[j] != v,
            decreases n - i,
        {
            if self.get(i).to_u64() == v {
                return true;
            }
            i = i + 1;
        }
        false
    }

    /// Lay several identifier sequences end to end.
    pub fn concat(idss: &[Ids]) -> (r: Ids)
        requires
            forall|k: int| 0 <= k < idss@.len() ==> (#[trigger] idss@[k]).wf(),
        ensures
            r.wf(),
            r@ =~= ids_concat(idss@),
    {
        let mut out = Ids::new();
        let n = idss.len();
        let mut k: usize = 0;
        while k < n
            invariant
                forall|j: int| 0 <= j < idss@.len() ==> (#[trigger] idss@[j]).wf(),
                n == idss@.len(),
                0 <= k <= n,
                out.wf(),
                out@ =~= ids_concat(idss@.subrange(0, k as int)),
            decreases n - k,
        {
            let part = &idss[k];
            let m = part.len();
            let mut i: usize = 0;
            while i < m
                invariant
                    part.wf(),
                    m == part@.len(),
                    0 <= i <= m,
                    out.wf(),
                    out@ =~= ids_concat(idss@.subrange(0, k as int)) + part@.subrange(
                        0,
                        i as int,
                    ),
                decreases m - i,
            {
                out.push(part.get(i));
                i = i + 1;
            }
            proof {
                assert(idss@.subrange(0, k + 1).drop_last() =~= idss@.subrange(0, k as int));
                assert(part@.subrange(0, m as int) =~= part@);
                assert(ids_concat(idss@.subrange(0, k + 1)) =~= ids_concat(
                    idss@.subrange(0, k as int),
                ) + part@);
            }
            k = k + 1;
        }
        proof {
            assert(idss@.subrange(0, n as int) =~= idss@);
        }
        out
    }

    /// Iterate over the packed identifiers in order.
    pub fn iter(&self) -> (r: IdsIter<'_>)
        requires
            self.wf(),
        ensures
            r.wf(),
            r.remaining() =~= self@,
    {
        IdsIter { ids: self, pos: 0 }
    }
}

/// A cursor over the identifiers packed in an [`Ids`].
pub struct IdsIter<'a> {
    ids: &'a Ids,
    pos: usize,
}

impl<'a> IdsIter<'a> {
    /// The cursor sits on a whole identifier inside the sequence.
    pub closed spec fn wf(&self) -> bool {
        &&& self.ids.wf()
        &&& self.pos % 8 == 0
        &&& self.pos <= 8 * self.ids@.len()
    }

    /// The identifiers not yet handed out.
    pub closed spec fn remaining(&self) -> Seq<u64> {
        self.ids@.skip(self.pos as int / 8)
    }

    /// The next identifier, if any are left.
    pub fn next(&mut self) -> (r: Option<Id>)
        requires
            old(self).wf(),
        ensures
            final(self).wf(),
            match r {
                Some(id) => old(self).remaining().len() > 0 && id@ == old(self).remaining()[0]
                    && final(self).remaining() =~= old(self).remaining().skip(1),
                None => old(self).remaining().len() == 0 && *final(self) == *old(self),
            },
    {
        let idx = self.pos / 8;
        if idx < self.ids.len() {
            let id = self.ids.get(idx);
            let nb = self.ids.bytes.len();
            proof {
                vstd::arithmetic::div_mod::lemma_fundamental_div_mod(self.pos as int, 8);
                assert(self.pos == 8 * (self.pos as int / 8));
                vstd::arithmetic::div_mod::lemma_fundamental_div_mod(nb as int, 8);
                assert(nb == 8 * (nb as int / 8));
                assert(self.pos + 8 <= nb);
            }
            self.pos = self.pos + 8;
            Some(id)
        } else {
            None
        }
    }
}

} // verus!
