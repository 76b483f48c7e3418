//! Content identifiers, blocks, and the library's error kinds.
use vstd::prelude::*;

verus! {

/// A content identifier: the self-describing hash that names a block.
/// The store treats it as an opaque byte string; only the codec layer
/// reads its structure.
#[derive(PartialEq, Eq, Hash, Debug)]
pub struct Cid {
    bytes: Vec<u8>,
}

/// Copy a byte vector, element by element.
pub(crate) fn clone_bytes(v: &Vec<u8>) -> (r: Vec<u8>)
    ensures
        r@ =~= v@,
{
    let mut r: Vec<u8> = Vec::new();
    let n = v.len();
    let mut i: usize = 0;
    while i < n
        invariant
            n == v@.len(),
            0 <= i <= n,
            r@ =~= v@.subrange(0, i as int),
        decreases n - i,
    {
        r.push(v[i]);
        i = i + 1;
    }
    r
}

/// Whether two byte vectors hold the same bytes.
pub(crate) fn bytes_eq(a: &Vec<u8>, b: &Vec<u8>) -> (r: bool)
    ensures
        r == (a@ == b@),
{
    let n = a.len();
    if n != b.len() {
        proof {
            assert(a@ != b@);
        }
        return false;
    }
    let mut i: usize = 0;
    while i < n
        invariant
            n == a@.len() && n == b@.len(),
            0 <= i <= n,
            forall|j: int| 0 <= j < i ==> a@[j] == b@[j],
        decreases n - i,
    {
        if a[i] != b[i] {
            return false;
        }
        i = i + 1;
    }
    proof {
        assert(a@ =~= b@);
    }
    true
}

impl View for Cid {
    type V = Seq<u8>;

    closed spec fn view(&self) -> Seq<u8> {
        self.bytes@
    }
}

impl Clone for Cid {
    fn clone(&self) -> (r: Self)
        ensures
            r@ == self@,
    {
        Cid { bytes: clone_bytes(&self.bytes) }
    }
}

impl Cid {
    /// Wrap the binary form of a content identifier.
    pub fn from_bytes(bytes: Vec<u8>) -> (r: Cid)
        ensures
            r@ == bytes@,
    {
        Cid { bytes }
    }

    /// The binary form.
    pub fn bytes(&self) -> (r: &Vec<u8>)
        ensures
            r@ == self@,
    {
        &self.bytes
    }

    /// Whether two identifiers name the same content.
    pub fn equals(&self, other: &Cid) -> (r: bool)
        ensures
            r == (self@ == other@),
    {
        bytes_eq(&self.bytes, &other.bytes)
    }
}

/// An immutable block: a content identifier and the bytes it names.
#[derive(PartialEq, Eq, Debug)]
pub struct Block {
    cid: Cid,
    data: Vec<u8>,
}

impl Clone for Block {
    fn clone(&self) -> (r: Self)
        ensures
            r.key() == self.key(),
            r.payload() == self.payload(),
    {
        Block { cid: self.cid.clone(), data: clone_bytes(&self.data) }
    }
}

impl Block {
    /// The bytes of the block's content identifier.
    pub closed spec fn key(&self) -> Seq<u8> {
        self.cid@
    }

    /// The block's payload bytes.
    pub closed spec fn payload(&self) -> Seq<u8> {
        self.data@
    }

    /// Pair a content identifier with its bytes.
    pub fn new(cid: Cid, data: Vec<u8>) -> (r: Block)
        ensures
            r.key() == cid@,
            r.payload() == data@,
    {
        Block { cid, data }
    }

    /// The content identifier.
    pub fn cid(&self) -> (r: &Cid)
        ensures
            r@ == self.key(),
    {
        &self.cid
    }

    /// The payload bytes.
    pub fn data(&self) -> (r: &Vec<u8>)
        ensures
            r@ == self.payload(),
    {
        &self.data
    }
}

/// What can go wrong in the store.
#[derive(PartialEq, Eq, Debug)]
pub enum Error {
    /// The named block is not available locally. `alias` reports the
    /// first missing descendant this way, and `get` reports a timed-out
    /// fetch this way.
    BlockNotFound(Cid),
    /// A block's bytes do not decode under the codec its CID names, so
    /// its child links cannot be extracted.
    CodecFailure,
    /// The live-set filter refused a new element after its eviction
    /// chain was exhausted.
    FilterSaturated,
}

/// The child CIDs linked from a block, or nothing when the bytes do not
/// decode. The links are a function of the CID (which names the codec)
/// and the payload alone.
pub uninterp spec fn links_of(cid: Seq<u8>, data: Seq<u8>) -> Option<Seq<Seq<u8>>>;

/// Relies on libipld: `Cid::try_from` to read the binary CID and
/// `Block::references` to decode the payload with the codec the CID
/// names and collect the child CIDs, in decode order.
#[verifier::external_body]
pub(crate) fn decode_links(cid: &Cid, data: &Vec<u8>) -> (r: Option<Vec<Cid>>)
    ensures
        match r {
            Some(ls) => links_of(cid@, data@) == Some(ls@.map_values(|c: Cid| c@)),
            None => links_of(cid@, data@) is None,
        },
{
    let parsed = match libipld::Cid::try_from(cid.bytes().as_slice()) {
        Ok(c) => c,
        Err(_) => return None,
    };
    let block = libipld::Block::<libipld::DefaultParams>::new_unchecked(parsed, data.clone());
    let mut refs: Vec<libipld::Cid> = Vec::new();
    if block.references(&mut refs).is_err() {
        return None;
    }
    Some(refs.into_iter().map(|c| Cid::from_bytes(c.to_bytes())).collect())
}

} // verus!
