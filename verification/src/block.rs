//! Hash-linked block chains: blocks carry a digest of their own content and
//! the digest of their predecessor, so that a chain grown by appends is
//! linked tip to root.

use vstd::prelude::*;

verus! {

broadcast use vstd::array::group_array_axioms;

/// The digest that the hashing backend computes for a byte payload.
/// It depends on the payload alone, so equal payloads always carry
/// equal digests.
pub uninterp spec fn digest_of(content: Seq<u8>) -> Seq<u8>;

/// The sentinel parent digest of a chain's first block: 32 zero bytes.
pub open spec fn zero_hash() -> Seq<u8> {
    Seq::new(32, |i: int| 0u8)
}

/// Mathematical image of a block: its four fields as plain values.
pub ghost struct BlockView {
    pub block_number: u64,
    pub hash: Seq<u8>,
    pub parent_hash: Seq<u8>,
    pub content: Seq<u8>,
}

/// An immutable record of a chain: a sequence number, the digest of its
/// own content, the digest of its predecessor, and the payload itself.
#[derive(Debug)]
pub struct Block {
    /// Block number, monotonically increasing as the chain grows.
    pub block_number: u64,
    /// Digest of the current block's content.
    pub hash: [u8; 32],
    /// Digest of the parent block's content.
    pub parent_hash: [u8; 32],
    /// Block content.
    pub content: Vec<u8>,
}

impl View for Block {
    type V = BlockView;

    open spec fn view(&self) -> BlockView {
        BlockView {
            block_number: self.block_number,
            hash: self.hash@,
            parent_hash: self.parent_hash@,
            content: self.content@,
        }
    }
}

impl Clone for Block {
    fn clone(&self) -> (r: Self)
        ensures
            r@ == self@,
    {
        Block {
            block_number: self.block_number,
            hash: self.hash,
            parent_hash: self.parent_hash,
            content: clone_bytes(&self.content),
        }
    }
}

impl PartialEq for Block {
    /// Equality of two blocks is field-wise: number, hash, parent hash and
    /// content must all match.
    fn eq(&self, other: &Block) -> (r: bool) {
        self.block_number == other.block_number && hash_eq(&self.hash, &other.hash) && hash_eq(
            &self.parent_hash,
            &other.parent_hash,
        ) && bytes_eq(&self.content, &other.content)
    }
}

impl vstd::std_specs::cmp::PartialEqSpecImpl for Block {
    open spec fn obeys_eq_spec() -> bool {
        true
    }

    open spec fn eq_spec(&self, other: &Block) -> bool {
        self@ == other@
    }
}

/// Byte-wise equality of two 32-byte digests.
pub(crate) fn hash_eq(a: &[u8; 32], b: &[u8; 32]) -> (r: bool)
    ensures
        r == (a@ == b@),
{
    let mut i: usize = 0;
    while i < 32
        invariant
            i <= 32,
            forall|j: int| 0 <= j < i ==> a@[j] == b@[j],
        decreases 32 - i,
    {
        if a[i] != b[i] {
            return false;
        }
        i = i + 1;
    }
    proof {
        assert(a@ =~= b@);
    }
    true
}

/// Byte-wise equality of two byte vectors.
fn bytes_eq(a: &Vec<u8>, b: &Vec<u8>) -> (r: bool)
    ensures
        r == (a@ == b@),
{
    if a.len() != b.len() {
        return false;
    }
    let mut i: usize = 0;
    while i < a.len()
        invariant
            a@.len() == b@.len(),
            i <= a@.len(),
            forall|j: int| 0 <= j < i ==> a@[j] == b@[j],
        decreases a@.len() - i,
    {
        if a[i] != b[i] {
            return false;
        }
        i = i + 1;
    }
    proof {
        assert(a@ =~= b@);
    }
    true
}

/// An ordered, append-only sequence of blocks.
#[derive(Debug)]
pub struct BlockStream {
    pub blocks: Vec<Block>,
}

impl View for BlockStream {
    type V = Seq<BlockView>;

    open spec fn view(&self) -> Seq<BlockView> {
        self.blocks@.map_values(|b: Block| b@)
    }
}

/// The block that appending `content` to `chain` constructs: number one past
/// the tip's (or 1 on an empty chain), its own hash the digest of `content`,
/// its parent hash the tip's hash (or the zero sentinel).
pub open spec fn next_block_view(chain: Seq<BlockView>, content: Seq<u8>) -> BlockView {
    BlockView {
        block_number: if chain.len() == 0 {
            1u64
        } else {
            (chain.last().block_number + 1) as u64
        },
        hash: digest_of(content),
        parent_hash: if chain.len() == 0 {
            zero_hash()
        } else {
            chain.last().hash
        },
        content: content,
    }
}

/// A well-formed chain: block numbers count up from 1, every block's hash is
/// the digest of its own content, the first block's parent hash is the zero
/// sentinel, and every later block's parent hash is its predecessor's hash.
pub open spec fn wf_chain(chain: Seq<BlockView>) -> bool {
    &&& forall|i: int| 0 <= i < chain.len() ==> (#[trigger] chain[i]).block_number == i + 1
    &&& forall|i: int|
        0 <= i < chain.len() ==> (#[trigger] chain[i]).hash == digest_of(chain[i].content)
    &&& chain.len() > 0 ==> chain[0].parent_hash == zero_hash()
    &&& forall|i: int|
        1 <= i < chain.len() ==> (#[trigger] chain[i]).parent_hash == chain[i - 1].hash
}

impl BlockStream {
    /// Construct an empty chain.
    pub fn init_stream() -> (r: BlockStream)
        ensures
            r@ == Seq::<BlockView>::empty(),
    {
        let r = BlockStream { blocks: Vec::new() };
        proof {
            assert(r@ =~= Seq::<BlockView>::empty());
        }
        r
    }
}

/// Relies on `crypto_hash::digest` with `crypto_hash::Algorithm::SHA256`:
/// a 32-byte SHA-256 digest computed from the content bytes alone.
#[verifier::external_body]
pub fn get_hash(content: Vec<u8>) -> (r: Vec<u8>)
    ensures
        r@ == digest_of(content@),
        r@.len() == 32,
{
    crypto_hash::digest(crypto_hash::Algorithm::SHA256, &content)
}

/// Law: the digest is deterministic. Two digests computed for the same
/// content are equal, however often the hashing is repeated. That distinct
/// contents carry distinct digests is collision resistance, assumed of the
/// hash function and not stated here.
pub proof fn lemma_digest_deterministic(content: Seq<u8>, r1: Seq<u8>, r2: Seq<u8>)
    requires
        r1 == digest_of(content),
        r2 == digest_of(content),
    ensures
        r1 == r2,
{
}

/// Copy a 32-byte digest out of a `Vec` into a fixed-width array.
fn to_hash_array(v: &Vec<u8>) -> (r: [u8; 32])
    requires
        v@.len() == 32,
    ensures
        r@ == v@,
{
    let mut r: [u8; 32] = [0u8; 32];
    let mut i: usize = 0;
    while i < 32
        invariant
            i <= 32,
            v@.len() == 32,
            forall|j: int| 0 <= j < i ==> r@[j] == v@[j],
        decreases 32 - i,
    {
        r[i] = v[i];
        i = i + 1;
    }
    proof {
        assert(r@ =~= v@);
    }
    r
}

impl Block {
    /// Append a block wrapping `content` at the tail of `stream`.
    ///
    /// The chain grows by exactly the block that `next_block_view` describes;
    /// in particular an append keeps a well-formed chain well formed.
    pub fn add_block(stream: &mut BlockStream, content: Vec<u8>)
        requires
            old(stream)@.len() > 0 ==> old(stream)@.last().block_number < u64::MAX,
        ensures
            final(stream)@ == old(stream)@.push(next_block_view(old(stream)@, content@)),
            wf_chain(old(stream)@) ==> wf_chain(final(stream)@),
    {
        let digest = get_hash(clone_bytes(&content));
        let current_hash = to_hash_array(&digest);
        let zero: [u8; 32] = [0u8; 32];
        proof {
            assert(zero@ =~= zero_hash());
        }
        let (block_number, parent_hash): (u64, [u8; 32]) = if stream.blocks.len() == 0 {
            (1, zero)
        } else {
            let tip = &stream.blocks[stream.blocks.len() - 1];
            (tip.block_number + 1, tip.hash)
        };
        let new_block = Block { block_number, hash: current_hash, parent_hash, content };
        proof {
            assert(new_block@ == next_block_view(old(stream)@, new_block.content@)) by {
                if old(stream)@.len() > 0 {
                    assert(old(stream)@.last()
                        == stream.blocks@[stream.blocks@.len() - 1]@);
                }
            }
        }
        stream.blocks.push(new_block);
        proof {
            assert(stream@ =~= old(stream)@.push(next_block_view(old(stream)@, content@)));
            if wf_chain(old(stream)@) {
                lemma_push_preserves_wf(old(stream)@, stream@.last());
            }
        }
    }
}

/// Appending the block that `next_block_view` describes keeps a chain well
/// formed, as long as the new block's number does not wrap.
proof fn lemma_push_preserves_wf(chain: Seq<BlockView>, b: BlockView)
    requires
        wf_chain(chain),
        chain.len() > 0 ==> chain.last().block_number < u64::MAX,
        b == next_block_view(chain, b.content),
    ensures
        wf_chain(chain.push(b)),
{
    let c = chain.push(b);
    assert forall|i: int| 0 <= i < c.len() implies (#[trigger] c[i]).block_number == i + 1 by {
        if i < chain.len() {
            assert(c[i] == chain[i]);
        } else {
            assert(c[i] == b);
        }
    }
    assert forall|i: int|
        0 <= i < c.len() implies (#[trigger] c[i]).hash == digest_of(c[i].content) by {
        if i < chain.len() {
            assert(c[i] == chain[i]);
        }
    }
    assert forall|i: int|
        1 <= i < c.len() implies (#[trigger] c[i]).parent_hash == c[i - 1].hash by {
        if i < chain.len() {
            assert(c[i] == chain[i]);
            assert(c[i - 1] == chain[i - 1]);
        } else {
            assert(c[i] == b);
            assert(c[i - 1] == chain.last());
        }
    }
}

/// Copy a byte vector.
fn clone_bytes(v: &Vec<u8>) -> (r: Vec<u8>)
    ensures
        r@ == v@,
{
    let c = v.clone();
    proof {
        assert(c@ =~= v@);
    }
    c
}

/// The chain that the bulk builder grows out of `data`: one single-byte
/// block per input byte, appended in order.
pub open spec fn chain_of_bytes(data: Seq<u8>) -> Seq<BlockView>
    decreases data.len(),
{
    if data.len() == 0 {
        Seq::empty()
    } else {
        let prefix = chain_of_bytes(data.drop_last());
        prefix.push(next_block_view(prefix, seq![data.last()]))
    }
}

/// The bulk builder yields a well-formed chain with one block per input
/// byte, the i-th holding the single byte `data[i]` as its content.
pub proof fn lemma_chain_of_bytes_wf(data: Seq<u8>)
    requires
        data.len() <= u64::MAX,
    ensures
        wf_chain(chain_of_bytes(data)),
        chain_of_bytes(data).len() == data.len(),
        forall|i: int|
            0 <= i < data.len() ==> (#[trigger] chain_of_bytes(data)[i]).content
                == seq![data[i]],
    decreases data.len(),
{
    if data.len() > 0 {
        lemma_chain_of_bytes_wf(data.drop_last());
        let prefix = chain_of_bytes(data.drop_last());
        lemma_push_preserves_wf(prefix, chain_of_bytes(data).last());
        assert forall|i: int|
            0 <= i < data.len() implies (#[trigger] chain_of_bytes(data)[i]).content
                == seq![data[i]] by {
            if i < data.len() - 1 {
                assert(chain_of_bytes(data)[i] == prefix[i]);
                assert(data.drop_last()[i] == data[i]);
            } else {
                assert(chain_of_bytes(data)[i] == next_block_view(prefix, seq![data.last()]));
            }
        }
    }
}

/// Build a chain out of `data` by appending, for each byte in order, one
/// block whose content is that single byte.
pub fn start_chain(data: Vec<u8>) -> (r: Option<BlockStream>)
    ensures
        r matches Some(stream) && stream@ == chain_of_bytes(data@),
        r matches Some(stream) && wf_chain(stream@),
{
    let mut block_chain = BlockStream { blocks: Vec::new() };
    proof {
        assert(block_chain@ =~= Seq::<BlockView>::empty());
        assert(block_chain@ =~= chain_of_bytes(data@.take(0)));
    }
    let mut idx: usize = 0;
    while idx < data.len()
        invariant
            idx <= data@.len(),
            block_chain@ == chain_of_bytes(data@.take(idx as int)),
        decreases data@.len() - idx,
    {
        proof {
            lemma_chain_of_bytes_wf(data@.take(idx as int));
        }
        let item: u8 = data[idx];
        let mut content: Vec<u8> = Vec::new();
        content.push(item);
        proof {
            assert(content@ =~= seq![item]);
            if block_chain@.len() > 0 {
                assert(block_chain@.last().block_number == block_chain@.len());
            }
        }
        Block::add_block(&mut block_chain, content);
        proof {
            let t1 = data@.take(idx as int + 1);
            assert(t1.drop_last() =~= data@.take(idx as int));
            assert(t1.last() == data@[idx as int]);
            assert(chain_of_bytes(t1)
                == chain_of_bytes(data@.take(idx as int)).push(
                    next_block_view(chain_of_bytes(data@.take(idx as int)), seq![data@[idx as int]]),
                ));
        }
        idx = idx + 1;
    }
    proof {
        assert(data@.take(idx as int) =~= data@);
        lemma_chain_of_bytes_wf(data@);
    }
    Some(block_chain)
}

} // verus!
