//! Cross-chain common-ancestor lookup: a single pass over the blocks of the
//! given chains, in chain order, that returns the first block recorded under
//! a parent hash that two scanned blocks share.

use crate::block::{hash_eq, wf_chain, Block, BlockStream, BlockView};
use vstd::multiset::Multiset;
use vstd::prelude::*;
use vstd::seq_lib::lemma_multiset_commutative;

verus! {

broadcast use vstd::array::group_array_axioms, vstd::seq_lib::group_to_multiset_ensures,
    vstd::multiset::group_multiset_axioms;

/// The explicit "no common ancestor" outcome: the chains are disjoint.
#[derive(Clone, Copy, PartialEq, Eq, Structural, Debug)]
pub struct NotFoundError;

/// What a scan of the chains ends in: a fork point, or none.
pub ghost enum ScanOutcome {
    Found(BlockView),
    NotFound,
}

/// The chains of a sequence of streams, as plain block sequences.
pub open spec fn stream_views(chains: Seq<BlockStream>) -> Seq<Seq<BlockView>> {
    chains.map_values(|c: BlockStream| c@)
}

/// All blocks of the given chains, in scan order: chain by chain, and within
/// a chain block by block.
pub open spec fn all_blocks(chains: Seq<Seq<BlockView>>) -> Seq<BlockView>
    decreases chains.len(),
{
    if chains.len() == 0 {
        Seq::empty()
    } else {
        chains[0] + all_blocks(chains.drop_first())
    }
}

/// One streaming pass over `blocks`. `seen` holds every hash met so far as a
/// non-first block's parent hash; `recorded` maps each scanned block's own
/// hash to that block, last writer winning. A first block of a chain is only
/// recorded. Any other block whose parent hash is already in `seen` ends the
/// scan: the block recorded under that shared parent hash is the fork point.
pub open spec fn scan(
    blocks: Seq<BlockView>,
    seen: Set<Seq<u8>>,
    recorded: Map<Seq<u8>, BlockView>,
) -> ScanOutcome
    decreases blocks.len(),
{
    if blocks.len() == 0 {
        ScanOutcome::NotFound
    } else {
        let b = blocks[0];
        if b.block_number == 1 {
            scan(blocks.drop_first(), seen, recorded.insert(b.hash, b))
        } else if seen.contains(b.parent_hash) {
            ScanOutcome::Found(recorded[b.parent_hash])
        } else {
            scan(blocks.drop_first(), seen.insert(b.parent_hash), recorded.insert(b.hash, b))
        }
    }
}

/// The outcome of scanning the given chains from an empty state.
pub open spec fn scan_chains(chains: Seq<Seq<BlockView>>) -> ScanOutcome {
    scan(all_blocks(chains), Set::empty(), Map::empty())
}

/// How the exec result answers the scan outcome: a found fork point comes
/// back as `Ok(Some(_))` holding exactly that block, and an exhausted scan
/// as the explicit not-found error. `Ok(None)` is never returned.
pub open spec fn ancestor_result_matches(
    r: Result<Option<Block>, NotFoundError>,
    outcome: ScanOutcome,
) -> bool {
    match outcome {
        ScanOutcome::Found(bv) => r matches Ok(Some(b)) && b@ == bv,
        ScanOutcome::NotFound => r is Err,
    }
}

/// The exec key vector holds exactly the hashes of the ghost `seen` set.
spec fn keys_match(keys: Seq<[u8; 32]>, seen: Set<Seq<u8>>) -> bool {
    &&& forall|k: int| 0 <= k < keys.len() ==> seen.contains((#[trigger] keys[k])@)
    &&& forall|h: Seq<u8>|
        #[trigger] seen.contains(h) ==> exists|k: int|
            0 <= k < keys.len() && (#[trigger] keys[k])@ == h
}

/// No block after position `j` carries the same hash as the block at `j`.
spec fn last_with_hash(blocks: Seq<Block>, j: int) -> bool {
    forall|j2: int| j < j2 < blocks.len() ==> (#[trigger] blocks[j2])@.hash != blocks[j]@.hash
}

/// The exec block vector realises the ghost `recorded` map: its keys are
/// exactly the hashes of the stored blocks, and under each hash stands the
/// last stored block carrying it.
spec fn recorded_match(blocks: Seq<Block>, recorded: Map<Seq<u8>, BlockView>) -> bool {
    &&& forall|j: int|
        0 <= j < blocks.len() ==> recorded.dom().contains((#[trigger] blocks[j])@.hash)
    &&& forall|h: Seq<u8>|
        #[trigger] recorded.dom().contains(h) ==> exists|j: int|
            0 <= j < blocks.len() && (#[trigger] blocks[j])@.hash == h
    &&& forall|j: int|
        0 <= j < blocks.len() && last_with_hash(blocks, j) ==> recorded[(#[trigger] blocks[j])@.hash]
            == blocks[j]@
}

/// Recording one more block keeps the exec vector and the ghost map in step.
proof fn lemma_record_push(blocks: Seq<Block>, recorded: Map<Seq<u8>, BlockView>, nb: Block)
    requires
        recorded_match(blocks, recorded),
    ensures
        recorded_match(blocks.push(nb), recorded.insert(nb@.hash, nb@)),
{
    let blocks2 = blocks.push(nb);
    let rec2 = recorded.insert(nb@.hash, nb@);
    assert forall|j: int|
        0 <= j < blocks2.len() implies rec2.dom().contains((#[trigger] blocks2[j])@.hash) by {
        if j < blocks.len() {
            assert(blocks2[j] == blocks[j]);
        } else {
            assert(blocks2[j] == nb);
        }
    }
    assert forall|h: Seq<u8>| #[trigger] rec2.dom().contains(h) implies exists|j: int|
        0 <= j < blocks2.len() && (#[trigger] blocks2[j])@.hash == h by {
        if h == nb@.hash {
            assert(0 <= blocks.len() < blocks2.len() && (blocks2[blocks.len() as int])@.hash == h);
        } else {
            let j0 = choose|j: int| 0 <= j < blocks.len() && (#[trigger] blocks[j])@.hash == h;
            assert(0 <= j0 < blocks2.len() && (blocks2[j0])@.hash == h);
        }
    }
    assert forall|j: int|
        0 <= j < blocks2.len() && last_with_hash(blocks2, j) implies rec2[(#[trigger] blocks2[j])@.hash]
        == blocks2[j]@ by {
        if j == blocks.len() {
            assert(blocks2[j] == nb);
        } else {
            assert(blocks2[j] == blocks[j]);
            assert(blocks2[blocks.len() as int] == nb);
            assert(nb@.hash != blocks[j]@.hash);
            assert(last_with_hash(blocks, j)) by {
                assert forall|j2: int|
                    j < j2 < blocks.len() implies (#[trigger] blocks[j2])@.hash != blocks[j]@.hash by {
                    assert(blocks2[j2] == blocks[j2]);
                }
            }
        }
    }
}

/// Remembering one more parent hash keeps the exec vector and the ghost set
/// in step.
proof fn lemma_keys_push(keys: Seq<[u8; 32]>, seen: Set<Seq<u8>>, nk: [u8; 32])
    requires
        keys_match(keys, seen),
    ensures
        keys_match(keys.push(nk), seen.insert(nk@)),
{
    let keys2 = keys.push(nk);
    let seen2 = seen.insert(nk@);
    assert forall|k: int| 0 <= k < keys2.len() implies seen2.contains((#[trigger] keys2[k])@) by {
        if k < keys.len() {
            assert(keys2[k] == keys[k]);
        } else {
            assert(keys2[k] == nk);
        }
    }
    assert forall|h: Seq<u8>| #[trigger] seen2.contains(h) implies exists|k: int|
        0 <= k < keys2.len() && (#[trigger] keys2[k])@ == h by {
        if h == nk@ {
            assert(0 <= keys.len() < keys2.len() && (keys2[keys.len() as int])@ == h);
        } else {
            let k0 = choose|k: int| 0 <= k < keys.len() && (#[trigger] keys[k])@ == h;
            assert(0 <= k0 < keys2.len() && (keys2[k0])@ == h);
        }
    }
}

/// Whether one of the remembered hashes equals `key`, byte for byte.
fn contains_hash(keys: &Vec<[u8; 32]>, key: &[u8; 32]) -> (r: bool)
    ensures
        r == (exists|k: int| 0 <= k < keys@.len() && (#[trigger] keys@[k])@ == key@),
{
    let mut i: usize = 0;
    while i < keys.len()
        invariant
            i <= keys@.len(),
            forall|k: int| 0 <= k < i ==> (#[trigger] keys@[k])@ != key@,
        decreases keys@.len() - i,
    {
        if hash_eq(&keys[i], key) {
            assert(0 <= i < keys@.len() && (keys@[i as int])@ == key@);
            return true;
        }
        i = i + 1;
    }
    false
}

/// The position of the last stored block whose hash equals `key`; some such
/// block must exist.
#[verifier::loop_isolation(false)]
fn lookup_last(blocks: &Vec<Block>, key: &[u8; 32]) -> (j: usize)
    requires
        exists|j0: int| 0 <= j0 < blocks@.len() && (#[trigger] blocks@[j0])@.hash == key@,
    ensures
        j < blocks@.len(),
        blocks@[j as int]@.hash == key@,
        forall|j2: int| j < j2 < blocks@.len() ==> (#[trigger] blocks@[j2])@.hash != key@,
{
    let mut i: usize = blocks.len();
    while i > 0
        invariant
            i <= blocks@.len(),
            forall|j2: int| i <= j2 < blocks@.len() ==> (#[trigger] blocks@[j2])@.hash != key@,
        decreases i,
    {
        i = i - 1;
        if hash_eq(&blocks[i].hash, key) {
            return i;
        }
    }
    proof {
        assert(false);
    }
    0
}

/// Find the fork point of the given chains: the first block, in scan order,
/// that stands recorded under a parent hash two scanned blocks share.
///
/// The chains are only read. Disjoint chains end in the explicit not-found
/// error; a found fork point comes back as `Ok(Some(_))`, so `Ok(None)`
/// never occurs. The outcome is a function of the chains alone, so repeated
/// calls on unchanged chains agree.
#[verifier::loop_isolation(false)]
#[verifier::rlimit(100)]
pub fn find_common_ancestor(chains: &[BlockStream]) -> (r: Result<Option<Block>, NotFoundError>)
    requires
        forall|i: int| 0 <= i < chains@.len() ==> wf_chain((#[trigger] chains@[i])@),
    ensures
        ancestor_result_matches(r, scan_chains(stream_views(chains@))),
{
    let ghost views = stream_views(chains@);
    let mut seen_keys: Vec<[u8; 32]> = Vec::new();
    let mut recorded_blocks: Vec<Block> = Vec::new();
    let ghost mut seen: Set<Seq<u8>> = Set::empty();
    let ghost mut recorded: Map<Seq<u8>, BlockView> = Map::empty();
    proof {
        assert(views.skip(0) =~= views);
    }
    let mut ci: usize = 0;
    while ci < chains.len()
        invariant
            ci <= views.len(),
            scan_chains(views) == scan(all_blocks(views.skip(ci as int)), seen, recorded),
            keys_match(seen_keys@, seen),
            recorded_match(recorded_blocks@, recorded),
            seen.subset_of(recorded.dom()),
            forall|c: int, b: int|
                0 <= c < ci && 0 <= b < views[c].len() ==> recorded.dom().contains(
                    (#[trigger] views[c][b]).hash,
                ),
        decreases views.len() - ci,
    {
        let stream = &chains[ci];
        let ghost chain_view = views[ci as int];
        proof {
            assert(chain_view == stream@);
            assert(views.skip(ci as int)[0] == chain_view);
            assert(views.skip(ci as int).drop_first() =~= views.skip(ci as int + 1));
            assert(all_blocks(views.skip(ci as int)) == chain_view + all_blocks(
                views.skip(ci as int + 1),
            ));
            assert(chain_view.skip(0) + all_blocks(views.skip(ci as int + 1)) =~= chain_view
                + all_blocks(views.skip(ci as int + 1)));
        }
        let mut bi: usize = 0;
        while bi < stream.blocks.len()
            invariant
                bi <= chain_view.len(),
                scan_chains(views) == scan(
                    chain_view.skip(bi as int) + all_blocks(views.skip(ci as int + 1)),
                    seen,
                    recorded,
                ),
                keys_match(seen_keys@, seen),
                recorded_match(recorded_blocks@, recorded),
                seen.subset_of(recorded.dom()),
                forall|c: int, b: int|
                    0 <= c < ci && 0 <= b < views[c].len() ==> recorded.dom().contains(
                        (#[trigger] views[c][b]).hash,
                    ),
                forall|b: int|
                    0 <= b < bi ==> recorded.dom().contains((#[trigger] chain_view[b]).hash),
            decreases chain_view.len() - bi,
        {
            let block = &stream.blocks[bi];
            let ghost bv = chain_view[bi as int];
            let ghost rem = chain_view.skip(bi as int) + all_blocks(views.skip(ci as int + 1));
            proof {
                assert(bv == block@);
                assert(rem[0] == chain_view.skip(bi as int)[0]);
                assert(rem[0] == bv);
                assert(rem.drop_first() =~= chain_view.skip(bi as int + 1) + all_blocks(
                    views.skip(ci as int + 1),
                ));
            }
            if block.block_number == 1 {
                let ghost old_blocks = recorded_blocks@;
                let cloned = block.clone();
                recorded_blocks.push(cloned);
                proof {
                    assert(scan(rem, seen, recorded) == scan(
                        rem.drop_first(),
                        seen,
                        recorded.insert(bv.hash, bv),
                    ));
                    lemma_record_push(old_blocks, recorded, cloned);
                    recorded = recorded.insert(bv.hash, bv);
                }
            } else if contains_hash(&seen_keys, &block.parent_hash) {
                proof {
                    assert(seen.contains(bv.parent_hash));
                    assert(scan(rem, seen, recorded) == ScanOutcome::Found(
                        recorded[bv.parent_hash],
                    ));
                    assert(recorded.dom().contains(bv.parent_hash));
                }
                let j = lookup_last(&recorded_blocks, &block.parent_hash);
                let ancestor = recorded_blocks[j].clone();
                proof {
                    assert(last_with_hash(recorded_blocks@, j as int));
                    assert(ancestor@ == recorded[bv.parent_hash]);
                }
                return Ok(Some(ancestor));
            } else {
                proof {
                    assert(!seen.contains(bv.parent_hash));
                    assert(scan(rem, seen, recorded) == scan(
                        rem.drop_first(),
                        seen.insert(bv.parent_hash),
                        recorded.insert(bv.hash, bv),
                    ));
                    // the predecessor in this chain was scanned and recorded,
                    // so the parent hash already stands in the map's domain
                    assert(bv.block_number == bi + 1);
                    assert(bi >= 1);
                    assert(bv.parent_hash == chain_view[bi as int - 1].hash);
                    assert(recorded.dom().contains(chain_view[bi as int - 1].hash));
                }
                let ghost old_keys = seen_keys@;
                let ghost old_blocks = recorded_blocks@;
                seen_keys.push(block.parent_hash);
                let cloned = block.clone();
                recorded_blocks.push(cloned);
                proof {
                    lemma_keys_push(old_keys, seen, block.parent_hash);
                    lemma_record_push(old_blocks, recorded, cloned);
                    seen = seen.insert(bv.parent_hash);
                    recorded = recorded.insert(bv.hash, bv);
                }
            }
            bi = bi + 1;
        }
        proof {
            assert(chain_view.skip(bi as int) =~= Seq::<BlockView>::empty());
            assert(chain_view.skip(bi as int) + all_blocks(views.skip(ci as int + 1)) =~= all_blocks(
                views.skip(ci as int + 1),
            ));
        }
        ci = ci + 1;
    }
    proof {
        assert(views.skip(ci as int) =~= Seq::<Seq<BlockView>>::empty());
        assert(scan_chains(views) == ScanOutcome::NotFound);
    }
    Err(NotFoundError)
}

/// Law: the ancestor search is idempotent. Two results that answer the same
/// unchanged chains agree: either both hold a fork point with the same
/// fields, or both report that none exists.
pub proof fn lemma_find_idempotent(
    chains: Seq<Seq<BlockView>>,
    r1: Result<Option<Block>, NotFoundError>,
    r2: Result<Option<Block>, NotFoundError>,
)
    requires
        ancestor_result_matches(r1, scan_chains(chains)),
        ancestor_result_matches(r2, scan_chains(chains)),
    ensures
        r1 is Err <==> r2 is Err,
        r1 matches Ok(b1) ==> (r2 matches Ok(b2) && b1 matches Some(a1) && b2 matches Some(a2)
            && a1@ == a2@),
{
}

/// The blocks that a scan of `chains` walks, gathered chain by chain into a
/// multiset: the chain order no longer shows in it.
pub open spec fn scanned_blocks(chains: Seq<Seq<BlockView>>) -> Multiset<BlockView>
    decreases chains.len(),
{
    if chains.len() == 0 {
        Multiset::empty()
    } else {
        chains[0].to_multiset().add(scanned_blocks(chains.drop_first()))
    }
}

/// Flattening the chains and gathering the blocks agree.
proof fn lemma_all_blocks_to_multiset(chains: Seq<Seq<BlockView>>)
    ensures
        all_blocks(chains).to_multiset() == scanned_blocks(chains),
    decreases chains.len(),
{
    if chains.len() == 0 {
        assert forall|b: BlockView| #[trigger]
            all_blocks(chains).to_multiset().count(b) == Multiset::<BlockView>::empty().count(
            b,
        ) by {
            assert(!all_blocks(chains).contains(b));
        }
        assert(all_blocks(chains).to_multiset() =~= Multiset::<BlockView>::empty());
    } else {
        lemma_all_blocks_to_multiset(chains.drop_first());
        lemma_multiset_commutative(chains[0], all_blocks(chains.drop_first()));
        assert(all_blocks(chains).to_multiset() =~= scanned_blocks(chains));
    }
}

/// Taking one chain out of the sequence takes exactly its blocks out of the
/// gathered multiset, wherever the chain stands.
proof fn lemma_scanned_blocks_remove(chains: Seq<Seq<BlockView>>, k: int)
    requires
        0 <= k < chains.len(),
    ensures
        scanned_blocks(chains) == chains[k].to_multiset().add(scanned_blocks(chains.remove(k))),
    decreases k,
{
    if k == 0 {
        assert(chains.remove(0) =~= chains.drop_first());
    } else {
        lemma_scanned_blocks_remove(chains.drop_first(), k - 1);
        assert(chains.drop_first()[k - 1] == chains[k]);
        assert(chains.remove(k).drop_first() =~= chains.drop_first().remove(k - 1));
        assert(chains.remove(k)[0] == chains[0]);
        assert(scanned_blocks(chains) =~= chains[k].to_multiset().add(
            scanned_blocks(chains.remove(k)),
        ));
    }
}

/// Chain sequences that hold the same chains gather the same blocks.
proof fn lemma_scanned_blocks_permutation(c1: Seq<Seq<BlockView>>, c2: Seq<Seq<BlockView>>)
    requires
        c1.to_multiset() == c2.to_multiset(),
    ensures
        scanned_blocks(c1) == scanned_blocks(c2),
    decreases c1.len(),
{
    if c1.len() == 0 {
        assert(c1.to_multiset().len() == c1.len());
        assert(c2.to_multiset().len() == c2.len());
        assert(c2.len() == 0);
    } else {
        let x = c1[0];
        assert(c1.contains(x));
        assert(c2.to_multiset().count(x) > 0);
        assert(c2.contains(x));
        let k = choose|k: int| 0 <= k < c2.len() && c2[k] == x;
        assert(c1.drop_first() =~= c1.remove(0));
        assert(c1.remove(0).to_multiset() =~= c1.to_multiset().remove(x));
        assert(c2.remove(k).to_multiset() =~= c2.to_multiset().remove(x));
        lemma_scanned_blocks_permutation(c1.drop_first(), c2.remove(k));
        lemma_scanned_blocks_remove(c2, k);
    }
}

/// Law: reordering the input chains never changes the collection of blocks
/// the scan walks — two inputs that hold the same chains, in whatever
/// order, yield the same multiset of scanned blocks, and with it the same
/// hashes met along the way. Only which coincidence is met first may
/// differ, as the scan returns the first one in its order.
pub proof fn lemma_reorder_preserves_scanned_blocks(
    c1: Seq<Seq<BlockView>>,
    c2: Seq<Seq<BlockView>>,
)
    requires
        c1.to_multiset() == c2.to_multiset(),
    ensures
        all_blocks(c1).to_multiset() == all_blocks(c2).to_multiset(),
{
    lemma_all_blocks_to_multiset(c1);
    lemma_all_blocks_to_multiset(c2);
    lemma_scanned_blocks_permutation(c1, c2);
}

} // verus!
