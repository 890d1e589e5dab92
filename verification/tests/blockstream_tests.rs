use blockstream::ancestor::{find_common_ancestor, NotFoundError};
use blockstream::block::{get_hash, start_chain, Block, BlockStream};

// SHA-256 of the single byte 6, the content of the expected fork point in
// the shared-suffix scenario.
const HASH_OF_SIX: [u8; 32] = [
    103, 88, 110, 152, 250, 210, 125, 160, 185, 150, 139, 192, 57, 161, 239, 52, 201, 57, 185,
    184, 229, 35, 168, 190, 248, 157, 71, 134, 8, 197, 236, 246,
];

// SHA-256 of the single byte 50: the found fork point is the block recorded
// last under the shared parent hash, chain 2's sixth block, whose
// predecessor wraps the byte 50.
const HASH_OF_FIFTY: [u8; 32] = [
    212, 115, 94, 58, 38, 94, 22, 238, 224, 63, 89, 113, 139, 155, 93, 3, 1, 156, 7, 216, 182,
    197, 31, 144, 218, 58, 102, 110, 236, 19, 171, 53,
];

#[test]
fn ancestor_absent() {
    let data_chain_1: Vec<u8> = vec![1, 2, 3, 4, 5, 6, 7, 8, 9, 10];
    let data_chain_2: Vec<u8> = vec![10, 20, 30, 40, 50, 60, 70, 80, 90, 100];

    let chain_1 = start_chain(data_chain_1);
    let chain_2 = start_chain(data_chain_2);

    let common_block: Result<Option<Block>, NotFoundError> =
        find_common_ancestor(&[chain_1.unwrap(), chain_2.unwrap()]);

    assert!(common_block.is_err());
}

#[test]
fn ancestor_present() {
    let data_chain_1: Vec<u8> = vec![1, 2, 3, 4, 5, 6, 7, 8, 9, 10];
    let data_chain_2: Vec<u8> = vec![10, 20, 30, 40, 50, 6, 7, 8, 9, 10];

    let chain_1 = start_chain(data_chain_1);
    let chain_2 = start_chain(data_chain_2);

    let common_block: Result<Option<Block>, NotFoundError> =
        find_common_ancestor(&[chain_1.unwrap(), chain_2.unwrap()]);

    let expected = Block {
        block_number: 6,
        hash: HASH_OF_SIX,
        parent_hash: HASH_OF_FIFTY,
        content: vec![6],
    };

    assert_eq!(common_block.unwrap().unwrap(), expected);
}

#[test]
fn chain_links_and_numbers() {
    let data: Vec<u8> = vec![7, 8, 9];
    let chain = start_chain(data.clone()).unwrap();
    assert_eq!(chain.blocks.len(), 3);
    assert_eq!(chain.blocks[0].parent_hash, [0u8; 32]);
    for i in 0..chain.blocks.len() {
        let block = &chain.blocks[i];
        assert_eq!(block.block_number, (i + 1) as u64);
        assert_eq!(block.content, vec![data[i]]);
        assert_eq!(block.hash.to_vec(), get_hash(vec![data[i]]));
        if i > 0 {
            assert_eq!(block.parent_hash, chain.blocks[i - 1].hash);
        }
    }
}

#[test]
fn empty_chain_and_appends() {
    let empty = BlockStream::init_stream();
    assert_eq!(empty.blocks.len(), 0);

    let mut stream = BlockStream::init_stream();
    Block::add_block(&mut stream, vec![]);
    Block::add_block(&mut stream, vec![]);
    assert_eq!(stream.blocks.len(), 2);
    assert_eq!(stream.blocks[0].block_number, 1);
    assert_eq!(stream.blocks[1].block_number, 2);
    assert_eq!(stream.blocks[1].parent_hash, stream.blocks[0].hash);
    // equal content, equal digest: both blocks carry the empty payload
    assert_eq!(stream.blocks[0].hash, stream.blocks[1].hash);
}

#[test]
fn digest_deterministic() {
    let first = get_hash(vec![1, 2, 3]);
    let second = get_hash(vec![1, 2, 3]);
    assert_eq!(first, second);
    assert_eq!(first.len(), 32);
}

#[test]
fn digest_distinct_on_corpus() {
    let corpus: Vec<Vec<u8>> = vec![
        vec![],
        vec![0],
        vec![1],
        vec![0, 0],
        vec![1, 2, 3],
        vec![3, 2, 1],
    ];
    for i in 0..corpus.len() {
        for j in 0..corpus.len() {
            if i != j {
                assert_ne!(get_hash(corpus[i].clone()), get_hash(corpus[j].clone()));
            }
        }
    }
}

#[test]
fn digest_known_values() {
    // exact digests: the wrapper computes SHA-256, not an echo of its input
    assert_eq!(get_hash(vec![6]), HASH_OF_SIX.to_vec());
    assert_eq!(get_hash(vec![50]), HASH_OF_FIFTY.to_vec());
}

#[test]
fn no_chains_and_empty_chains_find_nothing() {
    let none: [BlockStream; 0] = [];
    assert_eq!(find_common_ancestor(&none), Err(NotFoundError));

    let empties = [BlockStream::init_stream(), BlockStream::init_stream()];
    assert_eq!(find_common_ancestor(&empties), Err(NotFoundError));
}

#[test]
fn idempotent_on_unchanged_chains() {
    let chains = [
        start_chain(vec![1, 2, 3, 4, 5, 6, 7, 8, 9, 10]).unwrap(),
        start_chain(vec![10, 20, 30, 40, 50, 6, 7, 8, 9, 10]).unwrap(),
    ];
    let first = find_common_ancestor(&chains);
    let second = find_common_ancestor(&chains);
    assert_eq!(first.unwrap().unwrap(), second.unwrap().unwrap());

    let disjoint = [start_chain(vec![1]).unwrap(), start_chain(vec![2]).unwrap()];
    assert_eq!(find_common_ancestor(&disjoint), find_common_ancestor(&disjoint));
}

#[test]
fn order_of_chains_decides_first_fork_point() {
    // chain a forks with b at the parent hash of the byte 2, and with c at
    // the parent hash of the byte 1: two independent fork points
    let a: Vec<u8> = vec![1, 2, 3];
    let b: Vec<u8> = vec![2, 3];
    let c: Vec<u8> = vec![1, 9];

    // order a, b, c: the b fork is met first; the block recorded under the
    // shared parent hash is b's first block, which wraps the byte 2
    let abc = [
        start_chain(a.clone()).unwrap(),
        start_chain(b.clone()).unwrap(),
        start_chain(c.clone()).unwrap(),
    ];
    let found_abc = find_common_ancestor(&abc).unwrap().unwrap();
    assert_eq!(found_abc.content, vec![2]);
    assert_eq!(found_abc.hash.to_vec(), get_hash(vec![2]));

    // order a, c, b: the c fork is met first; the block recorded under the
    // shared parent hash is c's first block, which wraps the byte 1
    let acb = [
        start_chain(a).unwrap(),
        start_chain(c).unwrap(),
        start_chain(b).unwrap(),
    ];
    let found_acb = find_common_ancestor(&acb).unwrap().unwrap();
    assert_eq!(found_acb.content, vec![1]);
    assert_eq!(found_acb.hash.to_vec(), get_hash(vec![1]));
}
