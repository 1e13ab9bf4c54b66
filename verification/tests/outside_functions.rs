//! The results that rest on hash functions and generators of other crates, against those crates.

use mpcith_zk::circuit::CircuitBuilder;
use mpcith_zk::commit_merkle::CommitTree;
use mpcith_zk::commitment::commit;
use mpcith_zk::commitment::commit_view;
use mpcith_zk::fiat_shamir::derive_challenges;
use mpcith_zk::fiat_shamir::hash_circuit;
use mpcith_zk::mimc::mimc_constants;
use mpcith_zk::mimc::mimc_hash_native;
use mpcith_zk::mpc::draw_zero_words;
use mpcith_zk::mpc::recompute_linear_shares;
use mpcith_zk::seed_tree::build_seed_tree;
use mpcith_zk::seed_tree::get_co_path;
use mpcith_zk::sharing::PartySeed;
use mpcith_zk::sharing::Sharing;
use mpcith_zk::tx_validation::encode_public_inputs;
use mpcith_zk::tx_validation::hash_context_to_u32;
use mpcith_zk::tx_validation::TransactionStatement;
use rand::RngCore;
use rand::SeedableRng;
use rand_chacha::ChaCha20Rng;
use sha3::Digest;
use sha3::Sha3_256;

fn sha3(input: &[u8]) -> [u8; 32] {
    Sha3_256::digest(input).into()
}

fn stream(key: [u8; 32], count: usize) -> Vec<u32> {
    let mut rng = ChaCha20Rng::from_seed(key);
    (0..count).map(|_| rng.next_u32()).collect()
}

#[test]
fn commitments_are_derived_keys() {
    let randomness = [9u8; 32];
    let material = [b"domain".as_slice(), &randomness, b"data"].concat();
    assert_eq!(
        commit(b"domain", &randomness, b"data").0,
        blake3::derive_key("mpcith-zk commitment v1", &material)
    );
}

#[test]
fn view_commitments_name_repetition_and_party() {
    let seed = [1u8; 32];
    let randomness = [2u8; 32];
    let expected = commit(
        b"mpcith-view:rep=12:party=3",
        &randomness,
        &[seed.as_slice(), b"messages"].concat(),
    );
    assert_eq!(commit_view(12, 3, &seed, b"messages", &randomness), expected);
}

#[test]
fn party_generators_are_chacha_streams() {
    let seed = PartySeed([7u8; 32]);
    let key = *blake3::hash(&[seed.0.as_slice(), b"domain"].concat()).as_bytes();
    let mut rng = seed.to_rng(b"domain");
    assert_eq!(rng.key, key);
    let expected = stream(key, 600);
    let drawn: Vec<u32> = (0..40).map(|_| rng.next_u32()).collect();
    assert_eq!(drawn, expected[..40]);
    assert_eq!(rng.position, 40);
    assert_eq!(rng.peek_words(560), expected[40..]);
    assert_eq!(rng.position, 40);
    assert_eq!(rng.peek_words(0), Vec::<u32>::new());
}

#[test]
fn random_seeds_differ() {
    assert_ne!(PartySeed::random().0, PartySeed::random().0);
    assert_ne!(PartySeed::random().0, [0u8; 32]);
}

#[test]
fn zero_words_are_first_words_of_their_own_streams() {
    let seed = [3u8; 32];
    let words = draw_zero_words(&seed, 3);
    for (i, &word) in words.iter().enumerate() {
        let input = [seed.as_slice(), b"mpcith-zero-share", &(i as u64).to_le_bytes()].concat();
        assert_eq!(word, stream(*blake3::hash(&input).as_bytes(), 1)[0]);
    }
    assert_eq!(words.len(), 3);
}

#[test]
fn input_shares_come_from_the_seed() {
    let mut builder = CircuitBuilder::new(70);
    let sum = builder.add(0, 69);
    builder.assert_eq(sum, 5);
    let circuit = builder.build(1);
    let seed = [8u8; 32];
    let key = *blake3::hash(&[seed.as_slice(), b"mpcith-party-share"].concat()).as_bytes();
    let words = stream(key, 70);
    let shares = recompute_linear_shares(&circuit, &seed, 1, 3, &[], &[]);
    assert_eq!(shares[..70], words[..]);
    assert_eq!(shares[70], words[0].wrapping_add(words[69]));
    assert_eq!(shares[71], shares[70]);
}

#[test]
fn sharing_with_generators_takes_one_word_of_each() {
    let seeds = [PartySeed([1u8; 32]), PartySeed([2u8; 32])];
    let mut rngs: Vec<_> = seeds.iter().map(|s| s.to_rng(b"share")).collect();
    let words: Vec<u32> = rngs.iter().map(|r| r.peek_words(1)[0]).collect();
    let sharing = Sharing::share_with_rngs(1000, 3, &mut rngs);
    assert_eq!(sharing.shares[0], words[0]);
    assert_eq!(sharing.shares[1], words[1]);
    assert_eq!(
        sharing.shares[2],
        1000u32.wrapping_sub(words[0]).wrapping_sub(words[1])
    );
    assert_eq!(rngs[0].position, 1);
    assert_eq!(rngs[1].position, 1);
}

#[test]
fn seeds_grow_by_hashing_the_side() {
    let root = [5u8; 32];
    let child = |seed: &[u8; 32], side: u8| -> [u8; 32] {
        *blake3::hash(&[seed.as_slice(), &[side]].concat()).as_bytes()
    };
    let left = child(&root, 0);
    let right = child(&root, 1);
    let leaves = build_seed_tree(root, 3);
    assert_eq!(leaves, vec![child(&left, 0), child(&left, 1), child(&right, 0)]);
    assert_eq!(get_co_path(root, 3, 1), vec![child(&left, 0), right]);
}

#[test]
fn commitment_trees_hash_pairs() {
    let leaves = [[1u8; 32], [2u8; 32], [3u8; 32]];
    let pair = |a: &[u8; 32], b: &[u8; 32]| -> [u8; 32] {
        *blake3::hash(&[a.as_slice(), b].concat()).as_bytes()
    };
    let expected = pair(&pair(&leaves[0], &leaves[1]), &pair(&leaves[2], &[0u8; 32]));
    assert_eq!(CommitTree::build(&leaves).root(), expected);
}

#[test]
fn mimc_constants_are_digest_words() {
    let constants = mimc_constants(20);
    for (i, &constant) in constants.iter().enumerate() {
        let block = (i / 8) as u32;
        let digest =
            *blake3::hash(&[b"mimc-mpcith-zk-v1".as_slice(), &block.to_le_bytes()].concat())
                .as_bytes();
        let at = 4 * (i % 8);
        let word = u32::from_le_bytes([digest[at], digest[at + 1], digest[at + 2], digest[at + 3]]);
        assert_eq!(constant, word);
    }
    assert_eq!(constants.len(), 20);
}

#[test]
fn mimc_adds_the_cube_and_swaps() {
    let constants = mimc_constants(2);
    assert_eq!(mimc_hash_native(3, 4, 0), (3, 4));
    let x = 4u32.wrapping_add(constants[0]);
    let first = 3u32.wrapping_add(x.wrapping_mul(x).wrapping_mul(x));
    assert_eq!(mimc_hash_native(3, 4, 1), (4, first));
    let y = first.wrapping_add(constants[1]);
    let second = 4u32.wrapping_add(y.wrapping_mul(y).wrapping_mul(y));
    assert_eq!(mimc_hash_native(3, 4, 2), (first, second));
}

#[test]
fn challenges_are_stream_numbers() {
    let input = [
        b"mpcith-zk:fiat-shamir:v1".as_slice(),
        b"commitments",
        &7u32.to_le_bytes(),
        &8u32.to_le_bytes(),
        b"circuit",
        &20u64.to_le_bytes(),
        &5u64.to_le_bytes(),
    ]
    .concat();
    let mut rng = ChaCha20Rng::from_seed(sha3(&input));
    let expected: Vec<usize> = (0..20).map(|_| (rng.next_u64() % 5) as usize).collect();
    assert_eq!(derive_challenges(b"commitments", &[7, 8], b"circuit", 20, 5), expected);
}

#[test]
fn circuit_digests_cover_every_field() {
    let mut builder = CircuitBuilder::new(2);
    let sum = builder.add(0, 1);
    let product = builder.mul(sum, 1);
    let more = builder.add_const(product, 9);
    let scaled = builder.mul_const(more, 10);
    builder.assert_eq(scaled, 11);
    let circuit = builder.build(1);
    let n = |x: u64| -> [u8; 8] { x.to_le_bytes() };
    let input = [
        b"mpcith-zk:circuit:v1".as_slice(),
        &n(7),
        &n(2),
        &n(1),
        &n(5),
        b"ADD",
        &n(0),
        &n(1),
        &n(2),
        b"MUL",
        &n(2),
        &n(1),
        &n(3),
        b"ADDC",
        &n(3),
        &9u32.to_le_bytes(),
        &n(4),
        b"MULC",
        &n(4),
        &10u32.to_le_bytes(),
        &n(5),
        b"AEQC",
        &n(5),
        &11u32.to_le_bytes(),
        &n(6),
    ]
    .concat();
    assert_eq!(hash_circuit(&circuit), sha3(&input).to_vec());
}

#[test]
fn contexts_hash_to_the_first_digest_word() {
    let digest = sha3(b"block-42");
    let word = u32::from_le_bytes([digest[0], digest[1], digest[2], digest[3]]);
    assert_eq!(hash_context_to_u32(b"block-42"), word);
    assert_eq!(hash_context_to_u32(b""), 0);
    let statement = TransactionStatement {
        amount_range: (3, 9),
        authorized_set_root: 77,
        merkle_depth: 1,
        num_members: 2,
        context: b"block-42".to_vec(),
        members: vec![1, 2],
    };
    assert_eq!(encode_public_inputs(&statement), vec![3, 9, 77, word]);
}
