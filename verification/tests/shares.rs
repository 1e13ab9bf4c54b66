//! Sharing words among parties.

use mpcith_zk::sharing::PartySeed;
use mpcith_zk::sharing::Sharing;

fn random_words(n: usize) -> Vec<u32> {
    let mut rng = PartySeed::random().to_rng(b"test");
    (0..n).map(|_| rng.next_u32()).collect()
}

#[test]
fn test_share_reconstruct() {
    for value in [0u32, 1, 42, u32::MAX, 1337] {
        for n in [2usize, 3, 5, 16] {
            let sharing = Sharing::share(value, n, &random_words(n));
            assert_eq!(sharing.reconstruct(), value, "n={n}, v={value}");
        }
    }
}

#[test]
fn test_linear_operations() {
    let a = Sharing::share(10, 3, &random_words(3));
    let b = Sharing::share(5, 3, &random_words(3));

    assert_eq!(a.add(&b).reconstruct(), 15);
    assert_eq!(a.add_const(7).reconstruct(), 17);
    assert_eq!(a.mul_const(3).reconstruct(), 30);
    // XOR sharing is reconstructed by XOR-ing all shares, not adding them.
    let xa = Sharing::share_xor(10, 3, &random_words(3));
    let xb = Sharing::share_xor(5, 3, &random_words(3));
    assert_eq!(xa.xor(&xb).reconstruct_xor(), 10 ^ 5);
}
