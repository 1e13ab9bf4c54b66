//! Additive secret sharing.
//!
//! A word is shared among parties as words that add up to it modulo 2^32. All shares but the last
//! are random; the last one is what is missing.

use crate::encoding;
use crate::hash;
use crate::hash::Draws;
use crate::ring;
use vstd::prelude::*;

verus! {

/// The shares of `value` of which all but the last are given.
pub open spec fn additive_shares(value: u32, words: Seq<u32>) -> Seq<u32> {
    words.push(ring::wrap(value - ring::total(words)))
}

/// The exclusive-or shares of `value` of which all but the last are given.
pub open spec fn xor_shares(value: u32, words: Seq<u32>) -> Seq<u32> {
    words.push(value ^ ring::xor_total(words, words.len()))
}

/// Shares add up to the shared value.
pub proof fn lemma_additive_shares(value: u32, words: Seq<u32>)
    ensures
        ring::wrap(ring::total(additive_shares(value, words))) == value,
{
    let t = ring::total(words);
    ring::lemma_total_push(words, ring::wrap(value - t));
    ring::lemma_wrap_add(t, value - t);
    ring::lemma_wrap_word(value);
}

/// Exclusive-or shares combine to the shared value.
pub proof fn lemma_xor_shares(value: u32, words: Seq<u32>)
    ensures
        ring::xor_total(xor_shares(value, words), words.len() + 1) == value,
{
    let s = xor_shares(value, words);
    ring::lemma_xor_total_ext(s, words, words.len());
    let x = ring::xor_total(words, words.len());
    assert(x ^ (value ^ x) == value) by (bit_vector);
}

/// The shares of a word, one per party.
#[derive(Debug)]
pub struct Sharing {
    /// The share of each party.
    pub shares: Vec<u32>,
}

impl Clone for Sharing {
    fn clone(&self) -> (r: Self)
        ensures
            r.shares@ == self.shares@,
    {
        Sharing { shares: encoding::copy_words(&self.shares) }
    }
}

impl Sharing {
    /// The shared word.
    pub open spec fn value(self) -> u32 {
        ring::wrap(ring::total(self.shares@))
    }

    /// The word shared by exclusive or.
    pub open spec fn xor_value(self) -> u32 {
        ring::xor_total(self.shares@, self.shares@.len())
    }

    /// Shares `value` among `num_parties`; the shares of all but the last party are the given
    /// random words.
    pub fn share(value: u32, num_parties: usize, randomness: &[u32]) -> (r: Self)
        requires
            num_parties >= 2,
            randomness@.len() >= num_parties - 1,
        ensures
            r.shares@ == additive_shares(value, randomness@.subrange(0, num_parties - 1)),
            r.shares@.len() == num_parties,
            r.value() == value,
            ring::total(r.shares@) % 0x1_0000_0000 == value,
            forall|p: int| 0 <= p < num_parties - 1 ==> #[trigger] r.shares@[p] == randomness@[p],
    {
        let mut shares: Vec<u32> = Vec::with_capacity(num_parties);
        let mut sum: u32 = 0;
        let mut p: usize = 0;
        while p < num_parties - 1
            invariant
                p <= num_parties - 1,
                num_parties >= 2,
                randomness@.len() >= num_parties - 1,
                shares@ == randomness@.subrange(0, p as int),
                sum == ring::wrap(ring::total(shares@)),
            decreases num_parties - p,
        {
            let word: u32 = randomness[p];
            proof {
                let t = ring::total(shares@);
                ring::lemma_wrapping_ops(sum, word);
                ring::lemma_wrap_add(t, word as int);
                ring::lemma_total_push(shares@, word);
                assert(shares@.push(word) =~= randomness@.subrange(0, p + 1));
            }
            shares.push(word);
            sum = sum.wrapping_add(word);
            p = p + 1;
        }
        proof {
            ring::lemma_wrapping_ops(value, sum);
            ring::lemma_wrap_sub(value as int, ring::total(shares@));
            lemma_additive_shares(value, shares@);
        }
        shares.push(value.wrapping_sub(sum));
        Sharing { shares }
    }

    /// Shares `value` among `num_parties`; the share of each party but the last is the next word
    /// of that party's generator.
    pub fn share_with_rngs(value: u32, num_parties: usize, party_rngs: &mut Vec<PartyRng>) -> (r:
        Self)
        requires
            num_parties >= 2,
            old(party_rngs)@.len() >= num_parties - 1,
            forall|p: int|
                0 <= p < num_parties - 1 ==> (#[trigger] old(party_rngs)@[p]).position < u128::MAX,
        ensures
            r.shares@ == additive_shares(
                value,
                Seq::new((num_parties - 1) as nat, |p: int| old(party_rngs)@[p].word()),
            ),
            r.shares@.len() == num_parties,
            r.value() == value,
            ring::total(r.shares@) % 0x1_0000_0000 == value,
            forall|p: int|
                0 <= p < num_parties - 1 ==> #[trigger] r.shares@[p] == hash::chacha20_stream_word(
                    old(party_rngs)@[p].key@,
                    old(party_rngs)@[p].position as nat,
                ),
            final(party_rngs)@ == Seq::new(
                old(party_rngs)@.len(),
                |p: int|
                    if p < num_parties - 1 {
                        old(party_rngs)@[p].advanced()
                    } else {
                        old(party_rngs)@[p]
                    },
            ),
    {
        let ghost start = party_rngs@;
        let mut words: Vec<u32> = Vec::with_capacity(num_parties - 1);
        let mut p: usize = 0;
        while p < num_parties - 1
            invariant
                p <= num_parties - 1,
                num_parties >= 2,
                start.len() >= num_parties - 1,
                party_rngs@.len() == start.len(),
                words@.len() == p,
                forall|q: int|
                    0 <= q < num_parties - 1 ==> (#[trigger] start[q]).position < u128::MAX,
                forall|q: int| 0 <= q < p ==> #[trigger] words@[q] == start[q].word(),
                forall|q: int|
                    0 <= q < start.len() ==> #[trigger] party_rngs@[q] == if q < p {
                        start[q].advanced()
                    } else {
                        start[q]
                    },
            decreases num_parties - p,
        {
            let mut rng: PartyRng = party_rngs[p];
            proof {
                assert(party_rngs@[p as int] == start[p as int]);
            }
            words.push(rng.next_u32());
            party_rngs[p] = rng;
            p = p + 1;
        }
        proof {
            assert(words@.subrange(0, num_parties - 1) =~= Seq::new(
                (num_parties - 1) as nat,
                |q: int| start[q].word(),
            ));
            assert(party_rngs@ =~= Seq::new(
                start.len(),
                |q: int|
                    if q < num_parties - 1 {
                        start[q].advanced()
                    } else {
                        start[q]
                    },
            ));
        }
        Sharing::share(value, num_parties, &words)
    }

    /// Shares `value` by exclusive or; the shares of all but the last party are the given random
    /// words.
    pub fn share_xor(value: u32, num_parties: usize, randomness: &[u32]) -> (r: Self)
        requires
            num_parties >= 2,
            randomness@.len() >= num_parties - 1,
        ensures
            r.shares@ == xor_shares(value, randomness@.subrange(0, num_parties - 1)),
            r.shares@.len() == num_parties,
            r.xor_value() == value,
            ring::xor_total(r.shares@, num_parties as nat) == value,
            forall|p: int| 0 <= p < num_parties - 1 ==> #[trigger] r.shares@[p] == randomness@[p],
    {
        let mut shares: Vec<u32> = Vec::with_capacity(num_parties);
        let mut acc: u32 = 0;
        let mut p: usize = 0;
        while p < num_parties - 1
            invariant
                p <= num_parties - 1,
                num_parties >= 2,
                randomness@.len() >= num_parties - 1,
                shares@ == randomness@.subrange(0, p as int),
                acc == ring::xor_total(shares@, p as nat),
            decreases num_parties - p,
        {
            let word: u32 = randomness[p];
            proof {
                assert(shares@.push(word) =~= randomness@.subrange(0, p + 1));
                ring::lemma_xor_total_ext(shares@, shares@.push(word), p as nat);
            }
            shares.push(word);
            acc = acc ^ word;
            p = p + 1;
        }
        proof {
            lemma_xor_shares(value, shares@);
        }
        shares.push(value ^ acc);
        Sharing { shares }
    }

    /// The shared word.
    pub fn reconstruct(&self) -> (r: u32)
        ensures
            r == self.value(),
            r as int == ring::total(self.shares@) % 0x1_0000_0000,
    {
        let mut sum: u32 = 0;
        let mut i: usize = 0;
        while i < self.shares.len()
            invariant
                i <= self.shares.len(),
                sum == ring::wrap(
                    ring::sigma(i as nat, |j: int| self.shares@[j] as int),
                ),
            decreases self.shares.len() - i,
        {
            proof {
                ring::lemma_wrapping_ops(sum, self.shares@[i as int]);
                ring::lemma_wrap_add(
                    ring::sigma(i as nat, |j: int| self.shares@[j] as int),
                    self.shares@[i as int] as int,
                );
            }
            sum = sum.wrapping_add(self.shares[i]);
            i = i + 1;
        }
        sum
    }

    /// Number of parties.
    pub fn num_parties(&self) -> (r: usize)
        ensures
            r == self.shares@.len(),
    {
        self.shares.len()
    }

    /// Adds the shared words; each party adds its shares.
    pub fn add(&self, other: &Sharing) -> (r: Sharing)
        requires
            self.shares@.len() == other.shares@.len(),
        ensures
            r.shares@ == added(self.shares@, other.shares@),
            r.value() == ring::wrap(self.value() + other.value()),
    {
        let mut shares: Vec<u32> = Vec::with_capacity(self.shares.len());
        let mut p: usize = 0;
        while p < self.shares.len()
            invariant
                p <= self.shares.len(),
                self.shares@.len() == other.shares@.len(),
                shares@ =~= added(self.shares@, other.shares@).subrange(0, p as int),
            decreases self.shares.len() - p,
        {
            proof {
                ring::lemma_wrapping_ops(self.shares@[p as int], other.shares@[p as int]);
            }
            shares.push(self.shares[p].wrapping_add(other.shares[p]));
            p = p + 1;
        }
        proof {
            assert(shares@ =~= added(self.shares@, other.shares@));
            lemma_added(self.shares@, other.shares@);
        }
        Sharing { shares }
    }

    /// Adds a public constant; the first party adds it to its share.
    pub fn add_const(&self, constant: u32) -> (r: Sharing)
        requires
            self.shares@.len() >= 1,
        ensures
            r.shares@ == shifted(self.shares@, constant),
            r.value() == ring::wrap(self.value() + constant),
    {
        let mut shares: Vec<u32> = encoding::copy_words(&self.shares);
        proof {
            ring::lemma_wrapping_ops(self.shares@[0], constant);
            lemma_shifted(self.shares@, constant);
        }
        shares[0] = shares[0].wrapping_add(constant);
        Sharing { shares }
    }

    /// Multiplies by a public constant; each party multiplies its share.
    pub fn mul_const(&self, constant: u32) -> (r: Sharing)
        ensures
            r.shares@ == scaled(self.shares@, constant),
            r.value() == ring::wrap(self.value() * constant),
    {
        let mut shares: Vec<u32> = Vec::with_capacity(self.shares.len());
        let mut p: usize = 0;
        while p < self.shares.len()
            invariant
                p <= self.shares.len(),
                shares@ =~= scaled(self.shares@, constant).subrange(0, p as int),
            decreases self.shares.len() - p,
        {
            proof {
                ring::lemma_wrapping_ops(self.shares@[p as int], constant);
            }
            shares.push(self.shares[p].wrapping_mul(constant));
            p = p + 1;
        }
        proof {
            assert(shares@ =~= scaled(self.shares@, constant));
            lemma_scaled(self.shares@, constant);
        }
        Sharing { shares }
    }

    /// Combines exclusive-or sharings; each party combines its shares.
    pub fn xor(&self, other: &Sharing) -> (r: Sharing)
        requires
            self.shares@.len() == other.shares@.len(),
        ensures
            r.shares@ == Seq::new(
                self.shares@.len(),
                |p: int| self.shares@[p] ^ other.shares@[p],
            ),
            r.xor_value() == self.xor_value() ^ other.xor_value(),
    {
        let ghost expected = Seq::new(
            self.shares@.len(),
            |p: int| self.shares@[p] ^ other.shares@[p],
        );
        let mut shares: Vec<u32> = Vec::with_capacity(self.shares.len());
        let mut p: usize = 0;
        while p < self.shares.len()
            invariant
                p <= self.shares.len(),
                self.shares@.len() == other.shares@.len(),
                expected == Seq::new(
                    self.shares@.len(),
                    |p: int| self.shares@[p] ^ other.shares@[p],
                ),
                shares@ =~= expected.subrange(0, p as int),
            decreases self.shares.len() - p,
        {
            shares.push(self.shares[p] ^ other.shares[p]);
            p = p + 1;
        }
        proof {
            assert(shares@ =~= expected);
            lemma_xor_pairs(self.shares@, other.shares@, expected, expected.len());
        }
        Sharing { shares }
    }

    /// The word shared by exclusive or.
    pub fn reconstruct_xor(&self) -> (r: u32)
        ensures
            r == self.xor_value(),
            r == ring::xor_total(self.shares@, self.shares@.len()),
    {
        let mut acc: u32 = 0;
        let mut i: usize = 0;
        while i < self.shares.len()
            invariant
                i <= self.shares.len(),
                acc == ring::xor_total(self.shares@, i as nat),
            decreases self.shares.len() - i,
        {
            acc = acc ^ self.shares[i];
            i = i + 1;
        }
        acc
    }
}

/// Shares added party by party.
pub open spec fn added(x: Seq<u32>, y: Seq<u32>) -> Seq<u32> {
    Seq::new(x.len(), |p: int| ring::wrap(x[p] + y[p]))
}

/// Shares with a constant added to the first.
pub open spec fn shifted(x: Seq<u32>, c: u32) -> Seq<u32> {
    x.update(0, ring::wrap(x[0] + c))
}

/// Shares multiplied by a constant.
pub open spec fn scaled(x: Seq<u32>, c: u32) -> Seq<u32> {
    Seq::new(x.len(), |p: int| ring::wrap(x[p] * c))
}

/// Adding shares adds the shared words.
pub proof fn lemma_added(x: Seq<u32>, y: Seq<u32>)
    requires
        x.len() == y.len(),
    ensures
        ring::wrap(ring::total(added(x, y))) == ring::wrap(
            ring::wrap(ring::total(x)) + ring::wrap(ring::total(y)),
        ),
{
    let n = x.len();
    let f = |p: int| x[p] as int;
    let g = |p: int| y[p] as int;
    let h = |p: int| f(p) + g(p);
    ring::lemma_sigma_ext(n, |p: int| added(x, y)[p] as int, |p: int| ring::wrap(h(p)) as int);
    ring::lemma_sigma_wrap(n, h);
    ring::lemma_sigma_add(n, f, g);
    ring::lemma_wrap_add(ring::total(x), ring::total(y));
}

/// Adding a constant to one share adds it to the shared word.
pub proof fn lemma_shifted(x: Seq<u32>, c: u32)
    requires
        x.len() >= 1,
    ensures
        ring::wrap(ring::total(shifted(x, c))) == ring::wrap(ring::wrap(ring::total(x)) + c),
{
    let n = x.len();
    let f = |p: int| x[p] as int;
    let g = |p: int| shifted(x, c)[p] as int;
    ring::lemma_sigma_front(n, f);
    ring::lemma_sigma_front(n, g);
    let m = (n - 1) as nat;
    ring::lemma_sigma_ext(m, |i: int| f(i + 1), |i: int| g(i + 1));
    let rest = ring::sigma(m, |i: int| f(i + 1));
    ring::lemma_wrap_add(x[0] + c, rest);
    ring::lemma_wrap_add(ring::total(x), c as int);
}

/// Multiplying the shares multiplies the shared word.
pub proof fn lemma_scaled(x: Seq<u32>, c: u32)
    ensures
        ring::wrap(ring::total(scaled(x, c))) == ring::wrap(ring::wrap(ring::total(x)) * c),
{
    let n = x.len();
    let f = |p: int| x[p] as int;
    let h = |p: int| c as int * f(p);
    assert forall|p: int| 0 <= p < n implies scaled(x, c)[p] as int == ring::wrap(
        #[trigger] h(p),
    ) as int by {
        assert(x[p] * c == c as int * x[p] as int) by (nonlinear_arith);
    }
    ring::lemma_sigma_ext(n, |p: int| scaled(x, c)[p] as int, |p: int| ring::wrap(h(p)) as int);
    ring::lemma_sigma_wrap(n, h);
    ring::lemma_sigma_scale(n, c as int, f);
    ring::lemma_sigma_ext(n, h, |i: int| c as int * f(i));
    let t = ring::total(x);
    assert(c as int * t == t * c) by (nonlinear_arith);
    ring::lemma_wrap_mul(t, c as int);
}

proof fn lemma_xor_pairs(x: Seq<u32>, y: Seq<u32>, z: Seq<u32>, n: nat)
    requires
        forall|i: int| 0 <= i < n ==> #[trigger] z[i] == x[i] ^ y[i],
    ensures
        ring::xor_total(z, n) == ring::xor_total(x, n) ^ ring::xor_total(y, n),
    decreases n,
{
    if n == 0 {
        assert(0u32 ^ 0u32 == 0u32) by (bit_vector);
    } else {
        let m = (n - 1) as nat;
        lemma_xor_pairs(x, y, z, m);
        let a = ring::xor_total(x, m);
        let b = ring::xor_total(y, m);
        let c = x[n - 1];
        let d = y[n - 1];
        assert((a ^ b) ^ (c ^ d) == (a ^ c) ^ (b ^ d)) by (bit_vector);
    }
}

proof fn lemma_total_update(s: Seq<u32>, j: int, x: u32, n: nat)
    requires
        0 <= j < s.len(),
        n <= s.len(),
    ensures
        ring::sigma(n, |i: int| s.update(j, x)[i] as int) == ring::sigma(n, |i: int| s[i] as int)
            + if j < n {
            x - s[j]
        } else {
            0
        },
    decreases n,
{
    if n > 0 {
        lemma_total_update(s, j, x, (n - 1) as nat);
    }
}

/// All shares but one say nothing about the value: whatever they are, the missing share can make
/// them a sharing of any value.
pub proof fn lemma_shares_hide(shares: Seq<u32>, missing: int, value: u32) -> (x: u32)
    requires
        0 <= missing < shares.len(),
    ensures
        ring::wrap(ring::total(shares.update(missing, x))) == value,
{
    let others = ring::total(shares) - shares[missing];
    let x = ring::wrap(value - others);
    lemma_total_update(shares, missing, x, shares.len());
    assert(ring::total(shares.update(missing, x)) == others + x);
    ring::lemma_wrap_add(others, value - others);
    ring::lemma_wrap_word(value);
    x
}

/// The shares of every wire.
#[derive(Debug)]
pub struct SharedTrace {
    pub wires: Vec<Sharing>,
    pub num_parties: usize,
}

/// The contents of a list of sharings.
pub open spec fn sharings(wires: Seq<Sharing>) -> Seq<Seq<u32>> {
    Seq::new(wires.len(), |w: int| wires[w].shares@)
}

/// The shares of party `p`.
pub open spec fn column(wires: Seq<Seq<u32>>, p: int) -> Seq<u32> {
    Seq::new(wires.len(), |w: int| wires[w][p])
}

impl SharedTrace {
    /// A trace without wires; there is room for `num_wires`.
    pub fn new(num_wires: usize, num_parties: usize) -> (r: Self)
        ensures
            r.wires@ == Seq::<Sharing>::empty(),
            r.num_parties == num_parties,
    {
        SharedTrace { wires: Vec::with_capacity(num_wires), num_parties }
    }

    /// The shares of one party.
    pub fn party_view(&self, party: usize) -> (r: Vec<u32>)
        requires
            forall|w: int|
                0 <= w < self.wires@.len() ==> party < (#[trigger] self.wires@[w]).shares@.len(),
        ensures
            r@ == column(sharings(self.wires@), party as int),
            r@.len() == self.wires@.len(),
            forall|w: int|
                0 <= w < self.wires@.len() ==> #[trigger] r@[w]
                    == self.wires@[w].shares@[party as int],
    {
        let ghost expected = column(sharings(self.wires@), party as int);
        let mut out: Vec<u32> = Vec::with_capacity(self.wires.len());
        let mut w: usize = 0;
        while w < self.wires.len()
            invariant
                w <= self.wires.len(),
                expected == column(sharings(self.wires@), party as int),
                forall|w: int|
                    0 <= w < self.wires@.len() ==> party < (#[trigger] self.wires@[w]).shares@.len(),
                out@ =~= expected.subrange(0, w as int),
            decreases self.wires.len() - w,
        {
            proof {
                assert(party < self.wires@[w as int].shares@.len());
            }
            out.push(self.wires[w].shares[party]);
            w = w + 1;
        }
        proof {
            assert(out@ =~= expected);
        }
        out
    }

    /// The word on a wire.
    pub fn reconstruct_wire(&self, wire: usize) -> (r: u32)
        requires
            wire < self.wires@.len(),
        ensures
            r == self.wires@[wire as int].value(),
            r as int == ring::total(self.wires@[wire as int].shares@) % 0x1_0000_0000,
    {
        self.wires[wire].reconstruct()
    }
}

impl Clone for SharedTrace {
    fn clone(&self) -> (r: Self)
        ensures
            sharings(r.wires@) == sharings(self.wires@),
            r.num_parties == self.num_parties,
    {
        let mut wires: Vec<Sharing> = Vec::with_capacity(self.wires.len());
        let mut w: usize = 0;
        while w < self.wires.len()
            invariant
                w <= self.wires.len(),
                wires@.len() == w,
                forall|j: int|
                    0 <= j < w ==> (#[trigger] wires@[j]).shares@ == self.wires@[j].shares@,
            decreases self.wires.len() - w,
        {
            wires.push(self.wires[w].clone());
            w = w + 1;
        }
        proof {
            assert(sharings(wires@) =~= sharings(self.wires@));
        }
        SharedTrace { wires, num_parties: self.num_parties }
    }
}

/// A generator of words: the ChaCha20 key stream of a key, from a position on.
#[derive(Clone, Copy, Debug)]
pub struct PartyRng {
    pub key: [u8; 32],
    pub position: u128,
}

impl PartyRng {
    /// The next word.
    pub open spec fn word(self) -> u32 {
        hash::chacha20_stream_word(self.key@, self.position as nat)
    }

    /// The generator after one word.
    pub open spec fn advanced(self) -> PartyRng {
        PartyRng { key: self.key, position: (self.position + 1) as u128 }
    }

    /// Takes the next word.
    pub fn next_u32(&mut self) -> (r: u32)
        requires
            old(self).position < u128::MAX,
        ensures
            r == old(self).word(),
            *final(self) == old(self).advanced(),
    {
        let word: u32 = hash::chacha20_word(&self.key, self.position);
        self.position = self.position + 1;
        word
    }

    /// The next words, without taking them.
    pub fn peek_words(&self, count: usize) -> (r: Vec<u32>)
        requires
            self.position + count <= u128::MAX,
        ensures
            r@ == hash::stream_words(self.key@, self.position as nat, count as nat),
    {
        hash::chacha20_words(&self.key, self.position, count)
    }
}

/// The seed of a party's randomness.
#[derive(Clone, Copy, Debug)]
pub struct PartySeed(pub [u8; 32]);

impl PartySeed {
    /// A fresh seed from the thread's random source. Nothing is promised of its bytes.
    pub fn random() -> (r: Self) {
        let mut draws: Draws = Draws::none();
        PartySeed(hash::random_bytes(&mut draws))
    }

    /// The generator of this seed for a domain: its key is the BLAKE3 digest of the seed and the
    /// domain.
    pub fn to_rng(&self, domain: &[u8]) -> (r: PartyRng)
        ensures
            r.key@ == hash::blake3_digest(self.0@ + domain@),
            r.position == 0,
    {
        let mut input: Vec<u8> = Vec::with_capacity(32);
        encoding::push_block(&mut input, &self.0);
        encoding::push_bytes(&mut input, domain);
        proof {
            assert(input@ =~= self.0@ + domain@);
        }
        PartyRng { key: hash::blake3_hash(&input), position: 0 }
    }
}

/// All shares but the last are the given words, and all together add up to the value modulo 2^32.
pub proof fn lemma_shares_given(value: u32, words: Seq<u32>)
    ensures
        additive_shares(value, words).drop_last() == words,
        ring::total(additive_shares(value, words)) % 0x1_0000_0000 == value,
        xor_shares(value, words).drop_last() == words,
        ring::xor_total(xor_shares(value, words), words.len() + 1) == value,
{
    assert(additive_shares(value, words).drop_last() =~= words);
    assert(xor_shares(value, words).drop_last() =~= words);
    lemma_additive_shares(value, words);
    lemma_xor_shares(value, words);
}

/// Each party adds its two shares, or multiplies its share by the constant; of a constant that is
/// added only the first party takes note.
pub proof fn lemma_local_shares(x: Seq<u32>, y: Seq<u32>, c: u32, p: int)
    requires
        0 <= p < x.len(),
        x.len() == y.len(),
    ensures
        added(x, y).len() == x.len() && shifted(x, c).len() == x.len() && scaled(x, c).len()
            == x.len(),
        added(x, y)[p] as int == (x[p] + y[p]) % 0x1_0000_0000,
        scaled(x, c)[p] as int == (x[p] * c) % 0x1_0000_0000,
        shifted(x, c)[p] as int == if p == 0 {
            (x[p] + c) % 0x1_0000_0000
        } else {
            x[p] as int
        },
{
}

/// The words of a generator are those of the ChaCha20 key stream, each taken once.
pub proof fn lemma_generator(g: PartyRng)
    requires
        g.position < u128::MAX,
    ensures
        g.word() == hash::chacha20_stream_word(g.key@, g.position as nat),
        g.advanced().key == g.key,
        g.advanced().position == g.position + 1,
{
}

} // verus!
