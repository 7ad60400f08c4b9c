//! Keys in the space of the DHT and the distance between them.
use crate::identity::PeerId;
use crate::record;
use libp2prs_core::multihash::MultihashDigest;
use vstd::arithmetic::power2::pow2;
use vstd::prelude::*;

verus! {

/// The SHA-256 digest of some bytes.
pub uninterp spec fn sha256(data: Seq<u8>) -> Seq<u8>;

/// Calls `libp2prs_core::multihash::Code::Sha2_256.digest` and hands back the bytes of the digest,
/// without the code and the length that a multihash puts in front of them. They are a function of
/// the data alone, and there are 32 of them.
#[verifier::external_body]
fn sha256_digest(data: &Vec<u8>) -> (r: Vec<u8>)
    ensures
        r@ == sha256(data@),
        r@.len() == 32,
{
    libp2prs_core::multihash::Code::Sha2_256.digest(data).digest().to_vec()
}

/// A point of the key space: a number of 256 bits, the most significant word first.
#[derive(Debug, Clone, Copy, PartialEq, Eq, Structural)]
pub struct KeyBytes {
    pub w0: u64,
    pub w1: u64,
    pub w2: u64,
    pub w3: u64,
}

/// The eight bytes of `d` from `at` on, read as a number with the most significant byte first.
pub open spec fn word_at(d: Seq<u8>, at: int) -> int {
    d[at] * 0x100_0000_0000_0000 + d[at + 1] * 0x1_0000_0000_0000 + d[at + 2] * 0x100_0000_0000
        + d[at + 3] * 0x1_0000_0000 + d[at + 4] * 0x100_0000 + d[at + 5] * 0x1_0000 + d[at + 6]
        * 0x100 + d[at + 7]
}

/// The point of the key space that a digest stands for.
pub open spec fn point_of(d: Seq<u8>) -> KeyBytes {
    KeyBytes {
        w0: word_at(d, 0) as u64,
        w1: word_at(d, 8) as u64,
        w2: word_at(d, 16) as u64,
        w3: word_at(d, 24) as u64,
    }
}

/// The point of the key space that some bytes hash to.
pub open spec fn hash_of(data: Seq<u8>) -> KeyBytes {
    point_of(sha256(data))
}

/// Reads eight bytes of `d` as a number.
fn read_word(d: &Vec<u8>, at: usize) -> (r: u64)
    requires
        at <= 24,
        d@.len() == 32,
    ensures
        r == word_at(d@, at as int),
{
    d[at] as u64 * 0x100_0000_0000_0000 + d[at + 1] as u64 * 0x1_0000_0000_0000 + d[at + 2] as u64
        * 0x100_0000_0000 + d[at + 3] as u64 * 0x1_0000_0000 + d[at + 4] as u64 * 0x100_0000 + d[at
        + 5] as u64 * 0x1_0000 + d[at + 6] as u64 * 0x100 + d[at + 7] as u64
}

impl KeyBytes {
    /// The point of the key space that a digest of 32 bytes stands for.
    pub fn from_digest(digest: &Vec<u8>) -> (r: KeyBytes)
        requires
            digest@.len() == 32,
        ensures
            r == point_of(digest@),
    {
        KeyBytes {
            w0: read_word(digest, 0),
            w1: read_word(digest, 8),
            w2: read_word(digest, 16),
            w3: read_word(digest, 24),
        }
    }

    /// The point of the key space that some bytes hash to.
    pub fn hash(data: &Vec<u8>) -> (r: KeyBytes)
        ensures
            r == hash_of(data@),
    {
        let digest = sha256_digest(data);
        KeyBytes::from_digest(&digest)
    }

    /// The distance to another point, bit by bit.
    pub open spec fn xor(self, other: KeyBytes) -> Distance {
        Distance {
            w0: self.w0 ^ other.w0,
            w1: self.w1 ^ other.w1,
            w2: self.w2 ^ other.w2,
            w3: self.w3 ^ other.w3,
        }
    }

    /// The distance to another point as a number.
    pub open spec fn to(self, other: KeyBytes) -> nat {
        self.xor(other)@
    }

    /// Computes the distance to another point: the bitwise exclusive or of the two.
    pub fn distance(&self, other: &KeyBytes) -> (r: Distance)
        ensures
            r == self.xor(*other),
    {
        Distance {
            w0: self.w0 ^ other.w0,
            w1: self.w1 ^ other.w1,
            w2: self.w2 ^ other.w2,
            w3: self.w3 ^ other.w3,
        }
    }
}

/// A distance between two points of the key space.
#[derive(Debug, Clone, Copy, PartialEq, Eq, Structural)]
pub struct Distance {
    pub w0: u64,
    pub w1: u64,
    pub w2: u64,
    pub w3: u64,
}

impl View for Distance {
    type V = nat;

    open spec fn view(&self) -> nat {
        self.w0 as nat * 0x1_0000_0000_0000_0000_0000_0000_0000_0000_0000_0000_0000_0000nat
            + self.w1 as nat * 0x1_0000_0000_0000_0000_0000_0000_0000_0000nat + self.w2 as nat
            * 0x1_0000_0000_0000_0000nat + self.w3 as nat
    }
}

impl Distance {
    /// Whether this distance is the shorter one.
    pub fn less(&self, other: &Distance) -> (r: bool)
        ensures
            r == (self@ < other@),
    {
        if self.w0 != other.w0 {
            self.w0 < other.w0
        } else if self.w1 != other.w1 {
            self.w1 < other.w1
        } else if self.w2 != other.w2 {
            self.w2 < other.w2
        } else {
            self.w3 < other.w3
        }
    }

    /// Whether the bucket with index `i` is the one for this distance.
    pub open spec fn in_bucket(self, i: nat) -> bool {
        pow2(i) <= self@ < pow2(i + 1)
    }

    /// The index of the bucket for this distance, which is the position of its highest bit.
    /// There is none for the distance of a point to itself.
    pub fn bucket_index(&self) -> (r: Option<usize>)
        ensures
            r is None <==> self@ == 0,
            r matches Some(i) ==> i < 256 && self.in_bucket(i as nat),
    {
        proof {
            vstd::arithmetic::power2::lemma2_to64();
            vstd::arithmetic::power2::lemma2_to64_rest();
            assert(pow2(128) == 0x1_0000_0000_0000_0000_0000_0000_0000_0000nat) by {
                vstd::arithmetic::power2::lemma_pow2_adds(64, 64);
            }
            assert(pow2(192)
                == 0x1_0000_0000_0000_0000_0000_0000_0000_0000_0000_0000_0000_0000nat) by {
                vstd::arithmetic::power2::lemma_pow2_adds(128, 64);
            }
        }
        if self.w0 != 0 {
            let b: usize = highest_bit(self.w0);
            proof {
                lemma_shifted(self.w0 as nat, b as nat, 192, (self@ - self.w0 * pow2(192)) as nat);
            }
            Some(192 + b)
        } else if self.w1 != 0 {
            let b: usize = highest_bit(self.w1);
            proof {
                lemma_shifted(self.w1 as nat, b as nat, 128, (self@ - self.w1 * pow2(128)) as nat);
            }
            Some(128 + b)
        } else if self.w2 != 0 {
            let b: usize = highest_bit(self.w2);
            proof {
                lemma_shifted(self.w2 as nat, b as nat, 64, self.w3 as nat);
            }
            Some(64 + b)
        } else if self.w3 != 0 {
            let b: usize = highest_bit(self.w3);
            Some(b)
        } else {
            None
        }
    }
}

proof fn lemma_highest_power(d: nat, n: nat)
    requires
        0 < d < pow2(n),
    ensures
        exists|i: nat| i < n && #[trigger] pow2(i) <= d < pow2(i + 1),
    decreases n,
{
    vstd::arithmetic::power2::lemma2_to64();
    if n > 0 {
        let m = (n - 1) as nat;
        if d < pow2(m) {
            lemma_highest_power(d, m);
        } else {
            assert(pow2(m) <= d < pow2(m + 1));
        }
    }
}

/// There is a bucket for every distance but that of a point to itself.
pub proof fn lemma_has_bucket(d: Distance)
    requires
        d@ > 0,
    ensures
        exists|i: nat| i < 256 && #[trigger] d.in_bucket(i),
{
    vstd::arithmetic::power2::lemma2_to64();
    vstd::arithmetic::power2::lemma2_to64_rest();
    assert(pow2(128) == 0x1_0000_0000_0000_0000_0000_0000_0000_0000nat) by {
        vstd::arithmetic::power2::lemma_pow2_adds(64, 64);
    }
    assert(d@ < pow2(256)) by {
        vstd::arithmetic::power2::lemma_pow2_adds(128, 128);
    }
    lemma_highest_power(d@, 256);
    let i = choose|i: nat| i < 256 && #[trigger] pow2(i) <= d@ < pow2(i + 1);
    assert(d.in_bucket(i));
}

/// The highest bit of a number keeps its place when lower words are put behind the number.
proof fn lemma_shifted(w: nat, b: nat, k: nat, low: nat)
    requires
        pow2(b) <= w < pow2(b + 1),
        low < pow2(k),
    ensures
        pow2(k + b) <= w * pow2(k) + low < pow2(k + b + 1),
{
    vstd::arithmetic::power2::lemma_pow2_adds(k, b);
    vstd::arithmetic::power2::lemma_pow2_adds(k, b + 1);
    assert(pow2(k) * pow2(b) <= w * pow2(k)) by (nonlinear_arith)
        requires
            pow2(b) <= w,
    ;
    assert(w * pow2(k) + pow2(k) <= pow2(k) * pow2(b + 1)) by (nonlinear_arith)
        requires
            w + 1 <= pow2(b + 1),
    ;
}

/// The position of the highest bit that is set in `w`.
fn highest_bit(w: u64) -> (r: usize)
    requires
        w != 0,
    ensures
        r < 64,
        pow2(r as nat) <= w < pow2(r as nat + 1),
{
    let mut x: u64 = w;
    let mut r: usize = 0;
    proof {
        vstd::arithmetic::power2::lemma2_to64();
    }
    while x > 1
        invariant
            x >= 1,
            x * pow2(r as nat) <= w,
            w < (x + 1) * pow2(r as nat),
            r < 64,
        decreases x,
    {
        let half: u64 = x / 2;
        proof {
            vstd::arithmetic::power2::lemma_pow2_unfold(r as nat + 1);
            vstd::arithmetic::power2::lemma_pow2_pos(r as nat);
            let p: int = pow2(r as nat) as int;
            let h: int = half as int;
            let y: int = x as int;
            assert(h * (2 * p) <= y * p) by (nonlinear_arith)
                requires
                    2 * h <= y,
                    p > 0,
            ;
            assert((y + 1) * p <= (h + 1) * (2 * p)) by (nonlinear_arith)
                requires
                    y + 1 <= 2 * h + 2,
                    p > 0,
            ;
            assert(1 * pow2(r as nat + 1) <= half * pow2(r as nat + 1)) by (nonlinear_arith)
                requires
                    half >= 1,
            ;
            assert(pow2(r as nat + 1) <= w);
            if r == 63 {
                vstd::arithmetic::power2::lemma2_to64_rest();
                assert(pow2(64) == 0x1_0000_0000_0000_0000nat);
            }
        }
        x = half;
        r = r + 1;
    }
    proof {
        assert(pow2(r as nat + 1) == 2 * pow2(r as nat)) by {
            vstd::arithmetic::power2::lemma_pow2_unfold(r as nat + 1);
        }
    }
    r
}

/// Something that has a place in the key space: the place that its bytes hash to.
pub trait Preimage {
    /// The bytes that are hashed.
    spec fn hashed_bytes(&self) -> Seq<u8>;

    /// The bytes that are hashed.
    fn bytes_to_hash(&self) -> (r: &Vec<u8>)
        ensures
            r@ == self.hashed_bytes(),
    ;
}

impl Preimage for PeerId {
    open spec fn hashed_bytes(&self) -> Seq<u8> {
        self@
    }

    fn bytes_to_hash(&self) -> (r: &Vec<u8>) {
        self.as_bytes()
    }
}

impl Preimage for record::Key {
    open spec fn hashed_bytes(&self) -> Seq<u8> {
        self@
    }

    fn bytes_to_hash(&self) -> (r: &Vec<u8>) {
        self.as_bytes()
    }
}

impl Preimage for Vec<u8> {
    open spec fn hashed_bytes(&self) -> Seq<u8> {
        self@
    }

    fn bytes_to_hash(&self) -> (r: &Vec<u8>) {
        self
    }
}

/// A key in the DHT keyspace with preserved preimage.
#[derive(Debug)]
pub struct Key<T> {
    preimage: T,
    bytes: KeyBytes,
}

impl<T: Preimage> Key<T> {
    /// Constructs a new key by hashing the bytes of the given preimage.
    pub fn new(preimage: T) -> (r: Key<T>)
        ensures
            r.valid(),
            r.preimage_spec() == preimage,
            r.point() == hash_of(preimage.hashed_bytes()),
    {
        let bytes: KeyBytes = KeyBytes::hash(preimage.bytes_to_hash());
        Key { preimage, bytes }
    }

    /// Whether the key stands where its preimage hashes to.
    pub open spec fn valid(self) -> bool {
        self.point() == hash_of(self.preimage_spec().hashed_bytes())
    }
}

impl<T> Key<T> {
    /// The preimage of the key.
    pub closed spec fn preimage_spec(self) -> T {
        self.preimage
    }

    /// The place of the key in the key space.
    pub closed spec fn point(self) -> KeyBytes {
        self.bytes
    }

    /// Borrows the preimage of the key.
    pub fn preimage(&self) -> (r: &T)
        ensures
            *r == self.preimage_spec(),
    {
        &self.preimage
    }

    /// Converts the key into its preimage.
    pub fn into_preimage(self) -> (r: T)
        ensures
            r == self.preimage_spec(),
    {
        self.preimage
    }

    /// The place of the key in the key space.
    pub fn key_bytes(&self) -> (r: KeyBytes)
        ensures
            r == self.point(),
    {
        self.bytes
    }

    /// Computes the distance of the keys.
    pub fn distance(&self, other: &KeyBytes) -> (r: Distance)
        ensures
            r == self.point().xor(*other),
    {
        self.bytes.distance(other)
    }
}

/// What the key of a peer says: who the peer is and where it stands in the key space.
pub struct PeerKeyView {
    pub id: Seq<u8>,
    pub point: KeyBytes,
}

impl PeerKeyView {
    /// Whether the peer stands where its identifier hashes to.
    pub open spec fn valid(self) -> bool {
        self.point == hash_of(self.id)
    }
}

impl View for Key<PeerId> {
    type V = PeerKeyView;

    open spec fn view(&self) -> PeerKeyView {
        PeerKeyView { id: self.preimage_spec()@, point: self.point() }
    }
}

impl DeepView for Key<PeerId> {
    type V = PeerKeyView;

    open spec fn deep_view(&self) -> PeerKeyView {
        self@
    }
}

impl Clone for Key<PeerId> {
    fn clone(&self) -> (r: Self)
        ensures
            r@ == self@,
    {
        Key { preimage: self.preimage.clone(), bytes: self.bytes }
    }
}

/// The distance is the same in both directions.
pub proof fn lemma_distance_symmetric(a: KeyBytes, b: KeyBytes)
    ensures
        a.xor(b) == b.xor(a),
        a.to(b) == b.to(a),
{
    lemma_xor_symmetric(a.w0, b.w0);
    lemma_xor_symmetric(a.w1, b.w1);
    lemma_xor_symmetric(a.w2, b.w2);
    lemma_xor_symmetric(a.w3, b.w3);
}

/// Only a point itself is at distance zero from it.
pub proof fn lemma_distance_zero(a: KeyBytes, b: KeyBytes)
    ensures
        a.to(b) == 0 <==> a == b,
{
    lemma_xor_zero(a.w0, b.w0);
    lemma_xor_zero(a.w1, b.w1);
    lemma_xor_zero(a.w2, b.w2);
    lemma_xor_zero(a.w3, b.w3);
}

/// No two points are at the same distance from a third.
pub proof fn lemma_distance_injective(t: KeyBytes, a: KeyBytes, b: KeyBytes)
    ensures
        t.to(a) == t.to(b) <==> a == b,
{
    if t.to(a) == t.to(b) {
        lemma_words_determined(t.xor(a), t.xor(b));
        lemma_xor_injective(t.w0, a.w0, b.w0);
        lemma_xor_injective(t.w1, a.w1, b.w1);
        lemma_xor_injective(t.w2, a.w2, b.w2);
        lemma_xor_injective(t.w3, a.w3, b.w3);
    }
}

proof fn lemma_words_determined(a: Distance, b: Distance)
    requires
        a@ == b@,
    ensures
        a == b,
{
    let base = 0x1_0000_0000_0000_0000int;
    let a1 = a.w0 * base + a.w1;
    let b1 = b.w0 * base + b.w1;
    let a2 = a1 * base + a.w2;
    let b2 = b1 * base + b.w2;
    assert(a@ == a2 * base + a.w3 && b@ == b2 * base + b.w3);
    assert(a2 == b2 && a.w3 == b.w3);
    assert(a1 == b1 && a.w2 == b.w2);
    assert(a.w0 == b.w0 && a.w1 == b.w1);
}

proof fn lemma_xor_symmetric(a: u64, b: u64)
    by (bit_vector)
    ensures
        a ^ b == b ^ a,
{
}

proof fn lemma_xor_zero(a: u64, b: u64)
    by (bit_vector)
    ensures
        a ^ b == 0 <==> a == b,
{
}

proof fn lemma_xor_injective(t: u64, a: u64, b: u64)
    by (bit_vector)
    ensures
        t ^ a == t ^ b <==> a == b,
{
}

/// A digest is read as one number of 256 bits, the most significant byte first: each word is eight
/// bytes in a row.
pub proof fn lemma_point_of(d: Seq<u8>)
    ensures
        ({
            let p = point_of(d);
            &&& p.w0 == ((((((d[0] * 256 + d[1]) * 256 + d[2]) * 256 + d[3]) * 256 + d[4]) * 256
                + d[5]) * 256 + d[6]) * 256 + d[7]
            &&& p.w1 == ((((((d[8] * 256 + d[9]) * 256 + d[10]) * 256 + d[11]) * 256 + d[12]) * 256
                + d[13]) * 256 + d[14]) * 256 + d[15]
            &&& p.w2 == ((((((d[16] * 256 + d[17]) * 256 + d[18]) * 256 + d[19]) * 256 + d[20])
                * 256 + d[21]) * 256 + d[22]) * 256 + d[23]
            &&& p.w3 == ((((((d[24] * 256 + d[25]) * 256 + d[26]) * 256 + d[27]) * 256 + d[28])
                * 256 + d[29]) * 256 + d[30]) * 256 + d[31]
        }),
{
}

/// Some bytes stand where their SHA-256 digest is, read as a number.
pub proof fn lemma_hash_of(data: Seq<u8>)
    ensures
        ({
            let d = sha256(data);
            let p = hash_of(data);
            &&& p.w0 == ((((((d[0] * 256 + d[1]) * 256 + d[2]) * 256 + d[3]) * 256 + d[4]) * 256
                + d[5]) * 256 + d[6]) * 256 + d[7]
            &&& p.w1 == ((((((d[8] * 256 + d[9]) * 256 + d[10]) * 256 + d[11]) * 256 + d[12]) * 256
                + d[13]) * 256 + d[14]) * 256 + d[15]
            &&& p.w2 == ((((((d[16] * 256 + d[17]) * 256 + d[18]) * 256 + d[19]) * 256 + d[20])
                * 256 + d[21]) * 256 + d[22]) * 256 + d[23]
            &&& p.w3 == ((((((d[24] * 256 + d[25]) * 256 + d[26]) * 256 + d[27]) * 256 + d[28])
                * 256 + d[29]) * 256 + d[30]) * 256 + d[31]
        }),
{
    lemma_point_of(sha256(data));
}

/// The distance between two points is their exclusive or, read as a number with the most significant
/// word first.
pub proof fn lemma_distance_words(a: KeyBytes, b: KeyBytes)
    ensures
        ({
            let base = 0x1_0000_0000_0000_0000int;
            a.to(b) == (((a.w0 ^ b.w0) * base + (a.w1 ^ b.w1)) * base + (a.w2 ^ b.w2)) * base + (
            a.w3 ^ b.w3)
        }),
{
}

/// Of two distances the one with the smaller word in the first place where they differ is shorter.
pub proof fn lemma_distance_order(a: Distance, b: Distance)
    ensures
        a.w0 < b.w0 ==> a@ < b@,
        a.w0 == b.w0 && a.w1 < b.w1 ==> a@ < b@,
        a.w0 == b.w0 && a.w1 == b.w1 && a.w2 < b.w2 ==> a@ < b@,
        a.w0 == b.w0 && a.w1 == b.w1 && a.w2 == b.w2 && a.w3 < b.w3 ==> a@ < b@,
        a == b ==> a@ == b@,
{
}

/// The way over a third point adds up bit by bit: the exclusive or of the two distances is the
/// distance between the ends.
pub proof fn lemma_distance_composes(a: KeyBytes, b: KeyBytes, c: KeyBytes)
    ensures
        a.xor(c).w0 == a.xor(b).w0 ^ b.xor(c).w0,
        a.xor(c).w1 == a.xor(b).w1 ^ b.xor(c).w1,
        a.xor(c).w2 == a.xor(b).w2 ^ b.xor(c).w2,
        a.xor(c).w3 == a.xor(b).w3 ^ b.xor(c).w3,
{
    lemma_xor_composes(a.w0, b.w0, c.w0);
    lemma_xor_composes(a.w1, b.w1, c.w1);
    lemma_xor_composes(a.w2, b.w2, c.w2);
    lemma_xor_composes(a.w3, b.w3, c.w3);
}

proof fn lemma_xor_composes(a: u64, b: u64, c: u64)
    by (bit_vector)
    ensures
        a ^ c == (a ^ b) ^ (b ^ c),
{
}

/// A peer, the key of a record and plain bytes with the same bytes stand at the same place.
pub proof fn lemma_same_place(peer: PeerId, key: record::Key, bytes: Vec<u8>)
    ensures
        peer.hashed_bytes() == peer@,
        key.hashed_bytes() == key@,
        bytes.hashed_bytes() == bytes@,
{
}

} // verus!
