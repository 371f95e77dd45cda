//! A byte buffer whose hash is its length and its first seven bytes.

use vstd::prelude::*;
use vstd::std_specs::cmp::PartialEqSpec;

verus! {

/// `256` to the power `n`.
pub open spec fn pow256(n: nat) -> nat
    decreases n,
{
    if n == 0 { 1 } else { 256 * pow256((n - 1) as nat) }
}

/// The bytes of `b` read as a little-endian number: `b[0]` is the lowest digit in base 256.
pub open spec fn packed(b: Seq<u8>) -> nat
    decreases b.len(),
{
    if b.len() == 0 {
        0
    } else {
        b[0] as nat + 256 * packed(b.subrange(1, b.len() as int))
    }
}

/// How many leading bytes take part in the digest.
pub open spec fn digest_width(len: nat) -> nat {
    if len < 7 { len } else { 7 }
}

/// The 64-bit digest of a key: the length modulo 256 in the lowest byte, then
/// byte `i` of the key in byte `i + 1` of the word, for the first seven bytes.
pub open spec fn lite_digest(b: Seq<u8>) -> nat {
    (b.len() % 256) + 256 * packed(b.take(digest_width(b.len()) as int))
}

/// A [`u8`] buffer that just uses its length and first 7 bytes as the hash.
///
/// Two keys of the same length modulo 256 with the same first 7 bytes share a
/// digest; the table still tells them apart by comparing all bytes.
#[derive(Debug)]
pub struct LiteHashBuffer {
    buffer: Vec<u8>,
    digest: u64,
}

impl View for LiteHashBuffer {
    type V = Seq<u8>;

    closed spec fn view(&self) -> Seq<u8> {
        self.buffer@
    }
}

proof fn lemma_packed_step(b: Seq<u8>, i: int, k: int)
    requires
        0 < i <= k <= b.len(),
    ensures
        packed(b.subrange(i - 1, k)) == b[i - 1] as nat + 256 * packed(b.subrange(i, k)),
{
    assert(b.subrange(i - 1, k).subrange(1, k - i + 1) =~= b.subrange(i, k));
}

impl LiteHashBuffer {
    /// The stored digest is the digest of the bytes.
    #[verifier::type_invariant]
    spec fn digest_is_cached(self) -> bool {
        self.digest as nat == lite_digest(self.buffer@)
    }

    /// Create a new instance with a buffer, computing its digest once.
    pub fn new(buffer: Vec<u8>) -> (r: Self)
        ensures
            r@ == buffer@,
    {
        let digest = digest_of(&buffer);
        Self { buffer, digest }
    }

    /// The bytes of the key.
    pub fn bytes(&self) -> (r: &Vec<u8>)
        ensures
            r@ == self@,
    {
        &self.buffer
    }

    /// Give back the bytes of the key.
    pub fn into_bytes(self) -> (r: Vec<u8>)
        ensures
            r@ == self@,
    {
        self.buffer
    }

    /// The 64-bit digest that the hash table uses as the bucket hash,
    /// computed when the key was made.
    pub fn digest(&self) -> (r: u64)
        ensures
            r as nat == lite_digest(self@),
    {
        proof {
            use_type_invariant(self);
        }
        self.digest
    }
}

/// The 64-bit digest of the bytes of a key.
fn digest_of(buffer: &Vec<u8>) -> (r: u64)
    ensures
        r as nat == lite_digest(buffer@),
{
    let len = buffer.len();
    let width: usize = if len < 7 { len } else { 7 };
    let ghost b = buffer@;
    let mut word: u64 = 0;
    let mut i: usize = width;
    while i > 0
        invariant
            b == buffer@,
            width == digest_width(b.len()),
            width <= b.len(),
            width <= 7,
            i <= width,
            word as nat == packed(b.subrange(i as int, width as int)),
            word < pow256((width - i) as nat),
        decreases i,
    {
        proof {
            lemma_packed_step(b, i as int, width as int);
            let p = pow256((width - i) as nat);
            assert(pow256((width - i + 1) as nat) == 256 * p);
            assert(pow256((width - i) as nat) <= pow256(7)) by {
                lemma_pow256_monotone((width - i) as nat, 7);
            }
            reveal_with_fuel(pow256, 8);
            assert(pow256(7) == 72057594037927936);
            let w = word as int;
            let c = buffer[i as int - 1] as int;
            assert(w * 256 + c < 256 * p) by (nonlinear_arith)
                requires w < p, 0 <= c < 256;
        }
        word = word * 256 + buffer[i - 1] as u64;
        i = i - 1;
    }
    proof {
        assert(b.subrange(0, width as int) =~= b.take(width as int));
        lemma_pow256_monotone(width as nat, 7);
        reveal_with_fuel(pow256, 8);
            assert(pow256(7) == 72057594037927936);
    }
    (len % 256) as u64 + 256 * word
}

proof fn lemma_pow256_monotone(a: nat, b: nat)
    requires
        a <= b,
    ensures
        pow256(a) <= pow256(b),
    decreases b,
{
    if a < b {
        lemma_pow256_monotone(a, (b - 1) as nat);
    }
}

impl From<Vec<u8>> for LiteHashBuffer {
    /// Create a new instance with a buffer.
    fn from(buffer: Vec<u8>) -> (r: Self) {
        let digest = digest_of(&buffer);
        LiteHashBuffer { buffer, digest }
    }
}

impl vstd::std_specs::convert::FromSpecImpl<Vec<u8>> for LiteHashBuffer {
    open spec fn obeys_from_spec() -> bool {
        true
    }

    closed spec fn from_spec(v: Vec<u8>) -> LiteHashBuffer {
        LiteHashBuffer { buffer: v, digest: lite_digest(v@) as u64 }
    }
}

impl PartialEq for LiteHashBuffer {
    /// Keys are equal when all their bytes are.
    fn eq(&self, other: &LiteHashBuffer) -> (r: bool) {
        if self.buffer.len() != other.buffer.len() {
            return false;
        }
        let mut i: usize = 0;
        while i < self.buffer.len()
            invariant
                self.buffer.len() == other.buffer.len(),
                i <= self.buffer.len(),
                forall|j: int| 0 <= j < i ==> self@[j] == other@[j],
            decreases self.buffer.len() - i,
        {
            if self.buffer[i] != other.buffer[i] {
                return false;
            }
            i = i + 1;
        }
        proof {
            assert(self@ =~= other@);
        }
        true
    }
}

impl vstd::std_specs::cmp::PartialEqSpecImpl for LiteHashBuffer {
    open spec fn obeys_eq_spec() -> bool {
        true
    }

    open spec fn eq_spec(&self, other: &LiteHashBuffer) -> bool {
        self@ == other@
    }
}

impl Eq for LiteHashBuffer {}

impl std::ops::Deref for LiteHashBuffer {
    type Target = Vec<u8>;

    fn deref(&self) -> &Vec<u8> {
        &self.buffer
    }
}

impl std::hash::Hash for LiteHashBuffer {
    /// Relies on `Hasher::write_u64` to take the cached digest as one word, so
    /// that an identity hasher uses it as the bucket hash as it is; nothing is
    /// claimed of the hasher's state.
    #[verifier::external_body]
    fn hash<H: std::hash::Hasher>(&self, state: &mut H) {
        state.write_u64(self.digest);
    }
}

/// Byte-wise lexicographic order: `a` comes strictly before `b`.
pub open spec fn lex_lt(a: Seq<u8>, b: Seq<u8>) -> bool
    decreases a.len(),
{
    if a.len() == 0 {
        b.len() > 0
    } else if b.len() == 0 {
        false
    } else if a[0] != b[0] {
        a[0] < b[0]
    } else {
        lex_lt(a.drop_first(), b.drop_first())
    }
}

/// No key comes before itself.
pub proof fn lemma_lex_irreflexive(a: Seq<u8>)
    ensures
        !lex_lt(a, a),
    decreases a.len(),
{
    if a.len() > 0 {
        lemma_lex_irreflexive(a.drop_first());
    }
}

/// The order is transitive.
pub proof fn lemma_lex_transitive(a: Seq<u8>, b: Seq<u8>, c: Seq<u8>)
    requires
        lex_lt(a, b),
        lex_lt(b, c),
    ensures
        lex_lt(a, c),
    decreases a.len(),
{
    if a.len() > 0 && b.len() > 0 && c.len() > 0 && a[0] == b[0] && b[0] == c[0] {
        lemma_lex_transitive(a.drop_first(), b.drop_first(), c.drop_first());
    }
}

/// Of two different keys, one comes first.
pub proof fn lemma_lex_total(a: Seq<u8>, b: Seq<u8>)
    requires
        a != b,
    ensures
        lex_lt(a, b) || lex_lt(b, a),
    decreases a.len(),
{
    if a.len() > 0 && b.len() > 0 && a[0] == b[0] {
        if a.drop_first() == b.drop_first() {
            assert(a =~= seq![a[0]] + a.drop_first());
            assert(b =~= seq![b[0]] + b.drop_first());
        }
        lemma_lex_total(a.drop_first(), b.drop_first());
    } else if a.len() == 0 && b.len() == 0 {
        assert(a =~= b);
    }
}

/// The two orders cannot both hold.
pub proof fn lemma_lex_asymmetric(a: Seq<u8>, b: Seq<u8>)
    requires
        lex_lt(a, b),
    ensures
        !lex_lt(b, a),
{
    if lex_lt(b, a) {
        lemma_lex_transitive(a, b, a);
        lemma_lex_irreflexive(a);
    }
}

/// Whether the bytes `a` come strictly before the bytes `b`.
pub fn bytes_less(a: &[u8], b: &[u8]) -> (r: bool)
    ensures
        r == lex_lt(a@, b@),
{
    let mut i: usize = 0;
    proof {
        assert(a@.skip(0) =~= a@);
        assert(b@.skip(0) =~= b@);
    }
    while i < a.len() && i < b.len()
        invariant
            i <= a@.len(),
            i <= b@.len(),
            lex_lt(a@, b@) == lex_lt(a@.skip(i as int), b@.skip(i as int)),
        decreases a.len() - i,
    {
        proof {
            assert(a@.skip(i as int).drop_first() =~= a@.skip(i + 1));
            assert(b@.skip(i as int).drop_first() =~= b@.skip(i + 1));
        }
        if a[i] != b[i] {
            return a[i] < b[i];
        }
        i = i + 1;
    }
    a.len() < b.len()
}

/// Two keys are equal exactly when their bytes are, and equal keys share a digest.
pub proof fn lemma_key_equality(a: LiteHashBuffer, b: LiteHashBuffer)
    ensures
        a.eq_spec(&b) <==> a@ == b@,
        a@ == b@ ==> lite_digest(a@) == lite_digest(b@),
{
}

} // verus!
