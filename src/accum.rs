use vstd::prelude::*;
use crate::hexfmt::{hex_encode, hex_of, is_lower_hex, lemma_hex_of_shape};

verus! {

/// A streaming MD5 context. Verus sees only the bytes it has been fed.
#[verifier::external_body]
pub struct Md5Ctx {
    inner: md5::Md5,
}

/// A streaming SHA-1 context. Verus sees only the bytes it has been fed.
#[verifier::external_body]
pub struct Sha1Ctx {
    inner: sha1::Sha1,
}

/// A streaming SHA-256 context. Verus sees only the bytes it has been fed.
#[verifier::external_body]
pub struct Sha256Ctx {
    inner: sha2::Sha256,
}

/// The bytes an MD5 context has consumed so far, in order.
pub uninterp spec fn md5_fed(c: Md5Ctx) -> Seq<u8>;

/// The bytes a SHA-1 context has consumed so far, in order.
pub uninterp spec fn sha1_fed(c: Sha1Ctx) -> Seq<u8>;

/// The bytes a SHA-256 context has consumed so far, in order.
pub uninterp spec fn sha256_fed(c: Sha256Ctx) -> Seq<u8>;

/// The MD5 digest of a byte sequence.
pub uninterp spec fn md5_of(data: Seq<u8>) -> Seq<u8>;

/// The SHA-1 digest of a byte sequence.
pub uninterp spec fn sha1_of(data: Seq<u8>) -> Seq<u8>;

/// The SHA-256 digest of a byte sequence.
pub uninterp spec fn sha256_of(data: Seq<u8>) -> Seq<u8>;

/// Relies on md5::Md5::new (digest::Digest::new): a fresh context has consumed nothing.
#[verifier::external_body]
fn md5_start() -> (r: Md5Ctx)
    ensures
        md5_fed(r) == Seq::<u8>::empty(),
{
    Md5Ctx { inner: <md5::Md5 as md5::Digest>::new() }
}

/// Relies on digest::Digest::update for md5::Md5: the chunk is appended to the input.
#[verifier::external_body]
fn md5_feed(c: &mut Md5Ctx, chunk: &[u8])
    ensures
        md5_fed(*final(c)) == md5_fed(*old(c)) + chunk@,
{
    md5::Digest::update(&mut c.inner, chunk)
}

/// Relies on digest::Digest::finalize for md5::Md5: the 16-byte digest of all input.
#[verifier::external_body]
fn md5_finish(c: Md5Ctx) -> (r: Vec<u8>)
    ensures
        r@ == md5_of(md5_fed(c)),
        r@.len() == 16,
{
    md5::Digest::finalize(c.inner).to_vec()
}

/// Relies on sha1::Sha1::new (digest::Digest::new): a fresh context has consumed nothing.
#[verifier::external_body]
fn sha1_start() -> (r: Sha1Ctx)
    ensures
        sha1_fed(r) == Seq::<u8>::empty(),
{
    Sha1Ctx { inner: <sha1::Sha1 as sha1::Digest>::new() }
}

/// Relies on digest::Digest::update for sha1::Sha1: the chunk is appended to the input.
#[verifier::external_body]
fn sha1_feed(c: &mut Sha1Ctx, chunk: &[u8])
    ensures
        sha1_fed(*final(c)) == sha1_fed(*old(c)) + chunk@,
{
    sha1::Digest::update(&mut c.inner, chunk)
}

/// Relies on digest::Digest::finalize for sha1::Sha1: the 20-byte digest of all input.
#[verifier::external_body]
fn sha1_finish(c: Sha1Ctx) -> (r: Vec<u8>)
    ensures
        r@ == sha1_of(sha1_fed(c)),
        r@.len() == 20,
{
    sha1::Digest::finalize(c.inner).to_vec()
}

/// Relies on sha2::Sha256::new (digest::Digest::new): a fresh context has consumed nothing.
#[verifier::external_body]
fn sha256_start() -> (r: Sha256Ctx)
    ensures
        sha256_fed(r) == Seq::<u8>::empty(),
{
    Sha256Ctx { inner: <sha2::Sha256 as sha2::Digest>::new() }
}

/// Relies on digest::Digest::update for sha2::Sha256: the chunk is appended to the input.
#[verifier::external_body]
fn sha256_feed(c: &mut Sha256Ctx, chunk: &[u8])
    ensures
        sha256_fed(*final(c)) == sha256_fed(*old(c)) + chunk@,
{
    sha2::Digest::update(&mut c.inner, chunk)
}

/// Relies on digest::Digest::finalize for sha2::Sha256: the 32-byte digest of all input.
#[verifier::external_body]
fn sha256_finish(c: Sha256Ctx) -> (r: Vec<u8>)
    ensures
        r@ == sha256_of(sha256_fed(c)),
        r@.len() == 32,
{
    sha2::Digest::finalize(c.inner).to_vec()
}

/// The three hex-encoded digests of one file's content.
pub struct Digests {
    pub md5: String,
    pub sha1: String,
    pub sha256: String,
}

impl Digests {
    /// The digests that the accumulator set yields for `data`.
    pub open spec fn of(self, data: Seq<u8>) -> bool {
        &&& self.md5@ == hex_of(md5_of(data))
        &&& self.sha1@ == hex_of(sha1_of(data))
        &&& self.sha256@ == hex_of(sha256_of(data))
    }

    /// Each digest is lower-case hex of its algorithm's fixed length.
    pub open spec fn well_formed(self) -> bool {
        &&& is_lower_hex(self.md5@, 32)
        &&& is_lower_hex(self.sha1@, 40)
        &&& is_lower_hex(self.sha256@, 64)
    }
}

/// Three independent streaming hash contexts fed with the same bytes.
pub struct DigestSet {
    md5: Md5Ctx,
    sha1: Sha1Ctx,
    sha256: Sha256Ctx,
}

impl View for DigestSet {
    type V = Seq<u8>;

    /// The bytes fed so far.
    closed spec fn view(&self) -> Seq<u8> {
        md5_fed(self.md5)
    }
}

impl DigestSet {
    /// All three contexts have consumed the same bytes.
    pub closed spec fn wf(&self) -> bool {
        &&& sha1_fed(self.sha1) == md5_fed(self.md5)
        &&& sha256_fed(self.sha256) == md5_fed(self.md5)
    }

    /// A set of accumulators that has consumed nothing.
    pub fn new() -> (r: DigestSet)
        ensures
            r.wf(),
            r@ == Seq::<u8>::empty(),
    {
        DigestSet { md5: md5_start(), sha1: sha1_start(), sha256: sha256_start() }
    }

    /// Appends `chunk` to the input of every accumulator.
    pub fn feed(&mut self, chunk: &[u8])
        requires
            old(self).wf(),
        ensures
            final(self).wf(),
            final(self)@ == old(self)@ + chunk@,
    {
        md5_feed(&mut self.md5, chunk);
        sha1_feed(&mut self.sha1, chunk);
        sha256_feed(&mut self.sha256, chunk);
    }

    /// Consumes the accumulators and hex-encodes their digests.
    pub fn finalize(self) -> (r: Digests)
        requires
            self.wf(),
        ensures
            r.of(self@),
            r.well_formed(),
    {
        let m = md5_finish(self.md5);
        let s1 = sha1_finish(self.sha1);
        let s2 = sha256_finish(self.sha256);
        proof {
            lemma_hex_of_shape(m@);
            lemma_hex_of_shape(s1@);
            lemma_hex_of_shape(s2@);
        }
        Digests {
            md5: hex_encode(m.as_slice()),
            sha1: hex_encode(s1.as_slice()),
            sha256: hex_encode(s2.as_slice()),
        }
    }
}

/// What an accumulator set holds after consuming `start` and then each
/// of `chunks`, one `feed` per chunk, in order.
pub open spec fn fed_in_order(start: Seq<u8>, chunks: Seq<Seq<u8>>) -> Seq<u8>
    decreases chunks.len(),
{
    if chunks.len() == 0 {
        start
    } else {
        fed_in_order(start, chunks.drop_last()) + chunks.last()
    }
}

/// Feeding chunks one by one from nothing consumes their concatenation.
pub proof fn lemma_fed_in_order_is_concatenation(chunks: Seq<Seq<u8>>)
    ensures
        fed_in_order(Seq::empty(), chunks) == chunks.flatten(),
    decreases chunks.len(),
{
    if chunks.len() > 0 {
        lemma_fed_in_order_is_concatenation(chunks.drop_last());
        chunks.drop_last().lemma_flatten_push(chunks.last());
        assert(chunks.drop_last().push(chunks.last()) =~= chunks);
    }
}

/// Chunking does not matter: two splits of the same content, each fed in
/// order to a fresh accumulator set, yield identical digests.
pub proof fn lemma_chunking_irrelevant(a: Seq<Seq<u8>>, b: Seq<Seq<u8>>, da: Digests, db: Digests)
    requires
        a.flatten() == b.flatten(),
        da.of(fed_in_order(Seq::empty(), a)),
        db.of(fed_in_order(Seq::empty(), b)),
    ensures
        da.md5@ == db.md5@,
        da.sha1@ == db.sha1@,
        da.sha256@ == db.sha256@,
{
    lemma_fed_in_order_is_concatenation(a);
    lemma_fed_in_order_is_concatenation(b);
}

} // verus!
