//! SHA-1 hashing of Git objects, with a precomputed prefix state.

use vstd::prelude::*;
use sha1::{Digest, Sha1};
use crate::text::{decimal_bytes, decimal_bytes_of, push_all};

verus! {

/// A running SHA-1 computation (`sha1::Sha1`). Verus cannot read the type
/// declaration of `sha1::Sha1` (its generic bounds go through `typenum`), so
/// the hasher is held in a private field here.
#[verifier::external_body]
pub struct Sha1State {
    inner: Sha1,
}

/// The SHA-1 digest of a byte sequence.
pub uninterp spec fn sha1_digest(data: Seq<u8>) -> Seq<u8>;

/// The bytes that a SHA-1 hasher has been fed so far.
pub uninterp spec fn sha1_absorbed(h: Sha1State) -> Seq<u8>;

/// `Digest::new` for SHA-1: a hasher that has been fed nothing.
#[verifier::external_body]
fn sha1_new() -> (h: Sha1State)
    ensures
        sha1_absorbed(h) == Seq::<u8>::empty(),
{
    Sha1State { inner: Sha1::new() }
}

/// `Digest::update` for SHA-1: feeds `data` after what the hasher holds.
#[verifier::external_body]
fn sha1_update(h: &mut Sha1State, data: &[u8])
    ensures
        sha1_absorbed(*final(h)) == sha1_absorbed(*old(h)) + data@,
{
    h.inner.update(data)
}

/// `Clone::clone` for SHA-1: a hasher that has been fed the same bytes.
#[verifier::external_body]
fn sha1_clone(h: &Sha1State) -> (c: Sha1State)
    ensures
        sha1_absorbed(c) == sha1_absorbed(*h),
{
    Sha1State { inner: h.inner.clone() }
}

/// `Digest::finalize` for SHA-1: the digest of everything fed.
#[verifier::external_body]
fn sha1_finalize(h: Sha1State) -> (d: [u8; 20])
    ensures
        d@ == sha1_digest(sha1_absorbed(h)),
{
    h.inner.finalize().into()
}

/// Hash a complete Git object and return the raw 20-byte SHA-1.
pub fn hash_git_object(object: &[u8]) -> (d: [u8; 20])
    ensures
        d@ == sha1_digest(object@),
{
    let mut h = sha1_new();
    sha1_update(&mut h, object);
    proof { assert(Seq::<u8>::empty() + object@ =~= object@); }
    sha1_finalize(h)
}

/// The Git object header for content of `len` bytes: `commit <len>\0`.
pub open spec fn git_object_header(len: nat) -> Seq<u8> {
    seq![0x63u8, 0x6Fu8, 0x6Du8, 0x6Du8, 0x69u8, 0x74u8, 0x20u8] + decimal_bytes(len) + seq![0u8]
}

/// The Git commit object for the given content: header, then content.
pub open spec fn git_object(content: Seq<u8>) -> Seq<u8> {
    git_object_header(content.len()) + content
}

/// The Git object header for content of `len` bytes.
pub fn git_object_header_of(len: usize) -> (h: Vec<u8>)
    ensures
        h@ == git_object_header(len as nat),
{
    let mut h: Vec<u8> = Vec::new();
    push_all(&mut h, &[0x63u8, 0x6Fu8, 0x6Du8, 0x6Du8, 0x69u8, 0x74u8, 0x20u8]);
    let digits = decimal_bytes_of(len as u64);
    push_all(&mut h, &digits);
    h.push(0u8);
    proof {
        assert(h@ =~= git_object_header(len as nat));
    }
    h
}

/// What an incremental hasher stands for: the commit content before the
/// nonce, after it, and the nonce length it was built for.
pub struct IncrementalHasherView {
    pub prefix: Seq<u8>,
    pub suffix: Seq<u8>,
    pub nonce_len: nat,
}

/// Pre-computed SHA-1 state for incremental hashing.
///
/// The hash state is computed once up to the nonce position; each attempt
/// clones it and feeds the nonce and the (constant) suffix.
pub struct IncrementalHasher {
    /// SHA-1 state after hashing: "commit <len>\0<headers>\nx-nonce "
    prefix_state: Sha1State,
    /// The suffix bytes: "\n\n<message>"
    suffix: Vec<u8>,
    prefix: Ghost<Seq<u8>>,
    nonce_len: Ghost<nat>,
}

impl View for IncrementalHasher {
    type V = IncrementalHasherView;

    closed spec fn view(&self) -> IncrementalHasherView {
        IncrementalHasherView { prefix: self.prefix@, suffix: self.suffix@, nonce_len: self.nonce_len@ }
    }
}

impl Clone for IncrementalHasher {
    /// A hasher for the same commit parts, with its own copy of the state.
    fn clone(&self) -> (c: Self)
        ensures
            c@ == self@,
    {
        proof { use_type_invariant(self); }
        let mut suffix: Vec<u8> = Vec::new();
        push_all(&mut suffix, &self.suffix);
        proof { assert(suffix@ =~= self.suffix@); }
        IncrementalHasher {
            prefix_state: sha1_clone(&self.prefix_state),
            suffix,
            prefix: Ghost(self.prefix@),
            nonce_len: Ghost(self.nonce_len@),
        }
    }
}

impl IncrementalHasher {
    /// The hasher state matches the commit parts it stands for.
    #[verifier::type_invariant]
    closed spec fn state_matches(&self) -> bool {
        sha1_absorbed(self.prefix_state) == git_object_header(
            self.prefix@.len() + self.nonce_len@ + self.suffix@.len(),
        ) + self.prefix@
    }

    /// Build an incremental hasher from pre-computed commit parts.
    ///
    /// `prefix` = header lines ending with "x-nonce "
    /// `suffix` = "\n\n<message>"
    /// `nonce_len` = fixed nonce byte length
    pub fn new(prefix: &[u8], suffix: &[u8], nonce_len: usize) -> (h: Self)
        requires
            prefix@.len() + nonce_len + suffix@.len() <= usize::MAX,
        ensures
            h@ == (IncrementalHasherView { prefix: prefix@, suffix: suffix@, nonce_len: nonce_len as nat }),
    {
        let total_content_len = prefix.len() + nonce_len + suffix.len();
        let git_header = git_object_header_of(total_content_len);
        let mut prefix_state = sha1_new();
        sha1_update(&mut prefix_state, &git_header);
        sha1_update(&mut prefix_state, prefix);
        let mut suffix_vec: Vec<u8> = Vec::new();
        push_all(&mut suffix_vec, suffix);
        proof {
            assert(Seq::<u8>::empty() + git_header@ =~= git_header@);
            assert(suffix_vec@ =~= suffix@);
        }
        IncrementalHasher {
            prefix_state,
            suffix: suffix_vec,
            prefix: Ghost(prefix@),
            nonce_len: Ghost(nonce_len as nat),
        }
    }

    /// Hash with a specific nonce: the SHA-1 of the object header (for a
    /// nonce of the length the hasher was built for), prefix, nonce, suffix;
    /// for a nonce of that length, the SHA-1 of the Git commit object whose
    /// content is prefix, nonce, suffix.
    pub fn hash_with_nonce(&self, nonce: &[u8]) -> (d: [u8; 20])
        ensures
            d@ == sha1_digest(git_object_header(self@.prefix.len() + self@.nonce_len + self@.suffix.len())
                + self@.prefix + nonce@ + self@.suffix),
            nonce@.len() == self@.nonce_len ==> d@ == sha1_digest(git_object(self@.prefix + nonce@ + self@.suffix)),
    {
        proof { use_type_invariant(self); }
        let mut h = sha1_clone(&self.prefix_state);
        sha1_update(&mut h, nonce);
        sha1_update(&mut h, &self.suffix);
        proof {
            let content = self@.prefix + nonce@ + self@.suffix;
            let head = git_object_header(self.prefix@.len() + self.nonce_len@ + self.suffix@.len());
            assert(head + self.prefix@ + nonce@ + self.suffix@ =~= (head + self.prefix@) + nonce@ + self.suffix@);
            if nonce@.len() == self@.nonce_len {
                assert(content.len() == self.prefix@.len() + self.nonce_len@ + self.suffix@.len());
                assert(git_object(content) =~= head + self.prefix@ + nonce@ + self.suffix@);
            }
        }
        sha1_finalize(h)
    }
}

} // verus!
