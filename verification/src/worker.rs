//! The search step of the worker pool: building the commit parts around the
//! nonce, scanning a batch of counters, and assembling the found content.
//! Threads, shared counters and the timeout live with the caller.

use vstd::prelude::*;
use vstd::utf8::encode_utf8;
use crate::commit::{commit_bytes, join_lines, nonce_key, CommitObject, CommitView};
use crate::hasher::{git_object, git_object_header, sha1_digest, IncrementalHasher, IncrementalHasherView};
use crate::nonce::{generate_nonce, spec_nonce, NONCE_LEN};
use crate::pattern::{matchable, spec_matches, MatchPosition, Pattern};
use crate::text::{
    decimal_chars, decimal_chars_of, hex_encode, hex_lower, lemma_encode_ascii, lemma_encode_concat,
    push_all, push_chars, str_chars, string_from_chars,
};

verus! {

/// Result from a successful search.
pub struct SearchResult {
    /// The raw commit content (without "commit <len>\0" prefix)
    pub content: Vec<u8>,
    /// The matching hash as hex string
    pub hash_hex: String,
    /// Total attempts across all threads
    pub total_attempts: u64,
}

/// Configuration for the worker pool.
pub struct WorkerConfig {
    pub threads: usize,
    pub max_attempts: Option<u64>,
    pub timeout_ms: u64,
    pub position: MatchPosition,
}

/// The commit bytes before the nonce: each header line and a newline, then
/// the nonce header key.
pub open spec fn commit_prefix(lines: Seq<Seq<char>>) -> Seq<u8> {
    encode_utf8(join_lines(lines) + nonce_key())
}

/// The commit bytes after the nonce: the blank line, then the message.
pub open spec fn commit_suffix(message: Seq<char>) -> Seq<u8> {
    encode_utf8(seq!['\n', '\n'] + message)
}

/// Build prefix and suffix byte vectors from a commit.
pub fn build_commit_parts(commit: &CommitObject) -> (parts: (Vec<u8>, Vec<u8>))
    ensures
        parts.0@ == commit_prefix(commit@.header_lines),
        parts.1@ == commit_suffix(commit@.message),
{
    let mut prefix: Vec<u8> = Vec::new();
    let ghost lines = commit@.header_lines;
    let mut i: usize = 0;
    proof {
        assert(lines.take(0) =~= Seq::<Seq<char>>::empty());
        assert(encode_utf8(Seq::<char>::empty()) =~= Seq::<u8>::empty());
    }
    while i < commit.header_lines.len()
        invariant
            i <= commit.header_lines.len(),
            lines == commit@.header_lines,
            prefix@ == encode_utf8(join_lines(lines.take(i as int))),
        decreases commit.header_lines.len() - i,
    {
        let line: &str = commit.header_lines[i].as_str();
        push_all(&mut prefix, line.as_bytes());
        prefix.push(0x0Au8);
        proof {
            let t = lines.take(i + 1);
            assert(t.drop_last() =~= lines.take(i as int));
            assert(t.last() == line@);
            lemma_encode_concat(join_lines(lines.take(i as int)), line@);
            lemma_encode_concat(join_lines(lines.take(i as int)) + line@, seq!['\n']);
            lemma_encode_ascii(seq!['\n']);
            assert(encode_utf8(seq!['\n']) =~= seq![0x0Au8]);
            assert(prefix@ =~= encode_utf8(join_lines(lines.take(i as int))) + encode_utf8(line@) + seq![0x0Au8]);
        }
        i += 1;
    }
    push_all(&mut prefix, &[0x78u8, 0x2Du8, 0x6Eu8, 0x6Fu8, 0x6Eu8, 0x63u8, 0x65u8, 0x20u8]);
    let mut suffix: Vec<u8> = Vec::new();
    push_all(&mut suffix, &[0x0Au8, 0x0Au8]);
    push_all(&mut suffix, commit.message.as_str().as_bytes());
    proof {
        assert(lines.take(lines.len() as int) =~= lines);
        lemma_encode_concat(join_lines(lines), nonce_key());
        lemma_encode_ascii(nonce_key());
        lemma_encode_concat(seq!['\n', '\n'], commit@.message);
        lemma_encode_ascii(seq!['\n', '\n']);
        assert(encode_utf8(nonce_key()) =~= seq![0x78u8, 0x2Du8, 0x6Eu8, 0x6Fu8, 0x6Eu8, 0x63u8, 0x65u8, 0x20u8]);
        assert(encode_utf8(seq!['\n', '\n']) =~= seq![0x0Au8, 0x0Au8]);
        assert(prefix@ =~= commit_prefix(lines));
        assert(suffix@ =~= commit_suffix(commit@.message));
    }
    (prefix, suffix)
}

/// The commit parts with a nonce between them are the commit bytes that
/// `CommitObject::build_with_nonce` gives for that nonce.
pub proof fn lemma_parts_assemble(lines: Seq<Seq<char>>, nonce: Seq<u8>, message: Seq<char>)
    ensures
        commit_prefix(lines) + nonce + commit_suffix(message) == commit_bytes(lines, nonce, message),
{
}

/// Reconstruct full commit content from parts + nonce.
pub fn assemble_content(prefix: &[u8], nonce: &[u8], suffix: &[u8]) -> (content: Vec<u8>)
    ensures
        content@ == prefix@ + nonce@ + suffix@,
{
    let mut content: Vec<u8> = Vec::new();
    push_all(&mut content, prefix);
    push_all(&mut content, nonce);
    push_all(&mut content, suffix);
    proof { assert(Seq::<u8>::empty() + prefix@ =~= prefix@); }
    content
}

/// Whether the search should stop: a match was found, or the attempts
/// reached the maximum (where there is one).
pub fn should_stop(found: bool, total: u64, max: Option<u64>) -> (stop: bool)
    ensures
        stop == (found || (max matches Some(m) && total >= m)),
{
    found || match max {
        Some(m) => total >= m,
        None => false,
    }
}

/// The hash that counter `counter` of thread `thread_id` gives.
pub open spec fn attempt_hash(h: IncrementalHasherView, counter: u64, thread_id: u16) -> Seq<u8> {
    sha1_digest(git_object_header(h.prefix.len() + h.nonce_len + h.suffix.len()) + h.prefix
        + spec_nonce(counter, thread_id) + h.suffix)
}

/// For a hasher built from commit parts for nonces of `NONCE_LEN` bytes, the
/// hash of an attempt is the SHA-1 of the Git commit object whose content is
/// the parts with that attempt's nonce between them: the content the search
/// hands back hashes to the hash it reports.
pub proof fn lemma_attempt_hash_is_object_hash(h: IncrementalHasherView, counter: u64, thread_id: u16)
    requires
        h.nonce_len == NONCE_LEN,
    ensures
        attempt_hash(h, counter, thread_id) == sha1_digest(
            crate::hasher::git_object(h.prefix + spec_nonce(counter, thread_id) + h.suffix),
        ),
{
    let content = h.prefix + spec_nonce(counter, thread_id) + h.suffix;
    assert(content.len() == h.prefix.len() + h.nonce_len + h.suffix.len());
    assert(crate::hasher::git_object(content) =~= git_object_header(content.len()) + h.prefix
        + spec_nonce(counter, thread_id) + h.suffix);
}

/// Scan the counters `start .. start + count` of one thread, in order, and
/// return the first whose hash matches the pattern, with its nonce and hash.
pub fn scan_batch(
    hasher: &IncrementalHasher,
    pattern: &Pattern,
    position: MatchPosition,
    thread_id: u16,
    start: u64,
    count: u64,
) -> (found: Option<(u64, [u8; NONCE_LEN], [u8; 20])>)
    requires
        matchable(pattern@, position),
        start + count <= u64::MAX,
    ensures
        match found {
            Some((c, nonce, hash)) => {
                &&& start <= c < start + count
                &&& nonce@ == spec_nonce(c, thread_id)
                &&& hash@ == attempt_hash(hasher@, c, thread_id)
                &&& spec_matches(pattern@, hash@, position)
                &&& forall|k: u64| start <= k < c ==> !spec_matches(pattern@, #[trigger] attempt_hash(hasher@, k, thread_id), position)
            },
            None => forall|k: u64| start <= k < start + count ==> !spec_matches(pattern@, #[trigger] attempt_hash(hasher@, k, thread_id), position),
        },
{
    let end = start + count;
    let mut counter = start;
    while counter < end
        invariant
            start <= counter <= end,
            end == start + count,
            matchable(pattern@, position),
            forall|k: u64| start <= k < counter ==> !spec_matches(pattern@, #[trigger] attempt_hash(hasher@, k, thread_id), position),
        decreases end - counter,
    {
        let nonce = generate_nonce(counter, thread_id);
        let hash = hasher.hash_with_nonce(&nonce);
        if pattern.matches_raw(&hash, position) {
            return Some((counter, nonce, hash));
        }
        counter += 1;
    }
    None
}

/// The hash of the Git commit object for a commit with the nonce of an
/// attempt added.
pub open spec fn commit_attempt_hash(c: CommitView, counter: u64, thread_id: u16) -> Seq<u8> {
    sha1_digest(git_object(commit_bytes(c.header_lines, spec_nonce(counter, thread_id), c.message)))
}

/// Everything one worker needs to search for one commit: the commit bytes
/// before and after the nonce, and the hasher that has already absorbed the
/// object header and the bytes before the nonce.
pub struct CommitSearch {
    prefix: Vec<u8>,
    suffix: Vec<u8>,
    hasher: IncrementalHasher,
    commit: Ghost<CommitView>,
}

impl View for CommitSearch {
    type V = CommitView;

    closed spec fn view(&self) -> CommitView {
        self.commit@
    }
}

impl CommitSearch {
    /// The parts and the hasher stand for the commit.
    #[verifier::type_invariant]
    closed spec fn parts_match(&self) -> bool {
        &&& self.prefix@ == commit_prefix(self.commit@.header_lines)
        &&& self.suffix@ == commit_suffix(self.commit@.message)
        &&& self.hasher@ == (IncrementalHasherView {
            prefix: self.prefix@,
            suffix: self.suffix@,
            nonce_len: NONCE_LEN as nat,
        })
    }

    /// Prepare the search for a commit; `None` only where the commit object
    /// would be too long for its length to be counted in a `usize`.
    pub fn new(commit: &CommitObject) -> (r: Option<Self>)
        ensures
            r is Some <==> commit_prefix(commit@.header_lines).len() + NONCE_LEN + commit_suffix(
                commit@.message,
            ).len() <= usize::MAX,
            r matches Some(s) ==> s@ == commit@,
    {
        let (prefix, suffix) = build_commit_parts(commit);
        let n = nonce_len_value();
        if prefix.len() > usize::MAX - n || suffix.len() > usize::MAX - n - prefix.len() {
            return None;
        }
        let hasher = IncrementalHasher::new(&prefix, &suffix, n);
        Some(CommitSearch { prefix, suffix, hasher, commit: Ghost(commit@) })
    }

    /// Scan the counters `start .. start + count` of one thread, in order.
    /// A find gives the first matching counter, the commit content with that
    /// attempt's nonce line added (every header line and the message kept
    /// byte for byte), and the hash of that content's Git object, which
    /// matches the pattern; no counter before it in the range matches.
    pub fn scan(
        &self,
        pattern: &Pattern,
        position: MatchPosition,
        thread_id: u16,
        start: u64,
        count: u64,
    ) -> (found: Option<(u64, Vec<u8>, [u8; 20])>)
        requires
            matchable(pattern@, position),
            start + count <= u64::MAX,
        ensures
            match found {
                Some((c, content, hash)) => {
                    &&& start <= c < start + count
                    &&& content@ == commit_bytes(self@.header_lines, spec_nonce(c, thread_id), self@.message)
                    &&& hash@ == sha1_digest(git_object(content@))
                    &&& spec_matches(pattern@, hash@, position)
                    &&& forall|k: u64| start <= k < c ==> !spec_matches(pattern@, #[trigger] commit_attempt_hash(self@, k, thread_id), position)
                },
                None => forall|k: u64| start <= k < start + count ==> !spec_matches(pattern@, #[trigger] commit_attempt_hash(self@, k, thread_id), position),
            },
    {
        proof { use_type_invariant(self); }
        let ghost c = self@;
        assert forall|k: u64| #[trigger] commit_attempt_hash(c, k, thread_id) == attempt_hash(self.hasher@, k, thread_id) by {
            lemma_attempt_hash_is_object_hash(self.hasher@, k, thread_id);
            lemma_parts_assemble(c.header_lines, spec_nonce(k, thread_id), c.message);
        }
        match scan_batch(&self.hasher, pattern, position, thread_id, start, count) {
            None => None,
            Some((k, nonce, hash)) => {
                let content = assemble_content(&self.prefix, &nonce, &self.suffix);
                proof {
                    lemma_attempt_hash_is_object_hash(self.hasher@, k, thread_id);
                    lemma_parts_assemble(c.header_lines, spec_nonce(k, thread_id), c.message);
                }
                Some((k, content, hash))
            },
        }
    }
}

/// The nonce length, for the search set-up.
fn nonce_len_value() -> (n: usize)
    ensures
        n == NONCE_LEN,
{
    crate::nonce::nonce_len()
}

/// The size of the next batch under a maximum `m`, after `total` attempts
/// were claimed: the batch size, cut to the attempts left, none at the
/// maximum.
pub open spec fn batch_len(total: int, m: int, batch: int) -> int {
    if total >= m {
        0
    } else if batch <= m - total {
        batch
    } else {
        m - total
    }
}

/// The attempts claimed after `k` batches, each claimed with the size that
/// `next_batch_len` gives for the total claimed before it.
pub open spec fn claimed_after(m: u64, batch: u64, k: nat) -> int
    decreases k,
{
    if k == 0 {
        0
    } else {
        let t = claimed_after(m, batch, (k - 1) as nat);
        t + batch_len(t, m as int, batch as int)
    }
}

/// The maximum number of attempts holds for the whole search: however many
/// batches are claimed one after another, each with `next_batch_len` on the
/// total before it, the total never passes the maximum; and once it reaches
/// the maximum every further batch is empty.
pub proof fn lemma_claims_within_max(m: u64, batch: u64, k: nat)
    ensures
        0 <= claimed_after(m, batch, k) <= m,
        claimed_after(m, batch, k) == m ==> batch_len(claimed_after(m, batch, k), m as int, batch as int) == 0,
    decreases k,
{
    if k > 0 {
        lemma_claims_within_max(m, batch, (k - 1) as nat);
    }
}

/// How many counters the next batch scans: the batch size, cut down to the
/// attempts left under the maximum (none once it is reached).
pub fn next_batch_len(total: u64, max: Option<u64>, batch: u64) -> (n: u64)
    ensures
        match max {
            None => n == batch,
            Some(m) => n == batch_len(total as int, m as int, batch as int),
        },
        max matches Some(m) ==> total + n <= m || total >= m,
{
    match max {
        None => batch,
        Some(m) => {
            if total >= m {
                0
            } else if batch <= m - total {
                batch
            } else {
                m - total
            }
        },
    }
}

/// The search result for found content and its hash.
pub fn search_result(content: Vec<u8>, hash: &[u8; 20], total_attempts: u64) -> (r: SearchResult)
    ensures
        r.content@ == content@,
        r.hash_hex@ == hex_lower(hash@),
        r.total_attempts == total_attempts,
{
    SearchResult { content, hash_hex: hex_encode(hash), total_attempts }
}

/// The error text when the search ends without a match.
pub open spec fn no_match_text(total: u64) -> Seq<char> {
    "No match found after "@ + decimal_chars(total as nat) + " attempts (timeout or max-attempts reached)"@
}

/// The error of a search that ended without a match after `total` attempts.
pub fn no_match_message(total: u64) -> (s: String)
    ensures
        s@ == no_match_text(total),
{
    let mut v = str_chars("No match found after ");
    let digits = decimal_chars_of(total);
    push_chars(&mut v, &digits);
    let tail = str_chars(" attempts (timeout or max-attempts reached)");
    push_chars(&mut v, &tail);
    string_from_chars(&v)
}

} // verus!
