//! Nonce generation strategy.
//!
//! Each worker gets its own thread id, and counts upward. A nonce holds every
//! bit of the thread id and every bit of the counter, seven bits to a byte,
//! so distinct attempts never share a nonce. Every nonce byte lies in
//! `0x80..=0xFF`, so it is non-printable and never a newline.

use vstd::prelude::*;

verus! {

/// Length in bytes of every nonce: three bytes for the 16 thread-id bits and
/// ten for the 64 counter bits.
pub const NONCE_LEN: usize = 13;

/// The nonce byte that holds bits `shift .. shift + 7` of `x`, with the top
/// bit set.
pub open spec fn septet(x: u64, shift: u64) -> u8 {
    (0x80u64 | ((x >> shift) & 0x7Fu64)) as u8
}

/// The nonce for a counter value and a thread id: the thread id, then the
/// counter, each cut into seven-bit groups from the lowest bits up, each
/// group in its own byte in `0x80..=0xFF`.
pub open spec fn spec_nonce(counter: u64, thread_id: u16) -> Seq<u8> {
    seq![
        septet(thread_id as u64, 0u64),
        septet(thread_id as u64, 7u64),
        septet(thread_id as u64, 14u64),
        septet(counter, 0u64),
        septet(counter, 7u64),
        septet(counter, 14u64),
        septet(counter, 21u64),
        septet(counter, 28u64),
        septet(counter, 35u64),
        septet(counter, 42u64),
        septet(counter, 49u64),
        septet(counter, 56u64),
        septet(counter, 63u64),
    ]
}

/// A nonce byte is in `0x80..=0xFF`, and two of them at the same place are
/// equal exactly when the seven bits they hold are.
proof fn lemma_septet(x: u64, y: u64, shift: u64)
    ensures
        septet(x, shift) >= 0x80,
        septet(x, shift) != 0x0Au8,
        septet(x, shift) == septet(y, shift) <==> ((x >> shift) & 0x7Fu64) == ((y >> shift) & 0x7Fu64),
{
    assert((0x80u64 | ((x >> shift) & 0x7Fu64)) as u8 >= 0x80u8) by (bit_vector);
    assert((0x80u64 | ((x >> shift) & 0x7Fu64)) as u8 != 0x0Au8) by (bit_vector);
    assert(((0x80u64 | ((x >> shift) & 0x7Fu64)) as u8 == (0x80u64 | ((y >> shift) & 0x7Fu64)) as u8)
        <==> (((x >> shift) & 0x7Fu64) == ((y >> shift) & 0x7Fu64))) by (bit_vector);
}

/// Generate a nonce from a counter value and thread id.
pub fn generate_nonce(counter: u64, thread_id: u16) -> (nonce: [u8; NONCE_LEN])
    ensures
        nonce@ == spec_nonce(counter, thread_id),
        forall|i: int| 0 <= i < NONCE_LEN ==> #[trigger] nonce@[i] >= 0x80,
        forall|i: int| 0 <= i < NONCE_LEN ==> #[trigger] nonce@[i] != 0x0Au8,
{
    let nonce: [u8; NONCE_LEN] = [
        ((0x80u64 | (((thread_id as u64) >> 0u64) & 0x7Fu64)) as u8),
        ((0x80u64 | (((thread_id as u64) >> 7u64) & 0x7Fu64)) as u8),
        ((0x80u64 | (((thread_id as u64) >> 14u64) & 0x7Fu64)) as u8),
        ((0x80u64 | ((counter >> 0u64) & 0x7Fu64)) as u8),
        ((0x80u64 | ((counter >> 7u64) & 0x7Fu64)) as u8),
        ((0x80u64 | ((counter >> 14u64) & 0x7Fu64)) as u8),
        ((0x80u64 | ((counter >> 21u64) & 0x7Fu64)) as u8),
        ((0x80u64 | ((counter >> 28u64) & 0x7Fu64)) as u8),
        ((0x80u64 | ((counter >> 35u64) & 0x7Fu64)) as u8),
        ((0x80u64 | ((counter >> 42u64) & 0x7Fu64)) as u8),
        ((0x80u64 | ((counter >> 49u64) & 0x7Fu64)) as u8),
        ((0x80u64 | ((counter >> 56u64) & 0x7Fu64)) as u8),
        ((0x80u64 | ((counter >> 63u64) & 0x7Fu64)) as u8),
    ];
    proof {
        assert forall|x: u64, s: u64| #[trigger] septet(x, s) >= 0x80 && septet(x, s) != 0x0Au8 by {
            lemma_septet(x, x, s);
        }
        assert(nonce@ =~= spec_nonce(counter, thread_id));
    }
    nonce
}

/// The nonce length.
pub fn nonce_len() -> (n: usize)
    ensures
        n == NONCE_LEN,
{
    NONCE_LEN
}

/// Distinct attempts get distinct nonces: two nonces are equal exactly when
/// their counters are equal and their thread ids are equal. So no thread
/// repeats a nonce as it counts, and no two threads share one.
pub proof fn lemma_nonce_injective(c1: u64, t1: u16, c2: u64, t2: u16)
    ensures
        spec_nonce(c1, t1) == spec_nonce(c2, t2) <==> c1 == c2 && t1 == t2,
{
    let n1 = spec_nonce(c1, t1);
    let n2 = spec_nonce(c2, t2);
    let a = t1 as u64;
    let b = t2 as u64;
    if n1 == n2 {
        assert forall|s: u64| #![trigger septet(a, s)] ((s == 0 || s == 7 || s == 14) ==> ((a >> s) & 0x7Fu64) == ((b >> s) & 0x7Fu64)) by {
            lemma_septet(a, b, s);
            if s == 0 { assert(n1[0] == n2[0]); }
            if s == 7 { assert(n1[1] == n2[1]); }
            if s == 14 { assert(n1[2] == n2[2]); }
        }
        assert forall|s: u64| #![trigger septet(c1, s)] ((s % 7 == 0 && s <= 63) ==> ((c1 >> s) & 0x7Fu64) == ((c2 >> s) & 0x7Fu64)) by {
            lemma_septet(c1, c2, s);
            if s % 7 == 0 && s <= 63 {
                let k = (s / 7) as int;
                assert(n1[3 + k] == n2[3 + k]);
            }
        }
        assert(a <= 0xFFFFu64 && b <= 0xFFFFu64);
        assert((((a >> 0u64) & 0x7Fu64) == ((b >> 0u64) & 0x7Fu64)
            && ((a >> 7u64) & 0x7Fu64) == ((b >> 7u64) & 0x7Fu64)
            && ((a >> 14u64) & 0x7Fu64) == ((b >> 14u64) & 0x7Fu64)
            && a <= 0xFFFFu64 && b <= 0xFFFFu64) ==> a == b) by (bit_vector);
        assert((((c1 >> 0u64) & 0x7Fu64) == ((c2 >> 0u64) & 0x7Fu64)
            && ((c1 >> 7u64) & 0x7Fu64) == ((c2 >> 7u64) & 0x7Fu64)
            && ((c1 >> 14u64) & 0x7Fu64) == ((c2 >> 14u64) & 0x7Fu64)
            && ((c1 >> 21u64) & 0x7Fu64) == ((c2 >> 21u64) & 0x7Fu64)
            && ((c1 >> 28u64) & 0x7Fu64) == ((c2 >> 28u64) & 0x7Fu64)
            && ((c1 >> 35u64) & 0x7Fu64) == ((c2 >> 35u64) & 0x7Fu64)
            && ((c1 >> 42u64) & 0x7Fu64) == ((c2 >> 42u64) & 0x7Fu64)
            && ((c1 >> 49u64) & 0x7Fu64) == ((c2 >> 49u64) & 0x7Fu64)
            && ((c1 >> 56u64) & 0x7Fu64) == ((c2 >> 56u64) & 0x7Fu64)
            && ((c1 >> 63u64) & 0x7Fu64) == ((c2 >> 63u64) & 0x7Fu64)) ==> c1 == c2) by (bit_vector);
        assert(t1 == t2);
    }
}

} // verus!
