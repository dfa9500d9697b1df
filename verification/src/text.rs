//! Character-level helpers shared by the parsers and formatters.

use vstd::prelude::*;
use vstd::utf8::{
    decode_utf8, encode_utf8, encode_utf8_decode_utf8, encode_utf8_valid_utf8, is_ascii_chars,
    is_ascii_chars_encode_utf8, is_char_boundary, is_char_boundary_iff_not_is_continuation_byte,
    is_char_boundary_start_end_of_seq, valid_utf8, valid_utf8_split, decode_utf8_split,
};

verus! {

/// `String::push`: appends one character.
#[verifier::external_body]
fn string_push(s: &mut String, c: char)
    ensures
        final(s)@ == old(s)@.push(c),
{
    s.push(c)
}

/// The characters of a string slice, in order.
pub fn str_chars(s: &str) -> (v: Vec<char>)
    ensures
        v@ == s@,
{
    let mut v: Vec<char> = Vec::new();
    for c in it: s.chars()
        invariant
            v@ == it.seq().take(it.index() as int),
            it.seq() == s@,
    {
        v.push(c);
    }
    v
}

/// A string made of the given characters.
pub fn string_from_chars(v: &[char]) -> (s: String)
    ensures
        s@ == v@,
{
    let mut s = String::new();
    let mut i: usize = 0;
    while i < v.len()
        invariant
            i <= v.len(),
            s@ == v@.take(i as int),
        decreases v.len() - i,
    {
        string_push(&mut s, v[i]);
        i += 1;
        proof { assert(s@ =~= v@.take(i as int)); }
    }
    proof { assert(v@.take(v@.len() as int) =~= v@); }
    s
}

/// Whether `s` begins with `p`.
pub open spec fn starts_with(s: Seq<char>, p: Seq<char>) -> bool {
    p.len() <= s.len() && s.take(p.len() as int) == p
}

/// The first position at or after `i` that holds `c`.
pub open spec fn first_index_of_char(s: Seq<char>, c: char, i: nat) -> Option<nat>
    decreases s.len() - i,
{
    if i >= s.len() {
        None
    } else if s[i as int] == c {
        Some(i)
    } else {
        first_index_of_char(s, c, i + 1)
    }
}

/// The position found lies inside `s`, holds `c`, and is the first one.
pub proof fn lemma_first_index_of_char(s: Seq<char>, c: char, i: nat)
    ensures
        first_index_of_char(s, c, i) matches Some(p) ==> i <= p < s.len() && s[p as int] == c
            && forall|j: int| i <= j < p ==> #[trigger] s[j] != c,
        first_index_of_char(s, c, i) is None ==> forall|j: int| i <= j < s.len() ==> #[trigger] s[j] != c,
    decreases s.len() - i,
{
    if i < s.len() && s[i as int] != c {
        lemma_first_index_of_char(s, c, i + 1);
    }
}

/// The first position of `c` in `s`.
pub fn first_char_index(s: &[char], c: char) -> (r: Option<usize>)
    ensures
        match first_index_of_char(s@, c, 0) {
            None => r is None,
            Some(i) => r == Some(i as usize),
        },
{
    let mut i: usize = 0;
    while i < s.len()
        invariant
            i <= s.len(),
            first_index_of_char(s@, c, 0) == first_index_of_char(s@, c, i as nat),
        decreases s.len() - i,
    {
        if s[i] == c {
            return Some(i);
        }
        i += 1;
    }
    None
}

/// Whether two character slices are equal.
pub fn chars_equal(a: &[char], b: &[char]) -> (r: bool)
    ensures
        r == (a@ == b@),
{
    if a.len() != b.len() {
        return false;
    }
    let r = chars_start_with(a, b);
    proof {
        assert(a@.take(b@.len() as int) =~= a@);
    }
    r
}

/// `n` occurs in `h` at position `i`.
pub open spec fn occurs_at<A>(h: Seq<A>, n: Seq<A>, i: int) -> bool {
    0 <= i && i + n.len() <= h.len() && h.subrange(i, i + n.len()) == n
}

/// The first position at or after `i` where `n` occurs in `h` (as
/// `str::find` reports it, counted in characters).
pub open spec fn find_sub_from<A>(h: Seq<A>, n: Seq<A>, i: nat) -> Option<nat>
    decreases h.len() + 1 - i,
{
    if i + n.len() > h.len() {
        None
    } else if occurs_at(h, n, i as int) {
        Some(i)
    } else {
        find_sub_from(h, n, i + 1)
    }
}

/// The first position where `n` occurs in `h`.
pub open spec fn find_sub<A>(h: Seq<A>, n: Seq<A>) -> Option<nat> {
    find_sub_from(h, n, 0)
}

/// A position found lies where `n` occurs, and it is the first one.
pub proof fn lemma_find_sub<A>(h: Seq<A>, n: Seq<A>, i: nat)
    ensures
        find_sub_from(h, n, i) matches Some(p) ==> i <= p && occurs_at(h, n, p as int)
            && forall|q: int| i <= q < p ==> !#[trigger] occurs_at(h, n, q),
        find_sub_from(h, n, i) is None ==> forall|q: int| i <= q ==> !#[trigger] occurs_at(h, n, q),
    decreases h.len() + 1 - i,
{
    if i + n.len() <= h.len() && !occurs_at(h, n, i as int) {
        lemma_find_sub(h, n, i + 1);
    }
}

/// The first position where `n` occurs in `h`.
pub fn find_chars(h: &[char], n: &[char]) -> (r: Option<usize>)
    ensures
        match find_sub(h@, n@) {
            None => r is None,
            Some(p) => r == Some(p as usize),
        },
{
    if n.len() > h.len() {
        return None;
    }
    let last = h.len() - n.len();
    let mut i: usize = 0;
    while i <= last
        invariant
            last == h.len() - n.len(),
            n.len() <= h.len(),
            i <= last + 1,
            find_sub(h@, n@) == find_sub_from(h@, n@, i as nat),
        decreases last + 1 - i,
    {
        let mut j: usize = 0;
        let mut same = true;
        while j < n.len()
            invariant
                i <= last,
                last == h.len() - n.len(),
                j <= n.len(),
                same == (forall|k: int| 0 <= k < j ==> h@[i + k] == n@[k]),
            decreases n.len() - j,
        {
            if h[i + j] != n[j] {
                same = false;
            }
            j += 1;
        }
        proof {
            if same {
                assert(h@.subrange(i as int, i + n@.len()) =~= n@);
            } else {
                if occurs_at(h@, n@, i as int) {
                    assert forall|k: int| 0 <= k < n@.len() implies h@[i + k] == n@[k] by {
                        assert(h@.subrange(i as int, i + n@.len())[k] == h@[i + k]);
                    }
                }
            }
        }
        if same {
            return Some(i);
        }
        i += 1;
    }
    None
}

/// The first position where the bytes `n` occur in `h` (a byte index, as
/// `str::find` reports it).
pub fn find_bytes(h: &[u8], n: &[u8]) -> (r: Option<usize>)
    ensures
        match find_sub(h@, n@) {
            None => r is None,
            Some(p) => r == Some(p as usize),
        },
{
    if n.len() > h.len() {
        return None;
    }
    let last = h.len() - n.len();
    let mut i: usize = 0;
    while i <= last
        invariant
            last == h.len() - n.len(),
            n.len() <= h.len(),
            i <= last + 1,
            find_sub(h@, n@) == find_sub_from(h@, n@, i as nat),
        decreases last + 1 - i,
    {
        let mut j: usize = 0;
        let mut same = true;
        while j < n.len()
            invariant
                i <= last,
                last == h.len() - n.len(),
                j <= n.len(),
                same == (forall|k: int| 0 <= k < j ==> h@[i + k] == n@[k]),
            decreases n.len() - j,
        {
            if h[i + j] != n[j] {
                same = false;
            }
            j += 1;
        }
        proof {
            if same {
                assert(h@.subrange(i as int, i + n@.len()) =~= n@);
            } else {
                if occurs_at(h@, n@, i as int) {
                    assert forall|k: int| 0 <= k < n@.len() implies h@[i + k] == n@[k] by {
                        assert(h@.subrange(i as int, i + n@.len())[k] == h@[i + k]);
                    }
                }
            }
        }
        if same {
            return Some(i);
        }
        i += 1;
    }
    None
}

/// The part of `s` between two character boundaries, given as byte offsets:
/// the text whose UTF-8 bytes are those bytes of `s`.
pub fn str_piece<'a>(s: &'a str, from: usize, to: usize) -> (r: &'a str)
    requires
        from <= to <= encode_utf8(s@).len(),
        is_char_boundary(encode_utf8(s@), from as int),
        is_char_boundary(encode_utf8(s@), to as int),
    ensures
        encode_utf8(r@) == encode_utf8(s@).subrange(from as int, to as int),
        r@ == decode_utf8(encode_utf8(s@).subrange(from as int, to as int)),
{
    let ghost b = encode_utf8(s@);
    proof {
        encode_utf8_valid_utf8(s@);
        lemma_boundary_shift(b, from as int, (to - from) as int);
    }
    let (_, rest) = s.split_at(from);
    let (piece, _) = rest.split_at(to - from);
    proof {
        assert(encode_utf8(piece@) =~= b.subrange(from as int, to as int));
        encode_utf8_decode_utf8(piece@);
    }
    piece
}

/// A character boundary of a text at or after another one is a character
/// boundary of the text from that one on.
proof fn lemma_boundary_shift(b: Seq<u8>, x: int, j: int)
    requires
        valid_utf8(b),
        0 <= x,
        0 <= j,
        x + j <= b.len(),
        is_char_boundary(b, x),
        is_char_boundary(b, x + j),
    ensures
        valid_utf8(b.subrange(x, b.len() as int)),
        is_char_boundary(b.subrange(x, b.len() as int), j),
{
    valid_utf8_split(b, x);
    let t = b.subrange(x, b.len() as int);
    is_char_boundary_start_end_of_seq(t);
    if 0 < j < t.len() {
        is_char_boundary_iff_not_is_continuation_byte(t, j);
        is_char_boundary_iff_not_is_continuation_byte(b, x + j);
        assert(t[j] == b[x + j]);
    }
}

/// A character boundary of a text that lies before another one is a
/// character boundary of the text cut at the other one.
proof fn lemma_boundary_prefix(u: Seq<u8>, c: int, j: int)
    requires
        valid_utf8(u),
        0 <= j <= c <= u.len(),
        is_char_boundary(u, c),
        is_char_boundary(u, j),
    ensures
        valid_utf8(u.subrange(0, c)),
        is_char_boundary(u.subrange(0, c), j),
{
    valid_utf8_split(u, c);
    let v = u.subrange(0, c);
    is_char_boundary_start_end_of_seq(v);
    if 0 < j < c {
        is_char_boundary_iff_not_is_continuation_byte(v, j);
        is_char_boundary_iff_not_is_continuation_byte(u, j);
        assert(v[j] == u[j]);
    }
}

/// Decoding two neighbouring pieces of valid UTF-8, cut at character
/// boundaries, gives the decoding of the two together.
pub proof fn lemma_decode_join(b: Seq<u8>, x: int, y: int, z: int)
    requires
        valid_utf8(b),
        0 <= x <= y <= z <= b.len(),
        is_char_boundary(b, x),
        is_char_boundary(b, y),
        is_char_boundary(b, z),
    ensures
        decode_utf8(b.subrange(x, y)) + decode_utf8(b.subrange(y, z)) == decode_utf8(b.subrange(x, z)),
{
    lemma_boundary_shift(b, x, y - x);
    lemma_boundary_shift(b, x, z - x);
    let u = b.subrange(x, b.len() as int);
    lemma_boundary_prefix(u, z - x, y - x);
    let v = u.subrange(0, z - x);
    assert(v =~= b.subrange(x, z));
    decode_utf8_split(v, y - x);
    assert(v.subrange(0, y - x) =~= b.subrange(x, y));
    assert(v.subrange(y - x, v.len() as int) =~= b.subrange(y, z));
}

/// On ASCII text, decoding the bytes between two offsets gives the
/// characters between them.
pub proof fn lemma_decode_ascii_range(h: Seq<char>, a: int, b: int)
    requires
        is_ascii_chars(h),
        0 <= a <= b <= h.len(),
    ensures
        encode_utf8(h).len() == h.len(),
        decode_utf8(encode_utf8(h).subrange(a, b)) == h.subrange(a, b),
{
    let t = h.subrange(a, b);
    assert(is_ascii_chars(t)) by {
        assert forall|k: int| 0 <= k < t.len() implies '\0' <= #[trigger] t[k] <= '\u{7f}' by {
            assert(t[k] == h[a + k]);
        }
    }
    lemma_encode_ascii(h);
    lemma_encode_ascii(t);
    assert(encode_utf8(h).subrange(a, b) =~= encode_utf8(t));
    encode_utf8_decode_utf8(t);
}

/// Whether `line` begins with `prefix`.
pub fn chars_start_with(line: &[char], prefix: &[char]) -> (b: bool)
    ensures
        b == starts_with(line@, prefix@),
{
    if prefix.len() > line.len() {
        return false;
    }
    let mut i: usize = 0;
    while i < prefix.len()
        invariant
            prefix.len() <= line.len(),
            i <= prefix.len(),
            forall|j: int| 0 <= j < i ==> line@[j] == prefix@[j],
        decreases prefix.len() - i,
    {
        if line[i] != prefix[i] {
            proof { assert(line@.take(prefix@.len() as int)[i as int] != prefix@[i as int]); }
            return false;
        }
        i += 1;
    }
    proof { assert(line@.take(prefix@.len() as int) =~= prefix@); }
    true
}

/// The characters of `v` from `from` up to (not including) `to`.
pub fn chars_range(v: &[char], from: usize, to: usize) -> (r: Vec<char>)
    requires
        from <= to <= v.len(),
    ensures
        r@ == v@.subrange(from as int, to as int),
{
    let mut r: Vec<char> = Vec::new();
    let mut i: usize = from;
    while i < to
        invariant
            from <= i <= to <= v.len(),
            r@ == v@.subrange(from as int, i as int),
        decreases to - i,
    {
        r.push(v[i]);
        i += 1;
        proof { assert(r@ =~= v@.subrange(from as int, i as int)); }
    }
    r
}

/// Appends all of `b` to `out`.
pub fn push_all(out: &mut Vec<u8>, b: &[u8])
    ensures
        final(out)@ == old(out)@ + b@,
{
    let mut i: usize = 0;
    while i < b.len()
        invariant
            i <= b.len(),
            out@ == old(out)@ + b@.take(i as int),
        decreases b.len() - i,
    {
        out.push(b[i]);
        i += 1;
        proof { assert(out@ =~= old(out)@ + b@.take(i as int)); }
    }
    proof { assert(b@.take(b@.len() as int) =~= b@); }
}

/// UTF-8 encoding distributes over concatenation.
pub proof fn lemma_encode_concat(a: Seq<char>, b: Seq<char>)
    ensures
        encode_utf8(a + b) == encode_utf8(a) + encode_utf8(b),
    decreases a.len(),
{
    if a.len() == 0 {
        assert(a + b =~= b);
        assert(encode_utf8(a) =~= Seq::<u8>::empty());
        assert(Seq::<u8>::empty() + encode_utf8(b) =~= encode_utf8(b));
    } else {
        lemma_encode_concat(a.drop_first(), b);
        assert((a + b).drop_first() =~= a.drop_first() + b);
        assert((a + b)[0] == a[0]);
        assert(encode_utf8(a + b) =~= encode_utf8(a) + encode_utf8(b));
    }
}

/// The UTF-8 encoding of ASCII characters is one byte per character.
pub proof fn lemma_encode_ascii(a: Seq<char>)
    requires
        is_ascii_chars(a),
    ensures
        encode_utf8(a) == Seq::new(a.len(), |i: int| a[i] as u8),
{
    is_ascii_chars_encode_utf8(a);
}

/// The decimal digits of `n`, as ASCII bytes, most significant first.
pub open spec fn decimal_bytes(n: nat) -> Seq<u8>
    decreases n,
{
    if n < 10 {
        seq![(48 + n) as u8]
    } else {
        decimal_bytes(n / 10).push((48 + n % 10) as u8)
    }
}

/// The decimal digits of `n`, as characters, most significant first.
pub open spec fn decimal_chars(n: nat) -> Seq<char> {
    decimal_bytes(n).map_values(|b: u8| b as char)
}

/// The decimal digits of `n` as characters.
pub fn decimal_chars_of(n: u64) -> (v: Vec<char>)
    ensures
        v@ == decimal_chars(n as nat),
{
    let b = decimal_bytes_of(n);
    let mut v: Vec<char> = Vec::new();
    let mut i: usize = 0;
    while i < b.len()
        invariant
            i <= b.len(),
            v@ == b@.take(i as int).map_values(|x: u8| x as char),
        decreases b.len() - i,
    {
        v.push(b[i] as char);
        i += 1;
        proof { assert(v@ =~= b@.take(i as int).map_values(|x: u8| x as char)); }
    }
    proof { assert(b@.take(b@.len() as int) =~= b@); }
    v
}

/// Appends all of `b` to `out`.
pub fn push_chars(out: &mut Vec<char>, b: &[char])
    ensures
        final(out)@ == old(out)@ + b@,
{
    let mut i: usize = 0;
    while i < b.len()
        invariant
            i <= b.len(),
            out@ == old(out)@ + b@.take(i as int),
        decreases b.len() - i,
    {
        out.push(b[i]);
        i += 1;
        proof { assert(out@ =~= old(out)@ + b@.take(i as int)); }
    }
    proof { assert(b@.take(b@.len() as int) =~= b@); }
}

/// The decimal digits of `n` as ASCII bytes.
pub fn decimal_bytes_of(n: u64) -> (v: Vec<u8>)
    ensures
        v@ == decimal_bytes(n as nat),
    decreases n,
{
    if n < 10 {
        let mut v: Vec<u8> = Vec::new();
        v.push(48u8 + n as u8);
        proof { assert(v@ =~= decimal_bytes(n as nat)); }
        v
    } else {
        let mut v = decimal_bytes_of(n / 10);
        v.push(48u8 + (n % 10) as u8);
        v
    }
}

/// An ASCII hexadecimal digit, either case.
pub open spec fn is_hex_digit(c: char) -> bool {
    ('0' <= c && c <= '9') || ('a' <= c && c <= 'f') || ('A' <= c && c <= 'F')
}

/// An ASCII decimal digit.
pub open spec fn is_decimal_digit(c: char) -> bool {
    '0' <= c && c <= '9'
}

/// The ASCII lowercase of a character (other characters are unchanged).
pub open spec fn ascii_lower_char(c: char) -> char {
    if 'A' <= c && c <= 'Z' {
        ((c as u32) + 32) as char
    } else {
        c
    }
}

/// The ASCII lowercase of a character sequence.
pub open spec fn ascii_lower(s: Seq<char>) -> Seq<char> {
    s.map_values(|c: char| ascii_lower_char(c))
}

/// The value (0 to 15) of a lowercase hexadecimal digit.
pub open spec fn hex_value(c: char) -> u8 {
    if '0' <= c && c <= '9' {
        ((c as u32) - 48) as u8
    } else {
        ((c as u32) - 87) as u8
    }
}

/// The lowercase hexadecimal digit of a nibble value (0 to 15).
pub open spec fn hex_char(n: u8) -> char {
    if n < 10 {
        ((n as u32) + 48) as char
    } else {
        ((n as u32) + 87) as char
    }
}

/// The lowercase hexadecimal text of a byte sequence, two digits a byte.
pub open spec fn hex_lower(bytes: Seq<u8>) -> Seq<char>
    decreases bytes.len(),
{
    if bytes.len() == 0 {
        Seq::empty()
    } else {
        hex_lower(bytes.drop_last()) + seq![hex_char(bytes.last() >> 4u8), hex_char(bytes.last() & 0x0Fu8)]
    }
}

/// `hex::encode`: the lowercase hexadecimal text of the bytes.
#[verifier::external_body]
pub(crate) fn hex_encode(bytes: &[u8]) -> (s: String)
    ensures
        s@ == hex_lower(bytes@),
{
    hex::encode(bytes)
}

/// The ASCII lowercase of one character.
pub fn lower_char(c: char) -> (r: char)
    ensures
        r == ascii_lower_char(c),
{
    if c >= 'A' && c <= 'Z' {
        ((c as u8) + 32u8) as char
    } else {
        c
    }
}

/// The ASCII lowercase of every character.
pub fn lower_chars(s: &[char]) -> (r: Vec<char>)
    ensures
        r@ == ascii_lower(s@),
{
    let mut r: Vec<char> = Vec::new();
    let mut i: usize = 0;
    while i < s.len()
        invariant
            i <= s.len(),
            r@ == ascii_lower(s@.take(i as int)),
        decreases s.len() - i,
    {
        r.push(lower_char(s[i]));
        i += 1;
        proof { assert(r@ =~= ascii_lower(s@.take(i as int))); }
    }
    proof { assert(s@.take(s@.len() as int) =~= s@); }
    r
}

/// Whether `c` is an ASCII hexadecimal digit.
pub fn hex_digit_check(c: char) -> (b: bool)
    ensures
        b == is_hex_digit(c),
{
    (c >= '0' && c <= '9') || (c >= 'a' && c <= 'f') || (c >= 'A' && c <= 'F')
}

/// The value of a digit, decimal or lowercase hexadecimal.
pub fn hex_value_of(c: char) -> (n: u8)
    requires
        ('0' <= c && c <= '9') || ('a' <= c && c <= 'f'),
    ensures
        n == hex_value(c),
        n < 16,
{
    if c >= '0' && c <= '9' {
        (c as u8) - 48u8
    } else {
        (c as u8) - 87u8
    }
}

/// The lowercase hexadecimal digit of a nibble.
pub fn hex_char_of(n: u8) -> (c: char)
    requires
        n < 16,
    ensures
        c == hex_char(n),
{
    if n < 10 {
        (n + 48u8) as char
    } else {
        (n + 87u8) as char
    }
}

/// The value of a sequence of decimal digits.
pub open spec fn decimal_value(d: Seq<char>) -> nat
    decreases d.len(),
{
    if d.len() == 0 {
        0
    } else {
        decimal_value(d.drop_last()) * 10 + ((d.last() as u32) - 48) as nat
    }
}

/// The digits that a number text holds: the text without one leading `+`.
pub open spec fn unsigned_digits(s: Seq<char>) -> Seq<char> {
    if s.len() > 0 && s[0] == '+' {
        s.drop_first()
    } else {
        s
    }
}

/// The `usize` that a text denotes as `str::parse::<usize>` reads it: an
/// optional `+`, then one or more decimal digits, with a value that fits.
pub open spec fn spec_parse_usize(s: Seq<char>) -> Option<usize> {
    let d = unsigned_digits(s);
    if d.len() > 0 && (forall|i: int| 0 <= i < d.len() ==> is_decimal_digit(#[trigger] d[i]))
        && decimal_value(d) <= usize::MAX {
        Some(decimal_value(d) as usize)
    } else {
        None
    }
}

proof fn lemma_decimal_value_grows(d: Seq<char>, i: int)
    requires
        0 <= i <= d.len(),
    ensures
        decimal_value(d.take(i)) <= decimal_value(d),
    decreases d.len() - i,
{
    if i < d.len() {
        lemma_decimal_value_grows(d, i + 1);
        assert(d.take(i + 1).drop_last() =~= d.take(i));
    } else {
        assert(d.take(i) =~= d);
    }
}

/// Reads an unsigned decimal number as `str::parse::<usize>` does.
pub fn parse_usize(s: &[char]) -> (r: Option<usize>)
    ensures
        r == spec_parse_usize(s@),
{
    let start: usize = if s.len() > 0 && s[0] == '+' { 1 } else { 0 };
    let ghost d = unsigned_digits(s@);
    proof {
        if start == 1 {
            assert(d =~= s@.subrange(1, s@.len() as int));
        } else {
            assert(d =~= s@);
        }
    }
    if start >= s.len() {
        return None;
    }
    let mut v: usize = 0;
    let mut i: usize = start;
    proof { assert(d.take(0) =~= Seq::<char>::empty()); }
    while i < s.len()
        invariant
            start <= i <= s.len(),
            d == unsigned_digits(s@),
            d == s@.subrange(start as int, s@.len() as int),
            forall|j: int| 0 <= j < i - start ==> is_decimal_digit(#[trigger] d[j]),
            v as nat == decimal_value(d.take(i - start)),
        decreases s.len() - i,
    {
        let c = s[i];
        assert(d[i - start] == c);
        if !(c >= '0' && c <= '9') {
            proof { assert(!is_decimal_digit(d[i - start])); }
            return None;
        }
        let digit: usize = ((c as u8) - 48u8) as usize;
        proof {
            assert(d.take(i - start + 1).drop_last() =~= d.take(i - start));
            assert(d.take(i - start + 1).last() == c);
            assert(((c as u32) - 48) as nat == digit);
            assert(decimal_value(d.take(i - start + 1)) == v * 10 + digit);
        }
        match v.checked_mul(10) {
            None => {
                proof { lemma_decimal_value_grows(d, i - start + 1); }
                return None;
            },
            Some(m) => match m.checked_add(digit) {
                None => {
                    proof { lemma_decimal_value_grows(d, i - start + 1); }
                    return None;
                },
                Some(n) => {
                    v = n;
                },
            },
        }
        i += 1;
    }
    proof { assert(d.take(s@.len() - start) =~= d); }
    Some(v)
}

} // verus!
