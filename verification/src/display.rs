//! What the command line shows: highlighted hashes, grouped numbers, and the
//! detection of vanity patterns in existing hashes.

use vstd::prelude::*;
use vstd::utf8::{decode_utf8, encode_utf8, encode_utf8_valid_utf8, is_ascii_chars, is_char_boundary};
use crate::pattern::MatchPosition;
use crate::preset::{presets, spec_presets, Preset, PresetView};
use crate::text::{
    ascii_lower, chars_range, decimal_chars, decimal_chars_of, decimal_value, find_bytes, find_chars,
    find_sub, lemma_decode_ascii_range, lemma_decode_join, lemma_find_sub, lower_chars, occurs_at, push_chars, starts_with, str_chars, str_piece,
    string_from_chars,
};

verus! {

/// The terminal code that starts bold green text.
pub open spec fn green_on() -> Seq<char> {
    seq!['\x1b', '[', '1', ';', '3', '2', 'm']
}

/// The terminal code that ends colored text.
pub open spec fn green_off() -> Seq<char> {
    seq!['\x1b', '[', '0', 'm']
}

/// `text` in bold green when `color` holds, else unchanged.
pub open spec fn spec_bold_green(text: Seq<char>, color: bool) -> Seq<char> {
    if color {
        green_on() + text + green_off()
    } else {
        text
    }
}

/// Appends `text`, in bold green when `color` holds.
fn push_bold_green(out: &mut Vec<char>, text: &[char], color: bool)
    ensures
        final(out)@ == old(out)@ + spec_bold_green(text@, color),
{
    if color {
        push_chars(out, &['\x1b', '[', '1', ';', '3', '2', 'm']);
        push_chars(out, text);
        push_chars(out, &['\x1b', '[', '0', 'm']);
    } else {
        push_chars(out, text);
    }
    proof { assert(out@ =~= old(out)@ + spec_bold_green(text@, color)); }
}

/// Wrap text in bold green ANSI codes if color is supported.
pub fn bold_green(text: &str, color: bool) -> (s: String)
    ensures
        s@ == spec_bold_green(text@, color),
{
    let t = str_chars(text);
    let mut out: Vec<char> = Vec::new();
    push_bold_green(&mut out, &t, color);
    proof { assert(out@ =~= spec_bold_green(text@, color)); }
    string_from_chars(&out)
}

/// Decimal digits grouped in threes from the right, separated by commas.
pub open spec fn group_thousands(d: Seq<char>) -> Seq<char>
    decreases d.len(),
{
    if d.len() <= 3 {
        d
    } else {
        group_thousands(d.take(d.len() - 3)) + seq![','] + d.skip(d.len() - 3)
    }
}

fn group_thousands_exec(d: &[char]) -> (r: Vec<char>)
    ensures
        r@ == group_thousands(d@),
    decreases d.len(),
{
    if d.len() <= 3 {
        let mut r: Vec<char> = Vec::new();
        push_chars(&mut r, d);
        proof { assert(r@ =~= d@); }
        r
    } else {
        let head = chars_range(d, 0, d.len() - 3);
        let tail = chars_range(d, d.len() - 3, d.len());
        let mut r = group_thousands_exec(&head);
        r.push(',');
        push_chars(&mut r, &tail);
        proof {
            assert(head@ =~= d@.take(d@.len() - 3));
            assert(tail@ =~= d@.skip(d@.len() - 3));
        }
        r
    }
}

/// The text without its commas.
pub open spec fn strip_commas(s: Seq<char>) -> Seq<char>
    decreases s.len(),
{
    if s.len() == 0 {
        s
    } else if s.last() == ',' {
        strip_commas(s.drop_last())
    } else {
        strip_commas(s.drop_last()).push(s.last())
    }
}

proof fn lemma_strip_concat(a: Seq<char>, b: Seq<char>)
    ensures
        strip_commas(a + b) == strip_commas(a) + strip_commas(b),
    decreases b.len(),
{
    if b.len() == 0 {
        assert(a + b =~= a);
        assert(strip_commas(a) + strip_commas(b) =~= strip_commas(a));
    } else {
        assert((a + b).drop_last() =~= a + b.drop_last());
        assert((a + b).last() == b.last());
        lemma_strip_concat(a, b.drop_last());
        if b.last() != ',' {
            assert(strip_commas(a) + strip_commas(b.drop_last()).push(b.last())
                =~= (strip_commas(a) + strip_commas(b.drop_last())).push(b.last()));
        }
    }
}

proof fn lemma_strip_digits(d: Seq<char>)
    requires
        forall|k: int| 0 <= k < d.len() ==> #[trigger] d[k] != ',',
    ensures
        strip_commas(d) == d,
    decreases d.len(),
{
    if d.len() > 0 {
        assert(d[d.len() - 1] == d.last());
        lemma_strip_digits(d.drop_last());
        assert(d.drop_last().push(d.last()) =~= d);
    }
}

/// The commas of a formatted number: it starts with a digit, and a comma
/// stands exactly at the places followed by a multiple of four characters
/// (a comma and three digits per group after the first).
pub open spec fn commas_every_three(s: Seq<char>) -> bool {
    &&& s.len() >= 1
    &&& forall|q: int| 0 <= q < s.len() ==> (#[trigger] s[q] == ',' <==> (q > 0 && (s.len() - q) % 4 == 0))
}

proof fn lemma_group_shape(d: Seq<char>)
    requires
        d.len() >= 1,
        forall|k: int| 0 <= k < d.len() ==> #[trigger] d[k] != ',',
    ensures
        strip_commas(group_thousands(d)) == d,
        group_thousands(d).len() == d.len() + (d.len() - 1) / 3,
        commas_every_three(group_thousands(d)),
    decreases d.len(),
{
    if d.len() <= 3 {
        lemma_strip_digits(d);
    } else {
        let g = group_thousands(d.take(d.len() - 3));
        let s2 = group_thousands(d);
        let tt = d.skip(d.len() - 3);
        lemma_group_shape(d.take(d.len() - 3));
        assert(s2 == g + seq![','] + tt);
        assert forall|q: int| 0 <= q < s2.len() implies (#[trigger] s2[q] == ',' <==> (q > 0 && (s2.len() - q)
            % 4 == 0)) by {
            if q < g.len() {
                assert(s2[q] == g[q]);
                assert((s2.len() - q) % 4 == (g.len() - q) % 4);
            } else if q == g.len() {
                assert(s2[q] == ',');
            } else {
                assert(s2[q] == tt[q - g.len() - 1]);
                assert(tt[q - g.len() - 1] == d[d.len() - 3 + (q - g.len() - 1)]);
            }
        }
        let h = d.take(d.len() - 3);
        let t = d.skip(d.len() - 3);
        lemma_group_shape(h);
        lemma_strip_digits(t);
        lemma_strip_concat(group_thousands(h) + seq![','], t);
        lemma_strip_concat(group_thousands(h), seq![',']);
        assert(strip_commas(seq![',']) =~= Seq::<char>::empty()) by {
            assert(seq![','].drop_last() =~= Seq::<char>::empty());
            assert(seq![','].last() == ',');
            assert(strip_commas(Seq::<char>::empty()) == Seq::<char>::empty());
        }
        assert(h + t =~= d);
        assert(strip_commas(group_thousands(h)) + Seq::<char>::empty() =~= h);
    }
}

/// The decimal digits of a number are digits, at least one, and read back
/// as the number.
proof fn lemma_decimal_digits(n: nat)
    ensures
        decimal_chars(n).len() >= 1,
        forall|k: int| 0 <= k < decimal_chars(n).len() ==> '0' <= #[trigger] decimal_chars(n)[k] <= '9',
        decimal_value(decimal_chars(n)) == n,
    decreases n,
{
    if n >= 10 {
        lemma_decimal_digits(n / 10);
        let d = decimal_chars(n / 10);
        let c = ((48 + n % 10) as u8) as char;
        assert(decimal_chars(n) =~= d.push(c));
        assert(decimal_chars(n).drop_last() =~= d);
        assert((c as u32) - 48 == n % 10);
        assert(decimal_value(decimal_chars(n)) == decimal_value(d) * 10 + ((c as u32) - 48) as nat);
        assert((n / 10) * 10 + n % 10 == n);
        assert forall|k: int| 0 <= k < decimal_chars(n).len() implies '0' <= #[trigger] decimal_chars(n)[k] <= '9' by {
            if k < d.len() {
                assert(decimal_chars(n)[k] == d[k]);
            }
        }
    } else {
        assert(decimal_chars(n) =~= seq![((48 + n) as u8) as char]);
        assert(decimal_chars(n).drop_last() =~= Seq::<char>::empty());
        assert(decimal_value(Seq::<char>::empty()) == 0);
        assert(decimal_chars(n).last() == ((48 + n) as u8) as char);
        assert(decimal_value(decimal_chars(n)) == decimal_value(Seq::<char>::empty()) * 10 + ((decimal_chars(n).last() as u32) - 48) as nat);
    }
}

/// A formatted number reads back as the number: without its commas it is
/// the number's decimal digits; it holds one comma for every full group of
/// three digits after the first one to three, and every group after the
/// first has exactly three digits.
pub proof fn lemma_format_number_digits(n: u64)
    ensures
        strip_commas(group_thousands(decimal_chars(n as nat))) == decimal_chars(n as nat),
        decimal_value(strip_commas(group_thousands(decimal_chars(n as nat)))) == n,
        commas_every_three(group_thousands(decimal_chars(n as nat))),
        group_thousands(decimal_chars(n as nat)).len() == decimal_chars(n as nat).len() + (
        decimal_chars(n as nat).len() - 1) / 3,
{
    lemma_decimal_digits(n as nat);
    let d = decimal_chars(n as nat);
    assert forall|k: int| 0 <= k < d.len() implies #[trigger] d[k] != ',' by {
        assert('0' <= d[k] <= '9');
    }
    lemma_group_shape(d);
}

/// A number in decimal with thousands separated by commas: `1,234,567`.
pub fn format_number(n: u64) -> (s: String)
    ensures
        s@ == group_thousands(decimal_chars(n as nat)),
{
    let d = decimal_chars_of(n);
    let g = group_thousands_exec(&d);
    string_from_chars(&g)
}

/// The smaller of two integers.
pub open spec fn min_int(a: int, b: int) -> int {
    if a <= b { a } else { b }
}

/// The larger of two integers.
pub open spec fn max_int(a: int, b: int) -> int {
    if a >= b { a } else { b }
}

/// Three dots.
pub open spec fn dots() -> Seq<char> {
    seq!['.', '.', '.']
}

/// The part of the hash to show, as byte offsets (show start, match start,
/// match end, show end), for the hash bytes `hb` and the bytes `pb` of the
/// lowercase pattern.
pub open spec fn hash_window(hb: Seq<u8>, pb: Seq<u8>, position: MatchPosition) -> (int, int, int, int) {
    let hlen = hb.len() as int;
    let plen = pb.len() as int;
    let show = min_int(max_int(12, plen), hlen);
    match position {
        MatchPosition::Start => (0, 0, min_int(plen, hlen), show),
        MatchPosition::End => (hlen - show, hlen - plen, hlen, hlen),
        MatchPosition::Contains => match find_sub(hb, pb) {
            None => (0, 0, 0, hlen),
            Some(pos) => (max_int(pos - 3, 0), pos as int, pos + plen, min_int(pos + plen + 3, hlen)),
        },
    }
}

/// The window of `format_hash` for a hash and a pattern text.
pub open spec fn format_hash_window(h: Seq<char>, pattern: Seq<char>, position: MatchPosition) -> (int, int, int, int) {
    hash_window(encode_utf8(h), encode_utf8(ascii_lower(pattern)), position)
}

/// The inputs `format_hash` is defined on: an end match needs the pattern to
/// be no longer than the hash, and the four cuts of the window fall on
/// character boundaries of the hash.
pub open spec fn format_hash_defined(h: Seq<char>, pattern: Seq<char>, position: MatchPosition) -> bool {
    let hb = encode_utf8(h);
    let w = format_hash_window(h, pattern, position);
    &&& position == MatchPosition::End ==> encode_utf8(ascii_lower(pattern)).len() <= hb.len()
    &&& is_char_boundary(hb, w.0)
    &&& is_char_boundary(hb, w.1)
    &&& is_char_boundary(hb, w.2)
    &&& is_char_boundary(hb, w.3)
}

/// The hash with the matched part highlighted and the rest around it cut to
/// a short window, marked with dots where cut; the cuts are byte offsets.
pub open spec fn spec_format_hash(h: Seq<char>, pattern: Seq<char>, position: MatchPosition, color: bool) -> Seq<char> {
    let hb = encode_utf8(h);
    let w = format_hash_window(h, pattern, position);
    (if w.0 > 0 { dots() } else { Seq::empty() }) + decode_utf8(hb.subrange(w.0, w.1)) + spec_bold_green(
        decode_utf8(hb.subrange(w.1, w.2)),
        color,
    ) + decode_utf8(hb.subrange(w.2, w.3)) + (if w.3 < hb.len() { dots() } else { Seq::empty() })
}

/// The window that the uncoloured `format_hash` shows, as byte offsets:
/// `w` is the pattern's length but at least 12, and at most the hash's
/// length; a start match shows the first `w` bytes, an end match the last
/// `w`; a contains match shows from three bytes before the first place of
/// the lowercase pattern to three after it (within the hash), or the whole
/// hash where the pattern does not occur.
pub open spec fn shown_window(hb: Seq<u8>, pb: Seq<u8>, position: MatchPosition) -> (int, int) {
    let hlen = hb.len() as int;
    let w = min_int(max_int(12, pb.len() as int), hlen);
    match position {
        MatchPosition::Start => (0, w),
        MatchPosition::End => (hlen - w, hlen),
        MatchPosition::Contains => match find_sub(hb, pb) {
            None => (0, hlen),
            Some(i) => (max_int(i - 3, 0), min_int(i + pb.len() as int + 3, hlen)),
        },
    }
}

/// Without colour, `format_hash` gives the hash cut to its window, with
/// three dots where the window leaves out the start and three where it
/// leaves out the end; on an ASCII hash the window is the hash's characters
/// between those offsets.
pub proof fn lemma_format_hash_window(h: Seq<char>, pattern: Seq<char>, position: MatchPosition)
    requires
        format_hash_defined(h, pattern, position),
    ensures
        ({
            let hb = encode_utf8(h);
            let (a, b) = shown_window(hb, encode_utf8(ascii_lower(pattern)), position);
            &&& spec_format_hash(h, pattern, position, false) == (if a > 0 { dots() } else { Seq::empty() })
                + decode_utf8(hb.subrange(a, b)) + (if b < hb.len() { dots() } else { Seq::empty() })
            &&& is_ascii_chars(h) ==> decode_utf8(hb.subrange(a, b)) == h.subrange(a, b)
        }),
{
    let hb = encode_utf8(h);
    let pb = encode_utf8(ascii_lower(pattern));
    let w = format_hash_window(h, pattern, position);
    encode_utf8_valid_utf8(h);
    if position == MatchPosition::Contains {
        lemma_find_sub(hb, pb, 0);
    }
    assert(0 <= w.0 <= w.1 <= w.2 <= w.3 <= hb.len());
    assert((w.0, w.3) == shown_window(hb, pb, position));
    lemma_decode_join(hb, w.0, w.1, w.2);
    lemma_decode_join(hb, w.0, w.2, w.3);
    if is_ascii_chars(h) {
        lemma_decode_ascii_range(h, 0, 0);
        lemma_decode_ascii_range(h, w.0, w.3);
    }
}

/// The window of `format_hash`, on the hash bytes and lowercase pattern bytes.
fn hash_window_exec(hb: &[u8], pb: &[u8], position: MatchPosition) -> (w: (usize, usize, usize, usize))
    requires
        position == MatchPosition::End ==> pb@.len() <= hb@.len(),
    ensures
        (w.0 as int, w.1 as int, w.2 as int, w.3 as int) == hash_window(hb@, pb@, position),
        w.0 <= w.1 <= w.2 <= w.3 <= hb@.len(),
{
    let plen = pb.len();
    let hlen = hb.len();
    let show = if plen > 12 { plen } else { 12 };
    let show = if show < hlen { show } else { hlen };
    match position {
        MatchPosition::Start => (0, 0, if plen < hlen { plen } else { hlen }, show),
        MatchPosition::End => (hlen - show, hlen - plen, hlen, hlen),
        MatchPosition::Contains => match find_bytes(hb, pb) {
            None => (0, 0, 0, hlen),
            Some(pos) => {
                proof { lemma_find_sub(hb@, pb@, 0); }
                (
                    if pos >= 3 { pos - 3 } else { 0 },
                    pos,
                    pos + plen,
                    if hlen - (pos + plen) > 3 { pos + plen + 3 } else { hlen },
                )
            },
        },
    }
}

/// The bytes of the ASCII lowercase of a text.
fn lower_text(t: &str) -> (s: String)
    ensures
        s@ == ascii_lower(t@),
{
    let c = str_chars(t);
    let l = lower_chars(&c);
    string_from_chars(&l)
}

/// Whether `format_hash` is defined on these inputs (see
/// `format_hash_defined`).
pub fn format_hash_is_defined(hash: &str, pattern: &str, position: MatchPosition) -> (b: bool)
    ensures
        b == format_hash_defined(hash@, pattern@, position),
{
    let lower = lower_text(pattern);
    let pb = lower.as_str().as_bytes();
    let hb = hash.as_bytes();
    if position == MatchPosition::End && pb.len() > hb.len() {
        return false;
    }
    let w = hash_window_exec(hb, pb, position);
    hash.is_char_boundary(w.0) && hash.is_char_boundary(w.1) && hash.is_char_boundary(w.2)
        && hash.is_char_boundary(w.3)
}

/// Format hash with pattern highlighted in color.
pub fn format_hash(hash: &str, pattern: &str, position: MatchPosition, color: bool) -> (s: String)
    requires
        format_hash_defined(hash@, pattern@, position),
    ensures
        s@ == spec_format_hash(hash@, pattern@, position, color),
{
    let lower = lower_text(pattern);
    let pb = lower.as_str().as_bytes();
    let hb = hash.as_bytes();
    let (ss, ms, me, se) = hash_window_exec(hb, pb, position);
    let a = str_piece(hash, ss, ms);
    let b = str_piece(hash, ms, me);
    let c = str_piece(hash, me, se);
    let mut out: Vec<char> = Vec::new();
    if ss > 0 {
        push_chars(&mut out, &['.', '.', '.']);
    }
    let ghost o0 = out@;
    push_chars(&mut out, &str_chars(a));
    push_bold_green(&mut out, &str_chars(b), color);
    push_chars(&mut out, &str_chars(c));
    if se < hb.len() {
        push_chars(&mut out, &['.', '.', '.']);
    }
    proof {
        assert(o0 == (if ss > 0 { dots() } else { Seq::<char>::empty() }));
        assert(out@ =~= spec_format_hash(hash@, pattern@, position, color));
    }
    string_from_chars(&out)
}

/// The number of characters from `i` on that equal `c`, counted from the
/// start of `h` (the length of the leading run of `c`).
pub open spec fn leading_run(h: Seq<char>, c: char, i: nat) -> nat
    decreases h.len() - i,
{
    if i < h.len() && h[i as int] == c {
        leading_run(h, c, i + 1)
    } else {
        i
    }
}

/// How many characters at the start of `h` equal its first one.
pub open spec fn leading_count(h: Seq<char>) -> nat {
    leading_run(h, if h.len() > 0 { h[0] } else { ' ' }, 0)
}

/// `h` ends with `p`.
pub open spec fn ends_with(h: Seq<char>, p: Seq<char>) -> bool {
    p.len() <= h.len() && h.skip(h.len() - p.len()) == p
}

/// A preset (of four or more hex digits) sits in the hash where the
/// position says.
pub open spec fn preset_fits(p: PresetView, h: Seq<char>, position: MatchPosition) -> bool {
    p.hex.len() >= 4 && match position {
        MatchPosition::Start => starts_with(h, p.hex),
        MatchPosition::End => ends_with(h, p.hex),
        MatchPosition::Contains => find_sub(h, p.hex) is Some,
    }
}

/// Among the presets that fit, the one with the longest hex word (the last
/// such one where several are equally long).
pub open spec fn pick_longest(ps: Seq<PresetView>, h: Seq<char>, position: MatchPosition) -> Option<int>
    decreases ps.len(),
{
    if ps.len() == 0 {
        None
    } else {
        let r = pick_longest(ps.drop_last(), h, position);
        if preset_fits(ps.last(), h, position) && (r is None || ps.last().hex.len() >= ps[r.unwrap()].hex.len()) {
            Some(ps.len() - 1)
        } else {
            r
        }
    }
}

/// The preset picked fits, and no fitting preset has a longer hex word; no
/// preset is picked only when none fits.
pub proof fn lemma_pick_longest(ps: Seq<PresetView>, h: Seq<char>, position: MatchPosition)
    ensures
        pick_longest(ps, h, position) matches Some(i) ==> 0 <= i < ps.len() && preset_fits(ps[i], h, position)
            && forall|j: int| 0 <= j < ps.len() && preset_fits(#[trigger] ps[j], h, position) ==> ps[j].hex.len() <= ps[i].hex.len(),
        pick_longest(ps, h, position) is None ==> forall|j: int| 0 <= j < ps.len() ==> !preset_fits(#[trigger] ps[j], h, position),
    decreases ps.len(),
{
    if ps.len() > 0 {
        let t = ps.drop_last();
        lemma_pick_longest(t, h, position);
        let n = ps.len() as int;
        let last = ps[n - 1];
        assert(last == ps.last());
        let r = pick_longest(t, h, position);
        match pick_longest(ps, h, position) {
            Some(i) => {
                assert forall|j: int| 0 <= j < ps.len() && preset_fits(#[trigger] ps[j], h, position) implies ps[j].hex.len() <= ps[i].hex.len() by {
                    if j < n - 1 {
                        assert(t[j] == ps[j]);
                        assert(preset_fits(t[j], h, position));
                    }
                    if let Some(k) = r {
                        assert(t[k] == ps[k]);
                    }
                }
                if let Some(k) = r {
                    assert(t[k] == ps[k]);
                }
            },
            None => {
                assert forall|j: int| 0 <= j < ps.len() implies !preset_fits(#[trigger] ps[j], h, position) by {
                    if j < n - 1 {
                        assert(t[j] == ps[j]);
                    }
                }
            },
        }
    }
}

/// The number of bytes that UTF-8 takes for a character.
pub open spec fn utf8_width(c: char) -> nat {
    if (c as u32) < 0x80 {
        1
    } else if (c as u32) < 0x800 {
        2
    } else if (c as u32) < 0x10000 {
        3
    } else {
        4
    }
}

/// The vanity pattern seen in a hash: where it starts with a run of four or
/// more equal characters, the first bytes of the hash, as many as the run
/// has characters (for an ASCII hash, the run itself); else the longest
/// preset at the start, else at the end, else anywhere.
pub open spec fn spec_detect_vanity(h: Seq<char>) -> Option<(Seq<char>, MatchPosition)> {
    let lead = leading_count(h);
    let ps = spec_presets();
    if lead >= 4 {
        Some((h.take((lead / utf8_width(h[0])) as int), MatchPosition::Start))
    } else {
        match pick_longest(ps, h, MatchPosition::Start) {
            Some(i) => Some((ps[i].hex, MatchPosition::Start)),
            None => match pick_longest(ps, h, MatchPosition::End) {
                Some(i) => Some((ps[i].hex, MatchPosition::End)),
                None => match pick_longest(ps, h, MatchPosition::Contains) {
                    Some(i) => Some((ps[i].hex, MatchPosition::Contains)),
                    None => None,
                },
            },
        }
    }
}

/// Whether `h` ends with `p`.
fn chars_end_with(h: &[char], p: &[char]) -> (b: bool)
    ensures
        b == ends_with(h@, p@),
{
    if p.len() > h.len() {
        return false;
    }
    let tail = chars_range(h, h.len() - p.len(), h.len());
    proof { assert(tail@ =~= h@.skip(h@.len() - p@.len())); }
    crate::text::chars_equal(&tail, p)
}

/// Whether a preset fits the hash at a position.
fn preset_fits_exec(p: &Preset, h: &[char], position: MatchPosition) -> (b: bool)
    ensures
        b == preset_fits(p@, h@, position),
{
    let hex = str_chars(p.hex);
    if hex.len() < 4 {
        return false;
    }
    match position {
        MatchPosition::Start => crate::text::chars_start_with(h, &hex),
        MatchPosition::End => chars_end_with(h, &hex),
        MatchPosition::Contains => find_chars(h, &hex).is_some(),
    }
}

/// The index of the longest fitting preset.
fn pick_longest_exec(ps: &Vec<Preset>, h: &[char], position: MatchPosition) -> (r: Option<usize>)
    ensures
        match pick_longest(ps@.map_values(|p: Preset| p@), h@, position) {
            None => r is None,
            Some(i) => r == Some(i as usize),
        },
{
    let ghost views = ps@.map_values(|p: Preset| p@);
    let mut best: Option<usize> = None;
    let mut best_len: usize = 0;
    let mut i: usize = 0;
    while i < ps.len()
        invariant
            i <= ps.len(),
            views == ps@.map_values(|p: Preset| p@),
            match pick_longest(views.take(i as int), h@, position) {
                None => best is None,
                Some(k) => best == Some(k as usize) && 0 <= k < i && best_len == views[k].hex.len(),
            },
        decreases ps.len() - i,
    {
        let p = ps[i];
        proof {
            assert(views.take(i + 1).drop_last() =~= views.take(i as int));
            assert(views.take(i + 1).last() == p@);
            assert(views[i as int] == p@);
            let r = pick_longest(views.take(i as int), h@, position);
            if let Some(k) = r {
                assert(views.take(i + 1)[k] == views[k]);
                assert(views.take(i as int)[k] == views[k]);
            }
        }
        if preset_fits_exec(&p, h, position) {
            let n = str_chars(p.hex).len();
            if best.is_none() || n >= best_len {
                best = Some(i);
                best_len = n;
            }
        }
        i += 1;
    }
    proof { assert(views.take(ps@.len() as int) =~= views); }
    best
}

/// A preset at the start or at the end of the hash also occurs in it.
proof fn lemma_fits_contains(p: PresetView, h: Seq<char>, position: MatchPosition)
    requires
        preset_fits(p, h, position),
    ensures
        preset_fits(p, h, MatchPosition::Contains),
{
    lemma_find_sub(h, p.hex, 0);
    match position {
        MatchPosition::Start => {
            assert(h.subrange(0, p.hex.len() as int) =~= h.take(p.hex.len() as int));
            assert(occurs_at(h, p.hex, 0));
        },
        MatchPosition::End => {
            let o = h.len() - p.hex.len();
            assert(h.subrange(o, o + p.hex.len()) =~= h.skip(o));
            assert(occurs_at(h, p.hex, o));
        },
        MatchPosition::Contains => {},
    }
}

/// What `detect_vanity` reports, in one statement. Nothing exactly when the
/// hash has no leading run of four or more equal characters and no preset
/// of four or more digits occurs in it. With such a run: the run's first
/// bytes, as many as the run has characters, at the start. Otherwise a preset of four or more
/// digits with the position where it sits, the first of start, end and
/// anywhere at which some such preset sits, and no preset sitting there is
/// longer.
pub proof fn lemma_detect_vanity_law(h: Seq<char>)
    ensures
        leading_count(h) >= 4 ==> spec_detect_vanity(h) == Some(
            (h.take((leading_count(h) / utf8_width(h[0])) as int), MatchPosition::Start),
        ),
        spec_detect_vanity(h) is None <==> (leading_count(h) < 4 && forall|i: int|
            0 <= i < spec_presets().len() && (#[trigger] spec_presets()[i]).hex.len() >= 4
                ==> find_sub(h, spec_presets()[i].hex) is None),
        leading_count(h) < 4 ==> (spec_detect_vanity(h) matches Some((word, pos)) ==> {
            &&& exists|i: int| 0 <= i < spec_presets().len() && (#[trigger] spec_presets()[i]).hex == word
                && preset_fits(spec_presets()[i], h, pos)
            &&& forall|j: int| 0 <= j < spec_presets().len() && preset_fits(#[trigger] spec_presets()[j], h, pos)
                ==> spec_presets()[j].hex.len() <= word.len()
            &&& pos != MatchPosition::Start ==> forall|j: int| 0 <= j < spec_presets().len()
                ==> !preset_fits(#[trigger] spec_presets()[j], h, MatchPosition::Start)
            &&& pos == MatchPosition::Contains ==> forall|j: int| 0 <= j < spec_presets().len()
                ==> !preset_fits(#[trigger] spec_presets()[j], h, MatchPosition::End)
        }),
{
    let ps = spec_presets();
    lemma_pick_longest(ps, h, MatchPosition::Start);
    lemma_pick_longest(ps, h, MatchPosition::End);
    lemma_pick_longest(ps, h, MatchPosition::Contains);
    if leading_count(h) < 4 {
        if spec_detect_vanity(h) is None {
            assert forall|i: int| 0 <= i < ps.len() && (#[trigger] ps[i]).hex.len() >= 4
                implies find_sub(h, ps[i].hex) is None by {
                assert(!preset_fits(ps[i], h, MatchPosition::Contains));
            }
        } else {
            let pos = spec_detect_vanity(h).unwrap().1;
            let i = pick_longest(ps, h, pos).unwrap();
            lemma_fits_contains(ps[i], h, pos);
            assert(find_sub(h, ps[i].hex) is Some);
        }
    }
}

/// Detect vanity pattern in a hash. Returns (matched_portion, position).
/// Checks: leading repeat (4+), preset at start, preset at end, preset contains.
pub fn detect_vanity(hash: &str) -> (r: Option<(String, MatchPosition)>)
    requires
        leading_count(hash@) >= 4 ==> leading_count(hash@) % utf8_width(hash@[0]) == 0,
    ensures
        match spec_detect_vanity(hash@) {
            None => r is None,
            Some((p, pos)) => r matches Some((s, q)) && s@ == p && q == pos,
        },
{
    let h = str_chars(hash);
    let first = if h.len() > 0 { h[0] } else { ' ' };
    let mut lead: usize = 0;
    while lead < h.len() && h[lead] == first
        invariant
            lead <= h.len(),
            first == (if h@.len() > 0 { h@[0] } else { ' ' }),
            leading_count(h@) == leading_run(h@, first, lead as nat),
        decreases h.len() - lead,
    {
        lead += 1;
    }
    if lead >= 4 {
        let code = first as u32;
        let width: usize = if code < 0x80 {
            1
        } else if code < 0x800 {
            2
        } else if code < 0x10000 {
            3
        } else {
            4
        };
        let t = chars_range(&h, 0, lead / width);
        proof { assert(t@ =~= h@.take((lead / width) as int)); }
        return Some((string_from_chars(&t), MatchPosition::Start));
    }
    let ps = presets();
    proof {
        lemma_pick_longest(ps@.map_values(|p: Preset| p@), h@, MatchPosition::Start);
        lemma_pick_longest(ps@.map_values(|p: Preset| p@), h@, MatchPosition::End);
        lemma_pick_longest(ps@.map_values(|p: Preset| p@), h@, MatchPosition::Contains);
    }
    match pick_longest_exec(&ps, &h, MatchPosition::Start) {
        Some(i) => {
            proof { assert(ps@.map_values(|p: Preset| p@)[i as int] == ps@[i as int]@); }
            Some((ps[i].hex.to_owned(), MatchPosition::Start))
        },
        None => match pick_longest_exec(&ps, &h, MatchPosition::End) {
            Some(i) => {
                proof { assert(ps@.map_values(|p: Preset| p@)[i as int] == ps@[i as int]@); }
                Some((ps[i].hex.to_owned(), MatchPosition::End))
            },
            None => match pick_longest_exec(&ps, &h, MatchPosition::Contains) {
                Some(i) => {
                    proof { assert(ps@.map_values(|p: Preset| p@)[i as int] == ps@[i as int]@); }
                    Some((ps[i].hex.to_owned(), MatchPosition::Contains))
                },
                None => None,
            },
        },
    }
}

/// The text content of a detected vanity pattern.
pub open spec fn vanity_view(v: Option<(String, MatchPosition)>) -> Option<(Seq<char>, MatchPosition)> {
    match v {
        None => None,
        Some((s, p)) => Some((s@, p)),
    }
}

/// A short (7-byte) hash with the vanity pattern highlighted; a hash whose
/// pattern lies past the short form is shown by its last seven bytes or by
/// the stretch around the pattern, after two dots. All offsets are byte
/// offsets into the hash.
pub open spec fn spec_format_log_hash(h: Seq<char>, vanity: Option<(Seq<char>, MatchPosition)>, color: bool) -> Seq<char> {
    let hb = encode_utf8(h);
    let hlen = hb.len() as int;
    let short = decode_utf8(hb.take(7));
    match vanity {
        None => short,
        Some((pat, position)) => {
            let pb = encode_utf8(pat);
            let plen = pb.len() as int;
            match position {
                MatchPosition::Start => {
                    let end = min_int(plen, 7);
                    spec_bold_green(decode_utf8(hb.subrange(0, end)), color) + decode_utf8(hb.subrange(end, 7))
                },
                MatchPosition::End => match find_sub(hb.skip(hlen - 7), pb) {
                    None => short,
                    Some(ps) => {
                        let p0 = hlen - 7 + ps;
                        seq!['.', '.'] + decode_utf8(hb.subrange(hlen - 7, p0)) + spec_bold_green(
                            decode_utf8(hb.subrange(p0, p0 + plen)),
                            color,
                        ) + decode_utf8(hb.subrange(p0 + plen, hlen))
                    },
                },
                MatchPosition::Contains => match find_sub(hb, pb) {
                    None => short,
                    Some(pos) => {
                        let start = max_int(pos - 2, 0);
                        let end = min_int(pos + plen + 2, hlen);
                        seq!['.', '.'] + decode_utf8(hb.subrange(start, pos as int)) + spec_bold_green(
                            decode_utf8(hb.subrange(pos as int, pos + plen)),
                            color,
                        ) + decode_utf8(hb.subrange(pos + plen, end))
                    },
                },
            }
        },
    }
}

/// The inputs `format_log_hash` is defined on: a hash of at least seven
/// bytes, and every cut it makes on a character boundary of the hash.
pub open spec fn format_log_hash_defined(h: Seq<char>, vanity: Option<(Seq<char>, MatchPosition)>) -> bool {
    let hb = encode_utf8(h);
    let hlen = hb.len() as int;
    &&& hlen >= 7
    &&& is_char_boundary(hb, 7)
    &&& match vanity {
        None => true,
        Some((pat, position)) => {
            let pb = encode_utf8(pat);
            let plen = pb.len() as int;
            match position {
                MatchPosition::Start => is_char_boundary(hb, min_int(plen, 7)),
                MatchPosition::End => is_char_boundary(hb, hlen - 7) && (find_sub(hb.skip(hlen - 7), pb) matches Some(ps)
                    ==> is_char_boundary(hb, hlen - 7 + ps) && is_char_boundary(hb, hlen - 7 + ps + plen)),
                MatchPosition::Contains => find_sub(hb, pb) matches Some(pos) ==> {
                    &&& is_char_boundary(hb, max_int(pos - 2, 0))
                    &&& is_char_boundary(hb, pos as int)
                    &&& is_char_boundary(hb, pos + plen)
                    &&& is_char_boundary(hb, min_int(pos + plen + 2, hlen))
                },
            }
        },
    }
}

/// Whether `format_log_hash` is defined on these inputs (see
/// `format_log_hash_defined`).
pub fn format_log_hash_is_defined(hash: &str, vanity: &Option<(String, MatchPosition)>) -> (b: bool)
    ensures
        b == format_log_hash_defined(hash@, vanity_view(*vanity)),
{
    let hb = hash.as_bytes();
    let hlen = hb.len();
    if hlen < 7 || !hash.is_char_boundary(7) {
        return false;
    }
    match vanity {
        None => true,
        Some((pattern, position)) => {
            let pb = pattern.as_str().as_bytes();
            let plen = pb.len();
            match position {
                MatchPosition::Start => hash.is_char_boundary(if plen < 7 { plen } else { 7 }),
                MatchPosition::End => {
                    if !hash.is_char_boundary(hlen - 7) {
                        return false;
                    }
                    proof {
                        vstd::utf8::encode_utf8_valid_utf8(hash@);
                        vstd::utf8::is_char_boundary_start_end_of_seq(hb@);
                    }
                    let tail = str_piece(hash, hlen - 7, hlen);
                    proof { assert(encode_utf8(tail@) =~= encode_utf8(hash@).skip(hlen - 7)); }
                    match find_bytes(tail.as_bytes(), pb) {
                        None => true,
                        Some(ps) => {
                            proof { lemma_find_sub(encode_utf8(tail@), pb@, 0); }
                            hash.is_char_boundary(hlen - 7 + ps) && hash.is_char_boundary(hlen - 7 + ps + plen)
                        },
                    }
                },
                MatchPosition::Contains => match find_bytes(hb, pb) {
                    None => true,
                    Some(pos) => {
                        proof { lemma_find_sub(hb@, pb@, 0); }
                        let start = if pos >= 2 { pos - 2 } else { 0 };
                        let end = if hlen - (pos + plen) > 2 { pos + plen + 2 } else { hlen };
                        hash.is_char_boundary(start) && hash.is_char_boundary(pos)
                            && hash.is_char_boundary(pos + plen) && hash.is_char_boundary(end)
                    },
                },
            }
        },
    }
}

/// Format a short hash (7 bytes) with the vanity pattern highlighted.
pub fn format_log_hash(hash: &str, vanity: &Option<(String, MatchPosition)>, color: bool) -> (s: String)
    requires
        format_log_hash_defined(hash@, vanity_view(*vanity)),
    ensures
        s@ == spec_format_log_hash(hash@, vanity_view(*vanity), color),
{
    let hb = hash.as_bytes();
    let hlen = hb.len();
    proof {
        vstd::utf8::encode_utf8_valid_utf8(hash@);
        vstd::utf8::is_char_boundary_start_end_of_seq(hb@);
    }
    let short = str_piece(hash, 0, 7);
    proof { assert(hb@.subrange(0, 7) =~= hb@.take(7)); }
    let mut out: Vec<char> = Vec::new();
    match vanity {
        None => {
            push_chars(&mut out, &str_chars(short));
        },
        Some((pattern, position)) => {
            let pb = pattern.as_str().as_bytes();
            let plen = pb.len();
            match position {
                MatchPosition::Start => {
                    let end = if plen < 7 { plen } else { 7 };
                    let a = str_piece(hash, 0, end);
                    push_bold_green(&mut out, &str_chars(a), color);
                    let b = str_piece(hash, end, 7);
                    push_chars(&mut out, &str_chars(b));
                },
                MatchPosition::End => {
                    let tail = str_piece(hash, hlen - 7, hlen);
                    proof { assert(encode_utf8(tail@) =~= hb@.skip(hlen - 7)); }
                    match find_bytes(tail.as_bytes(), pb) {
                        None => {
                            push_chars(&mut out, &str_chars(short));
                        },
                        Some(ps) => {
                            proof { lemma_find_sub(encode_utf8(tail@), pb@, 0); }
                            let p0 = hlen - 7 + ps;
                            push_chars(&mut out, &['.', '.']);
                            let a = str_piece(hash, hlen - 7, p0);
                            push_chars(&mut out, &str_chars(a));
                            let b = str_piece(hash, p0, p0 + plen);
                            push_bold_green(&mut out, &str_chars(b), color);
                            let c = str_piece(hash, p0 + plen, hlen);
                            push_chars(&mut out, &str_chars(c));
                        },
                    }
                },
                MatchPosition::Contains => {
                    match find_bytes(hb, pb) {
                        None => {
                            push_chars(&mut out, &str_chars(short));
                        },
                        Some(pos) => {
                            proof { lemma_find_sub(hb@, pb@, 0); }
                            let start = if pos >= 2 { pos - 2 } else { 0 };
                            let end = if hlen - (pos + plen) > 2 { pos + plen + 2 } else { hlen };
                            push_chars(&mut out, &['.', '.']);
                            let a = str_piece(hash, start, pos);
                            push_chars(&mut out, &str_chars(a));
                            let b = str_piece(hash, pos, pos + plen);
                            push_bold_green(&mut out, &str_chars(b), color);
                            let c = str_piece(hash, pos + plen, end);
                            push_chars(&mut out, &str_chars(c));
                        },
                    }
                },
            }
        },
    }
    proof { assert(out@ =~= spec_format_log_hash(hash@, vanity_view(*vanity), color)); }
    string_from_chars(&out)
}

/// Application error with exit code mapping.
#[derive(Debug)]
pub enum AppError {
    Args(String),
    Timeout(String),
    Git(String),
}

impl AppError {
    /// The process exit code: 1 for bad arguments, 2 for a timeout, 3 for a
    /// git error.
    pub fn exit_code(&self) -> (code: i32)
        ensures
            code == match self {
                AppError::Args(_) => 1i32,
                AppError::Timeout(_) => 2i32,
                AppError::Git(_) => 3i32,
            },
    {
        match self {
            AppError::Args(_) => 1,
            AppError::Timeout(_) => 2,
            AppError::Git(_) => 3,
        }
    }

    /// The message of the error.
    pub fn message(&self) -> (m: &str)
        ensures
            m@ == match self {
                AppError::Args(s) => s@,
                AppError::Timeout(s) => s@,
                AppError::Git(s) => s@,
            },
    {
        match self {
            AppError::Args(m) => m.as_str(),
            AppError::Timeout(m) => m.as_str(),
            AppError::Git(m) => m.as_str(),
        }
    }
}

} // verus!
