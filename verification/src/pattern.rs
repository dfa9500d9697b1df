//! Hash patterns: parsing a pattern text, and matching a raw SHA-1 hash.

use vstd::prelude::*;
use regex::Regex;
use crate::text::{
    ascii_lower, ascii_lower_char, chars_equal, chars_range, chars_start_with, hex_char,
    hex_char_of, hex_digit_check, hex_encode, hex_lower, hex_value, hex_value_of, is_hex_digit, lower_char,
    parse_usize, spec_parse_usize, starts_with, str_chars, string_from_chars, decimal_chars,
    decimal_chars_of, push_chars, first_index_of_char, lemma_first_index_of_char, first_char_index,
    lower_chars,
};

verus! {

#[verifier::external_type_specification]
#[verifier::external_body]
pub struct ExRegex(Regex);

/// Where in the hash to match the pattern.
#[derive(Debug, Clone, Copy, Default, PartialEq, Eq, Structural)]
pub enum MatchPosition {
    #[default]
    Start,
    Contains,
    End,
}

/// The name of a match position.
pub open spec fn position_name(p: MatchPosition) -> Seq<char> {
    match p {
        MatchPosition::Start => seq!['s', 't', 'a', 'r', 't'],
        MatchPosition::Contains => seq!['c', 'o', 'n', 't', 'a', 'i', 'n', 's'],
        MatchPosition::End => seq!['e', 'n', 'd'],
    }
}

/// The match position that a text names: `start`, `contains` (or
/// `include`), or `end`.
pub open spec fn spec_parse_position(s: Seq<char>) -> Option<MatchPosition> {
    if s == seq!['s', 't', 'a', 'r', 't'] {
        Some(MatchPosition::Start)
    } else if s == seq!['c', 'o', 'n', 't', 'a', 'i', 'n', 's'] || s == seq!['i', 'n', 'c', 'l', 'u', 'd', 'e'] {
        Some(MatchPosition::Contains)
    } else if s == seq!['e', 'n', 'd'] {
        Some(MatchPosition::End)
    } else {
        None
    }
}

/// The error text for a text that names no match position.
pub open spec fn position_error(s: Seq<char>) -> Seq<char> {
    "Invalid match position '"@ + s + "': must be start, contains, or end"@
}

impl MatchPosition {
    /// Parse a match position name.
    pub fn parse(s: &str) -> (res: Result<Self, String>)
        ensures
            match spec_parse_position(s@) {
                Some(p) => res == Ok::<MatchPosition, String>(p),
                None => res matches Err(e) && e@ == position_error(s@),
            },
    {
        let c = str_chars(s);
        if chars_equal(&c, &['s', 't', 'a', 'r', 't']) {
            Ok(MatchPosition::Start)
        } else if chars_equal(&c, &['c', 'o', 'n', 't', 'a', 'i', 'n', 's'])
            || chars_equal(&c, &['i', 'n', 'c', 'l', 'u', 'd', 'e']) {
            Ok(MatchPosition::Contains)
        } else if chars_equal(&c, &['e', 'n', 'd']) {
            Ok(MatchPosition::End)
        } else {
            let mut e = "Invalid match position '".to_owned();
            e.append(s);
            e.append("': must be start, contains, or end");
            Err(e)
        }
    }

    /// The name of this position, as it is displayed.
    pub fn display(&self) -> (s: String)
        ensures
            s@ == position_name(*self),
    {
        match self {
            MatchPosition::Start => {
                let s = "start".to_owned();
                proof { reveal_strlit("start"); }
                s
            },
            MatchPosition::Contains => {
                let s = "contains".to_owned();
                proof { reveal_strlit("contains"); }
                s
            },
            MatchPosition::End => {
                let s = "end".to_owned();
                proof { reveal_strlit("end"); }
                s
            },
        }
    }
}

/// Parsing the displayed name of a position gives the position back.
pub proof fn lemma_position_name_roundtrip(p: MatchPosition)
    ensures
        spec_parse_position(position_name(p)) == Some(p),
{
    assert(seq!['s', 't', 'a', 'r', 't'] != seq!['c', 'o', 'n', 't', 'a', 'i', 'n', 's']);
    assert(seq!['e', 'n', 'd'] != seq!['s', 't', 'a', 'r', 't']);
    assert(seq!['e', 'n', 'd'] != seq!['c', 'o', 'n', 't', 'a', 'i', 'n', 's']);
    assert(seq!['e', 'n', 'd'] != seq!['i', 'n', 'c', 'l', 'u', 'd', 'e']);
    assert(seq!['c', 'o', 'n', 't', 'a', 'i', 'n', 's'] != seq!['s', 't', 'a', 'r', 't']);
}

/// Whether the regular expression compiled from `source` matches somewhere in
/// `haystack`, as `regex::Regex::is_match` decides.
pub uninterp spec fn regex_finds(source: Seq<char>, haystack: Seq<char>) -> bool;

/// A compiled regular expression together with the text it was compiled from.
/// Its fields are private: the only way to make one is `compile_regex`.
#[derive(Debug)]
pub struct HexRegex {
    source: String,
    compiled: Regex,
}

impl View for HexRegex {
    type V = Seq<char>;

    closed spec fn view(&self) -> Seq<char> {
        self.source@
    }
}

/// `regex::Regex::new`: compiles `source`. A success holds the expression
/// compiled from that source text. Whether it succeeds is left unsaid: the
/// crate refuses invalid syntax, and also expressions over a size limit that
/// is counted in machine words, so the answer near the limit depends on the
/// machine. On failure the text of the regex crate's error is handed back.
#[verifier::external_body]
fn compile_regex(source: &str) -> (r: Result<HexRegex, String>)
    ensures
        r matches Ok(h) ==> h@ == source@,
{
    match Regex::new(source) {
        Ok(compiled) => Ok(HexRegex { source: source.to_string(), compiled }),
        Err(e) => Err(e.to_string()),
    }
}

/// `regex::Regex::is_match`: whether the expression matches anywhere in
/// `haystack`. The claim rests on `r.compiled` having been compiled from
/// `r.source`, which `compile_regex`, the only constructor, ensures.
#[verifier::external_body]
fn regex_is_match(r: &HexRegex, haystack: &str) -> (b: bool)
    ensures
        b == regex_finds(r@, haystack@),
{
    r.compiled.is_match(haystack)
}

/// `Clone::clone` for `regex::Regex`: the same compiled expression.
#[verifier::external_body]
fn clone_regex(r: &Regex) -> Regex {
    r.clone()
}

impl Clone for HexRegex {
    /// The same expression, from the same source text.
    fn clone(&self) -> (c: Self)
        ensures
            c@ == self@,
    {
        HexRegex { source: self.source.clone(), compiled: clone_regex(&self.compiled) }
    }
}

impl HexRegex {
    /// The source text of the expression.
    pub fn as_str(&self) -> (s: &str)
        ensures
            s@ == self@,
    {
        self.source.as_str()
    }
}

/// A hash pattern.
#[derive(Debug, Clone)]
pub enum Pattern {
    /// Match hex nibbles: `cafe`
    Prefix(Vec<u8>),
    /// Match N identical consecutive chars: `repeat:3` matches aaa, 111, fff
    Repeat(usize),
    /// Structured: `1997xxx` is prefix "1997" + 3 identical chars
    Structured { prefix_nibbles: Vec<u8>, repeat_count: usize },
    /// Pair: `xx` is any 2 identical adjacent hex chars
    Pair,
    /// Regex: `/pattern/`
    RegexPattern(HexRegex),
}

/// The mathematical content of a pattern.
pub enum PatternView {
    Prefix(Seq<u8>),
    Repeat(usize),
    Structured { prefix_nibbles: Seq<u8>, repeat_count: usize },
    Pair,
    Regex(Seq<char>),
}

impl View for Pattern {
    type V = PatternView;

    open spec fn view(&self) -> PatternView {
        match self {
            Pattern::Prefix(n) => PatternView::Prefix(n@),
            Pattern::Repeat(n) => PatternView::Repeat(*n),
            Pattern::Structured { prefix_nibbles, repeat_count } => PatternView::Structured {
                prefix_nibbles: prefix_nibbles@,
                repeat_count: *repeat_count,
            },
            Pattern::Pair => PatternView::Pair,
            Pattern::RegexPattern(r) => PatternView::Regex(r@),
        }
    }
}

/// Why a pattern text was refused.
pub enum PatternError {
    /// `repeat:` followed by no valid count.
    InvalidRepeatCount,
    /// `repeat:` with a count below 2.
    RepeatCountTooSmall,
    /// Anything else that is not all hex digits.
    NotHex,
}

/// The nibble values of hex digit characters.
pub open spec fn nibbles_of(s: Seq<char>) -> Seq<u8> {
    s.map_values(|c: char| hex_value(c))
}

/// Every character is a hex digit.
pub open spec fn all_hex(s: Seq<char>) -> bool {
    forall|i: int| 0 <= i < s.len() ==> is_hex_digit(#[trigger] s[i])
}

/// `/regex/`: at least one character between two slashes.
pub open spec fn is_regex_form(s: Seq<char>) -> bool {
    s.len() >= 3 && s[0] == '/' && s.last() == '/'
}

/// The key of a repeat pattern.
pub open spec fn repeat_key() -> Seq<char> {
    seq!['r', 'e', 'p', 'e', 'a', 't', ':']
}

/// A structured pattern: hex digits, then one or more `x` to the end.
pub open spec fn is_structured_form(s: Seq<char>) -> bool {
    match first_index_of_char(s, 'x', 0) {
        None => false,
        Some(i) => i > 0 && all_hex(s.take(i as int)) && (forall|j: int|
            i <= j < s.len() ==> #[trigger] s[j] == 'x'),
    }
}

/// What `Pattern::parse` gives for a text: the first of the regex, repeat,
/// pair, structured (unless `no_repeat`) and prefix readings that applies.
/// For a regex text this is the pattern given when the expression compiles.
pub open spec fn spec_parse_pattern(s: Seq<char>, no_repeat: bool) -> Result<PatternView, PatternError> {
    if is_regex_form(s) {
        Ok(PatternView::Regex(s.subrange(1, s.len() - 1)))
    } else if starts_with(s, repeat_key()) {
        match spec_parse_usize(s.skip(7)) {
            None => Err(PatternError::InvalidRepeatCount),
            Some(n) => if n < 2 {
                Err(PatternError::RepeatCountTooSmall)
            } else {
                Ok(PatternView::Repeat(n))
            },
        }
    } else if s == seq!['x', 'x'] {
        Ok(PatternView::Pair)
    } else if !no_repeat && is_structured_form(s) {
        let i = first_index_of_char(s, 'x', 0).unwrap();
        Ok(PatternView::Structured {
            prefix_nibbles: nibbles_of(ascii_lower(s.take(i as int))),
            repeat_count: (s.len() - i) as usize,
        })
    } else if all_hex(ascii_lower(s)) {
        Ok(PatternView::Prefix(nibbles_of(ascii_lower(s))))
    } else {
        Err(PatternError::NotHex)
    }
}

/// The start of the error text for a regex that does not compile.
pub open spec fn regex_error_prefix() -> Seq<char> {
    "Invalid regex: "@
}

/// The error text for a refused pattern.
pub open spec fn pattern_error_text(e: PatternError, s: Seq<char>) -> Seq<char> {
    match e {
        PatternError::InvalidRepeatCount => "Invalid repeat count: "@ + s.skip(7),
        PatternError::RepeatCountTooSmall => "Repeat count must be >= 2"@,
        PatternError::NotHex => "Invalid pattern '"@ + s + "': prefix must be hex [0-9a-f]"@,
    }
}

/// Lowering a character keeps it a hex digit exactly when it was one.
proof fn lemma_lower_hex_char(c: char)
    ensures
        is_hex_digit(ascii_lower_char(c)) <==> is_hex_digit(c),
{
    if 'A' <= c && c <= 'Z' {
        let l = ascii_lower_char(c);
        assert((c as u32) >= 65 && (c as u32) <= 90);
        assert(l as u32 == (c as u32) + 32);
        assert(('a' <= l && l <= 'f') <==> ((l as u32) >= 97 && (l as u32) <= 102));
        assert(('A' <= c && c <= 'F') <==> ((c as u32) >= 65 && (c as u32) <= 70));
        assert(!('0' <= l && l <= '9'));
        assert(!('A' <= l && l <= 'F'));
        assert(!('0' <= c && c <= '9'));
        assert(!('a' <= c && c <= 'f'));
    }
}

/// A text that is not a regex, repeat, pair or (where those are allowed)
/// structured pattern is read as a hex prefix: it parses to the values of
/// the hex digits of its ASCII lowercase exactly when every character is a
/// hex digit (`cafe` and `CAFE` alike), and is refused otherwise with the
/// error "Invalid pattern '<text>': prefix must be hex [0-9a-f]".
pub proof fn lemma_prefix_parse_law(s: Seq<char>, no_repeat: bool)
    requires
        s.len() == 0 || s[0] != '/',
        !starts_with(s, repeat_key()),
        s != seq!['x', 'x'],
        no_repeat || !is_structured_form(s),
    ensures
        all_hex(s) ==> spec_parse_pattern(s, no_repeat) == Ok::<PatternView, PatternError>(
            PatternView::Prefix(nibbles_of(ascii_lower(s))),
        ),
        all_hex(s) ==> forall|i: int| 0 <= i < s.len() ==> #[trigger] nibbles_of(ascii_lower(s))[i] == hex_value(
            ascii_lower_char(s[i]),
        ),
        !all_hex(s) ==> spec_parse_pattern(s, no_repeat) == Err::<PatternView, PatternError>(PatternError::NotHex),
        pattern_error_text(PatternError::NotHex, s) == "Invalid pattern '"@ + s + "': prefix must be hex [0-9a-f]"@,
{
    assert(!is_regex_form(s));
    assert forall|i: int| 0 <= i < s.len() implies (is_hex_digit(#[trigger] ascii_lower(s)[i]) <==> is_hex_digit(s[i])) by {
        lemma_lower_hex_char(s[i]);
    }
    if all_hex(s) {
        assert(all_hex(ascii_lower(s)));
    } else {
        let i = choose|i: int| 0 <= i < s.len() && !is_hex_digit(s[i]);
        assert(!is_hex_digit(ascii_lower(s)[i]));
        assert(!all_hex(ascii_lower(s)));
    }
}

/// Whether every character is a hex digit.
fn all_hex_exec(s: &[char]) -> (b: bool)
    ensures
        b == all_hex(s@),
{
    let mut i: usize = 0;
    while i < s.len()
        invariant
            i <= s.len(),
            forall|j: int| 0 <= j < i ==> is_hex_digit(#[trigger] s@[j]),
        decreases s.len() - i,
    {
        if !hex_digit_check(s[i]) {
            return false;
        }
        i += 1;
    }
    true
}

/// Parse lowercase hex text into nibble values (0-15).
fn hex_to_nibbles(s: &[char]) -> (r: Vec<u8>)
    requires
        forall|i: int| 0 <= i < s.len() ==> ('0' <= #[trigger] s@[i] <= '9') || ('a' <= s@[i] <= 'f'),
    ensures
        r@ == nibbles_of(s@),
        forall|i: int| 0 <= i < r.len() ==> #[trigger] r@[i] < 16,
{
    let mut r: Vec<u8> = Vec::new();
    let mut i: usize = 0;
    while i < s.len()
        invariant
            i <= s.len(),
            forall|i: int| 0 <= i < s.len() ==> ('0' <= #[trigger] s@[i] <= '9') || ('a' <= s@[i] <= 'f'),
            r@ == nibbles_of(s@.take(i as int)),
            forall|j: int| 0 <= j < r.len() ==> #[trigger] r@[j] < 16,
        decreases s.len() - i,
    {
        let c = s[i];
        assert(('0' <= s@[i as int] <= '9') || ('a' <= s@[i as int] <= 'f'));
        r.push(hex_value_of(c));
        i += 1;
        proof { assert(r@ =~= nibbles_of(s@.take(i as int))); }
    }
    proof { assert(s@.take(s@.len() as int) =~= s@); }
    r
}

/// The lowercase of a hex digit is a digit or `a` to `f`.
proof fn lemma_lower_hex(s: Seq<char>)
    requires
        all_hex(s),
    ensures
        forall|i: int| 0 <= i < ascii_lower(s).len() ==> ('0' <= #[trigger] ascii_lower(s)[i] <= '9') || ('a' <= ascii_lower(s)[i] <= 'f'),
{
    assert forall|i: int| 0 <= i < ascii_lower(s).len() implies ('0' <= #[trigger] ascii_lower(s)[i] <= '9') || ('a' <= ascii_lower(s)[i] <= 'f') by {
        assert(is_hex_digit(s[i]));
        let c = s[i];
        assert(ascii_lower(s)[i] == ascii_lower_char(c));
        if 'A' <= c && c <= 'F' {
            assert((c as u32) >= 65 && (c as u32) <= 70);
        }
    }
}

/// Nibble `i` (0 to 39) of a 20-byte hash: the high half of byte `i / 2`
/// for even `i`, the low half for odd `i`.
pub open spec fn hash_nibble(hash: Seq<u8>, i: int) -> u8 {
    if i % 2 == 0 {
        (hash[i / 2] >> 4u8) & 0x0Fu8
    } else {
        hash[i / 2] & 0x0Fu8
    }
}

/// The hash nibbles from `offset` on are `nibbles`.
pub open spec fn nibbles_at(hash: Seq<u8>, nibbles: Seq<u8>, offset: int) -> bool {
    0 <= offset && offset + nibbles.len() <= 40 && forall|i: int|
        0 <= i < nibbles.len() ==> #[trigger] hash_nibble(hash, offset + i) == nibbles[i]
}

/// The `count` hash nibbles from `start` on are all equal.
pub open spec fn same_run(hash: Seq<u8>, start: int, count: int) -> bool {
    forall|i: int| 1 <= i < count ==> #[trigger] hash_nibble(hash, start + i) == hash_nibble(hash, start)
}

/// A run of `len` equal nibbles starts at some position.
pub open spec fn has_run(hash: Seq<u8>, len: int) -> bool {
    exists|j: int| 0 <= j && j + len <= 40 && #[trigger] same_run(hash, j, len)
}

/// The shortest run a repeat pattern looks for: a pair at least.
pub open spec fn run_goal(n: usize) -> int {
    if n < 2 {
        2
    } else {
        n as int
    }
}

/// Whether the structured pattern sits at `offset`: the prefix there, then
/// `count` equal nibbles.
pub open spec fn structured_at(hash: Seq<u8>, prefix: Seq<u8>, count: int, offset: int) -> bool {
    nibbles_at(hash, prefix, offset) && same_run(hash, offset + prefix.len(), count)
}

/// Whether a 20-byte hash matches a pattern at a position.
pub open spec fn spec_matches(p: PatternView, hash: Seq<u8>, position: MatchPosition) -> bool {
    match p {
        PatternView::Prefix(n) => match position {
            MatchPosition::Start => nibbles_at(hash, n, 0),
            MatchPosition::End => nibbles_at(hash, n, 40 - n.len()),
            MatchPosition::Contains => exists|o: int| 0 <= o <= 40 - n.len() && #[trigger] nibbles_at(hash, n, o),
        },
        PatternView::Repeat(n) => has_run(hash, run_goal(n)),
        PatternView::Structured { prefix_nibbles, repeat_count } => match position {
            MatchPosition::Start => nibbles_at(hash, prefix_nibbles, 0)
                && prefix_nibbles.len() + repeat_count <= 40
                && same_run(hash, prefix_nibbles.len() as int, repeat_count as int),
            MatchPosition::End => structured_at(hash, prefix_nibbles, repeat_count as int,
                40 - (prefix_nibbles.len() + repeat_count)),
            MatchPosition::Contains => exists|o: int|
                0 <= o <= 40 - (prefix_nibbles.len() + repeat_count)
                    && #[trigger] structured_at(hash, prefix_nibbles, repeat_count as int, o),
        },
        PatternView::Pair => exists|i: int| 0 <= i < 39 && #[trigger] hash_nibble(hash, i) == hash_nibble(hash, i + 1),
        PatternView::Regex(source) => regex_finds(source, hex_lower(hash)),
    }
}

/// The inputs on which matching is defined: an end or contains match needs
/// the pattern to fit in the 40 nibbles, and the structured run after the
/// prefix must lie inside the hash.
pub open spec fn matchable(p: PatternView, position: MatchPosition) -> bool {
    match p {
        PatternView::Prefix(n) => position != MatchPosition::Start ==> n.len() <= 40,
        PatternView::Structured { prefix_nibbles, repeat_count } => {
            &&& prefix_nibbles.len() + repeat_count <= usize::MAX
            &&& position == MatchPosition::Start ==> (repeat_count >= 1 || prefix_nibbles.len() < 40)
            &&& position != MatchPosition::Start ==> (prefix_nibbles.len() + repeat_count <= 40
                && repeat_count >= 1)
        },
        _ => true,
    }
}

/// The inputs on which matching one hash is defined, as the matcher's
/// arithmetic and indexing allow: an end or contains match of a prefix needs
/// it to fit in the 40 nibbles; a structured pattern needs its length to be
/// countable, to fit in the hash for an end or contains match, and the first
/// nibble after a prefix that matched to lie inside the hash (which only a
/// pattern with no repeated characters can miss).
pub open spec fn match_defined(p: PatternView, hash: Seq<u8>, position: MatchPosition) -> bool {
    match p {
        PatternView::Prefix(n) => position != MatchPosition::Start ==> n.len() <= 40,
        PatternView::Structured { prefix_nibbles, repeat_count } => {
            let q = prefix_nibbles.len() as int;
            let k = repeat_count as int;
            match position {
                MatchPosition::Start => nibbles_at(hash, prefix_nibbles, 0) ==> (q + k <= usize::MAX && !(q == 40
                    && k == 0)),
                MatchPosition::End => q + k <= 40 && (k == 0 ==> !nibbles_at(hash, prefix_nibbles, 40 - q)),
                MatchPosition::Contains => q + k <= 40 && (k == 0 ==> !(nibbles_at(hash, prefix_nibbles, 40 - q)
                    && forall|o: int| 0 <= o < 40 - q ==> !#[trigger] nibbles_at(hash, prefix_nibbles, o))),
            }
        },
        _ => true,
    }
}

/// A pattern that can be matched against every hash can be matched against
/// any one.
pub proof fn lemma_matchable_defined(p: PatternView, hash: Seq<u8>, position: MatchPosition)
    requires
        matchable(p, position),
    ensures
        match_defined(p, hash, position),
{
}

/// The length of the run of equal nibbles that ends at `i`.
pub open spec fn run_ending(hash: Seq<u8>, i: int) -> int
    decreases i,
{
    if i <= 0 {
        1
    } else if hash_nibble(hash, i) == hash_nibble(hash, i - 1) {
        run_ending(hash, i - 1) + 1
    } else {
        1
    }
}

/// A run ending at `i` is a window of equal nibbles.
proof fn lemma_run_ending_window(hash: Seq<u8>, i: int, len: int)
    requires
        0 <= i,
        1 <= len <= run_ending(hash, i),
    ensures
        i - len + 1 >= 0,
        same_run(hash, i - len + 1, len),
        forall|k: int| i - len + 1 <= k <= i ==> #[trigger] hash_nibble(hash, k) == hash_nibble(hash, i),
    decreases i,
{
    if len > 1 {
        assert(i > 0 && hash_nibble(hash, i) == hash_nibble(hash, i - 1));
        lemma_run_ending_window(hash, i - 1, len - 1);
    }
    assert forall|k: int| 1 <= k < len implies #[trigger] hash_nibble(hash, i - len + 1 + k) == hash_nibble(hash, i - len + 1) by {
    }
}

/// A run is at least one nibble long.
proof fn lemma_run_ending_pos(hash: Seq<u8>, i: int)
    ensures
        run_ending(hash, i) >= 1,
    decreases i,
{
    if i > 0 {
        lemma_run_ending_pos(hash, i - 1);
    }
}

/// A window of equal nibbles is part of the run that ends where it ends.
proof fn lemma_window_run_ending(hash: Seq<u8>, j: int, len: int)
    requires
        0 <= j,
        1 <= len,
        same_run(hash, j, len),
    ensures
        run_ending(hash, j + len - 1) >= len,
    decreases len,
{
    if len > 1 {
        assert(same_run(hash, j, len - 1)) by {
            assert forall|i: int| 1 <= i < len - 1 implies #[trigger] hash_nibble(hash, j + i) == hash_nibble(hash, j) by {
                assert(hash_nibble(hash, j + i) == hash_nibble(hash, j));
            }
        }
        lemma_window_run_ending(hash, j, len - 1);
        let a = hash_nibble(hash, j + (len - 1));
        let b = hash_nibble(hash, j + (len - 2));
        if len - 2 >= 1 {
            assert(b == hash_nibble(hash, j));
        } else {
            assert(j + (len - 2) == j);
        }
        assert(a == hash_nibble(hash, j));
        let e = j + len - 1;
        assert(e - 1 == j + (len - 2));
        assert(e == j + (len - 1));
        assert(run_ending(hash, j + (len - 1) - 1) >= len - 1);
        assert(hash_nibble(hash, e) == hash_nibble(hash, e - 1));
        assert(run_ending(hash, e) == run_ending(hash, e - 1) + 1);
    } else {
        lemma_run_ending_pos(hash, j);
    }
}

/// Nibble `i` of a 20-byte hash.
fn nibble_at(hash: &[u8; 20], i: usize) -> (n: u8)
    requires
        i < 40,
    ensures
        n == hash_nibble(hash@, i as int),
        n < 16,
{
    let byte = hash[i / 2];
    let n = if i % 2 == 0 { (byte >> 4u8) & 0x0Fu8 } else { byte & 0x0Fu8 };
    assert((byte >> 4u8) & 0x0Fu8 < 16 && byte & 0x0Fu8 < 16) by (bit_vector);
    n
}

/// Whether `nibbles` match at position `offset` in the hash.
fn nibbles_match_at(hash: &[u8; 20], nibbles: &[u8], offset: usize) -> (b: bool)
    requires
        offset <= 40,
    ensures
        b == nibbles_at(hash@, nibbles@, offset as int),
{
    if nibbles.len() > 40 - offset {
        return false;
    }
    let mut i: usize = 0;
    while i < nibbles.len()
        invariant
            offset + nibbles.len() <= 40,
            i <= nibbles.len(),
            forall|k: int| 0 <= k < i ==> #[trigger] hash_nibble(hash@, offset + k) == nibbles@[k],
        decreases nibbles.len() - i,
    {
        if nibble_at(hash, offset + i) != nibbles[i] {
            return false;
        }
        i += 1;
    }
    true
}

/// Whether the `count` nibbles from `start` on are all equal.
fn same_run_exec(hash: &[u8; 20], start: usize, count: usize) -> (b: bool)
    requires
        start < 40,
        start + count <= 40,
    ensures
        b == same_run(hash@, start as int, count as int),
{
    let first = nibble_at(hash, start);
    let mut i: usize = 1;
    while i < count
        invariant
            start < 40,
            start + count <= 40,
            first == hash_nibble(hash@, start as int),
            1 <= i,
            i <= count || count == 0,
            forall|k: int| 1 <= k < i ==> #[trigger] hash_nibble(hash@, start + k) == first,
        decreases count - i,
    {
        if nibble_at(hash, start + i) != first {
            return false;
        }
        i += 1;
    }
    true
}

/// Sixteen to the power `k`.
pub open spec fn pow16(k: nat) -> nat
    decreases k,
{
    if k == 0 {
        1
    } else {
        16 * pow16((k - 1) as nat)
    }
}

/// The estimated number of attempts, before taking the position into account.
pub open spec fn base_estimate(p: PatternView) -> nat {
    match p {
        PatternView::Prefix(n) => pow16(n.len() as u32 as nat),
        PatternView::Repeat(n) => pow16(n as u32 as nat) / 16,
        PatternView::Structured { prefix_nibbles, repeat_count } => pow16(prefix_nibbles.len() as u32 as nat)
            * pow16(repeat_count as u32 as nat) / 16,
        PatternView::Pair => 16,
        PatternView::Regex(_) => 1_000_000,
    }
}

/// The estimated number of attempts: contains matches of prefix and
/// structured patterns are easier by the number of positions.
pub open spec fn spec_estimate(p: PatternView, position: MatchPosition) -> nat {
    match (p, position) {
        (PatternView::Prefix(n), MatchPosition::Contains) => base_estimate(p) / ((41 - n.len()) as nat),
        (PatternView::Structured { prefix_nibbles, repeat_count }, MatchPosition::Contains) =>
            base_estimate(p) / ((41 - (prefix_nibbles.len() + repeat_count)) as nat),
        _ => base_estimate(p),
    }
}

/// The inputs on which the estimate is defined: the powers of sixteen fit
/// in 64 bits, and a contains estimate divides by a positive count.
pub open spec fn estimable(p: PatternView, position: MatchPosition) -> bool {
    match p {
        PatternView::Prefix(n) => (n.len() as u32) <= 15 && (position == MatchPosition::Contains ==> n.len() <= 40),
        PatternView::Repeat(n) => (n as u32) <= 15,
        PatternView::Structured { prefix_nibbles, repeat_count } => (prefix_nibbles.len() as u32) + (repeat_count as u32) <= 15
            && (position == MatchPosition::Contains ==> prefix_nibbles.len() + repeat_count <= 40),
        _ => true,
    }
}

proof fn lemma_pow16_bounds(k: nat)
    ensures
        pow16(k) >= 1,
        k <= 15 ==> pow16(k) <= pow16(15),
        pow16(15) == 0x1000_0000_0000_0000,
    decreases k,
{
    if k > 0 {
        lemma_pow16_bounds((k - 1) as nat);
    }
    reveal_with_fuel(pow16, 16);
}

proof fn lemma_pow16_add(a: nat, b: nat)
    ensures
        pow16(a) * pow16(b) == pow16(a + b),
    decreases a,
{
    if a > 0 {
        lemma_pow16_add((a - 1) as nat, b);
        assert(pow16(a) * pow16(b) == 16 * (pow16((a - 1) as nat) * pow16(b))) by (nonlinear_arith)
            requires pow16(a) == 16 * pow16((a - 1) as nat);
        assert((a - 1) as nat + b == (a + b - 1) as nat);
        assert(pow16(a + b) == 16 * pow16((a + b - 1) as nat));
    } else {
        assert(pow16(a) == 1);
        assert(a + b == b);
    }
}

/// Sixteen to the power `k`, for `k` up to 15.
fn pow16_exec(k: u32) -> (r: u64)
    requires
        k <= 15,
    ensures
        r == pow16(k as nat),
{
    let mut r: u64 = 1;
    let mut i: u32 = 0;
    while i < k
        invariant
            i <= k <= 15,
            r == pow16(i as nat),
        decreases k - i,
    {
        proof {
            lemma_pow16_bounds(i as nat);
            lemma_pow16_bounds((i + 1) as nat);
        }
        r = r * 16;
        i += 1;
    }
    r
}

/// The lowercase hex text of nibble values.
pub open spec fn nibbles_text(nibbles: Seq<u8>) -> Seq<char> {
    nibbles.map_values(|n: u8| hex_char(n))
}

/// Convert nibbles back to a hex string for display.
fn nibbles_to_hex(nibbles: &[u8]) -> (s: Vec<char>)
    requires
        forall|i: int| 0 <= i < nibbles.len() ==> #[trigger] nibbles@[i] < 16,
    ensures
        s@ == nibbles_text(nibbles@),
{
    let mut s: Vec<char> = Vec::new();
    let mut i: usize = 0;
    while i < nibbles.len()
        invariant
            i <= nibbles.len(),
            forall|i: int| 0 <= i < nibbles.len() ==> #[trigger] nibbles@[i] < 16,
            s@ == nibbles_text(nibbles@.take(i as int)),
        decreases nibbles.len() - i,
    {
        s.push(hex_char_of(nibbles[i]));
        i += 1;
        proof { assert(s@ =~= nibbles_text(nibbles@.take(i as int))); }
    }
    proof { assert(nibbles@.take(nibbles@.len() as int) =~= nibbles@); }
    s
}

/// Every nibble of the pattern is below 16 (as parsing gives them).
pub open spec fn nibbles_valid(p: PatternView) -> bool {
    match p {
        PatternView::Prefix(n) => forall|i: int| 0 <= i < n.len() ==> #[trigger] n[i] < 16,
        PatternView::Structured { prefix_nibbles: pn, repeat_count: _ } => forall|i: int|
            0 <= i < pn.len() ==> #[trigger] pn[i] < 16,
        _ => true,
    }
}

/// How a pattern is displayed.
pub open spec fn spec_describe(p: PatternView) -> Seq<char> {
    match p {
        PatternView::Prefix(n) => seq!['p', 'r', 'e', 'f', 'i', 'x', '(', '"'] + nibbles_text(n) + seq!['"', ')'],
        PatternView::Repeat(n) => seq!['r', 'e', 'p', 'e', 'a', 't', '('] + decimal_chars(n as nat) + seq![')'],
        PatternView::Structured { prefix_nibbles, repeat_count } => seq![
            's', 't', 'r', 'u', 'c', 't', 'u', 'r', 'e', 'd', '(', '"',
        ] + nibbles_text(prefix_nibbles) + seq!['"', '+'] + decimal_chars(repeat_count as nat) + seq!['x', ')'],
        PatternView::Pair => seq!['p', 'a', 'i', 'r'],
        PatternView::Regex(source) => seq!['r', 'e', 'g', 'e', 'x', '(', '"'] + source + seq!['"', ')'],
    }
}

/// Parsing gives patterns whose nibbles are below 16.
pub proof fn lemma_parse_nibbles_valid(s: Seq<char>, no_repeat: bool)
    ensures
        spec_parse_pattern(s, no_repeat) matches Ok(p) ==> nibbles_valid(p),
{
    if let Ok(p) = spec_parse_pattern(s, no_repeat) {
        match p {
            PatternView::Prefix(n) => {
                lemma_hex_values_small(ascii_lower(s));
            },
            PatternView::Structured { prefix_nibbles, repeat_count } => {
                let i = first_index_of_char(s, 'x', 0).unwrap();
                lemma_lower_hex(s.take(i as int));
                lemma_hex_values_small(ascii_lower(s.take(i as int)));
            },
            _ => {},
        }
    }
}

/// Hex digits have values below 16.
proof fn lemma_hex_values_small(s: Seq<char>)
    requires
        all_hex(s),
    ensures
        forall|i: int| 0 <= i < s.len() ==> (('0' <= s[i] <= '9') || ('a' <= s[i] <= 'f')) ==> #[trigger] nibbles_of(s)[i] < 16,
{
    assert forall|i: int| 0 <= i < s.len() && (('0' <= s[i] <= '9') || ('a' <= s[i] <= 'f')) implies #[trigger] nibbles_of(s)[i] < 16 by {
        let c = s[i];
        if '0' <= c && c <= '9' {
            assert((c as u32) >= 48 && (c as u32) <= 57);
        } else {
            assert((c as u32) >= 97 && (c as u32) <= 102);
        }
    }
}

/// The estimates in closed form: a repeat of `n` equal characters is
/// estimated at 16^(n-1) attempts, and a structured pattern with a prefix of
/// `q` digits and `k` repeated characters at 16^(q+k-1), wherever the power
/// fits the estimate's 64 bits.
pub proof fn lemma_estimate_closed_form(p: PatternView)
    ensures
        p matches PatternView::Repeat(n) ==> (1 <= n <= 15 ==> base_estimate(p) == pow16((n - 1) as nat)),
        p matches PatternView::Structured { prefix_nibbles, repeat_count } ==> (1 <= prefix_nibbles.len()
            + repeat_count <= 15 ==> base_estimate(p) == pow16((prefix_nibbles.len() + repeat_count - 1) as nat)),
{
    match p {
        PatternView::Repeat(n) => {
            if 1 <= n <= 15 {
                assert(n as u32 as nat == n as nat);
                assert(pow16(n as nat) == 16 * pow16((n - 1) as nat));
            }
        },
        PatternView::Structured { prefix_nibbles, repeat_count } => {
            let m = prefix_nibbles.len() + repeat_count;
            if 1 <= m <= 15 {
                assert(prefix_nibbles.len() as u32 as nat == prefix_nibbles.len());
                assert(repeat_count as u32 as nat == repeat_count as nat);
                lemma_pow16_add(prefix_nibbles.len(), repeat_count as nat);
                assert(pow16(m as nat) == 16 * pow16((m - 1) as nat));
            }
        },
        _ => {},
    }
}

/// The difficulty estimate in closed form, wherever it is defined (it then
/// fits 64 bits), for lengths up to 15 (a longer length is first cut to 32
/// bits, as the estimate's code does): a prefix of `L` digits takes 16^L attempts at the start or
/// end and 16^L / (41 - L) anywhere; a repeat of `n` takes 16^(n-1); a
/// structured pattern with `q` prefix digits and `k` repeated characters
/// takes 16^(q+k-1), divided by 41 - q - k anywhere; a pair 16; a regex a
/// million.
#[verifier::spinoff_prover]
pub proof fn lemma_estimate_formula(p: PatternView, position: MatchPosition)
    requires
        estimable(p, position),
    ensures
        spec_estimate(p, position) <= u64::MAX,
        p matches PatternView::Prefix(n) ==> (n.len() <= 15 ==> spec_estimate(p, position) == if position
            == MatchPosition::Contains {
            pow16(n.len()) / ((41 - n.len()) as nat)
        } else {
            pow16(n.len())
        }),
        p matches PatternView::Repeat(r) ==> (1 <= r <= 15 ==> spec_estimate(p, position) == pow16((r - 1) as nat)),
        p matches PatternView::Structured { prefix_nibbles, repeat_count } ==> (prefix_nibbles.len() + repeat_count
            >= 1 && prefix_nibbles.len() + repeat_count <= 15 ==> spec_estimate(p, position) == if position
            == MatchPosition::Contains {
            pow16((prefix_nibbles.len() + repeat_count - 1) as nat) / ((41 - (prefix_nibbles.len()
                + repeat_count)) as nat)
        } else {
            pow16((prefix_nibbles.len() + repeat_count - 1) as nat)
        }),
        p is Pair ==> spec_estimate(p, position) == 16,
        p is Regex ==> spec_estimate(p, position) == 1_000_000,
{
    lemma_estimate_closed_form(p);
    match p {
        PatternView::Prefix(n) => {
            lemma_pow16_bounds(n.len() as u32 as nat);
            if n.len() <= 15 {
                assert(n.len() as u32 as nat == n.len());
            }
            if position == MatchPosition::Contains {
                let d = (41 - n.len()) as nat;
                let b = pow16(n.len() as u32 as nat);
                assert(b / d <= b) by (nonlinear_arith)
                    requires d >= 1;
            }
        },
        PatternView::Repeat(n) => {
            lemma_pow16_bounds(n as u32 as nat);
        },
        PatternView::Structured { prefix_nibbles, repeat_count } => {
            let a = prefix_nibbles.len() as u32 as nat;
            let c = repeat_count as u32 as nat;
            lemma_pow16_add(a, c);
            lemma_pow16_bounds(a + c);
            let b = pow16(a) * pow16(c) / 16;
            assert(b <= pow16(a + c));
            if position == MatchPosition::Contains {
                let d = (41 - (prefix_nibbles.len() + repeat_count)) as nat;
                assert(b / d <= b) by (nonlinear_arith)
                    requires d >= 1;
            }
        },
        _ => {},
    }
}

/// For a prefix pattern, a contains match is estimated to need fewer
/// attempts than a start match.
pub proof fn lemma_contains_easier(n: Seq<u8>)
    requires
        estimable(PatternView::Prefix(n), MatchPosition::Contains),
    ensures
        spec_estimate(PatternView::Prefix(n), MatchPosition::Contains) < spec_estimate(
            PatternView::Prefix(n),
            MatchPosition::Start,
        ),
{
    let base = base_estimate(PatternView::Prefix(n));
    lemma_pow16_bounds(n.len() as u32 as nat);
    let d = (41 - n.len()) as nat;
    assert(d >= 2);
    assert(base / d < base) by (nonlinear_arith)
        requires base >= 1, d >= 2;
}

/// A start or end match of a prefix or structured pattern is also a
/// contains match.
pub proof fn lemma_contains_covers(p: PatternView, hash: Seq<u8>)
    requires
        p is Prefix || p is Structured,
    ensures
        spec_matches(p, hash, MatchPosition::Start) ==> spec_matches(p, hash, MatchPosition::Contains),
        spec_matches(p, hash, MatchPosition::End) ==> spec_matches(p, hash, MatchPosition::Contains),
{
    match p {
        PatternView::Prefix(n) => {
            if spec_matches(p, hash, MatchPosition::Start) {
                assert(nibbles_at(hash, n, 0));
            }
            if spec_matches(p, hash, MatchPosition::End) {
                assert(nibbles_at(hash, n, 40 - n.len()));
            }
        },
        PatternView::Structured { prefix_nibbles, repeat_count } => {
            if spec_matches(p, hash, MatchPosition::Start) {
                assert(structured_at(hash, prefix_nibbles, repeat_count as int, 0)) by {
                    assert(0 + prefix_nibbles.len() == prefix_nibbles.len());
                }
            }
            if spec_matches(p, hash, MatchPosition::End) {
                assert(structured_at(hash, prefix_nibbles, repeat_count as int,
                    40 - (prefix_nibbles.len() + repeat_count)));
            }
        },
        _ => {},
    }
}

/// Nibbles of a byte are below 16.
proof fn lemma_nibble_small(hash: Seq<u8>, i: int)
    requires
        0 <= i < 2 * hash.len(),
    ensures
        hash_nibble(hash, i) < 16,
{
    let b = hash[i / 2];
    assert((b >> 4u8) & 0x0Fu8 < 16 && b & 0x0Fu8 < 16) by (bit_vector);
}

/// Character `i` of the lowercase hex text is the hex digit of nibble `i`.
pub proof fn lemma_hex_lower_index(bytes: Seq<u8>)
    ensures
        hex_lower(bytes).len() == 2 * bytes.len(),
        forall|i: int| 0 <= i < 2 * bytes.len() ==> #[trigger] hex_lower(bytes)[i] == hex_char(hash_nibble(bytes, i)),
    decreases bytes.len(),
{
    if bytes.len() > 0 {
        let t = bytes.drop_last();
        lemma_hex_lower_index(t);
        let b = bytes.last();
        assert forall|i: int| 0 <= i < 2 * bytes.len() implies #[trigger] hex_lower(bytes)[i] == hex_char(hash_nibble(bytes, i)) by {
            if i < 2 * t.len() {
                assert(hex_lower(bytes)[i] == hex_lower(t)[i]);
                assert(bytes[i / 2] == t[i / 2]);
            } else if i == 2 * t.len() {
                assert(i / 2 == t.len());
                assert(i % 2 == 0);
                assert(bytes[i / 2] == b);
                assert((b >> 4u8) == ((b >> 4u8) & 0x0Fu8)) by (bit_vector);
            } else {
                assert(i == 2 * t.len() + 1);
                assert(i / 2 == t.len());
                assert(i % 2 == 1);
                assert(bytes[i / 2] == b);
            }
        }
    }
}

/// Distinct nibbles have distinct hex digits.
proof fn lemma_hex_char_injective(a: u8, b: u8)
    requires
        a < 16,
        b < 16,
    ensures
        hex_char(a) == hex_char(b) <==> a == b,
{
    if hex_char(a) == hex_char(b) {
        assert((hex_char(a) as u32) == (hex_char(b) as u32));
    }
}

/// The nibbles at `offset` are `n` exactly when the hex text holds the hex
/// digits of `n` there.
pub proof fn lemma_nibbles_at_text(hash: Seq<u8>, n: Seq<u8>, offset: int)
    requires
        hash.len() == 20,
        forall|i: int| 0 <= i < n.len() ==> #[trigger] n[i] < 16,
    ensures
        nibbles_at(hash, n, offset) <==> (0 <= offset && offset + n.len() <= 40 && hex_lower(hash).subrange(
            offset,
            offset + n.len(),
        ) == nibbles_text(n)),
{
    lemma_hex_lower_index(hash);
    if 0 <= offset && offset + n.len() <= 40 {
        let t = hex_lower(hash).subrange(offset, offset + n.len());
        if nibbles_at(hash, n, offset) {
            assert forall|i: int| 0 <= i < n.len() implies #[trigger] t[i] == nibbles_text(n)[i] by {
                assert(hash_nibble(hash, offset + i) == n[i]);
                assert(t[i] == hex_lower(hash)[offset + i]);
            }
            assert(t =~= nibbles_text(n));
        }
        if t == nibbles_text(n) {
            assert forall|i: int| 0 <= i < n.len() implies #[trigger] hash_nibble(hash, offset + i) == n[i] by {
                assert(t[i] == hex_lower(hash)[offset + i]);
                assert(nibbles_text(n)[i] == hex_char(n[i]));
                lemma_nibble_small(hash, offset + i);
                lemma_hex_char_injective(hash_nibble(hash, offset + i), n[i]);
            }
        }
    }
}

/// What the README promises of prefix patterns, on the hex text of the hash:
/// a start match means the hex text starts with the pattern, an end match
/// that it ends with it, a contains match that it holds it somewhere.
pub proof fn lemma_prefix_matches_text(hash: Seq<u8>, n: Seq<u8>)
    requires
        hash.len() == 20,
        n.len() <= 40,
        forall|i: int| 0 <= i < n.len() ==> #[trigger] n[i] < 16,
    ensures
        spec_matches(PatternView::Prefix(n), hash, MatchPosition::Start) <==> hex_lower(hash).take(n.len() as int) == nibbles_text(n),
        spec_matches(PatternView::Prefix(n), hash, MatchPosition::End) <==> hex_lower(hash).skip(40 - n.len()) == nibbles_text(n),
        spec_matches(PatternView::Prefix(n), hash, MatchPosition::Contains) <==> exists|o: int|
            0 <= o <= 40 - n.len() && #[trigger] hex_lower(hash).subrange(o, o + n.len()) == nibbles_text(n),
{
    lemma_hex_lower_index(hash);
    lemma_nibbles_at_text(hash, n, 0);
    lemma_nibbles_at_text(hash, n, 40 - n.len());
    assert(hex_lower(hash).take(n.len() as int) =~= hex_lower(hash).subrange(0, 0 + n.len() as int));
    assert(hex_lower(hash).skip(40 - n.len()) =~= hex_lower(hash).subrange(40 - n.len(), 40 - n.len() + n.len()));
    if spec_matches(PatternView::Prefix(n), hash, MatchPosition::Contains) {
        let o = choose|o: int| 0 <= o <= 40 - n.len() && #[trigger] nibbles_at(hash, n, o);
        lemma_nibbles_at_text(hash, n, o);
        assert(hex_lower(hash).subrange(o, o + n.len()) == nibbles_text(n));
    }
    if exists|o: int| 0 <= o <= 40 - n.len() && #[trigger] hex_lower(hash).subrange(o, o + n.len()) == nibbles_text(n) {
        let o = choose|o: int| 0 <= o <= 40 - n.len() && #[trigger] hex_lower(hash).subrange(o, o + n.len()) == nibbles_text(n);
        lemma_nibbles_at_text(hash, n, o);
        assert(nibbles_at(hash, n, o));
    }
}

/// A pair pattern matches exactly when two adjacent characters of the hex
/// text are equal.
pub proof fn lemma_pair_matches_text(hash: Seq<u8>)
    requires
        hash.len() == 20,
    ensures
        spec_matches(PatternView::Pair, hash, MatchPosition::Start) <==> exists|i: int|
            0 <= i < 39 && #[trigger] hex_lower(hash)[i] == hex_lower(hash)[i + 1],
{
    lemma_hex_lower_index(hash);
    if spec_matches(PatternView::Pair, hash, MatchPosition::Start) {
        let i = choose|i: int| 0 <= i < 39 && #[trigger] hash_nibble(hash, i) == hash_nibble(hash, i + 1);
        assert(hex_lower(hash)[i] == hex_lower(hash)[i + 1]);
    }
    if exists|i: int| 0 <= i < 39 && #[trigger] hex_lower(hash)[i] == hex_lower(hash)[i + 1] {
        let i = choose|i: int| 0 <= i < 39 && #[trigger] hex_lower(hash)[i] == hex_lower(hash)[i + 1];
        lemma_nibble_small(hash, i);
        lemma_nibble_small(hash, i + 1);
        lemma_hex_char_injective(hash_nibble(hash, i), hash_nibble(hash, i + 1));
        assert(hash_nibble(hash, i) == hash_nibble(hash, i + 1));
    }
}

/// The hex characters from `start` on, `count` of them, are all equal.
pub open spec fn same_text_run(text: Seq<char>, start: int, count: int) -> bool {
    forall|i: int| 1 <= i < count ==> #[trigger] text[start + i] == text[start]
}

/// A repeat pattern matches exactly when the hex text holds a run of as
/// many identical characters as it asks for (two at least), wherever the
/// run lies.
pub proof fn lemma_repeat_matches_text(hash: Seq<u8>, n: usize, position: MatchPosition)
    requires
        hash.len() == 20,
    ensures
        spec_matches(PatternView::Repeat(n), hash, position) <==> exists|j: int|
            0 <= j && j + run_goal(n) <= 40 && #[trigger] same_text_run(hex_lower(hash), j, run_goal(n)),
{
    lemma_hex_lower_index(hash);
    let g = run_goal(n);
    let t = hex_lower(hash);
    if spec_matches(PatternView::Repeat(n), hash, position) {
        let j = choose|j: int| 0 <= j && j + g <= 40 && #[trigger] same_run(hash, j, g);
        assert forall|i: int| 1 <= i < g implies #[trigger] t[j + i] == t[j] by {
            assert(hash_nibble(hash, j + i) == hash_nibble(hash, j));
        }
        assert(same_text_run(t, j, g));
    }
    if exists|j: int| 0 <= j && j + g <= 40 && #[trigger] same_text_run(t, j, g) {
        let j = choose|j: int| 0 <= j && j + g <= 40 && #[trigger] same_text_run(t, j, g);
        assert forall|i: int| 1 <= i < g implies #[trigger] hash_nibble(hash, j + i) == hash_nibble(hash, j) by {
            assert(t[j + i] == t[j]);
            lemma_nibble_small(hash, j + i);
            lemma_nibble_small(hash, j);
            lemma_hex_char_injective(hash_nibble(hash, j + i), hash_nibble(hash, j));
        }
        assert(same_run(hash, j, g));
    }
}

/// Equal nibbles are equal hex characters, over a run inside the hash.
proof fn lemma_run_text(hash: Seq<u8>, start: int, count: int)
    requires
        hash.len() == 20,
        0 <= start,
        start + count <= 40,
    ensures
        same_run(hash, start, count) <==> same_text_run(hex_lower(hash), start, count),
{
    lemma_hex_lower_index(hash);
    let t = hex_lower(hash);
    if same_run(hash, start, count) {
        assert forall|i: int| 1 <= i < count implies #[trigger] t[start + i] == t[start] by {
            assert(hash_nibble(hash, start + i) == hash_nibble(hash, start));
        }
    }
    if same_text_run(t, start, count) {
        assert forall|i: int| 1 <= i < count implies #[trigger] hash_nibble(hash, start + i) == hash_nibble(hash, start) by {
            assert(t[start + i] == t[start]);
            lemma_nibble_small(hash, start + i);
            lemma_nibble_small(hash, start);
            lemma_hex_char_injective(hash_nibble(hash, start + i), hash_nibble(hash, start));
        }
    }
}

/// The hex text holds the prefix text at `o`, then `count` identical
/// characters.
pub open spec fn structured_text_at(text: Seq<char>, prefix: Seq<char>, count: int, o: int) -> bool {
    &&& 0 <= o
    &&& o + prefix.len() + count <= 40
    &&& text.subrange(o, o + prefix.len()) == prefix
    &&& same_text_run(text, o + prefix.len(), count)
}

/// A structured pattern such as `1997xxx` matches exactly when the hex text
/// holds its prefix followed by as many identical characters as it has
/// `x`s: at the start, at the end, or anywhere, as the position says.
#[verifier::spinoff_prover]
pub proof fn lemma_structured_matches_text(hash: Seq<u8>, prefix: Seq<u8>, count: usize)
    requires
        hash.len() == 20,
        prefix.len() + count <= 40,
        forall|i: int| 0 <= i < prefix.len() ==> #[trigger] prefix[i] < 16,
    ensures
        spec_matches(PatternView::Structured { prefix_nibbles: prefix, repeat_count: count }, hash, MatchPosition::Start)
            <==> structured_text_at(hex_lower(hash), nibbles_text(prefix), count as int, 0),
        spec_matches(PatternView::Structured { prefix_nibbles: prefix, repeat_count: count }, hash, MatchPosition::End)
            <==> structured_text_at(hex_lower(hash), nibbles_text(prefix), count as int, 40 - (prefix.len() + count)),
        spec_matches(PatternView::Structured { prefix_nibbles: prefix, repeat_count: count }, hash, MatchPosition::Contains)
            <==> exists|o: int| #[trigger] structured_text_at(hex_lower(hash), nibbles_text(prefix), count as int, o),
{
    let t = hex_lower(hash);
    let pt = nibbles_text(prefix);
    let c = count as int;
    assert(pt.len() == prefix.len());
    assert forall|o: int| 0 <= o && o + prefix.len() + c <= 40 implies
        (#[trigger] structured_at(hash, prefix, c, o) <==> structured_text_at(t, pt, c, o)) by {
        lemma_nibbles_at_text(hash, prefix, o);
        lemma_run_text(hash, o + prefix.len(), c);
    }
    assert(structured_at(hash, prefix, c, 0) <==> structured_text_at(t, pt, c, 0));
    let e = 40 - (prefix.len() + count);
    assert(structured_at(hash, prefix, c, e) <==> structured_text_at(t, pt, c, e));
    if exists|o: int| #[trigger] structured_text_at(t, pt, c, o) {
        let o = choose|o: int| #[trigger] structured_text_at(t, pt, c, o);
        assert(0 <= o && o + prefix.len() + c <= 40);
        assert(structured_at(hash, prefix, c, o));
        assert(0 <= o <= 40 - (prefix.len() + count) && structured_at(hash, prefix, count as int, o));
        assert(exists|o2: int| 0 <= o2 <= 40 - (prefix.len() + count) && #[trigger] structured_at(hash, prefix, count as int, o2));
    }
    if spec_matches(PatternView::Structured { prefix_nibbles: prefix, repeat_count: count }, hash, MatchPosition::Contains) {
        let o = choose|o: int| 0 <= o <= 40 - (prefix.len() + count) && #[trigger] structured_at(hash, prefix, c, o);
        assert(structured_text_at(t, pt, c, o));
        assert(exists|o: int| #[trigger] structured_text_at(t, pt, c, o));
    }
}

impl Pattern {
    /// Estimated difficulty (number of expected attempts).
    pub fn estimated_attempts(&self, position: MatchPosition) -> (r: u64)
        requires
            estimable(self@, position),
        ensures
            r == spec_estimate(self@, position),
    {
        let base: u64 = match self {
            Pattern::Prefix(nibbles) => pow16_exec(nibbles.len() as u32),
            Pattern::Repeat(n) => pow16_exec(*n as u32) / 16,
            Pattern::Structured { prefix_nibbles, repeat_count } => {
                let a = pow16_exec(prefix_nibbles.len() as u32);
                let b = pow16_exec(*repeat_count as u32);
                proof {
                    lemma_pow16_add(prefix_nibbles@.len() as u32 as nat, *repeat_count as u32 as nat);
                    lemma_pow16_bounds((prefix_nibbles@.len() as u32 as nat) + (*repeat_count as u32 as nat));
                }
                a * b / 16
            },
            Pattern::Pair => 16,
            Pattern::RegexPattern(_) => 1_000_000,
        };
        match (self, position) {
            (Pattern::Prefix(n), MatchPosition::Contains) => base / (41 - n.len() as u64),
            (Pattern::Structured { prefix_nibbles, repeat_count }, MatchPosition::Contains) => {
                base / (41 - (prefix_nibbles.len() + *repeat_count) as u64)
            },
            _ => base,
        }
    }

    /// The displayed form of the pattern, e.g. `prefix("cafe")`.
    pub fn describe(&self) -> (s: String)
        requires
            nibbles_valid(self@),
        ensures
            s@ == spec_describe(self@),
    {
        let mut v: Vec<char> = Vec::new();
        match self {
            Pattern::Prefix(nibbles) => {
                push_chars(&mut v, &['p', 'r', 'e', 'f', 'i', 'x', '(', '"']);
                let h = nibbles_to_hex(nibbles);
                push_chars(&mut v, &h);
                push_chars(&mut v, &['"', ')']);
            },
            Pattern::Repeat(n) => {
                push_chars(&mut v, &['r', 'e', 'p', 'e', 'a', 't', '(']);
                let d = decimal_chars_of(*n as u64);
                push_chars(&mut v, &d);
                push_chars(&mut v, &[')']);
            },
            Pattern::Structured { prefix_nibbles, repeat_count } => {
                push_chars(&mut v, &['s', 't', 'r', 'u', 'c', 't', 'u', 'r', 'e', 'd', '(', '"']);
                proof {
                    assert(self@ == (PatternView::Structured { prefix_nibbles: prefix_nibbles@, repeat_count: *repeat_count }));
                    assert(nibbles_valid(self@));
                    assert forall|i: int| 0 <= i < prefix_nibbles@.len() implies #[trigger] prefix_nibbles@[i] < 16 by {
                        assert(prefix_nibbles@[i] == self@->Structured_prefix_nibbles[i]);
                    }
                }
                let h = nibbles_to_hex(prefix_nibbles);
                push_chars(&mut v, &h);
                push_chars(&mut v, &['"', '+']);
                let d = decimal_chars_of(*repeat_count as u64);
                push_chars(&mut v, &d);
                push_chars(&mut v, &['x', ')']);
            },
            Pattern::Pair => {
                push_chars(&mut v, &['p', 'a', 'i', 'r']);
            },
            Pattern::RegexPattern(re) => {
                push_chars(&mut v, &['r', 'e', 'g', 'e', 'x', '(', '"']);
                let src = str_chars(re.as_str());
                push_chars(&mut v, &src);
                push_chars(&mut v, &['"', ')']);
            },
        }
        proof { assert(v@ =~= spec_describe(self@)); }
        string_from_chars(&v)
    }

    /// Check if a raw SHA-1 hash (20 bytes) matches this pattern at the given position.
    #[verifier::loop_isolation(false)]
    pub fn matches_raw(&self, hash: &[u8; 20], position: MatchPosition) -> (b: bool)
        requires
            match_defined(self@, hash@, position),
        ensures
            b == spec_matches(self@, hash@, position),
    {
        match self {
            Pattern::Prefix(nibbles) => match position {
                MatchPosition::Start => nibbles_match_at(hash, nibbles, 0),
                MatchPosition::End => nibbles_match_at(hash, nibbles, 40 - nibbles.len()),
                MatchPosition::Contains => {
                    let last = 40 - nibbles.len();
                    let mut o: usize = 0;
                    while o <= last
                        invariant
                            last == 40 - nibbles@.len(),
                            o <= last + 1,
                            forall|k: int| 0 <= k < o ==> !#[trigger] nibbles_at(hash@, nibbles@, k),
                        decreases last + 1 - o,
                    {
                        if nibbles_match_at(hash, nibbles, o) {
                            proof { assert(nibbles_at(hash@, nibbles@, o as int)); }
                            return true;
                        }
                        o += 1;
                    }
                    false
                },
            },
            Pattern::Repeat(n) => {
                let ghost goal = run_goal(*n);
                let mut run: usize = 1;
                let mut prev = nibble_at(hash, 0);
                let mut i: usize = 1;
                while i < 40
                    invariant
                        1 <= i <= 40,
                        goal == run_goal(*n),
                        run as int == run_ending(hash@, i - 1),
                        run >= 1,
                        prev == hash_nibble(hash@, i - 1),
                        run <= i,
                        forall|k: int| 0 <= k < i ==> #[trigger] run_ending(hash@, k) < goal,
                    decreases 40 - i,
                {
                    let curr = nibble_at(hash, i);
                    if curr == prev {
                        run += 1;
                        proof {
                            assert(hash_nibble(hash@, i as int) == hash_nibble(hash@, i - 1));
                            assert(run_ending(hash@, i as int) == run_ending(hash@, i - 1) + 1);
                        }
                        if run >= *n {
                            proof {
                                assert(run >= 2);
                                assert(goal <= run);
                                assert(run_ending(hash@, i as int) == run as int);
                                lemma_run_ending_window(hash@, i as int, goal);
                                assert(same_run(hash@, i - goal + 1, goal));
                            }
                            return true;
                        }
                    } else {
                        run = 1;
                        prev = curr;
                        proof { assert(hash_nibble(hash@, i as int) != hash_nibble(hash@, i - 1)); }
                    }
                    proof { assert(run_ending(hash@, i as int) == run as int); }
                    i += 1;
                }
                proof {
                    if has_run(hash@, goal) {
                        let j = choose|j: int| 0 <= j && j + goal <= 40 && #[trigger] same_run(hash@, j, goal);
                        lemma_window_run_ending(hash@, j, goal);
                        assert(run_ending(hash@, j + goal - 1) < goal);
                    }
                }
                false
            },
            Pattern::Structured { prefix_nibbles, repeat_count } => match position {
                MatchPosition::Start => {
                    nibbles_match_at(hash, prefix_nibbles, 0) && {
                        let start = prefix_nibbles.len();
                        start + *repeat_count <= 40 && {
                            proof { assert(start < 40); }
                            same_run_exec(hash, start, *repeat_count)
                        }
                    }
                },
                MatchPosition::End | MatchPosition::Contains => {
                    let total_len = prefix_nibbles.len() + *repeat_count;
                    let first: usize = match position {
                        MatchPosition::End => 40 - total_len,
                        _ => 0,
                    };
                    let last = 40 - total_len;
                    let mut o: usize = first;
                    while o <= last
                        invariant
                            total_len == prefix_nibbles@.len() + *repeat_count,
                            total_len <= 40,
                            match_defined(self@, hash@, position),
                            self@ == (PatternView::Structured { prefix_nibbles: prefix_nibbles@, repeat_count: *repeat_count }),
                            position == MatchPosition::End ==> first == last,
                            last == 40 - total_len,
                            first <= o <= last + 1,
                            forall|k: int| first <= k < o ==> !#[trigger] structured_at(hash@, prefix_nibbles@, *repeat_count as int, k),
                        decreases last + 1 - o,
                    {
                        if nibbles_match_at(hash, prefix_nibbles, o) && {
                            proof {
                                if *repeat_count == 0 && o == last {
                                    assert forall|k: int| 0 <= k < 40 - prefix_nibbles@.len()
                                        implies !#[trigger] nibbles_at(hash@, prefix_nibbles@, k) by {
                                        if position == MatchPosition::Contains {
                                            assert(!structured_at(hash@, prefix_nibbles@, 0, k));
                                        }
                                    }
                                }
                            }
                            same_run_exec(hash, o + prefix_nibbles.len(), *repeat_count)
                        } {
                            proof {
                                assert(structured_at(hash@, prefix_nibbles@, *repeat_count as int, o as int));
                            }
                            return true;
                        }
                        o += 1;
                    }
                    false
                },
            },
            Pattern::Pair => {
                let mut i: usize = 0;
                while i < 20
                    invariant
                        i <= 20,
                        forall|k: int| 0 <= k < 2 * i && k < 39 ==> #[trigger] hash_nibble(hash@, k) != hash_nibble(hash@, k + 1),
                    decreases 20 - i,
                {
                    let b = hash[i];
                    let hi = (b >> 4u8) & 0x0Fu8;
                    let lo = b & 0x0Fu8;
                    proof {
                        assert(hash_nibble(hash@, 2 * i) == hi);
                        assert(hash_nibble(hash@, 2 * i + 1) == lo);
                    }
                    if hi == lo {
                        proof { assert(hash_nibble(hash@, 2 * i) == hash_nibble(hash@, 2 * i + 1)); }
                        return true;
                    }
                    if i < 19 {
                        let next_hi = (hash[i + 1] >> 4u8) & 0x0Fu8;
                        proof { assert(hash_nibble(hash@, 2 * i + 2) == next_hi); }
                        if lo == next_hi {
                            proof { assert(hash_nibble(hash@, 2 * i + 1) == hash_nibble(hash@, (2 * i + 1) + 1)); }
                            return true;
                        }
                    }
                    i += 1;
                }
                false
            },
            Pattern::RegexPattern(re) => {
                let text = hex_encode(hash);
                regex_is_match(re, text.as_str())
            },
        }
    }

    /// The pattern for the outcome of compiling a `/regex/` text: the
    /// compiled expression, or the error text after `Invalid regex: `.
    pub fn from_compiled_regex(compiled: Result<HexRegex, String>) -> (res: Result<Self, String>)
        ensures
            match compiled {
                Ok(h) => res matches Ok(p) && p@ == PatternView::Regex(h@),
                Err(m) => res matches Err(e) && e@ == regex_error_prefix() + m@,
            },
    {
        match compiled {
            Ok(r) => Ok(Pattern::RegexPattern(r)),
            Err(msg) => {
                let mut e = "Invalid regex: ".to_owned();
                e.append(msg.as_str());
                Err(e)
            },
        }
    }

    /// Parse a pattern text: `/regex/`, `repeat:N`, `xx`, a structured
    /// `<hex>x...x` (unless `no_repeat`), or a hex prefix, the first that applies.
    pub fn parse(input: &str, no_repeat: bool) -> (res: Result<Self, String>)
        ensures
            is_regex_form(input@) ==> (res matches Ok(p) && p@ == PatternView::Regex(
                input@.subrange(1, input@.len() - 1),
            )) || (res matches Err(e) && starts_with(e@, regex_error_prefix())),
            !is_regex_form(input@) ==> match spec_parse_pattern(input@, no_repeat) {
                Ok(v) => res matches Ok(p) && p@ == v,
                Err(k) => res matches Err(e) && e@ == pattern_error_text(k, input@),
            },
    {
        let s = str_chars(input);
        let n = s.len();
        // Regex: `/pattern/`
        if n >= 3 && s[0] == '/' && s[n - 1] == '/' {
            let inner_chars = chars_range(&s, 1, n - 1);
            let inner = string_from_chars(&inner_chars);
            let compiled = compile_regex(inner.as_str());
            let r = Self::from_compiled_regex(compiled);
            proof {
                if r is Err {
                    let e = r->Err_0;
                    assert(e@.take(regex_error_prefix().len() as int) =~= regex_error_prefix());
                }
            }
            return r;
        }
        // Repeat: `repeat:N`
        if chars_start_with(&s, &['r', 'e', 'p', 'e', 'a', 't', ':']) {
            let rest = chars_range(&s, 7, n);
            proof { assert(rest@ =~= s@.skip(7)); }
            return match parse_usize(&rest) {
                None => {
                    let mut e = "Invalid repeat count: ".to_owned();
                    let rest_str = string_from_chars(&rest);
                    e.append(rest_str.as_str());
                    Err(e)
                },
                Some(k) => {
                    if k < 2 {
                        Err("Repeat count must be >= 2".to_owned())
                    } else {
                        Ok(Pattern::Repeat(k))
                    }
                },
            };
        }
        // Pair: `xx`
        if chars_equal(&s, &['x', 'x']) {
            return Ok(Pattern::Pair);
        }
        // Structured: `<hex>x...x`
        if !no_repeat {
            if let Some(i) = first_char_index(&s, 'x') {
                proof { lemma_first_index_of_char(s@, 'x', 0); }
                if i > 0 {
                    let head = chars_range(&s, 0, i);
                    let tail = chars_range(&s, i, n);
                    let head_hex = all_hex_exec(&head);
                    let mut tail_x = true;
                    let mut j: usize = 0;
                    while j < tail.len()
                        invariant
                            j <= tail.len(),
                            tail_x == (forall|k: int| 0 <= k < j ==> #[trigger] tail@[k] == 'x'),
                        decreases tail.len() - j,
                    {
                        if tail[j] != 'x' {
                            tail_x = false;
                        }
                        j += 1;
                    }
                    proof {
                        assert(head@ =~= s@.take(i as int));
                        assert(tail_x == (forall|k: int| i <= k < s@.len() ==> #[trigger] s@[k] == 'x')) by {
                            if tail_x {
                                assert forall|k: int| i <= k < s@.len() implies #[trigger] s@[k] == 'x' by {
                                    assert(s@[k] == tail@[k - i]);
                                }
                            } else {
                                let k = choose|k: int| 0 <= k < tail@.len() && tail@[k] != 'x';
                                assert(s@[k + i] == tail@[k]);
                            }
                        }
                    }
                    if head_hex && tail_x {
                        let lower = lower_chars(&head);
                        proof { lemma_lower_hex(head@); }
                        let nibbles = hex_to_nibbles(&lower);
                        return Ok(Pattern::Structured { prefix_nibbles: nibbles, repeat_count: n - i });
                    }
                }
            }
        }
        // Prefix: hex digits
        let lower = lower_chars(&s);
        if all_hex_exec(&lower) {
            proof {
                assert forall|i: int| 0 <= i < lower@.len() implies ('0' <= #[trigger] lower@[i] <= '9') || ('a' <= lower@[i] <= 'f') by {
                    let c = s@[i];
                    assert(lower@[i] == ascii_lower_char(c));
                    assert(is_hex_digit(lower@[i]));
                    if 'A' <= c && c <= 'Z' {
                        assert((c as u32) >= 65 && (c as u32) <= 90);
                    }
                }
            }
            Ok(Pattern::Prefix(hex_to_nibbles(&lower)))
        } else {
            let mut e = "Invalid pattern '".to_owned();
            e.append(input);
            e.append("': prefix must be hex [0-9a-f]");
            Err(e)
        }
    }
}

} // verus!
