//! Decisions of the command line that sit between reading and writing the
//! repository: choosing the pattern text, normalizing a message, and
//! inspecting or undoing an existing vanity commit.

use vstd::prelude::*;
use vstd::utf8::encode_utf8;
use crate::commit::{
    clean_lines, commit_text, find_blank, find_blank_exec, join_lines, lemma_find_blank_bounds,
    lemma_rewrite_parse, spec_parse_commit, CommitObject,
};
use crate::display::AppError;
use crate::preset::{
    find, find_from, is_lower_hex_digit, lemma_presets_well_formed, presets, spec_find, spec_presets, Preset,
    PresetView,
};
use crate::pattern::{
    all_hex, is_regex_form, is_structured_form, nibbles_of, repeat_key, spec_parse_pattern,
    PatternError, PatternView,
};
use crate::text::{
    ascii_lower, ascii_lower_char, chars_equal, lemma_find_sub, occurs_at, first_index_of_char, lemma_first_index_of_char,
    lower_chars, starts_with, chars_range, find_chars, find_sub, lemma_encode_ascii, lemma_encode_concat, push_all,
    str_chars, string_from_chars,
};

verus! {

/// The words that, in place of a pattern, name a subcommand.
#[derive(Debug, Clone, Copy, PartialEq, Eq, Structural)]
pub enum Subcommand {
    /// `show`: the vanity status of HEAD.
    Show,
    /// `log`: vanity statistics of recent commits.
    Log,
    /// `undo`: remove the nonce from HEAD.
    Undo,
}

/// The subcommand that a positional word names, if any.
pub open spec fn spec_subcommand(word: Option<Seq<char>>) -> Option<Subcommand> {
    match word {
        Some(w) => if w == seq!['s', 'h', 'o', 'w'] {
            Some(Subcommand::Show)
        } else if w == seq!['l', 'o', 'g'] {
            Some(Subcommand::Log)
        } else if w == seq!['u', 'n', 'd', 'o'] {
            Some(Subcommand::Undo)
        } else {
            None
        },
        None => None,
    }
}

/// The subcommand that the positional argument names: `show`, `log` or
/// `undo`, exactly as written; anything else is a pattern.
pub fn subcommand(pattern: Option<&str>) -> (r: Option<Subcommand>)
    ensures
        r == spec_subcommand(match pattern { Some(p) => Some(p@), None => None }),
{
    match pattern {
        None => None,
        Some(p) => {
            let w = str_chars(p);
            let show = ['s', 'h', 'o', 'w'];
            let log = ['l', 'o', 'g'];
            let undo = ['u', 'n', 'd', 'o'];
            proof {
                assert(show@ =~= seq!['s', 'h', 'o', 'w']);
                assert(log@ =~= seq!['l', 'o', 'g']);
                assert(undo@ =~= seq!['u', 'n', 'd', 'o']);
            }
            if chars_equal(&w, &show) {
                Some(Subcommand::Show)
            } else if chars_equal(&w, &log) {
                Some(Subcommand::Log)
            } else if chars_equal(&w, &undo) {
                Some(Subcommand::Undo)
            } else {
                None
            }
        },
    }
}

/// Whether an answer to the apply question (already trimmed) accepts:
/// empty, `y` or `yes`, in any ASCII case.
pub open spec fn spec_accepts(answer: Seq<char>) -> bool {
    let a = ascii_lower(answer);
    a.len() == 0 || a == seq!['y'] || a == seq!['y', 'e', 's']
}

/// Whether the trimmed answer to "Apply? [Y/n]" accepts the change.
pub fn accepts_answer(answer: &str) -> (b: bool)
    ensures
        b == spec_accepts(answer@),
        b <==> (answer@.len() == 0 || (answer@.len() == 1 && (answer@[0] == 'y' || answer@[0] == 'Y')) || (
        answer@.len() == 3 && (answer@[0] == 'y' || answer@[0] == 'Y') && (answer@[1] == 'e' || answer@[1] == 'E')
            && (answer@[2] == 's' || answer@[2] == 'S'))),
{
    proof { lemma_accepts_law(answer@); }
    let a = lower_chars(&str_chars(answer));
    let y = ['y'];
    let yes = ['y', 'e', 's'];
    proof {
        assert(y@ =~= seq!['y']);
        assert(yes@ =~= seq!['y', 'e', 's']);
    }
    a.len() == 0 || chars_equal(&a, &y) || chars_equal(&a, &yes)
}

/// The first line of `m` as `str::lines` gives it: up to the first newline,
/// without a carriage return before that newline; empty for empty text.
pub open spec fn first_line(m: Seq<char>) -> Seq<char> {
    match crate::text::first_index_of_char(m, '\n', 0) {
        None => m,
        Some(i) => {
            let l = m.take(i as int);
            if l.len() > 0 && l.last() == '\r' {
                l.drop_last()
            } else {
                l
            }
        },
    }
}

/// The first line of the message of a raw commit object (empty when no
/// blank line ends the header).
pub open spec fn spec_first_message_line(raw: Seq<char>) -> Seq<char> {
    match find_blank(raw, 0) {
        None => Seq::empty(),
        Some(p) => first_line(raw.skip(p + 2int)),
    }
}

/// The first line of the message of a raw commit object.
pub fn first_message_line(raw: &str) -> (s: String)
    ensures
        s@ == spec_first_message_line(raw@),
{
    let chars = str_chars(raw);
    let n = chars.len();
    match find_blank_exec(&chars) {
        None => String::new(),
        Some(p) => {
            proof {
                lemma_find_blank_bounds(chars@, 0);
                assert(find_blank(chars@, 0) == Some(p as nat));
                assert(p + 1 < chars@.len());
            }
            let m = chars_range(&chars, p + 2, n);
            proof { assert(m@ =~= chars@.skip(p + 2int)); }
            let mut end = m.len();
            match crate::text::first_char_index(&m, '\n') {
                None => {},
                Some(i) => {
                    proof { crate::text::lemma_first_index_of_char(m@, '\n', 0); }
                    end = i;
                    if i > 0 && m[i - 1] == '\r' {
                        end = i - 1;
                    }
                },
            }
            let l = chars_range(&m, 0, end);
            proof {
                match crate::text::first_index_of_char(m@, '\n', 0) {
                    None => { assert(l@ =~= m@); },
                    Some(i) => {
                        let t = m@.take(i as int);
                        if t.len() > 0 && t.last() == '\r' {
                            assert(l@ =~= t.drop_last());
                        } else {
                            assert(l@ =~= t);
                        }
                    },
                }
            }
            string_from_chars(&l)
        },
    }
}

/// The number of leading positions where a character equals the next one.
pub open spec fn spec_leading_pairs(h: Seq<char>, i: nat) -> nat
    decreases h.len() - i,
{
    if i + 1 < h.len() && h[i as int] == h[i + 1int] {
        spec_leading_pairs(h, i + 1)
    } else {
        i
    }
}

/// The number of leading positions where a character equals the next one:
/// one less than the length of the leading run of equal characters.
pub fn leading_pairs(hash: &str) -> (n: usize)
    ensures
        n == spec_leading_pairs(hash@, 0),
        hash@.len() == 0 ==> n == 0,
        hash@.len() > 0 ==> n + 1 <= hash@.len() && (forall|k: int| 0 <= k <= n ==> #[trigger] hash@[k] == hash@[0])
            && (n + 1 < hash@.len() ==> hash@[n + 1] != hash@[0]),
{
    proof { lemma_leading_pairs_law(hash@); }
    let h = str_chars(hash);
    let mut i: usize = 0;
    while i < h.len() && i + 1 < h.len() && h[i] == h[i + 1]
        invariant
            i <= h.len(),
            spec_leading_pairs(h@, 0) == spec_leading_pairs(h@, i as nat),
        decreases h.len() - i,
    {
        i += 1;
    }
    i
}

/// The presets whose hex word occurs in `h`, in order.
pub open spec fn presets_in(ps: Seq<PresetView>, h: Seq<char>) -> Seq<PresetView>
    decreases ps.len(),
{
    if ps.len() == 0 {
        Seq::empty()
    } else if find_sub(h, ps.last().hex) is Some {
        presets_in(ps.drop_last(), h).push(ps.last())
    } else {
        presets_in(ps.drop_last(), h)
    }
}

/// The presets whose hex word occurs in the hash (at its start, its end, or
/// anywhere), in list order.
pub fn matching_presets(hash: &str) -> (r: Vec<Preset>)
    ensures
        r@.map_values(|p: Preset| p@) == presets_in(spec_presets(), hash@),
        r@.map_values(|p: Preset| p@) == spec_presets().filter(|p: PresetView| exists|o: int| 0 <= o && o
            + p.hex.len() <= hash@.len() && #[trigger] hash@.subrange(o, o + p.hex.len()) == p.hex),
{
    proof { lemma_matching_presets_law(hash@); }
    let h = str_chars(hash);
    let ps = presets();
    let ghost views = ps@.map_values(|p: Preset| p@);
    let mut r: Vec<Preset> = Vec::new();
    let mut i: usize = 0;
    proof { assert(r@.map_values(|p: Preset| p@) =~= presets_in(views.take(0), h@)); }
    while i < ps.len()
        invariant
            i <= ps.len(),
            views == ps@.map_values(|p: Preset| p@),
            r@.map_values(|p: Preset| p@) == presets_in(views.take(i as int), h@),
        decreases ps.len() - i,
    {
        let p = ps[i];
        proof {
            assert(views.take(i + 1).drop_last() =~= views.take(i as int));
            assert(views.take(i + 1).last() == p@);
        }
        let hex = str_chars(p.hex);
        if find_chars(&h, &hex).is_some() {
            let ghost before = r@.map_values(|p: Preset| p@);
            r.push(p);
            proof { assert(r@.map_values(|p: Preset| p@) =~= before.push(p@)); }
        }
        i += 1;
    }
    proof { assert(views.take(ps@.len() as int) =~= views); }
    r
}

/// The bytes of a commit object with the given header lines and message
/// and no nonce header.
pub open spec fn plain_commit_bytes(lines: Seq<Seq<char>>, message: Seq<char>) -> Seq<u8> {
    encode_utf8(join_lines(lines) + seq!['\n'] + message)
}

/// Rebuild the commit content without a nonce header.
pub fn content_without_nonce(commit: &CommitObject) -> (content: Vec<u8>)
    ensures
        content@ == plain_commit_bytes(commit@.header_lines, commit@.message),
{
    let mut out: Vec<u8> = Vec::new();
    let ghost lines = commit@.header_lines;
    let mut i: usize = 0;
    proof {
        assert(lines.take(0) =~= Seq::<Seq<char>>::empty());
        assert(encode_utf8(Seq::<char>::empty()) =~= Seq::<u8>::empty());
    }
    while i < commit.header_lines.len()
        invariant
            i <= commit.header_lines.len(),
            lines == commit@.header_lines,
            out@ == encode_utf8(join_lines(lines.take(i as int))),
        decreases commit.header_lines.len() - i,
    {
        let line: &str = commit.header_lines[i].as_str();
        push_all(&mut out, line.as_bytes());
        out.push(0x0Au8);
        proof {
            let t = lines.take(i + 1);
            assert(t.drop_last() =~= lines.take(i as int));
            assert(t.last() == line@);
            lemma_encode_concat(join_lines(lines.take(i as int)), line@);
            lemma_encode_concat(join_lines(lines.take(i as int)) + line@, seq!['\n']);
            lemma_encode_ascii(seq!['\n']);
            assert(encode_utf8(seq!['\n']) =~= seq![0x0Au8]);
            assert(out@ =~= encode_utf8(join_lines(lines.take(i as int))) + encode_utf8(line@) + seq![0x0Au8]);
        }
        i += 1;
    }
    out.push(0x0Au8);
    push_all(&mut out, commit.message.as_str().as_bytes());
    proof {
        assert(lines.take(lines.len() as int) =~= lines);
        lemma_encode_concat(join_lines(lines), seq!['\n']);
        lemma_encode_concat(join_lines(lines) + seq!['\n'], commit@.message);
        lemma_encode_ascii(seq!['\n']);
        assert(encode_utf8(seq!['\n']) =~= seq![0x0Au8]);
        assert(out@ =~= plain_commit_bytes(lines, commit@.message));
    }
    out
}

/// Undo restores what a vanity rewrite started from: for header lines as a
/// parse leaves them, any nonce value without a newline and any message,
/// parsing the rewritten commit and rebuilding it without the nonce gives
/// the bytes of the commit object made of those lines and that message.
pub proof fn lemma_undo_restores(lines: Seq<Seq<char>>, nonce: Seq<char>, message: Seq<char>)
    requires
        clean_lines(lines),
        !nonce.contains('\n'),
    ensures
        spec_parse_commit(commit_text(lines, nonce, message)) matches Some(c)
            && plain_commit_bytes(c.header_lines, c.message) == encode_utf8(
            join_lines(lines) + seq!['\n'] + message,
        ),
{
    lemma_rewrite_parse(lines, nonce, message);
}

/// A preset's hex word, as a pattern text, is a plain prefix pattern:
/// parsing it (whether or not structured patterns are allowed) gives the
/// prefix of its digits, so `--preset` always searches for the word itself.
pub proof fn lemma_preset_hex_parses(i: int, no_repeat: bool)
    requires
        0 <= i < spec_presets().len(),
    ensures
        spec_presets()[i].hex.len() >= 3,
        spec_parse_pattern(spec_presets()[i].hex, no_repeat) == Ok::<PatternView, PatternError>(
            PatternView::Prefix(nibbles_of(spec_presets()[i].hex)),
        ),
{
    lemma_presets_well_formed();
    let h = spec_presets()[i].hex;
    assert(h.len() >= 3);
    assert forall|k: int| 0 <= k < h.len() implies is_lower_hex_digit(#[trigger] h[k]) by {
        assert(is_lower_hex_digit(spec_presets()[i].hex[k]));
    }
    assert(is_lower_hex_digit(h[0]));
    assert(!is_regex_form(h));
    assert(!starts_with(h, repeat_key())) by {
        if starts_with(h, repeat_key()) {
            assert(h.take(7)[0] == h[0]);
            assert(repeat_key()[0] == 'r');
        }
    }
    assert(h != seq!['x', 'x']) by {
        if h == seq!['x', 'x'] {
            assert(h[0] == 'x');
        }
    }
    lemma_first_index_of_char(h, 'x', 0);
    assert(first_index_of_char(h, 'x', 0) is None) by {
        if let Some(p) = first_index_of_char(h, 'x', 0) {
            assert(is_lower_hex_digit(h[p as int]));
        }
    }
    assert(!is_structured_form(h));
    assert(ascii_lower(h) =~= h) by {
        assert forall|k: int| 0 <= k < h.len() implies #[trigger] ascii_lower(h)[k] == h[k] by {
            assert(is_lower_hex_digit(h[k]));
            assert(ascii_lower(h)[k] == ascii_lower_char(h[k]));
        }
    }
    assert(all_hex(ascii_lower(h)));
}

/// The first preset from `i` on named `key`: it is named so, and none
/// between `i` and it is; none is found only when none from `i` on is.
proof fn lemma_find_from(ps: Seq<PresetView>, key: Seq<char>, i: nat)
    ensures
        find_from(ps, key, i) matches Some(k) ==> i <= k < ps.len() && ps[k as int].name == key
            && forall|j: int| i <= j < k ==> #[trigger] ps[j].name != key,
        find_from(ps, key, i) is None ==> forall|j: int| i <= j < ps.len() ==> #[trigger] ps[j].name != key,
    decreases ps.len() - i,
{
    if i < ps.len() && ps[i as int].name != key {
        lemma_find_from(ps, key, i + 1);
    }
}

/// `find` looks a name up regardless of ASCII case: it gives the first
/// preset whose name is the name in ASCII lowercase, and nothing exactly
/// when no preset has that name. The hex word of a preset it gives has at
/// least three lowercase hex digits and parses to a prefix pattern of them.
pub proof fn lemma_find_law(name: Seq<char>, no_repeat: bool)
    ensures
        spec_find(name) matches Some(i) ==> {
            &&& 0 <= i < spec_presets().len()
            &&& spec_presets()[i as int].name == ascii_lower(name)
            &&& forall|j: int| 0 <= j < i ==> #[trigger] spec_presets()[j].name != ascii_lower(name)
            &&& spec_presets()[i as int].hex.len() >= 3
            &&& forall|k: int| 0 <= k < spec_presets()[i as int].hex.len()
                ==> is_lower_hex_digit(#[trigger] spec_presets()[i as int].hex[k])
            &&& spec_parse_pattern(spec_presets()[i as int].hex, no_repeat) == Ok::<PatternView, PatternError>(
                PatternView::Prefix(nibbles_of(spec_presets()[i as int].hex)),
            )
        },
        spec_find(name) is None <==> forall|j: int| 0 <= j < spec_presets().len()
            ==> #[trigger] spec_presets()[j].name != ascii_lower(name),
{
    lemma_find_from(spec_presets(), ascii_lower(name), 0);
    lemma_presets_well_formed();
    if let Some(i) = spec_find(name) {
        lemma_preset_hex_parses(i as int, no_repeat);
        assert(spec_presets()[i as int].name == ascii_lower(name));
    }
}

/// The presets kept from a list, as a filter: those whose hex word occurs
/// at some place of `h`, in list order.
proof fn lemma_presets_in_filter(ps: Seq<PresetView>, h: Seq<char>)
    ensures
        presets_in(ps, h) == ps.filter(|p: PresetView| exists|o: int| 0 <= o && o + p.hex.len() <= h.len()
            && #[trigger] h.subrange(o, o + p.hex.len()) == p.hex),
    decreases ps.len(),
{
    reveal(Seq::filter);
    let pred = |p: PresetView| exists|o: int| 0 <= o && o + p.hex.len() <= h.len()
        && #[trigger] h.subrange(o, o + p.hex.len()) == p.hex;
    if ps.len() > 0 {
        lemma_presets_in_filter(ps.drop_last(), h);
        let w = ps.last().hex;
        lemma_find_sub(h, w, 0);
        if find_sub(h, w) is Some {
            let o = find_sub(h, w).unwrap() as int;
            assert(occurs_at(h, w, o));
            assert(h.subrange(o, o + w.len()) == w);
            assert(pred(ps.last()));
        }
        if pred(ps.last()) {
            let o = choose|o: int| 0 <= o && o + w.len() <= h.len() && #[trigger] h.subrange(o, o + w.len()) == w;
            assert(occurs_at(h, w, o));
        }
    }
}

/// `show` lists every preset whose hex word occurs anywhere in the hash, of
/// any length, each once and in list order: the result is the preset list
/// filtered by "its hex word is a stretch of the hash", so a preset is in
/// it exactly when its word occurs.
pub proof fn lemma_matching_presets_law(h: Seq<char>)
    ensures
        presets_in(spec_presets(), h) == spec_presets().filter(|p: PresetView| exists|o: int| 0 <= o && o
            + p.hex.len() <= h.len() && #[trigger] h.subrange(o, o + p.hex.len()) == p.hex),
        forall|i: int| 0 <= i < spec_presets().len() ==> (#[trigger] presets_in(spec_presets(), h).contains(
            spec_presets()[i],
        ) <==> exists|o: int| 0 <= o && o + spec_presets()[i].hex.len() <= h.len() && #[trigger] h.subrange(
            o,
            o + spec_presets()[i].hex.len(),
        ) == spec_presets()[i].hex),
{
    let ps = spec_presets();
    let pred = |p: PresetView| exists|o: int| 0 <= o && o + p.hex.len() <= h.len()
        && #[trigger] h.subrange(o, o + p.hex.len()) == p.hex;
    lemma_presets_in_filter(ps, h);
    #[allow(deprecated)]
    ps.filter_lemma(pred);
    assert forall|i: int| 0 <= i < ps.len() implies (#[trigger] presets_in(ps, h).contains(ps[i]) <==> pred(ps[i])) by {
        if presets_in(ps, h).contains(ps[i]) {
            let k = choose|k: int| 0 <= k < ps.filter(pred).len() && ps.filter(pred)[k] == ps[i];
            assert(pred(ps.filter(pred)[k]));
        }
    }
}

/// The number `show` reports for the leading run: with `n` the result, the
/// first `n + 1` characters of the hash are all equal to the first one, and
/// the next character (if any) differs from it; so `n + 1` is the length of
/// the leading run of equal characters, whatever comes after it. An empty
/// hash gives 0.
pub proof fn lemma_leading_pairs_law(h: Seq<char>)
    ensures
        h.len() == 0 ==> spec_leading_pairs(h, 0) == 0,
        h.len() > 0 ==> {
            let n = spec_leading_pairs(h, 0) as int;
            &&& n + 1 <= h.len()
            &&& forall|k: int| 0 <= k <= n ==> #[trigger] h[k] == h[0]
            &&& n + 1 < h.len() ==> h[n + 1] != h[0]
        },
{
    if h.len() > 0 {
        lemma_leading_pairs_from(h, 0);
    }
}

/// From a place `i` whose character and all before it equal the first one,
/// the count reaches the end of the leading run.
proof fn lemma_leading_pairs_from(h: Seq<char>, i: nat)
    requires
        i < h.len(),
        forall|k: int| 0 <= k <= i ==> #[trigger] h[k] == h[0],
    ensures
        ({
            let n = spec_leading_pairs(h, i) as int;
            &&& i <= n && n + 1 <= h.len()
            &&& forall|k: int| 0 <= k <= n ==> #[trigger] h[k] == h[0]
            &&& n + 1 < h.len() ==> h[n + 1] != h[0]
        }),
    decreases h.len() - i,
{
    if i + 1 < h.len() && h[i as int] == h[i + 1int] {
        assert forall|k: int| 0 <= k <= i + 1 implies #[trigger] h[k] == h[0] by {
            if k == i + 1 {
                assert(h[i as int] == h[0]);
            }
        }
        lemma_leading_pairs_from(h, i + 1);
    } else {
        assert(h[i as int] == h[0]);
    }
}

/// What the apply question accepts: an empty answer, `y` or `yes`, each
/// letter in either case; acceptance depends only on the answer's ASCII
/// lowercase, so an answer and its lowercase are accepted alike.
pub proof fn lemma_accepts_law(answer: Seq<char>)
    ensures
        spec_accepts(answer) <==> (answer.len() == 0 || (answer.len() == 1 && (answer[0] == 'y' || answer[0] == 'Y'))
            || (answer.len() == 3 && (answer[0] == 'y' || answer[0] == 'Y') && (answer[1] == 'e' || answer[1] == 'E')
            && (answer[2] == 's' || answer[2] == 'S'))),
        spec_accepts(answer) == spec_accepts(ascii_lower(answer)),
{
    let a = ascii_lower(answer);
    assert forall|k: int| 0 <= k < answer.len() implies #[trigger] a[k] == ascii_lower_char(answer[k]) by {}
    assert forall|c: char| (#[trigger] ascii_lower_char(c) == 'y') <==> (c == 'y' || c == 'Y') by {
        if 'A' <= c && c <= 'Z' {
            assert((c as u32) >= 65 && (c as u32) <= 90);
            assert(ascii_lower_char(c) as u32 == (c as u32) + 32);
        }
        assert(('y' as u32) == 121 && ('Y' as u32) == 89);
    }
    assert forall|c: char| (#[trigger] ascii_lower_char(c) == 'e') <==> (c == 'e' || c == 'E') by {
        if 'A' <= c && c <= 'Z' {
            assert((c as u32) >= 65 && (c as u32) <= 90);
            assert(ascii_lower_char(c) as u32 == (c as u32) + 32);
        }
        assert(('e' as u32) == 101 && ('E' as u32) == 69);
    }
    assert forall|c: char| (#[trigger] ascii_lower_char(c) == 's') <==> (c == 's' || c == 'S') by {
        if 'A' <= c && c <= 'Z' {
            assert((c as u32) >= 65 && (c as u32) <= 90);
            assert(ascii_lower_char(c) as u32 == (c as u32) + 32);
        }
        assert(('s' as u32) == 115 && ('S' as u32) == 83);
    }
    if a == seq!['y'] {
        assert(a[0] == 'y');
    }
    if a == seq!['y', 'e', 's'] {
        assert(a[0] == 'y' && a[1] == 'e' && a[2] == 's');
    }
    if answer.len() == 1 && (answer[0] == 'y' || answer[0] == 'Y') {
        assert(a =~= seq!['y']);
    }
    if answer.len() == 3 && (answer[0] == 'y' || answer[0] == 'Y') && (answer[1] == 'e' || answer[1] == 'E')
        && (answer[2] == 's' || answer[2] == 'S') {
        assert(a =~= seq!['y', 'e', 's']);
    }
    // lowering twice is lowering once
    let aa = ascii_lower(a);
    assert forall|k: int| 0 <= k < a.len() implies #[trigger] aa[k] == a[k] by {
        let c = answer[k];
        if 'A' <= c && c <= 'Z' {
            assert((c as u32) >= 65 && (c as u32) <= 90);
            assert(a[k] as u32 == (c as u32) + 32);
        }
    }
    assert(aa =~= a);
}

/// A message override ends with a newline: one is added where missing.
pub open spec fn spec_normalize_message(m: Seq<char>) -> Seq<char> {
    if m.len() > 0 && m.last() == '\n' {
        m
    } else {
        m.push('\n')
    }
}

/// The message override as it is written: with a final newline.
pub fn normalize_message(msg: &str) -> (s: String)
    ensures
        s@ == spec_normalize_message(msg@),
{
    let mut c = str_chars(msg);
    if !(c.len() > 0 && c[c.len() - 1] == '\n') {
        c.push('\n');
    }
    string_from_chars(&c)
}

/// The error text for an unknown preset name.
pub open spec fn unknown_preset_error(name: Seq<char>) -> Seq<char> {
    "Unknown preset '"@ + name + "'. Use --list-presets to see available options."@
}

/// The error text when no pattern is given.
pub open spec fn no_pattern_error() -> Seq<char> {
    "No pattern specified. Use a hex pattern, --preset (-p), or --random (-r)."@
}

/// Resolve the pattern text: a named preset's hex word wins over the
/// positional pattern; an unknown preset name or no pattern at all is an
/// argument error.
pub fn resolve_pattern(preset: Option<&str>, pattern: Option<&str>) -> (r: Result<String, AppError>)
    ensures
        match preset {
            Some(name) => match spec_find(name@) {
                Some(i) => r matches Ok(s) && s@ == spec_presets()[i as int].hex,
                None => r matches Err(AppError::Args(m)) && m@ == unknown_preset_error(name@),
            },
            None => match pattern {
                Some(p) => r matches Ok(s) && s@ == p@,
                None => r matches Err(AppError::Args(m)) && m@ == no_pattern_error(),
            },
        },
{
    match preset {
        Some(name) => match find(name) {
            Some(p) => Ok(p.hex.to_owned()),
            None => {
                let mut m = "Unknown preset '".to_owned();
                m.append(name);
                m.append("'. Use --list-presets to see available options.");
                Err(AppError::Args(m))
            },
        },
        None => match pattern {
            Some(p) => Ok(p.to_owned()),
            None => Err(AppError::Args(
                "No pattern specified. Use a hex pattern, --preset (-p), or --random (-r).".to_owned(),
            )),
        },
    }
}

/// The preset that a random number picks: the number modulo the number of
/// presets.
pub fn random_preset(seed: usize) -> (p: Preset)
    ensures
        p@ == spec_presets()[(seed as int) % (spec_presets().len() as int)],
{
    let ps = presets();
    proof { assert(spec_presets().len() == 27); }
    let p = ps[seed % ps.len()];
    proof { assert(ps@.map_values(|q: Preset| q@)[(seed % ps.len()) as int] == p@); }
    p
}

} // verus!
