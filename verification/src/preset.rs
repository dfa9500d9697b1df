//! Curated hex word presets: meaningful words using only 0-9 and a-f,
//! organized by difficulty (prefix length, so search time).

use vstd::prelude::*;
use crate::text::{
    ascii_lower, chars_equal, decimal_chars, lower_char, push_chars, str_chars, string_from_chars,
};

verus! {

/// A named hex word.
#[derive(Debug, Clone, Copy)]
pub struct Preset {
    pub name: &'static str,
    pub hex: &'static str,
    pub description: &'static str,
}

/// The text content of a preset.
pub struct PresetView {
    pub name: Seq<char>,
    pub hex: Seq<char>,
    pub description: Seq<char>,
}

impl View for Preset {
    type V = PresetView;

    open spec fn view(&self) -> PresetView {
        PresetView { name: self.name@, hex: self.hex@, description: self.description@ }
    }
}

/// A preset view from its three texts.
pub open spec fn preset_view(name: Seq<char>, hex: Seq<char>, description: Seq<char>) -> PresetView {
    PresetView { name, hex, description }
}

/// All available presets, sorted by difficulty (easiest first).
pub open spec fn spec_presets() -> Seq<PresetView> {
    seq![
        preset_view("ace"@, "ace"@, "an ace up your sleeve"@),
        preset_view("add"@, "add"@, "add something new"@),
        preset_view("bad"@, "bad"@, "bad to the bone"@),
        preset_view("bed"@, "bed"@, "time for bed"@),
        preset_view("cab"@, "cab"@, "hail a cab"@),
        preset_view("dad"@, "dad"@, "hi dad"@),
        preset_view("fab"@, "fab"@, "fabulous"@),
        preset_view("fed"@, "fed"@, "well fed"@),
        preset_view("babe"@, "babe"@, "hey babe"@),
        preset_view("bead"@, "bead"@, "string of beads"@),
        preset_view("beef"@, "beef"@, "where's the beef?"@),
        preset_view("cafe"@, "cafe"@, "coffee shop vibes"@),
        preset_view("code"@, "c0de"@, "write some c0de"@),
        preset_view("daze"@, "da2e"@, "in a da2e"@),
        preset_view("dead"@, "dead"@, "dead commit walking"@),
        preset_view("deaf"@, "deaf"@, "deaf to criticism"@),
        preset_view("face"@, "face"@, "save face"@),
        preset_view("fade"@, "fade"@, "fade to black"@),
        preset_view("feed"@, "feed"@, "feed the code"@),
        preset_view("food"@, "f00d"@, "f00d for thought"@),
        preset_view("decaf"@, "decaf"@, "decaf coffee"@),
        preset_view("coffee"@, "c0ffee"@, "powered by c0ffee"@),
        preset_view("decade"@, "decade"@, "a decade of commits"@),
        preset_view("deface"@, "deface"@, "deface the hash"@),
        preset_view("facade"@, "facade"@, "behind the facade"@),
        preset_view("defaced"@, "defaced"@, "defaced and proud"@),
        preset_view("effaced"@, "effaced"@, "effaced from history"@),
    ]
}

/// All available presets, sorted by difficulty (easiest first).
pub fn presets() -> (v: Vec<Preset>)
    ensures
        v@.map_values(|p: Preset| p@) == spec_presets(),
{
    let mut v: Vec<Preset> = Vec::new();
    v.push(Preset { name: "ace", hex: "ace", description: "an ace up your sleeve" });
    v.push(Preset { name: "add", hex: "add", description: "add something new" });
    v.push(Preset { name: "bad", hex: "bad", description: "bad to the bone" });
    v.push(Preset { name: "bed", hex: "bed", description: "time for bed" });
    v.push(Preset { name: "cab", hex: "cab", description: "hail a cab" });
    v.push(Preset { name: "dad", hex: "dad", description: "hi dad" });
    v.push(Preset { name: "fab", hex: "fab", description: "fabulous" });
    v.push(Preset { name: "fed", hex: "fed", description: "well fed" });
    v.push(Preset { name: "babe", hex: "babe", description: "hey babe" });
    v.push(Preset { name: "bead", hex: "bead", description: "string of beads" });
    v.push(Preset { name: "beef", hex: "beef", description: "where's the beef?" });
    v.push(Preset { name: "cafe", hex: "cafe", description: "coffee shop vibes" });
    v.push(Preset { name: "code", hex: "c0de", description: "write some c0de" });
    v.push(Preset { name: "daze", hex: "da2e", description: "in a da2e" });
    v.push(Preset { name: "dead", hex: "dead", description: "dead commit walking" });
    v.push(Preset { name: "deaf", hex: "deaf", description: "deaf to criticism" });
    v.push(Preset { name: "face", hex: "face", description: "save face" });
    v.push(Preset { name: "fade", hex: "fade", description: "fade to black" });
    v.push(Preset { name: "feed", hex: "feed", description: "feed the code" });
    v.push(Preset { name: "food", hex: "f00d", description: "f00d for thought" });
    v.push(Preset { name: "decaf", hex: "decaf", description: "decaf coffee" });
    v.push(Preset { name: "coffee", hex: "c0ffee", description: "powered by c0ffee" });
    v.push(Preset { name: "decade", hex: "decade", description: "a decade of commits" });
    v.push(Preset { name: "deface", hex: "deface", description: "deface the hash" });
    v.push(Preset { name: "facade", hex: "facade", description: "behind the facade" });
    v.push(Preset { name: "defaced", hex: "defaced", description: "defaced and proud" });
    v.push(Preset { name: "effaced", hex: "effaced", description: "effaced from history" });
    proof {
        assert(v@.map_values(|p: Preset| p@) =~= spec_presets());
    }
    v
}

/// A lowercase hex digit.
pub open spec fn is_lower_hex_digit(c: char) -> bool {
    ('0' <= c && c <= '9') || ('a' <= c && c <= 'f')
}

/// Every preset hex word is made of lowercase hex digits, and the presets
/// are sorted by difficulty: hex words never get shorter down the list.
pub proof fn lemma_presets_well_formed()
    ensures
        forall|i: int, k: int| 0 <= i < spec_presets().len() && 0 <= k < spec_presets()[i].hex.len()
            ==> is_lower_hex_digit(#[trigger] spec_presets()[i].hex[k]),
        forall|i: int, j: int| 0 <= i <= j < spec_presets().len()
            ==> (#[trigger] spec_presets()[i].hex).len() <= (#[trigger] spec_presets()[j].hex).len(),
        forall|i: int| 0 <= i < spec_presets().len() ==> (#[trigger] spec_presets()[i].hex).len() >= 3,
{
    reveal_strlit("ace");
    reveal_strlit("add");
    reveal_strlit("bad");
    reveal_strlit("bed");
    reveal_strlit("cab");
    reveal_strlit("dad");
    reveal_strlit("fab");
    reveal_strlit("fed");
    reveal_strlit("babe");
    reveal_strlit("bead");
    reveal_strlit("beef");
    reveal_strlit("cafe");
    reveal_strlit("c0de");
    reveal_strlit("da2e");
    reveal_strlit("dead");
    reveal_strlit("deaf");
    reveal_strlit("face");
    reveal_strlit("fade");
    reveal_strlit("feed");
    reveal_strlit("f00d");
    reveal_strlit("decaf");
    reveal_strlit("c0ffee");
    reveal_strlit("decade");
    reveal_strlit("deface");
    reveal_strlit("facade");
    reveal_strlit("defaced");
    reveal_strlit("effaced");
    let ps = spec_presets();
    assert forall|i: int, k: int| 0 <= i < ps.len() && 0 <= k < ps[i].hex.len()
        implies is_lower_hex_digit(#[trigger] ps[i].hex[k]) by {
    }
    assert forall|i: int| 0 <= i < ps.len() implies (#[trigger] ps[i].hex).len() >= 3 by {
        assert(ps[0].hex.len() <= ps[i].hex.len());
    }
}

/// The first preset from `i` on whose name is `key`.
pub open spec fn find_from(ps: Seq<PresetView>, key: Seq<char>, i: nat) -> Option<nat>
    decreases ps.len() - i,
{
    if i >= ps.len() {
        None
    } else if ps[i as int].name == key {
        Some(i)
    } else {
        find_from(ps, key, i + 1)
    }
}

/// The preset that `find` gives for a name: the one named by the name in
/// ASCII lowercase.
pub open spec fn spec_find(name: Seq<char>) -> Option<nat> {
    find_from(spec_presets(), ascii_lower(name), 0)
}

/// Find a preset by name (case-insensitive).
pub fn find(name: &str) -> (r: Option<Preset>)
    ensures
        match spec_find(name@) {
            None => r is None,
            Some(i) => r matches Some(p) && p@ == spec_presets()[i as int],
        },
{
    let chars = str_chars(name);
    let mut lower: Vec<char> = Vec::new();
    let mut k: usize = 0;
    while k < chars.len()
        invariant
            k <= chars.len(),
            lower@ == ascii_lower(chars@.take(k as int)),
        decreases chars.len() - k,
    {
        lower.push(lower_char(chars[k]));
        k += 1;
        proof { assert(lower@ =~= ascii_lower(chars@.take(k as int))); }
    }
    proof { assert(chars@.take(chars@.len() as int) =~= chars@); }
    let ps = presets();
    let ghost views = ps@.map_values(|p: Preset| p@);
    let mut i: usize = 0;
    while i < ps.len()
        invariant
            i <= ps.len(),
            views == ps@.map_values(|p: Preset| p@),
            views == spec_presets(),
            lower@ == ascii_lower(name@),
            find_from(views, lower@, 0) == find_from(views, lower@, i as nat),
        decreases ps.len() - i,
    {
        let p = ps[i];
        let pn = str_chars(p.name);
        proof { assert(views[i as int] == p@); }
        if chars_equal(&pn, &lower) {
            return Some(p);
        }
        i += 1;
    }
    None
}

/// `k` spaces.
pub open spec fn spaces(k: nat) -> Seq<char> {
    Seq::new(k, |i: int| ' ')
}

/// `s` padded on the right with spaces to width `w` (as `{:<w}` does).
pub open spec fn pad_right(s: Seq<char>, w: nat) -> Seq<char> {
    if s.len() < w {
        s + spaces((w - s.len()) as nat)
    } else {
        s
    }
}

/// `s` padded on the left with spaces to width `w` (as `{:>w}` does).
pub open spec fn pad_left(s: Seq<char>, w: nat) -> Seq<char> {
    if s.len() < w {
        spaces((w - s.len()) as nat) + s
    } else {
        s
    }
}

/// The search-time label for a hex word of the given length.
pub open spec fn difficulty(len: nat) -> Seq<char> {
    if len <= 3 {
        seq!['i', 'n', 's', 't', 'a', 'n', 't']
    } else if len == 4 {
        seq!['<', ' ', '1', 's']
    } else if len == 5 {
        seq!['~', ' ', '2', 's']
    } else if len == 6 {
        seq!['~', ' ', '5', 's']
    } else {
        seq!['~', ' ', '3', '0', 's', '+']
    }
}

/// The longest name among the presets.
pub open spec fn max_name_len(ps: Seq<PresetView>) -> nat
    decreases ps.len(),
{
    if ps.len() == 0 {
        0
    } else {
        let m = max_name_len(ps.drop_last());
        if ps.last().name.len() > m { ps.last().name.len() } else { m }
    }
}

/// The longest hex word among the presets.
pub open spec fn max_hex_len(ps: Seq<PresetView>) -> nat
    decreases ps.len(),
{
    if ps.len() == 0 {
        0
    } else {
        let m = max_hex_len(ps.drop_last());
        if ps.last().hex.len() > m { ps.last().hex.len() } else { m }
    }
}

/// One line of the preset list.
pub open spec fn preset_line(p: PresetView, wn: nat, wh: nat) -> Seq<char> {
    seq![' ', ' '] + pad_right(p.name, wn) + seq![' ', ' '] + pad_right(p.hex, wh) + seq![' ', ' ']
        + pad_left(difficulty(p.hex.len()), 8) + seq![' ', ' '] + p.description
}

/// Lines joined by newlines.
pub open spec fn join_newline(lines: Seq<Seq<char>>) -> Seq<char>
    decreases lines.len(),
{
    if lines.len() == 0 {
        Seq::empty()
    } else if lines.len() == 1 {
        lines[0]
    } else {
        join_newline(lines.drop_last()) + seq!['\n'] + lines.last()
    }
}

/// The preset list: one line per preset, in order.
pub open spec fn spec_list() -> Seq<char> {
    let ps = spec_presets();
    join_newline(Seq::new(ps.len(), |i: int| preset_line(ps[i], max_name_len(ps), max_hex_len(ps))))
}

/// Appends `k` spaces.
fn push_spaces(v: &mut Vec<char>, k: usize)
    ensures
        final(v)@ == old(v)@ + spaces(k as nat),
{
    let mut i: usize = 0;
    while i < k
        invariant
            i <= k,
            v@ == old(v)@ + spaces(i as nat),
        decreases k - i,
    {
        v.push(' ');
        i += 1;
        proof { assert(v@ =~= old(v)@ + spaces(i as nat)); }
    }
}

/// Appends `s` padded on the right to width `w`.
fn push_pad_right(v: &mut Vec<char>, s: &[char], w: usize)
    ensures
        final(v)@ == old(v)@ + pad_right(s@, w as nat),
{
    push_chars(v, s);
    if s.len() < w {
        push_spaces(v, w - s.len());
    }
    proof { assert(v@ =~= old(v)@ + pad_right(s@, w as nat)); }
}

/// Appends `s` padded on the left to width `w`.
fn push_pad_left(v: &mut Vec<char>, s: &[char], w: usize)
    ensures
        final(v)@ == old(v)@ + pad_left(s@, w as nat),
{
    if s.len() < w {
        push_spaces(v, w - s.len());
    }
    push_chars(v, s);
    proof { assert(v@ =~= old(v)@ + pad_left(s@, w as nat)); }
}

/// The search-time label for a hex word of the given length.
fn difficulty_of(len: usize) -> (d: Vec<char>)
    ensures
        d@ == difficulty(len as nat),
{
    let mut d: Vec<char> = Vec::new();
    if len <= 3 {
        push_chars(&mut d, &['i', 'n', 's', 't', 'a', 'n', 't']);
    } else if len == 4 {
        push_chars(&mut d, &['<', ' ', '1', 's']);
    } else if len == 5 {
        push_chars(&mut d, &['~', ' ', '2', 's']);
    } else if len == 6 {
        push_chars(&mut d, &['~', ' ', '5', 's']);
    } else {
        push_chars(&mut d, &['~', ' ', '3', '0', 's', '+']);
    }
    proof { assert(d@ =~= difficulty(len as nat)); }
    d
}

/// Format all presets for display: one line per preset with name, hex
/// word, search-time label and description, in aligned columns.
pub fn list() -> (s: String)
    ensures
        s@ == spec_list(),
{
    let ps = presets();
    let ghost views = ps@.map_values(|p: Preset| p@);
    let mut wn: usize = 0;
    let mut wh: usize = 0;
    let mut i: usize = 0;
    while i < ps.len()
        invariant
            i <= ps.len(),
            views == ps@.map_values(|p: Preset| p@),
            wn as nat == max_name_len(views.take(i as int)),
            wh as nat == max_hex_len(views.take(i as int)),
        decreases ps.len() - i,
    {
        let n = str_chars(ps[i].name);
        let h = str_chars(ps[i].hex);
        proof {
            assert(views.take(i + 1).drop_last() =~= views.take(i as int));
            assert(views.take(i + 1).last() == ps@[i as int]@);
        }
        if n.len() > wn {
            wn = n.len();
        }
        if h.len() > wh {
            wh = h.len();
        }
        i += 1;
    }
    proof { assert(views.take(ps@.len() as int) =~= views); }
    let ghost lines = Seq::new(views.len(), |k: int| preset_line(views[k], wn as nat, wh as nat));
    let mut out: Vec<char> = Vec::new();
    let mut j: usize = 0;
    while j < ps.len()
        invariant
            j <= ps.len(),
            views == ps@.map_values(|p: Preset| p@),
            lines == Seq::new(views.len(), |k: int| preset_line(views[k], wn as nat, wh as nat)),
            out@ == join_newline(lines.take(j as int)),
        decreases ps.len() - j,
    {
        let ghost before = out@;
        if j > 0 {
            out.push('\n');
        }
        let p = ps[j];
        push_chars(&mut out, &[' ', ' ']);
        let n = str_chars(p.name);
        push_pad_right(&mut out, &n, wn);
        push_chars(&mut out, &[' ', ' ']);
        let h = str_chars(p.hex);
        push_pad_right(&mut out, &h, wh);
        push_chars(&mut out, &[' ', ' ']);
        let d = difficulty_of(h.len());
        push_pad_left(&mut out, &d, 8);
        push_chars(&mut out, &[' ', ' ']);
        let desc = str_chars(p.description);
        push_chars(&mut out, &desc);
        proof {
            assert(views[j as int] == p@);
            let line = preset_line(views[j as int], wn as nat, wh as nat);
            assert(lines[j as int] == line);
            assert(lines.take(j + 1).drop_last() =~= lines.take(j as int));
            assert(lines.take(j + 1).last() == line);
            if j == 0 {
                assert(out@ =~= line);
                assert(lines.take(1) =~= seq![line]);
            } else {
                assert(out@ =~= before + seq!['\n'] + line);
            }
        }
        j += 1;
    }
    proof { assert(lines.take(ps@.len() as int) =~= lines); }
    string_from_chars(&out)
}

} // verus!
