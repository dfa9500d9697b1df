//! Parse and reconstruct Git commit objects.
//!
//! A commit object looks like:
//! ```text
//! tree <hash>\n
//! parent <hash>\n          (0 or more)
//! author <name> <email> <timestamp> <tz>\n
//! committer <name> <email> <timestamp> <tz>\n
//! [gpgsig <sig>]\n         (optional, multiline)
//! [other-header value]\n   (optional)
//! \n
//! <commit message>
//! ```

use vstd::prelude::*;
use vstd::utf8::encode_utf8;
use crate::text::{
    chars_range, chars_start_with, lemma_encode_ascii, lemma_encode_concat, push_all, starts_with,
    str_chars, string_from_chars,
};

verus! {

/// A commit object split into its header lines and its message.
#[derive(Debug, Clone)]
pub struct CommitObject {
    /// Raw header lines (everything before the blank line), without any
    /// signature or nonce header.
    pub header_lines: Vec<String>,
    /// Commit message (everything after the blank line).
    pub message: String,
    /// Whether this commit had a gpgsig header.
    pub had_signature: bool,
}

/// The mathematical content of a commit object.
pub struct CommitView {
    pub header_lines: Seq<Seq<char>>,
    pub message: Seq<char>,
    pub had_signature: bool,
}

impl View for CommitObject {
    type V = CommitView;

    open spec fn view(&self) -> CommitView {
        CommitView {
            header_lines: self.header_lines@.map_values(|l: String| l@),
            message: self.message@,
            had_signature: self.had_signature,
        }
    }
}

/// The header key that starts a GPG signature.
pub open spec fn gpgsig_key() -> Seq<char> {
    seq!['g', 'p', 'g', 's', 'i', 'g', ' ']
}

/// The header key of the nonce header.
pub open spec fn nonce_key() -> Seq<char> {
    seq!['x', '-', 'n', 'o', 'n', 'c', 'e', ' ']
}

/// A continuation line of a multi-line header value.
pub open spec fn is_continuation(line: Seq<char>) -> bool {
    line.len() > 0 && (line[0] == ' ' || line[0] == '\t')
}

/// The first position at or after `i` where two newlines follow each other.
pub open spec fn find_blank(s: Seq<char>, i: nat) -> Option<nat>
    decreases s.len() - i,
{
    if i + 1 >= s.len() {
        None
    } else if s[i as int] == '\n' && s[i + 1int] == '\n' {
        Some(i)
    } else {
        find_blank(s, i + 1)
    }
}

/// A blank line found from `i` on lies at or after `i`, inside `s`.
pub proof fn lemma_find_blank_bounds(s: Seq<char>, i: nat)
    ensures
        find_blank(s, i) matches Some(p) ==> i <= p && p + 1 < s.len() && s[p as int] == '\n'
            && s[p + 1int] == '\n',
    decreases s.len() - i,
{
    if i + 1 < s.len() && !(s[i as int] == '\n' && s[i + 1int] == '\n') {
        lemma_find_blank_bounds(s, i + 1);
    }
}


/// The header text of the given lines: each line followed by a newline.
pub open spec fn join_lines(lines: Seq<Seq<char>>) -> Seq<char>
    decreases lines.len(),
{
    if lines.len() == 0 {
        Seq::empty()
    } else {
        join_lines(lines.drop_last()) + lines.last() + seq!['\n']
    }
}

/// The text of a commit object with the given header lines, a nonce header
/// with the given value, and the given message.
pub open spec fn commit_text(lines: Seq<Seq<char>>, nonce: Seq<char>, message: Seq<char>) -> Seq<char> {
    join_lines(lines) + nonce_key() + nonce + seq!['\n', '\n'] + message
}

/// The bytes of a commit object with the given header lines, nonce bytes and
/// message: the UTF-8 encoding of `commit_text`, with the nonce bytes in place
/// of the nonce text.
pub open spec fn commit_bytes(lines: Seq<Seq<char>>, nonce: Seq<u8>, message: Seq<char>) -> Seq<u8> {
    encode_utf8(join_lines(lines) + nonce_key()) + nonce + encode_utf8(seq!['\n', '\n'] + message)
}

/// The bytes of header lines: each line's UTF-8 bytes followed by a newline
/// byte, in order.
pub open spec fn lines_bytes(lines: Seq<Seq<char>>) -> Seq<u8>
    decreases lines.len(),
{
    if lines.len() == 0 {
        Seq::empty()
    } else {
        lines_bytes(lines.drop_last()) + encode_utf8(lines.last()) + seq![0x0Au8]
    }
}

/// The rebuilt commit content, byte by byte: every header line's bytes and a
/// newline, then `x-nonce `, the nonce bytes, a blank line and the message's
/// bytes.
pub proof fn lemma_commit_bytes_concat(lines: Seq<Seq<char>>, nonce: Seq<u8>, message: Seq<char>)
    ensures
        commit_bytes(lines, nonce, message) == lines_bytes(lines) + seq![
            0x78u8, 0x2Du8, 0x6Eu8, 0x6Fu8, 0x6Eu8, 0x63u8, 0x65u8, 0x20u8,
        ] + nonce + seq![0x0Au8, 0x0Au8] + encode_utf8(message),
{
    lemma_join_bytes(lines);
    lemma_encode_concat(join_lines(lines), nonce_key());
    lemma_encode_ascii(nonce_key());
    assert(encode_utf8(nonce_key()) =~= seq![0x78u8, 0x2Du8, 0x6Eu8, 0x6Fu8, 0x6Eu8, 0x63u8, 0x65u8, 0x20u8]);
    lemma_encode_concat(seq!['\n', '\n'], message);
    lemma_encode_ascii(seq!['\n', '\n']);
    assert(encode_utf8(seq!['\n', '\n']) =~= seq![0x0Au8, 0x0Au8]);
    assert(commit_bytes(lines, nonce, message) =~= lines_bytes(lines) + seq![
        0x78u8, 0x2Du8, 0x6Eu8, 0x6Fu8, 0x6Eu8, 0x63u8, 0x65u8, 0x20u8,
    ] + nonce + seq![0x0Au8, 0x0Au8] + encode_utf8(message));
}

/// The UTF-8 bytes of the header text are the lines' bytes, each followed by
/// a newline byte.
proof fn lemma_join_bytes(lines: Seq<Seq<char>>)
    ensures
        encode_utf8(join_lines(lines)) == lines_bytes(lines),
    decreases lines.len(),
{
    if lines.len() == 0 {
        assert(encode_utf8(Seq::<char>::empty()) =~= Seq::<u8>::empty());
    } else {
        let t = lines.drop_last();
        lemma_join_bytes(t);
        lemma_encode_concat(join_lines(t), lines.last());
        lemma_encode_concat(join_lines(t) + lines.last(), seq!['\n']);
        lemma_encode_ascii(seq!['\n']);
        assert(encode_utf8(seq!['\n']) =~= seq![0x0Au8]);
    }
}

/// No two newlines follow each other in `s`.
pub open spec fn no_blank(s: Seq<char>) -> bool {
    forall|q: int| 0 <= q && q + 1 < s.len() ==> !(#[trigger] s[q] == '\n' && s[q + 1] == '\n')
}

/// Header lines as a parse leaves them: no line holds a newline, only the
/// first line may be empty, and none is a signature or nonce header.
pub open spec fn clean_lines(lines: Seq<Seq<char>>) -> bool {
    forall|k: int|
        0 <= k < lines.len() ==> {
            &&& !(#[trigger] lines[k]).contains('\n')
            &&& (k >= 1 ==> lines[k].len() > 0)
            &&& !starts_with(lines[k], gpgsig_key())
            &&& !starts_with(lines[k], nonce_key())
        }
}

/// Before the first blank line found from `i`, there is none.
proof fn lemma_find_blank_first(s: Seq<char>, i: nat)
    ensures
        find_blank(s, i) matches Some(p) ==> forall|q: int|
            i <= q < p ==> !(#[trigger] s[q] == '\n' && s[q + 1] == '\n'),
    decreases s.len() - i,
{
    if i + 1 < s.len() && !(s[i as int] == '\n' && s[i + 1int] == '\n') {
        lemma_find_blank_first(s, i + 1);
    }
}

/// A blank line at `p` with none before it is what `find_blank` finds.
proof fn lemma_find_blank_at(s: Seq<char>, i: nat, p: nat)
    requires
        i <= p,
        p + 1 < s.len(),
        s[p as int] == '\n' && s[p + 1int] == '\n',
        forall|q: int| i <= q < p ==> !(#[trigger] s[q] == '\n' && s[q + 1] == '\n'),
    ensures
        find_blank(s, i) == Some(p),
    decreases p - i,
{
    if i < p {
        lemma_find_blank_at(s, i + 1, p);
    }
}

/// Splitting always gives at least one line, and no line holds a newline;
/// the last line is empty exactly when the text is empty or ends in a newline.
pub(crate) proof fn lemma_split_lines_shape(s: Seq<char>)
    ensures
        split_lines(s).len() >= 1,
        forall|k: int| 0 <= k < split_lines(s).len() ==> !(#[trigger] split_lines(s)[k]).contains('\n'),
        (s.len() > 0 && s.last() != '\n') ==> split_lines(s).last().len() > 0,
        no_blank(s) ==> forall|k: int| 1 <= k < split_lines(s).len() - 1 ==> (#[trigger] split_lines(s)[k]).len() > 0,
    decreases s.len(),
{
    if s.len() > 0 {
        let t = s.drop_last();
        lemma_split_lines_shape(t);
        let r = split_lines(t);
        if s.last() == '\n' {
            assert forall|k: int| 0 <= k < split_lines(s).len() implies !(#[trigger] split_lines(s)[k]).contains('\n') by {
                if k < r.len() {
                    assert(split_lines(s)[k] == r[k]);
                } else {
                    assert(split_lines(s)[k] =~= Seq::<char>::empty());
                }
            }
            if no_blank(s) {
                assert(no_blank(t)) by {
                    assert forall|q: int| 0 <= q && q + 1 < t.len() implies !(#[trigger] t[q] == '\n' && t[q + 1] == '\n') by {
                        assert(t[q] == s[q] && t[q + 1] == s[q + 1]);
                    }
                }
                if t.len() > 0 {
                    assert(t.last() != '\n') by {
                        assert(s[t.len() - 1] == t.last());
                        assert(s[t.len() as int] == '\n');
                    }
                }
                assert forall|k: int| 1 <= k < split_lines(s).len() - 1 implies (#[trigger] split_lines(s)[k]).len() > 0 by {
                    assert(split_lines(s)[k] == r[k]);
                }
            }
        } else {
            let last = r.last().push(s.last());
            assert forall|k: int| 0 <= k < split_lines(s).len() implies !(#[trigger] split_lines(s)[k]).contains('\n') by {
                if k < r.len() - 1 {
                    assert(split_lines(s)[k] == r[k]);
                } else {
                    assert(split_lines(s)[k] == last);
                    if last.contains('\n') {
                        let j = choose|j: int| 0 <= j < last.len() && last[j] == '\n';
                        if j < r.last().len() {
                            assert(r.last()[j] == '\n');
                            assert(r.last().contains('\n'));
                        }
                    }
                }
            }
            if no_blank(s) {
                assert(no_blank(t)) by {
                    assert forall|q: int| 0 <= q && q + 1 < t.len() implies !(#[trigger] t[q] == '\n' && t[q + 1] == '\n') by {
                        assert(t[q] == s[q] && t[q + 1] == s[q + 1]);
                    }
                }
                assert forall|k: int| 1 <= k < split_lines(s).len() - 1 implies (#[trigger] split_lines(s)[k]).len() > 0 by {
                    assert(split_lines(s)[k] == r[k]);
                }
            }
        }
    }
}

/// The scan keeps only lines of its input, in order, and never a signature
/// or nonce header; when the input lines hold no newline and only the first
/// may be empty, the kept lines are clean.
proof fn lemma_scan_clean(lines: Seq<Seq<char>>)
    requires
        forall|k: int| 0 <= k < lines.len() ==> !(#[trigger] lines[k]).contains('\n'),
        forall|k: int| 1 <= k < lines.len() ==> (#[trigger] lines[k]).len() > 0,
    ensures
        clean_lines(scan_lines(lines).kept),
        scan_lines(lines).kept.len() <= lines.len(),
    decreases lines.len(),
{
    if lines.len() > 0 {
        let t = lines.drop_last();
        assert forall|k: int| 0 <= k < t.len() implies !(#[trigger] t[k]).contains('\n') by {
            assert(t[k] == lines[k]);
        }
        assert forall|k: int| 1 <= k < t.len() implies (#[trigger] t[k]).len() > 0 by {
            assert(t[k] == lines[k]);
        }
        lemma_scan_clean(t);
        let before = scan_lines(t).kept;
        let after = scan_lines(lines).kept;
        if after.len() != before.len() {
            assert(after == before.push(lines.last()));
            assert forall|k: int| 0 <= k < after.len() implies {
                &&& !(#[trigger] after[k]).contains('\n')
                &&& (k >= 1 ==> after[k].len() > 0)
                &&& !starts_with(after[k], gpgsig_key())
                &&& !starts_with(after[k], nonce_key())
            } by {
                if k < before.len() {
                    assert(after[k] == before[k]);
                } else {
                    assert(after[k] == lines[lines.len() - 1]);
                }
            }
        }
    }
}

/// Concatenation keeps "no two newlines in a row" when the seam has none.
proof fn lemma_no_blank_concat(a: Seq<char>, b: Seq<char>)
    requires
        no_blank(a),
        no_blank(b),
        !(a.len() > 0 && b.len() > 0 && a.last() == '\n' && b[0] == '\n'),
    ensures
        no_blank(a + b),
{
    let s = a + b;
    assert forall|q: int| 0 <= q && q + 1 < s.len() implies !(#[trigger] s[q] == '\n' && s[q + 1] == '\n') by {
        if q + 1 < a.len() {
            assert(s[q] == a[q] && s[q + 1] == a[q + 1]);
        } else if q >= a.len() {
            assert(s[q] == b[q - a.len()] && s[q + 1] == b[q + 1 - a.len()]);
        } else {
            assert(s[q] == a.last() && s[q + 1] == b[0]);
        }
    }
}

/// The header text of clean lines has no two newlines in a row, and ends in
/// a newline unless it is empty.
proof fn lemma_join_shape(lines: Seq<Seq<char>>)
    requires
        clean_lines(lines),
    ensures
        no_blank(join_lines(lines)),
        join_lines(lines).len() > 0 ==> join_lines(lines).last() == '\n',
        lines.len() > 0 ==> join_lines(lines).len() > 0,
    decreases lines.len(),
{
    if lines.len() > 0 {
        let t = lines.drop_last();
        assert(clean_lines(t)) by {
            assert forall|k: int| 0 <= k < t.len() implies {
                &&& !(#[trigger] t[k]).contains('\n')
                &&& (k >= 1 ==> t[k].len() > 0)
                &&& !starts_with(t[k], gpgsig_key())
                &&& !starts_with(t[k], nonce_key())
            } by {
                assert(t[k] == lines[k]);
            }
        }
        lemma_join_shape(t);
        let l = lines.last();
        assert(!l.contains('\n')) by {
            assert(lines[lines.len() - 1] == l);
        }
        assert(no_blank(l)) by {
            assert forall|q: int| 0 <= q && q + 1 < l.len() implies !(#[trigger] l[q] == '\n' && l[q + 1] == '\n') by {
                if l[q] == '\n' {
                    assert(l.contains('\n'));
                }
            }
        }
        if join_lines(t).len() > 0 && l.len() > 0 && l[0] == '\n' {
            assert(l.contains('\n'));
        }
        if join_lines(t).len() > 0 && l.len() == 0 {
            assert(t.len() > 0);
            assert(lines[lines.len() - 1].len() > 0);
        }
        lemma_no_blank_concat(join_lines(t), l);
        let nl = seq!['\n'];
        assert(no_blank(nl));
        if l.len() > 0 {
            assert((join_lines(t) + l).last() == l.last());
            if l.last() == '\n' {
                assert(l[l.len() - 1] == '\n');
                assert(l.contains('\n'));
            }
        }
        lemma_no_blank_concat(join_lines(t) + l, nl);
    }
}

/// Appending characters without a newline extends the last line.
proof fn lemma_split_append_word(s: Seq<char>, w: Seq<char>)
    requires
        !w.contains('\n'),
    ensures
        split_lines(s + w) == split_lines(s).update(split_lines(s).len() - 1, split_lines(s).last() + w),
    decreases w.len(),
{
    lemma_split_lines_shape(s);
    if w.len() == 0 {
        assert(s + w =~= s);
        assert(split_lines(s).last() + w =~= split_lines(s).last());
        assert(split_lines(s).update(split_lines(s).len() - 1, split_lines(s).last() + w) =~= split_lines(s));
    } else {
        let v = w.drop_last();
        assert(!v.contains('\n')) by {
            if v.contains('\n') {
                let j = choose|j: int| 0 <= j < v.len() && v[j] == '\n';
                assert(w[j] == '\n');
            }
        }
        lemma_split_append_word(s, v);
        assert((s + w).drop_last() =~= s + v);
        assert((s + w).last() == w.last());
        assert(w.last() != '\n') by {
            assert(w[w.len() - 1] == w.last());
        }
        let r = split_lines(s);
        let rv = r.update(r.len() - 1, r.last() + v);
        assert(split_lines(s + w) == rv.update(rv.len() - 1, rv.last().push(w.last())));
        assert(rv.last().push(w.last()) =~= r.last() + w);
        assert(rv.update(rv.len() - 1, rv.last().push(w.last())) =~= r.update(r.len() - 1, r.last() + w));
    }
}

/// Splitting the header text of lines followed by a word gives the lines and
/// then the word.
proof fn lemma_split_join(lines: Seq<Seq<char>>, w: Seq<char>)
    requires
        forall|k: int| 0 <= k < lines.len() ==> !(#[trigger] lines[k]).contains('\n'),
        !w.contains('\n'),
    ensures
        split_lines(join_lines(lines) + w) == lines.push(w),
    decreases lines.len(),
{
    if lines.len() == 0 {
        assert(join_lines(lines) + w =~= Seq::<char>::empty() + w);
        lemma_split_append_word(Seq::<char>::empty(), w);
        assert(split_lines(Seq::<char>::empty()) =~= seq![Seq::<char>::empty()]);
        assert(Seq::<char>::empty() + w =~= w);
        assert(seq![Seq::<char>::empty()].update(0, Seq::<char>::empty() + w) =~= lines.push(w));
    } else {
        let t = lines.drop_last();
        let l = lines.last();
        assert forall|k: int| 0 <= k < t.len() implies !(#[trigger] t[k]).contains('\n') by {
            assert(t[k] == lines[k]);
        }
        assert(!l.contains('\n')) by {
            assert(lines[lines.len() - 1] == l);
        }
        lemma_split_join(t, Seq::<char>::empty());
        assert(join_lines(t) + Seq::<char>::empty() =~= join_lines(t));
        // split(join(t) + l) = t.push(l)
        lemma_split_append_word(join_lines(t), l);
        let r0 = split_lines(join_lines(t));
        assert(r0 == t.push(Seq::<char>::empty()));
        assert(r0.last() + l =~= l);
        assert(r0.update(r0.len() - 1, r0.last() + l) =~= lines);
        // one newline more
        let jl = join_lines(t) + l;
        let j = join_lines(lines);
        assert(j =~= jl + seq!['\n']);
        assert(j.drop_last() =~= jl);
        assert(j.last() == '\n');
        assert(split_lines(j) == lines.push(Seq::<char>::empty()));
        lemma_split_append_word(j, w);
        let r1 = split_lines(j);
        assert(r1.last() + w =~= w);
        assert(r1.update(r1.len() - 1, r1.last() + w) =~= lines.push(w));
    }
}

/// Scanning clean lines keeps all of them and sees no signature.
proof fn lemma_scan_keeps_clean(lines: Seq<Seq<char>>)
    requires
        clean_lines(lines),
    ensures
        scan_lines(lines) == (HeaderScan { kept: lines, had_signature: false, in_signature: false }),
    decreases lines.len(),
{
    if lines.len() > 0 {
        let t = lines.drop_last();
        assert(clean_lines(t)) by {
            assert forall|k: int| 0 <= k < t.len() implies {
                &&& !(#[trigger] t[k]).contains('\n')
                &&& (k >= 1 ==> t[k].len() > 0)
                &&& !starts_with(t[k], gpgsig_key())
                &&& !starts_with(t[k], nonce_key())
            } by {
                assert(t[k] == lines[k]);
            }
        }
        lemma_scan_keeps_clean(t);
        let l = lines[lines.len() - 1];
        assert(l == lines.last());
        assert(!starts_with(l, gpgsig_key()) && !starts_with(l, nonce_key()));
        assert(t.push(lines.last()) =~= lines);
    } else {
        assert(lines =~= Seq::<Seq<char>>::empty());
    }
}

/// The parsed header lines are clean.
pub proof fn lemma_parse_clean(raw: Seq<char>)
    requires
        spec_parse_commit(raw) is Some,
    ensures
        clean_lines(spec_parse_commit(raw).unwrap().header_lines),
{
    let p = find_blank(raw, 0).unwrap();
    lemma_find_blank_bounds(raw, 0);
    lemma_find_blank_first(raw, 0);
    let h = raw.take(p as int);
    assert(no_blank(h)) by {
        assert forall|q: int| 0 <= q && q + 1 < h.len() implies !(#[trigger] h[q] == '\n' && h[q + 1] == '\n') by {
            assert(h[q] == raw[q] && h[q + 1] == raw[q + 1]);
        }
    }
    if h.len() > 0 {
        assert(h.last() != '\n') by {
            assert(h.last() == raw[p - 1]);
            assert(raw[p as int] == '\n');
        }
    }
    lemma_split_lines_shape(h);
    let lines = split_lines(h);
    assert forall|k: int| 1 <= k < lines.len() implies (#[trigger] lines[k]).len() > 0 by {
        if k == lines.len() - 1 {
            assert(lines[k] == lines.last());
        }
    }
    lemma_scan_clean(lines);
}

/// Nonce invisibility: adding a nonce header (with any value without a
/// newline) to a parsed commit and parsing the result gives back the same
/// header lines and the same message, with no signature.
pub proof fn lemma_nonce_roundtrip(raw: Seq<char>, nonce: Seq<char>)
    requires
        spec_parse_commit(raw) is Some,
        !nonce.contains('\n'),
    ensures
        ({
            let c = spec_parse_commit(raw).unwrap();
            spec_parse_commit(commit_text(c.header_lines, nonce, c.message)) == Some(CommitView {
                header_lines: c.header_lines,
                message: c.message,
                had_signature: false,
            })
        }),
{
    let c = spec_parse_commit(raw).unwrap();
    lemma_parse_clean(raw);
    lemma_rewrite_parse(c.header_lines, nonce, c.message);
}

/// Parsing a commit text rebuilt from clean header lines, a nonce header
/// (any value without a newline) and a message gives back those lines and
/// that message, with no signature.
pub proof fn lemma_rewrite_parse(k: Seq<Seq<char>>, nonce: Seq<char>, message: Seq<char>)
    requires
        clean_lines(k),
        !nonce.contains('\n'),
    ensures
        spec_parse_commit(commit_text(k, nonce, message)) == Some(CommitView {
            header_lines: k,
            message: message,
            had_signature: false,
        }),
{
    lemma_join_shape(k);
    let j = join_lines(k);
    let w = nonce_key() + nonce;
    let u = j + w;
    let t = commit_text(k, nonce, message);
    assert(t =~= u + seq!['\n', '\n'] + message);
    assert(!w.contains('\n')) by {
        if w.contains('\n') {
            let i = choose|i: int| 0 <= i < w.len() && w[i] == '\n';
            if i >= 8 {
                assert(nonce[i - 8] == '\n');
            }
        }
    }
    assert(no_blank(w)) by {
        assert forall|q: int| 0 <= q && q + 1 < w.len() implies !(#[trigger] w[q] == '\n' && w[q + 1] == '\n') by {
            if w[q] == '\n' {
                assert(w.contains('\n'));
            }
        }
    }
    assert(w[0] == 'x');
    lemma_no_blank_concat(j, w);
    let p = u.len();
    assert(u.last() != '\n') by {
        assert(u.last() == w[w.len() - 1]);
        if w[w.len() - 1] == '\n' {
            assert(w.contains('\n'));
        }
    }
    assert forall|q: int| 0 <= q < p implies !(#[trigger] t[q] == '\n' && t[q + 1] == '\n') by {
        if q + 1 < p {
            assert(t[q] == u[q] && t[q + 1] == u[q + 1]);
        } else {
            assert(t[q] == u.last());
        }
    }
    lemma_find_blank_at(t, 0, p);
    assert(t.take(p as int) =~= u);
    assert(t.skip(p + 2int) =~= message);
    assert forall|i: int| 0 <= i < k.len() implies !(#[trigger] k[i]).contains('\n') by {}
    lemma_split_join(k, w);
    lemma_scan_keeps_clean(k);
    assert(!starts_with(w, gpgsig_key())) by {
        assert(w.take(7)[0] == 'x');
        assert(gpgsig_key()[0] == 'g');
    }
    assert(starts_with(w, nonce_key())) by {
        assert(w.take(8) =~= nonce_key());
    }
    assert(k.push(w).drop_last() =~= k);
}

/// `s` split at every newline (a string without newlines is one line).
pub open spec fn split_lines(s: Seq<char>) -> Seq<Seq<char>>
    decreases s.len(),
{
    if s.len() == 0 {
        seq![Seq::<char>::empty()]
    } else {
        let r = split_lines(s.drop_last());
        if s.last() == '\n' {
            r.push(Seq::<char>::empty())
        } else {
            r.update(r.len() - 1, r.last().push(s.last()))
        }
    }
}

/// Where the header scan stands after some lines: the lines kept so far,
/// whether a signature was seen, and whether the scan is inside one.
pub struct HeaderScan {
    pub kept: Seq<Seq<char>>,
    pub had_signature: bool,
    pub in_signature: bool,
}

/// One step of the header scan: signature continuation lines, the signature
/// header and nonce headers are dropped; every other line is kept.
pub open spec fn scan_step(acc: HeaderScan, line: Seq<char>) -> HeaderScan {
    if acc.in_signature && is_continuation(line) {
        acc
    } else if starts_with(line, gpgsig_key()) {
        HeaderScan { kept: acc.kept, had_signature: true, in_signature: true }
    } else if starts_with(line, nonce_key()) {
        HeaderScan { kept: acc.kept, had_signature: acc.had_signature, in_signature: false }
    } else {
        HeaderScan { kept: acc.kept.push(line), had_signature: acc.had_signature, in_signature: false }
    }
}

/// The header scan over a sequence of lines, from the first one on.
pub open spec fn scan_lines(lines: Seq<Seq<char>>) -> HeaderScan
    decreases lines.len(),
{
    if lines.len() == 0 {
        HeaderScan { kept: Seq::empty(), had_signature: false, in_signature: false }
    } else {
        scan_step(scan_lines(lines.drop_last()), lines.last())
    }
}

/// The parsed commit, or `None` where no blank line ends the header.
pub open spec fn spec_parse_commit(raw: Seq<char>) -> Option<CommitView> {
    match find_blank(raw, 0) {
        None => None,
        Some(p) => {
            let scan = scan_lines(split_lines(raw.take(p as int)));
            Some(CommitView {
                header_lines: scan.kept,
                message: raw.skip(p + 2int),
                had_signature: scan.had_signature,
            })
        },
    }
}

/// Some line begins with the signature key.
pub open spec fn has_signature_line(lines: Seq<Seq<char>>) -> bool {
    exists|k: int| 0 <= k < lines.len() && starts_with(#[trigger] lines[k], gpgsig_key())
}

/// The header scan sees a signature exactly when some line begins with the
/// signature key (a continuation line never does).
proof fn lemma_scan_signature(lines: Seq<Seq<char>>)
    ensures
        scan_lines(lines).had_signature <==> has_signature_line(lines),
    decreases lines.len(),
{
    if lines.len() > 0 {
        let t = lines.drop_last();
        let l = lines.last();
        lemma_scan_signature(t);
        assert(lines[lines.len() - 1] == l);
        if has_signature_line(t) {
            let k = choose|k: int| 0 <= k < t.len() && starts_with(#[trigger] t[k], gpgsig_key());
            assert(lines[k] == t[k]);
        }
        if has_signature_line(lines) {
            let k = choose|k: int| 0 <= k < lines.len() && starts_with(#[trigger] lines[k], gpgsig_key());
            if k < lines.len() - 1 {
                assert(t[k] == lines[k]);
            }
        }
        if starts_with(l, gpgsig_key()) {
            assert(l.take(7)[0] == l[0]);
            assert(l[0] == 'g');
            assert(!is_continuation(l));
        }
        if starts_with(l, nonce_key()) && starts_with(l, gpgsig_key()) {
            assert(l.take(8)[0] == l[0]);
            assert(l.take(7)[0] == l[0]);
        }
    }
}

/// The signature flag of a parse: set exactly when some line of the header
/// (the text before the first blank line) begins with `gpgsig `.
pub proof fn lemma_parse_signature(raw: Seq<char>)
    requires
        spec_parse_commit(raw) is Some,
    ensures
        spec_parse_commit(raw).unwrap().had_signature <==> has_signature_line(
            split_lines(raw.take(find_blank(raw, 0).unwrap() as int)),
        ),
{
    lemma_scan_signature(split_lines(raw.take(find_blank(raw, 0).unwrap() as int)));
}

/// No blank line from `i` on is found only when there is none.
proof fn lemma_find_blank_none(s: Seq<char>, i: nat)
    ensures
        find_blank(s, i) is None <==> forall|q: int| i <= q && q + 1 < s.len() ==> !(#[trigger] s[q] == '\n' && s[q + 1] == '\n'),
    decreases s.len() - i,
{
    lemma_find_blank_bounds(s, i);
    if i + 1 < s.len() && !(s[i as int] == '\n' && s[i + 1int] == '\n') {
        lemma_find_blank_none(s, i + 1);
    }
}

/// The header is inside a signature when line `k` comes: some earlier line
/// begins with `gpgsig `, and every line after it up to `k` continues it.
pub open spec fn in_signature_before(lines: Seq<Seq<char>>, k: int) -> bool {
    exists|j: int| 0 <= j < k && starts_with(#[trigger] lines[j], gpgsig_key()) && forall|m: int|
        j < m < k ==> is_continuation(#[trigger] lines[m])
}

/// Whether the parse keeps header line `k`: it is neither a `gpgsig ` nor an
/// `x-nonce ` line, nor a continuation line of a signature.
pub open spec fn line_kept(lines: Seq<Seq<char>>, k: int) -> bool {
    &&& !starts_with(lines[k], gpgsig_key())
    &&& !starts_with(lines[k], nonce_key())
    &&& !(in_signature_before(lines, k) && is_continuation(lines[k]))
}

/// The first `n` header lines that the parse keeps, in order.
pub open spec fn kept_lines(lines: Seq<Seq<char>>, n: nat) -> Seq<Seq<char>>
    decreases n,
{
    if n == 0 {
        Seq::empty()
    } else if line_kept(lines, n - 1) {
        kept_lines(lines, (n - 1) as nat).push(lines[n - 1])
    } else {
        kept_lines(lines, (n - 1) as nat)
    }
}

/// The header scan over the first `n` lines keeps exactly the lines the
/// parse keeps, and is inside a signature exactly when one is open.
proof fn lemma_scan_prefix(lines: Seq<Seq<char>>, n: nat)
    requires
        n <= lines.len(),
    ensures
        scan_lines(lines.take(n as int)).kept == kept_lines(lines, n),
        scan_lines(lines.take(n as int)).in_signature == in_signature_before(lines, n as int),
    decreases n,
{
    if n > 0 {
        let k = n - 1;
        lemma_scan_prefix(lines, k as nat);
        assert(lines.take(n as int).drop_last() =~= lines.take(k));
        assert(lines.take(n as int).last() == lines[k]);
        let l = lines[k];
        if starts_with(l, gpgsig_key()) {
            assert(l.take(7)[0] == l[0]);
            assert(!is_continuation(l));
            assert(starts_with(lines[k], gpgsig_key()));
            assert(in_signature_before(lines, n as int));
        }
        if starts_with(l, nonce_key()) {
            assert(l.take(8)[0] == l[0]);
            assert(l.take(7)[0] == l[0]);
            assert(!starts_with(l, gpgsig_key()));
        }
        if in_signature_before(lines, k) && is_continuation(l) {
            let j = choose|j: int| 0 <= j < k && starts_with(#[trigger] lines[j], gpgsig_key()) && forall|m: int|
                j < m < k ==> is_continuation(#[trigger] lines[m]);
            assert forall|m: int| j < m < n implies is_continuation(#[trigger] lines[m]) by {
                if m == k {
                    assert(lines[m] == l);
                }
            }
            assert(in_signature_before(lines, n as int));
        }
        if in_signature_before(lines, n as int) {
            let j = choose|j: int| 0 <= j < n && starts_with(#[trigger] lines[j], gpgsig_key()) && forall|m: int|
                j < m < n ==> is_continuation(#[trigger] lines[m]);
            if j < k {
                assert(is_continuation(lines[k]));
                assert forall|m: int| j < m < k implies is_continuation(#[trigger] lines[m]) by {}
                assert(in_signature_before(lines, k));
            }
        }
    } else {
        assert(lines.take(0) =~= Seq::<Seq<char>>::empty());
        assert(!in_signature_before(lines, 0));
    }
}

/// What a parse gives, line by line. It fails exactly when no two newlines
/// follow each other. Otherwise, with `p` the first place of two newlines:
/// the message is everything after them; the header lines are the lines of
/// the text before `p` (split at newlines) without the `gpgsig ` and
/// `x-nonce ` lines and the continuation lines of a signature, in order; and
/// the signature flag is set exactly when some of those lines begins with
/// `gpgsig `.
pub proof fn lemma_parse_law(raw: Seq<char>)
    ensures
        spec_parse_commit(raw) is None <==> forall|q: int| 0 <= q && q + 1 < raw.len() ==> !(#[trigger] raw[q] == '\n'
            && raw[q + 1] == '\n'),
        spec_parse_commit(raw) matches Some(c) ==> ({
            let p = find_blank(raw, 0).unwrap() as int;
            let lines = split_lines(raw.take(p));
            &&& p + 1 < raw.len() && raw[p] == '\n' && raw[p + 1] == '\n'
            &&& forall|q: int| 0 <= q < p ==> !(#[trigger] raw[q] == '\n' && raw[q + 1] == '\n')
            &&& c.message == raw.skip(p + 2)
            &&& c.header_lines == kept_lines(lines, lines.len())
            &&& c.had_signature == has_signature_line(lines)
        }),
{
    lemma_find_blank_none(raw, 0);
    lemma_find_blank_bounds(raw, 0);
    lemma_find_blank_first(raw, 0);
    if let Some(p) = find_blank(raw, 0) {
        let lines = split_lines(raw.take(p as int));
        lemma_scan_prefix(lines, lines.len());
        assert(lines.take(lines.len() as int) =~= lines);
        lemma_parse_signature(raw);
    }
}

/// The error text for a commit object without a blank line.
pub open spec fn no_blank_line_error() -> Seq<char> {
    "Invalid commit object: no blank line separating header and message"@
}

/// The first blank line of `s`, as `find_blank` gives it.
pub(crate) fn find_blank_exec(s: &[char]) -> (r: Option<usize>)
    ensures
        match find_blank(s@, 0) {
            None => r is None,
            Some(p) => r == Some(p as usize),
        },
{
    let mut i: usize = 0;
    proof { lemma_find_blank_bounds(s@, 0); }
    while i < s.len() && i + 1 < s.len()
        invariant
            find_blank(s@, 0) == find_blank(s@, i as nat),
        decreases s.len() - i,
    {
        if s[i] == '\n' && s[i + 1] == '\n' {
            return Some(i);
        }
        i += 1;
    }
    None
}

/// `s` split at every newline.
pub(crate) fn split_lines_exec(s: &[char]) -> (lines: Vec<Vec<char>>)
    ensures
        lines@.map_values(|l: Vec<char>| l@) == split_lines(s@),
{
    let mut done: Vec<Vec<char>> = Vec::new();
    let mut cur: Vec<char> = Vec::new();
    let mut i: usize = 0;
    proof { assert(s@.take(0) =~= Seq::<char>::empty()); }
    while i < s.len()
        invariant
            i <= s.len(),
            done@.map_values(|l: Vec<char>| l@).push(cur@) == split_lines(s@.take(i as int)),
        decreases s.len() - i,
    {
        let ghost before = done@.map_values(|l: Vec<char>| l@).push(cur@);
        let c = s[i];
        proof { assert(s@.take(i + 1).drop_last() =~= s@.take(i as int)); }
        if c == '\n' {
            let finished = cur;
            done.push(finished);
            cur = Vec::new();
            proof {
                assert(done@.map_values(|l: Vec<char>| l@).push(cur@) =~= before.push(Seq::<char>::empty()));
            }
        } else {
            cur.push(c);
            proof {
                assert(done@.map_values(|l: Vec<char>| l@).push(cur@) =~= before.update(
                    before.len() - 1, before.last().push(c)));
            }
        }
        i += 1;
    }
    proof { assert(s@.take(s@.len() as int) =~= s@); }
    done.push(cur);
    done
}

impl CommitObject {
    /// Parse a raw commit object: the header ends at the first blank line;
    /// header lines are scanned as a state machine (normal | inside a
    /// signature) that drops the signature and any nonce header.
    pub fn parse(raw: &str) -> (res: Result<Self, String>)
        ensures
            match spec_parse_commit(raw@) {
                None => res matches Err(e) && e@ == no_blank_line_error(),
                Some(v) => res matches Ok(c) && c@ == v,
            },
    {
        let chars = str_chars(raw);
        let p = match find_blank_exec(&chars) {
            None => {
                return Err("Invalid commit object: no blank line separating header and message".to_owned());
            },
            Some(p) => p,
        };
        let n = chars.len();
        proof {
            lemma_find_blank_bounds(chars@, 0);
            assert(find_blank(chars@, 0) == Some(p as nat));
            assert(p + 1 < n);
        }
        let header = chars_range(&chars, 0, p);
        let message_chars = chars_range(&chars, p + 2, n);
        let lines = split_lines_exec(&header);
        let ghost all = lines@.map_values(|l: Vec<char>| l@);
        proof {
            assert(header@ =~= chars@.take(p as int));
            assert(message_chars@ =~= chars@.skip(p + 2));
        }

        let mut kept: Vec<String> = Vec::new();
        let mut had_signature = false;
        let mut in_signature = false;
        let mut i: usize = 0;
        proof {
            assert(all.take(0) =~= Seq::<Seq<char>>::empty());
            assert(kept@.map_values(|l: String| l@) =~= Seq::<Seq<char>>::empty());
        }
        while i < lines.len()
            invariant
                i <= lines.len(),
                all == lines@.map_values(|l: Vec<char>| l@),
                scan_lines(all.take(i as int)) == (HeaderScan {
                    kept: kept@.map_values(|l: String| l@),
                    had_signature,
                    in_signature,
                }),
            decreases lines.len() - i,
        {
            let line = &lines[i];
            proof {
                assert(all.take(i + 1).drop_last() =~= all.take(i as int));
                assert(all.take(i + 1).last() == line@);
            }
            let cont = line.len() > 0 && (line[0] == ' ' || line[0] == '\t');
            if in_signature && cont {
            } else if chars_start_with(line, &['g', 'p', 'g', 's', 'i', 'g', ' ']) {
                had_signature = true;
                in_signature = true;
            } else if chars_start_with(line, &['x', '-', 'n', 'o', 'n', 'c', 'e', ' ']) {
                in_signature = false;
            } else {
                let ghost old_kept = kept@.map_values(|l: String| l@);
                kept.push(string_from_chars(line));
                in_signature = false;
                proof { assert(kept@.map_values(|l: String| l@) =~= old_kept.push(line@)); }
            }
            proof {
                assert(gpgsig_key() =~= seq!['g', 'p', 'g', 's', 'i', 'g', ' ']);
            }
            i += 1;
        }
        proof { assert(all.take(lines@.len() as int) =~= all); }
        Ok(CommitObject { header_lines: kept, message: string_from_chars(&message_chars), had_signature })
    }

    /// Reconstruct the commit content with a given nonce.
    /// Returns the raw content (without the "commit <len>\0" prefix).
    pub fn build_with_nonce(&self, nonce: &[u8]) -> (content: Vec<u8>)
        ensures
            content@ == commit_bytes(self@.header_lines, nonce@, self@.message),
    {
        let mut out: Vec<u8> = Vec::new();
        let ghost lines = self@.header_lines;
        let mut i: usize = 0;
        proof {
            assert(lines.take(0) =~= Seq::<Seq<char>>::empty());
            assert(encode_utf8(Seq::<char>::empty()) =~= Seq::<u8>::empty());
        }
        while i < self.header_lines.len()
            invariant
                i <= self.header_lines.len(),
                lines == self@.header_lines,
                out@ == encode_utf8(join_lines(lines.take(i as int))),
            decreases self.header_lines.len() - i,
        {
            let line: &str = self.header_lines[i].as_str();
            push_all(&mut out, line.as_bytes());
            out.push(0x0Au8);
            proof {
                let t = lines.take(i + 1);
                assert(t.drop_last() =~= lines.take(i as int));
                assert(t.last() == line@);
                lemma_encode_concat(join_lines(lines.take(i as int)), line@);
                lemma_encode_concat(join_lines(lines.take(i as int)) + line@, seq!['\n']);
                lemma_encode_ascii(seq!['\n']);
                assert(encode_utf8(seq!['\n']) =~= seq![0x0Au8]);
                assert(out@ =~= encode_utf8(join_lines(lines.take(i as int))) + encode_utf8(line@)
                    + seq![0x0Au8]);
            }
            i += 1;
        }
        push_all(&mut out, &[0x78u8, 0x2Du8, 0x6Eu8, 0x6Fu8, 0x6Eu8, 0x63u8, 0x65u8, 0x20u8]);
        push_all(&mut out, nonce);
        push_all(&mut out, &[0x0Au8, 0x0Au8]);
        push_all(&mut out, self.message.as_str().as_bytes());
        proof {
            assert(lines.take(lines.len() as int) =~= lines);
            lemma_encode_concat(join_lines(lines), nonce_key());
            lemma_encode_ascii(nonce_key());
            lemma_encode_concat(seq!['\n', '\n'], self@.message);
            lemma_encode_ascii(seq!['\n', '\n']);
            assert(encode_utf8(nonce_key()) =~= seq![0x78u8, 0x2Du8, 0x6Eu8, 0x6Fu8, 0x6Eu8, 0x63u8, 0x65u8, 0x20u8]);
            assert(encode_utf8(seq!['\n', '\n']) =~= seq![0x0Au8, 0x0Au8]);
        }
        out
    }
}

} // verus!
