//! The decisions around the repository commands: whether the repository
//! can be worked on, which commit objects carry a nonce header, and how the
//! outputs of the two log commands pair up line by line.

use vstd::prelude::*;
use crate::commit::{lemma_split_lines_shape, nonce_key, split_lines, split_lines_exec};
use crate::text::{chars_range, chars_start_with, starts_with, str_chars, string_from_chars};

verus! {

/// The error text when the working directory is not inside a repository.
pub open spec fn not_a_repo_error() -> Seq<char> {
    "not a git repository"@
}

/// The error text when the repository has no HEAD commit.
pub open spec fn no_head_error() -> Seq<char> {
    "no HEAD commit (empty repository?)"@
}

/// The repository check: a repository is needed, with a HEAD commit.
/// `is_repo` and `has_head` are what the two probing commands reported.
pub fn ensure_repo(is_repo: bool, has_head: bool) -> (r: Result<(), String>)
    ensures
        is_repo && has_head <==> r is Ok,
        !is_repo ==> (r matches Err(m) && m@ == not_a_repo_error()),
        is_repo && !has_head ==> (r matches Err(m) && m@ == no_head_error()),
{
    if !is_repo {
        return Err("not a git repository".to_owned());
    }
    if !has_head {
        return Err("no HEAD commit (empty repository?)".to_owned());
    }
    Ok(())
}

/// Some line of the text (split at newlines) begins with the nonce key.
pub open spec fn spec_has_nonce(raw: Seq<char>) -> bool {
    exists|k: int| 0 <= k < split_lines(raw).len() && starts_with(#[trigger] split_lines(raw)[k], nonce_key())
}

/// Whether a raw commit object has a nonce header line.
pub fn has_nonce_header(raw: &str) -> (b: bool)
    ensures
        b == spec_has_nonce(raw@),
{
    let chars = str_chars(raw);
    let lines = split_lines_exec(&chars);
    let ghost all = lines@.map_values(|l: Vec<char>| l@);
    let mut i: usize = 0;
    while i < lines.len()
        invariant
            i <= lines.len(),
            all == lines@.map_values(|l: Vec<char>| l@),
            all == split_lines(raw@),
            forall|k: int| 0 <= k < i ==> !starts_with(#[trigger] all[k], nonce_key()),
        decreases lines.len() - i,
    {
        proof {
            assert(all[i as int] == lines@[i as int]@);
            assert(nonce_key() =~= seq!['x', '-', 'n', 'o', 'n', 'c', 'e', ' ']);
        }
        if chars_start_with(&lines[i], &['x', '-', 'n', 'o', 'n', 'c', 'e', ' ']) {
            return true;
        }
        i += 1;
    }
    false
}

/// A line without the carriage return that ended it.
pub open spec fn strip_cr(l: Seq<char>) -> Seq<char> {
    if l.len() > 0 && l.last() == '\r' {
        l.drop_last()
    } else {
        l
    }
}

/// The lines of a text as `str::lines` gives them: every piece that a
/// newline ends, without a carriage return just before that newline, then
/// the text after the last newline if it is not empty, as it stands.
pub open spec fn text_lines(s: Seq<char>) -> Seq<Seq<char>> {
    let parts = split_lines(s);
    let ended = Seq::new((parts.len() - 1) as nat, |k: int| strip_cr(parts[k]));
    if parts.last().len() == 0 {
        ended
    } else {
        ended.push(parts.last())
    }
}

/// The lines of a text, as `str::lines` gives them.
pub fn text_lines_of(s: &[char]) -> (r: Vec<Vec<char>>)
    ensures
        r@.map_values(|l: Vec<char>| l@) == text_lines(s@),
{
    let parts = split_lines_exec(s);
    let ghost pv = parts@.map_values(|l: Vec<char>| l@);
    proof { lemma_split_lines_shape(s@); }
    let n = parts.len() - 1;
    let mut r: Vec<Vec<char>> = Vec::new();
    let mut i: usize = 0;
    while i < n
        invariant
            i <= n,
            n == parts.len() - 1,
            pv == parts@.map_values(|l: Vec<char>| l@),
            r@.map_values(|l: Vec<char>| l@) == Seq::new(i as nat, |k: int| strip_cr(pv[k])),
        decreases n - i,
    {
        let line = &parts[i];
        proof { assert(line@ == pv[i as int]); }
        let mut end = line.len();
        if end > 0 && line[end - 1] == '\r' {
            end = end - 1;
        }
        let l = chars_range(line, 0, end);
        let ghost before = r@.map_values(|l: Vec<char>| l@);
        r.push(l);
        proof {
            if line@.len() > 0 && line@.last() == '\r' {
                assert(l@ =~= line@.drop_last());
            } else {
                assert(l@ =~= line@);
            }
            assert(l@ == strip_cr(pv[i as int]));
            assert(r@.map_values(|l: Vec<char>| l@) =~= before.push(l@));
            assert(before.push(l@) =~= Seq::new((i + 1) as nat, |k: int| strip_cr(pv[k])));
        }
        i += 1;
    }
    let last = &parts[n];
    proof { assert(last@ == pv.last()); }
    if last.len() > 0 {
        let l = chars_range(last, 0, last.len());
        let ghost before = r@.map_values(|l: Vec<char>| l@);
        r.push(l);
        proof {
            assert(l@ =~= pv.last());
            assert(r@.map_values(|l: Vec<char>| l@) =~= before.push(pv.last()));
        }
    }
    r
}

/// The entries of the log: the k-th line of the hashes output with the
/// k-th line of the subjects output, as far as both go.
pub open spec fn log_pairs(hashes: Seq<char>, subjects: Seq<char>) -> Seq<(Seq<char>, Seq<char>)> {
    let h = text_lines(hashes);
    let s = text_lines(subjects);
    let n = if h.len() < s.len() { h.len() } else { s.len() };
    Seq::new(n, |k: int| (h[k], s[k]))
}

/// Pair the lines of the hashes output with those of the subjects output.
pub fn log_entries(hashes: &str, subjects: &str) -> (r: Vec<(String, String)>)
    ensures
        r@.map_values(|p: (String, String)| (p.0@, p.1@)) == log_pairs(hashes@, subjects@),
{
    let hc = str_chars(hashes);
    let sc = str_chars(subjects);
    let h = text_lines_of(&hc);
    let s = text_lines_of(&sc);
    let ghost hv = h@.map_values(|l: Vec<char>| l@);
    let ghost sv = s@.map_values(|l: Vec<char>| l@);
    let n = if h.len() < s.len() { h.len() } else { s.len() };
    let mut r: Vec<(String, String)> = Vec::new();
    let mut i: usize = 0;
    while i < n
        invariant
            i <= n,
            n <= h.len(),
            n <= s.len(),
            hv == h@.map_values(|l: Vec<char>| l@),
            sv == s@.map_values(|l: Vec<char>| l@),
            r@.map_values(|p: (String, String)| (p.0@, p.1@)) == Seq::new(i as nat, |k: int| (hv[k], sv[k])),
        decreases n - i,
    {
        let a = string_from_chars(&h[i]);
        let b = string_from_chars(&s[i]);
        proof {
            assert(a@ == hv[i as int]);
            assert(b@ == sv[i as int]);
        }
        let ghost before = r@.map_values(|p: (String, String)| (p.0@, p.1@));
        r.push((a, b));
        proof {
            assert(r@.map_values(|p: (String, String)| (p.0@, p.1@)) =~= before.push((a@, b@)));
            assert(before.push((a@, b@)) =~= Seq::new((i + 1) as nat, |k: int| (hv[k], sv[k])));
        }
        i += 1;
    }
    proof {
        assert(r@.map_values(|p: (String, String)| (p.0@, p.1@)) =~= log_pairs(hashes@, subjects@));
    }
    r
}

} // verus!
