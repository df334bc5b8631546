//! Single-line truncation of layer commands for display: keeps the first
//! line, strips the runtime's `#(nop)` prefix, trims whitespace, and cuts
//! the result to a maximum number of characters.

use vstd::prelude::*;

verus! {

/// Whether pattern `p` occurs in `s` starting at position `i`.
pub open spec fn matches_at(s: Seq<char>, p: Seq<char>, i: int) -> bool {
    0 <= i && i + p.len() <= s.len() && s.subrange(i, i + p.len()) == p
}

/// The first position at or after `from` where the non-empty pattern `p`
/// occurs in `s`, if any.
pub open spec fn first_match_from(s: Seq<char>, p: Seq<char>, from: nat) -> Option<nat>
    recommends
        p.len() >= 1,
    decreases s.len() - from,
{
    if p.len() == 0 || from + p.len() > s.len() {
        None
    } else if matches_at(s, p, from as int) {
        Some(from)
    } else {
        first_match_from(s, p, from + 1)
    }
}

/// The first position at or after `from` where the character `c` occurs
/// in `s`, if any.
pub open spec fn first_char_from(s: Seq<char>, c: char, from: nat) -> Option<nat>
    decreases s.len() - from,
{
    if from >= s.len() {
        None
    } else if s[from as int] == c {
        Some(from)
    } else {
        first_char_from(s, c, from + 1)
    }
}

/// The first line of `s`: everything before the first newline, minus a
/// carriage return standing immediately before that newline; the whole of
/// `s` when it holds no newline.
pub open spec fn spec_first_line(s: Seq<char>) -> Seq<char> {
    match first_char_from(s, '\n', 0) {
        None => s,
        Some(i) => if i > 0 && s[i as int - 1] == '\r' {
            s.subrange(0, i as int - 1)
        } else {
            s.subrange(0, i as int)
        },
    }
}

/// The marker whose presence makes the line a runtime-generated one.
pub open spec fn nop_marker() -> Seq<char> {
    seq!['#', '(', 'n', 'o', 'p', ')', ' ']
}

/// The separator the runtime puts in front of the real command.
pub open spec fn nop_split_pattern() -> Seq<char> {
    seq![' ', '#', '(', 'n', 'o', 'p', ')', ' ']
}

/// The characters that trimming removes: the Unicode white-space set.
pub open spec fn is_space(c: char) -> bool {
    let u = c as u32;
    u == 9 || u == 10 || u == 11 || u == 12 || u == 13 || u == 32 || u == 0x85 || u == 0xa0 || u
        == 0x1680 || (0x2000 <= u && u <= 0x200a) || u == 0x2028 || u == 0x2029 || u == 0x202f || u
        == 0x205f || u == 0x3000
}

/// The position of the first non-space character at or after `from`, or
/// the length of `s` when only spaces remain.
pub open spec fn trim_start_idx(s: Seq<char>, from: nat) -> nat
    decreases s.len() - from,
{
    if from >= s.len() {
        s.len()
    } else if is_space(s[from as int]) {
        trim_start_idx(s, from + 1)
    } else {
        from
    }
}

/// The position just past the last non-space character before `upto`, or
/// zero when only spaces precede `upto`.
pub open spec fn trim_end_idx(s: Seq<char>, upto: nat) -> nat
    recommends
        upto <= s.len(),
    decreases upto,
{
    if upto == 0 {
        0
    } else if is_space(s[upto as int - 1]) {
        trim_end_idx(s, (upto - 1) as nat)
    } else {
        upto
    }
}

/// `s` with leading and trailing white space removed.
pub open spec fn spec_trim(s: Seq<char>) -> Seq<char> {
    let a = trim_start_idx(s, 0);
    let b = trim_end_idx(s, s.len());
    if a <= b {
        s.subrange(a as int, b as int)
    } else {
        Seq::empty()
    }
}

/// The part of the first line that truncation keeps before cutting it to
/// width: a line carrying the runtime marker is reduced to the trimmed
/// text between the first separator and the next one (or the line end);
/// any other line is kept whole.
pub open spec fn spec_selected_segment(line: Seq<char>) -> Seq<char> {
    if first_match_from(line, nop_marker(), 0) is Some {
        match first_match_from(line, nop_split_pattern(), 0) {
            Some(i) => {
                let seg_start = i + nop_split_pattern().len();
                let seg_end = match first_match_from(line, nop_split_pattern(), seg_start) {
                    Some(j) => j as int,
                    None => line.len() as int,
                };
                spec_trim(line.subrange(seg_start as int, seg_end))
            },
            None => line,
        }
    } else {
        line
    }
}

/// What [`truncate`] returns: the selected segment of the first line, cut
/// to at most `max_chars` characters.
pub open spec fn spec_truncate(s: Seq<char>, max_chars: nat) -> Seq<char> {
    let seg = spec_selected_segment(spec_first_line(s));
    if seg.len() <= max_chars {
        seg
    } else {
        seg.subrange(0, max_chars as int)
    }
}

/// Whether trimming removes `c`; mirrors [`is_space`].
fn is_space_char(c: char) -> (r: bool)
    ensures
        r == is_space(c),
{
    let u = c as u32;
    u == 9 || u == 10 || u == 11 || u == 12 || u == 13 || u == 32 || u == 0x85 || u == 0xa0 || u
        == 0x1680 || (0x2000 <= u && u <= 0x200a) || u == 0x2028 || u == 0x2029 || u == 0x202f || u
        == 0x205f || u == 0x3000
}

/// The characters of [`nop_marker`].
fn nop_marker_chars() -> (r: Vec<char>)
    ensures
        r@ == nop_marker(),
{
    let mut v: Vec<char> = Vec::new();
    v.push('#');
    v.push('(');
    v.push('n');
    v.push('o');
    v.push('p');
    v.push(')');
    v.push(' ');
    proof {
        assert(v@ =~= nop_marker());
    }
    v
}

/// The characters of [`nop_split_pattern`].
fn nop_split_chars() -> (r: Vec<char>)
    ensures
        r@ == nop_split_pattern(),
{
    let mut v: Vec<char> = Vec::new();
    v.push(' ');
    v.push('#');
    v.push('(');
    v.push('n');
    v.push('o');
    v.push('p');
    v.push(')');
    v.push(' ');
    proof {
        assert(v@ =~= nop_split_pattern());
    }
    v
}

/// Whether `pat` occurs in `line` at position `i`.
fn pattern_at(line: &str, pat: &Vec<char>, i: usize) -> (r: bool)
    requires
        i + pat@.len() <= line@.len(),
    ensures
        r == matches_at(line@, pat@, i as int),
{
    let n = line.unicode_len();
    let m = pat.len();
    let mut k: usize = 0;
    while k < m
        invariant
            k <= m,
            m == pat@.len(),
            n == line@.len(),
            i + m <= n,
            forall|t: int| 0 <= t < k ==> line@[i + t] == pat@[t],
        decreases m - k,
    {
        let c = line.get_char(i + k);
        if c != pat[k] {
            proof {
                let sub = line@.subrange(i as int, i as int + m as int);
                assert(sub[k as int] == line@[i + k]);
                assert(sub != pat@);
            }
            return false;
        }
        k = k + 1;
    }
    proof {
        assert(line@.subrange(i as int, i as int + m as int) =~= pat@);
    }
    true
}

/// The first position at or after `from` where `pat` occurs in `line`.
fn find_pattern(line: &str, pat: &Vec<char>, from: usize) -> (r: Option<usize>)
    requires
        from <= line@.len(),
        pat@.len() >= 1,
    ensures
        ({
            let fr = first_match_from(line@, pat@, from as nat);
            match r {
                Some(i) => fr == Some(i as nat) && from <= i && matches_at(line@, pat@, i as int),
                None => fr is None,
            }
        }),
{
    let n = line.unicode_len();
    let m = pat.len();
    if n < m {
        return None;
    }
    let mut i: usize = from;
    while i <= n - m
        invariant
            from <= i,
            i <= n,
            m >= 1,
            m <= n,
            n == line@.len(),
            m == pat@.len(),
            first_match_from(line@, pat@, from as nat) == first_match_from(
                line@,
                pat@,
                i as nat,
            ),
        decreases n - i,
    {
        if pattern_at(line, pat, i) {
            return Some(i);
        }
        i = i + 1;
    }
    None
}

/// The first position at or after `from` where `c` occurs in `s`.
fn find_char(s: &str, c: char, from: usize) -> (r: Option<usize>)
    requires
        from <= s@.len(),
    ensures
        ({
            let fr = first_char_from(s@, c, from as nat);
            match r {
                Some(i) => fr == Some(i as nat) && from <= i && i < s@.len() && s@[i as int] == c,
                None => fr is None,
            }
        }),
{
    let n = s.unicode_len();
    let mut i: usize = from;
    while i < n
        invariant
            from <= i,
            i <= n,
            n == s@.len(),
            first_char_from(s@, c, from as nat) == first_char_from(s@, c, i as nat),
        decreases n - i,
    {
        let ch = s.get_char(i);
        if ch == c {
            return Some(i);
        }
        i = i + 1;
    }
    None
}

/// The position of the first non-space character of `t`, or its length.
fn trim_start(t: &str) -> (a: usize)
    ensures
        a as nat == trim_start_idx(t@, 0),
        a <= t@.len(),
{
    let n = t.unicode_len();
    let mut a: usize = 0;
    while a < n
        invariant
            a <= n,
            n == t@.len(),
            trim_start_idx(t@, 0) == trim_start_idx(t@, a as nat),
        decreases n - a,
    {
        if !is_space_char(t.get_char(a)) {
            return a;
        }
        a = a + 1;
    }
    a
}

/// The position just past the last non-space character of `t`, or zero.
fn trim_end(t: &str) -> (b: usize)
    ensures
        b as nat == trim_end_idx(t@, t@.len()),
        b <= t@.len(),
{
    let n = t.unicode_len();
    let mut b: usize = n;
    while b > 0
        invariant
            b <= n,
            n == t@.len(),
            trim_end_idx(t@, t@.len()) == trim_end_idx(t@, b as nat),
        decreases b,
    {
        if !is_space_char(t.get_char(b - 1)) {
            return b;
        }
        b = b - 1;
    }
    b
}

/// `t` with leading and trailing white space removed.
fn trim_str<'a>(t: &'a str) -> (r: &'a str)
    ensures
        r@ == spec_trim(t@),
{
    let a = trim_start(t);
    let b = trim_end(t);
    if a <= b {
        t.substring_char(a, b)
    } else {
        let r = t.substring_char(0, 0);
        proof {
            assert(r@ =~= spec_trim(t@));
        }
        r
    }
}

/// Truncates a string to a single line of at most `max_chars` characters
/// and removes the container runtime's `#(nop)` prefix.
///
/// Only the first line of `s` is kept. When that line carries the
/// `#(nop) ` marker, the text between the first ` #(nop) ` separator and
/// the next one (or the line end) is selected and trimmed; the line must
/// then contain the full separator, spaces included. The selection is
/// finally cut to at most `max_chars` characters.
pub fn truncate<'a>(s: &'a str, max_chars: usize) -> (r: &'a str)
    requires
        s@.len() > 0,
        first_match_from(spec_first_line(s@), nop_marker(), 0) is Some ==> first_match_from(
            spec_first_line(s@),
            nop_split_pattern(),
            0,
        ) is Some,
    ensures
        r@ == spec_truncate(s@, max_chars as nat),
{
    let nl = find_char(s, '\n', 0);
    let line: &str = match nl {
        None => s,
        Some(i) => {
            if i > 0 && s.get_char(i - 1) == '\r' {
                s.substring_char(0, i - 1)
            } else {
                s.substring_char(0, i)
            }
        },
    };
    proof {
        assert(line@ == spec_first_line(s@));
    }

    let marker = nop_marker_chars();
    let seg: &str = match find_pattern(line, &marker, 0) {
        None => line,
        Some(_) => {
            let split = nop_split_chars();
            let first_sep = find_pattern(line, &split, 0);
            let i: usize = match first_sep {
                Some(i) => i,
                None => {
                    proof {
                        assert(false);
                    }
                    0
                },
            };
            let ln = line.unicode_len();
            let seg_start = i + 8;
            let seg_end: usize = match find_pattern(line, &split, seg_start) {
                Some(j) => j,
                None => ln,
            };
            let raw = line.substring_char(seg_start, seg_end);
            trim_str(raw)
        },
    };
    proof {
        assert(seg@ == spec_selected_segment(spec_first_line(s@)));
    }

    let seg_len = seg.unicode_len();
    if seg_len <= max_chars {
        seg
    } else {
        seg.substring_char(0, max_chars)
    }
}

} // verus!
