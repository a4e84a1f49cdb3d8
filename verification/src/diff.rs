//! Parses a unified diff (`git diff` output, or any tool producing the same format) into
//! per-file touched line ranges on the *new* side of the diff: the side that matches what
//! is on disk, and so what was indexed, when the diff holds uncommitted working-tree
//! changes.
use std::ops::Range;
use vstd::prelude::*;

use crate::change::{split_word_chars, vec_views, words};
use crate::text::{
    char_is_whitespace, chars_eq, chars_eq_str, chars_of, has_prefix, is_unicode_whitespace, slice_chars,
    split_char, split_on, starts_with, string_of, vviews, lemma_split_char_nonempty,
};

verus! {

/// A line without the `\r` of a `\r\n` ending.
pub open spec fn strip_cr(l: Seq<char>) -> Seq<char> {
    if l.len() > 0 && l.last() == '\r' {
        l.drop_last()
    } else {
        l
    }
}

/// `str::lines`: the pieces between `\n`s, each without a `\r` before its `\n`; a final
/// line ending adds no empty line.
pub open spec fn text_lines(s: Seq<char>) -> Seq<Seq<char>> {
    let p = split_char(s, '\n');
    let body = p.drop_last().map_values(|l: Seq<char>| strip_cr(l));
    if p.last().len() == 0 {
        body
    } else {
        body.push(p.last())
    }
}

pub(crate) fn lines_of(s: &str) -> (r: Vec<Vec<char>>)
    ensures
        vec_views(r@) == text_lines(s@),
{
    let cs = chars_of(s);
    let pieces = split_on(cs.as_slice(), '\n');
    let ghost p = split_char(s@, '\n');
    proof {
        lemma_split_char_nonempty(s@, '\n');
        assert(vviews(pieces@) == p);
    }
    let n = pieces.len();
    let mut r: Vec<Vec<char>> = Vec::new();
    let mut i: usize = 0;
    while i + 1 < n
        invariant
            n == p.len() >= 1,
            vviews(pieces@) == p,
            i + 1 <= n,
            vec_views(r@) == p.take(i as int).map_values(|l: Seq<char>| strip_cr(l)),
        decreases n - i,
    {
        let l = &pieces[i];
        proof {
            assert(l@ == p[i as int]);
        }
        let ghost o = vec_views(r@);
        let piece = if l.len() > 0 && l[l.len() - 1] == '\r' {
            slice_chars(l.as_slice(), 0, l.len() - 1)
        } else {
            slice_chars(l.as_slice(), 0, l.len())
        };
        proof {
            assert(piece@ =~= strip_cr(p[i as int]));
        }
        r.push(piece);
        proof {
            assert(vec_views(r@) =~= o.push(strip_cr(p[i as int])));
            assert(p.take(i + 1).map_values(|l: Seq<char>| strip_cr(l)) =~= p.take(i as int).map_values(
                |l: Seq<char>| strip_cr(l),
            ).push(strip_cr(p[i as int])));
        }
        i = i + 1;
    }
    proof {
        assert(p.take(i as int) =~= p.drop_last());
    }
    let last = &pieces[n - 1];
    proof {
        assert(last@ == p.last());
    }
    if last.len() > 0 {
        let ghost o = vec_views(r@);
        let piece = slice_chars(last.as_slice(), 0, last.len());
        proof {
            assert(piece@ =~= p.last());
        }
        r.push(piece);
        proof {
            assert(vec_views(r@) =~= o.push(p.last()));
        }
    }
    r
}

// ---------------------------------------------------------------------------------------
// Whitespace trimming
// ---------------------------------------------------------------------------------------
pub open spec fn trim_start(s: Seq<char>) -> Seq<char>
    decreases s.len(),
{
    if s.len() > 0 && is_unicode_whitespace(s[0]) {
        trim_start(s.skip(1))
    } else {
        s
    }
}

pub open spec fn trim_end(s: Seq<char>) -> Seq<char>
    decreases s.len(),
{
    if s.len() > 0 && is_unicode_whitespace(s.last()) {
        trim_end(s.drop_last())
    } else {
        s
    }
}

/// `str::trim`: without leading and trailing whitespace.
pub open spec fn trim_ws(s: Seq<char>) -> Seq<char> {
    trim_end(trim_start(s))
}

pub(crate) fn trim_chars(s: &[char]) -> (r: Vec<char>)
    ensures
        r@ == trim_ws(s@),
{
    let n = s.len();
    let mut a: usize = 0;
    proof {
        assert(s@.skip(0) =~= s@);
    }
    while a < n && char_is_whitespace(s[a])
        invariant
            a <= n == s@.len(),
            trim_start(s@) == trim_start(s@.skip(a as int)),
        decreases n - a,
    {
        proof {
            assert(s@.skip(a as int).skip(1) =~= s@.skip(a + 1));
        }
        a = a + 1;
    }
    let ghost t = s@.skip(a as int);
    proof {
        assert(trim_start(s@) == t);
        assert(t.take(t.len() as int) =~= t);
    }
    let mut b: usize = n;
    while b > a && char_is_whitespace(s[b - 1])
        invariant
            a <= b <= n == s@.len(),
            t == s@.skip(a as int),
            trim_end(t) == trim_end(t.take(b - a)),
        decreases b - a,
    {
        proof {
            assert(t.take(b - a).drop_last() =~= t.take(b - a - 1));
            assert(t.take(b - a).last() == s@[b - 1]);
        }
        b = b - 1;
    }
    let r = slice_chars(s, a, b);
    proof {
        assert(r@ =~= t.take(b - a));
    }
    r
}

// ---------------------------------------------------------------------------------------
// File headers
// ---------------------------------------------------------------------------------------
/// The path a `+++ ` header names (what follows `+++ `), without git's `a/`/`b/` prefix;
/// `None` for `/dev/null` (a deleted file) or an empty path.
pub open spec fn new_file_path(raw: Seq<char>) -> Option<Seq<char>> {
    let path = trim_ws(split_char(raw, '\t')[0]);
    if path.len() == 0 || path == "/dev/null"@ {
        None
    } else if has_prefix(path, "b/"@) || has_prefix(path, "a/"@) {
        Some(path.skip(2))
    } else {
        Some(path)
    }
}

fn normalize_diff_path(raw: &[char]) -> (r: Option<Vec<char>>)
    ensures
        match new_file_path(raw@) {
            Some(p) => r matches Some(v) && v@ == p,
            None => r is None,
        },
{
    let pieces = split_on(raw, '\t');
    proof {
        lemma_split_char_nonempty(raw@, '\t');
    }
    let path = trim_chars(pieces[0].as_slice());
    if path.len() == 0 || chars_eq_str(path.as_slice(), "/dev/null") {
        return None;
    }
    let b = chars_of("b/");
    let a = chars_of("a/");
    if starts_with(path.as_slice(), b.as_slice()) || starts_with(path.as_slice(), a.as_slice()) {
        proof {
            reveal_strlit("b/");
            reveal_strlit("a/");
        }
        Some(slice_chars(path.as_slice(), 2, path.len()))
    } else {
        Some(path)
    }
}

// ---------------------------------------------------------------------------------------
// Hunk headers
// ---------------------------------------------------------------------------------------
pub open spec fn is_digit(c: char) -> bool {
    '0' <= c <= '9'
}

pub open spec fn all_digits(s: Seq<char>) -> bool {
    forall|i: int| 0 <= i < s.len() ==> is_digit(#[trigger] s[i])
}

/// The number a run of decimal digits spells.
pub open spec fn digits_value(s: Seq<char>) -> nat
    decreases s.len(),
{
    if s.len() == 0 {
        0
    } else {
        digits_value(s.drop_last()) * 10 + ((s.last() as u32) - ('0' as u32)) as nat
    }
}

/// `usize::from_str`: an optional `+`, then one or more decimal digits, in range.
pub open spec fn parse_unsigned(s: Seq<char>) -> Option<nat> {
    let d = if s.len() > 0 && s[0] == '+' {
        s.skip(1)
    } else {
        s
    };
    if d.len() > 0 && all_digits(d) && digits_value(d) <= usize::MAX {
        Some(digits_value(d))
    } else {
        None
    }
}

proof fn lemma_digits_grow(s: Seq<char>, j: int)
    requires
        all_digits(s),
        0 <= j <= s.len(),
    ensures
        digits_value(s.take(j)) <= digits_value(s),
    decreases s.len(),
{
    if j < s.len() {
        assert(all_digits(s.drop_last()));
        lemma_digits_grow(s.drop_last(), j);
        assert(s.drop_last().take(j) =~= s.take(j));
    } else {
        assert(s.take(j) =~= s);
    }
}

fn parse_unsigned_chars(s: &[char]) -> (r: Option<usize>)
    ensures
        match parse_unsigned(s@) {
            Some(v) => r == Some(v as usize),
            None => r is None,
        },
{
    let n = s.len();
    let start: usize = if n > 0 && s[0] == '+' { 1 } else { 0 };
    let ghost d = if start == 1 { s@.skip(1) } else { s@ };
    proof {
        assert(d =~= s@.skip(start as int));
    }
    if start >= n {
        return None;
    }
    let mut v: usize = 0;
    let mut i: usize = start;
    proof {
        assert(d.take(0) =~= Seq::<char>::empty());
    }
    while i < n
        invariant
            start <= i <= n == s@.len(),
            d =~= s@.skip(start as int),
            d == (if start == 1 { s@.skip(1) } else { s@ }),
            start == 1 <==> (s@.len() > 0 && s@[0] == '+'),
            all_digits(d.take(i - start)),
            v as nat == digits_value(d.take(i - start)),
        decreases n - i,
    {
        let c = s[i];
        proof {
            assert(d.take(i - start + 1).drop_last() =~= d.take(i - start));
            assert(d.take(i - start + 1).last() == c);
        }
        if !('0' <= c && c <= '9') {
            proof {
                assert(!is_digit(d[i - start]));
            }
            return None;
        }
        let digit = (c as u32 - '0' as u32) as usize;
        proof {
            assert(digits_value(d.take(i - start + 1)) == digits_value(d.take(i - start)) * 10 + digit);
        }
        let grown = match v.checked_mul(10) {
            Some(t) => t.checked_add(digit),
            None => None,
        };
        match grown {
            Some(w) => {
                v = w;
            },
            None => {
                proof {
                    assert(all_digits(d.take(i - start + 1)));
                    if all_digits(d) {
                        lemma_digits_grow(d, i - start + 1);
                    }
                }
                return None;
            },
        }
        i = i + 1;
    }
    proof {
        assert(d.take(n - start) =~= d);
    }
    Some(v)
}

/// The first word that starts with `+`.
pub open spec fn first_plus(ts: Seq<Seq<char>>) -> Option<Seq<char>>
    decreases ts.len(),
{
    if ts.len() == 0 {
        None
    } else if ts[0].len() > 0 && ts[0][0] == '+' {
        Some(ts[0])
    } else {
        first_plus(ts.skip(1))
    }
}

/// `str::trim_start_matches('+')`.
pub open spec fn drop_plus(t: Seq<char>) -> Seq<char>
    decreases t.len(),
{
    if t.len() > 0 && t[0] == '+' {
        drop_plus(t.skip(1))
    } else {
        t
    }
}

/// Position of the first `c` in `s`.
pub open spec fn first_index(s: Seq<char>, c: char) -> Option<int>
    decreases s.len(),
{
    if s.len() == 0 {
        None
    } else if s[0] == c {
        Some(0)
    } else {
        match first_index(s.skip(1), c) {
            Some(i) => Some(i + 1),
            None => None,
        }
    }
}

/// The new-file range of a hunk header (what follows `@@ `), as `(start, end)`: from
/// the first word starting with `+`, `start[,count]` with `count` 1 when left out; both
/// raised to at least 1, since a pure deletion still touches its insertion point.
pub open spec fn parse_hunk(rest: Seq<char>) -> Option<(int, int)> {
    match first_plus(words(rest)) {
        None => None,
        Some(tok) => {
            let np = drop_plus(tok);
            let head = match first_index(np, ',') {
                Some(i) => np.take(i),
                None => np,
            };
            let count = match first_index(np, ',') {
                Some(i) => parse_unsigned(np.skip(i + 1)),
                None => Some(1nat),
            };
            match (parse_unsigned(head), count) {
                (Some(st), Some(c)) => {
                    let s1: int = if st >= 1 { st as int } else { 1 };
                    let c1: int = if c >= 1 { c as int } else { 1 };
                    Some((s1, s1 + c1))
                },
                _ => None,
            }
        },
    }
}

pub(crate) proof fn lemma_first_index(s: Seq<char>, c: char)
    ensures
        first_index(s, c) matches Some(i) ==> 0 <= i < s.len() && s[i] == c && forall|j: int| 0 <= j < i ==> s[j] != c,
        first_index(s, c) is None ==> forall|j: int| 0 <= j < s.len() ==> s[j] != c,
    decreases s.len(),
{
    if s.len() > 0 && s[0] != c {
        lemma_first_index(s.skip(1), c);
        assert forall|j: int| 1 <= j < s.len() implies s[j] == s.skip(1)[j - 1] by {}
    }
}

/// `(start, count)` of a hunk header's new-file range, both at least 1.
fn parse_hunk_new_range(rest: &[char]) -> (r: Option<(usize, usize)>)
    ensures
        match parse_hunk(rest@) {
            Some((a, b)) => r matches Some((x, y)) && x == a && x + y == b,
            None => r is None,
        },
{
    let ts = split_word_chars(rest);
    let ghost tv = vec_views(ts@);
    let mut j: usize = 0;
    proof {
        assert(tv.skip(0) =~= tv);
    }
    while j < ts.len() && !(ts[j].len() > 0 && ts[j][0] == '+')
        invariant
            j <= ts@.len(),
            tv == vec_views(ts@),
            first_plus(tv) == first_plus(tv.skip(j as int)),
        decreases ts@.len() - j,
    {
        proof {
            assert(tv.skip(j as int)[0] == ts@[j as int]@);
            assert(tv.skip(j as int).skip(1) =~= tv.skip(j + 1));
        }
        j = j + 1;
    }
    if j >= ts.len() {
        proof {
            assert(tv.skip(j as int).len() == 0);
        }
        return None;
    }
    let tok = &ts[j];
    proof {
        assert(tv.skip(j as int)[0] == tok@);
        assert(first_plus(tv) == Some(tok@));
    }
    let mut a: usize = 0;
    proof {
        assert(tok@.skip(0) =~= tok@);
    }
    while a < tok.len() && tok[a] == '+'
        invariant
            a <= tok@.len(),
            drop_plus(tok@) == drop_plus(tok@.skip(a as int)),
        decreases tok@.len() - a,
    {
        proof {
            assert(tok@.skip(a as int).skip(1) =~= tok@.skip(a + 1));
        }
        a = a + 1;
    }
    let np = slice_chars(tok.as_slice(), a, tok.len());
    proof {
        assert(np@ =~= tok@.skip(a as int));
        assert(drop_plus(tok@) == np@);
        lemma_first_index(np@, ',');
    }
    let mut k: usize = 0;
    while k < np.len() && np[k] != ','
        invariant
            k <= np@.len(),
            forall|q: int| 0 <= q < k ==> np@[q] != ',',
        decreases np@.len() - k,
    {
        k = k + 1;
    }
    let head = slice_chars(np.as_slice(), 0, k);
    let start = parse_unsigned_chars(head.as_slice());
    let count = if k < np.len() {
        proof {
            assert(first_index(np@, ',') == Some(k as int));
        }
        let tail = slice_chars(np.as_slice(), k + 1, np.len());
        proof {
            assert(head@ =~= np@.take(k as int));
            assert(tail@ =~= np@.skip(k + 1));
        }
        parse_unsigned_chars(tail.as_slice())
    } else {
        proof {
            assert(first_index(np@, ',') is None);
            assert(head@ =~= np@);
        }
        Some(1usize)
    };
    match (start, count) {
        (Some(st), Some(c)) => {
            let s1 = if st >= 1 { st } else { 1 };
            let c1 = if c >= 1 { c } else { 1 };
            Some((s1, c1))
        },
        _ => None,
    }
}

// ---------------------------------------------------------------------------------------
// The whole diff
// ---------------------------------------------------------------------------------------
/// Per-file touched line ranges, 1-indexed and half-open (`start..end`), one entry per
/// hunk in diff order, files in the order the diff first names them (each once).
#[derive(Debug, Clone, Default, PartialEq, Eq)]
pub struct DiffTouches {
    pub files: Vec<(String, Vec<Range<usize>>)>,
}

pub open spec fn range_views(v: Seq<Range<usize>>) -> Seq<(int, int)> {
    v.map_values(|r: Range<usize>| (r.start as int, r.end as int))
}

pub open spec fn touch_views(v: Seq<(String, Vec<Range<usize>>)>) -> Seq<(Seq<char>, Seq<(int, int)>)> {
    v.map_values(|e: (String, Vec<Range<usize>>)| (e.0@, range_views(e.1@)))
}

impl View for DiffTouches {
    type V = Seq<(Seq<char>, Seq<(int, int)>)>;

    open spec fn view(&self) -> Seq<(Seq<char>, Seq<(int, int)>)> {
        touch_views(self.files@)
    }
}

/// Where file `f` stands among the files seen so far.
pub open spec fn file_pos(files: Seq<(Seq<char>, Seq<(int, int)>)>, f: Seq<char>) -> Option<int>
    decreases files.len(),
{
    if files.len() == 0 {
        None
    } else if files.last().0 == f {
        Some(files.len() - 1)
    } else {
        file_pos(files.drop_last(), f)
    }
}

pub open spec fn add_range(files: Seq<(Seq<char>, Seq<(int, int)>)>, f: Seq<char>, r: (int, int)) -> Seq<(Seq<char>, Seq<(int, int)>)> {
    match file_pos(files, f) {
        Some(i) => files.update(i, (f, files[i].1.push(r))),
        None => files.push((f, seq![r])),
    }
}

/// The reading of a diff so far: the file the last `+++ ` header named, the ranges per
/// file, and whether every range's end fits a `usize`.
pub struct DiffScan {
    pub cur: Option<Seq<char>>,
    pub files: Seq<(Seq<char>, Seq<(int, int)>)>,
    pub fits: bool,
}

/// One line: a `+++ ` header names the current file, an `@@ ` header adds its new-file
/// range to the current file (if a file is current and the range parses); anything else
/// (context, content, other headers) is skipped.
pub open spec fn diff_step(st: DiffScan, line: Seq<char>) -> DiffScan {
    if has_prefix(line, "+++ "@) {
        DiffScan { cur: new_file_path(line.skip(4)), ..st }
    } else if has_prefix(line, "@@ "@) {
        match st.cur {
            Some(f) => match parse_hunk(line.skip(3)) {
                Some((a, b)) => if b <= usize::MAX {
                    DiffScan { files: add_range(st.files, f, (a, b)), ..st }
                } else {
                    DiffScan { fits: false, ..st }
                },
                None => st,
            },
            None => st,
        }
    } else {
        st
    }
}

pub open spec fn diff_scan(lines: Seq<Seq<char>>) -> DiffScan
    decreases lines.len(),
{
    if lines.len() == 0 {
        DiffScan { cur: None, files: Seq::empty(), fits: true }
    } else {
        diff_step(diff_scan(lines.drop_last()), lines.last())
    }
}

/// The touched ranges of `diff`, per file.
pub open spec fn touched(diff: Seq<char>) -> Seq<(Seq<char>, Seq<(int, int)>)> {
    diff_scan(text_lines(diff)).files
}

/// Every range of `diff` ends within `usize`.
pub open spec fn hunks_fit(diff: Seq<char>) -> bool {
    diff_scan(text_lines(diff)).fits
}

proof fn lemma_file_pos(files: Seq<(Seq<char>, Seq<(int, int)>)>, f: Seq<char>)
    ensures
        file_pos(files, f) matches Some(i) ==> 0 <= i < files.len() && files[i].0 == f,
        file_pos(files, f) is None ==> forall|j: int| 0 <= j < files.len() ==> files[j].0 != f,
    decreases files.len(),
{
    if files.len() > 0 && files.last().0 != f {
        lemma_file_pos(files.drop_last(), f);
        assert forall|j: int| 0 <= j < files.len() - 1 implies files[j] == files.drop_last()[j] by {}
    }
}

/// Adds `r` to file `f`'s ranges.
fn add_touch(files: &mut Vec<(String, Vec<Range<usize>>)>, f: &Vec<char>, r: Range<usize>)
    requires
        forall|a: int, b: int| 0 <= a < b < old(files)@.len() ==> old(files)@[a].0@ != old(files)@[b].0@,
    ensures
        touch_views(final(files)@) == add_range(touch_views(old(files)@), f@, (r.start as int, r.end as int)),
        forall|a: int, b: int| 0 <= a < b < final(files)@.len() ==> final(files)@[a].0@ != final(files)@[b].0@,
{
    let ghost tv = touch_views(files@);
    let mut i: usize = files.len();
    proof {
        assert(tv.take(i as int) =~= tv);
    }
    while i > 0
        invariant
            i <= files@.len(),
            files@ == old(files)@,
            forall|a: int, b: int| 0 <= a < b < files@.len() ==> files@[a].0@ != files@[b].0@,
            tv == touch_views(files@),
            file_pos(tv, f@) == file_pos(tv.take(i as int), f@),
        decreases i,
    {
        let name = chars_of(files[i - 1].0.as_str());
        if chars_eq(name.as_slice(), f.as_slice()) {
            proof {
                assert(tv.take(i as int).last().0 == f@);
                assert(file_pos(tv, f@) == Some(i - 1));
            }
            let ghost before = files@;
            let (name, mut rs) = files.remove(i - 1);
            rs.push(r);
            files.insert(i - 1, (name, rs));
            proof {
                assert(files@ =~= before.update(i - 1, (before[i - 1].0, rs)));
                assert(touch_views(files@) =~= tv.update(i - 1, (f@, tv[i - 1].1.push((r.start as int, r.end as int))))) by {
                    assert forall|q: int| 0 <= q < files@.len() implies #[trigger] touch_views(files@)[q]
                        == tv.update(i - 1, (f@, tv[i - 1].1.push((r.start as int, r.end as int))))[q] by {
                        if q != i - 1 {
                            assert(files@[q] == before[q]);
                        } else {
                            assert(range_views(files@[q].1@) =~= range_views(before[q].1@).push((r.start as int, r.end as int)));
                        }
                    }
                }
                assert forall|a: int, b: int| 0 <= a < b < files@.len() implies files@[a].0@ != files@[b].0@ by {
                    assert(files@[a].0 == before[a].0);
                    assert(files@[b].0 == before[b].0);
                    assert(before[a].0@ != before[b].0@);
                }
            }
            return;
        }
        proof {
            assert(tv.take(i as int).drop_last() =~= tv.take(i - 1));
        }
        i = i - 1;
    }
    proof {
        assert(file_pos(tv, f@) is None);
        lemma_file_pos(tv, f@);
    }
    let ghost before = files@;
    let mut rs: Vec<Range<usize>> = Vec::new();
    rs.push(r);
    files.push((string_of(f.as_slice()), rs));
    proof {
        assert(range_views(rs@) =~= seq![(r.start as int, r.end as int)]);
        assert(touch_views(files@) =~= tv.push((f@, seq![(r.start as int, r.end as int)])));
        assert forall|a: int, b: int| 0 <= a < b < files@.len() implies files@[a].0@ != files@[b].0@ by {
            if b == files@.len() - 1 {
                assert(files@[a] == before[a]);
                assert(tv[a].0 != f@);
            } else {
                assert(files@[a] == before[a]);
                assert(files@[b] == before[b]);
            }
        }
    }
}

/// Reads `diff`; `None` when a range's end would not fit a `usize`.
fn scan_diff(diff: &str) -> (r: Option<DiffTouches>)
    ensures
        match r {
            Some(t) => hunks_fit(diff@) && t@ == touched(diff@),
            None => !hunks_fit(diff@),
        },
{
    let lines = lines_of(diff);
    let ghost lv = vec_views(lines@);
    let mut files: Vec<(String, Vec<Range<usize>>)> = Vec::new();
    let mut cur: Option<Vec<char>> = None;
    let mut fits = true;
    let plus = chars_of("+++ ");
    let at = chars_of("@@ ");
    let mut i: usize = 0;
    proof {
        assert(touch_views(files@) =~= Seq::<(Seq<char>, Seq<(int, int)>)>::empty());
        assert(lv.take(0) =~= Seq::<Seq<char>>::empty());
    }
    while i < lines.len()
        invariant
            i <= lines@.len(),
            lv == vec_views(lines@),
            plus@ == "+++ "@,
            at@ == "@@ "@,
            diff_scan(lv.take(i as int)) == (DiffScan {
                cur: match cur {
                    Some(c) => Some(c@),
                    None => None,
                },
                files: touch_views(files@),
                fits,
            }),
            forall|a: int, b: int| 0 <= a < b < files@.len() ==> files@[a].0@ != files@[b].0@,
        decreases lines@.len() - i,
    {
        let line = &lines[i];
        proof {
            assert(lv.take(i + 1).drop_last() =~= lv.take(i as int));
            assert(lv.take(i + 1).last() == line@);
            reveal_strlit("+++ ");
            reveal_strlit("@@ ");
        }
        if starts_with(line.as_slice(), plus.as_slice()) {
            let rest = slice_chars(line.as_slice(), 4, line.len());
            proof {
                assert(rest@ =~= line@.skip(4));
            }
            cur = normalize_diff_path(rest.as_slice());
        } else if starts_with(line.as_slice(), at.as_slice()) {
            match &cur {
                Some(f) => {
                    let rest = slice_chars(line.as_slice(), 3, line.len());
                    proof {
                        assert(rest@ =~= line@.skip(3));
                    }
                    match parse_hunk_new_range(rest.as_slice()) {
                        Some((st, c)) => match st.checked_add(c) {
                            Some(end) => {
                                add_touch(&mut files, f, Range { start: st, end });
                            },
                            None => {
                                fits = false;
                            },
                        },
                        None => {},
                    }
                },
                None => {},
            }
        }
        i = i + 1;
    }
    proof {
        assert(lv.take(lines@.len() as int) =~= lv);
    }
    if fits {
        Some(DiffTouches { files })
    } else {
        None
    }
}

/// Parses unified diff text into per-file touched line ranges. Recognizes `+++ b/path`
/// file headers (stripping git's `a/`/`b/`) and `@@ -old +new @@` hunk headers; every
/// other line (context, content, `diff --git`, binary notices) is skipped, not an error.
pub fn parse_unified_diff(diff: &str) -> (t: DiffTouches)
    requires
        hunks_fit(diff@),
    ensures
        t@ == touched(diff@),
{
    match scan_diff(diff) {
        Some(t) => t,
        None => DiffTouches { files: Vec::new() },
    }
}

/// Whether every hunk range of `diff` ends within `usize` (what `parse_unified_diff`
/// needs of its input).
pub fn diff_fits(diff: &str) -> (b: bool)
    ensures
        b == hunks_fit(diff@),
{
    match scan_diff(diff) {
        Some(_) => true,
        None => false,
    }
}

/// The scan so far lists each file once, each with non-empty 1-indexed ranges.
pub open spec fn scan_ok(files: Seq<(Seq<char>, Seq<(int, int)>)>) -> bool {
    &&& forall|i: int, j: int| 0 <= i < files.len() && 0 <= j < files[i].1.len() ==> 1 <= #[trigger] files[i].1[j].0
        < files[i].1[j].1
    &&& forall|a: int, b: int| 0 <= a < b < files.len() ==> files[a].0 != files[b].0
}

proof fn lemma_scan_ok(lines: Seq<Seq<char>>)
    ensures
        scan_ok(diff_scan(lines).files),
    decreases lines.len(),
{
    if lines.len() > 0 {
        lemma_scan_ok(lines.drop_last());
        let st = diff_scan(lines.drop_last());
        let line = lines.last();
        if !has_prefix(line, "+++ "@) && has_prefix(line, "@@ "@) {
            if let Some(f) = st.cur {
                if let Some((a, b)) = parse_hunk(line.skip(3)) {
                    if b <= usize::MAX {
                        let files = st.files;
                        let nf = add_range(files, f, (a, b));
                        lemma_file_pos(files, f);
                        match file_pos(files, f) {
                            Some(k) => {
                                assert forall|i: int, j: int| 0 <= i < nf.len() && 0 <= j < nf[i].1.len() implies 1
                                    <= #[trigger] nf[i].1[j].0 < nf[i].1[j].1 by {
                                    if i == k && j == files[k].1.len() {
                                    } else {
                                        assert(nf[i].1[j] == files[i].1[j]);
                                    }
                                }
                                assert forall|x: int, y: int| 0 <= x < y < nf.len() implies nf[x].0 != nf[y].0 by {
                                    assert(nf[x].0 == files[x].0 && nf[y].0 == files[y].0);
                                }
                            },
                            None => {
                                assert forall|i: int, j: int| 0 <= i < nf.len() && 0 <= j < nf[i].1.len() implies 1
                                    <= #[trigger] nf[i].1[j].0 < nf[i].1[j].1 by {
                                    if i < files.len() {
                                        assert(nf[i] == files[i]);
                                    }
                                }
                                assert forall|x: int, y: int| 0 <= x < y < nf.len() implies nf[x].0 != nf[y].0 by {
                                    if y < files.len() {
                                        assert(nf[x] == files[x] && nf[y] == files[y]);
                                    } else {
                                        assert(nf[x] == files[x]);
                                    }
                                }
                            },
                        }
                    }
                }
            }
        }
    }
}

/// A diff's touched lines come as non-empty, 1-indexed, half-open ranges (a pure deletion
/// still touches its insertion point), and no file is listed twice.
pub proof fn law_touched_ranges_are_nonempty(diff: Seq<char>)
    ensures
        forall|i: int, j: int| 0 <= i < touched(diff).len() && 0 <= j < touched(diff)[i].1.len() ==> 1
            <= #[trigger] touched(diff)[i].1[j].0 < touched(diff)[i].1[j].1,
        forall|a: int, b: int| 0 <= a < b < touched(diff).len() ==> touched(diff)[a].0 != touched(diff)[b].0,
{
    lemma_scan_ok(text_lines(diff));
}

} // verus!
