//! Character-level helpers shared by every module that reads paths and names.
//!
//! Paths in this crate are `::`-separated segment lists (`payment::service::charge`) and
//! file paths are `/`-separated. Everything here works on `Seq<char>` in its contracts,
//! with the executable side on `Vec<char>`/slices.
use vstd::prelude::*;

verus! {

broadcast use vstd::string::group_string_axioms;

/// Appends one character to a `String` (`String::push`).
#[verifier::external_body]
fn push_char(s: &mut String, c: char)
    ensures
        final(s)@ == old(s)@.push(c),
{
    s.push(c);
}

/// Unicode `White_Space` (Unicode Character Database, `PropList.txt`), the property
/// `char::is_whitespace` tests: tab, line feed, vertical tab, form feed, carriage return,
/// space, next line, no-break space, ogham space mark, the spaces from en quad to hair
/// space, line separator, paragraph separator, narrow no-break space, medium
/// mathematical space and ideographic space.
pub open spec fn is_unicode_whitespace(c: char) -> bool {
    let u = c as u32;
    (0x9 <= u <= 0xD) || u == 0x20 || u == 0x85 || u == 0xA0 || u == 0x1680 || (0x2000 <= u <= 0x200A) || u == 0x2028
        || u == 0x2029 || u == 0x202F || u == 0x205F || u == 0x3000
}

/// `char::is_whitespace`: whether `c` has the Unicode `White_Space` property.
#[verifier::external_body]
pub(crate) fn char_is_whitespace(c: char) -> (b: bool)
    ensures
        b == is_unicode_whitespace(c),
{
    c.is_whitespace()
}

/// The characters of `s`, in order.
pub fn chars_of(s: &str) -> (v: Vec<char>)
    ensures
        v@ == s@,
{
    let mut v: Vec<char> = Vec::new();
    for c in it: s.chars()
        invariant
            it.seq() == s@,
            v@ == it.seq().take(it.index() as int),
    {
        v.push(c);
    }
    v
}

/// A `String` holding exactly the characters of `v`.
pub fn string_of(v: &[char]) -> (s: String)
    ensures
        s@ == v@,
{
    let mut s = String::new();
    let mut i: usize = 0;
    while i < v.len()
        invariant
            i <= v@.len(),
            s@ == v@.take(i as int),
        decreases v@.len() - i,
    {
        push_char(&mut s, v[i]);
        i = i + 1;
        assert(v@.take(i as int) =~= v@.take((i - 1) as int).push(v@[i - 1]));
    }
    assert(v@.take(i as int) =~= v@);
    s
}

/// Whether two character sequences are equal.
pub fn chars_eq(a: &[char], b: &[char]) -> (r: bool)
    ensures
        r == (a@ == b@),
{
    if a.len() != b.len() {
        return false;
    }
    let mut i: usize = 0;
    while i < a.len()
        invariant
            a@.len() == b@.len(),
            i <= a@.len(),
            forall|j: int| 0 <= j < i ==> a@[j] == b@[j],
        decreases a@.len() - i,
    {
        if a[i] != b[i] {
            return false;
        }
        i = i + 1;
    }
    assert(a@ =~= b@);
    true
}

/// Whether the characters of `a` equal those of the literal `lit`.
pub fn chars_eq_str(a: &[char], lit: &str) -> (r: bool)
    ensures
        r == (a@ == lit@),
{
    let l = chars_of(lit);
    chars_eq(a, l.as_slice())
}

/// Whether two strings hold the same characters.
pub fn str_eq(a: &str, b: &str) -> (r: bool)
    ensures
        r == (a@ == b@),
{
    let x = chars_of(a);
    let y = chars_of(b);
    chars_eq(x.as_slice(), y.as_slice())
}

/// `s[from..to]` as a new vector.
pub fn slice_chars(s: &[char], from: usize, to: usize) -> (r: Vec<char>)
    requires
        from <= to <= s@.len(),
    ensures
        r@ == s@.subrange(from as int, to as int),
{
    let mut r: Vec<char> = Vec::new();
    let mut i = from;
    while i < to
        invariant
            from <= i <= to <= s@.len(),
            r@ == s@.subrange(from as int, i as int),
        decreases to - i,
    {
        r.push(s[i]);
        i = i + 1;
        assert(r@ =~= s@.subrange(from as int, i as int));
    }
    r
}

/// `a` followed by `b`.
pub fn concat_chars(a: &[char], b: &[char]) -> (r: Vec<char>)
    ensures
        r@ == a@ + b@,
{
    let mut r = slice_chars(a, 0, a.len());
    let mut i: usize = 0;
    while i < b.len()
        invariant
            i <= b@.len(),
            r@ == a@ + b@.take(i as int),
        decreases b@.len() - i,
    {
        r.push(b[i]);
        i = i + 1;
        assert(r@ =~= a@ + b@.take(i as int));
    }
    assert(b@.take(i as int) =~= b@);
    r
}

// ---------------------------------------------------------------------------------------
// Prefixes and suffixes
// ---------------------------------------------------------------------------------------
/// Whether `s` starts with `p`.
pub open spec fn has_prefix(s: Seq<char>, p: Seq<char>) -> bool {
    p.len() <= s.len() && s.take(p.len() as int) == p
}

/// Whether `s` ends with `p`.
pub open spec fn has_suffix(s: Seq<char>, p: Seq<char>) -> bool {
    p.len() <= s.len() && s.skip(s.len() - p.len()) == p
}

pub fn starts_with(s: &[char], p: &[char]) -> (r: bool)
    ensures
        r == has_prefix(s@, p@),
{
    if p.len() > s.len() {
        return false;
    }
    let mut i: usize = 0;
    while i < p.len()
        invariant
            p@.len() <= s@.len(),
            i <= p@.len(),
            forall|j: int| 0 <= j < i ==> s@[j] == p@[j],
        decreases p@.len() - i,
    {
        if s[i] != p[i] {
            assert(s@.take(p@.len() as int)[i as int] != p@[i as int]);
            return false;
        }
        i = i + 1;
    }
    assert(s@.take(p@.len() as int) =~= p@);
    true
}

pub fn ends_with(s: &[char], p: &[char]) -> (r: bool)
    ensures
        r == has_suffix(s@, p@),
{
    if p.len() > s.len() {
        return false;
    }
    let slen = s.len();
    let off = slen - p.len();
    let mut i: usize = 0;
    while i < p.len()
        invariant
            p@.len() <= s@.len(),
            slen == s@.len(),
            off + p@.len() == slen,
            off == s@.len() - p@.len(),
            i <= p@.len(),
            forall|j: int| 0 <= j < i ==> s@[off + j] == p@[j],
        decreases p@.len() - i,
    {
        if s[off + i] != p[i] {
            assert(s@.skip(off as int)[i as int] != p@[i as int]);
            return false;
        }
        i = i + 1;
    }
    assert(s@.skip(off as int) =~= p@);
    true
}

// ---------------------------------------------------------------------------------------
// `::`-separated paths
// ---------------------------------------------------------------------------------------
/// Whether a `::` separator starts at `i`.
pub open spec fn sep_at(s: Seq<char>, i: int) -> bool {
    0 <= i && i + 1 < s.len() && s[i] == ':' && s[i + 1] == ':'
}

/// `str::split("::")`: the pieces between the separators, read left to right, an empty
/// piece wherever two separators touch or one sits at either end.
pub open spec fn split_sep(s: Seq<char>) -> Seq<Seq<char>>
    decreases s.len(),
{
    if s.len() < 2 {
        seq![s]
    } else if s[0] == ':' && s[1] == ':' {
        seq![Seq::<char>::empty()] + split_sep(s.skip(2))
    } else {
        let rest = split_sep(s.skip(1));
        rest.update(0, seq![s[0]] + rest[0])
    }
}

/// Prepends `cur` to the first piece of `pieces`.
pub open spec fn glue(cur: Seq<char>, pieces: Seq<Seq<char>>) -> Seq<Seq<char>> {
    pieces.update(0, cur + pieces[0])
}

/// The character sequences of a list of character vectors.
pub open spec fn vviews(v: Seq<Vec<char>>) -> Seq<Seq<char>> {
    v.map_values(|x: Vec<char>| x@)
}

pub proof fn lemma_vviews_push(v: Seq<Vec<char>>, x: Vec<char>)
    ensures
        vviews(v.push(x)) == vviews(v).push(x@),
{
    assert(vviews(v.push(x)) =~= vviews(v).push(x@));
}

proof fn lemma_glue_step(cur: Seq<char>, c: char, rest: Seq<Seq<char>>)
    requires
        rest.len() >= 1,
    ensures
        glue(cur, rest.update(0, seq![c] + rest[0])) == glue(cur.push(c), rest),
{
    assert(cur + (seq![c] + rest[0]) =~= cur.push(c) + rest[0]);
    assert(glue(cur, rest.update(0, seq![c] + rest[0])) =~= glue(cur.push(c), rest));
}

pub proof fn lemma_split_sep_nonempty(s: Seq<char>)
    ensures
        split_sep(s).len() >= 1,
    decreases s.len(),
{
    if s.len() >= 2 {
        if s[0] == ':' && s[1] == ':' {
            lemma_split_sep_nonempty(s.skip(2));
        } else {
            lemma_split_sep_nonempty(s.skip(1));
        }
    }
}

/// Pieces joined back with `::` between each two.
pub open spec fn join_sep(parts: Seq<Seq<char>>) -> Seq<char>
    decreases parts.len(),
{
    if parts.len() == 0 {
        Seq::empty()
    } else if parts.len() == 1 {
        parts[0]
    } else {
        join_sep(parts.drop_last()) + seq![':', ':'] + parts.last()
    }
}

/// The `::`-separated segments of `s` (`str::split("::")`).
pub fn split_path(s: &[char]) -> (r: Vec<Vec<char>>)
    ensures
        vviews(r@) == split_sep(s@),
{
    let mut done: Vec<Vec<char>> = Vec::new();
    let mut cur: Vec<char> = Vec::new();
    let mut i: usize = 0;
    let n = s.len();
    proof {
        lemma_split_sep_nonempty(s@);
        assert(s@.skip(0) =~= s@);
        assert(glue(seq![], split_sep(s@)) =~= split_sep(s@));
    }
    while i < n
        invariant
            n == s@.len(),
            i <= n,
            split_sep(s@) == vviews(done@) + glue(cur@, split_sep(s@.skip(i as int))),
        decreases n - i,
    {
        let ghost t = s@.skip(i as int);
        proof {
            lemma_split_sep_nonempty(t);
        }
        if i + 1 < n && s[i] == ':' && s[i + 1] == ':' {
            proof {
                assert(t[0] == ':' && t[1] == ':');
                assert(t.skip(2) =~= s@.skip(i + 2));
                lemma_split_sep_nonempty(t.skip(2));
                assert(glue(cur@, split_sep(t)) =~= seq![cur@] + split_sep(t.skip(2)));
                assert(glue(seq![], split_sep(t.skip(2))) =~= split_sep(t.skip(2)));
            }
            let ghost old_done = vviews(done@);
            let ghost old_cur = cur@;
            let ghost od = done@;
            done.push(cur);
            proof { lemma_vviews_push(od, done@.last()); }
            cur = Vec::new();
            i = i + 2;
            proof {
                assert(old_done + (seq![old_cur] + split_sep(s@.skip(i as int)))
                    =~= old_done.push(old_cur) + split_sep(s@.skip(i as int)));
            }
        } else {
            let ghost old_cur = cur@;
            proof {
                assert(t.skip(1) =~= s@.skip(i + 1));
                lemma_split_sep_nonempty(t.skip(1));
                if t.len() >= 2 {
                    lemma_glue_step(old_cur, t[0], split_sep(t.skip(1)));
                } else {
                    assert(t.skip(1).len() == 0);
                    assert(split_sep(t.skip(1)) == seq![t.skip(1)]);
                    assert(t =~= seq![t[0]]);
                    assert(old_cur + t =~= old_cur.push(t[0]) + t.skip(1));
                    assert(glue(old_cur, split_sep(t)) =~= glue(
                        old_cur.push(t[0]),
                        split_sep(t.skip(1)),
                    ));
                }
            }
            cur.push(s[i]);
            i = i + 1;
        }
    }
    proof {
        assert(s@.skip(n as int) =~= Seq::<char>::empty());
        assert(glue(cur@, split_sep(Seq::<char>::empty())) =~= seq![cur@]);
    }
    let ghost od = done@;
    let ghost old_done = vviews(done@);
    let ghost old_cur = cur@;
    done.push(cur);
    proof {
        lemma_vviews_push(od, done@.last());
        assert(old_done.push(old_cur) =~= old_done + seq![old_cur]);
    }
    done
}

/// `parts` joined with `::` (`[..].join("::")`).
pub fn join_path(parts: &[Vec<char>]) -> (r: Vec<char>)
    ensures
        r@ == join_sep(vviews(parts@)),
{
    let mut r: Vec<char> = Vec::new();
    let mut i: usize = 0;
    while i < parts.len()
        invariant
            i <= parts@.len(),
            r@ == join_sep(vviews(parts@).take(i as int)),
        decreases parts@.len() - i,
    {
        let ghost pre = vviews(parts@).take(i as int);
        if i > 0 {
            r.push(':');
            r.push(':');
        }
        let part = &parts[i];
        let mut j: usize = 0;
        let ghost base = r@;
        while j < part.len()
            invariant
                j <= part@.len(),
                r@ == base + part@.take(j as int),
            decreases part@.len() - j,
        {
            r.push(part[j]);
            j = j + 1;
            assert(r@ =~= base + part@.take(j as int));
        }
        proof {
            assert(part@.take(j as int) =~= part@);
            let next = vviews(parts@).take(i + 1);
            assert(next.drop_last() =~= pre);
            assert(next.last() == part@);
            if i == 0 {
                assert(next =~= seq![part@]);
            }
        }
        i = i + 1;
    }
    assert(vviews(parts@).take(i as int) =~= vviews(parts@));
    r
}

/// The last `::` separator in `s` (where `str::rsplit_once("::")` splits).
pub open spec fn last_sep(s: Seq<char>) -> Option<int>
    decreases s.len(),
{
    if s.len() < 2 {
        None
    } else if s[s.len() - 2] == ':' && s[s.len() - 1] == ':' {
        Some(s.len() - 2)
    } else {
        last_sep(s.drop_last())
    }
}

pub proof fn lemma_last_sep(s: Seq<char>)
    ensures
        last_sep(s) matches Some(i) ==> sep_at(s, i) && forall|j: int| i < j ==> !sep_at(s, j),
        last_sep(s) is None ==> forall|j: int| !sep_at(s, j),
    decreases s.len(),
{
    if s.len() >= 2 && !(s[s.len() - 2] == ':' && s[s.len() - 1] == ':') {
        lemma_last_sep(s.drop_last());
        assert forall|j: int| sep_at(s, j) implies j + 1 < s.len() - 1 by {}
        assert forall|j: int| j + 1 < s.len() - 1 && sep_at(s, j) implies sep_at(s.drop_last(), j) by {}
    }
}

/// `str::rsplit_once("::")`: everything before and after the last separator.
pub open spec fn rsplit_once_sep(s: Seq<char>) -> Option<(Seq<char>, Seq<char>)> {
    match last_sep(s) {
        Some(i) => Some((s.take(i), s.skip(i + 2))),
        None => None,
    }
}

pub fn rsplit_once_path(s: &[char]) -> (r: Option<(Vec<char>, Vec<char>)>)
    ensures
        match rsplit_once_sep(s@) {
            Some((a, b)) => r matches Some((x, y)) && x@ == a && y@ == b,
            None => r is None,
        },
{
    let n = s.len();
    let mut k = n;
    assert(s@.take(n as int) =~= s@);
    // `k` is the exclusive end of the suffix still to be examined.
    while k >= 2
        invariant
            k <= n == s@.len(),
            last_sep(s@) == last_sep(s@.take(k as int)),
        decreases k,
    {
        let ghost t = s@.take(k as int);
        if s[k - 2] == ':' && s[k - 1] == ':' {
            assert(last_sep(t) == Some(k - 2));
            let a = slice_chars(s, 0, k - 2);
            let b = slice_chars(s, k, n);
            assert(a@ =~= s@.take(k - 2));
            assert(b@ =~= s@.skip(k as int));
            return Some((a, b));
        }
        assert(t.drop_last() =~= s@.take(k - 1));
        k = k - 1;
    }
    assert(last_sep(s@.take(k as int)) is None);
    None
}

/// The first `::` separator in `s` (where `str::split_once("::")` splits).
pub open spec fn first_sep(s: Seq<char>) -> Option<int>
    decreases s.len(),
{
    if s.len() < 2 {
        None
    } else if s[0] == ':' && s[1] == ':' {
        Some(0)
    } else {
        match first_sep(s.skip(1)) {
            Some(i) => Some(i + 1),
            None => None,
        }
    }
}

/// `str::split_once("::")`.
pub open spec fn split_once_sep(s: Seq<char>) -> Option<(Seq<char>, Seq<char>)> {
    match first_sep(s) {
        Some(i) => Some((s.take(i), s.skip(i + 2))),
        None => None,
    }
}

pub fn split_once_path(s: &[char]) -> (r: Option<(Vec<char>, Vec<char>)>)
    ensures
        match split_once_sep(s@) {
            Some((a, b)) => r matches Some((x, y)) && x@ == a && y@ == b,
            None => r is None,
        },
{
    let n = s.len();
    let mut i: usize = 0;
    assert(s@.skip(0) =~= s@);
    while i < n
        invariant
            i <= n == s@.len(),
            first_sep(s@) == (match first_sep(s@.skip(i as int)) {
                Some(j) => Some(j + i),
                None => None::<int>,
            }),
        decreases n - i,
    {
        let ghost t = s@.skip(i as int);
        if i + 1 < n && s[i] == ':' && s[i + 1] == ':' {
            assert(first_sep(t) == Some(0int));
            let a = slice_chars(s, 0, i);
            let b = slice_chars(s, i + 2, n);
            assert(a@ =~= s@.take(i as int));
            assert(b@ =~= s@.skip(i + 2));
            return Some((a, b));
        }
        assert(t.skip(1) =~= s@.skip(i + 1));
        i = i + 1;
    }
    assert(first_sep(s@.skip(i as int)) is None);
    None
}

// ---------------------------------------------------------------------------------------
// Single-character separators
// ---------------------------------------------------------------------------------------
/// `str::split(c)`: the pieces between occurrences of `c`.
pub open spec fn split_char(s: Seq<char>, c: char) -> Seq<Seq<char>>
    decreases s.len(),
{
    if s.len() == 0 {
        seq![s]
    } else if s[0] == c {
        seq![Seq::<char>::empty()] + split_char(s.skip(1), c)
    } else {
        let rest = split_char(s.skip(1), c);
        rest.update(0, seq![s[0]] + rest[0])
    }
}

pub proof fn lemma_split_char_nonempty(s: Seq<char>, c: char)
    ensures
        split_char(s, c).len() >= 1,
    decreases s.len(),
{
    if s.len() > 0 {
        lemma_split_char_nonempty(s.skip(1), c);
    }
}

/// The pieces of `s` between occurrences of `c`.
pub fn split_on(s: &[char], c: char) -> (r: Vec<Vec<char>>)
    ensures
        vviews(r@) == split_char(s@, c),
{
    let mut done: Vec<Vec<char>> = Vec::new();
    let mut cur: Vec<char> = Vec::new();
    let mut i: usize = 0;
    let n = s.len();
    proof {
        lemma_split_char_nonempty(s@, c);
        assert(s@.skip(0) =~= s@);
        assert(glue(seq![], split_char(s@, c)) =~= split_char(s@, c));
    }
    while i < n
        invariant
            n == s@.len(),
            i <= n,
            split_char(s@, c) == vviews(done@) + glue(cur@, split_char(s@.skip(i as int), c)),
        decreases n - i,
    {
        let ghost t = s@.skip(i as int);
        proof {
            assert(t.skip(1) =~= s@.skip(i + 1));
            lemma_split_char_nonempty(t.skip(1), c);
        }
        if s[i] == c {
            let ghost old_done = vviews(done@);
            let ghost old_cur = cur@;
            proof {
                assert(glue(cur@, split_char(t, c)) =~= seq![cur@] + split_char(t.skip(1), c));
                assert(glue(seq![], split_char(t.skip(1), c)) =~= split_char(t.skip(1), c));
            }
            done.push(cur);
            cur = Vec::new();
            i = i + 1;
            proof {
                assert(old_done + (seq![old_cur] + split_char(s@.skip(i as int), c))
                    =~= old_done.push(old_cur) + split_char(s@.skip(i as int), c));
            }
        } else {
            proof {
                lemma_glue_step(cur@, t[0], split_char(t.skip(1), c));
            }
            cur.push(s[i]);
            i = i + 1;
        }
    }
    proof {
        assert(s@.skip(n as int) =~= Seq::<char>::empty());
        assert(glue(cur@, split_char(Seq::<char>::empty(), c)) =~= seq![cur@]);
    }
    let ghost od = done@;
    let ghost old_done = vviews(done@);
    let ghost old_cur = cur@;
    done.push(cur);
    proof {
        lemma_vviews_push(od, done@.last());
        assert(old_done.push(old_cur) =~= old_done + seq![old_cur]);
    }
    done
}

/// Index of the last occurrence of `c` in `s`.
pub open spec fn last_index_of(s: Seq<char>, c: char) -> Option<int>
    decreases s.len(),
{
    if s.len() == 0 {
        None
    } else if s.last() == c {
        Some(s.len() - 1)
    } else {
        last_index_of(s.drop_last(), c)
    }
}

/// `str::rsplit_once(c)`.
pub open spec fn rsplit_once_char(s: Seq<char>, c: char) -> Option<(Seq<char>, Seq<char>)> {
    match last_index_of(s, c) {
        Some(i) => Some((s.take(i), s.skip(i + 1))),
        None => None,
    }
}

pub fn rsplit_once_on(s: &[char], c: char) -> (r: Option<(Vec<char>, Vec<char>)>)
    ensures
        match rsplit_once_char(s@, c) {
            Some((a, b)) => r matches Some((x, y)) && x@ == a && y@ == b,
            None => r is None,
        },
{
    let n = s.len();
    let mut k = n;
    assert(s@.take(n as int) =~= s@);
    while k > 0
        invariant
            k <= n == s@.len(),
            last_index_of(s@, c) == last_index_of(s@.take(k as int), c),
        decreases k,
    {
        let ghost t = s@.take(k as int);
        if s[k - 1] == c {
            assert(last_index_of(t, c) == Some(k - 1));
            let a = slice_chars(s, 0, k - 1);
            let b = slice_chars(s, k, n);
            assert(a@ =~= s@.take(k - 1));
            assert(b@ =~= s@.skip(k as int));
            return Some((a, b));
        }
        assert(t.drop_last() =~= s@.take(k - 1));
        k = k - 1;
    }
    None
}

} // verus!
