//! A deterministic parse of a `--change` description into a specific kind of edit. This
//! is a small fixed grammar, not NLP: identical input always makes the same traversal
//! decisions. Unparseable input is a hard error, never a best-effort guess.
//!
//! Grammar (each line one accepted form):
//! ```text
//! rename <path>
//! rename <path> to <path>
//! remove <path>
//! remove variant <path>::<ident>
//! remove field <path>.<ident>
//! change signature of <path>
//! ```
use vstd::prelude::*;

use crate::text::{
    char_is_whitespace, chars_eq_str, chars_of, is_unicode_whitespace, rsplit_once_char, rsplit_once_on,
    rsplit_once_path, rsplit_once_sep, string_of,
};

verus! {

#[derive(Debug, Clone, PartialEq, Eq)]
pub enum ChangeSpec {
    Rename { path: String },
    RemoveSymbol { path: String },
    SignatureChange { path: String },
    RemoveVariant { enum_path: String, variant: String },
    /// Coarser than the other variants: field accesses are not tracked, so a field
    /// removal's blast radius is approximated as the containing type's.
    RemoveField { type_path: String, field: String },
}

pub enum ChangeView {
    Rename(Seq<char>),
    RemoveSymbol(Seq<char>),
    SignatureChange(Seq<char>),
    RemoveVariant(Seq<char>, Seq<char>),
    RemoveField(Seq<char>, Seq<char>),
}

impl View for ChangeSpec {
    type V = ChangeView;

    open spec fn view(&self) -> ChangeView {
        match self {
            ChangeSpec::Rename { path } => ChangeView::Rename(path@),
            ChangeSpec::RemoveSymbol { path } => ChangeView::RemoveSymbol(path@),
            ChangeSpec::SignatureChange { path } => ChangeView::SignatureChange(path@),
            ChangeSpec::RemoveVariant { enum_path, variant } => ChangeView::RemoveVariant(enum_path@, variant@),
            ChangeSpec::RemoveField { type_path, field } => ChangeView::RemoveField(type_path@, field@),
        }
    }
}

/// The last `::`-separated segment of `p` (all of `p` if it has none).
pub open spec fn last_segment(p: Seq<char>) -> Seq<char> {
    match rsplit_once_sep(p) {
        Some((_, b)) => b,
        None => p,
    }
}

/// The path a change resolves against: `Enum::Variant` for a removed variant (the shape
/// the resolver's last-two-segments tier understands), the containing type for a removed
/// field, the path itself otherwise.
pub open spec fn target_of(c: ChangeView) -> Seq<char> {
    match c {
        ChangeView::Rename(p) => p,
        ChangeView::RemoveSymbol(p) => p,
        ChangeView::SignatureChange(p) => p,
        ChangeView::RemoveVariant(e, v) => last_segment(e) + "::"@ + v,
        ChangeView::RemoveField(t, _) => t,
    }
}

impl ChangeSpec {
    pub fn target_path(&self) -> (r: String)
        ensures
            r@ == target_of(self@),
    {
        match self {
            ChangeSpec::Rename { path } => path.clone(),
            ChangeSpec::RemoveSymbol { path } => path.clone(),
            ChangeSpec::SignatureChange { path } => path.clone(),
            ChangeSpec::RemoveVariant { enum_path, variant } => {
                let e = chars_of(enum_path.as_str());
                let mut out = match rsplit_once_path(e.as_slice()) {
                    Some((_, b)) => b,
                    None => e,
                };
                let mut sep = chars_of("::");
                let mut v = chars_of(variant.as_str());
                out.append(&mut sep);
                out.append(&mut v);
                proof {
                    assert(out@ =~= last_segment(enum_path@) + "::"@ + variant@);
                }
                string_of(out.as_slice())
            },
            ChangeSpec::RemoveField { type_path, .. } => type_path.clone(),
        }
    }
}

/// The input did not match the grammar.
#[derive(Debug, Clone, PartialEq, Eq)]
pub struct ParseChangeError {
    pub input: String,
}

/// `str::split_whitespace`: the maximal runs of non-whitespace characters, in order.
pub open spec fn words(s: Seq<char>) -> Seq<Seq<char>>
    decreases s.len(),
{
    if s.len() == 0 {
        Seq::empty()
    } else {
        let r = words(s.drop_last());
        let c = s.last();
        if is_unicode_whitespace(c) {
            r
        } else if s.len() >= 2 && !is_unicode_whitespace(s[s.len() - 2]) && r.len() > 0 {
            r.update(r.len() - 1, r.last().push(c))
        } else {
            r.push(seq![c])
        }
    }
}

/// What the grammar makes of a token list.
pub open spec fn parse_words(t: Seq<Seq<char>>) -> Option<ChangeView> {
    if t.len() == 2 && t[0] == "rename"@ {
        Some(ChangeView::Rename(t[1]))
    } else if t.len() == 4 && t[0] == "rename"@ && t[2] == "to"@ {
        Some(ChangeView::Rename(t[1]))
    } else if t.len() == 3 && t[0] == "remove"@ && t[1] == "variant"@ {
        match rsplit_once_sep(t[2]) {
            Some((e, v)) => Some(ChangeView::RemoveVariant(e, v)),
            None => None,
        }
    } else if t.len() == 3 && t[0] == "remove"@ && t[1] == "field"@ {
        match rsplit_once_char(t[2], '.') {
            Some((ty, f)) => Some(ChangeView::RemoveField(ty, f)),
            None => None,
        }
    } else if t.len() == 2 && t[0] == "remove"@ {
        Some(ChangeView::RemoveSymbol(t[1]))
    } else if t.len() == 4 && t[0] == "change"@ && t[1] == "signature"@ && t[2] == "of"@ {
        Some(ChangeView::SignatureChange(t[3]))
    } else {
        None
    }
}

pub open spec fn vec_views(v: Seq<Vec<char>>) -> Seq<Seq<char>> {
    v.map_values(|x: Vec<char>| x@)
}

/// Splits `s` into whitespace-separated words.
fn split_words(s: &str) -> (r: Vec<Vec<char>>)
    ensures
        vec_views(r@) == words(s@),
{
    let cs = chars_of(s);
    split_word_chars(cs.as_slice())
}

/// Splits `cs` into whitespace-separated words.
pub(crate) fn split_word_chars(cs: &[char]) -> (r: Vec<Vec<char>>)
    ensures
        vec_views(r@) == words(cs@),
{
    let ghost t = cs@;
    let mut done: Vec<Vec<char>> = Vec::new();
    let mut cur: Vec<char> = Vec::new();
    let mut i: usize = 0;
    proof {
        assert(t.take(0) =~= Seq::<char>::empty());
        assert(vec_views(done@) =~= Seq::<Seq<char>>::empty());
    }
    while i < cs.len()
        invariant
            i <= t.len(),
            t == cs@,
            words(t.take(i as int)) == if cur@.len() > 0 {
                vec_views(done@).push(cur@)
            } else {
                vec_views(done@)
            },
            cur@.len() > 0 <==> (i > 0 && !is_unicode_whitespace(t[i - 1])),
        decreases t.len() - i,
    {
        let c = cs[i];
        let ghost w0 = words(t.take(i as int));
        proof {
            assert(t.take(i + 1).drop_last() =~= t.take(i as int));
            assert(t.take(i + 1).last() == c);
        }
        if char_is_whitespace(c) {
            if cur.len() > 0 {
                let ghost od = vec_views(done@);
                let mut full: Vec<char> = Vec::new();
                std::mem::swap(&mut full, &mut cur);
                done.push(full);
                proof {
                    assert(vec_views(done@) =~= od.push(full@));
                }
            }
        } else {
            proof {
                if i > 0 && !is_unicode_whitespace(t[i - 1]) {
                    assert(t.take(i + 1)[i - 1] == t[i - 1]);
                    assert(w0.len() > 0);
                    assert(w0 == vec_views(done@).push(cur@));
                    assert(w0.update(w0.len() - 1, w0.last().push(c)) =~= vec_views(done@).push(cur@.push(c)));
                } else {
                    assert(cur@.len() == 0);
                    assert(w0 == vec_views(done@));
                    assert(cur@.push(c) =~= seq![c]);
                    assert(w0.push(seq![c]) =~= vec_views(done@).push(cur@.push(c)));
                }
            }
            cur.push(c);
        }
        i = i + 1;
    }
    proof {
        assert(t.take(t.len() as int) =~= t);
    }
    if cur.len() > 0 {
        let ghost od = vec_views(done@);
        done.push(cur);
        proof {
            assert(vec_views(done@) =~= od.push(cur@));
        }
    }
    done
}

pub fn parse_change(input: &str) -> (r: Result<ChangeSpec, ParseChangeError>)
    ensures
        match r {
            Ok(c) => parse_words(words(input@)) == Some(c@),
            Err(e) => parse_words(words(input@)) is None && e.input@ == input@,
        },
{
    let t = split_words(input);
    let ghost tv = vec_views(t@);
    let n = t.len();
    proof {
        assert(n == tv.len());
        assert forall|k: int| 0 <= k < n implies #[trigger] tv[k] == t@[k]@ by {}
    }
    if n == 2 && chars_eq_str(t[0].as_slice(), "rename") {
        return Ok(ChangeSpec::Rename { path: string_of(t[1].as_slice()) });
    }
    if n == 4 && chars_eq_str(t[0].as_slice(), "rename") && chars_eq_str(t[2].as_slice(), "to") {
        return Ok(ChangeSpec::Rename { path: string_of(t[1].as_slice()) });
    }
    if n == 3 && chars_eq_str(t[0].as_slice(), "remove") && chars_eq_str(t[1].as_slice(), "variant") {
        return match rsplit_once_path(t[2].as_slice()) {
            Some((e, v)) => Ok(ChangeSpec::RemoveVariant { enum_path: string_of(e.as_slice()), variant: string_of(v.as_slice()) }),
            None => Err(ParseChangeError { input: input.to_string() }),
        };
    }
    if n == 3 && chars_eq_str(t[0].as_slice(), "remove") && chars_eq_str(t[1].as_slice(), "field") {
        return match rsplit_once_on(t[2].as_slice(), '.') {
            Some((ty, f)) => Ok(ChangeSpec::RemoveField { type_path: string_of(ty.as_slice()), field: string_of(f.as_slice()) }),
            None => Err(ParseChangeError { input: input.to_string() }),
        };
    }
    if n == 2 && chars_eq_str(t[0].as_slice(), "remove") {
        return Ok(ChangeSpec::RemoveSymbol { path: string_of(t[1].as_slice()) });
    }
    if n == 4 && chars_eq_str(t[0].as_slice(), "change") && chars_eq_str(t[1].as_slice(), "signature")
        && chars_eq_str(t[2].as_slice(), "of") {
        return Ok(ChangeSpec::SignatureChange { path: string_of(t[3].as_slice()) });
    }
    Err(ParseChangeError { input: input.to_string() })
}

} // verus!
