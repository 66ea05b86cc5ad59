//! Splitting a tab name into a status prefix and a base name.
//!
//! A status is any first grapheme cluster that is followed by a space; the
//! base name is what remains after that space. Grapheme segmentation keeps
//! multi-codepoint status glyphs (flags, skin tones) in one piece.

use unicode_segmentation::UnicodeSegmentation;
use vstd::prelude::*;
use vstd::string::StrSliceExecFns;

verus! {

/// The first extended grapheme cluster of `s`, as segmented by the
/// unicode_segmentation crate. Meaningful only for non-empty `s`.
pub uninterp spec fn first_grapheme_of(s: Seq<char>) -> Seq<char>;

/// Relies on unicode_segmentation's `UnicodeSegmentation::graphemes`: the
/// iterator yields the extended grapheme clusters of the string in order, as
/// substrings of it whose concatenation is the whole string. On a non-empty
/// string the first cluster is therefore a non-empty prefix; on an empty
/// string the iterator yields nothing.
#[verifier::external_body]
fn first_grapheme(s: &str) -> (r: Option<String>)
    ensures
        r is Some <==> s@.len() > 0,
        r matches Some(g) ==> {
            &&& g@ == first_grapheme_of(s@)
            &&& 1 <= g@.len() <= s@.len()
            &&& g@ == s@.subrange(0, g@.len() as int)
        },
{
    UnicodeSegmentation::graphemes(s, true).next().map(|g| g.to_string())
}

/// Whether `s` starts with a status: a first grapheme cluster followed by a
/// space.
pub open spec fn has_status_prefix(s: Seq<char>) -> bool {
    let k = first_grapheme_of(s).len();
    s.len() > 0 && k < s.len() && s[k as int] == ' '
}

/// The name with one status prefix stripped, or the whole name when it has no
/// status prefix.
pub open spec fn base_name_of(s: Seq<char>) -> Seq<char> {
    if has_status_prefix(s) {
        s.skip(first_grapheme_of(s).len() as int + 1)
    } else {
        s
    }
}

/// The status prefix of the name, or the empty sequence when it has none.
pub open spec fn status_of(s: Seq<char>) -> Seq<char> {
    if has_status_prefix(s) {
        first_grapheme_of(s)
    } else {
        Seq::<char>::empty()
    }
}

/// Extract the base name from a tab name: strip the first grapheme cluster
/// and the following space, when that space is there.
pub fn extract_base_name(name: &str) -> (r: String)
    ensures
        r@ == base_name_of(name@),
{
    match first_grapheme(name) {
        None => name.to_owned(),
        Some(g) => {
            let k = g.as_str().unicode_len();
            let n = name.unicode_len();
            if k < n && name.get_char(k) == ' ' {
                let r = name.substring_char(k + 1, n).to_owned();
                proof {
                    assert(r@ =~= base_name_of(name@));
                }
                r
            } else {
                name.to_owned()
            }
        },
    }
}

/// Extract the status from a tab name: the first grapheme cluster, when a
/// space follows it; the empty string otherwise.
pub fn extract_status(name: &str) -> (r: String)
    ensures
        r@ == status_of(name@),
{
    match first_grapheme(name) {
        None => {
            let r = String::new();
            proof {
                assert(r@ =~= status_of(name@));
            }
            r
        },
        Some(g) => {
            let k = g.as_str().unicode_len();
            let n = name.unicode_len();
            if k < n && name.get_char(k) == ' ' {
                g
            } else {
                let r = String::new();
                proof {
                    assert(r@ =~= status_of(name@));
                }
                r
            }
        },
    }
}

} // verus!
