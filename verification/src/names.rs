//! Identifier text rules shared by lowering, navigation and renaming.
use vstd::prelude::*;

use crate::text::{spec_trim, str_eq, trim_str};

verus! {

/// Index of the first occurrence of `c` in `s`, or `s.len()` when absent.
pub open spec fn index_of_char(s: Seq<char>, c: char) -> nat
    decreases s.len(),
{
    if s.len() == 0 || s[0] == c {
        0
    } else {
        1 + index_of_char(s.drop_first(), c)
    }
}

/// The binding name of a dependent identifier such as `@len` or `@header.len`:
/// whitespace trimmed, one leading `@` dropped, and the text cut at the first `.`.
pub open spec fn spec_dependent_binding_name(text: Seq<char>) -> Option<Seq<char>> {
    let t = spec_trim(text);
    let b = if t.len() > 0 && t[0] == '@' {
        t.drop_first()
    } else {
        t
    };
    let k = index_of_char(b, '.');
    if k > 0 {
        Some(b.take(k as int))
    } else {
        None
    }
}

pub proof fn lemma_index_of_char(s: Seq<char>, c: char, j: int)
    requires
        0 <= j <= s.len(),
        forall|k: int| 0 <= k < j ==> #[trigger] s[k] != c,
        j == s.len() || s[j] == c,
    ensures
        index_of_char(s, c) == j,
    decreases j,
{
    if j > 0 {
        let t = s.drop_first();
        assert forall|k: int| 0 <= k < j - 1 implies #[trigger] t[k] != c by {
            assert(t[k] == s[k + 1]);
        }
        if j < s.len() {
            assert(t[j - 1] == s[j]);
        }
        lemma_index_of_char(t, c, j - 1);
        assert(s[0] != c);
    }
}

/// Returns the binding name referenced by a dependent identifier like `@len`
/// or `@header.len`.
pub fn dependent_binding_name(text: &str) -> (r: Option<&str>)
    ensures
        r.is_some() == spec_dependent_binding_name(text@).is_some(),
        r matches Some(s) ==> s@ == spec_dependent_binding_name(text@).unwrap(),
{
    let t = trim_str(text);
    let tn = t.unicode_len();
    let b = if tn > 0 && t.get_char(0) == '@' {
        let rest = t.substring_char(1, tn);
        assert(rest@ =~= t@.drop_first());
        rest
    } else {
        t
    };
    let n = b.unicode_len();
    let mut k: usize = 0;
    while k < n && b.get_char(k) != '.'
        invariant
            n == b@.len(),
            k <= n,
            forall|j: int| 0 <= j < k ==> #[trigger] b@[j] != '.',
        decreases n - k,
    {
        k = k + 1;
    }
    proof {
        lemma_index_of_char(b@, '.', k as int);
    }
    if k > 0 {
        let s = b.substring_char(0, k);
        assert(s@ =~= b@.take(k as int));
        Some(s)
    } else {
        None
    }
}

pub open spec fn spec_is_ascii_alpha(c: char) -> bool {
    ('a' <= c && c <= 'z') || ('A' <= c && c <= 'Z')
}

pub open spec fn spec_is_ascii_digit(c: char) -> bool {
    '0' <= c && c <= '9'
}

/// The words that cannot be used as identifiers.
pub open spec fn spec_is_reserved_word(s: Seq<char>) -> bool {
    s == "const"@ || s == "enum"@ || s == "choose"@ || s == "wrap"@ || s == "Option"@ || s
        == "Vec"@ || s == "Tail"@ || s == "btc_varint"@ || s == "uleb128"@ || s == "u8"@ || s
        == "u16"@ || s == "u24"@ || s == "u32"@ || s == "u64"@ || s == "i8"@ || s == "i16"@
        || s == "i24"@ || s == "i32"@ || s == "i64"@
}

/// A non-empty identifier starting with `_` or an ASCII letter, continuing with
/// `_` or ASCII alphanumerics, and not a reserved word.
pub open spec fn spec_is_valid_identifier(s: Seq<char>) -> bool {
    &&& s.len() > 0
    &&& (s[0] == '_' || spec_is_ascii_alpha(s[0]))
    &&& forall|i: int|
        1 <= i < s.len() ==> (#[trigger] s[i] == '_' || spec_is_ascii_alpha(s[i])
            || spec_is_ascii_digit(s[i]))
    &&& !spec_is_reserved_word(s)
}

/// Returns whether a string is a valid Vest identifier.
pub fn is_valid_identifier_text(text: &str) -> (r: bool)
    ensures
        r == spec_is_valid_identifier(text@),
{
    let n = text.unicode_len();
    if n == 0 {
        return false;
    }
    let first = text.get_char(0);
    if !(first == '_' || ('a' <= first && first <= 'z') || ('A' <= first && first <= 'Z')) {
        return false;
    }
    let mut i: usize = 1;
    while i < n
        invariant
            n == text@.len(),
            1 <= i <= n,
            forall|j: int|
                1 <= j < i ==> (#[trigger] text@[j] == '_' || spec_is_ascii_alpha(text@[j])
                    || spec_is_ascii_digit(text@[j])),
        decreases n - i,
    {
        let ch = text.get_char(i);
        if !(ch == '_' || ('a' <= ch && ch <= 'z') || ('A' <= ch && ch <= 'Z') || ('0' <= ch
            && ch <= '9')) {
            return false;
        }
        i = i + 1;
    }
    !is_reserved_word(text)
}

/// Whether `text` is one of the reserved words.
pub fn is_reserved_word(text: &str) -> (r: bool)
    ensures
        r == spec_is_reserved_word(text@),
{
    str_eq(text, "const") || str_eq(text, "enum") || str_eq(text, "choose") || str_eq(
        text,
        "wrap",
    ) || str_eq(text, "Option") || str_eq(text, "Vec") || str_eq(text, "Tail") || str_eq(
        text,
        "btc_varint",
    ) || str_eq(text, "uleb128") || str_eq(text, "u8") || str_eq(text, "u16") || str_eq(
        text,
        "u24",
    ) || str_eq(text, "u32") || str_eq(text, "u64") || str_eq(text, "i8") || str_eq(
        text,
        "i16",
    ) || str_eq(text, "i24") || str_eq(text, "i32") || str_eq(text, "i64")
}

/// The symbol name that a syntax node of kind `kind` and text `text` refers to.
pub open spec fn spec_reference_name_text(kind: Seq<char>, text: Seq<char>) -> Option<Seq<char>> {
    if kind == "depend_id"@ {
        spec_dependent_binding_name(text)
    } else if kind == "variant_id"@ && text == "_"@ {
        None
    } else if kind == "variant_id"@ || kind == "var_id"@ || kind == "identifier"@ {
        if text.len() > 0 {
            Some(text)
        } else {
            None
        }
    } else {
        None
    }
}

/// Normalizes a syntax node's text into the symbol name.
pub fn reference_name_text<'a>(kind: &str, text: &'a str) -> (r: Option<&'a str>)
    ensures
        r.is_some() == spec_reference_name_text(kind@, text@).is_some(),
        r matches Some(s) ==> s@ == spec_reference_name_text(kind@, text@).unwrap(),
{
    if str_eq(kind, "depend_id") {
        dependent_binding_name(text)
    } else if str_eq(kind, "variant_id") && str_eq(text, "_") {
        None
    } else if str_eq(kind, "variant_id") || str_eq(kind, "var_id") || str_eq(kind, "identifier") {
        if text.unicode_len() > 0 {
            Some(text)
        } else {
            None
        }
    } else {
        None
    }
}

} // verus!
