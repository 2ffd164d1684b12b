//! Which texts `format_ident!` turns into an identifier, by the rule that
//! `proc_macro2` applies: an optional `r#`, then a character that is `_` or
//! XID_Start followed by XID_Continue characters, not all ASCII digits, and,
//! after `r#`, none of `_`, `super`, `self`, `Self`, `crate`.

use vstd::prelude::*;
use crate::decimal::{all_decimal_digits, is_decimal_digit};

verus! {

/// Whether `c` has the Unicode property XID_Start.
pub uninterp spec fn xid_start(c: char) -> bool;

/// Whether `c` has the Unicode property XID_Continue.
pub uninterp spec fn xid_continue(c: char) -> bool;

/// Calls `unicode_ident::is_xid_start`. Its answer is stated by name; of ASCII
/// characters the crate's table marks exactly the letters.
#[verifier::external_body]
fn is_xid_start(c: char) -> (r: bool)
    ensures
        r == xid_start(c),
        (c as u32) < 128 ==> (r <==> ('A' <= c <= 'Z' || 'a' <= c <= 'z')),
{
    unicode_ident::is_xid_start(c)
}

/// Calls `unicode_ident::is_xid_continue`. Its answer is stated by name; of
/// ASCII characters the crate's table marks exactly the letters, the digits
/// and `_`.
#[verifier::external_body]
fn is_xid_continue(c: char) -> (r: bool)
    ensures
        r == xid_continue(c),
        (c as u32) < 128 ==> (r <==> ('A' <= c <= 'Z' || 'a' <= c <= 'z' || '0' <= c <= '9' || c
            == '_')),
{
    unicode_ident::is_xid_continue(c)
}

/// An ASCII letter.
pub open spec fn is_ascii_letter(c: char) -> bool {
    'A' <= c <= 'Z' || 'a' <= c <= 'z'
}

/// An ASCII letter, digit or `_`.
pub open spec fn is_ascii_word_char(c: char) -> bool {
    is_ascii_letter(c) || '0' <= c <= '9' || c == '_'
}

/// Every character of `s` is ASCII.
pub open spec fn all_ascii(s: Seq<char>) -> bool {
    forall|i: int| 0 <= i < s.len() ==> (#[trigger] s[i] as u32) < 128
}

/// `s` is an identifier made of ASCII characters: a letter or `_`, then
/// letters, digits and `_`.
pub open spec fn ascii_ident(s: Seq<char>) -> bool {
    &&& s.len() > 0
    &&& (s[0] == '_' || is_ascii_letter(s[0]))
    &&& forall|i: int| 1 <= i < s.len() ==> is_ascii_word_char(#[trigger] s[i])
}

/// What `format_ident_ok` says of ASCII text, in plain terms.
pub open spec fn ascii_format_ident_ok(s: Seq<char>) -> bool {
    if s.len() >= 2 && s[0] == 'r' && s[1] == '#' {
        ascii_ident(s.skip(2)) && !is_unrawable(s.skip(2))
    } else {
        ascii_ident(s)
    }
}

/// `s` is accepted by `Ident::new`.
pub open spec fn plain_ident_ok(s: Seq<char>) -> bool {
    &&& s.len() > 0
    &&& !all_decimal_digits(s)
    &&& (s[0] == '_' || xid_start(s[0]))
    &&& forall|i: int| 1 <= i < s.len() ==> xid_continue(#[trigger] s[i])
}

/// `s` is a word that cannot be a raw identifier.
pub open spec fn is_unrawable(s: Seq<char>) -> bool {
    s == "_"@ || s == "super"@ || s == "self"@ || s == "Self"@ || s == "crate"@
}

/// `format_ident!` turns `s` into an identifier without panicking: after an
/// `r#` prefix by `Ident::new_raw`, otherwise by `Ident::new`.
pub open spec fn format_ident_ok(s: Seq<char>) -> bool {
    if s.len() >= 2 && s[0] == 'r' && s[1] == '#' {
        plain_ident_ok(s.skip(2)) && !is_unrawable(s.skip(2))
    } else {
        plain_ident_ok(s)
    }
}

proof fn lemma_all_digits_push(s: Seq<char>, c: char)
    ensures
        all_decimal_digits(s.push(c)) == (all_decimal_digits(s) && is_decimal_digit(c)),
{
    if all_decimal_digits(s.push(c)) {
        assert(is_decimal_digit(s.push(c)[s.len() as int]));
        assert forall|i: int| 0 <= i < s.len() implies is_decimal_digit(#[trigger] s[i]) by {
            assert(s.push(c)[i] == s[i]);
        }
    }
    if all_decimal_digits(s) && is_decimal_digit(c) {
        assert forall|i: int| 0 <= i < s.push(c).len() implies is_decimal_digit(#[trigger] s.push(c)[i]) by {
            if i < s.len() {
                assert(s.push(c)[i] == s[i]);
            }
        }
    }
}

fn plain_ident_text(s: &str, start: usize) -> (r: bool)
    requires
        start <= s@.len(),
    ensures
        r == plain_ident_ok(s@.skip(start as int)),
        all_ascii(s@.skip(start as int)) ==> r == ascii_ident(s@.skip(start as int)),
{
    let n = s.unicode_len();
    let ghost t = s@.skip(start as int);
    if start == n {
        return false;
    }
    let first = s.get_char(start);
    proof {
        if all_ascii(t) {
            assert((t[0] as u32) < 128);
        }
    }
    if !(first == '_' || is_xid_start(first)) {
        return false;
    }
    let mut i = start + 1;
    let mut all_digits = '0' <= first && first <= '9';
    proof {
        assert(t.take(1) =~= Seq::<char>::empty().push(first));
        lemma_all_digits_push(Seq::<char>::empty(), first);
    }
    while i < n
        invariant
            start < i <= n,
            n == s@.len(),
            t == s@.skip(start as int),
            t[0] == first,
            forall|k: int| 1 <= k < i - start ==> xid_continue(#[trigger] t[k]),
            all_digits == all_decimal_digits(t.take(i - start)),
            all_ascii(t) ==> (first == '_' || is_ascii_letter(first)),
            all_ascii(t) ==> forall|k: int| 1 <= k < i - start ==> is_ascii_word_char(#[trigger] t[k]),
        decreases n - i,
    {
        let c = s.get_char(i);
        assert(c == t[i - start]);
        if !is_xid_continue(c) {
            proof {
                if all_ascii(t) {
                    assert((t[i - start] as u32) < 128);
                    assert(!is_ascii_word_char(t[i - start]));
                }
            }
            return false;
        }
        proof {
            if all_ascii(t) {
                assert((t[i - start] as u32) < 128);
            }
        }
        assert(t.take(i - start + 1) =~= t.take(i - start).push(c));
        proof {
            lemma_all_digits_push(t.take(i - start), c);
        }
        all_digits = all_digits && '0' <= c && c <= '9';
        i = i + 1;
    }
    assert(t.take(i - start) =~= t);
    proof {
        if all_ascii(t) {
            assert(!is_decimal_digit(t[0]));
        }
    }
    !all_digits
}

fn equals_text(s: &str, w: &str) -> (r: bool)
    ensures
        r == (s@ == w@),
{
    let a = String::from_str(s);
    let b = String::from_str(w);
    a.eq(&b)
}

/// Whether `format_ident!("{}", s)` yields an identifier rather than panicking.
pub fn format_ident_accepts(s: &str) -> (r: bool)
    ensures
        r == format_ident_ok(s@),
        all_ascii(s@) ==> r == ascii_format_ident_ok(s@),
{
    let n = s.unicode_len();
    if n >= 2 && s.get_char(0) == 'r' && s.get_char(1) == '#' {
        proof {
            if all_ascii(s@) {
                assert forall|i: int| 0 <= i < s@.skip(2).len() implies (#[trigger] s@.skip(2)[i]
                    as u32) < 128 by {
                    assert(s@.skip(2)[i] == s@[i + 2]);
                }
            }
        }
        if !plain_ident_text(s, 2) {
            return false;
        }
        let rest = s.substring_char(2, n);
        assert(rest@ =~= s@.skip(2));
        !(equals_text(rest, "_") || equals_text(rest, "super") || equals_text(rest, "self")
            || equals_text(rest, "Self") || equals_text(rest, "crate"))
    } else {
        assert(s@.skip(0) =~= s@);
        plain_ident_text(s, 0)
    }
}

} // verus!
