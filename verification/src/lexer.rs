//! The token-level rules of the grammar: literals, whitespace, names, the JSON
//! attribute text and the scans for block comments.

use vstd::prelude::*;

use crate::grammar::{
    balanced_braces, block_attrs, block_name, close_at_or_after, fallback_comment, freeform_end,
    has_lit, ident, inner_text_end, is_block_end, is_block_start, json_item, lit_close, lit_core,
    lit_end_wp, lit_open, lit_void_close, lit_wp, name_chars_end, nested_json, quote_at_or_after,
    quoted_string, skip_ws,
};
use crate::json::{new_empty_object, new_null, read_json};
use crate::text::string_of;

verus! {

/// A position, as the grammar has it.
pub open spec fn opt_pos(o: Option<usize>) -> Option<int> {
    match o {
        Some(q) => Some(q as int),
        None => None,
    }
}

/// Whether `t` stands in `s` at `p`.
pub fn has_lit_at(s: &Vec<char>, p: usize, t: &[char]) -> (res: bool)
    ensures
        res == has_lit(s@, p as int, t@),
{
    if p > s.len() || t.len() > s.len() - p {
        return false;
    }
    let mut i: usize = 0;
    while i < t.len()
        invariant
            0 <= i <= t@.len(),
            p + t@.len() <= s.len(),
            forall|j: int| 0 <= j < i ==> s@[p + j] == t@[j],
        decreases t@.len() - i,
    {
        assert(p + i < s.len());
        if s[p + i] != t[i] {
            assert(s@.subrange(p as int, p + t@.len())[i as int] == s@[p + i]);
            return false;
        }
        i += 1;
    }
    assert(s@.subrange(p as int, p + t@.len()) =~= t@);
    true
}

/// Whether `<!--` stands at `p`.
pub fn at_open(s: &Vec<char>, p: usize) -> (res: bool)
    ensures
        res == has_lit(s@, p as int, lit_open()),
        res ==> p + 4 <= s.len(),
{
    let t: &[char] = &['<', '!', '-', '-'];
    assert(t@ == lit_open());
    has_lit_at(s, p, t)
}

/// Whether `wp:` stands at `p`.
pub fn at_wp(s: &Vec<char>, p: usize) -> (res: bool)
    ensures
        res == has_lit(s@, p as int, lit_wp()),
        res ==> p + 3 <= s.len(),
{
    let t: &[char] = &['w', 'p', ':'];
    assert(t@ == lit_wp());
    has_lit_at(s, p, t)
}

/// Whether `/wp:` stands at `p`.
pub fn at_end_wp(s: &Vec<char>, p: usize) -> (res: bool)
    ensures
        res == has_lit(s@, p as int, lit_end_wp()),
        res ==> p + 4 <= s.len(),
{
    let t: &[char] = &['/', 'w', 'p', ':'];
    assert(t@ == lit_end_wp());
    has_lit_at(s, p, t)
}

/// Whether `-->` stands at `p`.
pub fn at_close(s: &Vec<char>, p: usize) -> (res: bool)
    ensures
        res == has_lit(s@, p as int, lit_close()),
        res ==> p + 3 <= s.len(),
{
    let t: &[char] = &['-', '-', '>'];
    assert(t@ == lit_close());
    has_lit_at(s, p, t)
}

/// Whether `/-->` stands at `p`.
pub fn at_void_close(s: &Vec<char>, p: usize) -> (res: bool)
    ensures
        res == has_lit(s@, p as int, lit_void_close()),
        res ==> p + 4 <= s.len(),
{
    let t: &[char] = &['/', '-', '-', '>'];
    assert(t@ == lit_void_close());
    has_lit_at(s, p, t)
}

/// Whether `/` stands at `p`.
pub fn at_slash(s: &Vec<char>, p: usize) -> (res: bool)
    ensures
        res == has_lit(s@, p as int, seq!['/']),
        res ==> p + 1 <= s.len(),
{
    let t: &[char] = &['/'];
    assert(t@ == seq!['/']);
    has_lit_at(s, p, t)
}

/// `ws()?` at `p`.
pub fn skip_ws_at(s: &Vec<char>, p: usize) -> (res: usize)
    requires
        p <= s.len(),
    ensures
        res as int == skip_ws(s@, p as int),
        p <= res <= s.len(),
{
    let mut i = p;
    while i < s.len() && (s[i] == ' ' || s[i] == '\t' || s[i] == '\r' || s[i] == '\n')
        invariant
            p <= i <= s.len(),
            skip_ws(s@, i as int) == skip_ws(s@, p as int),
        decreases s.len() - i,
    {
        i += 1;
    }
    i
}

/// The run of name characters at `p`.
pub fn name_chars_end_at(s: &Vec<char>, p: usize) -> (res: usize)
    requires
        p <= s.len(),
    ensures
        res as int == name_chars_end(s@, p as int),
        p <= res <= s.len(),
{
    let mut i = p;
    while i < s.len() && (('a' <= s[i] && s[i] <= 'z') || ('0' <= s[i] && s[i] <= '9') || s[i]
        == '_' || s[i] == '-')
        invariant
            p <= i <= s.len(),
            name_chars_end(s@, i as int) == name_chars_end(s@, p as int),
        decreases s.len() - i,
    {
        i += 1;
    }
    i
}

/// `['a'..='z']['a'..='z' | '0'..='9' | '_' | '-']*` at `p`.
pub fn ident_at(s: &Vec<char>, p: usize) -> (res: Option<usize>)
    requires
        p <= s.len(),
    ensures
        opt_pos(res) == ident(s@, p as int),
        res matches Some(q) ==> p < q <= s.len(),
{
    if p < s.len() && 'a' <= s[p] && s[p] <= 'z' {
        Some(name_chars_end_at(s, p + 1))
    } else {
        None
    }
}

/// `block_name` at `p`, with the name it gives.
pub fn block_name_at(s: &Vec<char>, p: usize) -> (res: Option<(usize, String)>)
    requires
        p <= s.len(),
    ensures
        match block_name(s@, p as int) {
            None => res is None,
            Some((q, name)) => res matches Some((q2, name2)) && q2 == q && name2@ == name,
        },
        res matches Some((q, _)) ==> p < q <= s.len(),
{
    match ident_at(s, p) {
        None => None,
        Some(e) => {
            if at_slash(s, e) {
                match ident_at(s, e + 1) {
                    Some(e2) => {
                        return Some((e2, string_of(s, p, e2)));
                    },
                    None => {},
                }
            }
            let mut name = String::new();
            name.push('c');
            name.push('o');
            name.push('r');
            name.push('e');
            name.push('/');
            crate::text::push_range(&mut name, s, p, e);
            assert(name@ =~= lit_core() + s@.subrange(p as int, e as int));
            Some((e, name))
        },
    }
}

// ----- JSON attribute text ----------------------------------------------------

/// The first double quote at or after `p`.
pub fn quote_at_or_after_at(s: &Vec<char>, p: usize) -> (res: Option<usize>)
    requires
        p <= s.len(),
    ensures
        opt_pos(res) == quote_at_or_after(s@, p as int),
        res matches Some(q) ==> p <= q < s.len(),
{
    let mut i = p;
    while i < s.len()
        invariant
            p <= i <= s.len(),
            quote_at_or_after(s@, i as int) == quote_at_or_after(s@, p as int),
        decreases s.len() - i,
    {
        if s[i] == '"' {
            return Some(i);
        }
        i += 1;
    }
    None
}

/// `quoted_string` at `p`.
pub fn quoted_string_at(s: &Vec<char>, p: usize) -> (res: Option<usize>)
    requires
        p <= s.len(),
    ensures
        opt_pos(res) == quoted_string(s@, p as int),
        res matches Some(q) ==> p < q <= s.len(),
{
    if p < s.len() && s[p] == '"' {
        match quote_at_or_after_at(s, p + 1) {
            Some(q) => Some(q + 1),
            None => None,
        }
    } else {
        None
    }
}

/// `balanced_braces` at `p`.
pub fn balanced_braces_at(s: &Vec<char>, p: usize) -> (res: Option<usize>)
    requires
        p <= s.len(),
    ensures
        opt_pos(res) == balanced_braces(s@, p as int),
        res matches Some(q) ==> p < q <= s.len(),
    decreases s.len() - p, 0int,
{
    if p < s.len() && s[p] == '{' {
        let q = nested_json_at(s, p + 1);
        if q < s.len() && s[q] == '}' {
            Some(q + 1)
        } else {
            None
        }
    } else {
        None
    }
}

/// One item of `nested_json` at `p`.
pub fn json_item_at(s: &Vec<char>, p: usize) -> (res: Option<usize>)
    requires
        p <= s.len(),
    ensures
        opt_pos(res) == json_item(s@, p as int),
        res matches Some(q) ==> p < q <= s.len(),
    decreases s.len() - p, 1int,
{
    match quoted_string_at(s, p) {
        Some(q) => Some(q),
        None => match balanced_braces_at(s, p) {
            Some(q) => Some(q),
            None => {
                if p < s.len() && s[p] != '{' && s[p] != '}' {
                    Some(p + 1)
                } else {
                    None
                }
            },
        },
    }
}

/// `nested_json` at `p`.
pub fn nested_json_at(s: &Vec<char>, p: usize) -> (res: usize)
    requires
        p <= s.len(),
    ensures
        res as int == nested_json(s@, p as int),
        p <= res <= s.len(),
    decreases s.len() - p, 2int,
{
    let mut i = p;
    loop
        invariant
            p <= i <= s.len(),
            nested_json(s@, i as int) == nested_json(s@, p as int),
        decreases s.len() - i,
    {
        match json_item_at(s, i) {
            Some(q) => {
                i = q;
            },
            None => {
                return i;
            },
        }
    }
}

/// `block_attrs` at `p`: how far it reaches and the attribute value.
pub fn block_attrs_at(s: &Vec<char>, p: usize) -> (res: (usize, serde_json::Value))
    requires
        p <= s.len(),
    ensures
        res.0 as int == block_attrs(s@, p as int).0,
        res.1 == block_attrs(s@, p as int).1,
        p <= res.0 <= s.len(),
{
    if p < s.len() && s[p] == '{' {
        let q = nested_json_at(s, p + 1);
        if q < s.len() && s[q] == '}' {
            let text = string_of(s, p, q + 1);
            let value = match read_json(text.as_str()) {
                Some(v) => v,
                None => new_null(),
            };
            return (q + 1, value);
        }
    }
    (p, new_empty_object())
}

// ----- Scans over block comments ----------------------------------------------

/// Whether a block opener (`<!--` ws? `wp:`) starts at `p`.
pub fn is_block_start_at(s: &Vec<char>, p: usize) -> (res: bool)
    requires
        p <= s.len(),
    ensures
        res == is_block_start(s@, p as int),
{
    if at_open(s, p) {
        let q = skip_ws_at(s, p + 4);
        at_wp(s, q)
    } else {
        false
    }
}

/// Whether a block closer (`<!--` ws? `/wp:`) starts at `p`.
pub fn is_block_end_at(s: &Vec<char>, p: usize) -> (res: bool)
    requires
        p <= s.len(),
    ensures
        res == is_block_end(s@, p as int),
{
    if at_open(s, p) {
        let q = skip_ws_at(s, p + 4);
        at_end_wp(s, q)
    } else {
        false
    }
}

/// The first block opener at or after `p`, or the end.
pub fn freeform_end_at(s: &Vec<char>, p: usize) -> (res: usize)
    requires
        p <= s.len(),
    ensures
        res as int == freeform_end(s@, p as int),
        p <= res <= s.len(),
{
    let mut i = p;
    while i < s.len() && !is_block_start_at(s, i)
        invariant
            p <= i <= s.len(),
            freeform_end(s@, i as int) == freeform_end(s@, p as int),
        decreases s.len() - i,
    {
        i += 1;
    }
    i
}

/// The first block opener or closer at or after `p`, or the end.
pub fn inner_text_end_at(s: &Vec<char>, p: usize) -> (res: usize)
    requires
        p <= s.len(),
    ensures
        res as int == inner_text_end(s@, p as int),
        p <= res <= s.len(),
{
    let mut i = p;
    while i < s.len() && !is_block_end_at(s, i) && !is_block_start_at(s, i)
        invariant
            p <= i <= s.len(),
            inner_text_end(s@, i as int) == inner_text_end(s@, p as int),
        decreases s.len() - i,
    {
        i += 1;
    }
    i
}

/// The first `-->` at or after `p`, or the end.
pub fn close_at_or_after_at(s: &Vec<char>, p: usize) -> (res: usize)
    requires
        p <= s.len(),
    ensures
        res as int == close_at_or_after(s@, p as int),
        p <= res <= s.len(),
{
    let mut i = p;
    while i < s.len() && !at_close(s, i)
        invariant
            p <= i <= s.len(),
            close_at_or_after(s@, i as int) == close_at_or_after(s@, p as int),
        decreases s.len() - i,
    {
        i += 1;
    }
    i
}

/// `fallback_block_comment` at `p`.
pub fn fallback_comment_at(s: &Vec<char>, p: usize) -> (res: Option<usize>)
    requires
        p <= s.len(),
    ensures
        opt_pos(res) == fallback_comment(s@, p as int),
        res matches Some(q) ==> p < q <= s.len(),
{
    if !at_open(s, p) {
        return None;
    }
    let q = skip_ws_at(s, p + 4);
    if !at_wp(s, q) {
        return None;
    }
    let r = close_at_or_after_at(s, q + 3);
    if at_close(s, r) {
        Some(r + 3)
    } else if at_slash(s, r) {
        let t = skip_ws_at(s, r + 1);
        if at_close(s, t) {
            Some(t + 3)
        } else {
            None
        }
    } else {
        None
    }
}

} // verus!
