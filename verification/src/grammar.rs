//! The block grammar, stated as parsing expressions over the characters of the
//! markup.
//!
//! Each rule is a function of the whole text `s` and a position `p`; a rule that
//! matches gives the position just after what it consumed, together with the
//! value it builds. Choices are ordered and repetitions are greedy, with no
//! backtracking into a repetition once it has stopped.

use vstd::prelude::*;

use crate::json::{empty_object, json_from_text, null_value};
use crate::types::{freeform, SpecBlock};

verus! {

// ----- Literals ---------------------------------------------------------------

/// `<!--`
pub open spec fn lit_open() -> Seq<char> {
    seq!['<', '!', '-', '-']
}

/// `wp:`
pub open spec fn lit_wp() -> Seq<char> {
    seq!['w', 'p', ':']
}

/// `/wp:`
pub open spec fn lit_end_wp() -> Seq<char> {
    seq!['/', 'w', 'p', ':']
}

/// `-->`
pub open spec fn lit_close() -> Seq<char> {
    seq!['-', '-', '>']
}

/// `/-->`
pub open spec fn lit_void_close() -> Seq<char> {
    seq!['/', '-', '-', '>']
}

/// `core/`, the namespace of names given without one.
pub open spec fn lit_core() -> Seq<char> {
    seq!['c', 'o', 'r', 'e', '/']
}

/// `t` stands in `s` at position `p`.
pub open spec fn has_lit(s: Seq<char>, p: int, t: Seq<char>) -> bool {
    &&& 0 <= p
    &&& p + t.len() <= s.len()
    &&& s.subrange(p, p + t.len()) == t
}

// ----- Whitespace and names ---------------------------------------------------

/// `ws = [' ' | '\t' | '\r' | '\n']+`
pub open spec fn is_ws(c: char) -> bool {
    c == ' ' || c == '\t' || c == '\r' || c == '\n'
}

/// End of the (possibly empty) run of whitespace at `p`: the rule `ws()?`.
pub open spec fn skip_ws(s: Seq<char>, p: int) -> int
    decreases s.len() - p,
{
    if 0 <= p < s.len() && is_ws(s[p]) {
        skip_ws(s, p + 1)
    } else {
        p
    }
}

/// `['a'..='z']`
pub open spec fn is_name_start(c: char) -> bool {
    'a' <= c && c <= 'z'
}

/// `['a'..='z' | '0'..='9' | '_' | '-']`
pub open spec fn is_name_char(c: char) -> bool {
    ('a' <= c && c <= 'z') || ('0' <= c && c <= '9') || c == '_' || c == '-'
}

/// End of the run of name characters at `p`.
pub open spec fn name_chars_end(s: Seq<char>, p: int) -> int
    decreases s.len() - p,
{
    if 0 <= p < s.len() && is_name_char(s[p]) {
        name_chars_end(s, p + 1)
    } else {
        p
    }
}

/// `['a'..='z']['a'..='z' | '0'..='9' | '_' | '-']*`
pub open spec fn ident(s: Seq<char>, p: int) -> Option<int> {
    if 0 <= p < s.len() && is_name_start(s[p]) {
        Some(name_chars_end(s, p + 1))
    } else {
        None
    }
}

/// `block_name`: a namespaced name `ns/name` as written, or a bare name, which
/// gets the namespace `core/`.
pub open spec fn block_name(s: Seq<char>, p: int) -> Option<(int, Seq<char>)> {
    match ident(s, p) {
        None => None,
        Some(e) => if has_lit(s, e, seq!['/']) && ident(s, e + 1) is Some {
            let e2 = ident(s, e + 1)->Some_0;
            Some((e2, s.subrange(p, e2)))
        } else {
            Some((e, lit_core() + s.subrange(p, e)))
        },
    }
}

// ----- JSON attributes --------------------------------------------------------

/// First position at or after `p` that holds a double quote.
pub open spec fn quote_at_or_after(s: Seq<char>, p: int) -> Option<int>
    decreases s.len() - p,
{
    if p < 0 || p >= s.len() {
        None
    } else if s[p] == '"' {
        Some(p)
    } else {
        quote_at_or_after(s, p + 1)
    }
}

/// `quoted_string = "\"" (!"\"" [_])* "\""`
pub open spec fn quoted_string(s: Seq<char>, p: int) -> Option<int> {
    if 0 <= p < s.len() && s[p] == '"' {
        match quote_at_or_after(s, p + 1) {
            Some(q) => Some(q + 1),
            None => None,
        }
    } else {
        None
    }
}

/// `non_brace = !("{" / "}") [_]`
pub open spec fn non_brace(s: Seq<char>, p: int) -> Option<int> {
    if 0 <= p < s.len() && s[p] != '{' && s[p] != '}' {
        Some(p + 1)
    } else {
        None
    }
}

/// `balanced_braces = "{" nested_json "}"`
pub open spec fn balanced_braces(s: Seq<char>, p: int) -> Option<int>
    decreases s.len() - p, 0int,
{
    if 0 <= p < s.len() && s[p] == '{' {
        let q = nested_json(s, p + 1);
        if 0 <= q < s.len() && s[q] == '}' {
            Some(q + 1)
        } else {
            None
        }
    } else {
        None
    }
}

/// One item of `nested_json`: `quoted_string / balanced_braces / non_brace`.
pub open spec fn json_item(s: Seq<char>, p: int) -> Option<int>
    decreases s.len() - p, 1int,
{
    match quoted_string(s, p) {
        Some(q) => Some(q),
        None => match balanced_braces(s, p) {
            Some(q) => Some(q),
            None => non_brace(s, p),
        },
    }
}

/// `nested_json = (quoted_string / balanced_braces / non_brace)*`; gives the end.
pub open spec fn nested_json(s: Seq<char>, p: int) -> int
    decreases s.len() - p, 2int,
{
    match json_item(s, p) {
        Some(q) => if p < q <= s.len() {
            nested_json(s, q)
        } else {
            p
        },
        None => p,
    }
}

/// The attribute value of a block given its attribute text: what the text reads
/// as JSON, or null where it is not JSON.
pub open spec fn attrs_of_text(text: Seq<char>) -> serde_json::Value {
    match json_from_text(text) {
        Some(v) => v,
        None => null_value(),
    }
}

/// `block_attrs = "{" nested_json "}"` read as JSON, or else nothing consumed
/// and an empty object.
pub open spec fn block_attrs(s: Seq<char>, p: int) -> (int, serde_json::Value) {
    if 0 <= p < s.len() && s[p] == '{' {
        let q = nested_json(s, p + 1);
        if 0 <= q < s.len() && s[q] == '}' {
            (q + 1, attrs_of_text(s.subrange(p, q + 1)))
        } else {
            (p, empty_object())
        }
    } else {
        (p, empty_object())
    }
}

// ----- Block comments ---------------------------------------------------------

/// `"<!--" ws? "wp:" block_name ws? block_attrs ws?`: the part shared by the
/// opener of a balanced block and a void block; gives the name and attributes.
pub open spec fn block_opener(s: Seq<char>, p: int) -> Option<(int, Seq<char>, serde_json::Value)> {
    if has_lit(s, p, lit_open()) && has_lit(s, skip_ws(s, p + 4), lit_wp()) {
        match block_name(s, skip_ws(s, p + 4) + 3) {
            None => None,
            Some((q, name)) => {
                let (r, attrs) = block_attrs(s, skip_ws(s, q));
                Some((skip_ws(s, r), name, attrs))
            },
        }
    } else {
        None
    }
}

/// `block_start`: an opener closed by `-->`.
pub open spec fn block_start(s: Seq<char>, p: int) -> Option<(int, Seq<char>, serde_json::Value)> {
    match block_opener(s, p) {
        Some((q, name, attrs)) => if has_lit(s, q, lit_close()) {
            Some((q + 3, name, attrs))
        } else {
            None
        },
        None => None,
    }
}

/// `block_end = "<!--" ws? "/wp:" block_name ws? "-->"`; the name is not
/// compared with that of the opener.
pub open spec fn block_end(s: Seq<char>, p: int) -> Option<int> {
    if has_lit(s, p, lit_open()) && has_lit(s, skip_ws(s, p + 4), lit_end_wp()) {
        match block_name(s, skip_ws(s, p + 4) + 4) {
            None => None,
            Some((q, _name)) => if has_lit(s, skip_ws(s, q), lit_close()) {
                Some(skip_ws(s, q) + 3)
            } else {
                None
            },
        }
    } else {
        None
    }
}

/// `is_block_start = "<!--" ws? "wp:"`
pub open spec fn is_block_start(s: Seq<char>, p: int) -> bool {
    has_lit(s, p, lit_open()) && has_lit(s, skip_ws(s, p + 4), lit_wp())
}

/// `is_block_end = "<!--" ws? "/wp:"`
pub open spec fn is_block_end(s: Seq<char>, p: int) -> bool {
    has_lit(s, p, lit_open()) && has_lit(s, skip_ws(s, p + 4), lit_end_wp())
}

/// First position at or after `p` where a block opener starts, or the end.
pub open spec fn freeform_end(s: Seq<char>, p: int) -> int
    decreases s.len() - p,
{
    if p < 0 || p >= s.len() || is_block_start(s, p) {
        p
    } else {
        freeform_end(s, p + 1)
    }
}

/// `freeform_text = (!is_block_start [_])+`
pub open spec fn freeform_text(s: Seq<char>, p: int) -> Option<int> {
    if 0 <= p && freeform_end(s, p) > p {
        Some(freeform_end(s, p))
    } else {
        None
    }
}

/// First position at or after `p` where a block opener or closer starts, or the end.
pub open spec fn inner_text_end(s: Seq<char>, p: int) -> int
    decreases s.len() - p,
{
    if p < 0 || p >= s.len() || is_block_end(s, p) || is_block_start(s, p) {
        p
    } else {
        inner_text_end(s, p + 1)
    }
}

/// First position at or after `p` where `-->` stands, or the end.
pub open spec fn close_at_or_after(s: Seq<char>, p: int) -> int
    decreases s.len() - p,
{
    if p < 0 || p >= s.len() || has_lit(s, p, lit_close()) {
        p
    } else {
        close_at_or_after(s, p + 1)
    }
}

/// `fallback_block_comment = "<!--" ws? "wp:" (!"-->" [_])* ("-->" / "/" ws? "-->")`
pub open spec fn fallback_comment(s: Seq<char>, p: int) -> Option<int> {
    if has_lit(s, p, lit_open()) && has_lit(s, skip_ws(s, p + 4), lit_wp()) {
        let r = close_at_or_after(s, skip_ws(s, p + 4) + 3);
        if has_lit(s, r, lit_close()) {
            Some(r + 3)
        } else if has_lit(s, r, seq!['/']) && has_lit(s, skip_ws(s, r + 1), lit_close()) {
            Some(skip_ws(s, r + 1) + 3)
        } else {
            None
        }
    } else {
        None
    }
}

// ----- Blocks -----------------------------------------------------------------

/// One piece of the content of a balanced block.
pub enum SpecPiece {
    Block(SpecBlock),
    Text(Seq<char>),
}

/// The blocks among `pieces`, in order.
pub open spec fn pieces_blocks(pieces: Seq<SpecPiece>) -> Seq<SpecBlock>
    decreases pieces.len(),
{
    if pieces.len() == 0 {
        seq![]
    } else {
        let rest = pieces_blocks(pieces.drop_last());
        match pieces.last() {
            SpecPiece::Block(b) => rest.push(b),
            SpecPiece::Text(_) => rest,
        }
    }
}

/// The texts among `pieces`, joined in order.
pub open spec fn pieces_html(pieces: Seq<SpecPiece>) -> Seq<char>
    decreases pieces.len(),
{
    if pieces.len() == 0 {
        seq![]
    } else {
        let rest = pieces_html(pieces.drop_last());
        match pieces.last() {
            SpecPiece::Block(_) => rest,
            SpecPiece::Text(t) => rest + t,
        }
    }
}

/// The content of a block: `None` where a block stands, the text elsewhere.
pub open spec fn piece_content(piece: SpecPiece) -> Option<Seq<char>> {
    match piece {
        SpecPiece::Block(_) => None,
        SpecPiece::Text(t) => Some(t),
    }
}

/// The block that a balanced block with these name, attributes and content is.
pub open spec fn assemble(name: Seq<char>, attrs: serde_json::Value, pieces: Seq<SpecPiece>) -> SpecBlock {
    SpecBlock {
        name: Some(name),
        attrs: attrs,
        inner_blocks: pieces_blocks(pieces),
        inner_html: pieces_html(pieces),
        inner_content: pieces.map_values(|piece: SpecPiece| piece_content(piece)),
    }
}

/// Whether some block among `pieces` has no name.
pub open spec fn any_unnamed(pieces: Seq<SpecPiece>) -> bool
    decreases pieces.len(),
{
    if pieces.len() == 0 {
        false
    } else {
        any_unnamed(pieces.drop_last()) || match pieces.last() {
            SpecPiece::Block(b) => b.name is None,
            SpecPiece::Text(_) => false,
        }
    }
}

/// `<!-- wp:name -->`, the opener of a block named `name` written plainly.
pub open spec fn opener_text(name: Seq<char>) -> Seq<char> {
    seq!['<', '!', '-', '-', ' ', 'w', 'p', ':'] + name + seq![' ', '-', '-', '>']
}

/// The block that a balanced block with this name, attributes and content
/// gives: the assembled block, or, should some inner block have no name, the
/// free-form text of its opener.
pub open spec fn balanced_block(name: Seq<char>, attrs: serde_json::Value, pieces: Seq<SpecPiece>) -> SpecBlock {
    if any_unnamed(pieces) {
        freeform(opener_text(name))
    } else {
        assemble(name, attrs, pieces)
    }
}

/// `block_void = "<!--" ws? "wp:" block_name ws? block_attrs ws? "/-->"`
pub open spec fn block_void(s: Seq<char>, p: int) -> Option<(int, SpecBlock)> {
    match block_opener(s, p) {
        Some((q, name, attrs)) => if has_lit(s, q, lit_void_close()) {
            Some((q + 4, assemble(name, attrs, seq![])))
        } else {
            None
        },
        None => None,
    }
}

/// `block_balanced = block_start content_piece* block_end?`
pub open spec fn block_balanced(s: Seq<char>, p: int) -> Option<(int, SpecBlock)>
    decreases s.len() - p, 0int,
{
    match block_start(s, p) {
        None => None,
        Some((q, name, attrs)) => if p < q <= s.len() {
            let (r, pieces) = content_pieces(s, q);
            let e = match block_end(s, r) {
                Some(e) => e,
                None => r,
            };
            Some((e, balanced_block(name, attrs, pieces)))
        } else {
            None
        },
    }
}

/// `content_piece = block_balanced / block_void / (!is_block_end !is_block_start [_])+`,
/// where a balanced block counts only if it has a name.
pub open spec fn content_piece(s: Seq<char>, p: int) -> Option<(int, SpecPiece)>
    decreases s.len() - p, 1int,
{
    let named = match block_balanced(s, p) {
        Some((q, b)) => if b.name is Some {
            Some((q, b))
        } else {
            None
        },
        None => None,
    };
    match named {
        Some((q, b)) => Some((q, SpecPiece::Block(b))),
        None => match block_void(s, p) {
            Some((q, b)) => Some((q, SpecPiece::Block(b))),
            None => if 0 <= p && inner_text_end(s, p) > p {
                Some((inner_text_end(s, p), SpecPiece::Text(s.subrange(p, inner_text_end(s, p)))))
            } else {
                None
            },
        },
    }
}

/// `content_piece*`
pub open spec fn content_pieces(s: Seq<char>, p: int) -> (int, Seq<SpecPiece>)
    decreases s.len() - p, 2int,
{
    match content_piece(s, p) {
        Some((q, piece)) => if p < q <= s.len() {
            let (r, rest) = content_pieces(s, q);
            (r, seq![piece] + rest)
        } else {
            (p, seq![])
        },
        None => (p, seq![]),
    }
}

/// `block_with_trailing = (block_balanced / block_void) freeform_text? / fallback_block_comment`:
/// a block and the free-form text that follows it (possibly empty).
pub open spec fn block_with_trailing(s: Seq<char>, p: int) -> Option<(int, SpecBlock, Seq<char>)> {
    let found = match block_balanced(s, p) {
        Some(x) => Some(x),
        None => block_void(s, p),
    };
    match found {
        Some((q, b)) => match freeform_text(s, q) {
            Some(e) => Some((e, b, s.subrange(q, e))),
            None => Some((q, b, seq![])),
        },
        None => match fallback_comment(s, p) {
            Some(e) => Some((e, freeform(s.subrange(p, e)), seq![])),
            None => None,
        },
    }
}

/// `block_with_trailing*`
pub open spec fn items(s: Seq<char>, p: int) -> (int, Seq<(SpecBlock, Seq<char>)>)
    decreases s.len() - p,
{
    match block_with_trailing(s, p) {
        Some((q, b, html)) => if p < q <= s.len() {
            let (r, rest) = items(s, q);
            (r, seq![(b, html)] + rest)
        } else {
            (p, seq![])
        },
        None => (p, seq![]),
    }
}

/// `[freeform(text)]` for non-empty text, else nothing.
pub open spec fn freeform_if_any(text: Seq<char>) -> Seq<SpecBlock> {
    if text.len() == 0 {
        seq![]
    } else {
        seq![freeform(text)]
    }
}

/// The top-level blocks of a run of items: each block, then its trailing text
/// as a free-form block when there is any.
pub open spec fn items_blocks(its: Seq<(SpecBlock, Seq<char>)>) -> Seq<SpecBlock>
    decreases its.len(),
{
    if its.len() == 0 {
        seq![]
    } else {
        let (b, html) = its.last();
        items_blocks(its.drop_last()) + seq![b] + freeform_if_any(html)
    }
}

/// The optional text matched at `p` by `freeform_text?`.
pub open spec fn opt_freeform(s: Seq<char>, p: int) -> (int, Seq<char>) {
    match freeform_text(s, p) {
        Some(e) => (e, s.subrange(p, e)),
        None => (p, seq![]),
    }
}

/// `block_list_inner = freeform_text? block_with_trailing* freeform_text?`;
/// gives how far it reaches and the blocks.
pub open spec fn block_list_inner(s: Seq<char>) -> (int, Seq<SpecBlock>) {
    let (p1, pre) = opt_freeform(s, 0);
    let (p2, its) = items(s, p1);
    let (p3, post) = opt_freeform(s, p2);
    (p3, freeform_if_any(pre) + items_blocks(its) + freeform_if_any(post))
}

/// The whole text `s` read as a list of blocks; `None` where the grammar does not
/// reach the end of the text.
///
/// `block_list = block_list_inner / fallback_block_comment / [_]+`: everything in
/// `block_list_inner` is optional, so it always matches and the choice never
/// goes on to the other alternatives; the text is read as a list exactly when
/// `block_list_inner` reaches its end.
pub open spec fn block_list(s: Seq<char>) -> Option<Seq<SpecBlock>> {
    let (e, blocks) = block_list_inner(s);
    if e == s.len() {
        Some(blocks)
    } else {
        None
    }
}

// ----- The document -----------------------------------------------------------

/// Unicode whitespace (the `White_Space` property), as `char::is_whitespace` has it.
pub open spec fn is_unicode_ws(c: char) -> bool {
    ||| ('\u{9}' <= c && c <= '\u{d}')
    ||| c == ' '
    ||| c == '\u{85}'
    ||| c == '\u{a0}'
    ||| c == '\u{1680}'
    ||| ('\u{2000}' <= c && c <= '\u{200a}')
    ||| c == '\u{2028}'
    ||| c == '\u{2029}'
    ||| c == '\u{202f}'
    ||| c == '\u{205f}'
    ||| c == '\u{3000}'
}

/// `s` without its leading whitespace.
pub open spec fn trim_front(s: Seq<char>) -> Seq<char>
    decreases s.len(),
{
    if s.len() > 0 && is_unicode_ws(s[0]) {
        trim_front(s.drop_first())
    } else {
        s
    }
}

/// `s` without its trailing whitespace.
pub open spec fn trim_back(s: Seq<char>) -> Seq<char>
    decreases s.len(),
{
    if s.len() > 0 && is_unicode_ws(s.last()) {
        trim_back(s.drop_last())
    } else {
        s
    }
}

/// `s` without leading and trailing whitespace.
pub open spec fn trim(s: Seq<char>) -> Seq<char> {
    trim_back(trim_front(s))
}

/// The blocks of a document: the grammar's blocks of the trimmed text, or, where
/// the grammar does not reach its end, the whole trimmed text as one free-form
/// block.
pub open spec fn parse_document(input: Seq<char>) -> Seq<SpecBlock> {
    match block_list(trim(input)) {
        Some(blocks) => blocks,
        None => seq![freeform(trim(input))],
    }
}

} // verus!
