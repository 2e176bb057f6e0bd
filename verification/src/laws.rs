//! Properties of the parser as a whole, stated over the grammar and proved.

use vstd::prelude::*;

use crate::grammar::{
    any_unnamed, assemble, balanced_block, block_balanced, block_list, block_list_inner,
    block_name, block_opener, block_start, block_void, block_with_trailing, content_piece,
    content_pieces, freeform_if_any, ident, is_unicode_ws, is_name_char, is_name_start, items, items_blocks,
    name_chars_end, opt_freeform, parse_document, piece_content, pieces_blocks,
    pieces_html, trim, trim_back, trim_front, SpecPiece,
};
use crate::json::{empty_object, json_from_text, null_value};
use crate::types::{freeform, SpecBlock};

verus! {

// ----- Every block has a name, except free-form ones --------------------------

/// Every block among the pieces has a name.
pub open spec fn pieces_named(pieces: Seq<SpecPiece>) -> bool {
    forall|i: int|
        0 <= i < pieces.len() ==> match #[trigger] pieces[i] {
            SpecPiece::Block(b) => b.name is Some,
            SpecPiece::Text(_) => true,
        }
}

proof fn lemma_named_not_any_unnamed(pieces: Seq<SpecPiece>)
    requires
        pieces_named(pieces),
    ensures
        !any_unnamed(pieces),
    decreases pieces.len(),
{
    if pieces.len() > 0 {
        let init = pieces.drop_last();
        assert forall|i: int| 0 <= i < init.len() implies match #[trigger] init[i] {
            SpecPiece::Block(b) => b.name is Some,
            SpecPiece::Text(_) => true,
        } by {
            assert(init[i] == pieces[i]);
        }
        lemma_named_not_any_unnamed(init);
        assert(pieces.last() == pieces[pieces.len() - 1]);
    }
}

/// The content pieces of a balanced block hold only named blocks.
proof fn lemma_content_pieces_named(s: Seq<char>, p: int)
    ensures
        pieces_named(content_pieces(s, p).1),
    decreases s.len() - p,
{
    match content_piece(s, p) {
        Some((q, piece)) => {
            if p < q <= s.len() {
                lemma_content_pieces_named(s, q);
                let rest = content_pieces(s, q).1;
                let all = seq![piece] + rest;
                assert(content_pieces(s, p).1 == all);
                assert forall|i: int| 0 <= i < all.len() implies match #[trigger] all[i] {
                    SpecPiece::Block(b) => b.name is Some,
                    SpecPiece::Text(_) => true,
                } by {
                    if i > 0 {
                        assert(all[i] == rest[i - 1]);
                    }
                }
            }
        },
        None => {},
    }
}

/// Every balanced block has a name: its content holds only named blocks, since a
/// content piece admits a balanced block only when it is named, so a balanced
/// block never falls back to the free-form text of its opener.
pub proof fn law_balanced_blocks_are_named(s: Seq<char>, p: int)
    ensures
        block_balanced(s, p) matches Some((_, b)) ==> b.name is Some,
{
    match block_start(s, p) {
        Some((q, name, attrs)) => {
            if p < q <= s.len() {
                lemma_content_pieces_named(s, q);
                lemma_named_not_any_unnamed(content_pieces(s, q).1);
            }
        },
        None => {},
    }
}

// ----- Well-formed blocks -----------------------------------------------------

/// `t` is a name: a lowercase letter, then lowercase letters, digits, `_` and `-`.
pub open spec fn is_ident(t: Seq<char>) -> bool {
    &&& t.len() > 0
    &&& 'a' <= t[0] && t[0] <= 'z'
    &&& forall|i: int|
        1 <= i < t.len() ==> ('a' <= #[trigger] t[i] && t[i] <= 'z') || ('0' <= t[i] && t[i]
            <= '9') || t[i] == '_' || t[i] == '-'
}

/// `n` is a namespaced name `namespace/name`.
pub open spec fn is_namespaced(n: Seq<char>) -> bool {
    exists|k: int|
        0 < k < n.len() && n[k] == '/' && is_ident(#[trigger] n.subrange(0, k)) && is_ident(
            n.subrange(k + 1, n.len() as int),
        )
}

/// The texts of a block's content, joined.
pub open spec fn content_html(content: Seq<Option<Seq<char>>>) -> Seq<char>
    decreases content.len(),
{
    if content.len() == 0 {
        seq![]
    } else {
        content_html(content.drop_last()) + match content.last() {
            Some(t) => t,
            None => seq![],
        }
    }
}

/// How many places of a block's content hold an inner block.
pub open spec fn placeholders(content: Seq<Option<Seq<char>>>) -> nat
    decreases content.len(),
{
    if content.len() == 0 {
        0
    } else {
        placeholders(content.drop_last()) + if content.last() is None {
            1nat
        } else {
            0nat
        }
    }
}

/// Every text of a block's content is non-empty, and no two texts are adjacent.
pub open spec fn content_ok(content: Seq<Option<Seq<char>>>) -> bool {
    &&& forall|i: int|
        0 <= i < content.len() ==> (#[trigger] content[i] matches Some(t) ==> t.len() > 0)
    &&& forall|i: int|
        0 <= i < content.len() - 1 ==> !(#[trigger] content[i] is Some && content[i + 1] is Some)
}

/// Attributes as the grammar gives them: the empty object, null, or the value
/// read from a text that starts with `{` and ends with `}`.
pub open spec fn attrs_from_braces(v: serde_json::Value) -> bool {
    ||| v == empty_object()
    ||| v == null_value()
    ||| exists|t: Seq<char>|
        t.len() >= 2 && t[0] == '{' && t.last() == '}' && #[trigger] json_from_text(t) == Some(
            v,
        )
}

/// A well-formed block: its HTML is the text of its content joined, its content
/// has one placeholder per inner block, non-empty texts and no two texts side
/// by side, its attributes are read from braces (or empty, or null); a block
/// without a name is the free-form block of its non-empty HTML, a named block
/// has a namespaced name; every inner block is named, and so on for the inner
/// blocks.
pub open spec fn block_wf(b: SpecBlock) -> bool
    decreases b,
{
    &&& b.inner_html == content_html(b.inner_content)
    &&& b.inner_blocks.len() == placeholders(b.inner_content)
    &&& content_ok(b.inner_content)
    &&& attrs_from_braces(b.attrs)
    &&& (b.name is None ==> b == freeform(b.inner_html) && b.inner_html.len() > 0)
    &&& (b.name matches Some(n) ==> is_namespaced(n))
    &&& forall|i: int|
        0 <= i < b.inner_blocks.len() ==> (#[trigger] b.inner_blocks[i]).name is Some
            && block_wf(b.inner_blocks[i])
}

/// Every block of the list is well formed.
pub open spec fn all_wf(blocks: Seq<SpecBlock>) -> bool {
    forall|i: int| 0 <= i < blocks.len() ==> block_wf(#[trigger] blocks[i])
}

/// Every block among the pieces is named and well formed, every text is
/// non-empty, and no two texts are adjacent.
pub open spec fn pieces_wf(pieces: Seq<SpecPiece>) -> bool {
    &&& forall|i: int|
        0 <= i < pieces.len() ==> match #[trigger] pieces[i] {
            SpecPiece::Block(b) => b.name is Some && block_wf(b),
            SpecPiece::Text(t) => t.len() > 0,
        }
    &&& forall|i: int|
        0 <= i < pieces.len() - 1 ==> !(#[trigger] pieces[i] is Text && pieces[i + 1] is Text)
}

proof fn lemma_freeform_wf(html: Seq<char>)
    requires
        html.len() > 0,
    ensures
        block_wf(freeform(html)),
{
    let c = seq![Some(html)];
    let e = Seq::<Option<Seq<char>>>::empty();
    assert(c.drop_last() =~= e);
    assert(content_html(e) == Seq::<char>::empty());
    assert(placeholders(e) == 0);
    assert(c.last() == Some(html));
    assert(content_html(c) == content_html(e) + html);
    assert(content_html(c) =~= html);
    let b = freeform(html);
    assert(b.inner_blocks.len() == 0);
    assert(content_ok(c));
}

proof fn lemma_name_chars(s: Seq<char>, p: int)
    requires
        0 <= p <= s.len(),
    ensures
        p <= name_chars_end(s, p) <= s.len(),
        forall|i: int| p <= i < name_chars_end(s, p) ==> is_name_char(#[trigger] s[i]),
    decreases s.len() - p,
{
    if p < s.len() && is_name_char(s[p]) {
        lemma_name_chars(s, p + 1);
    }
}

proof fn lemma_ident_is_ident(s: Seq<char>, p: int)
    requires
        0 <= p,
        ident(s, p) is Some,
    ensures
        p < ident(s, p)->Some_0 <= s.len(),
        is_ident(s.subrange(p, ident(s, p)->Some_0)),
{
    lemma_name_chars(s, p + 1);
    let e = ident(s, p)->Some_0;
    let t = s.subrange(p, e);
    assert forall|i: int| 1 <= i < t.len() implies is_name_char(#[trigger] t[i]) by {
        assert(t[i] == s[p + i]);
    }
}

/// A block name, as the grammar reads it, is namespaced.
proof fn lemma_block_name_namespaced(s: Seq<char>, p: int)
    requires
        0 <= p,
        block_name(s, p) is Some,
    ensures
        is_namespaced(block_name(s, p)->Some_0.1),
{
    lemma_ident_is_ident(s, p);
    let e = ident(s, p)->Some_0;
    let n = block_name(s, p)->Some_0.1;
    if crate::grammar::has_lit(s, e, seq!['/']) && ident(s, e + 1) is Some {
        lemma_ident_is_ident(s, e + 1);
        let e2 = ident(s, e + 1)->Some_0;
        assert(s.subrange(e, e + 1)[0] == s[e]);
        assert(n.subrange(0, e - p) =~= s.subrange(p, e));
        assert(n.subrange(e - p + 1, n.len() as int) =~= s.subrange(e + 1, e2));
        assert(n[e - p] == '/');
    } else {
        let core = seq!['c', 'o', 'r', 'e'];
        assert(n.subrange(0, 4) =~= core);
        assert(is_ident(core));
        assert(n.subrange(5, n.len() as int) =~= s.subrange(p, e));
        assert(n[4] == '/');
    }
}

proof fn lemma_pieces_content(pieces: Seq<SpecPiece>)
    ensures
        content_html(pieces.map_values(|piece: SpecPiece| piece_content(piece))) == pieces_html(
            pieces,
        ),
        placeholders(pieces.map_values(|piece: SpecPiece| piece_content(piece)))
            == pieces_blocks(pieces).len(),
        pieces_wf(pieces) ==> content_ok(
            pieces.map_values(|piece: SpecPiece| piece_content(piece)),
        ),
    decreases pieces.len(),
{
    let c = pieces.map_values(|piece: SpecPiece| piece_content(piece));
    if pieces_wf(pieces) {
        assert forall|i: int| 0 <= i < c.len() implies (#[trigger] c[i] matches Some(t)
            ==> t.len() > 0) by {
            assert(c[i] == piece_content(pieces[i]));
        }
        assert forall|i: int| 0 <= i < c.len() - 1 implies !(#[trigger] c[i] is Some && c[i
            + 1] is Some) by {
            assert(c[i] == piece_content(pieces[i]));
            assert(c[i + 1] == piece_content(pieces[i + 1]));
        }
    }
    if pieces.len() > 0 {
        let c = pieces.map_values(|piece: SpecPiece| piece_content(piece));
        assert(c.drop_last() =~= pieces.drop_last().map_values(
            |piece: SpecPiece| piece_content(piece),
        ));
        lemma_pieces_content(pieces.drop_last());
    }
}

proof fn lemma_pieces_blocks_wf(pieces: Seq<SpecPiece>)
    requires
        forall|i: int|
            0 <= i < pieces.len() ==> match #[trigger] pieces[i] {
                SpecPiece::Block(b) => b.name is Some && block_wf(b),
                SpecPiece::Text(_) => true,
            },
    ensures
        forall|i: int|
            0 <= i < pieces_blocks(pieces).len() ==> (#[trigger] pieces_blocks(pieces)[i]).name
                is Some && block_wf(pieces_blocks(pieces)[i]),
    decreases pieces.len(),
{
    if pieces.len() > 0 {
        let init = pieces.drop_last();
        assert forall|i: int| 0 <= i < init.len() implies match #[trigger] init[i] {
            SpecPiece::Block(b) => b.name is Some && block_wf(b),
            SpecPiece::Text(_) => true,
        } by {
            assert(init[i] == pieces[i]);
        }
        lemma_pieces_blocks_wf(init);
        assert(pieces.last() == pieces[pieces.len() - 1]);
    }
}

/// A block assembled from a namespaced name and well-formed pieces is well formed.
proof fn lemma_balanced_block_wf(name: Seq<char>, attrs: serde_json::Value, pieces: Seq<SpecPiece>)
    requires
        is_namespaced(name),
        attrs_from_braces(attrs),
        pieces_wf(pieces),
    ensures
        block_wf(balanced_block(name, attrs, pieces)),
{
    if any_unnamed(pieces) {
        assert(crate::grammar::opener_text(name).len() >= 12);
        lemma_freeform_wf(crate::grammar::opener_text(name));
    } else {
        lemma_pieces_content(pieces);
        lemma_pieces_blocks_wf(pieces);
        let b = assemble(name, attrs, pieces);
        assert(b.inner_blocks == pieces_blocks(pieces));
    }
}

proof fn lemma_opener_named(s: Seq<char>, p: int)
    requires
        block_opener(s, p) is Some,
    ensures
        is_namespaced(block_opener(s, p)->Some_0.1),
        attrs_from_braces(block_opener(s, p)->Some_0.2),
{
    let q = crate::grammar::skip_ws(s, p + 4) + 3;
    assert(q >= 0) by {
        lemma_skip_ws_ge(s, p + 4);
    }
    lemma_block_name_namespaced(s, q);
    let q2 = block_name(s, q)->Some_0.0;
    lemma_attrs_from_braces(s, crate::grammar::skip_ws(s, q2));
}

/// The attributes that `block_attrs` gives are read from braces, or empty, or null.
proof fn lemma_attrs_from_braces(s: Seq<char>, p: int)
    ensures
        attrs_from_braces(crate::grammar::block_attrs(s, p).1),
{
    if 0 <= p < s.len() && s[p] == '{' {
        let q = crate::grammar::nested_json(s, p + 1);
        if 0 <= q < s.len() && s[q] == '}' {
            lemma_nested_json_ge(s, p + 1);
            let t = s.subrange(p, q + 1);
            assert(t[0] == '{');
            assert(t.last() == s[q]);
            match json_from_text(t) {
                Some(v) => {
                    assert(json_from_text(t) == Some(v));
                },
                None => {},
            }
        }
    }
}

proof fn lemma_skip_ws_ge(s: Seq<char>, p: int)
    ensures
        crate::grammar::skip_ws(s, p) >= p,
    decreases s.len() - p,
{
    if 0 <= p < s.len() && crate::grammar::is_ws(s[p]) {
        lemma_skip_ws_ge(s, p + 1);
    }
}

/// A void block is well formed.
proof fn lemma_void_wf(s: Seq<char>, p: int)
    ensures
        block_void(s, p) matches Some((_, b)) ==> block_wf(b),
{
    if block_void(s, p) is Some {
        lemma_opener_named(s, p);
        let (q, name, attrs) = block_opener(s, p)->Some_0;
        let none: Seq<SpecPiece> = seq![];
        lemma_pieces_content(none);
        assert(!any_unnamed(none));
        lemma_balanced_block_wf(name, attrs, none);
    }
}

/// A balanced block is well formed.
proof fn lemma_balanced_wf(s: Seq<char>, p: int)
    ensures
        block_balanced(s, p) matches Some((_, b)) ==> block_wf(b),
    decreases s.len() - p, 0int,
{
    match block_start(s, p) {
        Some((q, name, attrs)) => {
            if p < q <= s.len() {
                lemma_opener_named(s, p);
                lemma_content_pieces_wf(s, q);
                lemma_balanced_block_wf(name, attrs, content_pieces(s, q).1);
            }
        },
        None => {},
    }
}

/// A content piece that is a block is well formed.
proof fn lemma_content_piece_wf(s: Seq<char>, p: int)
    ensures
        content_piece(s, p) matches Some((_, SpecPiece::Block(b))) ==> block_wf(b),
    decreases s.len() - p, 1int,
{
    lemma_balanced_wf(s, p);
    lemma_void_wf(s, p);
}

/// The content pieces of a balanced block are well formed.
proof fn lemma_content_pieces_wf(s: Seq<char>, p: int)
    ensures
        pieces_wf(content_pieces(s, p).1),
    decreases s.len() - p, 2int,
{
    lemma_content_piece_wf(s, p);
    match content_piece(s, p) {
        Some((q, piece)) => {
            if p < q <= s.len() {
                lemma_content_pieces_wf(s, q);
                lemma_content_pieces_named(s, p);
                let rest = content_pieces(s, q).1;
                let all = seq![piece] + rest;
                assert(content_pieces(s, p).1 == all);
                assert forall|i: int| 0 <= i < all.len() implies match #[trigger] all[i] {
                    SpecPiece::Block(b) => b.name is Some && block_wf(b),
                    SpecPiece::Text(t) => t.len() > 0,
                } by {
                    if i > 0 {
                        assert(all[i] == rest[i - 1]);
                    }
                }
                if piece is Text && rest.len() > 0 {
                    lemma_inner_text_end_idem(s, p);
                    let (q2, piece2) = content_piece(s, q)->Some_0;
                    assert(rest[0] == piece2);
                }
                assert forall|i: int| 0 <= i < all.len() - 1 implies !(#[trigger] all[i] is Text
                    && all[i + 1] is Text) by {
                    if i > 0 {
                        assert(all[i] == rest[i - 1]);
                        assert(all[i + 1] == rest[i]);
                    } else {
                        assert(all[1] == rest[0]);
                    }
                }
            }
        },
        None => {},
    }
}

/// Text runs up to the next block comment: where it stops, it stops again.
proof fn lemma_inner_text_end_idem(s: Seq<char>, p: int)
    ensures
        crate::grammar::inner_text_end(s, crate::grammar::inner_text_end(s, p))
            == crate::grammar::inner_text_end(s, p),
    decreases s.len() - p,
{
    if !(p < 0 || p >= s.len() || crate::grammar::is_block_end(s, p)
        || crate::grammar::is_block_start(s, p)) {
        lemma_inner_text_end_idem(s, p + 1);
    }
}

proof fn lemma_freeform_if_any_wf(text: Seq<char>)
    ensures
        all_wf(freeform_if_any(text)),
{
    if text.len() > 0 {
        lemma_freeform_wf(text);
    }
}

proof fn lemma_concat_wf(a: Seq<SpecBlock>, b: Seq<SpecBlock>)
    requires
        all_wf(a),
        all_wf(b),
    ensures
        all_wf(a + b),
{
    assert forall|i: int| 0 <= i < (a + b).len() implies block_wf(#[trigger] (a + b)[i]) by {
        if i >= a.len() {
            assert((a + b)[i] == b[i - a.len()]);
        }
    }
}

/// The items of a block list are well formed.
proof fn lemma_items_wf(s: Seq<char>, p: int)
    ensures
        all_wf(items_blocks(items(s, p).1)),
        forall|i: int|
            0 <= i < items(s, p).1.len() ==> block_wf(#[trigger] items(s, p).1[i].0),
    decreases s.len() - p,
{
    match block_with_trailing(s, p) {
        Some((q, b, html)) => {
            if p < q <= s.len() {
                lemma_balanced_wf(s, p);
                lemma_void_wf(s, p);
                if block_balanced(s, p) is None && block_void(s, p) is None {
                    lemma_freeform_wf(s.subrange(p, q));
                }
                lemma_items_wf(s, q);
                let rest = items(s, q).1;
                let all = seq![(b, html)] + rest;
                assert forall|i: int| 0 <= i < all.len() implies block_wf(#[trigger] all[i].0) by {
                    if i > 0 {
                        assert(all[i] == rest[i - 1]);
                    }
                }
                lemma_items_blocks_wf(all);
            } else {
                lemma_items_blocks_wf(seq![]);
            }
        },
        None => {
            lemma_items_blocks_wf(seq![]);
        },
    }
}

proof fn lemma_items_blocks_wf(its: Seq<(SpecBlock, Seq<char>)>)
    requires
        forall|i: int| 0 <= i < its.len() ==> block_wf(#[trigger] its[i].0),
    ensures
        all_wf(items_blocks(its)),
    decreases its.len(),
{
    if its.len() > 0 {
        let init = its.drop_last();
        assert forall|i: int| 0 <= i < init.len() implies block_wf(#[trigger] init[i].0) by {
            assert(init[i] == its[i]);
        }
        lemma_items_blocks_wf(init);
        let (b, html) = its.last();
        assert(its.last() == its[its.len() - 1]);
        assert(all_wf(seq![b]));
        lemma_concat_wf(items_blocks(init), seq![b]);
        lemma_freeform_if_any_wf(html);
        lemma_concat_wf(items_blocks(init) + seq![b], freeform_if_any(html));
    }
}

/// Every block that parsing a document gives is well formed: its HTML is the
/// text of its content, its content has one placeholder (`None`) per inner
/// block, its texts are non-empty and never side by side, its attributes are
/// the empty object, null, or read from a text in braces; a block without a
/// name is a free-form block (empty attributes, no inner blocks, its non-empty
/// HTML as its content), a named block has a namespaced name, every inner
/// block is named (so free-form blocks occur only at the top level), and the
/// same holds of all inner blocks, at every depth.
#[verifier::spinoff_prover]
pub proof fn law_parsed_blocks_are_well_formed(input: Seq<char>)
    ensures
        all_wf(parse_document(input)),
{
    let t = crate::grammar::trim(input);
    match block_list(t) {
        Some(blocks) => {
            let (p1, pre) = opt_freeform(t, 0);
            let (p2, its) = items(t, p1);
            let (p3, post) = opt_freeform(t, p2);
            lemma_freeform_if_any_wf(pre);
            lemma_items_wf(t, p1);
            lemma_freeform_if_any_wf(post);
            lemma_concat_wf(freeform_if_any(pre), items_blocks(its));
            lemma_concat_wf(freeform_if_any(pre) + items_blocks(its), freeform_if_any(post));
        },
        None => {
            law_no_blocks_iff_blank(input);
            lemma_freeform_wf(t);
            assert(all_wf(seq![freeform(t)]));
        },
    }
}

// ----- Empty documents --------------------------------------------------------

proof fn lemma_items_blocks_len(its: Seq<(SpecBlock, Seq<char>)>)
    ensures
        items_blocks(its).len() >= its.len(),
    decreases its.len(),
{
    if its.len() > 0 {
        lemma_items_blocks_len(its.drop_last());
    }
}

proof fn lemma_trim_front_empty_iff(x: Seq<char>)
    ensures
        trim_front(x).len() == 0 <==> all_ws(x),
        trim_front(x).len() > 0 ==> !is_unicode_ws(trim_front(x)[0]),
    decreases x.len(),
{
    if x.len() > 0 {
        let rest = x.drop_first();
        lemma_trim_front_empty_iff(rest);
        if is_unicode_ws(x[0]) {
            if all_ws(rest) {
                assert forall|i: int| 0 <= i < x.len() implies white_space_char(#[trigger] x[i]) by {
                    if i > 0 {
                        assert(x[i] == rest[i - 1]);
                    }
                }
            }
            if all_ws(x) {
                assert forall|i: int| 0 <= i < rest.len() implies white_space_char(
                    #[trigger] rest[i],
                ) by {
                    assert(rest[i] == x[i + 1]);
                }
            }
        } else {
            assert(!white_space_char(x[0]));
        }
    }
}

proof fn lemma_trim_back_keeps_first(y: Seq<char>)
    requires
        y.len() > 0,
        !is_unicode_ws(y[0]),
    ensures
        trim_back(y).len() > 0,
    decreases y.len(),
{
    if y.len() > 1 && is_unicode_ws(y.last()) {
        assert(y.drop_last()[0] == y[0]);
        lemma_trim_back_keeps_first(y.drop_last());
    }
}

/// A document gives no blocks exactly when it is empty or all whitespace.
pub proof fn law_no_blocks_iff_blank(input: Seq<char>)
    ensures
        parse_document(input).len() == 0 <==> crate::grammar::trim(input).len() == 0,
        parse_document(input).len() == 0 <==> all_ws(input),
{
    lemma_trim_front_empty_iff(input);
    if trim_front(input).len() > 0 {
        lemma_trim_back_keeps_first(trim_front(input));
    } else {
        assert(trim_back(trim_front(input)) == trim_front(input));
    }
    let t = crate::grammar::trim(input);
    if t.len() == 0 {
        assert(opt_freeform(t, 0) == (0int, Seq::<char>::empty()));
        assert(block_with_trailing(t, 0) is None);
        assert(items(t, 0) == (0int, Seq::<(SpecBlock, Seq<char>)>::empty()));
        assert(items_blocks(Seq::<(SpecBlock, Seq<char>)>::empty()) == Seq::<SpecBlock>::empty());
        assert(block_list_inner(t).1 =~= Seq::<SpecBlock>::empty());
    } else {
        match block_list(t) {
            Some(blocks) => {
                let (p1, pre) = opt_freeform(t, 0);
                let (p2, its) = items(t, p1);
                let (p3, post) = opt_freeform(t, p2);
                lemma_items_blocks_len(its);
                if pre.len() == 0 && its.len() == 0 && post.len() == 0 {
                    assert(p1 == 0);
                    assert(p2 == p1);
                    assert(p3 == p2);
                }
                assert(blocks == freeform_if_any(pre) + items_blocks(its) + freeform_if_any(post));
            },
            None => {},
        }
    }
}

// ----- Surrounding whitespace -------------------------------------------------

/// `c` has the Unicode `White_Space` property.
pub open spec fn white_space_char(c: char) -> bool {
    ||| ('\u{9}' <= c && c <= '\u{d}')
    ||| c == ' '
    ||| c == '\u{85}'
    ||| c == '\u{a0}'
    ||| c == '\u{1680}'
    ||| ('\u{2000}' <= c && c <= '\u{200a}')
    ||| c == '\u{2028}'
    ||| c == '\u{2029}'
    ||| c == '\u{202f}'
    ||| c == '\u{205f}'
    ||| c == '\u{3000}'
}

/// Every character of `w` is whitespace.
pub open spec fn all_ws(w: Seq<char>) -> bool {
    forall|i: int| 0 <= i < w.len() ==> white_space_char(#[trigger] w[i])
}

proof fn lemma_trim_front_ws_prefix(w: Seq<char>, y: Seq<char>)
    requires
        all_ws(w),
    ensures
        trim_front(w + y) == trim_front(y),
    decreases w.len(),
{
    if w.len() > 0 {
        assert((w + y)[0] == w[0]);
        assert((w + y).drop_first() =~= w.drop_first() + y);
        let rest = w.drop_first();
        assert forall|i: int| 0 <= i < rest.len() implies white_space_char(#[trigger] rest[i]) by {
            assert(rest[i] == w[i + 1]);
        }
        lemma_trim_front_ws_prefix(rest, y);
    } else {
        assert(w + y =~= y);
    }
}

proof fn lemma_trim_back_ws_suffix(y: Seq<char>, w: Seq<char>)
    requires
        all_ws(w),
    ensures
        trim_back(y + w) == trim_back(y),
    decreases w.len(),
{
    if w.len() > 0 {
        assert((y + w).last() == w.last());
        assert((y + w).drop_last() =~= y + w.drop_last());
        let rest = w.drop_last();
        assert forall|i: int| 0 <= i < rest.len() implies white_space_char(#[trigger] rest[i]) by {
            assert(rest[i] == w[i]);
        }
        assert(is_unicode_ws(w[w.len() - 1]));
        lemma_trim_back_ws_suffix(y, rest);
    } else {
        assert(y + w =~= y);
    }
}

proof fn lemma_trim_front_append(x: Seq<char>, w: Seq<char>)
    requires
        all_ws(w),
    ensures
        trim_front(x).len() > 0 ==> trim_front(x + w) == trim_front(x) + w,
        trim_front(x).len() == 0 ==> trim_front(x + w).len() == 0,
    decreases x.len(),
{
    if x.len() > 0 {
        assert((x + w)[0] == x[0]);
        if is_unicode_ws(x[0]) {
            assert((x + w).drop_first() =~= x.drop_first() + w);
            lemma_trim_front_append(x.drop_first(), w);
        }
    } else {
        assert(x + w =~= w);
        lemma_trim_front_ws_prefix(w, seq![]);
        assert(w + Seq::<char>::empty() =~= w);
    }
}

/// Whitespace around a document does not change its blocks: it is trimmed
/// before parsing.
pub proof fn law_surrounding_whitespace_is_ignored(before: Seq<char>, doc: Seq<char>, after: Seq<char>)
    requires
        all_ws(before),
        all_ws(after),
    ensures
        parse_document(before + doc + after) == parse_document(doc),
{
    let whole = before + doc + after;
    assert(whole =~= before + (doc + after));
    lemma_trim_front_ws_prefix(before, doc + after);
    lemma_trim_front_append(doc, after);
    if trim_front(doc).len() > 0 {
        lemma_trim_back_ws_suffix(trim_front(doc), after);
    } else {
        assert(trim_front(doc) =~= Seq::<char>::empty());
        assert(trim_front(doc + after) =~= Seq::<char>::empty());
    }
    assert(trim(whole) == trim(doc));
}

// ----- Void blocks and empty balanced blocks ----------------------------------

/// A void block and a balanced block with nothing between its opener and its
/// closer are the same block: the one that the name and attributes of the
/// opener make, with no inner blocks, no HTML and no content.
pub proof fn law_void_and_empty_balanced_agree(s: Seq<char>, p: int)
    requires
        block_opener(s, p) is Some,
    ensures
        ({
            let (q, name, attrs) = block_opener(s, p)->Some_0;
            let empty = assemble(name, attrs, seq![]);
            &&& empty.inner_blocks.len() == 0
            &&& empty.inner_html.len() == 0
            &&& empty.inner_content.len() == 0
            &&& crate::grammar::has_lit(s, q, crate::grammar::lit_void_close()) ==> block_void(s, p)
                == Some((q + 4, empty))
            &&& crate::grammar::has_lit(s, q, crate::grammar::lit_close()) && content_piece(
                s,
                q + 3,
            ) is None && crate::grammar::block_end(s, q + 3) is Some ==> block_balanced(s, p)
                == Some((crate::grammar::block_end(s, q + 3)->Some_0, empty))
        }),
{
    let (q, name, attrs) = block_opener(s, p)->Some_0;
    let none: Seq<SpecPiece> = seq![];
    assert(!any_unnamed(none));
    assert(pieces_blocks(none) =~= Seq::<SpecBlock>::empty());
    assert(pieces_html(none) =~= Seq::<char>::empty());
    lemma_opener_bounds(s, p);
}

/// An opener reaches past its `<!--`.
proof fn lemma_opener_bounds(s: Seq<char>, p: int)
    ensures
        block_opener(s, p) matches Some((q, _, _)) ==> p + 4 < q,
{
    if block_opener(s, p) is Some {
        lemma_skip_ws_ge(s, p + 4);
        let start = crate::grammar::skip_ws(s, p + 4) + 3;
        lemma_block_name_bounds(s, start);
        let q2 = block_name(s, start)->Some_0.0;
        lemma_skip_ws_ge(s, q2);
        lemma_skip_ws_ge(s, crate::grammar::block_attrs(s, crate::grammar::skip_ws(s, q2)).0);
        lemma_attrs_ge(s, crate::grammar::skip_ws(s, q2));
    }
}

/// A block whose closer is missing is still a block: once its opener reads,
/// a balanced block always reads, taking the content that follows up to a
/// closer, or up to where the content stops when none follows.
pub proof fn law_missing_closer_is_tolerated(s: Seq<char>, p: int)
    requires
        block_start(s, p) is Some,
    ensures
        block_balanced(s, p) is Some,
        ({
            let (q, name, attrs) = block_start(s, p)->Some_0;
            let (r, pieces) = content_pieces(s, q);
            crate::grammar::block_end(s, r) is None ==> block_balanced(s, p) == Some(
                (r, balanced_block(name, attrs, pieces)),
            )
        }),
{
    lemma_opener_bounds(s, p);
}

proof fn lemma_block_name_bounds(s: Seq<char>, p: int)
    requires
        0 <= p,
    ensures
        block_name(s, p) matches Some((q, _)) ==> p < q,
{
    if ident(s, p) is Some {
        lemma_ident_is_ident(s, p);
        let e = ident(s, p)->Some_0;
        if crate::grammar::has_lit(s, e, seq!['/']) && ident(s, e + 1) is Some {
            lemma_ident_is_ident(s, e + 1);
        }
    }
}

proof fn lemma_attrs_ge(s: Seq<char>, p: int)
    ensures
        crate::grammar::block_attrs(s, p).0 >= p,
{
    lemma_nested_json_ge(s, p + 1);
}

proof fn lemma_nested_json_ge(s: Seq<char>, p: int)
    ensures
        crate::grammar::nested_json(s, p) >= p,
    decreases s.len() - p,
{
    match crate::grammar::json_item(s, p) {
        Some(q) => if p < q <= s.len() {
            lemma_nested_json_ge(s, q);
        },
        None => {},
    }
}

// ----- Whole documents: void and empty blocks, missing closers ----------------

/// A text with no whitespace at either end is its own trim.
proof fn lemma_trim_noop(s: Seq<char>)
    requires
        s.len() > 0,
        !is_unicode_ws(s[0]),
        !is_unicode_ws(s.last()),
    ensures
        trim(s) == s,
{
    assert(trim_front(s) == s);
    assert(trim_back(s) == s);
}

/// At the end of the text no block reads.
proof fn lemma_nothing_at_end(s: Seq<char>)
    ensures
        block_with_trailing(s, s.len() as int) is None,
        opt_freeform(s, s.len() as int) == (s.len() as int, Seq::<char>::empty()),
        content_piece(s, s.len() as int) is None,
{
    let n = s.len() as int;
    assert(!crate::grammar::has_lit(s, n, crate::grammar::lit_open()));
    assert(crate::grammar::inner_text_end(s, n) == n);
}

/// A document that is exactly one block, opening at its start and reaching
/// its end, with no text after it, gives that block alone.
#[verifier::spinoff_prover]
proof fn lemma_single_block_document(s: Seq<char>, blk: SpecBlock)
    requires
        s.len() > 0,
        !is_unicode_ws(s[0]),
        !is_unicode_ws(s.last()),
        crate::grammar::is_block_start(s, 0),
        block_with_trailing(s, 0) == Some((s.len() as int, blk, Seq::<char>::empty())),
    ensures
        parse_document(s) == seq![blk],
{
    lemma_trim_noop(s);
    let n = s.len() as int;
    assert(crate::grammar::freeform_end(s, 0) == 0);
    assert(opt_freeform(s, 0) == (0int, Seq::<char>::empty()));
    lemma_nothing_at_end(s);
    assert(items(s, n) == (n, Seq::<(SpecBlock, Seq<char>)>::empty()));
    let its = seq![(blk, Seq::<char>::empty())];
    assert(seq![(blk, Seq::<char>::empty())] + Seq::<(SpecBlock, Seq<char>)>::empty() =~= its);
    assert(items(s, 0) == (n, its));
    assert(its.drop_last() =~= Seq::<(SpecBlock, Seq<char>)>::empty());
    assert(items_blocks(Seq::<(SpecBlock, Seq<char>)>::empty()) == Seq::<SpecBlock>::empty());
    assert(freeform_if_any(Seq::<char>::empty()) == Seq::<SpecBlock>::empty());
    assert(its.last() == (blk, Seq::<char>::empty()));
    assert(items_blocks(its) == items_blocks(its.drop_last()) + seq![blk] + freeform_if_any(
        Seq::<char>::empty(),
    ));
    assert(items_blocks(its) =~= seq![blk]);
    assert(block_list_inner(s).1 =~= seq![blk]);
}

/// `t` stands in `a + t + b` right after `a`.
proof fn lemma_lit_in_concat(a: Seq<char>, t: Seq<char>, b: Seq<char>)
    ensures
        crate::grammar::has_lit(a + t + b, a.len() as int, t),
{
    assert((a + t + b).subrange(a.len() as int, (a.len() + t.len()) as int) =~= t);
}

/// `-->` and `/-->` differ in their first character.
proof fn lemma_close_not_void_close(s: Seq<char>, q: int)
    ensures
        !(crate::grammar::has_lit(s, q, crate::grammar::lit_close()) && crate::grammar::has_lit(
            s,
            q,
            crate::grammar::lit_void_close(),
        )),
{
    if crate::grammar::has_lit(s, q, crate::grammar::lit_close()) && crate::grammar::has_lit(
        s,
        q,
        crate::grammar::lit_void_close(),
    ) {
        assert(s.subrange(q, q + 3)[0] == s[q]);
        assert(s.subrange(q, q + 4)[0] == s[q]);
    }
}

/// Where a closer reads, no opener, void block or text does.
proof fn lemma_closer_is_no_piece(s: Seq<char>, r: int)
    requires
        crate::grammar::block_end(s, r) is Some,
    ensures
        crate::grammar::is_block_end(s, r),
        !crate::grammar::is_block_start(s, r),
        block_opener(s, r) is None,
        content_piece(s, r) is None,
{
    let w = crate::grammar::skip_ws(s, r + 4);
    assert(s.subrange(w, w + 4)[0] == s[w]);
    if crate::grammar::has_lit(s, w, crate::grammar::lit_wp()) {
        assert(s.subrange(w, w + 3)[0] == s[w]);
    }
    assert(crate::grammar::inner_text_end(s, r) == r);
}

/// A void block and a balanced block with nothing inside give the same
/// document: where an opener body `x` reads with the same name and attributes
/// both before `/-->` and before `-->` followed by a closer `close`, the
/// documents `x/-->` and `x-->close` are the same single block.
#[verifier::spinoff_prover]
pub proof fn law_void_and_empty_balanced_documents_agree(x: Seq<char>, close: Seq<char>)
    requires
        block_opener(x + crate::grammar::lit_void_close(), 0) matches Some((q, _, _)) && q
            == x.len(),
        block_opener(x + crate::grammar::lit_close() + close, 0) == block_opener(
            x + crate::grammar::lit_void_close(),
            0,
        ),
        crate::grammar::block_end(x + crate::grammar::lit_close() + close, x.len() + 3int)
            == Some((x.len() + 3 + close.len()) as int),
    ensures
        ({
            let (q, name, attrs) = block_opener(x + crate::grammar::lit_void_close(), 0)->Some_0;
            &&& parse_document(x + crate::grammar::lit_void_close()) == seq![
                assemble(name, attrs, seq![]),
            ]
            &&& parse_document(x + crate::grammar::lit_close() + close) == seq![
                assemble(name, attrs, seq![]),
            ]
        }),
{
    let v = x + crate::grammar::lit_void_close();
    let b = x + crate::grammar::lit_close() + close;
    let (q, name, attrs) = block_opener(v, 0)->Some_0;
    let blk = assemble(name, attrs, seq![]);
    lemma_opener_bounds(v, 0);
    // The void form.
    lemma_lit_in_concat(x, crate::grammar::lit_void_close(), seq![]);
    assert(x + crate::grammar::lit_void_close() + Seq::<char>::empty() =~= v);
    lemma_close_not_void_close(v, q);
    assert(block_balanced(v, 0) is None);
    assert(block_void(v, 0) == Some((v.len() as int, blk)));
    lemma_nothing_at_end(v);
    assert(crate::grammar::freeform_end(v, v.len() as int) == v.len());
    assert(block_with_trailing(v, 0) == Some((v.len() as int, blk, Seq::<char>::empty())));
    assert(v[0] == v.subrange(0, 4)[0]);
    assert(v.last() == v.subrange(v.len() - 4, v.len() as int)[3]);
    lemma_single_block_document(v, blk);
    // The balanced form.
    lemma_lit_in_concat(x, crate::grammar::lit_close(), close);
    let r = x.len() + 3int;
    lemma_closer_is_no_piece(b, r);
    assert(content_pieces(b, r) == (r, Seq::<SpecPiece>::empty()));
    let none: Seq<SpecPiece> = seq![];
    assert(!any_unnamed(none));
    assert(block_balanced(b, 0) == Some((b.len() as int, blk)));
    lemma_nothing_at_end(b);
    assert(crate::grammar::freeform_end(b, b.len() as int) == b.len());
    assert(block_with_trailing(b, 0) == Some((b.len() as int, blk, Seq::<char>::empty())));
    assert(b[0] == b.subrange(0, 4)[0]);
    let e = crate::grammar::skip_ws(b, crate::grammar::block_name(
        b,
        crate::grammar::skip_ws(b, r + 4) + 4,
    )->Some_0.0);
    assert(e + 3 == b.len());
    assert(b.last() == b.subrange(e, e + 3)[2]);
    lemma_single_block_document(b, blk);
}

/// A block missing its closer gives the same document as with the closer:
/// where an opener `open` reads with the same name and attributes in `open + c`
/// and in `open + c + close`, the content `c` reads as the same pieces in both
/// and ends where `c` ends, `close` is a closer, and the document ends in no
/// whitespace, the two documents are the same single block.
#[verifier::spinoff_prover]
pub proof fn law_missing_closer_documents_agree(open: Seq<char>, c: Seq<char>, close: Seq<char>)
    requires
        block_start(open + c, 0) matches Some((q, _, _)) && q == open.len(),
        block_start(open + c + close, 0) == block_start(open + c, 0),
        content_pieces(open + c, open.len() as int).0 == open.len() + c.len(),
        content_pieces(open + c + close, open.len() as int) == (
            (open.len() + c.len()) as int,
            content_pieces(open + c, open.len() as int).1,
        ),
        crate::grammar::block_end(open + c + close, (open.len() + c.len()) as int) == Some(
            (open.len() + c.len() + close.len()) as int,
        ),
        !white_space_char((open + c).last()),
    ensures
        ({
            let (q, name, attrs) = block_start(open + c, 0)->Some_0;
            let pieces = content_pieces(open + c, open.len() as int).1;
            &&& parse_document(open + c) == seq![balanced_block(name, attrs, pieces)]
            &&& parse_document(open + c + close) == seq![balanced_block(name, attrs, pieces)]
        }),
{
    let s1 = open + c;
    let s2 = open + c + close;
    let (q, name, attrs) = block_start(s1, 0)->Some_0;
    let pieces = content_pieces(s1, q).1;
    let blk = balanced_block(name, attrs, pieces);
    lemma_opener_bounds(s1, 0);
    // Without the closer.
    let n1 = s1.len() as int;
    assert(crate::grammar::block_end(s1, n1) is None);
    assert(block_balanced(s1, 0) == Some((n1, blk)));
    lemma_nothing_at_end(s1);
    assert(crate::grammar::freeform_end(s1, n1) == n1);
    assert(block_with_trailing(s1, 0) == Some((n1, blk, Seq::<char>::empty())));
    assert(s1[0] == s1.subrange(0, 4)[0]);
    lemma_single_block_document(s1, blk);
    // With the closer.
    let n2 = s2.len() as int;
    assert(block_balanced(s2, 0) == Some((n2, blk)));
    lemma_nothing_at_end(s2);
    assert(crate::grammar::freeform_end(s2, n2) == n2);
    assert(block_with_trailing(s2, 0) == Some((n2, blk, Seq::<char>::empty())));
    assert(s2[0] == s2.subrange(0, 4)[0]);
    let r = (open.len() + c.len()) as int;
    let e = crate::grammar::skip_ws(s2, crate::grammar::block_name(
        s2,
        crate::grammar::skip_ws(s2, r + 4) + 4,
    )->Some_0.0);
    assert(e + 3 == n2);
    assert(s2.last() == s2.subrange(e, e + 3)[2]);
    lemma_single_block_document(s2, blk);
}

// ----- The same, for plainly written blocks -----------------------------------

/// A block name as written in a comment: a name, or a namespaced name.
pub open spec fn is_name_text(n: Seq<char>) -> bool {
    is_ident(n) || is_namespaced(n)
}

/// The name a block written with `n` gets: `n` itself when namespaced, else
/// `core/n`.
pub open spec fn full_name(n: Seq<char>) -> Seq<char> {
    if is_ident(n) {
        seq!['c', 'o', 'r', 'e', '/'] + n
    } else {
        n
    }
}

/// `<!-- wp:`
pub open spec fn lit_opener_start() -> Seq<char> {
    seq!['<', '!', '-', '-', ' ', 'w', 'p', ':']
}

/// `<!-- wp:n /-->`
pub open spec fn void_text(n: Seq<char>) -> Seq<char> {
    lit_opener_start() + n + seq![' ', '/', '-', '-', '>']
}

/// `<!-- /wp:n -->`
pub open spec fn closer_text(n: Seq<char>) -> Seq<char> {
    seq!['<', '!', '-', '-', ' ', '/', 'w', 'p', ':'] + n + seq![' ', '-', '-', '>']
}

proof fn lemma_name_run(s: Seq<char>, p: int, e: int)
    requires
        0 <= p <= e < s.len(),
        forall|i: int| p <= i < e ==> is_name_char(#[trigger] s[i]),
        !is_name_char(s[e]),
    ensures
        name_chars_end(s, p) == e,
    decreases e - p,
{
    if p < e {
        lemma_name_run(s, p + 1, e);
    }
}

/// A name written at `p` and followed by a space reads as its full name.
proof fn lemma_block_name_text(s: Seq<char>, p: int, n: Seq<char>)
    requires
        0 <= p,
        p + n.len() < s.len(),
        s.subrange(p, p + n.len()) == n,
        !is_name_char(s[p + n.len()]),
        s[p + n.len()] != '/',
        is_name_text(n),
    ensures
        block_name(s, p) == Some((p + n.len(), full_name(n))),
{
    let m = n.len() as int;
    assert forall|i: int| 0 <= i < m implies s[p + i] == #[trigger] n[i] by {
        assert(s.subrange(p, p + m)[i] == s[p + i]);
    }
    assert(!is_name_char(' '));
    assert(!is_name_char('/'));
    if is_ident(n) {
        assert forall|i: int| p + 1 <= i < p + m implies is_name_char(#[trigger] s[i]) by {
            assert(s[p + (i - p)] == n[i - p]);
        }
        lemma_name_run(s, p + 1, p + m);
        assert(s[p] == n[0]);
        assert(!crate::grammar::has_lit(s, p + m, seq!['/'])) by {
            if crate::grammar::has_lit(s, p + m, seq!['/']) {
                assert(s.subrange(p + m, p + m + 1)[0] == s[p + m]);
            }
        }
    } else {
        let k = choose|k: int|
            0 < k < n.len() && n[k] == '/' && is_ident(#[trigger] n.subrange(0, k)) && is_ident(
                n.subrange(k + 1, n.len() as int),
            );
        let a = n.subrange(0, k);
        let b = n.subrange(k + 1, m);
        assert forall|i: int| p + 1 <= i < p + k implies is_name_char(#[trigger] s[i]) by {
            assert(s[p + (i - p)] == n[i - p]);
            assert(a[i - p] == n[i - p]);
        }
        assert(s[p + k] == n[k]);
        lemma_name_run(s, p + 1, p + k);
        assert(s[p] == n[0]);
        assert(a[0] == n[0]);
        assert(crate::grammar::has_lit(s, p + k, seq!['/'])) by {
            assert(s.subrange(p + k, p + k + 1) =~= seq!['/']);
        }
        assert forall|i: int| p + k + 2 <= i < p + m implies is_name_char(#[trigger] s[i]) by {
            assert(s[p + (i - p)] == n[i - p]);
            assert(b[i - p - k - 1] == n[i - p]);
        }
        assert(s[p + k + 1] == n[k + 1]);
        assert(b[0] == n[k + 1]);
        lemma_name_run(s, p + k + 2, p + m);
        assert(s.subrange(p, p + m) == n);
    }
}

/// The opener `<!-- wp:n ` followed by `-` or `/` reads up to that character,
/// with the full name of `n` and empty attributes.
proof fn lemma_plain_opener(n: Seq<char>, rest: Seq<char>)
    requires
        is_name_text(n),
        rest.len() > 0,
        rest[0] == '-' || rest[0] == '/',
    ensures
        block_opener(lit_opener_start() + n + seq![' '] + rest, 0) == Some(
            ((9 + n.len()) as int, full_name(n), empty_object()),
        ),
{
    let s = lit_opener_start() + n + seq![' '] + rest;
    let m = n.len() as int;
    assert(s.subrange(0, 4) =~= crate::grammar::lit_open());
    assert(s[4] == ' ');
    assert(s[5] == 'w');
    assert(crate::grammar::skip_ws(s, 5) == 5);
    assert(crate::grammar::skip_ws(s, 4) == 5);
    assert(s.subrange(5, 8) =~= crate::grammar::lit_wp());
    assert(s.subrange(8, 8 + m) =~= n);
    assert(s[8 + m] == ' ');
    lemma_block_name_text(s, 8, n);
    assert(s[9 + m] == rest[0]);
    assert(crate::grammar::skip_ws(s, 9 + m) == 9 + m);
    assert(crate::grammar::skip_ws(s, 8 + m) == 9 + m);
}

/// The closer `<!-- /wp:n -->` ending the text reads to the end.
proof fn lemma_plain_closer(s: Seq<char>, r: int, n: Seq<char>)
    requires
        is_name_text(n),
        0 <= r,
        r + closer_text(n).len() <= s.len(),
        s.subrange(r, r + closer_text(n).len()) == closer_text(n),
    ensures
        crate::grammar::block_end(s, r) == Some(r + closer_text(n).len()),
{
    let m = n.len() as int;
    let c = closer_text(n);
    let whole = s.subrange(r, r + c.len());
    assert forall|i: int, j: int| 0 <= i <= j <= c.len() implies s.subrange(r + i, r + j)
        == #[trigger] c.subrange(i, j) by {
        assert(s.subrange(r + i, r + j) =~= whole.subrange(i, j));
    }
    assert(c.subrange(0, 4) =~= crate::grammar::lit_open());
    assert(c.subrange(4, 5) =~= seq![' ']);
    assert(c.subrange(5, 9) =~= crate::grammar::lit_end_wp());
    assert(c.subrange(9, 9 + m) =~= n);
    assert(c.subrange(9 + m, 10 + m) =~= seq![' ']);
    assert(c.subrange(10 + m, 13 + m) =~= crate::grammar::lit_close());
    assert(s[r + 4] == s.subrange(r + 4, r + 5)[0]);
    assert(s[r + 5] == s.subrange(r + 5, r + 9)[0]);
    assert(crate::grammar::skip_ws(s, r + 5) == r + 5);
    assert(crate::grammar::skip_ws(s, r + 4) == r + 5);
    assert(s[r + 9 + m] == s.subrange(r + 9 + m, r + 10 + m)[0]);
    lemma_block_name_text(s, r + 9, n);
    assert(s[r + 10 + m] == s.subrange(r + 10 + m, r + 13 + m)[0]);
    assert(crate::grammar::skip_ws(s, r + 10 + m) == r + 10 + m);
    assert(crate::grammar::skip_ws(s, r + 9 + m) == r + 10 + m);
}

/// `<!-- wp:n ` followed by `/-->`: the text of the void form.
proof fn lemma_void_text_reads(n: Seq<char>)
    requires
        is_name_text(n),
    ensures
        void_text(n) == lit_opener_start() + n + seq![' '] + crate::grammar::lit_void_close(),
        block_opener(void_text(n), 0) == Some(
            ((9 + n.len()) as int, full_name(n), empty_object()),
        ),
{
    lemma_plain_opener(n, crate::grammar::lit_void_close());
    assert(void_text(n) =~= lit_opener_start() + n + seq![' '] + crate::grammar::lit_void_close());
}

/// `<!-- wp:n ` followed by `--><!-- /wp:n -->`: the text of the empty
/// balanced form.
#[verifier::spinoff_prover]
proof fn lemma_empty_balanced_text_reads(n: Seq<char>)
    requires
        is_name_text(n),
    ensures
        crate::grammar::opener_text(n) + closer_text(n) == lit_opener_start() + n + seq![' ']
            + crate::grammar::lit_close() + closer_text(n),
        block_opener(crate::grammar::opener_text(n) + closer_text(n), 0) == Some(
            ((9 + n.len()) as int, full_name(n), empty_object()),
        ),
        crate::grammar::block_end(
            crate::grammar::opener_text(n) + closer_text(n),
            (9 + n.len() + 3) as int,
        ) == Some((crate::grammar::opener_text(n) + closer_text(n)).len() as int),
{
    let x = lit_opener_start() + n + seq![' '];
    let cl = crate::grammar::lit_close();
    let close = closer_text(n);
    let b = crate::grammar::opener_text(n) + close;
    lemma_plain_opener(n, cl + close);
    assert(b =~= x + (cl + close));
    assert(b =~= x + cl + close);
    assert(b.subrange(x.len() + 3int, b.len() as int) =~= close);
    lemma_plain_closer(b, x.len() + 3int, n);
}

/// `<!-- wp:n /-->` and `<!-- wp:n --><!-- /wp:n -->` are the same document,
/// for every block name `n`: one block with the full name of `n`, empty
/// attributes and no content.
#[verifier::spinoff_prover]
pub proof fn law_void_and_empty_balanced_blocks_parse_alike(n: Seq<char>)
    requires
        is_name_text(n),
    ensures
        parse_document(void_text(n)) == seq![assemble(full_name(n), empty_object(), seq![])],
        parse_document(crate::grammar::opener_text(n) + closer_text(n)) == seq![
            assemble(full_name(n), empty_object(), seq![]),
        ],
{
    lemma_void_text_reads(n);
    lemma_empty_balanced_text_reads(n);
    law_void_and_empty_balanced_documents_agree(lit_opener_start() + n + seq![' '], closer_text(n));
}

/// In `<!-- wp:n -->` + `t` + `tail`, the opener reads up to `t`.
proof fn lemma_plain_start(n: Seq<char>, t: Seq<char>, tail: Seq<char>)
    requires
        is_name_text(n),
    ensures
        block_start(crate::grammar::opener_text(n) + t + tail, 0) == Some(
            (crate::grammar::opener_text(n).len() as int, full_name(n), empty_object()),
        ),
{
    let x = lit_opener_start() + n + seq![' '];
    let cl = crate::grammar::lit_close();
    let s = crate::grammar::opener_text(n) + t + tail;
    lemma_plain_opener(n, cl + t + tail);
    assert(s =~= x + (cl + t + tail));
    assert(s.subrange(x.len() as int, x.len() + 3int) =~= cl);
}

// ----- Reading attribute text in context --------------------------------------

/// No character of `r` is a double quote or a brace, so none can take part in
/// reading attribute text.
pub open spec fn no_json_marks(r: Seq<char>) -> bool {
    forall|i: int| 0 <= i < r.len() ==> #[trigger] r[i] != '"' && r[i] != '{' && r[i] != '}'
}

/// `a` is one attribute text: braces around content that the grammar reads
/// up to the closing brace.
pub open spec fn is_attrs_text(a: Seq<char>) -> bool {
    &&& a.len() >= 2
    &&& a[0] == '{'
    &&& a.last() == '}'
    &&& crate::grammar::nested_json(a, 1) == a.len() - 1
}

proof fn lemma_quote_bounds(s: Seq<char>, p: int)
    ensures
        crate::grammar::quote_at_or_after(s, p) matches Some(q) ==> p <= q < s.len(),
    decreases s.len() - p,
{
    if !(p < 0 || p >= s.len()) && s[p] != '"' {
        lemma_quote_bounds(s, p + 1);
    }
}

proof fn lemma_json_item_bounds(s: Seq<char>, p: int)
    ensures
        crate::grammar::json_item(s, p) matches Some(q) ==> p < q <= s.len(),
{
    lemma_quote_bounds(s, p + 1);
    lemma_nested_json_ge(s, p + 1);
}

proof fn lemma_nested_json_le(s: Seq<char>, p: int)
    requires
        p <= s.len(),
    ensures
        crate::grammar::nested_json(s, p) <= s.len(),
    decreases s.len() - p,
{
    match crate::grammar::json_item(s, p) {
        Some(q) => if p < q <= s.len() {
            lemma_nested_json_le(s, q);
        },
        None => {},
    }
}

/// Quotes after a prefix are found at the same places, shifted.
proof fn lemma_quote_shift(x: Seq<char>, y: Seq<char>, p: int)
    requires
        0 <= p,
    ensures
        crate::grammar::quote_at_or_after(x + y, x.len() + p) == match
            crate::grammar::quote_at_or_after(y, p) {
            Some(q) => Some(x.len() + q),
            None => None,
        },
    decreases y.len() - p,
{
    if p < y.len() {
        assert((x + y)[x.len() + p] == y[p]);
        if y[p] != '"' {
            lemma_quote_shift(x, y, p + 1);
        }
    }
}

/// Reading attribute text after a prefix reads as it does alone, shifted.
proof fn lemma_json_item_shift(x: Seq<char>, y: Seq<char>, p: int)
    requires
        0 <= p <= y.len(),
    ensures
        crate::grammar::json_item(x + y, x.len() + p) == match crate::grammar::json_item(y, p) {
            Some(q) => Some(x.len() + q),
            None => None,
        },
    decreases y.len() - p, 0int,
{
    let s = x + y;
    let k = x.len() as int;
    if p < y.len() {
        assert(s[k + p] == y[p]);
        lemma_quote_shift(x, y, p + 1);
        if y[p] == '{' {
            lemma_nested_json_shift(x, y, p + 1);
            let f = crate::grammar::nested_json(y, p + 1);
            lemma_nested_json_ge(y, p + 1);
            lemma_nested_json_le(y, p + 1);
            if f < y.len() {
                assert(s[k + f] == y[f]);
            }
        }
    }
}

/// `nested_json` after a prefix reads as it does alone, shifted.
proof fn lemma_nested_json_shift(x: Seq<char>, y: Seq<char>, p: int)
    requires
        0 <= p <= y.len(),
    ensures
        crate::grammar::nested_json(x + y, x.len() + p) == x.len() + crate::grammar::nested_json(
            y,
            p,
        ),
    decreases y.len() - p, 1int,
{
    lemma_json_item_shift(x, y, p);
    lemma_json_item_bounds(y, p);
    match crate::grammar::json_item(y, p) {
        Some(q) => {
            lemma_nested_json_shift(x, y, q);
        },
        None => {},
    }
}

proof fn lemma_no_quote_after(s: Seq<char>, p: int)
    requires
        0 <= p,
        forall|i: int| p <= i < s.len() ==> #[trigger] s[i] != '"',
    ensures
        crate::grammar::quote_at_or_after(s, p) is None,
    decreases s.len() - p,
{
    if p < s.len() {
        lemma_no_quote_after(s, p + 1);
    }
}

/// Quotes in `a` are found at the same places in `a + r` when `r` has none.
proof fn lemma_quote_extend(a: Seq<char>, r: Seq<char>, p: int)
    requires
        0 <= p <= a.len(),
        no_json_marks(r),
    ensures
        crate::grammar::quote_at_or_after(a + r, p) == crate::grammar::quote_at_or_after(a, p),
    decreases a.len() - p,
{
    let s = a + r;
    if p < a.len() {
        assert(s[p] == a[p]);
        if a[p] != '"' {
            lemma_quote_extend(a, r, p + 1);
        }
    } else {
        assert forall|i: int| p <= i < s.len() implies #[trigger] s[i] != '"' by {
            assert(s[i] == r[i - a.len()]);
        }
        lemma_no_quote_after(s, p);
    }
}

/// Over text with no quotes or braces, `nested_json` runs to the end.
proof fn lemma_nested_json_runs_out(s: Seq<char>, p: int)
    requires
        0 <= p <= s.len(),
        forall|i: int| p <= i < s.len() ==> #[trigger] s[i] != '"' && s[i] != '{' && s[i] != '}',
    ensures
        crate::grammar::nested_json(s, p) == s.len(),
    decreases s.len() - p,
{
    if p < s.len() {
        assert(crate::grammar::quoted_string(s, p) is None);
        assert(crate::grammar::balanced_braces(s, p) is None);
        assert(crate::grammar::json_item(s, p) == Some(p + 1));
        lemma_nested_json_runs_out(s, p + 1);
    }
}

/// An item of attribute text in `a` reads the same in `a + r`, where `r` has
/// no quotes or braces.
proof fn lemma_json_item_extend(a: Seq<char>, r: Seq<char>, p: int)
    requires
        0 <= p < a.len(),
        no_json_marks(r),
    ensures
        crate::grammar::json_item(a + r, p) == crate::grammar::json_item(a, p),
    decreases a.len() - p, 0int,
{
    let s = a + r;
    assert(s[p] == a[p]);
    lemma_quote_extend(a, r, p + 1);
    if a[p] == '{' {
        lemma_nested_json_extend(a, r, p + 1);
        let f = crate::grammar::nested_json(a, p + 1);
        lemma_nested_json_ge(a, p + 1);
        lemma_nested_json_le(a, p + 1);
        if f < a.len() {
            assert(s[f] == a[f]);
        }
    }
}

/// `nested_json` in `a` reads the same in `a + r` where it stops inside `a`,
/// and runs to the end of `a + r` where it reaches the end of `a`, when `r`
/// has no quotes or braces.
proof fn lemma_nested_json_extend(a: Seq<char>, r: Seq<char>, p: int)
    requires
        0 <= p <= a.len(),
        no_json_marks(r),
    ensures
        crate::grammar::nested_json(a, p) < a.len() ==> crate::grammar::nested_json(a + r, p)
            == crate::grammar::nested_json(a, p),
        crate::grammar::nested_json(a, p) >= a.len() ==> crate::grammar::nested_json(a + r, p)
            == a.len() + r.len(),
    decreases a.len() - p, 1int,
{
    let s = a + r;
    if p < a.len() {
        lemma_json_item_extend(a, r, p);
        lemma_json_item_bounds(a, p);
        match crate::grammar::json_item(a, p) {
            Some(q) => {
                lemma_nested_json_extend(a, r, q);
            },
            None => {},
        }
    } else {
        assert forall|i: int| p <= i < s.len() implies #[trigger] s[i] != '"' && s[i] != '{'
            && s[i] != '}' by {
            assert(s[i] == r[i - a.len()]);
        }
        lemma_nested_json_runs_out(s, p);
    }
}

/// The characters of a block name are no quotes or braces.
proof fn lemma_name_text_no_marks(n: Seq<char>)
    requires
        is_name_text(n),
    ensures
        no_json_marks(n),
{
    if is_ident(n) {
        assert forall|i: int| 0 <= i < n.len() implies #[trigger] n[i] != '"' && n[i] != '{'
            && n[i] != '}' by {
            if i > 0 {
                assert(is_name_char(n[i]));
            }
        }
    } else {
        let k = choose|k: int|
            0 < k < n.len() && n[k] == '/' && is_ident(#[trigger] n.subrange(0, k)) && is_ident(
                n.subrange(k + 1, n.len() as int),
            );
        let a = n.subrange(0, k);
        let b = n.subrange(k + 1, n.len() as int);
        assert forall|i: int| 0 <= i < n.len() implies #[trigger] n[i] != '"' && n[i] != '{'
            && n[i] != '}' by {
            if i < k {
                assert(n[i] == a[i]);
                if i > 0 {
                    assert(is_name_char(a[i]));
                }
            } else if i > k {
                assert(n[i] == b[i - k - 1]);
                if i > k + 1 {
                    assert(is_name_char(b[i - k - 1]));
                }
            }
        }
    }
}

/// The opener `<!-- wp:n a ` standing after `pre` and followed by `-` or `/`
/// (and then no quotes or braces) reads up to that character, with the full
/// name of `n` and the attributes read from `a`.
#[verifier::spinoff_prover]
proof fn lemma_attrs_opener_at(pre: Seq<char>, n: Seq<char>, a: Seq<char>, rest: Seq<char>)
    requires
        is_name_text(n),
        is_attrs_text(a),
        rest.len() > 0,
        rest[0] == '-' || rest[0] == '/',
        no_json_marks(rest),
    ensures
        block_opener(pre + lit_opener_start() + n + seq![' '] + a + seq![' '] + rest, pre.len() as int)
            == Some(
            (
                (pre.len() + 10 + n.len() + a.len()) as int,
                full_name(n),
                crate::grammar::attrs_of_text(a),
            ),
        ),
{
    let x = pre + lit_opener_start() + n + seq![' '];
    let t = seq![' '] + rest;
    let s = pre + lit_opener_start() + n + seq![' '] + a + seq![' '] + rest;
    let P = pre.len() as int;
    let m = n.len() as int;
    let p0 = P + 9 + m;
    let la = a.len() as int;
    assert(s =~= x + (a + t));
    assert(s.subrange(P, P + 4) =~= crate::grammar::lit_open());
    assert(s[P + 4] == ' ');
    assert(s[P + 5] == 'w');
    assert(crate::grammar::skip_ws(s, P + 5) == P + 5);
    assert(crate::grammar::skip_ws(s, P + 4) == P + 5);
    assert(s.subrange(P + 5, P + 8) =~= crate::grammar::lit_wp());
    assert(s.subrange(P + 8, P + 8 + m) =~= n);
    assert(s[P + 8 + m] == ' ');
    lemma_block_name_text(s, P + 8, n);
    assert(s[p0] == a[0]);
    assert(crate::grammar::skip_ws(s, p0) == p0);
    assert(crate::grammar::skip_ws(s, P + 8 + m) == p0);
    assert forall|i: int| 0 <= i < t.len() implies #[trigger] t[i] != '"' && t[i] != '{' && t[i]
        != '}' by {
        if i > 0 {
            assert(t[i] == rest[i - 1]);
        }
    }
    lemma_nested_json_shift(x, a + t, 1);
    lemma_nested_json_extend(a, t, 1);
    assert(crate::grammar::nested_json(s, p0 + 1) == p0 + la - 1);
    assert(s[p0 + la - 1] == a[la - 1]);
    assert(s.subrange(p0, p0 + la) =~= a);
    assert(crate::grammar::block_attrs(s, p0) == (p0 + la, crate::grammar::attrs_of_text(a)));
    assert(s[p0 + la] == ' ');
    assert(s[p0 + la + 1] == rest[0]);
    assert(crate::grammar::skip_ws(s, p0 + la + 1) == p0 + la + 1);
    assert(crate::grammar::skip_ws(s, p0 + la) == p0 + la + 1);
}

/// The opener `<!-- wp:n a ` followed by `-` or `/` (and then no quotes or
/// braces) reads up to that character, with the full name of `n` and the
/// attributes read from `a`.
proof fn lemma_attrs_opener(n: Seq<char>, a: Seq<char>, rest: Seq<char>)
    requires
        is_name_text(n),
        is_attrs_text(a),
        rest.len() > 0,
        rest[0] == '-' || rest[0] == '/',
        no_json_marks(rest),
    ensures
        block_opener(lit_opener_start() + n + seq![' '] + a + seq![' '] + rest, 0) == Some(
            ((10 + n.len() + a.len()) as int, full_name(n), crate::grammar::attrs_of_text(a)),
        ),
{
    let e = Seq::<char>::empty();
    lemma_attrs_opener_at(e, n, a, rest);
    assert(e + lit_opener_start() + n + seq![' '] + a + seq![' '] + rest =~= lit_opener_start() + n
        + seq![' '] + a + seq![' '] + rest);
}

/// `<!-- wp:n a /-->`
pub open spec fn void_text_with_attrs(n: Seq<char>, a: Seq<char>) -> Seq<char> {
    lit_opener_start() + n + seq![' '] + a + seq![' '] + crate::grammar::lit_void_close()
}

/// `<!-- wp:n a -->`
pub open spec fn opener_text_with_attrs(n: Seq<char>, a: Seq<char>) -> Seq<char> {
    lit_opener_start() + n + seq![' '] + a + seq![' '] + crate::grammar::lit_close()
}

/// `<!-- wp:n a /-->` and `<!-- wp:n a --><!-- /wp:n -->` are the same
/// document, for every block name `n` and every attribute text `a` (braces
/// around content that reads up to the closing brace): one block with the full
/// name of `n`, the attributes read from `a`, and no content.
#[verifier::spinoff_prover]
pub proof fn law_void_and_empty_balanced_blocks_with_attrs_parse_alike(n: Seq<char>, a: Seq<char>)
    requires
        is_name_text(n),
        is_attrs_text(a),
    ensures
        parse_document(void_text_with_attrs(n, a)) == seq![
            assemble(full_name(n), crate::grammar::attrs_of_text(a), seq![]),
        ],
        parse_document(opener_text_with_attrs(n, a) + closer_text(n)) == seq![
            assemble(full_name(n), crate::grammar::attrs_of_text(a), seq![]),
        ],
{
    let x = lit_opener_start() + n + seq![' '] + a + seq![' '];
    let vc = crate::grammar::lit_void_close();
    let cl = crate::grammar::lit_close();
    let close = closer_text(n);
    lemma_name_text_no_marks(n);
    assert forall|i: int| 0 <= i < vc.len() implies #[trigger] vc[i] != '"' && vc[i] != '{'
        && vc[i] != '}' by {}
    let tail = cl + close;
    assert forall|i: int| 0 <= i < tail.len() implies #[trigger] tail[i] != '"' && tail[i]
        != '{' && tail[i] != '}' by {
        if 12 <= i < 12 + n.len() {
            assert(tail[i] == n[i - 12]);
        }
    }
    lemma_attrs_opener(n, a, vc);
    lemma_attrs_opener(n, a, tail);
    let b = x + cl + close;
    assert(x + tail =~= b);
    assert(b.subrange(x.len() + 3int, b.len() as int) =~= close);
    lemma_plain_closer(b, x.len() + 3int, n);
    law_void_and_empty_balanced_documents_agree(x, close);
    assert(opener_text_with_attrs(n, a) + closer_text(n) =~= b);
}

// ----- Missing closers around well-formed content -----------------------------

/// A piece of block content as written: plain text, a void block
/// `<!-- wp:n /-->`, or a block `<!-- wp:n -->` ... `<!-- /wp:n -->` around
/// more content.
pub enum ContentItem {
    Text(Seq<char>),
    Void(Seq<char>),
    Closed(Seq<char>, Seq<ContentItem>),
}

/// The text of a content item.
pub open spec fn item_text(item: ContentItem) -> Seq<char>
    decreases item,
{
    match item {
        ContentItem::Text(t) => t,
        ContentItem::Void(n) => void_text(n),
        ContentItem::Closed(n, inner) => crate::grammar::opener_text(n) + items_text(inner)
            + closer_text(n),
    }
}

/// The text of a list of content items.
pub open spec fn items_text(items: Seq<ContentItem>) -> Seq<char>
    decreases items,
{
    if items.len() == 0 {
        seq![]
    } else {
        item_text(items[0]) + items_text(items.subrange(1, items.len() as int))
    }
}

/// The content piece that a content item reads as.
pub open spec fn item_piece(item: ContentItem) -> SpecPiece
    decreases item,
{
    match item {
        ContentItem::Text(t) => SpecPiece::Text(t),
        ContentItem::Void(n) => SpecPiece::Block(assemble(full_name(n), empty_object(), seq![])),
        ContentItem::Closed(n, inner) => SpecPiece::Block(
            assemble(full_name(n), empty_object(), items_pieces(inner)),
        ),
    }
}

/// The content pieces that a list of content items reads as.
pub open spec fn items_pieces(items: Seq<ContentItem>) -> Seq<SpecPiece>
    decreases items,
{
    if items.len() == 0 {
        seq![]
    } else {
        seq![item_piece(items[0])] + items_pieces(items.subrange(1, items.len() as int))
    }
}

/// No block opener (`<!--` ws? `wp:`) or closer (`<!--` ws? `/wp:`) starts
/// anywhere in `t`; other comments may stand in it.
pub open spec fn marker_free(t: Seq<char>) -> bool {
    forall|i: int|
        0 <= i < t.len() ==> !#[trigger] crate::grammar::is_block_start(t, i)
            && !crate::grammar::is_block_end(t, i)
}

/// Well-formed content: texts are non-empty, hold no block opener or closer
/// and never follow one another; blocks have names and well-formed content.
pub open spec fn items_wf(items: Seq<ContentItem>) -> bool
    decreases items,
{
    if items.len() == 0 {
        true
    } else {
        &&& match items[0] {
            ContentItem::Text(t) => t.len() > 0 && marker_free(t),
            ContentItem::Void(n) => is_name_text(n),
            ContentItem::Closed(n, inner) => is_name_text(n) && items_wf(inner),
        }
        &&& (items[0] is Text && items.len() > 1 ==> !(items[1] is Text))
        &&& items_wf(items.subrange(1, items.len() as int))
    }
}

/// Where `a + b` stands at `p`, `a` stands at `p` and `b` right after it.
proof fn lemma_split_at(s: Seq<char>, p: int, a: Seq<char>, b: Seq<char>)
    requires
        0 <= p,
        p + a.len() + b.len() <= s.len(),
        s.subrange(p, p + a.len() + b.len()) == a + b,
    ensures
        s.subrange(p, p + a.len()) == a,
        s.subrange(p + a.len(), p + a.len() + b.len()) == b,
{
    let w = s.subrange(p, p + a.len() + b.len());
    assert(s.subrange(p, p + a.len()) =~= w.subrange(0, a.len() as int));
    assert(w.subrange(0, a.len() as int) =~= a);
    assert(s.subrange(p + a.len(), p + a.len() + b.len()) =~= w.subrange(
        a.len() as int,
        (a.len() + b.len()) as int,
    ));
    assert(w.subrange(a.len() as int, (a.len() + b.len()) as int) =~= b);
}

/// Where `<!-- wp:` stands, a block opener starts.
proof fn lemma_opener_start_is_block_start(s: Seq<char>, q: int)
    requires
        0 <= q,
        q + 8 <= s.len(),
        s.subrange(q, q + 8) == lit_opener_start(),
    ensures
        crate::grammar::is_block_start(s, q),
{
    let w = s.subrange(q, q + 8);
    assert(s[q + 4] == w[4]);
    assert(s[q + 5] == w[5]);
    assert(w[4] == ' ');
    assert(w[5] == 'w');
    assert(crate::grammar::skip_ws(s, q + 5) == q + 5);
    assert(crate::grammar::skip_ws(s, q + 4) == q + 5);
    assert(s.subrange(q, q + 4) =~= w.subrange(0, 4));
    assert(w.subrange(0, 4) =~= crate::grammar::lit_open());
    assert(s.subrange(q + 5, q + 8) =~= w.subrange(5, 8));
    assert(w.subrange(5, 8) =~= crate::grammar::lit_wp());
}

/// `<!-- wp:n ` at `p`, followed by `-` or `/`, reads as an opener up to that
/// character, with the full name of `n` and empty attributes.
proof fn lemma_plain_opener_at(s: Seq<char>, p: int, n: Seq<char>)
    requires
        is_name_text(n),
        0 <= p,
        p + 9 + n.len() < s.len(),
        s.subrange(p, p + 9 + n.len()) == lit_opener_start() + n + seq![' '],
        s[p + 9 + n.len()] == '-' || s[p + 9 + n.len()] == '/',
    ensures
        block_opener(s, p) == Some((p + 9 + n.len(), full_name(n), empty_object())),
{
    let m = n.len() as int;
    let c = lit_opener_start() + n + seq![' '];
    let w = s.subrange(p, p + 9 + m);
    assert forall|i: int, j: int| 0 <= i <= j <= c.len() implies s.subrange(p + i, p + j)
        == #[trigger] c.subrange(i, j) by {
        assert(s.subrange(p + i, p + j) =~= w.subrange(i, j));
    }
    assert(c.subrange(0, 4) =~= crate::grammar::lit_open());
    assert(c.subrange(4, 5) =~= seq![' ']);
    assert(c.subrange(5, 8) =~= crate::grammar::lit_wp());
    assert(c.subrange(8, 8 + m) =~= n);
    assert(c.subrange(8 + m, 9 + m) =~= seq![' ']);
    assert(s[p + 4] == s.subrange(p + 4, p + 5)[0]);
    assert(s[p + 5] == s.subrange(p + 5, p + 8)[0]);
    assert(crate::grammar::skip_ws(s, p + 5) == p + 5);
    assert(crate::grammar::skip_ws(s, p + 4) == p + 5);
    assert(s[p + 8 + m] == s.subrange(p + 8 + m, p + 9 + m)[0]);
    lemma_block_name_text(s, p + 8, n);
    assert(crate::grammar::skip_ws(s, p + 9 + m) == p + 9 + m);
    assert(crate::grammar::skip_ws(s, p + 8 + m) == p + 9 + m);
}

/// Where content items follow a text item, a block opener starts there.
proof fn lemma_block_item_starts_opener(s: Seq<char>, q: int, rest: Seq<ContentItem>)
    requires
        rest.len() > 0,
        !(rest[0] is Text),
        0 <= q,
        q + items_text(rest).len() <= s.len(),
        s.subrange(q, q + items_text(rest).len()) == items_text(rest),
    ensures
        crate::grammar::is_block_start(s, q),
{
    let ft = item_text(rest[0]);
    let rt = items_text(rest.subrange(1, rest.len() as int));
    lemma_split_at(s, q, ft, rt);
    match rest[0] {
        ContentItem::Void(n) => {
            assert(ft =~= lit_opener_start() + (n + seq![' ', '/', '-', '-', '>']));
            lemma_split_at(s, q, lit_opener_start(), n + seq![' ', '/', '-', '-', '>']);
        },
        ContentItem::Closed(n, inner) => {
            let tail = n + seq![' ', '-', '-', '>'] + items_text(inner) + closer_text(n);
            assert(ft =~= lit_opener_start() + tail);
            lemma_split_at(s, q, lit_opener_start(), tail);
        },
        ContentItem::Text(_) => {},
    }
    lemma_opener_start_is_block_start(s, q);
}

/// Whitespace runs inside `t` standing at `p` in `s` end where they end in
/// `t` alone, when what follows `t` is no whitespace.
proof fn lemma_skip_ws_inside(s: Seq<char>, p: int, t: Seq<char>, j: int)
    requires
        0 <= p,
        p + t.len() <= s.len(),
        s.subrange(p, p + t.len()) == t,
        p + t.len() == s.len() || !crate::grammar::is_ws(s[p + t.len()]),
        0 <= j <= t.len(),
    ensures
        crate::grammar::skip_ws(s, p + j) == p + crate::grammar::skip_ws(t, j),
        j <= crate::grammar::skip_ws(t, j) <= t.len(),
    decreases t.len() - j,
{
    if j < t.len() {
        assert(s.subrange(p, p + t.len())[j] == s[p + j]);
        if crate::grammar::is_ws(t[j]) {
            lemma_skip_ws_inside(s, p, t, j + 1);
        }
    }
}

/// A literal read at `p + w` in `s`, where `t` stands at `p` followed by `<`
/// or by the end, lies inside `t` when none of its characters after the first
/// is `<`.
proof fn lemma_lit_inside(s: Seq<char>, p: int, t: Seq<char>, w: int, lit: Seq<char>)
    requires
        0 <= p,
        p + t.len() <= s.len(),
        s.subrange(p, p + t.len()) == t,
        p + t.len() == s.len() || s[p + t.len()] == '<',
        0 <= w <= t.len(),
        lit.len() > 0,
        forall|k: int| 1 <= k < lit.len() ==> #[trigger] lit[k] != '<',
        lit[0] != '<' || w < t.len(),
        crate::grammar::has_lit(s, p + w, lit),
    ensures
        crate::grammar::has_lit(t, w, lit),
{
    let e = p + t.len();
    if w + lit.len() > t.len() {
        let k = e - p - w;
        assert(s.subrange(p + w, p + w + lit.len())[k] == s[e]);
        assert(lit[k] == '<');
    }
    assert forall|k: int| 0 <= k < lit.len() implies t.subrange(w, w + lit.len())[k]
        == #[trigger] lit[k] by {
        assert(s.subrange(p + w, p + w + lit.len())[k] == s[p + w + k]);
        assert(s.subrange(p, p + t.len())[w + k] == s[p + w + k]);
    }
    assert(t.subrange(w, w + lit.len()) =~= lit);
}

/// Text `t` standing at `p` and followed by `<` or by the end holds at `p + i`
/// a block opener or closer only where `t` alone holds one at `i`.
proof fn lemma_no_marker_inside(s: Seq<char>, p: int, t: Seq<char>, i: int)
    requires
        0 <= p,
        p + t.len() <= s.len(),
        s.subrange(p, p + t.len()) == t,
        p + t.len() == s.len() || s[p + t.len()] == '<',
        0 <= i < t.len(),
    ensures
        crate::grammar::is_block_start(s, p + i) ==> crate::grammar::is_block_start(t, i),
        crate::grammar::is_block_end(s, p + i) ==> crate::grammar::is_block_end(t, i),
{
    let open = crate::grammar::lit_open();
    if crate::grammar::has_lit(s, p + i, open) {
        lemma_lit_inside(s, p, t, i, open);
        if p + t.len() < s.len() {
            assert(!crate::grammar::is_ws('<'));
        }
        lemma_skip_ws_inside(s, p, t, i + 4);
        let w = crate::grammar::skip_ws(t, i + 4);
        if crate::grammar::has_lit(s, p + w, crate::grammar::lit_wp()) {
            lemma_lit_inside(s, p, t, w, crate::grammar::lit_wp());
        }
        if crate::grammar::has_lit(s, p + w, crate::grammar::lit_end_wp()) {
            lemma_lit_inside(s, p, t, w, crate::grammar::lit_end_wp());
        }
    }
}

/// Marker-free text `t` standing at `p` and followed by `<` or by the end
/// holds no block opener or closer anywhere in `s`.
proof fn lemma_marker_free_inside(s: Seq<char>, p: int, t: Seq<char>)
    requires
        0 <= p,
        p + t.len() <= s.len(),
        s.subrange(p, p + t.len()) == t,
        p + t.len() == s.len() || s[p + t.len()] == '<',
        marker_free(t),
    ensures
        forall|j: int|
            p <= j < p + t.len() ==> !#[trigger] crate::grammar::is_block_start(s, j)
                && !crate::grammar::is_block_end(s, j),
{
    assert forall|j: int| p <= j < p + t.len() implies (!crate::grammar::is_block_start(s, j)
        && !crate::grammar::is_block_end(s, j)) by {
        let i = j - p;
        assert(!crate::grammar::is_block_start(t, i));
        lemma_no_marker_inside(s, p, t, i);
        assert(p + i == j);
    }
}

/// Where a block opener or closer starts, the text holds `<`.
proof fn lemma_marker_is_lt(s: Seq<char>, q: int)
    requires
        crate::grammar::is_block_start(s, q) || crate::grammar::is_block_end(s, q),
    ensures
        0 <= q < s.len(),
        s[q] == '<',
{
    assert(s.subrange(q, q + 4)[0] == s[q]);
}

/// Text with no block opener or closer runs to the end of the text or to the
/// next opener or closer.
proof fn lemma_inner_text_run(s: Seq<char>, p: int, e: int)
    requires
        0 <= p <= e <= s.len(),
        forall|i: int|
            p <= i < e ==> !#[trigger] crate::grammar::is_block_start(s, i)
                && !crate::grammar::is_block_end(s, i),
        e == s.len() || crate::grammar::is_block_end(s, e) || crate::grammar::is_block_start(s, e),
    ensures
        crate::grammar::inner_text_end(s, p) == e,
    decreases e - p,
{
    if p < e {
        assert(!crate::grammar::is_block_start(s, p));
        lemma_inner_text_run(s, p + 1, e);
    }
}

/// A text item reads as one text piece.
proof fn lemma_text_item_reads(s: Seq<char>, p: int, t: Seq<char>)
    requires
        0 <= p,
        t.len() > 0,
        marker_free(t),
        p + t.len() <= s.len(),
        s.subrange(p, p + t.len()) == t,
        p + t.len() == s.len() || crate::grammar::is_block_end(s, p + t.len())
            || crate::grammar::is_block_start(s, p + t.len()),
    ensures
        content_piece(s, p) == Some((p + t.len(), SpecPiece::Text(t))),
{
    let q = p + t.len();
    if q < s.len() {
        lemma_marker_is_lt(s, q);
    }
    lemma_marker_free_inside(s, p, t);
    lemma_inner_text_run(s, p, q);
    assert(!crate::grammar::is_block_start(s, p));
}

/// A void item reads as its void block.
proof fn lemma_void_item_reads(s: Seq<char>, p: int, n: Seq<char>)
    requires
        is_name_text(n),
        0 <= p,
        p + void_text(n).len() <= s.len(),
        s.subrange(p, p + void_text(n).len()) == void_text(n),
    ensures
        content_piece(s, p) == Some(
            (
                p + void_text(n).len(),
                SpecPiece::Block(assemble(full_name(n), empty_object(), seq![])),
            ),
        ),
        block_balanced(s, p) is None,
        block_void(s, p) == Some(
            (p + void_text(n).len(), assemble(full_name(n), empty_object(), seq![])),
        ),
        crate::grammar::is_block_start(s, p),
{
    let m = n.len() as int;
    assert(void_text(n) =~= lit_opener_start() + n + seq![' '] + seq!['/', '-', '-', '>']);
    lemma_split_at(s, p, lit_opener_start() + n + seq![' '], seq!['/', '-', '-', '>']);
    assert(s[p + 9 + m] == s.subrange(p + 9 + m, p + 13 + m)[0]);
    lemma_plain_opener_at(s, p, n);
    lemma_close_not_void_close(s, p + 9 + m);
    assert(s.subrange(p + 9 + m, p + 13 + m) =~= crate::grammar::lit_void_close());
    assert(block_balanced(s, p) is None);
}

/// The block that a void or closed content item reads as.
pub open spec fn item_block(item: ContentItem) -> SpecBlock {
    match item_piece(item) {
        SpecPiece::Block(b) => b,
        SpecPiece::Text(t) => freeform(t),
    }
}

/// A well-formed single item.
proof fn lemma_single_item_wf(items: Seq<ContentItem>)
    requires
        items_wf(items),
        items.len() > 0,
    ensures
        items_wf(seq![items[0]]),
{
    let one = seq![items[0]];
    assert(one[0] == items[0]);
    assert(one.subrange(1, 1) =~= Seq::<ContentItem>::empty());
    assert(items_wf(Seq::<ContentItem>::empty()));
}

/// A void or closed item reads as its block, both as a piece of content and
/// as a block at the top level, whatever follows it.
#[verifier::spinoff_prover]
proof fn lemma_block_item_reads(s: Seq<char>, p: int, item: ContentItem)
    requires
        !(item is Text),
        items_wf(seq![item]),
        0 <= p,
        p + item_text(item).len() <= s.len(),
        s.subrange(p, p + item_text(item).len()) == item_text(item),
    ensures
        content_piece(s, p) == Some((p + item_text(item).len(), item_piece(item))),
        found_block(s, p) == Some((p + item_text(item).len(), item_block(item))),
        item_piece(item) == SpecPiece::Block(item_block(item)),
        item_block(item).name is Some,
        crate::grammar::is_block_start(s, p),
        item_text(item).len() > 0,
    decreases item, 2int,
{
    assert(seq![item][0] == item);
    match item {
        ContentItem::Void(n) => {
            lemma_void_item_reads(s, p, n);
        },
        ContentItem::Closed(n, inner) => {
            let m = n.len() as int;
            let it = items_text(inner);
            let open = crate::grammar::opener_text(n);
            lemma_split_at(s, p, open + it, closer_text(n));
            lemma_split_at(s, p, open, it);
            assert(open =~= lit_opener_start() + n + seq![' '] + seq!['-', '-', '>']);
            lemma_split_at(s, p, lit_opener_start() + n + seq![' '], seq!['-', '-', '>']);
            assert(s[p + 9 + m] == s.subrange(p + 9 + m, p + 12 + m)[0]);
            lemma_plain_opener_at(s, p, n);
            assert(s.subrange(p + 9 + m, p + 12 + m) =~= crate::grammar::lit_close());
            let r = p + 12 + m + it.len();
            lemma_plain_closer(s, r, n);
            lemma_items_read(s, p + 12 + m, inner);
            lemma_named_not_any_unnamed(items_pieces(inner));
            assert(block_start(s, p) == Some((p + 12 + m, full_name(n), empty_object())));
        },
        ContentItem::Text(_) => {},
    }
}

/// The first of a list of well-formed content items reads as its piece, a text
/// or a named block.
#[verifier::spinoff_prover]
proof fn lemma_first_item_reads(s: Seq<char>, p: int, items: Seq<ContentItem>)
    requires
        items_wf(items),
        items.len() > 0,
        0 <= p,
        p + items_text(items).len() <= s.len(),
        s.subrange(p, p + items_text(items).len()) == items_text(items),
        p + items_text(items).len() == s.len() || crate::grammar::block_end(
            s,
            p + items_text(items).len(),
        ) is Some,
    ensures
        content_piece(s, p) == Some((p + item_text(items[0]).len(), item_piece(items[0]))),
        item_text(items[0]).len() > 0,
        item_piece(items[0]) matches SpecPiece::Block(b) ==> b.name is Some,
    decreases items, 0int,
{
    let rest = items.subrange(1, items.len() as int);
    let ft = item_text(items[0]);
    let rt = items_text(rest);
    let q = p + ft.len();
    lemma_split_at(s, p, ft, rt);
    match items[0] {
        ContentItem::Text(t) => {
            if rest.len() > 0 {
                lemma_block_item_starts_opener(s, q, rest);
            } else if q < s.len() {
                lemma_closer_is_no_piece(s, q);
            }
            lemma_text_item_reads(s, p, t);
        },
        _ => {
            lemma_single_item_wf(items);
            lemma_block_item_reads(s, p, items[0]);
        },
    }
}

/// Well-formed content standing at `p` and followed by the end of the text or
/// a closer reads as its pieces, which are named blocks and texts.
#[verifier::spinoff_prover]
proof fn lemma_items_read(s: Seq<char>, p: int, items: Seq<ContentItem>)
    requires
        items_wf(items),
        0 <= p,
        p + items_text(items).len() <= s.len(),
        s.subrange(p, p + items_text(items).len()) == items_text(items),
        p + items_text(items).len() == s.len() || crate::grammar::block_end(
            s,
            p + items_text(items).len(),
        ) is Some,
    ensures
        content_pieces(s, p) == (p + items_text(items).len(), items_pieces(items)),
        pieces_named(items_pieces(items)),
    decreases items, 1int,
{
    let e = p + items_text(items).len();
    if items.len() == 0 {
        if e == s.len() {
            lemma_nothing_at_end(s);
        } else {
            lemma_closer_is_no_piece(s, e);
        }
    } else {
        let rest = items.subrange(1, items.len() as int);
        let ft = item_text(items[0]);
        let rt = items_text(rest);
        let q = p + ft.len();
        lemma_split_at(s, p, ft, rt);
        lemma_first_item_reads(s, p, items);
        lemma_items_read(s, q, rest);
        let all = seq![item_piece(items[0])] + items_pieces(rest);
        assert(items_pieces(items) == all);
        assert forall|i: int| 0 <= i < all.len() implies match #[trigger] all[i] {
            SpecPiece::Block(b) => b.name is Some,
            SpecPiece::Text(_) => true,
        } by {
            if i > 0 {
                assert(all[i] == items_pieces(rest)[i - 1]);
            }
        }
    }
}

/// A block missing its closer gives the same document as with its closer, for
/// every block name `n` and well-formed content `c` (texts without `<`, void
/// blocks and closed blocks, at any depth) that does not end in whitespace:
/// `<!-- wp:n -->c` and `<!-- wp:n -->c<!-- /wp:n -->` are one block with the
/// full name of `n`, empty attributes and the pieces of `c` as its content.
#[verifier::spinoff_prover]
pub proof fn law_missing_closer_for_content(n: Seq<char>, items: Seq<ContentItem>)
    requires
        is_name_text(n),
        items_wf(items),
        !white_space_char((crate::grammar::opener_text(n) + items_text(items)).last()),
    ensures
        parse_document(crate::grammar::opener_text(n) + items_text(items)) == seq![
            assemble(full_name(n), empty_object(), items_pieces(items)),
        ],
        parse_document(crate::grammar::opener_text(n) + items_text(items) + closer_text(n))
            == seq![assemble(full_name(n), empty_object(), items_pieces(items))],
{
    let open = crate::grammar::opener_text(n);
    let c = items_text(items);
    let close = closer_text(n);
    let s1 = open + c;
    let s2 = open + c + close;
    let o = open.len() as int;
    let r = o + c.len();
    lemma_plain_start(n, c, seq![]);
    assert(s1 + Seq::<char>::empty() =~= s1);
    lemma_plain_start(n, c, close);
    assert(s2.subrange(r, r + close.len()) =~= close);
    lemma_plain_closer(s2, r, n);
    assert(s1.subrange(o, r) =~= c);
    assert(s2.subrange(o, r) =~= c);
    lemma_items_read(s1, o, items);
    lemma_items_read(s2, o, items);
    law_missing_closer_documents_agree(open, c, close);
    lemma_named_not_any_unnamed(items_pieces(items));
}

// ----- Blocks and texts inside blocks read as at the top level ----------------

/// The block read at `p` by the top-level rules: a balanced block, or else a
/// void block.
pub open spec fn found_block(s: Seq<char>, p: int) -> Option<(int, SpecBlock)> {
    match block_balanced(s, p) {
        Some(x) => Some(x),
        None => block_void(s, p),
    }
}

/// A named balanced block carries the name and the attributes of its opener,
/// whatever content follows the opener.
pub proof fn law_balanced_block_keeps_opener(s: Seq<char>, p: int)
    ensures
        block_balanced(s, p) matches Some((e, b)) ==> (b.name is Some ==> (block_start(s, p) matches Some(
            (q, name, attrs),
        ) && b.name == Some(name) && b.attrs == attrs)),
{
}

/// A void block carries the name and the attributes of its opener and has no
/// content.
pub proof fn law_void_block_keeps_opener(s: Seq<char>, p: int)
    ensures
        block_void(s, p) matches Some((e, b)) ==> (block_opener(s, p) matches Some((q, name, attrs))
            && b.name == Some(name) && b.attrs == attrs && b.inner_blocks.len() == 0
            && b.inner_html.len() == 0 && b.inner_content.len() == 0),
{
}

/// A block inside another block reads exactly as the same block standing at
/// the top level: as a balanced block, or else as a void block.
pub proof fn law_inner_blocks_read_as_top_level(s: Seq<char>, p: int)
    ensures
        content_piece(s, p) matches Some((q, SpecPiece::Block(b))) ==> (block_balanced(s, p) == Some(
            (q, b),
        ) || block_void(s, p) == Some((q, b))),
{
}

proof fn lemma_inner_text_end_facts(s: Seq<char>, p: int)
    requires
        0 <= p <= s.len(),
    ensures
        p <= crate::grammar::inner_text_end(s, p) <= s.len(),
        forall|i: int|
            p <= i < crate::grammar::inner_text_end(s, p) ==> !#[trigger] crate::grammar::is_block_start(
                s,
                i,
            ) && !crate::grammar::is_block_end(s, i),
        crate::grammar::inner_text_end(s, p) == s.len() || crate::grammar::is_block_start(
            s,
            crate::grammar::inner_text_end(s, p),
        ) || crate::grammar::is_block_end(s, crate::grammar::inner_text_end(s, p)),
    decreases s.len() - p,
{
    if p < s.len() && !crate::grammar::is_block_end(s, p) && !crate::grammar::is_block_start(s, p) {
        lemma_inner_text_end_facts(s, p + 1);
    }
}

/// A text inside a block runs up to the next block opener or closer, or to the
/// end of the text: none starts inside it, and one starts where it stops.
pub proof fn law_text_piece_runs_to_marker(s: Seq<char>, p: int)
    ensures
        content_piece(s, p) matches Some((q, SpecPiece::Text(t))) ==> (p < q && t == s.subrange(p, q)
            && (forall|i: int|
            p <= i < q ==> !#[trigger] crate::grammar::is_block_start(s, i)
                && !crate::grammar::is_block_end(s, i)) && (q == s.len()
            || crate::grammar::is_block_start(s, q) || crate::grammar::is_block_end(s, q))),
{
    if 0 <= p <= s.len() {
        lemma_inner_text_end_facts(s, p);
    }
}

// ----- Attributes of blocks with content --------------------------------------

/// No quotes or braces in a closer.
proof fn lemma_closer_no_marks(n: Seq<char>)
    requires
        is_name_text(n),
    ensures
        no_json_marks(closer_text(n)),
{
    lemma_name_text_no_marks(n);
    let c = closer_text(n);
    assert forall|i: int| 0 <= i < c.len() implies #[trigger] c[i] != '"' && c[i] != '{' && c[i]
        != '}' by {
        if 9 <= i < 9 + n.len() {
            assert(c[i] == n[i - 9]);
        }
    }
}

/// Two texts with no quotes or braces make one.
proof fn lemma_no_marks_concat(x: Seq<char>, y: Seq<char>)
    requires
        no_json_marks(x),
        no_json_marks(y),
    ensures
        no_json_marks(x + y),
{
    assert forall|i: int| 0 <= i < (x + y).len() implies #[trigger] (x + y)[i] != '"' && (x
        + y)[i] != '{' && (x + y)[i] != '}' by {
        if i >= x.len() {
            assert((x + y)[i] == y[i - x.len()]);
        } else {
            assert((x + y)[i] == x[i]);
        }
    }
}

/// A document made of an opener that reads up to `o`, well-formed content and
/// a closer is that one block, with the opener's name and attributes and the
/// pieces of the content.
#[verifier::spinoff_prover]
proof fn lemma_closed_document(
    s: Seq<char>,
    o: int,
    n: Seq<char>,
    name: Seq<char>,
    attrs: serde_json::Value,
    items: Seq<ContentItem>,
)
    requires
        is_name_text(n),
        items_wf(items),
        block_start(s, 0) == Some((o, name, attrs)),
        0 < o,
        s.len() == o + items_text(items).len() + closer_text(n).len(),
        s.subrange(o, o + items_text(items).len()) == items_text(items),
        s.subrange(o + items_text(items).len(), s.len() as int) == closer_text(n),
    ensures
        parse_document(s) == seq![assemble(name, attrs, items_pieces(items))],
{
    let r = o + items_text(items).len();
    let len = s.len() as int;
    let close = closer_text(n);
    lemma_plain_closer(s, r, n);
    lemma_items_read(s, o, items);
    lemma_named_not_any_unnamed(items_pieces(items));
    let blk = assemble(name, attrs, items_pieces(items));
    assert(block_balanced(s, 0) == Some((len, blk)));
    lemma_nothing_at_end(s);
    assert(crate::grammar::freeform_end(s, len) == len);
    assert(block_with_trailing(s, 0) == Some((len, blk, Seq::<char>::empty())));
    assert(s[0] == s.subrange(0, 4)[0]);
    assert(s.last() == s.subrange(r, len)[close.len() - 1]);
    lemma_single_block_document(s, blk);
}

/// `c` + `d` stands at `p` in `x + c + d`, and `d` right after `c`.
proof fn lemma_parts(x: Seq<char>, c: Seq<char>, d: Seq<char>)
    ensures
        (x + c + d).subrange(x.len() as int, (x.len() + c.len()) as int) == c,
        (x + c + d).subrange((x.len() + c.len()) as int, (x + c + d).len() as int) == d,
{
    assert((x + c + d).subrange(x.len() as int, (x.len() + c.len()) as int) =~= c);
    assert((x + c + d).subrange((x.len() + c.len()) as int, (x + c + d).len() as int) =~= d);
}

/// A balanced block keeps the attributes of its opener whatever content it
/// holds: for every block name `n`, attribute text `a` and well-formed content
/// `c` with no quotes or braces, `<!-- wp:n a -->c<!-- /wp:n -->` is one block
/// with the full name of `n`, the attributes read from `a` (the JSON value
/// that `a` reads as, or null where it is not JSON) and the pieces of `c` as
/// its content.
#[verifier::spinoff_prover]
#[verifier::rlimit(40)]
pub proof fn law_balanced_block_with_attrs(n: Seq<char>, a: Seq<char>, items: Seq<ContentItem>)
    requires
        is_name_text(n),
        is_attrs_text(a),
        items_wf(items),
        no_json_marks(items_text(items)),
    ensures
        parse_document(opener_text_with_attrs(n, a) + items_text(items) + closer_text(n)) == seq![
            assemble(full_name(n), crate::grammar::attrs_of_text(a), items_pieces(items)),
        ],
        parse_document(opener_text_with_attrs(n, a) + items_text(items) + closer_text(n))[0].name
            == Some(full_name(n)),
        parse_document(opener_text_with_attrs(n, a) + items_text(items) + closer_text(n))[0].attrs
            == (match json_from_text(a) {
            Some(v) => v,
            None => null_value(),
        }),
{
    let open = opener_text_with_attrs(n, a);
    let c = items_text(items);
    let close = closer_text(n);
    let s = open + c + close;
    let cl = crate::grammar::lit_close();
    let rest = cl + c + close;
    assert(no_json_marks(cl));
    lemma_closer_no_marks(n);
    lemma_no_marks_concat(cl, c);
    lemma_no_marks_concat(cl + c, close);
    lemma_attrs_opener(n, a, rest);
    assert(s =~= lit_opener_start() + n + seq![' '] + a + seq![' '] + rest);
    let q = (10 + n.len() + a.len()) as int;
    assert(s.subrange(q, q + 3) =~= cl);
    assert(block_start(s, 0) == Some(
        (q + 3, full_name(n), crate::grammar::attrs_of_text(a)),
    ));
    lemma_parts(open, c, close);
    lemma_closed_document(s, q + 3, n, full_name(n), crate::grammar::attrs_of_text(a), items);
}

/// A text inside a block runs past HTML comments that are no block comments:
/// for every block name `n` and non-empty text `t` in which no block opener or
/// closer starts, `<!-- wp:n -->t<!-- /wp:n -->` is one block with the full
/// name of `n` whose inner HTML is `t` and whose content is `t` alone.
#[verifier::spinoff_prover]
pub proof fn law_text_content_reads_whole(n: Seq<char>, t: Seq<char>)
    requires
        is_name_text(n),
        t.len() > 0,
        marker_free(t),
    ensures
        parse_document(crate::grammar::opener_text(n) + t + closer_text(n)) == seq![
            assemble(full_name(n), empty_object(), seq![SpecPiece::Text(t)]),
        ],
        parse_document(crate::grammar::opener_text(n) + t + closer_text(n))[0].inner_html == t,
        parse_document(crate::grammar::opener_text(n) + t + closer_text(n))[0].inner_content
            == seq![Some(t)],
        parse_document(crate::grammar::opener_text(n) + t + closer_text(n))[0].inner_blocks.len()
            == 0,
{
    let open = crate::grammar::opener_text(n);
    let close = closer_text(n);
    let items = seq![ContentItem::Text(t)];
    let s = open + t + close;
    let none = Seq::<ContentItem>::empty();
    assert(items[0] == ContentItem::Text(t));
    assert(items.subrange(1, 1) =~= none);
    assert(items_text(none) =~= Seq::<char>::empty());
    assert(items_pieces(none) =~= Seq::<SpecPiece>::empty());
    assert(items_wf(none));
    assert(item_text(items[0]) == t);
    assert(items_text(items) == item_text(items[0]) + items_text(items.subrange(1, 1)));
    assert(items_text(items) =~= t);
    assert(items_pieces(items) == seq![item_piece(items[0])] + items_pieces(items.subrange(1, 1)));
    assert(items_pieces(items) =~= seq![SpecPiece::Text(t)]);
    assert(items_wf(items));
    lemma_plain_start(n, t, close);
    lemma_parts(open, t, close);
    lemma_closed_document(s, open.len() as int, n, full_name(n), empty_object(), items);
    let pieces = seq![SpecPiece::Text(t)];
    assert(pieces.drop_last() =~= Seq::<SpecPiece>::empty());
    assert(pieces_html(pieces) =~= t);
    assert(pieces_blocks(pieces) =~= Seq::<SpecBlock>::empty());
    assert(pieces.map_values(|piece: SpecPiece| piece_content(piece)) =~= seq![Some(t)]);
}

/// In `<!-- wp:m -->` + `<!-- wp:n a /-->` + `<!-- /wp:m -->`, the inner
/// opener reads with its attributes and is closed by `/-->`.
#[verifier::spinoff_prover]
proof fn lemma_inner_void_piece(m: Seq<char>, n: Seq<char>, a: Seq<char>)
    requires
        is_name_text(m),
        is_name_text(n),
        is_attrs_text(a),
    ensures
        ({
            let open = crate::grammar::opener_text(m);
            let v = void_text_with_attrs(n, a);
            let s = open + v + closer_text(m);
            let o = open.len() as int;
            let r = o + v.len();
            &&& block_opener(s, o) == Some(
                (o + 10 + n.len() + a.len(), full_name(n), crate::grammar::attrs_of_text(a)),
            )
            &&& crate::grammar::has_lit(s, o + 10 + n.len() + a.len(), crate::grammar::lit_void_close())
            &&& block_start(s, o) is None
            &&& o + 14 + n.len() + a.len() == r
        }),
{
    let open = crate::grammar::opener_text(m);
    let v = void_text_with_attrs(n, a);
    let close = closer_text(m);
    let s = open + v + close;
    let o = open.len() as int;
    let r = o + v.len();
    let vc = crate::grammar::lit_void_close();
    assert(no_json_marks(vc));
    lemma_closer_no_marks(m);
    lemma_no_marks_concat(vc, close);
    lemma_attrs_opener_at(open, n, a, vc + close);
    assert(s =~= open + lit_opener_start() + n + seq![' '] + a + seq![' '] + (vc + close));
    let q = o + 10 + n.len() + a.len();
    assert(s.subrange(q, q + 4) =~= vc);
    lemma_close_not_void_close(s, q);
    assert(block_start(s, o) is None);
}

/// The same document: the closer stands right after the void block.
proof fn lemma_inner_void_closer(m: Seq<char>, n: Seq<char>, a: Seq<char>)
    requires
        is_name_text(m),
    ensures
        ({
            let open = crate::grammar::opener_text(m);
            let v = void_text_with_attrs(n, a);
            let s = open + v + closer_text(m);
            let r = (open.len() + v.len()) as int;
            &&& crate::grammar::block_end(s, r) == Some(s.len() as int)
            &&& content_piece(s, r) is None
            &&& block_start(s, 0) == Some((open.len() as int, full_name(m), empty_object()))
        }),
{
    let open = crate::grammar::opener_text(m);
    let v = void_text_with_attrs(n, a);
    let close = closer_text(m);
    let s = open + v + close;
    let r = (open.len() + v.len()) as int;
    lemma_plain_start(m, v, close);
    lemma_parts(open, v, close);
    lemma_plain_closer(s, r, m);
    lemma_closer_is_no_piece(s, r);
}

/// A void block inside another block keeps its attributes: for every pair of
/// block names `m`, `n` and attribute text `a`, the document
/// `<!-- wp:m --><!-- wp:n a /--><!-- /wp:m -->` is one block with the full
/// name of `m` whose one inner block has the full name of `n` and the
/// attributes read from `a`.
#[verifier::spinoff_prover]
#[verifier::rlimit(40)]
pub proof fn law_inner_void_block_with_attrs(m: Seq<char>, n: Seq<char>, a: Seq<char>)
    requires
        is_name_text(m),
        is_name_text(n),
        is_attrs_text(a),
    ensures
        parse_document(crate::grammar::opener_text(m) + void_text_with_attrs(n, a) + closer_text(m))
            == seq![
            assemble(
                full_name(m),
                empty_object(),
                seq![SpecPiece::Block(assemble(full_name(n), crate::grammar::attrs_of_text(a), seq![]))],
            ),
        ],
        parse_document(crate::grammar::opener_text(m) + void_text_with_attrs(n, a) + closer_text(m))[0].inner_blocks
            == seq![assemble(full_name(n), crate::grammar::attrs_of_text(a), seq![])],
        parse_document(crate::grammar::opener_text(m) + void_text_with_attrs(n, a) + closer_text(m))[0].inner_blocks[0].attrs
            == (match json_from_text(a) {
            Some(v) => v,
            None => null_value(),
        }),
{
    let open = crate::grammar::opener_text(m);
    let v = void_text_with_attrs(n, a);
    let close = closer_text(m);
    let s = open + v + close;
    let o = open.len() as int;
    let r = o + v.len();
    let len = s.len() as int;
    let inner = assemble(full_name(n), crate::grammar::attrs_of_text(a), seq![]);
    lemma_inner_void_piece(m, n, a);
    lemma_inner_void_closer(m, n, a);
    assert(block_balanced(s, o) is None);
    assert(block_void(s, o) == Some((r, inner)));
    assert(content_piece(s, o) == Some((r, SpecPiece::Block(inner))));
    assert(content_pieces(s, r) == (r, Seq::<SpecPiece>::empty()));
    let pieces = seq![SpecPiece::Block(inner)];
    assert(pieces =~= seq![SpecPiece::Block(inner)] + Seq::<SpecPiece>::empty());
    assert(content_pieces(s, o) == (r, pieces));
    assert(pieces.drop_last() =~= Seq::<SpecPiece>::empty());
    assert(!any_unnamed(pieces));
    let blk = assemble(full_name(m), empty_object(), pieces);
    assert(block_balanced(s, 0) == Some((len, blk)));
    lemma_nothing_at_end(s);
    assert(crate::grammar::freeform_end(s, len) == len);
    assert(block_with_trailing(s, 0) == Some((len, blk, Seq::<char>::empty())));
    assert(s[0] == s.subrange(0, 4)[0]);
    lemma_parts(open, v, close);
    assert(s.last() == s.subrange(r, len)[close.len() - 1]);
    lemma_single_block_document(s, blk);
    assert(pieces_blocks(pieces) =~= seq![inner]);
}

// ----- Top-level items --------------------------------------------------------

/// No block opener starts anywhere in `t`.
pub open spec fn opener_free(t: Seq<char>) -> bool {
    forall|i: int| 0 <= i < t.len() ==> !#[trigger] crate::grammar::is_block_start(t, i)
}

/// Opener-free text `t` standing at `p` and followed by `<` or by the end holds
/// no block opener anywhere in `s`.
proof fn lemma_opener_free_inside(s: Seq<char>, p: int, t: Seq<char>)
    requires
        0 <= p,
        p + t.len() <= s.len(),
        s.subrange(p, p + t.len()) == t,
        p + t.len() == s.len() || s[p + t.len()] == '<',
        opener_free(t),
    ensures
        forall|j: int| p <= j < p + t.len() ==> !#[trigger] crate::grammar::is_block_start(s, j),
{
    assert forall|j: int| p <= j < p + t.len() implies !crate::grammar::is_block_start(s, j) by {
        let i = j - p;
        assert(!crate::grammar::is_block_start(t, i));
        lemma_no_marker_inside(s, p, t, i);
        assert(p + i == j);
    }
}

/// Text with no block opener runs to the end of the text or to the next
/// opener.
proof fn lemma_freeform_run(s: Seq<char>, p: int, e: int)
    requires
        0 <= p <= e <= s.len(),
        forall|i: int| p <= i < e ==> !#[trigger] crate::grammar::is_block_start(s, i),
        e == s.len() || crate::grammar::is_block_start(s, e),
    ensures
        crate::grammar::freeform_end(s, p) == e,
    decreases e - p,
{
    if p < e {
        assert(!crate::grammar::is_block_start(s, p));
        lemma_freeform_run(s, p + 1, e);
    }
}

/// The text of a void or closed item ends in `>`.
proof fn lemma_item_text_last(item: ContentItem)
    requires
        !(item is Text),
    ensures
        item_text(item).len() > 0,
        item_text(item).last() == '>',
{
    match item {
        ContentItem::Void(n) => {},
        ContentItem::Closed(n, inner) => {
            let c = closer_text(n);
            let x = crate::grammar::opener_text(n) + items_text(inner);
            assert((x + c).last() == c.last());
        },
        ContentItem::Text(_) => {},
    }
}

/// Two items read one after the other at the top level give their blocks, each
/// followed by its trailing text, and a document that starts and ends with a
/// block and reads to its end is what its items give.
#[verifier::spinoff_prover]
proof fn lemma_two_item_document(
    s: Seq<char>,
    q: int,
    b1: SpecBlock,
    t1: Seq<char>,
    b2: SpecBlock,
)
    requires
        s.len() > 0,
        !is_unicode_ws(s[0]),
        !is_unicode_ws(s.last()),
        crate::grammar::is_block_start(s, 0),
        0 < q < s.len(),
        block_with_trailing(s, 0) == Some((q, b1, t1)),
        block_with_trailing(s, q) == Some((s.len() as int, b2, Seq::<char>::empty())),
    ensures
        parse_document(s) == seq![b1] + freeform_if_any(t1) + seq![b2],
{
    let len = s.len() as int;
    lemma_trim_noop(s);
    lemma_nothing_at_end(s);
    assert(crate::grammar::freeform_end(s, 0) == 0);
    assert(opt_freeform(s, 0) == (0int, Seq::<char>::empty()));
    let e = Seq::<(SpecBlock, Seq<char>)>::empty();
    assert(items(s, len) == (len, e));
    let last = seq![(b2, Seq::<char>::empty())];
    assert(last =~= seq![(b2, Seq::<char>::empty())] + e);
    assert(items(s, q) == (len, last));
    let its = seq![(b1, t1), (b2, Seq::<char>::empty())];
    assert(its =~= seq![(b1, t1)] + last);
    assert(items(s, 0) == (len, its));
    let first = seq![(b1, t1)];
    assert(its.drop_last() =~= first);
    assert(first.drop_last() =~= e);
    assert(items_blocks(e) == Seq::<SpecBlock>::empty());
    assert(items_blocks(first) == items_blocks(e) + seq![b1] + freeform_if_any(t1));
    assert(its.last() == (b2, Seq::<char>::empty()));
    assert(freeform_if_any(Seq::<char>::empty()) == Seq::<SpecBlock>::empty());
    assert(items_blocks(its) == items_blocks(first) + seq![b2] + freeform_if_any(
        Seq::<char>::empty(),
    ));
    assert(items_blocks(its) =~= seq![b1] + freeform_if_any(t1) + seq![b2]);
    assert(block_list_inner(s).1 =~= seq![b1] + freeform_if_any(t1) + seq![b2]);
}

/// Text between two blocks at the top level is a free-form block of its own,
/// whatever the blocks hold: for every two void or closed blocks `b1` and `b2`
/// written plainly around well-formed content, and every non-empty text `t` in
/// which no block opener starts, the document `b1 t b2` is the block of `b1`,
/// a free-form block holding `t`, and the block of `b2`.
#[verifier::spinoff_prover]
#[verifier::rlimit(40)]
pub proof fn law_text_between_blocks(b1: ContentItem, t: Seq<char>, b2: ContentItem)
    requires
        !(b1 is Text),
        !(b2 is Text),
        items_wf(seq![b1]),
        items_wf(seq![b2]),
        t.len() > 0,
        opener_free(t),
    ensures
        parse_document(item_text(b1) + t + item_text(b2)) == seq![
            item_block(b1),
            freeform(t),
            item_block(b2),
        ],
        parse_document(item_text(b1) + t + item_text(b2))[1].name is None,
        parse_document(item_text(b1) + t + item_text(b2))[1].attrs == empty_object(),
        parse_document(item_text(b1) + t + item_text(b2))[1].inner_html == t,
        parse_document(item_text(b1) + t + item_text(b2))[1].inner_content == seq![Some(t)],
        parse_document(item_text(b1) + t + item_text(b2))[1].inner_blocks.len() == 0,
{
    let t1 = item_text(b1);
    let t2 = item_text(b2);
    let s = t1 + t + t2;
    let l1 = t1.len() as int;
    let l2 = l1 + t.len();
    let len = s.len() as int;
    lemma_parts(t1, t, t2);
    assert(s.subrange(0, l1) =~= t1);
    lemma_block_item_reads(s, 0, b1);
    lemma_block_item_reads(s, l2, b2);
    lemma_marker_is_lt(s, l2);
    lemma_opener_free_inside(s, l1, t);
    lemma_freeform_run(s, l1, l2);
    assert(block_with_trailing(s, 0) == Some((l2, item_block(b1), t)));
    lemma_nothing_at_end(s);
    assert(crate::grammar::freeform_end(s, len) == len);
    assert(block_with_trailing(s, l2) == Some((len, item_block(b2), Seq::<char>::empty())));
    lemma_marker_is_lt(s, 0);
    lemma_item_text_last(b2);
    assert(s.last() == t2.last());
    lemma_two_item_document(s, l2, item_block(b1), t, item_block(b2));
    assert(freeform_if_any(t) == seq![freeform(t)]);
    assert(seq![item_block(b1)] + seq![freeform(t)] + seq![item_block(b2)] =~= seq![
        item_block(b1),
        freeform(t),
        item_block(b2),
    ]);
}

/// `<!-- wp:` + `u` + `-->`
pub open spec fn malformed_comment(u: Seq<char>) -> Seq<char> {
    lit_opener_start() + u + crate::grammar::lit_close()
}

/// `u` makes `<!-- wp:u-->` a comment that no block rule reads: it holds no
/// `>`, and it either does not start with a name character, or it is a name
/// followed by ` / `, the void closer written with a space.
pub open spec fn unread_comment_body(u: Seq<char>) -> bool {
    &&& u.len() > 0
    &&& forall|i: int| 0 <= i < u.len() ==> #[trigger] u[i] != '>'
    &&& (!is_name_start(u[0]) || (u.len() > 3 && is_name_text(u.subrange(0, u.len() - 3))
        && u.subrange(u.len() - 3, u.len() as int) == seq![' ', '/', ' ']))
}

/// `-->` is first found at `e`.
proof fn lemma_close_run(s: Seq<char>, p: int, e: int)
    requires
        0 <= p <= e,
        forall|i: int| p <= i < e ==> !#[trigger] crate::grammar::has_lit(s, i, crate::grammar::lit_close()),
        crate::grammar::has_lit(s, e, crate::grammar::lit_close()),
    ensures
        crate::grammar::close_at_or_after(s, p) == e,
    decreases e - p,
{
    if p < e {
        assert(!crate::grammar::has_lit(s, p, crate::grammar::lit_close()));
        lemma_close_run(s, p + 1, e);
    }
}

/// `<!-- wp:n / -->` at the start of `s` reads as no block: its opener is
/// followed neither by `-->` nor by `/-->`.
#[verifier::spinoff_prover]
proof fn lemma_spaced_void_closer_is_no_block(s: Seq<char>, n: Seq<char>)
    requires
        is_name_text(n),
        11 + n.len() <= s.len(),
        s.subrange(0, 11 + n.len() as int) == lit_opener_start() + n + seq![' ', '/', ' '],
    ensures
        found_block(s, 0) is None,
{
    let m = n.len() as int;
    let w = lit_opener_start() + n + seq![' ', '/', ' '];
    assert(s.subrange(0, 9 + m) =~= w.subrange(0, 9 + m));
    assert(w.subrange(0, 9 + m) =~= lit_opener_start() + n + seq![' ']);
    assert(s[9 + m] == s.subrange(0, 11 + m)[9 + m]);
    assert(s[10 + m] == s.subrange(0, 11 + m)[10 + m]);
    assert(s[9 + m] == '/');
    assert(s[10 + m] == ' ');
    lemma_plain_opener_at(s, 0, n);
    assert(!crate::grammar::has_lit(s, 9 + m, crate::grammar::lit_close())) by {
        if crate::grammar::has_lit(s, 9 + m, crate::grammar::lit_close()) {
            assert(s.subrange(9 + m, 12 + m)[0] == s[9 + m]);
        }
    }
    assert(!crate::grammar::has_lit(s, 9 + m, crate::grammar::lit_void_close())) by {
        if crate::grammar::has_lit(s, 9 + m, crate::grammar::lit_void_close()) {
            assert(s.subrange(9 + m, 13 + m)[1] == s[10 + m]);
        }
    }
    assert(block_start(s, 0) is None);
    assert(block_void(s, 0) is None);
}

/// A malformed comment at the start of `s` reads as no block.
#[verifier::spinoff_prover]
proof fn lemma_malformed_is_no_block(s: Seq<char>, u: Seq<char>)
    requires
        unread_comment_body(u),
        malformed_comment(u).len() <= s.len(),
        s.subrange(0, malformed_comment(u).len() as int) == malformed_comment(u),
    ensures
        found_block(s, 0) is None,
{
    let mc = malformed_comment(u);
    let k = u.len() as int;
    assert forall|i: int| 0 <= i < mc.len() implies #[trigger] s[i] == mc[i] by {
        assert(s.subrange(0, mc.len() as int)[i] == s[i]);
    }
    if !is_name_start(u[0]) {
        assert(s[4] == ' ');
        assert(s[5] == 'w');
        assert(crate::grammar::skip_ws(s, 5) == 5);
        assert(crate::grammar::skip_ws(s, 4) == 5);
        assert(s[8] == u[0]);
        assert(block_name(s, 8) is None);
        assert(block_opener(s, 0) is None);
    } else {
        let n = u.subrange(0, k - 3);
        assert(u =~= n + seq![' ', '/', ' ']);
        assert(s.subrange(0, 11 + n.len() as int) =~= lit_opener_start() + n + seq![' ', '/', ' ']);
        lemma_spaced_void_closer_is_no_block(s, n);
    }
}

/// A malformed comment at the start of `s` reads as the fallback comment and
/// as no block.
#[verifier::spinoff_prover]
proof fn lemma_malformed_reads(s: Seq<char>, u: Seq<char>)
    requires
        unread_comment_body(u),
        malformed_comment(u).len() <= s.len(),
        s.subrange(0, malformed_comment(u).len() as int) == malformed_comment(u),
    ensures
        found_block(s, 0) is None,
        crate::grammar::fallback_comment(s, 0) == Some(malformed_comment(u).len() as int),
        crate::grammar::is_block_start(s, 0),
{
    let mc = malformed_comment(u);
    let k = u.len() as int;
    let e = 8 + k;
    lemma_malformed_is_no_block(s, u);
    assert forall|i: int| 0 <= i < mc.len() implies #[trigger] s[i] == mc[i] by {
        assert(s.subrange(0, mc.len() as int)[i] == s[i]);
    }
    assert(s[4] == ' ');
    assert(s[5] == 'w');
    assert(crate::grammar::skip_ws(s, 5) == 5);
    assert(crate::grammar::skip_ws(s, 4) == 5);
    assert(s.subrange(0, 4) =~= crate::grammar::lit_open());
    assert(s.subrange(5, 8) =~= crate::grammar::lit_wp());
    assert forall|i: int| 8 <= i < e implies !#[trigger] crate::grammar::has_lit(
        s,
        i,
        crate::grammar::lit_close(),
    ) by {
        if crate::grammar::has_lit(s, i, crate::grammar::lit_close()) {
            assert(s.subrange(i, i + 3)[2] == s[i + 2]);
            if i + 2 < e {
                assert(s[i + 2] == u[i + 2 - 8]);
            }
        }
    }
    assert(s.subrange(e, e + 3) =~= crate::grammar::lit_close());
    lemma_close_run(s, 8, e);
}

/// A malformed block comment that no block rule reads is a free-form block of
/// its own wherever it stands, also before further blocks: for every comment
/// `<!-- wp:u-->` that no block rule reads (see `unread_comment_body`, which
/// takes in `<!-- wp:name / -->`), and every void or closed block `b` written
/// plainly around well-formed content, the comment followed by `b` is a
/// free-form block holding the comment, then the block of `b`.
#[verifier::spinoff_prover]
#[verifier::rlimit(40)]
pub proof fn law_malformed_comment_before_block(u: Seq<char>, b: ContentItem)
    requires
        unread_comment_body(u),
        !(b is Text),
        items_wf(seq![b]),
    ensures
        parse_document(malformed_comment(u) + item_text(b)) == seq![
            freeform(malformed_comment(u)),
            item_block(b),
        ],
{
    let mc = malformed_comment(u);
    let tb = item_text(b);
    let s = mc + tb;
    let l = mc.len() as int;
    let len = s.len() as int;
    assert(s.subrange(0, l) =~= mc);
    assert(s.subrange(l, len) =~= tb);
    lemma_malformed_reads(s, u);
    assert(block_with_trailing(s, 0) == Some((l, freeform(mc), Seq::<char>::empty())));
    lemma_block_item_reads(s, l, b);
    lemma_nothing_at_end(s);
    assert(crate::grammar::freeform_end(s, len) == len);
    assert(block_with_trailing(s, l) == Some((len, item_block(b), Seq::<char>::empty())));
    lemma_marker_is_lt(s, 0);
    lemma_item_text_last(b);
    assert(s.last() == tb.last());
    lemma_two_item_document(s, l, freeform(mc), Seq::<char>::empty(), item_block(b));
    assert(freeform_if_any(Seq::<char>::empty()) == Seq::<SpecBlock>::empty());
    assert(seq![freeform(mc)] + Seq::<SpecBlock>::empty() + seq![item_block(b)] =~= seq![
        freeform(mc),
        item_block(b),
    ]);
}

proof fn lemma_freeform_end_facts(s: Seq<char>, p: int)
    requires
        0 <= p <= s.len(),
    ensures
        p <= crate::grammar::freeform_end(s, p) <= s.len(),
        forall|i: int|
            p <= i < crate::grammar::freeform_end(s, p) ==> !#[trigger] crate::grammar::is_block_start(
                s,
                i,
            ),
        crate::grammar::freeform_end(s, p) == s.len() || crate::grammar::is_block_start(
            s,
            crate::grammar::freeform_end(s, p),
        ),
    decreases s.len() - p,
{
    if p < s.len() && !crate::grammar::is_block_start(s, p) {
        lemma_freeform_end_facts(s, p + 1);
    }
}

/// After a block at the top level, whatever the block holds, the text up to
/// the next block opener (or to the end) is read as its trailing free-form
/// text: no opener starts inside it, and one starts where it stops.
pub proof fn law_trailing_text_runs_to_opener(s: Seq<char>, p: int)
    ensures
        found_block(s, p) matches Some((q, b)) ==> (0 <= q <= s.len() ==> (block_with_trailing(
            s,
            p,
        ) matches Some((e, b2, html)) && b2 == b && html == s.subrange(q, e) && (forall|i: int|
            q <= i < e ==> !#[trigger] crate::grammar::is_block_start(s, i)) && (e == s.len()
            || crate::grammar::is_block_start(s, e)))),
{
    match found_block(s, p) {
        Some((q, b)) => {
            if 0 <= q <= s.len() {
                lemma_freeform_end_facts(s, q);
                if crate::grammar::freeform_end(s, q) == q {
                    assert(s.subrange(q, q) =~= Seq::<char>::empty());
                }
            }
        },
        None => {},
    }
}

/// A block comment `<!-- wp:` that reads as no block is, wherever it stands, a
/// free-form block of its own running to the first `-->` after `wp:`, with no
/// trailing text.
pub proof fn law_unread_comment_is_freeform(s: Seq<char>, p: int, c: int)
    requires
        found_block(s, p) is None,
        crate::grammar::is_block_start(s, p),
        crate::grammar::skip_ws(s, p + 4) + 3 <= c,
        crate::grammar::has_lit(s, c, crate::grammar::lit_close()),
        forall|i: int|
            crate::grammar::skip_ws(s, p + 4) + 3 <= i < c ==> !#[trigger] crate::grammar::has_lit(
                s,
                i,
                crate::grammar::lit_close(),
            ),
    ensures
        block_with_trailing(s, p) == Some((c + 3, freeform(s.subrange(p, c + 3)), Seq::<char>::empty())),
{
    lemma_close_run(s, crate::grammar::skip_ws(s, p + 4) + 3, c);
}

// ----- Closers ---------------------------------------------------------------

/// The closer's name is not compared with the opener's: for every two block
/// names `n` and `n2` and well-formed content `c`,
/// `<!-- wp:n -->c<!-- /wp:n2 -->` is one block with the full name of `n`,
/// empty attributes and the pieces of `c` as its content.
#[verifier::spinoff_prover]
pub proof fn law_closer_name_is_not_compared(n: Seq<char>, n2: Seq<char>, items: Seq<ContentItem>)
    requires
        is_name_text(n),
        is_name_text(n2),
        items_wf(items),
    ensures
        parse_document(crate::grammar::opener_text(n) + items_text(items) + closer_text(n2)) == seq![
            assemble(full_name(n), empty_object(), items_pieces(items)),
        ],
        parse_document(crate::grammar::opener_text(n) + items_text(items) + closer_text(n2))[0].name
            == Some(full_name(n)),
{
    let open = crate::grammar::opener_text(n);
    let c = items_text(items);
    let close = closer_text(n2);
    let s = open + c + close;
    lemma_plain_start(n, c, close);
    lemma_parts(open, c, close);
    lemma_closed_document(s, open.len() as int, n2, full_name(n), empty_object(), items);
}

// ----- Attribute texts --------------------------------------------------------

/// Over characters with no quotes or braces, `nested_json` runs up to a
/// closing brace or the end.
proof fn lemma_nested_json_plain(s: Seq<char>, p: int, e: int)
    requires
        0 <= p <= e <= s.len(),
        forall|i: int| p <= i < e ==> #[trigger] s[i] != '"' && s[i] != '{' && s[i] != '}',
        e == s.len() || s[e] == '}',
    ensures
        crate::grammar::nested_json(s, p) == e,
    decreases e - p,
{
    if p < e {
        assert(crate::grammar::json_item(s, p) == Some(p + 1));
        lemma_nested_json_plain(s, p + 1, e);
    }
}

/// The first quote at or after `p` is at `e`.
proof fn lemma_quote_run(s: Seq<char>, p: int, e: int)
    requires
        0 <= p <= e < s.len(),
        forall|i: int| p <= i < e ==> #[trigger] s[i] != '"',
        s[e] == '"',
    ensures
        crate::grammar::quote_at_or_after(s, p) == Some(e),
    decreases e - p,
{
    if p < e {
        lemma_quote_run(s, p + 1, e);
    }
}

/// Attribute texts as the grammar reads them: braces around text with no
/// quotes or braces; braces around a quoted string, in which braces are plain
/// text; and braces around one nested pair of braces.
pub proof fn law_attrs_text_forms(x: Seq<char>, q: Seq<char>)
    requires
        no_json_marks(x),
        forall|i: int| 0 <= i < q.len() ==> #[trigger] q[i] != '"',
    ensures
        is_attrs_text(seq!['{'] + x + seq!['}']),
        is_attrs_text(seq!['{', '"'] + q + seq!['"', '}']),
        is_attrs_text(seq!['{', '{'] + x + seq!['}', '}']),
{
    let k = x.len() as int;
    let a = seq!['{'] + x + seq!['}'];
    assert forall|i: int| 1 <= i < 1 + k implies #[trigger] a[i] != '"' && a[i] != '{' && a[i]
        != '}' by {
        assert(a[i] == x[i - 1]);
    }
    lemma_nested_json_plain(a, 1, 1 + k);
    let c = seq!['{', '{'] + x + seq!['}', '}'];
    assert forall|i: int| 2 <= i < 2 + k implies #[trigger] c[i] != '"' && c[i] != '{' && c[i]
        != '}' by {
        assert(c[i] == x[i - 2]);
    }
    lemma_nested_json_plain(c, 2, 2 + k);
    assert(crate::grammar::quoted_string(c, 1) is None);
    assert(crate::grammar::balanced_braces(c, 1) == Some(3 + k));
    assert(crate::grammar::json_item(c, 1) == Some(3 + k));
    assert(crate::grammar::json_item(c, 3 + k) is None);
    assert(crate::grammar::nested_json(c, 3 + k) == 3 + k);
    assert(crate::grammar::nested_json(c, 1) == 3 + k);
    assert(c.len() == 4 + k);
    assert(c.last() == '}');
    let m = q.len() as int;
    let b = seq!['{', '"'] + q + seq!['"', '}'];
    assert forall|i: int| 2 <= i < 2 + m implies #[trigger] b[i] != '"' by {
        assert(b[i] == q[i - 2]);
    }
    lemma_quote_run(b, 2, 2 + m);
    assert(crate::grammar::quoted_string(b, 1) == Some(3 + m));
    assert(crate::grammar::json_item(b, 1) == Some(3 + m));
    assert(crate::grammar::json_item(b, 3 + m) is None);
    assert(crate::grammar::nested_json(b, 3 + m) == 3 + m);
    assert(crate::grammar::nested_json(b, 1) == 3 + m);
    assert(b.len() == 4 + m);
    assert(b.last() == '}');
}

// ----- Whitespace inside block comments ---------------------------------------

/// Every character of `w` is a space, tab, carriage return or newline.
pub open spec fn comment_ws(w: Seq<char>) -> bool {
    forall|i: int| 0 <= i < w.len() ==> #[trigger] w[i] == ' ' || w[i] == '\t' || w[i] == '\r'
        || w[i] == '\n'
}

/// A run of comment whitespace standing at `p`, followed by no whitespace, is
/// skipped whole.
proof fn lemma_skip_run(s: Seq<char>, p: int, w: Seq<char>)
    requires
        0 <= p,
        p + w.len() < s.len(),
        s.subrange(p, p + w.len()) == w,
        comment_ws(w),
        !crate::grammar::is_ws(s[p + w.len()]),
    ensures
        crate::grammar::skip_ws(s, p) == p + w.len(),
    decreases w.len(),
{
    if w.len() > 0 {
        assert(s[p] == s.subrange(p, p + w.len())[0]);
        assert(w[0] == ' ' || w[0] == '\t' || w[0] == '\r' || w[0] == '\n');
        let rest = w.drop_first();
        assert(s.subrange(p + 1, p + 1 + rest.len()) =~= rest) by {
            assert forall|i: int| 0 <= i < rest.len() implies #[trigger] s.subrange(
                p + 1,
                p + 1 + rest.len(),
            )[i] == rest[i] by {
                assert(s.subrange(p, p + w.len())[i + 1] == s[p + 1 + i]);
            }
        }
        assert forall|i: int| 0 <= i < rest.len() implies #[trigger] rest[i] == ' ' || rest[i]
            == '\t' || rest[i] == '\r' || rest[i] == '\n' by {
            assert(rest[i] == w[i + 1]);
        }
        lemma_skip_run(s, p + 1, rest);
    }
}

/// `<!--` + `w1` + `wp:` + `n` + `w2`
pub open spec fn spaced_opener_body(w1: Seq<char>, n: Seq<char>, w2: Seq<char>) -> Seq<char> {
    crate::grammar::lit_open() + w1 + crate::grammar::lit_wp() + n + w2
}

/// `<!--` + `w3` + `/wp:` + `n` + `w4` + `-->`
pub open spec fn spaced_closer(w3: Seq<char>, n: Seq<char>, w4: Seq<char>) -> Seq<char> {
    crate::grammar::lit_open() + w3 + crate::grammar::lit_end_wp() + n + w4
        + crate::grammar::lit_close()
}

/// An opener written with whitespace runs, followed by `-` or `/`, reads up
/// to that character with the full name of `n` and empty attributes.
#[verifier::spinoff_prover]
proof fn lemma_spaced_opener(w1: Seq<char>, n: Seq<char>, w2: Seq<char>, rest: Seq<char>)
    requires
        is_name_text(n),
        comment_ws(w1),
        comment_ws(w2),
        w2.len() > 0,
        rest.len() > 0,
        rest[0] == '-' || rest[0] == '/',
    ensures
        block_opener(spaced_opener_body(w1, n, w2) + rest, 0) == Some(
            (spaced_opener_body(w1, n, w2).len() as int, full_name(n), empty_object()),
        ),
{
    let x = spaced_opener_body(w1, n, w2);
    let s = x + rest;
    let a = w1.len() as int;
    let m = n.len() as int;
    let b = w2.len() as int;
    assert(s.subrange(0, 4) =~= crate::grammar::lit_open());
    assert(s.subrange(4, 4 + a) =~= w1);
    assert(s[4 + a] == 'w');
    lemma_skip_run(s, 4, w1);
    assert(s.subrange(4 + a, 7 + a) =~= crate::grammar::lit_wp());
    assert(s.subrange(7 + a, 7 + a + m) =~= n);
    assert(s[7 + a + m] == w2[0]);
    assert(w2[0] == ' ' || w2[0] == '\t' || w2[0] == '\r' || w2[0] == '\n');
    lemma_block_name_text(s, 7 + a, n);
    assert(s.subrange(7 + a + m, 7 + a + m + b) =~= w2);
    assert(s[7 + a + m + b] == rest[0]);
    lemma_skip_run(s, 7 + a + m, w2);
    assert(crate::grammar::skip_ws(s, 7 + a + m + b) == 7 + a + m + b);
}

/// A closer written with whitespace runs reads to its end.
#[verifier::spinoff_prover]
proof fn lemma_spaced_closer(s: Seq<char>, r: int, w3: Seq<char>, n: Seq<char>, w4: Seq<char>)
    requires
        is_name_text(n),
        comment_ws(w3),
        comment_ws(w4),
        w4.len() > 0,
        0 <= r,
        r + spaced_closer(w3, n, w4).len() <= s.len(),
        s.subrange(r, r + spaced_closer(w3, n, w4).len()) == spaced_closer(w3, n, w4),
    ensures
        crate::grammar::block_end(s, r) == Some(r + spaced_closer(w3, n, w4).len()),
{
    let c = spaced_closer(w3, n, w4);
    let a = w3.len() as int;
    let m = n.len() as int;
    let b = w4.len() as int;
    let whole = s.subrange(r, r + c.len());
    assert forall|i: int, j: int| 0 <= i <= j <= c.len() implies s.subrange(r + i, r + j)
        == #[trigger] c.subrange(i, j) by {
        assert(s.subrange(r + i, r + j) =~= whole.subrange(i, j));
    }
    assert forall|i: int| 0 <= i < c.len() implies s[r + i] == #[trigger] c[i] by {
        assert(whole[i] == s[r + i]);
    }
    assert(c.subrange(0, 4) =~= crate::grammar::lit_open());
    assert(c.subrange(4, 4 + a) =~= w3);
    assert(c[4 + a] == '/');
    lemma_skip_run(s, r + 4, w3);
    assert(c.subrange(4 + a, 8 + a) =~= crate::grammar::lit_end_wp());
    assert(c.subrange(8 + a, 8 + a + m) =~= n);
    assert(c[8 + a + m] == w4[0]);
    assert(w4[0] == ' ' || w4[0] == '\t' || w4[0] == '\r' || w4[0] == '\n');
    lemma_block_name_text(s, r + 8 + a, n);
    assert(c.subrange(8 + a + m, 8 + a + m + b) =~= w4);
    assert(c[8 + a + m + b] == '-');
    lemma_skip_run(s, r + 8 + a + m, w4);
    assert(c.subrange(8 + a + m + b, 11 + a + m + b) =~= crate::grammar::lit_close());
}

/// Runs of spaces, tabs, carriage returns and newlines may stand inside block
/// comments where the grammar allows whitespace: for every block name `n`,
/// runs `w1`, `w3` (possibly empty) and `w2`, `w4` (not empty),
/// `<!--w1wp:n w2/-->` and `<!--w1wp:n w2--><!--w3/wp:n w4-->` are the same
/// single block with the full name of `n`, empty attributes and no content.
#[verifier::spinoff_prover]
pub proof fn law_whitespace_in_comments(
    n: Seq<char>,
    w1: Seq<char>,
    w2: Seq<char>,
    w3: Seq<char>,
    w4: Seq<char>,
)
    requires
        is_name_text(n),
        comment_ws(w1),
        comment_ws(w2),
        comment_ws(w3),
        comment_ws(w4),
        w2.len() > 0,
        w4.len() > 0,
    ensures
        parse_document(spaced_opener_body(w1, n, w2) + crate::grammar::lit_void_close()) == seq![
            assemble(full_name(n), empty_object(), seq![]),
        ],
        parse_document(
            spaced_opener_body(w1, n, w2) + crate::grammar::lit_close() + spaced_closer(w3, n, w4),
        ) == seq![assemble(full_name(n), empty_object(), seq![])],
{
    let x = spaced_opener_body(w1, n, w2);
    let vc = crate::grammar::lit_void_close();
    let cl = crate::grammar::lit_close();
    let close = spaced_closer(w3, n, w4);
    lemma_spaced_opener(w1, n, w2, vc);
    lemma_spaced_opener(w1, n, w2, cl + close);
    let b = x + cl + close;
    assert(x + (cl + close) =~= b);
    assert(b.subrange(x.len() + 3int, b.len() as int) =~= close);
    lemma_spaced_closer(b, x.len() + 3int, w3, n, w4);
    law_void_and_empty_balanced_documents_agree(x, close);
}

// ----- Whole documents of top-level items -------------------------------------

/// Top-level items as written: texts in which no block opener starts, and
/// void or closed blocks written plainly around well-formed content; texts are
/// non-empty and never follow one another.
pub open spec fn top_items_wf(items: Seq<ContentItem>) -> bool
    decreases items.len(),
{
    if items.len() == 0 {
        true
    } else {
        &&& match items[0] {
            ContentItem::Text(t) => t.len() > 0 && opener_free(t),
            _ => items_wf(seq![items[0]]),
        }
        &&& (items[0] is Text && items.len() > 1 ==> !(items[1] is Text))
        &&& top_items_wf(items.subrange(1, items.len() as int))
    }
}

/// The blocks that top-level items stand for: each text a free-form block
/// holding it, each block its own block.
pub open spec fn top_blocks(items: Seq<ContentItem>) -> Seq<SpecBlock>
    decreases items.len(),
{
    if items.len() == 0 {
        seq![]
    } else {
        seq![
            match items[0] {
                ContentItem::Text(t) => freeform(t),
                _ => item_block(items[0]),
            },
        ] + top_blocks(items.subrange(1, items.len() as int))
    }
}

/// Each block of top-level items that start with a block, paired with the
/// text that follows it (empty where a block follows).
pub open spec fn top_pairs(items: Seq<ContentItem>) -> Seq<(SpecBlock, Seq<char>)>
    decreases items.len(),
{
    if items.len() == 0 {
        seq![]
    } else if items.len() >= 2 && items[1] is Text {
        seq![(item_block(items[0]), item_text(items[1]))] + top_pairs(
            items.subrange(2, items.len() as int),
        )
    } else {
        seq![(item_block(items[0]), Seq::<char>::empty())] + top_pairs(
            items.subrange(1, items.len() as int),
        )
    }
}

proof fn lemma_items_blocks_append(x: Seq<(SpecBlock, Seq<char>)>, y: Seq<(SpecBlock, Seq<char>)>)
    ensures
        items_blocks(x + y) == items_blocks(x) + items_blocks(y),
    decreases y.len(),
{
    if y.len() == 0 {
        assert(x + y =~= x);
        assert(items_blocks(y) == Seq::<SpecBlock>::empty());
        assert(items_blocks(x) + items_blocks(y) =~= items_blocks(x));
    } else {
        assert((x + y).drop_last() =~= x + y.drop_last());
        assert((x + y).last() == y.last());
        lemma_items_blocks_append(x, y.drop_last());
        let (b, html) = y.last();
        assert(items_blocks(x + y) == items_blocks(x + y.drop_last()) + seq![b] + freeform_if_any(
            html,
        ));
        assert(items_blocks(y) == items_blocks(y.drop_last()) + seq![b] + freeform_if_any(html));
        assert(items_blocks(x + y) =~= items_blocks(x) + items_blocks(y));
    }
}

/// The pairs of top-level items starting with a block give their blocks.
proof fn lemma_top_pairs_blocks(items: Seq<ContentItem>)
    requires
        top_items_wf(items),
        items.len() > 0 ==> !(items[0] is Text),
    ensures
        items_blocks(top_pairs(items)) == top_blocks(items),
    decreases items.len(),
{
    if items.len() > 0 {
        let e = Seq::<(SpecBlock, Seq<char>)>::empty();
        let rest1 = items.subrange(1, items.len() as int);
        if items.len() >= 2 && items[1] is Text {
            let rest2 = items.subrange(2, items.len() as int);
            let t = item_text(items[1]);
            assert(rest1.subrange(1, rest1.len() as int) =~= rest2);
            assert(rest1[0] == items[1]);
            assert(top_items_wf(rest1));
            assert(top_items_wf(rest2));
            if rest2.len() > 0 {
                assert(rest2[0] == rest1[1]);
            }
            lemma_top_pairs_blocks(rest2);
            let head = seq![(item_block(items[0]), t)];
            lemma_items_blocks_append(head, top_pairs(rest2));
            assert(head.drop_last() =~= e);
            assert(items_blocks(e) == Seq::<SpecBlock>::empty());
            assert(items_blocks(head) == items_blocks(e) + seq![item_block(items[0])] + freeform_if_any(t));
            match items[1] {
                ContentItem::Text(tt) => {
                    assert(t == tt);
                    assert(tt.len() > 0);
                    assert(freeform_if_any(t) == seq![freeform(t)]);
                },
                _ => {},
            }
            assert(top_blocks(rest1) == seq![freeform(t)] + top_blocks(rest2));
            assert(top_blocks(items) =~= seq![item_block(items[0])] + (seq![freeform(t)]
                + top_blocks(rest2)));
        } else {
            lemma_top_pairs_blocks(rest1);
            let head = seq![(item_block(items[0]), Seq::<char>::empty())];
            lemma_items_blocks_append(head, top_pairs(rest1));
            assert(head.drop_last() =~= e);
            assert(items_blocks(e) == Seq::<SpecBlock>::empty());
            assert(freeform_if_any(Seq::<char>::empty()) == Seq::<SpecBlock>::empty());
            assert(items_blocks(head) =~= seq![item_block(items[0])]);
        }
    }
}

/// Top-level items starting with a block, standing at `p` and reaching the end
/// of the text, read as their blocks, each with the text after it.
#[verifier::spinoff_prover]
#[verifier::rlimit(40)]
proof fn lemma_top_items_read(s: Seq<char>, p: int, list: Seq<ContentItem>)
    requires
        top_items_wf(list),
        list.len() > 0 ==> !(list[0] is Text),
        0 <= p,
        p + items_text(list).len() == s.len(),
        s.subrange(p, s.len() as int) == items_text(list),
    ensures
        items(s, p) == (s.len() as int, top_pairs(list)),
    decreases list.len(),
{
    let len = s.len() as int;
    if list.len() == 0 {
        lemma_nothing_at_end(s);
    } else {
        let b = list[0];
        let k = list.len() as int;
        let rest1 = list.subrange(1, k);
        let tb = item_text(b);
        let r1 = items_text(rest1);
        let q = p + tb.len();
        lemma_split_at(s, p, tb, r1);
        assert(top_items_wf(rest1));
        lemma_block_item_reads(s, p, b);
        if k >= 2 && list[1] is Text {
            let t = item_text(list[1]);
            let rest2 = list.subrange(2, k);
            let r2 = items_text(rest2);
            assert(rest1[0] == list[1]);
            assert(rest1.subrange(1, rest1.len() as int) =~= rest2);
            assert(r1 == t + r2);
            lemma_split_at(s, q, t, r2);
            let e = q + t.len();
            assert(top_items_wf(rest2));
            if rest2.len() > 0 {
                assert(rest2[0] == rest1[1]);
                lemma_block_item_starts_opener(s, e, rest2);
                lemma_marker_is_lt(s, e);
            }
            match list[1] {
                ContentItem::Text(tt) => {
                    assert(tt == t);
                    lemma_opener_free_inside(s, q, t);
                },
                _ => {},
            }
            lemma_freeform_run(s, q, e);
            assert(s.subrange(q, e) == t);
            assert(block_with_trailing(s, p) == Some((e, item_block(b), t)));
            assert(s.subrange(e, len) == r2);
            lemma_top_items_read(s, e, rest2);
            assert(top_pairs(list) == seq![(item_block(b), t)] + top_pairs(rest2));
        } else {
            if rest1.len() > 0 {
                assert(rest1[0] == list[1]);
                lemma_block_item_starts_opener(s, q, rest1);
            } else {
                assert(q == len);
            }
            assert(crate::grammar::freeform_end(s, q) == q);
            assert(block_with_trailing(s, p) == Some((q, item_block(b), Seq::<char>::empty())));
            assert(s.subrange(q, len) == r1);
            lemma_top_items_read(s, q, rest1);
            assert(top_pairs(list) == seq![(item_block(b), Seq::<char>::empty())] + top_pairs(rest1));
        }
    }
}

/// Each of well-formed top-level items is a non-empty text with no block
/// opener, or a well-formed block.
proof fn lemma_top_item_at(list: Seq<ContentItem>, i: int)
    requires
        top_items_wf(list),
        0 <= i < list.len(),
    ensures
        match list[i] {
            ContentItem::Text(t) => t.len() > 0 && opener_free(t),
            _ => items_wf(seq![list[i]]),
        },
    decreases i,
{
    if i > 0 {
        let rest = list.subrange(1, list.len() as int);
        assert(rest[i - 1] == list[i]);
        lemma_top_item_at(rest, i - 1);
    }
}

/// The text of items ends as the text of the last item, where that is not
/// empty.
proof fn lemma_items_text_last(list: Seq<ContentItem>)
    requires
        list.len() > 0,
        item_text(list.last()).len() > 0,
    ensures
        items_text(list).len() > 0,
        items_text(list).last() == item_text(list.last()).last(),
    decreases list.len(),
{
    let rest = list.subrange(1, list.len() as int);
    if list.len() > 1 {
        assert(rest.last() == list.last());
        lemma_items_text_last(rest);
        assert((item_text(list[0]) + items_text(rest)).last() == items_text(rest).last());
    } else {
        assert(rest =~= Seq::<ContentItem>::empty());
        assert(items_text(rest) =~= Seq::<char>::empty());
        assert(items_text(list) =~= item_text(list[0]));
    }
}

/// A document written as top-level items is exactly what they stand for: for
/// every list of texts in which no block opener starts and void or closed
/// blocks written plainly around well-formed content, with no two texts next
/// to each other and no whitespace at the ends of the document, the document
/// is each text as a free-form block holding it and each block as its block,
/// in order.
#[verifier::spinoff_prover]
#[verifier::rlimit(40)]
pub proof fn law_top_level_items(list: Seq<ContentItem>)
    requires
        top_items_wf(list),
        list.len() > 0,
        list[0] matches ContentItem::Text(t) ==> !white_space_char(t[0]),
        list.last() matches ContentItem::Text(t) ==> !white_space_char(t.last()),
    ensures
        parse_document(items_text(list)) == top_blocks(list),
{
    let s = items_text(list);
    let len = s.len() as int;
    let k = list.len() as int;
    // The ends of the document.
    lemma_top_item_at(list, k - 1);
    match list.last() {
        ContentItem::Text(t) => {},
        _ => {
            lemma_item_text_last(list.last());
        },
    }
    lemma_items_text_last(list);
    let rest1 = list.subrange(1, k);
    let f = item_text(list[0]);
    let r1 = items_text(rest1);
    assert(s == f + r1);
    assert(s.subrange(0, f.len() as int) =~= f);
    assert(s.subrange(f.len() as int, len) =~= r1);
    assert(top_items_wf(rest1));
    lemma_nothing_at_end(s);
    match list[0] {
        ContentItem::Text(t0) => {
            assert(f == t0);
            assert(s[0] == t0[0]);
            if rest1.len() > 0 {
                assert(rest1[0] == list[1]);
                lemma_block_item_starts_opener(s, f.len() as int, rest1);
                lemma_marker_is_lt(s, f.len() as int);
            }
            lemma_opener_free_inside(s, 0, t0);
            lemma_freeform_run(s, 0, f.len() as int);
            assert(opt_freeform(s, 0) == (f.len() as int, t0));
            lemma_top_items_read(s, f.len() as int, rest1);
            lemma_top_pairs_blocks(rest1);
            assert(freeform_if_any(t0) == seq![freeform(t0)]);
            assert(top_blocks(list) == seq![freeform(t0)] + top_blocks(rest1));
        },
        _ => {
            assert(items_wf(seq![list[0]]));
            lemma_block_item_reads(s, 0, list[0]);
            lemma_marker_is_lt(s, 0);
            assert(crate::grammar::freeform_end(s, 0) == 0);
            assert(opt_freeform(s, 0) == (0int, Seq::<char>::empty()));
            assert(s.subrange(0, len) =~= s);
            lemma_top_items_read(s, 0, list);
            lemma_top_pairs_blocks(list);
        },
    }
    lemma_trim_noop(s);
    assert(freeform_if_any(Seq::<char>::empty()) == Seq::<SpecBlock>::empty());
    assert(block_list_inner(s).1 =~= top_blocks(list));
}

// ----- Documents the grammar does not read to the end ---------------------------

/// Where no `>` stands at or after `p`, no `-->` or `/-->` does either.
proof fn lemma_no_close_after(s: Seq<char>, p: int)
    requires
        forall|i: int| p <= i < s.len() ==> #[trigger] s[i] != '>',
    ensures
        forall|i: int|
            p <= i ==> !#[trigger] crate::grammar::has_lit(s, i, crate::grammar::lit_close())
                && !crate::grammar::has_lit(s, i, crate::grammar::lit_void_close()),
{
    assert forall|i: int| p <= i implies !#[trigger] crate::grammar::has_lit(
        s,
        i,
        crate::grammar::lit_close(),
    ) && !crate::grammar::has_lit(s, i, crate::grammar::lit_void_close()) by {
        if crate::grammar::has_lit(s, i, crate::grammar::lit_close()) {
            assert(s.subrange(i, i + 3)[2] == s[i + 2]);
        }
        if crate::grammar::has_lit(s, i, crate::grammar::lit_void_close()) {
            assert(s.subrange(i, i + 4)[3] == s[i + 3]);
        }
    }
}

/// A block comment that is never closed makes the whole document one
/// free-form block: for every text `x` in which no block opener starts and
/// every text `u` with no `>`, with no whitespace at the ends of the document,
/// `x<!-- wp:u` is one free-form block holding the whole text.
#[verifier::spinoff_prover]
#[verifier::rlimit(40)]
pub proof fn law_unclosed_comment_makes_one_freeform(x: Seq<char>, u: Seq<char>)
    requires
        opener_free(x),
        x.len() > 0 ==> !white_space_char(x[0]),
        forall|i: int| 0 <= i < u.len() ==> #[trigger] u[i] != '>',
        u.len() > 0 ==> !white_space_char(u.last()),
    ensures
        parse_document(x + lit_opener_start() + u) == seq![freeform(x + lit_opener_start() + u)],
{
    let o = lit_opener_start();
    let s = x + o + u;
    let l = x.len() as int;
    let len = s.len() as int;
    assert(s.subrange(l, l + 8) =~= o);
    lemma_opener_start_is_block_start(s, l);
    lemma_marker_is_lt(s, l);
    assert(s.subrange(0, l) =~= x);
    lemma_opener_free_inside(s, 0, x);
    lemma_freeform_run(s, 0, l);
    if l == 0 {
        assert(opt_freeform(s, 0) == (0int, Seq::<char>::empty()));
    } else {
        assert(opt_freeform(s, 0) == (l, x));
    }
    assert forall|i: int| l <= i < len implies #[trigger] s[i] != '>' by {
        if i >= l + 8 {
            assert(s[i] == u[i - l - 8]);
        } else {
            assert(s[i] == o[i - l]);
        }
    }
    lemma_no_close_after(s, l);
    lemma_opener_bounds(s, l);
    assert(block_start(s, l) is None);
    assert(block_balanced(s, l) is None);
    assert(block_void(s, l) is None);
    let w = crate::grammar::skip_ws(s, l + 4);
    lemma_skip_ws_ge(s, l + 4);
    assert(crate::grammar::fallback_comment(s, l) is None) by {
        let r = crate::grammar::close_at_or_after(s, w + 3);
        lemma_close_at_or_after_ge(s, w + 3);
        if crate::grammar::has_lit(s, r, seq!['/']) {
            lemma_skip_ws_ge(s, r + 1);
        }
    }
    assert(block_with_trailing(s, l) is None);
    assert(items(s, l) == (l, Seq::<(SpecBlock, Seq<char>)>::empty()));
    assert(crate::grammar::freeform_end(s, l) == l);
    assert(opt_freeform(s, l) == (l, Seq::<char>::empty()));
    assert(block_list(s) is None);
    if u.len() > 0 {
        assert(s.last() == u.last());
    } else {
        assert(s.last() == ':');
    }
    if l > 0 {
        assert(s[0] == x[0]);
    }
    lemma_trim_noop(s);
}

proof fn lemma_close_at_or_after_ge(s: Seq<char>, p: int)
    ensures
        crate::grammar::close_at_or_after(s, p) >= p,
    decreases s.len() - p,
{
    if !(p < 0 || p >= s.len() || crate::grammar::has_lit(s, p, crate::grammar::lit_close())) {
        lemma_close_at_or_after_ge(s, p + 1);
    }
}

} // verus!
