//! The block-level rules of the grammar, and the entry points of the parser.

use vstd::prelude::*;

use crate::grammar::{
    any_unnamed, assemble, balanced_block, block_balanced, block_end, block_opener, block_start,
    block_void, block_with_trailing, content_piece, content_pieces, freeform_if_any, items,
    items_blocks, opener_text, opt_freeform, parse_document, piece_content, pieces_blocks, pieces_html,
    SpecPiece,
};
use crate::lexer::{
    at_close, at_end_wp, at_open, at_void_close, at_wp, block_attrs_at, block_name_at,
    fallback_comment_at, freeform_end_at, inner_text_end_at, opt_pos, skip_ws_at,
};
use crate::text::{push_range, string_of};
use vstd::string::StringExecFns;
use crate::types::{blocks_view, freeform, opt_str_view, Block, SpecBlock};

verus! {

/// `"<!--" ws? "wp:" block_name ws? block_attrs ws?` at `p`.
fn block_opener_at(s: &Vec<char>, p: usize) -> (res: Option<(usize, String, serde_json::Value)>)
    requires
        p <= s.len(),
    ensures
        match block_opener(s@, p as int) {
            None => res is None,
            Some((q, name, attrs)) => res matches Some((q2, name2, attrs2)) && q2 == q && name2@
                == name && attrs2 == attrs,
        },
        res matches Some((q, _, _)) ==> p + 4 < q <= s.len(),
{
    if !at_open(s, p) {
        return None;
    }
    let q1 = skip_ws_at(s, p + 4);
    if !at_wp(s, q1) {
        return None;
    }
    match block_name_at(s, q1 + 3) {
        None => None,
        Some((q2, name)) => {
            let q3 = skip_ws_at(s, q2);
            let (q4, attrs) = block_attrs_at(s, q3);
            let q5 = skip_ws_at(s, q4);
            Some((q5, name, attrs))
        },
    }
}

/// `block_start` at `p`.
fn block_start_at(s: &Vec<char>, p: usize) -> (res: Option<(usize, String, serde_json::Value)>)
    requires
        p <= s.len(),
    ensures
        match block_start(s@, p as int) {
            None => res is None,
            Some((q, name, attrs)) => res matches Some((q2, name2, attrs2)) && q2 == q && name2@
                == name && attrs2 == attrs,
        },
        res matches Some((q, _, _)) ==> p < q <= s.len(),
{
    match block_opener_at(s, p) {
        None => None,
        Some((q, name, attrs)) => {
            if at_close(s, q) {
                Some((q + 3, name, attrs))
            } else {
                None
            }
        },
    }
}

/// `block_end` at `p`.
fn block_end_at(s: &Vec<char>, p: usize) -> (res: Option<usize>)
    requires
        p <= s.len(),
    ensures
        opt_pos(res) == block_end(s@, p as int),
        res matches Some(q) ==> p < q <= s.len(),
{
    if !at_open(s, p) {
        return None;
    }
    let q1 = skip_ws_at(s, p + 4);
    if !at_end_wp(s, q1) {
        return None;
    }
    match block_name_at(s, q1 + 4) {
        None => None,
        Some((q2, _name)) => {
            let q3 = skip_ws_at(s, q2);
            if at_close(s, q3) {
                Some(q3 + 3)
            } else {
                None
            }
        },
    }
}

/// `block_void` at `p`.
fn block_void_at(s: &Vec<char>, p: usize) -> (res: Option<(usize, Block)>)
    requires
        p <= s.len(),
    ensures
        match block_void(s@, p as int) {
            None => res is None,
            Some((q, b)) => res matches Some((q2, b2)) && q2 == q && b2@ == b,
        },
        res matches Some((q, _)) ==> p < q <= s.len(),
{
    match block_opener_at(s, p) {
        None => None,
        Some((q, name, attrs)) => {
            if at_void_close(s, q) {
                let b = Block {
                    block_name: Some(name),
                    attrs,
                    inner_blocks: Vec::new(),
                    inner_html: String::new(),
                    inner_content: Vec::new(),
                };
                proof {
                    let pieces: Seq<SpecPiece> = seq![];
                    assert(b@.inner_blocks =~= pieces_blocks(pieces));
                    assert(b@.inner_html =~= pieces_html(pieces));
                    assert(b@.inner_content =~= pieces.map_values(
                        |piece: SpecPiece| piece_content(piece),
                    ));
                }
                Some((q + 4, b))
            } else {
                None
            }
        },
    }
}

/// `block_balanced` at `p`: an opener, the content pieces that follow it, and
/// the closer if one follows them.
fn block_balanced_at(s: &Vec<char>, p: usize) -> (res: Option<(usize, Block)>)
    requires
        p <= s.len(),
    ensures
        match block_balanced(s@, p as int) {
            None => res is None,
            Some((q, b)) => res matches Some((q2, b2)) && q2 == q && b2@ == b,
        },
        res matches Some((q, _)) ==> p < q <= s.len(),
    decreases s.len() - p, 0int,
{
    let (q, name, attrs) = match block_start_at(s, p) {
        None => return None,
        Some(x) => x,
    };
    let mut cur = q;
    let mut inner_blocks: Vec<Block> = Vec::new();
    let mut inner_html = String::new();
    let mut inner_content: Vec<Option<String>> = Vec::new();
    let mut unnamed = false;
    let ghost mut acc: Seq<SpecPiece> = seq![];
    assert(acc + content_pieces(s@, q as int).1 =~= content_pieces(s@, q as int).1);
    loop
        invariant
            p < q <= cur <= s.len(),
            content_pieces(s@, q as int) == (
                content_pieces(s@, cur as int).0,
                acc + content_pieces(s@, cur as int).1,
            ),
            inner_blocks@.len() == pieces_blocks(acc).len(),
            forall|i: int|
                0 <= i < inner_blocks@.len() ==> #[trigger] inner_blocks@[i]@ == pieces_blocks(
                    acc,
                )[i],
            inner_html@ == pieces_html(acc),
            unnamed == any_unnamed(acc),
            inner_content@.len() == acc.len(),
            forall|i: int|
                0 <= i < acc.len() ==> opt_str_view(#[trigger] inner_content@[i]) == piece_content(
                    acc[i],
                ),
        ensures
            content_piece(s@, cur as int) is None,
        decreases s.len() - cur,
    {
        let ghost prev = acc;
        match content_piece_at(s, cur) {
            None => {
                break ;
            },
            Some((e, Some(b))) => {
                proof {
                    acc = acc.push(SpecPiece::Block(b@));
                    assert(acc.drop_last() =~= prev);
                    assert(seq![SpecPiece::Block(b@)] + content_pieces(s@, e as int).1
                        == content_pieces(s@, cur as int).1);
                    assert(prev + content_pieces(s@, cur as int).1 =~= acc + content_pieces(
                        s@,
                        e as int,
                    ).1);
                }
                if b.block_name.is_none() {
                    unnamed = true;
                }
                inner_blocks.push(b);
                inner_content.push(None);
                cur = e;
            },
            Some((e, None)) => {
                let ghost t = s@.subrange(cur as int, e as int);
                proof {
                    acc = acc.push(SpecPiece::Text(t));
                    assert(acc.drop_last() =~= prev);
                    assert(prev + content_pieces(s@, cur as int).1 =~= acc + content_pieces(
                        s@,
                        e as int,
                    ).1);
                }
                push_range(&mut inner_html, s, cur, e);
                inner_content.push(Some(string_of(s, cur, e)));
                cur = e;
            },
        }
    }
    assert(acc =~= content_pieces(s@, q as int).1);
    let end = match block_end_at(s, cur) {
        Some(e) => e,
        None => cur,
    };
    if unnamed {
        let mut text = String::new();
        text.push('<');
        text.push('!');
        text.push('-');
        text.push('-');
        text.push(' ');
        text.push('w');
        text.push('p');
        text.push(':');
        text.append(name.as_str());
        text.push(' ');
        text.push('-');
        text.push('-');
        text.push('>');
        assert(text@ =~= opener_text(name@));
        return Some((end, Block::freeform(text)));
    }
    let b = Block { block_name: Some(name), attrs, inner_blocks, inner_html, inner_content };
    proof {
        crate::types::lemma_inner_blocks_view(b);
    }
    assert(b@.inner_blocks =~= pieces_blocks(acc));
    assert(b@.inner_content =~= acc.map_values(|piece: SpecPiece| piece_content(piece)));
    assert(b@ == assemble(name@, attrs, acc));
    assert(b@ == balanced_block(name@, attrs, acc));
    Some((end, b))
}

/// `content_piece` at `p`: a balanced block, a void block, or text up to the
/// next block comment (given as `None`, the text being `s[p..q]`).
fn content_piece_at(s: &Vec<char>, p: usize) -> (res: Option<(usize, Option<Block>)>)
    requires
        p <= s.len(),
    ensures
        match content_piece(s@, p as int) {
            None => res is None,
            Some((q, SpecPiece::Block(b))) => res matches Some((q2, Some(b2))) && q2 == q && b2@
                == b,
            Some((q, SpecPiece::Text(t))) => res matches Some((q2, None)) && q2 == q && t
                == s@.subrange(p as int, q),
        },
        res matches Some((q, _)) ==> p < q <= s.len(),
    decreases s.len() - p, 1int,
{
    let named = match block_balanced_at(s, p) {
        Some((q, b)) => if b.block_name.is_some() {
            Some((q, b))
        } else {
            None
        },
        None => None,
    };
    match named {
        Some((q, b)) => Some((q, Some(b))),
        None => match block_void_at(s, p) {
            Some((q, b)) => Some((q, Some(b))),
            None => {
                let e = inner_text_end_at(s, p);
                if e > p {
                    Some((e, None))
                } else {
                    None
                }
            },
        },
    }
}

/// `block_with_trailing` at `p`: a block and the free-form text after it, the
/// text being `s[t..q]` for the result `(q, block, t)`.
fn block_with_trailing_at(s: &Vec<char>, p: usize) -> (res: Option<(usize, Block, usize)>)
    requires
        p <= s.len(),
    ensures
        match block_with_trailing(s@, p as int) {
            None => res is None,
            Some((q, b, html)) => res matches Some((q2, b2, t)) && q2 == q && b2@ == b && t <= q
                && html == s@.subrange(t as int, q),
        },
        res matches Some((q, _, _)) ==> p < q <= s.len(),
{
    let found = match block_balanced_at(s, p) {
        Some(x) => Some(x),
        None => block_void_at(s, p),
    };
    match found {
        Some((q, b)) => {
            let e = freeform_end_at(s, q);
            if e > q {
                Some((e, b, q))
            } else {
                assert(s@.subrange(q as int, q as int) =~= Seq::<char>::empty());
                Some((q, b, q))
            }
        },
        None => match fallback_comment_at(s, p) {
            Some(e) => {
                let text = string_of(s, p, e);
                let b = Block::freeform(text);
                assert(s@.subrange(e as int, e as int) =~= Seq::<char>::empty());
                Some((e, b, e))
            },
            None => None,
        },
    }
}

/// Appends the free-form block of `s[from..to]` to `blocks` when that text is
/// not empty.
fn push_freeform_if_any(blocks: &mut Vec<Block>, s: &Vec<char>, from: usize, to: usize)
    requires
        from <= to <= s.len(),
    ensures
        blocks_view(final(blocks)@) == blocks_view(old(blocks)@) + freeform_if_any(
            s@.subrange(from as int, to as int),
        ),
{
    let ghost before = blocks@;
    if from < to {
        blocks.push(Block::freeform(string_of(s, from, to)));
        assert(blocks_view(blocks@) =~= blocks_view(before) + freeform_if_any(
            s@.subrange(from as int, to as int),
        ));
    } else {
        assert(blocks_view(blocks@) =~= blocks_view(before) + freeform_if_any(
            s@.subrange(from as int, to as int),
        ));
    }
}

/// `block_list_inner` on the whole of `s`: how far it reaches and the blocks.
fn block_list_inner_at(s: &Vec<char>) -> (res: (usize, Vec<Block>))
    ensures
        res.0 as int == crate::grammar::block_list_inner(s@).0,
        blocks_view(res.1@) == crate::grammar::block_list_inner(s@).1,
{
    let mut blocks: Vec<Block> = Vec::new();
    let p1 = freeform_end_at(s, 0);
    assert(opt_freeform(s@, 0).1 =~= s@.subrange(0, p1 as int));
    push_freeform_if_any(&mut blocks, s, 0, p1);
    let ghost pre = blocks_view(blocks@);
    let mut cur = p1;
    let ghost mut acc: Seq<(SpecBlock, Seq<char>)> = seq![];
    assert(acc + items(s@, p1 as int).1 =~= items(s@, p1 as int).1);
    assert(blocks_view(blocks@) =~= pre + items_blocks(acc));
    loop
        invariant
            p1 <= cur <= s.len(),
            items(s@, p1 as int) == (items(s@, cur as int).0, acc + items(s@, cur as int).1),
            blocks_view(blocks@) == pre + items_blocks(acc),
        ensures
            block_with_trailing(s@, cur as int) is None,
        decreases s.len() - cur,
    {
        match block_with_trailing_at(s, cur) {
            None => {
                break ;
            },
            Some((e, b, t)) => {
                let ghost item = (b@, s@.subrange(t as int, e as int));
                let ghost prev = acc;
                proof {
                    acc = acc.push(item);
                    assert(acc.drop_last() =~= prev);
                    assert(prev + items(s@, cur as int).1 =~= acc + items(s@, e as int).1);
                }
                let ghost before = blocks_view(blocks@);
                blocks.push(b);
                assert(blocks_view(blocks@) =~= before + seq![item.0]);
                push_freeform_if_any(&mut blocks, s, t, e);
                assert(blocks_view(blocks@) =~= pre + items_blocks(acc));
                cur = e;
            },
        }
    }
    assert(acc =~= items(s@, p1 as int).1);
    let p3 = freeform_end_at(s, cur);
    assert(opt_freeform(s@, cur as int).1 =~= s@.subrange(cur as int, p3 as int));
    push_freeform_if_any(&mut blocks, s, cur, p3);
    (p3, blocks)
}

/// Reads the whole of `input` as a list of blocks, with no trimming; `None`
/// where the grammar does not reach the end of the input.
pub fn block_list(input: &str) -> (res: Option<Vec<Block>>)
    ensures
        match crate::grammar::block_list(input@) {
            None => res is None,
            Some(blocks) => res matches Some(v) && blocks_view(v@) == blocks,
        },
{
    let s = crate::text::chars_of(input);
    block_list_chars(&s)
}

/// Reads the whole of `input` with the rule `block_list_inner`: its blocks
/// where the rule reaches the end of the input, `None` where it stops short.
pub fn block_list_inner(input: &str) -> (res: Option<Vec<Block>>)
    ensures
        crate::grammar::block_list_inner(input@).0 == input@.len() ==> (res matches Some(v)
            && blocks_view(v@) == crate::grammar::block_list_inner(input@).1),
        crate::grammar::block_list_inner(input@).0 != input@.len() ==> res is None,
{
    let s = crate::text::chars_of(input);
    let (end, blocks) = block_list_inner_at(&s);
    if end == s.len() {
        Some(blocks)
    } else {
        None
    }
}

/// `block_list` on a text given as its characters.
fn block_list_chars(s: &Vec<char>) -> (res: Option<Vec<Block>>)
    ensures
        match crate::grammar::block_list(s@) {
            None => res is None,
            Some(blocks) => res matches Some(v) && blocks_view(v@) == blocks,
        },
{
    let (end, blocks) = block_list_inner_at(s);
    if end == s.len() {
        Some(blocks)
    } else {
        None
    }
}

/// Parses a document into its blocks: the markup is trimmed of surrounding
/// whitespace and read as a list of blocks; where the grammar cannot read all
/// of it, the whole trimmed text becomes one free-form block.
pub fn parse_blocks_internal(input: &str) -> (res: Vec<Block>)
    ensures
        blocks_view(res@) == parse_document(input@),
{
    let chars = crate::text::chars_of(input);
    let (from, to) = crate::text::trim_bounds(&chars);
    let trimmed = crate::text::chars_range(&chars, from, to);
    match block_list_chars(&trimmed) {
        Some(blocks) => blocks,
        None => {
            let mut blocks: Vec<Block> = Vec::new();
            blocks.push(Block::freeform(string_of(&trimmed, 0, trimmed.len())));
            assert(trimmed@.subrange(0, trimmed@.len() as int) =~= trimmed@);
            assert(blocks_view(blocks@) =~= seq![freeform(trimmed@)]);
            blocks
        },
    }
}

} // verus!
