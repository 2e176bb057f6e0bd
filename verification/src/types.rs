//! Blocks, as parsing produces them.

use vstd::prelude::*;

use crate::json::{empty_object, new_empty_object};

verus! {

/// A block: a named, attributed span of the markup, or a span of free-form HTML.
#[derive(Debug, PartialEq)]
pub struct Block {
    /// The namespaced name (`namespace/name`), or `None` for free-form HTML.
    pub block_name: Option<String>,
    /// The JSON attributes: an empty object where the opener gives none, null
    /// where the text it gives is not JSON.
    pub attrs: serde_json::Value,
    /// The blocks nested in this one, in order.
    pub inner_blocks: Vec<Block>,
    /// The HTML of the block, inner blocks left out.
    pub inner_html: String,
    /// The content in order: each run of HTML, and `None` where an inner block
    /// stands.
    pub inner_content: Vec<Option<String>>,
}

/// The mathematical value of a block.
pub struct SpecBlock {
    pub name: Option<Seq<char>>,
    pub attrs: serde_json::Value,
    pub inner_blocks: Seq<SpecBlock>,
    pub inner_html: Seq<char>,
    pub inner_content: Seq<Option<Seq<char>>>,
}

/// The characters of an optional string.
pub open spec fn opt_str_view(o: Option<String>) -> Option<Seq<char>> {
    match o {
        Some(s) => Some(s@),
        None => None,
    }
}

impl View for Block {
    type V = SpecBlock;

    open spec fn view(&self) -> SpecBlock
        decreases self,
    {
        SpecBlock {
            name: opt_str_view(self.block_name),
            attrs: self.attrs,
            inner_blocks: Seq::new(
                self.inner_blocks@.len(),
                |i: int| {
                    if 0 <= i < self.inner_blocks@.len() {
                        self.inner_blocks@[i].view()
                    } else {
                        arbitrary()
                    }
                },
            ),
            inner_html: self.inner_html@,
            inner_content: self.inner_content@.map_values(|o: Option<String>| opt_str_view(o)),
        }
    }
}

/// The view of a block's inner blocks is the list of their views.
pub proof fn lemma_inner_blocks_view(b: Block)
    ensures
        b@.inner_blocks.len() == b.inner_blocks@.len(),
        forall|i: int|
            0 <= i < b.inner_blocks@.len() ==> #[trigger] b@.inner_blocks[i]
                == b.inner_blocks@[i]@,
{
    reveal_with_fuel(<Block as View>::view, 2);
    assert(b.view().inner_html == b.inner_html@);
}

/// The mathematical values of a list of blocks.
pub open spec fn blocks_view(blocks: Seq<Block>) -> Seq<SpecBlock> {
    blocks.map_values(|b: Block| b@)
}

/// A free-form block: HTML outside any block comment. It has no name, empty
/// attributes and no inner blocks; its content is its HTML.
pub open spec fn freeform(html: Seq<char>) -> SpecBlock {
    SpecBlock {
        name: None,
        attrs: empty_object(),
        inner_blocks: seq![],
        inner_html: html,
        inner_content: seq![Some(html)],
    }
}

/// `core/freeform`, the name free-form blocks carry where a name must be given.
pub open spec fn freeform_name() -> Seq<char> {
    seq!['c', 'o', 'r', 'e', '/', 'f', 'r', 'e', 'e', 'f', 'o', 'r', 'm']
}

impl Block {
    /// The block's name, with `core/freeform` for a free-form block.
    pub fn name_or_freeform(&self) -> (res: String)
        ensures
            res@ == match self@.name {
                Some(n) => n,
                None => freeform_name(),
            },
    {
        match &self.block_name {
            Some(n) => n.clone(),
            None => {
                let mut name = String::new();
                name.push('c');
                name.push('o');
                name.push('r');
                name.push('e');
                name.push('/');
                name.push('f');
                name.push('r');
                name.push('e');
                name.push('e');
                name.push('f');
                name.push('o');
                name.push('r');
                name.push('m');
                assert(name@ =~= freeform_name());
                name
            },
        }
    }

    /// The free-form block holding `html`.
    pub fn freeform(html: String) -> (res: Block)
        ensures
            res@ == freeform(html@),
    {
        let content = html.clone();
        let mut inner_content: Vec<Option<String>> = Vec::new();
        inner_content.push(Some(content));
        let res = Block {
            block_name: None,
            attrs: new_empty_object(),
            inner_blocks: Vec::new(),
            inner_html: html,
            inner_content,
        };
        proof {
            assert(res@.inner_blocks =~= seq![]);
            assert(res@.inner_content =~= seq![Some(html@)]);
        }
        res
    }
}

} // verus!
