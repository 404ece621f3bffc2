//! Parsing of the inline content of blocks.
use vstd::prelude::*;

use crate::html::renderer::{all_renderable, lemma_all_renderable, renderable};
use crate::markdown::block::{Block, BlockModel, ContentModel, InlineContent, blocks_view};
use crate::markdown::inline::{Inline, InlineModel, inlines_view};
use crate::text::str_views;

verus! {

/// Raw lines become text elements, one per line; parsed content stays.
pub open spec fn content_parsed(c: ContentModel) -> ContentModel {
    match c {
        ContentModel::Raw(lines) => ContentModel::Parsed(
            Seq::new(lines.len(), |i: int| InlineModel::TextualContent(lines[i])),
        ),
        ContentModel::Parsed(inlines) => ContentModel::Parsed(inlines),
    }
}

/// A block with the content of it and of every block nested in it parsed.
pub open spec fn block_inline_parsed(b: BlockModel) -> BlockModel
    decreases b,
{
    match b {
        BlockModel::ThematicBreak => BlockModel::ThematicBreak,
        BlockModel::ATXHeading(c, l) => BlockModel::ATXHeading(content_parsed(c), l),
        BlockModel::IndentedCode(c) => BlockModel::IndentedCode(content_parsed(c)),
        BlockModel::FencedCode(c, language, ident, ft, occ) => BlockModel::FencedCode(
            content_parsed(c),
            language,
            ident,
            ft,
            occ,
        ),
        BlockModel::Paragraph(c) => BlockModel::Paragraph(content_parsed(c)),
        BlockModel::BlockQuote(children) => BlockModel::BlockQuote(blocks_inline_parsed(children)),
        BlockModel::List(items, t, tight) => BlockModel::List(blocks_inline_parsed(items), t, tight),
        BlockModel::ListItem(children, padding) => BlockModel::ListItem(
            blocks_inline_parsed(children),
            padding,
        ),
    }
}

/// Each block with its inline content parsed.
pub open spec fn blocks_inline_parsed(bs: Seq<BlockModel>) -> Seq<BlockModel>
    decreases bs,
{
    if bs.len() == 0 {
        Seq::empty()
    } else {
        blocks_inline_parsed(bs.subrange(0, bs.len() - 1)).push(
            block_inline_parsed(bs[bs.len() - 1]),
        )
    }
}

/// `blocks_inline_parsed` works block by block.
pub proof fn lemma_blocks_inline_parsed(bs: Seq<BlockModel>)
    ensures
        blocks_inline_parsed(bs).len() == bs.len(),
        forall|i: int|
            0 <= i < bs.len() ==> #[trigger] blocks_inline_parsed(bs)[i] == block_inline_parsed(
                bs[i],
            ),
    decreases bs.len(),
{
    if bs.len() > 0 {
        let t = bs.subrange(0, bs.len() - 1);
        lemma_blocks_inline_parsed(t);
        assert forall|i: int| 0 <= i < bs.len() implies #[trigger] blocks_inline_parsed(bs)[i]
            == block_inline_parsed(bs[i]) by {
            if i < bs.len() - 1 {
                assert(t[i] == bs[i]);
            }
        }
    }
}

/// After inline parsing, a block can be rendered.
pub proof fn lemma_inline_parsed_renderable(b: BlockModel)
    ensures
        renderable(block_inline_parsed(b)),
    decreases b,
{
    match b {
        BlockModel::BlockQuote(children) => {
            lemma_blocks_inline_parsed_renderable(children);
        },
        _ => {},
    }
}

/// After inline parsing, blocks can be rendered.
pub proof fn lemma_blocks_inline_parsed_renderable(bs: Seq<BlockModel>)
    ensures
        all_renderable(blocks_inline_parsed(bs)),
    decreases bs,
{
    lemma_blocks_inline_parsed(bs);
    let p = blocks_inline_parsed(bs);
    assert forall|i: int| 0 <= i < p.len() implies #[trigger] renderable(p[i]) by {
        assert(decreases_to!(bs => bs[i]));
        lemma_inline_parsed_renderable(bs[i]);
    }
    lemma_all_renderable(p);
}

/// Parses the inline content of the blocks and of the blocks nested in
/// them.
pub fn parse_inline(doc: &mut [Block])
    ensures
        blocks_view(final(doc)@) == blocks_inline_parsed(blocks_view(old(doc)@)),
{
    let n = doc.len();
    let mut i: usize = 0;
    while i < n
        invariant
            n == old(doc)@.len(),
            doc@.len() == n,
            i <= n,
            forall|j: int| i <= j < n ==> #[trigger] doc@[j] == old(doc)@[j],
            forall|j: int|
                0 <= j < i ==> #[trigger] doc@[j]@ == block_inline_parsed(old(doc)@[j]@),
        decreases n - i,
    {
        let mut tmp = Block::ThematicBreak;
        core::mem::swap(&mut doc[i], &mut tmp);
        let nb = parse_inline_block(tmp);
        doc[i] = nb;
        i = i + 1;
    }
    proof {
        let bo = blocks_view(old(doc)@);
        lemma_blocks_inline_parsed(bo);
        assert forall|j: int| 0 <= j < n implies #[trigger] blocks_view(doc@)[j]
            == blocks_inline_parsed(bo)[j] by {
            assert(bo[j] == old(doc)@[j]@);
            assert(doc@[j]@ == block_inline_parsed(old(doc)@[j]@));
        }
        assert(blocks_view(doc@) =~= blocks_inline_parsed(bo));
    }
}

fn parse_inline_blocks<'a>(blocks: Vec<Block<'a>>) -> (r: Vec<Block<'a>>)
    ensures
        blocks_view(r@) == blocks_inline_parsed(blocks_view(blocks@)),
    decreases blocks@, 1nat,
{
    let ghost orig = blocks@;
    let mut v = blocks;
    let n = v.len();
    let mut i: usize = 0;
    while i < n
        invariant
            n == orig.len(),
            orig == blocks@,
            v@.len() == n,
            i <= n,
            forall|j: int| i <= j < n ==> #[trigger] v@[j] == orig[j],
            forall|j: int| 0 <= j < i ==> #[trigger] v@[j]@ == block_inline_parsed(orig[j]@),
        decreases n - i,
    {
        let mut tmp = Block::ThematicBreak;
        core::mem::swap(&mut v[i], &mut tmp);
        proof {
            assert(tmp == orig[i as int]);
            assert(decreases_to!(orig => orig[i as int]));
        }
        let nb = parse_inline_block(tmp);
        v.set(i, nb);
        i = i + 1;
    }
    proof {
        let bo = blocks_view(orig);
        lemma_blocks_inline_parsed(bo);
        assert forall|j: int| 0 <= j < n implies #[trigger] blocks_view(v@)[j]
            == blocks_inline_parsed(bo)[j] by {
            assert(bo[j] == orig[j]@);
            assert(v@[j]@ == block_inline_parsed(orig[j]@));
        }
        assert(blocks_view(v@) =~= blocks_inline_parsed(bo));
    }
    v
}

fn parse_inline_block<'a>(b: Block<'a>) -> (r: Block<'a>)
    ensures
        r@ == block_inline_parsed(b@),
    decreases b, 2nat,
{
    match b {
        Block::ThematicBreak => Block::ThematicBreak,
        Block::ATXHeading(mut ah) => {
            parse_inline_content(&mut ah.content);
            Block::ATXHeading(ah)
        },
        Block::Paragraph(mut ic) => {
            parse_inline_content(&mut ic);
            Block::Paragraph(ic)
        },
        Block::IndentedCode(mut ic) => {
            parse_inline_content(&mut ic.content);
            Block::IndentedCode(ic)
        },
        Block::FencedCode(mut fc) => {
            parse_inline_content(&mut fc.content);
            Block::FencedCode(fc)
        },
        Block::BlockQuote(mut bq) => {
            let children = parse_inline_blocks(bq.children);
            bq.children = children;
            Block::BlockQuote(bq)
        },
        Block::List(mut list) => {
            let items = parse_inline_blocks(list.items);
            list.items = items;
            Block::List(list)
        },
        Block::ListItem(mut li) => {
            let children = parse_inline_blocks(li.children);
            li.children = children;
            Block::ListItem(li)
        },
    }
}

/// Turns raw lines into text elements, one per line.
pub fn parse_inline_content(ic: &mut InlineContent)
    ensures
        final(ic)@ == content_parsed(old(ic)@),
{
    let mut processed: Vec<Inline> = Vec::new();
    match ic {
        InlineContent::Raw(lines) => {
            let mut i: usize = 0;
            while i < lines.len()
                invariant
                    i <= lines@.len(),
                    inlines_view(processed@) =~= Seq::new(
                        i as nat,
                        |j: int| InlineModel::TextualContent(lines@[j]@),
                    ),
                decreases lines@.len() - i,
            {
                let ghost prev = processed@;
                processed.push(Inline::TextualContent(lines[i]));
                proof {
                    assert(inlines_view(processed@) =~= inlines_view(prev).push(
                        InlineModel::TextualContent(lines@[i as int]@),
                    ));
                }
                i = i + 1;
            }
            proof {
                assert(inlines_view(processed@) =~= Seq::new(
                    str_views(lines@).len(),
                    |j: int| InlineModel::TextualContent(str_views(lines@)[j]),
                ));
            }
        },
        InlineContent::Parsed(_) => {
            return ;
        },
    }
    proof {
        assert(old(ic)@ is Raw);
    }
    *ic = InlineContent::Parsed(processed);
}

proof fn lemma_content_parsed_idempotent(c: ContentModel)
    ensures
        content_parsed(content_parsed(c)) == content_parsed(c),
{
}

/// Parsing the inline content of a block a second time changes nothing.
pub proof fn lemma_block_inline_parsed_idempotent(b: BlockModel)
    ensures
        block_inline_parsed(block_inline_parsed(b)) == block_inline_parsed(b),
    decreases b,
{
    match b {
        BlockModel::ATXHeading(c, _) => lemma_content_parsed_idempotent(c),
        BlockModel::IndentedCode(c) => lemma_content_parsed_idempotent(c),
        BlockModel::FencedCode(c, _, _, _, _) => lemma_content_parsed_idempotent(c),
        BlockModel::Paragraph(c) => lemma_content_parsed_idempotent(c),
        BlockModel::BlockQuote(children) => lemma_blocks_inline_parsed_idempotent(children),
        BlockModel::List(items, _, _) => lemma_blocks_inline_parsed_idempotent(items),
        BlockModel::ListItem(children, _) => lemma_blocks_inline_parsed_idempotent(children),
        _ => {},
    }
}

/// Parsing the inline content of blocks a second time changes nothing.
pub proof fn lemma_blocks_inline_parsed_idempotent(bs: Seq<BlockModel>)
    ensures
        blocks_inline_parsed(blocks_inline_parsed(bs)) == blocks_inline_parsed(bs),
    decreases bs,
{
    let p = blocks_inline_parsed(bs);
    lemma_blocks_inline_parsed(bs);
    lemma_blocks_inline_parsed(p);
    assert forall|i: int| 0 <= i < bs.len() implies #[trigger] blocks_inline_parsed(p)[i] == p[i] by {
        assert(decreases_to!(bs => bs[i]));
        lemma_block_inline_parsed_idempotent(bs[i]);
    }
    assert(blocks_inline_parsed(p) =~= p);
}

} // verus!
