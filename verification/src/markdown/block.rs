//! Block elements of a Markdown document.
use vstd::prelude::*;

use super::inline::{Inline, InlineModel, clone_inline, inlines_view};
use crate::text::str_views;

verus! {

#[derive(PartialEq, Debug)]
pub enum Block<'a> {
    // Leaf blocks
    ThematicBreak,
    ATXHeading(ATXHeading<'a>),
    IndentedCode(IndentedCode<'a>),
    FencedCode(FencedCode<'a>),
    Paragraph(InlineContent<'a>),
    // Container blocks
    BlockQuote(BlockQuote<'a>),
    List(List<'a>),
    ListItem(ListItem<'a>),
}

/// The text of a leaf block: either its raw lines, or the inline elements
/// parsed from them.
#[derive(PartialEq, Debug, Clone)]
pub enum InlineContent<'a> {
    Raw(Vec<&'a str>),
    Parsed(Vec<Inline<'a>>),
}

#[derive(PartialEq, Debug, Clone)]
pub struct ATXHeading<'a> {
    pub content: InlineContent<'a>,
    pub level: ATXHeadingLevel,
}

#[derive(PartialEq, Eq, Structural, Debug, Clone, Copy)]
pub enum ATXHeadingLevel {
    H1,
    H2,
    H3,
    H4,
    H5,
    H6,
}

/// The number of a heading level (1 for `H1` and so on).
pub open spec fn level_number(l: ATXHeadingLevel) -> u8 {
    match l {
        ATXHeadingLevel::H1 => 1,
        ATXHeadingLevel::H2 => 2,
        ATXHeadingLevel::H3 => 3,
        ATXHeadingLevel::H4 => 4,
        ATXHeadingLevel::H5 => 5,
        ATXHeadingLevel::H6 => 6,
    }
}

/// The heading level numbered `value`, or an error outside `1..=6`.
pub open spec fn level_from_number(value: u8) -> Result<ATXHeadingLevel, &'static str> {
    match value {
        1 => Ok(ATXHeadingLevel::H1),
        2 => Ok(ATXHeadingLevel::H2),
        3 => Ok(ATXHeadingLevel::H3),
        4 => Ok(ATXHeadingLevel::H4),
        5 => Ok(ATXHeadingLevel::H5),
        6 => Ok(ATXHeadingLevel::H6),
        _ => Err("value must be in range 1..=6"),
    }
}

impl TryFrom<u8> for ATXHeadingLevel {
    type Error = &'static str;

    fn try_from(value: u8) -> (r: Result<Self, Self::Error>) {
        match value {
            2 => Ok(ATXHeadingLevel::H2),
            1 => Ok(ATXHeadingLevel::H1),
            3 => Ok(ATXHeadingLevel::H3),
            4 => Ok(ATXHeadingLevel::H4),
            5 => Ok(ATXHeadingLevel::H5),
            6 => Ok(ATXHeadingLevel::H6),
            _ => Err("value must be in range 1..=6"),
        }
    }
}

impl vstd::std_specs::convert::TryFromSpecImpl<u8> for ATXHeadingLevel {
    open spec fn obeys_try_from_spec() -> bool {
        true
    }

    open spec fn try_from_spec(v: u8) -> Result<Self, &'static str> {
        level_from_number(v)
    }
}

/// A level maps back to its number.
pub proof fn lemma_level_number(value: u8)
    ensures
        level_from_number(value) matches Ok(l) ==> level_number(l) == value,
        level_from_number(value) is Ok <==> 1 <= value <= 6,
{
}

#[derive(PartialEq, Debug, Clone)]
pub struct BlockQuote<'a> {
    pub children: Vec<Block<'a>>,
}

impl<'a> BlockQuote<'a> {
    /// Appends a child block.
    pub fn push(&mut self, b: Block<'a>)
        ensures
            final(self).children@ == old(self).children@.push(b),
    {
        self.children.push(b);
    }
}

#[derive(PartialEq, Eq, Structural, Debug, Clone, Copy)]
pub enum ListType {
    OrderedDot(u32),
    OrdererParentheses(u32),
    UnorderedMinus,
    UnorderedPlus,
    UnorderedAsterisk,
}

/// Two list types are of the same kind, whatever their start numbers.
pub open spec fn same_list_kind(a: ListType, b: ListType) -> bool {
    match (a, b) {
        (ListType::OrderedDot(_), ListType::OrderedDot(_)) => true,
        (ListType::OrdererParentheses(_), ListType::OrdererParentheses(_)) => true,
        (ListType::UnorderedMinus, ListType::UnorderedMinus) => true,
        (ListType::UnorderedPlus, ListType::UnorderedPlus) => true,
        (ListType::UnorderedAsterisk, ListType::UnorderedAsterisk) => true,
        _ => false,
    }
}

impl ListType {
    /// Whether both list types are the same variant, ignoring start numbers.
    pub fn same_variant(&self, other: &ListType) -> (r: bool)
        ensures
            r == same_list_kind(*self, *other),
    {
        match (self, other) {
            (ListType::OrderedDot(_), ListType::OrderedDot(_)) => true,
            (ListType::OrdererParentheses(_), ListType::OrdererParentheses(_)) => true,
            (ListType::UnorderedMinus, ListType::UnorderedMinus) => true,
            (ListType::UnorderedPlus, ListType::UnorderedPlus) => true,
            (ListType::UnorderedAsterisk, ListType::UnorderedAsterisk) => true,
            _ => false,
        }
    }
}

#[derive(PartialEq, Debug, Clone)]
pub struct List<'a> {
    pub items: Vec<Block<'a>>,
    pub list_type: ListType,
    pub tight: bool,
}

#[derive(PartialEq, Debug, Clone)]
pub struct ListItem<'a> {
    pub children: Vec<Block<'a>>,
    pub padding: usize,
}

#[derive(PartialEq, Eq, Structural, Debug, Clone, Copy)]
pub enum FenceType {
    Backtick,
    Tilda,
}

#[derive(PartialEq, Debug, Clone)]
pub struct FencedCode<'a> {
    pub content: InlineContent<'a>,
    pub language: &'a str,
    pub ident: usize,
    pub fence_type: FenceType,
    pub fence_occ: usize,
}

#[derive(PartialEq, Debug, Clone)]
pub struct IndentedCode<'a> {
    pub content: InlineContent<'a>,
}

/// The value of an inline content: raw lines, or parsed inline elements.
pub enum ContentModel {
    Raw(Seq<Seq<char>>),
    Parsed(Seq<InlineModel>),
}

/// The mathematical value of a block, its texts taken as character
/// sequences.
pub enum BlockModel {
    ThematicBreak,
    ATXHeading(ContentModel, ATXHeadingLevel),
    IndentedCode(ContentModel),
    FencedCode(ContentModel, Seq<char>, usize, FenceType, usize),
    Paragraph(ContentModel),
    BlockQuote(Seq<BlockModel>),
    List(Seq<BlockModel>, ListType, bool),
    ListItem(Seq<BlockModel>, usize),
}

impl<'a> View for InlineContent<'a> {
    type V = ContentModel;

    open spec fn view(&self) -> ContentModel {
        match self {
            InlineContent::Raw(lines) => ContentModel::Raw(str_views(lines@)),
            InlineContent::Parsed(inlines) => ContentModel::Parsed(inlines_view(inlines@)),
        }
    }
}

/// The values of a sequence of blocks.
pub open spec fn blocks_view<'a>(v: Seq<Block<'a>>) -> Seq<BlockModel>
    decreases v,
{
    Seq::new(
        v.len(),
        |i: int|
            if 0 <= i < v.len() {
                block_view(v[i])
            } else {
                BlockModel::ThematicBreak
            },
    )
}

/// The value of a block.
pub open spec fn block_view<'a>(b: Block<'a>) -> BlockModel
    decreases b,
{
    match b {
        Block::ThematicBreak => BlockModel::ThematicBreak,
        Block::ATXHeading(h) => BlockModel::ATXHeading(h.content@, h.level),
        Block::IndentedCode(c) => BlockModel::IndentedCode(c.content@),
        Block::FencedCode(f) => BlockModel::FencedCode(
            f.content@,
            f.language@,
            f.ident,
            f.fence_type,
            f.fence_occ,
        ),
        Block::Paragraph(c) => BlockModel::Paragraph(c@),
        Block::BlockQuote(q) => BlockModel::BlockQuote(blocks_view(q.children@)),
        Block::List(l) => BlockModel::List(blocks_view(l.items@), l.list_type, l.tight),
        Block::ListItem(li) => BlockModel::ListItem(blocks_view(li.children@), li.padding),
    }
}

impl<'a> View for Block<'a> {
    type V = BlockModel;

    open spec fn view(&self) -> BlockModel {
        block_view(*self)
    }
}

impl<'a> Clone for Block<'a> {
    fn clone(&self) -> Self {
        clone_block(self)
    }
}

/// A copy of a block, nested blocks included.
pub fn clone_block<'a>(b: &Block<'a>) -> (r: Block<'a>)
    ensures
        r@ == b@,
    decreases b, 0nat,
{
    match b {
        Block::ThematicBreak => Block::ThematicBreak,
        Block::ATXHeading(h) => Block::ATXHeading(
            ATXHeading { content: clone_content(&h.content), level: h.level },
        ),
        Block::IndentedCode(c) => Block::IndentedCode(
            IndentedCode { content: clone_content(&c.content) },
        ),
        Block::FencedCode(f) => Block::FencedCode(
            FencedCode {
                content: clone_content(&f.content),
                language: f.language,
                ident: f.ident,
                fence_type: f.fence_type,
                fence_occ: f.fence_occ,
            },
        ),
        Block::Paragraph(c) => Block::Paragraph(clone_content(c)),
        Block::BlockQuote(q) => {
            proof {
                assert(decreases_to!(*b => b->BlockQuote_0));
                assert(decreases_to!(b->BlockQuote_0 => b->BlockQuote_0.children));
            }
            Block::BlockQuote(BlockQuote { children: clone_blocks(&q.children) })
        },
        Block::List(l) => {
            proof {
                assert(decreases_to!(*b => b->List_0));
                assert(decreases_to!(b->List_0 => b->List_0.items));
            }
            Block::List(
                List { items: clone_blocks(&l.items), list_type: l.list_type, tight: l.tight },
            )
        },
        Block::ListItem(li) => {
            proof {
                assert(decreases_to!(*b => b->ListItem_0));
                assert(decreases_to!(b->ListItem_0 => b->ListItem_0.children));
            }
            Block::ListItem(
                ListItem { children: clone_blocks(&li.children), padding: li.padding },
            )
        },
    }
}

/// A copy of each block.
pub fn clone_blocks<'a>(v: &Vec<Block<'a>>) -> (r: Vec<Block<'a>>)
    ensures
        blocks_view(r@) == blocks_view(v@),
    decreases v, 1nat,
{
    let mut r: Vec<Block<'a>> = Vec::new();
    let mut i: usize = 0;
    while i < v.len()
        invariant
            i <= v@.len(),
            blocks_view(r@) == blocks_view(v@.take(i as int)),
        decreases v@.len() - i,
    {
        proof {
            assert(decreases_to!(v => v@));
            assert(decreases_to!(v@ => v@[i as int]));
        }
        let c = clone_block(&v[i]);
        let ghost prev = r@;
        r.push(c);
        proof {
            lemma_blocks_view_push(prev, c);
            assert(blocks_view(v@.take(i + 1)) =~= blocks_view(v@.take(i as int)).push(v@[i as int]@));
        }
        i = i + 1;
    }
    assert(v@.take(i as int) =~= v@);
    r
}

/// A copy of an inline content.
fn clone_content<'a>(c: &InlineContent<'a>) -> (r: InlineContent<'a>)
    ensures
        r@ == c@,
{
    match c {
        InlineContent::Raw(lines) => {
            let mut v: Vec<&'a str> = Vec::new();
            let mut i: usize = 0;
            while i < lines.len()
                invariant
                    i <= lines@.len(),
                    v@ == lines@.take(i as int),
                decreases lines@.len() - i,
            {
                v.push(lines[i]);
                proof {
                    assert(lines@.take(i + 1) =~= lines@.take(i as int).push(lines@[i as int]));
                }
                i = i + 1;
            }
            assert(lines@.take(i as int) =~= lines@);
            InlineContent::Raw(v)
        },
        InlineContent::Parsed(inlines) => {
            let mut v: Vec<Inline<'a>> = Vec::new();
            let mut i: usize = 0;
            while i < inlines.len()
                invariant
                    i <= inlines@.len(),
                    inlines_view(v@) == inlines_view(inlines@.take(i as int)),
                decreases inlines@.len() - i,
            {
                let x = clone_inline(&inlines[i]);
                let ghost prev = v@;
                v.push(x);
                proof {
                    assert(inlines_view(v@) =~= inlines_view(prev).push(x@));
                    assert(inlines_view(inlines@.take(i + 1)) =~= inlines_view(
                        inlines@.take(i as int),
                    ).push(inlines@[i as int]@));
                }
                i = i + 1;
            }
            assert(inlines@.take(i as int) =~= inlines@);
            InlineContent::Parsed(v)
        },
    }
}

/// The values of blocks with one more at the end.
pub proof fn lemma_blocks_view_push<'a>(s: Seq<Block<'a>>, b: Block<'a>)
    ensures
        blocks_view(s.push(b)) == blocks_view(s).push(b@),
{
    assert(blocks_view(s.push(b)) =~= blocks_view(s).push(b@));
}

/// The values of two sequences of blocks, one after the other.
pub proof fn lemma_blocks_view_add<'a>(a: Seq<Block<'a>>, b: Seq<Block<'a>>)
    ensures
        blocks_view(a + b) == blocks_view(a) + blocks_view(b),
{
    assert(blocks_view(a + b) =~= blocks_view(a) + blocks_view(b));
}

/// The values of blocks without their last one.
pub proof fn lemma_blocks_view_drop_last<'a>(s: Seq<Block<'a>>)
    requires
        s.len() > 0,
    ensures
        blocks_view(s.drop_last()) == blocks_view(s).drop_last(),
        blocks_view(s).last() == s.last()@,
{
    assert(blocks_view(s.drop_last()) =~= blocks_view(s).drop_last());
}

/// Being of the same list kind is an equivalence: reflexive, symmetric
/// and transitive.
pub proof fn lemma_same_list_kind_equivalence(a: ListType, b: ListType, c: ListType)
    ensures
        same_list_kind(a, a),
        same_list_kind(a, b) ==> same_list_kind(b, a),
        same_list_kind(a, b) && same_list_kind(b, c) ==> same_list_kind(a, c),
{
}

} // verus!
