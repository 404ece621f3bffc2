//! A parsed Markdown document and its direct HTML rendering.
use vstd::prelude::*;
use vstd::string::*;

use super::block::{Block, BlockModel, ContentModel, FenceType, FencedCode, IndentedCode, InlineContent, ATXHeading, blocks_view};
use crate::html::renderer::{
    block_html, escape_lines, escaped_lines, fenced_code_html, heading_html, heading_to_html,
    render_markdown_fenced_code,
};
use crate::text::{concat_lines, join_seq, join_strs, str_views, trim, trim_seq};

verus! {

#[derive(Debug, PartialEq, Clone)]
pub struct Document<'a> {
    children: Vec<Block<'a>>,
}

impl<'a> View for Document<'a> {
    type V = Seq<BlockModel>;

    /// The document's blocks, in order.
    closed spec fn view(&self) -> Seq<BlockModel> {
        blocks_view(self.children@)
    }
}

/// The raw lines joined with spaces; parsed content shows as a
/// placeholder.
pub open spec fn doc_content_html(c: ContentModel) -> Seq<char> {
    match c {
        ContentModel::Raw(lines) => join_seq(lines, " "@),
        ContentModel::Parsed(_) => "Inline text"@,
    }
}

/// Each line without leading and trailing whitespace.
pub open spec fn trimmed_lines(lines: Seq<Seq<char>>) -> Seq<Seq<char>> {
    Seq::new(lines.len(), |i: int| trim_seq(lines[i]))
}

/// The HTML of a block of a document whose inline content is still raw.
/// Containers give no HTML.
pub open spec fn doc_block_html(b: BlockModel) -> Seq<char> {
    match b {
        BlockModel::ThematicBreak => "<hr />\n"@,
        BlockModel::ATXHeading(c, l) => heading_html(l, doc_content_html(c)),
        BlockModel::IndentedCode(ContentModel::Raw(lines)) => "<pre><code>"@ + concat_lines(
            escape_lines(lines),
        ) + "</code></pre>\n"@,
        BlockModel::FencedCode(c, language, ident, _, _) => fenced_code_html(c, language, ident),
        BlockModel::Paragraph(ContentModel::Raw(lines)) => "<p>"@ + join_seq(
            trimmed_lines(lines),
            "\n"@,
        ) + "</p>\n"@,
        _ => Seq::empty(),
    }
}

/// The HTML of a document: that of its blocks, one after the other.
pub open spec fn doc_html(bs: Seq<BlockModel>) -> Seq<char>
    decreases bs.len(),
{
    if bs.len() == 0 {
        Seq::empty()
    } else {
        doc_html(bs.drop_last()) + doc_block_html(bs.last())
    }
}

/// A document block can be rendered: indented code and paragraphs still
/// hold raw lines.
pub open spec fn doc_block_ok(b: BlockModel) -> bool {
    match b {
        BlockModel::IndentedCode(c) => c is Raw,
        BlockModel::Paragraph(c) => c is Raw,
        _ => true,
    }
}

/// The HTML of two documents one after the other is that of the first,
/// then that of the second.
pub proof fn lemma_doc_html_concat(a: Seq<BlockModel>, b: Seq<BlockModel>)
    ensures
        doc_html(a + b) == doc_html(a) + doc_html(b),
    decreases b.len(),
{
    if b.len() == 0 {
        assert(a + b =~= a);
        assert(doc_html(a) + doc_html(b) =~= doc_html(a));
    } else {
        lemma_doc_html_concat(a, b.drop_last());
        assert((a + b).drop_last() =~= a + b.drop_last());
        assert((a + b).last() == b.last());
        assert(doc_html(a) + doc_html(b) =~= doc_html(a) + doc_html(b.drop_last()) + doc_block_html(
            b.last(),
        ));
    }
}

/// A fenced code block has the same HTML in a document as the renderer
/// gives it.
pub proof fn lemma_fenced_code_html_same(
    content: ContentModel,
    language: Seq<char>,
    ident: usize,
    fence_type: FenceType,
    fence_occ: usize,
)
    ensures
        doc_block_html(BlockModel::FencedCode(content, language, ident, fence_type, fence_occ))
            == block_html(BlockModel::FencedCode(content, language, ident, fence_type, fence_occ)),
{
}

impl<'a> Document<'a> {
    pub fn new() -> (d: Self)
        ensures
            d@ == Seq::<BlockModel>::empty(),
    {
        let children: Vec<Block<'a>> = Vec::new();
        assert(blocks_view(children@) =~= Seq::<BlockModel>::empty());
        Self { children }
    }

    /// Appends a block at the end of the document.
    pub fn push(&mut self, b: Block<'a>)
        ensures
            final(self)@ == old(self)@.push(b@),
    {
        self.children.push(b);
        assert(blocks_view(self.children@) =~= blocks_view(old(self).children@).push(b@));
    }

    /// The document's blocks.
    pub fn into_blocks(self) -> (v: Vec<Block<'a>>)
        ensures
            blocks_view(v@) == self@,
    {
        self.children
    }

    /// Renders the document's blocks one after the other.
    pub fn to_html(&self) -> (html: String)
        requires
            forall|i: int| 0 <= i < self@.len() ==> doc_block_ok(#[trigger] self@[i]),
        ensures
            html@ == doc_html(self@),
    {
        let mut html = String::new();
        let mut i: usize = 0;
        while i < self.children.len()
            invariant
                i <= self.children@.len(),
                forall|j: int| 0 <= j < self@.len() ==> doc_block_ok(#[trigger] self@[j]),
                html@ == doc_html(blocks_view(self.children@.take(i as int))),
            decreases self.children@.len() - i,
        {
            let ghost v = blocks_view(self.children@.take(i + 1));
            proof {
                assert(v.drop_last() =~= blocks_view(self.children@.take(i as int)));
                assert(v.last() == self.children@[i as int]@);
                assert(self@[i as int] == self.children@[i as int]@);
            }
            match &self.children[i] {
                Block::ThematicBreak => html.append("<hr />\n"),
                Block::ATXHeading(b) => {
                    let s = self.atx_to_html(b);
                    html.append(s.as_str());
                },
                Block::IndentedCode(ic) => {
                    let s = self.indented_code_to_html(ic);
                    html.append(s.as_str());
                },
                Block::FencedCode(fc) => {
                    let s = self.fenced_code_to_html(fc);
                    html.append(s.as_str());
                },
                Block::Paragraph(ic) => {
                    let s = self.paragraph_to_html(ic);
                    html.append(s.as_str());
                },
                Block::BlockQuote(_) => html.append(""),
                Block::List(_) => html.append(""),
                Block::ListItem(_) => html.append(""),
            }
            proof {
                reveal_strlit("");
            }
            i = i + 1;
        }
        assert(self.children@.take(i as int) =~= self.children@);
        html
    }

    fn atx_to_html(&self, b: &ATXHeading<'a>) -> (r: String)
        ensures
            r@ == doc_block_html(BlockModel::ATXHeading(b.content@, b.level)),
    {
        let content = self.inline_content_to_html(&b.content);
        heading_to_html(&b.level, content.as_str())
    }

    fn inline_content_to_html(&self, inline_content: &InlineContent) -> (r: String)
        ensures
            r@ == doc_content_html(inline_content@),
    {
        match inline_content {
            InlineContent::Raw(c) => join_strs(c, " "),
            InlineContent::Parsed(_) => String::from_str("Inline text"),
        }
    }

    fn fenced_code_to_html(&self, fenced_code: &FencedCode) -> (r: String)
        ensures
            r@ == fenced_code_html(
                fenced_code.content@,
                fenced_code.language@,
                fenced_code.ident,
            ),
    {
        render_markdown_fenced_code(fenced_code)
    }

    fn indented_code_to_html(&self, indented_code: &IndentedCode) -> (r: String)
        requires
            indented_code.content@ is Raw,
        ensures
            r@ == doc_block_html(BlockModel::IndentedCode(indented_code.content@)),
    {
        let lines = match &indented_code.content {
            InlineContent::Raw(lines) => lines,
            InlineContent::Parsed(_) => {
                proof {
                    assert(false);
                }
                return String::new();
            },
        };
        let body = escaped_lines(lines);
        let mut r = String::new();
        r.append("<pre><code>");
        r.append(body.as_str());
        r.append("</code></pre>\n");
        r
    }

    fn paragraph_to_html(&self, ic: &InlineContent) -> (r: String)
        requires
            ic@ is Raw,
        ensures
            r@ == doc_block_html(BlockModel::Paragraph(ic@)),
    {
        let lines = match ic {
            InlineContent::Raw(lines) => lines,
            InlineContent::Parsed(_) => {
                proof {
                    assert(false);
                }
                return String::new();
            },
        };
        let mut trimmed: Vec<&str> = Vec::new();
        let mut i: usize = 0;
        while i < lines.len()
            invariant
                i <= lines@.len(),
                str_views(trimmed@) =~= trimmed_lines(str_views(lines@)).take(i as int),
            decreases lines@.len() - i,
        {
            let t = trim(lines[i]);
            let ghost prev = trimmed@;
            trimmed.push(t);
            proof {
                assert(str_views(trimmed@) =~= str_views(prev).push(t@));
                assert(str_views(lines@)[i as int] == lines@[i as int]@);
                assert(trimmed_lines(str_views(lines@)).take(i + 1) =~= trimmed_lines(
                    str_views(lines@),
                ).take(i as int).push(trim_seq(lines@[i as int]@)));
            }
            i = i + 1;
        }
        let body = join_strs(&trimmed, "\n");
        proof {
            assert(trimmed_lines(str_views(lines@)).take(i as int) =~= trimmed_lines(
                str_views(lines@),
            ));
        }
        let mut r = String::new();
        r.append("<p>");
        r.append(body.as_str());
        r.append("</p>\n");
        r
    }
}

impl<'a> From<Vec<Block<'a>>> for Document<'a> {
    fn from(value: Vec<Block<'a>>) -> Self {
        Self { children: value }
    }
}

impl<'a> vstd::std_specs::convert::FromSpecImpl<Vec<Block<'a>>> for Document<'a> {
    open spec fn obeys_from_spec() -> bool {
        true
    }

    closed spec fn from_spec(v: Vec<Block<'a>>) -> Self {
        Document { children: v }
    }
}

/// A document made from blocks holds those blocks.
pub proof fn lemma_document_from<'a>(v: Vec<Block<'a>>)
    ensures
        <Document<'a> as vstd::std_specs::convert::FromSpec<Vec<Block<'a>>>>::from_spec(v)@
            == blocks_view(v@),
{
}

/// In a document, each raw line of a paragraph stands trimmed on a line of
/// its own: a paragraph of one line is `<p>`, the trimmed line and `</p>`
/// with a newline; one more line adds a newline and that line, trimmed,
/// before `</p>`.
pub proof fn lemma_doc_paragraph_lines(v: Seq<Seq<char>>, x: Seq<char>)
    ensures
        doc_block_html(BlockModel::Paragraph(ContentModel::Raw(seq![x]))) == "<p>"@ + trim_seq(x)
            + "</p>\n"@,
        v.len() > 0 ==> {
            let before = doc_block_html(BlockModel::Paragraph(ContentModel::Raw(v)));
            doc_block_html(BlockModel::Paragraph(ContentModel::Raw(v.push(x)))) == before.take(
                before.len() - 5,
            ) + "\n"@ + trim_seq(x) + "</p>\n"@
        },
{
    reveal_strlit("</p>\n");
    assert(trimmed_lines(seq![x]) =~= seq![trim_seq(x)]);
    if v.len() > 0 {
        let tv = trimmed_lines(v);
        let tx = trimmed_lines(v.push(x));
        assert(tx =~= tv.push(trim_seq(x)));
        assert(tx.drop_last() =~= tv);
        let before = doc_block_html(BlockModel::Paragraph(ContentModel::Raw(v)));
        assert(before.take(before.len() - 5) =~= "<p>"@ + join_seq(tv, "\n"@));
        assert(doc_block_html(BlockModel::Paragraph(ContentModel::Raw(v.push(x)))) =~= "<p>"@
            + join_seq(tv, "\n"@) + "\n"@ + trim_seq(x) + "</p>\n"@);
    }
}

/// In a document, the raw lines of a heading are joined with single
/// spaces: one line is the content itself, and one more line adds a space
/// and that line.
pub proof fn lemma_doc_heading_content(v: Seq<Seq<char>>, x: Seq<char>)
    ensures
        doc_content_html(ContentModel::Raw(seq![x])) == x,
        v.len() > 0 ==> doc_content_html(ContentModel::Raw(v.push(x))) == doc_content_html(
            ContentModel::Raw(v),
        ) + " "@ + x,
{
    if v.len() > 0 {
        assert(v.push(x).drop_last() =~= v);
    }
}

} // verus!
