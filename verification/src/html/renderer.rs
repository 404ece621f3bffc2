//! HTML rendering of blocks whose inline content has been parsed.
use vstd::prelude::*;
use vstd::string::*;

use crate::markdown::block::{
    ATXHeading, ATXHeadingLevel, Block, BlockModel, BlockQuote, ContentModel, FencedCode,
    IndentedCode, InlineContent, blocks_view, level_number,
};
use crate::markdown::inline::{EmphasisType, Inline, InlineModel, inlines_view};
use crate::markdown::parser::utils::{digit_value, is_ascii_digit};
use crate::text::{
    CharClass, chars_vec, concat_lines, join_seq, lead_count, lemma_lead_len, skip_chars,
    str_views, strip_spaces_upto,
};

verus! {

/// The tag name of a heading level.
pub open spec fn heading_tag(l: ATXHeadingLevel) -> Seq<char> {
    match l {
        ATXHeadingLevel::H1 => "h1"@,
        ATXHeadingLevel::H2 => "h2"@,
        ATXHeadingLevel::H3 => "h3"@,
        ATXHeadingLevel::H4 => "h4"@,
        ATXHeadingLevel::H5 => "h5"@,
        ATXHeadingLevel::H6 => "h6"@,
    }
}

/// `<tag>content</tag>` and a newline.
pub open spec fn heading_html(l: ATXHeadingLevel, content: Seq<char>) -> Seq<char> {
    "<"@ + heading_tag(l) + ">"@ + content + "</"@ + heading_tag(l) + ">\n"@
}

/// The class attribute naming the language of fenced code, if it has one.
pub open spec fn language_attr(language: Seq<char>) -> Seq<char> {
    if language.len() == 0 {
        Seq::empty()
    } else {
        " class=\"language-"@ + language + "\""@
    }
}

/// A character as HTML text: `<`, `>`, `&` and `"` become character
/// references, any other character stands for itself.
pub open spec fn escape_char(c: char) -> Seq<char> {
    if c == '<' {
        "&lt;"@
    } else if c == '>' {
        "&gt;"@
    } else if c == '&' {
        "&amp;"@
    } else if c == '"' {
        "&quot;"@
    } else {
        seq![c]
    }
}

/// A text as HTML text: each character escaped.
pub open spec fn html_escape(s: Seq<char>) -> Seq<char>
    decreases s.len(),
{
    if s.len() == 0 {
        Seq::empty()
    } else {
        html_escape(s.drop_last()) + escape_char(s.last())
    }
}

/// Each line escaped as HTML text.
pub open spec fn escape_lines(lines: Seq<Seq<char>>) -> Seq<Seq<char>> {
    Seq::new(lines.len(), |i: int| html_escape(lines[i]))
}

/// The body of fenced code: each raw line without up to `ident` leading
/// spaces, escaped, followed by a newline.
pub open spec fn fenced_body(content: ContentModel, ident: usize) -> Seq<char> {
    match content {
        ContentModel::Raw(lines) => concat_lines(
            Seq::new(lines.len(), |i: int| html_escape(strip_spaces_upto(lines[i], ident))),
        ),
        ContentModel::Parsed(_) => "Inline text"@,
    }
}

pub open spec fn fenced_code_html(content: ContentModel, language: Seq<char>, ident: usize) -> Seq<
    char,
> {
    "<pre><code"@ + language_attr(language) + ">"@ + fenced_body(content, ident)
        + "</code></pre>\n"@
}

/// The title attribute of a link or image, if it has one.
pub open spec fn title_attr(title: Option<Seq<char>>) -> Seq<char> {
    match title {
        Some(t) => " title=\""@ + t + "\""@,
        None => Seq::empty(),
    }
}

/// The HTML of an inline element.
pub open spec fn inline_html(i: InlineModel) -> Seq<char> {
    match i {
        InlineModel::HardLineBreak => "<br />"@,
        InlineModel::Autolink(link) => "<a href=\""@ + link + "\">"@ + link + "</a>"@,
        InlineModel::CodeSpan(span) => "<code>"@ + span + "</code>"@,
        InlineModel::Emphasis(text, EmphasisType::Common) => "<em>"@ + text + "</em>"@,
        InlineModel::Emphasis(text, EmphasisType::Strong) => "<strong>"@ + text + "</strong>"@,
        InlineModel::HTML(html) => html,
        InlineModel::Image(src, alt, title) => "<img src=\""@ + src + "\" alt=\""@ + alt + "\""@
            + title_attr(title) + " />"@,
        InlineModel::Link(text, url, title) => "<a href=\""@ + url + "\""@ + title_attr(title)
            + ">"@ + text + "</a>"@,
        InlineModel::TextualContent(text) => text,
    }
}

/// The HTML of each inline element.
pub open spec fn inlines_html(v: Seq<InlineModel>) -> Seq<Seq<char>> {
    Seq::new(v.len(), |i: int| inline_html(v[i]))
}

/// The HTML of an inline element inside code: text is escaped.
pub open spec fn code_inline_html(i: InlineModel) -> Seq<char> {
    match i {
        InlineModel::TextualContent(text) => html_escape(text),
        _ => inline_html(i),
    }
}

/// The HTML of each inline element of a code block.
pub open spec fn code_inlines_html(v: Seq<InlineModel>) -> Seq<Seq<char>> {
    Seq::new(v.len(), |i: int| code_inline_html(v[i]))
}

/// A block can be rendered: the content of headings, indented code and
/// paragraphs has been parsed into inline elements, in every nested block.
pub open spec fn renderable(b: BlockModel) -> bool
    decreases b,
{
    match b {
        BlockModel::ATXHeading(c, _) => c is Parsed,
        BlockModel::IndentedCode(c) => c is Parsed,
        BlockModel::Paragraph(c) => c is Parsed,
        BlockModel::BlockQuote(children) => all_renderable(children),
        _ => true,
    }
}

/// Every one of the blocks can be rendered.
pub open spec fn all_renderable(bs: Seq<BlockModel>) -> bool
    decreases bs,
{
    if bs.len() == 0 {
        true
    } else {
        all_renderable(bs.subrange(0, bs.len() - 1)) && renderable(bs[bs.len() - 1])
    }
}

/// `all_renderable` holds of a sequence exactly when each block in it can
/// be rendered.
pub proof fn lemma_all_renderable(bs: Seq<BlockModel>)
    ensures
        all_renderable(bs) <==> forall|i: int| 0 <= i < bs.len() ==> #[trigger] renderable(bs[i]),
    decreases bs.len(),
{
    if bs.len() > 0 {
        let t = bs.subrange(0, bs.len() - 1);
        lemma_all_renderable(t);
        if all_renderable(bs) {
            assert forall|i: int| 0 <= i < bs.len() implies #[trigger] renderable(bs[i]) by {
                if i < bs.len() - 1 {
                    assert(t[i] == bs[i]);
                }
            }
        }
        if forall|i: int| 0 <= i < bs.len() ==> #[trigger] renderable(bs[i]) {
            assert forall|i: int| 0 <= i < t.len() implies #[trigger] renderable(t[i]) by {
                assert(t[i] == bs[i]);
            }
            assert(all_renderable(t));
            assert(renderable(bs[bs.len() - 1]));
            assert(all_renderable(bs));
        }
    }
}

/// The HTML of a block.
pub open spec fn block_html(b: BlockModel) -> Seq<char>
    decreases b,
{
    match b {
        BlockModel::ThematicBreak => "<hr />\n"@,
        BlockModel::ATXHeading(c, l) => match c {
            ContentModel::Parsed(inlines) => heading_html(
                l,
                join_seq(inlines_html(inlines), "\n"@),
            ),
            ContentModel::Raw(_) => Seq::empty(),
        },
        BlockModel::IndentedCode(c) => match c {
            ContentModel::Parsed(inlines) => "<pre><code>"@ + concat_lines(
                code_inlines_html(inlines),
            ) + "</code></pre>\n"@,
            ContentModel::Raw(_) => Seq::empty(),
        },
        BlockModel::FencedCode(c, language, ident, _, _) => fenced_code_html(c, language, ident),
        BlockModel::Paragraph(c) => match c {
            ContentModel::Parsed(inlines) => "<p>"@ + join_seq(inlines_html(inlines), "\n"@)
                + "</p>\n"@,
            ContentModel::Raw(_) => Seq::empty(),
        },
        BlockModel::BlockQuote(children) => "<blockquote>\n"@ + blocks_html(children)
            + "</blockquote>\n"@,
        BlockModel::List(..) => Seq::empty(),
        BlockModel::ListItem(..) => Seq::empty(),
    }
}

/// The HTML of blocks, one after the other.
pub open spec fn blocks_html(bs: Seq<BlockModel>) -> Seq<char>
    decreases bs,
{
    if bs.len() == 0 {
        Seq::empty()
    } else {
        blocks_html(bs.subrange(0, bs.len() - 1)) + block_html(bs[bs.len() - 1])
    }
}

/// Renders blocks whose inline content has been parsed.
pub fn render_markdown<'a>(doc: Vec<Block<'a>>) -> (r: String)
    requires
        forall|i: int| 0 <= i < doc@.len() ==> renderable(#[trigger] doc@[i]@),
    ensures
        r@ == blocks_html(blocks_view(doc@)),
{
    render_blocks(&doc)
}

fn render_blocks<'a>(blocks: &Vec<Block<'a>>) -> (r: String)
    requires
        forall|i: int| 0 <= i < blocks@.len() ==> renderable(#[trigger] blocks@[i]@),
    ensures
        r@ == blocks_html(blocks_view(blocks@)),
    decreases blocks@, 1nat,
{
    let mut res = String::new();
    let mut i: usize = 0;
    while i < blocks.len()
        invariant
            i <= blocks@.len(),
            forall|j: int| 0 <= j < blocks@.len() ==> renderable(#[trigger] blocks@[j]@),
            res@ == blocks_html(blocks_view(blocks@.take(i as int))),
        decreases blocks@.len() - i,
    {
        proof {
            let v = blocks_view(blocks@.take(i + 1));
            assert(v.subrange(0, v.len() - 1) =~= blocks_view(blocks@.take(i as int)));
            assert(v[v.len() - 1] == blocks@[i as int]@);
            assert(decreases_to!(blocks@ => blocks@[i as int]));
        }
        let html = render_markdown_block(&blocks[i]);
        res.append(html.as_str());
        i = i + 1;
    }
    assert(blocks@.take(i as int) =~= blocks@);
    res
}

fn heading_tag_str(l: &ATXHeadingLevel) -> (s: &'static str)
    ensures
        s@ == heading_tag(*l),
{
    match l {
        ATXHeadingLevel::H1 => "h1",
        ATXHeadingLevel::H2 => "h2",
        ATXHeadingLevel::H3 => "h3",
        ATXHeadingLevel::H4 => "h4",
        ATXHeadingLevel::H5 => "h5",
        ATXHeadingLevel::H6 => "h6",
    }
}

pub(crate) fn heading_to_html(l: &ATXHeadingLevel, content: &str) -> (r: String)
    ensures
        r@ == heading_html(*l, content@),
{
    let tag_name = heading_tag_str(l);
    let mut r = String::new();
    r.append("<");
    r.append(tag_name);
    r.append(">");
    r.append(content);
    r.append("</");
    r.append(tag_name);
    r.append(">\n");
    r
}

fn render_markdown_block<'a>(block: &Block<'a>) -> (r: String)
    requires
        renderable(block@),
    ensures
        r@ == block_html(block@),
    decreases block, 2nat,
{
    match block {
        Block::ThematicBreak => String::from_str("<hr />\n"),
        Block::ATXHeading(b) => render_markdown_atx(b),
        Block::IndentedCode(ic) => render_markdown_indented_code(ic),
        Block::FencedCode(fc) => render_markdown_fenced_code(fc),
        Block::Paragraph(ic) => render_markdown_paragraph(ic),
        Block::BlockQuote(bq) => {
            proof {
                assert(decreases_to!(*block => block->BlockQuote_0));
                assert(decreases_to!(block->BlockQuote_0 => block->BlockQuote_0.children));
                assert(decreases_to!(block->BlockQuote_0.children => block->BlockQuote_0.children@));
                assert forall|i: int| 0 <= i < bq.children@.len() implies renderable(
                    #[trigger] bq.children@[i]@,
                ) by {
                    assert(block@ == BlockModel::BlockQuote(blocks_view(bq.children@)));
                    lemma_all_renderable(blocks_view(bq.children@));
                    assert(renderable(blocks_view(bq.children@)[i]));
                    assert(blocks_view(bq.children@)[i] == bq.children@[i]@);
                }
            }
            render_markdown_block_quote(bq)
        },
        Block::List(_) => String::new(),
        Block::ListItem(_) => String::new(),
    }
}

/// The HTML of each inline element, joined with `sep`.
fn join_inlines_html(inlines: &Vec<Inline>, sep: &str) -> (r: String)
    ensures
        r@ == join_seq(inlines_html(inlines_view(inlines@)), sep@),
{
    let mut r = String::new();
    let mut i: usize = 0;
    while i < inlines.len()
        invariant
            i <= inlines@.len(),
            r@ == join_seq(inlines_html(inlines_view(inlines@.take(i as int))), sep@),
        decreases inlines@.len() - i,
    {
        proof {
            let v = inlines_html(inlines_view(inlines@.take(i + 1)));
            assert(v.drop_last() =~= inlines_html(inlines_view(inlines@.take(i as int))));
            assert(v.last() == inline_html(inlines@[i as int]@));
        }
        if i > 0 {
            r.append(sep);
        }
        let h = render_markdown_inline(&inlines[i]);
        r.append(h.as_str());
        proof {
            if i == 0 {
                assert(r@ =~= inlines_html(inlines_view(inlines@.take(1)))[0]);
            }
        }
        i = i + 1;
    }
    assert(inlines@.take(i as int) =~= inlines@);
    r
}

/// A text escaped as HTML text.
pub fn escape_html(s: &str) -> (r: String)
    ensures
        r@ == html_escape(s@),
{
    let cs = chars_vec(s);
    let mut r = String::new();
    let mut i: usize = 0;
    while i < cs.len()
        invariant
            i <= cs@.len(),
            cs@ == s@,
            r@ == html_escape(s@.take(i as int)),
        decreases cs@.len() - i,
    {
        proof {
            assert(s@.take(i + 1).drop_last() =~= s@.take(i as int));
            assert(s@.take(i + 1).last() == cs@[i as int]);
        }
        let c = cs[i];
        if c == '<' {
            r.append("&lt;");
        } else if c == '>' {
            r.append("&gt;");
        } else if c == '&' {
            r.append("&amp;");
        } else if c == '"' {
            r.append("&quot;");
        } else {
            let piece = s.substring_char(i, i + 1);
            proof {
                assert(piece@ =~= seq![c]);
            }
            r.append(piece);
        }
        i = i + 1;
    }
    assert(s@.take(i as int) =~= s@);
    r
}

/// The lines escaped as HTML text, each followed by a newline.
pub(crate) fn escaped_lines(parts: &Vec<&str>) -> (r: String)
    ensures
        r@ == concat_lines(escape_lines(str_views(parts@))),
{
    let mut r = String::new();
    let mut i: usize = 0;
    while i < parts.len()
        invariant
            i <= parts@.len(),
            r@ == concat_lines(escape_lines(str_views(parts@.take(i as int)))),
        decreases parts@.len() - i,
    {
        proof {
            let v = escape_lines(str_views(parts@.take(i + 1)));
            assert(v.drop_last() =~= escape_lines(str_views(parts@.take(i as int))));
            assert(v.last() == html_escape(parts@[i as int]@));
        }
        let e = escape_html(parts[i]);
        r.append(e.as_str());
        r.append("\n");
        i = i + 1;
    }
    assert(parts@.take(i as int) =~= parts@);
    r
}

/// The HTML of an inline element inside code.
fn render_code_inline(inline_block: &Inline) -> (r: String)
    ensures
        r@ == code_inline_html(inline_block@),
{
    match inline_block {
        Inline::TextualContent(text) => escape_html(text),
        _ => render_markdown_inline(inline_block),
    }
}

/// The HTML of each inline element of a code block, each followed by a
/// newline.
fn code_inlines_html_lines(inlines: &Vec<Inline>) -> (r: String)
    ensures
        r@ == concat_lines(code_inlines_html(inlines_view(inlines@))),
{
    let mut r = String::new();
    let mut i: usize = 0;
    while i < inlines.len()
        invariant
            i <= inlines@.len(),
            r@ == concat_lines(code_inlines_html(inlines_view(inlines@.take(i as int)))),
        decreases inlines@.len() - i,
    {
        proof {
            let v = code_inlines_html(inlines_view(inlines@.take(i + 1)));
            assert(v.drop_last() =~= code_inlines_html(inlines_view(inlines@.take(i as int))));
            assert(v.last() == code_inline_html(inlines@[i as int]@));
        }
        let h = render_code_inline(&inlines[i]);
        r.append(h.as_str());
        r.append("\n");
        i = i + 1;
    }
    assert(inlines@.take(i as int) =~= inlines@);
    r
}

fn render_markdown_atx<'a>(b: &ATXHeading<'a>) -> (r: String)
    requires
        b.content@ is Parsed,
    ensures
        r@ == block_html(BlockModel::ATXHeading(b.content@, b.level)),
{
    let inlines = match &b.content {
        InlineContent::Parsed(inlines) => inlines,
        InlineContent::Raw(_) => {
            proof {
                assert(false);
            }
            return String::new();
        },
    };
    let content = join_inlines_html(inlines, "\n");
    heading_to_html(&b.level, content.as_str())
}

/// `s` without up to `max` leading spaces.
pub fn strip_max_leading_spaces<'a>(s: &'a str, max: usize) -> (r: &'a str)
    ensures
        r@ == strip_spaces_upto(s@, max),
{
    let k = lead_count(s, CharClass::Exactly(' '));
    if k < max {
        skip_chars(s, k)
    } else {
        proof {
            lemma_lead_len(s@, CharClass::Exactly(' '));
        }
        skip_chars(s, max)
    }
}

pub(crate) fn render_markdown_fenced_code(fenced_code: &FencedCode) -> (r: String)
    ensures
        r@ == fenced_code_html(
            fenced_code.content@,
            fenced_code.language@,
            fenced_code.ident,
        ),
{
    let mut r = String::new();
    r.append("<pre><code");
    if fenced_code.language.unicode_len() != 0 {
        r.append(" class=\"language-");
        r.append(fenced_code.language);
        r.append("\"");
    } else {
        proof {
            assert(language_attr(fenced_code.language@) =~= Seq::<char>::empty());
        }
    }
    r.append(">");
    match &fenced_code.content {
        InlineContent::Raw(lines) => {
            let ghost stripped = Seq::new(
                lines@.len(),
                |i: int| html_escape(strip_spaces_upto(lines@[i]@, fenced_code.ident)),
            );
            let mut i: usize = 0;
            while i < lines.len()
                invariant
                    i <= lines@.len(),
                    stripped == Seq::new(
                        lines@.len(),
                        |i: int| html_escape(strip_spaces_upto(lines@[i]@, fenced_code.ident)),
                    ),
                    r@ == "<pre><code"@ + language_attr(fenced_code.language@) + ">"@
                        + concat_lines(stripped.take(i as int)),
                decreases lines@.len() - i,
            {
                proof {
                    assert(stripped.take(i + 1).drop_last() =~= stripped.take(i as int));
                }
                let line = strip_max_leading_spaces(lines[i], fenced_code.ident);
                let escaped = escape_html(line);
                r.append(escaped.as_str());
                r.append("\n");
                i = i + 1;
            }
            proof {
                assert(stripped.take(i as int) =~= stripped);
                assert(str_views(lines@).len() == lines@.len());
                assert(Seq::new(
                    str_views(lines@).len(),
                    |i: int| html_escape(strip_spaces_upto(str_views(lines@)[i], fenced_code.ident)),
                ) =~= stripped);
            }
        },
        InlineContent::Parsed(_) => {
            r.append("Inline text");
        },
    }
    r.append("</code></pre>\n");
    r
}

fn render_markdown_indented_code(indented_code: &IndentedCode) -> (r: String)
    requires
        indented_code.content@ is Parsed,
    ensures
        r@ == block_html(BlockModel::IndentedCode(indented_code.content@)),
{
    let inlines = match &indented_code.content {
        InlineContent::Parsed(inlines) => inlines,
        InlineContent::Raw(_) => {
            proof {
                assert(false);
            }
            return String::new();
        },
    };
    let body = code_inlines_html_lines(inlines);
    let mut r = String::new();
    r.append("<pre><code>");
    r.append(body.as_str());
    r.append("</code></pre>\n");
    r
}

fn render_markdown_paragraph(ic: &InlineContent) -> (r: String)
    requires
        ic@ is Parsed,
    ensures
        r@ == block_html(BlockModel::Paragraph(ic@)),
{
    let inlines = match ic {
        InlineContent::Parsed(inlines) => inlines,
        InlineContent::Raw(_) => {
            proof {
                assert(false);
            }
            return String::new();
        },
    };
    let body = join_inlines_html(inlines, "\n");
    let mut r = String::new();
    r.append("<p>");
    r.append(body.as_str());
    r.append("</p>\n");
    r
}

fn render_markdown_block_quote<'a>(bq: &BlockQuote<'a>) -> (r: String)
    requires
        forall|i: int|
            0 <= i < bq.children@.len() ==> renderable(#[trigger] bq.children@[i]@),
    ensures
        r@ == block_html(BlockModel::BlockQuote(blocks_view(bq.children@))),
    decreases bq.children@, 2nat,
{
    let res = render_blocks(&bq.children);
    let mut r = String::new();
    r.append("<blockquote>\n");
    r.append(res.as_str());
    r.append("</blockquote>\n");
    r
}

fn render_markdown_inline(inline_block: &Inline) -> (r: String)
    ensures
        r@ == inline_html(inline_block@),
{
    match inline_block {
        Inline::HardLineBreak => String::from_str("<br />"),
        Inline::Autolink(link) => {
            let mut r = String::new();
            r.append("<a href=\"");
            r.append(link);
            r.append("\">");
            r.append(link);
            r.append("</a>");
            r
        },
        Inline::CodeSpan(span) => {
            let mut r = String::new();
            r.append("<code>");
            r.append(span);
            r.append("</code>");
            r
        },
        Inline::Emphasis(emphasis) => {
            let mut r = String::new();
            match emphasis.emphasis_type {
                EmphasisType::Common => {
                    r.append("<em>");
                    r.append(emphasis.text);
                    r.append("</em>");
                },
                EmphasisType::Strong => {
                    r.append("<strong>");
                    r.append(emphasis.text);
                    r.append("</strong>");
                },
            }
            r
        },
        Inline::HTML(html) => String::from_str(html),
        Inline::Image(image) => {
            let title = render_title(image.title);
            let mut r = String::new();
            r.append("<img src=\"");
            r.append(image.src);
            r.append("\" alt=\"");
            r.append(image.alt);
            r.append("\"");
            r.append(title.as_str());
            r.append(" />");
            r
        },
        Inline::Link(link) => {
            let title = render_title(link.title);
            let mut r = String::new();
            r.append("<a href=\"");
            r.append(link.url);
            r.append("\"");
            r.append(title.as_str());
            r.append(">");
            r.append(link.text);
            r.append("</a>");
            r
        },
        Inline::TextualContent(text) => String::from_str(text),
    }
}

fn render_title<'a>(title: Option<&'a str>) -> (r: String)
    ensures
        r@ == title_attr(crate::markdown::inline::opt_str_view(title)),
{
    match title {
        Some(text) => {
            let mut r = String::new();
            r.append(" title=\"");
            r.append(text);
            r.append("\"");
            r
        },
        None => String::new(),
    }
}

/// The HTML of two sequences of blocks, one after the other, is that of
/// the first, then that of the second.
pub proof fn lemma_blocks_html_concat(a: Seq<BlockModel>, b: Seq<BlockModel>)
    ensures
        blocks_html(a + b) == blocks_html(a) + blocks_html(b),
    decreases b.len(),
{
    if b.len() == 0 {
        assert(a + b =~= a);
        assert(blocks_html(a) + blocks_html(b) =~= blocks_html(a));
    } else {
        let bt = b.subrange(0, b.len() - 1);
        lemma_blocks_html_concat(a, bt);
        let ab = a + b;
        assert(ab.subrange(0, ab.len() - 1) =~= a + bt);
        assert(ab[ab.len() - 1] == b[b.len() - 1]);
        assert(blocks_html(a) + blocks_html(b) =~= blocks_html(a) + blocks_html(bt) + block_html(
            b[b.len() - 1],
        ));
    }
}

/// The tag of a heading names its level: `h` and the level's digit.
pub proof fn lemma_heading_tag_names_level(l: ATXHeadingLevel)
    ensures
        heading_tag(l).len() == 2,
        heading_tag(l)[0] == 'h',
        is_ascii_digit(heading_tag(l)[1]),
        digit_value(heading_tag(l)[1]) == level_number(l),
{
    reveal_strlit("h1");
    reveal_strlit("h2");
    reveal_strlit("h3");
    reveal_strlit("h4");
    reveal_strlit("h5");
    reveal_strlit("h6");
}

/// The HTML of a parsed paragraph puts each inline element on a line of
/// its own: a paragraph of one element is `<p>`, its HTML and `</p>` with a
/// newline; one more element adds a newline and its HTML before `</p>`.
pub proof fn lemma_paragraph_html_lines(v: Seq<InlineModel>, x: InlineModel)
    ensures
        block_html(BlockModel::Paragraph(ContentModel::Parsed(seq![x]))) == "<p>"@ + inline_html(x)
            + "</p>\n"@,
        v.len() > 0 ==> {
            let before = block_html(BlockModel::Paragraph(ContentModel::Parsed(v)));
            block_html(BlockModel::Paragraph(ContentModel::Parsed(v.push(x)))) == before.take(
                before.len() - 5,
            ) + "\n"@ + inline_html(x) + "</p>\n"@
        },
{
    reveal_strlit("</p>\n");
    reveal_strlit("\n");
    assert(inlines_html(seq![x]) =~= seq![inline_html(x)]);
    if v.len() > 0 {
        let hv = inlines_html(v);
        let hx = inlines_html(v.push(x));
        assert(hx =~= hv.push(inline_html(x)));
        assert(hx.drop_last() =~= hv);
        let before = block_html(BlockModel::Paragraph(ContentModel::Parsed(v)));
        assert(before.take(before.len() - 5) =~= "<p>"@ + join_seq(hv, "\n"@));
        assert(block_html(BlockModel::Paragraph(ContentModel::Parsed(v.push(x)))) =~= "<p>"@
            + join_seq(hv, "\n"@) + "\n"@ + inline_html(x) + "</p>\n"@);
    }
}

/// Two lines of text make a paragraph of the first, a newline and the
/// second.
pub proof fn lemma_paragraph_of_two_texts(a: Seq<char>, b: Seq<char>)
    ensures
        block_html(
            BlockModel::Paragraph(
                ContentModel::Parsed(seq![InlineModel::TextualContent(a), InlineModel::TextualContent(b)]),
            ),
        ) == "<p>"@ + a + "\n"@ + b + "</p>\n"@,
{
    let v = seq![InlineModel::TextualContent(a)];
    let x = InlineModel::TextualContent(b);
    lemma_paragraph_html_lines(v, x);
    lemma_paragraph_html_lines(Seq::empty(), InlineModel::TextualContent(a));
    reveal_strlit("</p>\n");
    assert(v.push(x) =~= seq![InlineModel::TextualContent(a), InlineModel::TextualContent(b)]);
    let before = block_html(BlockModel::Paragraph(ContentModel::Parsed(v)));
    assert(before.take(before.len() - 5) =~= "<p>"@ + a);
}

/// Escaping works character by character: the escape of two texts one
/// after the other is their escapes one after the other.
pub proof fn lemma_html_escape_concat(a: Seq<char>, b: Seq<char>)
    ensures
        html_escape(a + b) == html_escape(a) + html_escape(b),
    decreases b.len(),
{
    if b.len() == 0 {
        assert(a + b =~= a);
        assert(html_escape(a) + html_escape(b) =~= html_escape(a));
    } else {
        lemma_html_escape_concat(a, b.drop_last());
        assert((a + b).drop_last() =~= a + b.drop_last());
        assert((a + b).last() == b.last());
    }
}

/// Escaped text holds no `<`, `>` or `"`, and a text without `<`, `>`,
/// `&` and `"` is its own escape.
pub proof fn lemma_html_escape_safe(s: Seq<char>)
    ensures
        forall|i: int|
            0 <= i < html_escape(s).len() ==> #[trigger] html_escape(s)[i] != '<' && html_escape(s)[i]
                != '>' && html_escape(s)[i] != '"',
        (forall|i: int|
            0 <= i < s.len() ==> #[trigger] s[i] != '<' && s[i] != '>' && s[i] != '&' && s[i] != '"')
            ==> html_escape(s) == s,
    decreases s.len(),
{
    reveal_strlit("&lt;");
    reveal_strlit("&gt;");
    reveal_strlit("&amp;");
    reveal_strlit("&quot;");
    if s.len() > 0 {
        let t = s.drop_last();
        lemma_html_escape_safe(t);
        let e = escape_char(s.last());
        let h = html_escape(t);
        assert(html_escape(s) == h + e);
        assert forall|i: int| 0 <= i < (h + e).len() implies #[trigger] (h + e)[i] != '<' && (h
            + e)[i] != '>' && (h + e)[i] != '"' by {
            if i < h.len() {
                assert((h + e)[i] == h[i]);
            } else {
                assert((h + e)[i] == e[i - h.len()]);
            }
        }
        if forall|i: int|
            0 <= i < s.len() ==> #[trigger] s[i] != '<' && s[i] != '>' && s[i] != '&' && s[i]
                != '"' {
            assert forall|i: int| 0 <= i < t.len() implies #[trigger] t[i] != '<' && t[i] != '>'
                && t[i] != '&' && t[i] != '"' by {
                assert(t[i] == s[i]);
            }
            assert(s[s.len() - 1] == s.last());
            assert(h + e =~= s);
        }
    }
}

/// The HTML of a parsed heading puts each inline element on a line of its
/// own, between the opening and closing tags of its level: one more
/// element adds a newline and its HTML before the closing tag.
pub proof fn lemma_heading_html_lines(v: Seq<InlineModel>, x: InlineModel, l: ATXHeadingLevel)
    ensures
        block_html(BlockModel::ATXHeading(ContentModel::Parsed(seq![x]), l)) == "<"@ + heading_tag(l)
            + ">"@ + inline_html(x) + "</"@ + heading_tag(l) + ">\n"@,
        v.len() > 0 ==> {
            let before = block_html(BlockModel::ATXHeading(ContentModel::Parsed(v), l));
            block_html(BlockModel::ATXHeading(ContentModel::Parsed(v.push(x)), l)) == before.take(
                before.len() - 6,
            ) + "\n"@ + inline_html(x) + "</"@ + heading_tag(l) + ">\n"@
        },
{
    reveal_strlit("</");
    reveal_strlit(">\n");
    lemma_heading_tag_names_level(l);
    assert(inlines_html(seq![x]) =~= seq![inline_html(x)]);
    if v.len() > 0 {
        let hv = inlines_html(v);
        let hx = inlines_html(v.push(x));
        assert(hx =~= hv.push(inline_html(x)));
        assert(hx.drop_last() =~= hv);
        let before = block_html(BlockModel::ATXHeading(ContentModel::Parsed(v), l));
        assert(before.take(before.len() - 6) =~= "<"@ + heading_tag(l) + ">"@ + join_seq(
            hv,
            "\n"@,
        ));
        assert(block_html(BlockModel::ATXHeading(ContentModel::Parsed(v.push(x)), l)) =~= "<"@
            + heading_tag(l) + ">"@ + join_seq(hv, "\n"@) + "\n"@ + inline_html(x) + "</"@
            + heading_tag(l) + ">\n"@);
    }
}

} // verus!
