use martes::html::renderer::render_markdown;
use martes::markdown::block::{
    ATXHeading, ATXHeadingLevel, Block, BlockQuote, FenceType, FencedCode, IndentedCode,
    InlineContent, List, ListItem, ListType,
};
use martes::markdown::document::Document;
use martes::markdown::inline::Inline;
use martes::markdown::parser::continuers::{ContinueResult, try_continue};
use martes::markdown::parser::errors::ParserError;
use martes::markdown::parser::inline::{parse_inline, parse_inline_content};
use martes::markdown::parser::openers::{OpenResult, try_open, try_open_link_reference};
use martes::markdown::parser::parse;
use martes::markdown::parser::utils::{parse_list_marker, strip_indent};

fn raw(lines: Vec<&str>) -> InlineContent<'_> {
    InlineContent::Raw(lines)
}

#[test]
fn parse_heading_and_lazy_paragraph() {
    let doc = parse("# Hello\n\nworld\nmore").unwrap();
    let expected = Document::from(vec![
        Block::ATXHeading(ATXHeading { content: raw(vec!["Hello"]), level: ATXHeadingLevel::H1 }),
        Block::Paragraph(raw(vec!["world", "more"])),
    ]);
    assert_eq!(doc, expected);
    assert_eq!(doc.to_html(), "<h1>Hello</h1>\n<p>world\nmore</p>\n");
}

#[test]
fn parse_fenced_code_until_closing_fence() {
    let doc = parse("```rust\nfn main() {}\n```\nafter").unwrap();
    let expected = Document::from(vec![
        Block::FencedCode(FencedCode {
            content: raw(vec!["fn main() {}"]),
            language: "rust",
            ident: 0,
            fence_type: FenceType::Backtick,
            fence_occ: 3,
        }),
        Block::Paragraph(raw(vec!["after"])),
    ]);
    assert_eq!(doc, expected);
    assert_eq!(
        doc.to_html(),
        "<pre><code class=\"language-rust\">fn main() {}\n</code></pre>\n<p>after</p>\n"
    );
}

#[test]
fn parse_fenced_code_strips_opening_indent_and_keeps_other_fences() {
    let doc = parse("  ~~~\n    x\n```\n  ~~~~").unwrap();
    let expected = Document::from(vec![Block::FencedCode(FencedCode {
        content: raw(vec!["    x", "```"]),
        language: "",
        ident: 2,
        fence_type: FenceType::Tilda,
        fence_occ: 3,
    })]);
    assert_eq!(doc, expected);
    assert_eq!(doc.to_html(), "<pre><code>  x\n```\n</code></pre>\n");
}

#[test]
fn parse_unclosed_fenced_code_ends_with_input() {
    let doc = parse("~~~\na").unwrap();
    assert_eq!(doc.to_html(), "<pre><code>a\n</code></pre>\n");
}

#[test]
fn parse_indented_code_lines() {
    let doc = parse("    code\n    more").unwrap();
    let expected = Document::from(vec![Block::IndentedCode(IndentedCode {
        content: raw(vec!["code", "more"]),
    })]);
    assert_eq!(doc, expected);
    assert_eq!(doc.to_html(), "<pre><code>code\nmore\n</code></pre>\n");
}

#[test]
fn parse_thematic_break() {
    let doc = parse("***").unwrap();
    assert_eq!(doc, Document::from(vec![Block::ThematicBreak]));
    assert_eq!(doc.to_html(), "<hr />\n");
}

#[test]
fn parse_block_quote_lines() {
    let doc = parse("> quote\n> more\nlazy\n   > last").unwrap();
    let expected = Document::from(vec![Block::BlockQuote(BlockQuote {
        children: vec![Block::Paragraph(raw(vec!["quote", "more", "lazy", "last"]))],
    })]);
    assert_eq!(doc, expected);
    assert_eq!(doc.to_html(), "");
    let doc = parse("> foo").unwrap();
    let expected = Document::from(vec![Block::BlockQuote(BlockQuote {
        children: vec![Block::Paragraph(raw(vec!["foo"]))],
    })]);
    assert_eq!(doc, expected);
}

#[test]
fn parse_block_quote_holding_a_heading() {
    let doc = parse("> # Title").unwrap();
    let expected = Document::from(vec![Block::BlockQuote(BlockQuote {
        children: vec![Block::ATXHeading(ATXHeading {
            content: raw(vec!["Title"]),
            level: ATXHeadingLevel::H1,
        })],
    })]);
    assert_eq!(doc, expected);
}

#[test]
fn parse_paragraph_html_trims_lines() {
    let doc = parse("  a  \n b").unwrap();
    assert_eq!(doc, Document::from(vec![Block::Paragraph(raw(vec!["  a  ", " b"]))]));
    assert_eq!(doc.to_html(), "<p>a\nb</p>\n");
}

#[test]
fn parse_crlf_and_final_newline() {
    let doc = parse("a\r\nb\n").unwrap();
    assert_eq!(doc, Document::from(vec![Block::Paragraph(raw(vec!["a", "b"]))]));
}

#[test]
fn parse_empty_input() {
    assert_eq!(parse("").unwrap(), Document::new());
    assert_eq!(parse("\n  \n").unwrap(), Document::new());
    assert_eq!(Document::new().to_html(), "");
}

#[test]
fn parse_list_holding_a_heading() {
    let doc = parse("- # foo").unwrap();
    let expected = Document::from(vec![Block::List(List {
        items: vec![Block::ATXHeading(ATXHeading { content: raw(vec!["foo"]), level: ATXHeadingLevel::H1 })],
        list_type: ListType::UnorderedMinus,
        tight: true,
    })]);
    assert_eq!(doc, expected);
}

#[test]
fn invalid_container_message() {
    let list = Block::List(List { items: Vec::new(), list_type: ListType::UnorderedMinus, tight: true });
    let err = ParserError::InvalidContainer { block_type: format!("{:?}", list) };
    assert_eq!(
        err.message(),
        "List(List { items: [], list_type: UnorderedMinus, tight: true }) cannot be used as a contaier block"
    );
}

#[test]
fn parse_list_holding_paragraphs() {
    let doc = parse("- item\nmore").unwrap();
    let expected = Document::from(vec![Block::List(List {
        items: vec![Block::Paragraph(raw(vec!["item", "more"]))],
        list_type: ListType::UnorderedMinus,
        tight: true,
    })]);
    assert_eq!(doc, expected);
    let doc = parse("- a\n+ b").unwrap();
    let expected = Document::from(vec![
        Block::List(List {
            items: vec![Block::Paragraph(raw(vec!["a"]))],
            list_type: ListType::UnorderedMinus,
            tight: true,
        }),
        Block::List(List {
            items: vec![Block::Paragraph(raw(vec!["b"]))],
            list_type: ListType::UnorderedPlus,
            tight: true,
        }),
    ]);
    assert_eq!(doc, expected);
}

#[test]
fn parse_indented_code_does_not_interrupt_a_paragraph() {
    let doc = parse("Foo\n    bar").unwrap();
    assert_eq!(doc, Document::from(vec![Block::Paragraph(raw(vec!["Foo", "    bar"]))]));
    assert_eq!(doc.to_html(), "<p>Foo\nbar</p>\n");
}

#[test]
fn parse_indented_code_keeps_deeper_lines_and_inner_blank_lines() {
    let doc = parse("    a\n        b").unwrap();
    assert_eq!(
        doc,
        Document::from(vec![Block::IndentedCode(IndentedCode { content: raw(vec!["a", "    b"]) })])
    );
    let doc = parse("    a\n\n\tb\n  \nc").unwrap();
    let expected = Document::from(vec![
        Block::IndentedCode(IndentedCode { content: raw(vec!["a", "", "b"]) }),
        Block::Paragraph(raw(vec!["c"])),
    ]);
    assert_eq!(doc, expected);
    assert_eq!(doc.to_html(), "<pre><code>a\n\nb\n</code></pre>\n<p>c</p>\n");
    let doc = parse("    - x\n    > y").unwrap();
    assert_eq!(
        doc,
        Document::from(vec![Block::IndentedCode(IndentedCode { content: raw(vec!["- x", "> y"]) })])
    );
}

#[test]
fn parse_heading_with_only_a_closing_sequence_is_empty() {
    let doc = parse("### ###").unwrap();
    let expected = Document::from(vec![Block::ATXHeading(ATXHeading {
        content: raw(vec![""]),
        level: ATXHeadingLevel::H3,
    })]);
    assert_eq!(doc, expected);
}

#[test]
fn parse_fences_and_info_strings() {
    assert_eq!(parse("``` aa ```").unwrap(), Document::from(vec![Block::Paragraph(raw(vec!["``` aa ```"]))]));
    let doc = parse("```\n``` aaa\n```").unwrap();
    let expected = Document::from(vec![Block::FencedCode(FencedCode {
        content: raw(vec!["``` aaa"]),
        language: "",
        ident: 0,
        fence_type: FenceType::Backtick,
        fence_occ: 3,
    })]);
    assert_eq!(doc, expected);
}

#[test]
fn code_is_escaped_in_html() {
    assert_eq!(
        parse("```\n<\n >\n```").unwrap().to_html(),
        "<pre><code>&lt;\n &gt;\n</code></pre>\n"
    );
    assert_eq!(
        parse("    a<b & \"c\"").unwrap().to_html(),
        "<pre><code>a&lt;b &amp; &quot;c&quot;\n</code></pre>\n"
    );
    let mut blocks = parse("    x>y").unwrap().into_blocks();
    parse_inline(&mut blocks);
    assert_eq!(render_markdown(blocks), "<pre><code>x&gt;y\n</code></pre>\n");
}

#[test]
fn line_endings_do_not_change_the_document() {
    assert_eq!(parse("a\r\n\r\n    b\r\n").unwrap(), parse("a\n\n    b").unwrap());
    assert_eq!(parse("x").unwrap(), parse("x\n").unwrap());
    assert_eq!(parse("").unwrap(), parse("\n").unwrap());
}

#[test]
fn thematic_breaks_render_on_lines_of_their_own() {
    let mut blocks = parse("***\n---\n___").unwrap().into_blocks();
    parse_inline(&mut blocks);
    assert_eq!(render_markdown(blocks), "<hr />\n<hr />\n<hr />\n");
}

#[test]
fn parse_output_content_is_raw() {
    let doc = parse("# h\n    c\n```\nx\n```\np\n> q").unwrap();
    for b in doc.into_blocks() {
        match b {
            Block::ATXHeading(h) => assert!(matches!(h.content, InlineContent::Raw(_))),
            Block::IndentedCode(c) => assert!(matches!(c.content, InlineContent::Raw(_))),
            Block::FencedCode(c) => assert!(matches!(c.content, InlineContent::Raw(_))),
            Block::Paragraph(c) => assert!(matches!(c, InlineContent::Raw(_))),
            _ => {}
        }
    }
}

#[test]
fn document_html_of_concatenation() {
    let a = vec![Block::ThematicBreak];
    let b = vec![Block::Paragraph(raw(vec!["x"]))];
    let ab = vec![Block::ThematicBreak, Block::Paragraph(raw(vec!["x"]))];
    let joined = Document::from(a).to_html() + &Document::from(b).to_html();
    assert_eq!(Document::from(ab).to_html(), joined);
}

#[test]
fn blocks_clone_to_equal_values() {
    let doc = parse("> # q\n> p").unwrap();
    assert_eq!(doc.clone(), doc);
    let blocks = doc.into_blocks();
    assert_eq!(blocks.clone(), blocks);
    let r = try_open("> x", None);
    assert_eq!(r.clone(), r);
}

#[test]
fn document_push_appends() {
    let mut d = Document::new();
    d.push(Block::ThematicBreak);
    d.push(Block::ATXHeading(ATXHeading { content: raw(vec!["a", "b"]), level: ATXHeadingLevel::H2 }));
    assert_eq!(d.to_html(), "<hr />\n<h2>a b</h2>\n");
}

#[test]
fn inline_parsing_then_rendering() {
    let doc = parse("# Hi\ntext\n\n    code").unwrap();
    let mut blocks = doc.into_blocks();
    parse_inline(&mut blocks);
    assert_eq!(
        blocks[0],
        Block::ATXHeading(ATXHeading {
            content: InlineContent::Parsed(vec![Inline::TextualContent("Hi")]),
            level: ATXHeadingLevel::H1,
        })
    );
    assert_eq!(
        render_markdown(blocks),
        "<h1>Hi</h1>\n<p>text</p>\n<pre><code>code\n</code></pre>\n"
    );
}

#[test]
fn inline_parsing_twice_changes_nothing() {
    let mut once = parse("a\nb\n> # q").unwrap().into_blocks();
    parse_inline(&mut once);
    let mut twice = parse("a\nb\n> # q").unwrap().into_blocks();
    parse_inline(&mut twice);
    parse_inline(&mut twice);
    assert_eq!(once, twice);
}

#[test]
fn inline_content_parsing() {
    let mut c = raw(vec!["a", "b"]);
    parse_inline_content(&mut c);
    assert_eq!(
        c,
        InlineContent::Parsed(vec![Inline::TextualContent("a"), Inline::TextualContent("b")])
    );
}

#[test]
fn render_block_quote_and_list() {
    let blocks = vec![
        Block::BlockQuote(BlockQuote {
            children: vec![Block::Paragraph(InlineContent::Parsed(vec![Inline::TextualContent("x")]))],
        }),
        Block::List(List { items: Vec::new(), list_type: ListType::UnorderedPlus, tight: true }),
        Block::ListItem(ListItem { children: Vec::new(), padding: 2 }),
        Block::ThematicBreak,
    ];
    assert_eq!(render_markdown(blocks), "<blockquote>\n<p>x</p>\n</blockquote>\n<hr />\n");
}

#[test]
fn render_fenced_code_after_inline_parsing_shows_placeholder() {
    let mut blocks = parse("```\nx\n```").unwrap().into_blocks();
    parse_inline(&mut blocks);
    assert_eq!(render_markdown(blocks), "<pre><code>Inline text</code></pre>\n");
}

#[test]
fn try_open_order_and_link_reference() {
    assert_eq!(try_open("[a]: /u", None), OpenResult::NotOpened);
    assert_eq!(try_open_link_reference("[a]: /u", None), OpenResult::NotOpened);
    assert_eq!(
        try_open("    ---", None),
        OpenResult::Opened(Block::IndentedCode(IndentedCode { content: raw(vec!["---"]) }))
    );
    let p = Block::Paragraph(raw(vec!["x"]));
    assert_eq!(try_open("    ---", Some(&p)), OpenResult::NotOpened);
    assert_eq!(try_open("---", Some(&p)), OpenResult::Opened(Block::ThematicBreak));
}

#[test]
fn try_open_inside_fenced_code() {
    let fc = Block::FencedCode(FencedCode {
        content: raw(vec![]),
        language: "",
        ident: 0,
        fence_type: FenceType::Backtick,
        fence_occ: 4,
    });
    assert_eq!(try_open("# x", Some(&fc)), OpenResult::NotOpened);
    assert_eq!(try_open("```", Some(&fc)), OpenResult::NotOpened);
    assert_eq!(try_open("~~~~~", Some(&fc)), OpenResult::NotOpened);
    assert_eq!(try_open("`````", Some(&fc)), OpenResult::NotOpened);
    let ic = Block::IndentedCode(IndentedCode { content: raw(vec!["a"]) });
    assert_eq!(try_open("    x", Some(&ic)), OpenResult::NotOpened);
    assert_eq!(try_open("- x", Some(&ic)), OpenResult::NotOpened);
    assert_eq!(try_open("    ", None), OpenResult::NotOpened);
    assert_eq!(try_open("\t", None), OpenResult::NotOpened);
    assert_eq!(
        try_open("  \tx", None),
        OpenResult::Opened(Block::IndentedCode(IndentedCode { content: raw(vec!["x"]) }))
    );
}

#[test]
fn continuation_of_open_blocks() {
    let fc = Block::FencedCode(FencedCode {
        content: raw(vec![]),
        language: "",
        ident: 0,
        fence_type: FenceType::Backtick,
        fence_occ: 3,
    });
    assert_eq!(try_continue(&fc, "```"), ContinueResult::Close);
    assert_eq!(try_continue(&fc, "   `````"), ContinueResult::Close);
    assert_eq!(try_continue(&fc, "~~~"), ContinueResult::Continue("~~~"));
    assert_eq!(try_continue(&fc, "``"), ContinueResult::Continue("``"));
    assert_eq!(try_continue(&fc, "    ```"), ContinueResult::Continue("    ```"));
    assert_eq!(try_continue(&fc, "\t```"), ContinueResult::Continue("\t```"));
    assert_eq!(try_continue(&fc, "``` aaa"), ContinueResult::Continue("``` aaa"));
    assert_eq!(try_continue(&fc, "```  \t"), ContinueResult::Close);

    let bq = Block::BlockQuote(BlockQuote { children: Vec::new() });
    assert_eq!(try_continue(&bq, "> x"), ContinueResult::Continue("x"));
    assert_eq!(try_continue(&bq, ">x"), ContinueResult::Continue("x"));
    assert_eq!(try_continue(&bq, "x"), ContinueResult::NotContinue);
    assert_eq!(try_continue(&bq, "   > bar"), ContinueResult::Continue("bar"));
    assert_eq!(try_continue(&bq, " > baz"), ContinueResult::Continue("baz"));
    assert_eq!(try_continue(&bq, "    > x"), ContinueResult::NotContinue);

    let ic = Block::IndentedCode(IndentedCode { content: raw(vec![]) });
    assert_eq!(try_continue(&ic, "     x"), ContinueResult::Continue(" x"));
    assert_eq!(try_continue(&ic, "   x"), ContinueResult::NotContinue);
    assert_eq!(try_continue(&ic, ""), ContinueResult::Continue(""));
    assert_eq!(try_continue(&ic, "  "), ContinueResult::Continue(""));
    assert_eq!(try_continue(&ic, "\tbar"), ContinueResult::Continue("bar"));
    assert_eq!(try_continue(&ic, "      "), ContinueResult::Continue("  "));

    let list = Block::List(List { items: Vec::new(), list_type: ListType::UnorderedMinus, tight: true });
    assert_eq!(try_continue(&list, "* x"), ContinueResult::NotContinue);
    assert_eq!(try_continue(&list, "- x"), ContinueResult::Continue("- x"));
    assert_eq!(try_continue(&list, "plain"), ContinueResult::Continue("plain"));

    let item = Block::ListItem(ListItem { children: Vec::new(), padding: 2 });
    assert_eq!(try_continue(&item, "   x"), ContinueResult::Continue(" x"));
    assert_eq!(try_continue(&item, " x"), ContinueResult::NotContinue);
    assert_eq!(try_continue(&item, "  "), ContinueResult::NotContinue);

    for leaf in [Block::ThematicBreak, Block::Paragraph(raw(vec!["p"]))] {
        assert_eq!(try_continue(&leaf, "anything"), ContinueResult::NotContinue);
    }
}

#[test]
fn indentation_and_list_markers() {
    assert_eq!(strip_indent("   x"), Some("x"));
    assert_eq!(strip_indent("    x"), None);
    assert_eq!(strip_indent(" \tx"), None);
    assert_eq!(strip_indent("  "), Some(""));
    assert_eq!(strip_indent("  - a"), Some("- a"));
    assert_eq!(strip_indent("  \tx"), None);
    assert_eq!(strip_indent(""), Some(""));
    assert_eq!(parse_list_marker("1.\tx"), Some((ListType::OrderedDot(1), "x")));
    assert_eq!(parse_list_marker("-"), Some((ListType::UnorderedMinus, "")));
    assert_eq!(parse_list_marker("42) y"), Some((ListType::OrdererParentheses(42), "y")));
    assert_eq!(parse_list_marker("12 x"), None);
    assert_eq!(parse_list_marker(" - x"), None);
    assert_eq!(parse_list_marker("1234567890. x"), None);
}

#[test]
fn heading_levels_and_list_kinds() {
    assert_eq!(ATXHeadingLevel::try_from(3u8), Ok(ATXHeadingLevel::H3));
    assert_eq!(ATXHeadingLevel::try_from(0u8), Err("value must be in range 1..=6"));
    assert_eq!(ATXHeadingLevel::try_from(7u8), Err("value must be in range 1..=6"));
    assert!(ListType::OrderedDot(1).same_variant(&ListType::OrderedDot(9)));
    assert!(ListType::OrderedDot(9).same_variant(&ListType::OrderedDot(1)));
    assert!(!ListType::OrderedDot(1).same_variant(&ListType::OrdererParentheses(1)));
    assert!(ListType::UnorderedPlus.same_variant(&ListType::UnorderedPlus));
    let mut q = BlockQuote { children: Vec::new() };
    q.push(Block::ThematicBreak);
    assert_eq!(q.children, vec![Block::ThematicBreak]);
}

#[test]
fn parser_error_messages() {
    assert_eq!(ParserError::ExpectedRawContent.message(), "the content must be raw at this point");
    let e = ParserError::InvalidChild { parent: String::from("List"), child: String::from("Paragraph") };
    assert_eq!(e.message(), "Paragraph cannot be used as a child of List");
}
