//! The block parser: reads a text line by line into a document.
pub mod continuers;
pub mod errors;
pub mod inline;
pub mod openers;
pub mod utils;

use vstd::prelude::*;

use super::block::{
    Block, BlockModel, ContentModel, FencedCode, IndentedCode, InlineContent, blocks_view,
    lemma_blocks_view_add, lemma_blocks_view_drop_last, lemma_blocks_view_push,
};
use super::document::{Document, lemma_document_from};
use crate::text::{
    CharClass, is_blank, is_blank_str, lead_len, lemma_lead_len, lemma_lines_of_crlf,
    lemma_lines_of_final_newline, lines_of, no_cr_before_lf, split_lines, str_views, with_crlf,
};
use utils::{indent_end, marker_stop, spec_list_marker};
use continuers::{ContinueResult, spec_try_continue, try_continue, ContinueModel};
use errors::{ParserError, ParserErrorModel};
use openers::{OpenModel, OpenResult, is_code, spec_try_open, thematic_break_text, try_open};

verus! {

/// The text that derived `Debug` writes for a block.
pub uninterp spec fn block_debug_text(b: BlockModel) -> Seq<char>;

/// Calls `format!("{:?}", b)` on a block (its derived `Debug`). The
/// contract says only that the text is the one named for the block's
/// value, that is, that it depends on nothing else; what the text is,
/// character by character, is not stated.
#[verifier::external_body]
fn block_debug_string(b: &Block) -> (s: String)
    ensures
        s@ == block_debug_text(b@),
{
    format!("{:?}", b)
}

/// The state of the parser: the closed top-level blocks, and the stack of
/// open blocks, outermost first.
pub struct ParserModel {
    pub doc: Seq<BlockModel>,
    pub stack: Seq<BlockModel>,
}

pub open spec fn empty_state() -> ParserModel {
    ParserModel { doc: Seq::empty(), stack: Seq::empty() }
}

/// The lines without the blank lines at their end.
pub open spec fn drop_trailing_blank(lines: Seq<Seq<char>>) -> Seq<Seq<char>>
    decreases lines.len(),
{
    if lines.len() > 0 && is_blank(lines.last()) {
        drop_trailing_blank(lines.drop_last())
    } else {
        lines
    }
}

/// A block as it is closed: indented code loses its trailing blank lines.
pub open spec fn finished(b: BlockModel) -> BlockModel {
    match b {
        BlockModel::IndentedCode(ContentModel::Raw(lines)) => BlockModel::IndentedCode(
            ContentModel::Raw(drop_trailing_blank(lines)),
        ),
        _ => b,
    }
}

/// A container with one more child at the end: a block quote's children,
/// a list's items, a list item's children. Other blocks take no child.
pub open spec fn adopt(parent: BlockModel, child: BlockModel) -> Option<BlockModel> {
    match parent {
        BlockModel::BlockQuote(children) => Some(BlockModel::BlockQuote(children.push(child))),
        BlockModel::List(items, t, tight) => Some(BlockModel::List(items.push(child), t, tight)),
        BlockModel::ListItem(children, padding) => Some(
            BlockModel::ListItem(children.push(child), padding),
        ),
        _ => None,
    }
}

/// Closes the open blocks from position `idx` on, innermost first: each
/// is finished and goes into the container below it, or to the document
/// when none is below; a leaf block below it is an invalid container.
pub open spec fn spec_close_from(st: ParserModel, idx: nat) -> Result<ParserModel, ParserErrorModel>
    decreases st.stack.len(),
{
    if st.stack.len() <= idx {
        Ok(st)
    } else {
        let last = finished(st.stack.last());
        let rest = st.stack.drop_last();
        if rest.len() == 0 {
            Ok(ParserModel { doc: st.doc.push(last), stack: rest })
        } else {
            match adopt(rest.last(), last) {
                Some(p) => spec_close_from(
                    ParserModel { doc: st.doc, stack: rest.drop_last().push(p) },
                    idx,
                ),
                None => Err(ParserErrorModel::InvalidContainer(block_debug_text(rest.last()))),
            }
        }
    }
}

/// The state in which closing from position `idx` ends: the state that
/// `spec_close_from` gives, or, on an invalid container, the state reached
/// when it was met: the block closed last is dropped, and the invalid
/// container is at the top of the stack.
pub open spec fn spec_close_stop(st: ParserModel, idx: nat) -> ParserModel
    decreases st.stack.len(),
{
    if st.stack.len() <= idx {
        st
    } else {
        let last = finished(st.stack.last());
        let rest = st.stack.drop_last();
        if rest.len() == 0 {
            ParserModel { doc: st.doc.push(last), stack: rest }
        } else {
            match adopt(rest.last(), last) {
                Some(p) => spec_close_stop(
                    ParserModel { doc: st.doc, stack: rest.drop_last().push(p) },
                    idx,
                ),
                None => ParserModel { doc: st.doc, stack: rest },
            }
        }
    }
}

/// Reads a line against the open blocks from position `i` on: each block
/// that the line continues takes its part. Gives the number of blocks
/// continued, the rest of the line, and whether the line closes the next
/// block.
pub open spec fn spec_continue_scan(stack: Seq<BlockModel>, i: nat, line: Seq<char>) -> (
    nat,
    Seq<char>,
    bool,
)
    decreases stack.len() - i,
{
    if i >= stack.len() {
        (i, line, false)
    } else {
        match spec_try_continue(stack[i as int], line) {
            ContinueModel::Continue(s) => spec_continue_scan(stack, i + 1, s),
            ContinueModel::Close => (i, line, true),
            ContinueModel::NotContinue => (i, line, false),
        }
    }
}

/// Opens blocks on the rest of a line, starting from the outcome `r` of
/// trying the text `line`: the containers opened, the leaf opened if any,
/// and what remains of the line.
pub open spec fn spec_open_from(r: OpenModel, line: Seq<char>, opened: Seq<BlockModel>) -> (
    Seq<BlockModel>,
    Option<BlockModel>,
    Seq<char>,
)
    decreases line.len(),
{
    match r {
        OpenModel::Continue(b, l) => if l.len() < line.len() {
            spec_open_from(spec_try_open(l, None), l, opened.push(b))
        } else {
            (opened.push(b), None, l)
        },
        OpenModel::Opened(b) => (opened, Some(b), line),
        OpenModel::NotOpened => (opened, None, line),
    }
}

/// The block that the openers of a line see: an open paragraph at the top
/// of the stack, which the line may continue lazily; otherwise the last
/// block that the line continued, if any.
pub open spec fn opener_context(stack: Seq<BlockModel>, cf: nat) -> Option<BlockModel> {
    if stack.len() > 0 && stack.last() is Paragraph {
        Some(stack.last())
    } else if cf > 0 {
        Some(stack[cf - 1])
    } else {
        None
    }
}

pub open spec fn spec_open_scan(line: Seq<char>, last: Option<BlockModel>) -> (
    Seq<BlockModel>,
    Option<BlockModel>,
    Seq<char>,
) {
    spec_open_from(spec_try_open(line, last), line, Seq::empty())
}

/// The rest of a line goes to open code, or starts a paragraph unless
/// blank.
pub open spec fn spec_remaining(st: ParserModel, rest: Seq<char>) -> Result<
    ParserModel,
    ParserErrorModel,
> {
    let paragraph = BlockModel::Paragraph(ContentModel::Raw(seq![rest]));
    if st.stack.len() > 0 {
        match st.stack.last() {
            BlockModel::IndentedCode(ContentModel::Raw(lines)) => Ok(
                ParserModel {
                    doc: st.doc,
                    stack: st.stack.drop_last().push(
                        BlockModel::IndentedCode(ContentModel::Raw(lines.push(rest))),
                    ),
                },
            ),
            BlockModel::IndentedCode(ContentModel::Parsed(_)) => Err(
                ParserErrorModel::ExpectedRawContent,
            ),
            BlockModel::FencedCode(ContentModel::Raw(lines), language, ident, ft, occ) => Ok(
                ParserModel {
                    doc: st.doc,
                    stack: st.stack.drop_last().push(
                        BlockModel::FencedCode(
                            ContentModel::Raw(lines.push(rest)),
                            language,
                            ident,
                            ft,
                            occ,
                        ),
                    ),
                },
            ),
            BlockModel::FencedCode(ContentModel::Parsed(_), _, _, _, _) => Err(
                ParserErrorModel::ExpectedRawContent,
            ),
            _ => if !is_blank(rest) {
                Ok(ParserModel { doc: st.doc, stack: st.stack.push(paragraph) })
            } else {
                Ok(st)
            },
        }
    } else if !is_blank(rest) {
        Ok(ParserModel { doc: st.doc, stack: st.stack.push(paragraph) })
    } else {
        Ok(st)
    }
}

/// The end of a line that opened no leaf block: the opened containers
/// replace the blocks not continued; a non-blank rest continues an open
/// paragraph lazily; otherwise the rest goes into the opened containers,
/// or, when none opened, the blocks not continued close and the rest is
/// handled by `spec_remaining`.
pub open spec fn spec_finish_line(
    st: ParserModel,
    cf: nat,
    opened: Seq<BlockModel>,
    rest: Seq<char>,
) -> Result<ParserModel, ParserErrorModel> {
    let st1 = if opened.len() > 0 {
        match spec_close_from(st, cf) {
            Ok(s) => Ok(ParserModel { doc: s.doc, stack: s.stack + opened }),
            Err(e) => Err(e),
        }
    } else {
        Ok(st)
    };
    match st1 {
        Err(e) => Err(e),
        Ok(s1) => if !is_blank(rest) && s1.stack.len() > 0 && s1.stack.last() is Paragraph {
            match s1.stack.last() {
                BlockModel::Paragraph(ContentModel::Raw(lines)) => Ok(
                    ParserModel {
                        doc: s1.doc,
                        stack: s1.stack.drop_last().push(
                            BlockModel::Paragraph(ContentModel::Raw(lines.push(rest))),
                        ),
                    },
                ),
                _ => Err(ParserErrorModel::ExpectedRawContent),
            }
        } else if opened.len() > 0 {
            spec_remaining(s1, rest)
        } else {
            match spec_close_from(s1, cf) {
                Ok(s2) => spec_remaining(s2, rest),
                Err(e) => Err(e),
            }
        },
    }
}

/// One line read into the parser state.
pub open spec fn spec_parse_line(st: ParserModel, line: Seq<char>) -> Result<
    ParserModel,
    ParserErrorModel,
> {
    let (cf, cont, closed) = spec_continue_scan(st.stack, 0, line);
    if closed {
        spec_close_from(st, cf)
    } else {
        let (opened, leaf, rest) = spec_open_scan(cont, opener_context(st.stack, cf));
        match leaf {
            Some(b) => match spec_close_from(st, cf) {
                Ok(s) => Ok(ParserModel { doc: s.doc, stack: s.stack + opened.push(b) }),
                Err(e) => Err(e),
            },
            None => spec_finish_line(st, cf, opened, rest),
        }
    }
}

/// The parser state after the first `n` lines.
pub open spec fn parse_lines_upto(lines: Seq<Seq<char>>, n: nat) -> Result<
    ParserModel,
    ParserErrorModel,
>
    decreases n,
{
    if n == 0 {
        Ok(empty_state())
    } else {
        match parse_lines_upto(lines, (n - 1) as nat) {
            Ok(st) => if n <= lines.len() {
                spec_parse_line(st, lines[n - 1])
            } else {
                Ok(st)
            },
            Err(e) => Err(e),
        }
    }
}

/// The parser state after every line of the input, with all blocks
/// closed.
pub open spec fn spec_parse_state(input: Seq<char>) -> Result<ParserModel, ParserErrorModel> {
    let lines = lines_of(input);
    match parse_lines_upto(lines, lines.len()) {
        Ok(st) => spec_close_from(st, 0),
        Err(e) => Err(e),
    }
}

/// The blocks of the document that the input parses into, or the error.
pub open spec fn spec_parse(input: Seq<char>) -> Result<Seq<BlockModel>, ParserErrorModel> {
    match spec_parse_state(input) {
        Ok(st) => Ok(st.doc),
        Err(e) => Err(e),
    }
}

/// The value of an optional block.
pub open spec fn opt_block_value<'a>(o: Option<Block<'a>>) -> Option<BlockModel> {
    match o {
        Some(b) => Some(b@),
        None => None,
    }
}

/// The value of a parse result.
pub open spec fn parse_result_view<'a>(r: Result<Document<'a>, ParserError>) -> Result<
    Seq<BlockModel>,
    ParserErrorModel,
> {
    match r {
        Ok(d) => Ok(d@),
        Err(e) => Err(e@),
    }
}

/// Closing from a position leaves exactly the blocks before it open.
pub proof fn lemma_close_from_len(st: ParserModel, idx: nat)
    requires
        idx <= st.stack.len(),
    ensures
        spec_close_from(st, idx) matches Ok(s) ==> s.stack.len() == idx,
    decreases st.stack.len(),
{
    if st.stack.len() > idx {
        let last = finished(st.stack.last());
        let rest = st.stack.drop_last();
        if rest.len() > 0 {
            if let Some(p) = adopt(rest.last(), last) {
                lemma_close_from_len(ParserModel { doc: st.doc, stack: rest.drop_last().push(p) }, idx);
            }
        }
    }
}

/// Once reading lines fails, it fails with the same error.
proof fn lemma_upto_err(lines: Seq<Seq<char>>, i: nat, n: nat)
    requires
        i <= n,
        parse_lines_upto(lines, i) is Err,
    ensures
        parse_lines_upto(lines, n) == parse_lines_upto(lines, i),
    decreases n - i,
{
    if i < n {
        lemma_upto_err(lines, i, (n - 1) as nat);
    }
}

/// A container's rest of line is always shorter than the line.
pub proof fn lemma_open_shortens(line: Seq<char>, last: Option<BlockModel>)
    ensures
        spec_try_open(line, last) matches OpenModel::Continue(_, l) ==> l.len() < line.len(),
{
    lemma_lead_len(line, CharClass::Exactly(' '));
    if let Some(k) = indent_end(line) {
        let s = line.skip(k as int);
        lemma_lead_len(s, marker_stop(false));
        let end = lead_len(s, marker_stop(false));
        if end == 0 {
            assert(s.take(0) =~= Seq::<char>::empty());
        }
    }
}

pub fn parse<'a>(input: &'a str) -> (r: Result<Document<'a>, ParserError>)
    ensures
        parse_result_view(r) == spec_parse(input@),
{
    let mut parser = Parser::new();
    parser.parse(input)?;
    Ok(parser.into_document())
}

struct Parser<'a> {
    doc: Vec<Block<'a>>,
    stack: Vec<Block<'a>>,
}

impl<'a> View for Parser<'a> {
    type V = ParserModel;

    closed spec fn view(&self) -> ParserModel {
        ParserModel { doc: blocks_view(self.doc@), stack: blocks_view(self.stack@) }
    }
}

impl<'a> Parser<'a> {
    fn new() -> (p: Self)
        ensures
            p@ == empty_state(),
    {
        let p = Parser { doc: Vec::new(), stack: Vec::new() };
        assert(p@.doc =~= Seq::<BlockModel>::empty());
        assert(p@.stack =~= Seq::<BlockModel>::empty());
        p
    }

    fn into_document(self) -> (d: Document<'a>)
        ensures
            d@ == self@.doc,
    {
        proof {
            lemma_document_from(self.doc);
        }
        Document::from(self.doc)
    }

    fn parse(&mut self, input: &'a str) -> (r: Result<(), ParserError>)
        requires
            old(self)@ == empty_state(),
        ensures
            match spec_parse_state(input@) {
                Ok(st) => r is Ok && final(self)@ == st,
                Err(e) => r matches Err(err) && err@ == e,
            },
    {
        let lines = split_lines(input);
        let ghost all = lines_of(input@);
        let mut i: usize = 0;
        while i < lines.len()
            invariant
                i <= lines@.len(),
                str_views(lines@) == all,
                all == lines_of(input@),
                parse_lines_upto(all, i as nat) == Ok::<ParserModel, ParserErrorModel>(self@),
            decreases lines@.len() - i,
        {
            assert(all[i as int] == lines@[i as int]@);
            let res = self.parse_line(lines[i]);
            match res {
                Ok(()) => {},
                Err(e) => {
                    proof {
                        lemma_upto_err(all, (i + 1) as nat, all.len());
                    }
                    return Err(e);
                },
            }
            i = i + 1;
        }
        self.close_from(0)
    }

    /// Reads a line into the parser.
    fn parse_line(&mut self, line: &'a str) -> (r: Result<(), ParserError>)
        ensures
            match spec_parse_line(old(self)@, line@) {
                Ok(st) => r is Ok && final(self)@ == st,
                Err(e) => r matches Err(err) && err@ == e,
            },
    {
        let (close_from, continuation, closed) = self.continue_phase(line);
        if closed {
            return self.close_from(close_from);
        }
        let (mut opened_blocks, leaf, continuation) = self.open_phase(close_from, continuation);
        if let Some(b) = leaf {
            self.close_from(close_from)?;
            let ghost mid = self.stack@;
            let ghost ob = opened_blocks@;
            self.stack.append(&mut opened_blocks);
            self.stack.push(b);
            proof {
                lemma_blocks_view_add(mid, ob);
                lemma_blocks_view_push(mid + ob, b);
                lemma_blocks_view_push(ob, b);
                assert(blocks_view(mid) + blocks_view(ob.push(b)) =~= blocks_view(mid)
                    + blocks_view(ob).push(b@));
            }
            return Ok(());
        }
        let ghost st0 = self@;
        let had_opened = opened_blocks.len() > 0;
        if had_opened {
            proof {
                lemma_close_from_len(self@, close_from as nat);
            }
            self.close_from(close_from)?;
            let ghost mid = self.stack@;
            let ghost ob = opened_blocks@;
            self.stack.append(&mut opened_blocks);
            proof {
                lemma_blocks_view_add(mid, ob);
            }
        }
        // Lazy continuation handling
        if !is_blank_str(continuation) && self.stack.len() > 0 {
            let n = self.stack.len();
            if let Block::Paragraph(_) = &self.stack[n - 1] {
                let ghost before = self.stack@;
                proof {
                    lemma_blocks_view_drop_last(before);
                }
                let b = self.stack.pop().unwrap();
                match b {
                    Block::Paragraph(InlineContent::Raw(mut lines)) => {
                        let ghost old_lines = lines@;
                        lines.push(continuation);
                        proof {
                            assert(str_views(lines@) =~= str_views(old_lines).push(continuation@));
                        }
                        let p = Block::Paragraph(InlineContent::Raw(lines));
                        let ghost rest = self.stack@;
                        self.stack.push(p);
                        proof {
                            lemma_blocks_view_push(rest, p);
                        }
                        return Ok(());
                    },
                    _ => {
                        return Err(ParserError::ExpectedRawContent);
                    },
                }
            }
        }
        if !had_opened {
            self.close_from(close_from)?;
        }
        self.remaining(continuation)
    }

    /// Handles the rest of a line after the blocks not continued closed.
    fn remaining(&mut self, continuation: &'a str) -> (r: Result<(), ParserError>)
        ensures
            match spec_remaining(old(self)@, continuation@) {
                Ok(st) => r is Ok && final(self)@ == st,
                Err(e) => r matches Err(err) && err@ == e,
            },
    {
        let blank = is_blank_str(continuation);
        if self.stack.len() > 0 {
            let ghost before = self.stack@;
            proof {
                lemma_blocks_view_drop_last(before);
            }
            let b = self.stack.pop().unwrap();
            let ghost rest = self.stack@;
            match b {
                Block::IndentedCode(ic) => {
                    match ic.content {
                        InlineContent::Raw(mut lines) => {
                            let ghost old_lines = lines@;
                            lines.push(continuation);
                            proof {
                                assert(str_views(lines@) =~= str_views(old_lines).push(
                                    continuation@,
                                ));
                            }
                            let nb = Block::IndentedCode(
                                IndentedCode { content: InlineContent::Raw(lines) },
                            );
                            self.stack.push(nb);
                            proof {
                                lemma_blocks_view_push(rest, nb);
                            }
                        },
                        InlineContent::Parsed(_) => {
                            return Err(ParserError::ExpectedRawContent);
                        },
                    }
                },
                Block::FencedCode(fc) => {
                    match fc.content {
                        InlineContent::Raw(mut lines) => {
                            let ghost old_lines = lines@;
                            lines.push(continuation);
                            proof {
                                assert(str_views(lines@) =~= str_views(old_lines).push(
                                    continuation@,
                                ));
                            }
                            let nb = Block::FencedCode(
                                FencedCode {
                                    content: InlineContent::Raw(lines),
                                    language: fc.language,
                                    ident: fc.ident,
                                    fence_type: fc.fence_type,
                                    fence_occ: fc.fence_occ,
                                },
                            );
                            self.stack.push(nb);
                            proof {
                                lemma_blocks_view_push(rest, nb);
                            }
                        },
                        InlineContent::Parsed(_) => {
                            return Err(ParserError::ExpectedRawContent);
                        },
                    }
                },
                other => {
                    self.stack.push(other);
                    proof {
                        lemma_blocks_view_push(rest, other);
                        assert(rest.push(other) =~= before);
                    }
                    if !blank {
                        let mut v = Vec::new();
                        v.push(continuation);
                        let p = Block::Paragraph(InlineContent::Raw(v));
                        proof {
                            assert(str_views(v@) =~= seq![continuation@]);
                            lemma_blocks_view_push(self.stack@, p);
                        }
                        self.stack.push(p);
                    }
                },
            }
        } else if !blank {
            let mut v = Vec::new();
            v.push(continuation);
            let p = Block::Paragraph(InlineContent::Raw(v));
            proof {
                assert(str_views(v@) =~= seq![continuation@]);
                lemma_blocks_view_push(self.stack@, p);
            }
            self.stack.push(p);
        }
        Ok(())
    }

    /// Reads the line against the open blocks.
    fn continue_phase(&self, line: &'a str) -> (r: (usize, &'a str, bool))
        ensures
            spec_continue_scan(self@.stack, 0, line@) == (r.0 as nat, r.1@, r.2),
            r.0 <= self@.stack.len(),
    {
        let mut continuation = line;
        let mut close_from: usize = 0;
        while close_from < self.stack.len()
            invariant
                close_from <= self.stack@.len(),
                spec_continue_scan(self@.stack, 0, line@) == spec_continue_scan(
                    self@.stack,
                    close_from as nat,
                    continuation@,
                ),
            decreases self.stack@.len() - close_from,
        {
            assert(self@.stack[close_from as int] == self.stack@[close_from as int]@);
            match try_continue(&self.stack[close_from], continuation) {
                ContinueResult::Continue(s) => {
                    continuation = s;
                    close_from = close_from + 1;
                },
                ContinueResult::Close => {
                    return (close_from, continuation, true);
                },
                ContinueResult::NotContinue => {
                    return (close_from, continuation, false);
                },
            }
        }
        (close_from, continuation, false)
    }

    /// Opens blocks on the rest of the line.
    fn open_phase(&self, close_from: usize, line: &'a str) -> (r: (
        Vec<Block<'a>>,
        Option<Block<'a>>,
        &'a str,
    ))
        requires
            close_from <= self@.stack.len(),
        ensures
            spec_open_scan(line@, opener_context(self@.stack, close_from as nat)) == (
                blocks_view(r.0@),
                opt_block_value(r.1),
                r.2@,
            ),
    {
        let mut opened_blocks: Vec<Block<'a>> = Vec::new();
        let mut continuation = line;
        let ghost last0 = opener_context(self@.stack, close_from as nat);
        let n = self.stack.len();
        let tip_paragraph = n > 0 && is_paragraph_block(&self.stack[n - 1]);
        proof {
            if n > 0 {
                lemma_blocks_view_drop_last(self.stack@);
            }
        }
        let mut result = if tip_paragraph {
            try_open(continuation, Some(&self.stack[n - 1]))
        } else if close_from > 0 {
            assert(self@.stack[close_from - 1] == self.stack@[close_from - 1]@);
            try_open(continuation, Some(&self.stack[close_from - 1]))
        } else {
            try_open(continuation, None)
        };
        proof {
            lemma_open_shortens(line@, last0);
            assert(blocks_view(opened_blocks@) =~= Seq::<BlockModel>::empty());
        }
        loop
            invariant
                close_from <= self@.stack.len(),
                last0 == opener_context(self@.stack, close_from as nat),
                spec_open_scan(line@, last0) == spec_open_from(
                    result@,
                    continuation@,
                    blocks_view(opened_blocks@),
                ),
                result@ matches OpenModel::Continue(_, l) ==> l.len() < continuation@.len(),
            decreases continuation@.len(),
        {
            let ghost r0 = result@;
            match result {
                OpenResult::Continue(b, l) => {
                    let ghost prev = opened_blocks@;
                    opened_blocks.push(b);
                    proof {
                        lemma_blocks_view_push(prev, b);
                        lemma_open_shortens(l@, None);
                    }
                    continuation = l;
                    result = try_open(continuation, None);
                },
                OpenResult::Opened(b) => {
                    assert(r0 == OpenModel::Opened(b@));
                    assert(opt_block_value(Some(b)) == Some(b@));
                    return (opened_blocks, Some(b), continuation);
                },
                OpenResult::NotOpened => {
                    assert(r0 == OpenModel::NotOpened);
                    return (opened_blocks, None, continuation);
                },
            }
        }
    }

    /// Closes open blocks on the stack starting from particular index inclusively
    fn close_from(&mut self, idx: usize) -> (r: Result<(), ParserError>)
        requires
            idx <= old(self)@.stack.len(),
        ensures
            match spec_close_from(old(self)@, idx as nat) {
                Ok(st) => r is Ok && final(self)@ == st,
                Err(e) => r matches Err(err) && err@ == e,
            },
            final(self)@ == spec_close_stop(old(self)@, idx as nat),
    {
        if self.stack.len() == 0 || idx == self.stack.len() {
            return Ok(());
        }
        let num_iters = self.stack.len() - idx;
        let mut k: usize = 0;
        while k < num_iters
            invariant
                k <= num_iters,
                num_iters == old(self)@.stack.len() - idx,
                self@.stack.len() + k == old(self)@.stack.len(),
                spec_close_from(self@, idx as nat) == spec_close_from(old(self)@, idx as nat),
                spec_close_stop(self@, idx as nat) == spec_close_stop(old(self)@, idx as nat),
            decreases num_iters - k,
        {
            let ghost before = self.stack@;
            proof {
                lemma_blocks_view_drop_last(before);
            }
            let last = finish_block(self.stack.pop().unwrap());
            if self.stack.len() == 0 {
                let ghost d = self.doc@;
                self.doc.push(last);
                proof {
                    lemma_blocks_view_push(d, last);
                }
                return Ok(());
            }
            let ghost rest = self.stack@;
            proof {
                lemma_blocks_view_drop_last(rest);
            }
            let n = self.stack.len();
            if !is_container_block(&self.stack[n - 1]) {
                let s = block_debug_string(&self.stack[n - 1]);
                return Err(ParserError::InvalidContainer { block_type: s });
            }
            let prev = self.stack.pop().unwrap();
            let nb = adopt_block(prev, last);
            proof {
                lemma_blocks_view_push(self.stack@, nb);
            }
            self.stack.push(nb);
            k = k + 1;
        }
        Ok(())
    }
}

fn is_paragraph_block(b: &Block) -> (r: bool)
    ensures
        r == b@ is Paragraph,
{
    if let Block::Paragraph(_) = b {
        true
    } else {
        false
    }
}

fn is_container_block(b: &Block) -> (r: bool)
    ensures
        r == is_container(b@),
{
    match b {
        Block::BlockQuote(_) | Block::List(_) | Block::ListItem(_) => true,
        _ => false,
    }
}

/// The container with the child appended.
fn adopt_block<'a>(parent: Block<'a>, child: Block<'a>) -> (r: Block<'a>)
    requires
        is_container(parent@),
    ensures
        adopt(parent@, child@) == Some(r@),
{
    match parent {
        Block::BlockQuote(mut bq) => {
            let ghost ch = bq.children@;
            bq.push(child);
            proof {
                lemma_blocks_view_push(ch, child);
            }
            Block::BlockQuote(bq)
        },
        Block::List(mut l) => {
            let ghost ch = l.items@;
            l.items.push(child);
            proof {
                lemma_blocks_view_push(ch, child);
            }
            Block::List(l)
        },
        Block::ListItem(mut li) => {
            let ghost ch = li.children@;
            li.children.push(child);
            proof {
                lemma_blocks_view_push(ch, child);
            }
            Block::ListItem(li)
        },
        other => {
            proof {
                assert(false);
            }
            other
        },
    }
}

/// Finishes a block as it is closed.
fn finish_block<'a>(b: Block<'a>) -> (r: Block<'a>)
    ensures
        r@ == finished(b@),
{
    match b {
        Block::IndentedCode(IndentedCode { content: InlineContent::Raw(mut lines) }) => {
            let ghost orig = str_views(lines@);
            while lines.len() > 0 && is_blank_str(lines[lines.len() - 1])
                invariant
                    drop_trailing_blank(str_views(lines@)) == drop_trailing_blank(orig),
                decreases lines@.len(),
            {
                let ghost before = lines@;
                proof {
                    assert(str_views(before).last() == before.last()@);
                    assert(str_views(before).drop_last() =~= str_views(before.drop_last()));
                }
                lines.pop();
                proof {
                    assert(lines@ =~= before.drop_last());
                }
            }
            Block::IndentedCode(IndentedCode { content: InlineContent::Raw(lines) })
        },
        other => other,
    }
}

/// The content of a block, and of every block nested in it, is raw.
pub open spec fn block_raw(b: BlockModel) -> bool
    decreases b,
{
    match b {
        BlockModel::ThematicBreak => true,
        BlockModel::ATXHeading(c, _) => c is Raw,
        BlockModel::IndentedCode(c) => c is Raw,
        BlockModel::FencedCode(c, _, _, _, _) => c is Raw,
        BlockModel::Paragraph(c) => c is Raw,
        BlockModel::BlockQuote(children) => all_raw(children),
        BlockModel::List(items, _, _) => all_raw(items),
        BlockModel::ListItem(children, _) => all_raw(children),
    }
}

/// Every one of the blocks is raw.
pub open spec fn all_raw(bs: Seq<BlockModel>) -> bool
    decreases bs,
{
    if bs.len() == 0 {
        true
    } else {
        all_raw(bs.subrange(0, bs.len() - 1)) && block_raw(bs[bs.len() - 1])
    }
}

pub proof fn lemma_all_raw(bs: Seq<BlockModel>)
    ensures
        all_raw(bs) <==> forall|i: int| 0 <= i < bs.len() ==> #[trigger] block_raw(bs[i]),
    decreases bs.len(),
{
    if bs.len() > 0 {
        let t = bs.subrange(0, bs.len() - 1);
        lemma_all_raw(t);
        if all_raw(bs) {
            assert forall|i: int| 0 <= i < bs.len() implies #[trigger] block_raw(bs[i]) by {
                if i < bs.len() - 1 {
                    assert(t[i] == bs[i]);
                }
            }
        }
        if forall|i: int| 0 <= i < bs.len() ==> #[trigger] block_raw(bs[i]) {
            assert forall|i: int| 0 <= i < t.len() implies #[trigger] block_raw(t[i]) by {
                assert(t[i] == bs[i]);
            }
            assert(all_raw(t));
            assert(block_raw(bs[bs.len() - 1]));
        }
    }
}

/// Every block of a sequence is raw.
pub open spec fn seq_raw(bs: Seq<BlockModel>) -> bool {
    forall|i: int| 0 <= i < bs.len() ==> #[trigger] block_raw(bs[i])
}

/// Every closed and open block of the state is raw.
pub open spec fn state_raw(st: ParserModel) -> bool {
    seq_raw(st.doc) && seq_raw(st.stack)
}

proof fn lemma_seq_raw_push(bs: Seq<BlockModel>, b: BlockModel)
    requires
        seq_raw(bs),
        block_raw(b),
    ensures
        seq_raw(bs.push(b)),
{
    assert forall|i: int| 0 <= i < bs.push(b).len() implies #[trigger] block_raw(bs.push(b)[i]) by {
        if i < bs.len() {
            assert(bs.push(b)[i] == bs[i]);
        }
    }
}

proof fn lemma_seq_raw_drop_last(bs: Seq<BlockModel>)
    requires
        seq_raw(bs),
        bs.len() > 0,
    ensures
        seq_raw(bs.drop_last()),
        block_raw(bs.last()),
{
    assert forall|i: int| 0 <= i < bs.drop_last().len() implies #[trigger] block_raw(
        bs.drop_last()[i],
    ) by {
        assert(bs.drop_last()[i] == bs[i]);
    }
}

proof fn lemma_seq_raw_add(a: Seq<BlockModel>, b: Seq<BlockModel>)
    requires
        seq_raw(a),
        seq_raw(b),
    ensures
        seq_raw(a + b),
{
    assert forall|i: int| 0 <= i < (a + b).len() implies #[trigger] block_raw((a + b)[i]) by {
        if i < a.len() {
            assert((a + b)[i] == a[i]);
        } else {
            assert((a + b)[i] == b[i - a.len()]);
        }
    }
}

proof fn lemma_adopt_raw(parent: BlockModel, child: BlockModel)
    requires
        block_raw(parent),
        block_raw(child),
    ensures
        adopt(parent, child) matches Some(p) ==> block_raw(p),
{
    match parent {
        BlockModel::BlockQuote(children) => {
            let nc = children.push(child);
            assert(nc.subrange(0, nc.len() - 1) =~= children);
        },
        BlockModel::List(items, _, _) => {
            let nc = items.push(child);
            assert(nc.subrange(0, nc.len() - 1) =~= items);
        },
        BlockModel::ListItem(children, _) => {
            let nc = children.push(child);
            assert(nc.subrange(0, nc.len() - 1) =~= children);
        },
        _ => {},
    }
}

/// Closing blocks keeps every block raw.
proof fn lemma_close_from_raw(st: ParserModel, idx: nat)
    requires
        state_raw(st),
    ensures
        spec_close_from(st, idx) matches Ok(s) ==> state_raw(s),
        spec_close_from(st, idx) matches Err(e) ==> e is InvalidContainer,
    decreases st.stack.len(),
{
    if st.stack.len() > idx {
        let last = finished(st.stack.last());
        let rest = st.stack.drop_last();
        lemma_seq_raw_drop_last(st.stack);
        if rest.len() == 0 {
            lemma_seq_raw_push(st.doc, last);
        } else {
            lemma_seq_raw_drop_last(rest);
            lemma_adopt_raw(rest.last(), last);
            if let Some(p) = adopt(rest.last(), last) {
                lemma_seq_raw_push(rest.drop_last(), p);
                lemma_close_from_raw(ParserModel { doc: st.doc, stack: rest.drop_last().push(p) }, idx);
            }
        }
    }
}

/// Every block that a line opens is raw.
proof fn lemma_open_raw(line: Seq<char>, last: Option<BlockModel>)
    ensures
        spec_try_open(line, last) matches OpenModel::Opened(b) ==> block_raw(b),
        spec_try_open(line, last) matches OpenModel::Continue(b, _) ==> block_raw(b),
{
    assert(all_raw(Seq::<BlockModel>::empty()));
}

proof fn lemma_open_from_raw(r: OpenModel, line: Seq<char>, opened: Seq<BlockModel>)
    requires
        seq_raw(opened),
        r matches OpenModel::Opened(b) ==> block_raw(b),
        r matches OpenModel::Continue(b, _) ==> block_raw(b),
    ensures
        seq_raw(spec_open_from(r, line, opened).0),
        spec_open_from(r, line, opened).1 matches Some(b) ==> block_raw(b),
    decreases line.len(),
{
    if let OpenModel::Continue(b, l) = r {
        lemma_seq_raw_push(opened, b);
        if l.len() < line.len() {
            lemma_open_raw(l, None);
            lemma_open_from_raw(spec_try_open(l, None), l, opened.push(b));
        }
    }
}

/// Reading a line keeps every block raw, and never meets parsed content.
pub proof fn lemma_parse_line_raw(st: ParserModel, line: Seq<char>)
    requires
        state_raw(st),
    ensures
        spec_parse_line(st, line) matches Ok(s) ==> state_raw(s),
        spec_parse_line(st, line) matches Err(e) ==> e is InvalidContainer,
{
    let (cf, cont, closed) = spec_continue_scan(st.stack, 0, line);
    lemma_close_from_raw(st, cf);
    if !closed {
        let last = opener_context(st.stack, cf);
        lemma_open_raw(cont, last);
        lemma_open_from_raw(spec_try_open(cont, last), cont, Seq::empty());
        let (opened, leaf, rest) = spec_open_scan(cont, last);
        match leaf {
            Some(b) => {
                if let Ok(s) = spec_close_from(st, cf) {
                    lemma_seq_raw_push(opened, b);
                    lemma_seq_raw_add(s.stack, opened.push(b));
                }
            },
            None => {
                lemma_finish_line_raw(st, cf, opened, rest);
            },
        }
    }
}

proof fn lemma_finish_line_raw(st: ParserModel, cf: nat, opened: Seq<BlockModel>, rest: Seq<char>)
    requires
        state_raw(st),
        seq_raw(opened),
    ensures
        spec_finish_line(st, cf, opened, rest) matches Ok(s) ==> state_raw(s),
        spec_finish_line(st, cf, opened, rest) matches Err(e) ==> e is InvalidContainer,
{
    lemma_close_from_raw(st, cf);
    let st1 = if opened.len() > 0 {
        match spec_close_from(st, cf) {
            Ok(s) => Ok(ParserModel { doc: s.doc, stack: s.stack + opened }),
            Err(e) => Err(e),
        }
    } else {
        Ok(st)
    };
    if let Ok(s) = spec_close_from(st, cf) {
        lemma_seq_raw_add(s.stack, opened);
    }
    if let Ok(s1) = st1 {
        assert(state_raw(s1));
        if !is_blank(rest) && s1.stack.len() > 0 && s1.stack.last() is Paragraph {
            lemma_seq_raw_drop_last(s1.stack);
            if let BlockModel::Paragraph(ContentModel::Raw(lines)) = s1.stack.last() {
                lemma_seq_raw_push(
                    s1.stack.drop_last(),
                    BlockModel::Paragraph(ContentModel::Raw(lines.push(rest))),
                );
            }
        } else if opened.len() > 0 {
            lemma_remaining_raw(s1, rest);
        } else {
            lemma_close_from_raw(s1, cf);
            if let Ok(s2) = spec_close_from(s1, cf) {
                lemma_remaining_raw(s2, rest);
            }
        }
    }
}

proof fn lemma_remaining_raw(st: ParserModel, rest: Seq<char>)
    requires
        state_raw(st),
    ensures
        spec_remaining(st, rest) matches Ok(s) ==> state_raw(s),
        spec_remaining(st, rest) matches Err(e) ==> e is InvalidContainer,
{
    let paragraph = BlockModel::Paragraph(ContentModel::Raw(seq![rest]));
    lemma_seq_raw_push(st.stack, paragraph);
    if st.stack.len() > 0 {
        lemma_seq_raw_drop_last(st.stack);
        match st.stack.last() {
            BlockModel::IndentedCode(ContentModel::Raw(lines)) => {
                lemma_seq_raw_push(
                    st.stack.drop_last(),
                    BlockModel::IndentedCode(ContentModel::Raw(lines.push(rest))),
                );
            },
            BlockModel::FencedCode(ContentModel::Raw(lines), language, ident, ft, occ) => {
                lemma_seq_raw_push(
                    st.stack.drop_last(),
                    BlockModel::FencedCode(
                        ContentModel::Raw(lines.push(rest)),
                        language,
                        ident,
                        ft,
                        occ,
                    ),
                );
            },
            _ => {},
        }
    }
}

proof fn lemma_upto_raw(lines: Seq<Seq<char>>, n: nat)
    ensures
        parse_lines_upto(lines, n) matches Ok(s) ==> state_raw(s),
        parse_lines_upto(lines, n) matches Err(e) ==> e is InvalidContainer,
    decreases n,
{
    if n > 0 {
        lemma_upto_raw(lines, (n - 1) as nat);
        if let Ok(st) = parse_lines_upto(lines, (n - 1) as nat) {
            if n <= lines.len() {
                lemma_parse_line_raw(st, lines[n - 1]);
            }
        }
    }
}

/// What parsing gives is raw: every heading, code block and paragraph of
/// the document, and of the blocks nested in it, holds the raw lines read
/// into it. Parsing fails only on an invalid container: never on parsed
/// content, never on an invalid child.
pub proof fn lemma_parse_raw(input: Seq<char>)
    ensures
        spec_parse(input) matches Ok(doc) ==> seq_raw(doc),
        spec_parse(input) matches Err(e) ==> e is InvalidContainer,
{
    let lines = lines_of(input);
    lemma_upto_raw(lines, lines.len());
    if let Ok(st) = parse_lines_upto(lines, lines.len()) {
        lemma_close_from_raw(st, 0);
    }
}

/// A block that holds other blocks.
pub open spec fn is_container(b: BlockModel) -> bool {
    ||| b is BlockQuote
    ||| b is List
    ||| b is ListItem
}

/// Every open block below the top of the stack is a container: no leaf
/// block holds an open block.
pub open spec fn stack_well_formed(stack: Seq<BlockModel>) -> bool {
    forall|i: int| 0 <= i < stack.len() - 1 ==> is_container(#[trigger] stack[i])
}

/// The blocks before position `n` are containers exactly where those of
/// `b` are.
pub open spec fn same_containers(a: Seq<BlockModel>, b: Seq<BlockModel>, n: int) -> bool {
    forall|i: int| 0 <= i < n ==> is_container(#[trigger] a[i]) == is_container(b[i])
}

proof fn lemma_close_from_shape(st: ParserModel, idx: nat)
    requires
        idx <= st.stack.len(),
    ensures
        spec_close_from(st, idx) matches Ok(s) ==> s.stack.len() == idx && same_containers(
            s.stack,
            st.stack,
            idx as int,
        ),
    decreases st.stack.len(),
{
    if st.stack.len() > idx {
        let last = finished(st.stack.last());
        let rest = st.stack.drop_last();
        if rest.len() > 0 {
            if let Some(p) = adopt(rest.last(), last) {
                let next = ParserModel { doc: st.doc, stack: rest.drop_last().push(p) };
                lemma_close_from_shape(next, idx);
                if let Ok(s) = spec_close_from(next, idx) {
                    assert forall|i: int| 0 <= i < idx implies is_container(#[trigger] s.stack[i])
                        == is_container(st.stack[i]) by {
                        assert(is_container(s.stack[i]) == is_container(next.stack[i]));
                        if i < rest.len() - 1 {
                            assert(next.stack[i] == st.stack[i]);
                        }
                    }
                }
            }
        }
    }
}

/// The blocks that a line continues are containers or code.
proof fn lemma_continue_scan_shape(stack: Seq<BlockModel>, i: nat, line: Seq<char>)
    requires
        i <= stack.len(),
        forall|j: int| 0 <= j < i ==> #[trigger] is_container(stack[j]) || is_code(Some(stack[j])),
    ensures
        spec_continue_scan(stack, i, line).0 <= stack.len(),
        forall|j: int|
            0 <= j < spec_continue_scan(stack, i, line).0 ==> #[trigger] is_container(stack[j])
                || is_code(Some(stack[j])),
    decreases stack.len() - i,
{
    if i < stack.len() {
        if let ContinueModel::Continue(s) = spec_try_continue(stack[i as int], line) {
            assert(is_container(stack[i as int]) || is_code(Some(stack[i as int])));
            lemma_continue_scan_shape(stack, i + 1, s);
        }
    }
}

/// Inside code a line opens nothing; a container that opens is a
/// container.
proof fn lemma_open_shape(line: Seq<char>, last: Option<BlockModel>)
    ensures
        is_code(last) ==> spec_try_open(line, last) is NotOpened,
        spec_try_open(line, last) matches OpenModel::Continue(b, _) ==> is_container(b),
{
}

proof fn lemma_open_from_shape(r: OpenModel, line: Seq<char>, opened: Seq<BlockModel>)
    requires
        forall|j: int| 0 <= j < opened.len() ==> is_container(#[trigger] opened[j]),
        r matches OpenModel::Continue(b, _) ==> is_container(b),
    ensures
        forall|j: int|
            0 <= j < spec_open_from(r, line, opened).0.len() ==> is_container(
                #[trigger] spec_open_from(r, line, opened).0[j],
            ),
        r is NotOpened ==> spec_open_from(r, line, opened) == (opened, None::<BlockModel>, line),
    decreases line.len(),
{
    if let OpenModel::Continue(b, l) = r {
        let o2 = opened.push(b);
        assert forall|j: int| 0 <= j < o2.len() implies is_container(#[trigger] o2[j]) by {
            if j < opened.len() {
                assert(o2[j] == opened[j]);
            }
        }
        if l.len() < line.len() {
            lemma_open_shape(l, None);
            lemma_open_from_shape(spec_try_open(l, None), l, o2);
            assert(spec_open_from(r, line, opened) == spec_open_from(spec_try_open(l, None), l, o2));
        } else {
            assert(spec_open_from(r, line, opened).0 == o2);
        }
    } else {
        assert(spec_open_from(r, line, opened).0 == opened);
    }
}

/// No leaf block ever holds an open block: reading a line into a state
/// whose open blocks below the top are all containers leaves such a
/// state.
pub proof fn lemma_parse_line_well_formed(st: ParserModel, line: Seq<char>)
    requires
        stack_well_formed(st.stack),
    ensures
        spec_parse_line(st, line) matches Ok(s) ==> stack_well_formed(s.stack),
{
    let (cf, cont, closed) = spec_continue_scan(st.stack, 0, line);
    lemma_continue_scan_shape(st.stack, 0, line);
    lemma_close_from_shape(st, cf);
    // Below the position reached, every block is a container.
    if let Ok(s) = spec_close_from(st, cf) {
        assert forall|i: int| 0 <= i < s.stack.len() - 1 implies is_container(
            #[trigger] s.stack[i],
        ) by {
            assert(is_container(s.stack[i]) == is_container(st.stack[i]));
        }
    }
    if !closed {
        let ctx = opener_context(st.stack, cf);
        lemma_open_shape(cont, ctx);
        lemma_open_from_shape(spec_try_open(cont, ctx), cont, Seq::empty());
        let (opened, leaf, rest) = spec_open_scan(cont, ctx);
        // When something opens, the block that the line continued last is
        // not code, so all blocks kept are containers.
        if (leaf is Some || opened.len() > 0) {
            if let Ok(s) = spec_close_from(st, cf) {
                assert(spec_try_open(cont, ctx) !is NotOpened);
                assert forall|i: int| 0 <= i < s.stack.len() implies is_container(
                    #[trigger] s.stack[i],
                ) by {
                    assert(is_container(s.stack[i]) == is_container(st.stack[i]));
                    if i == cf - 1 && i == st.stack.len() - 1 {
                        assert(is_container(st.stack[i]) || is_code(Some(st.stack[i])));
                        assert(!(st.stack.last() is Paragraph));
                        assert(ctx == Some(st.stack[i]));
                    }
                }
                if let Some(b) = leaf {
                    let ns = s.stack + opened.push(b);
                    assert forall|i: int| 0 <= i < ns.len() - 1 implies is_container(
                        #[trigger] ns[i],
                    ) by {
                        if i >= s.stack.len() {
                            assert(ns[i] == opened[i - s.stack.len()]);
                        }
                    }
                }
            }
        }
        match leaf {
            Some(b) => {},
            None => {
                lemma_finish_line_well_formed(st, cf, opened, rest);
            },
        }
    }
}

proof fn lemma_remaining_well_formed(st: ParserModel, rest: Seq<char>)
    requires
        stack_well_formed(st.stack),
        st.stack.len() > 0 ==> is_container(st.stack.last()) || is_code(Some(st.stack.last())),
    ensures
        spec_remaining(st, rest) matches Ok(s) ==> stack_well_formed(s.stack),
{
    if let Ok(s) = spec_remaining(st, rest) {
        if st.stack.len() > 0 {
            assert forall|i: int| 0 <= i < s.stack.len() - 1 implies is_container(
                #[trigger] s.stack[i],
            ) by {
                if i < st.stack.len() - 1 {
                    assert(s.stack[i] == st.stack[i]);
                } else {
                    assert(s.stack[i] == st.stack.last());
                }
            }
        }
    }
}

proof fn lemma_finish_line_well_formed(
    st: ParserModel,
    cf: nat,
    opened: Seq<BlockModel>,
    rest: Seq<char>,
)
    requires
        stack_well_formed(st.stack),
        cf <= st.stack.len(),
        forall|j: int| 0 <= j < cf ==> #[trigger] is_container(st.stack[j]) || is_code(Some(st.stack[j])),
        forall|j: int| 0 <= j < opened.len() ==> is_container(#[trigger] opened[j]),
        opened.len() > 0 && cf > 0 ==> is_container(st.stack[cf - 1]),
    ensures
        spec_finish_line(st, cf, opened, rest) matches Ok(s) ==> stack_well_formed(s.stack),
{
    lemma_close_from_shape(st, cf);
    let st1 = if opened.len() > 0 {
        match spec_close_from(st, cf) {
            Ok(s) => Ok(ParserModel { doc: s.doc, stack: s.stack + opened }),
            Err(e) => Err(e),
        }
    } else {
        Ok(st)
    };
    if let Ok(s1) = st1 {
        if opened.len() > 0 {
            let s = spec_close_from(st, cf)->Ok_0;
            assert forall|i: int| 0 <= i < s1.stack.len() implies is_container(#[trigger] s1.stack[i]) by {
                if i < s.stack.len() {
                    assert(is_container(s.stack[i]) == is_container(st.stack[i]));
                    if i < st.stack.len() - 1 {
                        assert(is_container(st.stack[i]));
                    }
                } else {
                    assert(s1.stack[i] == opened[i - s.stack.len()]);
                }
            }
        }
        if !is_blank(rest) && s1.stack.len() > 0 && s1.stack.last() is Paragraph {
            if let Ok(s) = spec_finish_line(st, cf, opened, rest) {
                assert forall|i: int| 0 <= i < s.stack.len() - 1 implies is_container(
                    #[trigger] s.stack[i],
                ) by {
                    assert(s.stack[i] == s1.stack[i]);
                }
            }
        } else if opened.len() > 0 {
            lemma_remaining_well_formed(s1, rest);
        } else {
            if let Ok(s2) = spec_close_from(s1, cf) {
                assert forall|i: int| 0 <= i < s2.stack.len() - 1 implies is_container(
                    #[trigger] s2.stack[i],
                ) by {
                    assert(is_container(s2.stack[i]) == is_container(st.stack[i]));
                }
                if s2.stack.len() > 0 {
                    assert(is_container(s2.stack.last()) == is_container(st.stack[cf - 1]));
                    assert(is_container(st.stack[cf - 1]) || is_code(Some(st.stack[cf - 1])));
                    if is_code(Some(st.stack[cf - 1])) && !is_container(s2.stack.last()) {
                        // closing from `cf` leaves the block at `cf - 1` as it was
                        lemma_close_from_keeps_below(st, cf);
                    }
                }
                lemma_remaining_well_formed(s2, rest);
            }
        }
    }
}

/// Closing from a position leaves the blocks below the one before it
/// unchanged, and that one too unless it is a container.
proof fn lemma_close_from_keeps_below(st: ParserModel, idx: nat)
    requires
        0 < idx <= st.stack.len(),
        !is_container(st.stack[idx - 1]),
    ensures
        spec_close_from(st, idx) matches Ok(s) ==> s.stack[idx - 1] == st.stack[idx - 1],
    decreases st.stack.len(),
{
    if st.stack.len() > idx {
        let last = finished(st.stack.last());
        let rest = st.stack.drop_last();
        if let Some(p) = adopt(rest.last(), last) {
            let next = ParserModel { doc: st.doc, stack: rest.drop_last().push(p) };
            assert(next.stack[idx - 1] == st.stack[idx - 1]);
            lemma_close_from_keeps_below(next, idx);
        }
    }
}

/// Closing succeeds when no leaf block holds an open block.
pub proof fn lemma_close_from_well_formed_ok(st: ParserModel, idx: nat)
    requires
        stack_well_formed(st.stack),
    ensures
        spec_close_from(st, idx) is Ok,
    decreases st.stack.len(),
{
    if st.stack.len() > idx {
        let last = finished(st.stack.last());
        let rest = st.stack.drop_last();
        if rest.len() > 0 {
            assert(rest.last() == st.stack[rest.len() - 1]);
            assert(is_container(rest.last()));
            let p = adopt(rest.last(), last)->Some_0;
            let next = ParserModel { doc: st.doc, stack: rest.drop_last().push(p) };
            assert forall|i: int| 0 <= i < next.stack.len() - 1 implies is_container(
                #[trigger] next.stack[i],
            ) by {
                assert(next.stack[i] == st.stack[i]);
            }
            lemma_close_from_well_formed_ok(next, idx);
        }
    }
}

/// A line read into a state whose blocks are raw and where no leaf block
/// holds an open block never fails.
proof fn lemma_parse_line_ok(st: ParserModel, line: Seq<char>)
    requires
        state_raw(st),
        stack_well_formed(st.stack),
    ensures
        spec_parse_line(st, line) is Ok,
{
    let (cf, cont, closed) = spec_continue_scan(st.stack, 0, line);
    lemma_parse_line_raw(st, line);
    lemma_close_from_well_formed_ok(st, cf);
}

proof fn lemma_upto_ok(lines: Seq<Seq<char>>, n: nat)
    ensures
        parse_lines_upto(lines, n) is Ok,
    decreases n,
{
    if n > 0 {
        lemma_upto_ok(lines, (n - 1) as nat);
        lemma_upto_raw(lines, (n - 1) as nat);
        lemma_upto_well_formed(lines, (n - 1) as nat);
        if n <= lines.len() {
            lemma_parse_line_ok(parse_lines_upto(lines, (n - 1) as nat)->Ok_0, lines[n - 1]);
        }
    }
}

proof fn lemma_upto_well_formed(lines: Seq<Seq<char>>, n: nat)
    ensures
        parse_lines_upto(lines, n) matches Ok(s) ==> stack_well_formed(s.stack),
    decreases n,
{
    if n > 0 {
        lemma_upto_well_formed(lines, (n - 1) as nat);
        if let Ok(st) = parse_lines_upto(lines, (n - 1) as nat) {
            if n <= lines.len() {
                lemma_parse_line_well_formed(st, lines[n - 1]);
            }
        }
    }
}

/// Parsing never fails: after every line of the input no leaf block holds
/// an open block, so closing the open blocks at the end succeeds, and
/// every text parses into a document.
pub proof fn lemma_parse_ok(input: Seq<char>)
    ensures
        parse_lines_upto(lines_of(input), lines_of(input).len()) matches Ok(st) ==> stack_well_formed(
            st.stack,
        ),
        spec_parse(input) is Ok,
{
    let lines = lines_of(input);
    lemma_upto_well_formed(lines, lines.len());
    lemma_upto_ok(lines, lines.len());
    lemma_close_from_well_formed_ok(parse_lines_upto(lines, lines.len())->Ok_0, 0);
}

/// Line endings do not change what a text parses into: writing each line
/// feed as a carriage return and a line feed gives the same result, where
/// no line ends in a carriage return already; so does a final line feed
/// after a text that ends in neither a line feed nor a carriage return, or
/// after the empty text.
pub proof fn lemma_parse_line_endings(s: Seq<char>)
    ensures
        no_cr_before_lf(s) ==> spec_parse(with_crlf(s)) == spec_parse(s),
        s.len() == 0 || (s.last() != '\n' && s.last() != '\r') ==> spec_parse(s.push('\n'))
            == spec_parse(s),
{
    if no_cr_before_lf(s) {
        lemma_lines_of_crlf(s);
    }
    if s.len() == 0 {
        let e = Seq::<char>::empty();
        let sn = s.push('\n');
        assert(sn[0] == '\n');
        assert(lead_len(sn, CharClass::Except('\n')) == 0);
        assert(sn.take(0) =~= e);
        assert(sn.skip(1) =~= e);
        assert(lines_of(sn) =~= seq![e]);
        assert(s =~= e);
        assert(lines_of(s) =~= Seq::<Seq<char>>::empty());
        assert(is_blank(e));
        assert(spec_continue_scan(Seq::empty(), 0, e) == (0nat, e, false));
        assert(!thematic_break_text(e));
        assert(lead_len(e, CharClass::Exactly('#')) == 0);
        assert(spec_list_marker(e, false) is None) by {
            assert(e.take(0) =~= e);
        }
        assert(spec_try_open(e, None) is NotOpened);
        assert(spec_parse_line(empty_state(), e) == Ok::<ParserModel, ParserErrorModel>(
            empty_state(),
        ));
        assert(parse_lines_upto(seq![e], 1) == parse_lines_upto(seq![e], 0));
    } else if s.last() != '\n' && s.last() != '\r' {
        lemma_lines_of_final_newline(s);
    }
}

/// Closing the top block into the container below it appends the block,
/// finished, as that container's last child, after the children it had;
/// the blocks below stay as they were, and the document is unchanged. So
/// the children of a container keep the order of the lines.
pub proof fn lemma_close_appends_child(st: ParserModel)
    requires
        st.stack.len() >= 2,
        is_container(st.stack[st.stack.len() - 2]),
    ensures
        ({
            let n = st.stack.len();
            let top = finished(st.stack[n - 1]);
            spec_close_from(st, (n - 1) as nat) matches Ok(s) && {
                &&& s.doc == st.doc
                &&& s.stack.len() == n - 1
                &&& s.stack.take(n - 2) == st.stack.take(n - 2)
                &&& st.stack[n - 2] matches BlockModel::BlockQuote(cs) ==> s.stack[n - 2]
                    == BlockModel::BlockQuote(cs.push(top))
                &&& st.stack[n - 2] matches BlockModel::List(items, t, tight) ==> s.stack[n - 2]
                    == BlockModel::List(items.push(top), t, tight)
                &&& st.stack[n - 2] matches BlockModel::ListItem(cs, p) ==> s.stack[n - 2]
                    == BlockModel::ListItem(cs.push(top), p)
            }
        }),
{
    let n = st.stack.len();
    let rest = st.stack.drop_last();
    assert(rest.last() == st.stack[n - 2]);
    let p = adopt(rest.last(), finished(st.stack.last()))->Some_0;
    let next = ParserModel { doc: st.doc, stack: rest.drop_last().push(p) };
    assert(spec_close_from(next, (n - 1) as nat) == Ok::<ParserModel, ParserErrorModel>(next));
    assert(next.stack.take(n - 2) =~= st.stack.take(n - 2));
}

/// Closing from position 0 closes every open block and adds exactly one
/// block to the document, the outermost, when any was open; closing from
/// a later position leaves the document as it was.
pub proof fn lemma_close_from_doc(st: ParserModel, idx: nat)
    ensures
        spec_close_from(st, idx) matches Ok(s) ==> {
            &&& s.doc.take(st.doc.len() as int) == st.doc
            &&& idx > 0 || st.stack.len() == 0 ==> s.doc == st.doc
            &&& idx == 0 && st.stack.len() > 0 ==> s.doc.len() == st.doc.len() + 1 && s.stack.len()
                == 0
        },
    decreases st.stack.len(),
{
    if st.stack.len() > idx {
        let last = finished(st.stack.last());
        let rest = st.stack.drop_last();
        if rest.len() == 0 {
            assert(st.doc.push(last).take(st.doc.len() as int) =~= st.doc);
        } else if let Some(p) = adopt(rest.last(), last) {
            lemma_close_from_doc(ParserModel { doc: st.doc, stack: rest.drop_last().push(p) }, idx);
        }
    } else {
        assert(st.doc.take(st.doc.len() as int) =~= st.doc);
    }
}

} // verus!
