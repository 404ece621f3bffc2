//! Whether a line continues a block that is open.
use vstd::prelude::*;

use super::openers::{OpenModel, raw_line, spec_fence, spec_open_block_quote, spec_open_indented_code};
use super::utils::{code_indent, code_indent_end, parse_list_marker, spec_list_marker};
use crate::markdown::block::{
    Block, BlockModel, FenceType, FencedCode, List, ListItem, ListType, same_list_kind,
};
use crate::text::{
    CharClass, chars_vec, is_blank, is_blank_str, lead_count, lead_len, lead_count_from, skip_chars,
    strip_prefix_char,
};

verus! {

/// What a line does to an open block.
#[derive(PartialEq, Debug, Clone)]
pub enum ContinueResult<'a> {
    /// The block goes on; the rest of the line is read on.
    Continue(&'a str),
    NotContinue,
    /// The line closes the block.
    Close,
}

pub enum ContinueModel {
    Continue(Seq<char>),
    NotContinue,
    Close,
}

impl<'a> View for ContinueResult<'a> {
    type V = ContinueModel;

    open spec fn view(&self) -> ContinueModel {
        match self {
            ContinueResult::Continue(s) => ContinueModel::Continue(s@),
            ContinueResult::NotContinue => ContinueModel::NotContinue,
            ContinueResult::Close => ContinueModel::Close,
        }
    }
}

/// Indented code goes on with lines indented by four spaces or by a tab
/// that reaches the fourth column, which the code line does not keep, and
/// with blank lines.
pub open spec fn spec_continue_indented_code(line: Seq<char>) -> ContinueModel {
    match code_indent_end(line) {
        Some(k) => ContinueModel::Continue(line.skip(k as int)),
        None => if is_blank(line) {
            ContinueModel::Continue(Seq::empty())
        } else {
            ContinueModel::NotContinue
        },
    }
}

/// The text is only spaces and tabs.
pub open spec fn spaces_and_tabs(s: Seq<char>) -> bool {
    lead_len(s, CharClass::Either(' ', '\t')) == s.len()
}

/// Fenced code goes on until a line with at most 3 spaces and no tab, then
/// a fence of its kind at least as long as its opening fence, followed by
/// nothing but spaces and tabs.
pub open spec fn spec_continue_fenced_code(
    fence_type: FenceType,
    fence_occ: usize,
    line: Seq<char>,
) -> ContinueModel {
    let k = lead_len(line, CharClass::Exactly(' '));
    let after_indent = line.skip(k as int);
    if k > 3 || lead_len(after_indent, CharClass::Exactly('\t')) > 0 {
        ContinueModel::Continue(line)
    } else {
        match spec_fence(after_indent) {
            Some((ft, n)) => if ft == fence_type && n >= fence_occ && spaces_and_tabs(
                after_indent.skip(n as int),
            ) {
                ContinueModel::Close
            } else {
                ContinueModel::Continue(line)
            },
            None => ContinueModel::Continue(line),
        }
    }
}

/// A block quote goes on with lines beginning, after at most 3 spaces,
/// with `>`, which is dropped with one space after it.
pub open spec fn spec_continue_blockquote(line: Seq<char>) -> ContinueModel {
    let k = lead_len(line, CharClass::Exactly(' '));
    let after_indent = line.skip(k as int);
    let after_marker = after_indent.drop_first();
    if k > 3 || after_indent.len() == 0 || after_indent[0] != '>' {
        ContinueModel::NotContinue
    } else if after_marker.len() > 0 && after_marker[0] == ' ' {
        ContinueModel::Continue(after_marker.drop_first())
    } else {
        ContinueModel::Continue(after_marker)
    }
}

/// A list goes on unless the line starts with a list marker of another
/// kind.
pub open spec fn spec_continue_list(list_type: ListType, line: Seq<char>) -> ContinueModel {
    match spec_list_marker(line, true) {
        Some((t, _)) => if same_list_kind(t, list_type) {
            ContinueModel::Continue(line)
        } else {
            ContinueModel::NotContinue
        },
        None => ContinueModel::Continue(line),
    }
}

/// A list item goes on with lines that begin with at least `padding`
/// spaces or newlines and are longer than that.
pub open spec fn spec_continue_list_item(padding: usize, line: Seq<char>) -> ContinueModel {
    if padding < line.len() && lead_len(line, CharClass::Either(' ', '\n')) >= padding {
        ContinueModel::Continue(line.skip(padding as int))
    } else {
        ContinueModel::NotContinue
    }
}

/// What a line does to an open block.
pub open spec fn spec_try_continue(block: BlockModel, line: Seq<char>) -> ContinueModel {
    match block {
        BlockModel::ThematicBreak => ContinueModel::NotContinue,
        BlockModel::ATXHeading(..) => ContinueModel::NotContinue,
        BlockModel::Paragraph(..) => ContinueModel::NotContinue,
        BlockModel::List(_, t, _) => spec_continue_list(t, line),
        BlockModel::ListItem(_, padding) => spec_continue_list_item(padding, line),
        BlockModel::IndentedCode(..) => spec_continue_indented_code(line),
        BlockModel::FencedCode(_, _, _, ft, occ) => spec_continue_fenced_code(ft, occ, line),
        BlockModel::BlockQuote(..) => spec_continue_blockquote(line),
    }
}

pub fn try_continue<'a>(block: &Block, line: &'a str) -> (r: ContinueResult<'a>)
    ensures
        r@ == spec_try_continue(block@, line@),
{
    match block {
        Block::ThematicBreak | Block::ATXHeading(_) | Block::Paragraph(_) => {
            ContinueResult::NotContinue
        },
        Block::List(list) => try_continue_list(list, line),
        Block::ListItem(li) => try_continue_list_item(li, line),
        Block::IndentedCode(_) => try_continue_indented_code(line),
        Block::FencedCode(fc) => try_continue_fenced_code(fc, line),
        Block::BlockQuote(_) => try_continue_blockquote(line),
    }
}

pub fn try_continue_indented_code<'a>(line: &'a str) -> (r: ContinueResult<'a>)
    ensures
        r@ == spec_continue_indented_code(line@),
{
    match code_indent(line) {
        Some(k) => ContinueResult::Continue(skip_chars(line, k)),
        None => if is_blank_str(line) {
            proof {
                reveal_strlit("");
                assert(""@ =~= Seq::<char>::empty());
            }
            ContinueResult::Continue("")
        } else {
            ContinueResult::NotContinue
        },
    }
}

pub fn try_continue_fenced_code<'a>(fc: &FencedCode, line: &'a str) -> (r: ContinueResult<'a>)
    ensures
        r@ == spec_continue_fenced_code(fc.fence_type, fc.fence_occ, line@),
{
    let indent_size = lead_count(line, CharClass::Exactly(' '));
    if indent_size > 3 {
        return ContinueResult::Continue(line);
    }
    let after_indent = skip_chars(line, indent_size);
    if lead_count(after_indent, CharClass::Exactly('\t')) > 0 {
        return ContinueResult::Continue(line);
    }
    let tildes = lead_count(after_indent, CharClass::Exactly('~'));
    let (fence_type, fence_occ) = if tildes > 0 {
        (FenceType::Tilda, tildes)
    } else {
        let backticks = lead_count(after_indent, CharClass::Exactly('`'));
        if backticks == 0 {
            return ContinueResult::Continue(line);
        }
        (FenceType::Backtick, backticks)
    };
    // Closing sequence found
    if fence_type == fc.fence_type && fence_occ >= fc.fence_occ {
        let after_fence = skip_chars(after_indent, fence_occ);
        if lead_count(after_fence, CharClass::Either(' ', '\t')) == after_fence.unicode_len() {
            return ContinueResult::Close;
        }
    }
    ContinueResult::Continue(line)
}

pub fn try_continue_blockquote<'a>(line: &'a str) -> (r: ContinueResult<'a>)
    ensures
        r@ == spec_continue_blockquote(line@),
{
    let indent_size = lead_count(line, CharClass::Exactly(' '));
    if indent_size > 3 {
        return ContinueResult::NotContinue;
    }
    let after_indent = skip_chars(line, indent_size);
    match strip_prefix_char(after_indent, '>') {
        Some(after_marker) => match strip_prefix_char(after_marker, ' ') {
            Some(after_space) => ContinueResult::Continue(after_space),
            None => ContinueResult::Continue(after_marker),
        },
        None => ContinueResult::NotContinue,
    }
}

pub fn try_continue_list<'a>(list: &List, line: &'a str) -> (r: ContinueResult<'a>)
    ensures
        r@ == spec_continue_list(list.list_type, line@),
{
    if let Some((list_type, _)) = parse_list_marker(line) {
        if !list_type.same_variant(&list.list_type) {
            return ContinueResult::NotContinue;
        }
    }
    ContinueResult::Continue(line)
}

pub fn try_continue_list_item<'a>(li: &ListItem, line: &'a str) -> (r: ContinueResult<'a>)
    ensures
        r@ == spec_continue_list_item(li.padding, line@),
{
    let cs = chars_vec(line);
    assert(cs@.skip(0) =~= cs@);
    let k = lead_count_from(&cs, 0, CharClass::Either(' ', '\n'));
    if li.padding < cs.len() && k >= li.padding {
        return ContinueResult::Continue(skip_chars(line, li.padding));
    }
    ContinueResult::NotContinue
}

/// Only fenced code is closed by a line; every other block either goes on
/// or does not.
pub proof fn lemma_only_fenced_code_closes(block: BlockModel, line: Seq<char>)
    ensures
        spec_try_continue(block, line) is Close ==> block is FencedCode,
{
}

/// The character of a fence kind.
pub open spec fn fence_char(ft: FenceType) -> char {
    match ft {
        FenceType::Backtick => '`',
        FenceType::Tilda => '~',
    }
}

/// A line either closes fenced code or is taken whole as its content; it
/// closes exactly when, after at most 3 spaces, it holds at least as many
/// fence characters of the block's kind as the opening fence (and at least
/// one), followed by nothing but spaces and tabs. A shorter fence is
/// content.
pub proof fn lemma_fenced_code_close(fence_type: FenceType, fence_occ: usize, line: Seq<char>)
    ensures
        spec_continue_fenced_code(fence_type, fence_occ, line) is Close
            || spec_continue_fenced_code(fence_type, fence_occ, line) == ContinueModel::Continue(line),
        spec_continue_fenced_code(fence_type, fence_occ, line) is Close <==> {
            let k = lead_len(line, CharClass::Exactly(' '));
            let after = line.skip(k as int);
            let n = lead_len(after, CharClass::Exactly(fence_char(fence_type)));
            &&& k <= 3
            &&& n >= fence_occ
            &&& n >= 1
            &&& spaces_and_tabs(after.skip(n as int))
        },
{
    let k = lead_len(line, CharClass::Exactly(' '));
    let after = line.skip(k as int);
    let c = fence_char(fence_type);
    let n = lead_len(after, CharClass::Exactly(c));
    let t = lead_len(after, CharClass::Exactly('~'));
    let b = lead_len(after, CharClass::Exactly('`'));
    if after.len() > 0 {
        if after[0] == '~' {
            assert(b == 0);
            assert(lead_len(after, CharClass::Exactly('\t')) == 0);
        } else if after[0] == '`' {
            assert(t == 0);
            assert(lead_len(after, CharClass::Exactly('\t')) == 0);
        } else {
            assert(t == 0 && b == 0 && n == 0);
        }
    } else {
        assert(t == 0 && b == 0 && n == 0);
    }
}

/// A line continues a block quote exactly when it would open one, with the
/// same rest.
pub proof fn lemma_quote_continue_matches_open(line: Seq<char>)
    ensures
        spec_continue_blockquote(line) is NotContinue <==> spec_open_block_quote(line, None) is NotOpened,
        spec_continue_blockquote(line) matches ContinueModel::Continue(r) ==> spec_open_block_quote(
            line,
            None,
        ) == OpenModel::Continue(BlockModel::BlockQuote(Seq::empty()), r),
{
    let k = lead_len(line, CharClass::Exactly(' '));
    let after = line.skip(k as int);
    if after.len() > 0 && after[0] == '>' {
        assert(lead_len(after, CharClass::Exactly('\t')) == 0);
    }
}

/// A line that is not blank goes on in indented code exactly when it would
/// open indented code, and the code line is the same.
pub proof fn lemma_code_continue_matches_open(line: Seq<char>)
    requires
        !is_blank(line),
    ensures
        spec_continue_indented_code(line) is NotContinue <==> spec_open_indented_code(line, None) is NotOpened,
        spec_continue_indented_code(line) matches ContinueModel::Continue(r) ==> spec_open_indented_code(
            line,
            None,
        ) == OpenModel::Opened(BlockModel::IndentedCode(raw_line(r))),
{
}

/// Indented code goes on over every blank line.
pub proof fn lemma_code_continues_over_blank(line: Seq<char>)
    requires
        is_blank(line),
    ensures
        spec_continue_indented_code(line) is Continue,
{
}

} // verus!
