//! Recognition of the block that a line opens.
use vstd::prelude::*;
use vstd::string::*;

use super::utils::{code_indent, code_indent_end, indent_end, indented_list_marker, spec_list_marker};
use crate::markdown::block::{
    ATXHeading, ATXHeadingLevel, Block, BlockModel, BlockQuote, ContentModel, FenceType, FencedCode,
    IndentedCode, InlineContent, List, blocks_view, level_from_number, level_number,
};
use crate::text::{
    CharClass, chars_vec, in_class, is_blank, is_blank_str, is_whitespace, lead_count, lead_len,
    lemma_lead_len, lemma_lead_len_unique, skip_chars, str_views,
    strip_prefix_char, trim_end_by, trim_end_seq, trim_start_by,
    trim_start_seq, first_field,
};

verus! {

broadcast use vstd::string::group_string_axioms;

/// What a line does when read as the start of a block.
#[derive(PartialEq, Debug, Clone)]
pub enum OpenResult<'a> {
    /// A container block opens; the rest of the line is to be read on.
    Continue(Block<'a>, &'a str),
    /// A leaf block opens and takes the line.
    Opened(Block<'a>),
    NotOpened,
}

pub enum OpenModel {
    Continue(BlockModel, Seq<char>),
    Opened(BlockModel),
    NotOpened,
}

impl<'a> View for OpenResult<'a> {
    type V = OpenModel;

    open spec fn view(&self) -> OpenModel {
        match self {
            OpenResult::Continue(b, s) => OpenModel::Continue(b@, s@),
            OpenResult::Opened(b) => OpenModel::Opened(b@),
            OpenResult::NotOpened => OpenModel::NotOpened,
        }
    }
}

/// The value of an optional block reference.
pub open spec fn opt_block_view<'a>(last: Option<&Block<'a>>) -> Option<BlockModel> {
    match last {
        Some(b) => Some(b@),
        None => None,
    }
}

pub open spec fn is_paragraph(last: Option<BlockModel>) -> bool {
    last matches Some(BlockModel::Paragraph(..))
}

/// The block is code, fenced or indented: the rest of its lines is its
/// text, and opens nothing.
pub open spec fn is_code(last: Option<BlockModel>) -> bool {
    ||| last matches Some(BlockModel::FencedCode(..))
    ||| last matches Some(BlockModel::IndentedCode(..))
}

/// A block holding one raw line.
pub open spec fn raw_line(s: Seq<char>) -> ContentModel {
    ContentModel::Raw(seq![s])
}

/// Indented code: a line that is not blank, indented by four spaces or by
/// a tab that reaches the fourth column; not where it would interrupt a
/// paragraph or stand inside code.
pub open spec fn spec_open_indented_code(line: Seq<char>, last: Option<BlockModel>) -> OpenModel {
    if is_paragraph(last) || is_code(last) || is_blank(line) {
        OpenModel::NotOpened
    } else {
        match code_indent_end(line) {
            Some(k) => OpenModel::Opened(BlockModel::IndentedCode(raw_line(line.skip(k as int)))),
            None => OpenModel::NotOpened,
        }
    }
}

pub open spec fn is_thematic_marker(c: char) -> bool {
    c == '-' || c == '_' || c == '*'
}

/// The number of occurrences of `c` in `s`.
pub open spec fn count_char(s: Seq<char>, c: char) -> nat
    decreases s.len(),
{
    if s.len() == 0 {
        0
    } else {
        count_char(s.drop_last(), c) + if s.last() == c {
            1nat
        } else {
            0nat
        }
    }
}

/// `s` holds one kind of marker (`-`, `_` or `*`) at least 3 times, and
/// nothing else but spaces and tabs.
pub open spec fn thematic_break_text(s: Seq<char>) -> bool {
    exists|m: char|
        #![trigger count_char(s, m)]
        {
            &&& is_thematic_marker(m)
            &&& forall|i: int| 0 <= i < s.len() ==> #[trigger] s[i] == m || s[i] == ' ' || s[i] == '\t'
            &&& count_char(s, m) >= 3
        }
}

/// A thematic break: at most 3 spaces, then a line of one marker kind.
pub open spec fn spec_open_thematic_break(line: Seq<char>, last: Option<BlockModel>) -> OpenModel {
    let k = lead_len(line, CharClass::Exactly(' '));
    let rest = line.skip(k as int);
    if is_code(last) || k > 3 || lead_len(rest, CharClass::Exactly('\t')) > 0 {
        OpenModel::NotOpened
    } else if thematic_break_text(rest) {
        OpenModel::Opened(BlockModel::ThematicBreak)
    } else {
        OpenModel::NotOpened
    }
}

/// The content of an ATX heading, from the text after its opening
/// markers and the whitespace after them: without trailing whitespace, and
/// without a closing sequence of `#` when whitespace precedes it (the
/// whitespace after the opening markers counts: a closing sequence alone
/// leaves the heading empty).
pub open spec fn atx_content(text: Seq<char>) -> Seq<char> {
    let aw = trim_end_seq(text, CharClass::Whitespace);
    let acs = trim_end_seq(aw, CharClass::Exactly('#'));
    let awa = trim_end_seq(acs, CharClass::Whitespace);
    if acs.len() == aw.len() {
        acs
    } else if awa.len() == acs.len() && acs.len() > 0 {
        aw
    } else {
        awa
    }
}

/// An ATX heading: at most 3 spaces, 1 to 6 `#`, then whitespace or the
/// end of the line.
pub open spec fn spec_open_atx_heading(line: Seq<char>, last: Option<BlockModel>) -> OpenModel {
    let k = lead_len(line, CharClass::Exactly(' '));
    let after_indent = line.skip(k as int);
    let level = lead_len(after_indent, CharClass::Exactly('#'));
    let after_markers = after_indent.skip(level as int);
    let ws = lead_len(after_markers, CharClass::Whitespace);
    if is_code(last) || k > 3 || level == 0 || level > 6 {
        OpenModel::NotOpened
    } else {
        match level_from_number(level as u8) {
            Ok(l) => if ws == 0 {
                if after_markers.len() == 0 {
                    OpenModel::Opened(BlockModel::ATXHeading(raw_line(Seq::empty()), l))
                } else {
                    OpenModel::NotOpened
                }
            } else {
                OpenModel::Opened(
                    BlockModel::ATXHeading(raw_line(atx_content(after_markers.skip(ws as int))), l),
                )
            },
            Err(_) => OpenModel::NotOpened,
        }
    }
}

/// The fence at the start of `s`: its kind and length.
pub open spec fn spec_fence(s: Seq<char>) -> Option<(FenceType, nat)> {
    let t = lead_len(s, CharClass::Exactly('~'));
    let b = lead_len(s, CharClass::Exactly('`'));
    if t > 0 {
        Some((FenceType::Tilda, t))
    } else if b > 0 {
        Some((FenceType::Backtick, b))
    } else {
        None
    }
}

/// The info string's first word: after leading whitespace, up to a space.
pub open spec fn fence_language(after_fence: Seq<char>) -> Seq<char> {
    let t = trim_start_seq(after_fence, CharClass::Whitespace);
    t.take(lead_len(t, CharClass::Except(' ')) as int)
}

/// The text has a backtick.
pub open spec fn has_backtick(s: Seq<char>) -> bool {
    lead_len(s, CharClass::Except('`')) < s.len()
}

/// A fenced code block: at most 3 spaces and no tab, then 3 or more `~`
/// or backticks; after backticks, the info string holds no backtick. Not
/// inside code.
pub open spec fn spec_open_fenced_code(line: Seq<char>, last: Option<BlockModel>) -> OpenModel {
    let k = lead_len(line, CharClass::Exactly(' '));
    let after_indent = line.skip(k as int);
    if is_code(last) || k > 3 || lead_len(after_indent, CharClass::Exactly('\t')) > 0 {
        OpenModel::NotOpened
    } else {
        match spec_fence(after_indent) {
            None => OpenModel::NotOpened,
            Some((ft, occ)) => {
                if occ <= 2 {
                    OpenModel::NotOpened
                } else if ft == FenceType::Backtick && has_backtick(after_indent.skip(occ as int)) {
                    OpenModel::NotOpened
                } else {
                    OpenModel::Opened(
                        BlockModel::FencedCode(
                            ContentModel::Raw(Seq::empty()),
                            fence_language(after_indent.skip(occ as int)),
                            k as usize,
                            ft,
                            occ as usize,
                        ),
                    )
                }
            },
        }
    }
}

/// A block quote: at most 3 spaces and no tab, then `>` and an optional
/// space; the rest of the line is read on.
pub open spec fn spec_open_block_quote(line: Seq<char>, last: Option<BlockModel>) -> OpenModel {
    let k = lead_len(line, CharClass::Exactly(' '));
    let after_indent = line.skip(k as int);
    let after_marker = after_indent.drop_first();
    if is_code(last) || k > 3 || lead_len(after_indent, CharClass::Exactly('\t')) > 0 {
        OpenModel::NotOpened
    } else if after_indent.len() == 0 || after_indent[0] != '>' {
        OpenModel::NotOpened
    } else if after_marker.len() > 0 && after_marker[0] == ' ' {
        OpenModel::Continue(BlockModel::BlockQuote(Seq::empty()), after_marker.drop_first())
    } else {
        OpenModel::Continue(BlockModel::BlockQuote(Seq::empty()), after_marker)
    }
}

/// A list: block indentation, then a list marker ended by a space or the
/// end of the line; the rest of the line is read on.
pub open spec fn spec_open_list(line: Seq<char>, last: Option<BlockModel>) -> OpenModel {
    if is_code(last) {
        OpenModel::NotOpened
    } else {
        match indent_end(line) {
            None => OpenModel::NotOpened,
            Some(k) => match spec_list_marker(line.skip(k as int), false) {
                Some((t, rest)) => OpenModel::Continue(BlockModel::List(Seq::empty(), t, true), rest),
                None => OpenModel::NotOpened,
            },
        }
    }
}

/// The block that a line opens, tried in order: indented code, thematic
/// break, ATX heading, fenced code (leaf blocks), then block quote and
/// list (containers).
pub open spec fn spec_try_open(line: Seq<char>, last: Option<BlockModel>) -> OpenModel {
    if spec_open_indented_code(line, last) is Opened {
        spec_open_indented_code(line, last)
    } else if spec_open_thematic_break(line, last) is Opened {
        spec_open_thematic_break(line, last)
    } else if spec_open_atx_heading(line, last) is Opened {
        spec_open_atx_heading(line, last)
    } else if spec_open_fenced_code(line, last) is Opened {
        spec_open_fenced_code(line, last)
    } else if spec_open_block_quote(line, last) is Continue {
        spec_open_block_quote(line, last)
    } else if spec_open_list(line, last) is Continue {
        spec_open_list(line, last)
    } else {
        OpenModel::NotOpened
    }
}

pub fn try_open<'a>(line: &'a str, last: Option<&Block<'a>>) -> (r: OpenResult<'a>)
    ensures
        r@ == spec_try_open(line@, opt_block_view(last)),
{
    if let OpenResult::Opened(b) = try_open_idented_code(line, last) {
        return OpenResult::Opened(b);
    }
    if let OpenResult::Opened(b) = try_open_thematic_break(line, last) {
        return OpenResult::Opened(b);
    }
    if let OpenResult::Opened(b) = try_open_atx_heading(line, last) {
        return OpenResult::Opened(b);
    }
    if let OpenResult::Opened(b) = try_open_fenced_code(line, last) {
        return OpenResult::Opened(b);
    }
    if let OpenResult::Opened(b) = try_open_link_reference(line, last) {
        return OpenResult::Opened(b);
    }
    if let OpenResult::Continue(b, s) = try_open_block_quote(line, last) {
        return OpenResult::Continue(b, s);
    }
    if let OpenResult::Continue(b, s) = try_open_list(line, last) {
        return OpenResult::Continue(b, s);
    }
    OpenResult::NotOpened
}

pub fn try_open_idented_code<'a>(line: &'a str, last: Option<&Block<'a>>) -> (r: OpenResult<'a>)
    ensures
        r@ == spec_open_indented_code(line@, opt_block_view(last)),
{
    if let Some(Block::Paragraph(_)) = last {
        return OpenResult::NotOpened;
    }
    if let Some(Block::FencedCode(_)) = last {
        return OpenResult::NotOpened;
    }
    if let Some(Block::IndentedCode(_)) = last {
        return OpenResult::NotOpened;
    }
    if is_blank_str(line) {
        return OpenResult::NotOpened;
    }
    match code_indent(line) {
        Some(k) => {
            let s = skip_chars(line, k);
            let mut v = Vec::new();
            v.push(s);
            proof {
                assert(str_views(v@) =~= seq![s@]);
            }
            OpenResult::Opened(Block::IndentedCode(IndentedCode { content: InlineContent::Raw(v) }))
        },
        None => OpenResult::NotOpened,
    }
}

proof fn lemma_count_zero(s: Seq<char>, m: char)
    requires
        forall|i: int| 0 <= i < s.len() ==> s[i] != m,
    ensures
        count_char(s, m) == 0,
    decreases s.len(),
{
    if s.len() > 0 {
        let t = s.drop_last();
        assert forall|i: int| 0 <= i < t.len() implies t[i] != m by {
            assert(t[i] == s[i]);
        }
        lemma_count_zero(t, m);
        assert(s[s.len() - 1] != m);
    }
}

/// Whether `s` is the text of a thematic break.
fn is_thematic_break_text(s: &str) -> (b: bool)
    ensures
        b == thematic_break_text(s@),
{
    let cs = chars_vec(s);
    let mut mark: Option<char> = None;
    let ghost mut w: int = 0;
    let mut occ: usize = 0;
    let mut i: usize = 0;
    while i < cs.len()
        invariant
            cs@ == s@,
            i <= cs@.len(),
            occ <= i,
            mark is None ==> occ == 0 && forall|j: int|
                0 <= j < i ==> #[trigger] cs@[j] == ' ' || cs@[j] == '\t',
            mark matches Some(t) ==> {
                &&& is_thematic_marker(t)
                &&& 0 <= w < i
                &&& cs@[w] == t
                &&& forall|j: int| 0 <= j < i ==> #[trigger] cs@[j] == t || cs@[j] == ' ' || cs@[j] == '\t'
                &&& occ == count_char(cs@.take(i as int), t)
            },
        decreases cs@.len() - i,
    {
        let ch = cs[i];
        proof {
            assert(cs@.take(i + 1).drop_last() =~= cs@.take(i as int));
        }
        if ch == '-' || ch == '_' || ch == '*' {
            match mark {
                Some(t) => {
                    if t != ch {
                        proof {
                            if thematic_break_text(s@) {
                                let m = choose|m: char|
                                    #![trigger count_char(s@, m)]
                                    {
                                        &&& is_thematic_marker(m)
                                        &&& forall|i: int|
                                            0 <= i < s@.len() ==> #[trigger] s@[i] == m || s@[i]
                                                == ' ' || s@[i] == '\t'
                                        &&& count_char(s@, m) >= 3
                                    };
                                assert(s@[i as int] == m || s@[i as int] == ' ' || s@[i as int] == '\t');
                                assert(s@[w] == m || s@[w] == ' ' || s@[w] == '\t');
                            }
                        }
                        return false;
                    } else {
                        occ = occ + 1;
                    }
                },
                None => {
                    mark = Some(ch);
                    proof {
                        w = i as int;
                        assert(cs@.take(i as int).len() == i);
                        lemma_count_zero(cs@.take(i as int), ch);
                    }
                    occ = occ + 1;
                },
            }
        } else if ch == ' ' || ch == '\t' {
            proof {
                if mark is Some {
                    let t = mark->0;
                    assert(cs@.take(i + 1).last() != t);
                }
            }
        } else {
            proof {
                if thematic_break_text(s@) {
                    let m = choose|m: char|
                        #![trigger count_char(s@, m)]
                        {
                            &&& is_thematic_marker(m)
                            &&& forall|i: int|
                                0 <= i < s@.len() ==> #[trigger] s@[i] == m || s@[i] == ' ' || s@[i]
                                    == '\t'
                            &&& count_char(s@, m) >= 3
                        };
                    assert(s@[i as int] == m || s@[i as int] == ' ' || s@[i as int] == '\t');
                }
            }
            return false;
        }
        i = i + 1;
    }
    proof {
        assert(cs@.take(i as int) =~= s@);
        if thematic_break_text(s@) {
            let m = choose|m: char|
                #![trigger count_char(s@, m)]
                {
                    &&& is_thematic_marker(m)
                    &&& forall|i: int|
                        0 <= i < s@.len() ==> #[trigger] s@[i] == m || s@[i] == ' ' || s@[i] == '\t'
                    &&& count_char(s@, m) >= 3
                };
            match mark {
                None => {
                    assert forall|j: int| 0 <= j < s@.len() implies s@[j] != m by {
                        assert(cs@[j] == ' ' || cs@[j] == '\t');
                    }
                    lemma_count_zero(s@, m);
                },
                Some(t) => {
                    assert(s@[w] == m || s@[w] == ' ' || s@[w] == '\t');
                },
            }
        }
        if occ >= 3 {
            let t = mark->0;
            assert(count_char(s@, t) >= 3);
        }
    }
    occ >= 3
}

pub fn try_open_thematic_break<'a>(line: &'a str, last: Option<&Block<'a>>) -> (r: OpenResult<'a>)
    ensures
        r@ == spec_open_thematic_break(line@, opt_block_view(last)),
{
    if let Some(Block::FencedCode(_)) = last {
        return OpenResult::NotOpened;
    }
    if let Some(Block::IndentedCode(_)) = last {
        return OpenResult::NotOpened;
    }
    let k = lead_count(line, CharClass::Exactly(' '));
    if k > 3 {
        return OpenResult::NotOpened;
    }
    let after_space_indent = skip_chars(line, k);
    if lead_count(after_space_indent, CharClass::Exactly('\t')) > 0 {
        return OpenResult::NotOpened;
    }
    if !is_thematic_break_text(after_space_indent) {
        return OpenResult::NotOpened;
    }
    OpenResult::Opened(Block::ThematicBreak)
}

fn one_line<'a>(s: &'a str) -> (c: InlineContent<'a>)
    ensures
        c@ == raw_line(s@),
{
    let mut v = Vec::new();
    v.push(s);
    proof {
        assert(str_views(v@) =~= seq![s@]);
    }
    InlineContent::Raw(v)
}

pub fn try_open_atx_heading<'a>(line: &'a str, last: Option<&Block<'a>>) -> (r: OpenResult<'a>)
    ensures
        r@ == spec_open_atx_heading(line@, opt_block_view(last)),
{
    if let Some(Block::FencedCode(_)) = last {
        return OpenResult::NotOpened;
    }
    if let Some(Block::IndentedCode(_)) = last {
        return OpenResult::NotOpened;
    }
    let k = lead_count(line, CharClass::Exactly(' '));
    if k > 3 {
        return OpenResult::NotOpened;
    }
    let after_indent = skip_chars(line, k);
    let level = lead_count(after_indent, CharClass::Exactly('#'));
    if level == 0 || level > 6 {
        return OpenResult::NotOpened;
    }
    let after_markers = skip_chars(after_indent, level);
    let level = match ATXHeadingLevel::try_from(level as u8) {
        Ok(l) => l,
        Err(_) => {
            return OpenResult::NotOpened;
        },
    };
    let ws = lead_count(after_markers, CharClass::Whitespace);
    if ws == 0 {
        if after_markers.unicode_len() == 0 {
            proof {
                assert(""@.len() == 0) by {
                    reveal_strlit("");
                }
                assert(""@ =~= Seq::<char>::empty());
            }
            return OpenResult::Opened(Block::ATXHeading(ATXHeading { content: one_line(""), level }));
        }
        return OpenResult::NotOpened;
    }
    let after_whitespaces_before = skip_chars(after_markers, ws);
    let after_whitespaces = trim_end_by(after_whitespaces_before, CharClass::Whitespace);
    let after_closing_seq = trim_end_by(after_whitespaces, CharClass::Exactly('#'));
    if after_closing_seq.unicode_len() == after_whitespaces.unicode_len() {
        return OpenResult::Opened(
            Block::ATXHeading(ATXHeading { content: one_line(after_closing_seq), level }),
        );
    }
    let after_whitespaces_after = trim_end_by(after_closing_seq, CharClass::Whitespace);
    if after_whitespaces_after.unicode_len() == after_closing_seq.unicode_len()
        && after_closing_seq.unicode_len() > 0 {
        return OpenResult::Opened(
            Block::ATXHeading(ATXHeading { content: one_line(after_whitespaces), level }),
        );
    }
    OpenResult::Opened(
        Block::ATXHeading(ATXHeading { content: one_line(after_whitespaces_after), level }),
    )
}

/// The fence at the start of `s`: its kind and length.
fn fence_of(s: &str) -> (r: Option<(FenceType, usize)>)
    ensures
        match spec_fence(s@) {
            Some((ft, n)) => r matches Some((ft2, n2)) && ft2 == ft && n2 == n && n <= s@.len(),
            None => r is None,
        },
{
    proof {
        lemma_lead_len(s@, CharClass::Exactly('~'));
        lemma_lead_len(s@, CharClass::Exactly('`'));
    }
    let t = lead_count(s, CharClass::Exactly('~'));
    if t > 0 {
        return Some((FenceType::Tilda, t));
    }
    let b = lead_count(s, CharClass::Exactly('`'));
    if b > 0 {
        return Some((FenceType::Backtick, b));
    }
    None
}

pub fn try_open_fenced_code<'a>(line: &'a str, last: Option<&Block<'a>>) -> (r: OpenResult<'a>)
    ensures
        r@ == spec_open_fenced_code(line@, opt_block_view(last)),
{
    if let Some(Block::FencedCode(_)) = last {
        return OpenResult::NotOpened;
    }
    if let Some(Block::IndentedCode(_)) = last {
        return OpenResult::NotOpened;
    }
    let indent_size = lead_count(line, CharClass::Exactly(' '));
    if indent_size > 3 {
        return OpenResult::NotOpened;
    }
    let after_indent = skip_chars(line, indent_size);
    if lead_count(after_indent, CharClass::Exactly('\t')) > 0 {
        return OpenResult::NotOpened;
    }
    let (fence_type, fence_occ) = match fence_of(after_indent) {
        Some(f) => f,
        None => {
            return OpenResult::NotOpened;
        },
    };
    if fence_occ <= 2 {
        return OpenResult::NotOpened;
    }
    let after_fence = skip_chars(after_indent, fence_occ);
    if fence_type == FenceType::Backtick && lead_count(after_fence, CharClass::Except('`'))
        < after_fence.unicode_len() {
        return OpenResult::NotOpened;
    }
    let language = first_field(trim_start_by(after_fence, CharClass::Whitespace), ' ');
    let content = InlineContent::Raw(Vec::new());
    proof {
        assert(str_views(Seq::<&str>::empty()) =~= Seq::<Seq<char>>::empty());
    }
    OpenResult::Opened(
        Block::FencedCode(
            FencedCode { content, language, ident: indent_size, fence_type, fence_occ },
        ),
    )
}

/// Link reference definitions are not recognised yet: after checking the
/// indentation this never opens a block.
pub fn try_open_link_reference<'a>(line: &'a str, last: Option<&Block<'a>>) -> (r: OpenResult<
    'a,
>)
    ensures
        r == OpenResult::<'a>::NotOpened,
{
    if let Some(Block::Paragraph(_)) = last {
        return OpenResult::NotOpened;
    }
    if let Some(Block::FencedCode(_)) = last {
        return OpenResult::NotOpened;
    }
    let indent_size = lead_count(line, CharClass::Exactly(' '));
    if indent_size > 3 {
        return OpenResult::NotOpened;
    }
    let after_indent = skip_chars(line, indent_size);
    if lead_count(after_indent, CharClass::Exactly('\t')) > 0 {
        return OpenResult::NotOpened;
    }
    OpenResult::NotOpened
}

pub fn try_open_block_quote<'a>(line: &'a str, last: Option<&Block<'a>>) -> (r: OpenResult<'a>)
    ensures
        r@ == spec_open_block_quote(line@, opt_block_view(last)),
{
    if let Some(Block::FencedCode(_)) = last {
        return OpenResult::NotOpened;
    }
    if let Some(Block::IndentedCode(_)) = last {
        return OpenResult::NotOpened;
    }
    let indent_size = lead_count(line, CharClass::Exactly(' '));
    if indent_size > 3 {
        return OpenResult::NotOpened;
    }
    let after_indent = skip_chars(line, indent_size);
    if lead_count(after_indent, CharClass::Exactly('\t')) > 0 {
        return OpenResult::NotOpened;
    }
    let after_marker = match strip_prefix_char(after_indent, '>') {
        Some(s) => s,
        None => {
            return OpenResult::NotOpened;
        },
    };
    let after_space = match strip_prefix_char(after_marker, ' ') {
        Some(s) => s,
        None => after_marker,
    };
    let children: Vec<Block<'a>> = Vec::new();
    proof {
        assert(blocks_view(children@) =~= Seq::<BlockModel>::empty());
    }
    let quote = Block::BlockQuote(BlockQuote { children });
    OpenResult::Continue(quote, after_space)
}

pub fn try_open_list<'a>(line: &'a str, last: Option<&Block<'a>>) -> (r: OpenResult<'a>)
    ensures
        r@ == spec_open_list(line@, opt_block_view(last)),
{
    if let Some(Block::FencedCode(_)) = last {
        return OpenResult::NotOpened;
    }
    if let Some(Block::IndentedCode(_)) = last {
        return OpenResult::NotOpened;
    }
    match indented_list_marker(line) {
        Some((lt, continuation)) => {
            let items: Vec<Block<'a>> = Vec::new();
            proof {
                assert(blocks_view(items@) =~= Seq::<BlockModel>::empty());
            }
            let list = Block::List(List { items, list_type: lt, tight: true });
            OpenResult::Continue(list, continuation)
        },
        None => OpenResult::NotOpened,
    }
}

/// A thematic break opens whatever else the line could start: a line with
/// at most 3 spaces, then no tab, then 3 or more of one marker among `-`,
/// `_` and `*` with only spaces and tabs besides, opens a thematic break
/// (and not a list) wherever the block before is not code.
pub proof fn lemma_thematic_break_opens(line: Seq<char>, last: Option<BlockModel>)
    requires
        !is_code(last),
        lead_len(line, CharClass::Exactly(' ')) <= 3,
        thematic_break_text(line.skip(lead_len(line, CharClass::Exactly(' ')) as int)),
        line.skip(lead_len(line, CharClass::Exactly(' ')) as int).len() > 0 ==> line.skip(
            lead_len(line, CharClass::Exactly(' ')) as int,
        )[0] != '\t',
    ensures
        spec_try_open(line, last) == OpenModel::Opened(BlockModel::ThematicBreak),
{
    let k = lead_len(line, CharClass::Exactly(' '));
    let rest = line.skip(k as int);
    lemma_lead_len(line, CharClass::Exactly(' '));
    let m = choose|m: char|
        #![trigger count_char(rest, m)]
        {
            &&& is_thematic_marker(m)
            &&& forall|i: int| 0 <= i < rest.len() ==> #[trigger] rest[i] == m || rest[i] == ' ' || rest[i]
                == '\t'
            &&& count_char(rest, m) >= 3
        };
    if rest.len() == 0 {
        assert(count_char(rest, m) == 0);
    }
    assert(rest.len() > 0);
    assert(line[k as int] == rest[0]);
    assert(code_indent_end(line) is None);
    assert(lead_len(rest, CharClass::Exactly('\t')) == 0);
}

/// The level of an opened ATX heading is the number of `#` that open it.
pub proof fn lemma_atx_level_counts_markers(line: Seq<char>, last: Option<BlockModel>)
    ensures
        spec_open_atx_heading(line, last) matches OpenModel::Opened(
            BlockModel::ATXHeading(_, l),
        ) ==> level_number(l) == lead_len(
            line.skip(lead_len(line, CharClass::Exactly(' ')) as int),
            CharClass::Exactly('#'),
        ),
{
}

/// `n` spaces.
pub open spec fn spaces(n: nat) -> Seq<char> {
    Seq::new(n, |i: int| ' ')
}

proof fn lemma_spaces_lead(n: nat, r: Seq<char>)
    requires
        r.len() > 0 ==> r[0] != ' ',
    ensures
        lead_len(spaces(n) + r, CharClass::Exactly(' ')) == n,
        (spaces(n) + r).skip(n as int) == r,
{
    let line = spaces(n) + r;
    assert forall|i: int| 0 <= i < n implies in_class(#[trigger] line[i], CharClass::Exactly(' ')) by {
        assert(line[i] == ' ');
    }
    if n < line.len() {
        assert(line[n as int] == r[0]);
    }
    lemma_lead_len_unique(line, CharClass::Exactly(' '), n as int);
    assert(line.skip(n as int) =~= r);
}

/// A quote marker opens a block quote: a line of at most 3 spaces, `>`
/// and a rest opens a block quote, empty so far, and the rest, without one
/// space after the marker, is read on; wherever the block before is not
/// code.
pub proof fn lemma_quote_marker_opens(k: nat, r: Seq<char>, last: Option<BlockModel>)
    requires
        k <= 3,
        !is_code(last),
    ensures
        spec_try_open(spaces(k) + seq!['>'] + r, last) == OpenModel::Continue(
            BlockModel::BlockQuote(Seq::empty()),
            if r.len() > 0 && r[0] == ' ' {
                r.drop_first()
            } else {
                r
            },
        ),
{
    let after = seq!['>'] + r;
    let line = spaces(k) + after;
    assert(spaces(k) + seq!['>'] + r =~= line);
    lemma_spaces_lead(k, after);
    assert(line[k as int] == '>');
    assert(code_indent_end(line) is None);
    assert(!thematic_break_text(after)) by {
        if thematic_break_text(after) {
            let m = choose|m: char|
                #![trigger count_char(after, m)]
                {
                    &&& is_thematic_marker(m)
                    &&& forall|i: int|
                        0 <= i < after.len() ==> #[trigger] after[i] == m || after[i] == ' ' || after[i]
                            == '\t'
                    &&& count_char(after, m) >= 3
                };
            assert(after[0] == m || after[0] == ' ' || after[0] == '\t');
        }
    }
    assert(lead_len(after, CharClass::Exactly('#')) == 0);
    assert(lead_len(after, CharClass::Exactly('~')) == 0);
    assert(lead_len(after, CharClass::Exactly('`')) == 0);
    assert(lead_len(after, CharClass::Exactly('\t')) == 0);
    assert(after.drop_first() =~= r);
}

/// Indented code opens on a line that is not blank and is indented by four
/// spaces, or by up to three spaces and a tab; its first line is the rest
/// of the line. Not after a paragraph, nor inside code.
pub proof fn lemma_indented_code_opens(k: nat, r: Seq<char>, last: Option<BlockModel>)
    requires
        k <= 3,
        !is_blank(r),
        !is_paragraph(last),
        !is_code(last),
    ensures
        spec_try_open(spaces(4) + r, last) == OpenModel::Opened(
            BlockModel::IndentedCode(raw_line(r)),
        ),
        spec_try_open(spaces(k) + seq!['\t'] + r, last) == OpenModel::Opened(
            BlockModel::IndentedCode(raw_line(r)),
        ),
{
    let i = choose|i: int| 0 <= i < r.len() && !is_whitespace(#[trigger] r[i]);
    let l1 = spaces(4) + r;
    assert(l1[4 + i] == r[i]);
    lemma_lead_len(l1, CharClass::Exactly(' '));
    assert forall|j: int| 0 <= j < 4 implies in_class(#[trigger] l1[j], CharClass::Exactly(' ')) by {
        assert(l1[j] == ' ');
    }
    if lead_len(l1, CharClass::Exactly(' ')) < 4 {
        let n = lead_len(l1, CharClass::Exactly(' ')) as int;
        assert(in_class(l1[n], CharClass::Exactly(' ')));
    }
    assert(l1.skip(4) =~= r);
    let t = seq!['\t'] + r;
    let l2 = spaces(k) + t;
    assert(spaces(k) + seq!['\t'] + r =~= l2);
    lemma_spaces_lead(k, t);
    assert(l2[k as int] == '\t');
    assert(l2[k + 1 + i] == r[i]);
    assert(l2.skip(k as int + 1) =~= r);
}

/// The language of fenced code is the first word of its info string: it
/// holds no space, and the info string, without its leading whitespace,
/// begins with it and goes on, if at all, with a space.
pub proof fn lemma_fence_language_first_word(after_fence: Seq<char>)
    ensures
        ({
            let t = trim_start_seq(after_fence, CharClass::Whitespace);
            let w = fence_language(after_fence);
            &&& forall|i: int| 0 <= i < w.len() ==> #[trigger] w[i] != ' '
            &&& w.len() <= t.len() && t.take(w.len() as int) == w
            &&& w.len() < t.len() ==> t[w.len() as int] == ' '
        }),
{
    let t = trim_start_seq(after_fence, CharClass::Whitespace);
    lemma_lead_len(t, CharClass::Except(' '));
    let w = fence_language(after_fence);
    assert forall|i: int| 0 <= i < w.len() implies #[trigger] w[i] != ' ' by {
        assert(w[i] == t[i]);
        assert(in_class(t[i], CharClass::Except(' ')));
    }
}

} // verus!
