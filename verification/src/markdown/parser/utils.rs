//! Indentation and list markers.
use vstd::prelude::*;

use crate::markdown::block::ListType;
use crate::text::{
    CharClass, chars_vec, in_class, lead_count_from, lead_len, lemma_lead_len, lemma_lead_len_unique,
    skip_chars,
};

verus! {

/// Where the content of a line starts when its indentation is block
/// indentation: at most 3 spaces and no tab after them.
pub open spec fn indent_end(line: Seq<char>) -> Option<nat> {
    let k = lead_len(line, CharClass::Exactly(' '));
    if k >= 4 {
        None
    } else if k < line.len() && line[k as int] == '\t' {
        None
    } else {
        Some(k)
    }
}

/// Where the content of indented code starts on a line: after four
/// spaces, or after up to three spaces and a tab (which reaches the fourth
/// column).
pub open spec fn code_indent_end(line: Seq<char>) -> Option<nat> {
    let k = lead_len(line, CharClass::Exactly(' '));
    if k >= 4 {
        Some(4)
    } else if k < line.len() && line[k as int] == '\t' {
        Some(k + 1)
    } else {
        None
    }
}

/// The line without up to 3 spaces of indentation, or `None` when its
/// indentation holds a tab or 4 or more spaces.
pub open spec fn spec_strip_indent(line: Seq<char>) -> Option<Seq<char>> {
    match indent_end(line) {
        Some(k) => Some(line.skip(k as int)),
        None => None,
    }
}

pub open spec fn is_ascii_digit(c: char) -> bool {
    ||| c == '0'
    ||| c == '1'
    ||| c == '2'
    ||| c == '3'
    ||| c == '4'
    ||| c == '5'
    ||| c == '6'
    ||| c == '7'
    ||| c == '8'
    ||| c == '9'
}

pub open spec fn digit_value(c: char) -> nat {
    ((c as u32) - ('0' as u32)) as nat
}

pub open spec fn all_digits(s: Seq<char>) -> bool {
    forall|i: int| 0 <= i < s.len() ==> is_ascii_digit(#[trigger] s[i])
}

/// The number that a sequence of decimal digits writes.
pub open spec fn decimal_value(s: Seq<char>) -> nat
    decreases s.len(),
{
    if s.len() == 0 {
        0
    } else {
        decimal_value(s.drop_last()) * 10 + digit_value(s.last())
    }
}

/// The list type that a marker token stands for: a single `-`, `+` or
/// `*`, or 1 to 9 digits followed by `.` or `)`.
pub open spec fn token_list_type(tok: Seq<char>) -> Option<ListType> {
    if tok.len() == 1 && tok[0] == '-' {
        Some(ListType::UnorderedMinus)
    } else if tok.len() == 1 && tok[0] == '+' {
        Some(ListType::UnorderedPlus)
    } else if tok.len() == 1 && tok[0] == '*' {
        Some(ListType::UnorderedAsterisk)
    } else if 2 <= tok.len() <= 10 && all_digits(tok.drop_last()) && tok.last() == '.' {
        Some(ListType::OrderedDot(decimal_value(tok.drop_last()) as u32))
    } else if 2 <= tok.len() <= 10 && all_digits(tok.drop_last()) && tok.last() == ')' {
        Some(ListType::OrdererParentheses(decimal_value(tok.drop_last()) as u32))
    } else {
        None
    }
}

/// The characters that end a list marker: a space, and also a tab when
/// `tab_ends` holds.
pub open spec fn marker_stop(tab_ends: bool) -> CharClass {
    if tab_ends {
        CharClass::Neither(' ', '\t')
    } else {
        CharClass::Except(' ')
    }
}

/// The list marker at the start of `s`: its list type and what follows the
/// character that ends it (nothing, when no such character follows).
pub open spec fn spec_list_marker(s: Seq<char>, tab_ends: bool) -> Option<(ListType, Seq<char>)> {
    let end = lead_len(s, marker_stop(tab_ends));
    let rest = if end < s.len() {
        s.skip(end + 1 as int)
    } else {
        Seq::<char>::empty()
    };
    match token_list_type(s.take(end as int)) {
        Some(t) => Some((t, rest)),
        None => None,
    }
}

pub proof fn lemma_decimal_bound(s: Seq<char>)
    requires
        all_digits(s),
    ensures
        s.len() <= 9 ==> decimal_value(s) < 1_000_000_000,
        s.len() <= 8 ==> decimal_value(s) < 100_000_000,
        decimal_value(s) < pow10(s.len()),
    decreases s.len(),
{
    if s.len() > 0 {
        let t = s.drop_last();
        assert(all_digits(t)) by {
            assert forall|i: int| 0 <= i < t.len() implies is_ascii_digit(#[trigger] t[i]) by {
                assert(t[i] == s[i]);
            }
        }
        lemma_decimal_bound(t);
        assert(is_ascii_digit(s[s.len() - 1]));
        assert(digit_value(s.last()) < 10);
        lemma_pow10_step(t.len());
        lemma_pow10_mono(s.len());
    }
}

pub open spec fn pow10(n: nat) -> nat
    decreases n,
{
    if n == 0 {
        1
    } else {
        10 * pow10((n - 1) as nat)
    }
}

proof fn lemma_pow10_step(n: nat)
    ensures
        pow10(n + 1) == 10 * pow10(n),
{
}

proof fn lemma_pow10_mono(n: nat)
    ensures
        n <= 9 ==> pow10(n) <= 1_000_000_000,
        n <= 8 ==> pow10(n) <= 100_000_000,
{
    reveal_with_fuel(pow10, 10);
}

/// A token that is a whole marker stops being one when anything follows.
proof fn lemma_complete_marker_extended(tok: Seq<char>, more: Seq<char>)
    requires
        token_list_type(tok) is Some,
        more.len() > 0,
    ensures
        token_list_type(tok + more) is None,
{
    let t = tok + more;
    assert(t[0] == tok[0]);
    if tok.len() >= 2 {
        assert(t.drop_last()[tok.len() - 1] == tok.last());
    } else {
        assert(t.len() >= 2);
        assert(t.drop_last()[0] == tok[0]);
    }
}

/// A token whose character at `j`, before the last one, is not a digit is
/// no marker unless it has a single character.
proof fn lemma_non_digit_inside(tok: Seq<char>, j: int)
    requires
        0 <= j < tok.len() - 1,
        !is_ascii_digit(tok[j]),
    ensures
        token_list_type(tok) is None,
{
    assert(tok.drop_last()[j] == tok[j]);
}

/// The exec state of the marker scan after reading `prefix`.
pub open spec fn scan_state(
    prefix: Seq<char>,
    list_type: Option<ListType>,
    order: Option<u32>,
    digit_count: u8,
) -> bool {
    match (list_type, order) {
        (None, None) => prefix.len() == 0 && digit_count == 0,
        (None, Some(v)) => {
            &&& 1 <= prefix.len() <= 9
            &&& all_digits(prefix)
            &&& v == decimal_value(prefix)
            &&& digit_count == prefix.len()
        },
        (Some(t), _) => token_list_type(prefix) == Some(t),
    }
}

pub fn is_digit_char(c: char) -> (b: bool)
    ensures
        b == is_ascii_digit(c),
        b ==> digit_value(c) < 10 && c as u32 >= '0' as u32,
{
    c == '0' || c == '1' || c == '2' || c == '3' || c == '4' || c == '5' || c == '6' || c == '7'
        || c == '8' || c == '9'
}

/// Scans the list marker in `cs` from position `from`. On success returns
/// its type and the position where the rest starts.
fn scan_list_marker(cs: &Vec<char>, from: usize, tab_ends: bool) -> (r: Option<(ListType, usize)>)
    requires
        from <= cs@.len(),
    ensures
        match spec_list_marker(cs@.skip(from as int), tab_ends) {
            Some((t, rest)) => r matches Some((t2, p)) && t2 == t && p <= cs@.len() && cs@.skip(
                p as int,
            ) == rest,
            None => r is None,
        },
{
    let ghost s = cs@.skip(from as int);
    let mut list_type: Option<ListType> = None;
    let mut order: Option<u32> = None;
    let mut digit_count: u8 = 0;
    let mut i = from;
    let mut stopped = false;
    while i < cs.len()
        invariant_except_break
            !stopped,
            digit_count <= 9,
            from <= i <= cs@.len(),
            s == cs@.skip(from as int),
            forall|j: int| from <= j < i ==> in_class(#[trigger] cs@[j], marker_stop(tab_ends)),
            scan_state(cs@.subrange(from as int, i as int), list_type, order, digit_count),
        ensures
            from <= i <= cs@.len(),
            forall|j: int| from <= j < i ==> in_class(#[trigger] cs@[j], marker_stop(tab_ends)),
            stopped ==> i < cs@.len() && !in_class(cs@[i as int], marker_stop(tab_ends)),
            !stopped ==> i == cs@.len(),
            scan_state(cs@.subrange(from as int, i as int), list_type, order, digit_count),
        decreases cs@.len() - i,
    {
        let ch = cs[i];
        let ghost prefix = cs@.subrange(from as int, i as int);
        let ghost next = cs@.subrange(from as int, i + 1);
        assert(next == prefix.push(ch));
        if ch == ' ' || (tab_ends && ch == '\t') {
            stopped = true;
            break;
        }
        proof {
            assert(in_class(ch, marker_stop(tab_ends)));
        }
        let ghost end = lead_len(s, marker_stop(tab_ends));
        proof {
            lemma_lead_len(s, marker_stop(tab_ends));
            // the whole token extends `next`
            assert forall|j: int| 0 <= j < i + 1 - from implies in_class(
                #[trigger] s[j],
                marker_stop(tab_ends),
            ) by {
                assert(s[j] == cs@[from + j]);
            }
            if end < i + 1 - from {
                assert(s[end as int] == cs@[from + end]);
            }
            assert(end >= i + 1 - from);
        }
        let ghost tok = s.take(end as int);
        proof {
            assert(tok.take(i + 1 - from) =~= next);
        }
        if ch == '-' || ch == '+' || ch == '*' {
            if list_type.is_some() || order.is_some() {
                proof {
                    if list_type is Some {
                        if tok.len() > prefix.len() {
                            lemma_complete_marker_extended(prefix, tok.skip(prefix.len() as int));
                            assert(prefix + tok.skip(prefix.len() as int) =~= tok);
                        }
                    } else {
                        if tok.len() - 1 > prefix.len() {
                            lemma_non_digit_inside(tok, prefix.len() as int);
                        } else {
                            assert(tok.last() == ch);
                        }
                    }
                }
                return None;
            }
            list_type = if ch == '-' {
                Some(ListType::UnorderedMinus)
            } else if ch == '+' {
                Some(ListType::UnorderedPlus)
            } else {
                Some(ListType::UnorderedAsterisk)
            };
            proof {
                assert(next.len() == 1 && next[0] == ch);
            }
        } else if ch == '.' || ch == ')' {
            if list_type.is_some() || order.is_none() {
                proof {
                    if list_type is Some {
                        if tok.len() > prefix.len() {
                            lemma_complete_marker_extended(prefix, tok.skip(prefix.len() as int));
                            assert(prefix + tok.skip(prefix.len() as int) =~= tok);
                        }
                    } else {
                        assert(prefix.len() == 0);
                        if tok.len() >= 2 {
                            lemma_non_digit_inside(tok, 0);
                        }
                    }
                }
                return None;
            }
            let v = order.unwrap();
            list_type = if ch == '.' {
                Some(ListType::OrderedDot(v))
            } else {
                Some(ListType::OrdererParentheses(v))
            };
            proof {
                assert(next.drop_last() =~= prefix);
            }
        } else if is_digit_char(ch) {
            digit_count = digit_count + 1;
            if list_type.is_some() || digit_count >= 10 {
                proof {
                    if list_type is Some {
                        if tok.len() > prefix.len() {
                            lemma_complete_marker_extended(prefix, tok.skip(prefix.len() as int));
                            assert(prefix + tok.skip(prefix.len() as int) =~= tok);
                        }
                    } else {
                        // ten digits in a row
                        if tok.len() == 10 {
                            assert(tok.last() == ch);
                        }
                    }
                }
                return None;
            }
            let d = (ch as u32) - ('0' as u32);
            order = match order {
                Some(num) => {
                    proof {
                        lemma_decimal_bound(prefix);
                    }
                    Some(num * 10 + d)
                },
                None => Some(d),
            };
            proof {
                assert(next.drop_last() =~= prefix);
                assert forall|j: int| 0 <= j < next.len() implies is_ascii_digit(#[trigger] next[j]) by {
                    if j < prefix.len() {
                        assert(next[j] == prefix[j]);
                    }
                }
            }
        } else {
            proof {
                if tok.len() - 1 > prefix.len() {
                    lemma_non_digit_inside(tok, prefix.len() as int);
                } else {
                    assert(tok.last() == ch);
                    if tok.len() >= 2 {
                        assert(tok.drop_last().len() >= 1);
                    }
                }
            }
            return None;
        }
        i = i + 1;
    }
    proof {
        let t = cs@.skip(from as int);
        assert forall|j: int| 0 <= j < i - from implies in_class(
            #[trigger] t[j],
            marker_stop(tab_ends),
        ) by {
            assert(t[j] == cs@[from + j]);
        }
        if i < cs@.len() {
            assert(t[i - from] == cs@[i as int]);
        }
        lemma_lead_len_unique(t, marker_stop(tab_ends), i - from);
        assert(t.take(i - from) =~= cs@.subrange(from as int, i as int));
    }
    match list_type {
        Some(lt) => {
            if stopped {
                assert(i < cs.len());
                assert(cs@.skip(from as int).skip(i - from + 1) =~= cs@.skip(i + 1));
                Some((lt, i + 1))
            } else {
                assert(cs@.skip(i as int) =~= Seq::<char>::empty());
                Some((lt, i))
            }
        },
        None => {
            proof {
                let tok = cs@.subrange(from as int, i as int);
                if order is Some {
                    assert(tok.last() != '.' && tok.last() != ')') by {
                        assert(is_ascii_digit(tok[tok.len() - 1]));
                    }
                }
            }
            None
        },
    }
}

/// Where the content of indented code starts on a line, if its
/// indentation reaches the fourth column.
pub fn code_indent(line: &str) -> (r: Option<usize>)
    ensures
        match code_indent_end(line@) {
            Some(k) => r == Some(k as usize) && k <= line@.len(),
            None => r is None,
        },
{
    let cs = chars_vec(line);
    assert(cs@.skip(0) =~= cs@);
    let k = lead_count_from(&cs, 0, CharClass::Exactly(' '));
    proof {
        lemma_lead_len(line@, CharClass::Exactly(' '));
    }
    if k >= 4 {
        return Some(4);
    }
    if k < cs.len() && cs[k] == '\t' {
        return Some(k + 1);
    }
    None
}

/// Strips up to 3 spaces of leading indentation from a line.
///
/// Returns `None` if the line contains a tab before content or has 4 or
/// more leading spaces, as these are not valid block-level indentation
/// for majority of blocks. Indented code uses different check.
pub fn strip_indent<'a>(line: &'a str) -> (r: Option<&'a str>)
    ensures
        match spec_strip_indent(line@) {
            Some(t) => r matches Some(u) && u@ == t,
            None => r is None,
        },
{
    let cs = chars_vec(line);
    assert(cs@.skip(0) =~= cs@);
    let k = lead_count_from(&cs, 0, CharClass::Exactly(' '));
    if k >= 4 {
        return None;
    }
    if k < cs.len() && cs[k] == '\t' {
        return None;
    }
    Some(skip_chars(line, k))
}

/// Parses the list marker, returns the type of the list and continuation
pub fn parse_list_marker<'a>(line: &'a str) -> (r: Option<(ListType, &'a str)>)
    ensures
        match spec_list_marker(line@, true) {
            Some((t, rest)) => r matches Some((t2, u)) && t2 == t && u@ == rest,
            None => r is None,
        },
{
    let cs = chars_vec(line);
    assert(cs@.skip(0) =~= cs@);
    match scan_list_marker(&cs, 0, true) {
        Some((lt, p)) => Some((lt, skip_chars(line, p))),
        None => None,
    }
}

/// The list marker of a line after its block indentation (as a list opener
/// reads it): a space ends the marker, a tab does not.
pub fn indented_list_marker<'a>(line: &'a str) -> (r: Option<(ListType, &'a str)>)
    ensures
        match indent_end(line@) {
            Some(k) => match spec_list_marker(line@.skip(k as int), false) {
                Some((t, rest)) => r matches Some((t2, u)) && t2 == t && u@ == rest,
                None => r is None,
            },
            None => r is None,
        },
{
    let cs = chars_vec(line);
    assert(cs@.skip(0) =~= cs@);
    let k = lead_count_from(&cs, 0, CharClass::Exactly(' '));
    if k >= 4 {
        return None;
    }
    if k < cs.len() && cs[k] == '\t' {
        return None;
    }
    match scan_list_marker(&cs, k, false) {
        Some((lt, p)) => Some((lt, skip_chars(line, p))),
        None => None,
    }
}

/// Stripping block indentation removes at most 3 spaces and nothing else,
/// and leaves no space or tab in front; it fails exactly on a line that
/// starts with 4 spaces, or with a tab after at most 3 spaces.
pub proof fn lemma_strip_indent(line: Seq<char>)
    ensures
        spec_strip_indent(line) matches Some(r) ==> {
            let k = line.len() - r.len();
            &&& 0 <= k <= 3
            &&& line == Seq::new(k as nat, |i: int| ' ') + r
            &&& r.len() > 0 ==> r[0] != ' ' && r[0] != '\t'
        },
        spec_strip_indent(line) is None <==> {
            ||| (line.len() >= 4 && forall|i: int| 0 <= i < 4 ==> #[trigger] line[i] == ' ')
            ||| exists|k: int| 0 <= k <= 3 && k < line.len() && line[k] == '\t' && forall|i: int|
                0 <= i < k ==> #[trigger] line[i] == ' '
        },
{
    let k = lead_len(line, CharClass::Exactly(' '));
    lemma_lead_len(line, CharClass::Exactly(' '));
    if let Some(r) = spec_strip_indent(line) {
        assert(line =~= Seq::new(k, |i: int| ' ') + r);
    }
    if line.len() >= 4 && forall|i: int| 0 <= i < 4 ==> #[trigger] line[i] == ' ' {
        if k < 4 {
            assert(line[k as int] == ' ');
        }
    }
    if exists|j: int| 0 <= j <= 3 && j < line.len() && line[j] == '\t' && forall|i: int|
        0 <= i < j ==> #[trigger] line[i] == ' ' {
        let j = choose|j: int| 0 <= j <= 3 && j < line.len() && line[j] == '\t' && forall|i: int|
            0 <= i < j ==> #[trigger] line[i] == ' ';
        if k < j {
            assert(line[k as int] == ' ');
        } else if k > j {
            assert(in_class(line[j], CharClass::Exactly(' ')));
        }
    }
    if k >= 4 {
        assert forall|i: int| 0 <= i < 4 implies #[trigger] line[i] == ' ' by {
            assert(in_class(line[i], CharClass::Exactly(' ')));
        }
    } else if k < line.len() && line[k as int] == '\t' {
        assert forall|i: int| 0 <= i < k implies #[trigger] line[i] == ' ' by {
            assert(in_class(line[i], CharClass::Exactly(' ')));
        }
    }
}

} // verus!
