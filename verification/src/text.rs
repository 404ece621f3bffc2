//! Character-level helpers on string slices.
//!
//! Every helper here is specified over the character view `s@` of its
//! argument; the slices they return borrow from the argument.
use vstd::prelude::*;
use vstd::string::*;

verus! {

broadcast use vstd::string::group_string_axioms;

/// A class of characters, used for trimming and scanning.
#[derive(Clone, Copy, Debug, PartialEq, Eq, Structural)]
pub enum CharClass {
    /// exactly this character
    Exactly(char),
    /// any character but this one
    Except(char),
    /// either of two characters
    Either(char, char),
    /// neither of two characters
    Neither(char, char),
    /// a character with the Unicode `White_Space` property
    Whitespace,
}

/// The Unicode `White_Space` property, which `char::is_whitespace` tests.
pub open spec fn is_whitespace(c: char) -> bool {
    ||| c == '\t'
    ||| c == '\n'
    ||| c == '\u{0B}'
    ||| c == '\u{0C}'
    ||| c == '\r'
    ||| c == ' '
    ||| c == '\u{85}'
    ||| c == '\u{A0}'
    ||| c == '\u{1680}'
    ||| (0x2000 <= (c as u32) && (c as u32) <= 0x200A)
    ||| c == '\u{2028}'
    ||| c == '\u{2029}'
    ||| c == '\u{202F}'
    ||| c == '\u{205F}'
    ||| c == '\u{3000}'
}

pub open spec fn in_class(c: char, cls: CharClass) -> bool {
    match cls {
        CharClass::Exactly(x) => c == x,
        CharClass::Except(x) => c != x,
        CharClass::Either(x, y) => c == x || c == y,
        CharClass::Neither(x, y) => c != x && c != y,
        CharClass::Whitespace => is_whitespace(c),
    }
}

/// The number of characters at the start of `s` that belong to `cls`.
pub open spec fn lead_len(s: Seq<char>, cls: CharClass) -> nat
    decreases s.len(),
{
    if s.len() > 0 && in_class(s[0], cls) {
        1 + lead_len(s.drop_first(), cls)
    } else {
        0
    }
}

/// The number of characters at the end of `s` that belong to `cls`.
pub open spec fn trail_len(s: Seq<char>, cls: CharClass) -> nat
    decreases s.len(),
{
    if s.len() > 0 && in_class(s.last(), cls) {
        1 + trail_len(s.drop_last(), cls)
    } else {
        0
    }
}

/// `s` with its leading characters of class `cls` removed.
pub open spec fn trim_start_seq(s: Seq<char>, cls: CharClass) -> Seq<char> {
    s.skip(lead_len(s, cls) as int)
}

/// `s` with its trailing characters of class `cls` removed.
pub open spec fn trim_end_seq(s: Seq<char>, cls: CharClass) -> Seq<char> {
    s.take(s.len() - trail_len(s, cls))
}

/// `s` with leading and trailing whitespace removed (`str::trim`).
pub open spec fn trim_seq(s: Seq<char>) -> Seq<char> {
    trim_end_seq(trim_start_seq(s, CharClass::Whitespace), CharClass::Whitespace)
}

/// Every character of `s` is whitespace (`s.trim().is_empty()`).
pub open spec fn is_blank(s: Seq<char>) -> bool {
    forall|i: int| 0 <= i < s.len() ==> is_whitespace(#[trigger] s[i])
}

/// `lead_len` is characterised by: the first `n` characters belong to the
/// class and the next one, if any, does not.
pub open spec fn is_lead_len(s: Seq<char>, cls: CharClass, n: int) -> bool {
    &&& 0 <= n <= s.len()
    &&& forall|i: int| 0 <= i < n ==> in_class(#[trigger] s[i], cls)
    &&& n < s.len() ==> !in_class(s[n], cls)
}

pub open spec fn is_trail_len(s: Seq<char>, cls: CharClass, n: int) -> bool {
    &&& 0 <= n <= s.len()
    &&& forall|i: int| s.len() - n <= i < s.len() ==> in_class(#[trigger] s[i], cls)
    &&& n < s.len() ==> !in_class(s[s.len() - n - 1], cls)
}

pub proof fn lemma_lead_len(s: Seq<char>, cls: CharClass)
    ensures
        is_lead_len(s, cls, lead_len(s, cls) as int),
    decreases s.len(),
{
    if s.len() > 0 && in_class(s[0], cls) {
        lemma_lead_len(s.drop_first(), cls);
        let n = lead_len(s, cls) as int;
        assert forall|i: int| 0 <= i < n implies in_class(#[trigger] s[i], cls) by {
            if i > 0 {
                assert(s[i] == s.drop_first()[i - 1]);
            }
        }
        if n < s.len() {
            assert(s[n] == s.drop_first()[n - 1]);
        }
    }
}

pub proof fn lemma_lead_len_unique(s: Seq<char>, cls: CharClass, n: int)
    requires
        is_lead_len(s, cls, n),
    ensures
        lead_len(s, cls) == n,
    decreases s.len(),
{
    if n > 0 {
        assert(in_class(s[0], cls));
        let t = s.drop_first();
        assert forall|i: int| 0 <= i < n - 1 implies in_class(#[trigger] t[i], cls) by {
            assert(t[i] == s[i + 1]);
        }
        if n - 1 < t.len() {
            assert(t[n - 1] == s[n]);
        }
        lemma_lead_len_unique(t, cls, n - 1);
    } else {
        if s.len() > 0 {
            assert(!in_class(s[0], cls));
        }
    }
}

pub proof fn lemma_trail_len(s: Seq<char>, cls: CharClass)
    ensures
        is_trail_len(s, cls, trail_len(s, cls) as int),
    decreases s.len(),
{
    if s.len() > 0 && in_class(s.last(), cls) {
        let t = s.drop_last();
        lemma_trail_len(t, cls);
        let n = trail_len(s, cls) as int;
        assert forall|i: int| s.len() - n <= i < s.len() implies in_class(#[trigger] s[i], cls) by {
            if i < s.len() - 1 {
                assert(s[i] == t[i]);
            }
        }
        if n < s.len() {
            assert(s[s.len() - n - 1] == t[t.len() - (n - 1) - 1]);
        }
    }
}

pub proof fn lemma_trail_len_unique(s: Seq<char>, cls: CharClass, n: int)
    requires
        is_trail_len(s, cls, n),
    ensures
        trail_len(s, cls) == n,
    decreases s.len(),
{
    if n > 0 {
        assert(in_class(s[s.len() - 1], cls));
        let t = s.drop_last();
        assert forall|i: int| t.len() - (n - 1) <= i < t.len() implies in_class(#[trigger] t[i], cls) by {
            assert(t[i] == s[i]);
        }
        if n - 1 < t.len() {
            assert(t[t.len() - (n - 1) - 1] == s[s.len() - n - 1]);
        }
        lemma_trail_len_unique(t, cls, n - 1);
    } else {
        if s.len() > 0 {
            assert(!in_class(s[s.len() - 1], cls));
        }
    }
}

/// The characters of `s`, in order.
pub fn chars_vec(s: &str) -> (v: Vec<char>)
    ensures
        v@ == s@,
{
    let mut v: Vec<char> = Vec::new();
    for c in iter: s.chars()
        invariant
            v@ == iter.seq().take(iter.index() as int),
    {
        v.push(c);
    }
    v
}

pub fn is_whitespace_char(c: char) -> (b: bool)
    ensures
        b == is_whitespace(c),
{
    let u = c as u32;
    c == '\t' || c == '\n' || c == '\u{0B}' || c == '\u{0C}' || c == '\r' || c == ' ' || c
        == '\u{85}' || c == '\u{A0}' || c == '\u{1680}' || (0x2000 <= u && u <= 0x200A) || c
        == '\u{2028}' || c == '\u{2029}' || c == '\u{202F}' || c == '\u{205F}' || c == '\u{3000}'
}

pub fn in_class_char(c: char, cls: CharClass) -> (b: bool)
    ensures
        b == in_class(c, cls),
{
    match cls {
        CharClass::Exactly(x) => c == x,
        CharClass::Except(x) => c != x,
        CharClass::Either(x, y) => c == x || c == y,
        CharClass::Neither(x, y) => c != x && c != y,
        CharClass::Whitespace => is_whitespace_char(c),
    }
}

/// The number of leading characters of `cs` from position `start` on that
/// belong to `cls`.
pub fn lead_count_from(cs: &Vec<char>, start: usize, cls: CharClass) -> (n: usize)
    requires
        start <= cs@.len(),
    ensures
        n == lead_len(cs@.skip(start as int), cls),
        start + n <= cs@.len(),
{
    let mut i = start;
    while i < cs.len() && in_class_char(cs[i], cls)
        invariant
            start <= i <= cs@.len(),
            forall|j: int| start <= j < i ==> in_class(#[trigger] cs@[j], cls),
        decreases cs@.len() - i,
    {
        i = i + 1;
    }
    proof {
        let t = cs@.skip(start as int);
        assert forall|j: int| 0 <= j < i - start implies in_class(#[trigger] t[j], cls) by {
            assert(t[j] == cs@[start + j]);
        }
        if i < cs@.len() {
            assert(t[i - start] == cs@[i as int]);
        }
        lemma_lead_len_unique(t, cls, i - start);
    }
    i - start
}

/// The number of trailing characters of `cs` that belong to `cls`.
pub fn trail_count(cs: &Vec<char>, cls: CharClass) -> (n: usize)
    ensures
        n == trail_len(cs@, cls),
        n <= cs@.len(),
{
    let mut k: usize = 0;
    while k < cs.len() && in_class_char(cs[cs.len() - 1 - k], cls)
        invariant
            k <= cs@.len(),
            forall|j: int| cs@.len() - k <= j < cs@.len() ==> in_class(#[trigger] cs@[j], cls),
        decreases cs@.len() - k,
    {
        k = k + 1;
    }
    proof {
        lemma_trail_len_unique(cs@, cls, k as int);
    }
    k
}

/// The number of leading characters of `s` in class `cls`.
pub fn lead_count(s: &str, cls: CharClass) -> (n: usize)
    ensures
        n == lead_len(s@, cls),
        n <= s@.len(),
{
    let cs = chars_vec(s);
    assert(cs@.skip(0) =~= cs@);
    lead_count_from(&cs, 0, cls)
}

/// `s` without its leading characters of class `cls` (`trim_start_matches`,
/// or `trim_start` for whitespace).
pub fn trim_start_by<'a>(s: &'a str, cls: CharClass) -> (r: &'a str)
    ensures
        r@ == trim_start_seq(s@, cls),
{
    let cs = chars_vec(s);
    assert(cs@.skip(0) =~= cs@);
    let n = lead_count_from(&cs, 0, cls);
    let r = s.substring_char(n, cs.len());
    assert(r@ =~= s@.skip(n as int));
    r
}

/// `s` without its trailing characters of class `cls` (`trim_end_matches`,
/// or `trim_end` for whitespace).
pub fn trim_end_by<'a>(s: &'a str, cls: CharClass) -> (r: &'a str)
    ensures
        r@ == trim_end_seq(s@, cls),
{
    let cs = chars_vec(s);
    let n = trail_count(&cs, cls);
    let r = s.substring_char(0, cs.len() - n);
    assert(r@ =~= s@.take(s@.len() - n));
    r
}

/// `s` without leading and trailing whitespace (`str::trim`).
pub fn trim<'a>(s: &'a str) -> (r: &'a str)
    ensures
        r@ == trim_seq(s@),
{
    let t = trim_start_by(s, CharClass::Whitespace);
    trim_end_by(t, CharClass::Whitespace)
}

/// Whether every character of `s` is whitespace (`s.trim().is_empty()`).
pub fn is_blank_str(s: &str) -> (b: bool)
    ensures
        b == is_blank(s@),
{
    let n = lead_count(s, CharClass::Whitespace);
    let cs = chars_vec(s);
    proof {
        lemma_lead_len(s@, CharClass::Whitespace);
    }
    n == cs.len()
}

/// `s` without its first character, when that character is `c`
/// (`strip_prefix(c)`).
pub fn strip_prefix_char<'a>(s: &'a str, c: char) -> (r: Option<&'a str>)
    ensures
        r is Some <==> (s@.len() > 0 && s@[0] == c),
        r matches Some(t) ==> t@ == s@.drop_first(),
{
    let cs = chars_vec(s);
    if cs.len() > 0 && cs[0] == c {
        let t = s.substring_char(1, cs.len());
        assert(t@ =~= s@.drop_first());
        Some(t)
    } else {
        None
    }
}

/// The characters of `s` after position `start` (`&s[start..]` on a
/// character position).
pub fn skip_chars<'a>(s: &'a str, start: usize) -> (r: &'a str)
    requires
        start <= s@.len(),
    ensures
        r@ == s@.skip(start as int),
{
    let cs = chars_vec(s);
    let r = s.substring_char(start, cs.len());
    assert(r@ =~= s@.skip(start as int));
    r
}

/// The first piece of `s` when split at `sep` (`s.split(sep).next()`).
pub fn first_field<'a>(s: &'a str, sep: char) -> (r: &'a str)
    ensures
        r@ == s@.take(lead_len(s@, CharClass::Except(sep)) as int),
{
    let n = lead_count(s, CharClass::Except(sep));
    let r = s.substring_char(0, n);
    assert(r@ =~= s@.take(n as int));
    r
}

/// Whether two strings hold the same characters.
pub fn str_eq(a: &str, b: &str) -> (r: bool)
    ensures
        r == (a@ == b@),
{
    let ca = chars_vec(a);
    let cb = chars_vec(b);
    if ca.len() != cb.len() {
        return false;
    }
    let mut i: usize = 0;
    while i < ca.len()
        invariant
            ca@ == a@,
            cb@ == b@,
            ca@.len() == cb@.len(),
            i <= ca@.len(),
            forall|j: int| 0 <= j < i ==> ca@[j] == cb@[j],
        decreases ca@.len() - i,
    {
        if ca[i] != cb[i] {
            return false;
        }
        i = i + 1;
    }
    assert(ca@ =~= cb@);
    true
}

/// `s` without a final carriage return.
pub open spec fn strip_cr(s: Seq<char>) -> Seq<char> {
    if s.len() > 0 && s.last() == '\r' {
        s.drop_last()
    } else {
        s
    }
}

/// The lines of `s`, as `str::lines` yields them: split at `'\n'`, each
/// line without its `'\n'` and a `'\r'` just before it; a final line
/// ending yields no empty last line.
pub open spec fn lines_of(s: Seq<char>) -> Seq<Seq<char>>
    decreases s.len(),
{
    if s.len() == 0 {
        seq![]
    } else {
        let k = lead_len(s, CharClass::Except('\n'));
        if k >= s.len() {
            seq![s]
        } else {
            seq![strip_cr(s.take(k as int))] + lines_of(s.skip(k + 1 as int))
        }
    }
}

/// `s` with each line feed written as a carriage return and a line feed.
pub open spec fn with_crlf(s: Seq<char>) -> Seq<char>
    decreases s.len(),
{
    if s.len() == 0 {
        Seq::empty()
    } else {
        (if s[0] == '\n' {
            seq!['\r', '\n']
        } else {
            seq![s[0]]
        }) + with_crlf(s.drop_first())
    }
}

/// No line feed of `s` follows a carriage return.
pub open spec fn no_cr_before_lf(s: Seq<char>) -> bool {
    forall|i: int| 0 < i < s.len() && #[trigger] s[i] == '\n' ==> s[i - 1] != '\r'
}

proof fn lemma_with_crlf_split(s: Seq<char>, k: int)
    requires
        0 <= k < s.len(),
        s[k] == '\n',
        forall|j: int| 0 <= j < k ==> s[j] != '\n',
    ensures
        with_crlf(s) == s.take(k) + seq!['\r', '\n'] + with_crlf(s.skip(k + 1)),
    decreases k,
{
    if k == 0 {
        assert(s.drop_first() =~= s.skip(1));
        assert(s.take(0) + seq!['\r', '\n'] + with_crlf(s.skip(1)) =~= seq!['\r', '\n']
            + with_crlf(s.skip(1)));
    } else {
        let t = s.drop_first();
        lemma_with_crlf_split(t, k - 1);
        assert(t.skip(k) =~= s.skip(k + 1));
        assert(seq![s[0]] + t.take(k - 1) =~= s.take(k));
        assert(with_crlf(s) =~= seq![s[0]] + (t.take(k - 1) + seq!['\r', '\n'] + with_crlf(
            t.skip(k),
        )));
    }
}

proof fn lemma_with_crlf_plain(s: Seq<char>)
    requires
        forall|j: int| 0 <= j < s.len() ==> s[j] != '\n',
    ensures
        with_crlf(s) == s,
    decreases s.len(),
{
    if s.len() > 0 {
        let t = s.drop_first();
        assert forall|j: int| 0 <= j < t.len() implies t[j] != '\n' by {
            assert(t[j] == s[j + 1]);
        }
        lemma_with_crlf_plain(t);
        assert(seq![s[0]] + t =~= s);
    }
}

/// Writing line feeds as carriage return and line feed leaves the lines
/// unchanged, where no line ends in a carriage return already.
pub proof fn lemma_lines_of_crlf(s: Seq<char>)
    requires
        no_cr_before_lf(s),
    ensures
        lines_of(with_crlf(s)) == lines_of(s),
    decreases s.len(),
{
    if s.len() > 0 {
        let k = lead_len(s, CharClass::Except('\n'));
        lemma_lead_len(s, CharClass::Except('\n'));
        if k >= s.len() {
            assert forall|j: int| 0 <= j < s.len() implies s[j] != '\n' by {
                assert(in_class(s[j], CharClass::Except('\n')));
            }
            lemma_with_crlf_plain(s);
        } else {
            let k = k as int;
            assert forall|j: int| 0 <= j < k implies s[j] != '\n' by {
                assert(in_class(s[j], CharClass::Except('\n')));
            }
            lemma_with_crlf_split(s, k);
            let r = s.skip(k + 1);
            assert forall|i: int| 0 < i < r.len() && #[trigger] r[i] == '\n' implies r[i - 1] != '\r' by {
                assert(r[i] == s[k + 1 + i]);
                assert(r[i - 1] == s[k + i]);
            }
            lemma_lines_of_crlf(r);
            let w = with_crlf(s);
            let head = s.take(k);
            assert(w =~= head + seq!['\r', '\n'] + with_crlf(r));
            assert forall|j: int| 0 <= j < k + 1 implies in_class(#[trigger] w[j], CharClass::Except('\n'))
                by {
                if j < k {
                    assert(w[j] == s[j]);
                }
            }
            assert(w[k + 1] == '\n');
            lemma_lead_len_unique(w, CharClass::Except('\n'), k + 1);
            assert(w.take(k + 1) =~= head.push('\r'));
            assert(w.skip(k + 2) =~= with_crlf(r));
            assert(head.push('\r').drop_last() =~= head);
            if k > 0 {
                assert(s[k - 1] != '\r');
                assert(head.last() == s[k - 1]);
            }
            assert(strip_cr(head) == head);
        }
    }
}

/// A line feed at the end of a text whose last character is neither a
/// line feed nor a carriage return leaves its lines unchanged.
pub proof fn lemma_lines_of_final_newline(s: Seq<char>)
    requires
        s.len() > 0,
        s.last() != '\n',
        s.last() != '\r',
    ensures
        lines_of(s.push('\n')) == lines_of(s),
    decreases s.len(),
{
    let sn = s.push('\n');
    let k = lead_len(s, CharClass::Except('\n'));
    lemma_lead_len(s, CharClass::Except('\n'));
    if k >= s.len() {
        assert forall|j: int| 0 <= j < s.len() implies in_class(#[trigger] sn[j], CharClass::Except('\n'))
            by {
            assert(sn[j] == s[j]);
        }
        lemma_lead_len_unique(sn, CharClass::Except('\n'), s.len() as int);
        assert(sn.take(s.len() as int) =~= s);
        assert(sn.skip(s.len() as int + 1) =~= Seq::<char>::empty());
        assert(strip_cr(s) == s);
        assert(lines_of(sn) == seq![strip_cr(sn.take(s.len() as int))] + lines_of(
            sn.skip(s.len() as int + 1),
        ));
        assert(lines_of(sn) =~= seq![s]);
    } else {
        let k = k as int;
        assert forall|j: int| 0 <= j < k implies in_class(#[trigger] sn[j], CharClass::Except('\n'))
            by {
            assert(sn[j] == s[j]);
        }
        assert(sn[k] == s[k]);
        lemma_lead_len_unique(sn, CharClass::Except('\n'), k);
        assert(sn.take(k) =~= s.take(k));
        let r = s.skip(k + 1);
        assert(r.len() > 0);
        assert(r.last() == s.last());
        assert(sn.skip(k + 1) =~= r.push('\n'));
        lemma_lines_of_final_newline(r);
        assert(lines_of(sn) == seq![strip_cr(sn.take(k))] + lines_of(sn.skip(k + 1)));
        assert(lines_of(s) == seq![strip_cr(s.take(k))] + lines_of(s.skip(k + 1)));
    }
}

/// The views of a sequence of string slices.
pub open spec fn str_views<'a>(v: Seq<&'a str>) -> Seq<Seq<char>> {
    Seq::new(v.len(), |i: int| v[i]@)
}

/// `s` split into lines (`str::lines`).
pub fn split_lines<'a>(s: &'a str) -> (lines: Vec<&'a str>)
    ensures
        str_views(lines@) == lines_of(s@),
{
    let cs = chars_vec(s);
    let n = cs.len();
    let mut lines: Vec<&'a str> = Vec::new();
    let mut start: usize = 0;
    let mut i: usize = 0;
    proof {
        assert(s@.skip(0) =~= s@);
        assert(str_views(lines@) + lines_of(s@) =~= lines_of(s@));
    }
    while i < n
        invariant
            cs@ == s@,
            n == cs@.len(),
            start <= i <= n,
            forall|j: int| start <= j < i ==> cs@[j] != '\n',
            lines_of(s@) == str_views(lines@) + lines_of(s@.skip(start as int)),
        decreases n - i,
    {
        if cs[i] == '\n' {
            let mut end = i;
            if end > start && cs[end - 1] == '\r' {
                end = end - 1;
            }
            let line = s.substring_char(start, end);
            proof {
                let t = s@.skip(start as int);
                assert forall|j: int| 0 <= j < i - start implies in_class(
                    #[trigger] t[j],
                    CharClass::Except('\n'),
                ) by {
                    assert(t[j] == cs@[start + j]);
                }
                assert(t[i - start] == cs@[i as int]);
                lemma_lead_len_unique(t, CharClass::Except('\n'), i - start);
                assert(t.skip(i - start + 1) =~= s@.skip(i + 1));
                assert(line@ =~= strip_cr(t.take(i - start)));
                assert(str_views(lines@.push(line)) =~= str_views(lines@) + seq![line@]);
            }
            lines.push(line);
            start = i + 1;
        }
        i = i + 1;
    }
    if start < n {
        let line = s.substring_char(start, n);
        proof {
            let t = s@.skip(start as int);
            assert forall|j: int| 0 <= j < t.len() implies in_class(
                #[trigger] t[j],
                CharClass::Except('\n'),
            ) by {
                assert(t[j] == cs@[start + j]);
            }
            lemma_lead_len_unique(t, CharClass::Except('\n'), t.len() as int);
            assert(line@ =~= t);
            assert(str_views(lines@.push(line)) =~= str_views(lines@) + seq![line@]);
        }
        lines.push(line);
        proof {
            assert(lines_of(s@) =~= str_views(lines@));
        }
    } else {
        proof {
            assert(s@.skip(start as int).len() == 0);
            assert(lines_of(s@) =~= str_views(lines@));
        }
    }
    lines
}

/// The parts joined with `sep` between them (`join`).
pub open spec fn join_seq(parts: Seq<Seq<char>>, sep: Seq<char>) -> Seq<char>
    decreases parts.len(),
{
    if parts.len() == 0 {
        Seq::empty()
    } else if parts.len() == 1 {
        parts[0]
    } else {
        join_seq(parts.drop_last(), sep) + sep + parts.last()
    }
}

/// The parts, each followed by a newline.
pub open spec fn concat_lines(parts: Seq<Seq<char>>) -> Seq<char>
    decreases parts.len(),
{
    if parts.len() == 0 {
        Seq::empty()
    } else {
        concat_lines(parts.drop_last()) + parts.last() + "\n"@
    }
}

/// The strings joined with `sep` between them (`join`).
pub fn join_strs(parts: &Vec<&str>, sep: &str) -> (r: String)
    ensures
        r@ == join_seq(str_views(parts@), sep@),
{
    let mut r = String::new();
    let mut i: usize = 0;
    while i < parts.len()
        invariant
            i <= parts@.len(),
            r@ == join_seq(str_views(parts@.take(i as int)), sep@),
        decreases parts@.len() - i,
    {
        proof {
            let v = str_views(parts@.take(i + 1));
            assert(v.drop_last() =~= str_views(parts@.take(i as int)));
            assert(v.last() == parts@[i as int]@);
        }
        if i > 0 {
            r.append(sep);
        }
        r.append(parts[i]);
        proof {
            if i == 0 {
                assert(r@ =~= str_views(parts@.take(1))[0]);
            }
        }
        i = i + 1;
    }
    assert(parts@.take(i as int) =~= parts@);
    r
}

/// `s` without up to `max` leading spaces.
pub open spec fn strip_spaces_upto(s: Seq<char>, max: usize) -> Seq<char> {
    let k = lead_len(s, CharClass::Exactly(' '));
    s.skip(if k < max { k as int } else { max as int })
}

/// The number of trailing characters of `cs[a..b]` that belong to `cls`.
pub fn trail_count_range(cs: &Vec<char>, a: usize, b: usize, cls: CharClass) -> (n: usize)
    requires
        a <= b <= cs@.len(),
    ensures
        n == trail_len(cs@.subrange(a as int, b as int), cls),
        n <= b - a,
{
    let ghost s = cs@.subrange(a as int, b as int);
    let mut k: usize = 0;
    while k < b - a && in_class_char(cs[b - 1 - k], cls)
        invariant
            a <= b <= cs@.len(),
            s == cs@.subrange(a as int, b as int),
            k <= b - a,
            forall|j: int| s.len() - k <= j < s.len() ==> in_class(#[trigger] s[j], cls),
        decreases b - a - k,
    {
        assert(s[s.len() - k - 1] == cs@[b - 1 - k]);
        k = k + 1;
    }
    proof {
        if k < b - a {
            assert(s[s.len() - k - 1] == cs@[b - 1 - k]);
        }
        lemma_trail_len_unique(s, cls, k as int);
    }
    k
}

} // verus!
