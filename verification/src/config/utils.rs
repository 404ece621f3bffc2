//! File extensions of paths.
use vstd::prelude::*;
use vstd::string::*;

use super::errors::{ConfigError, ConfigErrorModel};
use crate::text::{CharClass, chars_vec, lemma_trail_len, str_eq, trail_count_range, trail_len};

verus! {

broadcast use vstd::string::group_string_axioms;

/// The supported input extensions: `md` and `txt`.
pub open spec fn supported_input_extension(ext: Seq<char>) -> bool {
    ext == "md"@ || ext == "txt"@
}

/// The supported output extension: `html`.
pub open spec fn supported_output_extension(ext: Seq<char>) -> bool {
    ext == "html"@
}

pub fn is_in_ext_supported(ext: &str) -> (b: bool)
    ensures
        b == supported_input_extension(ext@),
{
    str_eq(ext, "md") || str_eq(ext, "txt")
}

pub fn is_out_ext_supported(ext: &str) -> (b: bool)
    ensures
        b == supported_output_extension(ext@),
{
    str_eq(ext, "html")
}

/// Where the file name of a path stands (as `Path::file_name` finds it):
/// the last component that is neither empty nor `.`; none when that
/// component is `..` or there is none. Components are separated by `/`.
pub open spec fn file_name_span(p: Seq<char>) -> Option<(int, int)>
    decreases p.len(),
{
    let end = p.len() - trail_len(p, CharClass::Exactly('/'));
    let start = end - trail_len(p.take(end), CharClass::Except('/'));
    if end <= 0 || start < 0 || start >= p.len() {
        None
    } else if p.subrange(start, end) == "."@ {
        file_name_span(p.take(start))
    } else if p.subrange(start, end) == ".."@ {
        None
    } else {
        Some((start, end))
    }
}

/// The file name of a path lies within it and is not empty.
pub proof fn lemma_file_name_span_bounds(p: Seq<char>)
    ensures
        file_name_span(p) matches Some((a, b)) ==> 0 <= a < b <= p.len(),
    decreases p.len(),
{
    let end = p.len() - trail_len(p, CharClass::Exactly('/'));
    let start = end - trail_len(p.take(end), CharClass::Except('/'));
    lemma_trail_len(p, CharClass::Exactly('/'));
    if end > 0 {
        lemma_trail_len(p.take(end), CharClass::Except('/'));
        if start >= 0 && start < p.len() && p.subrange(start, end) == "."@ {
            lemma_file_name_span_bounds(p.take(start));
        }
    }
}

/// The extension of a file name (as `Path::extension` gives it): what
/// follows its last `.`, unless it has no `.` or its only `.` is the first
/// character.
pub open spec fn name_extension(name: Seq<char>) -> Option<Seq<char>> {
    let after = trail_len(name, CharClass::Except('.'));
    if after + 1 >= name.len() {
        None
    } else {
        Some(name.skip(name.len() - after))
    }
}

/// The extension of the file name of a path.
pub open spec fn path_extension(p: Seq<char>) -> Option<Seq<char>> {
    match file_name_span(p) {
        Some((a, b)) => name_extension(p.subrange(a, b)),
        None => None,
    }
}

/// The path with the extension of its file name set to `html` (as
/// `Path::with_extension("html")` gives it): everything after the file
/// stem goes, `.html` follows; a path without a file name stays.
pub open spec fn html_output_path(p: Seq<char>) -> Seq<char> {
    match file_name_span(p) {
        Some((a, b)) => {
            let name = p.subrange(a, b);
            let stem_len = match name_extension(name) {
                Some(e) => name.len() - e.len() - 1,
                None => name.len() as int,
            };
            p.take(a + stem_len) + ".html"@
        },
        None => p,
    }
}

/// Where the stem of the file name of a path ends: before the `.` of its
/// extension, or at the end of the name when it has none.
pub open spec fn stem_end(p: Seq<char>) -> Option<int> {
    match file_name_span(p) {
        Some((a, b)) => {
            let name = p.subrange(a, b);
            Some(
                a + match name_extension(name) {
                    Some(e) => name.len() - e.len() - 1,
                    None => name.len() as int,
                },
            )
        },
        None => None,
    }
}

/// The character of a decimal digit.
pub open spec fn digit_char(d: nat) -> char {
    seq!['0', '1', '2', '3', '4', '5', '6', '7', '8', '9'][d as int]
}

/// The decimal digits of a number, without leading zeros.
pub open spec fn decimal_text(n: nat) -> Seq<char>
    decreases n,
{
    if n < 10 {
        seq![digit_char(n)]
    } else {
        decimal_text(n / 10).push(digit_char(n % 10))
    }
}

/// The path with the timestamp added to the stem of its file name and the
/// extension `html`: `dir/name.md` becomes `dir/name_<timestamp>.html`, in
/// the same directory. A path without a file name stays.
pub open spec fn timestamped_path(p: Seq<char>, timestamp: u64) -> Seq<char> {
    match stem_end(p) {
        Some(e) => p.take(e) + "_"@ + decimal_text(timestamp as nat) + ".html"@,
        None => p,
    }
}

/// The text of one decimal digit.
fn digit_str(d: u64) -> (s: &'static str)
    requires
        d < 10,
    ensures
        s@ == seq![digit_char(d as nat)],
{
    proof {
        reveal_strlit("0");
        reveal_strlit("1");
        reveal_strlit("2");
        reveal_strlit("3");
        reveal_strlit("4");
        reveal_strlit("5");
        reveal_strlit("6");
        reveal_strlit("7");
        reveal_strlit("8");
        reveal_strlit("9");
    }
    let s = if d == 0 {
        "0"
    } else if d == 1 {
        "1"
    } else if d == 2 {
        "2"
    } else if d == 3 {
        "3"
    } else if d == 4 {
        "4"
    } else if d == 5 {
        "5"
    } else if d == 6 {
        "6"
    } else if d == 7 {
        "7"
    } else if d == 8 {
        "8"
    } else {
        "9"
    };
    assert(s@ =~= seq![digit_char(d as nat)]);
    s
}

/// The decimal text of a number.
pub fn decimal_string(n: u64) -> (r: String)
    ensures
        r@ == decimal_text(n as nat),
    decreases n,
{
    if n < 10 {
        String::from_str(digit_str(n))
    } else {
        let mut r = decimal_string(n / 10);
        r.append(digit_str(n % 10));
        r
    }
}

/// `file_name_span` of `cs[0..n]`.
fn file_name_span_of(cs: &Vec<char>, n: usize) -> (r: Option<(usize, usize)>)
    requires
        n <= cs@.len(),
    ensures
        match file_name_span(cs@.take(n as int)) {
            Some((a, b)) => r matches Some((a2, b2)) && a2 == a && b2 == b && 0 <= a < b <= n,
            None => r is None,
        },
    decreases n,
{
    let ghost p = cs@.take(n as int);
    let t = trail_count_range(cs, 0, n, CharClass::Exactly('/'));
    assert(cs@.subrange(0, n as int) =~= p);
    let end = n - t;
    if end == 0 {
        return None;
    }
    let k = trail_count_range(cs, 0, end, CharClass::Except('/'));
    assert(cs@.subrange(0, end as int) =~= p.take(end as int));
    let start = end - k;
    proof {
        reveal_strlit(".");
        reveal_strlit("..");
        lemma_trail_len(p.take(end as int), CharClass::Except('/'));
        lemma_trail_len(p, CharClass::Exactly('/'));
        // the last character before the trailing slashes is not a slash
        assert(!(p[p.len() - t - 1] == '/'));
        assert(p.take(end as int)[end - 1] == p[end - 1]);
        assert(k >= 1);
    }
    let is_dot = end - start == 1 && cs[start] == '.';
    let is_dot_dot = end - start == 2 && cs[start] == '.' && cs[start + 1] == '.';
    proof {
        let seg = p.subrange(start as int, end as int);
        assert(is_dot <==> seg =~= "."@) by {
            if end - start == 1 {
                assert(seg[0] == cs@[start as int]);
            }
        }
        assert(is_dot_dot <==> seg =~= ".."@) by {
            if end - start == 2 {
                assert(seg[0] == cs@[start as int]);
                assert(seg[1] == cs@[start + 1]);
            }
        }
    }
    if is_dot {
        assert(p.take(start as int) =~= cs@.take(start as int));
        return file_name_span_of(cs, start);
    }
    if is_dot_dot {
        return None;
    }
    Some((start, end))
}

/// The position of the first character of the extension within
/// `cs[a..b]`, if the name there has one.
fn extension_start(cs: &Vec<char>, a: usize, b: usize) -> (r: Option<usize>)
    requires
        a <= b <= cs@.len(),
    ensures
        match name_extension(cs@.subrange(a as int, b as int)) {
            Some(e) => r matches Some(d) && a < d <= b && e == cs@.subrange(d as int, b as int),
            None => r is None,
        },
{
    let after = trail_count_range(cs, a, b, CharClass::Except('.'));
    if b - a - after <= 1 {
        return None;
    }
    let d = b - after;
    proof {
        let name = cs@.subrange(a as int, b as int);
        assert(name.skip(name.len() - after) =~= cs@.subrange(d as int, b as int));
    }
    Some(d)
}

pub fn get_extension<'a>(path: &'a str) -> (r: Result<&'a str, ConfigError>)
    ensures
        match path_extension(path@) {
            Some(e) => r matches Ok(x) && x@ == e,
            None => r matches Err(err) && err@ == ConfigErrorModel::InvalidExtension(path@),
        },
{
    let cs = chars_vec(path);
    assert(cs@.take(cs@.len() as int) =~= path@);
    match file_name_span_of(&cs, cs.len()) {
        Some((a, b)) => match extension_start(&cs, a, b) {
            Some(d) => Ok(path.substring_char(d, b)),
            None => Err(ConfigError::InvalidExtension { path: String::from_str(path) }),
        },
        None => Err(ConfigError::InvalidExtension { path: String::from_str(path) }),
    }
}

/// The path with the timestamp added to the stem of its file name and the
/// extension `html`.
pub fn with_timestamp(path: &str, timestamp: u64) -> (r: String)
    ensures
        r@ == timestamped_path(path@, timestamp),
{
    let cs = chars_vec(path);
    assert(cs@.take(cs@.len() as int) =~= path@);
    match file_name_span_of(&cs, cs.len()) {
        Some((a, b)) => {
            let stem_end = match extension_start(&cs, a, b) {
                Some(d) => d - 1,
                None => b,
            };
            let mut r = String::from_str(path.substring_char(0, stem_end));
            r.append("_");
            let digits = decimal_string(timestamp);
            r.append(digits.as_str());
            r.append(".html");
            proof {
                assert(path@.subrange(0, stem_end as int) =~= path@.take(stem_end as int));
            }
            r
        },
        None => String::from_str(path),
    }
}

/// The path with the extension of its file name set to `html`
/// (`Path::with_extension("html")`).
pub fn with_html_extension(path: &str) -> (r: String)
    ensures
        r@ == html_output_path(path@),
{
    let cs = chars_vec(path);
    assert(cs@.take(cs@.len() as int) =~= path@);
    match file_name_span_of(&cs, cs.len()) {
        Some((a, b)) => {
            let stem_end = match extension_start(&cs, a, b) {
                Some(d) => d - 1,
                None => b,
            };
            let mut r = String::from_str(path.substring_char(0, stem_end));
            r.append(".html");
            proof {
                assert(path@.subrange(0, stem_end as int) =~= path@.take(stem_end as int));
            }
            r
        },
        None => String::from_str(path),
    }
}

} // verus!
