//! The result-line grammar of the indexer protocol. The external process
//! writes one message per line; a result message is a JSON object whose
//! `searched_result` member holds an array of file path strings. The
//! grammar here covers exactly the protocol's shape: an object of members
//! whose values are strings, numbers, booleans, null, or arrays of those
//! (the protocol never nests containers); strings carry the standard JSON
//! escapes. A line outside the grammar is simply not recognized, which is
//! how the protocol treats desync: the line is dropped, nothing fails.

use vstd::prelude::*;
use crate::text::char_vec_eq;
use crate::text::from_chars;
use crate::text::push_char;
use crate::text::to_chars;

verus! {

pub open spec fn is_ws_char(c: char) -> bool {
    c == ' ' || c == '\t' || c == '\n' || c == '\r'
}

pub open spec fn spec_skip_ws(s: Seq<char>, i: int) -> int
    decreases s.len() - i,
{
    if i < 0 || i >= s.len() {
        i
    } else if is_ws_char(s[i]) {
        spec_skip_ws(s, i + 1)
    } else {
        i
    }
}

proof fn lemma_skip_ws_bounds(s: Seq<char>, i: int)
    requires
        0 <= i <= s.len(),
    ensures
        i <= spec_skip_ws(s, i) <= s.len(),
    decreases s.len() - i,
{
    if i < s.len() && is_ws_char(s[i]) {
        lemma_skip_ws_bounds(s, i + 1);
    }
}

fn skip_ws(v: &Vec<char>, i: usize) -> (r: usize)
    requires
        i <= v@.len(),
    ensures
        r == spec_skip_ws(v@, i as int),
        i <= r <= v@.len(),
    decreases v@.len() - i,
{
    if i == v.len() {
        i
    } else {
        let c = v[i];
        if c == ' ' || c == '\t' || c == '\n' || c == '\r' {
            skip_ws(v, i + 1)
        } else {
            i
        }
    }
}

// ---------- strings ----------

pub open spec fn hex_val(c: char) -> Option<int> {
    let u = (c as u32) as int;
    if 48 <= u <= 57 {
        Some(u - 48)
    } else if 97 <= u <= 102 {
        Some(u - 87)
    } else if 65 <= u <= 70 {
        Some(u - 55)
    } else {
        None
    }
}

fn hex_val_exec(c: char) -> (r: Option<u32>)
    ensures
        (match r {
            Some(x) => hex_val(c) == Some(x as int) && x < 16,
            None => hex_val(c) is None,
        }),
{
    let u = c as u32;
    if 48 <= u && u <= 57 {
        Some(u - 48)
    } else if 97 <= u && u <= 102 {
        Some(u - 87)
    } else if 65 <= u && u <= 70 {
        Some(u - 55)
    } else {
        None
    }
}

/// The single-character escapes; the `\u` form stands apart.
pub open spec fn esc_char(c: char) -> Option<char> {
    if c == '"' {
        Some('"')
    } else if c == '\\' {
        Some('\\')
    } else if c == '/' {
        Some('/')
    } else if c == 'b' {
        Some('\u{8}')
    } else if c == 'f' {
        Some('\u{c}')
    } else if c == 'n' {
        Some('\n')
    } else if c == 'r' {
        Some('\r')
    } else if c == 't' {
        Some('\t')
    } else {
        None
    }
}

fn esc_char_exec(c: char) -> (r: Option<char>)
    ensures
        r == esc_char(c),
{
    if c == '"' {
        Some('"')
    } else if c == '\\' {
        Some('\\')
    } else if c == '/' {
        Some('/')
    } else if c == 'b' {
        Some('\u{8}')
    } else if c == 'f' {
        Some('\u{c}')
    } else if c == 'n' {
        Some('\n')
    } else if c == 'r' {
        Some('\r')
    } else if c == 't' {
        Some('\t')
    } else {
        None
    }
}

/// Relies on std's char::from_u32: Some exactly for Unicode scalar values
/// (code points outside the surrogate range and at most 0x10FFFF), and the
/// returned character has the given code.
#[verifier::external_body]
fn char_from_u32(v: u32) -> (r: Option<char>)
    ensures
        (r is Some) == (v < 0xD800 || (0xE000 <= v && v <= 0x10FFFF)),
        (r matches Some(c) ==> c as u32 == v),
{
    char::from_u32(v)
}

/// The body of a string literal, from just after the opening quote:
/// the decoded characters and the index after the closing quote.
pub open spec fn spec_string_body(s: Seq<char>, i: int, acc: Seq<char>) -> Option<
    (Seq<char>, int),
>
    decreases s.len() - i,
{
    if i < 0 || i >= s.len() {
        None
    } else if s[i] == '"' {
        Some((acc, i + 1))
    } else if s[i] == '\\' {
        if i + 1 >= s.len() {
            None
        } else if s[i + 1] == 'u' {
            if i + 6 > s.len() {
                None
            } else {
                match (hex_val(s[i + 2]), hex_val(s[i + 3]), hex_val(s[i + 4]), hex_val(
                    s[i + 5],
                )) {
                    (Some(a), Some(b), Some(c), Some(d)) => {
                        let u = a * 4096 + b * 256 + c * 16 + d;
                        if 0xD800 <= u && u <= 0xDFFF {
                            None
                        } else {
                            spec_string_body(s, i + 6, acc.push(u as char))
                        }
                    },
                    _ => None,
                }
            }
        } else {
            match esc_char(s[i + 1]) {
                Some(c) => spec_string_body(s, i + 2, acc.push(c)),
                None => None,
            }
        }
    } else {
        spec_string_body(s, i + 1, acc.push(s[i]))
    }
}

proof fn lemma_string_body_bounds(s: Seq<char>, i: int, acc: Seq<char>)
    requires
        0 <= i,
    ensures
        (spec_string_body(s, i, acc) matches Some(t) ==> i < t.1 <= s.len()),
    decreases s.len() - i,
{
    if i < s.len() && s[i] != '"' {
        if s[i] == '\\' {
            if i + 1 < s.len() && s[i + 1] == 'u' && i + 6 <= s.len() {
                match (hex_val(s[i + 2]), hex_val(s[i + 3]), hex_val(s[i + 4]), hex_val(
                    s[i + 5],
                )) {
                    (Some(a), Some(b), Some(c), Some(d)) => {
                        let u = a * 4096 + b * 256 + c * 16 + d;
                        if !(0xD800 <= u && u <= 0xDFFF) {
                            lemma_string_body_bounds(s, i + 6, acc.push(u as char));
                        }
                    },
                    _ => {},
                }
            } else if i + 1 < s.len() {
                match esc_char(s[i + 1]) {
                    Some(c) => lemma_string_body_bounds(s, i + 2, acc.push(c)),
                    None => {},
                }
            }
        } else {
            lemma_string_body_bounds(s, i + 1, acc.push(s[i]));
        }
    }
}

fn string_body(v: &Vec<char>, i: usize, acc: Vec<char>) -> (r: Option<(Vec<char>, usize)>)
    requires
        i <= v@.len(),
    ensures
        (match r {
            Some(t) => spec_string_body(v@, i as int, acc@) == Some((t.0@, t.1 as int)) && t.1
                <= v@.len(),
            None => spec_string_body(v@, i as int, acc@) is None,
        }),
    decreases v@.len() - i,
{
    proof {
        lemma_string_body_bounds(v@, i as int, acc@);
    }
    if i == v.len() {
        return None;
    }
    let c = v[i];
    if c == '"' {
        return Some((acc, i + 1));
    }
    if c == '\\' {
        if v.len() - i < 2 {
            return None;
        }
        let e = v[i + 1];
        if e == 'u' {
            if v.len() - i < 6 {
                return None;
            }
            let a = hex_val_exec(v[i + 2]);
            let b = hex_val_exec(v[i + 3]);
            let cc = hex_val_exec(v[i + 4]);
            let d = hex_val_exec(v[i + 5]);
            match (a, b, cc, d) {
                (Some(a), Some(b), Some(cc), Some(d)) => {
                    let u: u32 = a * 4096 + b * 256 + cc * 16 + d;
                    if 0xD800 <= u && u <= 0xDFFF {
                        None
                    } else {
                        match char_from_u32(u) {
                            Some(ch) => {
                                proof {
                                    vstd::utf8::char_u32_cast(ch, u);
                                }
                                let mut acc2 = acc;
                                acc2.push(ch);
                                string_body(v, i + 6, acc2)
                            },
                            None => {
                                // unreachable: u is below the surrogate range
                                // or a BMP scalar above it
                                proof {
                                    assert(u < 0xD800 || (0xE000 <= u && u <= 0xFFFF));
                                }
                                None
                            },
                        }
                    }
                },
                _ => None,
            }
        } else {
            match esc_char_exec(e) {
                Some(ch) => {
                    let mut acc2 = acc;
                    acc2.push(ch);
                    string_body(v, i + 2, acc2)
                },
                None => None,
            }
        }
    } else {
        let mut acc2 = acc;
        acc2.push(c);
        string_body(v, i + 1, acc2)
    }
}

/// A string literal at `i`: its decoded characters and the index after the
/// closing quote.
pub open spec fn spec_parse_string(s: Seq<char>, i: int) -> Option<(Seq<char>, int)> {
    if 0 <= i < s.len() && s[i] == '"' {
        spec_string_body(s, i + 1, Seq::empty())
    } else {
        None
    }
}

fn parse_string(v: &Vec<char>, i: usize) -> (r: Option<(Vec<char>, usize)>)
    requires
        i <= v@.len(),
    ensures
        (match r {
            Some(t) => spec_parse_string(v@, i as int) == Some((t.0@, t.1 as int)) && i < t.1
                <= v@.len(),
            None => spec_parse_string(v@, i as int) is None,
        }),
{
    if i == v.len() || v[i] != '"' {
        return None;
    }
    proof {
        lemma_string_body_bounds(v@, i + 1 as int, Seq::empty());
    }
    let acc: Vec<char> = Vec::new();
    string_body(v, i + 1, acc)
}

// ---------- numbers and literal words ----------

pub open spec fn is_digit(c: char) -> bool {
    48 <= (c as u32) && (c as u32) <= 57
}

pub open spec fn spec_skip_digits(s: Seq<char>, i: int) -> int
    decreases s.len() - i,
{
    if i < 0 || i >= s.len() {
        i
    } else if is_digit(s[i]) {
        spec_skip_digits(s, i + 1)
    } else {
        i
    }
}

proof fn lemma_skip_digits_bounds(s: Seq<char>, i: int)
    requires
        0 <= i <= s.len(),
    ensures
        i <= spec_skip_digits(s, i) <= s.len(),
    decreases s.len() - i,
{
    if i < s.len() && is_digit(s[i]) {
        lemma_skip_digits_bounds(s, i + 1);
    }
}

fn skip_digits(v: &Vec<char>, i: usize) -> (r: usize)
    requires
        i <= v@.len(),
    ensures
        r == spec_skip_digits(v@, i as int),
        i <= r <= v@.len(),
    decreases v@.len() - i,
{
    if i == v.len() {
        i
    } else {
        let u = v[i] as u32;
        if 48 <= u && u <= 57 {
            skip_digits(v, i + 1)
        } else {
            i
        }
    }
}

/// A JSON number at `i`: only its end index; the protocol never reads the
/// value.
pub open spec fn spec_parse_number(s: Seq<char>, i: int) -> Option<int> {
    let j0 = if 0 <= i < s.len() && s[i] == '-' {
        i + 1
    } else {
        i
    };
    if !(0 <= j0 < s.len() && is_digit(s[j0])) {
        None
    } else {
        let j1 = if s[j0] == '0' {
            j0 + 1
        } else {
            spec_skip_digits(s, j0)
        };
        let j2 = if j1 < s.len() && s[j1] == '.' {
            if j1 + 1 < s.len() && is_digit(s[j1 + 1]) {
                spec_skip_digits(s, j1 + 1)
            } else {
                -1
            }
        } else {
            j1
        };
        if j2 < 0 {
            None
        } else {
            let j3 = if j2 < s.len() && (s[j2] == 'e' || s[j2] == 'E') {
                let j = if j2 + 1 < s.len() && (s[j2 + 1] == '+' || s[j2 + 1] == '-') {
                    j2 + 2
                } else {
                    j2 + 1
                };
                if j < s.len() && is_digit(s[j]) {
                    spec_skip_digits(s, j)
                } else {
                    -1
                }
            } else {
                j2
            };
            if j3 < 0 {
                None
            } else {
                Some(j3)
            }
        }
    }
}

fn parse_number(v: &Vec<char>, i: usize) -> (r: Option<usize>)
    requires
        i <= v@.len(),
    ensures
        (match r {
            Some(j) => spec_parse_number(v@, i as int) == Some(j as int) && i < j <= v@.len(),
            None => spec_parse_number(v@, i as int) is None,
        }),
{
    let n: usize = v.len();
    let j0: usize = if i < n && v[i] == '-' {
        i + 1
    } else {
        i
    };
    if !(j0 < n) {
        return None;
    }
    let u0 = v[j0] as u32;
    if !(48 <= u0 && u0 <= 57) {
        return None;
    }
    proof {
        lemma_skip_digits_bounds(v@, j0 as int);
        lemma_skip_digits_bounds(v@, j0 + 1 as int);
        assert(spec_skip_digits(v@, j0 as int) == spec_skip_digits(v@, j0 + 1 as int));
    }
    let j1: usize = if v[j0] == '0' {
        j0 + 1
    } else {
        skip_digits(v, j0)
    };
    assert(j0 < j1);
    let j2_opt: Option<usize> = if j1 < n && v[j1] == '.' {
        if j1 + 1 < n {
            let u = v[j1 + 1] as u32;
            if 48 <= u && u <= 57 {
                Some(skip_digits(v, j1 + 1))
            } else {
                None
            }
        } else {
            None
        }
    } else {
        Some(j1)
    };
    let j2: usize = match j2_opt {
        Some(j) => j,
        None => {
            return None;
        },
    };
    let j3_opt: Option<usize> = if j2 < n && (v[j2] == 'e' || v[j2] == 'E') {
        let j: usize = if j2 + 1 < n && (v[j2 + 1] == '+' || v[j2 + 1] == '-') {
            j2 + 2
        } else {
            j2 + 1
        };
        if j < n {
            let u = v[j] as u32;
            if 48 <= u && u <= 57 {
                Some(skip_digits(v, j))
            } else {
                None
            }
        } else {
            None
        }
    } else {
        Some(j2)
    };
    match j3_opt {
        Some(j3) => Some(j3),
        None => None,
    }
}

/// `true`, `false` or `null` at `i`: the index after the word.
pub open spec fn spec_parse_word(s: Seq<char>, i: int) -> Option<int> {
    if 0 <= i && i + 4 <= s.len() && s[i] == 't' && s[i + 1] == 'r' && s[i + 2] == 'u' && s[i
        + 3] == 'e' {
        Some(i + 4)
    } else if 0 <= i && i + 5 <= s.len() && s[i] == 'f' && s[i + 1] == 'a' && s[i + 2] == 'l'
        && s[i + 3] == 's' && s[i + 4] == 'e' {
        Some(i + 5)
    } else if 0 <= i && i + 4 <= s.len() && s[i] == 'n' && s[i + 1] == 'u' && s[i + 2] == 'l'
        && s[i + 3] == 'l' {
        Some(i + 4)
    } else {
        None
    }
}

fn parse_word(v: &Vec<char>, i: usize) -> (r: Option<usize>)
    requires
        i <= v@.len(),
    ensures
        (match r {
            Some(j) => spec_parse_word(v@, i as int) == Some(j as int) && i < j <= v@.len(),
            None => spec_parse_word(v@, i as int) is None,
        }),
{
    let n: usize = v.len();
    if n - i >= 4 && v[i] == 't' && v[i + 1] == 'r' && v[i + 2] == 'u' && v[i + 3] == 'e' {
        Some(i + 4)
    } else if n - i >= 5 && v[i] == 'f' && v[i + 1] == 'a' && v[i + 2] == 'l' && v[i + 3] == 's'
        && v[i + 4] == 'e' {
        Some(i + 5)
    } else if n - i >= 4 && v[i] == 'n' && v[i + 1] == 'u' && v[i + 2] == 'l' && v[i + 3]
        == 'l' {
        Some(i + 4)
    } else {
        None
    }
}

// ---------- scalars, arrays, members ----------

/// A scalar value at `i`: a string (carried along) or a number or word
/// (only skipped), and the index after it.
pub open spec fn spec_parse_scalar(s: Seq<char>, i: int) -> Option<(Option<Seq<char>>, int)> {
    if 0 <= i < s.len() && s[i] == '"' {
        match spec_parse_string(s, i) {
            Some((t, j)) => Some((Some(t), j)),
            None => None,
        }
    } else {
        match spec_parse_word(s, i) {
            Some(j) => Some((None, j)),
            None => {
                match spec_parse_number(s, i) {
                    Some(j) => Some((None, j)),
                    None => None,
                }
            },
        }
    }
}

fn parse_scalar(v: &Vec<char>, i: usize) -> (r: Option<(Option<Vec<char>>, usize)>)
    requires
        i <= v@.len(),
    ensures
        (match r {
            Some(t) => {
                &&& spec_parse_scalar(v@, i as int) matches Some(u)
                &&& u.1 == t.1 as int
                &&& i < t.1 <= v@.len()
                &&& (match t.0 {
                    Some(w) => u.0 == Some(w@),
                    None => u.0 is None,
                })
            },
            None => spec_parse_scalar(v@, i as int) is None,
        }),
{
    if i < v.len() && v[i] == '"' {
        match parse_string(v, i) {
            Some((t, j)) => Some((Some(t), j)),
            None => None,
        }
    } else {
        match parse_word(v, i) {
            Some(j) => Some((None, j)),
            None => {
                match parse_number(v, i) {
                    Some(j) => Some((None, j)),
                    None => None,
                }
            },
        }
    }
}

/// Array elements from the first element on: the strings among them, and
/// the index after the closing bracket.
pub open spec fn spec_parse_elements(s: Seq<char>, i: int, acc: Seq<Seq<char>>) -> Option<
    (Seq<Seq<char>>, int),
>
    decreases s.len() - i,
{
    match spec_parse_scalar(s, i) {
        None => None,
        Some((t, j)) => {
            if j <= i || j > s.len() {
                None
            } else {
                let acc2 = match t {
                    Some(w) => acc.push(w),
                    None => acc,
                };
                let k = spec_skip_ws(s, j);
                if k < s.len() && s[k] == ']' {
                    Some((acc2, k + 1))
                } else if k < s.len() && s[k] == ',' {
                    let m = spec_skip_ws(s, k + 1);
                    if m <= i || m > s.len() {
                        None
                    } else {
                        spec_parse_elements(s, m, acc2)
                    }
                } else {
                    None
                }
            }
        },
    }
}

fn parse_elements(v: &Vec<char>, i: usize, acc: Vec<String>) -> (r: Option<(Vec<String>, usize)>)
    requires
        i <= v@.len(),
    ensures
        (match r {
            Some(t) => spec_parse_elements(v@, i as int, acc.deep_view()) == Some(
                (t.0.deep_view(), t.1 as int),
            ) && t.1 <= v@.len(),
            None => spec_parse_elements(v@, i as int, acc.deep_view()) is None,
        }),
    decreases v@.len() - i,
{
    let ghost acc0 = acc.deep_view();
    match parse_scalar(v, i) {
        None => None,
        Some((t, j)) => {
            let mut acc2 = acc;
            match t {
                Some(w) => {
                    proof {
                        crate::text::lemma_string_vec_deep_view(&acc2);
                    }
                    let ws = from_chars(&w);
                    acc2.push(ws);
                    proof {
                        crate::text::lemma_string_vec_deep_view(&acc2);
                        assert(acc2.deep_view() =~= acc0.push(w@));
                    }
                },
                None => {
                    proof {
                        assert(acc2.deep_view() == acc0);
                    }
                },
            }
            let k = skip_ws(v, j);
            if k < v.len() && v[k] == ']' {
                Some((acc2, k + 1))
            } else if k < v.len() && v[k] == ',' {
                let m = skip_ws(v, k + 1);
                if m <= i {
                    None
                } else {
                    parse_elements(v, m, acc2)
                }
            } else {
                None
            }
        },
    }
}

/// An array at `i`: the strings among its elements, and the index after the
/// closing bracket.
pub open spec fn spec_parse_array(s: Seq<char>, i: int) -> Option<(Seq<Seq<char>>, int)> {
    if 0 <= i < s.len() && s[i] == '[' {
        let j = spec_skip_ws(s, i + 1);
        if j < s.len() && s[j] == ']' {
            Some((Seq::empty(), j + 1))
        } else {
            spec_parse_elements(s, j, Seq::empty())
        }
    } else {
        None
    }
}

fn parse_array(v: &Vec<char>, i: usize) -> (r: Option<(Vec<String>, usize)>)
    requires
        i <= v@.len(),
    ensures
        (match r {
            Some(t) => spec_parse_array(v@, i as int) == Some((t.0.deep_view(), t.1 as int))
                && t.1 <= v@.len(),
            None => spec_parse_array(v@, i as int) is None,
        }),
{
    if i < v.len() && v[i] == '[' {
        let j = skip_ws(v, i + 1);
        if j < v.len() && v[j] == ']' {
            let out: Vec<String> = Vec::new();
            proof {
                assert(out.deep_view() =~= Seq::<Seq<char>>::empty());
            }
            Some((out, j + 1))
        } else {
            let acc: Vec<String> = Vec::new();
            proof {
                assert(acc.deep_view() =~= Seq::<Seq<char>>::empty());
            }
            parse_elements(v, j, acc)
        }
    } else {
        None
    }
}

/// What the object scan knows about the `searched_result` member so far.
pub enum FoundState {
    NotSeen,
    SeenOther,
    SeenArray(Seq<Seq<char>>),
}

enum FoundExec {
    NotSeen,
    SeenOther,
    SeenArray(Vec<String>),
}

spec fn found_data(f: &FoundExec) -> FoundState {
    match f {
        FoundExec::NotSeen => FoundState::NotSeen,
        FoundExec::SeenOther => FoundState::SeenOther,
        FoundExec::SeenArray(v) => FoundState::SeenArray(v.deep_view()),
    }
}

/// A member's value at `i`: an array (carried along) or a scalar (only
/// skipped), and the index after it.
pub open spec fn spec_parse_value(s: Seq<char>, i: int) -> Option<(Option<Seq<Seq<char>>>, int)> {
    if 0 <= i < s.len() && s[i] == '[' {
        match spec_parse_array(s, i) {
            Some((a, j)) => Some((Some(a), j)),
            None => None,
        }
    } else {
        match spec_parse_scalar(s, i) {
            Some((_t, j)) => Some((None, j)),
            None => None,
        }
    }
}

fn parse_value(v: &Vec<char>, i: usize) -> (r: Option<(Option<Vec<String>>, usize)>)
    requires
        i <= v@.len(),
    ensures
        (match r {
            Some(t) => {
                &&& spec_parse_value(v@, i as int) matches Some(u)
                &&& u.1 == t.1 as int
                &&& t.1 <= v@.len()
                &&& (match t.0 {
                    Some(w) => u.0 == Some(w.deep_view()),
                    None => u.0 is None,
                })
            },
            None => spec_parse_value(v@, i as int) is None,
        }),
{
    if i < v.len() && v[i] == '[' {
        match parse_array(v, i) {
            Some((a, j)) => Some((Some(a), j)),
            None => None,
        }
    } else {
        match parse_scalar(v, i) {
            Some((_t, j)) => Some((None, j)),
            None => None,
        }
    }
}

/// The members of an object, from the first member's key on: what was found
/// for `searched_result` (its first occurrence decides), and the index
/// after the closing brace.
pub open spec fn spec_parse_members(s: Seq<char>, i: int, found: FoundState) -> Option<
    (FoundState, int),
>
    decreases s.len() - i,
{
    match spec_parse_string(s, i) {
        None => None,
        Some((key, j)) => {
            let k = spec_skip_ws(s, j);
            if !(k < s.len() && s[k] == ':') {
                None
            } else {
                let m = spec_skip_ws(s, k + 1);
                match spec_parse_value(s, m) {
                    None => None,
                    Some((arr, j2)) => {
                        if j2 <= i || j2 > s.len() {
                            None
                        } else {
                            let found2 = if found is NotSeen && key == "searched_result"@ {
                                match arr {
                                    Some(a) => FoundState::SeenArray(a),
                                    None => FoundState::SeenOther,
                                }
                            } else {
                                found
                            };
                            let k2 = spec_skip_ws(s, j2);
                            if k2 < s.len() && s[k2] == '}' {
                                Some((found2, k2 + 1))
                            } else if k2 < s.len() && s[k2] == ',' {
                                let m2 = spec_skip_ws(s, k2 + 1);
                                if m2 <= i || m2 > s.len() {
                                    None
                                } else {
                                    spec_parse_members(s, m2, found2)
                                }
                            } else {
                                None
                            }
                        }
                    },
                }
            }
        },
    }
}

fn parse_members(v: &Vec<char>, i: usize, found: FoundExec) -> (r: Option<(FoundExec, usize)>)
    requires
        i <= v@.len(),
    ensures
        (match r {
            Some(t) => spec_parse_members(v@, i as int, found_data(&found)) == Some(
                (found_data(&t.0), t.1 as int),
            ) && t.1 <= v@.len(),
            None => spec_parse_members(v@, i as int, found_data(&found)) is None,
        }),
    decreases v@.len() - i,
{
    match parse_string(v, i) {
        None => None,
        Some((key, j)) => {
            let k = skip_ws(v, j);
            if !(k < v.len() && v[k] == ':') {
                return None;
            }
            let m = skip_ws(v, k + 1);
            match parse_value(v, m) {
                None => None,
                Some((arr, j2)) => {
                    if j2 <= i {
                        return None;
                    }
                    let is_not_seen: bool = match &found {
                        FoundExec::NotSeen => true,
                        _ => false,
                    };
                    let found2: FoundExec = if is_not_seen && char_vec_eq(
                        &key,
                        &to_chars("searched_result"),
                    ) {
                        match arr {
                            Some(a) => FoundExec::SeenArray(a),
                            None => FoundExec::SeenOther,
                        }
                    } else {
                        found
                    };
                    let k2 = skip_ws(v, j2);
                    if k2 < v.len() && v[k2] == '}' {
                        Some((found2, k2 + 1))
                    } else if k2 < v.len() && v[k2] == ',' {
                        let m2 = skip_ws(v, k2 + 1);
                        if m2 <= i {
                            None
                        } else {
                            parse_members(v, m2, found2)
                        }
                    } else {
                        None
                    }
                },
            }
        },
    }
}

/// An object at `i`: what was found for `searched_result`, and the index
/// after the closing brace.
pub open spec fn spec_parse_object(s: Seq<char>, i: int) -> Option<(FoundState, int)> {
    if 0 <= i < s.len() && s[i] == '{' {
        let j = spec_skip_ws(s, i + 1);
        if j < s.len() && s[j] == '}' {
            Some((FoundState::NotSeen, j + 1))
        } else {
            spec_parse_members(s, j, FoundState::NotSeen)
        }
    } else {
        None
    }
}

fn parse_object(v: &Vec<char>, i: usize) -> (r: Option<(FoundExec, usize)>)
    requires
        i <= v@.len(),
    ensures
        (match r {
            Some(t) => spec_parse_object(v@, i as int) == Some((found_data(&t.0), t.1 as int))
                && t.1 <= v@.len(),
            None => spec_parse_object(v@, i as int) is None,
        }),
{
    if i < v.len() && v[i] == '{' {
        let j = skip_ws(v, i + 1);
        if j < v.len() && v[j] == '}' {
            Some((FoundExec::NotSeen, j + 1))
        } else {
            parse_members(v, j, FoundExec::NotSeen)
        }
    } else {
        None
    }
}

// ---------- the line ----------

/// The result paths a protocol line carries: the line must hold the literal
/// `"searched_result"` (a cheap pre-check the byte stream is screened
/// with), parse as one object with nothing but whitespace around it, and
/// give the `searched_result` member an array value; the array's string
/// elements are the paths, in order.
pub open spec fn spec_extract_results(line: Seq<char>) -> Option<Seq<Seq<char>>> {
    if !crate::text::contains_seq(line, "\"searched_result\""@) {
        None
    } else {
        let i = spec_skip_ws(line, 0);
        match spec_parse_object(line, i) {
            Some((found, j)) => {
                if spec_skip_ws(line, j) == line.len() {
                    match found {
                        FoundState::SeenArray(a) => Some(a),
                        _ => None,
                    }
                } else {
                    None
                }
            },
            None => None,
        }
    }
}

/// Extract the result paths from one line of the process's output, if it is
/// a result message.
pub fn parse_result_line(line: &str) -> (r: Option<Vec<String>>)
    ensures
        (match r {
            Some(paths) => spec_extract_results(line@) == Some(paths.deep_view()),
            None => spec_extract_results(line@) is None,
        }),
{
    if !crate::text::contains_sub(line, "\"searched_result\"") {
        return None;
    }
    let v = to_chars(line);
    let i = skip_ws(&v, 0);
    match parse_object(&v, i) {
        Some((found, j)) => {
            let k = skip_ws(&v, j);
            if k == v.len() {
                match found {
                    FoundExec::SeenArray(a) => Some(a),
                    _ => None,
                }
            } else {
                None
            }
        },
        None => None,
    }
}

} // verus!
