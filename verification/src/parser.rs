//! The configuration parser: the typed value grammar, annotation parsing,
//! driver and object-block parsing, and the line-by-line configuration
//! reader.
//!
//! Every recognizer has a spec-level twin over `Seq<char>`; the executable
//! functions are proved to return exactly what the twin describes.

use vstd::prelude::*;
use vstd::string::StrSliceExecFns;
use vstd::string::StringExecFns;

use crate::language_types::ObjectKind;
use crate::language_types::ValV;
use crate::language_types::ValueTypes;
use crate::language_types::VersionAnnotation;
use crate::text::CharClass;
use crate::text::contains_seq;
use crate::text::contains_str;
use crate::text::matches_at;
use crate::text::matches_at_exec;
use crate::text::is_alpha_char;
use crate::text::is_digit_char;
use crate::text::run_len;
use crate::text::scan;
use crate::text::substr;

verus! {

/// The syntax faults the parser can report.
#[derive(PartialEq, Eq, Debug)]
pub enum SngSyntaxErrorKind {
    UnknownObjectType(String),
    MissingIdentifier,
    MissingBraces,
    UnknownOption(String),
    MissingParentheses,
    MissingSemiColon,
    InvalidType,
}

/// A parsed `@`-annotation: a version declaration or a snippet directive
/// carrying the quoted pattern text.
#[derive(PartialEq, Eq, Debug)]
pub enum Annotation {
    VA(VersionAnnotation),
    IA(String),
}

// ---------------------------------------------------------------------------
// The typed value grammar.
// ---------------------------------------------------------------------------
/// The truth value of a boolean token, if the token is one of
/// `1 | yes | on | 0 | no | off`.
pub open spec fn bool_token(t: Seq<char>) -> Option<bool> {
    if t.len() == 1 && t[0] == '1' {
        Some(true)
    } else if t.len() == 3 && t[0] == 'y' && t[1] == 'e' && t[2] == 's' {
        Some(true)
    } else if t.len() == 2 && t[0] == 'o' && t[1] == 'n' {
        Some(true)
    } else if t.len() == 1 && t[0] == '0' {
        Some(false)
    } else if t.len() == 2 && t[0] == 'n' && t[1] == 'o' {
        Some(false)
    } else if t.len() == 3 && t[0] == 'o' && t[1] == 'f' && t[2] == 'f' {
        Some(false)
    } else {
        None
    }
}

/// Recognizer 1: a maximal alphanumeric token that is a boolean token.
/// Returns the index past the token and its truth value.
pub open spec fn yesno_at(s: Seq<char>, i: int) -> Option<(int, bool)> {
    let j = i + run_len(s, i, CharClass::Alnum);
    if j == i {
        None
    } else {
        match bool_token(s.subrange(i, j)) {
            Some(b) => Some((j, b)),
            None => None,
        }
    }
}

/// The numeric value of a digit, `0` for any other character.
pub open spec fn digit_value(c: char) -> int {
    if c == '0' {
        0
    } else if c == '1' {
        1
    } else if c == '2' {
        2
    } else if c == '3' {
        3
    } else if c == '4' {
        4
    } else if c == '5' {
        5
    } else if c == '6' {
        6
    } else if c == '7' {
        7
    } else if c == '8' {
        8
    } else if c == '9' {
        9
    } else {
        0
    }
}

/// The number denoted by the digits of `s` in `[i, j)`.
pub open spec fn digits_val(s: Seq<char>, i: int, j: int) -> int
    decreases j - i,
{
    if i >= j {
        0
    } else {
        digits_val(s, i, j - 1) * 10 + digit_value(s[j - 1])
    }
}

/// Executable twin of `digit_value`.
fn digit_value_exec(c: char) -> (r: u8)
    ensures
        r as int == digit_value(c),
{
    match c {
        '0' => 0,
        '1' => 1,
        '2' => 2,
        '3' => 3,
        '4' => 4,
        '5' => 5,
        '6' => 6,
        '7' => 7,
        '8' => 8,
        '9' => 9,
        _ => 0,
    }
}

/// Read the digit run starting at `from` as a `usize`; `None` if there is
/// no digit or the number does not fit.
fn read_number(s: &str, from: usize) -> (r: Option<(usize, usize)>)
    requires
        from <= s@.len(),
    ensures
        ({
            let d = run_len(s@, from as int, CharClass::Digit);
            match r {
                Some((j, n)) => d > 0 && j == from + d && j <= s@.len() && n as int == digits_val(
                    s@,
                    from as int,
                    j as int,
                ),
                None => d == 0 || digits_val(s@, from as int, from + d) > usize::MAX as int,
            }
        }),
{
    let j = scan(s, from, CharClass::Digit);
    if j == from {
        return None;
    }
    let mut k: usize = from;
    let mut acc: usize = 0;
    while k < j
        invariant
            from <= k <= j <= s@.len(),
            j - from == run_len(s@, from as int, CharClass::Digit),
            acc as int == digits_val(s@, from as int, k as int),
            forall|t: int| from <= t < j ==> is_digit_char(s@[t]),
        decreases j - k,
    {
        let d = digit_value_exec(s.get_char(k));
        let acc10 = match acc.checked_mul(10) {
            Some(v) => v,
            None => {
                proof {
                    lemma_digits_val_grows(s@, from as int, k + 1, j as int);
                }
                return None;
            },
        };
        let next = match acc10.checked_add(d as usize) {
            Some(v) => v,
            None => {
                proof {
                    lemma_digits_val_grows(s@, from as int, k + 1, j as int);
                }
                return None;
            },
        };
        acc = next;
        k += 1;
    }
    Some((j, acc))
}

/// The digit-run value is monotone in the run's length.
proof fn lemma_digits_val_grows(s: Seq<char>, i: int, k: int, j: int)
    requires
        i <= k <= j,
    ensures
        digits_val(s, i, j) >= digits_val(s, i, k),
    decreases j - k,
{
    if k < j {
        lemma_digits_val_grows(s, i, k, j - 1);
        lemma_digits_val_nonneg(s, i, j - 1);
        assert(digits_val(s, i, j - 1) * 10 >= digits_val(s, i, j - 1)) by (nonlinear_arith)
            requires
                digits_val(s, i, j - 1) >= 0,
        ;
    }
}

proof fn lemma_digits_val_nonneg(s: Seq<char>, i: int, j: int)
    ensures
        digits_val(s, i, j) >= 0,
    decreases j - i,
{
    if i < j {
        lemma_digits_val_nonneg(s, i, j - 1);
        assert(digits_val(s, i, j - 1) * 10 >= 0) by (nonlinear_arith)
            requires
                digits_val(s, i, j - 1) >= 0,
        ;
    }
}

/// Recognizers 2: the digit-run recognizers. `Some((j, n))` when the digit
/// run denotes a number that fits a `usize`.
pub open spec fn integer_at(s: Seq<char>, i: int) -> Option<(int, int)> {
    let d = run_len(s, i, CharClass::Digit);
    if d > 0 && digits_val(s, i, i + d) <= usize::MAX as int {
        Some((i + d, digits_val(s, i, i + d)))
    } else {
        None
    }
}

/// Length of a floating-point exponent (`e`/`E`, optional sign, digits) at
/// `m`; `m` itself if there is none.
pub open spec fn exp_end(s: Seq<char>, m: int) -> int {
    if 0 <= m < s.len() && (s[m] == 'e' || s[m] == 'E') {
        let es: int = if m + 1 < s.len() && (s[m + 1] == '+' || s[m + 1] == '-') {
            1
        } else {
            0
        };
        let ed = run_len(s, m + 1 + es, CharClass::Digit);
        if ed > 0 {
            m + 1 + es + ed
        } else {
            m
        }
    } else {
        m
    }
}

/// Length of the floating-point literal starting at `i`: optional sign,
/// digits with an optional fraction (or a fraction alone), and an optional
/// exponent. `0` when there is no literal.
pub open spec fn float_len(s: Seq<char>, i: int) -> int {
    let sg: int = if i < s.len() && (s[i] == '+' || s[i] == '-') {
        1
    } else {
        0
    };
    let d1 = run_len(s, i + sg, CharClass::Digit);
    if d1 > 0 {
        let m: int = if i + sg + d1 < s.len() && s[i + sg + d1] == '.' {
            i + sg + d1 + 1 + run_len(s, i + sg + d1 + 1, CharClass::Digit)
        } else {
            i + sg + d1
        };
        exp_end(s, m) - i
    } else if i + sg < s.len() && s[i + sg] == '.' {
        let d2 = run_len(s, i + sg + 1, CharClass::Digit);
        if d2 > 0 {
            exp_end(s, i + sg + 1 + d2) - i
        } else {
            0
        }
    } else {
        0
    }
}

/// Recognizer 3: a bare or double-quoted floating-point literal; the
/// returned text is the literal itself, without the quotes.
pub open spec fn string_or_number_at(s: Seq<char>, i: int) -> Option<(int, Seq<char>)> {
    if i < s.len() && s[i] == '"' {
        let l = float_len(s, i + 1);
        if l > 0 && i + 1 + l < s.len() && s[i + 1 + l] == '"' {
            Some((i + 1 + l + 1, s.subrange(i + 1, i + 1 + l)))
        } else {
            let lb = float_len(s, i);
            if lb > 0 {
                Some((i + lb, s.subrange(i, i + lb)))
            } else {
                None
            }
        }
    } else {
        let l = float_len(s, i);
        if l > 0 {
            Some((i + l, s.subrange(i, i + l)))
        } else {
            None
        }
    }
}

/// Recognizer 4: a double-quoted run of characters containing neither `:`
/// nor `"`; the quotes are stripped and an empty quoted string stays empty.
pub open spec fn string_at(s: Seq<char>, i: int) -> Option<(int, Seq<char>)> {
    if i < s.len() && s[i] == '"' {
        let q = run_len(s, i + 1, CharClass::QuotedStr);
        if i + 1 + q < s.len() && s[i + 1 + q] == '"' {
            Some((i + 1 + q + 1, s.subrange(i + 1, i + 1 + q)))
        } else {
            None
        }
    } else {
        None
    }
}

/// The later items of a colon-separated list: as long as a colon followed
/// by a non-empty colon-free run follows, consume both.
pub open spec fn list_rest(s: Seq<char>, i: int, acc: Seq<Seq<char>>) -> (Seq<Seq<char>>, int)
    decreases s.len() - i,
    via list_rest_decreases
{
    if 0 <= i < s.len() && s[i] == ':' && run_len(s, i + 1, CharClass::NotColon) > 0 {
        let l = run_len(s, i + 1, CharClass::NotColon);
        list_rest(s, i + 1 + l, acc.push(s.subrange(i + 1, i + 1 + l)))
    } else {
        (acc, i)
    }
}

#[via_fn]
proof fn list_rest_decreases(s: Seq<char>, i: int, acc: Seq<Seq<char>>) {
    if 0 <= i < s.len() && s[i] == ':' && run_len(s, i + 1, CharClass::NotColon) > 0 {
        crate::text::lemma_run_len(s, i + 1, CharClass::NotColon);
    }
}

/// Recognizer 5: a colon-separated list of non-empty colon-free runs.
pub open spec fn string_list_at(s: Seq<char>, i: int) -> Option<(int, Seq<Seq<char>>)> {
    let l0 = run_len(s, i, CharClass::NotColon);
    if l0 > 0 {
        let r = list_rest(s, i + l0, seq![s.subrange(i, i + l0)]);
        Some((r.1, r.0))
    } else {
        None
    }
}

/// Recognizer 6: a bare identifier: a letter or underscore followed by
/// letters, digits and underscores.
pub open spec fn identifier_at(s: Seq<char>, i: int) -> Option<(int, Seq<char>)> {
    if 0 <= i < s.len() && (is_alpha_char(s[i]) || s[i] == '_') {
        let j = i + 1 + run_len(s, i + 1, CharClass::Ident);
        Some((j, s.subrange(i, j)))
    } else {
        None
    }
}

/// The typed value starting at `i`: the six recognizers above, tried in
/// this fixed order, first success wins. A digit run whose value does not
/// fit a `usize` is a local failure of the integer recognizers and falls
/// through to the later recognizers.
pub open spec fn parse_value_at(s: Seq<char>, i: int) -> Option<(int, ValV)> {
    if yesno_at(s, i) is Some {
        let (j, b) = yesno_at(s, i)->Some_0;
        Some((j, ValV::YesNo(b)))
    } else if integer_at(s, i) is Some {
        let (j, n) = integer_at(s, i)->Some_0;
        if n > 0 {
            Some((j, ValV::PositiveInteger(n)))
        } else {
            Some((j, ValV::NonNegativeInteger(0)))
        }
    } else if string_or_number_at(s, i) is Some {
        let (j, t) = string_or_number_at(s, i)->Some_0;
        Some((j, ValV::StringOrNumber(t)))
    } else if string_at(s, i) is Some {
        let (j, t) = string_at(s, i)->Some_0;
        Some((j, ValV::String(t)))
    } else if string_list_at(s, i) is Some {
        let (j, l) = string_list_at(s, i)->Some_0;
        Some((j, ValV::StringList(l)))
    } else if identifier_at(s, i) is Some {
        let (j, t) = identifier_at(s, i)->Some_0;
        Some((j, ValV::Identifier(t)))
    } else {
        None
    }
}

/// Scan a boolean token at `from`.
fn scan_yesno(s: &str, from: usize) -> (r: Option<(usize, bool)>)
    requires
        from <= s@.len(),
    ensures
        match r {
            Some((j, b)) => yesno_at(s@, from as int) == Some((j as int, b)) && from < j <= s@.len(),
            None => yesno_at(s@, from as int) is None,
        },
{
    let j = scan(s, from, CharClass::Alnum);
    if j == from {
        return None;
    }
    let ghost t = s@.subrange(from as int, j as int);
    proof {
        assert(t.len() == j - from);
        assert(forall|k: int| 0 <= k < t.len() ==> t[k] == s@[from + k]);
    }
    let l = j - from;
    let c0 = s.get_char(from);
    if l == 1 && (c0 == '1' || c0 == '0') {
        assert(t[0] == s@[from as int]);
        return Some((j, c0 == '1'));
    }
    if l == 2 {
        let c1 = s.get_char(from + 1);
        assert(t[0] == s@[from as int] && t[1] == s@[from + 1]);
        if c0 == 'o' && c1 == 'n' {
            return Some((j, true));
        }
        if c0 == 'n' && c1 == 'o' {
            return Some((j, false));
        }
    }
    if l == 3 {
        let c1 = s.get_char(from + 1);
        let c2 = s.get_char(from + 2);
        assert(t[0] == s@[from as int] && t[1] == s@[from + 1] && t[2] == s@[from + 2]);
        if c0 == 'y' && c1 == 'e' && c2 == 's' {
            return Some((j, true));
        }
        if c0 == 'o' && c1 == 'f' && c2 == 'f' {
            return Some((j, false));
        }
    }
    proof {
        if t.len() == 1 {
            assert(t[0] == s@[from as int]);
        }
        if t.len() == 2 {
            assert(t[0] == s@[from as int] && t[1] == s@[from + 1]);
        }
        if t.len() == 3 {
            assert(t[0] == s@[from as int] && t[1] == s@[from + 1] && t[2] == s@[from + 2]);
        }
        assert(bool_token(t) is None);
    }
    None
}

/// Scan a floating-point literal at `from`; returns the index past it.
fn scan_float(s: &str, from: usize) -> (j: usize)
    requires
        from <= s@.len(),
    ensures
        j - from == float_len(s@, from as int),
        from <= j <= s@.len(),
{
    let n = s.unicode_len();
    let mut i = from;
    let mut sg: usize = 0;
    if i < n {
        let c = s.get_char(i);
        if c == '+' || c == '-' {
            sg = 1;
        }
    }
    let d1_end = scan(s, from + sg, CharClass::Digit);
    if d1_end > from + sg {
        // digits, optional fraction, optional exponent
        let mut m = d1_end;
        if m < n && s.get_char(m) == '.' {
            m = scan(s, m + 1, CharClass::Digit);
        }
        scan_exp(s, m)
    } else if from + sg < n && s.get_char(from + sg) == '.' {
        let d2_end = scan(s, from + sg + 1, CharClass::Digit);
        if d2_end > from + sg + 1 {
            scan_exp(s, d2_end)
        } else {
            from
        }
    } else {
        from
    }
}

/// Scan an exponent at `m`; returns the index past it, or `m` itself.
fn scan_exp(s: &str, m: usize) -> (j: usize)
    requires
        m <= s@.len(),
    ensures
        j == exp_end(s@, m as int),
        m <= j <= s@.len(),
{
    let n = s.unicode_len();
    if m < n {
        let c = s.get_char(m);
        if c == 'e' || c == 'E' {
            let mut es: usize = 0;
            if m + 1 < n {
                let c1 = s.get_char(m + 1);
                if c1 == '+' || c1 == '-' {
                    es = 1;
                }
            }
            let ed_end = scan(s, m + 1 + es, CharClass::Digit);
            if ed_end > m + 1 + es {
                return ed_end;
            }
        }
    }
    m
}

/// The typed value starting at `from`, as `parse_value_at` describes it.
fn parse_value_from(s: &str, from: usize) -> (r: Option<(usize, ValueTypes)>)
    requires
        from <= s@.len(),
    ensures
        match r {
            Some((j, v)) => parse_value_at(s@, from as int) matches Some((sj, sv)) && j as int == sj
                && v@ == sv && from <= j <= s@.len(),
            None => parse_value_at(s@, from as int) is None,
        },
{
    let n = s.unicode_len();
    // recognizer 1: boolean tokens
    if let Some((j, b)) = scan_yesno(s, from) {
        return Some((j, ValueTypes::YesNo(b)));
    }
    // recognizer 2: digit runs that fit a usize
    let ghost d = run_len(s@, from as int, CharClass::Digit);
    if let Some((j, num)) = read_number(s, from) {
        if num > 0 {
            return Some((j, ValueTypes::PositiveInteger(num)));
        } else {
            return Some((j, ValueTypes::NonNegativeInteger(num)));
        }
    }
    // recognizer 3: bare or quoted floating-point literals
    if from < n && s.get_char(from) == '"' {
        let l_end = scan_float(s, from + 1);
        if l_end > from + 1 && l_end < n && s.get_char(l_end) == '"' {
            return Some((l_end + 1, ValueTypes::StringOrNumber(substr(s, from + 1, l_end))));
        }
        let lb_end = scan_float(s, from);
        if lb_end > from {
            return Some((lb_end, ValueTypes::StringOrNumber(substr(s, from, lb_end))));
        }
    } else {
        let l_end = scan_float(s, from);
        if l_end > from {
            return Some((l_end, ValueTypes::StringOrNumber(substr(s, from, l_end))));
        }
    }
    // recognizer 4: quoted strings
    if from < n && s.get_char(from) == '"' {
        let q_end = scan(s, from + 1, CharClass::QuotedStr);
        if q_end < n && s.get_char(q_end) == '"' {
            return Some((q_end + 1, ValueTypes::String(substr(s, from + 1, q_end))));
        }
    }
    // recognizer 5: colon-separated lists
    if let Some((j, items)) = scan_string_list(s, from) {
        return Some((j, ValueTypes::StringList(items)));
    }
    // recognizer 6: bare identifiers
    if from < n {
        let c = s.get_char(from);
        if ('a' <= c && c <= 'z') || ('A' <= c && c <= 'Z') || c == '_' {
            let j = scan(s, from + 1, CharClass::Ident);
            return Some((j, ValueTypes::Identifier(substr(s, from, j))));
        }
    }
    None
}

/// Scan a colon-separated list at `from`.
fn scan_string_list(s: &str, from: usize) -> (r: Option<(usize, Vec<String>)>)
    requires
        from <= s@.len(),
    ensures
        match r {
            Some((j, items)) => string_list_at(s@, from as int) matches Some((sj, sl)) && j as int
                == sj && items.deep_view() == sl && from <= j <= s@.len(),
            None => string_list_at(s@, from as int) is None,
        },
{
    let l0_end = scan(s, from, CharClass::NotColon);
    if l0_end == from {
        return None;
    }
    let mut items: Vec<String> = Vec::new();
    items.push(substr(s, from, l0_end));
    let mut i = l0_end;
    let n = s.unicode_len();
    proof {
        assert(items.deep_view() =~= seq![s@.subrange(from as int, l0_end as int)]);
    }
    loop
        invariant
            from <= i <= n,
            n == s@.len(),
            run_len(s@, from as int, CharClass::NotColon) > 0,
            list_rest(
                s@,
                from + run_len(s@, from as int, CharClass::NotColon),
                seq![
                    s@.subrange(from as int, from + run_len(s@, from as int, CharClass::NotColon)),
                ],
            ) == list_rest(s@, i as int, items.deep_view()),
        decreases n - i,
    {
        if i < n && s.get_char(i) == ':' {
            let l_end = scan(s, i + 1, CharClass::NotColon);
            if l_end > i + 1 {
                let ghost old_dv = items.deep_view();
                let piece = substr(s, i + 1, l_end);
                let ghost e = piece@;
                items.push(piece);
                proof {
                    assert(items.deep_view() =~= old_dv.push(e));
                    assert(list_rest(s@, i as int, old_dv) == list_rest(
                        s@,
                        l_end as int,
                        old_dv.push(e),
                    ));
                }
                i = l_end;
                continue;
            }
        }
        proof {
            assert(list_rest(s@, i as int, items.deep_view()) == (items.deep_view(), i as int));
        }
        return Some((i, items));
    }
}

/// Parse one typed value from the start of `input`, returning the rest of
/// the input and the value. The recognizers and their order are those of
/// `parse_value_at`.
pub fn parse_value<'a>(input: &'a str) -> (r: Option<(&'a str, ValueTypes)>)
    ensures
        match r {
            Some((rem, v)) => parse_value_at(input@, 0) matches Some((j, sv)) && rem@
                == input@.subrange(j, input@.len() as int) && v@ == sv,
            None => parse_value_at(input@, 0) is None,
        },
{
    match parse_value_from(input, 0) {
        Some((j, v)) => {
            let rem = input.substring_char(j, input.unicode_len());
            Some((rem, v))
        },
        None => None,
    }
}

// ---------------------------------------------------------------------------
// Annotations.
// ---------------------------------------------------------------------------
/// The spec-level content of an `Annotation`.
pub enum AnnotationV {
    VA(VersionAnnotation),
    IA(Seq<char>),
}

impl View for Annotation {
    type V = AnnotationV;

    open spec fn view(&self) -> AnnotationV {
        match self {
            Annotation::VA(v) => AnnotationV::VA(*v),
            Annotation::IA(p) => AnnotationV::IA(p@),
        }
    }
}

/// The keyword of the snippet-import directive, character by character.
pub open spec fn snippet_kw() -> Seq<char> {
    seq!['i', 'n', 'c', 'l', 'u', 'd', 'e']
}

/// The version annotation at the start of `s` (leading whitespace allowed):
/// `@version`, a colon, and two whitespace-padded digit runs separated by a
/// dot, each fitting a `u8`. Returns the index past the annotation and its
/// trailing whitespace, with the major and minor numbers.
pub open spec fn version_at(s: Seq<char>) -> Option<(int, int, int)> {
    let a = run_len(s, 0, CharClass::Space);
    if matches_at(s, a, "@version"@) {
        let b = a + 8 + run_len(s, a + 8, CharClass::Space);
        if b < s.len() && s[b] == ':' {
            let c = b + 1 + run_len(s, b + 1, CharClass::Space);
            let d1 = run_len(s, c, CharClass::Digit);
            let e = c + d1 + run_len(s, c + d1, CharClass::Space);
            if d1 > 0 && e < s.len() && s[e] == '.' {
                let f = e + 1 + run_len(s, e + 1, CharClass::Space);
                let d2 = run_len(s, f, CharClass::Digit);
                let g = f + d2 + run_len(s, f + d2, CharClass::Space);
                let maj = digits_val(s, c, c + d1);
                let min = digits_val(s, f, f + d2);
                if d2 > 0 && maj <= u8::MAX as int && min <= u8::MAX as int {
                    Some((g, maj, min))
                } else {
                    None
                }
            } else {
                None
            }
        } else {
            None
        }
    } else {
        None
    }
}

/// Parse a whole `@version: <major>.<minor>` annotation, as `version_at`
/// describes it; a malformed annotation or a number that does not fit a
/// `u8` is a failure.
pub fn version_parser<'a>(input: &'a str) -> (r: Option<(&'a str, VersionAnnotation)>)
    ensures
        match r {
            Some((rem, va)) => version_at(input@) matches Some((j, maj, min)) && rem@
                == input@.subrange(j, input@.len() as int) && va.major_version as int == maj
                && va.minor_version as int == min,
            None => version_at(input@) is None,
        },
{
    match version_from(input) {
        Some((j, va)) => Some((input.substring_char(j, input.unicode_len()), va)),
        None => None,
    }
}

/// Parse a whole version annotation, returning the index past it.
fn version_from(input: &str) -> (r: Option<(usize, VersionAnnotation)>)
    ensures
        match r {
            Some((j, va)) => version_at(input@) matches Some((sj, maj, min)) && j as int == sj && j
                <= input@.len() && va.major_version as int == maj && va.minor_version as int
                == min,
            None => version_at(input@) is None,
        },
{
    let n = input.unicode_len();
    let a = scan(input, 0, CharClass::Space);
    if !matches_at_exec(input, a, "@version") {
        return None;
    }
    proof {
        reveal_strlit("@version");
    }
    let b = scan(input, a + 8, CharClass::Space);
    if !(b < n && input.get_char(b) == ':') {
        return None;
    }
    let c = scan(input, b + 1, CharClass::Space);
    let ghost d1 = run_len(input@, c as int, CharClass::Digit);
    let major = read_number(input, c);
    let c_end = scan(input, c, CharClass::Digit);
    if c_end == c {
        return None;
    }
    let e = scan(input, c_end, CharClass::Space);
    if !(e < n && input.get_char(e) == '.') {
        return None;
    }
    let f = scan(input, e + 1, CharClass::Space);
    let ghost d2 = run_len(input@, f as int, CharClass::Digit);
    let minor = read_number(input, f);
    let f_end = scan(input, f, CharClass::Digit);
    if f_end == f {
        return None;
    }
    let g = scan(input, f_end, CharClass::Space);
    let maj_small: u8 = match major {
        Some((_, m)) if m <= 255 => m as u8,
        _ => {
            return None;
        },
    };
    let min_small: u8 = match minor {
        Some((_, m)) if m <= 255 => m as u8,
        _ => {
            return None;
        },
    };
    Some((g, VersionAnnotation { major_version: maj_small, minor_version: min_small }))
}

/// What the annotation parser does with a chunk: `None` is a parse
/// failure; `Some((j, a))` consumed the text up to `j` and produced the
/// annotation `a`, or nothing to apply when `a` is `None` (an unknown
/// keyword, or a snippet directive that names the implementation-detail
/// `scl` library).
pub open spec fn annotation_at(s: Seq<char>) -> Option<(int, Option<AnnotationV>)> {
    let a = run_len(s, 0, CharClass::Space);
    if a < s.len() && s[a] == '@' {
        let k = run_len(s, a + 1, CharClass::Alpha);
        let kw = s.subrange(a + 1, a + 1 + k);
        if kw == "version"@ {
            match version_at(s) {
                Some((j, maj, min)) => Some(
                    (
                        j,
                        Some(
                            AnnotationV::VA(
                                VersionAnnotation {
                                    major_version: maj as u8,
                                    minor_version: min as u8,
                                },
                            ),
                        ),
                    ),
                ),
                None => None,
            }
        } else if kw == snippet_kw() {
            let p = a + 1 + k + run_len(s, a + 1 + k, CharClass::Space);
            let q = p + run_len(s, p, CharClass::Line);
            let j = q + run_len(s, q, CharClass::Space);
            let pat = s.subrange(p, q);
            if contains_seq(pat, "scl.conf"@) || contains_seq(pat, "scl/"@) {
                Some((j, None))
            } else {
                Some((j, Some(AnnotationV::IA(pat))))
            }
        } else {
            Some((run_len(s, 0, CharClass::Line), None))
        }
    } else {
        None
    }
}

/// Parse a leading `@`-annotation of a chunk, as `annotation_at` describes
/// it: a version annotation, a snippet directive (whose pattern is the
/// rest of the line, leading whitespace stripped), or any other keyword,
/// which consumes the line and yields nothing.
pub fn annotation_parser<'a>(input: &'a str) -> (r: Option<(&'a str, Option<Annotation>)>)
    ensures
        match r {
            Some((rem, ann)) => annotation_at(input@) matches Some((j, av)) && rem@
                == input@.subrange(j, input@.len() as int) && match (ann, av) {
                (Some(x), Some(y)) => x@ == y,
                (None, None) => true,
                _ => false,
            },
            None => annotation_at(input@) is None,
        },
{
    match annotation_from(input) {
        Some((j, ann)) => Some((input.substring_char(j, input.unicode_len()), ann)),
        None => None,
    }
}

/// Parse a leading `@`-annotation, returning the index past it.
fn annotation_from(input: &str) -> (r: Option<(usize, Option<Annotation>)>)
    ensures
        match r {
            Some((j, ann)) => annotation_at(input@) matches Some((sj, av)) && j as int == sj && j
                <= input@.len() && match (ann, av) {
                (Some(x), Some(y)) => x@ == y,
                (None, None) => true,
                _ => false,
            },
            None => annotation_at(input@) is None,
        },
{
    let n = input.unicode_len();
    let a = scan(input, 0, CharClass::Space);
    if !(a < n && input.get_char(a) == '@') {
        return None;
    }
    let k_end = scan(input, a + 1, CharClass::Alpha);
    let ghost kw = input@.subrange(a + 1, k_end as int);
    let klen = k_end - (a + 1);
    if klen == 7 && matches_at_exec(input, a + 1, "version") {
        proof {
            reveal_strlit("version");
            assert(kw =~= "version"@);
        }
        match version_from(input) {
            Some((j, va)) => {
                return Some((j, Some(Annotation::VA(va))));
            },
            None => {
                return None;
            },
        }
    }
    let is_directive = klen == 7 && {
        let c0 = input.get_char(a + 1);
        let c1 = input.get_char(a + 2);
        let c2 = input.get_char(a + 3);
        let c3 = input.get_char(a + 4);
        let c4 = input.get_char(a + 5);
        let c5 = input.get_char(a + 6);
        let c6 = input.get_char(a + 7);
        c0 == 'i' && c1 == 'n' && c2 == 'c' && c3 == 'l' && c4 == 'u' && c5 == 'd' && c6 == 'e'
    };
    if is_directive {
        proof {
            assert(kw =~= snippet_kw());
        }
        let p = scan(input, k_end, CharClass::Space);
        let q = scan(input, p, CharClass::Line);
        let j = scan(input, q, CharClass::Space);
        let pat = substr(input, p, q);
        if contains_str(pat.as_str(), "scl.conf") || contains_str(pat.as_str(), "scl/") {
            return Some((j, None));
        }
        return Some((j, Some(Annotation::IA(pat))));
    }
    proof {
        assert(kw != "version"@ && kw != snippet_kw()) by {
            if kw == "version"@ {
                reveal_strlit("version");
                assert(kw.len() == 7);
                assert(matches_at(input@, a + 1, "version"@));
            }
            if kw == snippet_kw() {
                assert(kw.len() == 7);
                assert(kw[0] == input@[a + 1]);
                assert(kw[1] == input@[a + 2]);
                assert(kw[2] == input@[a + 3]);
                assert(kw[3] == input@[a + 4]);
                assert(kw[4] == input@[a + 5]);
                assert(kw[5] == input@[a + 6]);
                assert(kw[6] == input@[a + 7]);
            }
        }
    }
    let j = scan(input, 0, CharClass::Line);
    Some((j, None))
}

// ---------------------------------------------------------------------------
// Object kinds.
// ---------------------------------------------------------------------------
/// The object kind a keyword names, if any.
pub open spec fn kind_of_keyword(t: Seq<char>) -> Option<ObjectKind> {
    if t == "source"@ {
        Some(ObjectKind::Source)
    } else if t == "destination"@ {
        Some(ObjectKind::Destination)
    } else if t == "log"@ {
        Some(ObjectKind::Log)
    } else if t == "filter"@ {
        Some(ObjectKind::Filter)
    } else if t == "parser"@ {
        Some(ObjectKind::Parser)
    } else if t == "rewrite"@ {
        Some(ObjectKind::RewriteRule)
    } else if t == "template"@ {
        Some(ObjectKind::Template)
    } else {
        None
    }
}

/// Map a keyword to its object kind, as `kind_of_keyword` describes it.
pub fn match_object_kind(input: &str) -> (r: Option<ObjectKind>)
    ensures
        match r {
            Some(k) => kind_of_keyword(input@) == Some(k),
            None => kind_of_keyword(input@) is None,
        },
{
    if crate::text::str_eq(input, "source") {
        Some(ObjectKind::Source)
    } else if crate::text::str_eq(input, "destination") {
        Some(ObjectKind::Destination)
    } else if crate::text::str_eq(input, "log") {
        Some(ObjectKind::Log)
    } else if crate::text::str_eq(input, "filter") {
        Some(ObjectKind::Filter)
    } else if crate::text::str_eq(input, "parser") {
        Some(ObjectKind::Parser)
    } else if crate::text::str_eq(input, "rewrite") {
        Some(ObjectKind::RewriteRule)
    } else if crate::text::str_eq(input, "template") {
        Some(ObjectKind::Template)
    } else {
        None
    }
}

// ---------------------------------------------------------------------------
// Comments.
// ---------------------------------------------------------------------------
/// One comment: optional whitespace, `#`, the rest of the line, and — only
/// when nothing but whitespace follows — that trailing whitespace too.
pub open spec fn comment_at(s: Seq<char>) -> Option<int> {
    let a = run_len(s, 0, CharClass::Space);
    if a < s.len() && s[a] == '#' {
        let b = a + 1 + run_len(s, a + 1, CharClass::Line);
        let c = b + run_len(s, b, CharClass::Space);
        if c == s.len() {
            Some(c)
        } else {
            Some(b)
        }
    } else {
        None
    }
}

/// How far a maximal block of comments reaches from the start of `s`, and
/// how many comments it holds.
pub open spec fn comments_at(s: Seq<char>, i: int, count: int) -> (int, int)
    decreases s.len() - i,
    when 0 <= i <= s.len()
    via comments_at_decreases
{
    let tail = s.subrange(i, s.len() as int);
    match comment_at(tail) {
        Some(j) => if j > 0 {
            comments_at(s, i + j, count + 1)
        } else {
            (count, i)
        },
        None => (count, i),
    }
}

#[via_fn]
proof fn comments_at_decreases(s: Seq<char>, i: int, count: int) {
    if 0 <= i <= s.len() {
        lemma_comment_at_bounds(s.subrange(i, s.len() as int));
    }
}

proof fn lemma_comment_at_bounds(s: Seq<char>)
    ensures
        comment_at(s) matches Some(j) ==> 0 < j <= s.len(),
{
    crate::text::lemma_run_len(s, 0, CharClass::Space);
    let a = run_len(s, 0, CharClass::Space);
    if a < s.len() && s[a] == '#' {
        crate::text::lemma_run_len(s, a + 1, CharClass::Line);
        let b = a + 1 + run_len(s, a + 1, CharClass::Line);
        crate::text::lemma_run_len(s, b, CharClass::Space);
    }
}

/// Parse one comment, as `comment_at` describes it.
pub fn comment_parser<'a>(input: &'a str) -> (r: Option<(&'a str, ())>)
    ensures
        match r {
            Some((rem, _)) => comment_at(input@) matches Some(j) && rem@ == input@.subrange(
                j,
                input@.len() as int,
            ),
            None => comment_at(input@) is None,
        },
{
    let n = input.unicode_len();
    let a = scan(input, 0, CharClass::Space);
    if !(a < n && input.get_char(a) == '#') {
        return None;
    }
    let b = scan(input, a + 1, CharClass::Line);
    let c = scan(input, b, CharClass::Space);
    if c == n {
        Some((input.substring_char(c, n), ()))
    } else {
        Some((input.substring_char(b, n), ()))
    }
}

/// Consume as large a block of comments as possible, as `comments_at`
/// describes it; returns the rest of the input and how many comments were
/// consumed.
pub fn parse_comments<'a>(input: &'a str) -> (r: (&'a str, usize))
    ensures
        ({
            let c = comments_at(input@, 0, 0);
            r.1 as int == c.0 && r.0@ == input@.subrange(c.1, input@.len() as int)
        }),
{
    let n = input.unicode_len();
    let mut i: usize = 0;
    let mut count: usize = 0;
    loop
        invariant
            0 <= i <= n,
            n == input@.len(),
            comments_at(input@, 0, 0) == comments_at(input@, i as int, count as int),
            count <= i,
        decreases n - i,
    {
        let tail = input.substring_char(i, n);
        match comment_parser(tail) {
            Some((rem, _)) => {
                let ghost j = choose|j: int|
                    comment_at(tail@) == Some(j) && rem@ == tail@.subrange(
                        j,
                        tail@.len() as int,
                    );
                proof {
                    lemma_comment_at_bounds(tail@);
                }
                let consumed = tail.unicode_len() - rem.unicode_len();
                proof {
                    assert(rem@.len() == tail@.len() - j);
                    assert(consumed as int == j);
                    assert(consumed > 0);
                }
                i = i + consumed;
                count = count + 1;
            },
            None => {
                return (input.substring_char(i, n), count);
            },
        }
    }
}

// ---------------------------------------------------------------------------
// Drivers and object blocks.
// ---------------------------------------------------------------------------
use crate::language_types::DriverV;
use crate::language_types::ObjectV;
use crate::language_types::ParamV;
use crate::language_types::param_upsert;
use crate::language_types::params_unique;
use crate::language_types::Driver;
use crate::language_types::Object;
use crate::language_types::Parameter;

/// Every successful value parse consumes at least one character and stays
/// inside the text.
pub proof fn lemma_parse_value_at_bounds(s: Seq<char>, i: int)
    requires
        0 <= i <= s.len(),
    ensures
        parse_value_at(s, i) matches Some(r) ==> i < r.0 <= s.len(),
{
    crate::text::lemma_run_len(s, i, CharClass::Alnum);
    crate::text::lemma_run_len(s, i, CharClass::Digit);
    crate::text::lemma_run_len(s, i, CharClass::NotColon);
    lemma_float_len_bounds(s, i);
    if i < s.len() {
        crate::text::lemma_run_len(s, i + 1, CharClass::QuotedStr);
        crate::text::lemma_run_len(s, i + 1, CharClass::Ident);
        lemma_float_len_bounds(s, i + 1);
    }
    let l0 = run_len(s, i, CharClass::NotColon);
    if l0 > 0 {
        lemma_list_rest_bounds(s, i + l0, seq![s.subrange(i, i + l0)]);
    }
}

proof fn lemma_float_len_bounds(s: Seq<char>, i: int)
    requires
        0 <= i <= s.len(),
    ensures
        float_len(s, i) >= 0,
        i + float_len(s, i) <= s.len(),
{
    let sg: int = if i < s.len() && (s[i] == '+' || s[i] == '-') {
        1
    } else {
        0
    };
    crate::text::lemma_run_len(s, i + sg, CharClass::Digit);
    let d1 = run_len(s, i + sg, CharClass::Digit);
    if d1 > 0 {
        if i + sg + d1 < s.len() && s[i + sg + d1] == '.' {
            crate::text::lemma_run_len(s, i + sg + d1 + 1, CharClass::Digit);
            lemma_exp_end_bounds(s, i + sg + d1 + 1 + run_len(s, i + sg + d1 + 1, CharClass::Digit));
        } else {
            lemma_exp_end_bounds(s, i + sg + d1);
        }
    } else if i + sg < s.len() && s[i + sg] == '.' {
        crate::text::lemma_run_len(s, i + sg + 1, CharClass::Digit);
        let d2 = run_len(s, i + sg + 1, CharClass::Digit);
        if d2 > 0 {
            lemma_exp_end_bounds(s, i + sg + 1 + d2);
        }
    }
}

proof fn lemma_exp_end_bounds(s: Seq<char>, m: int)
    requires
        0 <= m <= s.len(),
    ensures
        m <= exp_end(s, m) <= s.len(),
{
    if m < s.len() && (s[m] == 'e' || s[m] == 'E') {
        let es: int = if m + 1 < s.len() && (s[m + 1] == '+' || s[m + 1] == '-') {
            1
        } else {
            0
        };
        crate::text::lemma_run_len(s, m + 1 + es, CharClass::Digit);
    }
}

proof fn lemma_list_rest_bounds(s: Seq<char>, i: int, acc: Seq<Seq<char>>)
    requires
        0 <= i <= s.len(),
    ensures
        i <= list_rest(s, i, acc).1 <= s.len(),
    decreases s.len() - i,
{
    if 0 <= i < s.len() && s[i] == ':' && run_len(s, i + 1, CharClass::NotColon) > 0 {
        let l = run_len(s, i + 1, CharClass::NotColon);
        crate::text::lemma_run_len(s, i + 1, CharClass::NotColon);
        lemma_list_rest_bounds(s, i + 1 + l, acc.push(s.subrange(i + 1, i + 1 + l)));
    }
}

/// The positional values of a driver body from `i` on: quoted strings and
/// bare identifiers (each padded by whitespace), where an identifier
/// followed by an opening parenthesis is the first named option instead
/// and stops the sequence.
pub open spec fn positionals(s: Seq<char>, i: int, acc: Seq<ValV>) -> (Seq<ValV>, int)
    decreases s.len() - i,
    when 0 <= i <= s.len()
    via positionals_decreases
{
    let w = i + run_len(s, i, CharClass::Space);
    if string_at(s, w) is Some {
        let (j, t) = string_at(s, w)->Some_0;
        let e = j + run_len(s, j, CharClass::Space);
        positionals(s, e, acc.push(ValV::String(t)))
    } else if identifier_at(s, w) is Some {
        let (j, t) = identifier_at(s, w)->Some_0;
        let e = j + run_len(s, j, CharClass::Space);
        if e < s.len() && s[e] == '(' {
            (acc, i)
        } else {
            positionals(s, e, acc.push(ValV::Identifier(t)))
        }
    } else {
        (acc, i)
    }
}

#[via_fn]
proof fn positionals_decreases(s: Seq<char>, i: int, acc: Seq<ValV>) {
    if 0 <= i <= s.len() {
        crate::text::lemma_run_len(s, i, CharClass::Space);
        let w = i + run_len(s, i, CharClass::Space);
        if w < s.len() {
            crate::text::lemma_run_len(s, w + 1, CharClass::QuotedStr);
            crate::text::lemma_run_len(s, w + 1, CharClass::Ident);
        }
        if string_at(s, w) is Some {
            let (j, t) = string_at(s, w)->Some_0;
            crate::text::lemma_run_len(s, j, CharClass::Space);
        } else if identifier_at(s, w) is Some {
            let (j, t) = identifier_at(s, w)->Some_0;
            crate::text::lemma_run_len(s, j, CharClass::Space);
        }
    }
}

pub proof fn lemma_positionals_bounds(s: Seq<char>, i: int, acc: Seq<ValV>)
    requires
        0 <= i <= s.len(),
    ensures
        i <= positionals(s, i, acc).1 <= s.len(),
    decreases s.len() - i,
{
    crate::text::lemma_run_len(s, i, CharClass::Space);
    let w = i + run_len(s, i, CharClass::Space);
    if w < s.len() {
        crate::text::lemma_run_len(s, w + 1, CharClass::QuotedStr);
        crate::text::lemma_run_len(s, w + 1, CharClass::Ident);
    }
    if string_at(s, w) is Some {
        let (j, t) = string_at(s, w)->Some_0;
        crate::text::lemma_run_len(s, j, CharClass::Space);
        let e = j + run_len(s, j, CharClass::Space);
        lemma_positionals_bounds(s, e, acc.push(ValV::String(t)));
    } else if identifier_at(s, w) is Some {
        let (j, t) = identifier_at(s, w)->Some_0;
        crate::text::lemma_run_len(s, j, CharClass::Space);
        let e = j + run_len(s, j, CharClass::Space);
        if !(e < s.len() && s[e] == '(') {
            lemma_positionals_bounds(s, e, acc.push(ValV::Identifier(t)));
        }
    }
}

/// One named option `name(value)`, padded by whitespace, with an optional
/// trailing comma.
pub open spec fn option_at(s: Seq<char>, i: int) -> Option<(int, ParamV)> {
    let w = i + run_len(s, i, CharClass::Space);
    let ne = w + run_len(s, w, CharClass::Name);
    let a = ne + run_len(s, ne, CharClass::Space);
    if a < s.len() && s[a] == '(' {
        let b = a + 1 + run_len(s, a + 1, CharClass::Space);
        match parse_value_at(s, b) {
            Some((j, v)) => {
                let c = j + run_len(s, j, CharClass::Space);
                if c < s.len() && s[c] == ')' {
                    let d = c + 1 + run_len(s, c + 1, CharClass::Space);
                    let e: int = if d < s.len() && s[d] == ',' {
                        d + 1
                    } else {
                        d
                    };
                    Some((e, ParamV { name: s.subrange(w, ne), value: v }))
                } else {
                    None
                }
            },
            None => None,
        }
    } else {
        None
    }
}

pub proof fn lemma_option_at_bounds(s: Seq<char>, i: int)
    requires
        0 <= i <= s.len(),
    ensures
        option_at(s, i) matches Some(r) ==> i < r.0 <= s.len(),
{
    crate::text::lemma_run_len(s, i, CharClass::Space);
    let w = i + run_len(s, i, CharClass::Space);
    crate::text::lemma_run_len(s, w, CharClass::Name);
    let ne = w + run_len(s, w, CharClass::Name);
    crate::text::lemma_run_len(s, ne, CharClass::Space);
    let a = ne + run_len(s, ne, CharClass::Space);
    if a < s.len() && s[a] == '(' {
        crate::text::lemma_run_len(s, a + 1, CharClass::Space);
        let b = a + 1 + run_len(s, a + 1, CharClass::Space);
        lemma_parse_value_at_bounds(s, b);
        if parse_value_at(s, b) is Some {
            let (j, v) = parse_value_at(s, b)->Some_0;
            crate::text::lemma_run_len(s, j, CharClass::Space);
            let c = j + run_len(s, j, CharClass::Space);
            if c < s.len() && s[c] == ')' {
                crate::text::lemma_run_len(s, c + 1, CharClass::Space);
            }
        }
    }
}

/// The named options of a driver body from `i` on; a repeated name
/// overwrites the earlier occurrence.
pub open spec fn options_loop(s: Seq<char>, i: int, acc: Seq<ParamV>) -> (Seq<ParamV>, int)
    decreases s.len() - i,
    when 0 <= i <= s.len()
    via options_loop_decreases
{
    match option_at(s, i) {
        Some((j, p)) => options_loop(s, j, param_upsert(acc, p)),
        None => (acc, i),
    }
}

#[via_fn]
proof fn options_loop_decreases(s: Seq<char>, i: int, acc: Seq<ParamV>) {
    if 0 <= i <= s.len() {
        lemma_option_at_bounds(s, i);
    }
}

pub proof fn lemma_options_loop_bounds(s: Seq<char>, i: int, acc: Seq<ParamV>)
    requires
        0 <= i <= s.len(),
    ensures
        i <= options_loop(s, i, acc).1 <= s.len(),
    decreases s.len() - i,
{
    lemma_option_at_bounds(s, i);
    match option_at(s, i) {
        Some((j, p)) => {
            lemma_options_loop_bounds(s, j, param_upsert(acc, p));
        },
        None => {},
    }
}

/// One driver call `name( <positional>* <option>* );` with its trailing
/// whitespace. The name is everything up to the opening parenthesis; the
/// body must not place an opening parenthesis where a positional value
/// could start.
pub open spec fn driver_at(s: Seq<char>, i: int) -> Option<(int, DriverV)> {
    let ne = i + run_len(s, i, CharClass::Name);
    let a = ne + run_len(s, ne, CharClass::Space);
    if a < s.len() && s[a] == '(' {
        let pos = positionals(s, a + 1, Seq::empty());
        let p = pos.1;
        let q = p + run_len(s, p, CharClass::Space);
        if q < s.len() && s[q] == '(' {
            None
        } else {
            let opts = options_loop(s, p, Seq::empty());
            let e = opts.1;
            let f = e + run_len(s, e, CharClass::Space);
            if f + 1 < s.len() && s[f] == ')' && s[f + 1] == ';' {
                let g = f + 2 + run_len(s, f + 2, CharClass::Space);
                Some((g, DriverV { name: s.subrange(i, ne), positional: pos.0, options: opts.0 }))
            } else {
                None
            }
        }
    } else {
        None
    }
}

pub proof fn lemma_driver_at_bounds(s: Seq<char>, i: int)
    requires
        0 <= i <= s.len(),
    ensures
        driver_at(s, i) matches Some(r) ==> i < r.0 <= s.len(),
{
    crate::text::lemma_run_len(s, i, CharClass::Name);
    let ne = i + run_len(s, i, CharClass::Name);
    crate::text::lemma_run_len(s, ne, CharClass::Space);
    let a = ne + run_len(s, ne, CharClass::Space);
    if a < s.len() && s[a] == '(' {
        lemma_positionals_bounds(s, a + 1, Seq::empty());
        let p = positionals(s, a + 1, Seq::empty()).1;
        crate::text::lemma_run_len(s, p, CharClass::Space);
        lemma_options_loop_bounds(s, p, Seq::empty());
        let e = options_loop(s, p, Seq::empty()).1;
        crate::text::lemma_run_len(s, e, CharClass::Space);
        let f = e + run_len(s, e, CharClass::Space);
        if f + 1 < s.len() && s[f] == ')' && s[f + 1] == ';' {
            crate::text::lemma_run_len(s, f + 2, CharClass::Space);
        }
    }
}

/// The drivers of an object body from `i` on.
pub open spec fn drivers_loop(s: Seq<char>, i: int, acc: Seq<DriverV>) -> (Seq<DriverV>, int)
    decreases s.len() - i,
    when 0 <= i <= s.len()
    via drivers_loop_decreases
{
    match driver_at(s, i) {
        Some((j, d)) => drivers_loop(s, j, acc.push(d)),
        None => (acc, i),
    }
}

#[via_fn]
proof fn drivers_loop_decreases(s: Seq<char>, i: int, acc: Seq<DriverV>) {
    if 0 <= i <= s.len() {
        lemma_driver_at_bounds(s, i);
    }
}


/// A whole top-level object block: a kind keyword, an optional identifier,
/// a braced driver list, and the closing `};`, each padded by whitespace.
pub open spec fn object_at(s: Seq<char>) -> Option<(int, ObjectV)> {
    let a = run_len(s, 0, CharClass::Space);
    let k = run_len(s, a, CharClass::Alnum);
    match kind_of_keyword(s.subrange(a, a + k)) {
        Some(kind) => {
            let b = a + k + run_len(s, a + k, CharClass::Space);
            let idl = run_len(s, b, CharClass::ObjectId);
            let c = b + idl + run_len(s, b + idl, CharClass::Space);
            if c < s.len() && s[c] == '{' {
                let drv = drivers_loop(s, c + 1 + run_len(s, c + 1, CharClass::Space), Seq::empty());
                let e = drv.1;
                let f = e + run_len(s, e, CharClass::Space);
                if f + 1 < s.len() && s[f] == '}' && s[f + 1] == ';' {
                    let g = f + 2 + run_len(s, f + 2, CharClass::Space);
                    Some(
                        (
                            g,
                            ObjectV {
                                id: s.subrange(b, b + idl),
                                kind,
                                drivers: drv.0,
                                location: None,
                            },
                        ),
                    )
                } else {
                    None
                }
            } else {
                None
            }
        },
        None => None,
    }
}


/// Insert a named option into a unique-name option list, overwriting an
/// earlier occurrence of the same name.
fn upsert_param(opts: &mut Vec<Parameter>, p: Parameter)
    requires
        params_unique(old(opts)@.map_values(|q: Parameter| q@)),
    ensures
        final(opts)@.map_values(|q: Parameter| q@) == param_upsert(
            old(opts)@.map_values(|q: Parameter| q@),
            p@,
        ),
        params_unique(final(opts)@.map_values(|q: Parameter| q@)),
{
    let ghost oldv = opts@.map_values(|q: Parameter| q@);
    let ghost pv = p@;
    let n = opts.len();
    let mut i: usize = 0;
    while i < n
        invariant
            n == opts.len(),
            0 <= i <= n,
            oldv == opts@.map_values(|q: Parameter| q@),
            oldv == old(opts)@.map_values(|q: Parameter| q@),
            pv == p@,
            forall|k: int| 0 <= k < i ==> oldv[k].name != pv.name,
            params_unique(oldv),
        decreases n - i,
    {
        if crate::text::str_eq(opts[i].option_name.as_str(), p.option_name.as_str()) {
            proof {
                crate::language_types::lemma_param_upsert_found(oldv, pv, i as int);
            }
            opts.set(i, p);
            proof {
                assert(opts@.map_values(|q: Parameter| q@) =~= oldv.update(i as int, pv));
                assert(param_upsert(oldv, pv) == oldv.update(i as int, pv));
                assert(opts@.map_values(|q: Parameter| q@) == param_upsert(oldv, pv));
                assert forall|a: int, b: int|
                    0 <= a < b < oldv.update(i as int, pv).len() implies oldv.update(
                    i as int,
                    pv,
                )[a].name != oldv.update(i as int, pv)[b].name by {
                    assert(oldv[a].name == oldv.update(i as int, pv)[a].name || a == i);
                    assert(oldv[b].name == oldv.update(i as int, pv)[b].name || b == i);
                }
            }
            return ;
        }
        i += 1;
    }
    opts.push(p);
    proof {
        crate::language_types::lemma_param_upsert_absent(oldv, pv);
        assert(opts@.map_values(|q: Parameter| q@) =~= oldv.push(pv));
    }
}

/// Scan the positional values of a driver body, as `positionals`
/// describes them.
fn parse_positionals_from(s: &str, from: usize) -> (r: (Vec<ValueTypes>, usize))
    requires
        from <= s@.len(),
    ensures
        positionals(s@, from as int, Seq::empty()) == (
            r.0@.map_values(|v: ValueTypes| v@),
            r.1 as int,
        ),
        from <= r.1 <= s@.len(),
{
    let n = s.unicode_len();
    let mut acc: Vec<ValueTypes> = Vec::new();
    let mut cur = from;
    proof {
        assert(acc@.map_values(|v: ValueTypes| v@) =~= Seq::<ValV>::empty());
    }
    loop
        invariant
            from <= cur <= n,
            n == s@.len(),
            positionals(s@, from as int, Seq::empty()) == positionals(
                s@,
                cur as int,
                acc@.map_values(|v: ValueTypes| v@),
            ),
        decreases n - cur,
    {
        let ghost accv = acc@.map_values(|v: ValueTypes| v@);
        let w = scan(s, cur, CharClass::Space);
        if w < n && s.get_char(w) == '"' {
            let q_end = scan(s, w + 1, CharClass::QuotedStr);
            if q_end < n && s.get_char(q_end) == '"' {
                let e = scan(s, q_end + 1, CharClass::Space);
                let piece = substr(s, w + 1, q_end);
                acc.push(ValueTypes::String(piece));
                proof {
                    assert(string_at(s@, w as int) == Some(
                        (q_end + 1int, s@.subrange(w + 1, q_end as int)),
                    ));
                    assert(acc@.map_values(|v: ValueTypes| v@) =~= accv.push(
                        ValV::String(s@.subrange(w + 1, q_end as int)),
                    ));
                }
                cur = e;
                continue ;
            }
        }
        if w < n {
            let c = s.get_char(w);
            if ('a' <= c && c <= 'z') || ('A' <= c && c <= 'Z') || c == '_' {
                let j = scan(s, w + 1, CharClass::Ident);
                let e = scan(s, j, CharClass::Space);
                proof {
                    assert(string_at(s@, w as int) is None);
                    assert(identifier_at(s@, w as int) == Some(
                        (j as int, s@.subrange(w as int, j as int)),
                    ));
                }
                if e < n && s.get_char(e) == '(' {
                    return (acc, cur);
                }
                let piece = substr(s, w, j);
                acc.push(ValueTypes::Identifier(piece));
                proof {
                    assert(acc@.map_values(|v: ValueTypes| v@) =~= accv.push(
                        ValV::Identifier(s@.subrange(w as int, j as int)),
                    ));
                }
                cur = e;
                continue ;
            }
        }
        proof {
            assert(string_at(s@, w as int) is None);
            assert(identifier_at(s@, w as int) is None);
        }
        return (acc, cur);
    }
}

/// Parse one named option, as `option_at` describes it.
fn parse_driver_option_from(s: &str, from: usize) -> (r: Option<(usize, Parameter)>)
    requires
        from <= s@.len(),
    ensures
        match r {
            Some((j, p)) => option_at(s@, from as int) matches Some((sj, sp)) && j as int == sj
                && p@ == sp && from < j <= s@.len(),
            None => option_at(s@, from as int) is None,
        },
{
    let n = s.unicode_len();
    let w = scan(s, from, CharClass::Space);
    let ne = scan(s, w, CharClass::Name);
    let a = scan(s, ne, CharClass::Space);
    if !(a < n && s.get_char(a) == '(') {
        return None;
    }
    let b = scan(s, a + 1, CharClass::Space);
    match parse_value_from(s, b) {
        Some((j, v)) => {
            let c = scan(s, j, CharClass::Space);
            if !(c < n && s.get_char(c) == ')') {
                return None;
            }
            let d = scan(s, c + 1, CharClass::Space);
            let e: usize = if d < n && s.get_char(d) == ',' {
                d + 1
            } else {
                d
            };
            let name = substr(s, w, ne);
            Some((e, Parameter::new(name, v)))
        },
        None => None,
    }
}

/// Parse one driver call, as `driver_at` describes it. The returned
/// driver's named options carry pairwise distinct names.
fn parse_driver_from(s: &str, from: usize) -> (r: Option<(usize, Driver)>)
    requires
        from <= s@.len(),
    ensures
        match r {
            Some((j, d)) => driver_at(s@, from as int) matches Some((sj, sd)) && j as int == sj
                && d@ == sd && from < j <= s@.len(),
            None => driver_at(s@, from as int) is None,
        },
{
    let n = s.unicode_len();
    let ne = scan(s, from, CharClass::Name);
    let a = scan(s, ne, CharClass::Space);
    if !(a < n && s.get_char(a) == '(') {
        return None;
    }
    let (pos_items, p) = parse_positionals_from(s, a + 1);
    let q = scan(s, p, CharClass::Space);
    if q < n && s.get_char(q) == '(' {
        return None;
    }
    // the named options
    let mut opts: Vec<Parameter> = Vec::new();
    let mut cur = p;
    proof {
        assert(opts@.map_values(|x: Parameter| x@) =~= Seq::<ParamV>::empty());
    }
    loop
        invariant
            p <= cur <= n,
            n == s@.len(),
            options_loop(s@, p as int, Seq::empty()) == options_loop(
                s@,
                cur as int,
                opts@.map_values(|x: Parameter| x@),
            ),
            params_unique(opts@.map_values(|x: Parameter| x@)),
        ensures
            p <= cur <= n,
            options_loop(s@, p as int, Seq::empty()) == (
                opts@.map_values(|x: Parameter| x@),
                cur as int,
            ),
        decreases n - cur,
    {
        let ghost optsv = opts@.map_values(|x: Parameter| x@);
        match parse_driver_option_from(s, cur) {
            Some((j, param)) => {
                upsert_param(&mut opts, param);
                cur = j;
            },
            None => {
                proof {
                    assert(options_loop(s@, cur as int, optsv) == (optsv, cur as int));
                }
                break ;
            },
        }
    }
    let ghost optsv = opts@.map_values(|x: Parameter| x@);
    let f = scan(s, cur, CharClass::Space);
    if !(f < n && f + 1 < n && s.get_char(f) == ')' && s.get_char(f + 1) == ';') {
        return None;
    }
    let g = scan(s, f + 2, CharClass::Space);
    let name = substr(s, from, ne);
    let d = Driver::new(name, pos_items, opts);
    Some((g, d))
}

/// Parse one whole object block starting at the beginning of `input`, as
/// `object_at` describes it; the returned object has no location yet.
pub fn parse_object_block<'a>(input: &'a str) -> (r: Option<(&'a str, Object)>)
    ensures
        match r {
            Some((rem, o)) => object_at(input@) matches Some((j, ov)) && rem@ == input@.subrange(
                j,
                input@.len() as int,
            ) && o@ == ov,
            None => object_at(input@) is None,
        },
{
    match parse_object_block_from(input) {
        Some((j, o)) => Some((input.substring_char(j, input.unicode_len()), o)),
        None => None,
    }
}

/// Parse one whole object block, returning the index past it.
fn parse_object_block_from(s: &str) -> (r: Option<(usize, Object)>)
    ensures
        match r {
            Some((j, o)) => object_at(s@) matches Some((sj, ov)) && j as int == sj && o@ == ov && j
                <= s@.len(),
            None => object_at(s@) is None,
        },
{
    let n = s.unicode_len();
    let a = scan(s, 0, CharClass::Space);
    let k_end = scan(s, a, CharClass::Alnum);
    let kw = substr(s, a, k_end);
    let kind = match match_object_kind(kw.as_str()) {
        Some(kind) => kind,
        None => {
            return None;
        },
    };
    let b = scan(s, k_end, CharClass::Space);
    let id_end = scan(s, b, CharClass::ObjectId);
    let c = scan(s, id_end, CharClass::Space);
    if !(c < n && s.get_char(c) == '{') {
        return None;
    }
    let d = scan(s, c + 1, CharClass::Space);
    // the drivers
    let mut drivers: Vec<Driver> = Vec::new();
    let mut cur = d;
    proof {
        assert(drivers@.map_values(|x: Driver| x@) =~= Seq::<DriverV>::empty());
    }
    loop
        invariant
            d <= cur <= n,
            n == s@.len(),
            drivers_loop(s@, d as int, Seq::empty()) == drivers_loop(
                s@,
                cur as int,
                drivers@.map_values(|x: Driver| x@),
            ),
        ensures
            d <= cur <= n,
            drivers_loop(s@, d as int, Seq::empty()) == (
                drivers@.map_values(|x: Driver| x@),
                cur as int,
            ),
        decreases n - cur,
    {
        let ghost drvv = drivers@.map_values(|x: Driver| x@);
        match parse_driver_from(s, cur) {
            Some((j, drv)) => {
                drivers.push(drv);
                proof {
                    assert(drivers@.map_values(|x: Driver| x@) =~= drvv.push(drv@));
                }
                cur = j;
            },
            None => {
                proof {
                    assert(drivers_loop(s@, cur as int, drvv) == (drvv, cur as int));
                }
                break ;
            },
        }
    }
    let ghost drvv = drivers@.map_values(|x: Driver| x@);
    let f = scan(s, cur, CharClass::Space);
    if !(f < n && f + 1 < n && s.get_char(f) == '}' && s.get_char(f + 1) == ';') {
        return None;
    }
    let g = scan(s, f + 2, CharClass::Space);
    let id = substr(s, b, id_end);
    let o = Object::new_without_location(id, kind, drivers);
    Some((g, o))
}

// ---------------------------------------------------------------------------
// The line-by-line configuration reader.
// ---------------------------------------------------------------------------
use crate::ast::ConfigV;
use crate::ast::SyslogNgConfiguration;
use crate::protocol::Position;
use crate::protocol::Range;
use crate::text::trimmed;
use crate::text::trim_region;

/// The spec-level content of a syntax fault.
pub enum SngErrV {
    UnknownObjectType(Seq<char>),
    MissingIdentifier,
    MissingBraces,
    UnknownOption(Seq<char>),
    MissingParentheses,
    MissingSemiColon,
    InvalidType,
}

impl View for SngSyntaxErrorKind {
    type V = SngErrV;

    open spec fn view(&self) -> SngErrV {
        match self {
            SngSyntaxErrorKind::UnknownObjectType(t) => SngErrV::UnknownObjectType(t@),
            SngSyntaxErrorKind::MissingIdentifier => SngErrV::MissingIdentifier,
            SngSyntaxErrorKind::MissingBraces => SngErrV::MissingBraces,
            SngSyntaxErrorKind::UnknownOption(t) => SngErrV::UnknownOption(t@),
            SngSyntaxErrorKind::MissingParentheses => SngErrV::MissingParentheses,
            SngSyntaxErrorKind::MissingSemiColon => SngErrV::MissingSemiColon,
            SngSyntaxErrorKind::InvalidType => SngErrV::InvalidType,
        }
    }
}

/// What one reading of a configuration text produces: the declared
/// version, the snippet-directive patterns, the located objects, and the
/// terminal fault if reading stopped.
pub struct ConfOutcome {
    pub version: VersionAnnotation,
    pub imports: Seq<Seq<char>>,
    pub objects: Seq<ObjectV>,
    pub err: Option<SngErrV>,
}

/// How many newline characters `t` holds.
pub open spec fn newline_count(t: Seq<char>) -> int
    decreases t.len(),
{
    if t.len() == 0 {
        0
    } else {
        newline_count(t.drop_last()) + if t.last() == '\n' {
            1int
        } else {
            0int
        }
    }
}

/// How many lines `t` holds, counting a final fragment without a newline.
pub open spec fn line_count(t: Seq<char>) -> int {
    newline_count(t) + if t.len() > 0 && t.last() != '\n' {
        1int
    } else {
        0int
    }
}

/// Count the lines of `s`, as `line_count` describes them.
pub fn count_lines(s: &str) -> (r: usize)
    ensures
        r as int == line_count(s@),
{
    let n = s.unicode_len();
    let mut i: usize = 0;
    let mut cnt: usize = 0;
    proof {
        assert(s@.subrange(0, 0) =~= Seq::<char>::empty());
    }
    while i < n
        invariant
            0 <= i <= n,
            n == s@.len(),
            cnt <= i,
            cnt as int == newline_count(s@.subrange(0, i as int)),
        decreases n - i,
    {
        let c = s.get_char(i);
        proof {
            assert(s@.subrange(0, i + 1).drop_last() =~= s@.subrange(0, i as int));
            assert(s@.subrange(0, i + 1).last() == s@[i as int]);
        }
        if c == '\n' {
            cnt += 1;
        }
        i += 1;
    }
    proof {
        assert(s@.subrange(0, n as int) =~= s@);
        lemma_newline_count_le(s@);
        if n > 0 {
            lemma_newline_count_le(s@.drop_last());
        }
    }
    if n > 0 && s.get_char(n - 1) != '\n' {
        cnt + 1
    } else {
        cnt
    }
}

proof fn lemma_newline_count_le(t: Seq<char>)
    ensures
        0 <= newline_count(t) <= t.len(),
    decreases t.len(),
{
    if t.len() > 0 {
        lemma_newline_count_le(t.drop_last());
    }
}

/// `x + 1`, capped at the largest `u32`.
pub open spec fn sat_inc(x: u32) -> u32 {
    if x < u32::MAX {
        (x + 1) as u32
    } else {
        x
    }
}

fn sat_inc_exec(x: u32) -> (r: u32)
    ensures
        r == sat_inc(x),
{
    if x < u32::MAX {
        x + 1
    } else {
        x
    }
}

/// One reading of the configuration text `s` for document `uri`,
/// line by line from `pos`, with the accumulated `chunk` and the state so
/// far. Each line is appended to the chunk (a `#` truncates the chunk at
/// the `#`, wherever it stands — also inside quotes); a chunk whose first
/// non-blank character is `@` must parse as an annotation, which is
/// applied and consumed; a chunk that parses as an object block yields an
/// object whose recorded range spans the consumed lines; anything else is
/// kept and extended by further lines. Non-blank text left at the end of
/// the input is an unterminated declaration.
pub open spec fn conf_fold(
    s: Seq<char>,
    uri: Seq<char>,
    pos: int,
    chunk: Seq<char>,
    line_num: u32,
    ver: VersionAnnotation,
    imps: Seq<Seq<char>>,
    objs: Seq<ObjectV>,
) -> ConfOutcome
    decreases s.len() - pos,
    when 0 <= pos <= s.len()
    via conf_fold_decreases
{
    if pos >= s.len() {
        let rest = trimmed(chunk);
        ConfOutcome {
            version: ver,
            imports: imps,
            objects: objs,
            err: if rest.len() > 0 {
                Some(SngErrV::UnknownOption(rest))
            } else {
                None
            },
        }
    } else {
        let ll = run_len(s, pos, CharClass::Line);
        let next: int = if pos + ll < s.len() {
            pos + ll + 1
        } else {
            s.len() as int
        };
        let chunk1 = chunk + s.subrange(pos, pos + ll) + seq!['\n'];
        let hash = run_len(chunk1, 0, CharClass::NotHash);
        let chunk2: Seq<char> = if hash < chunk1.len() {
            chunk1.take(hash)
        } else {
            chunk1
        };
        let a = run_len(chunk2, 0, CharClass::Space);
        let gate = a < chunk2.len() && chunk2[a] == '@';
        if gate && annotation_at(chunk2) is None {
            ConfOutcome {
                version: ver,
                imports: imps,
                objects: objs,
                err: Some(SngErrV::InvalidType),
            }
        } else {
            let step: (Seq<char>, VersionAnnotation, Seq<Seq<char>>) = if gate {
                let (j, av) = annotation_at(chunk2)->Some_0;
                match av {
                    Some(AnnotationV::VA(v)) => (chunk2.subrange(j, chunk2.len() as int), v, imps),
                    Some(AnnotationV::IA(pat)) => (
                        chunk2.subrange(j, chunk2.len() as int),
                        ver,
                        imps.push(pat),
                    ),
                    None => (chunk2, ver, imps),
                }
            } else {
                (chunk2, ver, imps)
            };
            let chunk3 = step.0;
            let ver1 = step.1;
            let imps1 = step.2;
            match object_at(chunk3) {
                Some((j, ov)) => {
                    let lc = line_count(chunk3);
                    let span: int = if lc - 1 > 1 {
                        lc - 1
                    } else {
                        1
                    };
                    let endl = sat_inc(line_num);
                    let st = endl as int - span;
                    let startl: u32 = if st >= 0 {
                        st as u32
                    } else {
                        0
                    };
                    let range = Range {
                        start: Position { line: startl, character: 0 },
                        end: Position { line: endl, character: 0 },
                    };
                    let obj = ObjectV { location: Some((uri, range)), ..ov };
                    conf_fold(
                        s,
                        uri,
                        next,
                        chunk3.subrange(j, chunk3.len() as int),
                        sat_inc(line_num),
                        ver1,
                        imps1,
                        objs.push(obj),
                    )
                },
                None => conf_fold(s, uri, next, chunk3, sat_inc(line_num), ver1, imps1, objs),
            }
        }
    }
}

#[via_fn]
proof fn conf_fold_decreases(
    s: Seq<char>,
    uri: Seq<char>,
    pos: int,
    chunk: Seq<char>,
    line_num: u32,
    ver: VersionAnnotation,
    imps: Seq<Seq<char>>,
    objs: Seq<ObjectV>,
) {
    if 0 <= pos < s.len() {
        crate::text::lemma_run_len(s, pos, CharClass::Line);
    }
}

/// The fields of the configuration that parsing does not touch.
pub open spec fn parse_extends(before: ConfigV, after: ConfigV) -> bool {
    after == ConfigV {
        version: after.version,
        imports: after.imports,
        objects: after.objects,
        ..before
    }
}

/// Read a whole configuration text line by line, as `conf_fold` describes
/// it, applying annotations and located objects to `sng_conf`; returns the
/// terminal syntax fault, if reading stopped on one.
#[verifier::rlimit(100)]
pub fn parse_conf(input: &str, file_url: &str, sng_conf: &mut SyslogNgConfiguration) -> (r:
    Option<SngSyntaxErrorKind>)
    ensures
        ({
            let oc = conf_fold(
                input@,
                file_url@,
                0,
                Seq::empty(),
                0,
                old(sng_conf)@.version,
                old(sng_conf)@.imports,
                old(sng_conf)@.objects,
            );
            &&& final(sng_conf)@ == (ConfigV {
                version: oc.version,
                imports: oc.imports,
                objects: oc.objects,
                ..old(sng_conf)@
            })
            &&& match r {
                Some(e) => oc.err == Some(e@),
                None => oc.err is None,
            }
        }),
{
    let n = input.unicode_len();
    let mut pos: usize = 0;
    let mut line_num: u32 = 0;
    let mut chunk = String::new();
    while pos < n
        invariant
            0 <= pos <= n,
            n == input@.len(),
            parse_extends(old(sng_conf)@, sng_conf@),
            conf_fold(
                input@,
                file_url@,
                0,
                Seq::empty(),
                0,
                old(sng_conf)@.version,
                old(sng_conf)@.imports,
                old(sng_conf)@.objects,
            ) == conf_fold(
                input@,
                file_url@,
                pos as int,
                chunk@,
                line_num,
                sng_conf@.version,
                sng_conf@.imports,
                sng_conf@.objects,
            ),
        decreases n - pos,
    {
        let ghost chunk0 = chunk@;
        let ghost pos0 = pos as int;
        let ghost ln0 = line_num;
        let ghost ver0 = sng_conf@.version;
        let ghost imps0 = sng_conf@.imports;
        let ghost objs0 = sng_conf@.objects;
        let ghost ll = run_len(input@, pos as int, CharClass::Line);

        let ll_end = scan(input, pos, CharClass::Line);
        let line = input.substring_char(pos, ll_end);
        chunk.append(line);
        chunk.append("\n");
        proof {
            reveal_strlit("\n");
            assert(chunk@ =~= chunk0 + input@.subrange(pos0, pos0 + ll) + seq!['\n']);
        }
        let next = if ll_end < n {
            ll_end + 1
        } else {
            n
        };
        let ghost chunk1 = chunk@;
        // strip a line comment: truncate at the first hash sign
        let clen1 = chunk.unicode_len();
        let hash = scan(chunk.as_str(), 0, CharClass::NotHash);
        if hash < clen1 {
            let t = substr(chunk.as_str(), 0, hash);
            chunk = t;
            proof {
                assert(chunk@ =~= chunk1.take(run_len(chunk1, 0, CharClass::NotHash)));
            }
        }
        let ghost chunk2 = chunk@;
        proof {
            let h = run_len(chunk1, 0, CharClass::NotHash);
            assert(chunk2 == if h < chunk1.len() {
                chunk1.take(h)
            } else {
                chunk1
            });
        }
        // a chunk whose first non-blank character is `@` must be an annotation
        let clen2 = chunk.unicode_len();
        let a = scan(chunk.as_str(), 0, CharClass::Space);
        let ghost gate = a < clen2 && chunk@[a as int] == '@';
        if a < clen2 && chunk.as_str().get_char(a) == '@' {
            match annotation_from(chunk.as_str()) {
                None => {
                    proof {
                        assert(conf_fold(
                            input@,
                            file_url@,
                            pos0,
                            chunk0,
                            ln0,
                            ver0,
                            imps0,
                            objs0,
                        ) == ConfOutcome {
                            version: ver0,
                            imports: imps0,
                            objects: objs0,
                            err: Some(SngErrV::InvalidType),
                        });
                    }
                    return Some(SngSyntaxErrorKind::InvalidType);
                },
                Some((j, Some(ann))) => {
                    let ghost av = ann@;
                    sng_conf.add_annotation(ann);
                    let t = substr(chunk.as_str(), j, clen2);
                    chunk = t;
                },
                Some((_, None)) => {},
            }
        }
        proof {
            if gate {
                let (j, av) = annotation_at(chunk2)->Some_0;
                match av {
                    Some(AnnotationV::VA(v)) => {
                        assert(chunk@ == chunk2.subrange(j, chunk2.len() as int));
                        assert(sng_conf@.version == v);
                        assert(sng_conf@.imports == imps0);
                    },
                    Some(AnnotationV::IA(pat)) => {
                        assert(chunk@ == chunk2.subrange(j, chunk2.len() as int));
                        assert(sng_conf@.version == ver0);
                        assert(sng_conf@.imports == imps0.push(pat));
                    },
                    None => {
                        assert(chunk@ == chunk2);
                    },
                }
            } else {
                assert(chunk@ == chunk2);
            }
            assert(sng_conf@.objects == objs0);
        }
        let ghost chunk3 = chunk@;
        // a chunk that parses as an object block becomes a located object
        match parse_object_block_from(chunk.as_str()) {
            Some((j, mut obj)) => {
                let lc = count_lines(chunk.as_str());
                let span: usize = if lc >= 2 {
                    lc - 1
                } else {
                    1
                };
                let endl = sat_inc_exec(line_num);
                let startl: u32 = if span <= endl as usize {
                    endl - (span as u32)
                } else {
                    0
                };
                let range = Range::new(Position::new(startl, 0), Position::new(endl, 0));
                obj.set_location(file_url, &range);
                proof {
                    let ov = object_at(chunk3)->Some_0.1;
                    assert(obj@ == (ObjectV { location: Some((file_url@, range)), ..ov }));
                }
                sng_conf.add_object(obj);
                let clen3 = chunk.unicode_len();
                let t = substr(chunk.as_str(), j, clen3);
                chunk = t;
            },
            None => {},
        }
        line_num = sat_inc_exec(line_num);
        pos = next;
        proof {
            assert(conf_fold(input@, file_url@, pos0, chunk0, ln0, ver0, imps0, objs0)
                == conf_fold(
                input@,
                file_url@,
                pos as int,
                chunk@,
                line_num,
                sng_conf@.version,
                sng_conf@.imports,
                sng_conf@.objects,
            ));
        }
    }
    // end of input: non-blank leftover text is an unterminated declaration
    let clen = chunk.unicode_len();
    let rest = trim_region(chunk.as_str(), 0, clen);
    proof {
        assert(chunk@.subrange(0, chunk@.len() as int) =~= chunk@);
        assert(rest@ == trimmed(chunk@));
    }
    if rest.unicode_len() > 0 {
        Some(SngSyntaxErrorKind::UnknownOption(rest))
    } else {
        None
    }
}

/// Read a configuration text into `conf` with an empty document identity;
/// the session layer records the text itself beforehand.
pub fn try_parse_configuration(input: &str, conf: &mut SyslogNgConfiguration)
    ensures
        ({
            let oc = conf_fold(
                input@,
                ""@,
                0,
                Seq::empty(),
                0,
                old(conf)@.version,
                old(conf)@.imports,
                old(conf)@.objects,
            );
            final(conf)@ == (ConfigV {
                version: oc.version,
                imports: oc.imports,
                objects: oc.objects,
                ..old(conf)@
            })
        }),
{
    let _ = parse_conf(input, "", conf);
}

// ---------------------------------------------------------------------------
// Laws of the value grammar.
// ---------------------------------------------------------------------------
/// Law: every valid boolean token — `1`, `0`, `yes`, `no`, `on`, `off` —
/// is recognized first, as `YesNo` with its truth value; a maximal
/// alphanumeric token of any other shape falls through the boolean
/// recognizer.
pub proof fn lemma_boolean_tokens(s: Seq<char>)
    ensures
        ({
            let j = run_len(s, 0, CharClass::Alnum);
            let tok = s.subrange(0, j);
            &&& (j > 0 && bool_token(tok) is Some) ==> parse_value_at(s, 0) == Some(
                (j, ValV::YesNo(bool_token(tok)->Some_0)),
            )
            &&& bool_token(tok) is None ==> yesno_at(s, 0) is None
        }),
{
    crate::text::lemma_run_len(s, 0, CharClass::Alnum);
}

/// Law: a whole-string digit run is recognized as `PositiveInteger` of
/// its value when the value is positive, and as `NonNegativeInteger`
/// when the value is zero. The single digits `1` and `0` are left out:
/// they are boolean tokens and the boolean recognizer takes them first.
/// A value beyond the machine's word is left out too: it falls through
/// to the later recognizers.
pub proof fn lemma_digit_strings(s: Seq<char>)
    requires
        s.len() > 0,
        forall|k: int| 0 <= k < s.len() ==> is_digit_char(s[k]),
        digits_val(s, 0, s.len() as int) <= usize::MAX as int,
        s != seq!['1'],
        s != seq!['0'],
    ensures
        digits_val(s, 0, s.len() as int) > 0 ==> parse_value_at(s, 0) == Some(
            (s.len() as int, ValV::PositiveInteger(digits_val(s, 0, s.len() as int))),
        ),
        digits_val(s, 0, s.len() as int) == 0 ==> parse_value_at(s, 0) == Some(
            (s.len() as int, ValV::NonNegativeInteger(0)),
        ),
{
    crate::text::lemma_run_len_of(s, 0, s.len() as int, CharClass::Alnum);
    crate::text::lemma_run_len_of(s, 0, s.len() as int, CharClass::Digit);
    let tok = s.subrange(0, s.len() as int);
    assert(tok =~= s);
    assert(bool_token(tok) is None) by {
        if s.len() == 1 {
            if s[0] == '1' {
                assert(s =~= seq!['1']);
            }
            if s[0] == '0' {
                assert(s =~= seq!['0']);
            }
        }
        assert(s.len() >= 2 ==> !is_digit_char('o') && !is_digit_char('y') && !is_digit_char('n'));
    }
    lemma_digits_val_nonneg(s, 0, s.len() as int);
}

} // verus!
