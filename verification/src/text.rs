//! Character-level utilities shared by the configuration parser: character
//! classes, maximal-run scanning, substring search and lexicographic order,
//! all specified over `Seq<char>` views.

use vstd::prelude::*;
use vstd::string::StrSliceExecFns;
use vstd::string::StringExecFns;

verus! {

/// Whitespace, as the configuration grammar understands it.
pub open spec fn is_space_char(c: char) -> bool {
    c == ' ' || c == '\t' || c == '\n' || c == '\r'
}

pub open spec fn is_digit_char(c: char) -> bool {
    '0' <= c && c <= '9'
}

pub open spec fn is_alpha_char(c: char) -> bool {
    ('a' <= c && c <= 'z') || ('A' <= c && c <= 'Z')
}

pub open spec fn is_alnum_char(c: char) -> bool {
    is_alpha_char(c) || is_digit_char(c)
}

/// The character classes whose maximal runs the parser scans for.
#[derive(Clone, Copy, PartialEq, Eq, Structural, Debug)]
pub enum CharClass {
    /// Whitespace.
    Space,
    /// Decimal digits.
    Digit,
    /// Letters.
    Alpha,
    /// Letters and digits.
    Alnum,
    /// Letters, digits and underscore: identifier continuation characters.
    Ident,
    /// Anything but a colon.
    NotColon,
    /// Anything but a colon or a double quote: quoted-string content.
    QuotedStr,
    /// Anything but an opening parenthesis or whitespace: driver and option
    /// names.
    Name,
    /// Anything but a newline: the rest of the current line.
    Line,
    /// Anything but a hash sign: text before a line comment.
    NotHash,
    /// Anything but a slash: the first alias of an option name.
    NotSlash,
    /// Anything but an opening parenthesis.
    NotParen,
    /// Anything but whitespace or an opening brace: object identifiers.
    ObjectId,
}

/// Which characters belong to each scanning class.
pub open spec fn class_pred(cc: CharClass, c: char) -> bool {
    match cc {
        CharClass::Space => is_space_char(c),
        CharClass::Digit => is_digit_char(c),
        CharClass::Alpha => is_alpha_char(c),
        CharClass::Alnum => is_alnum_char(c),
        CharClass::Ident => is_alnum_char(c) || c == '_',
        CharClass::NotColon => c != ':',
        CharClass::QuotedStr => c != ':' && c != '"',
        CharClass::Name => c != '(' && !is_space_char(c),
        CharClass::Line => c != '\n',
        CharClass::NotHash => c != '#',
        CharClass::NotSlash => c != '/',
        CharClass::NotParen => c != '(',
        CharClass::ObjectId => !is_space_char(c) && c != '{',
    }
}

/// Length of the maximal run of characters of class `cc` in `s` starting at
/// `from`.
pub open spec fn run_len(s: Seq<char>, from: int, cc: CharClass) -> int
    decreases s.len() - from,
{
    if from < 0 || from >= s.len() || !class_pred(cc, s[from]) {
        0
    } else {
        1 + run_len(s, from + 1, cc)
    }
}

/// The maximal run is bounded by the string, all its characters are in the
/// class, and the first character after it (if any) is not.
pub proof fn lemma_run_len(s: Seq<char>, from: int, cc: CharClass)
    requires
        0 <= from <= s.len(),
    ensures
        0 <= run_len(s, from, cc),
        from + run_len(s, from, cc) <= s.len(),
        forall|k: int| from <= k < from + run_len(s, from, cc) ==> class_pred(cc, s[k]),
        from + run_len(s, from, cc) < s.len() ==> !class_pred(cc, s[from + run_len(s, from, cc)]),
    decreases s.len() - from,
{
    if from < s.len() && class_pred(cc, s[from]) {
        lemma_run_len(s, from + 1, cc);
    }
}

/// A run that is in the class and maximal is the maximal run.
pub proof fn lemma_run_len_of(s: Seq<char>, from: int, j: int, cc: CharClass)
    requires
        0 <= from <= j <= s.len(),
        forall|k: int| from <= k < j ==> class_pred(cc, s[k]),
        j < s.len() ==> !class_pred(cc, s[j]),
    ensures
        run_len(s, from, cc) == j - from,
    decreases j - from,
{
    if from < j {
        lemma_run_len_of(s, from + 1, j, cc);
    }
}

/// Executable twin of `class_pred`.
pub fn class_pred_exec(cc: CharClass, c: char) -> (r: bool)
    ensures
        r == class_pred(cc, c),
{
    match cc {
        CharClass::Space => c == ' ' || c == '\t' || c == '\n' || c == '\r',
        CharClass::Digit => '0' <= c && c <= '9',
        CharClass::Alpha => ('a' <= c && c <= 'z') || ('A' <= c && c <= 'Z'),
        CharClass::Alnum => ('a' <= c && c <= 'z') || ('A' <= c && c <= 'Z') || ('0' <= c && c
            <= '9'),
        CharClass::Ident => ('a' <= c && c <= 'z') || ('A' <= c && c <= 'Z') || ('0' <= c && c
            <= '9') || c == '_',
        CharClass::NotColon => c != ':',
        CharClass::QuotedStr => c != ':' && c != '"',
        CharClass::Name => c != '(' && !(c == ' ' || c == '\t' || c == '\n' || c == '\r'),
        CharClass::Line => c != '\n',
        CharClass::NotHash => c != '#',
        CharClass::NotSlash => c != '/',
        CharClass::NotParen => c != '(',
        CharClass::ObjectId => !(c == ' ' || c == '\t' || c == '\n' || c == '\r') && c != '{',
    }
}

/// Scan the maximal run of class `cc` starting at `from`; returns the index
/// just past the run.
pub fn scan(s: &str, from: usize, cc: CharClass) -> (j: usize)
    requires
        from <= s@.len(),
    ensures
        from <= j <= s@.len(),
        j - from == run_len(s@, from as int, cc),
        forall|k: int| from <= k < j ==> class_pred(cc, s@[k]),
        j < s@.len() ==> !class_pred(cc, s@[j as int]),
{
    let n = s.unicode_len();
    let mut j: usize = from;
    while j < n && class_pred_exec(cc, s.get_char(j))
        invariant
            n == s@.len(),
            from <= j <= n,
            forall|k: int| from <= k < j ==> class_pred(cc, s@[k]),
        decreases n - j,
    {
        j += 1;
    }
    proof {
        lemma_run_len_of(s@, from as int, j as int, cc);
    }
    j
}

/// Does `pat` occur in `s` starting exactly at index `i`?
pub open spec fn matches_at(s: Seq<char>, i: int, pat: Seq<char>) -> bool {
    0 <= i && i + pat.len() <= s.len() && s.subrange(i, i + pat.len()) == pat
}

/// Does `pat` occur anywhere in `s`?
pub open spec fn contains_seq(s: Seq<char>, pat: Seq<char>) -> bool {
    exists|i: int| matches_at(s, i, pat)
}

/// Executable twin of `matches_at`.
pub fn matches_at_exec(s: &str, i: usize, pat: &str) -> (r: bool)
    requires
        i <= s@.len(),
    ensures
        r == matches_at(s@, i as int, pat@),
{
    let m = pat.unicode_len();
    let n = s.unicode_len();
    if m > n - i {
        return false;
    }
    let mut k: usize = 0;
    while k < m
        invariant
            m == pat@.len(),
            n == s@.len(),
            i + m <= n,
            0 <= k <= m,
            forall|t: int| 0 <= t < k ==> s@[i + t] == pat@[t],
        decreases m - k,
    {
        if s.get_char(i + k) != pat.get_char(k) {
            assert(s@.subrange(i as int, i + m) != pat@) by {
                assert(s@.subrange(i as int, i + m)[k as int] != pat@[k as int]);
            }
            return false;
        }
        k += 1;
    }
    assert(s@.subrange(i as int, i + m) =~= pat@);
    true
}

/// Executable twin of `contains_seq`.
pub fn contains_str(s: &str, pat: &str) -> (r: bool)
    ensures
        r == contains_seq(s@, pat@),
{
    let n = s.unicode_len();
    let mut i: usize = 0;
    loop
        invariant
            n == s@.len(),
            0 <= i <= n,
            forall|t: int| 0 <= t < i ==> !matches_at(s@, t, pat@),
        decreases n - i,
    {
        if matches_at_exec(s, i, pat) {
            return true;
        }
        if i == n {
            assert(forall|t: int| matches_at(s@, t, pat@) ==> 0 <= t <= n);
            return false;
        }
        i += 1;
    }
}

/// The index just past the trailing whitespace run that ends at `till`.
pub open spec fn back_space_run(s: Seq<char>, till: int) -> int
    decreases till,
{
    if till <= 0 || till > s.len() || !is_space_char(s[till - 1]) {
        till
    } else {
        back_space_run(s, till - 1)
    }
}

pub proof fn lemma_back_space_run(s: Seq<char>, till: int)
    requires
        0 <= till <= s.len(),
    ensures
        0 <= back_space_run(s, till) <= till,
        forall|k: int| back_space_run(s, till) <= k < till ==> is_space_char(s[k]),
        back_space_run(s, till) > 0 ==> !is_space_char(s[back_space_run(s, till) - 1]),
    decreases till,
{
    if till > 0 && is_space_char(s[till - 1]) {
        lemma_back_space_run(s, till - 1);
    }
}

/// `s` with leading and trailing whitespace removed.
pub open spec fn trimmed(s: Seq<char>) -> Seq<char> {
    let a = run_len(s, 0, CharClass::Space);
    if a == s.len() {
        Seq::empty()
    } else {
        s.subrange(a, back_space_run(s, s.len() as int))
    }
}

/// Trim leading and trailing whitespace from a region of `s`.
pub fn trim_region(s: &str, from: usize, to: usize) -> (r: String)
    requires
        from <= to <= s@.len(),
    ensures
        r@ == trimmed(s@.subrange(from as int, to as int)),
{
    let ghost sub = s@.subrange(from as int, to as int);
    let mut a: usize = from;
    while a < to && class_pred_exec(CharClass::Space, s.get_char(a))
        invariant
            from <= a <= to <= s@.len(),
            forall|k: int| from <= k < a ==> is_space_char(s@[k]),
        decreases to - a,
    {
        a += 1;
    }
    let mut b: usize = to;
    while b > a && class_pred_exec(CharClass::Space, s.get_char(b - 1))
        invariant
            from <= a <= b <= to <= s@.len(),
            forall|k: int| b <= k < to ==> is_space_char(s@[k]),
        decreases b,
    {
        b -= 1;
    }
    let r = String::from_str(s.substring_char(a, b));
    proof {
        if a == to {
            // the whole region is whitespace
            assert(forall|k: int| 0 <= k < sub.len() ==> is_space_char(#[trigger] sub[k]));
            lemma_run_len_of(sub, 0, sub.len() as int, CharClass::Space);
            assert(r@ =~= trimmed(sub));
        } else {
            assert(forall|k: int| 0 <= k < a - from ==> class_pred(
                CharClass::Space,
                #[trigger] sub[k],
            ));
            assert(!is_space_char(sub[a - from]));
            lemma_run_len_of(sub, 0, a - from, CharClass::Space);
            assert(run_len(sub, 0, CharClass::Space) == a - from);
            assert forall|k: int| b - from <= k < sub.len() implies is_space_char(
                #[trigger] sub[k],
            ) by {
                assert(sub[k] == s@[k + from]);
            }
            if b - from > 0 {
                assert(sub[b - from - 1] == s@[b - 1]);
            }
            lemma_back_space_run_of(sub, b - from);
            assert(r@ =~= trimmed(sub));
        }
    }
    r
}

/// A cut that has only whitespace after it, and no whitespace right before
/// it, is where `back_space_run` cuts.
proof fn lemma_back_space_run_of(s: Seq<char>, b: int)
    requires
        0 <= b <= s.len(),
        forall|k: int| b <= k < s.len() ==> is_space_char(s[k]),
        b > 0 ==> !is_space_char(s[b - 1]),
    ensures
        back_space_run(s, s.len() as int) == b,
    decreases s.len(),
{
    lemma_back_space_run_of_till(s, s.len() as int, b);
}

proof fn lemma_back_space_run_of_till(s: Seq<char>, till: int, b: int)
    requires
        0 <= b <= till <= s.len(),
        forall|k: int| b <= k < till ==> is_space_char(s[k]),
        b > 0 ==> !is_space_char(s[b - 1]),
    ensures
        back_space_run(s, till) == b,
    decreases till,
{
    if till > b {
        lemma_back_space_run_of_till(s, till - 1, b);
    }
}

/// Lexicographic order on character sequences, from position `i` on.
pub open spec fn lex_le_from(a: Seq<char>, b: Seq<char>, i: int) -> bool
    decreases a.len() - i,
{
    if i >= a.len() {
        true
    } else if i >= b.len() {
        false
    } else if a[i] != b[i] {
        a[i] < b[i]
    } else {
        lex_le_from(a, b, i + 1)
    }
}

/// Lexicographic order on character sequences.
pub open spec fn lex_le(a: Seq<char>, b: Seq<char>) -> bool {
    lex_le_from(a, b, 0)
}

/// Executable twin of `lex_le`.
pub fn str_lex_le(a: &str, b: &str) -> (r: bool)
    ensures
        r == lex_le(a@, b@),
{
    let na = a.unicode_len();
    let nb = b.unicode_len();
    let mut i: usize = 0;
    loop
        invariant
            na == a@.len(),
            nb == b@.len(),
            0 <= i <= na,
            i <= nb,
            forall|k: int| 0 <= k < i ==> a@[k] == b@[k],
            lex_le(a@, b@) == lex_le_from(a@, b@, i as int),
        decreases na - i,
    {
        if i >= na {
            return true;
        }
        if i >= nb {
            return false;
        }
        let ca = a.get_char(i);
        let cb = b.get_char(i);
        if ca != cb {
            return ca < cb;
        }
        i += 1;
    }
}

/// String equality by character comparison.
pub fn str_eq(a: &str, b: &str) -> (r: bool)
    ensures
        r == (a@ == b@),
{
    let na = a.unicode_len();
    let nb = b.unicode_len();
    if na != nb {
        assert(a@ != b@);
        return false;
    }
    let mut i: usize = 0;
    while i < na
        invariant
            na == a@.len(),
            na == b@.len(),
            0 <= i <= na,
            forall|k: int| 0 <= k < i ==> a@[k] == b@[k],
        decreases na - i,
    {
        if a.get_char(i) != b.get_char(i) {
            assert(a@ != b@);
            return false;
        }
        i += 1;
    }
    assert(a@ =~= b@);
    true
}

/// Copy the region `[from, to)` of `s` into an owned string.
pub fn substr(s: &str, from: usize, to: usize) -> (r: String)
    requires
        from <= to <= s@.len(),
    ensures
        r@ == s@.subrange(from as int, to as int),
{
    String::from_str(s.substring_char(from, to))
}

} // verus!
