//! Text-level helpers around documents: path joining, finding the main
//! configuration among loaded files, and locating the block or driver
//! around a cursor line. The session layer reads files and hands their
//! contents in; nothing here touches the file system.

use vstd::prelude::*;
use vstd::string::StrSliceExecFns;
use vstd::string::StringExecFns;

use crate::text::CharClass;
use crate::text::matches_at;
use crate::text::matches_at_exec;
use crate::text::run_len;
use crate::text::scan;
use crate::text::substr;
use crate::text::trim_region;
use crate::text::trimmed;

verus! {

/// Join a base directory and a relative path: an absolute relative part
/// replaces the base, otherwise the two are joined with a single `/`.
pub open spec fn joined_path(base: Seq<char>, rel: Seq<char>) -> Seq<char> {
    if rel.len() > 0 && rel[0] == '/' {
        rel
    } else if base.len() == 0 {
        rel
    } else if base.last() == '/' {
        base + rel
    } else {
        base + seq!['/'] + rel
    }
}

/// Build an absolute path from a base directory and a relative path, as
/// `joined_path` describes it.
pub fn create_absolute_path_from_relative(from: &str, relative_path: &str) -> (r: String)
    ensures
        r@ == joined_path(from@, relative_path@),
{
    let rn = relative_path.unicode_len();
    if rn > 0 && relative_path.get_char(0) == '/' {
        return String::from_str(relative_path);
    }
    let bn = from.unicode_len();
    if bn == 0 {
        return String::from_str(relative_path);
    }
    let mut r = String::from_str(from);
    if from.get_char(bn - 1) != '/' {
        r.append("/");
        proof {
            reveal_strlit("/");
            assert(r@ =~= from@ + seq!['/']);
            assert(r@ + relative_path@ =~= from@ + seq!['/'] + relative_path@);
        }
    }
    r.append(relative_path);
    r
}

/// The index of the first line of `s`, counting from `pos` as line `idx`,
/// whose trimmed text starts with `@version`.
pub open spec fn version_line_from(s: Seq<char>, pos: int, idx: int) -> Option<int>
    decreases s.len() - pos,
    when 0 <= pos <= s.len()
    via version_line_from_decreases
{
    if pos >= s.len() {
        None
    } else {
        let ll = run_len(s, pos, CharClass::Line);
        let line = s.subrange(pos, pos + ll);
        let next: int = if pos + ll < s.len() {
            pos + ll + 1
        } else {
            s.len() as int
        };
        if matches_at(trimmed(line), 0, "@version"@) {
            Some(idx)
        } else {
            version_line_from(s, next, idx + 1)
        }
    }
}

#[via_fn]
proof fn version_line_from_decreases(s: Seq<char>, pos: int, idx: int) {
    if 0 <= pos < s.len() {
        crate::text::lemma_run_len(s, pos, CharClass::Line);
    }
}

/// Find the first line whose trimmed text starts with `@version`, as
/// `version_line_from` describes it.
pub fn find_version_annotation(input: &str) -> (r: Option<usize>)
    ensures
        match r {
            Some(i) => version_line_from(input@, 0, 0) == Some(i as int),
            None => version_line_from(input@, 0, 0) is None,
        },
{
    let n = input.unicode_len();
    let mut pos: usize = 0;
    let mut idx: usize = 0;
    while pos < n
        invariant
            0 <= pos <= n,
            n == input@.len(),
            idx <= pos,
            version_line_from(input@, 0, 0) == version_line_from(input@, pos as int, idx as int),
        decreases n - pos,
    {
        let ll_end = scan(input, pos, CharClass::Line);
        let line = trim_region(input, pos, ll_end);
        if matches_at_exec(line.as_str(), 0, "@version") {
            return Some(idx);
        }
        pos = if ll_end < n {
            ll_end + 1
        } else {
            n
        };
        idx += 1;
    }
    None
}

/// One loaded document: its path and its full text.
pub struct ConfigFile {
    pub path: String,
    pub contents: String,
}

/// The spec-level content of a `ConfigFile`.
pub struct ConfigFileV {
    pub path: Seq<char>,
    pub contents: Seq<char>,
}

impl View for ConfigFile {
    type V = ConfigFileV;

    open spec fn view(&self) -> ConfigFileV {
        ConfigFileV { path: self.path@, contents: self.contents@ }
    }
}

/// The first file whose contents declare a version annotation.
pub open spec fn main_config_lookup(fs: Seq<ConfigFileV>) -> Option<ConfigFileV>
    decreases fs.len(),
{
    if fs.len() == 0 {
        None
    } else if version_line_from(fs.first().contents, 0, 0) is Some {
        Some(fs.first())
    } else {
        main_config_lookup(fs.drop_first())
    }
}

/// Pick the main configuration among the loaded files: the first whose
/// contents hold a `@version` line, as `main_config_lookup` describes it.
/// `None` says that no file (and so no main configuration) was found.
pub fn get_main_config_file<'a>(files: &'a Vec<ConfigFile>) -> (r: Option<&'a ConfigFile>)
    ensures
        match r {
            Some(f) => main_config_lookup(files@.map_values(|f: ConfigFile| f@)) == Some(f@),
            None => main_config_lookup(files@.map_values(|f: ConfigFile| f@)) is None,
        },
{
    let ghost fsv = files@.map_values(|f: ConfigFile| f@);
    let n = files.len();
    let mut i: usize = 0;
    proof {
        assert(fsv.subrange(0, n as int) =~= fsv);
    }
    while i < n
        invariant
            n == files.len(),
            0 <= i <= n,
            fsv == files@.map_values(|f: ConfigFile| f@),
            main_config_lookup(fsv) == main_config_lookup(fsv.subrange(i as int, n as int)),
        decreases n - i,
    {
        let f = &files[i];
        proof {
            assert(fsv.subrange(i as int, n as int).first() == fsv[i as int]);
            assert(fsv.subrange(i as int, n as int).drop_first() =~= fsv.subrange(i + 1, n as int));
        }
        if find_version_annotation(f.contents.as_str()).is_some() {
            return Some(f);
        }
        i += 1;
    }
    proof {
        assert(fsv.subrange(n as int, n as int) =~= Seq::<ConfigFileV>::empty());
    }
    None
}

/// The `line_num`-th line of `s` counting from `pos`, if it exists.
pub open spec fn nth_line_from(s: Seq<char>, pos: int, k: int) -> Option<Seq<char>>
    decreases s.len() - pos,
    when 0 <= pos <= s.len()
    via nth_line_from_decreases
{
    if pos >= s.len() {
        None
    } else {
        let ll = run_len(s, pos, CharClass::Line);
        if k <= 0 {
            Some(s.subrange(pos, pos + ll))
        } else {
            let next: int = if pos + ll < s.len() {
                pos + ll + 1
            } else {
                s.len() as int
            };
            nth_line_from(s, next, k - 1)
        }
    }
}

#[via_fn]
proof fn nth_line_from_decreases(s: Seq<char>, pos: int, k: int) {
    if 0 <= pos < s.len() {
        crate::text::lemma_run_len(s, pos, CharClass::Line);
    }
}

/// The block name open at line `line_num` of `contents`: the trimmed text
/// of that line before its first opening parenthesis. A missing line or a
/// line without a parenthesis yields nothing.
pub open spec fn block_of(contents: Seq<char>, line_num: int) -> Option<Seq<char>> {
    match nth_line_from(contents, 0, line_num) {
        None => None,
        Some(line) => {
            let p = run_len(line, 0, CharClass::NotParen);
            if p < line.len() {
                Some(trimmed(line.take(p)))
            } else {
                None
            }
        },
    }
}

/// Read the block name open at a line, as `block_of` describes it.
pub fn get_block_by_position(contents: &str, line_num: u32) -> (r: Option<String>)
    ensures
        match r {
            Some(b) => block_of(contents@, line_num as int) == Some(b@),
            None => block_of(contents@, line_num as int) is None,
        },
{
    let n = contents.unicode_len();
    let mut pos: usize = 0;
    let mut k: u32 = line_num;
    loop
        invariant
            0 <= pos <= n,
            n == contents@.len(),
            nth_line_from(contents@, 0, line_num as int) == nth_line_from(
                contents@,
                pos as int,
                k as int,
            ),
        decreases n - pos,
    {
        if pos >= n {
            return None;
        }
        let ll_end = scan(contents, pos, CharClass::Line);
        if k == 0 {
            let p_end = scan(contents, pos, CharClass::NotParen);
            let ghost line = contents@.subrange(pos as int, ll_end as int);
            if p_end < ll_end {
                proof {
                    assert(line[p_end - pos] == contents@[p_end as int]);
                    crate::text::lemma_run_len_of(line, 0, p_end - pos, CharClass::NotParen);
                }
                let b = trim_region(contents, pos, p_end);
                proof {
                    assert(line.take(run_len(line, 0, CharClass::NotParen)) =~= contents@.subrange(
                        pos as int,
                        p_end as int,
                    ));
                }
                return Some(b);
            }
            proof {
                assert forall|t: int| 0 <= t < line.len() implies crate::text::class_pred(
                    CharClass::NotParen,
                    line[t],
                ) by {
                    assert(line[t] == contents@[pos + t]);
                }
                crate::text::lemma_run_len_of(line, 0, line.len() as int, CharClass::NotParen);
            }
            return None;
        }
        pos = if ll_end < n {
            ll_end + 1
        } else {
            n
        };
        k -= 1;
    }
}

/// The text of lines `0 ..= k` of `s` from `pos` on, joined without
/// separators; nothing if `s` has too few lines.
pub open spec fn join_lines_from(s: Seq<char>, pos: int, k: int) -> Option<Seq<char>>
    decreases s.len() - pos,
    when 0 <= pos <= s.len()
    via join_lines_from_decreases
{
    if pos >= s.len() {
        None
    } else {
        let ll = run_len(s, pos, CharClass::Line);
        let line = s.subrange(pos, pos + ll);
        if k <= 0 {
            Some(line)
        } else {
            let next: int = if pos + ll < s.len() {
                pos + ll + 1
            } else {
                s.len() as int
            };
            match join_lines_from(s, next, k - 1) {
                None => None,
                Some(rest) => Some(line + rest),
            }
        }
    }
}

#[via_fn]
proof fn join_lines_from_decreases(s: Seq<char>, pos: int, k: int) {
    if 0 <= pos < s.len() {
        crate::text::lemma_run_len(s, pos, CharClass::Line);
    }
}

/// The last index where `c` occurs in `s`, or `-1`.
pub open spec fn last_pos_of(s: Seq<char>, c: char) -> int
    decreases s.len(),
{
    if s.len() == 0 {
        -1
    } else if s.last() == c {
        s.len() - 1
    } else {
        last_pos_of(s.drop_last(), c)
    }
}

/// Find the last occurrence of `c`, as `last_pos_of` describes it.
fn find_last(s: &str, c: char) -> (r: Option<usize>)
    ensures
        match r {
            Some(i) => last_pos_of(s@, c) == i as int && i < s@.len(),
            None => last_pos_of(s@, c) == -1,
        },
{
    let n = s.unicode_len();
    let mut i: usize = n;
    proof {
        assert(s@.subrange(0, n as int) =~= s@);
    }
    while i > 0
        invariant
            0 <= i <= n,
            n == s@.len(),
            last_pos_of(s@, c) == last_pos_of(s@.subrange(0, i as int), c),
        decreases i,
    {
        i -= 1;
        proof {
            assert(s@.subrange(0, i + 1).drop_last() =~= s@.subrange(0, i as int));
            assert(s@.subrange(0, i + 1).last() == s@[i as int]);
        }
        if s.get_char(i) == c {
            return Some(i);
        }
    }
    proof {
        assert(s@.subrange(0, 0) =~= Seq::<char>::empty());
    }
    None
}

/// The driver name open before line `line_num`: within the text of lines
/// `0 ..= line_num` joined, the trimmed text between the last opening
/// brace and the last opening parenthesis. Nothing when the file is too
/// short, either bracket is missing, or the last brace stands after the
/// last parenthesis.
pub open spec fn driver_before(contents: Seq<char>, line_num: int) -> Option<Seq<char>> {
    match join_lines_from(contents, 0, line_num) {
        None => None,
        Some(j) => {
            let b = last_pos_of(j, '{');
            let p = last_pos_of(j, '(');
            if b >= 0 && p >= 0 && b + 1 <= p {
                Some(trimmed(j.subrange(b + 1, p)))
            } else {
                None
            }
        },
    }
}

/// Read the driver name open before a line, as `driver_before` describes
/// it.
pub fn get_driver_before_position(contents: &str, line_num: u32) -> (r: Option<String>)
    ensures
        match r {
            Some(d) => driver_before(contents@, line_num as int) == Some(d@),
            None => driver_before(contents@, line_num as int) is None,
        },
{
    let n = contents.unicode_len();
    let mut pos: usize = 0;
    let mut k: u32 = line_num;
    let mut joined = String::new();
    loop
        invariant_except_break
            0 <= pos <= n,
            n == contents@.len(),
            joined@.len() <= pos,
            ({
                let whole = join_lines_from(contents@, 0, line_num as int);
                let rest = join_lines_from(contents@, pos as int, k as int);
                match (whole, rest) {
                    (Some(w), Some(rr)) => w == joined@ + rr,
                    (None, None) => true,
                    _ => false,
                }
            }),
        ensures
            join_lines_from(contents@, 0, line_num as int) == Some(joined@),
            joined@.len() <= n,
        decreases n - pos,
    {
        let ghost joined0 = joined@;
        if pos >= n {
            return None;
        }
        let ll_end = scan(contents, pos, CharClass::Line);
        let line = contents.substring_char(pos, ll_end);
        joined.append(line);
        if k == 0 {
            proof {
                assert(join_lines_from(contents@, pos as int, 0) == Some(
                    contents@.subrange(pos as int, ll_end as int),
                ));
                assert(joined0 + contents@.subrange(pos as int, ll_end as int) =~= joined@);
            }
            break ;
        }
        pos = if ll_end < n {
            ll_end + 1
        } else {
            n
        };
        k -= 1;
    }
    let jn = joined.unicode_len();
    let b = find_last(joined.as_str(), '{');
    let p = find_last(joined.as_str(), '(');
    match (b, p) {
        (Some(bi), Some(pi)) => {
            if bi + 1 <= pi {
                Some(trim_region(joined.as_str(), bi + 1, pi))
            } else {
                None
            }
        },
        _ => None,
    }
}

} // verus!
