use vstd::prelude::*;

use crate::scan::{lemma_run_end_bounds, run_end, run_end_exec, CharClass};
use crate::text::{
    chars_of, count_char, count_of, lemma_count_bounds, push_all, range_eq, sub_chars,
};

verus! {

/// The end of the line that starts at `i`: the next line feed, or the end of `s`.
pub open spec fn line_end(s: Seq<char>, i: int) -> int {
    run_end(s, i, CharClass::Line)
}

/// The line that starts at `i`, without its line ending: a line feed, or a carriage return
/// and a line feed.
pub open spec fn line_at(s: Seq<char>, i: int) -> Seq<char> {
    let e = line_end(s, i);
    if i < e < s.len() && s[e - 1] == '\r' {
        s.subrange(i, e - 1)
    } else {
        s.subrange(i, e)
    }
}

/// `[cfg(feature = "<name>")]`
pub open spec fn marker_text(name: Seq<char>) -> Seq<char> {
    "[cfg(feature = \""@ + name + "\")]"@
}

/// A line that opens a block of feature `name`: optional whitespace, `#`, optional whitespace,
/// then `[cfg(feature = "<name>")]`.
pub open spec fn is_marker_line(line: Seq<char>, name: Seq<char>) -> bool {
    let p = run_end(line, 0, CharClass::Space);
    let q = run_end(line, p + 1, CharClass::Space);
    let m = marker_text(name);
    p < line.len() && line[p] == '#' && q + m.len() <= line.len() && line.subrange(q, q + m.len())
        == m
}

/// A suppressed line: `# ` before it.
pub open spec fn suppressed(line: Seq<char>) -> Seq<char> {
    seq!['#', ' '] + line + seq!['\n']
}

/// The brace balance of a line: opening braces less closing braces.
pub open spec fn brace_change(line: Seq<char>) -> int {
    count_of(line, '{') - count_of(line, '}')
}

/// The filtered text of the lines of `s` from `i` on, where `skipping` tells whether a block
/// is being suppressed and `depth` is its brace balance so far.
pub open spec fn filter_from(s: Seq<char>, i: int, name: Seq<char>, skipping: bool, depth: int) -> Seq<char>
    decreases s.len() + 1 - i
    via filter_from_decreases

{
    if i < 0 || i >= s.len() {
        seq![]
    } else {
        let line = line_at(s, i);
        let next = line_end(s, i) + 1;
        if skipping {
            let d = depth + brace_change(line);
            suppressed(line) + filter_from(s, next, name, d != 0, d)
        } else if is_marker_line(line, name) {
            suppressed(line) + filter_from(s, next, name, true, depth)
        } else {
            line + seq!['\n'] + filter_from(s, next, name, false, depth)
        }
    }
}

#[via_fn]
proof fn filter_from_decreases(s: Seq<char>, i: int, name: Seq<char>, skipping: bool, depth: int) {
    if 0 <= i < s.len() {
        lemma_run_end_bounds(s, i, CharClass::Line);
    }
}

/// The text `s` with every block of feature `name` suppressed line by line, from its marker
/// line to the line where its braces balance; every line ends with a line feed.
pub open spec fn filtered(s: Seq<char>, name: Seq<char>) -> Seq<char> {
    filter_from(s, 0, name, false, 0)
}

/// Whether `line` opens a block of feature `name`; `m` holds `marker_text(name)`.
fn is_marker_line_exec(line: &Vec<char>, m: &Vec<char>, Ghost(name): Ghost<Seq<char>>) -> (r: bool)
    requires
        m@ == marker_text(name),
    ensures
        r == is_marker_line(line@, name),
{
    let p = run_end_exec(line, 0, CharClass::Space);
    if !(p < line.len() && line[p] == '#') {
        return false;
    }
    let q = run_end_exec(line, p + 1, CharClass::Space);
    if line.len() - q < m.len() {
        return false;
    }
    range_eq(line, q, q + m.len(), m)
}

fn push_suppressed(out: &mut String, line: &Vec<char>)
    ensures
        final(out)@ == old(out)@ + suppressed(line@),
{
    out.push('#');
    out.push(' ');
    push_all(out, line);
    out.push('\n');
    proof {
        assert(final(out)@ =~= old(out)@ + suppressed(line@));
    }
}

/// Suppresses every block of code under `#[cfg(feature = "<feature_name>")]` in `contents`:
/// each of its lines, from the marker line to the line where the braces opened after the
/// marker are closed again, gets `# ` before it. Other lines are kept, and every line of the
/// result ends with a line feed.
pub fn filter_features(contents: &str, feature_name: &str) -> (r: String)
    ensures
        r@ == filtered(contents@, feature_name@),
{
    let s = chars_of(contents);
    let mut m = chars_of("[cfg(feature = \"");
    let mut n = chars_of(feature_name);
    let mut t = chars_of("\")]");
    m.append(&mut n);
    m.append(&mut t);
    let mut out = String::new();
    let mut skipping = false;
    let mut depth: i128 = 0;
    let mut i: usize = 0;
    while i < s.len()
        invariant
            i <= s@.len(),
            s@ == contents@,
            m@ == marker_text(feature_name@),
            -(i as int) <= depth <= i as int,
            out@ + filter_from(s@, i as int, feature_name@, skipping, depth as int) == filtered(
                s@,
                feature_name@,
            ),
        decreases s@.len() - i,
    {
        let e = run_end_exec(&s, i, CharClass::Line);
        let hi = if i < e && e < s.len() && s[e - 1] == '\r' {
            e - 1
        } else {
            e
        };
        let line = sub_chars(&s, i, hi);
        let ghost before = out@;
        let ghost d0 = depth as int;
        let ghost sk0 = skipping;
        if skipping {
            let opens = count_char(&line, '{');
            let closes = count_char(&line, '}');
            proof {
                lemma_count_bounds(line@, '{');
                lemma_count_bounds(line@, '}');
            }
            depth = depth + opens as i128 - closes as i128;
            skipping = depth != 0;
            push_suppressed(&mut out, &line);
        } else if is_marker_line_exec(&line, &m, Ghost(feature_name@)) {
            skipping = true;
            push_suppressed(&mut out, &line);
        } else {
            push_all(&mut out, &line);
            out.push('\n');
        }
        proof {
            let tail = filter_from(s@, e + 1, feature_name@, skipping, depth as int);
            assert(out@ + tail =~= before + filter_from(s@, i as int, feature_name@, sk0, d0));
        }
        if e == s.len() {
            i = e;
        } else {
            i = e + 1;
        }
    }
    out
}

} // verus!
