use vstd::prelude::*;

use crate::text::{chars_of, range_eq, string_of};

verus! {

/// The Unicode `White_Space` characters.
pub open spec fn is_space(c: char) -> bool {
    let u = c as u32;
    (0x09 <= u && u <= 0x0d) || u == 0x20 || u == 0x85 || u == 0xa0 || u == 0x1680 || (0x2000
        <= u && u <= 0x200a) || u == 0x2028 || u == 0x2029 || u == 0x202f || u == 0x205f || u
        == 0x3000
}

pub open spec fn is_alnum(c: char) -> bool {
    ('a' <= c && c <= 'z') || ('A' <= c && c <= 'Z') || ('0' <= c && c <= '9')
}

/// The character classes that the directive grammar is built from.
#[derive(Clone, Copy, PartialEq, Eq, Debug)]
pub enum CharClass {
    /// Whitespace.
    Space,
    /// The characters of a directive's kind: ASCII letters and digits.
    Kind,
    /// The characters of a directive's target: letters, digits, whitespace and `_ . - : / \`.
    Target,
    /// A target character that is not whitespace.
    Word,
    /// Anything but a line feed.
    Line,
}

pub open spec fn in_class(c: char, cls: CharClass) -> bool {
    match cls {
        CharClass::Space => is_space(c),
        CharClass::Kind => is_alnum(c),
        CharClass::Target => is_alnum(c) || is_space(c) || c == '_' || c == '.' || c == '-' || c
            == ':' || c == '/' || c == '\\',
        CharClass::Word => (is_alnum(c) || c == '_' || c == '.' || c == '-' || c == ':' || c == '/'
            || c == '\\') && !is_space(c),
        CharClass::Line => c != '\n',
    }
}

/// The end of the longest run of `cls` characters of `s` that starts at `k`.
pub open spec fn run_end(s: Seq<char>, k: int, cls: CharClass) -> int
    decreases s.len() - k,
{
    if k < 0 || k >= s.len() {
        k
    } else if in_class(s[k], cls) {
        run_end(s, k + 1, cls)
    } else {
        k
    }
}

/// The largest `j` in `lo + 2 ..= hi` such that `s[j - 2..j]` is `}}`.
pub open spec fn last_close(s: Seq<char>, lo: int, hi: int) -> Option<int>
    decreases hi - lo,
{
    if hi < lo + 2 {
        None
    } else if s[hi - 2] == '}' && s[hi - 1] == '}' {
        Some(hi)
    } else {
        last_close(s, lo, hi - 1)
    }
}

/// An escaped directive at `i`: `\{{#`, then anything up to the last `}}` of the line.
/// Gives the end of the escaped token.
pub open spec fn escape_end(s: Seq<char>, i: int) -> Option<int> {
    if 0 <= i && i + 4 <= s.len() && s[i] == '\\' && s[i + 1] == '{' && s[i + 2] == '{' && s[i
        + 3] == '#' {
        last_close(s, i + 4, run_end(s, i + 4, CharClass::Line))
    } else {
        None
    }
}

/// Where the `#` of a directive that opens at `i` stands.
pub open spec fn hash_pos(s: Seq<char>, i: int) -> int {
    run_end(s, i + 2, CharClass::Space)
}

/// The end of the kind of a directive that opens at `i`.
pub open spec fn kind_end(s: Seq<char>, i: int) -> int {
    run_end(s, hash_pos(s, i) + 1, CharClass::Kind)
}

/// The end of the target of a directive that opens at `i`.
pub open spec fn target_end(s: Seq<char>, i: int) -> int {
    run_end(s, kind_end(s, i), CharClass::Target)
}

/// A directive at `i`: `{{`, whitespace, `#`, a kind, whitespace, a target, `}}`.
/// Gives the end of the directive.
pub open spec fn link_end(s: Seq<char>, i: int) -> Option<int> {
    let p = hash_pos(s, i);
    let q = kind_end(s, i);
    let r = target_end(s, i);
    if 0 <= i && i + 1 < s.len() && s[i] == '{' && s[i + 1] == '{' && p < s.len() && s[p] == '#'
        && q > p + 1 && q < s.len() && is_space(s[q]) && r >= q + 2 && r + 1 < s.len() && s[r]
        == '}' && s[r + 1] == '}' {
        Some(r + 2)
    } else {
        None
    }
}

/// The end of the token (escaped or not) that starts at `i`, or `i` where none does.
/// An escaped token is tried first.
pub open spec fn token_end(s: Seq<char>, i: int) -> int {
    match escape_end(s, i) {
        Some(e) => e,
        None => match link_end(s, i) {
            Some(e) => e,
            None => i,
        },
    }
}

/// The one directive kind that is resolved.
pub open spec fn include_kind() -> Seq<char> {
    "includehidetest"@
}

/// The first whitespace-separated word of the target of a directive at `i`.
pub open spec fn target_word(s: Seq<char>, i: int) -> Seq<char> {
    let w = run_end(s, kind_end(s, i), CharClass::Space);
    s.subrange(w, run_end(s, w, CharClass::Word))
}

/// What the library knows of a directive: its span, its file path and its text.
pub struct LinkView {
    pub start: int,
    pub end: int,
    pub path: Seq<char>,
    pub text: Seq<char>,
}

/// The directive of a token `s[i..e]` that is not escaped: one of a known kind with a file
/// path, or none.
pub open spec fn directive_at(s: Seq<char>, i: int, e: int) -> Option<LinkView> {
    if escape_end(s, i) is None && s.subrange(hash_pos(s, i) + 1, kind_end(s, i))
        == include_kind() && target_word(s, i).len() > 0 {
        Some(LinkView { start: i, end: e, path: target_word(s, i), text: s.subrange(i, e) })
    } else {
        None
    }
}

/// The directives of `s` found by a left-to-right scan from `i`: at each position a token is
/// taken whole and the scan goes on after it; unknown and escaped tokens give nothing.
pub open spec fn links_from(s: Seq<char>, i: int) -> Seq<LinkView>
    decreases s.len() - i,
{
    if i < 0 || i >= s.len() {
        seq![]
    } else {
        let e = token_end(s, i);
        if i < e && e <= s.len() {
            match directive_at(s, i, e) {
                Some(l) => seq![l].add(links_from(s, e)),
                None => links_from(s, e),
            }
        } else {
            links_from(s, i + 1)
        }
    }
}

pub open spec fn links_of(s: Seq<char>) -> Seq<LinkView> {
    links_from(s, 0)
}

/// The kinds of directive that are resolved.
#[derive(Clone, Debug)]
pub enum LinkType {
    /// Include a file, with its blocks under `#[cfg(feature = "test")]` suppressed.
    IncludeHideTest(String),
}

/// A directive found in a text; `start_index..end_index` is its span, counted in characters.
#[derive(Clone, Debug)]
pub struct Link {
    pub start_index: usize,
    pub end_index: usize,
    pub link: LinkType,
    pub link_text: String,
}

impl LinkType {
    pub open spec fn path(&self) -> Seq<char> {
        match self {
            LinkType::IncludeHideTest(p) => p@,
        }
    }
}

impl View for Link {
    type V = LinkView;

    open spec fn view(&self) -> LinkView {
        LinkView {
            start: self.start_index as int,
            end: self.end_index as int,
            path: self.link.path(),
            text: self.link_text@,
        }
    }
}

fn is_space_exec(c: char) -> (r: bool)
    ensures
        r == is_space(c),
{
    let u = c as u32;
    (0x09 <= u && u <= 0x0d) || u == 0x20 || u == 0x85 || u == 0xa0 || u == 0x1680 || (0x2000
        <= u && u <= 0x200a) || u == 0x2028 || u == 0x2029 || u == 0x202f || u == 0x205f || u
        == 0x3000
}

fn in_class_exec(c: char, cls: CharClass) -> (r: bool)
    ensures
        r == in_class(c, cls),
{
    let alnum = ('a' <= c && c <= 'z') || ('A' <= c && c <= 'Z') || ('0' <= c && c <= '9');
    match cls {
        CharClass::Space => is_space_exec(c),
        CharClass::Kind => alnum,
        CharClass::Target => alnum || is_space_exec(c) || c == '_' || c == '.' || c == '-' || c
            == ':' || c == '/' || c == '\\',
        CharClass::Word => (alnum || c == '_' || c == '.' || c == '-' || c == ':' || c == '/' || c
            == '\\') && !is_space_exec(c),
        CharClass::Line => c != '\n',
    }
}

pub fn run_end_exec(s: &Vec<char>, k: usize, cls: CharClass) -> (r: usize)
    requires
        k <= s@.len(),
    ensures
        r as int == run_end(s@, k as int, cls),
        k <= r <= s@.len(),
{
    let mut j: usize = k;
    while j < s.len() && in_class_exec(s[j], cls)
        invariant
            k <= j <= s@.len(),
            run_end(s@, j as int, cls) == run_end(s@, k as int, cls),
        decreases s@.len() - j,
    {
        j = j + 1;
    }
    j
}

fn last_close_exec(s: &Vec<char>, lo: usize, hi: usize) -> (r: Option<usize>)
    requires
        lo <= hi <= s@.len(),
    ensures
        r matches Some(j) ==> last_close(s@, lo as int, hi as int) == Some(j as int) && j <= hi,
        r is None ==> last_close(s@, lo as int, hi as int) is None,
{
    let mut h: usize = hi;
    while h - lo >= 2
        invariant
            lo <= h <= hi <= s@.len(),
            last_close(s@, lo as int, h as int) == last_close(s@, lo as int, hi as int),
        decreases h,
    {
        if s[h - 2] == '}' && s[h - 1] == '}' {
            return Some(h);
        }
        h = h - 1;
    }
    None
}

proof fn lemma_last_close_bounds(s: Seq<char>, lo: int, hi: int)
    ensures
        last_close(s, lo, hi) matches Some(j) ==> lo + 2 <= j <= hi,
    decreases hi - lo,
{
    if hi >= lo + 2 && !(s[hi - 2] == '}' && s[hi - 1] == '}') {
        lemma_last_close_bounds(s, lo, hi - 1);
    }
}

pub proof fn lemma_run_end_bounds(s: Seq<char>, k: int, cls: CharClass)
    requires
        0 <= k <= s.len(),
    ensures
        k <= run_end(s, k, cls) <= s.len(),
    decreases s.len() - k,
{
    if k < s.len() && in_class(s[k], cls) {
        lemma_run_end_bounds(s, k + 1, cls);
    }
}

/// A token that starts at `i` ends after `i` and within `s`.
pub proof fn lemma_token_end_bounds(s: Seq<char>, i: int)
    requires
        0 <= i < s.len(),
    ensures
        i <= token_end(s, i) <= s.len(),
        escape_end(s, i) matches Some(e) ==> i < e <= s.len(),
        link_end(s, i) matches Some(e) ==> i + 2 < e <= s.len(),
{
    lemma_run_end_bounds(s, i, CharClass::Space);
    if escape_end(s, i) is Some {
        lemma_run_end_bounds(s, i + 4, CharClass::Line);
        lemma_last_close_bounds(s, i + 4, run_end(s, i + 4, CharClass::Line));
    }
    if link_end(s, i) is Some {
        lemma_run_end_bounds(s, i + 2, CharClass::Space);
    }
}

fn escape_end_exec(s: &Vec<char>, i: usize) -> (r: Option<usize>)
    requires
        i < s@.len(),
    ensures
        r matches Some(e) ==> escape_end(s@, i as int) == Some(e as int),
        r is None ==> escape_end(s@, i as int) is None,
{
    if s.len() - i >= 4 && s[i] == '\\' && s[i + 1] == '{' && s[i + 2] == '{' && s[i + 3] == '#' {
        let e = run_end_exec(s, i + 4, CharClass::Line);
        last_close_exec(s, i + 4, e)
    } else {
        None
    }
}

fn link_end_exec(s: &Vec<char>, i: usize) -> (r: Option<usize>)
    requires
        i < s@.len(),
    ensures
        r matches Some(e) ==> link_end(s@, i as int) == Some(e as int),
        r is None ==> link_end(s@, i as int) is None,
{
    if !(s.len() - i >= 2 && s[i] == '{' && s[i + 1] == '{') {
        return None;
    }
    let p = run_end_exec(s, i + 2, CharClass::Space);
    if !(p < s.len() && s[p] == '#') {
        return None;
    }
    let q = run_end_exec(s, p + 1, CharClass::Kind);
    if !(q > p + 1 && q < s.len() && is_space_exec(s[q])) {
        return None;
    }
    let r = run_end_exec(s, q, CharClass::Target);
    if r - q >= 2 && s.len() - r >= 2 && s[r] == '}' && s[r + 1] == '}' {
        Some(r + 2)
    } else {
        None
    }
}

impl Link {
    /// The directive of the token `s[i..e]`, which is not escaped: `kind` holds the characters
    /// of the kind that is resolved.
    fn from_capture(s: &Vec<char>, i: usize, e: usize, kind: &Vec<char>) -> (r: Option<Link>)
        requires
            escape_end(s@, i as int) is None,
            link_end(s@, i as int) == Some(e as int),
            kind@ == include_kind(),
        ensures
            r matches Some(l) ==> directive_at(s@, i as int, e as int) == Some(l@),
            r is None ==> directive_at(s@, i as int, e as int) is None,
    {
        proof {
            lemma_token_end_bounds(s@, i as int);
        }
        let p = run_end_exec(s, i + 2, CharClass::Space);
        let q = run_end_exec(s, p + 1, CharClass::Kind);
        if !range_eq(s, p + 1, q, kind) {
            return None;
        }
        let w = run_end_exec(s, q, CharClass::Space);
        let w2 = run_end_exec(s, w, CharClass::Word);
        if w2 == w {
            return None;
        }
        Some(
            Link {
                start_index: i,
                end_index: e,
                link: LinkType::IncludeHideTest(string_of(s, w, w2)),
                link_text: string_of(s, i, e),
            },
        )
    }
}

/// The directives of `contents`, in order: see `links_of`.
pub fn find_links(contents: &str) -> (r: Vec<Link>)
    ensures
        r@.map_values(|l: Link| l@) == links_of(contents@),
{
    let s = chars_of(contents);
    let kind = chars_of("includehidetest");
    let mut out: Vec<Link> = Vec::new();
    let mut i: usize = 0;
    while i < s.len()
        invariant
            i <= s@.len(),
            s@ == contents@,
            kind@ == include_kind(),
            out@.map_values(|l: Link| l@) + links_from(s@, i as int) == links_of(s@),
        decreases s@.len() - i,
    {
        proof {
            lemma_token_end_bounds(s@, i as int);
        }
        let ghost prev = out@.map_values(|l: Link| l@);
        match escape_end_exec(&s, i) {
            Some(e) => {
                i = e;
            },
            None => match link_end_exec(&s, i) {
                Some(e) => {
                    match Link::from_capture(&s, i, e, &kind) {
                        Some(l) => {
                            out.push(l);
                            proof {
                                assert(out@.map_values(|l: Link| l@) =~= prev.push(l@));
                            }
                        },
                        None => {},
                    }
                    i = e;
                },
                None => {
                    i = i + 1;
                },
            },
        }
    }
    proof {
        assert(out@.map_values(|l: Link| l@) + links_from(s@, i as int) =~= out@.map_values(|l: Link| l@));
    }
    out
}

} // verus!
