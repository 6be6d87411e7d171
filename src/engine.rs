use vstd::prelude::*;

use crate::filter::{filter_features, filtered};
use crate::scan::{find_links, lemma_token_end_bounds, links_from, links_of, token_end, directive_at, Link, LinkType, LinkView};
use crate::text::{chars_of, push_range};

verus! {

/// A file that a directive may name: its path as the directive writes it, and its text.
#[derive(Clone, Debug)]
pub struct SourceFile {
    pub path: String,
    pub contents: String,
}

/// Why a text could not be expanded.
#[derive(Clone, Debug)]
pub enum LinkError {
    /// The file that an include directive names could not be read.
    UnresolvedFile { path: String, link_text: String },
}

/// The marker name whose blocks an included file has suppressed.
pub open spec fn hidden_feature() -> Seq<char> {
    "test"@
}

/// The text of the first file of `files` whose path is `path`.
pub open spec fn lookup(files: Seq<SourceFile>, path: Seq<char>) -> Option<Seq<char>>
    decreases files.len(),
{
    if files.len() == 0 {
        None
    } else if files[0].path@ == path {
        Some(files[0].contents@)
    } else {
        lookup(files.drop_first(), path)
    }
}

/// What a directive is replaced by: its file, filtered; none where the file is missing.
pub open spec fn rendered(files: Seq<SourceFile>, l: LinkView) -> Option<Seq<char>> {
    match lookup(files, l.path) {
        Some(c) => Some(filtered(c, hidden_feature())),
        None => None,
    }
}

/// `s` from `cursor` on, with the directives `links` replaced; the first directive that cannot
/// be rendered is the error.
pub open spec fn replaced_from(
    s: Seq<char>,
    links: Seq<LinkView>,
    files: Seq<SourceFile>,
    cursor: int,
) -> Result<Seq<char>, LinkView>
    decreases links.len(),
{
    if links.len() == 0 {
        Ok(s.subrange(cursor, s.len() as int))
    } else {
        match rendered(files, links[0]) {
            None => Err(links[0]),
            Some(r) => match replaced_from(s, links.drop_first(), files, links[0].end) {
                Ok(t) => Ok(s.subrange(cursor, links[0].start) + r + t),
                Err(l) => Err(l),
            },
        }
    }
}

/// The text `s` with each of its directives replaced by what it renders to.
pub open spec fn replaced(s: Seq<char>, files: Seq<SourceFile>) -> Result<Seq<char>, LinkView> {
    replaced_from(s, links_of(s), files, 0)
}

/// `r` with `p` before its text.
pub open spec fn prefixed(p: Seq<char>, r: Result<Seq<char>, LinkView>) -> Result<Seq<char>, LinkView> {
    match r {
        Ok(t) => Ok(p + t),
        Err(l) => Err(l),
    }
}

/// The directives that a scan from `i` finds lie in `s[i..]`, in order and apart.
pub proof fn lemma_links_ordered(s: Seq<char>, i: int)
    requires
        0 <= i,
    ensures
        forall|j: int|
            0 <= j < links_from(s, i).len() ==> i <= #[trigger] links_from(s, i)[j].start
                < links_from(s, i)[j].end <= s.len(),
        forall|a: int, b: int|
            0 <= a < b < links_from(s, i).len() ==> #[trigger] links_from(s, i)[a].end <= #[trigger] links_from(
                s,
                i,
            )[b].start,
    decreases s.len() - i,
{
    if i < s.len() {
        lemma_token_end_bounds(s, i);
        let e = token_end(s, i);
        if i < e && e <= s.len() {
            lemma_links_ordered(s, e);
            let rest = links_from(s, e);
            if let Some(l) = directive_at(s, i, e) {
                let all = seq![l].add(rest);
                assert(links_from(s, i) == all);
                assert forall|j: int| 0 <= j < all.len() implies i <= #[trigger] all[j].start < all[j].end <= s.len() by {
                    if j > 0 {
                        assert(all[j] == rest[j - 1]);
                    }
                }
                assert forall|a: int, b: int| 0 <= a < b < all.len() implies #[trigger] all[a].end <= #[trigger] all[b].start by {
                    assert(all[b] == rest[b - 1]);
                    if a > 0 {
                        assert(all[a] == rest[a - 1]);
                    }
                }
            } else {
                assert(links_from(s, i) == rest);
            }
        } else {
            lemma_links_ordered(s, i + 1);
            assert(links_from(s, i) == links_from(s, i + 1));
        }
    }
}

/// Expansion succeeds exactly when every directive renders.
pub proof fn lemma_replaced_ok(s: Seq<char>, links: Seq<LinkView>, files: Seq<SourceFile>, cursor: int)
    ensures
        replaced_from(s, links, files, cursor) is Ok <==> forall|k: int|
            0 <= k < links.len() ==> rendered(files, #[trigger] links[k]) is Some,
    decreases links.len(),
{
    if links.len() > 0 {
        let rest = links.drop_first();
        lemma_replaced_ok(s, rest, files, links[0].end);
        if forall|k: int| 0 <= k < links.len() ==> rendered(files, #[trigger] links[k]) is Some {
            assert forall|k: int| 0 <= k < rest.len() implies rendered(files, #[trigger] rest[k]) is Some by {
                assert(rest[k] == links[k + 1]);
            }
        }
        if replaced_from(s, links, files, cursor) is Ok {
            assert forall|k: int| 0 <= k < links.len() implies rendered(files, #[trigger] links[k]) is Some by {
                if k > 0 {
                    assert(links[k] == rest[k - 1]);
                }
            }
        }
    }
}

/// The index of the first file of `files` whose path is `path`.
fn find_file(files: &Vec<SourceFile>, path: &String) -> (r: Option<usize>)
    ensures
        r matches Some(j) ==> j < files@.len() && lookup(files@, path@) == Some(files@[j as int].contents@),
        r is None ==> lookup(files@, path@) is None,
{
    let mut j: usize = 0;
    proof {
        assert(files@.subrange(0, files@.len() as int) =~= files@);
    }
    while j < files.len()
        invariant
            j <= files@.len(),
            lookup(files@, path@) == lookup(files@.subrange(j as int, files@.len() as int), path@),
        decreases files@.len() - j,
    {
        proof {
            assert(files@.subrange(j as int, files@.len() as int).drop_first() =~= files@.subrange(j + 1, files@.len() as int));
        }
        if files[j].path == *path {
            return Some(j);
        }
        j = j + 1;
    }
    None
}

impl Link {
    /// The text that this directive is replaced by: the file it names, taken from `files`,
    /// with its test-only blocks suppressed.
    pub fn render_with_files(&self, files: &Vec<SourceFile>) -> (r: Result<String, LinkError>)
        ensures
            r matches Ok(t) ==> rendered(files@, self@) == Some(t@),
            r matches Err(LinkError::UnresolvedFile { path, link_text }) ==> rendered(files@, self@) is None
                && path@ == self@.path && link_text@ == self@.text,
    {
        match &self.link {
            LinkType::IncludeHideTest(pth) => match find_file(files, pth) {
                Some(j) => Ok(filter_features(files[j].contents.as_str(), "test")),
                None => Err(LinkError::UnresolvedFile { path: pth.clone(), link_text: self.link_text.clone() }),
            },
        }
    }
}

/// Replaces every directive of `s` by what it renders to (see `Link::render_with_files`), and
/// copies the text around the directives unchanged, in one pass: what a directive renders to is
/// not scanned again. An escaped directive (`\{{#...}}`) stays as it is, backslash included.
/// Fails, as a whole, with the first directive whose file is not in `files`.
pub fn replace_all(s: &str, files: &Vec<SourceFile>) -> (r: Result<String, LinkError>)
    ensures
        r is Ok <==> forall|k: int|
            0 <= k < links_of(s@).len() ==> lookup(files@, #[trigger] links_of(s@)[k].path) is Some,
        r matches Ok(t) ==> replaced(s@, files@) == Ok::<Seq<char>, LinkView>(t@),
        r matches Err(LinkError::UnresolvedFile { path, link_text }) ==> replaced(s@, files@) matches Err(l)
            && l.path == path@ && l.text == link_text@,
{
    let links = find_links(s);
    let chars = chars_of(s);
    let ghost lv = links@.map_values(|l: Link| l@);
    proof {
        lemma_links_ordered(s@, 0);
        lemma_replaced_ok(s@, links_of(s@), files@, 0);
        assert forall|k: int| 0 <= k < links_of(s@).len() implies (rendered(files@, #[trigger] links_of(s@)[k]) is Some
            <==> lookup(files@, links_of(s@)[k].path) is Some) by {}
    }
    let mut replaced_text = String::new();
    let mut previous_end_index: usize = 0;
    let mut k: usize = 0;
    proof {
        assert(lv.subrange(0, lv.len() as int) =~= lv);
    }
    while k < links.len()
        invariant
            chars@ == s@,
            lv == links@.map_values(|l: Link| l@),
            lv == links_of(s@),
            k <= lv.len(),
            k < lv.len() ==> previous_end_index <= lv[k as int].start,
            k == lv.len() ==> previous_end_index <= s@.len(),
            forall|j: int|
                0 <= j < lv.len() ==> 0 <= #[trigger] lv[j].start < lv[j].end <= s@.len(),
            forall|a: int, b: int| 0 <= a < b < lv.len() ==> #[trigger] lv[a].end <= #[trigger] lv[b].start,
            replaced(s@, files@) == prefixed(
                replaced_text@,
                replaced_from(s@, lv.subrange(k as int, lv.len() as int), files@, previous_end_index as int),
            ),
        decreases lv.len() - k,
    {
        let link = &links[k];
        let ghost before = replaced_text@;
        let ghost prev = previous_end_index as int;
        proof {
            assert(lv.subrange(k as int, lv.len() as int).drop_first() =~= lv.subrange(k + 1, lv.len() as int));
            assert(lv.subrange(k as int, lv.len() as int)[0] == lv[k as int]);
        }
        push_range(&mut replaced_text, &chars, previous_end_index, link.start_index);
        match link.render_with_files(files) {
            Ok(t) => {
                replaced_text.append(t.as_str());
                previous_end_index = link.end_index;
                proof {
                    let rest = replaced_from(s@, lv.subrange(k + 1, lv.len() as int), files@, lv[k as int].end);
                    match rest {
                        Ok(u) => {
                            assert(replaced_text@ + u =~= before + (s@.subrange(prev, lv[k as int].start) + t@ + u));
                        },
                        Err(_) => {},
                    }
                }
            },
            Err(e) => {
                return Err(e);
            },
        }
        k = k + 1;
    }
    push_range(&mut replaced_text, &chars, previous_end_index, chars.len());
    proof {
        assert(lv.subrange(k as int, lv.len() as int).len() == 0);
    }
    Ok(replaced_text)
}

} // verus!
