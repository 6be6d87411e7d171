use vstd::prelude::*;

use crate::engine::{
    hidden_feature, lemma_links_ordered, lemma_replaced_ok, lookup, rendered, replaced, replaced_from, SourceFile,
};
use crate::filter::filtered;
use crate::scan::{
    directive_at, escape_end, lemma_token_end_bounds, link_end, links_from, links_of, token_end,
    LinkView,
};

verus! {

/// No two adjacent opening braces: the text holds no directive and no escaped directive.
pub open spec fn directive_free(s: Seq<char>) -> bool {
    forall|j: int| 0 <= j < s.len() - 1 ==> !(#[trigger] s[j] == '{' && s[j + 1] == '{')
}

proof fn lemma_no_links_from(s: Seq<char>, i: int)
    requires
        0 <= i,
        directive_free(s),
    ensures
        links_from(s, i).len() == 0,
    decreases s.len() - i,
{
    if i < s.len() {
        assert(escape_end(s, i) is None) by {
            if 0 <= i && i + 4 <= s.len() && s[i] == '\\' && s[i + 1] == '{' && s[i + 2] == '{' {
                assert(!(s[i + 1] == '{' && s[i + 2] == '{'));
            }
        }
        assert(link_end(s, i) is None) by {
            if i + 1 < s.len() && s[i] == '{' && s[i + 1] == '{' {
                assert(!(s[i] == '{' && s[i + 1] == '{'));
            }
        }
        assert(token_end(s, i) == i);
        lemma_no_links_from(s, i + 1);
    }
}

/// A text without directive syntax comes back unchanged, whatever the files.
pub proof fn lemma_identity_without_directives(s: Seq<char>, files: Seq<SourceFile>)
    requires
        directive_free(s),
    ensures
        links_of(s).len() == 0,
        replaced(s, files) == Ok::<Seq<char>, crate::scan::LinkView>(s),
{
    lemma_no_links_from(s, 0);
    assert(s.subrange(0, s.len() as int) =~= s);
}

/// An escaped directive at the start of a text (`\{{#` up to the last `}}` of its line) is never
/// resolved: every directive found starts after it, and it is copied unchanged.
pub proof fn lemma_escape_preserved(s: Seq<char>, files: Seq<SourceFile>)
    requires
        escape_end(s, 0) is Some,
    ensures
        forall|j: int|
            0 <= j < links_of(s).len() ==> escape_end(s, 0)->0 <= #[trigger] links_of(s)[j].start,
        replaced(s, files) matches Ok(t) ==> t.subrange(0, escape_end(s, 0)->0) == s.subrange(
            0,
            escape_end(s, 0)->0,
        ),
{
    let e = escape_end(s, 0)->0;
    lemma_token_end_bounds(s, 0);
    assert(token_end(s, 0) == e);
    assert(directive_at(s, 0, e) is None);
    assert(links_of(s) == links_from(s, e));
    lemma_links_ordered(s, e);
    let links = links_of(s);
    if let Ok(t) = replaced(s, files) {
        if links.len() == 0 {
            assert(s.subrange(0, s.len() as int) =~= s);
        } else {
            let r = crate::engine::rendered(files, links[0])->0;
            let rest = replaced_from(s, links.drop_first(), files, links[0].end)->Ok_0;
            assert(t == s.subrange(0, links[0].start) + r + rest);
            assert(t.subrange(0, e) =~= s.subrange(0, e));
        }
    }
}

/// What directive `l` renders to, or nothing where its file is missing.
pub open spec fn render_text(files: Seq<SourceFile>, l: LinkView) -> Seq<char> {
    match rendered(files, l) {
        Some(r) => r,
        None => seq![],
    }
}

/// How much longer the output is than the input after the first `k` of `links` are replaced.
pub open spec fn growth(links: Seq<LinkView>, files: Seq<SourceFile>, k: int) -> int
    decreases k,
{
    if k <= 0 || links.len() == 0 {
        0
    } else {
        render_text(files, links[0]).len() - (links[0].end - links[0].start) + growth(
            links.drop_first(),
            files,
            k - 1,
        )
    }
}

/// Where the text copied before directive `k` starts in the input.
pub open spec fn gap_start(links: Seq<LinkView>, cursor: int, k: int) -> int {
    if k == 0 {
        cursor
    } else {
        links[k - 1].end
    }
}

/// Directives that lie in `s[cursor..]`, in order and apart.
pub open spec fn spans_ordered(s: Seq<char>, links: Seq<LinkView>, cursor: int) -> bool {
    &&& 0 <= cursor <= s.len()
    &&& forall|j: int| 0 <= j < links.len() ==> cursor <= #[trigger] links[j].start < links[j].end <= s.len()
    &&& forall|a: int, b: int| 0 <= a < b < links.len() ==> #[trigger] links[a].end <= #[trigger] links[b].start
}

#[verifier::rlimit(50)]
proof fn lemma_splice_from(s: Seq<char>, links: Seq<LinkView>, files: Seq<SourceFile>, cursor: int)
    requires
        spans_ordered(s, links, cursor),
        replaced_from(s, links, files, cursor) is Ok,
    ensures
        ({
            let t = replaced_from(s, links, files, cursor)->Ok_0;
            let n = links.len() as int;
            let p_end = s.len() - cursor + growth(links, files, n);
            &&& forall|k: int|
                0 <= k < n ==> {
                    let p = #[trigger] links[k].start - cursor + growth(links, files, k);
                    let g = links[k].start - gap_start(links, cursor, k);
                    &&& 0 <= p - g
                    &&& p + render_text(files, links[k]).len() <= t.len()
                    &&& t.subrange(p, p + render_text(files, links[k]).len()) == render_text(files, links[k])
                    &&& t.subrange(p - g, p) == s.subrange(gap_start(links, cursor, k), links[k].start)
                }
            &&& t.len() == p_end
            &&& 0 <= p_end - (s.len() - gap_start(links, cursor, n))
            &&& t.subrange(p_end - (s.len() - gap_start(links, cursor, n)), p_end) == s.subrange(
                gap_start(links, cursor, n),
                s.len() as int,
            )
        }),
    decreases links.len(),
{
    let t = replaced_from(s, links, files, cursor)->Ok_0;
    let n = links.len() as int;
    if n == 0 {
        assert(t == s.subrange(cursor, s.len() as int));
        assert(t.subrange(0, t.len() as int) =~= t);
    } else {
        let l0 = links[0];
        let r0 = render_text(files, l0);
        let rest = links.drop_first();
        assert(spans_ordered(s, rest, l0.end)) by {
            assert forall|j: int| 0 <= j < rest.len() implies l0.end <= #[trigger] rest[j].start < rest[j].end <= s.len() by {
                assert(rest[j] == links[j + 1]);
                assert(links[0].end <= links[j + 1].start);
            }
            assert forall|a: int, b: int| 0 <= a < b < rest.len() implies #[trigger] rest[a].end <= #[trigger] rest[b].start by {
                assert(rest[a] == links[a + 1]);
                assert(rest[b] == links[b + 1]);
            }
        }
        lemma_splice_from(s, rest, files, l0.end);
        let u = replaced_from(s, rest, files, l0.end)->Ok_0;
        let a = s.subrange(cursor, l0.start);
        assert(t == a + r0 + u);
        let off = l0.start - cursor + r0.len();
        assert forall|k: int| 0 <= k < n implies {
            let p = #[trigger] links[k].start - cursor + growth(links, files, k);
            let g = links[k].start - gap_start(links, cursor, k);
            &&& 0 <= p - g
            &&& p + render_text(files, links[k]).len() <= t.len()
            &&& t.subrange(p, p + render_text(files, links[k]).len()) == render_text(files, links[k])
            &&& t.subrange(p - g, p) == s.subrange(gap_start(links, cursor, k), links[k].start)
        } by {
            if k == 0 {
                assert(growth(links, files, 0) == 0);
                assert(t.subrange(l0.start - cursor, off) =~= r0);
                assert(t.subrange(0, l0.start - cursor) =~= a);
            } else {
                let q = k - 1;
                assert(rest[q] == links[k]);
                assert(growth(links, files, k) == r0.len() - (l0.end - l0.start) + growth(rest, files, q));
                assert(gap_start(rest, l0.end, q) == gap_start(links, cursor, k));
                let pu = rest[q].start - l0.end + growth(rest, files, q);
                let p = links[k].start - cursor + growth(links, files, k);
                assert(p == off + pu);
                let rl = render_text(files, links[k]).len();
                let g = links[k].start - gap_start(links, cursor, k);
                assert(t.subrange(p, p + rl) =~= u.subrange(pu, pu + rl));
                assert(t.subrange(p - g, p) =~= u.subrange(pu - g, pu));
            }
        }
        assert(growth(links, files, n) == r0.len() - (l0.end - l0.start) + growth(rest, files, n - 1));
        assert(gap_start(rest, l0.end, n - 1) == gap_start(links, cursor, n));
        let pu_end = s.len() - l0.end + growth(rest, files, n - 1);
        let p_end = s.len() - cursor + growth(links, files, n);
        assert(p_end == off + pu_end);
        let g = s.len() - gap_start(links, cursor, n);
        assert(links[n - 1].start < links[n - 1].end <= s.len());
        assert(u.len() == pu_end);
        assert(t.len() == a.len() + r0.len() + u.len());
        assert forall|x: int| 0 <= x < u.len() implies t[off + x] == u[x] by {
            assert((a + r0).len() == off);
        }
        assert forall|y: int| 0 <= y < g implies #[trigger] t.subrange(p_end - g, p_end)[y] == u.subrange(pu_end - g, pu_end)[y] by {
            assert(t[off + (pu_end - g + y)] == u[pu_end - g + y]);
        }
        assert(t.subrange(p_end - g, p_end) =~= u.subrange(pu_end - g, pu_end));
    }
}

/// Splicing: where the whole text expands, the output is the text between the directives,
/// copied unchanged, with each directive's rendering in its place. Directive `k` lands at its
/// input offset moved by how much longer the renderings before it are than their directives.
pub proof fn lemma_splice(s: Seq<char>, files: Seq<SourceFile>)
    requires
        replaced(s, files) is Ok,
    ensures
        ({
            let t = replaced(s, files)->Ok_0;
            let links = links_of(s);
            let n = links.len() as int;
            let p_end = s.len() + growth(links, files, n);
            &&& forall|k: int|
                0 <= k < n ==> {
                    let p = #[trigger] links[k].start + growth(links, files, k);
                    let g = links[k].start - gap_start(links, 0, k);
                    &&& 0 <= p - g
                    &&& p + render_text(files, links[k]).len() <= t.len()
                    &&& t.subrange(p, p + render_text(files, links[k]).len()) == render_text(files, links[k])
                    &&& t.subrange(p - g, p) == s.subrange(gap_start(links, 0, k), links[k].start)
                }
            &&& t.len() == p_end
            &&& 0 <= p_end - (s.len() - gap_start(links, 0, n))
            &&& t.subrange(p_end - (s.len() - gap_start(links, 0, n)), p_end) == s.subrange(
                gap_start(links, 0, n),
                s.len() as int,
            )
        }),
{
    lemma_links_ordered(s, 0);
    lemma_splice_from(s, links_of(s), files, 0);
}

/// One pass: where the text expands, every directive of it names a file that is there, and
/// the file's filtered text stands in the output exactly as it is, directives and all; the
/// output is never scanned again.
pub proof fn lemma_single_pass(s: Seq<char>, files: Seq<SourceFile>)
    requires
        replaced(s, files) is Ok,
    ensures
        forall|k: int|
            0 <= k < links_of(s).len() ==> {
                let t = replaced(s, files)->Ok_0;
                let c = filtered(lookup(files, links_of(s)[k].path)->0, hidden_feature());
                let p = #[trigger] links_of(s)[k].start + growth(links_of(s), files, k);
                &&& lookup(files, links_of(s)[k].path) is Some
                &&& t.subrange(p, p + c.len()) == c
            },
{
    lemma_replaced_ok(s, links_of(s), files, 0);
    lemma_splice(s, files);
}

} // verus!
