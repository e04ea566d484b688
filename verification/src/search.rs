//! Finding files and folders of a tree by their names.

use crate::path::{join_as, joined_as, PathStyle};
use crate::sort::{is_order_of, num_keys, order_by_number, reorder, KeyView};
use crate::text::{chars_of, split_words, texts, words};
use crate::types::{FolderNode, FolderView};
use vstd::prelude::*;

verus! {

/// The lower-case form of a text, by the rules of Unicode.
pub uninterp spec fn lowercase(s: Seq<char>) -> Seq<char>;

/// `str::to_lowercase` gives the lower-case form of a text, which depends on
/// nothing but the text.
#[verifier::external_body]
pub(crate) fn to_lowercase(s: &str) -> (r: String)
    ensures
        r@ == lowercase(s@),
{
    s.to_lowercase()
}

/// Whether `t` stands somewhere in `s`.
pub open spec fn holds_text(s: Seq<char>, t: Seq<char>) -> bool {
    exists|i: int| 0 <= i && i + t.len() <= s.len() && #[trigger] stands_at(s, t, i)
}

/// Whether `t` stands in `s` at place `i`.
pub open spec fn stands_at(s: Seq<char>, t: Seq<char>, i: int) -> bool {
    s.subrange(i, i + t.len()) == t
}

fn is_at(s: &Vec<char>, t: &Vec<char>, i: usize) -> (r: bool)
    requires
        i + t.len() <= s.len(),
    ensures
        r == stands_at(s@, t@, i as int),
{
    let mut k: usize = 0;
    while k < t.len()
        invariant
            k <= t.len(),
            i + t.len() <= s.len(),
            forall|j: int| 0 <= j < k ==> s@[i + j] == #[trigger] t@[j],
        decreases t.len() - k,
    {
        if s[i + k] != t[k] {
            assert(s@.subrange(i as int, i + t.len())[k as int] != t@[k as int]);
            return false;
        }
        k += 1;
    }
    assert(s@.subrange(i as int, i + t.len()) =~= t@);
    true
}

fn has_text(s: &Vec<char>, t: &Vec<char>) -> (r: bool)
    ensures
        r == holds_text(s@, t@),
{
    if t.len() > s.len() {
        return false;
    }
    let last: usize = s.len() - t.len();
    let mut i: usize = 0;
    loop
        invariant
            i <= last,
            last + t.len() == s.len(),
            forall|j: int| 0 <= j < i ==> !#[trigger] stands_at(s@, t@, j),
        decreases last - i,
    {
        if is_at(s, t, i) {
            return true;
        }
        if i == last {
            return false;
        }
        i += 1;
    }
}

/// Whether a name in lower case holds all of `terms`.
pub open spec fn matches_all(lower: Seq<char>, terms: Seq<Seq<char>>) -> bool {
    forall|i: int| 0 <= i < terms.len() ==> holds_text(lower, #[trigger] terms[i])
}

/// Whether `lower` holds all of `terms`.
pub fn holds_all(lower: &str, terms: &Vec<String>) -> (r: bool)
    ensures
        r == matches_all(lower@, texts(terms@)),
{
    let cs = chars_of(lower);
    let mut i: usize = 0;
    while i < terms.len()
        invariant
            i <= terms.len(),
            cs@ == lower@,
            forall|j: int| 0 <= j < i ==> holds_text(lower@, #[trigger] texts(terms@)[j]),
        decreases terms.len() - i,
    {
        let t = chars_of(terms[i].as_str());
        assert(texts(terms@)[i as int] == t@);
        if !has_text(&cs, &t) {
            return false;
        }
        i += 1;
    }
    true
}

/// Whether a name, whatever the case of its letters, holds all of `terms`.
pub fn name_matches(name: &str, terms: &Vec<String>) -> (r: bool)
    ensures
        r == matches_all(lowercase(name@), texts(terms@)),
{
    let lower = to_lowercase(name);
    holds_all(lower.as_str(), terms)
}

/// What a query asks for: its words, in lower case.
pub open spec fn terms_of(query: Seq<char>) -> Seq<Seq<char>> {
    words(query).map_values(|w: Seq<char>| lowercase(w))
}

pub fn search_terms(query: &str) -> (r: Vec<String>)
    ensures
        texts(r@) == terms_of(query@),
{
    let ws = split_words(query);
    let mut out: Vec<String> = Vec::new();
    let mut i: usize = 0;
    assert(texts(out@) =~= terms_of(query@).take(0));
    while i < ws.len()
        invariant
            i <= ws.len(),
            texts(ws@) == words(query@),
            texts(out@) == terms_of(query@).take(i as int),
        decreases ws.len() - i,
    {
        assert(texts(ws@)[i as int] == ws@[i as int]@);
        let t = to_lowercase(ws[i].as_str());
        let ghost before = texts(out@);
        out.push(t);
        i += 1;
        assert(texts(out@) =~= before.push(t@));
        assert(texts(out@) =~= terms_of(query@).take(i as int));
    }
    assert(texts(ws@).len() == ws@.len());
    assert(terms_of(query@).take(ws.len() as int) =~= terms_of(query@));
    out
}

/// A file or folder that was found.
#[derive(Debug)]
pub struct Hit {
    pub path: String,
    pub size: i64,
    pub is_dir: bool,
}

pub struct HitView {
    pub path: Seq<char>,
    pub size: int,
    pub is_dir: bool,
}

impl View for Hit {
    type V = HitView;

    open spec fn view(&self) -> HitView {
        HitView { path: self.path@, size: self.size as int, is_dir: self.is_dir }
    }
}

pub open spec fn hit_views(v: Seq<Hit>) -> Seq<HitView> {
    v.map_values(|h: Hit| h@)
}

/// The files of `f` below `n` whose names match.
pub open spec fn matching_files(
    f: FolderView,
    terms: Seq<Seq<char>>,
    style: PathStyle,
    n: int,
) -> Seq<HitView>
    decreases n,
{
    if n <= 0 {
        Seq::empty()
    } else {
        let rest = matching_files(f, terms, style, n - 1);
        let x = f.files[n - 1];
        if matches_all(lowercase(x.name), terms) {
            rest.push(
                HitView {
                    path: joined_as(style, f.full_path, x.name),
                    size: x.size,
                    is_dir: false,
                },
            )
        } else {
            rest
        }
    }
}

/// Everything below a folder whose name matches: its files, then every child
/// followed by what is found below that child.
pub open spec fn found(f: FolderView, terms: Seq<Seq<char>>, style: PathStyle) -> Seq<HitView>
    decreases f, f.children.len() + 1,
{
    matching_files(f, terms, style, f.files.len() as int) + found_below(
        f,
        terms,
        style,
        f.children.len() as int,
    )
}

/// What is found in the first `n` children.
pub open spec fn found_below(
    f: FolderView,
    terms: Seq<Seq<char>>,
    style: PathStyle,
    n: int,
) -> Seq<HitView>
    decreases f, n,
{
    if n <= 0 || n > f.children.len() {
        Seq::empty()
    } else {
        let c = f.children[n - 1];
        found_below(f, terms, style, n - 1) + named_hit(c, terms) + found(c, terms, style)
    }
}

/// A folder itself, where its name matches.
pub open spec fn named_hit(c: FolderView, terms: Seq<Seq<char>>) -> Seq<HitView> {
    if matches_all(lowercase(c.name), terms) {
        seq![HitView { path: c.full_path, size: c.size, is_dir: true }]
    } else {
        Seq::empty()
    }
}

/// `old` with as many of `more` behind it as there is room for.
pub open spec fn filled(old: Seq<HitView>, more: Seq<HitView>, limit: int) -> Seq<HitView> {
    if old.len() >= limit {
        old
    } else if old.len() + more.len() <= limit {
        old + more
    } else {
        old + more.take(limit - old.len())
    }
}

/// Filling up in two steps is filling up in one.
proof fn lemma_filled_twice(old: Seq<HitView>, a: Seq<HitView>, b: Seq<HitView>, limit: int)
    ensures
        filled(filled(old, a, limit), b, limit) == filled(old, a + b, limit),
{
    assert(filled(filled(old, a, limit), b, limit) =~= filled(old, a + b, limit));
}

/// A full list stays as it is.
proof fn lemma_filled_full(old: Seq<HitView>, a: Seq<HitView>, b: Seq<HitView>, limit: int)
    requires
        filled(old, a, limit).len() >= limit,
    ensures
        filled(old, a + b, limit) == filled(old, a, limit),
{
    lemma_filled_twice(old, a, b, limit);
}

/// Appends every file and folder below `node` whose name holds all of `terms`, as
/// long as there are fewer than `limit`.
pub fn collect_search(
    node: &FolderNode,
    terms: &Vec<String>,
    style: PathStyle,
    out: &mut Vec<Hit>,
    limit: usize,
)
    ensures
        hit_views(final(out)@) == filled(
            hit_views(old(out)@),
            found(node@, texts(terms@), style),
            limit as int,
        ),
    decreases node,
{
    let ghost before = hit_views(out@);
    let ghost f = node@;
    let ghost ts = texts(terms@);
    let ghost all = found(f, ts, style);
    let mut i: usize = 0;
    assert(filled(before, Seq::empty(), limit as int) =~= before);
    while i < node.files.len()
        invariant
            i <= node.files.len(),
            f == node@,
            ts == texts(terms@),
            all == found(f, ts, style),
            before == hit_views(old(out)@),
            hit_views(out@) == filled(
                before,
                matching_files(f, ts, style, i as int),
                limit as int,
            ),
        decreases node.files.len() - i,
    {
        let ghost sofar = matching_files(f, ts, style, i as int);
        if out.len() >= limit {
            proof {
                lemma_matching_prefix(f, ts, style, i as int);
                lemma_filled_full(before, sofar, all.skip(sofar.len() as int), limit as int);
                assert(sofar + all.skip(sofar.len() as int) =~= all);
            }
            return;
        }
        let file = &node.files[i];
        assert(f.files[i as int] == file@);
        if name_matches(file.name.as_str(), terms) {
            let h = Hit {
                path: join_as(style, node.full_path.as_str(), file.name.as_str()),
                size: file.size,
                is_dir: false,
            };
            let ghost now = hit_views(out@);
            out.push(h);
            assert(hit_views(out@) =~= now.push(h@));
            assert(now.push(h@) =~= filled(now, seq![h@], limit as int));
            proof {
                lemma_filled_twice(before, sofar, seq![h@], limit as int);
                assert(sofar + seq![h@] =~= sofar.push(h@));
            }
        }
        i += 1;
    }
    let ghost own = matching_files(f, ts, style, f.files.len() as int);
    let mut k: usize = 0;
    assert(own + found_below(f, ts, style, 0) =~= own);
    while k < node.children.len()
        invariant
            k <= node.children.len(),
            f == node@,
            ts == texts(terms@),
            all == found(f, ts, style),
            own == matching_files(f, ts, style, f.files.len() as int),
            before == hit_views(old(out)@),
            hit_views(out@) == filled(
                before,
                own + found_below(f, ts, style, k as int),
                limit as int,
            ),
        decreases node.children.len() - k,
    {
        let ghost sofar = own + found_below(f, ts, style, k as int);
        if out.len() >= limit {
            proof {
                lemma_found_prefix(f, ts, style, k as int);
                lemma_filled_full(before, sofar, all.skip(sofar.len() as int), limit as int);
                assert(sofar + all.skip(sofar.len() as int) =~= all);
            }
            return;
        }
        let child = &node.children[k];
        let ghost c = child@;
        assert(f.children[k as int] == c);
        if name_matches(child.name.as_str(), terms) {
            let h = Hit { path: child.full_path.clone(), size: child.size, is_dir: true };
            let ghost now = hit_views(out@);
            out.push(h);
            assert(hit_views(out@) =~= now.push(h@));
            assert(now.push(h@) =~= filled(now, seq![h@], limit as int));
        } else {
            assert(hit_views(out@) =~= filled(hit_views(out@), Seq::empty(), limit as int));
        }
        proof {
            lemma_filled_twice(before, sofar, named_hit(c, ts), limit as int);
        }
        collect_search(child, terms, style, out, limit);
        proof {
            lemma_filled_twice(before, sofar + named_hit(c, ts), found(c, ts, style), limit as int);
            assert(own + found_below(f, ts, style, k + 1) =~= sofar + named_hit(c, ts) + found(
                c,
                ts,
                style,
            ));
        }
        k += 1;
    }
}

proof fn lemma_matching_prefix(f: FolderView, terms: Seq<Seq<char>>, style: PathStyle, n: int)
    requires
        0 <= n <= f.files.len(),
    ensures
        ({
            let p = matching_files(f, terms, style, n);
            let all = found(f, terms, style);
            p.len() <= all.len() && all.take(p.len() as int) == p
        }),
{
    let own = matching_files(f, terms, style, f.files.len() as int);
    lemma_matching_grows(f, terms, style, n, f.files.len() as int);
    let p = matching_files(f, terms, style, n);
    assert(found(f, terms, style).take(p.len() as int) =~= own.take(p.len() as int));
}

proof fn lemma_matching_grows(
    f: FolderView,
    terms: Seq<Seq<char>>,
    style: PathStyle,
    n: int,
    m: int,
)
    requires
        0 <= n <= m,
    ensures
        ({
            let p = matching_files(f, terms, style, n);
            let q = matching_files(f, terms, style, m);
            p.len() <= q.len() && q.take(p.len() as int) == p
        }),
    decreases m - n,
{
    let p = matching_files(f, terms, style, n);
    if n == m {
        assert(p.take(p.len() as int) =~= p);
    } else {
        lemma_matching_grows(f, terms, style, n, m - 1);
        let q = matching_files(f, terms, style, m);
        assert(q.take(p.len() as int) =~= matching_files(f, terms, style, m - 1).take(
            p.len() as int,
        ));
    }
}

proof fn lemma_found_prefix(f: FolderView, terms: Seq<Seq<char>>, style: PathStyle, n: int)
    requires
        0 <= n <= f.children.len(),
    ensures
        ({
            let own = matching_files(f, terms, style, f.files.len() as int);
            let p = own + found_below(f, terms, style, n);
            let all = found(f, terms, style);
            p.len() <= all.len() && all.take(p.len() as int) == p
        }),
    decreases f.children.len() - n,
{
    let own = matching_files(f, terms, style, f.files.len() as int);
    let p = own + found_below(f, terms, style, n);
    let all = found(f, terms, style);
    if n == f.children.len() {
        assert(all =~= p);
        assert(all.take(p.len() as int) =~= p);
    } else {
        lemma_found_prefix(f, terms, style, n + 1);
        let q = own + found_below(f, terms, style, n + 1);
        assert(q.take(p.len() as int) =~= p);
        assert(all.take(p.len() as int) =~= all.take(q.len() as int).take(p.len() as int));
    }
}

/// No more is found than was asked for, and the list only grows at its end.
pub proof fn law_search_limited(old: Seq<HitView>, more: Seq<HitView>, limit: int)
    requires
        old.len() <= limit,
    ensures
        filled(old, more, limit).len() <= limit,
        filled(old, more, limit).take(old.len() as int) == old,
        old.len() + more.len() <= limit ==> filled(old, more, limit) == old + more,
{
    assert(filled(old, more, limit).take(old.len() as int) =~= old);
}

/// What hits are sorted by: their sizes.
pub open spec fn hit_keys(hits: Seq<HitView>) -> Seq<KeyView> {
    hits.map_values(|h: HitView| KeyView { num: h.size, text: Seq::empty() })
}

/// Whether `r` is `hits` from the largest to the smallest, equally large ones in
/// the order they came in.
pub open spec fn is_by_size(r: Seq<HitView>, hits: Seq<HitView>) -> bool {
    exists|order: Seq<usize>| #[trigger]
        is_order_of(order, hit_keys(hits), true) && r == order.map_values(
            |i: usize| hits[i as int],
        )
}

/// The most hits that a search shows.
pub const SEARCH_LIMIT: usize = 500;

/// Searches a tree: every file and folder below its top whose name holds all of
/// `terms`, up to the limit, the largest first.
pub fn search(root: &FolderNode, terms: &Vec<String>, style: PathStyle) -> (r: Vec<Hit>)
    ensures
        is_by_size(
            hit_views(r@),
            filled(Seq::empty(), found(root@, texts(terms@), style), SEARCH_LIMIT as int),
        ),
{
    let mut hits: Vec<Hit> = Vec::new();
    assert(hit_views(hits@) =~= Seq::empty());
    collect_search(root, terms, style, &mut hits, SEARCH_LIMIT);
    let ghost all = hit_views(hits@);
    let mut sizes: Vec<i64> = Vec::new();
    let mut i: usize = 0;
    while i < hits.len()
        invariant
            i <= hits.len(),
            sizes.len() == i,
            forall|k: int| 0 <= k < i ==> #[trigger] sizes@[k] == hits@[k].size,
        decreases hits.len() - i,
    {
        sizes.push(hits[i].size);
        i += 1;
    }
    assert(num_keys(sizes@) =~= hit_keys(all));
    let order = order_by_number(&sizes, true);
    let r = reorder(hits, &order);
    assert(hit_views(r@) =~= order@.map_values(|i: usize| all[i as int]));
    r
}

} // verus!
