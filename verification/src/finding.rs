//! What a search finds: everything below the top of a tree that goes by the words asked
//! for, and nothing else.

use crate::inside::{folder_at, leads, lemma_way_into};
use crate::path::{joined_as, PathStyle};
use crate::search::{
    filled, found, found_below, hit_keys, holds_text, is_by_size, lowercase, matches_all,
    matching_files, named_hit, stands_at, terms_of, HitView, SEARCH_LIMIT,
};
use crate::sort::{is_order_of, law_order_is_permutation, stands_before};
use crate::text::{is_one_word, is_white, law_white_space_parts_words, words};
use crate::types::{FileView, FolderView};
use vstd::prelude::*;

verus! {

/// Whether the characters of `t` stand one behind the other in `s` from place `i` on.
pub open spec fn spells_at(s: Seq<char>, t: Seq<char>, i: int) -> bool {
    &&& 0 <= i
    &&& i + t.len() <= s.len()
    &&& forall|j: int| 0 <= j < t.len() ==> s[i + j] == #[trigger] t[j]
}

/// Whether `t` stands somewhere in `s`.
pub open spec fn has_part(s: Seq<char>, t: Seq<char>) -> bool {
    exists|i: int| spells_at(s, t, i)
}

/// Whether a thing of that name is asked for: every term stands somewhere in the
/// lower-case form of the name.
pub open spec fn is_asked_for(name: Seq<char>, terms: Seq<Seq<char>>) -> bool {
    forall|k: int| 0 <= k < terms.len() ==> has_part(lowercase(name), #[trigger] terms[k])
}

/// Whether `h` is the hit of a thing in the tree `f` that is asked for: of file `i` of the
/// folder that `way` leads to, or, where `i` is -1, of that folder itself, which is not
/// the top.
pub open spec fn is_hit_of(
    f: FolderView,
    terms: Seq<Seq<char>>,
    style: PathStyle,
    way: Seq<int>,
    i: int,
    h: HitView,
) -> bool {
    let d = folder_at(f, way);
    &&& leads(f, way)
    &&& if i == -1 {
        way.len() > 0 && is_asked_for(d.name, terms) && h.path == d.full_path && h.size == d.size
            && h.is_dir
    } else {
        0 <= i < d.files.len() && is_asked_for(d.files[i].name, terms) && h.path == joined_as(
            style,
            d.full_path,
            d.files[i].name,
        ) && h.size == d.files[i].size && !h.is_dir
    }
}

/// Whether `h` is the hit of anything in the tree `f` that is asked for.
pub open spec fn is_hit(f: FolderView, terms: Seq<Seq<char>>, style: PathStyle, h: HitView) -> bool {
    exists|way: Seq<int>, i: int| is_hit_of(f, terms, style, way, i, h)
}

/// How many files and folders below `f` are asked for.
pub open spec fn asked_below(f: FolderView, terms: Seq<Seq<char>>, n: int) -> nat
    decreases f, n,
{
    if n <= 0 || n > f.children.len() {
        0
    } else {
        let c = f.children[n - 1];
        let one: nat = if is_asked_for(c.name, terms) {
            1
        } else {
            0
        };
        asked_below(f, terms, n - 1) + one + asked_in(c, terms)
    }
}

pub open spec fn asked_in(f: FolderView, terms: Seq<Seq<char>>) -> nat
    decreases f, f.children.len() + 1,
{
    f.files.filter(|x: FileView| is_asked_for(x.name, terms)).len() + asked_below(
        f,
        terms,
        f.children.len() as int,
    )
}

proof fn lemma_asked(name: Seq<char>, terms: Seq<Seq<char>>)
    ensures
        matches_all(lowercase(name), terms) == is_asked_for(name, terms),
{
    let s = lowercase(name);
    assert forall|k: int| 0 <= k < terms.len() implies holds_text(s, #[trigger] terms[k]) == has_part(
        s,
        terms[k],
    ) by {
        let t = terms[k];
        if holds_text(s, t) {
            let i = choose|i: int| 0 <= i && i + t.len() <= s.len() && #[trigger] stands_at(s, t, i);
            assert forall|j: int| 0 <= j < t.len() implies s[i + j] == #[trigger] t[j] by {
                assert(s.subrange(i, i + t.len())[j] == t[j]);
            }
            assert(spells_at(s, t, i));
        }
        if has_part(s, t) {
            let i = choose|i: int| spells_at(s, t, i);
            assert(s.subrange(i, i + t.len()) =~= t);
            assert(stands_at(s, t, i));
        }
    }
}

spec fn file_hit(f: FolderView, style: PathStyle, i: int) -> HitView {
    HitView {
        path: joined_as(style, f.full_path, f.files[i].name),
        size: f.files[i].size,
        is_dir: false,
    }
}

proof fn lemma_files_found(f: FolderView, terms: Seq<Seq<char>>, style: PathStyle, n: int)
    requires
        0 <= n <= f.files.len(),
    ensures
        forall|i: int|
            0 <= i < n && is_asked_for(#[trigger] f.files[i].name, terms) ==> matching_files(
                f,
                terms,
                style,
                n,
            ).contains(file_hit(f, style, i)),
        forall|h: HitView| #[trigger]
            matching_files(f, terms, style, n).contains(h) ==> exists|i: int|
                0 <= i < n && is_asked_for(#[trigger] f.files[i].name, terms) && h == file_hit(
                    f,
                    style,
                    i,
                ),
        matching_files(f, terms, style, n).len() == f.files.take(n).filter(
            |x: FileView| is_asked_for(x.name, terms),
        ).len(),
    decreases n,
{
    let pred = |x: FileView| is_asked_for(x.name, terms);
    let now = matching_files(f, terms, style, n);
    if n == 0 {
        reveal(Seq::filter);
    } else {
        lemma_files_found(f, terms, style, n - 1);
        lemma_asked(f.files[n - 1].name, terms);
        let rest = matching_files(f, terms, style, n - 1);
        let mine = file_hit(f, style, n - 1);
        assert(f.files.take(n).drop_last() =~= f.files.take(n - 1));
        reveal(Seq::filter);
        if is_asked_for(f.files[n - 1].name, terms) {
            assert(now == rest.push(mine));
            assert(now[rest.len() as int] == mine);
        }
        assert forall|i: int| 0 <= i < n && is_asked_for(#[trigger] f.files[i].name, terms) implies now.contains(
            file_hit(f, style, i),
        ) by {
            if i < n - 1 {
                let k = choose|k: int| 0 <= k < rest.len() && rest[k] == file_hit(f, style, i);
                assert(now[k] == rest[k]);
            }
        }
        assert forall|h: HitView| #[trigger] now.contains(h) implies exists|i: int|
            0 <= i < n && is_asked_for(#[trigger] f.files[i].name, terms) && h == file_hit(
                f,
                style,
                i,
            ) by {
            let k = choose|k: int| 0 <= k < now.len() && now[k] == h;
            if k < rest.len() {
                assert(rest[k] == h);
                assert(rest.contains(h));
            } else {
                assert(is_asked_for(f.files[n - 1].name, terms));
            }
        }
    }
}

/// Every file and folder below the top of a tree that is asked for is found, with its
/// path and its size.
pub proof fn law_search_misses_nothing(
    f: FolderView,
    terms: Seq<Seq<char>>,
    style: PathStyle,
    way: Seq<int>,
    i: int,
    h: HitView,
)
    requires
        is_hit_of(f, terms, style, way, i, h),
    ensures
        found(f, terms, style).contains(h),
    decreases way.len(),
{
    let all = found(f, terms, style);
    let own = matching_files(f, terms, style, f.files.len() as int);
    let n = f.children.len() as int;
    if way.len() == 0 {
        lemma_files_found(f, terms, style, f.files.len() as int);
        assert(is_asked_for(f.files[i].name, terms));
        assert(h == file_hit(f, style, i));
        let k = choose|k: int| 0 <= k < own.len() && own[k] == h;
        assert(all[k] == h);
    } else {
        let c = f.children[way[0]];
        let rest = way.skip(1);
        if rest.len() == 0 && i == -1 {
            lemma_asked(c.name, terms);
            assert(folder_at(c, rest) == c);
            assert(named_hit(c, terms)[0] == h);
            assert(named_hit(c, terms).contains(h));
        } else {
            law_search_misses_nothing(c, terms, style, rest, i, h);
        }
        lemma_child_found(f, terms, style, way[0], n, h);
        let below = found_below(f, terms, style, n);
        let k = choose|k: int| 0 <= k < below.len() && below[k] == h;
        assert(all[own.len() + k] == h);
    }
}

proof fn lemma_child_found(
    f: FolderView,
    terms: Seq<Seq<char>>,
    style: PathStyle,
    c: int,
    n: int,
    h: HitView,
)
    requires
        0 <= c < n <= f.children.len(),
        named_hit(f.children[c], terms).contains(h) || found(f.children[c], terms, style).contains(
            h,
        ),
    ensures
        found_below(f, terms, style, n).contains(h),
    decreases n,
{
    let now = found_below(f, terms, style, n);
    let before = found_below(f, terms, style, n - 1);
    if c < n - 1 {
        lemma_child_found(f, terms, style, c, n - 1, h);
        let k = choose|k: int| 0 <= k < before.len() && before[k] == h;
        assert(now[k] == h);
    } else {
        let (a, b) = (named_hit(f.children[c], terms), found(f.children[c], terms, style));
        if a.contains(h) {
            let k = choose|k: int| 0 <= k < a.len() && a[k] == h;
            assert(now[before.len() + k] == h);
        } else {
            let k = choose|k: int| 0 <= k < b.len() && b[k] == h;
            assert(now[before.len() + a.len() + k] == h);
        }
    }
}

/// Whatever is found is in the tree and is asked for, and nothing is found twice: there
/// are as many hits as things that are asked for.
pub proof fn law_search_finds_nothing_else(
    f: FolderView,
    terms: Seq<Seq<char>>,
    style: PathStyle,
)
    ensures
        forall|h: HitView| #[trigger]
            found(f, terms, style).contains(h) ==> is_hit(f, terms, style, h),
        found(f, terms, style).len() == asked_in(f, terms),
    decreases f, f.children.len() + 1,
{
    let all = found(f, terms, style);
    let own = matching_files(f, terms, style, f.files.len() as int);
    let n = f.children.len() as int;
    lemma_files_found(f, terms, style, f.files.len() as int);
    assert(f.files.take(f.files.len() as int) =~= f.files);
    lemma_below_found(f, terms, style, n);
    let below = found_below(f, terms, style, n);
    assert forall|h: HitView| #[trigger] all.contains(h) implies is_hit(f, terms, style, h) by {
        let k = choose|k: int| 0 <= k < all.len() && all[k] == h;
        if k < own.len() {
            assert(own[k] == h);
            assert(own.contains(h));
            let i = choose|i: int|
                0 <= i < f.files.len() && is_asked_for(#[trigger] f.files[i].name, terms) && h
                    == file_hit(f, style, i);
            assert(is_hit_of(f, terms, style, Seq::empty(), i, h));
        } else {
            assert(below[k - own.len()] == h);
            assert(below.contains(h));
        }
    }
}

proof fn lemma_below_found(f: FolderView, terms: Seq<Seq<char>>, style: PathStyle, n: int)
    requires
        0 <= n <= f.children.len(),
    ensures
        forall|h: HitView| #[trigger]
            found_below(f, terms, style, n).contains(h) ==> is_hit(f, terms, style, h),
        found_below(f, terms, style, n).len() == asked_below(f, terms, n),
    decreases f, n,
{
    if n > 0 {
        let now = found_below(f, terms, style, n);
        let before = found_below(f, terms, style, n - 1);
        let c = f.children[n - 1];
        let (a, b) = (named_hit(c, terms), found(c, terms, style));
        lemma_below_found(f, terms, style, n - 1);
        law_search_finds_nothing_else(c, terms, style);
        lemma_asked(c.name, terms);
        assert forall|h: HitView| #[trigger] now.contains(h) implies is_hit(f, terms, style, h) by {
            let k = choose|k: int| 0 <= k < now.len() && now[k] == h;
            if k < before.len() {
                assert(before[k] == h);
                assert(before.contains(h));
            } else if k < before.len() + a.len() {
                let way = seq![n - 1];
                assert(way =~= seq![n - 1] + Seq::<int>::empty());
                lemma_way_into(f, n - 1, Seq::empty());
                assert(is_hit_of(f, terms, style, way, -1, h));
            } else {
                assert(b[k - before.len() - a.len()] == h);
                assert(b.contains(h));
                let (way, i) = choose|way: Seq<int>, i: int| is_hit_of(c, terms, style, way, i, h);
                lemma_way_into(f, n - 1, way);
                assert(is_hit_of(f, terms, style, seq![n - 1] + way, i, h));
            }
        }
    }
}

/// What a search shows: at most five hundred hits, the largest first, each of a file or
/// folder of the tree that is asked for. Where fewer are shown, these are all:
/// everything that is asked for is shown, and nothing twice.
pub proof fn law_search_shows(
    r: Seq<HitView>,
    f: FolderView,
    terms: Seq<Seq<char>>,
    style: PathStyle,
)
    requires
        is_by_size(r, filled(Seq::empty(), found(f, terms, style), SEARCH_LIMIT as int)),
    ensures
        r.len() <= 500,
        forall|i: int, j: int| 0 <= i < j < r.len() ==> #[trigger] r[i].size >= #[trigger] r[j].size,
        forall|k: int| 0 <= k < r.len() ==> is_hit(f, terms, style, #[trigger] r[k]),
        r.len() < 500 ==> r.len() == asked_in(f, terms),
        r.len() < 500 ==> forall|way: Seq<int>, i: int, h: HitView| #[trigger]
            is_hit_of(f, terms, style, way, i, h) ==> r.contains(h),
{
    let all = found(f, terms, style);
    let hits = filled(Seq::empty(), all, SEARCH_LIMIT as int);
    let keys = hit_keys(hits);
    let order = choose|order: Seq<usize>| #[trigger]
        is_order_of(order, keys, true) && r == order.map_values(|i: usize| hits[i as int]);
    assert(hits.len() <= 500);
    law_order_is_permutation(order, keys, true);
    law_search_finds_nothing_else(f, terms, style);
    assert forall|i: int, j: int| 0 <= i < j < r.len() implies #[trigger] r[i].size
        >= #[trigger] r[j].size by {
        assert(stands_before(keys, true, order[i], order[j]));
    }
    assert forall|k: int| 0 <= k < r.len() implies is_hit(f, terms, style, #[trigger] r[k]) by {
        let at = order[k] as int;
        assert(hits[at] == all[at]);
        assert(all.contains(r[k]));
    }
    if r.len() < 500 {
        assert(hits =~= all);
        assert forall|way: Seq<int>, i: int, h: HitView| #[trigger]
            is_hit_of(f, terms, style, way, i, h) implies r.contains(h) by {
            law_search_misses_nothing(f, terms, style, way, i, h);
            let at = choose|at: int| 0 <= at < all.len() && all[at] == h;
            assert(order.contains(at as usize));
            let k = choose|k: int| 0 <= k < order.len() && order[k] == at;
            assert(r[k] == h);
        }
    }
}

/// A query asks for its words: each of them, in lower case, is a term, and there is no
/// other. So a search for a name that is one word, whatever the case of its letters, asks
/// for the things of that name.
pub proof fn law_query_asks_for_its_words(query: Seq<char>)
    ensures
        terms_of(query).len() == words(query).len(),
        forall|k: int|
            0 <= k < words(query).len() ==> #[trigger] terms_of(query)[k] == lowercase(
                words(query)[k],
            ),
        is_one_word(query) ==> is_asked_for(query, terms_of(query)),
        is_one_word(query) ==> forall|name: Seq<char>|
            lowercase(name) == lowercase(query) ==> #[trigger] is_asked_for(name, terms_of(query)),
{
    if is_one_word(query) {
        assert(is_white(' '));
        law_white_space_parts_words(query, ' ', Seq::empty());
        let low = lowercase(query);
        assert(spells_at(low, terms_of(query)[0], 0));
    }
}

} // verus!
