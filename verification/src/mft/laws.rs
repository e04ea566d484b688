//! What holds of the tree of every volume, whatever its table says.

use crate::mft::record::EntryView;
use crate::mft::tree::{
    children_below, entry_at, family, grown, grown_by, has_parent, is_plain_dir, shallow,
    ROOT_FRN,
};
use crate::listing::{subfolders_upto, with_files, ItemKind, ItemView, Spot};
use crate::path::{joined, PathStyle};
use crate::types::{
    empty_folder, law_child_keeps_tidy, law_empty_is_tidy, law_file_keeps_tidy, tidy, FileView, FolderView,
};
use crate::wrap::{law_wrap_absorbs, wrap};
use vstd::prelude::*;

verus! {

/// The children of an entry are entries of the table that name it as their parent.
pub proof fn lemma_children_of(es: Seq<Option<EntryView>>, parent: i64, n: int, i: int)
    requires
        0 <= n <= es.len(),
        n <= i64::MAX,
        0 <= i < children_below(es, parent, n).len(),
    ensures
        0 <= children_below(es, parent, n)[i] < n,
        has_parent(es, children_below(es, parent, n)[i] as int, parent),
    decreases n,
{
    if n > 0 {
        let rest = children_below(es, parent, n - 1);
        if i < rest.len() {
            lemma_children_of(es, parent, n - 1, i);
        }
    }
}

/// They are listed in ascending order.
pub proof fn lemma_children_ascend(es: Seq<Option<EntryView>>, parent: i64, n: int, i: int, j: int)
    requires
        0 <= n <= es.len(),
        n <= i64::MAX,
        0 <= i < j < children_below(es, parent, n).len(),
    ensures
        children_below(es, parent, n)[i] < children_below(es, parent, n)[j],
    decreases n,
{
    if n > 0 {
        let rest = children_below(es, parent, n - 1);
        if j < rest.len() {
            lemma_children_ascend(es, parent, n - 1, i, j);
        } else {
            lemma_children_of(es, parent, n - 1, i);
        }
    }
}

/// A sequence of different numbers below `n` has at most `n` of them.
proof fn lemma_pigeonhole(s: Seq<i64>, n: int)
    requires
        s.no_duplicates(),
        0 <= n <= i64::MAX,
        forall|i: int| 0 <= i < s.len() ==> 0 <= #[trigger] s[i] < n,
    ensures
        s.len() <= n,
    decreases n,
{
    if n == 0 {
        if s.len() > 0 {
            assert(0 <= s[0] < n);
        }
    } else if s.contains((n - 1) as i64) {
        let k = s.index_of((n - 1) as i64);
        let t = s.remove(k);
        assert forall|i: int| 0 <= i < t.len() implies 0 <= #[trigger] t[i] < n - 1 by {
            if i < k {
                assert(t[i] == s[i]);
            } else {
                assert(t[i] == s[i + 1]);
            }
        }
        assert(t.no_duplicates()) by {
            assert forall|i: int, j: int| 0 <= i < t.len() && 0 <= j < t.len() && i != j implies t[i]
                != t[j] by {
                let a = if i < k {
                    i
                } else {
                    i + 1
                };
                let b = if j < k {
                    j
                } else {
                    j + 1
                };
                assert(t[i] == s[a] && t[j] == s[b]);
            }
        }
        lemma_pigeonhole(t, n - 1);
    } else {
        assert forall|i: int| 0 <= i < s.len() implies 0 <= #[trigger] s[i] < n - 1 by {
            assert(s.contains(s[i]));
        }
        lemma_pigeonhole(s, n - 1);
    }
}

/// Whether `path` leads from the root down the parent links of the table.
spec fn is_descent(es: Seq<Option<EntryView>>, path: Seq<i64>) -> bool {
    &&& path.len() > 0
    &&& path[0] == ROOT_FRN
    &&& path.no_duplicates()
    &&& forall|i: int| 0 <= i < path.len() ==> 0 <= #[trigger] path[i] < es.len()
    &&& forall|i: int| 0 < i < path.len() ==> has_parent(es, #[trigger] path[i] as int, path[i - 1])
}

proof fn lemma_descent_ends(es: Seq<Option<EntryView>>, path: Seq<i64>, depth: nat)
    requires
        es.len() <= i64::MAX,
        is_descent(es, path),
        depth + path.len() >= es.len(),
    ensures
        shallow(es, family(es), path.last(), depth),
    decreases depth,
{
    let kids = family(es);
    let frn = path.last();
    if kids.contains_key(frn) {
        assert forall|i: int| 0 <= i < kids[frn].len() && is_plain_dir(es, #[trigger] kids[frn][i]) implies depth
            > 0 && shallow(es, kids, kids[frn][i], (depth - 1) as nat) by {
            let kid = kids[frn][i];
            lemma_children_of(es, frn, es.len() as int, i);
            let next = path.push(kid);
            assert forall|j: int| 0 <= j < path.len() implies #[trigger] path[j] != kid by {
                if path[j] == kid {
                    assert(j > 0);
                    assert(has_parent(es, path[j] as int, path[j - 1]));
                    assert(path[j - 1] == path[path.len() - 1]);
                }
            }
            assert(next.no_duplicates());
            assert forall|j: int| 0 < j < next.len() implies has_parent(
                es,
                #[trigger] next[j] as int,
                next[j - 1],
            ) by {
                if j < path.len() {
                    assert(next[j] == path[j] && next[j - 1] == path[j - 1]);
                }
            }
            assert(is_descent(es, next));
            lemma_pigeonhole(next, es.len() as int);
            lemma_descent_ends(es, next, (depth - 1) as nat);
        }
    }
}

/// No directory below the root lies below itself, whatever parents the entries of
/// a table name: no chain of directories from the root is longer than the table.
pub proof fn law_volume_is_a_tree(es: Seq<Option<EntryView>>)
    requires
        5 < es.len() <= i64::MAX,
    ensures
        shallow(es, family(es), ROOT_FRN, es.len()),
{
    let path = seq![ROOT_FRN];
    assert(path.last() == ROOT_FRN);
    lemma_descent_ends(es, path, es.len());
}

/// The totals of a tree that was grown are those of what lies in it.
pub proof fn law_grown_is_tidy(
    es: Seq<Option<EntryView>>,
    kids: Map<i64, Seq<i64>>,
    track: bool,
    node: FolderView,
    path: Seq<char>,
    frn: i64,
    depth: nat,
)
    requires
        tidy(node),
    ensures
        tidy(grown(es, kids, track, node, path, frn, depth)),
    decreases depth, 2int, 0int,
{
    if kids.contains_key(frn) {
        lemma_grown_by_is_tidy(
            es,
            kids,
            track,
            node,
            path,
            kids[frn],
            kids[frn].len() as int,
            depth,
        );
    }
}

proof fn lemma_grown_by_is_tidy(
    es: Seq<Option<EntryView>>,
    kids: Map<i64, Seq<i64>>,
    track: bool,
    node: FolderView,
    path: Seq<char>,
    list: Seq<i64>,
    n: int,
    depth: nat,
)
    requires
        tidy(node),
    ensures
        tidy(grown_by(es, kids, track, node, path, list, n, depth)),
    decreases depth, 1int, n,
{
    if n > 0 {
        lemma_grown_by_is_tidy(es, kids, track, node, path, list, n - 1, depth);
        let acc = grown_by(es, kids, track, node, path, list, n - 1, depth);
        let frn = list[n - 1];
        if let Some(e) = entry_at(es, frn) {
            if e.is_dir && !e.is_reparse && depth > 0 {
                let p = joined(path, e.name);
                let fresh = empty_folder(p, e.name, e.last_write_ft);
                law_empty_is_tidy(p, e.name, e.last_write_ft);
                law_grown_is_tidy(es, kids, track, fresh, p, frn, (depth - 1) as nat);
                law_child_keeps_tidy(
                    acc,
                    grown(es, kids, track, fresh, p, frn, (depth - 1) as nat),
                );
            } else if !e.is_dir {
                law_file_keeps_tidy(
                    acc,
                    FileView { name: e.name, size: e.size, last_modified_ft: e.last_write_ft },
                    track,
                );
            }
        }
    }
}

// ------------------------------------------------- what a tree is made of

/// The entries that the first `n` of `list` bring into a tree, from top to bottom.
pub open spec fn reached_by(
    es: Seq<Option<EntryView>>,
    kids: Map<i64, Seq<i64>>,
    list: Seq<i64>,
    n: int,
    depth: nat,
) -> Seq<i64>
    decreases depth, 1int, n,
{
    if n <= 0 {
        Seq::empty()
    } else {
        let acc = reached_by(es, kids, list, n - 1, depth);
        let frn = list[n - 1];
        match entry_at(es, frn) {
            None => acc,
            Some(e) => if e.is_dir && (e.is_reparse || depth == 0) {
                acc
            } else if e.is_dir {
                acc.push(frn) + reached(es, kids, frn, (depth - 1) as nat)
            } else {
                acc.push(frn)
            },
        }
    }
}

/// The entries in the tree below `frn`.
pub open spec fn reached(
    es: Seq<Option<EntryView>>,
    kids: Map<i64, Seq<i64>>,
    frn: i64,
    depth: nat,
) -> Seq<i64>
    decreases depth, 2int,
{
    if kids.contains_key(frn) {
        reached_by(es, kids, kids[frn], kids[frn].len() as int, depth)
    } else {
        Seq::empty()
    }
}

/// What the files among the first `n` of `frns` amount to in bytes.
pub open spec fn file_bytes(es: Seq<Option<EntryView>>, frns: Seq<i64>, n: int) -> int
    decreases n,
{
    if n <= 0 {
        0
    } else {
        file_bytes(es, frns, n - 1) + match entry_at(es, frns[n - 1]) {
            Some(e) => if e.is_dir {
                0
            } else {
                e.size
            },
            None => 0,
        }
    }
}

/// How many of the first `n` of `frns` are files.
pub open spec fn file_tally(es: Seq<Option<EntryView>>, frns: Seq<i64>, n: int) -> int
    decreases n,
{
    if n <= 0 {
        0
    } else {
        file_tally(es, frns, n - 1) + match entry_at(es, frns[n - 1]) {
            Some(e) => if e.is_dir {
                0int
            } else {
                1
            },
            None => 0,
        }
    }
}

proof fn lemma_files_concat(es: Seq<Option<EntryView>>, a: Seq<i64>, b: Seq<i64>, n: int)
    requires
        0 <= n <= b.len(),
    ensures
        file_bytes(es, a + b, a.len() + n) == file_bytes(es, a, a.len() as int) + file_bytes(es, b, n),
        file_tally(es, a + b, a.len() + n) == file_tally(es, a, a.len() as int) + file_tally(es, b, n),
    decreases n,
{
    if n == 0 {
        lemma_files_prefix(es, a, b, a.len() as int);
    } else {
        lemma_files_concat(es, a, b, n - 1);
        assert((a + b)[a.len() + n - 1] == b[n - 1]);
    }
}

proof fn lemma_files_prefix(es: Seq<Option<EntryView>>, a: Seq<i64>, b: Seq<i64>, n: int)
    requires
        0 <= n <= a.len(),
    ensures
        file_bytes(es, a + b, n) == file_bytes(es, a, n),
        file_tally(es, a + b, n) == file_tally(es, a, n),
    decreases n,
{
    if n > 0 {
        lemma_files_prefix(es, a, b, n - 1);
    }
}

/// The size of a tree is what its files amount to, and its file count is how many
/// they are: everything that is reached counts, and nothing else.
pub proof fn law_totals_of_reached(
    es: Seq<Option<EntryView>>,
    kids: Map<i64, Seq<i64>>,
    track: bool,
    node: FolderView,
    path: Seq<char>,
    frn: i64,
    depth: nat,
)
    ensures
        ({
            let r = reached(es, kids, frn, depth);
            let g = grown(es, kids, track, node, path, frn, depth);
            &&& wrap(g.size) == wrap(node.size + file_bytes(es, r, r.len() as int))
            &&& wrap(g.file_count) == wrap(node.file_count + file_tally(es, r, r.len() as int))
            &&& wrap(g.folder_count) == wrap(
                node.folder_count + r.len() - file_tally(es, r, r.len() as int),
            )
        }),
    decreases depth, 2int, 0int,
{
    if kids.contains_key(frn) {
        lemma_totals_by(es, kids, track, node, path, kids[frn], kids[frn].len() as int, depth);
    }
}

proof fn lemma_totals_by(
    es: Seq<Option<EntryView>>,
    kids: Map<i64, Seq<i64>>,
    track: bool,
    node: FolderView,
    path: Seq<char>,
    list: Seq<i64>,
    n: int,
    depth: nat,
)
    ensures
        ({
            let r = reached_by(es, kids, list, n, depth);
            let g = grown_by(es, kids, track, node, path, list, n, depth);
            &&& wrap(g.size) == wrap(node.size + file_bytes(es, r, r.len() as int))
            &&& wrap(g.file_count) == wrap(node.file_count + file_tally(es, r, r.len() as int))
            &&& wrap(g.folder_count) == wrap(
                node.folder_count + r.len() - file_tally(es, r, r.len() as int),
            )
        }),
    decreases depth, 1int, n,
{
    if n > 0 {
        lemma_totals_by(es, kids, track, node, path, list, n - 1, depth);
        let acc = grown_by(es, kids, track, node, path, list, n - 1, depth);
        let ra = reached_by(es, kids, list, n - 1, depth);
        let frn = list[n - 1];
        let (sa, ta) = (file_bytes(es, ra, ra.len() as int), file_tally(es, ra, ra.len() as int));
        if let Some(e) = entry_at(es, frn) {
            let one = ra.push(frn);
            assert(one =~= ra + seq![frn]);
            lemma_files_concat(es, ra, seq![frn], 1);
            reveal_with_fuel(file_bytes, 2);
            reveal_with_fuel(file_tally, 2);
            if e.is_dir && !e.is_reparse && depth > 0 {
                let p = joined(path, e.name);
                let fresh = empty_folder(p, e.name, e.last_write_ft);
                let below = reached(es, kids, frn, (depth - 1) as nat);
                let c = grown(es, kids, track, fresh, p, frn, (depth - 1) as nat);
                law_totals_of_reached(es, kids, track, fresh, p, frn, (depth - 1) as nat);
                lemma_files_concat(es, one, below, below.len() as int);
                let (sb, tb) = (
                    file_bytes(es, below, below.len() as int),
                    file_tally(es, below, below.len() as int),
                );
                lemma_wrap_sum(acc.size, c.size, node.size + sa, sb);
                lemma_wrap_sum(acc.file_count, c.file_count, node.file_count + ta, tb);
                lemma_wrap_sum(
                    acc.folder_count,
                    c.folder_count + 1,
                    node.folder_count + ra.len() - ta,
                    below.len() - tb + 1,
                );
            } else if !e.is_dir {
                lemma_wrap_sum(acc.size, e.size, node.size + sa, e.size);
                lemma_wrap_sum(acc.file_count, 1, node.file_count + ta, 1);
            }
        }
    }
}

/// Numbers that wrap alike have sums that wrap alike.
proof fn lemma_wrap_sum(a: int, b: int, c: int, d: int)
    requires
        wrap(a) == wrap(c),
        wrap(b) == wrap(d) || wrap(b - 1) == wrap(d - 1),
    ensures
        wrap(wrap(a + b)) == wrap(c + d),
{
    law_wrap_absorbs(a, b);
    law_wrap_absorbs(c, b);
    law_wrap_absorbs(b, c);
    law_wrap_absorbs(d, c);
    law_wrap_absorbs(b - 1, c + 1);
    law_wrap_absorbs(d - 1, c + 1);
    law_wrap_absorbs(a + b, 0);
}

// --------------------------------------------------------- counted once

/// Whether `k` parent links lead from `frn` to the root, and no fewer.
spec fn at_level(es: Seq<Option<EntryView>>, frn: i64, k: nat) -> bool
    decreases k,
{
    if k == 0 {
        frn == ROOT_FRN
    } else {
        frn != ROOT_FRN && entry_at(es, frn) is Some && at_level(
            es,
            parent_of(es, frn),
            (k - 1) as nat,
        )
    }
}

spec fn parent_of(es: Seq<Option<EntryView>>, frn: i64) -> i64 {
    entry_at(es, frn)->0.parent_frn as i64
}

/// The entry that `j` parent links lead to.
spec fn ancestor(es: Seq<Option<EntryView>>, frn: i64, j: nat) -> i64
    decreases j,
{
    if j == 0 {
        frn
    } else {
        ancestor(es, parent_of(es, frn), (j - 1) as nat)
    }
}

proof fn lemma_level_unique(es: Seq<Option<EntryView>>, frn: i64, k: nat, m: nat)
    requires
        at_level(es, frn, k),
        at_level(es, frn, m),
    ensures
        k == m,
    decreases k,
{
    if k > 0 && m > 0 {
        lemma_level_unique(es, parent_of(es, frn), (k - 1) as nat, (m - 1) as nat);
    }
}

/// Whether `x` is `top`, which is at level `k`, or lies below it.
spec fn is_under(es: Seq<Option<EntryView>>, x: i64, top: i64, k: nat) -> bool {
    exists|m: nat| k <= m && #[trigger] at_level(es, x, m) && ancestor(es, x, (m - k) as nat) == top
}

/// An entry lies below at most one of the entries of a level.
proof fn lemma_under_one(es: Seq<Option<EntryView>>, x: i64, a: i64, b: i64, k: nat)
    requires
        is_under(es, x, a, k),
        is_under(es, x, b, k),
    ensures
        a == b,
{
    let m = choose|m: nat|
        k <= m && #[trigger] at_level(es, x, m) && ancestor(es, x, (m - k) as nat) == a;
    let n = choose|n: nat|
        k <= n && #[trigger] at_level(es, x, n) && ancestor(es, x, (n - k) as nat) == b;
    lemma_level_unique(es, x, m, n);
}

/// What lies under a child lies under its parent, one level up.
proof fn lemma_under_parent(es: Seq<Option<EntryView>>, x: i64, kid: i64, k: nat)
    requires
        is_under(es, x, kid, k + 1),
    ensures
        is_under(es, x, parent_of(es, kid), k),
        !at_level(es, x, k),
{
    let m = choose|m: nat|
        k + 1 <= m && #[trigger] at_level(es, x, m) && ancestor(es, x, (m - (k + 1)) as nat) == kid;
    lemma_ancestor_step(es, x, (m - (k + 1)) as nat);
    assert(ancestor(es, x, (m - k) as nat) == parent_of(es, kid));
    if at_level(es, x, k) {
        lemma_level_unique(es, x, m, k);
    }
}

proof fn lemma_ancestor_step(es: Seq<Option<EntryView>>, x: i64, j: nat)
    ensures
        ancestor(es, x, (j + 1) as nat) == parent_of(es, ancestor(es, x, j)),
    decreases j,
{
    if j > 0 {
        lemma_ancestor_step(es, parent_of(es, x), (j - 1) as nat);
    } else {
        reveal_with_fuel(ancestor, 2);
    }
}

/// Whether every one of `r` lies under one of the first `n` of `list`, all of which
/// are at level `k`.
spec fn all_under(es: Seq<Option<EntryView>>, r: Seq<i64>, list: Seq<i64>, n: int, k: nat) -> bool {
    forall|i: int| 0 <= i < r.len() ==> exists|j: int| 0 <= j < n && is_under(es, #[trigger] r[i], #[trigger] list[j], k)
}

proof fn lemma_reached_once(es: Seq<Option<EntryView>>, frn: i64, k: nat, depth: nat)
    requires
        es.len() <= i64::MAX,
        at_level(es, frn, k),
    ensures
        reached(es, family(es), frn, depth).no_duplicates(),
        forall|i: int|
            0 <= i < reached(es, family(es), frn, depth).len() ==> is_under(
                es,
                #[trigger] reached(es, family(es), frn, depth)[i],
                frn,
                k,
            ) && !at_level(es, reached(es, family(es), frn, depth)[i], k),
    decreases depth, 2int, 0int,
{
    let kids = family(es);
    if kids.contains_key(frn) {
        let list = kids[frn];
        let r = reached(es, kids, frn, depth);
        lemma_reached_by_once(es, frn, k, list.len() as int, depth);
        assert forall|i: int| 0 <= i < r.len() implies is_under(es, #[trigger] r[i], frn, k)
            && !at_level(es, r[i], k) by {
            let j = choose|j: int|
                0 <= j < list.len() && is_under(es, r[i], #[trigger] list[j], k + 1);
            lemma_children_of(es, frn, es.len() as int, j);
            lemma_under_parent(es, r[i], list[j], k);
        }
    }
}

proof fn lemma_reached_by_once(es: Seq<Option<EntryView>>, frn: i64, k: nat, n: int, depth: nat)
    requires
        es.len() <= i64::MAX,
        at_level(es, frn, k),
        family(es).contains_key(frn),
        n <= family(es)[frn].len(),
    ensures
        reached_by(es, family(es), family(es)[frn], n, depth).no_duplicates(),
        all_under(es, reached_by(es, family(es), family(es)[frn], n, depth), family(es)[frn], n, k + 1),
    decreases depth, 1int, n,
{
    let kids = family(es);
    let list = kids[frn];
    if n > 0 {
        lemma_reached_by_once(es, frn, k, n - 1, depth);
        let acc = reached_by(es, kids, list, n - 1, depth);
        let r = reached_by(es, kids, list, n, depth);
        let kid = list[n - 1];
        lemma_children_of(es, frn, es.len() as int, n - 1);
        assert(at_level(es, kid, k + 1));
        assert(ancestor(es, kid, 0) == kid);
        assert(is_under(es, kid, kid, k + 1));
        // Nothing under an earlier child is under this one.
        assert forall|i: int, x: i64| 0 <= i < acc.len() && #[trigger] is_under(es, x, kid, k + 1) implies #[trigger] acc[i]
            != x by {
            let j = choose|j: int|
                0 <= j < n - 1 && is_under(es, acc[i], #[trigger] list[j], k + 1);
            lemma_children_ascend(es, frn, es.len() as int, j, n - 1);
            if acc[i] == x {
                lemma_under_one(es, x, list[j], kid, k + 1);
            }
        }
        if let Some(e) = entry_at(es, kid) {
            let fresh = if e.is_dir && !e.is_reparse && depth > 0 {
                lemma_reached_once(es, kid, k + 1, (depth - 1) as nat);
                seq![kid] + reached(es, kids, kid, (depth - 1) as nat)
            } else if !e.is_dir {
                seq![kid]
            } else {
                Seq::empty()
            };
            assert(r =~= acc + fresh);
            assert forall|i: int| 0 <= i < fresh.len() implies is_under(
                es,
                #[trigger] fresh[i],
                kid,
                k + 1,
            ) by {
                if i > 0 {
                    assert(fresh[i] == reached(es, kids, kid, (depth - 1) as nat)[i - 1]);
                }
            }
            assert(fresh.no_duplicates()) by {
                assert forall|i: int, j: int|
                    0 <= i < fresh.len() && 0 <= j < fresh.len() && i != j implies fresh[i]
                    != fresh[j] by {
                    if i > 0 {
                        assert(fresh[i] == reached(es, kids, kid, (depth - 1) as nat)[i - 1]);
                    }
                    if j > 0 {
                        assert(fresh[j] == reached(es, kids, kid, (depth - 1) as nat)[j - 1]);
                    }
                }
            }
            assert(r.no_duplicates()) by {
                assert forall|i: int, j: int| 0 <= i < j < r.len() implies r[i] != r[j] by {
                    if i < acc.len() && j >= acc.len() {
                        assert(r[j] == fresh[j - acc.len()]);
                        assert(is_under(es, r[j], kid, k + 1));
                        assert(acc[i] == r[i]);
                    } else if i >= acc.len() {
                        assert(r[j] == fresh[j - acc.len()]);
                        assert(r[i] == fresh[i - acc.len()]);
                    } else {
                        assert(acc[i] == r[i] && acc[j] == r[j]);
                    }
                }
            }
            assert forall|i: int| 0 <= i < r.len() implies exists|j: int|
                0 <= j < n && is_under(es, #[trigger] r[i], #[trigger] list[j], k + 1) by {
                if i < acc.len() {
                    assert(acc[i] == r[i]);
                    let j = choose|j: int|
                        0 <= j < n - 1 && is_under(es, acc[i], #[trigger] list[j], k + 1);
                    assert(is_under(es, r[i], list[j], k + 1));
                } else {
                    assert(r[i] == fresh[i - acc.len()]);
                    assert(is_under(es, r[i], list[n - 1], k + 1));
                }
            }
        } else {
            assert forall|i: int| 0 <= i < r.len() implies exists|j: int|
                0 <= j < n && is_under(es, #[trigger] r[i], #[trigger] list[j], k + 1) by {
                assert(acc[i] == r[i]);
                let j = choose|j: int|
                    0 <= j < n - 1 && is_under(es, acc[i], #[trigger] list[j], k + 1);
                assert(is_under(es, r[i], list[j], k + 1));
            }
        }
    }
}

/// Every record of a volume is counted at most once, under one of its names:
/// a file with several hard links adds its size once.
pub proof fn law_records_counted_once(es: Seq<Option<EntryView>>, depth: nat)
    requires
        es.len() <= i64::MAX,
    ensures
        reached(es, family(es), ROOT_FRN, depth).no_duplicates(),
{
    lemma_reached_once(es, ROOT_FRN, 0, depth);
}

/// Whether an entry takes part in a tree: a file, or a directory that is no junction or
/// link.
pub open spec fn takes_part(es: Seq<Option<EntryView>>, frn: i64) -> bool {
    match entry_at(es, frn) {
        Some(e) => !(e.is_dir && e.is_reparse),
        None => false,
    }
}

/// Whether `k` parent links lead from the entry `frn` to the root, through directories
/// that are no junctions or links.
pub open spec fn leads_to_root(es: Seq<Option<EntryView>>, frn: i64, k: nat) -> bool
    decreases k,
{
    if k == 0 {
        frn == ROOT_FRN && entry_at(es, frn) is Some
    } else {
        &&& 0 <= frn < es.len()
        &&& takes_part(es, frn)
        &&& i64::MIN <= es[frn as int]->0.parent_frn <= i64::MAX
        &&& has_parent(es, frn as int, es[frn as int]->0.parent_frn as i64)
        &&& k > 1 ==> is_plain_dir(es, es[frn as int]->0.parent_frn as i64)
        &&& leads_to_root(es, es[frn as int]->0.parent_frn as i64, (k - 1) as nat)
    }
}

proof fn lemma_child_is_listed(es: Seq<Option<EntryView>>, frn: int, parent: i64, n: int)
    requires
        0 <= frn < n <= es.len(),
        n <= i64::MAX,
        has_parent(es, frn, parent),
    ensures
        children_below(es, parent, n).contains(frn as i64),
    decreases n,
{
    let list = children_below(es, parent, n);
    if frn == n - 1 {
        assert(list.last() == frn as i64);
    } else {
        lemma_child_is_listed(es, frn, parent, n - 1);
        let rest = children_below(es, parent, n - 1);
        let i = choose|i: int| 0 <= i < rest.len() && rest[i] == frn as i64;
        assert(list[i] == frn as i64);
    }
}

/// What takes part in a list is reached by it, and so is what lies below it.
proof fn lemma_reached_from_list(
    es: Seq<Option<EntryView>>,
    kids: Map<i64, Seq<i64>>,
    list: Seq<i64>,
    n: int,
    depth: nat,
    j: int,
    x: i64,
)
    requires
        0 <= j < n <= list.len(),
        takes_part(es, list[j]),
        is_plain_dir(es, list[j]) ==> depth > 0,
        x == list[j] || (is_plain_dir(es, list[j]) && reached(
            es,
            kids,
            list[j],
            (depth - 1) as nat,
        ).contains(x)),
    ensures
        reached_by(es, kids, list, n, depth).contains(x),
    decreases n,
{
    let r = reached_by(es, kids, list, n, depth);
    let acc = reached_by(es, kids, list, n - 1, depth);
    if j < n - 1 {
        lemma_reached_from_list(es, kids, list, n - 1, depth, j, x);
        let i = choose|i: int| 0 <= i < acc.len() && acc[i] == x;
        assert(r[i] == x);
    } else {
        if x == list[j] {
            assert(r[acc.len() as int] == x);
        } else {
            let below = reached(es, kids, list[j], (depth - 1) as nat);
            let i = choose|i: int| 0 <= i < below.len() && below[i] == x;
            assert(r == acc.push(list[j]) + below);
            assert(r[acc.len() + 1 + i] == x);
        }
    }
}

/// What lies directly in a directory that is reached is reached.
proof fn lemma_child_is_reached(
    es: Seq<Option<EntryView>>,
    top: i64,
    depth: nat,
    p: i64,
    x: i64,
)
    requires
        es.len() <= i64::MAX,
        shallow(es, family(es), top, depth),
        p == top || (is_plain_dir(es, p) && reached(es, family(es), top, depth).contains(p)),
        0 <= x < es.len(),
        has_parent(es, x as int, p),
        takes_part(es, x),
    ensures
        reached(es, family(es), top, depth).contains(x),
    decreases depth, 1int,
{
    let kids = family(es);
    if p == top {
        lemma_child_is_listed(es, x as int, top, es.len() as int);
        let list = kids[top];
        let j = choose|j: int| 0 <= j < list.len() && list[j] == x;
        assert(kids.contains_key(top));
        lemma_reached_from_list(es, kids, list, list.len() as int, depth, j, x);
    } else {
        let list = kids[top];
        lemma_found_in_list(es, kids, list, list.len() as int, depth, p);
        let j = choose|j: int|
            0 <= j < list.len() && takes_part(es, #[trigger] list[j]) && (p == list[j] || (
            is_plain_dir(es, list[j]) && depth > 0 && reached(
                es,
                kids,
                list[j],
                (depth - 1) as nat,
            ).contains(p)));
        let c = list[j];
        assert(is_plain_dir(es, c));
        assert(shallow(es, kids, c, (depth - 1) as nat));
        lemma_child_is_reached(es, c, (depth - 1) as nat, p, x);
        lemma_reached_from_list(es, kids, list, list.len() as int, depth, j, x);
    }
}

proof fn lemma_found_in_list(
    es: Seq<Option<EntryView>>,
    kids: Map<i64, Seq<i64>>,
    list: Seq<i64>,
    n: int,
    depth: nat,
    p: i64,
)
    requires
        0 <= n <= list.len(),
        reached_by(es, kids, list, n, depth).contains(p),
    ensures
        exists|j: int|
            0 <= j < n && takes_part(es, #[trigger] list[j]) && (p == list[j] || (is_plain_dir(
                es,
                list[j],
            ) && depth > 0 && reached(es, kids, list[j], (depth - 1) as nat).contains(p))),
    decreases n,
{
    if n > 0 {
        let r = reached_by(es, kids, list, n, depth);
        let acc = reached_by(es, kids, list, n - 1, depth);
        let i = choose|i: int| 0 <= i < r.len() && r[i] == p;
        let frn = list[n - 1];
        if i < acc.len() {
            assert(acc[i] == p);
            lemma_found_in_list(es, kids, list, n - 1, depth, p);
        } else if i > acc.len() {
            let below = reached(es, kids, frn, (depth - 1) as nat);
            assert(below[i - acc.len() - 1] == p);
            assert(takes_part(es, list[n - 1]));
        } else {
            assert(p == frn);
            assert(takes_part(es, list[n - 1]));
        }
    }
}

/// Nothing is left out: every entry that takes part, and whose parents lead to the root
/// through directories that are no junctions or links, is in the tree of the volume.
pub proof fn law_everything_is_reached(
    es: Seq<Option<EntryView>>,
    frn: i64,
    k: nat,
    depth: nat,
)
    requires
        es.len() <= i64::MAX,
        shallow(es, family(es), ROOT_FRN, depth),
        k > 0,
        leads_to_root(es, frn, k),
    ensures
        reached(es, family(es), ROOT_FRN, depth).contains(frn),
    decreases k,
{
    let p = es[frn as int]->0.parent_frn as i64;
    assert(leads_to_root(es, p, (k - 1) as nat));
    if k > 1 {
        law_everything_is_reached(es, p, (k - 1) as nat, depth);
    }
    lemma_child_is_reached(es, ROOT_FRN, depth, p, frn);
}

// ------------------------------------------------------- the two ways to scan

/// An entry of the table as a folder's listing shows it.
pub open spec fn listed_as(e: EntryView) -> ItemView {
    ItemView {
        name: e.name,
        kind: if e.is_dir {
            if e.is_reparse {
                ItemKind::Other
            } else {
                ItemKind::Folder
            }
        } else {
            ItemKind::File
        },
        size: e.size,
        last_modified_ft: e.last_write_ft,
    }
}

/// The listing of a folder whose children are `list`.
pub open spec fn listing_of(es: Seq<Option<EntryView>>, list: Seq<i64>) -> Seq<ItemView> {
    list.map_values(|frn: i64| listed_as(entry_at(es, frn)->0))
}

/// What the names of folders are.
pub open spec fn names_of(cs: Seq<FolderView>) -> Seq<Seq<char>> {
    cs.map_values(|c: FolderView| c.name)
}

pub open spec fn spot_names(cs: Seq<Spot>) -> Seq<Seq<char>> {
    cs.map_values(|c: Spot| c.name)
}

/// Reading the table and listing folders agree on every folder: they count the same
/// files in it, keep the same ones, and go on into the same folders below. Both pass
/// over junctions and links.
pub proof fn law_scan_paths_agree(
    es: Seq<Option<EntryView>>,
    kids: Map<i64, Seq<i64>>,
    track: bool,
    path: Seq<char>,
    name: Seq<char>,
    list: Seq<i64>,
    n: int,
    depth: nat,
)
    requires
        0 <= n <= list.len(),
        depth > 0,
        forall|i: int| 0 <= i < list.len() ==> entry_at(es, #[trigger] list[i]) is Some,
    ensures
        ({
            let f = empty_folder(path, name, 0);
            let items = listing_of(es, list);
            let by_table = grown_by(es, kids, track, f, path, list, n, depth);
            let by_walk = with_files(f, items, n, track);
            &&& by_table.own_size == by_walk.own_size
            &&& by_table.direct_file_count == by_walk.direct_file_count
            &&& by_table.files == by_walk.files
            &&& names_of(by_table.children) == spot_names(
                subfolders_upto(PathStyle::Windows, path, items, n),
            )
        }),
    decreases n,
{
    let f = empty_folder(path, name, 0);
    let items = listing_of(es, list);
    let by_table = grown_by(es, kids, track, f, path, list, n, depth);
    let subs = subfolders_upto(PathStyle::Windows, path, items, n);
    if n > 0 {
        law_scan_paths_agree(es, kids, track, path, name, list, n - 1, depth);
        let frn = list[n - 1];
        let e = entry_at(es, frn)->0;
        assert(entry_at(es, list[n - 1]) is Some);
        assert(items[n - 1] == listed_as(e));
        if e.is_dir && !e.is_reparse {
            let p = joined(path, e.name);
            let c = grown(
                es,
                kids,
                track,
                empty_folder(p, e.name, e.last_write_ft),
                p,
                frn,
                (depth - 1) as nat,
            );
            lemma_grown_keeps_name(
                es,
                kids,
                track,
                empty_folder(p, e.name, e.last_write_ft),
                p,
                frn,
                (depth - 1) as nat,
            );
            let before = grown_by(es, kids, track, f, path, list, n - 1, depth);
            assert(names_of(by_table.children) =~= names_of(before.children).push(c.name));
            assert(spot_names(subs) =~= spot_names(
                subfolders_upto(PathStyle::Windows, path, items, n - 1),
            ).push(e.name));
        }
    } else {
        assert(names_of(by_table.children) =~= spot_names(subs));
    }
}

proof fn lemma_grown_keeps_name(
    es: Seq<Option<EntryView>>,
    kids: Map<i64, Seq<i64>>,
    track: bool,
    node: FolderView,
    path: Seq<char>,
    frn: i64,
    depth: nat,
)
    ensures
        grown(es, kids, track, node, path, frn, depth).name == node.name,
{
    if kids.contains_key(frn) {
        lemma_grown_by_keeps_name(
            es,
            kids,
            track,
            node,
            path,
            kids[frn],
            kids[frn].len() as int,
            depth,
        );
    }
}

proof fn lemma_grown_by_keeps_name(
    es: Seq<Option<EntryView>>,
    kids: Map<i64, Seq<i64>>,
    track: bool,
    node: FolderView,
    path: Seq<char>,
    list: Seq<i64>,
    n: int,
    depth: nat,
)
    ensures
        grown_by(es, kids, track, node, path, list, n, depth).name == node.name,
    decreases n,
{
    if n > 0 {
        lemma_grown_by_keeps_name(es, kids, track, node, path, list, n - 1, depth);
    }
}

} // verus!
