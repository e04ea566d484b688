//! The largest and the least recently modified files of a scanned tree.

use crate::numbering::{folders_before, folders_of};
use crate::types::{FileEntry, FolderNode};
use vstd::prelude::*;

verus! {

/// A file of a tree, and the folder that it lies in.
///
/// Folders are numbered from the top down, each in front of what lies below it;
/// `folder_id` is the number of `folder`, and `file_index` the place of `file` in it.
/// A number that is too large for its type is given as the largest.
#[derive(Debug, Copy, Clone)]
pub struct FileHit<'a> {
    pub file: &'a FileEntry,
    pub folder: &'a FolderNode,
    pub folder_id: usize,
    pub file_index: usize,
}

/// A folder's number as a hit gives it.
pub open spec fn shown_id(id: int) -> usize {
    if id <= usize::MAX {
        id as usize
    } else {
        usize::MAX
    }
}

/// The files directly in `node`, whose number is `id`.
pub open spec fn own_hits<'a>(node: &'a FolderNode, id: int) -> Seq<FileHit<'a>> {
    Seq::new(
        node.files@.len(),
        |i: int|
            FileHit {
                file: &node.files@[i],
                folder: node,
                folder_id: shown_id(id),
                file_index: i as usize,
            },
    )
}

/// All the files of the tree `node`, whose number is `id`, from the top down.
pub open spec fn all_hits<'a>(node: &'a FolderNode, id: int) -> Seq<FileHit<'a>>
    decreases *node, node.children@.len() + 1,
{
    own_hits(node, id) + hits_below(node, id, node.children@.len() as int)
}

/// All the files below the first `n` children of `node`.
pub open spec fn hits_below<'a>(node: &'a FolderNode, id: int, n: int) -> Seq<FileHit<'a>>
    decreases *node, n,
{
    if n <= 0 || n > node.children@.len() {
        Seq::empty()
    } else {
        hits_below(node, id, n - 1) + all_hits(
            &node.children@[n - 1],
            id + 1 + folders_before(node@, n - 1),
        )
    }
}

/// What files are ranked by.
#[derive(Copy, Clone, Debug, PartialEq, Eq, Structural)]
pub enum Ranking {
    /// The largest first.
    Largest,
    /// The one modified the longest time ago first; files without a time do not
    /// take part.
    Oldest,
}

/// The place of a file in a ranking: smaller is better.
pub open spec fn rank(by: Ranking, f: FileEntry) -> int {
    match by {
        Ranking::Largest => -(f.size as int),
        Ranking::Oldest => f.last_modified_ft as int,
    }
}

/// Whether a file takes part in a ranking.
pub open spec fn takes_part(by: Ranking, f: FileEntry) -> bool {
    by == Ranking::Largest || f.last_modified_ft != 0
}

/// The files of `hits` that take part, in the same order.
pub open spec fn entrants<'a>(hits: Seq<FileHit<'a>>, by: Ranking) -> Seq<FileHit<'a>>
    decreases hits.len(),
{
    if hits.len() == 0 {
        Seq::empty()
    } else {
        let rest = entrants(hits.drop_last(), by);
        if takes_part(by, *hits.last().file) {
            rest.push(hits.last())
        } else {
            rest
        }
    }
}

/// Whether `best` is the best `n` of `all`, best first: as many as there are up to
/// `n`, and none of those left out is better than any of them. Which of several
/// equally good files is left out is open.
pub open spec fn is_best_of<'a>(
    best: Seq<FileHit<'a>>,
    all: Seq<FileHit<'a>>,
    by: Ranking,
    n: nat,
) -> bool {
    &&& best.len() == if all.len() < n {
        all.len()
    } else {
        n
    }
    &&& forall|i: int, j: int|
        0 <= i < j < best.len() ==> rank(by, *(#[trigger] best[i]).file) <= rank(
            by,
            *(#[trigger] best[j]).file,
        )
    &&& exists|out: Seq<FileHit<'a>>| #[trigger] splits(best, out, all) && none_better(best, out, by)
}

/// Whether `all` is `best` and `out` together, in some order.
pub open spec fn splits<'a>(
    best: Seq<FileHit<'a>>,
    out: Seq<FileHit<'a>>,
    all: Seq<FileHit<'a>>,
) -> bool {
    best.to_multiset().add(out.to_multiset()) == all.to_multiset()
}

/// Whether none of `out` is better than any of `best`.
pub open spec fn none_better<'a>(
    best: Seq<FileHit<'a>>,
    out: Seq<FileHit<'a>>,
    by: Ranking,
) -> bool {
    forall|i: int, j: int|
        0 <= i < best.len() && 0 <= j < out.len() ==> rank(by, *(#[trigger] best[i]).file) <= rank(
            by,
            *(#[trigger] out[j]).file,
        )
}

/// Whether `a` is better than `b`.
fn outranks(by: Ranking, a: &FileEntry, b: &FileEntry) -> (r: bool)
    ensures
        r == (rank(by, *a) < rank(by, *b)),
{
    match by {
        Ranking::Largest => a.size > b.size,
        Ranking::Oldest => a.last_modified_ft < b.last_modified_ft,
    }
}

/// Everything that has been seen so far: the best of it, and what fell out.
struct Podium<'a> {
    by: Ranking,
    n: usize,
    best: Vec<FileHit<'a>>,
    out: Ghost<Seq<FileHit<'a>>>,
}

impl<'a> Podium<'a> {
    spec fn holds(&self, seen: Seq<FileHit<'a>>) -> bool {
        &&& self.n > 0
        &&& self.best.len() <= self.n
        &&& self.out@.len() > 0 ==> self.best.len() == self.n
        &&& forall|i: int, j: int|
            0 <= i < j < self.best.len() ==> rank(self.by, *(#[trigger] self.best@[i]).file) <= rank(
                self.by,
                *(#[trigger] self.best@[j]).file,
            )
        &&& splits(self.best@, self.out@, entrants(seen, self.by))
        &&& none_better(self.best@, self.out@, self.by)
    }

    /// Takes one more file into account.
    fn offer(&mut self, hit: FileHit<'a>, Ghost(seen): Ghost<Seq<FileHit<'a>>>)
        requires
            old(self).holds(seen),
        ensures
            final(self).holds(seen.push(hit)),
            final(self).by == old(self).by,
            final(self).n == old(self).n,
    {
        let ghost now = seen.push(hit);
        let ghost by = self.by;
        proof {
            assert(now.drop_last() =~= seen);
            entrants(seen, by).to_multiset_ensures();
        }
        if let Ranking::Oldest = self.by {
            if hit.file.last_modified_ft == 0 {
                return;
            }
        }
        let ghost best0 = self.best@;
        let ghost out0 = self.out@;
        assert(entrants(now, by) == entrants(seen, by).push(hit));
        if self.best.len() == self.n {
            let last: usize = self.best.len() - 1;
            if !outranks(self.by, hit.file, self.best[last].file) {
                self.out = Ghost(out0.push(hit));
                proof {
                    out0.to_multiset_ensures();
                    assert(self.best@.to_multiset().add(self.out@.to_multiset()) =~= entrants(
                        now,
                        by,
                    ).to_multiset());
                    assert forall|i: int, j: int|
                        0 <= i < self.best.len() && 0 <= j < self.out@.len() implies rank(
                        by,
                        *(#[trigger] self.best@[i]).file,
                    ) <= rank(by, *(#[trigger] self.out@[j]).file) by {
                        if j == out0.len() {
                            if i < last {
                                assert(rank(by, *best0[i].file) <= rank(by, *best0[last as int].file));
                            }
                        } else {
                            assert(self.out@[j] == out0[j]);
                        }
                    }
                }
                return;
            }
            let dropped = self.best.pop();
            self.out = Ghost(out0.push(dropped->0));
            proof {
                let d = dropped->0;
                assert(best0 =~= self.best@.push(d));
                self.best@.to_multiset_ensures();
                out0.to_multiset_ensures();
                assert(self.best@.to_multiset().add(self.out@.to_multiset()) =~= entrants(
                    seen,
                    by,
                ).to_multiset());
            }
        }
        let ghost best1 = self.best@;
        let ghost out1 = self.out@;
        proof {
            assert forall|j: int| 0 <= j < out1.len() implies rank(by, *hit.file) <= rank(
                by,
                *(#[trigger] out1[j]).file,
            ) by {
                let d = best0[best0.len() - 1];
                if j == out0.len() {
                } else {
                    assert(out1[j] == out0[j]);
                    assert(rank(by, *d.file) <= rank(by, *out0[j].file));
                }
            }
            assert forall|i: int, j: int|
                0 <= i < best1.len() && 0 <= j < out1.len() implies rank(
                by,
                *(#[trigger] best1[i]).file,
            ) <= rank(by, *(#[trigger] out1[j]).file) by {
                assert(best1[i] == best0[i]);
                if j == out0.len() {
                    assert(out1[j] == best0[best0.len() - 1]);
                } else {
                    assert(out1[j] == out0[j]);
                }
            }
        }
        // Behind everything that is at least as good.
        let mut k: usize = self.best.len();
        while k > 0 && outranks(self.by, hit.file, self.best[k - 1].file)
            invariant
                k <= self.best.len(),
                self.by == by,
                self.best@ == best1,
                forall|i: int|
                    k <= i < best1.len() ==> rank(by, *hit.file) < rank(
                        by,
                        *(#[trigger] best1[i]).file,
                    ),
            decreases k,
        {
            k -= 1;
        }
        proof {
            assert forall|i: int| 0 <= i < k implies rank(by, *(#[trigger] best1[i]).file) <= rank(
                by,
                *hit.file,
            ) by {
                if i < k - 1 {
                    assert(rank(by, *best1[i].file) <= rank(by, *best1[k - 1].file));
                }
            }
        }
        self.best.insert(k, hit);
        proof {
            let b = self.best@;
            lemma_insert_multiset(best1, k as int, hit);
            assert(b.to_multiset().add(out1.to_multiset()) =~= entrants(now, by).to_multiset());
            assert forall|i: int, j: int| 0 <= i < j < b.len() implies rank(
                by,
                *(#[trigger] b[i]).file,
            ) <= rank(by, *(#[trigger] b[j]).file) by {
                let x = if i < k {
                    i
                } else {
                    i - 1
                };
                let y = if j < k {
                    j
                } else {
                    j - 1
                };
                if i != k {
                    assert(b[i] == best1[x]);
                }
                if j != k {
                    assert(b[j] == best1[y]);
                }
            }
            assert forall|i: int, j: int| 0 <= i < b.len() && 0 <= j < out1.len() implies rank(
                by,
                *(#[trigger] b[i]).file,
            ) <= rank(by, *(#[trigger] out1[j]).file) by {
                if i < k {
                    assert(b[i] == best1[i]);
                } else if i > k {
                    assert(b[i] == best1[i - 1]);
                }
            }
        }
    }
}

proof fn lemma_insert_multiset<A>(s: Seq<A>, k: int, x: A)
    requires
        0 <= k <= s.len(),
    ensures
        s.insert(k, x).to_multiset() == s.to_multiset().insert(x),
{
    let t = s.insert(k, x);
    t.to_multiset_ensures();
    s.to_multiset_ensures();
    assert(t.remove(k) =~= s);
    assert(t.to_multiset().count(x) > 0) by {
        assert(t[k] == x);
        assert(t.contains(x));
    }
    assert(t.to_multiset().remove(x) == s.to_multiset());
    assert(t.to_multiset() =~= s.to_multiset().insert(x));
}

/// All the files of the trees on a stack, the topmost tree first.
spec fn hits_on<'a>(stack: Seq<&'a FolderNode>, id: int) -> Seq<FileHit<'a>>
    decreases stack.len(),
{
    if stack.len() == 0 {
        Seq::empty()
    } else {
        all_hits(stack.last(), id) + hits_on(
            stack.drop_last(),
            id + folders_of(stack.last()@),
        )
    }
}

/// How many folders the trees on a stack have.
spec fn total_on<'a>(stack: Seq<&'a FolderNode>) -> nat
    decreases stack.len(),
{
    if stack.len() == 0 {
        0
    } else {
        folders_of(stack.last()@) + total_on(stack.drop_last())
    }
}

/// The children of `node` from `k` on, the first of them on top.
spec fn children_from<'a>(node: &'a FolderNode, k: int) -> Seq<&'a FolderNode> {
    Seq::new((node.children@.len() - k) as nat, |i: int| &node.children@[node.children@.len() - 1 - i])
}

/// The children of a folder on a stack come up one by one, from the first.
proof fn lemma_children_on<'a>(rest: Seq<&'a FolderNode>, node: &'a FolderNode, id: int, k: int)
    requires
        0 <= k <= node.children@.len(),
    ensures
        hits_below(node, id, k) + hits_on(
            rest + children_from(node, k),
            id + 1 + folders_before(node@, k),
        ) == hits_below(node, id, node.children@.len() as int) + hits_on(
            rest,
            id + folders_of(node@),
        ),
        folders_before(node@, k) + total_on(rest + children_from(node, k)) + 1 == folders_of(node@)
            + total_on(rest),
    decreases node.children@.len() - k,
{
    let stack = rest + children_from(node, k);
    if k == node.children@.len() {
        assert(stack =~= rest);
    } else {
        lemma_children_on(rest, node, id, k + 1);
        assert(stack.last() == &node.children@[k]);
        assert(stack.drop_last() =~= rest + children_from(node, k + 1));
        let at = id + 1 + folders_before(node@, k);
        let first = all_hits(&node.children@[k], at);
        let later = hits_on(stack.drop_last(), at + folders_of(node.children@[k]@));
        assert(hits_below(node, id, k) + (first + later) =~= hits_below(node, id, k) + first + later);
    }
}

/// The best `n` files of a tree.
fn best_files<'a>(root: &'a FolderNode, n: usize, by: Ranking) -> (r: Vec<FileHit<'a>>)
    ensures
        is_best_of(r@, entrants(all_hits(root, 0), by), by, n as nat),
{
    let ghost all = all_hits(root, 0);
    if n == 0 {
        let r: Vec<FileHit<'a>> = Vec::new();
        proof {
            let out = entrants(all, by);
            out.to_multiset_ensures();
            r@.to_multiset_ensures();
            assert(r@.to_multiset().add(out.to_multiset()) =~= out.to_multiset());
            assert(splits(r@, out, out) && none_better(r@, out, by));
        }
        return r;
    }
    let mut podium: Podium<'a> = Podium { by, n, best: Vec::new(), out: Ghost(Seq::empty()) };
    let mut stack: Vec<&'a FolderNode> = Vec::new();
    let mut id: usize = 0;
    let ghost mut at: int = 0;
    let ghost mut seen: Seq<FileHit<'a>> = Seq::empty();
    stack.push(root);
    proof {
        podium.best@.to_multiset_ensures();
        podium.out@.to_multiset_ensures();
        seen.to_multiset_ensures();
        assert(podium.best@.to_multiset().add(podium.out@.to_multiset()) =~= seen.to_multiset());
        reveal_with_fuel(hits_on, 2);
        reveal_with_fuel(total_on, 2);
        assert(stack@.drop_last() =~= Seq::empty());
        assert(seen + hits_on(stack@, 0) =~= all);
        assert(total_on(Seq::<&'a FolderNode>::empty()) == 0);
    }
    while stack.len() > 0
        invariant
            podium.holds(seen),
            podium.by == by,
            podium.n == n,
            seen + hits_on(stack@, at) == all,
            at >= 0,
            id == shown_id(at),
        decreases total_on(stack@),
    {
        let ghost stack0 = stack@;
        let node: &'a FolderNode = match stack.pop() {
            Some(node) => node,
            None => {
                return Vec::new();
            },
        };
        let ghost rest = stack@;
        assert(rest =~= stack0.drop_last());
        let ghost seen0 = seen;
        let ghost own = own_hits(node, at);
        let mut i: usize = 0;
        assert(seen0 + own.take(0) =~= seen);
        while i < node.files.len()
            invariant
                i <= node.files.len(),
                podium.holds(seen),
                podium.by == by,
                podium.n == n,
                id == shown_id(at),
                own == own_hits(node, at),
                seen == seen0 + own.take(i as int),
            decreases node.files.len() - i,
        {
            let hit = FileHit { file: &node.files[i], folder: node, folder_id: id, file_index: i };
            assert(own[i as int] == hit);
            podium.offer(hit, Ghost(seen));
            proof {
                seen = seen.push(hit);
                assert(seen =~= seen0 + own.take(i + 1));
            }
            i += 1;
        }
        assert(own.take(own.len() as int) =~= own);
        let mut k: usize = node.children.len();
        assert(children_from(node, k as int) =~= Seq::empty());
        assert(stack@ =~= rest + children_from(node, k as int));
        while k > 0
            invariant
                k <= node.children.len(),
                stack@ == rest + children_from(node, k as int),
            decreases k,
        {
            k -= 1;
            stack.push(&node.children[k]);
            assert(stack@ =~= rest + children_from(node, k as int));
        }
        proof {
            lemma_children_on(rest, node, at, 0);
            let below = hits_below(node, at, node.children@.len() as int);
            let later = hits_on(rest, at + folders_of(node@));
            assert(hits_below(node, at, 0) + hits_on(stack@, at + 1) =~= hits_on(
                stack@,
                at + 1,
            ));
            assert(seen0 + (own + below + later) =~= seen0 + own + (below + later));
            assert(total_on(rest) + folders_of(node@) == total_on(stack0));
        }
        if id < usize::MAX {
            id += 1;
        }
        proof {
            at = at + 1;
        }
    }
    proof {
        assert(seen + hits_on(stack@, at) =~= seen);
        let out = podium.out@;
        let es = entrants(all, by);
        es.to_multiset_ensures();
        podium.best@.to_multiset_ensures();
        out.to_multiset_ensures();
        assert(splits(podium.best@, out, es) && none_better(podium.best@, out, by));
        assert(podium.best@.to_multiset().len() + out.to_multiset().len() == es.to_multiset().len());
    }
    podium.best
}

/// The `n` largest files of a tree, the largest first.
pub fn top_n_files<'a>(root: &'a FolderNode, n: usize) -> (r: Vec<FileHit<'a>>)
    ensures
        is_best_of(r@, entrants(all_hits(root, 0), Ranking::Largest), Ranking::Largest, n as nat),
{
    best_files(root, n, Ranking::Largest)
}

/// The `n` files of a tree that were modified the longest time ago, the oldest
/// first; files whose time is not known are passed over.
pub fn oldest_n_files<'a>(root: &'a FolderNode, n: usize) -> (r: Vec<FileHit<'a>>)
    ensures
        is_best_of(r@, entrants(all_hits(root, 0), Ranking::Oldest), Ranking::Oldest, n as nat),
{
    best_files(root, n, Ranking::Oldest)
}

// ---------------------------------------------------------------------- laws

/// Asking for at least as many files as there are gives all of them.
pub proof fn law_enough_gives_all<'a>(
    best: Seq<FileHit<'a>>,
    all: Seq<FileHit<'a>>,
    by: Ranking,
    n: nat,
)
    requires
        is_best_of(best, all, by, n),
        n >= all.len(),
    ensures
        best.to_multiset() == all.to_multiset(),
{
    let out = choose|out: Seq<FileHit<'a>>| #[trigger]
        splits(best, out, all) && none_better(best, out, by);
    best.to_multiset_ensures();
    out.to_multiset_ensures();
    all.to_multiset_ensures();
    assert(best.to_multiset().len() + out.to_multiset().len() == all.to_multiset().len());
    assert(out.len() == 0);
    assert(best.to_multiset().add(out.to_multiset()) =~= best.to_multiset());
}

/// No file without a time of modification is ever among the oldest.
pub proof fn law_no_time_no_place<'a>(
    best: Seq<FileHit<'a>>,
    hits: Seq<FileHit<'a>>,
    n: nat,
    i: int,
)
    requires
        is_best_of(best, entrants(hits, Ranking::Oldest), Ranking::Oldest, n),
        0 <= i < best.len(),
    ensures
        best[i].file.last_modified_ft != 0,
{
    let all = entrants(hits, Ranking::Oldest);
    let out = choose|out: Seq<FileHit<'a>>| #[trigger]
        splits(best, out, all) && none_better(best, out, Ranking::Oldest);
    best.to_multiset_ensures();
    all.to_multiset_ensures();
    assert(best.contains(best[i]));
    assert(best.to_multiset().count(best[i]) > 0);
    assert(all.to_multiset().count(best[i]) > 0);
    assert(all.contains(best[i]));
    lemma_entrants_take_part(hits, Ranking::Oldest, best[i]);
}

proof fn lemma_entrants_take_part<'a>(hits: Seq<FileHit<'a>>, by: Ranking, h: FileHit<'a>)
    requires
        entrants(hits, by).contains(h),
    ensures
        takes_part(by, *h.file),
    decreases hits.len(),
{
    if hits.len() > 0 {
        let rest = entrants(hits.drop_last(), by);
        let i = choose|i: int| 0 <= i < entrants(hits, by).len() && entrants(hits, by)[i] == h;
        if i < rest.len() {
            assert(rest[i] == h);
            assert(rest.contains(h));
            lemma_entrants_take_part(hits.drop_last(), by, h);
        }
    }
}

/// The best `n` are the same sizes, or the same times, however ties are broken.
pub proof fn law_ranking_unique<'a>(
    a: Seq<FileHit<'a>>,
    b: Seq<FileHit<'a>>,
    all: Seq<FileHit<'a>>,
    by: Ranking,
    n: nat,
    i: int,
)
    requires
        is_best_of(a, all, by, n),
        is_best_of(b, all, by, n),
        0 <= i < a.len(),
    ensures
        a.len() == b.len(),
        rank(by, *a[i].file) == rank(by, *b[i].file),
{
    lemma_no_better(a, b, all, by, n, i);
    lemma_no_better(b, a, all, by, n, i);
}

proof fn lemma_no_better<'a>(
    a: Seq<FileHit<'a>>,
    b: Seq<FileHit<'a>>,
    all: Seq<FileHit<'a>>,
    by: Ranking,
    n: nat,
    i: int,
)
    requires
        is_best_of(a, all, by, n),
        is_best_of(b, all, by, n),
        0 <= i < a.len(),
    ensures
        rank(by, *b[i].file) <= rank(by, *a[i].file),
{
    let t = rank(by, *a[i].file);
    if rank(by, *b[i].file) > t {
        let oa = choose|out: Seq<FileHit<'a>>| #[trigger]
            splits(a, out, all) && none_better(a, out, by);
        let ob = choose|out: Seq<FileHit<'a>>| #[trigger]
            splits(b, out, all) && none_better(b, out, by);
        // How many files rank at `t` or better.
        let f = |h: FileHit<'a>| rank(by, *h.file) <= t;
        lemma_filter_add(a.to_multiset(), oa.to_multiset(), f);
        lemma_filter_add(b.to_multiset(), ob.to_multiset(), f);
        // At least `i + 1` of `a` do.
        let head = a.take(i + 1);
        head.to_multiset_ensures();
        lemma_split_multiset(a, i + 1);
        lemma_filter_add(head.to_multiset(), a.skip(i + 1).to_multiset(), f);
        assert forall|h: FileHit<'a>| head.to_multiset().count(h) > 0 implies f(h) by {
            assert(head.contains(h));
            let j = choose|j: int| 0 <= j < head.len() && head[j] == h;
            assert(a[j] == h);
            assert(j < i ==> rank(by, *a[j].file) <= rank(by, *a[i].file));
        }
        assert(head.to_multiset().filter(f) =~= head.to_multiset());
        // At most `i` of `b` do, and none of those left out.
        let front = b.take(i);
        let back = b.skip(i);
        front.to_multiset_ensures();
        back.to_multiset_ensures();
        ob.to_multiset_ensures();
        lemma_split_multiset(b, i);
        lemma_filter_add(front.to_multiset(), back.to_multiset(), f);
        assert forall|h: FileHit<'a>| back.to_multiset().count(h) > 0 implies !f(h) by {
            assert(back.contains(h));
            let j = choose|j: int| 0 <= j < back.len() && back[j] == h;
            assert(b[i + j] == h);
            assert(j > 0 ==> rank(by, *b[i].file) <= rank(by, *b[i + j].file));
        }
        assert(back.to_multiset().filter(f) =~= vstd::multiset::Multiset::empty());
        assert forall|h: FileHit<'a>| ob.to_multiset().count(h) > 0 implies !f(h) by {
            assert(ob.contains(h));
            let j = choose|j: int| 0 <= j < ob.len() && ob[j] == h;
            assert(rank(by, *b[i].file) <= rank(by, *ob[j].file));
        }
        assert(ob.to_multiset().filter(f) =~= vstd::multiset::Multiset::empty());
        let g = |h: FileHit<'a>| !f(h);
        assert(front.to_multiset().filter(f).add(front.to_multiset().filter(g))
            =~= front.to_multiset());
    }
}

proof fn lemma_filter_add<A>(
    x: vstd::multiset::Multiset<A>,
    y: vstd::multiset::Multiset<A>,
    f: spec_fn(A) -> bool,
)
    ensures
        x.add(y).filter(f) == x.filter(f).add(y.filter(f)),
        x.add(y).filter(f).len() == x.filter(f).len() + y.filter(f).len(),
{
    assert(x.add(y).filter(f) =~= x.filter(f).add(y.filter(f)));
}

proof fn lemma_split_multiset<A>(s: Seq<A>, k: int)
    requires
        0 <= k <= s.len(),
    ensures
        s.to_multiset() == s.take(k).to_multiset().add(s.skip(k).to_multiset()),
{
    assert(s.take(k) + s.skip(k) =~= s);
    vstd::seq_lib::lemma_multiset_commutative(s.take(k), s.skip(k));
}

} // verus!
