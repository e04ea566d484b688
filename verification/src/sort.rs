//! Putting rows in order: by number, then by text, keeping the order of equals.

use vstd::prelude::*;

verus! {

/// What a row is sorted by.
#[derive(Debug)]
pub struct SortKey {
    pub num: i64,
    pub text: Vec<char>,
}

pub struct KeyView {
    pub num: int,
    pub text: Seq<char>,
}

impl View for SortKey {
    type V = KeyView;

    open spec fn view(&self) -> KeyView {
        KeyView { num: self.num as int, text: self.text@ }
    }
}

/// The keys of all rows.
pub open spec fn key_views(keys: Seq<SortKey>) -> Seq<KeyView> {
    keys.map_values(|k: SortKey| k@)
}

/// Whether `a` comes before `b` in a dictionary ordered by character number.
pub open spec fn text_less(a: Seq<char>, b: Seq<char>) -> bool
    decreases a.len(),
{
    if b.len() == 0 {
        false
    } else if a.len() == 0 {
        true
    } else if a[0] == b[0] {
        text_less(a.skip(1), b.skip(1))
    } else {
        a[0] < b[0]
    }
}

/// Whether key `a` is smaller than key `b`.
pub open spec fn key_less(a: KeyView, b: KeyView) -> bool {
    a.num < b.num || (a.num == b.num && text_less(a.text, b.text))
}

/// Whether row `i` stands in front of row `j`: its key is smaller, or larger where
/// the order descends; rows with equal keys stay in the order they came in.
pub open spec fn stands_before(keys: Seq<KeyView>, desc: bool, i: usize, j: usize) -> bool {
    let (a, b) = if desc {
        (keys[j as int], keys[i as int])
    } else {
        (keys[i as int], keys[j as int])
    };
    key_less(a, b) || (!key_less(b, a) && i < j)
}

/// The numbers from `lo` up to `hi`.
pub open spec fn range(lo: int, hi: int) -> Seq<usize> {
    Seq::new((hi - lo) as nat, |k: int| (lo + k) as usize)
}

/// Whether every row of `order` stands in front of the ones behind it.
pub open spec fn in_order(keys: Seq<KeyView>, desc: bool, order: Seq<usize>) -> bool {
    forall|p: int, q: int|
        0 <= p < q < order.len() ==> stands_before(
            keys,
            desc,
            #[trigger] order[p],
            #[trigger] order[q],
        )
}

/// Whether `order` is all the rows, in order.
pub open spec fn is_order_of(order: Seq<usize>, keys: Seq<KeyView>, desc: bool) -> bool {
    &&& order.len() == keys.len()
    &&& order.to_multiset() == range(0, keys.len() as int).to_multiset()
    &&& in_order(keys, desc, order)
}

proof fn lemma_text_total(a: Seq<char>, b: Seq<char>)
    ensures
        !(text_less(a, b) && text_less(b, a)),
        text_less(a, b) || text_less(b, a) || a == b,
    decreases a.len(),
{
    if a.len() > 0 && b.len() > 0 && a[0] == b[0] {
        lemma_text_total(a.skip(1), b.skip(1));
        if a.skip(1) == b.skip(1) {
            assert(seq![a[0]] + a.skip(1) =~= a);
            assert(seq![b[0]] + b.skip(1) =~= b);
        }
    } else if a.len() == 0 && b.len() == 0 {
        assert(a =~= b);
    }
}

proof fn lemma_text_trans(a: Seq<char>, b: Seq<char>, c: Seq<char>)
    requires
        text_less(a, b),
        text_less(b, c),
    ensures
        text_less(a, c),
    decreases a.len(),
{
    if a.len() > 0 && a[0] == b[0] && b[0] == c[0] {
        lemma_text_trans(a.skip(1), b.skip(1), c.skip(1));
    }
}

/// A text never comes before itself, and of two different texts one comes first.
pub proof fn law_text_order_total(a: Seq<char>, b: Seq<char>)
    ensures
        !text_less(a, a),
        a != b ==> text_less(a, b) != text_less(b, a),
{
    lemma_text_total(a, b);
    lemma_text_total(a, a);
}

/// Of two texts the one comes first that has the smaller character where they first
/// differ, and one that ends there comes before the other.
pub proof fn law_first_difference_decides(a: Seq<char>, b: Seq<char>, i: int)
    requires
        0 <= i <= a.len(),
        i < b.len(),
        forall|j: int| 0 <= j < i ==> a[j] == b[j],
        i < a.len() ==> a[i] < b[i],
    ensures
        text_less(a, b),
    decreases i,
{
    if i > 0 {
        assert(a[0] == b[0]);
        law_first_difference_decides(a.skip(1), b.skip(1), i - 1);
    }
}

proof fn lemma_key_trans(a: KeyView, b: KeyView, c: KeyView)
    ensures
        key_less(a, b) && key_less(b, c) ==> key_less(a, c),
        !key_less(b, a) && !key_less(c, b) ==> !key_less(c, a),
        key_less(a, b) && !key_less(c, b) ==> key_less(a, c),
        !key_less(b, a) && key_less(b, c) ==> key_less(a, c),
{
    lemma_text_total(a.text, b.text);
    lemma_text_total(b.text, c.text);
    lemma_text_total(a.text, c.text);
    if text_less(a.text, b.text) && text_less(b.text, c.text) {
        lemma_text_trans(a.text, b.text, c.text);
    }
    if text_less(c.text, a.text) && text_less(a.text, b.text) {
        lemma_text_trans(c.text, a.text, b.text);
    }
    if text_less(b.text, c.text) && text_less(c.text, a.text) {
        lemma_text_trans(b.text, c.text, a.text);
    }
}

proof fn lemma_before_trans(keys: Seq<KeyView>, desc: bool, i: usize, j: usize, k: usize)
    requires
        stands_before(keys, desc, i, j),
        stands_before(keys, desc, j, k),
    ensures
        stands_before(keys, desc, i, k),
{
    lemma_key_trans(keys[i as int], keys[j as int], keys[k as int]);
    lemma_key_trans(keys[k as int], keys[j as int], keys[i as int]);
}

proof fn lemma_before_total(keys: Seq<KeyView>, desc: bool, i: usize, j: usize)
    ensures
        i != j ==> stands_before(keys, desc, i, j) != stands_before(keys, desc, j, i),
        !stands_before(keys, desc, i, i),
{
    lemma_text_total(keys[i as int].text, keys[j as int].text);
    lemma_text_total(keys[i as int].text, keys[i as int].text);
}

fn is_text_less(a: &Vec<char>, b: &Vec<char>) -> (r: bool)
    ensures
        r == text_less(a@, b@),
{
    let mut i: usize = 0;
    proof {
        assert(a@.skip(0) =~= a@);
        assert(b@.skip(0) =~= b@);
    }
    loop
        invariant
            i <= a.len(),
            i <= b.len(),
            text_less(a@.skip(i as int), b@.skip(i as int)) == text_less(a@, b@),
        decreases a.len() - i,
    {
        if i >= b.len() {
            return false;
        }
        if i >= a.len() {
            return true;
        }
        let (x, y) = (a[i], b[i]);
        assert(a@.skip(i as int)[0] == x && b@.skip(i as int)[0] == y);
        if x != y {
            return x < y;
        }
        assert(a@.skip(i as int).skip(1) =~= a@.skip(i + 1));
        assert(b@.skip(i as int).skip(1) =~= b@.skip(i + 1));
        i += 1;
    }
}

fn is_key_less(a: &SortKey, b: &SortKey) -> (r: bool)
    ensures
        r == key_less(a@, b@),
{
    a.num < b.num || (a.num == b.num && is_text_less(&a.text, &b.text))
}

fn is_before(keys: &Vec<SortKey>, desc: bool, i: usize, j: usize) -> (r: bool)
    requires
        i < keys.len(),
        j < keys.len(),
    ensures
        r == stands_before(key_views(keys@), desc, i, j),
{
    let (a, b) = if desc {
        (&keys[j], &keys[i])
    } else {
        (&keys[i], &keys[j])
    };
    is_key_less(a, b) || (!is_key_less(b, a) && i < j)
}

/// Merges two runs of rows into one.
fn merge(keys: &Vec<SortKey>, desc: bool, a: &Vec<usize>, b: &Vec<usize>) -> (r: Vec<usize>)
    requires
        in_order(key_views(keys@), desc, a@),
        in_order(key_views(keys@), desc, b@),
        forall|p: int| 0 <= p < a.len() ==> #[trigger] a@[p] < keys.len(),
        forall|p: int| 0 <= p < b.len() ==> #[trigger] b@[p] < keys.len(),
        forall|p: int, q: int|
            0 <= p < a.len() && 0 <= q < b.len() ==> #[trigger] a@[p] != #[trigger] b@[q],
    ensures
        in_order(key_views(keys@), desc, r@),
        r@.to_multiset() == a@.to_multiset().add(b@.to_multiset()),
        r.len() == a.len() + b.len(),
{
    let mut out: Vec<usize> = Vec::new();
    let mut i: usize = 0;
    let mut j: usize = 0;
    proof {
        a@.take(0).to_multiset_ensures();
        b@.take(0).to_multiset_ensures();
        out@.to_multiset_ensures();
        assert(out@.to_multiset() =~= a@.take(0).to_multiset().add(b@.take(0).to_multiset()));
    }
    while i < a.len() || j < b.len()
        invariant
            i <= a.len(),
            j <= b.len(),
            in_order(key_views(keys@), desc, a@),
            in_order(key_views(keys@), desc, b@),
            forall|p: int| 0 <= p < a.len() ==> #[trigger] a@[p] < keys.len(),
            forall|p: int| 0 <= p < b.len() ==> #[trigger] b@[p] < keys.len(),
            forall|p: int, q: int|
                0 <= p < a.len() && 0 <= q < b.len() ==> #[trigger] a@[p] != #[trigger] b@[q],
            in_order(key_views(keys@), desc, out@),
            forall|p: int, q: int|
                0 <= p < out.len() && i <= q < a.len() ==> stands_before(key_views(keys@),
                    desc,
                    #[trigger] out@[p],
                    #[trigger] a@[q],
                ),
            forall|p: int, q: int|
                0 <= p < out.len() && j <= q < b.len() ==> stands_before(key_views(keys@),
                    desc,
                    #[trigger] out@[p],
                    #[trigger] b@[q],
                ),
            out.len() == i + j,
            out@.to_multiset() == a@.take(i as int).to_multiset().add(
                b@.take(j as int).to_multiset(),
            ),
        decreases a.len() + b.len() - i - j,
    {
        let from_a = if i >= a.len() {
            false
        } else if j >= b.len() {
            true
        } else {
            is_before(keys, desc, a[i], b[j])
        };
        let ghost before = out@;
        proof {
            before.to_multiset_ensures();
            a@.take(i as int).to_multiset_ensures();
            b@.take(j as int).to_multiset_ensures();
        }
        if from_a {
            let x: usize = a[i];
            out.push(x);
            proof {
                assert(a@.take(i + 1) =~= a@.take(i as int).push(x));
                assert(out@.to_multiset() =~= a@.take(i + 1).to_multiset().add(
                    b@.take(j as int).to_multiset(),
                ));
                assert forall|q: int| j <= q < b.len() implies stands_before(key_views(keys@),
                    desc,
                    x,
                    #[trigger] b@[q],
                ) by {
                    if q > j {
                        lemma_before_trans(key_views(keys@), desc, x, b@[j as int], b@[q]);
                    }
                }
            }
            i += 1;
        } else {
            let x: usize = b[j];
            out.push(x);
            proof {
                assert(b@.take(j + 1) =~= b@.take(j as int).push(x));
                assert(out@.to_multiset() =~= a@.take(i as int).to_multiset().add(
                    b@.take(j + 1).to_multiset(),
                ));
                assert forall|q: int| i <= q < a.len() implies stands_before(key_views(keys@),
                    desc,
                    x,
                    #[trigger] a@[q],
                ) by {
                    lemma_before_total(key_views(keys@), desc, a@[i as int], x);
                    if q > i {
                        lemma_before_trans(key_views(keys@), desc, x, a@[i as int], a@[q]);
                    }
                }
            }
            j += 1;
        }
    }
    assert(a@.take(a.len() as int) =~= a@);
    assert(b@.take(b.len() as int) =~= b@);
    out
}

/// Everything in a rearrangement of a range lies in the range.
proof fn lemma_in_range(s: Seq<usize>, lo: int, hi: int, p: int)
    requires
        0 <= lo <= hi <= usize::MAX,
        s.to_multiset() == range(lo, hi).to_multiset(),
        0 <= p < s.len(),
    ensures
        lo <= s[p] < hi,
{
    s.to_multiset_ensures();
    range(lo, hi).to_multiset_ensures();
    assert(s.contains(s[p]));
    assert(s.to_multiset().count(s[p]) > 0);
    assert(range(lo, hi).contains(s[p]));
}

/// Sorts the rows from `lo` up to `hi`.
fn sort_range(keys: &Vec<SortKey>, desc: bool, lo: usize, hi: usize) -> (r: Vec<usize>)
    requires
        lo <= hi <= keys.len(),
    ensures
        r.len() == hi - lo,
        r@.to_multiset() == range(lo as int, hi as int).to_multiset(),
        in_order(key_views(keys@), desc, r@),
    decreases hi - lo,
{
    if hi - lo <= 1 {
        let mut r: Vec<usize> = Vec::new();
        if lo < hi {
            r.push(lo);
        }
        assert(r@ =~= range(lo as int, hi as int));
        return r;
    }
    let mid: usize = lo + (hi - lo) / 2;
    let a = sort_range(keys, desc, lo, mid);
    let b = sort_range(keys, desc, mid, hi);
    proof {
        assert forall|p: int| 0 <= p < a.len() implies lo <= #[trigger] a@[p] < mid by {
            lemma_in_range(a@, lo as int, mid as int, p);
        }
        assert forall|p: int| 0 <= p < b.len() implies mid <= #[trigger] b@[p] < hi by {
            lemma_in_range(b@, mid as int, hi as int, p);
        }
        assert(range(lo as int, mid as int) + range(mid as int, hi as int) =~= range(
            lo as int,
            hi as int,
        ));
        vstd::seq_lib::lemma_multiset_commutative(
            range(lo as int, mid as int),
            range(mid as int, hi as int),
        );
    }
    merge(keys, desc, &a, &b)
}

/// The order in which rows with these keys stand.
pub fn sorted_order(keys: &Vec<SortKey>, desc: bool) -> (r: Vec<usize>)
    ensures
        is_order_of(r@, key_views(keys@), desc),
        is_permutation(r@, keys@.len()),
{
    let r = sort_range(keys, desc, 0, keys.len());
    proof {
        law_order_is_permutation(r@, key_views(keys@), desc);
    }
    r
}

/// Keys that are only numbers.
pub open spec fn num_keys(nums: Seq<i64>) -> Seq<KeyView> {
    nums.map_values(|n: i64| KeyView { num: n as int, text: Seq::empty() })
}

/// The order in which rows with these numbers stand.
pub fn order_by_number(nums: &Vec<i64>, desc: bool) -> (r: Vec<usize>)
    ensures
        is_order_of(r@, num_keys(nums@), desc),
        is_permutation(r@, nums@.len()),
{
    let mut keys: Vec<SortKey> = Vec::new();
    let mut i: usize = 0;
    while i < nums.len()
        invariant
            i <= nums.len(),
            keys.len() == i,
            forall|k: int| 0 <= k < i ==> (#[trigger] keys@[k])@ == num_keys(nums@)[k],
        decreases nums.len() - i,
    {
        let key = SortKey { num: nums[i], text: Vec::new() };
        assert(key@.text =~= Seq::empty());
        keys.push(key);
        i += 1;
    }
    assert(key_views(keys@) =~= num_keys(nums@));
    sorted_order(&keys, desc)
}

/// Every row has exactly one place in an order.
pub proof fn law_order_is_permutation(order: Seq<usize>, keys: Seq<KeyView>, desc: bool)
    requires
        is_order_of(order, keys, desc),
        keys.len() <= usize::MAX,
    ensures
        order.no_duplicates(),
        forall|p: int| 0 <= p < order.len() ==> #[trigger] order[p] < keys.len(),
        forall|i: usize| (i as int) < keys.len() ==> #[trigger] order.contains(i),
{
    let r = range(0, keys.len() as int);
    r.to_multiset_ensures();
    order.to_multiset_ensures();
    assert forall|p: int| 0 <= p < order.len() implies #[trigger] order[p] < keys.len() by {
        lemma_in_range(order, 0, keys.len() as int, p);
    }
    assert forall|i: usize| (i as int) < keys.len() implies #[trigger] order.contains(i) by {
        assert(r[i as int] == i);
        assert(r.contains(i));
        assert(order.to_multiset().count(i) > 0);
    }
    assert forall|p: int, q: int| 0 <= p < order.len() && 0 <= q < order.len() && p != q implies order[p]
        != order[q] by {
        let (x, y) = if p < q {
            (p, q)
        } else {
            (q, p)
        };
        assert(stands_before(keys, desc, order[x], order[y]));
        lemma_before_total(keys, desc, order[x], order[y]);
    }
}

/// `x` put in its place among `order`.
spec fn inserted(keys: Seq<KeyView>, desc: bool, order: Seq<usize>, x: usize) -> Seq<usize>
    decreases order.len(),
{
    if order.len() == 0 || stands_before(keys, desc, order.last(), x) {
        order.push(x)
    } else {
        inserted(keys, desc, order.drop_last(), x).push(order.last())
    }
}

proof fn lemma_inserted(keys: Seq<KeyView>, desc: bool, order: Seq<usize>, x: usize)
    requires
        in_order(keys, desc, order),
        forall|p: int| 0 <= p < order.len() ==> #[trigger] order[p] != x,
    ensures
        in_order(keys, desc, inserted(keys, desc, order, x)),
        inserted(keys, desc, order, x).to_multiset() == order.to_multiset().insert(x),
        inserted(keys, desc, order, x).len() == order.len() + 1,
        forall|p: int|
            0 <= p < order.len() + 1 ==> #[trigger] inserted(keys, desc, order, x)[p] == x
                || order.contains(inserted(keys, desc, order, x)[p]),
    decreases order.len(),
{
    let r = inserted(keys, desc, order, x);
    order.to_multiset_ensures();
    if order.len() == 0 || stands_before(keys, desc, order.last(), x) {
        assert forall|p: int, q: int| 0 <= p < q < r.len() implies stands_before(
            keys,
            desc,
            #[trigger] r[p],
            #[trigger] r[q],
        ) by {
            if q == order.len() && p < q - 1 {
                lemma_before_trans(keys, desc, order[p], order.last(), x);
            }
        }
    } else {
        let (rest, y) = (order.drop_last(), order.last());
        lemma_inserted(keys, desc, rest, x);
        lemma_before_total(keys, desc, x, y);
        let t = inserted(keys, desc, rest, x);
        rest.to_multiset_ensures();
        t.to_multiset_ensures();
        assert(order =~= rest.push(y));
        assert(r.to_multiset() =~= order.to_multiset().insert(x));
        assert forall|p: int, q: int| 0 <= p < q < r.len() implies stands_before(
            keys,
            desc,
            #[trigger] r[p],
            #[trigger] r[q],
        ) by {
            if q == t.len() {
                if t[p] != x {
                    let i = choose|i: int| 0 <= i < rest.len() && rest[i] == t[p];
                    assert(stands_before(keys, desc, order[i], order[order.len() - 1]));
                }
            } else {
                assert(stands_before(keys, desc, t[p], t[q]));
            }
        }
        assert forall|p: int| 0 <= p < order.len() + 1 implies #[trigger] r[p] == x || order.contains(
            r[p],
        ) by {
            if p < t.len() && t[p] != x {
                let i = choose|i: int| 0 <= i < rest.len() && rest[i] == t[p];
                assert(order[i] == t[p]);
            } else if p == t.len() {
                assert(order[order.len() - 1] == y);
            }
        }
    }
}

/// There always is an order.
pub proof fn lemma_order_exists(keys: Seq<KeyView>, desc: bool)
    requires
        keys.len() <= usize::MAX,
    ensures
        exists|o: Seq<usize>| is_order_of(o, keys, desc),
{
    let o = lemma_order_of_first(keys, desc, keys.len() as int);
    assert(is_order_of(o, keys, desc));
}

proof fn lemma_order_of_first(keys: Seq<KeyView>, desc: bool, n: int) -> (o: Seq<usize>)
    requires
        0 <= n <= keys.len() <= usize::MAX,
    ensures
        o.len() == n,
        o.to_multiset() == range(0, n).to_multiset(),
        in_order(keys, desc, o),
    decreases n,
{
    if n == 0 {
        let o = Seq::<usize>::empty();
        assert(o =~= range(0, 0));
        o
    } else {
        let o = lemma_order_of_first(keys, desc, n - 1);
        let x = (n - 1) as usize;
        assert forall|p: int| 0 <= p < o.len() implies #[trigger] o[p] != x by {
            lemma_in_range(o, 0, n - 1, p);
        }
        lemma_inserted(keys, desc, o, x);
        let r = range(0, n - 1);
        r.to_multiset_ensures();
        assert(range(0, n) =~= r.push(x));
        inserted(keys, desc, o, x)
    }
}

/// There is only one order: the keys and the order in which rows came in decide it.
pub proof fn law_order_unique(a: Seq<usize>, b: Seq<usize>, keys: Seq<KeyView>, desc: bool)
    requires
        is_order_of(a, keys, desc),
        is_order_of(b, keys, desc),
    ensures
        a == b,
{
    lemma_order_unique(a, b, keys, desc);
}

proof fn lemma_order_unique(a: Seq<usize>, b: Seq<usize>, keys: Seq<KeyView>, desc: bool)
    requires
        in_order(keys, desc, a),
        in_order(keys, desc, b),
        a.to_multiset() == b.to_multiset(),
    ensures
        a == b,
    decreases a.len(),
{
    a.to_multiset_ensures();
    b.to_multiset_ensures();
    if a.len() > 0 {
        // The last of each stands in the other, and behind everything there.
        let (x, y) = (a.last(), b.last());
        assert(a.contains(x) && b.contains(y));
        assert(b.to_multiset().count(x) > 0 && a.to_multiset().count(y) > 0);
        assert(b.contains(x) && a.contains(y));
        let p = choose|p: int| 0 <= p < b.len() && b[p] == x;
        let q = choose|q: int| 0 <= q < a.len() && a[q] == y;
        lemma_before_total(keys, desc, x, y);
        if x != y {
            assert(stands_before(keys, desc, b[p], b[b.len() - 1]));
            assert(stands_before(keys, desc, a[q], a[a.len() - 1]));
        }
        let (c, d) = (a.drop_last(), b.drop_last());
        c.to_multiset_ensures();
        d.to_multiset_ensures();
        assert(a =~= c.push(x));
        assert(b =~= d.push(y));
        assert(c.to_multiset() =~= a.to_multiset().remove(x));
        assert(d.to_multiset() =~= b.to_multiset().remove(x));
        lemma_order_unique(c, d, keys, desc);
    } else {
        assert(a =~= b);
    }
}

/// Rows in the order of their numbers are all the rows, each once, the smallest number
/// first, or the largest where the order descends; rows with the same number stay in the
/// order they came in.
pub proof fn law_order_by_number(order: Seq<usize>, nums: Seq<i64>, desc: bool)
    requires
        is_order_of(order, num_keys(nums), desc),
        nums.len() <= usize::MAX,
    ensures
        order.len() == nums.len(),
        forall|i: usize| (i as int) < nums.len() ==> #[trigger] order.contains(i),
        forall|p: int| 0 <= p < order.len() ==> #[trigger] order[p] < nums.len(),
        forall|p: int, q: int|
            0 <= p < q < order.len() ==> {
                let (a, b) = (nums[#[trigger] order[p] as int], nums[#[trigger] order[q] as int]);
                &&& desc ==> a >= b
                &&& !desc ==> a <= b
                &&& a == b ==> order[p] < order[q]
            },
{
    let keys = num_keys(nums);
    law_order_is_permutation(order, keys, desc);
    assert forall|p: int, q: int| 0 <= p < q < order.len() implies {
        let (a, b) = (nums[#[trigger] order[p] as int], nums[#[trigger] order[q] as int]);
        &&& desc ==> a >= b
        &&& !desc ==> a <= b
        &&& a == b ==> order[p] < order[q]
    } by {
        assert(stands_before(keys, desc, order[p], order[q]));
        assert(keys[order[p] as int].num == nums[order[p] as int]);
        assert(keys[order[q] as int].num == nums[order[q] as int]);
        law_text_order_total(keys[order[p] as int].text, keys[order[q] as int].text);
    }
}

/// Whether `order` names every row once.
pub open spec fn is_permutation(order: Seq<usize>, n: nat) -> bool {
    &&& order.len() == n
    &&& order.no_duplicates()
    &&& forall|p: int| 0 <= p < order.len() ==> #[trigger] order[p] < n
}

/// Rows rearranged so that row `order[i]` comes to stand at place `i`.
pub fn reorder<T>(rows: Vec<T>, order: &Vec<usize>) -> (r: Vec<T>)
    requires
        is_permutation(order@, rows@.len()),
    ensures
        r@ == order@.map_values(|i: usize| rows@[i as int]),
{
    let mut slots: Vec<Option<T>> = Vec::new();
    let total: usize = rows.len();
    for row in it: rows
        invariant
            it.seq() == rows@,
            slots.len() == it.index(),
            forall|i: int| 0 <= i < slots.len() ==> #[trigger] slots@[i] == Some(rows@[i]),
    {
        slots.push(Some(row));
    }
    let ghost goal = order@.map_values(|i: usize| rows@[i as int]);
    let mut out: Vec<T> = Vec::new();
    let mut i: usize = 0;
    assert(out@ =~= goal.take(0));
    while i < total
        invariant
            i <= total,
            total == order.len(),
            total == rows@.len(),
            slots.len() == total,
            is_permutation(order@, rows@.len()),
            goal == order@.map_values(|i: usize| rows@[i as int]),
            out@ == goal.take(i as int),
            forall|q: int| i <= q < total ==> #[trigger] slots@[order@[q] as int] == Some(
                rows@[order@[q] as int],
            ),
        decreases total - i,
    {
        let k: usize = order[i];
        assert(slots@[order@[i as int] as int] == Some(rows@[k as int]));
        let mut taken: Option<T> = None;
        std::mem::swap(&mut taken, &mut slots[k]);
        if let Some(row) = taken {
            out.push(row);
        }
        assert(out@ =~= goal.take(i + 1));
        i += 1;
    }
    assert(goal.take(total as int) =~= goal);
    out
}

} // verus!
