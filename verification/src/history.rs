//! The folders that were visited, to go back and forward among them.

use vstd::prelude::*;

verus! {

/// Visited folders, and which of them is shown.
#[derive(Debug)]
pub struct History {
    pub items: Vec<usize>,
    pub at: usize,
}

pub struct HistoryView {
    pub items: Seq<usize>,
    pub at: int,
}

impl View for History {
    type V = HistoryView;

    open spec fn view(&self) -> HistoryView {
        HistoryView { items: self.items@, at: self.at as int }
    }
}

/// Whether what is shown is one of the folders visited, if there are any.
pub open spec fn is_history(h: HistoryView) -> bool {
    if h.items.len() == 0 {
        h.at == 0
    } else {
        0 <= h.at < h.items.len()
    }
}

/// A visit to `x`: what lay ahead is forgotten. The folder that is shown already is
/// not visited again.
pub open spec fn visited(h: HistoryView, x: usize) -> HistoryView {
    if h.items.len() > 0 && h.items[h.at] == x {
        h
    } else if h.items.len() == 0 {
        HistoryView { items: seq![x], at: 0 }
    } else {
        HistoryView { items: h.items.take(h.at + 1).push(x), at: h.at + 1 }
    }
}

pub open spec fn gone_back(h: HistoryView) -> HistoryView {
    if h.at > 0 {
        HistoryView { at: h.at - 1, ..h }
    } else {
        h
    }
}

pub open spec fn gone_forward(h: HistoryView) -> HistoryView {
    if h.at + 1 < h.items.len() {
        HistoryView { at: h.at + 1, ..h }
    } else {
        h
    }
}

impl History {
    pub fn new() -> (r: Self)
        ensures
            is_history(r@),
            r@.items.len() == 0,
    {
        History { items: Vec::new(), at: 0 }
    }

    /// Notes a visit.
    pub fn visit(&mut self, x: usize)
        requires
            is_history(old(self)@),
        ensures
            is_history(final(self)@),
            final(self)@ == visited(old(self)@, x),
    {
        let ghost h = self@;
        if self.items.len() > 0 {
            if self.items[self.at] == x {
                return;
            }
            self.items.truncate(self.at + 1);
            assert(self.items@ =~= h.items.take(h.at + 1));
            self.at += 1;
        }
        self.items.push(x);
        assert(h.items.len() == 0 ==> self.items@ =~= seq![x]);
    }

    /// The folder before, if there is one; it is then the one shown.
    pub fn nav_back(&mut self) -> (r: Option<usize>)
        requires
            is_history(old(self)@),
        ensures
            is_history(final(self)@),
            final(self)@ == gone_back(old(self)@),
            r is Some <==> old(self)@.at > 0,
            r is Some ==> r->0 == final(self)@.items[final(self)@.at],
    {
        if self.at > 0 {
            self.at -= 1;
            Some(self.items[self.at])
        } else {
            None
        }
    }

    /// The folder ahead, if there is one; it is then the one shown.
    pub fn nav_forward(&mut self) -> (r: Option<usize>)
        requires
            is_history(old(self)@),
        ensures
            is_history(final(self)@),
            final(self)@ == gone_forward(old(self)@),
            r is Some <==> old(self)@.at + 1 < old(self)@.items.len(),
            r is Some ==> r->0 == final(self)@.items[final(self)@.at],
    {
        if self.items.len() > 0 && self.at < self.items.len() - 1 {
            self.at += 1;
            Some(self.items[self.at])
        } else {
            None
        }
    }
}

/// Going back from a new folder leads to where one was, and going forward again to
/// the new folder.
pub proof fn law_visit_and_return(h: HistoryView, x: usize)
    requires
        is_history(h),
        h.items.len() > 0,
        h.items[h.at] != x,
    ensures
        ({
            let b = gone_back(visited(h, x));
            &&& b.at == h.at
            &&& b.items[b.at] == h.items[h.at]
            &&& gone_forward(b) == visited(h, x)
            &&& visited(h, x).items[visited(h, x).at] == x
        }),
{
}

/// A visit leads to the end of the way: nothing lies ahead of it, and everything up to where it
/// started from stays. To visit what is shown changes nothing.
pub proof fn law_visit_ends_the_way(h: HistoryView, x: usize)
    requires
        is_history(h),
    ensures
        ({
            let v = visited(h, x);
            let shown = h.items.len() > 0 && h.items[h.at] == x;
            &&& is_history(v)
            &&& v.items[v.at] == x
            &&& shown ==> v == h
            &&& !shown ==> v.at == v.items.len() - 1 && gone_forward(v) == v
            &&& h.items.len() > 0 ==> forall|i: int|
                0 <= i <= h.at ==> #[trigger] v.items[i] == h.items[i]
            &&& h.items.len() > 0 && !shown ==> v.items.len() == h.at + 2
            &&& h.items.len() == 0 ==> v.items.len() == 1
        }),
{
}

/// Going back and going forward move by one folder, as far as there is one, and forget
/// nothing.
pub proof fn law_back_and_forward_move_by_one(h: HistoryView)
    requires
        is_history(h),
    ensures
        gone_back(h).items == h.items,
        gone_forward(h).items == h.items,
        h.at > 0 ==> gone_back(h).at == h.at - 1,
        h.at == 0 ==> gone_back(h) == h,
        h.at < h.items.len() - 1 ==> gone_forward(h).at == h.at + 1,
        h.at >= h.items.len() - 1 ==> gone_forward(h) == h,
{
}

} // verus!
