//! The state of a window that browses one scanned tree.

use crate::decimal::{decimal, push_decimal};
use crate::format::{bytes_text, format_bytes, Units};
use crate::sort::{is_order_of, is_permutation, law_order_by_number, num_keys, order_by_number};
use crate::text::{trim, trimmed};
use crate::types::FolderNode;
use vstd::prelude::*;

verus! {

/// What is shown of a tree.
#[derive(Copy, Clone, Debug, PartialEq, Eq, Structural)]
pub enum Pane {
    Browse,
    Largest,
    Oldest,
}

/// A step through the tree.
#[derive(Copy, Clone, Debug, PartialEq, Eq, Structural)]
pub enum NavAction {
    /// Into the child with that index.
    Drill(usize),
    Up,
    Back,
    Fwd,
    /// To the folder that many levels below the top, on the way to the current one.
    Crumb(usize),
}

/// Where in the tree a window is, as child indices from the top, and where it was.
#[derive(Debug)]
pub struct Navigator {
    pub cur: Vec<usize>,
    pub back: Vec<Vec<usize>>,
    pub fwd: Vec<Vec<usize>>,
}

pub struct NavView {
    pub cur: Seq<usize>,
    pub back: Seq<Seq<usize>>,
    pub fwd: Seq<Seq<usize>>,
}

pub open spec fn paths(v: Seq<Vec<usize>>) -> Seq<Seq<usize>> {
    v.map_values(|p: Vec<usize>| p@)
}

impl View for Navigator {
    type V = NavView;

    open spec fn view(&self) -> NavView {
        NavView { cur: self.cur@, back: paths(self.back@), fwd: paths(self.fwd@) }
    }
}

/// Going to `to`, remembering the way back and forgetting the way forward.
pub open spec fn moved_to(n: NavView, to: Seq<usize>) -> NavView {
    NavView { cur: to, back: n.back.push(n.cur), fwd: Seq::empty() }
}

/// Where a step leads. A step that leads nowhere changes nothing.
pub open spec fn stepped(n: NavView, a: NavAction) -> NavView {
    match a {
        NavAction::Drill(i) => moved_to(n, n.cur.push(i)),
        NavAction::Up => if n.cur.len() > 0 {
            moved_to(n, n.cur.drop_last())
        } else {
            n
        },
        NavAction::Back => if n.back.len() > 0 {
            NavView { cur: n.back.last(), back: n.back.drop_last(), fwd: n.fwd.push(n.cur) }
        } else {
            n
        },
        NavAction::Fwd => if n.fwd.len() > 0 {
            NavView { cur: n.fwd.last(), back: n.back.push(n.cur), fwd: n.fwd.drop_last() }
        } else {
            n
        },
        NavAction::Crumb(k) => if k < n.cur.len() {
            moved_to(n, n.cur.take(k as int))
        } else {
            n
        },
    }
}

impl Navigator {
    /// At the top, with nowhere to go back to.
    pub fn new() -> (r: Self)
        ensures
            r@ == (NavView { cur: Seq::empty(), back: Seq::empty(), fwd: Seq::empty() }),
    {
        let r = Navigator { cur: Vec::new(), back: Vec::new(), fwd: Vec::new() };
        assert(r@.cur =~= Seq::empty());
        assert(r@.back =~= Seq::empty());
        assert(r@.fwd =~= Seq::empty());
        r
    }

    /// Goes to `to`, remembering where it was.
    fn go(&mut self, to: Vec<usize>)
        ensures
            final(self)@ == moved_to(old(self)@, to@),
    {
        let ghost before = self@;
        let mut at = to;
        std::mem::swap(&mut at, &mut self.cur);
        self.back.push(at);
        self.fwd = Vec::new();
        assert(self@.back =~= before.back.push(before.cur));
        assert(self@.fwd =~= Seq::empty());
    }

    /// Takes a step, where there is one to take.
    pub fn apply_nav(&mut self, a: Option<NavAction>)
        ensures
            a is None ==> final(self)@ == old(self)@,
            a is Some ==> final(self)@ == stepped(old(self)@, a->0),
    {
        let a = match a {
            Some(a) => a,
            None => {
                return ;
            },
        };
        let ghost before = self@;
        match a {
            NavAction::Drill(i) => {
                let mut to = copy_path(&self.cur);
                to.push(i);
                self.go(to);
            },
            NavAction::Up => {
                if self.cur.len() > 0 {
                    let mut to = copy_path(&self.cur);
                    to.pop();
                    assert(to@ =~= before.cur.drop_last());
                    self.go(to);
                }
            },
            NavAction::Back => {
                if let Some(mut p) = self.back.pop() {
                    assert(p@ == before.back.last());
                    std::mem::swap(&mut p, &mut self.cur);
                    self.fwd.push(p);
                    assert(self@.back =~= before.back.drop_last());
                    assert(self@.fwd =~= before.fwd.push(before.cur));
                }
            },
            NavAction::Fwd => {
                if let Some(mut p) = self.fwd.pop() {
                    assert(p@ == before.fwd.last());
                    std::mem::swap(&mut p, &mut self.cur);
                    self.back.push(p);
                    assert(self@.fwd =~= before.fwd.drop_last());
                    assert(self@.back =~= before.back.push(before.cur));
                }
            },
            NavAction::Crumb(k) => {
                if k < self.cur.len() {
                    let mut to = copy_path(&self.cur);
                    to.truncate(k);
                    assert(to@ =~= before.cur.take(k as int));
                    self.go(to);
                }
            },
        }
    }
}

fn copy_path(p: &Vec<usize>) -> (r: Vec<usize>)
    ensures
        r@ == p@,
{
    let mut r: Vec<usize> = Vec::new();
    let mut i: usize = 0;
    while i < p.len()
        invariant
            i <= p.len(),
            r@ == p@.take(i as int),
        decreases p.len() - i,
    {
        r.push(p[i]);
        i += 1;
        assert(r@ =~= p@.take(i as int));
    }
    assert(p@.take(p.len() as int) =~= p@);
    r
}

/// Going back undoes every step into, up or along the tree, and going forward again
/// undoes going back.
pub proof fn law_back_undoes(n: NavView, a: NavAction)
    requires
        a is Drill || (a is Up && n.cur.len() > 0) || (a is Crumb && a->Crumb_0 < n.cur.len()),
    ensures
        stepped(stepped(n, a), NavAction::Back).cur == n.cur,
        stepped(stepped(n, a), NavAction::Back).back == n.back,
        stepped(stepped(stepped(n, a), NavAction::Back), NavAction::Fwd).cur == stepped(n, a).cur,
{
    let m = stepped(n, a);
    assert(m.back.drop_last() =~= n.back);
}

/// Going back and then forward, or forward and then back, changes nothing.
pub proof fn law_back_and_forward(n: NavView)
    ensures
        n.back.len() > 0 ==> stepped(stepped(n, NavAction::Back), NavAction::Fwd) == n,
        n.fwd.len() > 0 ==> stepped(stepped(n, NavAction::Fwd), NavAction::Back) == n,
{
    if n.back.len() > 0 {
        let m = stepped(n, NavAction::Back);
        assert(m.fwd.drop_last() =~= n.fwd);
        assert(m.back.push(m.cur) =~= n.back);
    }
    if n.fwd.len() > 0 {
        let m = stepped(n, NavAction::Fwd);
        assert(m.back.drop_last() =~= n.back);
        assert(m.fwd.push(m.cur) =~= n.fwd);
    }
}

/// The folder that a path of child indices leads to. A path that leads nowhere ends
/// at the last folder on the way.
pub open spec fn folder_at(node: FolderNode, path: Seq<usize>) -> FolderNode
    decreases path.len(),
{
    if path.len() > 0 && path[0] < node.children@.len() {
        folder_at(node.children@[path[0] as int], path.skip(1))
    } else {
        node
    }
}

pub fn node_at<'a>(root: &'a FolderNode, path: &Vec<usize>) -> (r: &'a FolderNode)
    ensures
        *r == folder_at(*root, path@),
{
    let mut node: &'a FolderNode = root;
    let mut i: usize = 0;
    assert(path@.skip(0) =~= path@);
    while i < path.len()
        invariant
            i <= path.len(),
            folder_at(*node, path@.skip(i as int)) == folder_at(*root, path@),
        decreases path.len() - i,
    {
        assert(path@.skip(i as int)[0] == path@[i as int]);
        if path[i] >= node.children.len() {
            return node;
        }
        node = &node.children[path[i]];
        assert(path@.skip(i as int).skip(1) =~= path@.skip(i + 1));
        i += 1;
    }
    node
}

/// One part of the way from the top to the current folder.
#[derive(Debug)]
pub struct Crumb {
    pub name: String,
    /// How many levels below the top.
    pub level: usize,
    /// Whether it is the current folder, which is shown but not clickable.
    pub is_last: bool,
}

pub struct CrumbView {
    pub name: Seq<char>,
    pub level: int,
    pub is_last: bool,
}

impl View for Crumb {
    type V = CrumbView;

    open spec fn view(&self) -> CrumbView {
        CrumbView { name: self.name@, level: self.level as int, is_last: self.is_last }
    }
}

pub open spec fn crumb_views(v: Seq<Crumb>) -> Seq<CrumbView> {
    v.map_values(|c: Crumb| c@)
}

/// The parts of the way from `node`, which is `level` levels down, along what is
/// left of a path of `total` levels. An index that leads nowhere is passed over.
pub open spec fn crumbs_from(node: FolderNode, path: Seq<usize>, level: int, total: int) -> Seq<
    CrumbView,
>
    decreases path.len(),
{
    if path.len() == 0 {
        Seq::empty()
    } else if path[0] < node.children@.len() {
        let child = node.children@[path[0] as int];
        seq![CrumbView { name: child.name@, level: level + 1, is_last: level + 1 == total }]
            + crumbs_from(child, path.skip(1), level + 1, total)
    } else {
        crumbs_from(node, path.skip(1), level + 1, total)
    }
}

/// Lists the parts of the way below the top.
pub fn crumbs(root: &FolderNode, path: &Vec<usize>) -> (r: Vec<Crumb>)
    ensures
        crumb_views(r@) == crumbs_from(*root, path@, 0, path.len() as int),
{
    let ghost all = crumbs_from(*root, path@, 0, path.len() as int);
    let mut out: Vec<Crumb> = Vec::new();
    let mut node: &FolderNode = root;
    let mut i: usize = 0;
    proof {
        assert(path@.skip(0) =~= path@);
        assert(crumb_views(out@) + all =~= all);
    }
    while i < path.len()
        invariant
            i <= path.len(),
            crumb_views(out@) + crumbs_from(
                *node,
                path@.skip(i as int),
                i as int,
                path.len() as int,
            ) == all,
        decreases path.len() - i,
    {
        assert(path@.skip(i as int)[0] == path@[i as int]);
        assert(path@.skip(i as int).skip(1) =~= path@.skip(i + 1));
        if path[i] < node.children.len() {
            let child = &node.children[path[i]];
            let c = Crumb { name: child.name.clone(), level: i + 1, is_last: i + 1 == path.len() };
            let ghost before = crumb_views(out@);
            out.push(c);
            assert(crumb_views(out@) =~= before.push(c@));
            assert(before + (seq![c@] + crumbs_from(
                *child,
                path@.skip(i + 1),
                i + 1,
                path.len() as int,
            )) =~= crumb_views(out@) + crumbs_from(
                *child,
                path@.skip(i + 1),
                i + 1,
                path.len() as int,
            ));
            node = child;
        }
        i += 1;
    }
    assert(crumb_views(out@) + Seq::<CrumbView>::empty() =~= crumb_views(out@));
    out
}

/// The sizes of the folders directly in `node`.
pub open spec fn child_sizes(node: FolderNode) -> Seq<i64> {
    node.children@.map_values(|c: FolderNode| c.size)
}

/// The sizes of the files directly in `node`.
pub open spec fn file_sizes(node: FolderNode) -> Seq<i64> {
    Seq::new(node.files@.len(), |i: int| node.files@[i].size)
}

/// The folders directly in `node`, by index, the largest first.
pub fn children_by_size(node: &FolderNode) -> (r: Vec<usize>)
    ensures
        is_order_of(r@, num_keys(child_sizes(*node)), true),
        is_permutation(r@, node.children@.len()),
{
    let mut sizes: Vec<i64> = Vec::new();
    let mut i: usize = 0;
    while i < node.children.len()
        invariant
            i <= node.children.len(),
            sizes.len() == i,
            forall|k: int| 0 <= k < i ==> #[trigger] sizes@[k] == node.children@[k].size,
        decreases node.children.len() - i,
    {
        sizes.push(node.children[i].size);
        i += 1;
    }
    assert(sizes@ =~= child_sizes(*node));
    order_by_number(&sizes, true)
}

/// The files directly in `node`, by index, the largest first.
pub fn files_by_size(node: &FolderNode) -> (r: Vec<usize>)
    ensures
        is_order_of(r@, num_keys(file_sizes(*node)), true),
        is_permutation(r@, node.files@.len()),
{
    let mut sizes: Vec<i64> = Vec::new();
    let mut i: usize = 0;
    while i < node.files.len()
        invariant
            i <= node.files.len(),
            sizes.len() == i,
            forall|k: int| 0 <= k < i ==> #[trigger] sizes@[k] == node.files@[k].size,
        decreases node.files.len() - i,
    {
        sizes.push(node.files[i].size);
        i += 1;
    }
    assert(sizes@ =~= file_sizes(*node));
    order_by_number(&sizes, true)
}

/// What stands between the parts of a status line.
pub open spec fn status_gap() -> Seq<char> {
    "    \u{B7}    "@
}

/// What the status line says of a folder.
pub open spec fn folder_status(node: FolderNode, base: int) -> Seq<char> {
    node.full_path@ + status_gap() + bytes_text(node.size as int, base) + status_gap() + decimal(
        node.file_count as int,
    ) + " files"@ + status_gap() + decimal(node.folder_count as int) + " folders"@
}

/// What the status line says: that a scan is under way, or what the current folder
/// amounts to, or that nothing was scanned yet.
pub fn status_line(scanning: bool, root: Option<&FolderNode>, path: &Vec<usize>, units: &Units) -> (r:
    String)
    ensures
        scanning ==> r@ == "Scanning\u{2026}"@,
        !scanning && root is None ==> r@ == "Ready"@,
        !scanning && root is Some ==> r@ == folder_status(
            folder_at(*root->0, path@),
            units.step(),
        ),
{
    if scanning {
        return "Scanning\u{2026}".to_owned();
    }
    match root {
        None => "Ready".to_owned(),
        Some(root) => {
            let n = node_at(root, path);
            let mut r = n.full_path.clone();
            r.append("    \u{B7}    ");
            r.append(format_bytes(n.size, units).as_str());
            r.append("    \u{B7}    ");
            push_decimal(&mut r, n.file_count);
            r.append(" files");
            r.append("    \u{B7}    ");
            push_decimal(&mut r, n.folder_count);
            r.append(" folders");
            r
        },
    }
}

/// What the heading of a folder says.
pub open spec fn folder_heading(node: FolderNode, base: int) -> Seq<char> {
    node.full_path@ + "  \u{B7}  "@ + bytes_text(node.size as int, base) + "  \u{B7}  "@ + decimal(
        node.file_count as int,
    ) + " files"@
}

pub fn heading(node: &FolderNode, units: &Units) -> (r: String)
    ensures
        r@ == folder_heading(*node, units.step()),
{
    let mut r = node.full_path.clone();
    r.append("  \u{B7}  ");
    r.append(format_bytes(node.size, units).as_str());
    r.append("  \u{B7}  ");
    push_decimal(&mut r, node.file_count);
    r.append(" files");
    r
}

/// The folder that a path box asks to scan: what was typed without the white space
/// around it, if anything is left.
pub fn typed_path(input: &str) -> (r: Option<String>)
    ensures
        r is Some <==> trimmed(input@).len() > 0,
        r is Some ==> r->0@ == trimmed(input@),
{
    let p = trim(input);
    if p.as_str().is_empty() {
        None
    } else {
        Some(p)
    }
}

/// The rest of a window's state.
#[derive(Debug)]
pub struct Browser {
    pub nav: Navigator,
    pub pane: Pane,
    pub search: String,
    /// A search that is to be made once the scan is done.
    pub pending_search: Option<String>,
    pub scanning: bool,
    /// The drive that was picked.
    pub selected: Option<usize>,
}

impl Browser {
    pub fn new(pending_search: Option<String>) -> (r: Self)
        ensures
            r.nav@ == (NavView { cur: Seq::empty(), back: Seq::empty(), fwd: Seq::empty() }),
            r.pane == Pane::Browse,
            r.search@.len() == 0,
            r.pending_search == pending_search,
            !r.scanning,
            r.selected is None,
    {
        Browser {
            nav: Navigator::new(),
            pane: Pane::Browse,
            search: String::new(),
            pending_search,
            scanning: false,
            selected: None,
        }
    }

    /// A scan begins, of the drive `selected` or of a folder.
    pub fn scan_begun(&mut self, selected: Option<usize>)
        ensures
            *final(self) == (Browser { scanning: true, selected, ..*old(self) }),
    {
        self.scanning = true;
        self.selected = selected;
    }

    /// A scan is done: the new tree is shown from its top, and the search that was
    /// waiting for it, if any, is made.
    pub fn scan_done(&mut self)
        ensures
            final(self).nav@ == (NavView {
                cur: Seq::empty(),
                back: Seq::empty(),
                fwd: Seq::empty(),
            }),
            final(self).pane == Pane::Browse,
            final(self).search@ == match old(self).pending_search {
                Some(s) => s@,
                None => Seq::empty(),
            },
            final(self).pending_search is None,
            !final(self).scanning,
            final(self).selected == old(self).selected,
    {
        self.nav = Navigator::new();
        self.pane = Pane::Browse;
        let mut waiting: Option<String> = None;
        std::mem::swap(&mut waiting, &mut self.pending_search);
        self.search = match waiting {
            Some(s) => s,
            None => String::new(),
        };
        self.scanning = false;
    }
}

/// What becomes of a screenshot that was asked for.
#[derive(Copy, Clone, Debug, PartialEq, Eq, Structural)]
pub enum ShotStep {
    /// The picture is there: save it and close.
    Save,
    /// Ask for the picture now.
    Request,
    /// It never came: close.
    GiveUp,
    Wait,
}

/// A picture is asked for once, not before the fourth frame nor during a scan; after
/// three hundred frames without one there is none.
pub fn shot_step(has_image: bool, requested: bool, scanning: bool, frame: u32) -> (r: ShotStep)
    ensures
        r == (if has_image {
            ShotStep::Save
        } else if !requested && !scanning && frame >= 4 {
            ShotStep::Request
        } else if frame > 300 {
            ShotStep::GiveUp
        } else {
            ShotStep::Wait
        }),
{
    if has_image {
        ShotStep::Save
    } else if !requested && !scanning && frame >= 4 {
        ShotStep::Request
    } else if frame > 300 {
        ShotStep::GiveUp
    } else {
        ShotStep::Wait
    }
}

// ---------------------------------------------------------------------- laws

/// Whether every index of `path` is that of a child.
pub open spec fn is_path(node: FolderNode, path: Seq<usize>) -> bool
    decreases path.len(),
{
    path.len() == 0 || (path[0] < node.children@.len() && is_path(
        node.children@[path[0] as int],
        path.skip(1),
    ))
}

proof fn lemma_child_at(node: FolderNode, path: Seq<usize>, i: usize)
    requires
        is_path(node, path),
        i < folder_at(node, path).children@.len(),
    ensures
        is_path(node, path.push(i)),
        folder_at(node, path.push(i)) == folder_at(node, path).children@[i as int],
    decreases path.len(),
{
    let more = path.push(i);
    if path.len() == 0 {
        assert(more.skip(1) =~= Seq::empty());
        assert(is_path(node.children@[i as int], more.skip(1)));
        assert(folder_at(node.children@[i as int], more.skip(1)) == node.children@[i as int]);
    } else {
        assert(more[0] == path[0]);
        assert(more.skip(1) =~= path.skip(1).push(i));
        lemma_child_at(node.children@[path[0] as int], path.skip(1), i);
    }
}

proof fn lemma_prefix_is_path(node: FolderNode, path: Seq<usize>, k: int)
    requires
        is_path(node, path),
        0 <= k <= path.len(),
    ensures
        is_path(node, path.take(k)),
        k < path.len() ==> path[k] < folder_at(node, path.take(k)).children@.len(),
        k < path.len() ==> folder_at(node, path.take(k + 1)) == folder_at(
            node,
            path.take(k),
        ).children@[path[k] as int],
    decreases k,
{
    if k == 0 {
        assert(path.take(0) =~= Seq::empty());
        if path.len() > 0 {
            let one = path.take(1);
            assert(one.skip(1) =~= Seq::empty());
            assert(folder_at(node.children@[path[0] as int], one.skip(1))
                == node.children@[path[0] as int]);
        }
    } else {
        let c = node.children@[path[0] as int];
        lemma_prefix_is_path(c, path.skip(1), k - 1);
        assert(path.take(k).skip(1) =~= path.skip(1).take(k - 1));
        if k < path.len() {
            assert(path.take(k + 1).skip(1) =~= path.skip(1).take(k));
            assert(path.skip(1)[k - 1] == path[k]);
        }
    }
}

/// Steps lead where they say: into a folder to that child of the current one, up to the
/// folder that the current one lies in, along the way to the folder that many levels below
/// the top. Each can be taken back.
pub proof fn law_steps_lead(root: FolderNode, n: NavView, i: usize, k: usize)
    requires
        is_path(root, n.cur),
    ensures
        ({
            let here = folder_at(root, n.cur);
            let into = stepped(n, NavAction::Drill(i));
            let up = stepped(n, NavAction::Up);
            let along = stepped(n, NavAction::Crumb(k));
            &&& i < here.children@.len() ==> folder_at(root, into.cur) == here.children@[i as int]
                && is_path(root, into.cur)
            &&& n.cur.len() > 0 ==> {
                &&& is_path(root, up.cur)
                &&& n.cur.last() < folder_at(root, up.cur).children@.len()
                &&& folder_at(root, up.cur).children@[n.cur.last() as int] == here
            }
            &&& n.cur.len() == 0 ==> up == n
            &&& k < n.cur.len() ==> along.cur.len() == k && is_path(root, along.cur) && along.cur
                == n.cur.take(k as int)
            &&& k >= n.cur.len() ==> along == n
        }),
{
    if i < folder_at(root, n.cur).children@.len() {
        lemma_child_at(root, n.cur, i);
    }
    if n.cur.len() > 0 {
        let last = n.cur.len() - 1;
        lemma_prefix_is_path(root, n.cur, last);
        assert(n.cur.drop_last() =~= n.cur.take(last));
        assert(n.cur.take(last + 1) =~= n.cur);
    }
    if k < n.cur.len() {
        lemma_prefix_is_path(root, n.cur, k as int);
    }
}

/// The parts of the way name the folders on it, from the one below the top to the current
/// one, and the step along the way to the level of a part leads to the folder that the
/// part names.
pub proof fn law_crumbs_name_the_way(root: FolderNode, path: Seq<usize>, level: int, total: int, k: int)
    requires
        is_path(root, path),
        0 <= k < path.len(),
        level + path.len() == total,
    ensures
        crumbs_from(root, path, level, total).len() == path.len(),
        crumbs_from(root, path, level, total)[k] == (CrumbView {
            name: folder_at(root, path.take(k + 1)).name@,
            level: level + k + 1,
            is_last: level + k + 1 == total,
        }),
    decreases path.len(),
{
    let c = root.children@[path[0] as int];
    let rest = path.skip(1);
    if rest.len() > 0 {
        law_crumbs_name_the_way(c, rest, level + 1, total, if k > 0 {
            k - 1
        } else {
            0
        });
    } else {
        assert(crumbs_from(c, rest, level + 1, total).len() == 0);
    }
    assert(path.take(k + 1).skip(1) =~= rest.take(k));
    if k == 0 {
        assert(rest.take(0) =~= Seq::empty());
        assert(folder_at(c, rest.take(0)) == c);
    } else {
        assert(crumbs_from(root, path, level, total)[k] == crumbs_from(c, rest, level + 1, total)[k - 1]);
    }
}

/// The folders of a folder are listed by size, the largest first, and so are its files;
/// all of them are, and each once.
pub proof fn law_listed_by_size(node: FolderNode, folders: Seq<usize>, files: Seq<usize>)
    requires
        is_order_of(folders, num_keys(child_sizes(node)), true),
        is_order_of(files, num_keys(file_sizes(node)), true),
        node.children@.len() <= usize::MAX,
        node.files@.len() <= usize::MAX,
    ensures
        folders.len() == node.children@.len(),
        forall|i: usize| (i as int) < node.children@.len() ==> #[trigger] folders.contains(i),
        forall|p: int, q: int|
            0 <= p < q < folders.len() ==> node.children@[#[trigger] folders[p] as int].size
                >= node.children@[#[trigger] folders[q] as int].size,
        files.len() == node.files@.len(),
        forall|i: usize| (i as int) < node.files@.len() ==> #[trigger] files.contains(i),
        forall|p: int, q: int|
            0 <= p < q < files.len() ==> node.files@[#[trigger] files[p] as int].size
                >= node.files@[#[trigger] files[q] as int].size,
{
    law_order_by_number(folders, child_sizes(node), true);
    law_order_by_number(files, file_sizes(node), true);
    assert forall|p: int, q: int| 0 <= p < q < folders.len() implies node.children@[
    #[trigger] folders[p] as int].size >= node.children@[#[trigger] folders[q] as int].size by {
        assert(child_sizes(node)[folders[p] as int] == node.children@[folders[p] as int].size);
        assert(child_sizes(node)[folders[q] as int] == node.children@[folders[q] as int].size);
    }
    assert forall|p: int, q: int| 0 <= p < q < files.len() implies node.files@[
    #[trigger] files[p] as int].size >= node.files@[#[trigger] files[q] as int].size by {
        assert(file_sizes(node)[files[p] as int] == node.files@[files[p] as int].size);
        assert(file_sizes(node)[files[q] as int] == node.files@[files[q] as int].size);
    }
}

/// A step that leads nowhere changes nothing: up from the top, back or forward where nothing
/// lies there, or to a part of the way that is not behind.
pub proof fn law_no_step_to_take(n: NavView, k: usize)
    ensures
        n.cur.len() == 0 ==> stepped(n, NavAction::Up) == n,
        n.back.len() == 0 ==> stepped(n, NavAction::Back) == n,
        n.fwd.len() == 0 ==> stepped(n, NavAction::Fwd) == n,
        k >= n.cur.len() ==> stepped(n, NavAction::Crumb(k)) == n,
{
}

/// A new step leaves nothing to go forward to.
pub proof fn law_new_steps_forget_forward(n: NavView, a: NavAction)
    requires
        a is Drill || (a is Up && n.cur.len() > 0) || (a is Crumb && a->Crumb_0 < n.cur.len()),
    ensures
        stepped(stepped(n, a), NavAction::Fwd) == stepped(n, a),
{
}

} // verus!
