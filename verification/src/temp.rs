//! Folders that hold only what can be thrown away, and the files in them.

use crate::inside::{folder_at, leads, lemma_way_into};
use crate::path::{join_path, joined, long_mark, starts_with};
use crate::sort::{
    is_order_of, law_order_is_permutation, num_keys, order_by_number, reorder, stands_before,
    KeyView,
};
use crate::text::{
    ascii_lowered, chars_of, skip_back, string_of, to_ascii_lowercase, trim_end_of,
};
use crate::types::{FileView, FolderNode, FolderView};
use vstd::prelude::*;

verus! {

/// What keeps its throwaway files in a folder.
#[derive(Copy, Clone, Debug, PartialEq, Eq, Hash, Structural)]
pub enum TempSource {
    UserTemp,
    WindowsTemp,
    ChromeCache,
    EdgeCache,
    FirefoxCache,
    WindowsOld,
}

impl TempSource {
    /// How a source is called.
    pub open spec fn title(self) -> Seq<char> {
        match self {
            TempSource::UserTemp => "User Temp"@,
            TempSource::WindowsTemp => "Windows Temp"@,
            TempSource::ChromeCache => "Chrome cache"@,
            TempSource::EdgeCache => "Edge cache"@,
            TempSource::FirefoxCache => "Firefox cache"@,
            TempSource::WindowsOld => "Windows.old"@,
        }
    }

    pub fn label(&self) -> (r: &'static str)
        ensures
            r@ == self.title(),
    {
        match self {
            TempSource::UserTemp => "User Temp",
            TempSource::WindowsTemp => "Windows Temp",
            TempSource::ChromeCache => "Chrome cache",
            TempSource::EdgeCache => "Edge cache",
            TempSource::FirefoxCache => "Firefox cache",
            TempSource::WindowsOld => "Windows.old",
        }
    }
}

/// A file that can be thrown away.
#[derive(Debug)]
pub struct TempFileEntry {
    pub full_path: String,
    pub size: i64,
    pub last_modified_ft: i64,
    pub source: TempSource,
}

pub struct TempFileView {
    pub full_path: Seq<char>,
    pub size: int,
    pub last_modified_ft: int,
    pub source: TempSource,
}

impl View for TempFileEntry {
    type V = TempFileView;

    open spec fn view(&self) -> TempFileView {
        TempFileView {
            full_path: self.full_path@,
            size: self.size as int,
            last_modified_ft: self.last_modified_ft as int,
            source: self.source,
        }
    }
}

pub open spec fn temp_views(v: Seq<TempFileEntry>) -> Seq<TempFileView> {
    v.map_values(|e: TempFileEntry| e@)
}

/// The file `file` of the folder `path`.
pub open spec fn temp_file(path: Seq<char>, file: FileView, source: TempSource) -> TempFileView {
    TempFileView {
        full_path: joined(path, file.name),
        size: file.size,
        last_modified_ft: file.last_modified_ft,
        source,
    }
}

/// All the files of a tree, those of a folder in front of those below it.
pub open spec fn collected(f: FolderView, source: TempSource) -> Seq<TempFileView>
    decreases f, f.children.len() + 1,
{
    f.files.map_values(|x: FileView| temp_file(f.full_path, x, source)) + collected_below(
        f,
        source,
        f.children.len() as int,
    )
}

/// All the files below the first `n` children of a folder.
pub open spec fn collected_below(f: FolderView, source: TempSource, n: int) -> Seq<TempFileView>
    decreases f, n,
{
    if n <= 0 || n > f.children.len() {
        Seq::empty()
    } else {
        collected_below(f, source, n - 1) + collected(f.children[n - 1], source)
    }
}

/// Appends all the files of a tree, with their full paths.
pub fn collect(node: &FolderNode, src: TempSource, out: &mut Vec<TempFileEntry>)
    ensures
        temp_views(final(out)@) == temp_views(old(out)@) + collected(node@, src),
    decreases node,
{
    let ghost before = temp_views(out@);
    let ghost f = node@;
    let ghost own = f.files.map_values(|x: FileView| temp_file(f.full_path, x, src));
    let mut i: usize = 0;
    assert(temp_views(out@) =~= before + own.take(0));
    while i < node.files.len()
        invariant
            i <= node.files.len(),
            f == node@,
            own == f.files.map_values(|x: FileView| temp_file(f.full_path, x, src)),
            temp_views(out@) == before + own.take(i as int),
        decreases node.files.len() - i,
    {
        let file = &node.files[i];
        assert(f.files[i as int] == file@);
        let e = TempFileEntry {
            full_path: join_path(node.full_path.as_str(), file.name.as_str()),
            size: file.size,
            last_modified_ft: file.last_modified_ft,
            source: src,
        };
        let ghost sofar = temp_views(out@);
        assert(own[i as int] == e@);
        out.push(e);
        i += 1;
        assert(temp_views(out@) =~= sofar.push(e@));
        assert(temp_views(out@) =~= before + own.take(i as int));
    }
    assert(own.take(own.len() as int) =~= own);
    let mut k: usize = 0;
    assert(temp_views(out@) =~= before + own + collected_below(f, src, 0));
    while k < node.children.len()
        invariant
            k <= node.children.len(),
            f == node@,
            temp_views(out@) == before + own + collected_below(f, src, k as int),
        decreases node.children.len() - k,
    {
        let child = &node.children[k];
        assert(f.children[k as int] == child@);
        collect(child, src, out);
        k += 1;
        assert(temp_views(out@) =~= before + own + collected_below(f, src, k as int));
    }
    assert(temp_views(out@) =~= before + collected(f, src));
}

/// A place that was scanned, with the tree that was found there, if any.
#[derive(Debug)]
pub struct LocationScan {
    pub source: TempSource,
    pub root: Option<FolderNode>,
}

/// All the files of the first `n` places; a place without a tree has none.
pub open spec fn gathered(scans: Seq<LocationScan>, n: int) -> Seq<TempFileView>
    decreases n,
{
    if n <= 0 {
        Seq::empty()
    } else {
        gathered(scans, n - 1) + match scans[n - 1].root {
            Some(root) => collected(root@, scans[n - 1].source),
            None => Seq::empty(),
        }
    }
}

/// What files are sorted by: their sizes.
pub open spec fn size_keys(files: Seq<TempFileView>) -> Seq<KeyView> {
    files.map_values(|e: TempFileView| KeyView { num: e.size, text: Seq::empty() })
}

/// Whether `r` is `files` from the largest to the smallest, equally large ones in
/// the order they came in.
pub open spec fn is_largest_first(r: Seq<TempFileView>, files: Seq<TempFileView>) -> bool {
    exists|order: Seq<usize>| #[trigger]
        is_order_of(order, size_keys(files), true) && r == order.map_values(
            |i: usize| files[i as int],
        )
}

/// Makes one list, largest file first, of all that was found in the places scanned.
pub fn scan_locations(scans: &Vec<LocationScan>) -> (r: Vec<TempFileEntry>)
    ensures
        is_largest_first(temp_views(r@), gathered(scans@, scans.len() as int)),
{
    let mut out: Vec<TempFileEntry> = Vec::new();
    let mut i: usize = 0;
    assert(temp_views(out@) =~= gathered(scans@, 0));
    while i < scans.len()
        invariant
            i <= scans.len(),
            temp_views(out@) == gathered(scans@, i as int),
        decreases scans.len() - i,
    {
        let ghost before = temp_views(out@);
        match &scans[i].root {
            Some(root) => {
                collect(root, scans[i].source, &mut out);
            },
            None => {},
        }
        i += 1;
        assert(temp_views(out@) =~= gathered(scans@, i as int));
    }
    largest_first(out)
}

/// Sorts files from the largest to the smallest.
fn largest_first(files: Vec<TempFileEntry>) -> (r: Vec<TempFileEntry>)
    ensures
        is_largest_first(temp_views(r@), temp_views(files@)),
{
    let mut sizes: Vec<i64> = Vec::new();
    let mut i: usize = 0;
    while i < files.len()
        invariant
            i <= files.len(),
            sizes.len() == i,
            forall|k: int| 0 <= k < i ==> #[trigger] sizes@[k] == files@[k].size,
        decreases files.len() - i,
    {
        sizes.push(files[i].size);
        i += 1;
    }
    assert(num_keys(sizes@) =~= size_keys(temp_views(files@)));
    let order = order_by_number(&sizes, true);
    let ghost all = temp_views(files@);
    let r = reorder(files, &order);
    assert(temp_views(r@) =~= order@.map_values(|i: usize| all[i as int]));
    r
}

// ------------------------------------------------------------------- the places

/// What the environment says of where throwaway files are kept.
#[derive(Debug)]
pub struct TempEnv {
    /// `TEMP`
    pub temp: Option<String>,
    /// `LOCALAPPDATA`
    pub local_app_data: Option<String>,
    /// `WINDIR`
    pub windir: Option<String>,
    /// The cache folders of all Firefox profiles.
    pub firefox_caches: Vec<String>,
    /// `SystemDrive`
    pub system_drive: Option<String>,
}

/// A place where throwaway files may be kept.
#[derive(Debug)]
pub struct TempPlace {
    pub source: TempSource,
    pub path: String,
}

pub struct PlaceView {
    pub source: TempSource,
    pub path: Seq<char>,
}

impl View for TempPlace {
    type V = PlaceView;

    open spec fn view(&self) -> PlaceView {
        PlaceView { source: self.source, path: self.path@ }
    }
}

pub open spec fn place_views(v: Seq<TempPlace>) -> Seq<PlaceView> {
    v.map_values(|p: TempPlace| p@)
}

/// The place `below` in a folder of the environment, where that is known.
pub open spec fn place_in(source: TempSource, folder: Option<String>, below: Seq<char>) -> Seq<
    PlaceView,
> {
    match folder {
        Some(f) => seq![PlaceView { source, path: f@ + below }],
        None => Seq::empty(),
    }
}

/// The places to look at, in order. The Firefox caches count only where the
/// folder they lie in is known.
pub open spec fn places_of(env: TempEnv) -> Seq<PlaceView> {
    place_in(TempSource::UserTemp, env.temp, ""@) + place_in(
        TempSource::UserTemp,
        env.local_app_data,
        "\\Temp"@,
    ) + place_in(TempSource::WindowsTemp, env.windir, "\\Temp"@) + place_in(
        TempSource::ChromeCache,
        env.local_app_data,
        "\\Google\\Chrome\\User Data\\Default\\Cache"@,
    ) + place_in(
        TempSource::EdgeCache,
        env.local_app_data,
        "\\Microsoft\\Edge\\User Data\\Default\\Cache"@,
    ) + (if env.local_app_data is Some {
        env.firefox_caches@.map_values(
            |p: String| PlaceView { source: TempSource::FirefoxCache, path: p@ },
        )
    } else {
        Seq::empty()
    }) + place_in(TempSource::WindowsOld, env.system_drive, "\\Windows.old"@)
}

fn push_place(out: &mut Vec<TempPlace>, source: TempSource, folder: &Option<String>, below: &str)
    ensures
        place_views(final(out)@) == place_views(old(out)@) + place_in(source, *folder, below@),
{
    let ghost before = place_views(out@);
    match folder {
        Some(f) => {
            let mut path = f.clone();
            path.append(below);
            let p = TempPlace { source, path };
            out.push(p);
            assert(place_views(out@) =~= before.push(p@));
            assert(place_views(out@) =~= before + place_in(source, *folder, below@));
        },
        None => {
            assert(place_views(out@) =~= before + place_in(source, *folder, below@));
        },
    }
}

/// Lists the places to look at.
pub fn candidate_places(env: &TempEnv) -> (r: Vec<TempPlace>)
    ensures
        place_views(r@) == places_of(*env),
{
    let mut out: Vec<TempPlace> = Vec::new();
    assert(place_views(out@) =~= Seq::empty());
    push_place(&mut out, TempSource::UserTemp, &env.temp, "");
    push_place(&mut out, TempSource::UserTemp, &env.local_app_data, "\\Temp");
    push_place(&mut out, TempSource::WindowsTemp, &env.windir, "\\Temp");
    push_place(
        &mut out,
        TempSource::ChromeCache,
        &env.local_app_data,
        "\\Google\\Chrome\\User Data\\Default\\Cache",
    );
    push_place(
        &mut out,
        TempSource::EdgeCache,
        &env.local_app_data,
        "\\Microsoft\\Edge\\User Data\\Default\\Cache",
    );
    let ghost before = place_views(out@);
    if let Some(_) = &env.local_app_data {
        let ghost caches = env.firefox_caches@.map_values(
            |p: String| PlaceView { source: TempSource::FirefoxCache, path: p@ },
        );
        let mut i: usize = 0;
        assert(place_views(out@) =~= before + caches.take(0));
        while i < env.firefox_caches.len()
            invariant
                i <= env.firefox_caches.len(),
                caches == env.firefox_caches@.map_values(
                    |p: String| PlaceView { source: TempSource::FirefoxCache, path: p@ },
                ),
                place_views(out@) == before + caches.take(i as int),
            decreases env.firefox_caches.len() - i,
        {
            let p = TempPlace {
                source: TempSource::FirefoxCache,
                path: env.firefox_caches[i].clone(),
            };
            let ghost sofar = place_views(out@);
            out.push(p);
            assert(caches[i as int] == p@);
            i += 1;
            assert(place_views(out@) =~= sofar.push(p@));
            assert(place_views(out@) =~= before + caches.take(i as int));
        }
        assert(caches.take(caches.len() as int) =~= caches);
    } else {
        assert(before + Seq::<PlaceView>::empty() =~= before);
    }
    push_place(&mut out, TempSource::WindowsOld, &env.system_drive, "\\Windows.old");
    assert(place_views(out@) =~= places_of(*env));
    out
}

/// Whether a resolved path leads to a server: `\\?\UNC\server\..`.
pub open spec fn is_network_path(p: Seq<char>) -> bool {
    &&& p.len() > 8
    &&& starts_with(p, network_mark())
    &&& p[8] != '\\' && p[8] != '?'
}

/// The mark of a resolved path that leads to a server.
pub open spec fn network_mark() -> Seq<char> {
    seq!['\\', '\\', '?', '\\', 'U', 'N', 'C', '\\']
}

/// Whether a resolved path leads to a drive: `\\?\C:..`.
pub open spec fn is_drive_path(p: Seq<char>) -> bool {
    p.len() >= 6 && starts_with(p, long_mark()) && p[5] == ':'
}

/// A resolved path as it is shown: without the long-path mark of a drive or a server in
/// front, and without backslashes at the end.
pub open spec fn display_path(p: Seq<char>) -> Seq<char> {
    if is_network_path(p) {
        seq!['\\', '\\'] + trim_end_of(p.skip(8), '\\')
    } else if is_drive_path(p) {
        trim_end_of(p.skip(4), '\\')
    } else {
        trim_end_of(p, '\\')
    }
}

/// The resolved form of a path that is shown.
pub open spec fn resolved_form(shown: Seq<char>) -> Seq<char> {
    if starts_with(shown, long_mark()) {
        shown
    } else if starts_with(shown, seq!['\\', '\\']) {
        network_mark() + shown.skip(2)
    } else {
        long_mark() + shown
    }
}

/// Whether a path that is shown names a resolved folder: it is that path, but for
/// backslashes at its end, or what that path is without its mark.
pub open spec fn names_folder(shown: Seq<char>, resolved: Seq<char>) -> bool {
    let bare = trim_end_of(resolved, '\\');
    shown == bare || resolved_form(shown) == bare
}

fn has_long_mark(cs: &Vec<char>) -> (r: bool)
    ensures
        r == starts_with(cs@, long_mark()),
{
    let r = cs.len() >= 4 && cs[0] == '\\' && cs[1] == '\\' && cs[2] == '?' && cs[3] == '\\';
    proof {
        if r {
            assert(cs@.take(4) =~= long_mark());
        } else if starts_with(cs@, long_mark()) {
            let t = cs@.take(4);
            assert(t[0] == cs@[0] && t[1] == cs@[1] && t[2] == cs@[2] && t[3] == cs@[3]);
        }
    }
    r
}

fn has_network_mark(cs: &Vec<char>) -> (r: bool)
    ensures
        r == starts_with(cs@, network_mark()),
{
    let r = cs.len() >= 8 && has_long_mark(cs) && cs[4] == 'U' && cs[5] == 'N' && cs[6] == 'C'
        && cs[7] == '\\';
    proof {
        let m = network_mark();
        if r {
            let t = cs@.take(4);
            assert(t[0] == cs@[0] && t[1] == cs@[1] && t[2] == cs@[2] && t[3] == cs@[3]);
            assert(cs@.take(8) =~= m);
        } else if starts_with(cs@, m) {
            let t = cs@.take(8);
            assert(forall|i: int| 0 <= i < 8 ==> t[i] == #[trigger] cs@[i]);
            assert(cs@.take(4) =~= long_mark());
        }
    }
    r
}

/// `cs` from `from` on, without backslashes at the end.
fn bare_from(cs: &Vec<char>, from: usize) -> (r: String)
    requires
        from <= cs.len(),
    ensures
        r@ == trim_end_of(cs@.skip(from as int), '\\'),
{
    let rest = string_of(cs, from, cs.len());
    let ds = chars_of(rest.as_str());
    assert(ds@ =~= cs@.skip(from as int));
    let k: usize = skip_back(&ds, ds.len(), '\\');
    assert(ds@.take(ds.len() as int) =~= ds@);
    assert(ds@.subrange(0, k as int) =~= ds@.take(k as int));
    string_of(&ds, 0, k)
}

fn path_to_display(p: &str) -> (r: String)
    ensures
        r@ == display_path(p@),
{
    let cs = chars_of(p);
    let n: usize = cs.len();
    assert(cs@.skip(0) =~= p@);
    if n > 8 && has_network_mark(&cs) && cs[8] != '\\' && cs[8] != '?' {
        let mut r = "\\\\".to_owned();
        r.append(bare_from(&cs, 8).as_str());
        proof {
            reveal_strlit("\\\\");
            assert(r@ =~= display_path(p@));
        }
        r
    } else if n >= 6 && has_long_mark(&cs) && cs[5] == ':' {
        bare_from(&cs, 4)
    } else {
        bare_from(&cs, 0)
    }
}

proof fn lemma_trim_behind(a: Seq<char>, q: Seq<char>, c: char)
    requires
        trim_end_of(q, c).len() > 0,
    ensures
        trim_end_of(a + q, c) == a + trim_end_of(q, c),
    decreases q.len(),
{
    assert((a + q).last() == q.last());
    if q.last() == c {
        assert((a + q).drop_last() =~= a + q.drop_last());
        lemma_trim_behind(a, q.drop_last(), c);
    }
}

proof fn lemma_trim_keeps(q: Seq<char>, c: char, i: int)
    requires
        0 <= i < q.len(),
        q[i] != c,
    ensures
        trim_end_of(q, c).len() > i,
        forall|j: int| 0 <= j <= i ==> #[trigger] trim_end_of(q, c)[j] == q[j],
    decreases q.len(),
{
    if q.last() == c {
        lemma_trim_keeps(q.drop_last(), c, i);
    }
}

/// What is shown of a resolved folder names that folder.
pub proof fn law_display_names_folder(p: Seq<char>)
    ensures
        names_folder(display_path(p), p),
{
    let shown = display_path(p);
    if is_network_path(p) {
        let q = p.skip(8);
        assert(p =~= network_mark() + q) by {
            assert(p.take(8) + q =~= p);
        }
        lemma_trim_keeps(q, '\\', 0);
        lemma_trim_behind(network_mark(), q, '\\');
        let t = trim_end_of(q, '\\');
        assert(shown.take(2) =~= seq!['\\', '\\']);
        assert(shown.skip(2) =~= t);
        assert(!starts_with(shown, long_mark())) by {
            if starts_with(shown, long_mark()) {
                assert(shown.take(4)[2] == shown[2]);
                assert(shown[2] == t[0] && t[0] == q[0] && q[0] == p[8]);
            }
        }
    } else if is_drive_path(p) {
        let q = p.skip(4);
        assert(p =~= long_mark() + q) by {
            assert(p.take(4) + q =~= p);
        }
        assert(q[1] == ':');
        lemma_trim_keeps(q, '\\', 1);
        lemma_trim_behind(long_mark(), q, '\\');
        assert(shown[1] == ':');
        if starts_with(shown, long_mark()) {
            assert(shown.take(4)[1] == shown[1]);
        }
        if starts_with(shown, seq!['\\', '\\']) {
            assert(shown.take(2)[1] == shown[1]);
        }
    }
}

/// Whether one of `places` is the same folder as `path`, whatever the case of its
/// letters.
pub open spec fn is_listed(places: Seq<PlaceView>, path: Seq<char>) -> bool {
    exists|i: int|
        0 <= i < places.len() && ascii_lowered((#[trigger] places[i]).path) == ascii_lowered(path)
}

/// The places that are kept of the first `n`, `resolved` giving the folder that
/// each leads to, where it leads to one: the first of every folder.
pub open spec fn kept_places(
    places: Seq<PlaceView>,
    resolved: Seq<Option<Seq<char>>>,
    n: int,
) -> Seq<PlaceView>
    decreases n,
{
    if n <= 0 {
        Seq::empty()
    } else {
        let kept = kept_places(places, resolved, n - 1);
        if places[n - 1].path.len() > 0 && resolved[n - 1] is Some && !is_listed(
            kept,
            display_path(resolved[n - 1]->0),
        ) {
            kept.push(
                PlaceView {
                    source: places[n - 1].source,
                    path: display_path(resolved[n - 1]->0),
                },
            )
        } else {
            kept
        }
    }
}

pub open spec fn resolved_views(v: Seq<Option<String>>) -> Seq<Option<Seq<char>>> {
    v.map_values(
        |r: Option<String>|
            match r {
                Some(s) => Some(s@),
                None => None,
            },
    )
}

fn is_place_listed(places: &Vec<TempPlace>, path: &str) -> (r: bool)
    ensures
        r == is_listed(place_views(places@), path@),
{
    let low = to_ascii_lowercase(path);
    let mut i: usize = 0;
    while i < places.len()
        invariant
            i <= places.len(),
            low@ == ascii_lowered(path@),
            forall|j: int|
                0 <= j < i ==> ascii_lowered((#[trigger] place_views(places@)[j]).path)
                    != ascii_lowered(path@),
        decreases places.len() - i,
    {
        let other = to_ascii_lowercase(places[i].path.as_str());
        assert(place_views(places@)[i as int] == places@[i as int]@);
        if other == low {
            return true;
        }
        i += 1;
    }
    false
}

/// The folders to scan: of every candidate that leads to a folder, the folder as it
/// is shown, each once. `resolved` holds what each candidate leads to.
pub fn discover_locations(places: &Vec<TempPlace>, resolved: &Vec<Option<String>>) -> (r: Vec<
    TempPlace,
>)
    requires
        places.len() == resolved.len(),
    ensures
        place_views(r@) == kept_places(
            place_views(places@),
            resolved_views(resolved@),
            places.len() as int,
        ),
{
    let ghost ps = place_views(places@);
    let ghost rs = resolved_views(resolved@);
    let mut out: Vec<TempPlace> = Vec::new();
    let mut i: usize = 0;
    assert(place_views(out@) =~= Seq::empty());
    while i < places.len()
        invariant
            i <= places.len(),
            places.len() == resolved.len(),
            ps == place_views(places@),
            rs == resolved_views(resolved@),
            place_views(out@) == kept_places(ps, rs, i as int),
        decreases places.len() - i,
    {
        assert(ps[i as int] == places@[i as int]@);
        if !places[i].path.as_str().is_empty() {
            if let Some(p) = &resolved[i] {
                assert(rs[i as int] == Some(p@));
                let shown = path_to_display(p.as_str());
                if !is_place_listed(&out, shown.as_str()) {
                    let ghost before = place_views(out@);
                    let place = TempPlace { source: places[i].source, path: shown };
                    out.push(place);
                    assert(place_views(out@) =~= before.push(place@));
                }
            }
        }
        i += 1;
    }
    out
}

/// No folder is listed twice, whatever the case of its letters.
pub proof fn law_places_deduped(
    places: Seq<PlaceView>,
    resolved: Seq<Option<Seq<char>>>,
    n: int,
    i: int,
    j: int,
)
    requires
        0 <= i < j < kept_places(places, resolved, n).len(),
    ensures
        ascii_lowered(kept_places(places, resolved, n)[i].path) != ascii_lowered(
            kept_places(places, resolved, n)[j].path,
        ),
    decreases n,
{
    if n > 0 {
        let kept = kept_places(places, resolved, n - 1);
        if j < kept.len() {
            law_places_deduped(places, resolved, n - 1, i, j);
        }
    }
}

/// Only folders that are there are listed: every path names the folder that a candidate
/// leads to, and is listed as what that candidate is. A candidate without a path leads
/// nowhere.
pub proof fn law_places_exist(
    places: Seq<PlaceView>,
    resolved: Seq<Option<Seq<char>>>,
    n: int,
    i: int,
)
    requires
        0 <= n,
        0 <= i < kept_places(places, resolved, n).len(),
    ensures
        exists|k: int|
            0 <= k < n && #[trigger] resolved[k] is Some && names_folder(
                kept_places(places, resolved, n)[i].path,
                resolved[k]->0,
            ) && kept_places(places, resolved, n)[i].source == places[k].source
                && places[k].path.len() > 0,
    decreases n,
{
    if n > 0 {
        let kept = kept_places(places, resolved, n - 1);
        if i < kept.len() {
            law_places_exist(places, resolved, n - 1, i);
        } else {
            assert(resolved[n - 1] is Some);
            law_display_names_folder(resolved[n - 1]->0);
        }
    }
}

/// Whether `path` is the folder of the environment with `below` behind it, which begins
/// with a backslash: it lies in that folder, and is not that folder.
pub open spec fn lies_below(path: Seq<char>, folder: Option<String>, below: Seq<char>) -> bool {
    match folder {
        Some(f) => {
            &&& path.len() > f@.len()
            &&& path.take(f@.len() as int) == f@
            &&& path[f@.len() as int] == '\\'
            &&& path.skip(f@.len() as int) == below
        },
        None => false,
    }
}

/// Every candidate is a folder that its source keeps throwaway files in, and no other:
/// `TEMP` itself, a cache of Firefox, or the known folder of the source strictly below the
/// folder of the environment that it comes from.
pub proof fn law_only_throwaway_places(env: TempEnv, i: int)
    requires
        0 <= i < places_of(env).len(),
    ensures
        ({
            let p = places_of(env)[i];
            match p.source {
                TempSource::UserTemp => (env.temp is Some && p.path == env.temp->0@) || lies_below(
                    p.path,
                    env.local_app_data,
                    "\\Temp"@,
                ),
                TempSource::WindowsTemp => lies_below(p.path, env.windir, "\\Temp"@),
                TempSource::ChromeCache => lies_below(
                    p.path,
                    env.local_app_data,
                    "\\Google\\Chrome\\User Data\\Default\\Cache"@,
                ),
                TempSource::EdgeCache => lies_below(
                    p.path,
                    env.local_app_data,
                    "\\Microsoft\\Edge\\User Data\\Default\\Cache"@,
                ),
                TempSource::FirefoxCache => env.local_app_data is Some && exists|k: int|
                    0 <= k < env.firefox_caches@.len() && p.path == (
                    #[trigger] env.firefox_caches@[k])@,
                TempSource::WindowsOld => lies_below(p.path, env.system_drive, "\\Windows.old"@),
            }
        }),
{
    lemma_tails_begin();
    let a = place_in(TempSource::UserTemp, env.temp, ""@);
    let b = place_in(TempSource::UserTemp, env.local_app_data, "\\Temp"@);
    let c = place_in(TempSource::WindowsTemp, env.windir, "\\Temp"@);
    let d = place_in(
        TempSource::ChromeCache,
        env.local_app_data,
        "\\Google\\Chrome\\User Data\\Default\\Cache"@,
    );
    let e = place_in(
        TempSource::EdgeCache,
        env.local_app_data,
        "\\Microsoft\\Edge\\User Data\\Default\\Cache"@,
    );
    let g = if env.local_app_data is Some {
        env.firefox_caches@.map_values(
            |p: String| PlaceView { source: TempSource::FirefoxCache, path: p@ },
        )
    } else {
        Seq::empty()
    };
    let h = place_in(TempSource::WindowsOld, env.system_drive, "\\Windows.old"@);
    assert(places_of(env) == a + b + c + d + e + g + h);
    let p = places_of(env)[i];
    let (na, nb) = (a.len() as int, (a.len() + b.len()) as int);
    let (nc, nd): (int, int) = (nb + c.len(), nb + c.len() + d.len());
    let ne = nd + e.len();
    let ng = ne + g.len();
    if i < na {
        assert(p == a[i]);
        assert(p.path =~= env.temp->0@);
    } else if i < nb {
        assert(p == b[i - na]);
        lemma_below(TempSource::UserTemp, env.local_app_data, "\\Temp"@);
    } else if i < nc {
        assert(p == c[i - nb]);
        lemma_below(TempSource::WindowsTemp, env.windir, "\\Temp"@);
    } else if i < nd {
        assert(p == d[i - nc]);
        lemma_below(
            TempSource::ChromeCache,
            env.local_app_data,
            "\\Google\\Chrome\\User Data\\Default\\Cache"@,
        );
    } else if i < ne {
        assert(p == e[i - nd]);
        lemma_below(
            TempSource::EdgeCache,
            env.local_app_data,
            "\\Microsoft\\Edge\\User Data\\Default\\Cache"@,
        );
    } else if i < ng {
        assert(p == g[i - ne]);
        assert(p.path == env.firefox_caches@[i - ne]@);
    } else {
        assert(p == h[i - ng]);
        lemma_below(TempSource::WindowsOld, env.system_drive, "\\Windows.old"@);
    }
}

proof fn lemma_tails_begin()
    ensures
        ""@.len() == 0,
        "\\Temp"@.len() > 0 && "\\Temp"@[0] == '\\',
        ({
            let t = "\\Google\\Chrome\\User Data\\Default\\Cache"@;
            t.len() > 0 && t[0] == '\\'
        }),
        ({
            let t = "\\Microsoft\\Edge\\User Data\\Default\\Cache"@;
            t.len() > 0 && t[0] == '\\'
        }),
        "\\Windows.old"@.len() > 0 && "\\Windows.old"@[0] == '\\',
{
    reveal_strlit("");
    reveal_strlit("\\Temp");
    reveal_strlit("\\Google\\Chrome\\User Data\\Default\\Cache");
    reveal_strlit("\\Microsoft\\Edge\\User Data\\Default\\Cache");
    reveal_strlit("\\Windows.old");
}

proof fn lemma_below(source: TempSource, folder: Option<String>, below: Seq<char>)
    requires
        below.len() > 0,
        below[0] == '\\',
    ensures
        forall|i: int|
            0 <= i < place_in(source, folder, below).len() ==> lies_below(
                (#[trigger] place_in(source, folder, below)[i]).path,
                folder,
                below,
            ) && place_in(source, folder, below)[i].source == source,
{
    if let Some(f) = folder {
        let path = f@ + below;
        assert(path.take(f@.len() as int) =~= f@);
        assert(path.skip(f@.len() as int) =~= below);
    }
}

/// Whether `source` at `path` is among `places`.
pub open spec fn has_place(places: Seq<PlaceView>, source: TempSource, path: Seq<char>) -> bool {
    exists|i: int|
        0 <= i < places.len() && #[trigger] places[i] == (PlaceView { source, path })
}

/// No known place is left out: every folder of the environment that is set brings its
/// candidates.
pub proof fn law_all_throwaway_places(env: TempEnv)
    ensures
        ({
            let all = places_of(env);
            &&& env.temp is Some ==> has_place(all, TempSource::UserTemp, env.temp->0@)
            &&& env.windir is Some ==> has_place(
                all,
                TempSource::WindowsTemp,
                env.windir->0@ + "\\Temp"@,
            )
            &&& env.system_drive is Some ==> has_place(
                all,
                TempSource::WindowsOld,
                env.system_drive->0@ + "\\Windows.old"@,
            )
            &&& env.local_app_data is Some ==> {
                let local = env.local_app_data->0@;
                &&& has_place(all, TempSource::UserTemp, local + "\\Temp"@)
                &&& has_place(
                    all,
                    TempSource::ChromeCache,
                    local + "\\Google\\Chrome\\User Data\\Default\\Cache"@,
                )
                &&& has_place(
                    all,
                    TempSource::EdgeCache,
                    local + "\\Microsoft\\Edge\\User Data\\Default\\Cache"@,
                )
                &&& forall|k: int|
                    0 <= k < env.firefox_caches@.len() ==> has_place(
                        all,
                        TempSource::FirefoxCache,
                        (#[trigger] env.firefox_caches@[k])@,
                    )
            }
        }),
{
    lemma_tails_begin();
    let a = place_in(TempSource::UserTemp, env.temp, ""@);
    let b = place_in(TempSource::UserTemp, env.local_app_data, "\\Temp"@);
    let c = place_in(TempSource::WindowsTemp, env.windir, "\\Temp"@);
    let d = place_in(
        TempSource::ChromeCache,
        env.local_app_data,
        "\\Google\\Chrome\\User Data\\Default\\Cache"@,
    );
    let e = place_in(
        TempSource::EdgeCache,
        env.local_app_data,
        "\\Microsoft\\Edge\\User Data\\Default\\Cache"@,
    );
    let g = if env.local_app_data is Some {
        env.firefox_caches@.map_values(
            |p: String| PlaceView { source: TempSource::FirefoxCache, path: p@ },
        )
    } else {
        Seq::empty()
    };
    let h = place_in(TempSource::WindowsOld, env.system_drive, "\\Windows.old"@);
    let all = places_of(env);
    assert(all == a + b + c + d + e + g + h);
    let (na, nb) = (a.len() as int, (a.len() + b.len()) as int);
    let (nc, nd): (int, int) = (nb + c.len(), nb + c.len() + d.len());
    let ne = nd + e.len();
    let ng = ne + g.len();
    if env.temp is Some {
        assert(all[0] == a[0]);
        assert(a[0].path =~= env.temp->0@);
    }
    if env.windir is Some {
        assert(all[nb] == c[0]);
    }
    if env.system_drive is Some {
        assert(all[ng] == h[0]);
    }
    if env.local_app_data is Some {
        assert(all[na] == b[0]);
        assert(all[nc] == d[0]);
        assert(all[nd] == e[0]);
        assert forall|k: int| 0 <= k < env.firefox_caches@.len() implies has_place(
            all,
            TempSource::FirefoxCache,
            (#[trigger] env.firefox_caches@[k])@,
        ) by {
            assert(all[ne + k] == g[k]);
        }
    }
}

/// Every candidate that leads to a folder is represented: that folder is listed, under
/// the source of the first candidate that leads to it.
pub proof fn law_places_are_kept(
    places: Seq<PlaceView>,
    resolved: Seq<Option<Seq<char>>>,
    n: int,
    k: int,
)
    requires
        0 <= k < n,
        places[k].path.len() > 0,
        resolved[k] is Some,
    ensures
        is_listed(kept_places(places, resolved, n), display_path(resolved[k]->0)),
        !is_listed(kept_places(places, resolved, k), display_path(resolved[k]->0)) ==> has_place(
            kept_places(places, resolved, n),
            places[k].source,
            display_path(resolved[k]->0),
        ),
    decreases n,
{
    let now = kept_places(places, resolved, n);
    let before = kept_places(places, resolved, n - 1);
    let shown = display_path(resolved[k]->0);
    if k < n - 1 {
        law_places_are_kept(places, resolved, n - 1, k);
        let i = choose|i: int|
            0 <= i < before.len() && ascii_lowered((#[trigger] before[i]).path) == ascii_lowered(
                shown,
            );
        assert(now[i] == before[i]);
        if has_place(before, places[k].source, shown) {
            let j = choose|j: int|
                0 <= j < before.len() && #[trigger] before[j] == (PlaceView {
                    source: places[k].source,
                    path: shown,
                });
            assert(now[j] == before[j]);
        }
    } else if is_listed(before, shown) {
        let i = choose|i: int|
            0 <= i < before.len() && ascii_lowered((#[trigger] before[i]).path) == ascii_lowered(
                shown,
            );
        assert(now[i] == before[i]);
    } else {
        assert(now[before.len() as int].path == shown);
    }
}

// -------------------------------------------------------------------- the files

/// Whether `x` is file `i` of the folder that `way` leads to in the tree `f`.
pub open spec fn is_file_of(
    f: FolderView,
    source: TempSource,
    way: Seq<int>,
    i: int,
    x: TempFileView,
) -> bool {
    let d = folder_at(f, way);
    &&& leads(f, way)
    &&& 0 <= i < d.files.len()
    &&& x.full_path == joined(d.full_path, d.files[i].name)
    &&& x.size == d.files[i].size
    &&& x.last_modified_ft == d.files[i].last_modified_ft
    &&& x.source == source
}

/// Whether `x` is any file of the tree `f`.
pub open spec fn is_in_tree(f: FolderView, source: TempSource, x: TempFileView) -> bool {
    exists|way: Seq<int>, i: int| is_file_of(f, source, way, i, x)
}

/// How many files a tree lists.
pub open spec fn files_listed(f: FolderView, n: int) -> nat
    decreases f, n,
{
    if n < 0 || n > f.children.len() {
        0
    } else if n == 0 {
        f.files.len()
    } else {
        files_listed(f, n - 1) + files_listed(
            f.children[n - 1],
            f.children[n - 1].children.len() as int,
        )
    }
}

/// Everything is collected: every file of a tree, in whatever folder, with its full path,
/// its size and its time.
pub proof fn law_every_file_is_collected(
    f: FolderView,
    source: TempSource,
    way: Seq<int>,
    i: int,
    x: TempFileView,
)
    requires
        is_file_of(f, source, way, i, x),
    ensures
        collected(f, source).contains(x),
    decreases way.len(),
{
    let own = f.files.map_values(|x: FileView| temp_file(f.full_path, x, source));
    let n = f.children.len() as int;
    let all = collected(f, source);
    if way.len() == 0 {
        assert(own[i] == x);
        assert(all[i] == x);
    } else {
        law_every_file_is_collected(f.children[way[0]], source, way.skip(1), i, x);
        lemma_collected_from(f, source, way[0], n, x);
        let below = collected_below(f, source, n);
        let k = choose|k: int| 0 <= k < below.len() && below[k] == x;
        assert(all[own.len() + k] == x);
    }
}

proof fn lemma_collected_from(f: FolderView, source: TempSource, c: int, n: int, x: TempFileView)
    requires
        0 <= c < n <= f.children.len(),
        collected(f.children[c], source).contains(x),
    ensures
        collected_below(f, source, n).contains(x),
    decreases n,
{
    let now = collected_below(f, source, n);
    let before = collected_below(f, source, n - 1);
    if c < n - 1 {
        lemma_collected_from(f, source, c, n - 1, x);
        let k = choose|k: int| 0 <= k < before.len() && before[k] == x;
        assert(now[k] == x);
    } else {
        let mine = collected(f.children[c], source);
        let k = choose|k: int| 0 <= k < mine.len() && mine[k] == x;
        assert(now[before.len() + k] == x);
    }
}

/// Nothing else is collected, and nothing twice.
pub proof fn law_only_files_are_collected(f: FolderView, source: TempSource)
    ensures
        forall|x: TempFileView| #[trigger]
            collected(f, source).contains(x) ==> is_in_tree(f, source, x),
        collected(f, source).len() == files_listed(f, f.children.len() as int),
    decreases f, f.children.len() + 1,
{
    let own = f.files.map_values(|x: FileView| temp_file(f.full_path, x, source));
    let n = f.children.len() as int;
    let all = collected(f, source);
    let below = collected_below(f, source, n);
    lemma_only_below(f, source, n);
    assert forall|x: TempFileView| #[trigger] all.contains(x) implies is_in_tree(f, source, x) by {
        let k = choose|k: int| 0 <= k < all.len() && all[k] == x;
        if k < own.len() {
            assert(all[k] == own[k]);
            assert(is_file_of(f, source, Seq::empty(), k, x));
        } else {
            assert(below[k - own.len()] == x);
            assert(below.contains(x));
        }
    }
}

proof fn lemma_only_below(f: FolderView, source: TempSource, n: int)
    requires
        0 <= n <= f.children.len(),
    ensures
        forall|x: TempFileView| #[trigger]
            collected_below(f, source, n).contains(x) ==> is_in_tree(f, source, x),
        f.files.len() + collected_below(f, source, n).len() == files_listed(f, n),
    decreases f, n,
{
    if n > 0 {
        lemma_only_below(f, source, n - 1);
        let c = f.children[n - 1];
        law_only_files_are_collected(c, source);
        let now = collected_below(f, source, n);
        let before = collected_below(f, source, n - 1);
        let mine = collected(c, source);
        assert forall|x: TempFileView| #[trigger] now.contains(x) implies is_in_tree(f, source, x) by {
            let k = choose|k: int| 0 <= k < now.len() && now[k] == x;
            if k < before.len() {
                assert(before[k] == x);
                assert(before.contains(x));
            } else {
                assert(mine[k - before.len()] == x);
                assert(mine.contains(x));
                let (way, i) = choose|way: Seq<int>, i: int| is_file_of(c, source, way, i, x);
                lemma_way_into(f, n - 1, way);
                assert(is_file_of(f, source, seq![n - 1] + way, i, x));
            }
        }
    }
}

/// Whether `x` was found in the place `s`.
pub open spec fn is_found_in(s: LocationScan, x: TempFileView) -> bool {
    s.root is Some && is_in_tree(s.root->0@, s.source, x)
}

/// The list of throwaway files is all the files of all the places that were scanned, the
/// largest first, each under the source of its place.
pub proof fn law_temp_list_is_complete(r: Seq<TempFileView>, scans: Seq<LocationScan>)
    requires
        is_largest_first(r, gathered(scans, scans.len() as int)),
        r.len() <= usize::MAX,
    ensures
        forall|i: int, j: int| 0 <= i < j < r.len() ==> #[trigger] r[i].size >= #[trigger] r[j].size,
        forall|x: TempFileView| #[trigger]
            r.contains(x) <==> exists|k: int|
                0 <= k < scans.len() && is_found_in(#[trigger] scans[k], x),
{
    let all = gathered(scans, scans.len() as int);
    let keys = size_keys(all);
    let order = choose|order: Seq<usize>| #[trigger]
        is_order_of(order, keys, true) && r == order.map_values(|i: usize| all[i as int]);
    law_order_is_permutation(order, keys, true);
    assert forall|i: int, j: int| 0 <= i < j < r.len() implies #[trigger] r[i].size
        >= #[trigger] r[j].size by {
        assert(stands_before(keys, true, order[i], order[j]));
    }
    lemma_gathered_files(scans, scans.len() as int);
    assert forall|x: TempFileView| #[trigger] r.contains(x) == all.contains(x) by {
        if r.contains(x) {
            let k = choose|k: int| 0 <= k < r.len() && r[k] == x;
            assert(all[order[k] as int] == x);
        }
        if all.contains(x) {
            let at = choose|at: int| 0 <= at < all.len() && all[at] == x;
            assert(order.contains(at as usize));
            let k = choose|k: int| 0 <= k < order.len() && order[k] == at;
            assert(r[k] == x);
        }
    }
}

proof fn lemma_gathered_files(scans: Seq<LocationScan>, n: int)
    requires
        0 <= n <= scans.len(),
    ensures
        forall|x: TempFileView| #[trigger]
            gathered(scans, n).contains(x) <==> exists|k: int|
                0 <= k < n && is_found_in(#[trigger] scans[k], x),
    decreases n,
{
    if n > 0 {
        lemma_gathered_files(scans, n - 1);
        let now = gathered(scans, n);
        let before = gathered(scans, n - 1);
        let s = scans[n - 1];
        let mine = match s.root {
            Some(root) => collected(root@, s.source),
            None => Seq::empty(),
        };
        if let Some(root) = s.root {
            law_only_files_are_collected(root@, s.source);
        }
        assert forall|x: TempFileView| #[trigger] now.contains(x) <==> exists|k: int|
            0 <= k < n && is_found_in(#[trigger] scans[k], x) by {
            if now.contains(x) {
                let k = choose|k: int| 0 <= k < now.len() && now[k] == x;
                if k < before.len() {
                    assert(before[k] == x);
                    assert(before.contains(x));
                    let j = choose|j: int| 0 <= j < n - 1 && is_found_in(#[trigger] scans[j], x);
                    assert(is_found_in(scans[j], x));
                } else {
                    assert(mine[k - before.len()] == x);
                    assert(mine.contains(x));
                    assert(is_found_in(scans[n - 1], x));
                }
            }
            if exists|k: int| 0 <= k < n && is_found_in(#[trigger] scans[k], x) {
                let k = choose|k: int| 0 <= k < n && is_found_in(#[trigger] scans[k], x);
                if k < n - 1 {
                    assert(before.contains(x));
                    let j = choose|j: int| 0 <= j < before.len() && before[j] == x;
                    assert(now[j] == x);
                } else {
                    let root = s.root->0@;
                    let (way, i) = choose|way: Seq<int>, i: int|
                        is_file_of(root, s.source, way, i, x);
                    law_every_file_is_collected(root, s.source, way, i, x);
                    let j = choose|j: int| 0 <= j < mine.len() && mine[j] == x;
                    assert(now[before.len() + j] == x);
                }
            }
        }
    }
}

/// A resolved path is shown as one would type it: a drive without the mark in front, and a
/// server behind two backslashes.
pub proof fn law_shown_without_mark(c: char, rest: Seq<char>)
    requires
        rest.len() > 0,
        rest.last() != '\\',
    ensures
        display_path(seq!['\\', '\\', '?', '\\', c, ':'] + rest) == seq![c, ':'] + rest,
        rest[0] != '\\' && rest[0] != '?' ==> display_path(
            seq!['\\', '\\', '?', '\\', 'U', 'N', 'C', '\\'] + rest,
        ) == seq!['\\', '\\'] + rest,
{
    let p = seq!['\\', '\\', '?', '\\', c, ':'] + rest;
    assert(p.take(4) =~= long_mark());
    assert(p.skip(4) =~= seq![c, ':'] + rest);
    if starts_with(p, network_mark()) {
        assert(p.take(8)[5] == p[5]);
    }
    let q = network_mark() + rest;
    assert(q.take(8) =~= network_mark());
    assert(q.skip(8) =~= rest);
}

} // verus!
