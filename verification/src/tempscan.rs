//! Throwaway-cache folders on every platform, each browsable like any other folder.

use crate::path::{join_as, joined_as, PathStyle};
use vstd::prelude::*;

verus! {

/// A folder of throwaway files, and what it is called.
#[derive(Debug)]
pub struct TempRoot {
    pub label: String,
    pub path: String,
}

pub struct RootView {
    pub label: Seq<char>,
    pub path: Seq<char>,
}

impl View for TempRoot {
    type V = RootView;

    open spec fn view(&self) -> RootView {
        RootView { label: self.label@, path: self.path@ }
    }
}

pub open spec fn root_views(v: Seq<TempRoot>) -> Seq<RootView> {
    v.map_values(|r: TempRoot| r@)
}

/// Where a platform keeps such folders.
#[derive(Copy, Clone, Debug, PartialEq, Eq, Structural)]
pub enum Platform {
    Windows,
    Linux,
    MacOs,
}

/// What the environment says of them.
#[derive(Debug)]
pub struct CacheEnv {
    /// `TEMP`
    pub temp: Option<String>,
    /// `LOCALAPPDATA`
    pub local_app_data: Option<String>,
    /// `SystemDrive`
    pub system_drive: Option<String>,
    /// `XDG_CACHE_HOME`
    pub xdg_cache_home: Option<String>,
    /// `HOME`
    pub home: Option<String>,
    /// `TMPDIR`
    pub tmpdir: Option<String>,
}

pub open spec fn named(label: Seq<char>, path: Seq<char>) -> Seq<RootView> {
    seq![RootView { label, path }]
}

/// A folder of the environment, where it is known.
pub open spec fn at(label: Seq<char>, folder: Option<String>) -> Seq<RootView> {
    match folder {
        Some(f) => named(label, f@),
        None => Seq::empty(),
    }
}

/// The place `below` in a folder of the environment, where that is known.
pub open spec fn below(
    label: Seq<char>,
    style: PathStyle,
    folder: Option<String>,
    leaf: Seq<char>,
) -> Seq<RootView> {
    match folder {
        Some(f) => named(label, joined_as(style, f@, leaf)),
        None => Seq::empty(),
    }
}

/// The folders to look at, in order.
pub open spec fn roots_of(platform: Platform, env: CacheEnv) -> Seq<RootView> {
    match platform {
        Platform::Windows => at("User Temp"@, env.temp) + below(
            "Local Temp"@,
            PathStyle::WindowsPath,
            env.local_app_data,
            "Temp"@,
        ) + below(
            "Chrome cache"@,
            PathStyle::WindowsPath,
            env.local_app_data,
            "Google\\Chrome\\User Data\\Default\\Cache"@,
        ) + below(
            "Edge cache"@,
            PathStyle::WindowsPath,
            env.local_app_data,
            "Microsoft\\Edge\\User Data\\Default\\Cache"@,
        ) + (match env.system_drive {
            Some(d) => named("Windows.old"@, d@ + "\\Windows.old"@),
            None => Seq::empty(),
        }),
        Platform::Linux => named("/tmp"@, "/tmp"@) + named("/var/tmp"@, "/var/tmp"@) + (
        if env.xdg_cache_home is Some {
            at("Cache"@, env.xdg_cache_home)
        } else {
            below("~/.cache"@, PathStyle::Unix, env.home, ".cache"@)
        }),
        Platform::MacOs => at("Temp"@, env.tmpdir) + below(
            "Caches"@,
            PathStyle::Unix,
            env.home,
            "Library/Caches"@,
        ),
    }
}

fn push_root(out: &mut Vec<TempRoot>, label: &str, path: String)
    ensures
        root_views(final(out)@) == root_views(old(out)@) + named(label@, path@),
{
    let ghost before = root_views(out@);
    let r = TempRoot { label: label.to_owned(), path };
    out.push(r);
    assert(root_views(out@) =~= before + named(label@, path@));
}

fn push_at(out: &mut Vec<TempRoot>, label: &str, folder: &Option<String>)
    ensures
        root_views(final(out)@) == root_views(old(out)@) + at(label@, *folder),
{
    let ghost before = root_views(out@);
    match folder {
        Some(f) => push_root(out, label, f.clone()),
        None => {
            assert(before + Seq::<RootView>::empty() =~= before);
        },
    }
}

fn push_below(
    out: &mut Vec<TempRoot>,
    label: &str,
    style: PathStyle,
    folder: &Option<String>,
    leaf: &str,
)
    ensures
        root_views(final(out)@) == root_views(old(out)@) + below(label@, style, *folder, leaf@),
{
    let ghost before = root_views(out@);
    match folder {
        Some(f) => push_root(out, label, join_as(style, f.as_str(), leaf)),
        None => {
            assert(before + Seq::<RootView>::empty() =~= before);
        },
    }
}

/// Lists the folders to look at.
pub fn candidate_roots(platform: Platform, env: &CacheEnv) -> (r: Vec<TempRoot>)
    ensures
        root_views(r@) == roots_of(platform, *env),
{
    let mut out: Vec<TempRoot> = Vec::new();
    assert(root_views(out@) =~= Seq::empty());
    match platform {
        Platform::Windows => {
            push_at(&mut out, "User Temp", &env.temp);
            push_below(&mut out, "Local Temp", PathStyle::WindowsPath, &env.local_app_data, "Temp");
            push_below(
                &mut out,
                "Chrome cache",
                PathStyle::WindowsPath,
                &env.local_app_data,
                "Google\\Chrome\\User Data\\Default\\Cache",
            );
            push_below(
                &mut out,
                "Edge cache",
                PathStyle::WindowsPath,
                &env.local_app_data,
                "Microsoft\\Edge\\User Data\\Default\\Cache",
            );
            let ghost before = root_views(out@);
            match &env.system_drive {
                Some(d) => {
                    let mut path = d.clone();
                    path.append("\\Windows.old");
                    push_root(&mut out, "Windows.old", path);
                },
                None => {
                    assert(before + Seq::<RootView>::empty() =~= before);
                },
            }
        },
        Platform::Linux => {
            push_root(&mut out, "/tmp", "/tmp".to_owned());
            push_root(&mut out, "/var/tmp", "/var/tmp".to_owned());
            if let Some(_) = &env.xdg_cache_home {
                push_at(&mut out, "Cache", &env.xdg_cache_home);
            } else {
                push_below(&mut out, "~/.cache", PathStyle::Unix, &env.home, ".cache");
            }
        },
        Platform::MacOs => {
            push_at(&mut out, "Temp", &env.tmpdir);
            push_below(&mut out, "Caches", PathStyle::Unix, &env.home, "Library/Caches");
        },
    }
    assert(root_views(out@) =~= roots_of(platform, *env));
    out
}

/// Whether one of `roots` has the path `path`.
pub open spec fn has_path(roots: Seq<RootView>, path: Seq<char>) -> bool {
    exists|i: int| 0 <= i < roots.len() && (#[trigger] roots[i]).path == path
}

/// The folders that are kept of the first `n`: those that are there, each once.
pub open spec fn kept_roots(roots: Seq<RootView>, is_dir: Seq<bool>, n: int) -> Seq<RootView>
    decreases n,
{
    if n <= 0 {
        Seq::empty()
    } else {
        let kept = kept_roots(roots, is_dir, n - 1);
        if is_dir[n - 1] && !has_path(kept, roots[n - 1].path) {
            kept.push(roots[n - 1])
        } else {
            kept
        }
    }
}

/// The folders of throwaway files that are there, each once. `is_dir` says of each
/// candidate whether there is such a folder.
pub fn temp_locations(candidates: Vec<TempRoot>, is_dir: &Vec<bool>) -> (r: Vec<TempRoot>)
    requires
        candidates.len() == is_dir.len(),
    ensures
        root_views(r@) == kept_roots(
            root_views(candidates@),
            is_dir@,
            candidates.len() as int,
        ),
{
    let ghost rs = root_views(candidates@);
    let mut out: Vec<TempRoot> = Vec::new();
    let total: usize = candidates.len();
    let mut i: usize = 0;
    assert(root_views(out@) =~= Seq::empty());
    for c in it: candidates
        invariant
            it.seq() == candidates@,
            total == candidates@.len(),
            total == is_dir.len(),
            rs == root_views(candidates@),
            i == it.index(),
            root_views(out@) == kept_roots(rs, is_dir@, i as int),
    {
        assert(rs[i as int] == c@);
        if is_dir[i] {
            let mut seen = false;
            let mut j: usize = 0;
            while j < out.len()
                invariant
                    j <= out.len(),
                    seen == exists|k: int|
                        0 <= k < j && (#[trigger] root_views(out@)[k]).path == c.path@,
                decreases out.len() - j,
            {
                assert(root_views(out@)[j as int] == out@[j as int]@);
                if out[j].path == c.path {
                    seen = true;
                }
                j += 1;
            }
            if !seen {
                let ghost before = root_views(out@);
                out.push(c);
                assert(root_views(out@) =~= before.push(c@));
            }
        }
        i += 1;
    }
    out
}

/// No folder is listed twice, and only folders that are there are listed.
pub proof fn law_roots_deduped(roots: Seq<RootView>, is_dir: Seq<bool>, n: int, i: int, j: int)
    requires
        0 <= n,
        0 <= i < j < kept_roots(roots, is_dir, n).len(),
    ensures
        kept_roots(roots, is_dir, n)[i].path != kept_roots(roots, is_dir, n)[j].path,
        exists|k: int|
            0 <= k < n && #[trigger] is_dir[k] && roots[k] == kept_roots(roots, is_dir, n)[j],
    decreases n,
{
    if n > 0 {
        let kept = kept_roots(roots, is_dir, n - 1);
        if j < kept.len() {
            law_roots_deduped(roots, is_dir, n - 1, i, j);
        } else {
            assert(is_dir[n - 1]);
        }
    }
}

/// Whether `path` is `folder`, one separator and `leaf`: a place in that folder.
pub open spec fn is_place_in(path: Seq<char>, folder: Seq<char>, sep: char, leaf: Seq<char>) -> bool {
    path == folder + seq![sep] + leaf || (folder.len() > 0 && folder.last() == sep && path == folder
        + leaf)
}

/// Whether the folder is given as it usually is: it is not empty and ends in no slash,
/// nor in the colon of a drive.
pub open spec fn is_usual(folder: Option<String>) -> bool {
    folder is Some ==> folder->0@.len() > 0 && folder->0@.last() != '/' && folder->0@.last() != ':'
}

/// Every folder that is looked at is one that the platform keeps throwaway files in: the
/// one for temporary files itself, a cache where it is set, or a known folder in the one
/// that the environment gives.
pub proof fn law_only_throwaway_roots(platform: Platform, env: CacheEnv, i: int)
    requires
        0 <= i < roots_of(platform, env).len(),
        is_usual(env.local_app_data),
        is_usual(env.home),
    ensures
        ({
            let r = roots_of(platform, env)[i];
            match platform {
                Platform::Windows => {
                    ||| r.label == "User Temp"@ && env.temp is Some && r.path == env.temp->0@
                    ||| r.label == "Local Temp"@ && env.local_app_data is Some && is_place_in(
                        r.path,
                        env.local_app_data->0@,
                        '\\',
                        "Temp"@,
                    )
                    ||| r.label == "Chrome cache"@ && env.local_app_data is Some && is_place_in(
                        r.path,
                        env.local_app_data->0@,
                        '\\',
                        "Google\\Chrome\\User Data\\Default\\Cache"@,
                    )
                    ||| r.label == "Edge cache"@ && env.local_app_data is Some && is_place_in(
                        r.path,
                        env.local_app_data->0@,
                        '\\',
                        "Microsoft\\Edge\\User Data\\Default\\Cache"@,
                    )
                    ||| r.label == "Windows.old"@ && env.system_drive is Some && r.path
                        == env.system_drive->0@ + "\\Windows.old"@
                },
                Platform::Linux => {
                    ||| r.label == "/tmp"@ && r.path == "/tmp"@
                    ||| r.label == "/var/tmp"@ && r.path == "/var/tmp"@
                    ||| r.label == "Cache"@ && env.xdg_cache_home is Some && r.path
                        == env.xdg_cache_home->0@
                    ||| r.label == "~/.cache"@ && env.home is Some && env.xdg_cache_home is None
                        && is_place_in(r.path, env.home->0@, '/', ".cache"@)
                },
                Platform::MacOs => {
                    ||| r.label == "Temp"@ && env.tmpdir is Some && r.path == env.tmpdir->0@
                    ||| r.label == "Caches"@ && env.home is Some && is_place_in(
                        r.path,
                        env.home->0@,
                        '/',
                        "Library/Caches"@,
                    )
                },
            }
        }),
{
    reveal_strlit("Temp");
    reveal_strlit("Google\\Chrome\\User Data\\Default\\Cache");
    reveal_strlit("Microsoft\\Edge\\User Data\\Default\\Cache");
    reveal_strlit(".cache");
    reveal_strlit("Library/Caches");
    if let Some(f) = env.local_app_data {
        lemma_place_in(PathStyle::WindowsPath, f@, "Temp"@);
        lemma_place_in(
            PathStyle::WindowsPath,
            f@,
            "Google\\Chrome\\User Data\\Default\\Cache"@,
        );
        lemma_place_in(
            PathStyle::WindowsPath,
            f@,
            "Microsoft\\Edge\\User Data\\Default\\Cache"@,
        );
    }
    if let Some(f) = env.home {
        lemma_place_in(PathStyle::Unix, f@, ".cache"@);
        lemma_place_in(PathStyle::Unix, f@, "Library/Caches"@);
    }
}

proof fn lemma_place_in(style: PathStyle, folder: Seq<char>, leaf: Seq<char>)
    requires
        style == PathStyle::WindowsPath || style == PathStyle::Unix,
        folder.len() > 0,
        folder.last() != ':',
        folder.last() != '/',
        leaf.len() > 0,
        leaf[0] != '/',
    ensures
        is_place_in(
            joined_as(style, folder, leaf),
            folder,
            if style == PathStyle::Unix {
                '/'
            } else {
                '\\'
            },
            leaf,
        ),
{
    assert(folder.push('/') =~= folder + seq!['/']);
    assert(folder.push('\\') =~= folder + seq!['\\']);
}

/// Every folder that is there is listed.
pub proof fn law_roots_are_kept(roots: Seq<RootView>, is_dir: Seq<bool>, n: int, k: int)
    requires
        0 <= k < n,
        is_dir[k],
    ensures
        has_path(kept_roots(roots, is_dir, n), roots[k].path),
    decreases n,
{
    let now = kept_roots(roots, is_dir, n);
    let before = kept_roots(roots, is_dir, n - 1);
    if k < n - 1 {
        law_roots_are_kept(roots, is_dir, n - 1, k);
    }
    if has_path(before, roots[k].path) {
        let i = choose|i: int|
            0 <= i < before.len() && (#[trigger] before[i]).path == roots[k].path;
        assert(now[i] == before[i]);
    } else {
        assert(now[before.len() as int].path == roots[k].path);
    }
}

/// No known folder is left out: all that the platform and the environment give are looked
/// at.
pub proof fn law_all_throwaway_roots(env: CacheEnv)
    ensures
        ({
            let w = roots_of(Platform::Windows, env);
            &&& env.temp is Some ==> has_path(w, env.temp->0@)
            &&& env.system_drive is Some ==> has_path(w, env.system_drive->0@ + "\\Windows.old"@)
            &&& env.local_app_data is Some ==> {
                let local = env.local_app_data->0@;
                &&& has_path(w, joined_as(PathStyle::WindowsPath, local, "Temp"@))
                &&& has_path(
                    w,
                    joined_as(
                        PathStyle::WindowsPath,
                        local,
                        "Google\\Chrome\\User Data\\Default\\Cache"@,
                    ),
                )
                &&& has_path(
                    w,
                    joined_as(
                        PathStyle::WindowsPath,
                        local,
                        "Microsoft\\Edge\\User Data\\Default\\Cache"@,
                    ),
                )
            }
        }),
        ({
            let l = roots_of(Platform::Linux, env);
            &&& has_path(l, "/tmp"@) && has_path(l, "/var/tmp"@)
            &&& env.xdg_cache_home is Some ==> has_path(l, env.xdg_cache_home->0@)
            &&& env.xdg_cache_home is None && env.home is Some ==> has_path(
                l,
                joined_as(PathStyle::Unix, env.home->0@, ".cache"@),
            )
        }),
        ({
            let m = roots_of(Platform::MacOs, env);
            &&& env.tmpdir is Some ==> has_path(m, env.tmpdir->0@)
            &&& env.home is Some ==> has_path(
                m,
                joined_as(PathStyle::Unix, env.home->0@, "Library/Caches"@),
            )
        }),
{
    let w = roots_of(Platform::Windows, env);
    let t: int = if env.temp is Some {
        1
    } else {
        0
    };
    let l: int = if env.local_app_data is Some {
        3
    } else {
        0
    };
    if env.temp is Some {
        assert(w[0].path == env.temp->0@);
    }
    if env.local_app_data is Some {
        let local = env.local_app_data->0@;
        assert(w[t].path == joined_as(PathStyle::WindowsPath, local, "Temp"@));
        assert(w[t + 1].path == joined_as(
            PathStyle::WindowsPath,
            local,
            "Google\\Chrome\\User Data\\Default\\Cache"@,
        ));
        assert(w[t + 2].path == joined_as(
            PathStyle::WindowsPath,
            local,
            "Microsoft\\Edge\\User Data\\Default\\Cache"@,
        ));
    }
    if env.system_drive is Some {
        assert(w[t + l].path == env.system_drive->0@ + "\\Windows.old"@);
    }
    let x = roots_of(Platform::Linux, env);
    assert(x[0].path == "/tmp"@ && x[1].path == "/var/tmp"@);
    if env.xdg_cache_home is Some {
        assert(x[2].path == env.xdg_cache_home->0@);
    } else if env.home is Some {
        assert(x[2].path == joined_as(PathStyle::Unix, env.home->0@, ".cache"@));
    }
    let m = roots_of(Platform::MacOs, env);
    if env.tmpdir is Some {
        assert(m[0].path == env.tmpdir->0@);
    }
    if env.home is Some {
        let k: int = if env.tmpdir is Some {
            1
        } else {
            0
        };
        assert(m[k].path == joined_as(PathStyle::Unix, env.home->0@, "Library/Caches"@));
    }
}

} // verus!
