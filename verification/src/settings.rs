//! The user's settings, and the text that keeps them from one run to the next.

use crate::text::{
    chars_of, find, find_char, lemma_find, lines, same_text, split_lines, string_of, texts, trim,
    trim_end, trim_start, trimmed,
};
use vstd::prelude::*;

verus! {

/// Which colours are used.
#[derive(Copy, Clone, Debug, PartialEq, Eq, Structural)]
pub enum ThemeMode {
    /// Those of the system.
    Auto,
    Light,
    Dark,
}

/// What the side panel shows at first.
#[derive(Copy, Clone, Debug, PartialEq, Eq, Structural)]
pub enum DefaultPanel {
    Nothing,
    TopFiles,
    OldestFiles,
    TempFiles,
    SystemCleanup,
}

/// How many columns the settings mark as shown or hidden: those of the main list, and
/// the free space of the drive.
pub const COLUMNS: usize = 8;

/// Whether the column with that mark cannot be hidden: the name and the size.
pub open spec fn is_fixed_column(c: int) -> bool {
    c == 0 || c == 3
}

#[derive(Debug)]
pub struct Settings {
    pub theme: ThemeMode,
    pub units_binary: bool,
    pub default_side: DefaultPanel,
    pub scan_on_launch: bool,
    pub check_updates_on_launch: bool,
    pub confirm_recycle: bool,
    pub show_sidebar: bool,
    pub show_system_files: bool,
    /// Which columns are shown: name, share of the parent, free space, size, own size,
    /// files, folders, time of modification.
    pub col_visible: Vec<bool>,
    /// The newest release that the user was already told of.
    pub last_update_seen: String,
}

pub struct SettingsView {
    pub theme: ThemeMode,
    pub units_binary: bool,
    pub default_side: DefaultPanel,
    pub scan_on_launch: bool,
    pub check_updates_on_launch: bool,
    pub confirm_recycle: bool,
    pub show_sidebar: bool,
    pub show_system_files: bool,
    pub col_visible: Seq<bool>,
    pub last_update_seen: Seq<char>,
}

impl View for Settings {
    type V = SettingsView;

    open spec fn view(&self) -> SettingsView {
        SettingsView {
            theme: self.theme,
            units_binary: self.units_binary,
            default_side: self.default_side,
            scan_on_launch: self.scan_on_launch,
            check_updates_on_launch: self.check_updates_on_launch,
            confirm_recycle: self.confirm_recycle,
            show_sidebar: self.show_sidebar,
            show_system_files: self.show_system_files,
            col_visible: self.col_visible@,
            last_update_seen: self.last_update_seen@,
        }
    }
}

/// The settings of a first run.
pub open spec fn initial_settings() -> SettingsView {
    SettingsView {
        theme: ThemeMode::Auto,
        units_binary: true,
        default_side: DefaultPanel::TopFiles,
        scan_on_launch: true,
        check_updates_on_launch: true,
        confirm_recycle: true,
        show_sidebar: true,
        show_system_files: false,
        col_visible: Seq::new(COLUMNS as nat, |i: int| true),
        last_update_seen: Seq::empty(),
    }
}

/// Whether there is a mark for every column, and those that cannot be hidden are
/// shown.
pub open spec fn is_settings(s: SettingsView) -> bool {
    &&& s.col_visible.len() == COLUMNS
    &&& forall|c: int| 0 <= c < COLUMNS && is_fixed_column(c) ==> #[trigger] s.col_visible[c]
}

impl Default for Settings {
    fn default() -> (r: Self)
        ensures
            r@ == initial_settings(),
            is_settings(r@),
    {
        let mut col_visible: Vec<bool> = Vec::new();
        let mut i: usize = 0;
        while i < COLUMNS
            invariant
                i <= COLUMNS,
                col_visible@ == Seq::new(i as nat, |i: int| true),
            decreases COLUMNS - i,
        {
            col_visible.push(true);
            i += 1;
            assert(col_visible@ =~= Seq::new(i as nat, |i: int| true));
        }
        let r = Settings {
            theme: ThemeMode::Auto,
            units_binary: true,
            default_side: DefaultPanel::TopFiles,
            scan_on_launch: true,
            check_updates_on_launch: true,
            confirm_recycle: true,
            show_sidebar: true,
            show_system_files: false,
            col_visible,
            last_update_seen: String::new(),
        };
        assert(r@.last_update_seen =~= Seq::empty());
        r
    }
}

// --------------------------------------------------------------------- reading

pub open spec fn theme_named(v: Seq<char>) -> ThemeMode {
    if v == "light"@ {
        ThemeMode::Light
    } else if v == "dark"@ {
        ThemeMode::Dark
    } else {
        ThemeMode::Auto
    }
}

/// The panel with a name; one that is not known stands for the panel of a first run.
pub open spec fn panel_named(v: Seq<char>) -> DefaultPanel {
    if v == "top"@ {
        DefaultPanel::TopFiles
    } else if v == "oldest"@ {
        DefaultPanel::OldestFiles
    } else if v == "temp"@ {
        DefaultPanel::TempFiles
    } else if v == "system"@ {
        DefaultPanel::SystemCleanup
    } else if v == "none"@ {
        DefaultPanel::Nothing
    } else {
        DefaultPanel::TopFiles
    }
}

/// The columns that a row of marks shows, one mark for each; a row of another
/// length says nothing. Columns that cannot be hidden are shown in any case.
pub open spec fn columns_marked(old: Seq<bool>, v: Seq<char>) -> Seq<bool> {
    Seq::new(
        old.len(),
        |i: int|
            is_fixed_column(i) || (if v.len() == old.len() {
                v[i] != '0'
            } else {
                old[i]
            }),
    )
}

/// `s` with the setting `k` set to `v`. A key that is not known says nothing.
pub open spec fn with_setting(s: SettingsView, k: Seq<char>, v: Seq<char>) -> SettingsView {
    if k == "theme"@ {
        SettingsView { theme: theme_named(v), ..s }
    } else if k == "units"@ {
        SettingsView { units_binary: v != "decimal"@, ..s }
    } else if k == "side"@ {
        SettingsView { default_side: panel_named(v), ..s }
    } else if k == "scan_on_launch"@ {
        SettingsView { scan_on_launch: v != "0"@, ..s }
    } else if k == "check_updates_on_launch"@ {
        SettingsView { check_updates_on_launch: v != "0"@, ..s }
    } else if k == "last_update_seen"@ {
        SettingsView { last_update_seen: v, ..s }
    } else if k == "confirm_recycle"@ {
        SettingsView { confirm_recycle: v != "0"@, ..s }
    } else if k == "show_sidebar"@ {
        SettingsView { show_sidebar: v != "0"@, ..s }
    } else if k == "show_system"@ {
        SettingsView { show_system_files: v == "1"@, ..s }
    } else if k == "cols"@ {
        SettingsView { col_visible: columns_marked(s.col_visible, v), ..s }
    } else {
        s
    }
}

/// `s` with a line of the form `key=value` taken into account. A line without an
/// equals sign says nothing.
pub open spec fn with_line(s: SettingsView, line: Seq<char>) -> SettingsView {
    let e = find(line, '=');
    if 0 <= e < line.len() {
        with_setting(s, trimmed(line.take(e)), trimmed(line.skip(e + 1)))
    } else {
        s
    }
}

/// `s` with the first `n` lines taken into account.
pub open spec fn with_lines(s: SettingsView, ls: Seq<Seq<char>>, n: int) -> SettingsView
    decreases n,
{
    if n <= 0 {
        s
    } else {
        with_line(with_lines(s, ls, n - 1), ls[n - 1])
    }
}

/// The settings that a text says; those that it does not mention are as at first.
pub open spec fn settings_of(text: Seq<char>) -> SettingsView {
    with_lines(initial_settings(), lines(text), lines(text).len() as int)
}

impl Settings {
    fn mark_columns(&mut self, v: &str)
        requires
            old(self).col_visible.len() == COLUMNS,
        ensures
            final(self)@ == (SettingsView {
                col_visible: columns_marked(old(self)@.col_visible, v@),
                ..old(self)@
            }),
    {
        let cs = chars_of(v);
        let ghost before = self@.col_visible;
        let ghost goal = columns_marked(before, v@);
        let mut shown: Vec<bool> = Vec::new();
        let mut i: usize = 0;
        assert(shown@ =~= goal.take(0));
        while i < self.col_visible.len()
            invariant
                i <= self.col_visible.len(),
                self@ == old(self)@,
                self@.col_visible == before,
                cs@ == v@,
                goal == columns_marked(before, v@),
                shown@ == goal.take(i as int),
            decreases self.col_visible.len() - i,
        {
            let b = if i == 0 || i == 3 {
                true
            } else if cs.len() == self.col_visible.len() {
                cs[i] != '0'
            } else {
                self.col_visible[i]
            };
            shown.push(b);
            i += 1;
            assert(shown@ =~= goal.take(i as int));
        }
        assert(goal.take(goal.len() as int) =~= goal);
        self.col_visible = shown;
    }

    /// Sets one setting.
    #[verifier::rlimit(60)]
    fn set(&mut self, k: &str, v: &str)
        requires
            is_settings(old(self)@),
        ensures
            is_settings(final(self)@),
            final(self)@ == with_setting(old(self)@, k@, v@),
    {
        if same_text(k, "theme") {
            self.theme = if same_text(v, "light") {
                ThemeMode::Light
            } else if same_text(v, "dark") {
                ThemeMode::Dark
            } else {
                ThemeMode::Auto
            };
        } else if same_text(k, "units") {
            self.units_binary = !same_text(v, "decimal");
        } else if same_text(k, "side") {
            self.default_side = if same_text(v, "top") {
                DefaultPanel::TopFiles
            } else if same_text(v, "oldest") {
                DefaultPanel::OldestFiles
            } else if same_text(v, "temp") {
                DefaultPanel::TempFiles
            } else if same_text(v, "system") {
                DefaultPanel::SystemCleanup
            } else if same_text(v, "none") {
                DefaultPanel::Nothing
            } else {
                DefaultPanel::TopFiles
            };
        } else if same_text(k, "scan_on_launch") {
            self.scan_on_launch = !same_text(v, "0");
        } else if same_text(k, "check_updates_on_launch") {
            self.check_updates_on_launch = !same_text(v, "0");
        } else if same_text(k, "last_update_seen") {
            self.last_update_seen = v.to_owned();
        } else if same_text(k, "confirm_recycle") {
            self.confirm_recycle = !same_text(v, "0");
        } else if same_text(k, "show_sidebar") {
            self.show_sidebar = !same_text(v, "0");
        } else if same_text(k, "show_system") {
            self.show_system_files = same_text(v, "1");
        } else if same_text(k, "cols") {
            self.mark_columns(v);
        }
    }
}

/// Reads settings; what is missing or garbled is as at first. `None` stands for a
/// text that could not be read.
pub fn load(text: Option<&str>) -> (r: Settings)
    ensures
        is_settings(r@),
        text is None ==> r@ == initial_settings(),
        text is Some ==> r@ == settings_of(text->0@),
{
    let mut s: Settings = Settings::default();
    let text = match text {
        Some(t) => t,
        None => {
            return s;
        },
    };
    let ls = split_lines(text);
    let mut i: usize = 0;
    while i < ls.len()
        invariant
            i <= ls.len(),
            texts(ls@) == lines(text@),
            is_settings(s@),
            s@ == with_lines(initial_settings(), lines(text@), i as int),
        decreases ls.len() - i,
    {
        let cs = chars_of(ls[i].as_str());
        let n: usize = cs.len();
        proof {
            assert(texts(ls@)[i as int] == cs@);
            assert(cs@.subrange(0, n as int) =~= cs@);
            lemma_find(cs@, '=');
        }
        let e: usize = find_char(&cs, 0, n, '=');
        if e < n {
            let k = string_of(&cs, 0, e);
            let v = string_of(&cs, e + 1, n);
            assert(k@ =~= cs@.take(e as int));
            assert(v@ =~= cs@.skip(e + 1));
            let k = trim(k.as_str());
            let v = trim(v.as_str());
            s.set(k.as_str(), v.as_str());
        }
        i += 1;
    }
    assert(texts(ls@).len() == ls@.len());
    s
}

// --------------------------------------------------------------------- writing

pub open spec fn theme_name(t: ThemeMode) -> Seq<char> {
    match t {
        ThemeMode::Light => "light"@,
        ThemeMode::Dark => "dark"@,
        ThemeMode::Auto => "auto"@,
    }
}

pub open spec fn panel_name(p: DefaultPanel) -> Seq<char> {
    match p {
        DefaultPanel::TopFiles => "top"@,
        DefaultPanel::OldestFiles => "oldest"@,
        DefaultPanel::TempFiles => "temp"@,
        DefaultPanel::SystemCleanup => "system"@,
        DefaultPanel::Nothing => "none"@,
    }
}

pub open spec fn bit(b: bool) -> Seq<char> {
    if b {
        "1"@
    } else {
        "0"@
    }
}

pub open spec fn column_marks(shown: Seq<bool>) -> Seq<char> {
    Seq::new(
        shown.len(),
        |i: int|
            if shown[i] {
                '1'
            } else {
                '0'
            },
    )
}

/// A line of the form `key=value`.
pub open spec fn setting_line(k: Seq<char>, v: Seq<char>) -> Seq<char> {
    k + seq!['='] + v + seq!['\n']
}

/// The text that says all settings.
pub open spec fn settings_text(s: SettingsView) -> Seq<char> {
    setting_line("theme"@, theme_name(s.theme)) + setting_line(
        "units"@,
        units_name(s.units_binary),
    ) + setting_line("side"@, panel_name(s.default_side)) + setting_line(
        "scan_on_launch"@,
        bit(s.scan_on_launch),
    ) + setting_line("check_updates_on_launch"@, bit(s.check_updates_on_launch)) + setting_line(
        "confirm_recycle"@,
        bit(s.confirm_recycle),
    ) + setting_line("show_sidebar"@, bit(s.show_sidebar)) + setting_line(
        "show_system"@,
        bit(s.show_system_files),
    ) + setting_line("cols"@, column_marks(s.col_visible)) + setting_line(
        "last_update_seen"@,
        s.last_update_seen,
    )
}

pub open spec fn units_name(binary: bool) -> Seq<char> {
    if binary {
        "binary"@
    } else {
        "decimal"@
    }
}

fn push_line(out: &mut String, k: &str, v: &str)
    ensures
        final(out)@ == old(out)@ + setting_line(k@, v@),
{
    let ghost before = out@;
    out.append(k);
    out.push('=');
    out.append(v);
    out.push('\n');
    assert(out@ =~= before + setting_line(k@, v@));
}

fn bit_text(b: bool) -> (r: &'static str)
    ensures
        r@ == bit(b),
{
    if b {
        "1"
    } else {
        "0"
    }
}

/// Writes settings down.
pub fn save(s: &Settings) -> (r: String)
    ensures
        r@ == settings_text(s@),
{
    let mut out = String::new();
    let theme = match s.theme {
        ThemeMode::Light => "light",
        ThemeMode::Dark => "dark",
        ThemeMode::Auto => "auto",
    };
    let side = match s.default_side {
        DefaultPanel::TopFiles => "top",
        DefaultPanel::OldestFiles => "oldest",
        DefaultPanel::TempFiles => "temp",
        DefaultPanel::SystemCleanup => "system",
        DefaultPanel::Nothing => "none",
    };
    let units = if s.units_binary {
        "binary"
    } else {
        "decimal"
    };
    let mut cols = String::new();
    let mut i: usize = 0;
    assert(cols@ =~= column_marks(s.col_visible@).take(0));
    while i < s.col_visible.len()
        invariant
            i <= s.col_visible.len(),
            cols@ == column_marks(s.col_visible@).take(i as int),
        decreases s.col_visible.len() - i,
    {
        cols.push(
            if s.col_visible[i] {
                '1'
            } else {
                '0'
            },
        );
        i += 1;
        assert(cols@ =~= column_marks(s.col_visible@).take(i as int));
    }
    assert(cols@ =~= column_marks(s.col_visible@));
    push_line(&mut out, "theme", theme);
    assert(out@ =~= setting_line("theme"@, theme_name(s.theme)));
    push_line(&mut out, "units", units);
    push_line(&mut out, "side", side);
    push_line(&mut out, "scan_on_launch", bit_text(s.scan_on_launch));
    push_line(&mut out, "check_updates_on_launch", bit_text(s.check_updates_on_launch));
    push_line(&mut out, "confirm_recycle", bit_text(s.confirm_recycle));
    push_line(&mut out, "show_sidebar", bit_text(s.show_sidebar));
    push_line(&mut out, "show_system", bit_text(s.show_system_files));
    push_line(&mut out, "cols", cols.as_str());
    push_line(&mut out, "last_update_seen", s.last_update_seen.as_str());
    out
}

// ------------------------------------------------------------------ round trip

/// Whether `c` occurs nowhere in `s`.
pub open spec fn lacks(s: Seq<char>, c: char) -> bool {
    forall|i: int| 0 <= i < s.len() ==> #[trigger] s[i] != c
}

/// Whether `v` can stand as a value: on one line, without white space around it.
pub open spec fn is_value(v: Seq<char>) -> bool {
    lacks(v, '\n') && trimmed(v) == v
}

/// Whether `k` can stand as a key.
spec fn is_key(k: Seq<char>) -> bool {
    k.len() > 0 && lacks(k, '\n') && lacks(k, '=') && !crate::text::is_white(k[0])
        && !crate::text::is_white(k.last())
}

/// The first `c` is where it stands and did not stand before.
proof fn lemma_find_is(s: Seq<char>, c: char, k: int)
    requires
        0 <= k < s.len(),
        s[k] == c,
        forall|i: int| 0 <= i < k ==> s[i] != c,
    ensures
        find(s, c) == k,
{
    lemma_find(s, c);
}

/// Text that neither starts nor ends with white space is not trimmed.
proof fn lemma_not_trimmed(s: Seq<char>)
    requires
        s.len() > 0 ==> !crate::text::is_white(s[0]) && !crate::text::is_white(s.last()),
    ensures
        trimmed(s) == s,
{
    assert(trim_start(s) == s);
    assert(trim_end(s) == s);
}

/// What is trimmed does not end with white space.
proof fn lemma_trimmed_end(s: Seq<char>)
    requires
        trimmed(s) == s,
        s.len() > 0,
    ensures
        !crate::text::is_white(s.last()),
{
    let t = trim_start(s);
    lemma_trim_end_last(t);
}

proof fn lemma_trim_end_last(s: Seq<char>)
    ensures
        trim_end(s).len() > 0 ==> !crate::text::is_white(trim_end(s).last()),
    decreases s.len(),
{
    if s.len() > 0 && crate::text::is_white(s.last()) {
        lemma_trim_end_last(s.drop_last());
    }
}

/// One more line of text is one more line.
proof fn lemma_lines_push(p: Seq<char>, line: Seq<char>)
    requires
        p.len() == 0 || p.last() == '\n',
        lacks(line, '\n'),
        line.len() > 0 ==> line.last() != '\r',
    ensures
        lines(p + line + seq!['\n']) == lines(p).push(line),
    decreases p.len(),
{
    let t = p + line + seq!['\n'];
    if p.len() == 0 {
        assert(t[line.len() as int] == '\n');
        assert(forall|i: int| 0 <= i < line.len() ==> t[i] == line[i]);
        lemma_find_is(t, '\n', line.len() as int);
        assert(t.take(line.len() as int) =~= line);
        assert(t.skip(line.len() + 1 as int) =~= Seq::empty());
        assert(lines(Seq::<char>::empty()) =~= Seq::empty());
        assert(p =~= Seq::empty());
        assert(crate::text::without_cr(line) == line);
        assert(lines(t) =~= lines(p).push(line));
    } else {
        lemma_find(p, '\n');
        let k = find(p, '\n');
        assert(k < p.len()) by {
            if k == p.len() {
                assert(p[p.len() - 1] != '\n');
            }
        }
        assert(t[k] == p[k]);
        assert(forall|i: int| 0 <= i < k ==> t[i] == p[i]);
        lemma_find_is(t, '\n', k);
        let q = p.skip(k + 1);
        assert(q.len() > 0 ==> q.last() == p.last());
        lemma_lines_push(q, line);
        assert(t.skip(k + 1) =~= q + line + seq!['\n']);
        assert(t.take(k) =~= p.take(k));
        assert(lines(t) =~= lines(p).push(line));
    }
}

proof fn lemma_with_lines_prefix(
    s: SettingsView,
    a: Seq<Seq<char>>,
    b: Seq<Seq<char>>,
    n: int,
)
    requires
        n <= a.len(),
        n <= b.len(),
        forall|i: int| 0 <= i < n ==> a[i] == b[i],
    ensures
        with_lines(s, a, n) == with_lines(s, b, n),
    decreases n,
{
    if n > 0 {
        lemma_with_lines_prefix(s, a, b, n - 1);
    }
}

/// One more setting in a text is one more setting.
proof fn lemma_settings_push(p: Seq<char>, k: Seq<char>, v: Seq<char>)
    requires
        p.len() == 0 || p.last() == '\n',
        is_key(k),
        is_value(v),
    ensures
        settings_of(p + setting_line(k, v)) == with_setting(settings_of(p), k, v),
        (p + setting_line(k, v)).last() == '\n',
{
    let line = k + seq!['='] + v;
    let t = p + setting_line(k, v);
    assert(t =~= p + line + seq!['\n']);
    assert(lacks(line, '\n')) by {
        assert forall|i: int| 0 <= i < line.len() implies #[trigger] line[i] != '\n' by {
            if i < k.len() {
                assert(line[i] == k[i]);
            } else if i > k.len() {
                assert(line[i] == v[i - k.len() - 1]);
            }
        }
    }
    if v.len() > 0 {
        lemma_trimmed_end(v);
        assert(line.last() == v.last());
    } else {
        assert(line.last() == '=');
    }
    lemma_lines_push(p, line);
    assert(line[k.len() as int] == '=');
    assert forall|i: int| 0 <= i < k.len() implies line[i] != '=' by {
        assert(line[i] == k[i]);
    }
    lemma_find_is(line, '=', k.len() as int);
    assert(line.take(k.len() as int) =~= k);
    assert(line.skip(k.len() + 1 as int) =~= v);
    lemma_not_trimmed(k);
    let n = lines(p).len() as int;
    lemma_with_lines_prefix(initial_settings(), lines(t), lines(p), n);
    assert(lines(t)[n] == line);
}

proof fn lemma_keys()
    ensures
        is_key("theme"@),
        is_key("units"@),
        is_key("side"@),
        is_key("scan_on_launch"@),
        is_key("check_updates_on_launch"@),
        is_key("last_update_seen"@),
        is_key("confirm_recycle"@),
        is_key("show_sidebar"@),
        is_key("show_system"@),
        is_key("cols"@),
{
    reveal_strlit("theme");
    reveal_strlit("units");
    reveal_strlit("side");
    reveal_strlit("scan_on_launch");
    reveal_strlit("check_updates_on_launch");
    reveal_strlit("last_update_seen");
    reveal_strlit("confirm_recycle");
    reveal_strlit("show_sidebar");
    reveal_strlit("show_system");
    reveal_strlit("cols");
    assert("theme"@ =~= seq!['t', 'h', 'e', 'm', 'e']);
    assert("units"@ =~= seq!['u', 'n', 'i', 't', 's']);
    assert("side"@ =~= seq!['s', 'i', 'd', 'e']);
    assert("scan_on_launch"@ =~= seq!['s', 'c', 'a', 'n', '_', 'o', 'n', '_', 'l', 'a', 'u', 'n', 'c', 'h']);
    assert("check_updates_on_launch"@ =~= seq!['c', 'h', 'e', 'c', 'k', '_', 'u', 'p', 'd', 'a', 't', 'e', 's', '_', 'o', 'n', '_', 'l', 'a', 'u', 'n', 'c', 'h']);
    assert("last_update_seen"@ =~= seq!['l', 'a', 's', 't', '_', 'u', 'p', 'd', 'a', 't', 'e', '_', 's', 'e', 'e', 'n']);
    assert("confirm_recycle"@ =~= seq!['c', 'o', 'n', 'f', 'i', 'r', 'm', '_', 'r', 'e', 'c', 'y', 'c', 'l', 'e']);
    assert("show_sidebar"@ =~= seq!['s', 'h', 'o', 'w', '_', 's', 'i', 'd', 'e', 'b', 'a', 'r']);
    assert("show_system"@ =~= seq!['s', 'h', 'o', 'w', '_', 's', 'y', 's', 't', 'e', 'm']);
    assert("cols"@ =~= seq!['c', 'o', 'l', 's']);
}

/// The keys differ: all but two pairs in length, those in their first letter.
proof fn lemma_keys_differ()
    ensures
        "theme"@.len() == 5,
        "units"@.len() == 5,
        "side"@.len() == 4,
        "scan_on_launch"@.len() == 14,
        "check_updates_on_launch"@.len() == 23,
        "last_update_seen"@.len() == 16,
        "confirm_recycle"@.len() == 15,
        "show_sidebar"@.len() == 12,
        "show_system"@.len() == 11,
        "cols"@.len() == 4,
        "theme"@ != "units"@,
        "side"@ != "cols"@,
{
    reveal_strlit("theme");
    reveal_strlit("units");
    reveal_strlit("side");
    reveal_strlit("scan_on_launch");
    reveal_strlit("check_updates_on_launch");
    reveal_strlit("last_update_seen");
    reveal_strlit("confirm_recycle");
    reveal_strlit("show_sidebar");
    reveal_strlit("show_system");
    reveal_strlit("cols");
    assert("theme"@[0] != "units"@[0]);
    assert("side"@[0] != "cols"@[0]);
}

/// A value made of letters and digits.
proof fn lemma_plain_value(v: Seq<char>)
    requires
        forall|i: int|
            0 <= i < v.len() ==> #[trigger] v[i] != '\n' && !crate::text::is_white(v[i]),
    ensures
        is_value(v),
{
    lemma_not_trimmed(v);
}

proof fn lemma_values(s: SettingsView)
    ensures
        is_value(theme_name(s.theme)),
        is_value(units_name(s.units_binary)),
        is_value(panel_name(s.default_side)),
        is_value(bit(true)),
        is_value(bit(false)),
        is_value(column_marks(s.col_visible)),
        theme_named(theme_name(s.theme)) == s.theme,
        panel_named(panel_name(s.default_side)) == s.default_side,
        (units_name(s.units_binary) != "decimal"@) == s.units_binary,
        bit(true) == "1"@ && bit(true) != "0"@,
        bit(false) == "0"@ && bit(false) != "1"@,
{
    reveal_strlit("light");
    assert("light"@ =~= seq!['l', 'i', 'g', 'h', 't']);
    reveal_strlit("dark");
    assert("dark"@ =~= seq!['d', 'a', 'r', 'k']);
    reveal_strlit("auto");
    assert("auto"@ =~= seq!['a', 'u', 't', 'o']);
    reveal_strlit("top");
    assert("top"@ =~= seq!['t', 'o', 'p']);
    reveal_strlit("oldest");
    assert("oldest"@ =~= seq!['o', 'l', 'd', 'e', 's', 't']);
    reveal_strlit("temp");
    assert("temp"@ =~= seq!['t', 'e', 'm', 'p']);
    reveal_strlit("system");
    assert("system"@ =~= seq!['s', 'y', 's', 't', 'e', 'm']);
    reveal_strlit("none");
    assert("none"@ =~= seq!['n', 'o', 'n', 'e']);
    reveal_strlit("binary");
    assert("binary"@ =~= seq!['b', 'i', 'n', 'a', 'r', 'y']);
    reveal_strlit("decimal");
    assert("decimal"@ =~= seq!['d', 'e', 'c', 'i', 'm', 'a', 'l']);
    reveal_strlit("1");
    assert("1"@ =~= seq!['1']);
    reveal_strlit("0");
    assert("0"@ =~= seq!['0']);
    lemma_plain_value(theme_name(s.theme));
    lemma_plain_value(units_name(s.units_binary));
    lemma_plain_value(panel_name(s.default_side));
    lemma_plain_value(bit(true));
    lemma_plain_value(bit(false));
    lemma_plain_value(column_marks(s.col_visible));
    assert("dark"@[0] != "auto"@[0]);
    assert("oldest"@[0] != "system"@[0]);
    assert("temp"@[0] != "none"@[0]);
    assert("1"@[0] != "0"@[0]);
}

/// Settings that are written down and read again are the same settings. The note of
/// the last release seen has to fit on its line.
pub proof fn law_settings_round_trip(s: SettingsView)
    requires
        is_settings(s),
        is_value(s.last_update_seen),
    ensures
        settings_of(settings_text(s)) == s,
{
    lemma_keys();
    lemma_keys_differ();
    lemma_values(s);
    let p0 = Seq::<char>::empty();
    let p1 = p0 + setting_line("theme"@, theme_name(s.theme));
    let p2 = p1 + setting_line("units"@, units_name(s.units_binary));
    let p3 = p2 + setting_line("side"@, panel_name(s.default_side));
    let p4 = p3 + setting_line("scan_on_launch"@, bit(s.scan_on_launch));
    let p5 = p4 + setting_line("check_updates_on_launch"@, bit(s.check_updates_on_launch));
    let p6 = p5 + setting_line("confirm_recycle"@, bit(s.confirm_recycle));
    let p7 = p6 + setting_line("show_sidebar"@, bit(s.show_sidebar));
    let p8 = p7 + setting_line("show_system"@, bit(s.show_system_files));
    let p9 = p8 + setting_line("cols"@, column_marks(s.col_visible));
    assert(p1 =~= setting_line("theme"@, theme_name(s.theme)));
    lemma_settings_push(p0, "theme"@, theme_name(s.theme));
    lemma_settings_push(p1, "units"@, units_name(s.units_binary));
    lemma_settings_push(p2, "side"@, panel_name(s.default_side));
    lemma_settings_push(p3, "scan_on_launch"@, bit(s.scan_on_launch));
    lemma_settings_push(p4, "check_updates_on_launch"@, bit(s.check_updates_on_launch));
    lemma_settings_push(p5, "confirm_recycle"@, bit(s.confirm_recycle));
    lemma_settings_push(p6, "show_sidebar"@, bit(s.show_sidebar));
    lemma_settings_push(p7, "show_system"@, bit(s.show_system_files));
    lemma_settings_push(p8, "cols"@, column_marks(s.col_visible));
    lemma_settings_push(p9, "last_update_seen"@, s.last_update_seen);
    let r = settings_of(settings_text(s));
    assert(lines(p0) =~= Seq::empty());
    assert(settings_of(p0) == initial_settings());
    assert(columns_marked(initial_settings().col_visible, column_marks(s.col_visible))
        =~= s.col_visible);
    assert(r.col_visible =~= s.col_visible);
}

/// Every setting goes by its name: it is set by the value behind it, and nothing else
/// changes. What is on by default is off only where it says 0, and what is off only on where
/// it says 1.
#[verifier::rlimit(60)]
pub proof fn law_settings_by_name(s: SettingsView, v: Seq<char>)
    ensures
        with_setting(s, "theme"@, "light"@) == (SettingsView { theme: ThemeMode::Light, ..s }),
        with_setting(s, "theme"@, "dark"@) == (SettingsView { theme: ThemeMode::Dark, ..s }),
        with_setting(s, "theme"@, "auto"@) == (SettingsView { theme: ThemeMode::Auto, ..s }),
        with_setting(s, "units"@, v) == (SettingsView { units_binary: v != "decimal"@, ..s }),
        with_setting(s, "side"@, "top"@) == (SettingsView {
            default_side: DefaultPanel::TopFiles,
            ..s
        }),
        with_setting(s, "side"@, "oldest"@) == (SettingsView {
            default_side: DefaultPanel::OldestFiles,
            ..s
        }),
        with_setting(s, "side"@, "temp"@) == (SettingsView {
            default_side: DefaultPanel::TempFiles,
            ..s
        }),
        with_setting(s, "side"@, "system"@) == (SettingsView {
            default_side: DefaultPanel::SystemCleanup,
            ..s
        }),
        with_setting(s, "side"@, "none"@) == (SettingsView {
            default_side: DefaultPanel::Nothing,
            ..s
        }),
        with_setting(s, "scan_on_launch"@, v) == (SettingsView { scan_on_launch: v != "0"@, ..s }),
        with_setting(s, "check_updates_on_launch"@, v) == (SettingsView {
            check_updates_on_launch: v != "0"@,
            ..s
        }),
        with_setting(s, "confirm_recycle"@, v) == (SettingsView { confirm_recycle: v != "0"@, ..s }),
        with_setting(s, "show_sidebar"@, v) == (SettingsView { show_sidebar: v != "0"@, ..s }),
        with_setting(s, "show_system"@, v) == (SettingsView { show_system_files: v == "1"@, ..s }),
        with_setting(s, "last_update_seen"@, v) == (SettingsView { last_update_seen: v, ..s }),
        s.col_visible.len() == 8 && v.len() == 8 ==> ({
            let c = with_setting(s, "cols"@, v);
            &&& c == (SettingsView { col_visible: c.col_visible, ..s })
            &&& c.col_visible.len() == 8
            &&& forall|i: int|
                0 <= i < 8 ==> #[trigger] c.col_visible[i] == (i == 0 || i == 3 || v[i] != '0')
        }),
{
    lemma_keys_differ();
    lemma_values(SettingsView { theme: ThemeMode::Light, default_side: DefaultPanel::TopFiles, ..s });
    lemma_values(
        SettingsView { theme: ThemeMode::Dark, default_side: DefaultPanel::OldestFiles, ..s },
    );
    lemma_values(SettingsView { theme: ThemeMode::Auto, default_side: DefaultPanel::TempFiles, ..s });
    lemma_values(SettingsView { default_side: DefaultPanel::SystemCleanup, ..s });
    lemma_values(SettingsView { default_side: DefaultPanel::Nothing, ..s });
}

/// What a first run begins with: the theme of the system, steps of 1024, the largest files
/// beside the list, a scan of all drives and a look for updates, a question before anything
/// is recycled, and all columns.
pub proof fn law_first_run()
    ensures
        ({
            let s = initial_settings();
            &&& s.theme == ThemeMode::Auto
            &&& s.units_binary
            &&& s.default_side == DefaultPanel::TopFiles
            &&& s.scan_on_launch
            &&& s.check_updates_on_launch
            &&& s.confirm_recycle
            &&& s.show_sidebar
            &&& !s.show_system_files
            &&& s.col_visible.len() == 8
            &&& forall|c: int| 0 <= c < 8 ==> #[trigger] s.col_visible[c]
            &&& s.last_update_seen.len() == 0
        }),
        settings_of(Seq::empty()) == initial_settings(),
{
}

} // verus!
