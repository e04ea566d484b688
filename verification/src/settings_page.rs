//! The settings window: its controls, what a click on them does, and its tooltips.

use crate::geometry::{px, to_px, Rect};
use crate::settings::{
    is_fixed_column, is_settings, DefaultPanel, Settings, SettingsView, ThemeMode, COLUMNS,
};
use vstd::prelude::*;

verus! {

/// What a control does.
#[derive(Copy, Clone, Debug, PartialEq, Eq, Structural)]
pub enum SettingsAction {
    Theme(ThemeMode),
    /// Steps of 1024, or of 1000.
    Units(bool),
    Side(DefaultPanel),
    ToggleScan,
    ToggleUpdates,
    ToggleConfirm,
    ToggleSidebar,
    ToggleSystemFiles,
    ToggleColumn(usize),
}

/// Whether a column's mark can be changed: not that of a column that is always shown.
pub open spec fn can_toggle(c: int) -> bool {
    0 <= c < COLUMNS && !is_fixed_column(c)
}

/// The settings after a click.
pub open spec fn acted(s: SettingsView, a: SettingsAction) -> SettingsView {
    match a {
        SettingsAction::Theme(t) => SettingsView { theme: t, ..s },
        SettingsAction::Units(b) => SettingsView { units_binary: b, ..s },
        SettingsAction::Side(p) => SettingsView { default_side: p, ..s },
        SettingsAction::ToggleScan => SettingsView { scan_on_launch: !s.scan_on_launch, ..s },
        SettingsAction::ToggleUpdates => SettingsView {
            check_updates_on_launch: !s.check_updates_on_launch,
            ..s
        },
        SettingsAction::ToggleConfirm => SettingsView { confirm_recycle: !s.confirm_recycle, ..s },
        SettingsAction::ToggleSidebar => SettingsView { show_sidebar: !s.show_sidebar, ..s },
        SettingsAction::ToggleSystemFiles => SettingsView {
            show_system_files: !s.show_system_files,
            ..s
        },
        SettingsAction::ToggleColumn(c) => if can_toggle(c as int) {
            SettingsView { col_visible: s.col_visible.update(c as int, !s.col_visible[c as int]), ..s }
        } else {
            s
        },
    }
}

/// Does what a control does. Tells whether there is anything to save: a column that
/// cannot be changed is left alone.
pub fn apply_action(s: &mut Settings, a: SettingsAction) -> (changed: bool)
    requires
        is_settings(old(s)@),
    ensures
        is_settings(final(s)@),
        final(s)@ == acted(old(s)@, a),
        changed == !(a is ToggleColumn && !can_toggle(a->ToggleColumn_0 as int)),
{
    match a {
        SettingsAction::Theme(t) => {
            s.theme = t;
        },
        SettingsAction::Units(b) => {
            s.units_binary = b;
        },
        SettingsAction::Side(p) => {
            s.default_side = p;
        },
        SettingsAction::ToggleScan => {
            s.scan_on_launch = !s.scan_on_launch;
        },
        SettingsAction::ToggleUpdates => {
            s.check_updates_on_launch = !s.check_updates_on_launch;
        },
        SettingsAction::ToggleConfirm => {
            s.confirm_recycle = !s.confirm_recycle;
        },
        SettingsAction::ToggleSidebar => {
            s.show_sidebar = !s.show_sidebar;
        },
        SettingsAction::ToggleSystemFiles => {
            s.show_system_files = !s.show_system_files;
        },
        SettingsAction::ToggleColumn(c) => {
            if c < COLUMNS && c != 0 && c != 3 {
                let b = !s.col_visible[c];
                s.col_visible.set(c, b);
            } else {
                return false;
            }
        },
    }
    true
}

/// Clicking a checkbox twice changes nothing.
pub proof fn law_toggles_undo(s: SettingsView, a: SettingsAction)
    requires
        is_settings(s),
        !(a is Theme || a is Units || a is Side),
    ensures
        acted(acted(s, a), a) == s,
{
    assert(acted(acted(s, a), a).col_visible =~= s.col_visible);
}

/// The size of the window.
pub const WIN_W: i32 = 460;
pub const WIN_H: i32 = 746;

/// One control.
#[derive(Debug)]
pub struct PageItem {
    pub rect: Rect,
    pub label: &'static str,
    pub action: SettingsAction,
    /// Whether it is chosen or ticked.
    pub active: bool,
}

pub struct ItemView {
    pub rect: Rect,
    pub label: Seq<char>,
    pub action: SettingsAction,
    pub active: bool,
}

impl View for PageItem {
    type V = ItemView;

    open spec fn view(&self) -> ItemView {
        ItemView {
            rect: self.rect,
            label: self.label@,
            action: self.action,
            active: self.active,
        }
    }
}

pub open spec fn items(v: Seq<PageItem>) -> Seq<ItemView> {
    v.map_values(|i: PageItem| i@)
}

/// Segment `i` of `n` in the row at height `y`.
pub open spec fn segment_at(i: int, n: int, y: int) -> Rect {
    let w = 240int / n;
    Rect {
        left: (196 + w * i) as i32,
        top: y as i32,
        right: (196 + w * i + w) as i32,
        bottom: (y + 30) as i32,
    }
}

/// The checkbox row at height `y`.
pub open spec fn checkbox_at(y: int) -> Rect {
    Rect { left: 24, top: y as i32, right: 436, bottom: (y + 28) as i32 }
}

pub open spec fn segment(
    i: int,
    n: int,
    y: int,
    label: Seq<char>,
    action: SettingsAction,
    active: bool,
) -> ItemView {
    ItemView { rect: segment_at(i, n, y), label, action, active }
}

pub open spec fn checkbox(y: int, label: Seq<char>, action: SettingsAction, active: bool) -> ItemView {
    ItemView { rect: checkbox_at(y), label, action, active }
}

/// The theme and the units.
pub open spec fn theme_rows(s: SettingsView) -> Seq<ItemView> {
    seq![
        segment(0, 3, 86, "Auto"@, SettingsAction::Theme(ThemeMode::Auto), s.theme == ThemeMode::Auto),
        segment(1, 3, 86, "Light"@, SettingsAction::Theme(ThemeMode::Light), s.theme == ThemeMode::Light),
        segment(2, 3, 86, "Dark"@, SettingsAction::Theme(ThemeMode::Dark), s.theme == ThemeMode::Dark),
        segment(0, 2, 124, "Binary"@, SettingsAction::Units(true), s.units_binary),
        segment(1, 2, 124, "Decimal"@, SettingsAction::Units(false), !s.units_binary),
    ]
}

/// What the side panel shows at first.
pub open spec fn panel_rows(s: SettingsView) -> Seq<ItemView> {
    seq![
        segment(0, 4, 200, "Top"@, SettingsAction::Side(DefaultPanel::TopFiles), s.default_side == DefaultPanel::TopFiles),
        segment(1, 4, 200, "Oldest"@, SettingsAction::Side(DefaultPanel::OldestFiles), s.default_side == DefaultPanel::OldestFiles),
        segment(2, 4, 200, "Temp"@, SettingsAction::Side(DefaultPanel::TempFiles), s.default_side == DefaultPanel::TempFiles),
        segment(3, 4, 200, "None"@, SettingsAction::Side(DefaultPanel::Nothing), s.default_side == DefaultPanel::Nothing),
    ]
}

/// What happens at the start, and what is asked and shown.
pub open spec fn startup_rows(s: SettingsView) -> Seq<ItemView> {
    seq![
        checkbox(240, "Scan all drives on launch"@, SettingsAction::ToggleScan, s.scan_on_launch),
        checkbox(274, "Check for updates on launch"@, SettingsAction::ToggleUpdates, s.check_updates_on_launch),
        checkbox(350, "Confirm before recycling"@, SettingsAction::ToggleConfirm, s.confirm_recycle),
        checkbox(384, "Show drive sidebar"@, SettingsAction::ToggleSidebar, s.show_sidebar),
        checkbox(418, "Show protected system files"@, SettingsAction::ToggleSystemFiles, s.show_system_files),
    ]
}

/// The columns that are shown.
pub open spec fn column_rows(s: SettingsView) -> Seq<ItemView> {
    seq![
        checkbox(492, "% of parent"@, SettingsAction::ToggleColumn(1), s.col_visible[1]),
        checkbox(524, "Free space"@, SettingsAction::ToggleColumn(2), s.col_visible[2]),
        checkbox(556, "Own size"@, SettingsAction::ToggleColumn(4), s.col_visible[4]),
        checkbox(588, "Files"@, SettingsAction::ToggleColumn(5), s.col_visible[5]),
        checkbox(620, "Folders"@, SettingsAction::ToggleColumn(6), s.col_visible[6]),
        checkbox(652, "Modified"@, SettingsAction::ToggleColumn(7), s.col_visible[7]),
    ]
}

/// All controls, from the top down.
pub open spec fn page_of(s: SettingsView) -> Seq<ItemView> {
    theme_rows(s) + panel_rows(s) + startup_rows(s) + column_rows(s)
}

fn push_segment(
    out: &mut Vec<PageItem>,
    i: i32,
    n: i32,
    y: i32,
    label: &'static str,
    action: SettingsAction,
    active: bool,
)
    requires
        0 <= i < n <= 4,
        0 <= y <= 1000,
    ensures
        items(final(out)@) == items(old(out)@).push(
            segment(i as int, n as int, y as int, label@, action, active),
        ),
{
    let ghost before = items(out@);
    let w: i32 = 240 / n;
    assert(60 <= w <= 240) by (nonlinear_arith)
        requires
            w == 240int / n as int,
            1 <= n <= 4,
    ;
    assert(0 <= w * i <= 960) by (nonlinear_arith)
        requires
            0 <= w <= 240,
            0 <= i <= 4,
    ;
    let left: i32 = 196 + w * i;
    let item = PageItem {
        rect: Rect { left, top: y, right: left + w, bottom: y + 30 },
        label,
        action,
        active,
    };
    out.push(item);
    assert(items(out@) =~= before.push(item@));
}

fn push_checkbox(
    out: &mut Vec<PageItem>,
    y: i32,
    label: &'static str,
    action: SettingsAction,
    active: bool,
)
    requires
        0 <= y <= 1000,
    ensures
        items(final(out)@) == items(old(out)@).push(checkbox(y as int, label@, action, active)),
{
    let ghost before = items(out@);
    let item = PageItem {
        rect: Rect { left: 24, top: y, right: WIN_W - 24, bottom: y + 28 },
        label,
        action,
        active,
    };
    out.push(item);
    assert(items(out@) =~= before.push(item@));
}

fn push_theme_rows(v: &mut Vec<PageItem>, s: &Settings)
    requires
        is_settings(s@),
    ensures
        items(final(v)@) == items(old(v)@) + theme_rows(s@),
{
    let ghost before = items(v@);
    push_segment(v, 0, 3, 86, "Auto", SettingsAction::Theme(ThemeMode::Auto), s.theme == ThemeMode::Auto);
    push_segment(v, 1, 3, 86, "Light", SettingsAction::Theme(ThemeMode::Light), s.theme == ThemeMode::Light);
    push_segment(v, 2, 3, 86, "Dark", SettingsAction::Theme(ThemeMode::Dark), s.theme == ThemeMode::Dark);
    push_segment(v, 0, 2, 124, "Binary", SettingsAction::Units(true), s.units_binary);
    push_segment(v, 1, 2, 124, "Decimal", SettingsAction::Units(false), !s.units_binary);
    assert(items(v@) =~= before + theme_rows(s@));
}

fn push_panel_rows(v: &mut Vec<PageItem>, s: &Settings)
    requires
        is_settings(s@),
    ensures
        items(final(v)@) == items(old(v)@) + panel_rows(s@),
{
    let ghost before = items(v@);
    push_segment(v, 0, 4, 200, "Top", SettingsAction::Side(DefaultPanel::TopFiles), s.default_side == DefaultPanel::TopFiles);
    push_segment(v, 1, 4, 200, "Oldest", SettingsAction::Side(DefaultPanel::OldestFiles), s.default_side == DefaultPanel::OldestFiles);
    push_segment(v, 2, 4, 200, "Temp", SettingsAction::Side(DefaultPanel::TempFiles), s.default_side == DefaultPanel::TempFiles);
    push_segment(v, 3, 4, 200, "None", SettingsAction::Side(DefaultPanel::Nothing), s.default_side == DefaultPanel::Nothing);
    assert(items(v@) =~= before + panel_rows(s@));
}

fn push_startup_rows(v: &mut Vec<PageItem>, s: &Settings)
    requires
        is_settings(s@),
    ensures
        items(final(v)@) == items(old(v)@) + startup_rows(s@),
{
    let ghost before = items(v@);
    push_checkbox(v, 240, "Scan all drives on launch", SettingsAction::ToggleScan, s.scan_on_launch);
    push_checkbox(v, 274, "Check for updates on launch", SettingsAction::ToggleUpdates, s.check_updates_on_launch);
    push_checkbox(v, 350, "Confirm before recycling", SettingsAction::ToggleConfirm, s.confirm_recycle);
    push_checkbox(v, 384, "Show drive sidebar", SettingsAction::ToggleSidebar, s.show_sidebar);
    push_checkbox(v, 418, "Show protected system files", SettingsAction::ToggleSystemFiles, s.show_system_files);
    assert(items(v@) =~= before + startup_rows(s@));
}

fn push_column_rows(v: &mut Vec<PageItem>, s: &Settings)
    requires
        is_settings(s@),
    ensures
        items(final(v)@) == items(old(v)@) + column_rows(s@),
{
    let ghost before = items(v@);
    push_checkbox(v, 492, "% of parent", SettingsAction::ToggleColumn(1), s.col_visible[1]);
    push_checkbox(v, 524, "Free space", SettingsAction::ToggleColumn(2), s.col_visible[2]);
    push_checkbox(v, 556, "Own size", SettingsAction::ToggleColumn(4), s.col_visible[4]);
    push_checkbox(v, 588, "Files", SettingsAction::ToggleColumn(5), s.col_visible[5]);
    push_checkbox(v, 620, "Folders", SettingsAction::ToggleColumn(6), s.col_visible[6]);
    push_checkbox(v, 652, "Modified", SettingsAction::ToggleColumn(7), s.col_visible[7]);
    assert(items(v@) =~= before + column_rows(s@));
}

/// Lists all controls.
pub fn settings_page(s: &Settings) -> (r: Vec<PageItem>)
    requires
        is_settings(s@),
    ensures
        items(r@) == page_of(s@),
{
    let mut v: Vec<PageItem> = Vec::new();
    push_theme_rows(&mut v, s);
    assert(items(v@) =~= theme_rows(s@));
    push_panel_rows(&mut v, s);
    push_startup_rows(&mut v, s);
    push_column_rows(&mut v, s);
    v
}

/// The first control from `i` on that holds a point.
pub open spec fn control_at(page: Seq<ItemView>, x: int, y: int, i: int) -> Option<SettingsAction>
    decreases page.len() - i,
{
    if i >= page.len() {
        None
    } else if page[i].rect.has(x, y) {
        Some(page[i].action)
    } else {
        control_at(page, x, y, i + 1)
    }
}

/// What a click on the page does.
pub fn page_hit(page: &Vec<PageItem>, x: i32, y: i32) -> (r: Option<SettingsAction>)
    ensures
        r == control_at(items(page@), x as int, y as int, 0),
{
    let mut i: usize = 0;
    while i < page.len()
        invariant
            i <= page.len(),
            control_at(items(page@), x as int, y as int, i as int) == control_at(
                items(page@),
                x as int,
                y as int,
                0,
            ),
        decreases page.len() - i,
    {
        assert(items(page@)[i as int] == page@[i as int]@);
        if page[i].rect.contains(x, y) {
            return Some(page[i].action);
        }
        i += 1;
    }
    None
}

/// The information mark beside column row `i`.
pub open spec fn info_at(i: int) -> Rect {
    Rect { left: 176, top: (492 + 32 * i) as i32, right: 200, bottom: (520 + 32 * i) as i32 }
}

/// The column row whose information mark holds a point, if any.
pub fn info_hit(x: i32, y: i32) -> (r: Option<usize>)
    ensures
        r is Some ==> r->0 < 6 && info_at(r->0 as int).has(x as int, y as int),
        r is None ==> forall|i: int|
            0 <= i < 6 ==> !(#[trigger] info_at(i)).has(x as int, y as int),
{
    let mut i: usize = 0;
    while i < 6
        invariant
            i <= 6,
            forall|k: int| 0 <= k < i ==> !(#[trigger] info_at(k)).has(x as int, y as int),
        decreases 6 - i,
    {
        let top: i32 = 492 + 32 * i as i32;
        let mark = Rect { left: 176, top, right: 200, bottom: top + 28 };
        assert(mark == info_at(i as int));
        if mark.contains(x, y) {
            return Some(i);
        }
        i += 1;
    }
    None
}

/// What the tooltip of a column row says.
pub open spec fn description(i: int) -> Seq<char> {
    if i == 0 {
        "How much of the parent folder's size this item takes up, shown as a bar and percentage."@
    } else if i == 1 {
        "Free space left on the disk this item lives on, shown as a bar and amount."@
    } else if i == 2 {
        "Size of the files directly in this folder only, excluding everything in its subfolders."@
    } else if i == 3 {
        "Total number of files inside this folder, counting all of its subfolders."@
    } else if i == 4 {
        "Total number of subfolders inside this folder, counting all nested levels."@
    } else {
        "The date this folder's contents were most recently changed."@
    }
}

pub fn column_description(i: usize) -> (r: &'static str)
    ensures
        r@ == description(i as int),
{
    if i == 0 {
        "How much of the parent folder's size this item takes up, shown as a bar and percentage."
    } else if i == 1 {
        "Free space left on the disk this item lives on, shown as a bar and amount."
    } else if i == 2 {
        "Size of the files directly in this folder only, excluding everything in its subfolders."
    } else if i == 3 {
        "Total number of files inside this folder, counting all of its subfolders."
    } else if i == 4 {
        "Total number of subfolders inside this folder, counting all nested levels."
    } else {
        "The date this folder's contents were most recently changed."
    }
}

/// The bubble of a tooltip with a text of that size, beside `anchor` and never below
/// the window.
pub fn tooltip_rect(anchor: &Rect, text_w: i32, text_h: i32) -> (r: Rect)
    ensures
        ({
            let low = WIN_H - 8 - (text_h + 16);
            let y = if anchor.top - 4 < low {
                anchor.top - 4
            } else {
                low
            };
            let top = if y < 8 {
                8
            } else {
                y
            };
            &&& r.left == px(anchor.right + 6)
            &&& r.right == px(anchor.right + 6 + text_w + 16)
            &&& r.top == px(top)
            &&& r.bottom == px(top + text_h + 16)
        }),
{
    let left: i128 = anchor.right as i128 + 6;
    let height: i128 = text_h as i128 + 16;
    let low: i128 = WIN_H as i128 - 8 - height;
    let mut top: i128 = anchor.top as i128 - 4;
    if top >= low {
        top = low;
    }
    if top < 8 {
        top = 8;
    }
    Rect {
        left: to_px(left),
        top: to_px(top),
        right: to_px(left + text_w as i128 + 16),
        bottom: to_px(top + height),
    }
}

/// No two controls overlap, and all lie in the window: a click means at most one of
/// them.
pub proof fn law_controls_disjoint(s: SettingsView, i: int, j: int, x: int, y: int)
    requires
        0 <= i < page_of(s).len(),
        0 <= j < page_of(s).len(),
        i != j,
        page_of(s)[i].rect.has(x, y),
    ensures
        !page_of(s)[j].rect.has(x, y),
        0 <= x < WIN_W,
        0 <= y < WIN_H,
{
}

/// A control shows the setting that it changes: a click on a checkbox turns its tick round,
/// and a click on a choice makes it the one that is chosen. Every other checkbox stays as it
/// is.
#[verifier::rlimit(60)]
pub proof fn law_controls_show_what_they_set(s: SettingsView, i: int, j: int)
    requires
        is_settings(s),
        0 <= i < page_of(s).len(),
        0 <= j < page_of(s).len(),
    ensures
        ({
            let a = page_of(s)[i].action;
            let after = page_of(acted(s, a));
            &&& after.len() == page_of(s).len()
            &&& after[i].label == page_of(s)[i].label && after[i].action == a
            &&& i < 9 ==> after[i].active
            &&& i >= 9 ==> after[i].active == !page_of(s)[i].active
            &&& j >= 9 && j != i ==> after[j].active == page_of(s)[j].active
        }),
{
    let a = page_of(s)[i].action;
    let t = acted(s, a);
    assert(page_of(s).len() == 20 && page_of(t).len() == 20) by {
        lemma_page(s, i);
        lemma_page(t, i);
    }
    assert(a == row_of(s, i).0 && page_of(s)[i].active == row_of(s, i).1) by {
        lemma_page(s, i);
    }
    assert(page_of(s)[j].active == row_of(s, j).1) by {
        lemma_page(s, j);
    }
    assert(page_of(t)[i].action == row_of(t, i).0 && page_of(t)[i].active == row_of(t, i).1) by {
        lemma_page(t, i);
    }
    assert(page_of(t)[j].active == row_of(t, j).1) by {
        lemma_page(t, j);
    }
    assert(page_of(t)[i].label == page_of(s)[i].label) by {
        lemma_same_labels(s, t, i);
    }
    lemma_click(s, i, j);
}

proof fn lemma_click(s: SettingsView, i: int, j: int)
    requires
        is_settings(s),
        0 <= i < 20,
        0 <= j < 20,
    ensures
        ({
            let t = acted(s, row_of(s, i).0);
            &&& row_of(t, i).0 == row_of(s, i).0
            &&& i < 9 ==> row_of(t, i).1
            &&& i >= 9 ==> row_of(t, i).1 == !row_of(s, i).1
            &&& j >= 9 && j != i ==> row_of(t, j).1 == row_of(s, j).1
        }),
{
}

spec fn row_of(s: SettingsView, i: int) -> (SettingsAction, bool) {
    if i == 0 {
        (SettingsAction::Theme(ThemeMode::Auto), s.theme == ThemeMode::Auto)
    } else if i == 1 {
        (SettingsAction::Theme(ThemeMode::Light), s.theme == ThemeMode::Light)
    } else if i == 2 {
        (SettingsAction::Theme(ThemeMode::Dark), s.theme == ThemeMode::Dark)
    } else if i == 3 {
        (SettingsAction::Units(true), s.units_binary)
    } else if i == 4 {
        (SettingsAction::Units(false), !s.units_binary)
    } else if i == 5 {
        (SettingsAction::Side(DefaultPanel::TopFiles), s.default_side == DefaultPanel::TopFiles)
    } else if i == 6 {
        (
            SettingsAction::Side(DefaultPanel::OldestFiles),
            s.default_side == DefaultPanel::OldestFiles,
        )
    } else if i == 7 {
        (SettingsAction::Side(DefaultPanel::TempFiles), s.default_side == DefaultPanel::TempFiles)
    } else if i == 8 {
        (SettingsAction::Side(DefaultPanel::Nothing), s.default_side == DefaultPanel::Nothing)
    } else if i == 9 {
        (SettingsAction::ToggleScan, s.scan_on_launch)
    } else if i == 10 {
        (SettingsAction::ToggleUpdates, s.check_updates_on_launch)
    } else if i == 11 {
        (SettingsAction::ToggleConfirm, s.confirm_recycle)
    } else if i == 12 {
        (SettingsAction::ToggleSidebar, s.show_sidebar)
    } else if i == 13 {
        (SettingsAction::ToggleSystemFiles, s.show_system_files)
    } else if i == 14 {
        (SettingsAction::ToggleColumn(1), s.col_visible[1])
    } else if i == 15 {
        (SettingsAction::ToggleColumn(2), s.col_visible[2])
    } else if i == 16 {
        (SettingsAction::ToggleColumn(4), s.col_visible[4])
    } else if i == 17 {
        (SettingsAction::ToggleColumn(5), s.col_visible[5])
    } else if i == 18 {
        (SettingsAction::ToggleColumn(6), s.col_visible[6])
    } else {
        (SettingsAction::ToggleColumn(7), s.col_visible[7])
    }
}

proof fn lemma_page(s: SettingsView, i: int)
    requires
        0 <= i < 20,
    ensures
        page_of(s).len() == 20,
        page_of(s)[i].action == row_of(s, i).0,
        page_of(s)[i].active == row_of(s, i).1,
{
}

proof fn lemma_same_labels(s: SettingsView, t: SettingsView, i: int)
    requires
        0 <= i < 20,
    ensures
        page_of(s)[i].label == page_of(t)[i].label,
{
}

/// Controls are for what their labels say.
pub proof fn law_labels_say_what_is_set(s: SettingsView)
    ensures
        ({
            let p = page_of(s);
            &&& p[0].label == "Auto"@ && acted(s, p[0].action) == (SettingsView {
                theme: ThemeMode::Auto,
                ..s
            })
            &&& p[1].label == "Light"@ && acted(s, p[1].action) == (SettingsView {
                theme: ThemeMode::Light,
                ..s
            })
            &&& p[2].label == "Dark"@ && acted(s, p[2].action) == (SettingsView {
                theme: ThemeMode::Dark,
                ..s
            })
            &&& p[3].label == "Binary"@ && acted(s, p[3].action) == (SettingsView {
                units_binary: true,
                ..s
            })
            &&& p[4].label == "Decimal"@ && acted(s, p[4].action) == (SettingsView {
                units_binary: false,
                ..s
            })
            &&& p[5].label == "Top"@ && acted(s, p[5].action) == (SettingsView {
                default_side: DefaultPanel::TopFiles,
                ..s
            })
            &&& p[6].label == "Oldest"@ && acted(s, p[6].action) == (SettingsView {
                default_side: DefaultPanel::OldestFiles,
                ..s
            })
            &&& p[7].label == "Temp"@ && acted(s, p[7].action) == (SettingsView {
                default_side: DefaultPanel::TempFiles,
                ..s
            })
            &&& p[8].label == "None"@ && acted(s, p[8].action) == (SettingsView {
                default_side: DefaultPanel::Nothing,
                ..s
            })
            &&& p[9].label == "Scan all drives on launch"@ && acted(s, p[9].action) == (
            SettingsView { scan_on_launch: !s.scan_on_launch, ..s })
            &&& p[10].label == "Check for updates on launch"@ && acted(s, p[10].action) == (
            SettingsView { check_updates_on_launch: !s.check_updates_on_launch, ..s })
            &&& p[11].label == "Confirm before recycling"@ && acted(s, p[11].action) == (
            SettingsView { confirm_recycle: !s.confirm_recycle, ..s })
            &&& p[12].label == "Show drive sidebar"@ && acted(s, p[12].action) == (SettingsView {
                show_sidebar: !s.show_sidebar,
                ..s
            })
            &&& p[13].label == "Show protected system files"@ && acted(s, p[13].action) == (
            SettingsView { show_system_files: !s.show_system_files, ..s })
            &&& p[14].label == "% of parent"@ && p[14].action == SettingsAction::ToggleColumn(1)
            &&& p[15].label == "Free space"@ && p[15].action == SettingsAction::ToggleColumn(2)
            &&& p[16].label == "Own size"@ && p[16].action == SettingsAction::ToggleColumn(4)
            &&& p[17].label == "Files"@ && p[17].action == SettingsAction::ToggleColumn(5)
            &&& p[18].label == "Folders"@ && p[18].action == SettingsAction::ToggleColumn(6)
            &&& p[19].label == "Modified"@ && p[19].action == SettingsAction::ToggleColumn(7)
        }),
        forall|c: usize|
            c < 8 && c != 0 && c != 3 && s.col_visible.len() == 8 ==> #[trigger] acted(
                s,
                SettingsAction::ToggleColumn(c),
            ) == (SettingsView {
                col_visible: s.col_visible.update(c as int, !s.col_visible[c as int]),
                ..s
            }),
        acted(s, SettingsAction::ToggleColumn(0)) == s,
        acted(s, SettingsAction::ToggleColumn(3)) == s,
{
}

/// A click on a control of the page means that control; a click beside all of them means
/// nothing.
pub proof fn law_clicks_meet_their_control(s: SettingsView, x: int, y: int)
    ensures
        forall|k: int|
            0 <= k < page_of(s).len() && (#[trigger] page_of(s)[k]).rect.has(x, y) ==> control_at(
                page_of(s),
                x,
                y,
                0,
            ) == Some(page_of(s)[k].action),
        (forall|k: int|
            0 <= k < page_of(s).len() ==> !(#[trigger] page_of(s)[k]).rect.has(x, y)) ==> control_at(
            page_of(s),
            x,
            y,
            0,
        ) is None,
{
    let page = page_of(s);
    assert forall|i: int, j: int|
        0 <= i < page.len() && 0 <= j < page.len() && i != j && (#[trigger] page[i]).rect.has(
            x,
            y,
        ) implies !(#[trigger] page[j]).rect.has(x, y) by {
        law_controls_disjoint(s, i, j, x, y);
    }
    lemma_only_control(page, x, y, 0);
}

proof fn lemma_only_control(page: Seq<ItemView>, x: int, y: int, i: int)
    requires
        0 <= i <= page.len(),
        forall|i: int, j: int|
            0 <= i < page.len() && 0 <= j < page.len() && i != j && (#[trigger] page[i]).rect.has(
                x,
                y,
            ) ==> !(#[trigger] page[j]).rect.has(x, y),
    ensures
        forall|k: int|
            i <= k < page.len() && (#[trigger] page[k]).rect.has(x, y) ==> control_at(page, x, y, i)
                == Some(page[k].action),
        (forall|k: int| i <= k < page.len() ==> !(#[trigger] page[k]).rect.has(x, y)) ==> control_at(
            page,
            x,
            y,
            i,
        ) is None,
    decreases page.len() - i,
{
    if i < page.len() {
        lemma_only_control(page, x, y, i + 1);
    }
}

} // verus!
