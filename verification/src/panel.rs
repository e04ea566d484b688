//! The side panel: what it shows, and where its parts are.

use crate::format::{bytes_text, count_text, format_bytes, format_count, Units};
use crate::geometry::{px, to_px, Place, Rect};
use crate::path::{folder_of, leaf_of, split_path};
use crate::settings::{is_fixed_column, is_settings, SettingsView};
use crate::temp::{TempFileEntry, TempPlace, TempSource};
use vstd::prelude::*;

verus! {

/// What the side panel shows.
#[derive(Copy, Clone, Debug, PartialEq, Eq, Structural)]
pub enum SideView {
    Hidden,
    TopFiles,
    OldestFiles,
    TempFiles,
}

impl SideView {
    pub open spec fn heading(self) -> Seq<char> {
        match self {
            SideView::Hidden => ""@,
            SideView::TopFiles => "Top largest files"@,
            SideView::OldestFiles => "Oldest files"@,
            SideView::TempFiles => "Safe-to-delete temp files"@,
        }
    }

    pub fn title(self) -> (r: &'static str)
        ensures
            r@ == self.heading(),
    {
        match self {
            SideView::Hidden => "",
            SideView::TopFiles => "Top largest files",
            SideView::OldestFiles => "Oldest files",
            SideView::TempFiles => "Safe-to-delete temp files",
        }
    }
}

/// The side panel's state.
#[derive(Copy, Clone, Debug, PartialEq, Eq, Structural)]
pub struct Panel {
    pub view: SideView,
    /// Whether it floats in a frame of its own.
    pub detached: bool,
}

impl Panel {
    /// Whether it takes room in the window.
    pub fn is_in_window(&self) -> (r: bool)
        ensures
            r == (self.view != SideView::Hidden && !self.detached),
    {
        match self.view {
            SideView::Hidden => false,
            _ => !self.detached,
        }
    }

    /// Shows another view. Tells whether that changes anything.
    pub fn apply_side_view(&mut self, view: SideView) -> (changed: bool)
        ensures
            changed == (old(self).view != view),
            *final(self) == (Panel { view, ..*old(self) }),
    {
        if self.view == view {
            return false;
        }
        self.view = view;
        true
    }

    /// Moves the panel out of the window, or back into it. Gives what its button
    /// then says.
    pub fn toggle_detach(&mut self) -> (label: &'static str)
        ensures
            *final(self) == (Panel { detached: !old(self).detached, ..*old(self) }),
            label@ == if final(self).detached {
                "Attach"@
            } else {
                "Detach"@
            },
    {
        self.detached = !self.detached;
        if self.detached {
            "Attach"
        } else {
            "Detach"
        }
    }
}

/// The title of the panel's frame.
pub fn float_title(view: SideView) -> (r: String)
    ensures
        r@ == "ClutterCutter \u{2014} "@ + view.heading(),
{
    let mut r = "ClutterCutter \u{2014} ".to_owned();
    r.append(view.title());
    r
}

/// The height of the panel's header, and the sizes of its buttons.
pub const PANEL_HEADER_H: i32 = 40;
pub const PANEL_BTN_GAP: i32 = 6;
pub const PANEL_BTN_H: i32 = 24;
pub const DETACH_BTN_W: i32 = 74;
pub const RECYCLE_BTN_W: i32 = 100;

/// Button `i` of the three that choose a view.
pub open spec fn view_button(i: int) -> Rect {
    Rect { left: (10 + 43 * i) as i32, top: 6, right: (48 + 43 * i) as i32, bottom: 34 }
}

/// The buttons that choose a view, side by side at the left of the header.
pub fn panel_view_buttons() -> (r: [Rect; 3])
    ensures
        r@ == seq![view_button(0), view_button(1), view_button(2)],
{
    let r = [
        Rect { left: 10, top: 6, right: 48, bottom: 34 },
        Rect { left: 53, top: 6, right: 91, bottom: 34 },
        Rect { left: 96, top: 6, right: 134, bottom: 34 },
    ];
    assert(r@ =~= seq![view_button(0), view_button(1), view_button(2)]);
    r
}

/// The view that button `i` chooses.
pub open spec fn view_of_button(i: int) -> SideView {
    if i == 0 {
        SideView::TopFiles
    } else if i == 1 {
        SideView::OldestFiles
    } else {
        SideView::TempFiles
    }
}

/// The view that a click on the header chooses, if it chooses one that is not shown
/// already.
pub fn view_hit(x: i32, y: i32, shown: SideView) -> (r: Option<SideView>)
    ensures
        r == (if view_button(0).has(x as int, y as int) && shown != view_of_button(0) {
            Some(view_of_button(0))
        } else if view_button(1).has(x as int, y as int) && shown != view_of_button(1) {
            Some(view_of_button(1))
        } else if view_button(2).has(x as int, y as int) && shown != view_of_button(2) {
            Some(view_of_button(2))
        } else {
            None
        }),
{
    let b = panel_view_buttons();
    let view = if b[0].contains(x, y) {
        SideView::TopFiles
    } else if b[1].contains(x, y) {
        SideView::OldestFiles
    } else if b[2].contains(x, y) {
        SideView::TempFiles
    } else {
        return None;
    };
    if view == shown {
        None
    } else {
        Some(view)
    }
}

/// Where the leftmost button at the right of the header starts: the one to detach
/// the panel, or, with the temp files, the one to recycle all beside it.
pub open spec fn buttons_left(view: SideView, panel_w: int) -> int {
    if view == SideView::TempFiles {
        panel_w - 186
    } else {
        panel_w - 80
    }
}

pub fn header_buttons_left_x(view: SideView, panel_w: i32) -> (r: i32)
    ensures
        r == px(buttons_left(view, panel_w as int)),
{
    let detach_x: i128 = panel_w as i128 - PANEL_BTN_GAP as i128 - DETACH_BTN_W as i128;
    to_px(
        match view {
            SideView::TempFiles => detach_x - PANEL_BTN_GAP as i128 - RECYCLE_BTN_W as i128,
            _ => detach_x,
        },
    )
}

/// Where the title stands: between the buttons, and of no width where they leave no
/// room.
pub fn title_rect(view: SideView, panel_w: i32) -> (r: Rect)
    ensures
        r.left == 148,
        r.top == 0,
        r.bottom == 40,
        r.right == (if buttons_left(view, panel_w as int) - 6 < 148 {
            148
        } else {
            buttons_left(view, panel_w as int) - 6
        }),
{
    let right: i128 = header_buttons_left_x(view, panel_w) as i128 - PANEL_BTN_GAP as i128;
    Rect {
        left: 148,
        top: 0,
        right: if right < 148 {
            148
        } else {
            to_px(right)
        },
        bottom: PANEL_HEADER_H,
    }
}

/// Where the parts of the panel go.
#[derive(Copy, Clone, Debug, PartialEq, Eq, Structural)]
pub struct PanelLayout {
    pub detach: Place,
    /// The button to recycle all, which only the temp files have.
    pub recycle: Option<Place>,
    pub list: Place,
}

pub fn panel_layout(w: i32, h: i32, view: SideView) -> (r: PanelLayout)
    ensures
        r.detach == (Place { x: px(w - 80), y: 8, w: 74, h: 24 }),
        r.recycle == (if view == SideView::TempFiles {
            Some(Place { x: px(w - 186), y: 8, w: 100, h: 24 })
        } else {
            None
        }),
        r.list == (Place {
            x: 0,
            y: 40,
            w,
            h: (if h < 40 {
                0
            } else {
                h - 40
            }) as i32,
        }),
{
    let y: i32 = (PANEL_HEADER_H - PANEL_BTN_H) / 2;
    let detach_x: i128 = w as i128 - PANEL_BTN_GAP as i128 - DETACH_BTN_W as i128;
    let content_h: i32 = if h < PANEL_HEADER_H {
        0
    } else {
        h - PANEL_HEADER_H
    };
    PanelLayout {
        detach: Place { x: to_px(detach_x), y, w: DETACH_BTN_W, h: PANEL_BTN_H },
        recycle: match view {
            SideView::TempFiles => Some(
                Place {
                    x: to_px(detach_x - PANEL_BTN_GAP as i128 - RECYCLE_BTN_W as i128),
                    y,
                    w: RECYCLE_BTN_W,
                    h: PANEL_BTN_H,
                },
            ),
            _ => None,
        },
        list: Place { x: 0, y: PANEL_HEADER_H, w, h: content_h },
    }
}

/// One column of a list.
#[derive(Debug)]
pub struct Column {
    pub title: &'static str,
    pub width: i32,
    pub right_aligned: bool,
}

pub struct ColumnView {
    pub title: Seq<char>,
    pub width: int,
    pub right_aligned: bool,
}

impl View for Column {
    type V = ColumnView;

    open spec fn view(&self) -> ColumnView {
        ColumnView {
            title: self.title@,
            width: self.width as int,
            right_aligned: self.right_aligned,
        }
    }
}

pub open spec fn columns(v: Seq<Column>) -> Seq<ColumnView> {
    v.map_values(|c: Column| c@)
}

pub open spec fn col(title: Seq<char>, width: int, right_aligned: bool) -> ColumnView {
    ColumnView { title, width, right_aligned }
}

/// The columns of the side list.
pub open spec fn side_columns_of(view: SideView) -> Seq<ColumnView> {
    match view {
        SideView::Hidden => Seq::empty(),
        SideView::TempFiles => seq![
            col("Name"@, 150, false),
            col("Size"@, 75, true),
            col("Modified"@, 105, false),
            col("Source"@, 90, false),
            col("Folder"@, 350, false),
        ],
        _ => seq![
            col("Name"@, 160, false),
            col("Size"@, 80, true),
            col("Modified"@, 110, false),
            col("Path"@, 400, false),
        ],
    }
}

pub fn side_columns(view: SideView) -> (r: Vec<Column>)
    ensures
        columns(r@) == side_columns_of(view),
{
    let mut v: Vec<Column> = Vec::new();
    match view {
        SideView::Hidden => {},
        SideView::TempFiles => {
            v.push(Column { title: "Name", width: 150, right_aligned: false });
            v.push(Column { title: "Size", width: 75, right_aligned: true });
            v.push(Column { title: "Modified", width: 105, right_aligned: false });
            v.push(Column { title: "Source", width: 90, right_aligned: false });
            v.push(Column { title: "Folder", width: 350, right_aligned: false });
        },
        _ => {
            v.push(Column { title: "Name", width: 160, right_aligned: false });
            v.push(Column { title: "Size", width: 80, right_aligned: true });
            v.push(Column { title: "Modified", width: 110, right_aligned: false });
            v.push(Column { title: "Path", width: 400, right_aligned: false });
        },
    }
    assert(columns(v@) =~= side_columns_of(view));
    v
}

/// The columns of the main list.
pub open spec fn main_columns_of() -> Seq<ColumnView> {
    seq![
        col("NAME"@, 320, false),
        col("% OF PARENT"@, 128, false),
        col("SIZE"@, 90, true),
        col("OWN SIZE"@, 90, true),
        col("FILES"@, 80, true),
        col("FOLDERS"@, 80, true),
        col("MODIFIED"@, 120, false),
    ]
}

pub fn main_columns() -> (r: Vec<Column>)
    ensures
        columns(r@) == main_columns_of(),
{
    let mut v: Vec<Column> = Vec::new();
    v.push(Column { title: "NAME", width: 320, right_aligned: false });
    v.push(Column { title: "% OF PARENT", width: 128, right_aligned: false });
    v.push(Column { title: "SIZE", width: 90, right_aligned: true });
    v.push(Column { title: "OWN SIZE", width: 90, right_aligned: true });
    v.push(Column { title: "FILES", width: 80, right_aligned: true });
    v.push(Column { title: "FOLDERS", width: 80, right_aligned: true });
    v.push(Column { title: "MODIFIED", width: 120, right_aligned: false });
    assert(columns(v@) =~= main_columns_of());
    v
}

/// Whether the rows of the side list are still right: they were made for the view
/// that is shown, of the tree as it is.
pub fn is_current(made_of: Option<(SideView, u64)>, view: SideView, version: u64) -> (r: bool)
    ensures
        r == (made_of == Some((view, version))),
{
    match made_of {
        Some((v, n)) => v == view && n == version,
        None => false,
    }
}

/// Which mark of the settings is that of column `i` of the main list. The settings
/// have one more, for the free space of a drive, which is no column of the list.
pub open spec fn mark_of(i: int) -> int {
    if i < 2 {
        i
    } else {
        i + 1
    }
}

/// Which columns of the main list are shown, by the marks of the settings. One without
/// a mark is shown.
pub open spec fn shown_columns(marks: Seq<bool>) -> Seq<bool> {
    Seq::new(main_columns_of().len(), |i: int| mark_of(i) < marks.len() ==> marks[mark_of(i)])
}

pub fn list_marks(marks: &Vec<bool>) -> (r: Vec<bool>)
    ensures
        r@ == shown_columns(marks@),
{
    let mut r: Vec<bool> = Vec::new();
    let mut i: usize = 0;
    while i < 7
        invariant
            i <= 7,
            r.len() == i,
            forall|k: int| 0 <= k < i ==> #[trigger] r@[k] == shown_columns(marks@)[k],
        decreases 7 - i,
    {
        let mark: usize = if i < 2 {
            i
        } else {
            i + 1
        };
        r.push(mark >= marks.len() || marks[mark]);
        i += 1;
    }
    assert(r@ =~= shown_columns(marks@));
    r
}

/// The name and the size keep their widths, whatever else is hidden.
pub proof fn law_name_and_size_stay(s: SettingsView)
    requires
        is_settings(s),
    ensures
        main_columns_of()[0].title == "NAME"@,
        main_columns_of()[2].title == "SIZE"@,
        column_width(shown_columns(s.col_visible), 0) == main_columns_of()[0].width,
        column_width(shown_columns(s.col_visible), 2) == main_columns_of()[2].width,
{
    assert(is_fixed_column(0) && is_fixed_column(3));
    assert(s.col_visible[0] && s.col_visible[3]);
}

/// Hiding or showing a column changes the width of that column of the list and of no
/// other; the mark of the free space changes none.
pub proof fn law_toggle_changes_one_column(marks: Seq<bool>, c: int, i: int)
    requires
        0 <= c < marks.len(),
        0 <= i < main_columns_of().len(),
    ensures
        ({
            let toggled = shown_columns(marks.update(c, !marks[c]));
            if mark_of(i) == c {
                column_width(toggled, i) == (if marks[c] {
                    0
                } else {
                    main_columns_of()[i].width
                })
            } else {
                column_width(toggled, i) == column_width(shown_columns(marks), i)
            }
        }),
        mark_of(i) != 2,
{
}

/// The width of column `i` of the main list; `visible` tells which of them are shown.
pub open spec fn column_width(visible: Seq<bool>, i: int) -> int {
    if i < visible.len() && !visible[i] {
        0
    } else {
        main_columns_of()[i].width
    }
}

/// The widths of the columns of the main list; those that are not shown have none.
pub fn column_widths(visible: &Vec<bool>) -> (r: Vec<i32>)
    ensures
        r.len() == main_columns_of().len(),
        forall|i: int| 0 <= i < r.len() ==> #[trigger] r@[i] == column_width(visible@, i),
{
    let cols = main_columns();
    let mut r: Vec<i32> = Vec::new();
    let mut i: usize = 0;
    while i < cols.len()
        invariant
            i <= cols.len(),
            columns(cols@) == main_columns_of(),
            r.len() == i,
            forall|k: int| 0 <= k < i ==> #[trigger] r@[k] == column_width(visible@, k),
        decreases cols.len() - i,
    {
        assert(columns(cols@)[i as int].width == cols@[i as int].width);
        r.push(
            if i < visible.len() && !visible[i] {
                0
            } else {
                cols[i].width
            },
        );
        i += 1;
    }
    r
}

/// How wide the columns of the main list but the name are together.
pub open spec fn fixed_width(visible: Seq<bool>) -> int {
    column_width(visible, 1) + column_width(visible, 2) + column_width(visible, 3) + column_width(
        visible,
        4,
    ) + column_width(visible, 5) + column_width(visible, 6)
}

pub fn fixed_columns_width(visible: &Vec<bool>) -> (r: i32)
    ensures
        r == fixed_width(visible@),
{
    let w = column_widths(visible);
    assert(w@[1] == column_width(visible@, 1) && w@[2] == column_width(visible@, 2) && w@[3]
        == column_width(visible@, 3) && w@[4] == column_width(visible@, 4) && w@[5]
        == column_width(visible@, 5) && w@[6] == column_width(visible@, 6));
    w[1] + w[2] + w[3] + w[4] + w[5] + w[6]
}

/// Where all columns of the main list are shown, those but the name are as wide,
/// together, as the window leaves room for beside it.
pub proof fn law_fixed_columns_width(visible: Seq<bool>)
    requires
        forall|i: int| 0 <= i < visible.len() ==> #[trigger] visible[i],
    ensures
        fixed_width(visible) == crate::geometry::MAIN_FIXED_COLS_W,
{
}

/// The column of the side list that holds a file's folder or path.
pub fn path_column(view: SideView) -> (r: usize)
    ensures
        r == (if view == SideView::TempFiles {
            4int
        } else {
            3
        }),
{
    match view {
        SideView::TempFiles => 4,
        _ => 3,
    }
}

/// What the places are called, with commas between them.
pub open spec fn source_list(places: Seq<TempPlace>, n: int) -> Seq<char>
    decreases n,
{
    if n <= 0 {
        Seq::empty()
    } else if n == 1 {
        places[0].source.title()
    } else {
        source_list(places, n - 1) + ", "@ + places[n - 1].source.title()
    }
}

/// What the status bar says when the temp folders are scanned, or that there are
/// none.
pub fn temp_scan_text(places: &Vec<TempPlace>) -> (r: String)
    ensures
        r@ == (if places@.len() == 0 {
            "No known temp locations found on this system."@
        } else {
            "Scanning temp locations: "@ + source_list(places@, places@.len() as int) + "..."@
        }),
{
    if places.len() == 0 {
        return "No known temp locations found on this system.".to_owned();
    }
    let mut list = String::new();
    let mut i: usize = 0;
    assert(list@ =~= source_list(places@, 0));
    while i < places.len()
        invariant
            i <= places.len(),
            list@ == source_list(places@, i as int),
        decreases places.len() - i,
    {
        let ghost before = list@;
        if i > 0 {
            list.append(", ");
        }
        list.append(places[i].source.label());
        i += 1;
        assert(list@ =~= source_list(places@, i as int));
    }
    let mut r = "Scanning temp locations: ".to_owned();
    r.append(list.as_str());
    r.append("...");
    r
}

/// What it says once they were scanned; `found` is how many files there are and what
/// they amount to, or nothing where the scan was cancelled.
pub fn temp_done_text(found: Option<(i64, i64)>, units: &Units) -> (r: String)
    ensures
        r@ == match found {
            None => "Temp scan cancelled."@,
            Some((count, bytes)) => count_text(count as int) + " temp files \u{2014} "@ + bytes_text(
                bytes as int,
                units.step(),
            )
                + " reclaimable. Ctrl/Shift-click to multi-select, then Del to recycle."@,
        },
{
    match found {
        None => "Temp scan cancelled.".to_owned(),
        Some((count, bytes)) => {
            let mut r = format_count(count);
            r.append(" temp files \u{2014} ");
            r.append(format_bytes(bytes, units).as_str());
            r.append(" reclaimable. Ctrl/Shift-click to multi-select, then Del to recycle.");
            r
        },
    }
}

/// A temporary file as the panel lists it.
#[derive(Debug)]
pub struct TempRow {
    pub name: String,
    pub size_text: String,
    pub modified_ft: i64,
    pub source: TempSource,
    pub folder: String,
}

pub open spec fn is_row_of(r: TempRow, e: TempFileEntry, units: Units) -> bool {
    &&& r.name@ == leaf_of(e.full_path@)
    &&& r.size_text@ == bytes_text(e.size as int, units.step())
    &&& r.modified_ft == e.last_modified_ft
    &&& r.source == e.source
    &&& r.folder@ == folder_of(e.full_path@)
}

/// The rows of the files, one for each, in their order.
pub fn temp_rows(files: &Vec<TempFileEntry>, units: &Units) -> (r: Vec<TempRow>)
    ensures
        r.len() == files.len(),
        forall|i: int| 0 <= i < files.len() ==> is_row_of(#[trigger] r@[i], files@[i], *units),
{
    let mut rows: Vec<TempRow> = Vec::new();
    let mut i: usize = 0;
    while i < files.len()
        invariant
            i <= files.len(),
            rows.len() == i,
            forall|k: int| 0 <= k < i ==> is_row_of(#[trigger] rows@[k], files@[k], *units),
        decreases files.len() - i,
    {
        let e = &files[i];
        let (folder, name) = split_path(e.full_path.as_str());
        rows.push(
            TempRow {
                name,
                size_text: format_bytes(e.size, units),
                modified_ft: e.last_modified_ft,
                source: e.source,
                folder,
            },
        );
        i += 1;
    }
    rows
}

} // verus!
