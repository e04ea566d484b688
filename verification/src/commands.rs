//! Commands: what menus, buttons and keys ask for, and what becomes of it.

use crate::panel::SideView;
use crate::rows::SortBy;
use crate::scan_all::ScanRequest;
use crate::settings::ThemeMode;
use vstd::prelude::*;

verus! {

/// What a command asks for.
#[derive(Copy, Clone, Debug, PartialEq, Eq, Structural)]
pub enum Command {
    /// Stop the scan.
    Stop,
    ScanAll,
    /// Scan again what was scanned last.
    Refresh,
    /// Scan the drive with that index.
    ScanDrive(usize),
    Exit,
    /// Restart with more rights.
    RelaunchAsAdmin,
    About,
    Theme(ThemeMode),
    Show(SideView),
    /// Move the side panel out of the window, or back.
    ToggleDetach,
    RecycleAllTemp,
    /// Go to the folder above.
    Parent,
    /// Go into the selected folder.
    Drill,
    /// Open the selected folder in the system's own window.
    OpenInExplorer,
    /// Recycle what is selected, by key or by menu.
    RecycleFocused,
    RecycleClicked,
    CopyPath,
    OpenShell,
    Nothing,
}

/// The number of the first drive's button; the others follow.
pub const ID_DRIVE_BASE: u16 = 1000;

/// The command with a number, whatever the state of the window.
pub open spec fn meaning(id: u16) -> Command {
    if id == 200 || id == 3002 {
        Command::Stop
    } else if id == 201 {
        Command::ScanAll
    } else if id == 210 || id == 5310 {
        Command::ToggleDetach
    } else if id == 211 {
        Command::RecycleAllTemp
    } else if id == 3001 || id == 5001 {
        Command::Refresh
    } else if id == 3003 {
        Command::Parent
    } else if id == 3004 {
        Command::Drill
    } else if id == 3005 {
        Command::RecycleFocused
    } else if id == 4001 {
        Command::OpenInExplorer
    } else if id == 4002 {
        Command::CopyPath
    } else if id == 4003 {
        Command::OpenShell
    } else if id == 4004 {
        Command::RecycleClicked
    } else if id == 5002 {
        Command::Exit
    } else if id == 5003 {
        Command::RelaunchAsAdmin
    } else if id == 5101 {
        Command::Theme(ThemeMode::Auto)
    } else if id == 5102 {
        Command::Theme(ThemeMode::Light)
    } else if id == 5103 {
        Command::Theme(ThemeMode::Dark)
    } else if id == 5200 {
        Command::About
    } else if id == 5301 {
        Command::Show(SideView::Hidden)
    } else if id == 5302 {
        Command::Show(SideView::TopFiles)
    } else if id == 5303 {
        Command::Show(SideView::OldestFiles)
    } else if id == 5304 {
        Command::Show(SideView::TempFiles)
    } else if id >= ID_DRIVE_BASE {
        Command::ScanDrive((id - ID_DRIVE_BASE) as usize)
    } else {
        Command::Nothing
    }
}

/// Whether a command does anything: only a scan under way can be stopped, and no
/// scan is begun during another, nor on a drive that is not there.
pub open spec fn is_allowed(c: Command, scanning: bool, drives: int) -> bool {
    match c {
        Command::Stop => scanning,
        Command::ScanAll => !scanning,
        Command::Refresh => !scanning,
        Command::ScanDrive(i) => !scanning && i < drives,
        _ => true,
    }
}

fn decode(id: u16) -> (r: Command)
    ensures
        r == meaning(id),
{
    match id {
        200 => Command::Stop,
        201 => Command::ScanAll,
        210 => Command::ToggleDetach,
        211 => Command::RecycleAllTemp,
        3001 => Command::Refresh,
        3002 => Command::Stop,
        3003 => Command::Parent,
        3004 => Command::Drill,
        3005 => Command::RecycleFocused,
        4001 => Command::OpenInExplorer,
        4002 => Command::CopyPath,
        4003 => Command::OpenShell,
        4004 => Command::RecycleClicked,
        5001 => Command::Refresh,
        5002 => Command::Exit,
        5003 => Command::RelaunchAsAdmin,
        5101 => Command::Theme(ThemeMode::Auto),
        5102 => Command::Theme(ThemeMode::Light),
        5103 => Command::Theme(ThemeMode::Dark),
        5200 => Command::About,
        5301 => Command::Show(SideView::Hidden),
        5302 => Command::Show(SideView::TopFiles),
        5303 => Command::Show(SideView::OldestFiles),
        5304 => Command::Show(SideView::TempFiles),
        5310 => Command::ToggleDetach,
        _ => if id >= ID_DRIVE_BASE {
            Command::ScanDrive((id - ID_DRIVE_BASE) as usize)
        } else {
            Command::Nothing
        },
    }
}

/// What the command with that number does now.
pub fn on_command(id: u16, scanning: bool, drives: usize) -> (r: Command)
    ensures
        r == (if is_allowed(meaning(id), scanning, drives as int) {
            meaning(id)
        } else {
            Command::Nothing
        }),
{
    let c = decode(id);
    let allowed = match c {
        Command::Stop => scanning,
        Command::ScanAll => !scanning,
        Command::Refresh => !scanning,
        Command::ScanDrive(i) => !scanning && i < drives,
        _ => true,
    };
    if allowed {
        c
    } else {
        Command::Nothing
    }
}

/// The number of the command that a key stands for: F5, Escape, Backspace, Enter and
/// Delete have one.
pub fn accelerator(key: u16) -> (r: Option<u16>)
    ensures
        r == (if key == 0x74 {
            Some(3001u16)
        } else if key == 0x1B {
            Some(3002u16)
        } else if key == 0x08 {
            Some(3003u16)
        } else if key == 0x0D {
            Some(3004u16)
        } else if key == 0x2E {
            Some(3005u16)
        } else {
            None
        }),
{
    match key {
        0x74 => Some(3001),
        0x1B => Some(3002),
        0x08 => Some(3003),
        0x0D => Some(3004),
        0x2E => Some(3005),
        _ => None,
    }
}

/// While a scan is under way, no command begins another; while none is, none stops
/// one.
pub proof fn law_one_scan_at_a_time(id: u16, drives: int)
    ensures
        is_allowed(meaning(id), true, drives) ==> !(meaning(id) is ScanAll || meaning(id) is Refresh
            || meaning(id) is ScanDrive),
        is_allowed(meaning(id), false, drives) ==> !(meaning(id) is Stop),
{
}

/// What scanning again means.
#[derive(Copy, Clone, Debug, PartialEq, Eq, Structural)]
pub enum Rescan {
    /// The drive or folder that was scanned last.
    Single,
    AllDrives,
    /// The temp folders, which are scanned on their own.
    TempFiles,
    Nothing,
}

/// What is scanned again: what was scanned last; where nothing was, the temp files,
/// if they are shown.
pub fn refresh(last: &Option<ScanRequest>, view: SideView) -> (r: Rescan)
    ensures
        r == match last {
            Some(ScanRequest::Single(_, _)) => Rescan::Single,
            Some(ScanRequest::AllDrives) => Rescan::AllDrives,
            None => if view == SideView::TempFiles {
                Rescan::TempFiles
            } else {
                Rescan::Nothing
            },
        },
{
    match last {
        Some(ScanRequest::Single(_, _)) => Rescan::Single,
        Some(ScanRequest::AllDrives) => Rescan::AllDrives,
        None => match view {
            SideView::TempFiles => Rescan::TempFiles,
            _ => Rescan::Nothing,
        },
    }
}

/// What is scanned again when something could not be recycled, so that what is shown
/// agrees with the disk again.
pub fn on_recycle_done(ok: Option<bool>, scanning: bool, last: &Option<ScanRequest>) -> (r: Rescan)
    ensures
        r == (if ok != Some(false) || scanning {
            Rescan::Nothing
        } else {
            match last {
                Some(ScanRequest::Single(_, _)) => Rescan::Single,
                Some(ScanRequest::AllDrives) => Rescan::AllDrives,
                None => Rescan::Nothing,
            }
        }),
{
    match ok {
        Some(false) => if scanning {
            Rescan::Nothing
        } else {
            match last {
                Some(ScanRequest::Single(_, _)) => Rescan::Single,
                Some(ScanRequest::AllDrives) => Rescan::AllDrives,
                None => Rescan::Nothing,
            }
        },
        _ => Rescan::Nothing,
    }
}

/// The order after a click on a column's title: the other way round on the column
/// that the list is sorted by, else by that column, names ascending and everything
/// else descending. `None` where there is no such column.
pub fn column_click(by: SortBy, col: i32) -> (r: Option<SortBy>)
    ensures
        r == (if !(0 <= col <= 6) {
            None
        } else if by.col == col {
            Some(SortBy { col, desc: !by.desc })
        } else {
            Some(SortBy { col, desc: col != 0 })
        }),
{
    if col < 0 || col > 6 {
        None
    } else if by.col == col {
        Some(SortBy { col, desc: !by.desc })
    } else {
        Some(SortBy { col, desc: col != 0 })
    }
}

/// Which list an action is about.
#[derive(Copy, Clone, Debug, PartialEq, Eq, Structural)]
pub enum CtxTarget {
    MainList,
    SideList,
}

/// A key acts on the list that has the focus, a menu on the list that it was opened
/// on.
pub fn action_target(by_key: bool, side_has_focus: bool, clicked: CtxTarget) -> (r: CtxTarget)
    ensures
        r == (if !by_key {
            clicked
        } else if side_has_focus {
            CtxTarget::SideList
        } else {
            CtxTarget::MainList
        }),
{
    if !by_key {
        clicked
    } else if side_has_focus {
        CtxTarget::SideList
    } else {
        CtxTarget::MainList
    }
}

/// One entry of a menu; a separator has no text.
#[derive(Debug)]
pub struct MenuItem {
    pub id: u16,
    pub text: &'static str,
}

pub struct MenuItemView {
    pub id: u16,
    pub text: Seq<char>,
}

impl View for MenuItem {
    type V = MenuItemView;

    open spec fn view(&self) -> MenuItemView {
        MenuItemView { id: self.id, text: self.text@ }
    }
}

pub open spec fn menu_views(v: Seq<MenuItem>) -> Seq<MenuItemView> {
    v.map_values(|m: MenuItem| m@)
}

pub open spec fn menu_item(id: u16, text: Seq<char>) -> MenuItemView {
    MenuItemView { id, text }
}

/// The entries of the File menu; one who has all rights already is not offered them.
pub open spec fn file_menu_of(is_admin: bool) -> Seq<MenuItemView> {
    seq![menu_item(5001, "&Refresh\tF5"@)] + (if is_admin {
        Seq::empty()
    } else {
        seq![menu_item(5003, "Restart as &Administrator..."@)]
    }) + seq![menu_item(0, ""@), menu_item(5002, "E&xit"@)]
}

pub fn file_menu(is_admin: bool) -> (r: Vec<MenuItem>)
    ensures
        menu_views(r@) == file_menu_of(is_admin),
{
    let mut v: Vec<MenuItem> = Vec::new();
    v.push(MenuItem { id: 5001, text: "&Refresh\tF5" });
    if !is_admin {
        v.push(MenuItem { id: 5003, text: "Restart as &Administrator..." });
    }
    v.push(MenuItem { id: 0, text: "" });
    v.push(MenuItem { id: 5002, text: "E&xit" });
    assert(menu_views(v@) =~= file_menu_of(is_admin));
    v
}

/// The entries of the View menu.
pub open spec fn view_menu_of() -> Seq<MenuItemView> {
    seq![
        menu_item(5301, "&None"@),
        menu_item(5302, "&Top largest files"@),
        menu_item(5303, "&Oldest files (by date modified)"@),
        menu_item(5304, "&Safe-to-delete temp files"@),
        menu_item(0, ""@),
        menu_item(5310, "&Detach side panel"@),
    ]
}

pub fn view_menu() -> (r: Vec<MenuItem>)
    ensures
        menu_views(r@) == view_menu_of(),
{
    let mut v: Vec<MenuItem> = Vec::new();
    v.push(MenuItem { id: 5301, text: "&None" });
    v.push(MenuItem { id: 5302, text: "&Top largest files" });
    v.push(MenuItem { id: 5303, text: "&Oldest files (by date modified)" });
    v.push(MenuItem { id: 5304, text: "&Safe-to-delete temp files" });
    v.push(MenuItem { id: 0, text: "" });
    v.push(MenuItem { id: 5310, text: "&Detach side panel" });
    assert(menu_views(v@) =~= view_menu_of());
    v
}

/// The entry of the View menu that is marked.
pub fn view_menu_id(view: SideView) -> (r: u16)
    ensures
        meaning(r) == Command::Show(view),
        5301 <= r <= 5304,
{
    match view {
        SideView::Hidden => 5301,
        SideView::TopFiles => 5302,
        SideView::OldestFiles => 5303,
        SideView::TempFiles => 5304,
    }
}

/// The entries of the Theme menu.
pub open spec fn theme_menu_of() -> Seq<MenuItemView> {
    seq![
        menu_item(5101, "&Auto (system)"@),
        menu_item(5102, "&Light"@),
        menu_item(5103, "&Dark"@),
    ]
}

pub fn theme_menu() -> (r: Vec<MenuItem>)
    ensures
        menu_views(r@) == theme_menu_of(),
{
    let mut v: Vec<MenuItem> = Vec::new();
    v.push(MenuItem { id: 5101, text: "&Auto (system)" });
    v.push(MenuItem { id: 5102, text: "&Light" });
    v.push(MenuItem { id: 5103, text: "&Dark" });
    assert(menu_views(v@) =~= theme_menu_of());
    v
}

/// The entry of the Theme menu that is marked.
pub fn theme_menu_id(mode: ThemeMode) -> (r: u16)
    ensures
        meaning(r) == Command::Theme(mode),
        5101 <= r <= 5103,
{
    match mode {
        ThemeMode::Auto => 5101,
        ThemeMode::Light => 5102,
        ThemeMode::Dark => 5103,
    }
}

/// Every entry of a menu does what it says.
pub proof fn law_menus_do_what_they_say(is_admin: bool)
    ensures
        ({
            let v = view_menu_of();
            &&& v.len() == 6
            &&& v[0].text == "&None"@ && meaning(v[0].id) == Command::Show(SideView::Hidden)
            &&& v[1].text == "&Top largest files"@ && meaning(v[1].id) == Command::Show(
                SideView::TopFiles,
            )
            &&& v[2].text == "&Oldest files (by date modified)"@ && meaning(v[2].id)
                == Command::Show(SideView::OldestFiles)
            &&& v[3].text == "&Safe-to-delete temp files"@ && meaning(v[3].id) == Command::Show(
                SideView::TempFiles,
            )
            &&& v[4].text == ""@ && meaning(v[4].id) == Command::Nothing
            &&& v[5].text == "&Detach side panel"@ && meaning(v[5].id) == Command::ToggleDetach
        }),
        ({
            let t = theme_menu_of();
            &&& t.len() == 3
            &&& t[0].text == "&Auto (system)"@ && meaning(t[0].id) == Command::Theme(
                ThemeMode::Auto,
            )
            &&& t[1].text == "&Light"@ && meaning(t[1].id) == Command::Theme(ThemeMode::Light)
            &&& t[2].text == "&Dark"@ && meaning(t[2].id) == Command::Theme(ThemeMode::Dark)
        }),
        ({
            let f = file_menu_of(is_admin);
            let last = f.len() - 1;
            &&& f.len() == if is_admin {
                3int
            } else {
                4
            }
            &&& f[0].text == "&Refresh\tF5"@ && meaning(f[0].id) == Command::Refresh
            &&& f[last].text == "E&xit"@ && meaning(f[last].id) == Command::Exit
            &&& !is_admin ==> f[1].text == "Restart as &Administrator..."@ && meaning(f[1].id)
                == Command::RelaunchAsAdmin
        }),
{
}

/// The button of a drive asks for a scan of that drive, which is begun where there is such
/// a drive and no scan is under way. The commands of the list act at any time.
pub proof fn law_drive_buttons_scan(i: u16, drives: int, scanning: bool)
    requires
        i < 2000,
        ID_DRIVE_BASE == 1000,
    ensures
        ({
            let id = (1000 + i) as u16;
            &&& meaning(id) == Command::ScanDrive(i as usize)
            &&& is_allowed(meaning(id), scanning, drives) <==> !scanning && i < drives
        }),
        is_allowed(Command::Stop, scanning, drives) == scanning,
        is_allowed(Command::ScanAll, scanning, drives) == !scanning,
        is_allowed(Command::Refresh, scanning, drives) == !scanning,
        is_allowed(Command::Drill, scanning, drives),
        is_allowed(Command::Parent, scanning, drives),
        is_allowed(Command::RecycleFocused, scanning, drives),
        is_allowed(Command::RecycleClicked, scanning, drives),
        is_allowed(Command::Exit, scanning, drives),
{
}

/// Commands go by number: those of the context menu, of the keys and of the buttons.
pub proof fn law_commands_by_number()
    ensures
        meaning(4001) == Command::OpenInExplorer,
        meaning(4002) == Command::CopyPath,
        meaning(4003) == Command::OpenShell,
        meaning(4004) == Command::RecycleClicked,
        meaning(3001) == Command::Refresh,
        meaning(3002) == Command::Stop,
        meaning(3003) == Command::Parent,
        meaning(3004) == Command::Drill,
        meaning(3005) == Command::RecycleFocused,
        meaning(200) == Command::Stop,
        meaning(201) == Command::ScanAll,
        meaning(210) == Command::ToggleDetach,
        meaning(211) == Command::RecycleAllTemp,
        meaning(5200) == Command::About,
        forall|id: u16| id < 200 ==> #[trigger] meaning(id) == Command::Nothing,
{
}

} // verus!
