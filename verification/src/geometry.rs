//! Where the parts of the window are, and what a click hits.

use crate::settings::ThemeMode;
use vstd::prelude::*;

verus! {

/// A rectangle; `right` and `bottom` are outside it.
#[derive(Copy, Clone, Debug, PartialEq, Eq, Structural)]
pub struct Rect {
    pub left: i32,
    pub top: i32,
    pub right: i32,
    pub bottom: i32,
}

/// A coordinate as a window takes it: `v`, held in the range of its type.
pub open spec fn px(v: int) -> i32 {
    if v < i32::MIN {
        i32::MIN
    } else if v > i32::MAX {
        i32::MAX
    } else {
        v as i32
    }
}

pub(crate) fn to_px(v: i128) -> (r: i32)
    ensures
        r == px(v as int),
{
    if v < i32::MIN as i128 {
        i32::MIN
    } else if v > i32::MAX as i128 {
        i32::MAX
    } else {
        v as i32
    }
}

impl Rect {
    /// Whether a point lies in it.
    pub open spec fn has(self, x: int, y: int) -> bool {
        self.left <= x < self.right && self.top <= y < self.bottom
    }

    pub fn contains(&self, x: i32, y: i32) -> (r: bool)
        ensures
            r == self.has(x as int, y as int),
    {
        x >= self.left && x < self.right && y >= self.top && y < self.bottom
    }
}

/// Half of `x`, rounded towards zero.
pub open spec fn half_of(x: int) -> int {
    if x >= 0 {
        x / 2
    } else {
        -((-x) / 2)
    }
}

fn half(x: i128) -> (r: i128)
    requires
        x > i128::MIN,
    ensures
        r == half_of(x as int),
{
    if x >= 0 {
        x / 2
    } else {
        -((-x) / 2)
    }
}

/// The signed 16-bit number in the lower half of `v`.
pub open spec fn signed_word(v: int) -> int {
    let m = v % 0x1_0000;
    if m >= 0x8000 {
        m - 0x1_0000
    } else {
        m
    }
}

/// The point that a mouse message carries: x in the lowest 16 bits, y in the 16
/// above.
pub fn point_of(message: u64) -> (r: (i32, i32))
    ensures
        r.0 == signed_word(message as int),
        r.1 == signed_word(message as int / 0x1_0000),
{
    let x: i32 = (message % 0x1_0000) as i32;
    let y: i32 = ((message / 0x1_0000) % 0x1_0000) as i32;
    (
        if x >= 0x8000 {
            x - 0x1_0000
        } else {
            x
        },
        if y >= 0x8000 {
            y - 0x1_0000
        } else {
            y
        },
    )
}

// -------------------------------------------------------------------- the top bar

/// A rectangle of that size at `left`, centred in a height.
pub open spec fn centred(left: int, width: int, height: int, within: int) -> Rect {
    let top = half_of(within - height);
    Rect { left: px(left), top: px(top), right: px(left + width), bottom: px(top + height) }
}

fn centre(left: i128, width: i32, height: i32, within: i32) -> (r: Rect)
    requires
        -0x1_0000_0000 <= left <= 0x1_0000_0000,
    ensures
        r == centred(left as int, width as int, height as int, within as int),
{
    let top: i128 = half(within as i128 - height as i128);
    Rect {
        left: to_px(left),
        top: to_px(top),
        right: to_px(left + width as i128),
        bottom: to_px(top + height as i128),
    }
}

/// The theme pill, at the right of the top bar.
pub open spec fn pill_at(client: Rect) -> Rect {
    centred(client.right - 16 - 92, 92, 28, client.bottom as int)
}

pub fn pill_rect(client: &Rect) -> (r: Rect)
    ensures
        r == pill_at(*client),
{
    centre(client.right as i128 - 16 - 92, 92, 28, client.bottom)
}

/// The Home button, at the left of the top bar.
pub open spec fn home_at(client: Rect) -> Rect {
    centred(14, 34, 32, client.bottom as int)
}

pub fn home_button_rect(client: &Rect) -> (r: Rect)
    ensures
        r == home_at(*client),
{
    centre(14, 34, 32, client.bottom)
}

/// The Delete button, beside it.
pub open spec fn delete_at(client: Rect) -> Rect {
    centred(54, 34, 32, client.bottom as int)
}

pub fn delete_button_rect(client: &Rect) -> (r: Rect)
    ensures
        r == delete_at(*client),
{
    centre(54, 34, 32, client.bottom)
}

/// Where the two halves of the pill meet.
pub open spec fn pill_middle(pill: Rect) -> int {
    half_of(pill.left + pill.right)
}

/// The knob of the pill: on its left half in light colours, on its right in dark.
pub open spec fn knob_at(pill: Rect, is_dark: bool) -> Rect {
    Rect {
        left: if is_dark {
            px(pill_middle(pill) + 1)
        } else {
            px(pill.left + 3)
        },
        right: if is_dark {
            px(pill.right - 3)
        } else {
            px(pill_middle(pill) - 1)
        },
        top: px(pill.top + 3),
        bottom: px(pill.bottom - 3),
    }
}

pub fn knob_rect(pill: &Rect, is_dark: bool) -> (r: Rect)
    ensures
        r == knob_at(*pill, is_dark),
{
    let mid: i128 = half(pill.left as i128 + pill.right as i128);
    Rect {
        left: if is_dark {
            to_px(mid + 1)
        } else {
            to_px(pill.left as i128 + 3)
        },
        right: if is_dark {
            to_px(pill.right as i128 - 3)
        } else {
            to_px(mid - 1)
        },
        top: to_px(pill.top as i128 + 3),
        bottom: to_px(pill.bottom as i128 - 3),
    }
}

/// What a click on the top bar asks for.
#[derive(Copy, Clone, Debug, PartialEq, Eq, Structural)]
pub enum TopbarHit {
    Home,
    Delete,
    Theme(ThemeMode),
    Nothing,
}

pub open spec fn topbar_target(client: Rect, x: int, y: int) -> TopbarHit {
    let pill = pill_at(client);
    if home_at(client).has(x, y) {
        TopbarHit::Home
    } else if delete_at(client).has(x, y) {
        TopbarHit::Delete
    } else if pill.has(x, y) {
        if x < pill_middle(pill) {
            TopbarHit::Theme(ThemeMode::Light)
        } else {
            TopbarHit::Theme(ThemeMode::Dark)
        }
    } else {
        TopbarHit::Nothing
    }
}

pub fn topbar_hit(client: &Rect, x: i32, y: i32) -> (r: TopbarHit)
    ensures
        r == topbar_target(*client, x as int, y as int),
{
    if home_button_rect(client).contains(x, y) {
        return TopbarHit::Home;
    }
    if delete_button_rect(client).contains(x, y) {
        return TopbarHit::Delete;
    }
    let pill = pill_rect(client);
    if pill.contains(x, y) {
        if (x as i128) < half(pill.left as i128 + pill.right as i128) {
            TopbarHit::Theme(ThemeMode::Light)
        } else {
            TopbarHit::Theme(ThemeMode::Dark)
        }
    } else {
        TopbarHit::Nothing
    }
}

/// Where the bar is wide enough, its buttons and the pill do not overlap: a click
/// hits at most one of them.
pub proof fn law_topbar_disjoint(client: Rect, x: int, y: int)
    requires
        client.right >= 200,
    ensures
        !(home_at(client).has(x, y) && delete_at(client).has(x, y)),
        !(home_at(client).has(x, y) && pill_at(client).has(x, y)),
        !(delete_at(client).has(x, y) && pill_at(client).has(x, y)),
{
}

// -------------------------------------------------------------------- the sidebar

/// The height of a drive's card; the next one starts 74 below it.
pub const DRIVE_CARD_H: i32 = 66;

/// The card of drive `i`.
pub open spec fn card_at(i: int, right: int) -> Rect {
    let top = 36 + i * 74;
    Rect { left: 12, top: px(top), right: px(right - 12), bottom: px(top + 66) }
}

pub fn card_rect(i: usize, right: i32) -> (r: Rect)
    ensures
        r == card_at(i as int, right as int),
{
    let top: i128 = 36 + i as i128 * 74;
    Rect {
        left: 12,
        top: to_px(top),
        right: to_px(right as i128 - 12),
        bottom: to_px(top + DRIVE_CARD_H as i128),
    }
}

/// The usage bar of a card.
pub fn card_bar(card: &Rect) -> (r: Rect)
    ensures
        r.left == px(card.left + 14),
        r.right == px(card.right - 14),
        r.top == px(card.top + 32),
        r.bottom == px(card.top + 40),
{
    Rect {
        left: to_px(card.left as i128 + 14),
        top: to_px(card.top as i128 + 32),
        right: to_px(card.right as i128 - 14),
        bottom: to_px(card.top as i128 + 40),
    }
}

/// The drive whose card a click at height `y` means: none during a scan, between
/// the cards, or beyond the last one.
pub open spec fn card_target(y: int, drives: int, scanning: bool) -> Option<usize> {
    if !scanning && y >= 36 && (y - 36) % 74 < 66 && (y - 36) / 74 < drives {
        Some(((y - 36) / 74) as usize)
    } else {
        None
    }
}

pub fn sidebar_hit(y: i32, drives: usize, scanning: bool) -> (r: Option<usize>)
    ensures
        r == card_target(y as int, drives as int, scanning),
{
    if scanning || y < 36 {
        return None;
    }
    let i: usize = ((y - 36) / 74) as usize;
    let within: i32 = (y - 36) % 74;
    if within < DRIVE_CARD_H && i < drives {
        Some(i)
    } else {
        None
    }
}

/// A click in the card of a drive means that drive.
pub proof fn law_card_click(i: int, drives: int, right: int, x: int, y: int)
    requires
        0 <= i < drives <= usize::MAX,
        card_at(i, right).has(x, y),
    ensures
        card_target(y, drives, false) == Some(i as usize),
{
    let k = y - 36 - i * 74;
    assert(0 <= k < 66);
    assert((y - 36) / 74 == i && (y - 36) % 74 == k) by {
        vstd::arithmetic::div_mod::lemma_fundamental_div_mod_converse(y - 36, 74, i, k);
    }
}

// ---------------------------------------------------------------- the breadcrumbs

/// One part of the breadcrumb bar: where it starts and ends.
#[derive(Copy, Clone, Debug, PartialEq, Eq, Structural)]
pub struct Span {
    pub left: i32,
    pub right: i32,
}

/// How wide a part is drawn.
pub open spec fn shown_width(w: int) -> int {
    if w < 8 {
        8
    } else {
        w
    }
}

/// Where part `i` starts: the parts stand side by side, `sep` apart.
pub open spec fn span_start(widths: Seq<i32>, sep: int, i: int) -> int
    decreases i,
{
    if i <= 0 {
        14
    } else {
        span_start(widths, sep, i - 1) + shown_width(widths[i - 1] as int) + sep
    }
}

/// Lays the parts of the breadcrumb bar out, each as wide as its text.
pub fn crumb_spans(widths: &Vec<i32>, sep: i32) -> (r: Vec<Span>)
    ensures
        r.len() == widths.len(),
        forall|i: int|
            0 <= i < r.len() ==> (#[trigger] r@[i]).left == px(span_start(widths@, sep as int, i))
                && r@[i].right == px(
                span_start(widths@, sep as int, i) + shown_width(widths@[i] as int),
            ),
{
    let mut out: Vec<Span> = Vec::new();
    let mut x: i128 = 14;
    let mut i: usize = 0;
    while i < widths.len()
        invariant
            i <= widths.len(),
            x == span_start(widths@, sep as int, i as int),
            -(14 + i * 0x1_0000_0000) <= x <= 14 + i * 0x1_0000_0000,
            out.len() == i,
            forall|k: int|
                0 <= k < i ==> (#[trigger] out@[k]).left == px(span_start(widths@, sep as int, k))
                    && out@[k].right == px(
                    span_start(widths@, sep as int, k) + shown_width(widths@[k] as int),
                ),
        decreases widths.len() - i,
    {
        let w: i32 = if widths[i] < 8 {
            8
        } else {
            widths[i]
        };
        out.push(Span { left: to_px(x), right: to_px(x + w as i128) });
        x = x + w as i128 + sep as i128;
        i += 1;
    }
    out
}

/// The first of `spans` that holds `x`, from `i` on.
pub open spec fn span_hit(spans: Seq<Span>, x: int, i: int) -> Option<usize>
    decreases spans.len() - i,
{
    if i >= spans.len() {
        None
    } else if spans[i].left <= x < spans[i].right {
        Some(i as usize)
    } else {
        span_hit(spans, x, i + 1)
    }
}

/// The part of the breadcrumb bar that a click means.
pub fn crumb_hit(spans: &Vec<Span>, x: i32) -> (r: Option<usize>)
    ensures
        r == span_hit(spans@, x as int, 0),
{
    let mut i: usize = 0;
    while i < spans.len()
        invariant
            i <= spans.len(),
            span_hit(spans@, x as int, i as int) == span_hit(spans@, x as int, 0),
        decreases spans.len() - i,
    {
        if x >= spans[i].left && x < spans[i].right {
            return Some(i);
        }
        i += 1;
    }
    None
}

// ------------------------------------------------------------------ update banner

/// What a click on the update banner asks for.
#[derive(Copy, Clone, Debug, PartialEq, Eq, Structural)]
pub enum BannerHit {
    Get,
    Dismiss,
    Nothing,
}

/// Where the parts of the banner start: the message, the link and the cross, which
/// are laid out from the right.
#[derive(Copy, Clone, Debug, PartialEq, Eq, Structural)]
pub struct Banner {
    pub get_x: i32,
    pub dismiss_x: i32,
    pub message_x: i32,
    pub message_w: i32,
    pub get: Rect,
    pub dismiss: Rect,
}

/// Lays the banner out; `get_w` and `dismiss_w` are the widths of the link and the
/// cross.
pub fn banner_layout(client: &Rect, get_w: i32, dismiss_w: i32) -> (r: Banner)
    ensures
        ({
            let dismiss_x = client.right - 14 - dismiss_w;
            let get_x = dismiss_x - 18 - get_w;
            &&& r.dismiss_x == px(dismiss_x)
            &&& r.get_x == px(get_x)
            &&& r.message_x == 16
            &&& r.message_w == (if get_x - 36 < 40 {
                40
            } else {
                px(get_x - 36)
            })
            &&& r.get == (Rect {
                left: px(get_x - 6),
                top: 0,
                right: px(get_x + get_w + 6),
                bottom: client.bottom,
            })
            &&& r.dismiss == (Rect {
                left: px(dismiss_x - 6),
                top: 0,
                right: px(dismiss_x + dismiss_w + 8),
                bottom: client.bottom,
            })
        }),
{
    let dismiss_x: i128 = client.right as i128 - 14 - dismiss_w as i128;
    let get_x: i128 = dismiss_x - 18 - get_w as i128;
    let room: i128 = get_x - 36;
    Banner {
        get_x: to_px(get_x),
        dismiss_x: to_px(dismiss_x),
        message_x: 16,
        message_w: if room < 40 {
            40
        } else {
            to_px(room)
        },
        get: Rect {
            left: to_px(get_x - 6),
            top: 0,
            right: to_px(get_x + get_w as i128 + 6),
            bottom: client.bottom,
        },
        dismiss: Rect {
            left: to_px(dismiss_x - 6),
            top: 0,
            right: to_px(dismiss_x + dismiss_w as i128 + 8),
            bottom: client.bottom,
        },
    }
}

pub fn banner_hit(b: &Banner, x: i32, y: i32) -> (r: BannerHit)
    ensures
        r == (if b.get.has(x as int, y as int) {
            BannerHit::Get
        } else if b.dismiss.has(x as int, y as int) {
            BannerHit::Dismiss
        } else {
            BannerHit::Nothing
        }),
{
    if b.get.contains(x, y) {
        BannerHit::Get
    } else if b.dismiss.contains(x, y) {
        BannerHit::Dismiss
    } else {
        BannerHit::Nothing
    }
}

// ------------------------------------------------------------------ the main list

/// How far a level is indented, and how wide the box to open a folder is.
pub const TREE_INDENT: i32 = 16;
pub const TREE_GLYPH_W: i32 = 16;

/// Whether a click at `x` in the name column hits the box of a row that is
/// indented by `depth`.
pub fn is_on_box(x: i32, depth: usize, is_folder: bool, has_children: bool) -> (r: bool)
    ensures
        r == (is_folder && has_children && 4 + depth * 16 <= x < 4 + depth * 16 + 16),
{
    let d: i128 = depth as i128;
    assert(0 <= d <= 0xFFFF_FFFF_FFFF_FFFF);
    let left: i128 = 4 + d * TREE_INDENT as i128;
    assert(left == 4 + depth * 16);
    is_folder && has_children && x as i128 >= left && (x as i128) < left + TREE_GLYPH_W as i128
}

/// The piece of a scanning bar that is lit.
pub open spec fn marquee_at(left: int, right: int, phase: int) -> Option<(int, int)> {
    let width = right - left;
    let piece = width / 3;
    let pos = (phase * 6) % (width + piece) - piece;
    let a = hold(left + pos, left, right);
    let b = hold(left + pos + piece, left, right);
    if width > 20 && b > a {
        Some((a, b))
    } else {
        None
    }
}

/// `v`, held between `lo` and `hi`.
pub open spec fn hold(v: int, lo: int, hi: int) -> int {
    if v < lo {
        lo
    } else if v > hi {
        hi
    } else {
        v
    }
}

fn hold_between(v: i64, lo: i32, hi: i32) -> (r: i32)
    requires
        lo <= hi,
    ensures
        r == hold(v as int, lo as int, hi as int),
{
    if v < lo as i64 {
        lo
    } else if v > hi as i64 {
        hi
    } else {
        v as i32
    }
}

/// The piece of a scanning bar from `left` to `right` that is lit at a phase: a third
/// of the bar, wandering from left to right. None where the bar is too short or the
/// piece is outside it.
pub fn marquee_segment(left: i32, right: i32, phase: i32) -> (r: Option<Span>)
    ensures
        r is Some <==> marquee_at(left as int, right as int, phase as int) is Some,
        r is Some ==> marquee_at(left as int, right as int, phase as int) == Some(
            (r->0.left as int, r->0.right as int),
        ),
{
    let width: i64 = right as i64 - left as i64;
    if width <= 20 {
        return None;
    }
    let piece: i64 = width / 3;
    let span: i64 = width + piece;
    let step: i64 = phase as i64 * 6;
    // The remainder that is not negative.
    let at: i64 = if step >= 0 {
        step % span
    } else {
        let m: i64 = (-step) % span;
        if m == 0 {
            0
        } else {
            span - m
        }
    };
    proof {
        lemma_remainder(step as int, span as int, at as int);
    }
    let pos: i64 = at - piece;
    let a: i32 = hold_between(left as i64 + pos, left, right);
    let b: i32 = hold_between(left as i64 + pos + piece, left, right);
    if b > a {
        Some(Span { left: a, right: b })
    } else {
        None
    }
}

proof fn lemma_remainder(step: int, span: int, at: int)
    requires
        span > 0,
        at == if step >= 0 {
            step % span
        } else if (-step) % span == 0 {
            0
        } else {
            span - (-step) % span
        },
    ensures
        at == step % span,
{
    if step < 0 {
        let n = -step;
        let (q, m) = (n / span, n % span);
        vstd::arithmetic::div_mod::lemma_fundamental_div_mod(n, span);
        if m == 0 {
            assert(step == (-q) * span + 0) by (nonlinear_arith)
                requires
                    -step == span * q,
            ;
            vstd::arithmetic::div_mod::lemma_fundamental_div_mod_converse(step, span, -q, 0);
        } else {
            assert(step == (-q - 1) * span + (span - m)) by (nonlinear_arith)
                requires
                    -step == span * q + m,
            ;
            vstd::arithmetic::div_mod::lemma_fundamental_div_mod_converse(
                step,
                span,
                -q - 1,
                span - m,
            );
        }
    }
}

/// The lit piece never leaves its bar.
pub proof fn law_marquee_inside(left: int, right: int, phase: int)
    requires
        marquee_at(left, right, phase) is Some,
    ensures
        left <= (marquee_at(left, right, phase)->0).0 < (marquee_at(left, right, phase)->0).1
            <= right,
{
}

// ------------------------------------------------------------------- the window

/// The heights of the top bar, the breadcrumb bar and the status bar, and the widths
/// of the sidebar and the splitter.
pub const TOPBAR_H: i32 = 50;
pub const BANNER_H: i32 = 34;
pub const CRUMB_H: i32 = 30;
pub const STATUS_H: i32 = 24;
pub const SIDEBAR_W: i32 = 244;
pub const SPLIT_W: i32 = 6;

/// The widths of all columns of the main list but the name.
pub const MAIN_FIXED_COLS_W: i32 = 588;

/// A place and a size.
#[derive(Copy, Clone, Debug, PartialEq, Eq, Structural)]
pub struct Place {
    pub x: i32,
    pub y: i32,
    pub w: i32,
    pub h: i32,
}

/// Where the splitter and the side panel go.
#[derive(Copy, Clone, Debug, PartialEq, Eq, Structural)]
pub struct SplitPlaces {
    pub splitter: Place,
    pub panel: Place,
}

/// Where the parts of the window go.
#[derive(Copy, Clone, Debug, PartialEq, Eq, Structural)]
pub struct WindowLayout {
    pub status: Place,
    pub topbar: Place,
    /// The strip that tells of a newer version, where there is one.
    pub banner: Option<Place>,
    pub sidebar: Place,
    pub scan_all: Place,
    pub crumb: Place,
    pub list: Place,
    /// The splitter and the side panel, where the panel is in the window.
    pub split: Option<SplitPlaces>,
    /// The width of the name column.
    pub name_w: i32,
}

pub open spec fn at_least_zero(v: int) -> int {
    if v < 0 {
        0
    } else {
        v
    }
}

pub open spec fn place(x: int, y: int, w: int, h: int) -> Place {
    Place { x: px(x), y: px(y), w: px(w), h: px(h) }
}

/// The width of the side panel that asks for `raw`, in an area of `avail`: both it
/// and the list keep 180, the panel in any case.
pub open spec fn panel_width_of(raw: int, avail: int, split: int) -> int {
    let top = avail - split - 180;
    hold(
        raw,
        180,
        if top < 180 {
            180
        } else {
            top
        },
    )
}

/// What the window shows around the list.
#[derive(Copy, Clone, Debug, PartialEq, Eq, Structural)]
pub struct Around {
    pub sidebar: bool,
    pub banner: bool,
    /// The width that the side panel asks for, where it is in the window.
    pub panel: Option<i32>,
    /// The width of the list's columns but the name.
    pub columns_w: i32,
    /// The width of a scroll bar.
    pub vscroll: i32,
}

pub open spec fn sidebar_width(shown: bool) -> int {
    if shown {
        244
    } else {
        0
    }
}

/// The layout of a window of that width and height.
pub open spec fn layout_of(width: int, height: int, around: Around) -> WindowLayout {
    let panel = around.panel;
    let side = sidebar_width(around.sidebar);
    let top: int = if around.banner {
        84
    } else {
        50
    };
    let body_h = at_least_zero(height - top - 24);
    let content_w = at_least_zero(width - side);
    let table_h = at_least_zero(body_h - 30);
    let split_w: int = if panel is Some {
        6
    } else {
        0
    };
    let panel_w = match panel {
        Some(raw) => panel_width_of(raw as int, content_w, split_w),
        None => 0,
    };
    let list_w = at_least_zero(content_w - panel_w - split_w);
    WindowLayout {
        status: place(0, height - 24, width, 24),
        topbar: place(0, 0, width, 50),
        banner: if around.banner {
            Some(place(0, 50, width, 34))
        } else {
            None
        },
        sidebar: place(0, top, side, body_h),
        scan_all: place(12, body_h - 46, 220, 34),
        crumb: place(side, top, content_w, 30),
        list: place(side, top + 30, list_w, table_h),
        split: match panel {
            Some(_) => Some(
                SplitPlaces {
                    splitter: place(side + list_w, top + 30, split_w, table_h),
                    panel: place(side + list_w + split_w, top + 30, panel_w, table_h),
                },
            ),
            None => None,
        },
        name_w: px(
            if list_w - around.columns_w - around.vscroll - 4 < 120 {
                120
            } else {
                list_w - around.columns_w - around.vscroll - 4
            },
        ),
    }
}

fn not_negative(v: i128) -> (r: i128)
    ensures
        r == at_least_zero(v as int),
{
    if v < 0 {
        0
    } else {
        v
    }
}

fn place_at(x: i128, y: i128, w: i128, h: i128) -> (r: Place)
    ensures
        r == place(x as int, y as int, w as int, h as int),
{
    Place { x: to_px(x), y: to_px(y), w: to_px(w), h: to_px(h) }
}

fn side_width(shown: bool) -> (r: i32)
    ensures
        r == sidebar_width(shown),
{
    if shown {
        SIDEBAR_W
    } else {
        0
    }
}

pub fn layout(width: i32, height: i32, around: &Around) -> (r: WindowLayout)
    ensures
        r == layout_of(width as int, height as int, *around),
{
    let panel = around.panel;
    let sidebar: i128 = side_width(around.sidebar) as i128;
    let top: i128 = if around.banner {
        TOPBAR_H as i128 + BANNER_H as i128
    } else {
        TOPBAR_H as i128
    };
    let body_h: i128 = not_negative(height as i128 - top - 24);
    let content_w: i128 = not_negative(width as i128 - sidebar);
    let table_top: i128 = top + 30;
    let table_h: i128 = not_negative(body_h - 30);
    let (split_w, panel_w): (i128, i128) = match panel {
        Some(raw) => {
            let most: i128 = content_w - 6 - 180;
            let most: i128 = if most < 180 {
                180
            } else {
                most
            };
            let raw: i128 = raw as i128;
            (
                6,
                if raw < 180 {
                    180
                } else if raw > most {
                    most
                } else {
                    raw
                },
            )
        },
        None => (0, 0),
    };
    let list_w: i128 = not_negative(content_w - panel_w - split_w);
    let name_w: i128 = list_w - around.columns_w as i128 - around.vscroll as i128 - 4;
    WindowLayout {
        status: place_at(0, height as i128 - 24, width as i128, 24),
        topbar: place_at(0, 0, width as i128, TOPBAR_H as i128),
        banner: if around.banner {
            Some(place_at(0, TOPBAR_H as i128, width as i128, BANNER_H as i128))
        } else {
            None
        },
        sidebar: place_at(0, top, sidebar, body_h),
        scan_all: place_at(12, body_h - 46, 220, 34),
        crumb: place_at(sidebar, top, content_w, 30),
        list: place_at(sidebar, table_top, list_w, table_h),
        split: match panel {
            Some(_) => Some(
                SplitPlaces {
                    splitter: place_at(sidebar + list_w, table_top, split_w, table_h),
                    panel: place_at(sidebar + list_w + split_w, table_top, panel_w, table_h),
                },
            ),
            None => None,
        },
        name_w: to_px(
            if name_w < 120 {
                120
            } else {
                name_w
            },
        ),
    }
}

/// In a window that has room for both, the list, the splitter and the panel fill
/// the area beside the sidebar exactly.
pub proof fn law_panes_fill_the_window(width: int, height: int, around: Around)
    requires
        around.panel is Some,
        sidebar_width(around.sidebar) + 6 + 360 <= width <= i32::MAX,
    ensures
        ({
            let l = layout_of(width, height, around);
            let (split, panel) = (l.split->0.splitter, l.split->0.panel);
            &&& l.list.w >= 180 && panel.w >= 180
            &&& l.list.w + split.w + panel.w == width - sidebar_width(around.sidebar)
            &&& split.x == l.list.x + l.list.w
            &&& panel.x == split.x + split.w
            &&& panel.x + panel.w == width
        }),
{
}

/// The width of the panel that dragging the splitter to `x` asks for, and the width
/// that it is a part of.
pub fn dragged_width(client_right: i32, sidebar: bool, x: i32) -> (r: (i32, i32))
    ensures
        r.1 == (if client_right - sidebar_width(sidebar) < 1 {
            1
        } else {
            client_right - sidebar_width(sidebar)
        }),
        r.0 == hold(
            client_right - x - 6,
            180,
            if r.1 - 180 < 180 {
                180
            } else {
                r.1 - 180
            },
        ),
{
    let side: i32 = side_width(sidebar);
    let avail: i32 = if client_right < side + 1 {
        1
    } else {
        client_right - side
    };
    let top: i32 = if avail - 180 < 180 {
        180
    } else {
        avail - 180
    };
    (hold_between(client_right as i64 - x as i64 - SPLIT_W as i64, 180, top), avail)
}

// ------------------------------------------------------------------------- clicks

/// A click on what the top bar shows means that: its two buttons, and on the pill the theme
/// whose half it meets. The knob stands on the half of the theme that is shown. A click beside
/// them means nothing.
pub proof fn law_topbar_clicks(client: Rect, x: int, y: int, is_dark: bool)
    requires
        client.right >= 200,
    ensures
        topbar_target(client, x, y) == TopbarHit::Home <==> home_at(client).has(x, y),
        topbar_target(client, x, y) == TopbarHit::Delete <==> delete_at(client).has(x, y),
        knob_at(pill_at(client), is_dark).has(x, y) ==> topbar_target(client, x, y)
            == TopbarHit::Theme(
            if is_dark {
                ThemeMode::Dark
            } else {
                ThemeMode::Light
            },
        ),
        topbar_target(client, x, y) == TopbarHit::Nothing <==> !home_at(client).has(x, y)
            && !delete_at(client).has(x, y) && !pill_at(client).has(x, y),
{
    law_topbar_disjoint(client, x, y);
}

/// Whether every part of the breadcrumb bar ends before the next one starts.
pub open spec fn are_apart(spans: Seq<Span>) -> bool {
    forall|i: int, j: int|
        0 <= i < j < spans.len() ==> (#[trigger] spans[i]).right <= (#[trigger] spans[j]).left
}

/// A click on a part of the breadcrumb bar means that part, and one between two parts means
/// none.
pub proof fn law_crumb_clicks(spans: Seq<Span>, x: int)
    requires
        are_apart(spans),
        spans.len() <= usize::MAX,
    ensures
        forall|k: int|
            0 <= k < spans.len() && (#[trigger] spans[k]).left <= x < spans[k].right ==> span_hit(
                spans,
                x,
                0,
            ) == Some(k as usize),
        (forall|k: int| 0 <= k < spans.len() ==> !((#[trigger] spans[k]).left <= x < spans[k].right))
            ==> span_hit(spans, x, 0) is None,
{
    lemma_first_span(spans, x, 0);
}

proof fn lemma_first_span(spans: Seq<Span>, x: int, i: int)
    requires
        0 <= i <= spans.len() <= usize::MAX,
        are_apart(spans),
    ensures
        forall|k: int|
            i <= k < spans.len() && (#[trigger] spans[k]).left <= x < spans[k].right ==> span_hit(
                spans,
                x,
                i,
            ) == Some(k as usize),
        (forall|k: int| i <= k < spans.len() ==> !((#[trigger] spans[k]).left <= x < spans[k].right))
            ==> span_hit(spans, x, i) is None,
    decreases spans.len() - i,
{
    if i < spans.len() {
        lemma_first_span(spans, x, i + 1);
        assert forall|k: int|
            i <= k < spans.len() && (#[trigger] spans[k]).left <= x < spans[k].right implies span_hit(
            spans,
            x,
            i,
        ) == Some(k as usize) by {
            if k > i {
                assert(spans[i].right <= spans[k].left);
            }
        }
    }
}

/// A message carries the point that it was made of: 16 bits for each of its two numbers.
pub proof fn law_points_round_trip(x: int, y: int, rest: int)
    requires
        -0x8000 <= x < 0x8000,
        -0x8000 <= y < 0x8000,
    ensures
        ({
            let message = rest * 0x1_0000_0000 + (y % 0x1_0000) * 0x1_0000 + x % 0x1_0000;
            signed_word(message) == x && signed_word(message / 0x1_0000) == y
        }),
{
    let message = rest * 0x1_0000_0000 + (y % 0x1_0000) * 0x1_0000 + x % 0x1_0000;
    assert(message == (rest * 0x1_0000 + y % 0x1_0000) * 0x1_0000 + x % 0x1_0000);
    assert(message / 0x1_0000 == rest * 0x1_0000 + y % 0x1_0000);
}

} // verus!
