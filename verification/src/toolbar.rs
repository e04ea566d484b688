//! What drives are called, and what stands in the status bar.

use crate::format::{bytes_text, format_bytes, Units};
use crate::geometry::{px, to_px};
use crate::text::{chars_of, find, find_char, lemma_find, string_of};
use crate::wrap::{wrap, wrapped};
use vstd::prelude::*;

verus! {

/// A drive, as its card shows it.
#[derive(Debug)]
pub struct DriveCard {
    pub letter: char,
    pub root: String,
    pub label: String,
    pub total_bytes: u64,
    pub free_bytes: u64,
    pub is_ntfs: bool,
}

/// What a drive's button says: its letter and name, and how much of it is used.
pub open spec fn button_text(d: DriveCard, base: int) -> Seq<char> {
    seq![d.letter] + ":\\  "@ + (if d.label@.len() == 0 {
        "(no label)"@
    } else {
        d.label@
    }) + "\n"@ + bytes_text(wrap(d.total_bytes - d.free_bytes), base) + " / "@ + bytes_text(
        wrap(d.total_bytes as int),
        base,
    )
}

impl DriveCard {
    pub fn button_label(&self, units: &Units) -> (r: String)
        requires
            self.free_bytes <= self.total_bytes,
        ensures
            r@ == button_text(*self, units.step()),
    {
        let mut r = String::new();
        r.push(self.letter);
        assert(r@ =~= seq![self.letter]);
        r.append(":\\  ");
        if self.label.as_str().is_empty() {
            r.append("(no label)");
        } else {
            r.append(self.label.as_str());
        }
        r.append("\n");
        r.append(format_bytes(wrapped(self.total_bytes - self.free_bytes), units).as_str());
        r.append(" / ");
        r.append(format_bytes(wrapped(self.total_bytes), units).as_str());
        r
    }

    /// What a drive's card is headed by: its letter, and its name where it has one.
    pub fn card_title(&self) -> (r: String)
        ensures
            r@ == (if self.label@.len() == 0 {
                seq![self.letter] + ":"@
            } else {
                seq![self.letter] + ": \u{2014} "@ + self.label@
            }),
    {
        let mut r = String::new();
        r.push(self.letter);
        assert(r@ =~= seq![self.letter]);
        if self.label.as_str().is_empty() {
            r.append(":");
        } else {
            r.append(": \u{2014} ");
            r.append(self.label.as_str());
        }
        r
    }

    /// How much of a drive is used, and how large it is taken to be: never nothing.
    pub fn usage(&self) -> (r: (u64, u64))
        ensures
            r.1 == (if self.total_bytes < 1 {
                1
            } else {
                self.total_bytes
            }),
            r.0 == (if r.1 >= self.free_bytes {
                r.1 - self.free_bytes
            } else {
                0
            }),
    {
        let total: u64 = if self.total_bytes < 1 {
            1
        } else {
            self.total_bytes
        };
        (total.saturating_sub(self.free_bytes), total)
    }

    /// Whether a drive is scanned by its table: that takes the right file system and
    /// the rights to read it.
    pub fn uses_mft(&self, is_admin: bool) -> (r: bool)
        ensures
            r == (self.is_ntfs && is_admin),
    {
        self.is_ntfs && is_admin
    }
}

/// What a card says of a drive's usage; `percent` is how much of it is used.
pub fn usage_text(used: u64, total: u64, percent: &str, units: &Units) -> (r: String)
    ensures
        r@ == bytes_text(wrap(used as int), units.step()) + " / "@ + bytes_text(
            wrap(total as int),
            units.step(),
        ) + "  \u{B7}  "@ + percent@ + "%"@,
{
    let mut r = format_bytes(wrapped(used), units);
    r.append(" / ");
    r.append(format_bytes(wrapped(total), units).as_str());
    r.append("  \u{B7}  ");
    r.append(percent);
    r.append("%");
    r
}

/// Where the button of drive `i` starts: behind the one for all drives.
pub fn drive_button_x(i: usize) -> (r: i32)
    ensures
        r == px(130 + 170 * i),
{
    to_px(130 + 170 * i as i128)
}

/// What the status bar says at first.
pub fn ready_text(is_admin: bool) -> (r: &'static str)
    ensures
        r@ == if is_admin {
            "Ready (Administrator \u{2014} MFT fast path available on NTFS drives)"@
        } else {
            "Ready (not elevated \u{2014} FindFirstFile walker on all drives)"@
        },
{
    if is_admin {
        "Ready (Administrator \u{2014} MFT fast path available on NTFS drives)"
    } else {
        "Ready (not elevated \u{2014} FindFirstFile walker on all drives)"
    }
}

/// The two parts of a status text: what stands left and what stands right, with a
/// tab between them; a text without one stands left.
pub fn status_parts(text: &str) -> (r: (String, String))
    ensures
        ({
            let k = find(text@, '\t');
            if k < text@.len() {
                r.0@ == text@.take(k) && r.1@ == text@.skip(k + 1)
            } else {
                r.0@ == text@ && r.1@.len() == 0
            }
        }),
{
    let cs = chars_of(text);
    let n: usize = cs.len();
    proof {
        lemma_find(text@, '\t');
        assert(cs@.subrange(0, n as int) =~= text@);
    }
    let k: usize = find_char(&cs, 0, n, '\t');
    let left = string_of(&cs, 0, k);
    assert(left@ =~= text@.take(k as int));
    if k < n {
        let right = string_of(&cs, k + 1, n);
        assert(right@ =~= text@.skip(k + 1));
        (left, right)
    } else {
        assert(text@.take(n as int) =~= text@);
        (left, String::new())
    }
}

} // verus!
