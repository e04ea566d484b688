//! Texts cut to the room there is for them.

use crate::text::{chars_of, string_of};
use vstd::prelude::*;

verus! {

/// The mark of what was cut off.
pub const ELLIPSIS: char = '\u{2026}';

/// `s` cut at its end to `max` characters.
pub open spec fn head_of(s: Seq<char>, max: int) -> Seq<char> {
    if s.len() <= max {
        s
    } else {
        s.take(max - 1).push(ELLIPSIS)
    }
}

/// `s` cut at its beginning to `max` characters.
pub open spec fn tail_of(s: Seq<char>, max: int) -> Seq<char> {
    if s.len() <= max {
        s
    } else {
        seq![ELLIPSIS] + s.skip(s.len() - (max - 1))
    }
}

/// Cuts `s` to `max` characters, keeping its head.
pub fn shorten_head(s: &str, max: usize) -> (r: String)
    requires
        max > 0 || s@.len() == 0,
    ensures
        r@ == head_of(s@, max as int),
{
    let cs = chars_of(s);
    if cs.len() <= max {
        return s.to_owned();
    }
    let mut r = string_of(&cs, 0, max - 1);
    assert(r@ =~= s@.take(max - 1));
    r.push(ELLIPSIS);
    r
}

/// Cuts `s` to `max` characters, keeping its tail.
pub fn shorten(s: &str, max: usize) -> (r: String)
    requires
        max > 0 || s@.len() == 0,
    ensures
        r@ == tail_of(s@, max as int),
{
    let cs = chars_of(s);
    let n: usize = cs.len();
    if n <= max {
        return s.to_owned();
    }
    let tail = string_of(&cs, n - (max - 1), n);
    assert(tail@ =~= s@.skip(n - (max - 1)));
    let mut r = String::new();
    r.push(ELLIPSIS);
    r.append(tail.as_str());
    assert(r@ =~= tail_of(s@, max as int));
    r
}

/// Cuts `s` to `max` characters, keeping its head.
pub fn truncate(s: &str, max: usize) -> (r: String)
    requires
        max > 0 || s@.len() == 0,
    ensures
        r@ == head_of(s@, max as int),
{
    shorten_head(s, max)
}

/// A shortened text has room: it is never longer than what was asked for, and a
/// text that fits stays as it is.
pub proof fn law_shortened_fits(s: Seq<char>, max: int)
    requires
        max > 0,
    ensures
        head_of(s, max).len() <= max,
        tail_of(s, max).len() <= max,
        s.len() <= max ==> head_of(s, max) == s && tail_of(s, max) == s,
        s.len() > max ==> head_of(s, max).len() == max && tail_of(s, max).len() == max,
{
}

/// A text that was cut keeps its head, or its tail, with the mark of what was cut off in
/// place of the rest.
pub proof fn law_shortened_keeps_an_end(s: Seq<char>, max: int)
    requires
        0 < max < s.len(),
    ensures
        head_of(s, max).last() == '\u{2026}',
        forall|i: int| 0 <= i < max - 1 ==> #[trigger] head_of(s, max)[i] == s[i],
        tail_of(s, max)[0] == '\u{2026}',
        forall|i: int| 1 <= i < max ==> #[trigger] tail_of(s, max)[i] == s[s.len() - max + i],
{
}

} // verus!
