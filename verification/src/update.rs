//! Whether a newer release is out, and what the user is told.

use crate::decimal::{
    all_digits, digits, is_digit, law_digits_round_trip, parse_digits, parsed_digits,
};
use crate::text::{chars_of, same_text, skip_back, string_of, trim_end_of};
use vstd::prelude::*;

verus! {

/// What stands behind the last `c` of `s`; all of it where there is none.
pub open spec fn after_last(s: Seq<char>, c: char) -> Seq<char>
    decreases s.len(),
{
    if s.len() == 0 || s.last() == c {
        Seq::empty()
    } else {
        after_last(s.drop_last(), c).push(s.last())
    }
}

/// The release that a redirect to `.../releases/tag/<tag>` names: its last part,
/// where that starts with a `v`.
pub open spec fn tag_in(location: Seq<char>) -> Option<Seq<char>> {
    let tag = after_last(trim_end_of(location, '/'), '/');
    if tag.len() > 0 && tag[0] == 'v' {
        Some(tag)
    } else {
        None
    }
}

pub fn tag_from_location(location: &str) -> (r: Option<String>)
    ensures
        r is Some <==> tag_in(location@) is Some,
        r is Some ==> r->0@ == tag_in(location@)->0,
{
    let cs = chars_of(location);
    let n: usize = skip_back(&cs, cs.len(), '/');
    assert(cs@.take(cs.len() as int) =~= location@);
    let ghost s = cs@.take(n as int);
    let mut i: usize = n;
    assert(cs@.subrange(n as int, n as int) =~= Seq::empty());
    assert(after_last(s, '/') + Seq::<char>::empty() =~= after_last(s, '/'));
    while i > 0 && cs[i - 1] != '/'
        invariant
            i <= n <= cs.len(),
            s == cs@.take(n as int),
            after_last(s, '/') == after_last(cs@.take(i as int), '/') + cs@.subrange(
                i as int,
                n as int,
            ),
        decreases i,
    {
        assert(cs@.take(i as int).drop_last() =~= cs@.take(i - 1));
        assert(after_last(cs@.take(i - 1), '/').push(cs@[i - 1]) + cs@.subrange(i as int, n as int)
            =~= after_last(cs@.take(i - 1), '/') + cs@.subrange(i - 1, n as int));
        i -= 1;
    }
    assert(after_last(cs@.take(i as int), '/') =~= Seq::empty());
    let tag = string_of(&cs, i, n);
    assert(tag@ =~= after_last(s, '/'));
    if i < n && cs[i] == 'v' {
        Some(tag)
    } else {
        None
    }
}

/// `s` without the `v`s in front.
pub open spec fn without_v(s: Seq<char>) -> Seq<char>
    decreases s.len(),
{
    if s.len() > 0 && s[0] == 'v' {
        without_v(s.skip(1))
    } else {
        s
    }
}

/// Whether `c` separates the parts of a version.
pub open spec fn separates(c: char) -> bool {
    c == '.' || c == '-' || c == '+'
}

/// How long the first part of a version is.
pub open spec fn part_len(s: Seq<char>) -> int
    decreases s.len(),
{
    if s.len() == 0 || separates(s[0]) {
        0
    } else {
        1 + part_len(s.skip(1))
    }
}

/// The number that a part spells; a part that is no number counts as 0.
pub open spec fn part_value(s: Seq<char>) -> nat {
    match parsed_digits(s, u32::MAX as nat) {
        Some(n) => n,
        None => 0,
    }
}

/// The first three parts of a version; what is missing counts as 0.
pub open spec fn parts_of(version: Seq<char>) -> (nat, nat, nat) {
    let a = without_v(version);
    let b = behind_part(a);
    let c = match b {
        Some(s) => behind_part(s),
        None => None,
    };
    (front_value(Some(a)), front_value(b), front_value(c))
}

/// What stands behind the first part and its separator, if there is one.
pub open spec fn behind_part(s: Seq<char>) -> Option<Seq<char>> {
    let k = part_len(s);
    if 0 <= k < s.len() {
        Some(s.skip(k + 1))
    } else {
        None
    }
}

/// The value of the first part of what is left.
pub open spec fn front_value(s: Option<Seq<char>>) -> nat {
    match s {
        Some(s) => part_value(s.take(part_len(s))),
        None => 0,
    }
}

/// Whether version `a` comes after version `b`: the first part in which they differ
/// decides.
pub open spec fn comes_after(a: (nat, nat, nat), b: (nat, nat, nat)) -> bool {
    a.0 > b.0 || (a.0 == b.0 && (a.1 > b.1 || (a.1 == b.1 && a.2 > b.2)))
}

/// Reads the part at `from`: its value, and where the next one starts, if there is
/// one.
fn read_part(cs: &Vec<char>, from: Option<usize>) -> (r: (u32, Option<usize>))
    requires
        from is Some ==> from->0 <= cs.len(),
    ensures
        ({
            let s = match from {
                Some(i) => Some(cs@.skip(i as int)),
                None => None,
            };
            let next = match s {
                Some(t) => behind_part(t),
                None => None,
            };
            &&& r.0 == front_value(s)
            &&& r.1 is Some <==> next is Some
            &&& r.1 is Some ==> r.1->0 <= cs.len() && cs@.skip(r.1->0 as int) == next->0
        }),
{
    let start: usize = match from {
        Some(i) => i,
        None => {
            return (0, None);
        },
    };
    let n: usize = cs.len();
    let ghost s = cs@.skip(start as int);
    let mut k: usize = start;
    while k < n && cs[k] != '.' && cs[k] != '-' && cs[k] != '+'
        invariant
            start <= k <= n == cs.len(),
            s == cs@.skip(start as int),
            part_len(s) == k - start + part_len(cs@.skip(k as int)),
        decreases n - k,
    {
        assert(cs@.skip(k as int)[0] == cs@[k as int]);
        assert(cs@.skip(k as int).skip(1) =~= cs@.skip(k + 1));
        k += 1;
    }
    proof {
        if k < n {
            assert(cs@.skip(k as int)[0] == cs@[k as int]);
        }
        assert(part_len(s) == k - start);
        assert(s.take(k - start) =~= cs@.subrange(start as int, k as int));
    }
    let value: u32 = match parse_digits(cs, start, k, u32::MAX as u64) {
        Some(v) => v as u32,
        None => 0,
    };
    if k < n {
        assert(s.skip(k - start + 1) =~= cs@.skip(k + 1));
        (value, Some(k + 1))
    } else {
        (value, None)
    }
}

fn parts(version: &str) -> (r: (u32, u32, u32))
    ensures
        (r.0 as nat, r.1 as nat, r.2 as nat) == parts_of(version@),
{
    let cs = chars_of(version);
    let mut i: usize = 0;
    assert(cs@.skip(0) =~= version@);
    while i < cs.len() && cs[i] == 'v'
        invariant
            i <= cs.len(),
            without_v(cs@.skip(i as int)) == without_v(version@),
        decreases cs.len() - i,
    {
        assert(cs@.skip(i as int)[0] == 'v');
        assert(cs@.skip(i as int).skip(1) =~= cs@.skip(i + 1));
        i += 1;
    }
    proof {
        if i < cs.len() {
            assert(cs@.skip(i as int)[0] == cs@[i as int]);
        }
        assert(without_v(version@) == cs@.skip(i as int));
    }
    let (a, at): (u32, Option<usize>) = read_part(&cs, Some(i));
    let (b, at): (u32, Option<usize>) = read_part(&cs, at);
    let (c, _): (u32, Option<usize>) = read_part(&cs, at);
    (a, b, c)
}

/// Whether the release `latest` is newer than `current`.
pub fn is_newer(latest: &str, current: &str) -> (r: bool)
    ensures
        r == comes_after(parts_of(latest@), parts_of(current@)),
{
    let (a, b, c): (u32, u32, u32) = parts(latest);
    let (x, y, z): (u32, u32, u32) = parts(current);
    a > x || (a == x && (b > y || (b == y && c > z)))
}

/// Being newer orders versions: none is newer than itself, of two at most one is
/// newer, and a version newer than a newer one is newer.
pub proof fn law_newer_orders(a: (nat, nat, nat), b: (nat, nat, nat), c: (nat, nat, nat))
    ensures
        !comes_after(a, a),
        !(comes_after(a, b) && comes_after(b, a)),
        comes_after(a, b) && comes_after(b, c) ==> comes_after(a, c),
        comes_after(a, b) || comes_after(b, a) || a == b,
{
}

/// A `v` in front of a version makes no difference.
pub proof fn law_v_ignored(s: Seq<char>)
    ensures
        parts_of(seq!['v'] + s) == parts_of(s),
{
    let t = seq!['v'] + s;
    assert(t.skip(1) =~= s);
    assert(without_v(t) == without_v(s));
}

/// What the user is told.
#[derive(Debug)]
pub struct UpdateNotice {
    pub message: String,
    /// Whether the user is asked if the releases page is to be opened.
    pub offers_page: bool,
    /// Whether the notice is a warning.
    pub is_warning: bool,
}

/// What is said where a newer release is out.
pub open spec fn newer_text(latest: Seq<char>, current: Seq<char>) -> Seq<char> {
    "ClutterCutter "@ + latest + " is available (you have "@ + current
        + ").\n\nTo update:\n\u{2022} winget:  winget upgrade StruisICT.ClutterCutter\n\u{2022} or download it from the releases page.\n\nOpen the releases page now?"@
}

fn strip_v(s: &str) -> (r: String)
    ensures
        r@ == without_v(s@),
{
    let cs = chars_of(s);
    let mut i: usize = 0;
    assert(cs@.skip(0) =~= s@);
    while i < cs.len() && cs[i] == 'v'
        invariant
            i <= cs.len(),
            without_v(cs@.skip(i as int)) == without_v(s@),
        decreases cs.len() - i,
    {
        assert(cs@.skip(i as int)[0] == 'v');
        assert(cs@.skip(i as int).skip(1) =~= cs@.skip(i + 1));
        i += 1;
    }
    proof {
        if i < cs.len() {
            assert(cs@.skip(i as int)[0] == cs@[i as int]);
        }
    }
    let r = string_of(&cs, i, cs.len());
    assert(r@ =~= cs@.skip(i as int));
    r
}

/// Tells how a check for updates came out; `latest` is the newest release, where it
/// could be learnt.
pub fn check_now(latest: Option<&str>, current: &str) -> (r: UpdateNotice)
    ensures
        match latest {
            Some(tag) => if comes_after(parts_of(tag@), parts_of(current@)) {
                r.message@ == newer_text(without_v(tag@), current@) && r.offers_page
                    && !r.is_warning
            } else {
                r.message@ == "You're on the latest version (ClutterCutter "@ + current@ + ")."@
                    && !r.offers_page && !r.is_warning
            },
            None => r.message@
                == "Couldn't check for updates right now.\n\nOpen the releases page to check manually?"@
                && r.offers_page && r.is_warning,
        },
{
    match latest {
        Some(tag) => if is_newer(tag, current) {
            let mut message = "ClutterCutter ".to_owned();
            message.append(strip_v(tag).as_str());
            message.append(" is available (you have ");
            message.append(current);
            message.append(
                ").\n\nTo update:\n\u{2022} winget:  winget upgrade StruisICT.ClutterCutter\n\u{2022} or download it from the releases page.\n\nOpen the releases page now?",
            );
            UpdateNotice { message, offers_page: true, is_warning: false }
        } else {
            let mut message = "You're on the latest version (ClutterCutter ".to_owned();
            message.append(current);
            message.append(").");
            UpdateNotice { message, offers_page: false, is_warning: false }
        },
        None => UpdateNotice {
            message: "Couldn't check for updates right now.\n\nOpen the releases page to check manually?".to_owned(),
            offers_page: true,
            is_warning: true,
        },
    }
}

/// The version that the strip below the top bar offers when the program starts: the
/// newest release, where it could be learnt and is newer, unless it was offered
/// before.
pub open spec fn offer_of(latest: Option<Seq<char>>, current: Seq<char>, seen: Seq<char>) -> Option<
    Seq<char>,
> {
    match latest {
        Some(tag) if comes_after(parts_of(tag), parts_of(current)) && without_v(tag) != seen => Some(
            without_v(tag),
        ),
        _ => None,
    }
}

pub fn startup_offer(latest: Option<&str>, current: &str, seen: &str) -> (r: Option<String>)
    ensures
        match latest {
            Some(tag) => match r {
                Some(version) => offer_of(Some(tag@), current@, seen@) == Some(version@),
                None => offer_of(Some(tag@), current@, seen@) is None,
            },
            None => r is None,
        },
{
    let tag = match latest {
        Some(tag) => tag,
        None => return None,
    };
    let version = strip_v(tag);
    if is_newer(tag, current) && !same_text(version.as_str(), seen) {
        Some(version)
    } else {
        None
    }
}

/// A release is offered once: not again after it was seen.
pub proof fn law_offered_once(latest: Option<Seq<char>>, current: Seq<char>, seen: Seq<char>)
    requires
        offer_of(latest, current, seen) is Some,
    ensures
        offer_of(latest, current, offer_of(latest, current, seen)->0) is None,
{
}

/// What the strip below the top bar says of a newer release.
pub fn banner_text(version: &str) -> (r: String)
    ensures
        r@ == "ClutterCutter "@ + version@
            + " is available  \u{2014}  winget upgrade StruisICT.ClutterCutter"@,
{
    let mut r = "ClutterCutter ".to_owned();
    r.append(version);
    r.append(" is available  \u{2014}  winget upgrade StruisICT.ClutterCutter");
    r
}

/// A redirect names its release in its last part, whatever stands in front, and however
/// many slashes behind; a last part that starts with no `v` names none.
pub proof fn law_last_part_is_the_tag(front: Seq<char>, tag: Seq<char>, slashes: nat)
    requires
        tag.len() > 0,
        forall|i: int| 0 <= i < tag.len() ==> #[trigger] tag[i] != '/',
    ensures
        tag_in(front.push('/') + tag + Seq::new(slashes, |i: int| '/')) == if tag[0] == 'v' {
            Some(tag)
        } else {
            None
        },
{
    let s = front.push('/') + tag;
    assert(s.last() == tag.last());
    assert(tag[tag.len() - 1] != '/');
    lemma_slashes(s, slashes);
    lemma_after_last(front.push('/'), tag);
}

proof fn lemma_slashes(s: Seq<char>, n: nat)
    requires
        s.len() > 0,
        s.last() != '/',
    ensures
        trim_end_of(s + Seq::new(n, |i: int| '/'), '/') == s,
    decreases n,
{
    let t = s + Seq::new(n, |i: int| '/');
    if n == 0 {
        assert(t =~= s);
    } else {
        lemma_slashes(s, (n - 1) as nat);
        assert(t.drop_last() =~= s + Seq::new((n - 1) as nat, |i: int| '/'));
        assert(t.last() == '/');
    }
}

proof fn lemma_after_last(front: Seq<char>, tag: Seq<char>)
    requires
        front.len() > 0,
        front.last() == '/',
        forall|i: int| 0 <= i < tag.len() ==> #[trigger] tag[i] != '/',
    ensures
        after_last(front + tag, '/') == tag,
    decreases tag.len(),
{
    let s = front + tag;
    if tag.len() == 0 {
        assert(s =~= front);
        assert(tag =~= Seq::empty());
    } else {
        lemma_after_last(front, tag.drop_last());
        assert(s.drop_last() =~= front + tag.drop_last());
        assert(s.last() == tag.last());
        assert(tag[tag.len() - 1] != '/');
        assert(tag =~= tag.drop_last().push(tag.last()));
    }
}

/// The three numbers of a version are read as they are written, with dots between them; what
/// follows behind a dot, a dash or a plus does not count.
pub proof fn law_versions_by_number(x: u32, y: u32, z: u32, more: Seq<char>)
    requires
        more.len() > 0 ==> more[0] == '.' || more[0] == '-' || more[0] == '+',
    ensures
        parts_of(
            digits(x as nat).push('.') + (digits(y as nat).push('.') + (digits(z as nat) + more)),
        ) == (x as nat, y as nat, z as nat),
{
    let c = digits(z as nat) + more;
    let b = digits(y as nat).push('.') + c;
    let a = digits(x as nat).push('.') + b;
    lemma_number_in_front(x, seq!['.'] + b);
    lemma_number_in_front(y, seq!['.'] + c);
    lemma_number_in_front(z, more);
    assert(a =~= digits(x as nat) + (seq!['.'] + b));
    assert(b =~= digits(y as nat) + (seq!['.'] + c));
    assert(a.skip(digits(x as nat).len() as int + 1) =~= b);
    assert(b.skip(digits(y as nat).len() as int + 1) =~= c);
    law_digits_round_trip(x as nat);
    assert(a[0] == digits(x as nat)[0]);
    assert(is_digit(digits(x as nat)[0]));
}

proof fn lemma_number_in_front(n: u32, more: Seq<char>)
    requires
        more.len() > 0 ==> separates(more[0]),
    ensures
        part_len(digits(n as nat) + more) == digits(n as nat).len(),
        front_value(Some(digits(n as nat) + more)) == n,
{
    law_digits_round_trip(n as nat);
    let d = digits(n as nat);
    lemma_part_in_front(d, more);
    assert((d + more).take(d.len() as int) =~= d);
}

proof fn lemma_part_in_front(d: Seq<char>, more: Seq<char>)
    requires
        all_digits(d),
        more.len() > 0 ==> separates(more[0]),
    ensures
        part_len(d + more) == d.len(),
    decreases d.len(),
{
    let s = d + more;
    if d.len() == 0 {
        assert(s =~= more);
    } else {
        assert(s[0] == d[0]);
        assert(is_digit(d[0]));
        assert(s.skip(1) =~= d.skip(1) + more);
        lemma_part_in_front(d.skip(1), more);
    }
}

} // verus!
