//! The size of the window and the order of the main list, as they are kept from one
//! run to the next.

use crate::decimal::{
    decimal, digits, is_digit, law_decimal_round_trip, law_digits_round_trip, parse_i64, parsed_int,
    push_decimal,
};
use crate::text::{is_white, same_text, split_words, texts, trim_start, word_len, words};
use vstd::prelude::*;

verus! {

/// The number that `s` spells, if a 32-bit number can be it.
pub open spec fn number_in(s: Seq<char>) -> Option<int> {
    parsed_int(s, i32::MIN as int, i32::MAX as int)
}

fn parse_i32(s: &str) -> (r: Option<i32>)
    ensures
        r is Some <==> number_in(s@) is Some,
        r is Some ==> r->0 == number_in(s@)->0,
{
    match parse_i64(s) {
        Some(v) => if i32::MIN as i64 <= v && v <= i32::MAX as i64 {
            Some(v as i32)
        } else {
            None
        },
        None => None,
    }
}

/// The number that word `i` spells; `default` where there is none.
pub open spec fn word_number(ws: Seq<Seq<char>>, i: int, default: int) -> int {
    if 0 <= i < ws.len() {
        match number_in(ws[i]) {
            Some(n) => n,
            None => default,
        }
    } else {
        default
    }
}

fn number_of_word(ws: &Vec<String>, i: usize, default: i32) -> (r: i32)
    ensures
        r == word_number(texts(ws@), i as int, default as int),
{
    if i < ws.len() {
        assert(texts(ws@)[i as int] == ws@[i as int]@);
        match parse_i32(ws[i].as_str()) {
            Some(n) => n,
            None => default,
        }
    } else {
        default
    }
}

/// `x`, held between `lo` and `hi`.
pub open spec fn clamped(x: int, lo: int, hi: int) -> int {
    if x < lo {
        lo
    } else if x > hi {
        hi
    } else {
        x
    }
}

fn clamp(x: i32, lo: i32, hi: i32) -> (r: i32)
    requires
        lo <= hi,
    ensures
        r == clamped(x as int, lo as int, hi as int),
{
    if x < lo {
        lo
    } else if x > hi {
        hi
    } else {
        x
    }
}

/// The width and height that a text says, held within reason.
pub open spec fn size_in(text: Seq<char>) -> (int, int) {
    let ws = words(text);
    (clamped(word_number(ws, 0, 1700), 700, 20000), clamped(word_number(ws, 1, 900), 500, 20000))
}

/// Reads the size of the window. `None` stands for a text that could not be read.
pub fn load_window_size(text: Option<&str>) -> (r: (i32, i32))
    ensures
        text is None ==> r == (1700i32, 900i32),
        text is Some ==> (r.0 as int, r.1 as int) == size_in(text->0@),
{
    match text {
        None => (1700, 900),
        Some(t) => {
            let ws = split_words(t);
            let w: i32 = number_of_word(&ws, 0, 1700);
            let h: i32 = number_of_word(&ws, 1, 900);
            (clamp(w, 700, 20000), clamp(h, 500, 20000))
        },
    }
}

/// Two numbers with a space between them.
pub open spec fn pair_text(a: int, b: int) -> Seq<char> {
    decimal(a) + seq![' '] + decimal(b)
}

fn write_pair(a: i32, b: i32) -> (r: String)
    ensures
        r@ == pair_text(a as int, b as int),
{
    let mut r = String::new();
    push_decimal(&mut r, a as i64);
    r.push(' ');
    push_decimal(&mut r, b as i64);
    assert(r@ =~= pair_text(a as int, b as int));
    r
}

/// Writes the size of the window down; one that is too small to be meant is not
/// kept.
pub fn save_window_size(w: i32, h: i32) -> (r: Option<String>)
    ensures
        r is None <==> w < 200 || h < 200,
        r is Some ==> r->0@ == pair_text(w as int, h as int),
{
    if w < 200 || h < 200 {
        None
    } else {
        Some(write_pair(w, h))
    }
}

/// The column that a text says the list is sorted by.
pub open spec fn sort_col_in(text: Seq<char>) -> int {
    clamped(word_number(words(text), 0, 0), 0, 6)
}

/// Whether it says that the order descends.
pub open spec fn sort_desc_in(text: Seq<char>) -> bool {
    words(text).len() >= 2 && words(text)[1] == "1"@
}

/// Reads the order of the main list. `None` stands for a text that could not be
/// read.
pub fn load_sort(text: Option<&str>) -> (r: (i32, bool))
    ensures
        text is None ==> r == (0i32, false),
        text is Some ==> r.0 == sort_col_in(text->0@) && r.1 == sort_desc_in(text->0@),
{
    match text {
        None => (0, false),
        Some(t) => {
            let ws = split_words(t);
            let col: i32 = number_of_word(&ws, 0, 0);
            let desc = if ws.len() >= 2 {
                assert(texts(ws@)[1] == ws@[1]@);
                same_text(ws[1].as_str(), "1")
            } else {
                false
            };
            (clamp(col, 0, 6), desc)
        },
    }
}

/// Writes the order of the main list down.
pub fn save_sort(col: i32, desc: bool) -> (r: String)
    ensures
        r@ == pair_text(
            col as int,
            if desc {
                1
            } else {
                0
            },
        ),
{
    write_pair(
        col,
        if desc {
            1
        } else {
            0
        },
    )
}

// ------------------------------------------------------------------ round trips

/// Whether `s` is a word: something, without white space in it.
spec fn is_word(s: Seq<char>) -> bool {
    s.len() > 0 && forall|i: int| 0 <= i < s.len() ==> !is_white(#[trigger] s[i])
}

/// A word is as long as it is.
proof fn lemma_word_at_front(w: Seq<char>, rest: Seq<char>)
    requires
        forall|i: int| 0 <= i < w.len() ==> !is_white(#[trigger] w[i]),
        rest.len() == 0 || is_white(rest[0]),
    ensures
        word_len(w + rest) == w.len(),
    decreases w.len(),
{
    let s = w + rest;
    if w.len() == 0 {
        assert(s =~= rest);
    } else {
        assert(s[0] == w[0]);
        assert(s.skip(1) =~= w.skip(1) + rest);
        assert forall|i: int| 0 <= i < w.skip(1).len() implies !is_white(#[trigger] w.skip(1)[i]) by {
            assert(w.skip(1)[i] == w[i + 1]);
        }
        lemma_word_at_front(w.skip(1), rest);
    }
}

/// Two words with a space between them are two words.
proof fn lemma_two_words(a: Seq<char>, b: Seq<char>)
    requires
        is_word(a),
        is_word(b),
    ensures
        words(a + seq![' '] + b) == seq![a, b],
{
    let s = a + seq![' '] + b;
    let rest = seq![' '] + b;
    assert(s =~= a + rest);
    assert(s[0] == a[0] && !is_white(a[0]));
    assert(trim_start(s) == s);
    lemma_word_at_front(a, rest);
    assert(s.take(a.len() as int) =~= a);
    assert(s.skip(a.len() as int) =~= rest);
    assert(is_white(rest[0]));
    assert(rest.skip(1) =~= b);
    assert(!is_white(b[0]));
    assert(trim_start(b) == b);
    assert(trim_start(rest) == b);
    lemma_word_at_front(b, Seq::empty());
    assert(b + Seq::<char>::empty() =~= b);
    assert(b.take(b.len() as int) =~= b);
    assert(b.skip(b.len() as int) =~= Seq::empty());
    assert(words(Seq::<char>::empty()) =~= Seq::empty());
    assert(words(rest) =~= seq![b]);
    assert(words(s) =~= seq![a, b]);
}

proof fn lemma_decimal_is_word(n: int)
    requires
        n >= 0,
    ensures
        is_word(decimal(n)),
{
    law_digits_round_trip(n as nat);
    let d = digits(n as nat);
    assert forall|i: int| 0 <= i < d.len() implies !is_white(#[trigger] d[i]) by {
        assert(is_digit(d[i]));
    }
}

/// A window size that is within reason comes back as it was.
pub proof fn law_window_size_round_trip(w: int, h: int)
    requires
        700 <= w <= 20000,
        500 <= h <= 20000,
    ensures
        size_in(pair_text(w, h)) == (w, h),
{
    lemma_decimal_is_word(w);
    lemma_decimal_is_word(h);
    lemma_two_words(decimal(w), decimal(h));
    law_decimal_round_trip(w, i32::MIN as int, i32::MAX as int);
    law_decimal_round_trip(h, i32::MIN as int, i32::MAX as int);
}

/// The order of the main list comes back as it was.
pub proof fn law_sort_round_trip(col: int, desc: bool)
    requires
        0 <= col <= 6,
    ensures
        ({
            let t = pair_text(
                col,
                if desc {
                    1
                } else {
                    0
                },
            );
            sort_col_in(t) == col && sort_desc_in(t) == desc
        }),
{
    let d: int = if desc {
        1
    } else {
        0
    };
    lemma_decimal_is_word(col);
    lemma_decimal_is_word(d);
    lemma_two_words(decimal(col), decimal(d));
    law_decimal_round_trip(col, i32::MIN as int, i32::MAX as int);
    reveal_strlit("1");
    assert(decimal(1) =~= "1"@);
    assert(decimal(0)[0] != "1"@[0]);
}

/// Whatever a text says, the window is of a size within reason; where it says nothing, it is
/// 1700 wide and 900 high, and the list is sorted by its first column, upwards.
pub proof fn law_window_within_reason(text: Seq<char>)
    ensures
        700 <= size_in(text).0 <= 20000,
        500 <= size_in(text).1 <= 20000,
        0 <= sort_col_in(text) <= 6,
        words(text).len() == 0 ==> size_in(text) == (1700int, 900int) && sort_col_in(text) == 0
            && !sort_desc_in(text),
{
}

} // verus!
