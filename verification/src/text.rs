//! Strings as sequences of characters: the few primitives every other module
//! builds its text with.

use vstd::prelude::*;

verus! {

broadcast use vstd::string::group_string_axioms;

/// `String::push` appends one character to the end of the string.
pub assume_specification[ String::push ](s: &mut String, ch: char)
    ensures
        final(s)@ == old(s)@.push(ch),
;

/// `char::from_u32` gives the character with that code point, and `None` for a
/// number that is no Unicode scalar value (a surrogate, or above 0x10FFFF).
pub assume_specification[ char::from_u32 ](i: u32) -> (c: Option<char>)
    ensures
        c == (if is_scalar(i as int) { Some(i as char) } else { None::<char> }),
;

/// Whether `i` is the number of a Unicode character.
pub open spec fn is_scalar(i: int) -> bool {
    0 <= i <= 0xD7FF || 0xE000 <= i <= 0x10FFFF
}

/// The number of a character.
pub fn code_of(c: char) -> (n: u32)
    ensures
        n == c as int,
        is_scalar(c as int),
{
    c as u32
}

/// The characters of `s`, in order.
pub fn chars_of(s: &str) -> (out: Vec<char>)
    ensures
        out@ == s@,
{
    let mut out: Vec<char> = Vec::new();
    for c in it: s.chars()
        invariant
            it.seq() == s@,
            out@ == s@.take(it.index() as int),
    {
        out.push(c);
        assert(out@ =~= s@.take(it.index() + 1));
    }
    assert(s@.take(s@.len() as int) =~= s@);
    out
}

/// The string whose characters are `cs[from..to]`.
pub fn string_of(cs: &Vec<char>, from: usize, to: usize) -> (out: String)
    requires
        from <= to <= cs.len(),
    ensures
        out@ == cs@.subrange(from as int, to as int),
{
    let mut out = String::new();
    let mut i: usize = from;
    assert(out@ =~= cs@.subrange(from as int, from as int));
    while i < to
        invariant
            from <= i <= to <= cs.len(),
            out@ == cs@.subrange(from as int, i as int),
        decreases to - i,
    {
        out.push(cs[i]);
        i += 1;
        assert(out@ =~= cs@.subrange(from as int, i as int));
    }
    out
}

/// Whether the last character of `s` is `c`.
pub fn ends_with_char(s: &str, c: char) -> (r: bool)
    ensures
        r == (s@.len() > 0 && s@.last() == c),
{
    let n: usize = s.unicode_len();
    n > 0 && s.get_char(n - 1) == c
}

/// Whether two texts are the same.
pub fn same_text(a: &str, b: &str) -> (r: bool)
    ensures
        r == (a@ == b@),
{
    let (a, b) = (a.to_owned(), b.to_owned());
    a == b
}

/// Whether `c` is white space.
pub open spec fn is_white(c: char) -> bool {
    let n = c as int;
    ||| 0x09 <= n <= 0x0D
    ||| n == 0x20
    ||| n == 0x85
    ||| n == 0xA0
    ||| n == 0x1680
    ||| 0x2000 <= n <= 0x200A
    ||| n == 0x2028
    ||| n == 0x2029
    ||| n == 0x202F
    ||| n == 0x205F
    ||| n == 0x3000
}

pub fn is_whitespace(c: char) -> (r: bool)
    ensures
        r == is_white(c),
{
    let n: u32 = code_of(c);
    (0x09 <= n && n <= 0x0D) || n == 0x20 || n == 0x85 || n == 0xA0 || n == 0x1680 || (0x2000 <= n
        && n <= 0x200A) || n == 0x2028 || n == 0x2029 || n == 0x202F || n == 0x205F || n == 0x3000
}

/// `s` without the white space in front.
pub open spec fn trim_start(s: Seq<char>) -> Seq<char>
    decreases s.len(),
{
    if s.len() > 0 && is_white(s[0]) {
        trim_start(s.skip(1))
    } else {
        s
    }
}

/// `s` without the white space at its end.
pub open spec fn trim_end(s: Seq<char>) -> Seq<char>
    decreases s.len(),
{
    if s.len() > 0 && is_white(s.last()) {
        trim_end(s.drop_last())
    } else {
        s
    }
}

/// `s` without the white space around it.
pub open spec fn trimmed(s: Seq<char>) -> Seq<char> {
    trim_end(trim_start(s))
}

/// `s` without any `c` at its end.
pub open spec fn trim_end_of(s: Seq<char>, c: char) -> Seq<char>
    decreases s.len(),
{
    if s.len() > 0 && s.last() == c {
        trim_end_of(s.drop_last(), c)
    } else {
        s
    }
}

/// Where `cs[from..to]` starts once white space in front is skipped.
pub fn skip_white(cs: &Vec<char>, from: usize, to: usize) -> (r: usize)
    requires
        from <= to <= cs.len(),
    ensures
        from <= r <= to,
        cs@.subrange(r as int, to as int) == trim_start(cs@.subrange(from as int, to as int)),
{
    let mut i: usize = from;
    while i < to && is_whitespace(cs[i])
        invariant
            from <= i <= to <= cs.len(),
            trim_start(cs@.subrange(i as int, to as int)) == trim_start(
                cs@.subrange(from as int, to as int),
            ),
        decreases to - i,
    {
        assert(cs@.subrange(i as int, to as int).skip(1) =~= cs@.subrange(i + 1, to as int));
        i += 1;
    }
    i
}

/// Where `cs[from..to]` ends once white space at its end is left out.
pub fn skip_white_back(cs: &Vec<char>, from: usize, to: usize) -> (r: usize)
    requires
        from <= to <= cs.len(),
    ensures
        from <= r <= to,
        cs@.subrange(from as int, r as int) == trim_end(cs@.subrange(from as int, to as int)),
{
    let mut i: usize = to;
    while i > from && is_whitespace(cs[i - 1])
        invariant
            from <= i <= to <= cs.len(),
            trim_end(cs@.subrange(from as int, i as int)) == trim_end(
                cs@.subrange(from as int, to as int),
            ),
        decreases i,
    {
        assert(cs@.subrange(from as int, i as int).drop_last() =~= cs@.subrange(
            from as int,
            i - 1,
        ));
        i -= 1;
    }
    i
}

/// Where `cs[..to]` ends once every `c` at its end is left out.
pub fn skip_back(cs: &Vec<char>, to: usize, c: char) -> (r: usize)
    requires
        to <= cs.len(),
    ensures
        r <= to,
        cs@.take(r as int) == trim_end_of(cs@.take(to as int), c),
{
    let mut i: usize = to;
    while i > 0 && cs[i - 1] == c
        invariant
            i <= to <= cs.len(),
            trim_end_of(cs@.take(i as int), c) == trim_end_of(cs@.take(to as int), c),
        decreases i,
    {
        assert(cs@.take(i as int).drop_last() =~= cs@.take(i - 1));
        i -= 1;
    }
    i
}

/// `s` without the white space around it.
pub fn trim(s: &str) -> (r: String)
    ensures
        r@ == trimmed(s@),
{
    let cs = chars_of(s);
    let n: usize = cs.len();
    let a: usize = skip_white(&cs, 0, n);
    assert(cs@.subrange(0, n as int) =~= s@);
    let b: usize = skip_white_back(&cs, a, n);
    string_of(&cs, a, b)
}

/// ASCII letters raised to upper case, everything else as it is.
pub open spec fn ascii_upper(c: char) -> char {
    if 'a' <= c <= 'z' {
        (c as int - 32) as char
    } else {
        c
    }
}

/// ASCII letters lowered, everything else as it is.
pub open spec fn ascii_lower(c: char) -> char {
    if 'A' <= c <= 'Z' {
        (c as int + 32) as char
    } else {
        c
    }
}

pub fn to_ascii_upper(c: char) -> (r: char)
    ensures
        r == ascii_upper(c),
{
    if 'a' <= c && c <= 'z' {
        match char::from_u32(c as u32 - 32) {
            Some(u) => u,
            None => c,
        }
    } else {
        c
    }
}

pub fn to_ascii_lower(c: char) -> (r: char)
    ensures
        r == ascii_lower(c),
{
    if 'A' <= c && c <= 'Z' {
        match char::from_u32(c as u32 + 32) {
            Some(u) => u,
            None => c,
        }
    } else {
        c
    }
}

/// `s` with its ASCII letters lowered.
pub open spec fn ascii_lowered(s: Seq<char>) -> Seq<char> {
    s.map_values(|c: char| ascii_lower(c))
}

pub fn to_ascii_lowercase(s: &str) -> (r: String)
    ensures
        r@ == ascii_lowered(s@),
{
    let mut r = String::new();
    for c in it: s.chars()
        invariant
            it.seq() == s@,
            r@ == ascii_lowered(s@).take(it.index() as int),
    {
        r.push(to_ascii_lower(c));
        assert(r@ =~= ascii_lowered(s@).take(it.index() + 1));
    }
    assert(ascii_lowered(s@).take(s@.len() as int) =~= ascii_lowered(s@));
    r
}

/// Whether two texts are the same but for the case of ASCII letters.
pub fn eq_ignore_ascii_case(a: &str, b: &str) -> (r: bool)
    ensures
        r == (ascii_lowered(a@) == ascii_lowered(b@)),
{
    let x = to_ascii_lowercase(a);
    let y = to_ascii_lowercase(b);
    x == y
}

// ------------------------------------------------------------ lines and words

/// Where the first `c` of `s` stands; at its end where there is none.
pub open spec fn find(s: Seq<char>, c: char) -> int
    decreases s.len(),
{
    if s.len() == 0 || s[0] == c {
        0
    } else {
        1 + find(s.skip(1), c)
    }
}

pub proof fn lemma_find(s: Seq<char>, c: char)
    ensures
        0 <= find(s, c) <= s.len(),
        find(s, c) < s.len() ==> s[find(s, c)] == c,
        forall|i: int| 0 <= i < find(s, c) ==> s[i] != c,
    decreases s.len(),
{
    if s.len() > 0 && s[0] != c {
        lemma_find(s.skip(1), c);
        assert forall|i: int| 0 <= i < find(s, c) implies s[i] != c by {
            if i > 0 {
                assert(s.skip(1)[i - 1] == s[i]);
            }
        }
    }
}

/// The first `c` of `cs[from..to]`, or `to`.
pub fn find_char(cs: &Vec<char>, from: usize, to: usize, c: char) -> (r: usize)
    requires
        from <= to <= cs.len(),
    ensures
        r == from + find(cs@.subrange(from as int, to as int), c),
        from <= r <= to,
{
    let mut i: usize = from;
    while i < to && cs[i] != c
        invariant
            from <= i <= to <= cs.len(),
            from + find(cs@.subrange(from as int, to as int), c) == i + find(
                cs@.subrange(i as int, to as int),
                c,
            ),
        decreases to - i,
    {
        assert(cs@.subrange(i as int, to as int).skip(1) =~= cs@.subrange(i + 1, to as int));
        i += 1;
    }
    i
}

/// `s` without a carriage return at its end.
pub open spec fn without_cr(s: Seq<char>) -> Seq<char> {
    if s.len() > 0 && s.last() == '\r' {
        s.drop_last()
    } else {
        s
    }
}

/// The lines of a text. A line ends at a line feed, with or without a carriage
/// return in front of it; the last one may end with the text.
pub open spec fn lines(s: Seq<char>) -> Seq<Seq<char>>
    decreases s.len(),
{
    if s.len() == 0 {
        Seq::empty()
    } else {
        let k = find(s, '\n');
        if 0 <= k < s.len() {
            seq![without_cr(s.take(k))] + lines(s.skip(k + 1))
        } else {
            seq![s]
        }
    }
}

/// The texts of a list of strings.
pub open spec fn texts(v: Seq<String>) -> Seq<Seq<char>> {
    v.map_values(|s: String| s@)
}

pub fn split_lines(s: &str) -> (r: Vec<String>)
    ensures
        texts(r@) == lines(s@),
{
    let cs = chars_of(s);
    let n: usize = cs.len();
    let mut out: Vec<String> = Vec::new();
    let mut i: usize = 0;
    proof {
        assert(cs@.skip(0) =~= s@);
        assert(texts(out@) + lines(s@) =~= lines(s@));
    }
    while i < n
        invariant
            i <= n == cs.len(),
            texts(out@) + lines(cs@.skip(i as int)) == lines(s@),
        decreases n - i,
    {
        let ghost rest = cs@.skip(i as int);
        let k: usize = find_char(&cs, i, n, '\n');
        let mut end: usize = k;
        proof {
            assert(cs@.subrange(i as int, n as int) =~= rest);
            assert(rest.take(k - i) =~= cs@.subrange(i as int, k as int));
        }
        if k < n && end > i && cs[end - 1] == '\r' {
            end -= 1;
            assert(rest.take(k - i).last() == '\r');
            assert(rest.take(k - i).drop_last() =~= cs@.subrange(i as int, end as int));
        }
        let line = string_of(&cs, i, end);
        let ghost before = texts(out@);
        out.push(line);
        assert(texts(out@) =~= before.push(line@));
        if k < n {
            assert(rest.skip(k - i + 1) =~= cs@.skip(k + 1));
            i = k + 1;
            assert(before + (seq![line@] + lines(cs@.skip(i as int))) =~= texts(out@) + lines(
                cs@.skip(i as int),
            ));
        } else {
            assert(rest.take(k - i) =~= rest);
            i = n;
            assert(cs@.skip(n as int) =~= Seq::empty());
            assert(before + seq![line@] =~= texts(out@) + Seq::<Seq<char>>::empty());
        }
    }
    assert(cs@.skip(n as int) =~= Seq::empty());
    assert(texts(out@) + Seq::<Seq<char>>::empty() =~= texts(out@));
    out
}

/// How many characters `s` starts with that are no white space.
pub open spec fn word_len(s: Seq<char>) -> int
    decreases s.len(),
{
    if s.len() == 0 || is_white(s[0]) {
        0
    } else {
        1 + word_len(s.skip(1))
    }
}

pub proof fn lemma_word_len(s: Seq<char>)
    ensures
        0 <= word_len(s) <= s.len(),
    decreases s.len(),
{
    if s.len() > 0 && !is_white(s[0]) {
        lemma_word_len(s.skip(1));
    }
}

proof fn lemma_trim_start_len(s: Seq<char>)
    ensures
        trim_start(s).len() <= s.len(),
        trim_start(s).len() > 0 ==> !is_white(trim_start(s)[0]),
    decreases s.len(),
{
    if s.len() > 0 && is_white(s[0]) {
        lemma_trim_start_len(s.skip(1));
    }
}

/// The words of a text: what stands between white space.
pub open spec fn words(s: Seq<char>) -> Seq<Seq<char>>
    decreases s.len(),
    via words_shrink
{
    let t = trim_start(s);
    if t.len() == 0 {
        Seq::empty()
    } else {
        seq![t.take(word_len(t))] + words(t.skip(word_len(t)))
    }
}

#[via_fn]
proof fn words_shrink(s: Seq<char>) {
    let t = trim_start(s);
    lemma_trim_start_len(s);
    lemma_word_len(t);
    if t.len() > 0 {
        lemma_word_len(t.skip(1));
        assert(word_len(t) >= 1);
    }
}

pub fn split_words(s: &str) -> (r: Vec<String>)
    ensures
        texts(r@) == words(s@),
{
    let cs = chars_of(s);
    let n: usize = cs.len();
    let mut out: Vec<String> = Vec::new();
    let mut i: usize = 0;
    proof {
        assert(cs@.subrange(0, n as int) =~= s@);
        assert(texts(out@) + words(s@) =~= words(s@));
    }
    loop
        invariant
            i <= n == cs.len(),
            texts(out@) + words(cs@.subrange(i as int, n as int)) == words(s@),
        decreases n - i,
    {
        let a: usize = skip_white(&cs, i, n);
        let ghost t = cs@.subrange(a as int, n as int);
        if a == n {
            assert(texts(out@) + Seq::<Seq<char>>::empty() =~= texts(out@));
            return out;
        }
        let mut b: usize = a;
        proof {
            lemma_trim_start_len(cs@.subrange(i as int, n as int));
        }
        while b < n && !is_whitespace(cs[b])
            invariant
                a <= b <= n == cs.len(),
                t == cs@.subrange(a as int, n as int),
                word_len(t) == b - a + word_len(cs@.subrange(b as int, n as int)),
            decreases n - b,
        {
            assert(cs@.subrange(b as int, n as int).skip(1) =~= cs@.subrange(b + 1, n as int));
            b += 1;
        }
        let word = string_of(&cs, a, b);
        let ghost before = texts(out@);
        out.push(word);
        proof {
            assert(t[0] == cs@[a as int]);
            assert(word_len(t) == b - a);
            assert(t.take(b - a) =~= word@);
            assert(t.skip(b - a) =~= cs@.subrange(b as int, n as int));
            assert(texts(out@) =~= before.push(word@));
            assert(before + (seq![word@] + words(cs@.subrange(b as int, n as int))) =~= texts(out@)
                + words(cs@.subrange(b as int, n as int)));
        }
        i = b;
    }
}

/// Whether no character of `s` is white space.
pub open spec fn is_one_word(s: Seq<char>) -> bool {
    s.len() > 0 && forall|i: int| 0 <= i < s.len() ==> !is_white(#[trigger] s[i])
}

proof fn lemma_word_in_front(w: Seq<char>, rest: Seq<char>)
    requires
        forall|i: int| 0 <= i < w.len() ==> !is_white(#[trigger] w[i]),
        rest.len() > 0 ==> is_white(rest[0]),
    ensures
        word_len(w + rest) == w.len(),
    decreases w.len(),
{
    let s = w + rest;
    if w.len() > 0 {
        assert(s[0] == w[0]);
        assert(s.skip(1) =~= w.skip(1) + rest);
        lemma_word_in_front(w.skip(1), rest);
    } else {
        assert(s =~= rest);
    }
}

/// White space parts the words of a text, and nothing else does: a text without any is
/// one word, a word and white space in front of a text add that word, and white space
/// alone adds none.
pub proof fn law_white_space_parts_words(w: Seq<char>, c: char, rest: Seq<char>)
    requires
        is_white(c),
    ensures
        words(Seq::empty()) == Seq::<Seq<char>>::empty(),
        words(seq![c] + rest) == words(rest),
        is_one_word(w) ==> words(w) == seq![w],
        is_one_word(w) ==> words(w + (seq![c] + rest)) == seq![w] + words(rest),
{
    assert((seq![c] + rest).skip(1) =~= rest);
    assert(words(Seq::empty()) == Seq::<Seq<char>>::empty());
    if is_one_word(w) {
        let none = Seq::<char>::empty();
        lemma_word_in_front(w, none);
        assert(w + none =~= w);
        assert(w.take(w.len() as int) =~= w);
        assert(w.skip(w.len() as int) =~= none);
        assert(w[0] == w.take(w.len() as int)[0]);
        assert(trim_start(w) == w);
        assert(words(w) == seq![w] + words(none));
        assert(words(w) =~= seq![w]);
        let more = seq![c] + rest;
        lemma_word_in_front(w, more);
        let s = w + more;
        assert(s[0] == w[0]);
        assert(s.take(w.len() as int) =~= w);
        assert(s.skip(w.len() as int) =~= more);
    }
}

/// Trimming takes white space off both ends of a text, and nothing else.
pub proof fn law_trimmed_is_bare(s: Seq<char>)
    ensures
        trimmed(s).len() > 0 ==> !is_white(trimmed(s)[0]) && !is_white(trimmed(s).last()),
        exists|a: int, b: int|
            {
                &&& 0 <= a <= b <= s.len()
                &&& trimmed(s) == #[trigger] s.subrange(a, b)
                &&& forall|i: int| 0 <= i < s.len() && !(a <= i < b) ==> is_white(#[trigger] s[i])
            },
{
    let a = lemma_front(s);
    let t = trim_start(s);
    let b = lemma_back(t);
    assert(t.take(b) =~= s.subrange(a, a + b));
    lemma_trim_start_len(s);
    assert forall|i: int| 0 <= i < s.len() && !(a <= i < a + b) implies is_white(#[trigger] s[i]) by {
        if i >= a {
            assert(t[i - a] == s[i]);
        }
    }
    if trimmed(s).len() > 0 {
        assert(trimmed(s)[0] == t[0]);
    }
}

proof fn lemma_front(s: Seq<char>) -> (a: int)
    ensures
        0 <= a <= s.len(),
        trim_start(s) == s.skip(a),
        forall|i: int| 0 <= i < a ==> is_white(#[trigger] s[i]),
    decreases s.len(),
{
    if s.len() > 0 && is_white(s[0]) {
        let a = lemma_front(s.skip(1));
        assert(s.skip(1).skip(a) =~= s.skip(a + 1));
        assert forall|i: int| 0 <= i < a + 1 implies is_white(#[trigger] s[i]) by {
            if i > 0 {
                assert(s.skip(1)[i - 1] == s[i]);
            }
        }
        a + 1
    } else {
        assert(s.skip(0) =~= s);
        0
    }
}

proof fn lemma_back(s: Seq<char>) -> (b: int)
    ensures
        0 <= b <= s.len(),
        trim_end(s) == s.take(b),
        b > 0 ==> !is_white(s[b - 1]),
        forall|i: int| b <= i < s.len() ==> is_white(#[trigger] s[i]),
    decreases s.len(),
{
    if s.len() > 0 && is_white(s.last()) {
        let b = lemma_back(s.drop_last());
        assert(s.drop_last().take(b) =~= s.take(b));
        assert forall|i: int| b <= i < s.len() implies is_white(#[trigger] s[i]) by {
            if i < s.len() - 1 {
                assert(s.drop_last()[i] == s[i]);
            }
        }
        b
    } else {
        assert(s.take(s.len() as int) =~= s);
        s.len() as int
    }
}

/// A line feed ends a line, and a carriage return in front of it does not belong to the
/// line; the last line may end with the text.
pub proof fn law_line_feeds_end_lines(a: Seq<char>, rest: Seq<char>)
    requires
        forall|i: int| 0 <= i < a.len() ==> #[trigger] a[i] != '\n',
    ensures
        lines(Seq::empty()) == Seq::<Seq<char>>::empty(),
        a.len() > 0 ==> lines(a) == seq![a],
        lines(a + (seq!['\n'] + rest)) == seq![
            if a.len() > 0 && a.last() == '\r' {
                a.drop_last()
            } else {
                a
            },
        ] + lines(rest),
{
    lemma_find_first(a, Seq::empty());
    assert(a + Seq::<char>::empty() =~= a);
    let more = seq!['\n'] + rest;
    lemma_find_first(a, more);
    let s = a + more;
    assert(s.take(a.len() as int) =~= a);
    assert(s.skip(a.len() as int + 1) =~= rest);
}

proof fn lemma_find_first(a: Seq<char>, more: Seq<char>)
    requires
        forall|i: int| 0 <= i < a.len() ==> #[trigger] a[i] != '\n',
        more.len() > 0 ==> more[0] == '\n',
    ensures
        find(a + more, '\n') == a.len(),
    decreases a.len(),
{
    let s = a + more;
    if a.len() > 0 {
        assert(s[0] == a[0]);
        assert(s.skip(1) =~= a.skip(1) + more);
        lemma_find_first(a.skip(1), more);
    } else {
        assert(s =~= more);
    }
}

} // verus!
