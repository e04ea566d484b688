//! The command line: what its arguments ask for, and the lines it prints.

use crate::decimal::{
    decimal, digits, law_digits_round_trip, parse_count, parsed_count, push_decimal,
};
use crate::format::{fmt_bytes, plain_bytes_text};
use crate::path::{join_path, joined};
use crate::analysis::FileHit;
use crate::datetime::{is_short_date, short_date};
use crate::shorten::{head_of, truncate};
use crate::temp::{TempFileEntry, TempFileView, temp_views};
use crate::text::{same_text, texts};
use crate::types::FolderNode;
use crate::wrap::{law_wrap_absorbs, law_wrap_fits, wrap, wrapping_sum};
use vstd::prelude::*;

verus! {

/// What a command line asks for.
#[derive(Debug)]
pub struct CliArgs {
    pub use_mft: bool,
    pub top_n: usize,
    pub oldest_n: usize,
    pub temp_mode: bool,
    /// Everything that is no option: the first is the folder to scan.
    pub rest: Vec<String>,
}

pub struct ArgsView {
    pub use_mft: bool,
    pub top_n: int,
    pub oldest_n: int,
    pub temp_mode: bool,
    pub rest: Seq<Seq<char>>,
}

impl View for CliArgs {
    type V = ArgsView;

    open spec fn view(&self) -> ArgsView {
        ArgsView {
            use_mft: self.use_mft,
            top_n: self.top_n as int,
            oldest_n: self.oldest_n as int,
            temp_mode: self.temp_mode,
            rest: texts(self.rest@),
        }
    }
}

pub open spec fn no_args() -> ArgsView {
    ArgsView { use_mft: false, top_n: 0, oldest_n: 0, temp_mode: false, rest: Seq::empty() }
}

/// The number that an argument gives; 0 where it gives none.
pub open spec fn number_of(s: Seq<char>) -> int {
    match parsed_count(s, usize::MAX as nat) {
        Some(n) => n as int,
        None => 0,
    }
}

/// `acc` with `args` taken into account, from the first on. An option that wants a
/// number takes the argument behind it, if there is one.
pub open spec fn args_from(args: Seq<Seq<char>>, acc: ArgsView) -> ArgsView
    decreases args.len(),
{
    if args.len() == 0 {
        acc
    } else if args[0] == "--mft"@ {
        args_from(args.skip(1), ArgsView { use_mft: true, ..acc })
    } else if args[0] == "--top-n"@ {
        if args.len() >= 2 {
            args_from(args.skip(2), ArgsView { top_n: number_of(args[1]), ..acc })
        } else {
            acc
        }
    } else if args[0] == "--oldest-n"@ {
        if args.len() >= 2 {
            args_from(args.skip(2), ArgsView { oldest_n: number_of(args[1]), ..acc })
        } else {
            acc
        }
    } else if args[0] == "--temp"@ {
        args_from(args.skip(1), ArgsView { temp_mode: true, ..acc })
    } else {
        args_from(args.skip(1), ArgsView { rest: acc.rest.push(args[0]), ..acc })
    }
}

fn read_number(s: &str) -> (r: usize)
    ensures
        r == number_of(s@),
{
    match parse_count(s, usize::MAX as u64) {
        Some(n) => n as usize,
        None => 0,
    }
}

/// Reads the arguments of a command line.
pub fn parse_args(args: &Vec<String>) -> (r: CliArgs)
    ensures
        r@ == args_from(texts(args@), no_args()),
{
    let ghost all = texts(args@);
    let n: usize = args.len();
    let mut r = CliArgs {
        use_mft: false,
        top_n: 0,
        oldest_n: 0,
        temp_mode: false,
        rest: Vec::new(),
    };
    let mut i: usize = 0;
    proof {
        assert(r@.rest =~= Seq::empty());
        assert(all.skip(0) =~= all);
    }
    while i < n
        invariant
            i <= n == args.len(),
            all == texts(args@),
            args_from(all.skip(i as int), r@) == args_from(all, no_args()),
        decreases n - i,
    {
        let ghost left = all.skip(i as int);
        proof {
            assert(left[0] == args@[i as int]@);
            assert(left.skip(1) =~= all.skip(i + 1));
            if i + 1 < n {
                assert(left[1] == args@[i + 1]@);
                assert(left.skip(2) =~= all.skip(i + 2));
            }
        }
        let a = args[i].as_str();
        let ghost before = r@;
        if same_text(a, "--mft") {
            r.use_mft = true;
            i += 1;
        } else if same_text(a, "--top-n") {
            if i + 1 < n {
                r.top_n = read_number(args[i + 1].as_str());
                i += 2;
            } else {
                i += 1;
                assert(all.skip(n as int) =~= Seq::empty());
            }
        } else if same_text(a, "--oldest-n") {
            if i + 1 < n {
                r.oldest_n = read_number(args[i + 1].as_str());
                i += 2;
            } else {
                i += 1;
                assert(all.skip(n as int) =~= Seq::empty());
            }
        } else if same_text(a, "--temp") {
            r.temp_mode = true;
            i += 1;
        } else {
            r.rest.push(args[i].clone());
            assert(r@.rest =~= before.rest.push(left[0]));
            i += 1;
        }
    }
    r
}

impl CliArgs {
    /// Whether single files have to be kept: only lists of files need them.
    pub fn track_files(&self) -> (r: bool)
        ensures
            r == (self.top_n > 0 || self.oldest_n > 0),
    {
        self.top_n > 0 || self.oldest_n > 0
    }
}

/// How the command line is used.
pub fn usage() -> (r: &'static str)
    ensures
        r@ == "usage: cluttercutter-cli.exe [--mft] [--top-n N] [--oldest-n N] <path>\n       cluttercutter-cli.exe --temp"@,
{
    "usage: cluttercutter-cli.exe [--mft] [--top-n N] [--oldest-n N] <path>\n       cluttercutter-cli.exe --temp"
}

/// `s` with spaces in front, up to `width` characters.
pub open spec fn right_aligned(s: Seq<char>, width: int) -> Seq<char> {
    if s.len() < width {
        Seq::new((width - s.len()) as nat, |i: int| ' ') + s
    } else {
        s
    }
}

fn push_right(out: &mut String, s: &str, width: usize)
    ensures
        final(out)@ == old(out)@ + right_aligned(s@, width as int),
{
    let ghost before = out@;
    let n: usize = s.unicode_len();
    let mut i: usize = n;
    while i < width
        invariant
            n <= i,
            i <= width || i == n,
            out@ == before + Seq::new((i - n) as nat, |k: int| ' '),
        decreases width - i,
    {
        out.push(' ');
        i += 1;
        assert(out@ =~= before + Seq::new((i - n) as nat, |k: int| ' '));
    }
    out.append(s);
    assert(out@ =~= before + right_aligned(s@, width as int));
}

/// The path of a file that was found.
pub fn full_path(h: &FileHit<'_>) -> (r: String)
    ensures
        r@ == joined(h.folder.full_path@, h.file.name@),
{
    join_path(h.folder.full_path.as_str(), h.file.name.as_str())
}

/// A size and what has it.
pub open spec fn size_line_text(size: int, what: Seq<char>) -> Seq<char> {
    "  "@ + right_aligned(plain_bytes_text(size), 10) + "  "@ + what
}

/// One line of a list: a size and what has it.
pub fn size_line(size: i64, what: &str) -> (r: String)
    ensures
        r@ == size_line_text(size as int, what@),
{
    let mut r = "  ".to_owned();
    push_right(&mut r, fmt_bytes(size).as_str(), 10);
    r.append("  ");
    r.append(what);
    r
}

/// One line of a list of files with their dates.
pub fn dated_line(ft: i64, size: i64, what: &str) -> (r: String)
    ensures
        exists|date: Seq<char>| #[trigger]
            is_short_date(date, ft as int) && r@ == "  "@ + date + size_line_text(
                size as int,
                what@,
            ),
{
    let date = short_date(ft);
    let mut r = "  ".to_owned();
    r.append(date.as_str());
    r.append(size_line(size, what).as_str());
    assert(is_short_date(date@, ft as int));
    r
}

/// What is printed of a finished scan.
pub open spec fn summary_text(
    name: Seq<char>,
    size: int,
    files: int,
    folders: int,
    elapsed: Seq<char>,
    use_mft: bool,
) -> Seq<char> {
    "\n"@ + name + " \u{2014} "@ + plain_bytes_text(size) + " ("@ + decimal(files) + " files, "@
        + decimal(folders) + " folders) in "@ + elapsed + "s ["@ + (if use_mft {
        "MFT"@
    } else {
        "walker"@
    }) + "]"@
}

/// Tells what a scan found; `elapsed` is the time it took, in seconds.
pub fn summary_line(root: &FolderNode, elapsed: &str, use_mft: bool) -> (r: String)
    ensures
        r@ == summary_text(
            root.name@,
            root.size as int,
            root.file_count as int,
            root.folder_count as int,
            elapsed@,
            use_mft,
        ),
{
    let mut r = "\n".to_owned();
    r.append(root.name.as_str());
    r.append(" \u{2014} ");
    r.append(fmt_bytes(root.size).as_str());
    r.append(" (");
    push_decimal(&mut r, root.file_count);
    r.append(" files, ");
    push_decimal(&mut r, root.folder_count);
    r.append(" folders) in ");
    r.append(elapsed);
    r.append("s [");
    if use_mft {
        r.append("MFT");
    } else {
        r.append("walker");
    }
    r.append("]");
    r
}

/// What is printed while a scan is under way.
pub open spec fn progress_text(files: int, bytes: int, percent: Seq<char>, path: Seq<char>) -> Seq<
    char,
> {
    "\r  "@ + right_aligned(decimal(files), 8) + " files  "@ + right_aligned(
        plain_bytes_text(bytes),
        10,
    ) + "  "@ + right_aligned(percent, 5) + "  "@ + head_of(path, 70)
}

/// Tells how far a scan has come; `percent` is how far, as text.
pub fn progress_line(files: i64, bytes: i64, percent: &str, path: &str) -> (r: String)
    ensures
        r@ == progress_text(files as int, bytes as int, percent@, path@),
{
    let mut r = "\r  ".to_owned();
    let mut count = String::new();
    push_decimal(&mut count, files);
    assert(count@ =~= decimal(files as int));
    push_right(&mut r, count.as_str(), 8);
    r.append(" files  ");
    push_right(&mut r, fmt_bytes(bytes).as_str(), 10);
    r.append("  ");
    push_right(&mut r, percent, 5);
    r.append("  ");
    r.append(truncate(path, 70).as_str());
    r
}

/// What the first `n` of `files` amount to.
pub open spec fn bytes_in(files: Seq<TempFileView>, n: int) -> int
    decreases n,
{
    if n <= 0 {
        0
    } else {
        bytes_in(files, n - 1) + files[n - 1].size
    }
}

/// What throwaway files amount to.
pub fn reclaimable(files: &Vec<TempFileEntry>) -> (r: i64)
    ensures
        r == wrap(bytes_in(temp_views(files@), files.len() as int)),
{
    let mut total: i64 = 0;
    let mut i: usize = 0;
    proof {
        law_wrap_fits(0);
    }
    while i < files.len()
        invariant
            i <= files.len(),
            total == wrap(bytes_in(temp_views(files@), i as int)),
        decreases files.len() - i,
    {
        proof {
            assert(temp_views(files@)[i as int] == files@[i as int]@);
            law_wrap_absorbs(bytes_in(temp_views(files@), i as int), files@[i as int].size as int);
        }
        total = wrapping_sum(total, files[i].size);
        i += 1;
    }
    total
}

// ------------------------------------------------------------- what arguments mean

/// Whether none of `args` is an option that wants a number.
pub open spec fn without_numbers(args: Seq<Seq<char>>) -> bool {
    forall|i: int|
        0 <= i < args.len() ==> #[trigger] args[i] != "--top-n"@ && args[i] != "--oldest-n"@
}

/// Whether an argument is no option without a number.
pub open spec fn is_no_flag(s: Seq<char>) -> bool {
    s != "--mft"@ && s != "--temp"@
}

/// An option is on where it stands anywhere among the arguments; everything else is handed
/// on in its order.
pub proof fn law_flags_stand_anywhere(args: Seq<Seq<char>>)
    requires
        without_numbers(args),
    ensures
        args_from(args, no_args()).use_mft <==> args.contains("--mft"@),
        args_from(args, no_args()).temp_mode <==> args.contains("--temp"@),
        args_from(args, no_args()).rest == args.filter(|s: Seq<char>| is_no_flag(s)),
        args_from(args, no_args()).top_n == 0,
        args_from(args, no_args()).oldest_n == 0,
{
    lemma_flags(args);
}

proof fn lemma_options_differ()
    ensures
        "--mft"@ != "--temp"@,
        "--mft"@ != "--top-n"@,
        "--mft"@ != "--oldest-n"@,
        "--temp"@ != "--top-n"@,
        "--temp"@ != "--oldest-n"@,
        "--top-n"@ != "--oldest-n"@,
{
    reveal_strlit("--mft");
    reveal_strlit("--temp");
    reveal_strlit("--top-n");
    reveal_strlit("--oldest-n");
    assert("--mft"@.len() == 5 && "--temp"@.len() == 6);
    assert("--top-n"@.len() == 7 && "--oldest-n"@.len() == 10);
}

proof fn lemma_args_join(a: Seq<Seq<char>>, b: Seq<Seq<char>>, acc: ArgsView)
    requires
        without_numbers(a),
    ensures
        args_from(a + b, acc) == args_from(b, args_from(a, acc)),
    decreases a.len(),
{
    if a.len() == 0 {
        assert(a + b =~= b);
    } else {
        let x = a[0];
        assert((a + b)[0] == x);
        assert((a + b).skip(1) =~= a.skip(1) + b);
        assert(without_numbers(a.skip(1))) by {
            assert forall|i: int| 0 <= i < a.skip(1).len() implies #[trigger] a.skip(1)[i]
                != "--top-n"@ && a.skip(1)[i] != "--oldest-n"@ by {
                assert(a.skip(1)[i] == a[i + 1]);
            }
        }
        lemma_args_join(a.skip(1), b, ArgsView { use_mft: true, ..acc });
        lemma_args_join(a.skip(1), b, ArgsView { temp_mode: true, ..acc });
        lemma_args_join(a.skip(1), b, ArgsView { rest: acc.rest.push(x), ..acc });
    }
}

proof fn lemma_flags(args: Seq<Seq<char>>)
    requires
        without_numbers(args),
    ensures
        ({
            let r = args_from(args, no_args());
            &&& r.use_mft <==> args.contains("--mft"@)
            &&& r.temp_mode <==> args.contains("--temp"@)
            &&& r.rest == args.filter(|s: Seq<char>| is_no_flag(s))
            &&& r.top_n == 0
            &&& r.oldest_n == 0
        }),
    decreases args.len(),
{
    lemma_options_differ();
    reveal(Seq::filter);
    if args.len() > 0 {
        let front = args.drop_last();
        let x = args.last();
        assert(args =~= front + seq![x]);
        assert(without_numbers(front));
        lemma_flags(front);
        lemma_args_join(front, seq![x], no_args());
        let acc = args_from(front, no_args());
        assert(args_from(seq![x], acc) == if x == "--mft"@ {
            ArgsView { use_mft: true, ..acc }
        } else if x == "--temp"@ {
            ArgsView { temp_mode: true, ..acc }
        } else {
            ArgsView { rest: acc.rest.push(x), ..acc }
        }) by {
            reveal_with_fuel(args_from, 2);
            assert(seq![x].skip(1) =~= Seq::<Seq<char>>::empty());
            assert(seq![x][0] == x);
            assert(args[args.len() - 1] != "--top-n"@ && args[args.len() - 1] != "--oldest-n"@);
        }
        assert forall|s: Seq<char>| #[trigger] args.contains(s) <==> front.contains(s) || s == x by {
            if front.contains(s) {
                let i = choose|i: int| 0 <= i < front.len() && front[i] == s;
                assert(args[i] == s);
            }
            if args.contains(s) && s != x {
                let i = choose|i: int| 0 <= i < args.len() && args[i] == s;
                assert(front[i] == s);
            }
            if s == x {
                assert(args[args.len() - 1] == s);
            }
        }
    } else {
        assert(args.filter(|s: Seq<char>| is_no_flag(s)) =~= Seq::empty());
    }
}

/// A number behind `--top-n` or `--oldest-n` is taken as asked, and the two do not count
/// among what is handed on. Such an option with nothing behind it asks for nothing.
pub proof fn law_numbers_follow_their_option(a: Seq<Seq<char>>, n: usize, b: Seq<Seq<char>>)
    requires
        without_numbers(a),
        without_numbers(b),
    ensures
        args_from(a + seq!["--top-n"@, decimal(n as int)] + b, no_args()) == (ArgsView {
            top_n: n as int,
            ..args_from(a + b, no_args())
        }),
        args_from(a + seq!["--oldest-n"@, decimal(n as int)] + b, no_args()) == (ArgsView {
            oldest_n: n as int,
            ..args_from(a + b, no_args())
        }),
        args_from(a + seq!["--top-n"@], no_args()) == args_from(a, no_args()),
        args_from(a + seq!["--oldest-n"@], no_args()) == args_from(a, no_args()),
{
    lemma_options_differ();
    let acc = args_from(a, no_args());
    law_digits_round_trip(n as nat);
    assert(number_of(decimal(n as int)) == n) by {
        assert(digits(n as nat)[0] != '+');
    }
    lemma_flags(a);
    lemma_args_join(a, b, no_args());
    let t = seq!["--top-n"@, decimal(n as int)] + b;
    assert(a + seq!["--top-n"@, decimal(n as int)] + b =~= a + t);
    lemma_args_join(a, t, no_args());
    assert(t.skip(2) =~= b);
    assert(t[0] == "--top-n"@ && t[1] == decimal(n as int));
    lemma_numbers_stay(b, acc, n as int, acc.oldest_n);
    let o = seq!["--oldest-n"@, decimal(n as int)] + b;
    assert(a + seq!["--oldest-n"@, decimal(n as int)] + b =~= a + o);
    lemma_args_join(a, o, no_args());
    assert(o.skip(2) =~= b);
    assert(o[0] == "--oldest-n"@ && o[1] == decimal(n as int));
    lemma_numbers_stay(b, acc, acc.top_n, n as int);
    lemma_numbers_stay(b, acc, acc.top_n, acc.oldest_n);
    lemma_args_join(a, seq!["--top-n"@], no_args());
    lemma_args_join(a, seq!["--oldest-n"@], no_args());
    assert(seq!["--top-n"@][0] == "--top-n"@);
    assert(seq!["--oldest-n"@][0] == "--oldest-n"@);
}

proof fn lemma_numbers_stay(b: Seq<Seq<char>>, acc: ArgsView, top: int, oldest: int)
    requires
        without_numbers(b),
    ensures
        args_from(b, ArgsView { top_n: top, oldest_n: oldest, ..acc }) == (ArgsView {
            top_n: top,
            oldest_n: oldest,
            ..args_from(b, acc)
        }),
    decreases b.len(),
{
    if b.len() > 0 {
        let rest = b.skip(1);
        assert(without_numbers(rest)) by {
            assert forall|i: int| 0 <= i < rest.len() implies #[trigger] rest[i] != "--top-n"@
                && rest[i] != "--oldest-n"@ by {
                assert(rest[i] == b[i + 1]);
            }
        }
        assert(b[0] != "--top-n"@ && b[0] != "--oldest-n"@);
        lemma_numbers_stay(rest, ArgsView { use_mft: true, ..acc }, top, oldest);
        lemma_numbers_stay(rest, ArgsView { temp_mode: true, ..acc }, top, oldest);
        lemma_numbers_stay(rest, ArgsView { rest: acc.rest.push(b[0]), ..acc }, top, oldest);
    }
}

/// What throwaway files amount to is what each of them has, added up.
pub proof fn law_reclaimable_is_the_sum(files: Seq<TempFileView>)
    ensures
        bytes_in(files, files.len() as int) == files.map_values(
            |f: TempFileView| f.size,
        ).fold_left(0, |a: int, b: int| a + b),
    decreases files.len(),
{
    let sizes = files.map_values(|f: TempFileView| f.size);
    if files.len() > 0 {
        let front = files.drop_last();
        law_reclaimable_is_the_sum(front);
        assert(sizes.drop_last() =~= front.map_values(|f: TempFileView| f.size));
        lemma_bytes_prefix(front, files, front.len() as int);
    }
}

proof fn lemma_bytes_prefix(front: Seq<TempFileView>, files: Seq<TempFileView>, n: int)
    requires
        n <= front.len() <= files.len(),
        forall|i: int| 0 <= i < front.len() ==> front[i] == files[i],
    ensures
        bytes_in(front, n) == bytes_in(files, n),
    decreases n,
{
    if n > 0 {
        lemma_bytes_prefix(front, files, n - 1);
    }
}

} // verus!
