//! What the summary of a run tells, line by line.

use vstd::prelude::*;

use crate::stats::{joined_lines, links_line, scan_line, texts, Stats};
use crate::text::{decimal, digit};

verus! {

/// The number that a text of decimal digits stands for.
pub open spec fn number_read(text: Seq<char>) -> int
    decreases text.len(),
{
    if text.len() == 0 {
        0
    } else {
        10 * number_read(text.drop_last()) + (text.last() as int - '0' as int)
    }
}

/// A number in decimal is made of digits, does not start with a zero unless it
/// is zero, and reads as the number again.
pub proof fn number_reads_back(n: nat)
    ensures
        number_read(decimal(n)) == n,
        decimal(n).len() > 0,
        forall|i: int| 0 <= i < decimal(n).len() ==> '0' <= #[trigger] decimal(n)[i] <= '9',
        n > 0 ==> decimal(n)[0] != '0',
        n == 0 ==> decimal(n).len() == 1,
    decreases n,
{
    reveal_with_fuel(number_read, 2);
    if n < 10 {
        assert(decimal(n).drop_last() =~= seq![]);
    } else {
        number_reads_back(n / 10);
        assert(decimal(n).drop_last() =~= decimal(n / 10));
        assert(decimal(n)[0] == decimal(n / 10)[0]);
        assert(digit(n % 10) as int == 48 + n % 10);
        assert forall|i: int| 0 <= i < decimal(n).len() implies '0' <= #[trigger] decimal(n)[i]
            <= '9' by {
            if i < decimal(n / 10).len() {
                assert(decimal(n)[i] == decimal(n / 10)[i]);
            }
        }
    }
}

/// Different numbers are written differently.
pub proof fn numbers_differ_in_decimal(m: nat, n: nat)
    ensures
        decimal(m) == decimal(n) <==> m == n,
{
    number_reads_back(m);
    number_reads_back(n);
}

/// True of a text that does not go on with a digit.
spec fn past_digits(text: Seq<char>) -> bool {
    text.len() > 0 && !('0' <= text[0] <= '9')
}

proof fn lemma_number_ends(m: nat, n: nat, a: Seq<char>, b: Seq<char>)
    requires
        past_digits(a),
        past_digits(b),
        decimal(m) + a == decimal(n) + b,
    ensures
        m == n,
        a == b,
{
    number_reads_back(m);
    number_reads_back(n);
    let left = decimal(m) + a;
    let right = decimal(n) + b;
    let i: int = decimal(m).len() as int;
    let j: int = decimal(n).len() as int;
    assert(left[i] == a[0]);
    assert(right[j] == b[0]);
    if i < j {
        assert(right[i] == decimal(n)[i]);
    }
    if j < i {
        assert(left[j] == decimal(m)[j]);
    }
    assert(decimal(m) =~= left.take(i));
    assert(decimal(n) =~= right.take(j));
    assert(a =~= left.skip(i));
    assert(b =~= right.skip(j));
    numbers_differ_in_decimal(m, n);
}

/// Two texts with the same front are equal exactly when what follows is.
proof fn lemma_same_front(front: Seq<char>, a: Seq<char>, b: Seq<char>)
    ensures
        front + a == front + b <==> a == b,
{
    assert((front + a).skip(front.len() as int) =~= a);
    assert((front + b).skip(front.len() as int) =~= b);
}

/// The lines of a text: what stands between its line feeds.
pub open spec fn lines_of(text: Seq<char>) -> Seq<Seq<char>>
    decreases text.len(),
{
    if text.len() == 0 {
        seq![seq![]]
    } else {
        let before = lines_of(text.drop_last());
        if text.last() == '\n' {
            before.push(seq![])
        } else {
            before.drop_last().push(before.last().push(text.last()))
        }
    }
}

proof fn lemma_lines_of_more(text: Seq<char>, more: Seq<char>)
    requires
        !more.contains('\n'),
    ensures
        lines_of(text).len() > 0,
        lines_of(text + more) == lines_of(text).drop_last().push(lines_of(text).last() + more),
    decreases text.len() + more.len(),
{
    if more.len() == 0 {
        if text.len() > 0 {
            let none = Seq::<char>::empty();
            lemma_lines_of_more(text.drop_last(), none);
        }
        assert(text + more =~= text);
        assert(lines_of(text).last() + more =~= lines_of(text).last());
        assert(lines_of(text).drop_last().push(lines_of(text).last()) =~= lines_of(text));
    } else {
        let shorter = more.drop_last();
        assert forall|i: int| 0 <= i < shorter.len() implies shorter[i] != '\n' by {
            assert(more.contains(more[i]));
        }
        lemma_lines_of_more(text, shorter);
        assert(more.contains(more.last()));
        assert((text + more).drop_last() =~= text + shorter);
        assert((lines_of(text).last() + shorter).push(more.last()) =~= lines_of(text).last()
            + more);
        assert(lines_of(text + more) =~= lines_of(text).drop_last().push(
            lines_of(text).last() + more,
        ));
    }
}

/// Lines that are joined come apart again: nothing is lost, added or reordered.
pub proof fn joined_lines_come_apart(lines: Seq<Seq<char>>)
    requires
        lines.len() > 0,
        forall|i: int| 0 <= i < lines.len() ==> !(#[trigger] lines[i]).contains('\n'),
    ensures
        lines_of(joined_lines(lines)) == lines,
    decreases lines.len(),
{
    let last = lines.last();
    let none = Seq::<char>::empty();
    if lines.len() == 1 {
        lemma_lines_of_more(none, last);
        assert(none + last =~= last);
        assert(lines_of(none).last() + last =~= last);
        assert(lines_of(last) =~= lines);
    } else {
        let before = lines.drop_last();
        joined_lines_come_apart(before);
        let text = joined_lines(before).push('\n');
        assert(text.drop_last() =~= joined_lines(before));
        assert(lines_of(text) == before.push(none));
        lemma_lines_of_more(text, last);
        assert(before.push(none).drop_last() =~= before);
        assert(none + last =~= last);
        assert(lines_of(joined_lines(lines)) =~= lines);
    }
}

/// A further line comes behind a line feed, whatever the line holds.
pub proof fn each_line_has_its_own_line(lines: Seq<Seq<char>>, line: Seq<char>)
    ensures
        joined_lines(seq![]) == Seq::<char>::empty(),
        joined_lines(seq![line]) == line,
        lines.len() > 0 ==> joined_lines(lines.push(line)) == joined_lines(lines) + seq!['\n']
            + line,
{
    assert(lines.push(line).drop_last() =~= lines);
    assert(joined_lines(lines).push('\n') =~= joined_lines(lines) + seq!['\n']);
}

/// How many lines the summary has on problems.
pub open spec fn problem_lines(stats: Stats) -> nat {
    if stats.errors@.len() == 0 {
        0
    } else {
        1 + stats.errors@.len()
    }
}

/// The summary starts with a line on the scan and one on the links. A line on
/// removed files comes next if there are any, then one on removed directories if
/// there are any, and last, if there are any problems, their number and a line
/// for each.
pub proof fn summary_has_its_lines_in_order(stats: Stats)
    ensures
        ({
            let lines = stats.summary_lines();
            let files: int = if stats.files_removed > 0 {
                1
            } else {
                0
            };
            let dirs: int = if stats.dirs_removed > 0 {
                1
            } else {
                0
            };
            &&& lines.len() == 2 + files + dirs + problem_lines(stats)
            &&& lines[0] == scan_line(
                stats.regular_files as nat,
                stats.managed_files as nat,
                stats.tracks as nat,
            )
            &&& lines[1] == links_line(
                stats.links_created as nat,
                stats.links_replaced as nat,
                stats.links_up_to_date as nat,
            )
            &&& files == 1 ==> lines[2] == "files removed: "@ + decimal(stats.files_removed as nat)
            &&& dirs == 1 ==> lines[2 + files] == "empty directories removed: "@ + decimal(
                stats.dirs_removed as nat,
            )
            &&& stats.errors@.len() > 0 ==> lines[2 + files + dirs] == "errors: "@ + decimal(
                stats.errors@.len(),
            )
            &&& forall|i: int|
                0 <= i < stats.errors@.len() ==> lines[3 + files + dirs + i] == "  error: "@ + (
                #[trigger] stats.errors@[i])@
        }),
{
}

/// Each line of the summary starts with a word of its own.
proof fn lemma_summary_words()
    ensures
        "scanned "@.len() > 0 && "scanned "@[0] == 's',
        "links: "@.len() > 0 && "links: "@[0] == 'l',
        "files removed: "@.len() > 0 && "files removed: "@[0] == 'f',
        "empty directories removed: "@.len() > 1 && "empty directories removed: "@[0] == 'e'
            && "empty directories removed: "@[1] == 'm',
        "errors: "@.len() > 1 && "errors: "@[0] == 'e' && "errors: "@[1] == 'r',
        "  error: "@.len() > 0 && "  error: "@[0] == ' ',
{
    reveal_strlit("scanned ");
    reveal_strlit("links: ");
    reveal_strlit("files removed: ");
    reveal_strlit("empty directories removed: ");
    reveal_strlit("errors: ");
    reveal_strlit("  error: ");
}

/// The kinds of lines that a summary can hold.
proof fn lemma_summary_line_kinds(stats: Stats, i: int)
    requires
        0 <= i < stats.summary_lines().len(),
    ensures
        ({
            let line = stats.summary_lines()[i];
            ||| line.len() > 0 && (line[0] == 's' || line[0] == 'l')
            ||| stats.files_removed > 0 && line == "files removed: "@ + decimal(
                stats.files_removed as nat,
            )
            ||| stats.dirs_removed > 0 && line == "empty directories removed: "@ + decimal(
                stats.dirs_removed as nat,
            )
            ||| stats.errors@.len() > 0 && line == "errors: "@ + decimal(stats.errors@.len())
            ||| exists|k: int|
                0 <= k < stats.errors@.len() && line == "  error: "@ + (#[trigger] stats.errors@[k])@
        }),
{
    lemma_summary_words();
    summary_has_its_lines_in_order(stats);
    let files: int = if stats.files_removed > 0 {
        1
    } else {
        0
    };
    let dirs: int = if stats.dirs_removed > 0 {
        1
    } else {
        0
    };
    if i >= 3 + files + dirs {
        let k: int = i - 3 - files - dirs;
        assert(stats.errors@[k]@ == stats.errors@[k]@);
        assert(stats.summary_lines()[3 + files + dirs + k] == "  error: "@ + stats.errors@[k]@);
    }
}

/// The summary holds the line on `n` removed files if and only if `n` files were
/// removed and `n` is above zero, whatever else there is to tell.
pub proof fn summary_tells_of_removed_files(stats: Stats, n: nat)
    ensures
        stats.summary_lines().contains("files removed: "@ + decimal(n)) <==> n > 0
            && stats.files_removed == n,
{
    let lines = stats.summary_lines();
    let line = "files removed: "@ + decimal(n);
    summary_has_its_lines_in_order(stats);
    lemma_summary_words();
    assert(line[0] == 'f');
    if n > 0 && stats.files_removed == n {
        assert(lines[2] == line);
    }
    if lines.contains(line) {
        let i = choose|i: int| 0 <= i < lines.len() && lines[i] == line;
        lemma_summary_line_kinds(stats, i);
        assert(stats.files_removed > 0 && line == "files removed: "@ + decimal(
            stats.files_removed as nat,
        ));
        lemma_same_front("files removed: "@, decimal(n), decimal(stats.files_removed as nat));
        numbers_differ_in_decimal(n, stats.files_removed as nat);
    }
}

/// The summary holds the line on `n` removed directories if and only if `n`
/// directories were removed and `n` is above zero.
pub proof fn summary_tells_of_removed_directories(stats: Stats, n: nat)
    ensures
        stats.summary_lines().contains("empty directories removed: "@ + decimal(n)) <==> n > 0
            && stats.dirs_removed == n,
{
    let lines = stats.summary_lines();
    let line = "empty directories removed: "@ + decimal(n);
    summary_has_its_lines_in_order(stats);
    lemma_summary_words();
    assert(line[0] == 'e' && line[1] == 'm');
    if n > 0 && stats.dirs_removed == n {
        let files: int = if stats.files_removed > 0 {
            1
        } else {
            0
        };
        assert(lines[2 + files] == line);
    }
    if lines.contains(line) {
        let i = choose|i: int| 0 <= i < lines.len() && lines[i] == line;
        lemma_summary_line_kinds(stats, i);
        lemma_same_front(
            "empty directories removed: "@,
            decimal(n),
            decimal(stats.dirs_removed as nat),
        );
        numbers_differ_in_decimal(n, stats.dirs_removed as nat);
    }
}

/// The summary holds the line on `n` problems if and only if there are `n`, and
/// `n` is above zero.
pub proof fn summary_tells_the_number_of_problems(stats: Stats, n: nat)
    ensures
        stats.summary_lines().contains("errors: "@ + decimal(n)) <==> n > 0 && stats.errors@.len()
            == n,
{
    let lines = stats.summary_lines();
    let line = "errors: "@ + decimal(n);
    summary_has_its_lines_in_order(stats);
    lemma_summary_words();
    assert(line[0] == 'e' && line[1] == 'r');
    if n > 0 && stats.errors@.len() == n {
        let at: int = lines.len() - n - 1;
        assert(lines[at] == line);
    }
    if lines.contains(line) {
        let i = choose|i: int| 0 <= i < lines.len() && lines[i] == line;
        lemma_summary_line_kinds(stats, i);
        lemma_same_front("errors: "@, decimal(n), decimal(stats.errors@.len()));
        numbers_differ_in_decimal(n, stats.errors@.len());
    }
}

/// The summary holds a line for a problem if and only if that problem came up.
pub proof fn summary_tells_of_each_problem(stats: Stats, problem: Seq<char>)
    ensures
        stats.summary_lines().contains("  error: "@ + problem) <==> texts(stats.errors@).contains(
            problem,
        ),
{
    let lines = stats.summary_lines();
    let line = "  error: "@ + problem;
    let errors = texts(stats.errors@);
    summary_has_its_lines_in_order(stats);
    lemma_summary_words();
    assert(line[0] == ' ');
    if errors.contains(problem) {
        let k = choose|k: int| 0 <= k < errors.len() && errors[k] == problem;
        assert(stats.errors@[k]@ == problem);
        let at: int = lines.len() - errors.len() + k;
        assert(lines[at] == line);
    }
    if lines.contains(line) {
        let i = choose|i: int| 0 <= i < lines.len() && lines[i] == line;
        lemma_summary_line_kinds(stats, i);
        let k = choose|k: int|
            0 <= k < stats.errors@.len() && line == "  error: "@ + (#[trigger] stats.errors@[k])@;
        lemma_same_front("  error: "@, problem, stats.errors@[k]@);
        assert(errors[k] == problem);
    }
}

/// The text of a summary, taken apart at its line feeds, gives its lines, where
/// no problem holds a line feed itself.
pub proof fn summary_text_holds_the_lines(stats: Stats)
    requires
        forall|i: int| 0 <= i < stats.errors@.len() ==> !(#[trigger] stats.errors@[i])@.contains('\n'),
    ensures
        lines_of(joined_lines(stats.summary_lines())) == stats.summary_lines(),
{
    let lines = stats.summary_lines();
    summary_has_its_lines_in_order(stats);
    assert forall|i: int| 0 <= i < lines.len() implies !(#[trigger] lines[i]).contains('\n') by {
        lemma_summary_line_is_one_line(stats, i);
    }
    joined_lines_come_apart(lines);
}

/// The text of the summary has a line on `n` removed files if and only if `n` files
/// were removed and `n` is above zero, whatever the other counters are and where no
/// problem holds a line feed itself.
pub proof fn summary_text_tells_of_removed_files(stats: Stats, text: String, n: nat)
    requires
        call_ensures(Stats::summary, (&stats,), text),
        forall|i: int| 0 <= i < stats.errors@.len() ==> !(#[trigger] stats.errors@[i])@.contains('\n'),
    ensures
        lines_of(text@).contains("files removed: "@ + decimal(n)) <==> n > 0 && stats.files_removed
            == n,
        lines_of(text@).contains("empty directories removed: "@ + decimal(n)) <==> n > 0
            && stats.dirs_removed == n,
        lines_of(text@).contains("errors: "@ + decimal(n)) <==> n > 0 && stats.errors@.len() == n,
{
    summary_text_holds_the_lines(stats);
    summary_tells_of_removed_files(stats, n);
    summary_tells_of_removed_directories(stats, n);
    summary_tells_the_number_of_problems(stats, n);
}

/// Counters start at zero, without a problem: their summary is the two lines that
/// every summary has.
pub proof fn counters_start_at_zero(stats: Stats)
    requires
        call_ensures(<Stats as Default>::default, (), stats),
    ensures
        stats.summary_lines() == seq![scan_line(0, 0, 0), links_line(0, 0, 0)],
{
    assert(stats@.errors.len() == stats.errors@.len());
    assert(stats.summary_lines() =~= seq![scan_line(0, 0, 0), links_line(0, 0, 0)]);
}

/// What a run says of its problems and its summary agree: it had problems exactly
/// when the summary counts them.
pub proof fn summary_counts_problems_exactly_when_there_were_some(stats: Stats, had: bool)
    requires
        call_ensures(Stats::had_errors, (&stats,), had),
    ensures
        had <==> exists|n: nat| #[trigger]
            stats.summary_lines().contains("errors: "@ + decimal(n)),
{
    let n: nat = stats.errors@.len();
    summary_tells_the_number_of_problems(stats, n);
    if exists|n: nat| #[trigger] stats.summary_lines().contains("errors: "@ + decimal(n)) {
        let m = choose|m: nat| #[trigger]
            stats.summary_lines().contains("errors: "@ + decimal(m));
        summary_tells_the_number_of_problems(stats, m);
    }
}

/// A text without a line feed stays one when another is appended.
proof fn lemma_no_feed(a: Seq<char>, b: Seq<char>)
    requires
        !a.contains('\n'),
        !b.contains('\n'),
    ensures
        !(a + b).contains('\n'),
{
    assert forall|i: int| 0 <= i < (a + b).len() implies (a + b)[i] != '\n' by {
        if i < a.len() {
            assert(a.contains(a[i]));
        } else {
            assert(b.contains(b[i - a.len()]));
        }
    }
}

proof fn lemma_number_no_feed(n: nat)
    ensures
        !decimal(n).contains('\n'),
{
    number_reads_back(n);
}

proof fn lemma_scan_line_no_feed(a: nat, b: nat, c: nat)
    ensures
        !scan_line(a, b, c).contains('\n'),
{
    reveal_strlit("scanned ");
    reveal_strlit(" regular files: ");
    reveal_strlit(" managed, ");
    reveal_strlit(" tracks");
    lemma_number_no_feed(a);
    lemma_number_no_feed(b);
    lemma_number_no_feed(c);
    let t = "scanned "@ + decimal(a);
    lemma_no_feed("scanned "@, decimal(a));
    lemma_no_feed(t, " regular files: "@);
    lemma_no_feed(t + " regular files: "@, decimal(b));
    lemma_no_feed(t + " regular files: "@ + decimal(b), " managed, "@);
    lemma_no_feed(t + " regular files: "@ + decimal(b) + " managed, "@, decimal(c));
    lemma_no_feed(t + " regular files: "@ + decimal(b) + " managed, "@ + decimal(c), " tracks"@);
}

proof fn lemma_links_line_no_feed(a: nat, b: nat, c: nat)
    ensures
        !links_line(a, b, c).contains('\n'),
{
    reveal_strlit("links: ");
    reveal_strlit(" created, ");
    reveal_strlit(" replaced, ");
    reveal_strlit(" up to date");
    lemma_number_no_feed(a);
    lemma_number_no_feed(b);
    lemma_number_no_feed(c);
    let t = "links: "@ + decimal(a);
    lemma_no_feed("links: "@, decimal(a));
    lemma_no_feed(t, " created, "@);
    lemma_no_feed(t + " created, "@, decimal(b));
    lemma_no_feed(t + " created, "@ + decimal(b), " replaced, "@);
    lemma_no_feed(t + " created, "@ + decimal(b) + " replaced, "@, decimal(c));
    lemma_no_feed(t + " created, "@ + decimal(b) + " replaced, "@ + decimal(c), " up to date"@);
}

proof fn lemma_summary_line_is_one_line(stats: Stats, i: int)
    requires
        0 <= i < stats.summary_lines().len(),
        forall|k: int| 0 <= k < stats.errors@.len() ==> !(#[trigger] stats.errors@[k])@.contains('\n'),
    ensures
        !stats.summary_lines()[i].contains('\n'),
{
    let line = stats.summary_lines()[i];
    summary_has_its_lines_in_order(stats);
    lemma_summary_words();
    if i == 0 {
        lemma_scan_line_no_feed(
            stats.regular_files as nat,
            stats.managed_files as nat,
            stats.tracks as nat,
        );
    } else if i == 1 {
        lemma_links_line_no_feed(
            stats.links_created as nat,
            stats.links_replaced as nat,
            stats.links_up_to_date as nat,
        );
    } else {
        reveal_strlit("files removed: ");
        reveal_strlit("empty directories removed: ");
        reveal_strlit("errors: ");
        reveal_strlit("  error: ");
        lemma_summary_line_kinds(stats, i);
        lemma_number_no_feed(stats.files_removed as nat);
        lemma_number_no_feed(stats.dirs_removed as nat);
        lemma_number_no_feed(stats.errors@.len());
        lemma_no_feed("files removed: "@, decimal(stats.files_removed as nat));
        lemma_no_feed("empty directories removed: "@, decimal(stats.dirs_removed as nat));
        lemma_no_feed("errors: "@, decimal(stats.errors@.len()));
        if exists|k: int|
            0 <= k < stats.errors@.len() && line == "  error: "@ + (#[trigger] stats.errors@[k])@ {
            let k = choose|k: int|
                0 <= k < stats.errors@.len() && line == "  error: "@ + (
                #[trigger] stats.errors@[k])@;
            lemma_no_feed("  error: "@, stats.errors@[k]@);
        }
    }
}

/// The line on the scan tells its three counts apart: it changes with each.
pub proof fn scan_line_tells_each_count(a: nat, b: nat, c: nat, x: nat, y: nat, z: nat)
    ensures
        scan_line(a, b, c) == scan_line(x, y, z) <==> a == x && b == y && c == z,
        scan_line(a, b, c) == "scanned "@ + (decimal(a) + (" regular files: "@ + (decimal(b) + (
        " managed, "@ + (decimal(c) + " tracks"@))))),
{
    reveal_strlit("scanned ");
    reveal_strlit(" regular files: ");
    reveal_strlit(" managed, ");
    reveal_strlit(" tracks");
    let c3 = decimal(c) + " tracks"@;
    let z3 = decimal(z) + " tracks"@;
    let b3 = decimal(b) + (" managed, "@ + c3);
    let y3 = decimal(y) + (" managed, "@ + z3);
    let a3 = decimal(a) + (" regular files: "@ + b3);
    let x3 = decimal(x) + (" regular files: "@ + y3);
    assert(scan_line(a, b, c) =~= "scanned "@ + a3);
    assert(scan_line(x, y, z) =~= "scanned "@ + x3);
    lemma_same_front("scanned "@, a3, x3);
    lemma_same_front(" regular files: "@, b3, y3);
    lemma_same_front(" managed, "@, c3, z3);
    if a3 == x3 {
        lemma_number_ends(a, x, " regular files: "@ + b3, " regular files: "@ + y3);
        lemma_number_ends(b, y, " managed, "@ + c3, " managed, "@ + z3);
        lemma_number_ends(c, z, " tracks"@, " tracks"@);
    }
}

/// The line on the links tells its three counts apart: it changes with each.
pub proof fn links_line_tells_each_count(a: nat, b: nat, c: nat, x: nat, y: nat, z: nat)
    ensures
        links_line(a, b, c) == links_line(x, y, z) <==> a == x && b == y && c == z,
        links_line(a, b, c) == "links: "@ + (decimal(a) + (" created, "@ + (decimal(b) + (
        " replaced, "@ + (decimal(c) + " up to date"@))))),
{
    reveal_strlit("links: ");
    reveal_strlit(" created, ");
    reveal_strlit(" replaced, ");
    reveal_strlit(" up to date");
    let c3 = decimal(c) + " up to date"@;
    let z3 = decimal(z) + " up to date"@;
    let b3 = decimal(b) + (" replaced, "@ + c3);
    let y3 = decimal(y) + (" replaced, "@ + z3);
    let a3 = decimal(a) + (" created, "@ + b3);
    let x3 = decimal(x) + (" created, "@ + y3);
    assert(links_line(a, b, c) =~= "links: "@ + a3);
    assert(links_line(x, y, z) =~= "links: "@ + x3);
    lemma_same_front("links: "@, a3, x3);
    lemma_same_front(" created, "@, b3, y3);
    lemma_same_front(" replaced, "@, c3, z3);
    if a3 == x3 {
        lemma_number_ends(a, x, " created, "@ + b3, " created, "@ + y3);
        lemma_number_ends(b, y, " replaced, "@ + c3, " replaced, "@ + z3);
        lemma_number_ends(c, z, " up to date"@, " up to date"@);
    }
}

} // verus!
