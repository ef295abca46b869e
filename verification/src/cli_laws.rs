//! What the words of a command line lead to: numbers, commands, benchmarks, and the
//! lines of a listing, told by how two command lines that differ a little relate.

use crate::bench::{
    all_scenarios, asked, batch_list, batch_views, batches, cmd_bench, crew, default_options,
    make_buffer, options_in, piece_kilobytes, scenario_name, scenario_word, share, with_option,
    Batch, BenchOptions, BenchPlan, Scenario,
};
use crate::cli::{
    all_digits, child_path, digits_value, entry_line, number, parse_command, parse_number,
    piece_option, unsigned_part, usage, verb_of, words, CliError, Request, RequestView, Verb,
};
use crate::types::DirEntry;
use vstd::arithmetic::power2::pow2;
use vstd::prelude::*;
use vstd::utf8::encode_utf8;

verus! {

// ---------------------------------------------------------------------------
// Numbers
// ---------------------------------------------------------------------------

/// A byte is a decimal digit.
pub open spec fn is_digit(b: u8) -> bool {
    48 <= b <= 57
}

/// What a text tells as a number: nothing where it is empty or holds anything but digits
/// and a plus sign before them, and never more than is allowed.
pub proof fn law_call_parse_number(text: &str, max: u64, n: Option<u64>, i: int)
    requires
        call_ensures(parse_number, (text, max), n),
    ensures
        ({
            let b = encode_utf8(text@);
            &&& n matches Some(v) ==> v <= max
            &&& b.len() == 0 ==> n is None
            &&& b == seq![43u8] ==> n is None
            &&& 1 <= i < b.len() && !is_digit(b[i]) ==> n is None
            &&& b.len() > 0 && !is_digit(b[0]) && b[0] != 43 ==> n is None
            &&& b.len() == 1 && is_digit(b[0]) ==> n == (if b[0] - 48 <= max {
                Some((b[0] - 48) as u64)
            } else {
                None
            })
        }),
{
    let b = encode_utf8(text@);
    let digits = unsigned_part(b);
    if b.len() > 0 && b[0] == 43 {
        if 1 <= i < b.len() {
            assert(digits[i - 1] == b[i]);
        }
        if b.len() == 1 {
            assert(digits.len() == 0);
        }
    }
    if b.len() == 1 && is_digit(b[0]) {
        assert(digits == b);
        assert(b.drop_last().len() == 0);
        assert(digits_value(b.drop_last()) == 0);
    }
}

/// One digit more makes the number ten times as large, and that digit is added; where
/// that is more than is allowed, or the text was no number without it, it is none.
pub proof fn law_call_parse_longer(
    text: &str,
    longer: &str,
    d: u8,
    max: u64,
    n: Option<u64>,
    m: Option<u64>,
)
    requires
        call_ensures(parse_number, (text, max), n),
        call_ensures(parse_number, (longer, max), m),
        is_digit(d),
        encode_utf8(longer@) == encode_utf8(text@).push(d),
        encode_utf8(text@).len() > 0,
        encode_utf8(text@) != seq![43u8],
    ensures
        m == (match n {
            Some(v) => if 10 * v + (d - 48) <= max {
                Some((10 * v + (d - 48)) as u64)
            } else {
                None
            },
            None => None,
        }),
{
    let a = encode_utf8(text@);
    let b = a.push(d);
    let x = unsigned_part(a);
    let y = unsigned_part(b);
    assert(b[0] == a[0]);
    if a[0] == 43 {
        assert(a.len() > 1) by {
            if a.len() == 1 {
                assert(a =~= seq![43u8]);
            }
        }
    }
    assert(y =~= x.push(d));
    assert(y.drop_last() =~= x);
    if all_digits(x) {
        assert(all_digits(y));
    }
    if all_digits(y) {
        assert forall|k: int| 0 <= k < x.len() implies 48 <= #[trigger] x[k] <= 57 by {
            assert(y[k] == x[k]);
        }
    }
}

/// A plus sign before a number changes nothing, and a second one makes it none.
pub proof fn law_call_parse_signed(
    text: &str,
    signed: &str,
    max: u64,
    n: Option<u64>,
    m: Option<u64>,
)
    requires
        call_ensures(parse_number, (text, max), n),
        call_ensures(parse_number, (signed, max), m),
        encode_utf8(signed@) == seq![43u8] + encode_utf8(text@),
        encode_utf8(text@).len() > 0,
    ensures
        m == (if encode_utf8(text@)[0] == 43 {
            None
        } else {
            n
        }),
{
    let a = encode_utf8(text@);
    let b = seq![43u8] + a;
    assert(b[0] == 43);
    assert(unsigned_part(b) =~= a);
    if a[0] == 43 {
        assert(!all_digits(a));
    }
}

// ---------------------------------------------------------------------------
// Commands
// ---------------------------------------------------------------------------

/// The word that stands for a command.
pub open spec fn word_for(verb: Verb) -> Seq<char> {
    match verb {
        Verb::Create => "create"@,
        Verb::Ls => "ls"@,
        Verb::Mkdir => "mkdir"@,
        Verb::Rmdir => "rmdir"@,
        Verb::MvDir => "mv-dir"@,
        Verb::Put => "put"@,
        Verb::Get => "get"@,
        Verb::Cat => "cat"@,
        Verb::Rm => "rm"@,
        Verb::Mv => "mv"@,
        Verb::Info => "info"@,
        Verb::Verify => "verify"@,
        Verb::Hello => "hello"@,
        Verb::Bench => "bench"@,
    }
}

/// The least and the greatest number of words that a command works on, where it is not
/// free to take any.
pub open spec fn word_range(verb: Verb) -> Option<(nat, nat)> {
    match verb {
        Verb::Create => None,
        Verb::Verify => Some((1, 1)),
        Verb::Ls => Some((1, 2)),
        Verb::Mkdir => Some((2, 2)),
        Verb::Rmdir => Some((2, 2)),
        Verb::Cat => Some((2, 2)),
        Verb::Rm => Some((2, 2)),
        Verb::Info => Some((2, 2)),
        Verb::MvDir => Some((3, 3)),
        Verb::Put => Some((3, 3)),
        Verb::Get => Some((3, 3)),
        Verb::Mv => Some((3, 3)),
        Verb::Hello => None,
        Verb::Bench => None,
    }
}

proof fn lemma_words_apart(verb: Verb)
    ensures
        verb_of(word_for(verb)) == Some(verb),
{
    reveal_strlit("create");
    reveal_strlit("ls");
    reveal_strlit("mkdir");
    reveal_strlit("rmdir");
    reveal_strlit("mv-dir");
    reveal_strlit("put");
    reveal_strlit("get");
    reveal_strlit("cat");
    reveal_strlit("rm");
    reveal_strlit("mv");
    reveal_strlit("info");
    reveal_strlit("verify");
    reveal_strlit("hello");
    reveal_strlit("bench");
    let w = word_for(verb);
    assert("create"@.len() == 6 && "create"@[0] == 'c');
    assert("ls"@.len() == 2 && "ls"@[0] == 'l');
    assert("mkdir"@.len() == 5 && "mkdir"@[0] == 'm');
    assert("rmdir"@.len() == 5 && "rmdir"@[0] == 'r');
    assert("mv-dir"@.len() == 6 && "mv-dir"@[0] == 'm');
    assert("put"@.len() == 3 && "put"@[0] == 'p');
    assert("get"@.len() == 3 && "get"@[0] == 'g');
    assert("cat"@.len() == 3 && "cat"@[0] == 'c');
    assert("rm"@.len() == 2 && "rm"@[0] == 'r');
    assert("mv"@.len() == 2 && "mv"@[0] == 'm');
    assert("info"@.len() == 4 && "info"@[0] == 'i');
    assert("verify"@.len() == 6 && "verify"@[0] == 'v');
    assert("hello"@.len() == 5 && "hello"@[0] == 'h');
    assert("bench"@.len() == 5 && "bench"@[0] == 'b');
}

/// A command line is understood if and only if its first word is a command and the
/// number of the others is right for it; the command then works on these words. Where
/// the first word is no command, that is said.
pub proof fn law_call_parse_command(args: &[String], r: Result<Request, CliError>, verb: Verb)
    requires
        call_ensures(parse_command, (args,), r),
    ensures
        ({
            let ws = words(args@);
            let n = (ws.len() - 1) as nat;
            let deep = verb is Ls && n > 0 && ws[1] == "-r"@;
            &&& ws.len() == 0 ==> r is Err
            &&& ws.len() > 0 && (forall|v: Verb| ws[0] != #[trigger] word_for(v)) ==> r is Err
                && r->Err_0.message@ == "Unknown command: "@ + ws[0]
            &&& ws.len() > 0 && ws[0] == word_for(verb) && word_range(verb) is Some && !deep ==> {
                let (least, most) = word_range(verb).unwrap();
                &&& r is Ok <==> least <= n <= most
                &&& r matches Ok(q) ==> q.verb == verb && !q.recursive && q.vbss is None && words(
                    q.args@,
                ) == ws.skip(1)
            }
            &&& ws.len() > 0 && ws[0] == word_for(verb) && deep ==> {
                &&& r is Ok <==> 2 <= n <= 3
                &&& r matches Ok(q) ==> q.verb == verb && q.recursive && q.vbss is None && words(
                    q.args@,
                ) == ws.skip(2)
            }
            &&& ws.len() > 0 && ws[0] == word_for(verb) && (verb is Hello || verb is Bench) ==> (
            r matches Ok(q) && q.verb == verb && !q.recursive && q.vbss is None && words(q.args@)
                == ws.skip(1))
            &&& ws.len() == 1 && ws[0] == word_for(verb) && verb is Create ==> r is Err
            &&& ws.len() == 2 && ws[0] == word_for(verb) && verb is Create ==> (r matches Ok(q)
                && q.verb == verb && !q.recursive && q.vbss is None && words(q.args@)
                == seq![ws[1]])
            &&& r matches Ok(q) ==> ws.len() > 0 && ws[0] == word_for(q.verb)
        }),
{
    let ws = words(args@);
    lemma_words_apart(verb);
    if ws.len() > 0 {
        match verb_of(ws[0]) {
            Some(v) => {
                assert(ws[0] == word_for(v));
            },
            None => {
                if exists|v: Verb| ws[0] == #[trigger] word_for(v) {
                    let v = choose|v: Verb| ws[0] == #[trigger] word_for(v);
                    lemma_words_apart(v);
                }
            },
        }
        let rest = ws.skip(1);
        assert(rest.len() > 0 ==> rest[0] == ws[1]);
        assert(rest.len() > 0 ==> rest.skip(1) =~= ws.skip(2));
        if rest.len() == 1 {
            assert(rest.take(1) =~= seq![ws[1]]);
            assert(piece_option(rest, 1, None) == Ok::<Option<u8>, Seq<char>>(None));
        }
    }
}

/// A usage names the command that it is of.
pub proof fn law_call_usage(verb: Verb, text: &'static str)
    requires
        call_ensures(usage, (verb,), text),
    ensures
        ({
            let begins = "Usage: sfs "@ + word_for(verb);
            &&& text@.len() >= begins.len()
            &&& text@.take(begins.len() as int) == begins
        }),
{
    let begins = "Usage: sfs "@ + word_for(verb);
    reveal_strlit("Usage: sfs ");
    match verb {
        Verb::Create => {
            reveal_strlit("create");
            reveal_strlit("Usage: sfs create <sfs-file> [--vbss N]");
        },
        Verb::Ls => {
            reveal_strlit("ls");
            reveal_strlit("Usage: sfs ls [-r] <sfs-file> [dir]");
        },
        Verb::Mkdir => {
            reveal_strlit("mkdir");
            reveal_strlit("Usage: sfs mkdir <sfs-file> <dir>");
        },
        Verb::Rmdir => {
            reveal_strlit("rmdir");
            reveal_strlit("Usage: sfs rmdir <sfs-file> <dir>");
        },
        Verb::MvDir => {
            reveal_strlit("mv-dir");
            reveal_strlit("Usage: sfs mv-dir <sfs-file> <old> <new>");
        },
        Verb::Put => {
            reveal_strlit("put");
            reveal_strlit("Usage: sfs put <sfs-file> <local-file> <stream>");
        },
        Verb::Get => {
            reveal_strlit("get");
            reveal_strlit("Usage: sfs get <sfs-file> <stream> <local-file>");
        },
        Verb::Cat => {
            reveal_strlit("cat");
            reveal_strlit("Usage: sfs cat <sfs-file> <stream>");
        },
        Verb::Rm => {
            reveal_strlit("rm");
            reveal_strlit("Usage: sfs rm <sfs-file> <stream>");
        },
        Verb::Mv => {
            reveal_strlit("mv");
            reveal_strlit("Usage: sfs mv <sfs-file> <old> <new>");
        },
        Verb::Info => {
            reveal_strlit("info");
            reveal_strlit("Usage: sfs info <sfs-file> <stream>");
        },
        Verb::Verify => {
            reveal_strlit("verify");
            reveal_strlit("Usage: sfs verify <sfs-file>");
        },
        Verb::Hello => {
            reveal_strlit("hello");
            reveal_strlit("Usage: sfs hello");
        },
        Verb::Bench => {
            reveal_strlit("bench");
            reveal_strlit("Usage: sfs bench <scenario> [options]");
        },
    }
    assert(text@.take(begins.len() as int) =~= begins);
}

/// Options behind others: as many more as the number of words that is added.
proof fn lemma_piece_longer(args: Seq<Seq<char>>, more: Seq<Seq<char>>, i: int, so_far: Option<u8>)
    requires
        0 <= i <= args.len(),
        piece_option(args, i, so_far) is Ok,
    ensures
        piece_option(args + more, i, so_far) == piece_option(
            args + more,
            args.len() as int,
            piece_option(args, i, so_far)->Ok_0,
        ),
    decreases args.len() - i,
{
    let all = args + more;
    if i < args.len() {
        assert(all[i] == args[i]);
        assert(all[i + 1] == args[i + 1]);
        let v = number(encode_utf8(args[i + 1]), 255).unwrap();
        lemma_piece_longer(args, more, i + 2, Some(v as u8));
    }
}

/// A command line for a new file that is understood can be followed by the size of the
/// pieces, which then holds whatever stood before, where it is a number that fits; and
/// by nothing else.
pub proof fn law_call_parse_create(
    args: &[String],
    longer: &[String],
    r: Result<Request, CliError>,
    q: Result<Request, CliError>,
    more: Seq<Seq<char>>,
)
    requires
        call_ensures(parse_command, (args,), r),
        call_ensures(parse_command, (longer,), q),
        r is Ok && r->Ok_0.verb is Create,
        words(longer@) == words(args@) + more,
        1 <= more.len() <= 2,
    ensures
        ({
            let size = number(encode_utf8(more[1]), 255);
            &&& q is Ok <==> more.len() == 2 && more[0] == "--vbss"@ && size is Some
            &&& q is Ok ==> q->Ok_0@ == (RequestView {
                vbss: Some(size.unwrap() as u8),
                ..r->Ok_0@
            })
        }),
{
    let ws = words(args@);
    let all = ws + more;
    assert(all[0] == ws[0]);
    let rest = ws.skip(1);
    let rest2 = all.skip(1);
    assert(rest2 =~= rest + more);
    assert(rest.len() > 0);
    reveal_with_fuel(piece_option, 3);
    lemma_piece_longer(rest, more, 1, None);
    let k = rest.len() as int;
    assert(rest2[k] == more[0]);
    if more.len() == 2 {
        assert(rest2[k + 1] == more[1]);
    }
    assert(rest2.take(1) =~= rest.take(1));
}

// ---------------------------------------------------------------------------
// Listings
// ---------------------------------------------------------------------------

/// A path below a directory is its name in the root, and else the directory, a slash and
/// the name; the line of an entry shows its kind in six places, a space and the path.
pub proof fn law_call_entry_line(dir: &str, entry: &DirEntry, path: String, line: String)
    requires
        exists|name: &str| name@ == entry.name@ && call_ensures(child_path, (dir, name), path),
        call_ensures(entry_line, (dir, entry), line),
    ensures
        dir@.len() == 0 ==> path@ == entry.name@,
        dir@.len() > 0 ==> path@ == dir@.push('/') + entry.name@,
        line@.len() == 7 + path@.len(),
        line@.skip(7) == path@,
        line@[6] == ' ',
        line@.take(6) == (if entry.entry_type is Directory {
            seq!['D', 'I', 'R', ' ', ' ', ' ']
        } else {
            seq!['S', 'T', 'R', 'E', 'A', 'M']
        }),
{
    reveal_strlit("/");
    reveal_strlit(" ");
    reveal_strlit("DIR   ");
    reveal_strlit("STREAM");
    assert(line@.skip(7) =~= path@);
    assert(dir@.len() > 0 ==> path@ =~= dir@.push('/') + entry.name@);
    if entry.entry_type is Directory {
        assert(line@.take(6) =~= seq!['D', 'I', 'R', ' ', ' ', ' ']);
    } else {
        assert(line@.take(6) =~= seq!['S', 'T', 'R', 'E', 'A', 'M']);
    }
}

// ---------------------------------------------------------------------------
// Benchmarks
// ---------------------------------------------------------------------------

/// The shares of the workers follow each other without a gap, from the first item to the
/// last; no two differ by more than one item, and the larger ones come first.
pub proof fn law_call_share(total: u64, workers: u64, t: u64, u: u64, r: (u64, u64), s: (u64, u64))
    requires
        t < u < workers,
        call_ensures(share, (total, workers, t), r),
        call_ensures(share, (total, workers, u), s),
    ensures
        t == 0 ==> r.0 == 0,
        u == t + 1 ==> s.0 == r.0 + r.1,
        u == workers - 1 ==> s.0 + s.1 == total,
        s.1 <= r.1 <= s.1 + 1,
{
    crate::bench::law_shares(total as nat, workers as nat, t as nat);
    crate::bench::law_shares(total as nat, workers as nat, u as nat);
}

/// Where threads are at work, all of them are, and in a scenario with readers and writers
/// half of them write, or one more where they are odd in number.
pub proof fn law_call_crew(s: Scenario, threads: usize, r: (usize, usize))
    requires
        call_ensures(crew, (s, threads), r),
    ensures
        s is ThreadedWrite || s is ThreadedRead || s is ThreadedMixed ==> r.0 + r.1 == threads,
        s is ThreadedWrite ==> r.0 == 0,
        s is ThreadedRead ==> r.1 == 0,
        s is ThreadedMixed ==> r.0 <= r.1 <= r.0 + 1,
        !(s is ThreadedWrite || s is ThreadedRead || s is ThreadedMixed) ==> r.0 == 0 && r.1 == 0,
{
}

/// The bytes of a buffer count up from zero and begin again behind each 256th.
pub proof fn law_call_make_buffer(size: usize, buf: Vec<u8>, i: int)
    requires
        call_ensures(make_buffer, (size,), buf),
        0 <= i < size,
    ensures
        buf@.len() == size,
        i < 256 ==> buf@[i] == i,
        i >= 256 ==> buf@[i] == buf@[i - 256],
{
}

/// So many kilobytes are two to the power that was asked for, in bytes.
pub proof fn law_call_piece_kilobytes(vbss: u8, kb: u64)
    requires
        vbss < 74,
        call_ensures(piece_kilobytes, (vbss,), kb),
    ensures
        vbss >= 10 ==> kb * 1024 == pow2(vbss as nat),
        vbss < 10 ==> kb == 1,
{
    vstd::arithmetic::power2::lemma2_to64();
    if vbss >= 10 {
        vstd::arithmetic::power2::lemma_pow2_adds((vbss - 10) as nat, 10);
        if vbss == 10 {
            assert(pow2(0) == 1);
        }
    }
}

proof fn lemma_options_longer(
    args: Seq<Seq<char>>,
    more: Seq<Seq<char>>,
    i: int,
    so_far: BenchOptions,
)
    requires
        0 <= i <= args.len(),
        options_in(args, i, so_far) is Ok,
    ensures
        options_in(args + more, i, so_far) == options_in(
            args + more,
            args.len() as int,
            options_in(args, i, so_far)->Ok_0,
        ),
    decreases args.len() - i,
{
    let all = args + more;
    if i < args.len() {
        assert(all[i] == args[i]);
        assert(all[i + 1] == args[i + 1]);
        let next = with_option(so_far, args[i], args[i + 1]).unwrap();
        lemma_options_longer(args, more, i + 2, next);
    }
}

proof fn lemma_scenarios_apart(s: Scenario, i: int)
    requires
        0 <= i <= all_scenarios().len(),
        forall|k: int| 0 <= k < i ==> #[trigger] all_scenarios()[k] != s,
        exists|k: int| 0 <= k < all_scenarios().len() && #[trigger] all_scenarios()[k] == s,
    ensures
        asked(scenario_word(s), i) == Some(seq![s]),
    decreases all_scenarios().len() - i,
{
    lemma_scenario_words();
    let all = all_scenarios();
    if i < all.len() && all[i] != s {
        assert(scenario_word(all[i]) != scenario_word(s));
        lemma_scenarios_apart(s, i + 1);
    }
}

proof fn lemma_scenario_words()
    ensures
        forall|s: Scenario, t: Scenario|
            s != t ==> #[trigger] scenario_word(s) != #[trigger] scenario_word(t),
        forall|s: Scenario| "all"@ != #[trigger] scenario_word(s),
{
    reveal_strlit("all");
    reveal_strlit("large-write");
    reveal_strlit("small-write");
    reveal_strlit("large-read");
    reveal_strlit("small-read");
    reveal_strlit("threaded-write");
    reveal_strlit("threaded-read");
    reveal_strlit("threaded-mixed");
    reveal_strlit("churn");
    reveal_strlit("reuse");
    reveal_strlit("single-stream");
    reveal_strlit("warm-read");
    assert("all"@.len() == 3);
    assert("large-write"@.len() == 11 && "large-write"@[0] == 'l');
    assert("small-write"@.len() == 11 && "small-write"@[0] == 's');
    assert("large-read"@.len() == 10 && "large-read"@[0] == 'l');
    assert("small-read"@.len() == 10 && "small-read"@[0] == 's');
    assert("threaded-write"@.len() == 14 && "threaded-write"@[9] == 'w');
    assert("threaded-read"@.len() == 13 && "threaded-read"@[0] == 't');
    assert("threaded-mixed"@.len() == 14 && "threaded-mixed"@[9] == 'm');
    assert("churn"@.len() == 5 && "churn"@[0] == 'c');
    assert("reuse"@.len() == 5 && "reuse"@[0] == 'r');
    assert("single-stream"@.len() == 13 && "single-stream"@[0] == 's');
    assert("warm-read"@.len() == 9);
}

proof fn lemma_every_scenario(s: Scenario)
    ensures
        exists|k: int| 0 <= k < all_scenarios().len() && #[trigger] all_scenarios()[k] == s,
{
    let all = all_scenarios();
    match s {
        Scenario::LargeWrite => assert(all[0] == s),
        Scenario::SmallWrite => assert(all[1] == s),
        Scenario::LargeRead => assert(all[2] == s),
        Scenario::SmallRead => assert(all[3] == s),
        Scenario::ThreadedWrite => assert(all[4] == s),
        Scenario::ThreadedRead => assert(all[5] == s),
        Scenario::ThreadedMixed => assert(all[6] == s),
        Scenario::Churn => assert(all[7] == s),
        Scenario::Reuse => assert(all[8] == s),
        Scenario::SingleStream => assert(all[9] == s),
        Scenario::WarmRead => assert(all[10] == s),
    }
}

proof fn lemma_asked_none(word: Seq<char>, i: int)
    requires
        0 <= i <= all_scenarios().len(),
        forall|s: Scenario| word != #[trigger] scenario_word(s),
    ensures
        asked(word, i) == (if word == "all"@ {
            Some(all_scenarios())
        } else {
            None
        }),
    decreases all_scenarios().len() - i,
{
    if i < all_scenarios().len() {
        assert(word != scenario_word(all_scenarios()[i]));
        lemma_asked_none(word, i + 1);
    }
}

/// The name of a scenario asks for that one alone, "all" for every one of them, each
/// once, and any other word for nothing. With no more words than that, the options are
/// those that hold where none is given.
pub proof fn law_call_cmd_bench(
    args: &[String],
    r: Result<BenchPlan, CliError>,
    s: Scenario,
    t: Scenario,
    name: &'static str,
)
    requires
        call_ensures(cmd_bench, (args,), r),
        call_ensures(scenario_name, (s,), name),
    ensures
        args@.len() == 0 ==> r is Err,
        args@.len() > 0 && r is Ok && args@[0]@ == name@ ==> r->Ok_0.scenarios@ == seq![s],
        args@.len() > 0 && r is Ok && args@[0]@ == "all"@ ==> {
            let list = r->Ok_0.scenarios@;
            &&& list.contains(t)
            &&& forall|i: int, j: int| 0 <= i < j < list.len() ==> list[i] != list[j]
        },
        r is Ok ==> args@[0]@ == "all"@ || exists|x: Scenario| args@[0]@ == #[trigger] scenario_word(
            x,
        ),
        args@.len() == 1 && (args@[0]@ == name@ || args@[0]@ == "all"@) ==> r is Ok
            && r->Ok_0.options == (BenchOptions { bss: 12, biw: 4, vbss: 15, threads: 4 }),
{
    lemma_scenario_words();
    lemma_every_scenario(s);
    lemma_every_scenario(t);
    if args@.len() > 0 {
        let word = args@[0]@;
        if word == name@ {
            lemma_scenarios_apart(s, 0);
        }
        if forall|x: Scenario| word != #[trigger] scenario_word(x) {
            lemma_asked_none(word, 0);
        }
        if args@.len() == 1 {
            assert(options_in(words(args@), 1, default_options()) == Ok::<
                BenchOptions,
                Seq<char>,
            >(default_options()));
        }
    }
}

/// Words for a benchmark that are understood can be followed by one option more and its
/// number, which sets that option and no other; and by nothing else.
pub proof fn law_call_bench_longer(
    args: &[String],
    longer: &[String],
    r: Result<BenchPlan, CliError>,
    q: Result<BenchPlan, CliError>,
    more: Seq<Seq<char>>,
)
    requires
        call_ensures(cmd_bench, (args,), r),
        call_ensures(cmd_bench, (longer,), q),
        r is Ok,
        words(longer@) == words(args@) + more,
        1 <= more.len() <= 2,
    ensures
        ({
            let o = r->Ok_0.options;
            let p = q->Ok_0.options;
            let small = number(encode_utf8(more[1]), 255);
            let large = number(encode_utf8(more[1]), usize::MAX as nat);
            let sizes = more[0] == "--block-shift"@ || more[0] == "--index-width"@ || more[0]
                == "--vbss"@;
            &&& q is Ok <==> more.len() == 2 && ((sizes && small is Some) || (more[0]
                == "--threads"@ && large is Some))
            &&& q is Ok ==> {
                &&& q->Ok_0.scenarios@ == r->Ok_0.scenarios@
                &&& p.bss == if more[0] == "--block-shift"@ {
                    small.unwrap()
                } else {
                    o.bss as nat
                }
                &&& p.biw == if more[0] == "--index-width"@ {
                    small.unwrap()
                } else {
                    o.biw as nat
                }
                &&& p.vbss == if more[0] == "--vbss"@ {
                    small.unwrap()
                } else {
                    o.vbss as nat
                }
                &&& p.threads == if more[0] == "--threads"@ {
                    large.unwrap()
                } else {
                    o.threads as nat
                }
            }
        }),
{
    reveal_strlit("--threads");
    reveal_strlit("--block-shift");
    reveal_strlit("--index-width");
    reveal_strlit("--vbss");
    assert("--threads"@.len() == 9);
    assert("--block-shift"@.len() == 13 && "--block-shift"@[2] == 'b');
    assert("--index-width"@.len() == 13 && "--index-width"@[2] == 'i');
    assert("--vbss"@.len() == 6);
    let ws = words(args@);
    let all = ws + more;
    assert(ws.len() == args@.len());
    assert(words(longer@)[0] == ws[0]);
    assert(args@[0]@ == longer@[0]@) by {
        assert(ws[0] == args@[0]@);
        assert(words(longer@)[0] == longer@[0]@);
    }
    reveal_with_fuel(options_in, 3);
    lemma_options_longer(ws, more, 1, default_options());
    let k = ws.len() as int;
    assert(all[k] == more[0]);
    if more.len() == 2 {
        assert(all[k + 1] == more[1]);
    }
}

/// The number of streams of some batches, and of kilobytes in them.
pub open spec fn amount(list: Seq<Batch>) -> (int, int)
    decreases list.len(),
{
    if list.len() == 0 {
        (0, 0)
    } else {
        let less = amount(list.drop_last());
        let b = list.last();
        (less.0 + b.count, less.1 + b.count * (b.size as int / 1024))
    }
}

proof fn lemma_product(b: Batch, x: int, y: int, xy: int)
    requires
        b.count == x,
        b.size == 1024 * y,
        x * y == xy,
    ensures
        b.count * (b.size as int / 1024) == xy,
{
    assert(b.size as int / 1024 == y);
}

/// How much a scenario writes: its streams are whole kilobytes long, those of one batch
/// have another name than those of another, and a read with warm caches reads what a read
/// of small streams does.
pub proof fn law_call_batches(
    s: Scenario,
    list: Vec<Batch>,
    small: Vec<Batch>,
    warm: Vec<Batch>,
    i: int,
    j: int,
)
    requires
        call_ensures(batches, (s,), list),
        call_ensures(batches, (Scenario::SmallRead,), small),
        call_ensures(batches, (Scenario::WarmRead,), warm),
    ensures
        amount(list@) == (match s {
            Scenario::LargeWrite => (5int, 150 * 1024int),
            Scenario::SmallWrite => (180int, 1800int),
            Scenario::LargeRead => (34int, 510 * 1024int),
            Scenario::SmallRead => (2750int, 27500int),
            Scenario::ThreadedWrite => (125int, 12500int),
            Scenario::ThreadedRead => (230int, 115000int),
            Scenario::ThreadedMixed => (210int, 21000int),
            Scenario::Churn => (20int, 10 * 1024int),
            Scenario::Reuse => (50int, 25 * 1024int),
            Scenario::SingleStream => (0int, 0int),
            Scenario::WarmRead => (2750int, 27500int),
        }),
        0 <= i < list@.len() ==> list@[i].size > 0 && list@[i].size as int % 1024 == 0
            && list@[i].count > 0 && list@[i].prefix@.len() > 0 && list@[i].prefix@.last() == '_',
        0 <= i < list@.len() ==> (list@[i].wide <==> !(s is LargeWrite || s is LargeRead)),
        0 <= i < j < list@.len() ==> list@[i].prefix@ != list@[j].prefix@,
        small@.len() == 1 && warm@.len() == 1 && warm@[0]@ == small@[0]@,
{
    reveal_strlit("large_");
    reveal_strlit("stream_");
    reveal_strlit("large_10m_");
    reveal_strlit("large_20m_");
    reveal_strlit("read_");
    reveal_strlit("write_");
    reveal_strlit("churn_");
    reveal_strlit("reuse_");
    assert("large_10m_"@[6] == '1');
    assert("large_20m_"@[6] == '2');
    assert("read_"@.len() == 5);
    assert("write_"@.len() == 6);
    let v = batch_views(list@);
    assert(v == batch_list(s));
    assert(v.len() == list@.len());
    assert forall|k: int| 0 <= k < list@.len() implies #[trigger] v[k] == list@[k]@ by {}
    let x = batch_views(small@);
    let y = batch_views(warm@);
    assert(x.len() == small@.len() && y.len() == warm@.len());
    assert(x[0] == small@[0]@ && y[0] == warm@[0]@);
    reveal_with_fuel(amount, 3);
    if list@.len() > 0 {
        assert(v[0] == list@[0]@);
    }
    if list@.len() > 1 {
        assert(v[1] == list@[1]@);
    }
    let a = list@[0];
    let b = list@[1];
    match s {
        Scenario::LargeWrite => lemma_product(a, 5, 30720, 153600),
        Scenario::SmallWrite => lemma_product(a, 180, 10, 1800),
        Scenario::LargeRead => {
            lemma_product(a, 17, 10240, 174080);
            lemma_product(b, 17, 20480, 348160);
        },
        Scenario::SmallRead => lemma_product(a, 2750, 10, 27500),
        Scenario::ThreadedWrite => lemma_product(a, 125, 100, 12500),
        Scenario::ThreadedRead => lemma_product(a, 230, 500, 115000),
        Scenario::ThreadedMixed => {
            lemma_product(a, 60, 100, 6000);
            lemma_product(b, 150, 100, 15000);
        },
        Scenario::Churn => lemma_product(a, 20, 512, 10240),
        Scenario::Reuse => lemma_product(a, 50, 512, 25600),
        Scenario::SingleStream => {},
        Scenario::WarmRead => lemma_product(a, 2750, 10, 27500),
    }
}

} // verus!
