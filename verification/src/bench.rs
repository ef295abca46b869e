//! What a benchmark is to do: its options, its scenarios, and how work is shared
//! out among threads. The caller measures the time.

use crate::cli::{
    is_word, number, parse_number, words, CliError, DEFAULT_BLOCK_INDEX_WIDTH,
    DEFAULT_BLOCK_SIZE_SHIFT,
};
use vstd::arithmetic::power2::pow2;
use vstd::prelude::*;
use vstd::string::*;
use vstd::utf8::encode_utf8;

verus! {

/// The number of threads, unless another is asked for.
pub const DEFAULT_THREADS: usize = 4;

/// The size of compressed pieces as a power of two, unless another is asked for.
pub const DEFAULT_VBSS: u8 = 15;

/// The size of the one stream of the scenario with a single stream.
pub const SINGLE_STREAM_SIZE: usize = 67108864;

/// The numbers that a benchmark can be given.
#[derive(Debug, Clone, Copy, PartialEq, Eq, Structural)]
pub struct BenchOptions {
    /// The size of a block as a power of two.
    pub bss: u8,
    /// The size of a block index in bytes.
    pub biw: u8,
    /// The size of compressed pieces as a power of two.
    pub vbss: u8,
    pub threads: usize,
}

/// What there is to measure.
#[derive(Debug, Clone, Copy, PartialEq, Eq, Structural)]
pub enum Scenario {
    LargeWrite,
    SmallWrite,
    LargeRead,
    SmallRead,
    ThreadedWrite,
    ThreadedRead,
    ThreadedMixed,
    Churn,
    Reuse,
    SingleStream,
    WarmRead,
}

/// The options of a benchmark, and the word that says what to measure.
#[derive(Debug)]
pub struct BenchArgs {
    pub scenario: String,
    pub options: BenchOptions,
}

/// What to measure, one after the other.
#[derive(Debug)]
pub struct BenchPlan {
    pub scenarios: Vec<Scenario>,
    pub options: BenchOptions,
}

/// Streams of one size that a scenario works on.
#[derive(Debug, Clone, Copy)]
pub struct Batch {
    /// What their names begin with.
    pub prefix: &'static str,
    /// Whether the numbers in their names have four digits at least.
    pub wide: bool,
    pub count: u64,
    pub size: usize,
}

/// A batch as a value.
pub ghost struct BatchView {
    pub prefix: Seq<char>,
    pub wide: bool,
    pub count: u64,
    pub size: usize,
}

impl View for Batch {
    type V = BatchView;

    open spec fn view(&self) -> BatchView {
        BatchView {
            prefix: self.prefix@,
            wide: self.wide,
            count: self.count,
            size: self.size,
        }
    }
}

/// The options where none is given.
pub open spec fn default_options() -> BenchOptions {
    BenchOptions {
        bss: DEFAULT_BLOCK_SIZE_SHIFT,
        biw: DEFAULT_BLOCK_INDEX_WIDTH,
        vbss: DEFAULT_VBSS,
        threads: DEFAULT_THREADS,
    }
}

/// The options with one of them set: none where there is no such option, or the
/// word behind it is no number that it can have.
pub open spec fn with_option(so_far: BenchOptions, option: Seq<char>, value: Seq<char>) -> Option<
    BenchOptions,
> {
    let small = number(encode_utf8(value), 255);
    if option == "--block-shift"@ {
        match small {
            Some(v) => Some(BenchOptions { bss: v as u8, ..so_far }),
            None => None,
        }
    } else if option == "--index-width"@ {
        match small {
            Some(v) => Some(BenchOptions { biw: v as u8, ..so_far }),
            None => None,
        }
    } else if option == "--vbss"@ {
        match small {
            Some(v) => Some(BenchOptions { vbss: v as u8, ..so_far }),
            None => None,
        }
    } else if option == "--threads"@ {
        match number(encode_utf8(value), usize::MAX as nat) {
            Some(v) => Some(BenchOptions { threads: v as usize, ..so_far }),
            None => None,
        }
    } else {
        None
    }
}

/// A word is the name of an option.
pub open spec fn is_option(word: Seq<char>) -> bool {
    ||| word == "--block-shift"@
    ||| word == "--index-width"@
    ||| word == "--vbss"@
    ||| word == "--threads"@
}

/// What is said where `option` cannot be set.
pub open spec fn option_refused(option: Seq<char>) -> Seq<char> {
    if is_option(option) {
        option + " requires a numeric argument"@
    } else {
        "Unknown option: "@ + option
    }
}

/// The options that words ask for, from word `i` on, or what is said of the first
/// one that cannot be set.
pub open spec fn options_in(args: Seq<Seq<char>>, i: int, so_far: BenchOptions) -> Result<
    BenchOptions,
    Seq<char>,
>
    decreases args.len() - i,
{
    if i >= args.len() {
        Ok(so_far)
    } else if i + 1 >= args.len() {
        Err(option_refused(args[i]))
    } else {
        match with_option(so_far, args[i], args[i + 1]) {
            Some(next) => options_in(args, i + 2, next),
            None => Err(option_refused(args[i])),
        }
    }
}

/// What is said where `option` cannot be set.
fn refuse_option(option: &String) -> (e: CliError)
    ensures
        e.message@ == option_refused(option@),
{
    if is_word(option, "--block-shift") || is_word(option, "--index-width") || is_word(
        option,
        "--vbss",
    ) || is_word(option, "--threads") {
        CliError::new(option.as_str().to_owned().concat(" requires a numeric argument"))
    } else {
        CliError::new("Unknown option: ".to_owned().concat(option.as_str()))
    }
}

/// Reads one option.
fn set_option(so_far: BenchOptions, option: &String, value: &String) -> (r: Option<BenchOptions>)
    ensures
        r == with_option(so_far, option@, value@),
{
    if is_word(option, "--threads") {
        proof {
            reveal_strlit("--threads");
            reveal_strlit("--block-shift");
            reveal_strlit("--index-width");
            reveal_strlit("--vbss");
            assert("--threads"@.len() == 9);
            assert("--block-shift"@.len() == 13);
            assert("--index-width"@.len() == 13);
            assert("--vbss"@.len() == 6);
        }
        return match parse_number(value.as_str(), usize::MAX as u64) {
            Some(v) => Some(BenchOptions { threads: v as usize, ..so_far }),
            None => None,
        };
    }
    let block: bool = is_word(option, "--block-shift");
    let index: bool = is_word(option, "--index-width");
    let piece: bool = is_word(option, "--vbss");
    if !block && !index && !piece {
        return None;
    }
    let v: u8 = match parse_number(value.as_str(), 255) {
        Some(v) => v as u8,
        None => {
            return None;
        },
    };
    if block {
        Some(BenchOptions { bss: v, ..so_far })
    } else if index {
        Some(BenchOptions { biw: v, ..so_far })
    } else {
        Some(BenchOptions { vbss: v, ..so_far })
    }
}

/// Reads the words behind "bench".
pub fn parse_bench_args(args: &[String]) -> (r: Result<BenchArgs, CliError>)
    ensures
        args@.len() == 0 ==> (r matches Err(e) && e.message@ == "No scenario specified"@),
        args@.len() > 0 ==> match options_in(words(args@), 1, default_options()) {
            Ok(options) => r matches Ok(a) && a.scenario@ == args@[0]@ && a.options == options,
            Err(said) => r matches Err(e) && e.message@ == said,
        },
{
    let n: usize = args.len();
    if n == 0 {
        return Err(CliError::new("No scenario specified".to_owned()));
    }
    let mut options: BenchOptions = BenchOptions {
        bss: DEFAULT_BLOCK_SIZE_SHIFT,
        biw: DEFAULT_BLOCK_INDEX_WIDTH,
        vbss: DEFAULT_VBSS,
        threads: DEFAULT_THREADS,
    };
    let mut i: usize = 1;
    while i < n
        invariant
            i <= n == args@.len(),
            n > 0,
            options_in(words(args@), 1, default_options()) == options_in(
                words(args@),
                i as int,
                options,
            ),
        decreases n - i,
    {
        if n - i < 2 {
            return Err(refuse_option(&args[i]));
        }
        options = match set_option(options, &args[i], &args[i + 1]) {
            Some(next) => next,
            None => {
                return Err(refuse_option(&args[i]));
            },
        };
        i = i + 2;
    }
    Ok(BenchArgs { scenario: args[0].clone(), options })
}

/// All scenarios, in the order in which they are run.
pub open spec fn all_scenarios() -> Seq<Scenario> {
    seq![
        Scenario::LargeWrite,
        Scenario::SmallWrite,
        Scenario::LargeRead,
        Scenario::SmallRead,
        Scenario::ThreadedWrite,
        Scenario::ThreadedRead,
        Scenario::ThreadedMixed,
        Scenario::Churn,
        Scenario::Reuse,
        Scenario::SingleStream,
        Scenario::WarmRead,
    ]
}

/// The word for a scenario.
pub open spec fn scenario_word(s: Scenario) -> Seq<char> {
    match s {
        Scenario::LargeWrite => "large-write"@,
        Scenario::SmallWrite => "small-write"@,
        Scenario::LargeRead => "large-read"@,
        Scenario::SmallRead => "small-read"@,
        Scenario::ThreadedWrite => "threaded-write"@,
        Scenario::ThreadedRead => "threaded-read"@,
        Scenario::ThreadedMixed => "threaded-mixed"@,
        Scenario::Churn => "churn"@,
        Scenario::Reuse => "reuse"@,
        Scenario::SingleStream => "single-stream"@,
        Scenario::WarmRead => "warm-read"@,
    }
}

/// The word for a scenario.
pub fn scenario_name(s: Scenario) -> (name: &'static str)
    ensures
        name@ == scenario_word(s),
{
    match s {
        Scenario::LargeWrite => "large-write",
        Scenario::SmallWrite => "small-write",
        Scenario::LargeRead => "large-read",
        Scenario::SmallRead => "small-read",
        Scenario::ThreadedWrite => "threaded-write",
        Scenario::ThreadedRead => "threaded-read",
        Scenario::ThreadedMixed => "threaded-mixed",
        Scenario::Churn => "churn",
        Scenario::Reuse => "reuse",
        Scenario::SingleStream => "single-stream",
        Scenario::WarmRead => "warm-read",
    }
}

/// All scenarios, in the order in which they are run.
pub fn every_scenario() -> (list: Vec<Scenario>)
    ensures
        list@ == all_scenarios(),
{
    let list: Vec<Scenario> = vec![
        Scenario::LargeWrite,
        Scenario::SmallWrite,
        Scenario::LargeRead,
        Scenario::SmallRead,
        Scenario::ThreadedWrite,
        Scenario::ThreadedRead,
        Scenario::ThreadedMixed,
        Scenario::Churn,
        Scenario::Reuse,
        Scenario::SingleStream,
        Scenario::WarmRead,
    ];
    proof {
        assert(list@ =~= all_scenarios());
    }
    list
}

/// What a word asks to measure, from scenario `i` on: one scenario, or all of them
/// for "all".
pub open spec fn asked(word: Seq<char>, i: int) -> Option<Seq<Scenario>>
    decreases all_scenarios().len() - i,
{
    if i >= all_scenarios().len() {
        if word == "all"@ {
            Some(all_scenarios())
        } else {
            None
        }
    } else if word == scenario_word(all_scenarios()[i]) {
        Some(seq![all_scenarios()[i]])
    } else {
        asked(word, i + 1)
    }
}

/// Reads the words behind "bench": what to measure, and how.
pub fn cmd_bench(args: &[String]) -> (r: Result<BenchPlan, CliError>)
    ensures
        args@.len() == 0 ==> (r matches Err(e) && e.message@ == "No scenario specified"@),
        args@.len() > 0 ==> match options_in(words(args@), 1, default_options()) {
            Ok(options) => match asked(args@[0]@, 0) {
                Some(list) => r matches Ok(plan) && plan.options == options && plan.scenarios@
                    == list,
                None => r matches Err(e) && e.message@ == "Unknown bench scenario: "@ + args@[0]@,
            },
            Err(said) => r matches Err(e) && e.message@ == said,
        },
{
    let a: BenchArgs = match parse_bench_args(args) {
        Ok(a) => a,
        Err(e) => {
            return Err(e);
        },
    };
    let all: Vec<Scenario> = every_scenario();
    let n: usize = all.len();
    let mut i: usize = 0;
    while i < n
        invariant
            i <= n == all@.len(),
            all@ == all_scenarios(),
            a.scenario@ == args@[0]@,
            asked(args@[0]@, 0) == asked(args@[0]@, i as int),
            args@.len() > 0,
            options_in(words(args@), 1, default_options()) == Ok::<BenchOptions, Seq<char>>(a.options),
        decreases n - i,
    {
        if is_word(&a.scenario, scenario_name(all[i])) {
            let one: Vec<Scenario> = vec![all[i]];
            proof {
                assert(one@ =~= seq![all@[i as int]]);
            }
            return Ok(BenchPlan { scenarios: one, options: a.options });
        }
        i = i + 1;
    }
    if is_word(&a.scenario, "all") {
        return Ok(BenchPlan { scenarios: all, options: a.options });
    }
    Err(CliError::new("Unknown bench scenario: ".to_owned().concat(a.scenario.as_str())))
}

/// The streams that a scenario writes before it reads, or writes at all. The one
/// with a single stream has no numbers in its name.
pub open spec fn batch_list(s: Scenario) -> Seq<BatchView> {
    match s {
        Scenario::LargeWrite => seq![
            BatchView { prefix: "large_"@, wide: false, count: 5, size: 31457280 },
        ],
        Scenario::SmallWrite => seq![
            BatchView { prefix: "stream_"@, wide: true, count: 180, size: 10240 },
        ],
        Scenario::LargeRead => seq![
            BatchView { prefix: "large_10m_"@, wide: false, count: 17, size: 10485760 },
            BatchView { prefix: "large_20m_"@, wide: false, count: 17, size: 20971520 },
        ],
        Scenario::SmallRead => seq![
            BatchView { prefix: "stream_"@, wide: true, count: 2750, size: 10240 },
        ],
        Scenario::ThreadedWrite => seq![
            BatchView { prefix: "stream_"@, wide: true, count: 125, size: 102400 },
        ],
        Scenario::ThreadedRead => seq![
            BatchView { prefix: "stream_"@, wide: true, count: 230, size: 512000 },
        ],
        Scenario::ThreadedMixed => seq![
            BatchView { prefix: "read_"@, wide: true, count: 60, size: 102400 },
            BatchView { prefix: "write_"@, wide: true, count: 150, size: 102400 },
        ],
        Scenario::Churn => seq![
            BatchView { prefix: "churn_"@, wide: true, count: 20, size: 524288 },
        ],
        Scenario::Reuse => seq![
            BatchView { prefix: "reuse_"@, wide: true, count: 50, size: 524288 },
        ],
        Scenario::SingleStream => Seq::empty(),
        Scenario::WarmRead => seq![
            BatchView { prefix: "stream_"@, wide: true, count: 2750, size: 10240 },
        ],
    }
}

/// The batches as values.
pub open spec fn batch_views(list: Seq<Batch>) -> Seq<BatchView> {
    Seq::new(list.len(), |i: int| list[i]@)
}

/// The streams that a scenario writes before it reads, or writes at all.
pub fn batches(s: Scenario) -> (list: Vec<Batch>)
    ensures
        batch_views(list@) == batch_list(s),
{
    let list: Vec<Batch> = match s {
        Scenario::LargeWrite => vec![
            Batch { prefix: "large_", wide: false, count: 5, size: 31457280 },
        ],
        Scenario::SmallWrite => vec![
            Batch { prefix: "stream_", wide: true, count: 180, size: 10240 },
        ],
        Scenario::LargeRead => vec![
            Batch { prefix: "large_10m_", wide: false, count: 17, size: 10485760 },
            Batch { prefix: "large_20m_", wide: false, count: 17, size: 20971520 },
        ],
        Scenario::SmallRead => vec![
            Batch { prefix: "stream_", wide: true, count: 2750, size: 10240 },
        ],
        Scenario::ThreadedWrite => vec![
            Batch { prefix: "stream_", wide: true, count: 125, size: 102400 },
        ],
        Scenario::ThreadedRead => vec![
            Batch { prefix: "stream_", wide: true, count: 230, size: 512000 },
        ],
        Scenario::ThreadedMixed => vec![
            Batch { prefix: "read_", wide: true, count: 60, size: 102400 },
            Batch { prefix: "write_", wide: true, count: 150, size: 102400 },
        ],
        Scenario::Churn => vec![
            Batch { prefix: "churn_", wide: true, count: 20, size: 524288 },
        ],
        Scenario::Reuse => vec![
            Batch { prefix: "reuse_", wide: true, count: 50, size: 524288 },
        ],
        Scenario::SingleStream => Vec::new(),
        Scenario::WarmRead => vec![
            Batch { prefix: "stream_", wide: true, count: 2750, size: 10240 },
        ],
    };
    proof {
        assert(batch_views(list@) =~= batch_list(s));
    }
    list
}

/// The bytes 0 to 255, over and over.
pub fn make_buffer(size: usize) -> (buf: Vec<u8>)
    ensures
        buf@ == Seq::new(size as nat, |i: int| (i % 256) as u8),
{
    let mut buf: Vec<u8> = Vec::new();
    let mut i: usize = 0;
    while i < size
        invariant
            i <= size,
            buf@ == Seq::new(i as nat, |k: int| (k % 256) as u8),
        decreases size - i,
    {
        buf.push((i % 256) as u8);
        i = i + 1;
        proof {
            assert(buf@ =~= Seq::new(i as nat, |k: int| (k % 256) as u8));
        }
    }
    buf
}

/// The number of the first item that falls to worker `t` when `total` items are
/// shared out among `workers`: the first ones get one more where they do not all
/// get the same.
pub open spec fn share_start(total: nat, workers: nat, t: nat) -> nat {
    let more = total % workers;
    t * (total / workers) + if t < more {
        t
    } else {
        more
    }
}

/// How many items fall to worker `t`.
pub open spec fn share_len(total: nat, workers: nat, t: nat) -> nat {
    total / workers + if t < total % workers {
        1nat
    } else {
        0
    }
}

/// The share of worker `t` of `workers`: its first item and how many they are.
pub fn share(total: u64, workers: u64, t: u64) -> (r: (u64, u64))
    requires
        t < workers,
    ensures
        r.0 == share_start(total as nat, workers as nat, t as nat),
        r.1 == share_len(total as nat, workers as nat, t as nat),
{
    let each: u64 = total / workers;
    let more: u64 = total % workers;
    proof {
        law_shares(total as nat, workers as nat, t as nat);
    }
    let extra: u64 = if t < more {
        1
    } else {
        0
    };
    let before: u64 = if t < more {
        t
    } else {
        more
    };
    (t * each + before, each + extra)
}

/// The shares follow each other without a gap, from the first item to the last.
pub proof fn law_shares(total: nat, workers: nat, t: nat)
    requires
        t < workers,
    ensures
        share_start(total, workers, 0) == 0,
        share_start(total, workers, t) + share_len(total, workers, t) == share_start(
            total,
            workers,
            t + 1,
        ),
        share_start(total, workers, workers) == total,
        share_start(total, workers, t) + share_len(total, workers, t) <= total,
{
    let each = total / workers;
    let more = total % workers;
    assert(0 * each == 0) by (nonlinear_arith);
    assert((t + 1) * each == t * each + each) by (nonlinear_arith);
    assert(total == workers * each + more) by (nonlinear_arith)
        requires
            each == total / workers,
            more == total % workers,
            workers > 0,
    ;
    assert(more < workers) by (nonlinear_arith)
        requires
            more == total % workers,
            workers > 0,
    ;
    assert((t + 1) * each <= workers * each) by (nonlinear_arith)
        requires
            t + 1 <= workers,
    ;
    assert(t * each <= (t + 1) * each) by (nonlinear_arith);
}

/// How many threads read and how many write in a scenario, of `threads` that there
/// are. The scenarios without threads have neither.
pub fn crew(s: Scenario, threads: usize) -> (r: (usize, usize))
    ensures
        r == match s {
            Scenario::ThreadedWrite => (0usize, threads),
            Scenario::ThreadedRead => (threads, 0usize),
            Scenario::ThreadedMixed => ((threads / 2) as usize, (threads - threads / 2) as usize),
            _ => (0usize, 0usize),
        },
{
    match s {
        Scenario::ThreadedWrite => (0, threads),
        Scenario::ThreadedRead => (threads, 0),
        Scenario::ThreadedMixed => (threads / 2, threads - threads / 2),
        _ => (0, 0),
    }
}

/// The size of compressed pieces in kilobytes, and one for smaller ones.
pub fn piece_kilobytes(vbss: u8) -> (kb: u64)
    requires
        vbss < 74,
    ensures
        kb == pow2((if vbss > 10 { vbss - 10 } else { 0 }) as nat),
{
    let shift: u64 = if vbss > 10 {
        (vbss - 10) as u64
    } else {
        0
    };
    proof {
        vstd::bits::lemma_u64_pow2_no_overflow(shift as nat);
        vstd::bits::lemma_u64_shl_is_mul(1, shift);
    }
    1u64 << shift
}

} // verus!
