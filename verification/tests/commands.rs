//! Command lines, benchmarks and whole streams.

use stream_fs::bench::{
    batches, cmd_bench, crew, every_scenario, make_buffer, parse_bench_args, piece_kilobytes,
    scenario_name, share, Scenario,
};
use stream_fs::cli::{child_path, entry_line, parse_command, parse_number, usage, Verb};
use stream_fs::reopen::reopen;
use stream_fs::transfer::{
    delete_all, get_all, get_stream, numbered_name, put_all, put_stream,
};
use stream_fs::{
    BlocksInFile, DirEntry, EntryType, MemoryFile, OpenMode, Sfs, SfsError, StreamsFromBlocks,
};

type Fs = Sfs<StreamsFromBlocks<BlocksInFile<MemoryFile, 65536>>>;

fn words(text: &str) -> Vec<String> {
    text.split_whitespace().map(|w| w.to_string()).collect()
}

#[test]
fn numbers_are_read_as_numbers_are_written() {
    assert_eq!(parse_number("0", 255), Some(0));
    assert_eq!(parse_number("255", 255), Some(255));
    assert_eq!(parse_number("256", 255), None);
    assert_eq!(parse_number("+17", 255), Some(17));
    assert_eq!(parse_number("007", 255), Some(7));
    assert_eq!(parse_number("", 255), None);
    assert_eq!(parse_number("+", 255), None);
    assert_eq!(parse_number("-1", 255), None);
    assert_eq!(parse_number("1a", 255), None);
    assert_eq!(parse_number("18446744073709551615", u64::MAX), Some(u64::MAX));
    assert_eq!(parse_number("18446744073709551616", u64::MAX), None);
}

#[test]
fn commands_have_their_words() {
    let r = parse_command(&words("create a.sfs --vbss 15")).unwrap();
    assert_eq!(r.verb, Verb::Create);
    assert_eq!(r.vbss, Some(15));
    assert_eq!(r.args, ["a.sfs"]);
    let r = parse_command(&words("ls -r a.sfs docs")).unwrap();
    assert!(r.recursive);
    assert_eq!(r.args, ["a.sfs", "docs"]);
    let r = parse_command(&words("ls a.sfs")).unwrap();
    assert!(!r.recursive);
    for (line, verb) in [
        ("mkdir a b", Verb::Mkdir),
        ("rmdir a b", Verb::Rmdir),
        ("mv-dir a b c", Verb::MvDir),
        ("put a b c", Verb::Put),
        ("get a b c", Verb::Get),
        ("cat a b", Verb::Cat),
        ("rm a b", Verb::Rm),
        ("mv a b c", Verb::Mv),
        ("info a b", Verb::Info),
        ("verify a", Verb::Verify),
        ("hello", Verb::Hello),
        ("bench all", Verb::Bench),
    ] {
        assert_eq!(parse_command(&words(line)).unwrap().verb, verb);
    }
    for line in [
        "", "nothing", "create", "create a --vbss", "create a --vbss 300", "create a b", "ls",
        "ls -r", "ls a b c", "mkdir a", "put a b", "verify a b", "mv a b",
    ] {
        assert!(parse_command(&words(line)).is_err(), "{}", line);
    }
    assert_eq!(parse_command(&words("rm a")).unwrap_err().message, usage(Verb::Rm));
}

#[test]
fn entries_are_listed_with_their_paths() {
    assert_eq!(child_path("", "a"), "a");
    assert_eq!(child_path("a/b", "c"), "a/b/c");
    let dir = DirEntry { name: "d".to_string(), entry_type: EntryType::Directory };
    let stream = DirEntry { name: "s".to_string(), entry_type: EntryType::Stream };
    assert_eq!(entry_line("", &dir), "DIR    d");
    assert_eq!(entry_line("x", &stream), "STREAM x/s");
    assert_eq!(EntryType::Stream.code(), 0);
    assert_eq!(EntryType::Directory.code(), 1);
    assert_eq!(OpenMode::from_code(0), Some(OpenMode::Read));
    assert_eq!(OpenMode::from_code(1), Some(OpenMode::Write));
    assert_eq!(OpenMode::from_code(2), None);
}

#[test]
fn benchmarks_have_options() {
    let a = parse_bench_args(&words("churn")).unwrap();
    assert_eq!(a.scenario, "churn");
    assert_eq!((a.options.bss, a.options.biw, a.options.vbss, a.options.threads), (12, 4, 15, 4));
    let line = "all --threads 9 --vbss 13 --index-width 2 --block-shift 10 --vbss 14";
    let plan = cmd_bench(&words(line)).unwrap();
    let o = plan.options;
    assert_eq!((o.bss, o.biw, o.vbss, o.threads), (10, 2, 14, 9));
    assert_eq!(plan.scenarios, every_scenario());
    for s in every_scenario() {
        let plan = cmd_bench(&words(scenario_name(s))).unwrap();
        assert_eq!(plan.scenarios, [s]);
    }
    for line in ["", "nothing", "churn --threads", "churn --vbss 256", "churn --other 1"] {
        assert!(cmd_bench(&words(line)).is_err(), "{}", line);
    }
    let said = |line: &str| cmd_bench(&words(line)).err().unwrap().message;
    assert_eq!(said(""), "No scenario specified");
    assert_eq!(said("nope"), "Unknown bench scenario: nope");
    assert_eq!(said("churn --other"), "Unknown option: --other");
    assert_eq!(said("churn --other 1"), "Unknown option: --other");
    assert_eq!(said("churn --threads"), "--threads requires a numeric argument");
    assert_eq!(said("nope --vbss 256"), "--vbss requires a numeric argument");
    assert_eq!(crew(Scenario::ThreadedWrite, 5), (0, 5));
    assert_eq!(crew(Scenario::ThreadedRead, 5), (5, 0));
    assert_eq!(crew(Scenario::ThreadedMixed, 5), (2, 3));
    assert_eq!(crew(Scenario::Churn, 5), (0, 0));
    assert_eq!(piece_kilobytes(15), 32);
    assert_eq!(piece_kilobytes(3), 1);
}

#[test]
fn a_refused_command_line_says_why() {
    let said = |line: &str| parse_command(&words(line)).err().unwrap().message;
    assert_eq!(said(""), "Usage: sfs <command> [args...]");
    assert_eq!(said("fly a"), "Unknown command: fly");
    assert_eq!(said("mkdir a"), "Usage: sfs mkdir <sfs-file> <dir>");
    assert_eq!(said("create"), "Usage: sfs create <sfs-file> [--vbss N]");
    assert_eq!(
        said("create a --bad"),
        "Unknown option: --bad. Usage: sfs create <sfs-file> [--vbss N]"
    );
    assert_eq!(said("create a --vbss"), "--vbss requires a numeric argument");
    assert_eq!(said("create a --vbss 256"), "--vbss requires a numeric argument");
}

#[test]
fn work_is_shared_out_without_a_gap() {
    for (total, workers) in [(125u64, 4u64), (150, 7), (3, 5), (0, 2)] {
        let mut next = 0;
        for t in 0..workers {
            let (first, count) = share(total, workers, t);
            assert_eq!(first, next);
            next = first + count;
        }
        assert_eq!(next, total);
    }
    assert_eq!(share(125, 4, 0), (0, 32));
    assert_eq!(share(125, 4, 3), (94, 31));
    let buf = make_buffer(600);
    assert_eq!(buf.len(), 600);
    assert_eq!((buf[0], buf[255], buf[256], buf[599]), (0, 255, 0, 87));
    let b = batches(Scenario::LargeRead);
    assert_eq!((b[1].prefix, b[1].count, b[1].size), ("large_20m_", 17, 20971520));
}

#[test]
fn names_carry_numbers() {
    assert_eq!(numbered_name("stream_", true, 7), "stream_0007.bin");
    assert_eq!(numbered_name("stream_", true, 12345), "stream_12345.bin");
    assert_eq!(numbered_name("large_", false, 7), "large_7.bin");
}

#[test]
fn what_was_put_is_got() {
    let mut sfs = Fs::create_with_vbss("", 4, 9, 12).unwrap();
    assert_eq!(put_stream(&mut sfs, "a", b"first", false).unwrap(), 5);
    assert_eq!(put_stream(&mut sfs, "b", &[7u8; 9000], true).unwrap(), 9000);
    assert_eq!(get_stream(&mut sfs, "a").unwrap(), b"first");
    assert_eq!(get_stream(&mut sfs, "b").unwrap(), vec![7u8; 9000]);
    assert!(matches!(put_stream(&mut sfs, "a", b"", false), Err(SfsError::AlreadyExists(_))));
    assert!(matches!(get_stream(&mut sfs, "c"), Err(SfsError::NotFound(_))));
    let mut sfs = reopen(sfs, OpenMode::Read).unwrap();
    assert_eq!(get_stream(&mut sfs, "a").unwrap(), b"first");
    assert_eq!(get_stream(&mut sfs, "b").unwrap(), vec![7u8; 9000]);
    assert!(matches!(put_stream(&mut sfs, "d", b"", false), Err(SfsError::ReadOnly(_))));
    assert!(sfs.verify().unwrap().is_empty());
}

#[test]
fn many_streams_come_and_go() {
    let mut sfs = Fs::create("", 4, 9).unwrap();
    let data = make_buffer(700);
    put_all(&mut sfs, "s_", true, 10, 30, &data, false).unwrap();
    get_all(&mut sfs, "s_", true, 10, 30).unwrap();
    assert!(matches!(get_all(&mut sfs, "s_", true, 10, 31), Err(SfsError::NotFound(_))));
    assert_eq!(get_stream(&mut sfs, "s_0039.bin").unwrap(), data);
    assert_eq!(sfs.list("").unwrap().len(), 30);
    delete_all(&mut sfs, "s_", true, 10, 29).unwrap();
    assert_eq!(sfs.list("").unwrap()[0].name, "s_0039.bin");
    assert!(matches!(delete_all(&mut sfs, "s_", true, 10, 1), Err(SfsError::NotFound(_))));
    assert!(sfs.verify().unwrap().is_empty());
}
