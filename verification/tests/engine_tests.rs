use bomctl::dir_walker::{DirWalker, WalkAction, WalkEvent};
use bomctl::engine::{
    _main, backup_path, bytes_to_probe, scan_file, strip_failed, trim_file_start, FileResult,
    Options, Probe, ProbedFile, Step, StripPlan, BACKUP_EXTENSION,
};
use bomctl::report::{count_marked, output_formatted, ReportLine};
use bomctl::signature::{Encoding, SignatureTable};

const TESTS_IN_DIR: &str = "target/test";
const TESTS_FILE: &str = "test_file";

fn file_full_path() -> String {
    format!("{}/{}", TESTS_IN_DIR, TESTS_FILE)
}

/// Looks at a file's bytes as a caller with a real file would: asks how many
/// bytes to read, and reads that many.
fn probe_of(path: &str, content: &[u8]) -> ProbedFile {
    let wanted = bytes_to_probe(content.len() as u64);
    ProbedFile {
        path: path.to_string(),
        probe: Probe::Read { file_len: content.len() as u64, head: content[..wanted].to_vec() },
    }
}

fn with_mark(path: &str, encoding: Encoding) -> FileResult {
    FileResult { path: path.to_string(), has_bom: true, encoding: Some(encoding), error: None }
}

fn without_mark(path: &str) -> FileResult {
    FileResult { path: path.to_string(), has_bom: false, encoding: None, error: None }
}

fn strip(path: &str, encoding: Encoding, skip: usize) -> Step {
    Step::Strip(StripPlan { path: path.to_string(), encoding, skip })
}

fn options(dry_run: bool, verbose: bool) -> Options {
    Options { dry_run, verbose }
}

/// Carries out the steps on files held in memory and gives the records.
fn carry_out(steps: &[Step], files: &mut Vec<(String, Vec<u8>)>) -> Vec<FileResult> {
    let mut results = Vec::new();
    for step in steps {
        match step {
            Step::Report(result) => results.push(result.clone()),
            Step::Strip(plan) => {
                let at = files.iter().position(|(path, _)| *path == plan.path);
                match at {
                    Some(at) => {
                        let whole = files[at].1.clone();
                        files[at].1 = trim_file_start(&whole, plan.skip);
                        files.push((backup_path(&plan.path), whole));
                    }
                    None => results.push(strip_failed(plan, "no such file".to_string())),
                }
            }
        }
    }
    results
}

#[test]
fn should() {
    let mut content = vec![0xef, 0xbb, 0xbf];
    content.extend_from_slice(b"Hello, world!");
    let files = vec![probe_of(&file_full_path(), &content)];

    let options = Options { dry_run: false, verbose: true };
    let steps = _main(&options, &SignatureTable::standard(), &files);
    let mut stored = vec![(file_full_path(), content)];
    let results = carry_out(&steps, &mut stored);

    let target_processed = results.iter().any(|item| item.path == file_full_path());

    assert_eq!(target_processed, true);
}

#[test]
fn probe_reads_three_bytes_of_a_file_that_is_long_enough() {
    assert_eq!(bytes_to_probe(0), 0);
    assert_eq!(bytes_to_probe(1), 0);
    assert_eq!(bytes_to_probe(3), 0);
    assert_eq!(bytes_to_probe(4), 3);
    assert_eq!(bytes_to_probe(u64::MAX), 3);
}

#[test]
fn small_file_is_inconclusive_whatever_it_holds() {
    let table = SignatureTable::standard();
    for content in [&[][..], &[0xff, 0xfe][..], &[0xef, 0xbb, 0xbf][..], &[0xfe, 0xff, 0x41][..]] {
        let file = ProbedFile {
            path: "small".to_string(),
            probe: Probe::Read { file_len: content.len() as u64, head: content.to_vec() },
        };
        assert_eq!(scan_file(&options(false, false), &table, &file), vec![]);
        assert_eq!(scan_file(&options(true, false), &table, &file), vec![]);
        assert_eq!(
            scan_file(&options(false, true), &table, &file),
            vec![Step::Report(without_mark("small"))]
        );
        assert_eq!(
            scan_file(&options(true, true), &table, &file),
            vec![Step::Report(without_mark("small"))]
        );
    }
}

#[test]
fn file_with_a_mark_is_reported_and_rewritten() {
    let table = SignatureTable::standard();
    let file = probe_of("a.txt", &[0xef, 0xbb, 0xbf, b'h', b'i']);
    assert_eq!(
        scan_file(&options(false, false), &table, &file),
        vec![Step::Report(with_mark("a.txt", Encoding::Utf8)), strip("a.txt", Encoding::Utf8, 3)]
    );
    let file = probe_of("c.txt", &[0xfe, 0xff, b'x', b'y']);
    assert_eq!(
        scan_file(&options(false, true), &table, &file),
        vec![
            Step::Report(with_mark("c.txt", Encoding::Utf16Be)),
            strip("c.txt", Encoding::Utf16Be, 2)
        ]
    );
    let file = probe_of("d.txt", &[0xff, 0xfe, b'x', 0]);
    assert_eq!(
        scan_file(&options(false, false), &table, &file),
        vec![
            Step::Report(with_mark("d.txt", Encoding::Utf16Le)),
            strip("d.txt", Encoding::Utf16Le, 2)
        ]
    );
}

#[test]
fn file_without_a_mark_gives_nothing() {
    let table = SignatureTable::standard();
    let file = probe_of("b.txt", b"plain");
    assert_eq!(scan_file(&options(false, false), &table, &file), vec![]);
    assert_eq!(scan_file(&options(false, true), &table, &file), vec![]);
}

#[test]
fn unreadable_file_gives_its_error() {
    let table = SignatureTable::standard();
    let file = ProbedFile { path: "locked".to_string(), probe: Probe::Failed("denied".to_string()) };
    let expected = vec![Step::Report(FileResult {
        path: "locked".to_string(),
        has_bom: false,
        encoding: None,
        error: Some("denied".to_string()),
    })];
    assert_eq!(scan_file(&options(false, false), &table, &file), expected);
    assert_eq!(scan_file(&options(true, true), &table, &file), expected);
}

#[test]
fn several_matches_give_one_record_each_and_one_rewrite() {
    let mut table = SignatureTable::new();
    assert!(table.insert(Encoding::Utf16Le, vec![0xef, 0xbb]));
    assert!(table.insert(Encoding::Utf8, vec![0xef, 0xbb, 0xbf]));
    let file = probe_of("two", &[0xef, 0xbb, 0xbf, b'!']);
    assert_eq!(
        scan_file(&options(false, false), &table, &file),
        vec![
            Step::Report(with_mark("two", Encoding::Utf16Le)),
            Step::Report(with_mark("two", Encoding::Utf8)),
            strip("two", Encoding::Utf8, 3),
        ]
    );
}

#[test]
fn scan_takes_the_files_in_their_order() {
    let table = SignatureTable::standard();
    let files = vec![
        probe_of("one", &[0xff, 0xfe, 1, 2]),
        probe_of("two", b"ab"),
        ProbedFile { path: "three".to_string(), probe: Probe::Failed("gone".to_string()) },
        probe_of("four", &[0xef, 0xbb, 0xbf, b'x']),
    ];
    let steps = _main(&options(false, true), &table, &files);
    assert_eq!(
        steps,
        vec![
            Step::Report(with_mark("one", Encoding::Utf16Le)),
            strip("one", Encoding::Utf16Le, 2),
            Step::Report(without_mark("two")),
            Step::Report(FileResult {
                path: "three".to_string(),
                has_bom: false,
                encoding: None,
                error: Some("gone".to_string()),
            }),
            Step::Report(with_mark("four", Encoding::Utf8)),
            strip("four", Encoding::Utf8, 3),
        ]
    );
    assert_eq!(_main(&options(false, true), &table, &Vec::new()), vec![]);
}

#[test]
fn removal_leaves_the_payload_and_sets_the_whole_file_aside() {
    for payload in [&b"Hello, world!"[..], &b"x"[..], &[0xef, 0xbb, 0xbf, 0x00][..]] {
        let mut content = Encoding::Utf8.signature();
        content.extend_from_slice(payload);
        let mut stored = vec![("dir/file.txt".to_string(), content.clone())];
        let files = vec![probe_of("dir/file.txt", &content)];
        let steps = _main(&options(false, false), &SignatureTable::standard(), &files);
        let results = carry_out(&steps, &mut stored);
        assert_eq!(results, vec![with_mark("dir/file.txt", Encoding::Utf8)]);
        assert_eq!(
            stored,
            vec![
                ("dir/file.txt".to_string(), payload.to_vec()),
                ("dir/file.bak".to_string(), content),
            ]
        );
    }
}

#[test]
fn dry_run_changes_nothing_and_reports_the_same_twice() {
    let table = SignatureTable::standard();
    let content = vec![0xef, 0xbb, 0xbf, b'h', b'i'];
    let mut stored = vec![("a.txt".to_string(), content.clone())];
    let mut reports = Vec::new();
    for _ in 0..2 {
        let files = vec![probe_of("a.txt", &stored[0].1)];
        let steps = _main(&options(true, false), &table, &files);
        assert!(steps.iter().all(|step| matches!(step, Step::Report(_))));
        reports.push(carry_out(&steps, &mut stored));
        assert_eq!(stored, vec![("a.txt".to_string(), content.clone())]);
    }
    assert_eq!(reports[0], vec![with_mark("a.txt", Encoding::Utf8)]);
    assert_eq!(reports[0], reports[1]);
}

#[test]
fn trim_removes_the_first_bytes_only() {
    assert_eq!(trim_file_start(&[1, 2, 3, 4, 5], 0), vec![1, 2, 3, 4, 5]);
    assert_eq!(trim_file_start(&[1, 2, 3, 4, 5], 2), vec![3, 4, 5]);
    assert_eq!(trim_file_start(&[1, 2, 3, 4, 5], 5), Vec::<u8>::new());
    assert_eq!(trim_file_start(&[1, 2, 3, 4, 5], 6), Vec::<u8>::new());
    assert_eq!(trim_file_start(&[], 3), Vec::<u8>::new());
}

#[test]
fn backup_path_replaces_the_extension() {
    assert_eq!(BACKUP_EXTENSION, "bak");
    assert_eq!(backup_path("dir/a.txt"), "dir/a.bak");
    assert_eq!(backup_path("a.tar.gz"), "a.tar.bak");
    assert_eq!(backup_path("notes"), "notes.bak");
    assert_eq!(backup_path("target/test/test_file"), "target/test/test_file.bak");
}

#[test]
fn failed_rewrite_keeps_the_signature_in_its_record() {
    let plan = StripPlan { path: "a.txt".to_string(), encoding: Encoding::Utf16Be, skip: 2 };
    assert_eq!(
        strip_failed(&plan, "disk full".to_string()),
        FileResult {
            path: "a.txt".to_string(),
            has_bom: true,
            encoding: Some(Encoding::Utf16Be),
            error: Some("disk full".to_string()),
        }
    );
    let steps = vec![
        Step::Report(with_mark("gone.txt", Encoding::Utf8)),
        strip("gone.txt", Encoding::Utf8, 3),
    ];
    let results = carry_out(&steps, &mut Vec::new());
    assert_eq!(results.len(), 2);
    assert!(results[0].has_bom && results[0].error.is_none());
    assert!(results[1].has_bom && results[1].error == Some("no such file".to_string()));
}

#[test]
fn report_has_one_line_for_each_record() {
    let results = vec![
        with_mark("a", Encoding::Utf8),
        without_mark("b"),
        FileResult {
            path: "c".to_string(),
            has_bom: false,
            encoding: None,
            error: Some("denied".to_string()),
        },
        FileResult {
            path: "d".to_string(),
            has_bom: true,
            encoding: Some(Encoding::Utf16Le),
            error: Some("disk full".to_string()),
        },
    ];
    assert_eq!(
        output_formatted(&results),
        vec![
            ReportLine::Bom { path: "a".to_string(), encoding: Some(Encoding::Utf8) },
            ReportLine::NoBom { path: "b".to_string() },
            ReportLine::Error { message: "denied".to_string(), path: "c".to_string() },
            ReportLine::Error { message: "disk full".to_string(), path: "d".to_string() },
        ]
    );
    assert_eq!(count_marked(&results), 1);
    assert_eq!(output_formatted(&[]), vec![]);
    assert_eq!(count_marked(&[]), 0);
}

/// Scans the tree `root/a.txt`, `root/sub/b.txt`, `root/sub/sub2/c.txt`
/// with the walker, carries out the steps and gives the records and the
/// files as they are afterwards.
fn scan_small_tree(c_txt: &[u8]) -> (Vec<FileResult>, Vec<(String, Vec<u8>)>) {
    let listing = |dir: &str| -> Vec<(&'static str, bool)> {
        match dir {
            "root" => vec![("root/a.txt", false), ("root/sub", true)],
            "root/sub" => vec![("root/sub/b.txt", false), ("root/sub/sub2", true)],
            "root/sub/sub2" => vec![("root/sub/sub2/c.txt", false)],
            _ => panic!("not a directory: {}", dir),
        }
    };
    let mut stored = vec![
        ("root/a.txt".to_string(), vec![0xef, 0xbb, 0xbf, b'h', b'i']),
        ("root/sub/b.txt".to_string(), b"plain".to_vec()),
        ("root/sub/sub2/c.txt".to_string(), c_txt.to_vec()),
    ];

    let mut walker = DirWalker::new("root", true);
    let mut stream: Vec<(&'static str, bool)> = Vec::new();
    let mut paths = Vec::new();
    let mut event = WalkEvent::EndOfDirectory;
    loop {
        match walker.next(event) {
            WalkAction::Yield(path) => paths.push(path),
            WalkAction::Pull => {}
            WalkAction::Open(dir) => {
                stream = listing(dir);
                stream.reverse();
            }
            WalkAction::Done => break,
            WalkAction::Abort => panic!("nothing in the tree is unreadable"),
        }
        event = match stream.pop() {
            Some((entry, is_dir)) => WalkEvent::Entry { entry, is_dir },
            None => WalkEvent::EndOfDirectory,
        };
    }
    assert_eq!(paths, vec!["root/a.txt", "root/sub/b.txt", "root/sub/sub2/c.txt"]);

    let files: Vec<ProbedFile> = paths
        .iter()
        .map(|path| {
            let content = &stored.iter().find(|(stored, _)| stored == path).unwrap().1;
            probe_of(path, content)
        })
        .collect();
    let steps = _main(&options(false, false), &SignatureTable::standard(), &files);
    let results = carry_out(&steps, &mut stored);
    (results, stored)
}

#[test]
fn scan_of_a_small_tree() {
    let (results, stored) = scan_small_tree(&[0xfe, 0xff, b'x']);

    assert_eq!(results[0], with_mark("root/a.txt", Encoding::Utf8));
    assert_eq!(stored[0], ("root/a.txt".to_string(), b"hi".to_vec()));
    assert!(results.iter().all(|result| result.path != "root/sub/b.txt"));
    assert_eq!(stored[1], ("root/sub/b.txt".to_string(), b"plain".to_vec()));
    // With its three bytes `c.txt` is too small to tell anything from its
    // start, so it is neither reported nor rewritten.
    assert_eq!(results.len(), 1);
    assert_eq!(stored[2], ("root/sub/sub2/c.txt".to_string(), vec![0xfe, 0xff, b'x']));
    assert_eq!(stored[3], ("root/a.bak".to_string(), vec![0xef, 0xbb, 0xbf, b'h', b'i']));
    assert_eq!(stored.len(), 4);
    assert_eq!(count_marked(&results), 1);
}

#[test]
fn scan_of_a_small_tree_with_content_behind_every_mark() {
    let (results, stored) = scan_small_tree(&[0xfe, 0xff, b'x', b'y']);

    assert_eq!(
        results,
        vec![
            with_mark("root/a.txt", Encoding::Utf8),
            with_mark("root/sub/sub2/c.txt", Encoding::Utf16Be),
        ]
    );
    assert_eq!(stored[0], ("root/a.txt".to_string(), b"hi".to_vec()));
    assert_eq!(stored[1], ("root/sub/b.txt".to_string(), b"plain".to_vec()));
    assert_eq!(stored[2], ("root/sub/sub2/c.txt".to_string(), b"xy".to_vec()));
    assert_eq!(stored[3], ("root/a.bak".to_string(), vec![0xef, 0xbb, 0xbf, b'h', b'i']));
    assert_eq!(stored[4], ("root/sub/sub2/c.bak".to_string(), vec![0xfe, 0xff, b'x', b'y']));
    assert_eq!(count_marked(&results), 2);
}
