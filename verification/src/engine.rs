//! What a scan reports and rewrites, file by file.
//!
//! The caller visits the files, looks at the size and the first bytes of each
//! and hands over what it saw. The functions here decide which records the
//! scan gives and which files are to be rewritten without their signature.
//! Rewriting itself is the caller's work; [`trim_file_start`] says which bytes
//! the rewritten file holds.

use crate::signature::{
    lemma_longest_first, lemma_match_has_entry, longest_first, match_of, matches_of, starts_with,
    strip_choice, well_formed, Encoding, Match, SignatureTable, MIN_SIGNATURE_LEN, PROBE_LEN,
};
use vstd::prelude::*;

verus! {

/// How a scan is to be run.
#[derive(Clone, Copy, Debug, PartialEq, Eq, Structural)]
pub struct Options {
    /// Report the files that carry a signature, but rewrite none.
    pub dry_run: bool,
    /// Report also the files that are too small to carry a signature.
    pub verbose: bool,
}

/// What looking at the start of a file gave.
#[derive(Clone, Debug, PartialEq, Eq)]
pub enum Probe {
    /// The file could not be opened or read; the message says why.
    Failed(String),
    /// The file has `file_len` bytes and `head` holds the bytes that were read
    /// from its start.
    Read { file_len: u64, head: Vec<u8> },
}

/// A visited file: its path and what looking at its start gave.
#[derive(Clone, Debug, PartialEq, Eq)]
pub struct ProbedFile {
    pub path: String,
    pub probe: Probe,
}

/// One record of a scan.
#[derive(Clone, Debug, PartialEq, Eq)]
pub struct FileResult {
    pub path: String,
    /// Whether a signature stands at the start of the file.
    pub has_bom: bool,
    /// The encoding of that signature.
    pub encoding: Option<Encoding>,
    /// Why the file could not be read or rewritten.
    pub error: Option<String>,
}

/// The order to rewrite a file without its first `skip` bytes, which are the
/// signature of `encoding`.
#[derive(Clone, Debug, PartialEq, Eq)]
pub struct StripPlan {
    pub path: String,
    pub encoding: Encoding,
    pub skip: usize,
}

/// One step of what a scan does, in the order in which it does it.
#[derive(Clone, Debug, PartialEq, Eq)]
pub enum Step {
    /// Add this record to the results.
    Report(FileResult),
    /// Rewrite this file.
    Strip(StripPlan),
}

pub ghost enum ProbeView {
    Failed(Seq<char>),
    Read { file_len: u64, head: Seq<u8> },
}

pub ghost struct ProbedFileView {
    pub path: Seq<char>,
    pub probe: ProbeView,
}

pub ghost struct FileResultView {
    pub path: Seq<char>,
    pub has_bom: bool,
    pub encoding: Option<Encoding>,
    pub error: Option<Seq<char>>,
}

pub ghost struct StripPlanView {
    pub path: Seq<char>,
    pub encoding: Encoding,
    pub skip: usize,
}

pub ghost enum StepView {
    Report(FileResultView),
    Strip(StripPlanView),
}

impl View for Probe {
    type V = ProbeView;

    open spec fn view(&self) -> ProbeView {
        match *self {
            Probe::Failed(message) => ProbeView::Failed(message@),
            Probe::Read { file_len, head } => ProbeView::Read { file_len, head: head@ },
        }
    }
}

impl View for ProbedFile {
    type V = ProbedFileView;

    open spec fn view(&self) -> ProbedFileView {
        ProbedFileView { path: self.path@, probe: self.probe@ }
    }
}

impl View for FileResult {
    type V = FileResultView;

    open spec fn view(&self) -> FileResultView {
        FileResultView {
            path: self.path@,
            has_bom: self.has_bom,
            encoding: self.encoding,
            error: match self.error {
                Some(message) => Some(message@),
                None => None,
            },
        }
    }
}

impl View for StripPlan {
    type V = StripPlanView;

    open spec fn view(&self) -> StripPlanView {
        StripPlanView { path: self.path@, encoding: self.encoding, skip: self.skip }
    }
}

impl View for Step {
    type V = StepView;

    open spec fn view(&self) -> StepView {
        match *self {
            Step::Report(result) => StepView::Report(result@),
            Step::Strip(plan) => StepView::Strip(plan@),
        }
    }
}

/// The record of a file that could not be opened or read.
pub open spec fn unreadable(path: Seq<char>, message: Seq<char>) -> FileResultView {
    FileResultView { path, has_bom: false, encoding: None, error: Some(message) }
}

/// The record of a file without a signature.
pub open spec fn without_mark(path: Seq<char>) -> FileResultView {
    FileResultView { path, has_bom: false, encoding: None, error: None }
}

/// The record of a file at whose start the signature of `encoding` stands.
pub open spec fn with_mark(path: Seq<char>, encoding: Encoding) -> FileResultView {
    FileResultView { path, has_bom: true, encoding: Some(encoding), error: None }
}

/// The record of a file that carries the signature of `encoding` and could
/// not be rewritten.
pub open spec fn not_rewritten(
    path: Seq<char>,
    encoding: Encoding,
    message: Seq<char>,
) -> FileResultView {
    FileResultView { path, has_bom: true, encoding: Some(encoding), error: Some(message) }
}

/// Whether a file of `file_len` bytes is too small to tell anything from its
/// start: a signature followed by content needs more than `PROBE_LEN` bytes.
pub open spec fn too_small(file_len: u64) -> bool {
    file_len <= PROBE_LEN
}

/// What holds of every record: it names an encoding if and only if it says
/// that the file carries a signature.
pub open spec fn well_formed_record(result: FileResultView) -> bool {
    result.has_bom == (result.encoding is Some)
}

impl FileResult {
    /// The invariant of a record.
    pub open spec fn wf(&self) -> bool {
        well_formed_record(self@)
    }
}

/// The number of bytes to read from the start of a file of `file_len` bytes:
/// `PROBE_LEN`, or none where the file is too small to carry a signature and
/// content behind it.
pub fn bytes_to_probe(file_len: u64) -> (n: usize)
    ensures
        n == (if too_small(file_len) {
            0usize
        } else {
            PROBE_LEN
        }),
{
    if file_len <= 3 {
        0
    } else {
        PROBE_LEN
    }
}

/// The views of a sequence of steps.
pub open spec fn step_views(steps: Seq<Step>) -> Seq<StepView> {
    steps.map_values(|step: Step| step@)
}

/// The views of a sequence of visited files.
pub open spec fn file_views(files: Seq<ProbedFile>) -> Seq<ProbedFileView> {
    files.map_values(|file: ProbedFile| file@)
}

/// The step that rewrites the file at `path` without the signature of the
/// match `choice`.
pub open spec fn strip_of(path: Seq<char>, choice: Match) -> StepView {
    StepView::Strip(StripPlanView { path, encoding: choice.encoding, skip: choice.len })
}

/// The steps for one visited file.
///
/// * A file that could not be opened or read gives one record with the error.
/// * A file that is too small gives one record without signature in a verbose
///   scan, and nothing otherwise, whatever bytes were handed over.
/// * Any other file gives one record for every signature of the table that
///   stands at its start, in the table's order, and after them, unless the
///   scan is a dry run or nothing matched, the order to rewrite the file
///   without the longest of these signatures (the first of several of that
///   length).
pub open spec fn file_plan(
    options: Options,
    table: Seq<(Encoding, Seq<u8>)>,
    file: ProbedFileView,
) -> Seq<StepView> {
    match file.probe {
        ProbeView::Failed(message) => seq![StepView::Report(unreadable(file.path, message))],
        ProbeView::Read { file_len, head } => if too_small(file_len) {
            if options.verbose {
                seq![StepView::Report(without_mark(file.path))]
            } else {
                Seq::empty()
            }
        } else {
            let found = matches_of(table, head);
            let reports = found.map_values(
                |m: Match| StepView::Report(with_mark(file.path, m.encoding)),
            );
            if found.len() == 0 || options.dry_run {
                reports
            } else {
                reports.push(strip_of(file.path, longest_first(found)))
            }
        },
    }
}

/// The steps of a scan over `files`: the steps for each file, in the order of
/// the files.
pub open spec fn plan(
    options: Options,
    table: Seq<(Encoding, Seq<u8>)>,
    files: Seq<ProbedFileView>,
) -> Seq<StepView> {
    files.flat_map(|file: ProbedFileView| file_plan(options, table, file))
}

/// Decides the steps for one visited file.
pub fn scan_file(
    options: &Options,
    table: &SignatureTable,
    file: &ProbedFile,
) -> (steps: Vec<Step>)
    ensures
        step_views(steps@) == file_plan(*options, table@, file@),
{
    let mut steps: Vec<Step> = Vec::new();
    match &file.probe {
        Probe::Failed(message) => {
            steps.push(
                Step::Report(
                    FileResult {
                        path: file.path.clone(),
                        has_bom: false,
                        encoding: None,
                        error: Some(message.clone()),
                    },
                ),
            );
        },
        Probe::Read { file_len, head } => {
            if bytes_to_probe(*file_len) == 0 {
                if options.verbose {
                    steps.push(
                        Step::Report(
                            FileResult {
                                path: file.path.clone(),
                                has_bom: false,
                                encoding: None,
                                error: None,
                            },
                        ),
                    );
                }
            } else {
                let found = table.detect(head.as_slice());
                let ghost report = |m: Match| StepView::Report(with_mark(file.path@, m.encoding));
                let mut i: usize = 0;
                while i < found.len()
                    invariant
                        i <= found.len(),
                        report == |m: Match| StepView::Report(with_mark(file.path@, m.encoding)),
                        step_views(steps@) == found@.take(i as int).map_values(report),
                    decreases found.len() - i,
                {
                    let m = found[i];
                    let ghost before = steps@;
                    steps.push(
                        Step::Report(
                            FileResult {
                                path: file.path.clone(),
                                has_bom: true,
                                encoding: Some(m.encoding),
                                error: None,
                            },
                        ),
                    );
                    proof {
                        assert(steps@ == before.push(steps@.last()));
                        assert(steps@.last()@ == report(found@[i as int]));
                        assert(step_views(steps@) =~= step_views(before).push(
                            report(found@[i as int]),
                        ));
                        assert(found@.take(i as int + 1) =~= found@.take(i as int).push(
                            found@[i as int],
                        ));
                        assert(found@.take(i as int + 1).map_values(report) =~= found@.take(
                            i as int,
                        ).map_values(report).push(report(found@[i as int])));
                    }
                    i += 1;
                }
                assert(found@.take(i as int) =~= found@);
                if !options.dry_run {
                    match strip_choice(&found) {
                        Some(choice) => {
                            steps.push(
                                Step::Strip(
                                    StripPlan {
                                        path: file.path.clone(),
                                        encoding: choice.encoding,
                                        skip: choice.len,
                                    },
                                ),
                            );
                        },
                        None => {},
                    }
                }
            }
        },
    }
    assert(step_views(steps@) =~= file_plan(*options, table@, file@));
    steps
}

/// Decides the steps of a whole scan: for every visited file, in the order of
/// the visit, the records that it gives and, where it is to be rewritten, the
/// order to do so. A dry run orders no rewriting.
pub fn _main(
    options: &Options,
    table: &SignatureTable,
    files: &Vec<ProbedFile>,
) -> (steps: Vec<Step>)
    ensures
        step_views(steps@) == plan(*options, table@, file_views(files@)),
        options.dry_run ==> forall|k: int| 0 <= k < steps@.len() ==> #[trigger] steps@[k] is Report,
{
    let mut steps: Vec<Step> = Vec::new();
    let ghost each = |file: ProbedFileView| file_plan(*options, table@, file);
    let mut i: usize = 0;
    assert(step_views(steps@) =~= file_views(files@).take(0).flat_map(each));
    while i < files.len()
        invariant
            i <= files.len(),
            each == |file: ProbedFileView| file_plan(*options, table@, file),
            step_views(steps@) == file_views(files@).take(i as int).flat_map(each),
        decreases files.len() - i,
    {
        let mut part = scan_file(options, table, &files[i]);
        proof {
            file_views(files@).lemma_flat_map_take_append(each, i as int);
            assert(step_views(steps@ + part@) =~= step_views(steps@) + step_views(part@));
        }
        steps.append(&mut part);
        i += 1;
    }
    proof {
        assert(file_views(files@).take(i as int) =~= file_views(files@));
        if options.dry_run {
            lemma_dry_run_reports_only(*options, table@, file_views(files@));
            assert forall|k: int| 0 <= k < steps@.len() implies #[trigger] steps@[k] is Report by {
                assert(step_views(steps@)[k] is Report);
            }
        }
    }
    steps
}

/// A dry run rewrites nothing: every step of its plan is a record.
pub proof fn lemma_dry_run_reports_only(
    options: Options,
    table: Seq<(Encoding, Seq<u8>)>,
    files: Seq<ProbedFileView>,
)
    requires
        options.dry_run,
    ensures
        forall|k: int|
            0 <= k < plan(options, table, files).len() ==> #[trigger] plan(
                options,
                table,
                files,
            )[k] is Report,
    decreases files.len(),
{
    let each = |file: ProbedFileView| file_plan(options, table, file);
    if files.len() == 0 {
        assert(files.map_values(each) =~= Seq::<Seq<StepView>>::empty());
    } else {
        let k = files.len() - 1;
        lemma_dry_run_reports_only(options, table, files.take(k));
        files.lemma_flat_map_take_append(each, k);
        assert(files.take(k + 1) =~= files);
    }
}

/// The record for a file that was to be rewritten and could not be: it still
/// says that the file carries the signature, and gives the reason.
pub fn strip_failed(plan: &StripPlan, message: String) -> (result: FileResult)
    ensures
        result@ == not_rewritten(plan.path@, plan.encoding, message@),
        result.wf(),
{
    FileResult {
        path: plan.path.clone(),
        has_bom: true,
        encoding: Some(plan.encoding),
        error: Some(message),
    }
}

/// What is left of `content` without its first `len` bytes; nothing, where it
/// has no more than `len`.
pub open spec fn remainder(content: Seq<u8>, len: int) -> Seq<u8> {
    if 0 <= len <= content.len() {
        content.skip(len)
    } else {
        Seq::empty()
    }
}

/// The bytes that a file holds once its first `len` bytes are removed. The
/// bytes behind them are kept as they are and in their order.
pub fn trim_file_start(content: &[u8], len: usize) -> (rest: Vec<u8>)
    ensures
        rest@ == remainder(content@, len as int),
{
    let mut rest: Vec<u8> = Vec::new();
    if len >= content.len() {
        assert(rest@ =~= remainder(content@, len as int));
        return rest;
    }
    let mut i: usize = len;
    while i < content.len()
        invariant
            len <= i <= content.len(),
            rest@ == content@.subrange(len as int, i as int),
        decreases content.len() - i,
    {
        rest.push(content[i]);
        assert(content@.subrange(len as int, i as int).push(content@[i as int])
            =~= content@.subrange(len as int, i as int + 1));
        i += 1;
    }
    assert(rest@ =~= remainder(content@, len as int));
    rest
}

/// Removing a signature from a file that starts with it leaves exactly what
/// stood behind the signature.
pub proof fn lemma_strip_leaves_payload(signature: Seq<u8>, payload: Seq<u8>)
    ensures
        remainder(signature + payload, signature.len() as int) == payload,
{
    assert((signature + payload).skip(signature.len() as int) =~= payload);
}

/// A file of no more than `PROBE_LEN` bytes is never reported as carrying a
/// signature and never as an error, whatever bytes it holds: a verbose scan
/// gives one record without signature for it, any other scan gives nothing.
pub proof fn lemma_small_file_is_inconclusive(
    options: Options,
    table: Seq<(Encoding, Seq<u8>)>,
    path: Seq<char>,
    file_len: u64,
    head: Seq<u8>,
)
    requires
        file_len <= PROBE_LEN,
    ensures
        file_plan(options, table, ProbedFileView { path, probe: ProbeView::Read { file_len, head } })
            == (if options.verbose {
            seq![StepView::Report(without_mark(path))]
        } else {
            Seq::<StepView>::empty()
        }),
{
}

/// Every record in the plan for a file is well formed, and one that gives an
/// error does not say that the file carries a signature: at that point
/// nothing was found and nothing is rewritten.
pub proof fn lemma_plan_records_are_well_formed(
    options: Options,
    table: Seq<(Encoding, Seq<u8>)>,
    file: ProbedFileView,
    k: int,
)
    requires
        0 <= k < file_plan(options, table, file).len(),
        file_plan(options, table, file)[k] is Report,
    ensures
        well_formed_record(file_plan(options, table, file)[k]->Report_0),
        file_plan(options, table, file)[k]->Report_0.path == file.path,
        file_plan(options, table, file)[k]->Report_0.error is Some ==> !file_plan(
            options,
            table,
            file,
        )[k]->Report_0.has_bom,
{
}

/// Where the plan for a file orders it rewritten, that order is the last
/// step, the file was read and is longer than what is removed, and what is
/// removed is a signature of the table that stands at the start of the file.
pub proof fn lemma_strip_removes_a_signature(
    options: Options,
    table: Seq<(Encoding, Seq<u8>)>,
    file: ProbedFileView,
    k: int,
)
    requires
        well_formed(table),
        0 <= k < file_plan(options, table, file).len(),
        file_plan(options, table, file)[k] is Strip,
    ensures
        k == file_plan(options, table, file).len() - 1,
        !options.dry_run,
        file.probe is Read,
        file_plan(options, table, file)[k]->Strip_0.path == file.path,
        MIN_SIGNATURE_LEN <= file_plan(options, table, file)[k]->Strip_0.skip <= PROBE_LEN,
        file_plan(options, table, file)[k]->Strip_0.skip < file.probe->file_len,
        exists|i: int|
            0 <= i < table.len() && starts_with(file.probe->head, (#[trigger] table[i]).1)
                && file_plan(options, table, file)[k]->Strip_0.encoding == table[i].0
                && file_plan(options, table, file)[k]->Strip_0.skip == table[i].1.len(),
{
    let head = file.probe->head;
    let found = matches_of(table, head);
    let at = lemma_longest_first(found);
    lemma_match_has_entry(table, head, at);
    let i = choose|i: int|
        0 <= i < table.len() && starts_with(head, (#[trigger] table[i]).1) && found[at]
            == match_of(table[i]);
    assert(MIN_SIGNATURE_LEN <= table[i].1.len() <= PROBE_LEN);
}

/// The extension that a file gets when it is set aside before it is
/// rewritten.
pub const BACKUP_EXTENSION: &'static str = "bak";

/// The path that `PathBuf::set_extension` makes of `path` when it is given
/// `extension`: the path with the extension of its file name replaced by
/// `extension`, or with `extension` added where the name had none, in the
/// path syntax of the platform.
pub uninterp spec fn path_with_extension(path: Seq<char>, extension: Seq<char>) -> Seq<char>;

/// Calls `std::path::PathBuf::set_extension` on `path`. The result is named
/// by `path_with_extension`; nothing else is claimed of it. An extension
/// that holds a path separator is left out, as the call panics on it.
#[verifier::external_body]
fn set_extension(path: &str, extension: &str) -> (changed: String)
    requires
        !extension@.contains('/'),
        !extension@.contains('\\'),
    ensures
        changed@ == path_with_extension(path@, extension@),
{
    let mut buffer = std::path::PathBuf::from(path);
    buffer.set_extension(extension);
    buffer.to_string_lossy().into_owned()
}

/// The path under which a file is set aside before it is rewritten: its own
/// path with `BACKUP_EXTENSION` in place of its extension.
pub fn backup_path(path: &str) -> (backup: String)
    ensures
        backup@ == path_with_extension(path@, BACKUP_EXTENSION@),
{
    proof {
        reveal_strlit("bak");
    }
    set_extension(path, BACKUP_EXTENSION)
}

} // verus!
