//! What a run shows for its results.
//!
//! The records of a scan are turned into lines, one for each record and in
//! their order, and counted. How a line is written out is left to the caller.

use crate::engine::{FileResult, FileResultView};
use crate::signature::Encoding;
use vstd::prelude::*;

verus! {

/// One line of the report.
#[derive(Clone, Debug, PartialEq, Eq)]
pub enum ReportLine {
    /// The file carries a signature.
    Bom { path: String, encoding: Option<Encoding> },
    /// The file carries no signature.
    NoBom { path: String },
    /// The file could not be read or rewritten.
    Error { message: String, path: String },
}

pub ghost enum ReportLineView {
    Bom { path: Seq<char>, encoding: Option<Encoding> },
    NoBom { path: Seq<char> },
    Error { message: Seq<char>, path: Seq<char> },
}

impl View for ReportLine {
    type V = ReportLineView;

    open spec fn view(&self) -> ReportLineView {
        match *self {
            ReportLine::Bom { path, encoding } => ReportLineView::Bom { path: path@, encoding },
            ReportLine::NoBom { path } => ReportLineView::NoBom { path: path@ },
            ReportLine::Error { message, path } => ReportLineView::Error {
                message: message@,
                path: path@,
            },
        }
    }
}

/// The line for one record: the error where the record has one, else whether
/// the file carries a signature.
pub open spec fn line_of(result: FileResultView) -> ReportLineView {
    match result.error {
        Some(message) => ReportLineView::Error { message, path: result.path },
        None => if result.has_bom {
            ReportLineView::Bom { path: result.path, encoding: result.encoding }
        } else {
            ReportLineView::NoBom { path: result.path }
        },
    }
}

/// The views of a sequence of records.
pub open spec fn result_views(results: Seq<FileResult>) -> Seq<FileResultView> {
    results.map_values(|result: FileResult| result@)
}

/// The views of a sequence of lines.
pub open spec fn line_views(lines: Seq<ReportLine>) -> Seq<ReportLineView> {
    lines.map_values(|line: ReportLine| line@)
}

/// Whether a record says that a file carries a signature, and not that
/// something went wrong with it.
pub open spec fn reports_mark(result: FileResultView) -> bool {
    result.has_bom && result.error is None
}

/// The number of records that say that a file carries a signature.
pub open spec fn marked(results: Seq<FileResultView>) -> nat {
    results.filter(|result: FileResultView| reports_mark(result)).len()
}

/// Turns the records of a scan into the lines of its report, one for each
/// record, in the order of the records.
pub fn output_formatted(results: &[FileResult]) -> (lines: Vec<ReportLine>)
    ensures
        line_views(lines@) == result_views(results@).map_values(
            |result: FileResultView| line_of(result),
        ),
{
    let mut lines: Vec<ReportLine> = Vec::new();
    let ghost each = |result: FileResultView| line_of(result);
    let mut i: usize = 0;
    while i < results.len()
        invariant
            i <= results.len(),
            each == |result: FileResultView| line_of(result),
            line_views(lines@) == result_views(results@).take(i as int).map_values(each),
        decreases results.len() - i,
    {
        let result = &results[i];
        let line = match &result.error {
            Some(message) => ReportLine::Error {
                message: message.clone(),
                path: result.path.clone(),
            },
            None => if result.has_bom {
                ReportLine::Bom { path: result.path.clone(), encoding: result.encoding }
            } else {
                ReportLine::NoBom { path: result.path.clone() }
            },
        };
        let ghost before = lines@;
        lines.push(line);
        proof {
            assert(lines@ == before.push(line));
            assert(line@ == line_of(results@[i as int]@));
            assert(line_views(lines@) =~= line_views(before).push(line@));
            assert(result_views(results@).take(i as int + 1).map_values(each) =~= result_views(
                results@,
            ).take(i as int).map_values(each).push(line_of(results@[i as int]@)));
        }
        i += 1;
    }
    assert(result_views(results@).take(i as int) =~= result_views(results@));
    lines
}

/// Counts the records that say that a file carries a signature. A record
/// with an error is not counted, so that a file that was found to carry a
/// signature and could not be rewritten counts once.
pub fn count_marked(results: &[FileResult]) -> (n: usize)
    ensures
        n == marked(result_views(results@)),
{
    let ghost keep = |result: FileResultView| reports_mark(result);
    let mut n: usize = 0;
    let mut i: usize = 0;
    proof {
        reveal(Seq::filter);
        assert(result_views(results@).take(0) =~= Seq::<FileResultView>::empty());
    }
    while i < results.len()
        invariant
            i <= results.len(),
            n <= i,
            keep == |result: FileResultView| reports_mark(result),
            n == result_views(results@).take(i as int).filter(keep).len(),
        decreases results.len() - i,
    {
        proof {
            reveal(Seq::filter);
            let longer = result_views(results@).take(i as int + 1);
            assert(longer.drop_last() =~= result_views(results@).take(i as int));
            assert(longer.last() == results@[i as int]@);
        }
        if results[i].has_bom && results[i].error.is_none() {
            n += 1;
        }
        i += 1;
    }
    assert(result_views(results@).take(i as int) =~= result_views(results@));
    n
}

} // verus!
