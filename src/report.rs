//! Folding of batch and tool outcomes into run-level results, and the
//! deterministic ordering of per-tool reports.

use crate::exec::{BatchResult, ExecError, ToolResult};
use vstd::multiset::Multiset;
use vstd::prelude::*;
use vstd::utf8::encode_utf8;

verus! {

broadcast use {vstd::seq_lib::group_to_multiset_ensures, vstd::utf8::group_utf8_lib};

/// Run-level outcome, mapped by the caller to a process exit code.
pub struct RunOutcome {
    /// Every tool that ran succeeded.
    pub success: bool,
    /// A required command was missing, so nothing ran.
    pub missing_executable: bool,
}

impl RunOutcome {
    /// A run that succeeded.
    pub fn success() -> (r: RunOutcome)
        ensures
            r.success && !r.missing_executable,
    {
        RunOutcome { success: true, missing_executable: false }
    }

    /// A run stopped because a required command is missing.
    pub fn missing_executable() -> (r: RunOutcome)
        ensures
            !r.success && r.missing_executable,
    {
        RunOutcome { success: false, missing_executable: true }
    }

    /// A run whose tools ran, succeeding or not.
    pub fn from_success(success: bool) -> (r: RunOutcome)
        ensures
            r.success == success && !r.missing_executable,
    {
        RunOutcome { success, missing_executable: false }
    }
}

/// The process exit code of an outcome: 0 on success, 3 when a command was
/// missing, 1 when a tool failed.
pub fn exit_code_from_outcome(outcome: &RunOutcome) -> (r: u8)
    ensures
        r == (if outcome.success {
            0u8
        } else if outcome.missing_executable {
            3u8
        } else {
            1u8
        }),
{
    if outcome.success {
        0
    } else if outcome.missing_executable {
        3
    } else {
        1
    }
}

/// "file" for one file, "files" otherwise.
pub fn pluralize_files(count: usize) -> (r: &'static str)
    ensures
        r@ == (if count == 1 {
            "file"@
        } else {
            "files"@
        }),
{
    if count == 1 {
        "file"
    } else {
        "files"
    }
}

/// Cursor moves that rewrite status line `line_idx` of `total_lines` lines
/// printed above the cursor: how far to go up, then how far to come back
/// down after the rewritten line.
pub fn cursor_movements(line_idx: usize, total_lines: usize) -> (r: (usize, usize))
    ensures
        r.0 == (if line_idx < total_lines {
            total_lines - line_idx
        } else {
            0
        }),
        r.1 == (if line_idx + 1 < total_lines {
            total_lines - line_idx - 1
        } else {
            0
        }),
{
    let up = if line_idx < total_lines {
        total_lines - line_idx
    } else {
        0
    };
    let down = if line_idx < total_lines {
        total_lines - line_idx - 1
    } else {
        0
    };
    (up, down)
}

/// Position of the first route whose command was not found, if any.
pub fn missing_command(found: &[bool]) -> (r: Option<usize>)
    ensures
        r is None <==> forall|k: int| 0 <= k < found@.len() ==> #[trigger] found@[k],
        r matches Some(k) ==> k < found@.len() && !found@[k as int] && forall|j: int|
            0 <= j < k ==> #[trigger] found@[j],
{
    let mut k: usize = 0;
    while k < found.len()
        invariant
            0 <= k <= found@.len(),
            forall|j: int| 0 <= j < k ==> #[trigger] found@[j],
        decreases found@.len() - k,
    {
        if !found[k] {
            return Some(k);
        }
        k += 1;
    }
    None
}

/// The report of one tool: its name, how many files it was given, and
/// either its result or the hard error that stopped it.
pub struct ToolReport {
    /// Tool name.
    pub name: String,
    /// Number of files routed to the tool.
    pub file_count: usize,
    /// What running the tool gave.
    pub result: Result<ToolResult, ExecError>,
}

/// The tool ran and all its batches succeeded.
pub open spec fn report_ok(r: ToolReport) -> bool {
    r.result matches Ok(t) && t.success
}

/// Whether every report is a success.
pub open spec fn all_ok(rs: Seq<ToolReport>) -> bool {
    forall|k: int| 0 <= k < rs.len() ==> #[trigger] report_ok(rs[k])
}

/// Sum of the file counts of the reports.
pub open spec fn file_total(rs: Seq<ToolReport>) -> int
    decreases rs.len(),
{
    if rs.len() == 0 {
        0
    } else {
        file_total(rs.drop_last()) + rs.last().file_count
    }
}

/// Which captured streams of a batch are shown, as (stdout, stderr):
/// standard output when the run is verbose, standard error when the run is
/// verbose or the batch failed; an empty stream is never shown.
pub fn shown_streams(verbose: bool, b: &BatchResult) -> (r: (bool, bool))
    ensures
        r.0 == (verbose && b.stdout@.len() > 0),
        r.1 == (b.stderr@.len() > 0 && (verbose || !b.success)),
{
    let out = verbose && !b.stdout.as_str().is_empty();
    let err = !b.stderr.as_str().is_empty() && (verbose || !b.success);
    (out, err)
}

/// Whether a batch belongs in the failure details of a check run: it
/// failed, or it printed something.
pub fn has_details(b: &BatchResult) -> (r: bool)
    ensures
        r == (!b.success || b.stdout@.len() > 0 || b.stderr@.len() > 0),
{
    !b.success || !b.stdout.as_str().is_empty() || !b.stderr.as_str().is_empty()
}

/// Under fail-fast, work that has not started yet is skipped once a stop
/// was requested.
pub fn should_skip(fail_fast: bool, stop_requested: bool) -> (r: bool)
    ensures
        r == (fail_fast && stop_requested),
{
    fail_fast && stop_requested
}

/// A tool that ran and failed requests that no further work start.
pub fn requests_stop(result: &Result<ToolResult, ExecError>) -> (r: bool)
    ensures
        r == (result matches Ok(t) && !t.success),
{
    match result {
        Ok(t) => !t.success,
        Err(_) => false,
    }
}

/// The run succeeded when every tool ran without a hard error and
/// succeeded.
pub fn overall_success(reports: &[ToolReport]) -> (r: bool)
    ensures
        r == all_ok(reports@),
{
    let mut k: usize = 0;
    while k < reports.len()
        invariant
            0 <= k <= reports@.len(),
            forall|j: int| 0 <= j < k ==> #[trigger] report_ok(reports@[j]),
        decreases reports@.len() - k,
    {
        let ok = match &reports[k].result {
            Ok(t) => t.success,
            Err(_) => false,
        };
        if !ok {
            assert(!report_ok(reports@[k as int]));
            return false;
        }
        k += 1;
    }
    true
}

/// The outcome of a run whose tools all ran: it succeeds iff every tool
/// ran without a hard error and succeeded.
pub fn run_outcome(reports: &[ToolReport]) -> (r: RunOutcome)
    ensures
        r.success == all_ok(reports@),
        !r.missing_executable,
{
    RunOutcome::from_success(overall_success(reports))
}

/// Total number of files over all reports.
pub fn total_files(reports: &[ToolReport]) -> (r: usize)
    requires
        file_total(reports@) <= usize::MAX,
    ensures
        r == file_total(reports@),
{
    let mut total: usize = 0;
    let mut k: usize = 0;
    while k < reports.len()
        invariant
            0 <= k <= reports@.len(),
            file_total(reports@) <= usize::MAX,
            total == file_total(reports@.take(k as int)),
        decreases reports@.len() - k,
    {
        assert(reports@.take(k as int + 1).drop_last() =~= reports@.take(k as int));
        proof {
            lemma_file_total_prefix(reports@, k as int + 1);
        }
        total = total + reports[k].file_count;
        k += 1;
    }
    assert(reports@.take(k as int) =~= reports@);
    total
}

proof fn lemma_file_total_prefix(rs: Seq<ToolReport>, n: int)
    requires
        0 <= n <= rs.len(),
    ensures
        0 <= file_total(rs.take(n)) <= file_total(rs),
    decreases rs.len(),
{
    if n < rs.len() {
        lemma_file_total_prefix(rs.drop_last(), n);
        assert(rs.drop_last().take(n) =~= rs.take(n));
    } else {
        assert(rs.take(n) =~= rs);
        if rs.len() > 0 {
            lemma_file_total_prefix(rs.drop_last(), n - 1);
            assert(rs.drop_last().take(n - 1) =~= rs.drop_last());
        }
    }
}

/// Byte-wise lexicographic order, the order of `str` and `String`.
pub open spec fn bytes_lt(a: Seq<u8>, b: Seq<u8>) -> bool
    decreases a.len(),
{
    if a.len() == 0 {
        b.len() > 0
    } else if b.len() == 0 {
        false
    } else if a[0] < b[0] {
        true
    } else if a[0] > b[0] {
        false
    } else {
        bytes_lt(a.drop_first(), b.drop_first())
    }
}

/// The sort key of a report: the UTF-8 bytes of its tool name.
pub open spec fn name_key(r: ToolReport) -> Seq<u8> {
    encode_utf8(r.name@)
}

/// Reports are in non-decreasing order of name.
pub open spec fn sorted_by_name(s: Seq<ToolReport>) -> bool {
    forall|i: int, j: int|
        0 <= i < j < s.len() ==> !bytes_lt(name_key(#[trigger] s[j]), name_key(#[trigger] s[i]))
}

/// Reports of the list that share a tool name are the same report.
pub open spec fn same_name_same_report(s: Seq<ToolReport>) -> bool {
    forall|i: int, j: int|
        0 <= i < s.len() && 0 <= j < s.len() && (#[trigger] s[i]).name@ == (#[trigger] s[j]).name@
            ==> s[i] == s[j]
}

proof fn lemma_lt_irreflexive(a: Seq<u8>)
    ensures
        !bytes_lt(a, a),
    decreases a.len(),
{
    if a.len() > 0 {
        lemma_lt_irreflexive(a.drop_first());
    }
}

proof fn lemma_lt_transitive(a: Seq<u8>, b: Seq<u8>, c: Seq<u8>)
    requires
        bytes_lt(a, b),
        bytes_lt(b, c),
    ensures
        bytes_lt(a, c),
    decreases a.len(),
{
    if a.len() > 0 && b.len() > 0 && c.len() > 0 && a[0] == b[0] && b[0] == c[0] {
        lemma_lt_transitive(a.drop_first(), b.drop_first(), c.drop_first());
    }
}

proof fn lemma_lt_total(a: Seq<u8>, b: Seq<u8>)
    ensures
        a == b || bytes_lt(a, b) || bytes_lt(b, a),
    decreases a.len(),
{
    if a.len() > 0 && b.len() > 0 && a[0] == b[0] {
        lemma_lt_total(a.drop_first(), b.drop_first());
        if a.drop_first() == b.drop_first() {
            assert(a =~= seq![a[0]] + a.drop_first());
            assert(b =~= seq![b[0]] + b.drop_first());
        }
    } else if a.len() == 0 && b.len() == 0 {
        assert(a =~= b);
    }
}

fn name_less(a: &String, b: &String) -> (r: bool)
    ensures
        r == bytes_lt(encode_utf8(a@), encode_utf8(b@)),
{
    let x = a.as_str().as_bytes();
    let y = b.as_str().as_bytes();
    let ghost goal = bytes_lt(x@, y@);
    let mut i: usize = 0;
    assert(x@.skip(0) =~= x@ && y@.skip(0) =~= y@);
    while i < x.len() && i < y.len()
        invariant
            0 <= i <= x@.len(),
            i <= y@.len(),
            goal == bytes_lt(x@.skip(i as int), y@.skip(i as int)),
            goal == bytes_lt(encode_utf8(a@), encode_utf8(b@)),
        decreases x@.len() - i,
    {
        assert(x@.skip(i as int)[0] == x@[i as int]);
        assert(y@.skip(i as int)[0] == y@[i as int]);
        assert(x@.skip(i as int).len() > 0 && y@.skip(i as int).len() > 0);
        if x[i] < y[i] {
            assert(bytes_lt(x@.skip(i as int), y@.skip(i as int)));
            return true;
        }
        if x[i] > y[i] {
            assert(!bytes_lt(x@.skip(i as int), y@.skip(i as int)));
            return false;
        }
        assert(x@.skip(i as int).drop_first() =~= x@.skip(i as int + 1));
        assert(y@.skip(i as int).drop_first() =~= y@.skip(i as int + 1));
        i += 1;
    }
    i == x.len() && i < y.len()
}

/// `out` is `input` sorted by name: ordered, and holding the same reports.
pub open spec fn sorts_to(input: Seq<ToolReport>, out: Seq<ToolReport>) -> bool {
    sorted_by_name(out) && out.to_multiset() == input.to_multiset()
}

/// `pos` tells where each output report stood in the input: positions are
/// distinct, and reports with equal names keep their input order.
pub open spec fn stable_positions(input: Seq<ToolReport>, out: Seq<ToolReport>, pos: Seq<int>) -> bool {
    &&& pos.len() == out.len()
    &&& forall|q: int|
        0 <= q < out.len() ==> 0 <= #[trigger] pos[q] < input.len() && out[q] == input[pos[q]]
    &&& forall|q: int, q2: int|
        0 <= q < q2 < out.len() && name_key(#[trigger] out[q]) == name_key(#[trigger] out[q2])
            ==> pos[q] < pos[q2]
    &&& forall|q: int, q2: int| 0 <= q < out.len() && 0 <= q2 < out.len() && q != q2 ==> #[trigger] pos[q] != #[trigger] pos[q2]
}

/// Sorts reports by tool name, keeping the relative order of equal names.
pub fn sort_by_name(reports: Vec<ToolReport>) -> (r: Vec<ToolReport>)
    ensures
        sorts_to(reports@, r@),
        exists|pos: Seq<int>| stable_positions(reports@, r@, pos),
{
    let ghost orig = reports@;
    let mut rest = reports;
    let mut out: Vec<ToolReport> = Vec::new();
    let ghost mut k: int = 0;
    let ghost mut pos: Seq<int> = Seq::empty();
    while rest.len() > 0
        invariant
            0 <= k <= orig.len(),
            rest@ == orig.skip(k),
            out@.to_multiset() == orig.take(k).to_multiset(),
            sorted_by_name(out@),
            stable_positions(orig, out@, pos),
            forall|q: int| 0 <= q < pos.len() ==> #[trigger] pos[q] < k,
        decreases rest@.len(),
    {
        assert(orig.skip(k)[0] == orig[k]);
        let x = rest.remove(0);
        assert(rest@ =~= orig.skip(k + 1));
        let mut p: usize = 0;
        while p < out.len() && !name_less(&x.name, &out[p].name)
            invariant
                0 <= p <= out@.len(),
                forall|q: int| 0 <= q < p ==> !bytes_lt(name_key(x), name_key(#[trigger] out@[q])),
            decreases out@.len() - p,
        {
            p += 1;
        }
        let ghost old_out = out@;
        out.insert(p, x);
        proof {
            let new_pos = pos.insert(p as int, k);
            assert forall|q: int, q2: int|
                0 <= q < q2 < out@.len() && name_key(#[trigger] out@[q]) == name_key(
                    #[trigger] out@[q2],
                ) implies new_pos[q] < new_pos[q2] by {
                if q2 > p && q <= p {
                    let j = q2 - 1;
                    assert(out@[q2] == old_out[j]);
                    if q == p {
                        assert(name_key(old_out[j]) == name_key(x));
                    } else {
                        assert(out@[q] == old_out[q]);
                    }
                    if q == p {
                        assert(bytes_lt(name_key(x), name_key(old_out[p as int])));
                        if j == p {
                            lemma_lt_irreflexive(name_key(x));
                        } else {
                            assert(!bytes_lt(name_key(old_out[j]), name_key(old_out[p as int])));
                        }
                    } else {
                        assert(new_pos[q] == pos[q] && new_pos[q2] == pos[j]);
                    }
                } else if q2 == p {
                    assert(new_pos[q] == pos[q]);
                } else if q > p {
                    assert(out@[q] == old_out[q - 1] && out@[q2] == old_out[q2 - 1]);
                    assert(new_pos[q] == pos[q - 1] && new_pos[q2] == pos[q2 - 1]);
                } else {
                    assert(out@[q] == old_out[q] && out@[q2] == old_out[q2]);
                }
            }
            assert forall|q: int| 0 <= q < out@.len() implies 0 <= #[trigger] new_pos[q] < orig.len()
                && out@[q] == orig[new_pos[q]] by {
                if q < p {
                    assert(out@[q] == old_out[q]);
                } else if q > p {
                    assert(out@[q] == old_out[q - 1]);
                }
            }
            assert forall|q: int, q2: int|
                0 <= q < out@.len() && 0 <= q2 < out@.len() && q != q2 implies #[trigger] new_pos[q]
                != #[trigger] new_pos[q2] by {
                if q != p && q2 != p {
                    let a = if q < p { q } else { q - 1 };
                    let b = if q2 < p { q2 } else { q2 - 1 };
                    assert(new_pos[q] == pos[a] && new_pos[q2] == pos[b]);
                } else if q == p {
                    let b = if q2 < p { q2 } else { q2 - 1 };
                    assert(new_pos[q2] == pos[b]);
                } else {
                    let a = if q < p { q } else { q - 1 };
                    assert(new_pos[q] == pos[a]);
                }
            }
            assert forall|q: int| 0 <= q < new_pos.len() implies #[trigger] new_pos[q] < k + 1 by {
                if q < p {
                    assert(new_pos[q] == pos[q]);
                } else if q > p {
                    assert(new_pos[q] == pos[q - 1]);
                }
            }
            pos = new_pos;
            assert(orig.take(k + 1) =~= orig.take(k).push(x));
            assert forall|i: int, j: int| 0 <= i < j < out@.len() implies !bytes_lt(
                name_key(#[trigger] out@[j]),
                name_key(#[trigger] out@[i]),
            ) by {
                if j < p {
                    assert(out@[i] == old_out[i] && out@[j] == old_out[j]);
                } else if j == p {
                    assert(out@[i] == old_out[i]);
                } else if i > p {
                    assert(out@[i] == old_out[i - 1] && out@[j] == old_out[j - 1]);
                } else if i == p {
                    assert(out@[j] == old_out[j - 1]);
                    assert(bytes_lt(name_key(x), name_key(old_out[p as int])));
                    if bytes_lt(name_key(old_out[j - 1]), name_key(x)) {
                        lemma_lt_transitive(
                            name_key(old_out[j - 1]),
                            name_key(x),
                            name_key(old_out[p as int]),
                        );
                        if p == j - 1 {
                            lemma_lt_irreflexive(name_key(old_out[p as int]));
                        }
                    }
                } else {
                    assert(out@[i] == old_out[i] && out@[j] == old_out[j - 1]);
                }
            }
            k = k + 1;
        }
    }
    assert(orig.take(k) =~= orig);
    assert(stable_positions(orig, out@, pos));
    out
}

/// Every two reports of the multiset with the same name are the same.
pub open spec fn names_identify(m: Multiset<ToolReport>) -> bool {
    forall|e1: ToolReport, e2: ToolReport|
        #[trigger] m.count(e1) > 0 && #[trigger] m.count(e2) > 0 && e1.name@ == e2.name@ ==> e1
            == e2
}

proof fn lemma_sorted_unique(a: Seq<ToolReport>, b: Seq<ToolReport>)
    requires
        sorted_by_name(a),
        sorted_by_name(b),
        a.to_multiset() == b.to_multiset(),
        names_identify(a.to_multiset()),
    ensures
        a == b,
    decreases a.len(),
{
    broadcast use vstd::multiset::group_multiset_axioms;

    assert(a.len() == a.to_multiset().len());
    assert(b.len() == b.to_multiset().len());
    if a.len() == 0 {
        assert(a =~= b);
    } else {
        let a0 = a[0];
        let b0 = b[0];
        assert(a.contains(a0));
        assert(b.contains(b0));
        assert(a.to_multiset().count(a0) > 0);
        assert(b.contains(a0));
        assert(b.to_multiset().count(b0) > 0);
        assert(a.contains(b0));
        let k = choose|k: int| 0 <= k < b.len() && b[k] == a0;
        let m = choose|m: int| 0 <= m < a.len() && a[m] == b0;
        if m > 0 {
            assert(!bytes_lt(name_key(a[m]), name_key(a[0])));
        }
        if k > 0 {
            assert(!bytes_lt(name_key(b[k]), name_key(b[0])));
        }
        if m > 0 && k > 0 {
            lemma_lt_total(name_key(a0), name_key(b0));
        }
        if m == 0 {
            assert(a0 == b0);
        } else if k == 0 {
            assert(a0 == b0);
        } else {
            assert(name_key(a0) == name_key(b0));
            vstd::utf8::encode_utf8_decode_utf8(a0.name@);
            vstd::utf8::encode_utf8_decode_utf8(b0.name@);
            assert(a0.name@ == b0.name@);
            assert(a.to_multiset().count(b0) > 0);
            assert(a0 == b0);
        }
        let ra = a.drop_first();
        let rb = b.drop_first();
        assert(a.remove(0) =~= ra);
        assert(b.remove(0) =~= rb);
        assert(ra.to_multiset() == a.to_multiset().remove(a0));
        assert(rb.to_multiset() == b.to_multiset().remove(b0));
        assert forall|i: int, j: int| 0 <= i < j < ra.len() implies !bytes_lt(
            name_key(#[trigger] ra[j]),
            name_key(#[trigger] ra[i]),
        ) by {
            assert(ra[i] == a[i + 1] && ra[j] == a[j + 1]);
        }
        assert forall|i: int, j: int| 0 <= i < j < rb.len() implies !bytes_lt(
            name_key(#[trigger] rb[j]),
            name_key(#[trigger] rb[i]),
        ) by {
            assert(rb[i] == b[i + 1] && rb[j] == b[j + 1]);
        }
        assert forall|e1: ToolReport, e2: ToolReport|
            #[trigger] ra.to_multiset().count(e1) > 0 && #[trigger] ra.to_multiset().count(e2) > 0
                && e1.name@ == e2.name@ implies e1 == e2 by {
            assert(a.to_multiset().count(e1) > 0);
            assert(a.to_multiset().count(e2) > 0);
        }
        lemma_sorted_unique(ra, rb);
        assert(a =~= seq![a0] + ra);
        assert(b =~= seq![b0] + rb);
    }
}

/// The order of the reports does not depend on the order the tools
/// finished in: two lists holding the same reports sort to the same list,
/// provided reports that share a tool name are the same report.
pub proof fn lemma_report_order_deterministic(
    x: Seq<ToolReport>,
    y: Seq<ToolReport>,
    rx: Seq<ToolReport>,
    ry: Seq<ToolReport>,
)
    requires
        x.to_multiset() == y.to_multiset(),
        same_name_same_report(x),
        sorts_to(x, rx),
        sorts_to(y, ry),
    ensures
        rx == ry,
{
    assert forall|e1: ToolReport, e2: ToolReport|
        #[trigger] x.to_multiset().count(e1) > 0 && #[trigger] x.to_multiset().count(e2) > 0
            && e1.name@ == e2.name@ implies e1 == e2 by {
        assert(x.contains(e1));
        assert(x.contains(e2));
        let i = choose|i: int| 0 <= i < x.len() && x[i] == e1;
        let j = choose|j: int| 0 <= j < x.len() && x[j] == e2;
        assert(x[i].name@ == x[j].name@ ==> x[i] == x[j]);
    }
    lemma_sorted_unique(rx, ry);
}

} // verus!
