//! Splitting of a tool's files into batches that respect a command-line
//! length budget, and the folding of batch outcomes into tool results.

use vstd::prelude::*;
use vstd::utf8::encode_utf8;

verus! {

/// Byte budget of one command invocation: command, fixed arguments and
/// file paths together. Leaves headroom under common OS argument limits
/// for the environment.
pub const MAX_BATCH_BYTES: usize = 128 * 1024;

/// The encoded length of a string fits in a `usize`.
pub open spec fn byte_len_fits(s: Seq<char>) -> bool {
    encode_utf8(s).len() <= usize::MAX
}

/// Estimated bytes an argument takes: its UTF-8 length plus a terminator.
pub open spec fn arg_bytes(s: Seq<char>) -> int {
    encode_utf8(s).len() as int + 1
}

/// Sum of `arg_bytes` over a list of arguments.
pub open spec fn args_bytes(args: Seq<Seq<char>>) -> int
    decreases args.len(),
{
    if args.len() == 0 {
        0
    } else {
        args_bytes(args.drop_last()) + arg_bytes(args.last())
    }
}

/// Fixed cost of every invocation of a tool: the command and its arguments.
pub open spec fn base_bytes(cmd: Seq<char>, args: Seq<Seq<char>>) -> int {
    arg_bytes(cmd) + args_bytes(args)
}

/// The texts of a list of string slices.
pub open spec fn strs(v: Seq<&str>) -> Seq<Seq<char>> {
    v.map_values(|s: &str| s@)
}

/// The texts of a list of batches.
pub open spec fn batch_texts(v: Seq<Vec<&str>>) -> Seq<Seq<Seq<char>>> {
    v.map_values(|b: Vec<&str>| strs(b@))
}

/// Concatenation of a list of batches, in order.
pub open spec fn concat(bs: Seq<Seq<Seq<char>>>) -> Seq<Seq<char>>
    decreases bs.len(),
{
    if bs.len() == 0 {
        Seq::empty()
    } else {
        concat(bs.drop_last()) + bs.last()
    }
}

/// State of the greedy batching after the given files: the closed batches,
/// the open batch, and the bytes the open batch's invocation takes.
pub open spec fn batch_state(files: Seq<Seq<char>>, base: int, ceiling: int) -> (
    Seq<Seq<Seq<char>>>,
    Seq<Seq<char>>,
    int,
)
    decreases files.len(),
{
    if files.len() == 0 {
        (Seq::empty(), Seq::empty(), base)
    } else {
        let (done, cur, bytes) = batch_state(files.drop_last(), base, ceiling);
        let f = files.last();
        if cur.len() > 0 && bytes + arg_bytes(f) > ceiling {
            (done.push(cur), seq![f], base + arg_bytes(f))
        } else {
            (done, cur.push(f), bytes + arg_bytes(f))
        }
    }
}

/// The batches of the files: walking them in order, a file joins the open
/// batch unless the batch already holds a file and the file would take it
/// over the ceiling, in which case it opens a new batch.
pub open spec fn batches(files: Seq<Seq<char>>, base: int, ceiling: int) -> Seq<Seq<Seq<char>>> {
    let (done, cur, _) = batch_state(files, base, ceiling);
    if cur.len() > 0 {
        done.push(cur)
    } else {
        done
    }
}

proof fn lemma_args_bytes_nonneg(args: Seq<Seq<char>>)
    ensures
        args_bytes(args) >= 0,
    decreases args.len(),
{
    if args.len() > 0 {
        lemma_args_bytes_nonneg(args.drop_last());
    }
}

proof fn lemma_batch_state(files: Seq<Seq<char>>, base: int, ceiling: int)
    requires
        base >= 0,
    ensures
        ({
            let (done, cur, bytes) = batch_state(files, base, ceiling);
            &&& concat(done) + cur == files
            &&& forall|j: int| 0 <= j < done.len() ==> #[trigger] done[j].len() > 0
            &&& (cur.len() == 0 <==> files.len() == 0)
            &&& bytes >= base
        }),
    decreases files.len(),
{
    if files.len() > 0 {
        let rest = files.drop_last();
        lemma_batch_state(rest, base, ceiling);
        let (done, cur, bytes) = batch_state(rest, base, ceiling);
        let f = files.last();
        assert(rest.push(f) =~= files);
        if cur.len() > 0 && bytes + arg_bytes(f) > ceiling {
            assert(done.push(cur).drop_last() =~= done);
            assert(concat(done.push(cur)) =~= concat(done) + cur);
            assert(concat(done.push(cur)) + seq![f] =~= files);
        } else {
            assert(concat(done) + cur.push(f) =~= (concat(done) + cur).push(f));
        }
    }
}

proof fn lemma_done_grows(files: Seq<Seq<char>>, base: int, ceiling: int, m: int)
    requires
        0 <= m <= files.len(),
    ensures
        ({
            let dm = batch_state(files.take(m), base, ceiling).0;
            let dn = batch_state(files, base, ceiling).0;
            dm.len() <= dn.len() && dn.take(dm.len() as int) == dm
        }),
    decreases files.len(),
{
    let dn = batch_state(files, base, ceiling).0;
    if m < files.len() {
        let rest = files.drop_last();
        lemma_done_grows(rest, base, ceiling, m);
        assert(rest.take(m) =~= files.take(m));
        let dm = batch_state(files.take(m), base, ceiling).0;
        let dr = batch_state(rest, base, ceiling).0;
        if dn.len() > dr.len() {
            assert(dn.take(dm.len() as int) =~= dr.take(dm.len() as int));
        }
    } else {
        assert(files.take(m) =~= files);
        assert(dn.take(dn.len() as int) =~= dn);
    }
}

/// Batching keeps every file once and in order: the batches concatenate
/// back to the file list, and none of them is empty.
pub proof fn lemma_batches_complete(
    cmd: Seq<char>,
    args: Seq<Seq<char>>,
    files: Seq<Seq<char>>,
    ceiling: int,
)
    ensures
        concat(batches(files, base_bytes(cmd, args), ceiling)) == files,
        forall|j: int|
            0 <= j < batches(files, base_bytes(cmd, args), ceiling).len() ==> (#[trigger] batches(
                files,
                base_bytes(cmd, args),
                ceiling,
            )[j]).len() > 0,
{
    let base = base_bytes(cmd, args);
    lemma_args_bytes_nonneg(args);
    lemma_batch_state(files, base, ceiling);
    let (done, cur, _) = batch_state(files, base, ceiling);
    if cur.len() > 0 {
        assert(done.push(cur).drop_last() =~= done);
    }
}

/// A file whose own argument bytes exceed the ceiling is not dropped: the
/// batch at its position holds it and nothing else.
pub proof fn lemma_oversized_file_alone(
    cmd: Seq<char>,
    args: Seq<Seq<char>>,
    files: Seq<Seq<char>>,
    ceiling: int,
    i: int,
)
    requires
        0 <= i < files.len(),
        arg_bytes(files[i]) > ceiling,
    ensures
        exists|b: int|
            0 <= b < batches(files, base_bytes(cmd, args), ceiling).len() && #[trigger] batches(
                files,
                base_bytes(cmd, args),
                ceiling,
            )[b] == seq![files[i]] && concat(
                batches(files, base_bytes(cmd, args), ceiling).take(b),
            ).len() == i,
{
    let base = base_bytes(cmd, args);
    lemma_args_bytes_nonneg(args);
    let bs = batches(files, base, ceiling);
    let f = files[i];
    let pre = files.take(i + 1);
    assert(pre.drop_last() =~= files.take(i));
    lemma_batch_state(files.take(i), base, ceiling);
    lemma_batch_state(pre, base, ceiling);
    let (sd, sc, sb) = batch_state(pre, base, ceiling);
    assert(sc =~= seq![f]);
    assert(sb > ceiling);
    assert(concat(sd).len() == i) by {
        assert((concat(sd) + sc).len() == pre.len());
    }
    let b = sd.len() as int;
    if i + 1 == files.len() {
        assert(pre =~= files);
        assert(bs.take(b) =~= sd);
        assert(bs[b] == seq![f]);
    } else {
        let pre2 = files.take(i + 2);
        assert(pre2.drop_last() =~= pre);
        let d2 = batch_state(pre2, base, ceiling).0;
        assert(d2 == sd.push(sc));
        lemma_done_grows(files, base, ceiling, i + 2);
        lemma_batch_state(files, base, ceiling);
        let (dn, cn, _) = batch_state(files, base, ceiling);
        assert(dn.take(d2.len() as int) == d2);
        assert(dn[b] == d2[b]);
        assert(dn.take(b) =~= d2.take(b));
        assert(d2.take(b) =~= sd);
        if cn.len() > 0 {
            assert(bs.take(b) =~= dn.take(b));
        }
        assert(bs[b] == seq![f]);
        assert(bs.take(b) =~= sd);
    }
}

/// Outcome of one process invocation.
pub struct BatchResult {
    /// The command exited with status zero.
    pub success: bool,
    /// Captured standard output.
    pub stdout: String,
    /// Captured standard error.
    pub stderr: String,
    /// The command line, when it was asked for; empty otherwise.
    pub command: String,
}

/// Outcome of all batches of one tool.
pub struct ToolResult {
    /// Every batch succeeded.
    pub success: bool,
    /// Batch results in batch creation order.
    pub batches: Vec<BatchResult>,
}

/// A process that could not be launched for a reason other than the length
/// of its argument list.
pub struct ExecError {
    /// The command that failed to launch.
    pub command: String,
    /// Description of the failure.
    pub message: String,
}

/// Whether every batch of the list succeeded.
pub open spec fn all_batches_ok(bs: Seq<BatchResult>) -> bool {
    forall|k: int| 0 <= k < bs.len() ==> (#[trigger] bs[k]).success
}

spec fn sat(x: int) -> int {
    if x > usize::MAX {
        usize::MAX as int
    } else {
        x
    }
}

fn arg_len(s: &str) -> (r: usize)
    requires
        byte_len_fits(s@),
    ensures
        r == sat(arg_bytes(s@)),
{
    let n = s.len();
    if n == usize::MAX {
        usize::MAX
    } else {
        n + 1
    }
}

fn add_sat(a: usize, b: usize) -> (r: usize)
    ensures
        r == sat(a + b),
{
    if a > usize::MAX - b {
        usize::MAX
    } else {
        a + b
    }
}

/// Splits `files` into batches for invocations of `cmd` with `args`, each
/// within `ceiling` bytes unless a single file alone goes over it.
pub fn create_batches<'a>(cmd: &str, args: &[String], files: &[&'a str], ceiling: usize) -> (r: Vec<
    Vec<&'a str>,
>)
    requires
        byte_len_fits(cmd@),
        forall|k: int| 0 <= k < args@.len() ==> byte_len_fits(#[trigger] args@[k]@),
        forall|k: int| 0 <= k < files@.len() ==> byte_len_fits(#[trigger] files@[k]@),
    ensures
        batch_texts(r@) == batches(
            strs(files@),
            base_bytes(cmd@, args@.map_values(|a: String| a@)),
            ceiling as int,
        ),
{
    let ghost arg_texts = args@.map_values(|a: String| a@);
    let ghost paths = strs(files@);
    let mut base = arg_len(cmd);
    let mut k: usize = 0;
    while k < args.len()
        invariant
            0 <= k <= args@.len(),
            arg_texts == args@.map_values(|a: String| a@),
            forall|j: int| 0 <= j < args@.len() ==> byte_len_fits(#[trigger] args@[j]@),
            base == sat(arg_bytes(cmd@) + args_bytes(arg_texts.take(k as int))),
        decreases args@.len() - k,
    {
        assert(arg_texts.take(k as int + 1).drop_last() =~= arg_texts.take(k as int));
        assert(arg_texts.take(k as int + 1).last() == args@[k as int]@);
        let n = arg_len(args[k].as_str());
        base = add_sat(base, n);
        k += 1;
    }
    assert(arg_texts.take(args@.len() as int) =~= arg_texts);
    let ghost base_int = base_bytes(cmd@, arg_texts);
    proof {
        lemma_args_bytes_nonneg(arg_texts);
        assert(paths.take(0) =~= Seq::<Seq<char>>::empty());
    }

    let mut done: Vec<Vec<&'a str>> = Vec::new();
    let mut current: Vec<&'a str> = Vec::new();
    let mut cur_bytes = base;
    let mut i: usize = 0;
    while i < files.len()
        invariant
            0 <= i <= files@.len(),
            paths == strs(files@),
            forall|j: int| 0 <= j < files@.len() ==> byte_len_fits(#[trigger] files@[j]@),
            base == sat(base_int),
            base_int >= 1,
            batch_state(paths.take(i as int), base_int, ceiling as int) == (
                batch_texts(done@),
                strs(current@),
                batch_state(paths.take(i as int), base_int, ceiling as int).2,
            ),
            cur_bytes == sat(batch_state(paths.take(i as int), base_int, ceiling as int).2),
            batch_state(paths.take(i as int), base_int, ceiling as int).2 >= 1,
        decreases files@.len() - i,
    {
        let ghost prev = batch_state(paths.take(i as int), base_int, ceiling as int);
        assert(paths.take(i as int + 1).drop_last() =~= paths.take(i as int));
        assert(paths.take(i as int + 1).last() == files@[i as int]@);
        let f = files[i];
        let fb = arg_len(f);
        if current.len() > 0 && (cur_bytes > ceiling || fb > ceiling - cur_bytes) {
            done.push(current);
            current = Vec::new();
            current.push(f);
            cur_bytes = add_sat(base, fb);
            assert(batch_texts(done@) =~= prev.0.push(prev.1));
            assert(strs(current@) =~= seq![f@]);
        } else {
            current.push(f);
            cur_bytes = add_sat(cur_bytes, fb);
            assert(strs(current@) =~= prev.1.push(f@));
        }
        i += 1;
    }
    assert(paths.take(files@.len() as int) =~= paths);
    if current.len() > 0 {
        done.push(current);
        assert(batch_texts(done@) =~= batch_state(paths, base_int, ceiling as int).0.push(
            batch_state(paths, base_int, ceiling as int).1,
        ));
    }
    done
}

/// The batch results held by a list of outcomes that are all `Ok`.
pub open spec fn oks(rs: Seq<Result<BatchResult, ExecError>>) -> Seq<BatchResult> {
    rs.map_values(|r: Result<BatchResult, ExecError>| r->Ok_0)
}

/// Folds the outcomes of a tool's batches, given in batch creation order,
/// into the tool's result. The first hard error, if any, is returned
/// instead; otherwise the tool succeeds iff every batch did.
pub fn collect_tool_result(results: Vec<Result<BatchResult, ExecError>>) -> (r: Result<
    ToolResult,
    ExecError,
>)
    ensures
        r is Ok <==> forall|k: int| 0 <= k < results@.len() ==> #[trigger] results@[k] is Ok,
        r matches Ok(t) ==> t.batches@ == oks(results@) && t.success == all_batches_ok(
            t.batches@,
        ),
        r matches Err(e) ==> exists|k: int|
            0 <= k < results@.len() && results@[k] == Err::<BatchResult, ExecError>(e) && forall|
                j: int,
            | 0 <= j < k ==> #[trigger] results@[j] is Ok,
{
    let ghost orig = results@;
    let mut rest = results;
    let mut batches: Vec<BatchResult> = Vec::new();
    let mut success = true;
    let ghost mut k: int = 0;
    while rest.len() > 0
        invariant
            0 <= k <= orig.len(),
            orig == results@,
            rest@ == orig.skip(k),
            forall|j: int| 0 <= j < k ==> #[trigger] orig[j] is Ok,
            batches@ == oks(orig.take(k)),
            success == all_batches_ok(batches@),
        decreases rest@.len(),
    {
        assert(orig.skip(k)[0] == orig[k]);
        let item = rest.remove(0);
        assert(rest@ =~= orig.skip(k + 1));
        match item {
            Ok(b) => {
                let ghost before = batches@;
                let ok = b.success;
                batches.push(b);
                if !ok {
                    success = false;
                }
                proof {
                    assert(batches@ =~= oks(orig.take(k + 1)));
                    assert(batches@ == before.push(batches@.last()));
                    if success {
                        assert forall|j: int| 0 <= j < batches@.len() implies (#[trigger] batches@[j]).success by {
                            if j < before.len() {
                                assert(batches@[j] == before[j]);
                            }
                        }
                    } else {
                        if ok {
                            let w = choose|j: int| 0 <= j < before.len() && !(#[trigger] before[j]).success;
                            assert(batches@[w] == before[w]);
                        }
                        assert(!all_batches_ok(batches@));
                    }
                }
            },
            Err(e) => {
                assert(orig[k] == Err::<BatchResult, ExecError>(e));
                assert(!(orig[k] is Ok));
                return Err(e);
            },
        }
        proof {
            k = k + 1;
        }
    }
    assert(orig.take(k) =~= orig);
    Ok(ToolResult { success, batches })
}

/// Texts joined with single spaces.
pub open spec fn join_spaced(ws: Seq<Seq<char>>) -> Seq<char>
    decreases ws.len(),
{
    if ws.len() == 0 {
        Seq::empty()
    } else if ws.len() == 1 {
        ws[0]
    } else {
        join_spaced(ws.drop_last()) + seq![' '] + ws.last()
    }
}

/// The command line shown for a batch: the command, the arguments joined
/// by spaces, and the files joined by spaces, separated by spaces.
pub open spec fn command_line_text(cmd: Seq<char>, args: Seq<Seq<char>>, files: Seq<Seq<char>>) -> Seq<char> {
    cmd + seq![' '] + join_spaced(args) + seq![' '] + join_spaced(files)
}

fn append_joined(out: &mut String, ws: &[String])
    ensures
        final(out)@ == old(out)@ + join_spaced(ws@.map_values(|a: String| a@)),
{
    let ghost texts = ws@.map_values(|a: String| a@);
    let ghost start = out@;
    let mut k: usize = 0;
    while k < ws.len()
        invariant
            0 <= k <= ws@.len(),
            texts == ws@.map_values(|a: String| a@),
            out@ == start + join_spaced(texts.take(k as int)),
        decreases ws@.len() - k,
    {
        assert(texts.take(k as int + 1).drop_last() =~= texts.take(k as int));
        if k > 0 {
            out.append(" ");
            proof {
                reveal_strlit(" ");
            }
        }
        out.append(ws[k].as_str());
        assert(out@ =~= start + join_spaced(texts.take(k as int + 1)));
        k += 1;
    }
    assert(texts.take(k as int) =~= texts);
}

fn append_joined_strs(out: &mut String, ws: &[&str])
    ensures
        final(out)@ == old(out)@ + join_spaced(strs(ws@)),
{
    let ghost texts = strs(ws@);
    let ghost start = out@;
    let mut k: usize = 0;
    while k < ws.len()
        invariant
            0 <= k <= ws@.len(),
            texts == strs(ws@),
            out@ == start + join_spaced(texts.take(k as int)),
        decreases ws@.len() - k,
    {
        assert(texts.take(k as int + 1).drop_last() =~= texts.take(k as int));
        if k > 0 {
            out.append(" ");
            proof {
                reveal_strlit(" ");
            }
        }
        out.append(ws[k]);
        assert(out@ =~= start + join_spaced(texts.take(k as int + 1)));
        k += 1;
    }
    assert(texts.take(k as int) =~= texts);
}

/// The command line of a batch when `verbose` is set, an empty string
/// otherwise.
pub fn verbose_command(verbose: bool, cmd: &str, args: &[String], files: &[&str]) -> (r: String)
    ensures
        verbose ==> r@ == command_line_text(cmd@, args@.map_values(|a: String| a@), strs(files@)),
        !verbose ==> r@.len() == 0,
{
    if !verbose {
        return String::new();
    }
    let mut out = cmd.to_owned();
    out.append(" ");
    append_joined(&mut out, args);
    out.append(" ");
    append_joined_strs(&mut out, files);
    proof {
        reveal_strlit(" ");
    }
    out
}

/// The message a platform gives when an argument list is over its limit.
pub open spec fn arg_list_too_long_text() -> Seq<char> {
    "Argument list too long"@
}

/// `n` occurs in `h` starting at position `i`.
pub open spec fn occurs_at(h: Seq<u8>, n: Seq<u8>, i: int) -> bool {
    0 <= i && i + n.len() <= h.len() && h.subrange(i, i + n.len()) == n
}

/// `n` occurs somewhere in `h`.
pub open spec fn occurs_in(h: Seq<u8>, n: Seq<u8>) -> bool {
    exists|i: int| #[trigger] occurs_at(h, n, i)
}

fn matches_at(h: &[u8], n: &[u8], i: usize) -> (r: bool)
    requires
        i + n@.len() <= h@.len(),
        h@.len() <= usize::MAX,
    ensures
        r == occurs_at(h@, n@, i as int),
{
    let mut k: usize = 0;
    assert(h@.subrange(i as int, i as int) =~= n@.subrange(0, 0));
    while k < n.len()
        invariant
            i + n@.len() <= h@.len(),
            h@.len() <= usize::MAX,
            0 <= k <= n@.len(),
            h@.subrange(i as int, i + k) == n@.subrange(0, k as int),
        decreases n@.len() - k,
    {
        if h[i + k] != n[k] {
            assert(h@.subrange(i as int, i + n@.len())[k as int] == h@[i + k]);
            return false;
        }
        assert(h@.subrange(i as int, i + k + 1) =~= n@.subrange(0, k + 1));
        k += 1;
    }
    assert(n@.subrange(0, n@.len() as int) =~= n@);
    true
}

fn bytes_contain(h: &[u8], n: &[u8]) -> (r: bool)
    ensures
        r == occurs_in(h@, n@),
{
    if n.len() > h.len() {
        return false;
    }
    let last = h.len() - n.len();
    let mut i: usize = 0;
    while i < last
        invariant
            last == h@.len() - n@.len(),
            h@.len() <= usize::MAX,
            0 <= i <= last,
            forall|j: int| 0 <= j < i ==> !#[trigger] occurs_at(h@, n@, j),
        decreases last - i,
    {
        if matches_at(h, n, i) {
            return true;
        }
        i += 1;
    }
    if matches_at(h, n, last) {
        return true;
    }
    assert forall|j: int| !#[trigger] occurs_at(h@, n@, j) by {
        if 0 <= j < last {
        }
    }
    false
}

/// Whether a failed launch is a soft failure: the argument list was too
/// long, reported either as an invalid-input error or by its message.
pub open spec fn launch_failure_is_soft(invalid_input: bool, message: Seq<char>) -> bool {
    invalid_input || occurs_in(encode_utf8(message), encode_utf8(arg_list_too_long_text()))
}

/// Turns a failed launch into a failed batch result when it is soft (the
/// argument list was too long), and into a hard error naming `cmd`
/// otherwise. `invalid_input` tells whether the platform classed the error
/// as invalid input.
pub fn launch_failure(invalid_input: bool, message: String, cmd: &str, command: String) -> (r: Result<
    BatchResult,
    ExecError,
>)
    ensures
        r is Ok <==> launch_failure_is_soft(invalid_input, message@),
        r matches Ok(b) ==> !b.success && b.stdout@.len() == 0 && b.stderr@ == message@
            && b.command == command,
        r matches Err(e) ==> e.command@ == cmd@ && e.message == message,
{
    let soft = invalid_input || bytes_contain(
        message.as_str().as_bytes(),
        "Argument list too long".as_bytes(),
    );
    if soft {
        Ok(BatchResult { success: false, stdout: String::new(), stderr: message, command })
    } else {
        Err(ExecError { command: cmd.to_owned(), message })
    }
}

} // verus!
