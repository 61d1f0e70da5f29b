//! Path handling for files listed by version control.

use crate::exec::occurs_at;
use vstd::prelude::*;
use vstd::utf8::*;

verus! {

/// The path starts at the root directory (its first byte is `/`).
pub open spec fn is_absolute(s: Seq<char>) -> bool {
    encode_utf8(s).len() > 0 && encode_utf8(s)[0] == 47u8
}

/// The path ends with a directory separator.
pub open spec fn ends_with_separator(s: Seq<char>) -> bool {
    encode_utf8(s).len() > 0 && encode_utf8(s).last() == 47u8
}

/// `base` joined with `path`: `path` itself when it is absolute, else
/// `base`, a separator unless `base` already ends with one, and `path`.
pub open spec fn join_path(base: Seq<char>, path: Seq<char>) -> Seq<char> {
    if is_absolute(path) {
        path
    } else if ends_with_separator(base) {
        base + path
    } else {
        base + seq!['/'] + path
    }
}

/// Prefixes paths listed from a subdirectory with that subdirectory, so
/// that they are relative to the repository root. An empty prefix leaves
/// the list as it is.
pub fn prepend_prefix(files: Vec<String>, prefix: &str) -> (r: Vec<String>)
    ensures
        prefix@.len() == 0 ==> r@ == files@,
        prefix@.len() > 0 ==> r@.len() == files@.len() && forall|k: int|
            0 <= k < r@.len() ==> (#[trigger] r@[k])@ == join_path(prefix@, files@[k]@),
{
    if prefix.is_empty() {
        return files;
    }
    let pb = prefix.as_bytes();
    let sep = pb[pb.len() - 1] == 47u8;
    let mut out: Vec<String> = Vec::new();
    let mut k: usize = 0;
    while k < files.len()
        invariant
            prefix@.len() > 0,
            pb@ == encode_utf8(prefix@),
            sep == ends_with_separator(prefix@),
            0 <= k <= files@.len(),
            out@.len() == k,
            forall|j: int| 0 <= j < k ==> (#[trigger] out@[j])@ == join_path(prefix@, files@[j]@),
        decreases files@.len() - k,
    {
        let f = files[k].as_str();
        let fb = f.as_bytes();
        let joined = if fb.len() > 0 && fb[0] == 47u8 {
            f.to_owned()
        } else {
            let mut s = prefix.to_owned();
            if !sep {
                s.append("/");
                proof {
                    reveal_strlit("/");
                }
            }
            s.append(f);
            s
        };
        out.push(joined);
        k += 1;
    }
    out
}

broadcast use vstd::utf8::group_utf8_lib;

/// Splits off the first byte of a text that starts with an ASCII byte.
fn after_ascii(s: &str) -> (r: &str)
    requires
        encode_utf8(s@).len() > 0,
        encode_utf8(s@)[0] < 128u8,
    ensures
        encode_utf8(r@) == encode_utf8(s@).drop_first(),
{
    proof {
        encode_utf8_valid_utf8(s@);
        reveal_with_fuel(is_char_boundary, 2);
        assert(is_char_boundary(encode_utf8(s@), 1));
    }
    let (_, tail) = s.split_at(1);
    tail
}

/// Position of the first `c` at or after `i`, or the length when none.
pub open spec fn find_byte(b: Seq<u8>, i: int, c: u8) -> int
    decreases b.len() - i,
{
    if i >= b.len() {
        b.len() as int
    } else if b[i] == c {
        i
    } else {
        find_byte(b, i + 1, c)
    }
}

/// The first line of a non-empty text: up to the first line feed, without
/// the carriage return that may stand before that line feed.
pub open spec fn first_line(b: Seq<u8>) -> Seq<u8> {
    let e = find_byte(b, 0, 10u8);
    let l = b.subrange(0, e);
    if e < b.len() && l.len() > 0 && l.last() == 13u8 {
        l.drop_last()
    } else {
        l
    }
}

/// What follows the first line feed of the text, empty when there is none.
pub open spec fn after_first_line(b: Seq<u8>) -> Seq<u8> {
    let e = find_byte(b, 0, 10u8);
    if 0 <= e < b.len() {
        b.subrange(e + 1, b.len() as int)
    } else {
        Seq::empty()
    }
}

/// The non-empty lines of a text, as `str::lines` splits it: one path per
/// line of a listing.
pub open spec fn listed(b: Seq<u8>) -> Seq<Seq<u8>>
    decreases b.len(),
{
    if b.len() == 0 {
        Seq::empty()
    } else {
        let e = find_byte(b, 0, 10u8);
        let head = if first_line(b).len() > 0 {
            seq![first_line(b)]
        } else {
            Seq::empty()
        };
        if 0 <= e < b.len() {
            head + listed(b.subrange(e + 1, b.len() as int))
        } else {
            head
        }
    }
}

fn find_byte_exec(b: &[u8], c: u8) -> (r: usize)
    ensures
        r == find_byte(b@, 0, c),
        r <= b@.len(),
        r < b@.len() ==> b@[r as int] == c,
{
    let mut j: usize = 0;
    while j < b.len() && b[j] != c
        invariant
            0 <= j <= b@.len(),
            find_byte(b@, 0, c) == find_byte(b@, j as int, c),
        decreases b@.len() - j,
    {
        j += 1;
    }
    j
}

/// Splits a text at a position holding an ASCII byte, or at its end.
fn split_at_ascii(s: &str, i: usize) -> (r: (&str, &str))
    requires
        i <= encode_utf8(s@).len(),
        i < encode_utf8(s@).len() ==> encode_utf8(s@)[i as int] < 128u8,
    ensures
        encode_utf8(r.0@) == encode_utf8(s@).subrange(0, i as int),
        encode_utf8(r.1@) == encode_utf8(s@).subrange(i as int, encode_utf8(s@).len() as int),
{
    proof {
        encode_utf8_valid_utf8(s@);
        is_char_boundary_start_end_of_seq(encode_utf8(s@));
        if i < encode_utf8(s@).len() {
            is_char_boundary_iff_not_is_continuation_byte(encode_utf8(s@), i as int);
        }
    }
    s.split_at(i)
}

/// The first line of a non-empty text, and the text after it.
fn split_first_line(s: &str) -> (r: (&str, &str))
    requires
        encode_utf8(s@).len() > 0,
    ensures
        encode_utf8(r.0@) == first_line(encode_utf8(s@)),
        encode_utf8(r.1@) == after_first_line(encode_utf8(s@)),
        encode_utf8(r.1@).len() < encode_utf8(s@).len(),
{
    let b = s.as_bytes();
    let e = find_byte_exec(b, 10u8);
    let (line, tail) = split_at_ascii(s, e);
    let line = if e < b.len() && e > 0 && b[e - 1] == 13u8 {
        let (l, _) = split_at_ascii(line, e - 1);
        assert(encode_utf8(l@) =~= first_line(b@));
        l
    } else {
        assert(encode_utf8(line@) =~= first_line(b@));
        line
    };
    if e < b.len() {
        let next = after_ascii(tail);
        assert(encode_utf8(next@) =~= after_first_line(b@));
        (line, next)
    } else {
        let empty = "";
        proof {
            reveal_strlit("");
            assert(encode_utf8(empty@) =~= after_first_line(b@));
        }
        (line, empty)
    }
}

/// The paths of a listing with one path per line, blank lines left out.
pub fn listed_paths(out: &str) -> (r: Vec<String>)
    ensures
        r@.len() == listed(encode_utf8(out@)).len(),
        forall|k: int|
            0 <= k < r@.len() ==> encode_utf8((#[trigger] r@[k])@) == listed(encode_utf8(out@))[k],
{
    let mut rest = out;
    let mut paths: Vec<String> = Vec::new();
    let ghost whole = encode_utf8(out@);
    let ghost mut got: Seq<Seq<u8>> = Seq::empty();
    assert(listed(whole) =~= got + listed(encode_utf8(rest@)));
    while !rest.is_empty()
        invariant
            listed(whole) == got + listed(encode_utf8(rest@)),
            paths@.len() == got.len(),
            forall|k: int| 0 <= k < paths@.len() ==> encode_utf8((#[trigger] paths@[k])@) == got[k],
        decreases encode_utf8(rest@).len(),
    {
        let ghost rb = encode_utf8(rest@);
        let (line, next) = split_first_line(rest);
        let ghost head = if first_line(rb).len() > 0 {
            seq![first_line(rb)]
        } else {
            Seq::empty()
        };
        assert(listed(rb) =~= head + listed(encode_utf8(next@)));
        if !line.is_empty() {
            paths.push(line.to_owned());
        }
        proof {
            assert(listed(whole) =~= (got + head) + listed(encode_utf8(next@)));
            got = got + head;
        }
        rest = next;
    }
    assert(listed(encode_utf8(rest@)) =~= Seq::<Seq<u8>>::empty());
    assert(got =~= listed(whole));
    paths
}

/// Whitespace as the Unicode `White_Space` property defines it.
pub open spec fn is_white_space(c: char) -> bool {
    ||| '\u{9}' <= c <= '\u{d}'
    ||| c == ' '
    ||| c == '\u{85}'
    ||| c == '\u{a0}'
    ||| c == '\u{1680}'
    ||| '\u{2000}' <= c <= '\u{200a}'
    ||| c == '\u{2028}'
    ||| c == '\u{2029}'
    ||| c == '\u{202f}'
    ||| c == '\u{205f}'
    ||| c == '\u{3000}'
}

/// The text without its leading whitespace.
pub open spec fn trim_start_chars(s: Seq<char>) -> Seq<char>
    decreases s.len(),
{
    if s.len() > 0 && is_white_space(s[0]) {
        trim_start_chars(s.drop_first())
    } else {
        s
    }
}

/// The text without its trailing whitespace.
pub open spec fn trim_end_chars(s: Seq<char>) -> Seq<char>
    decreases s.len(),
{
    if s.len() > 0 && is_white_space(s.last()) {
        trim_end_chars(s.drop_last())
    } else {
        s
    }
}

/// The text without leading and trailing whitespace.
pub open spec fn trimmed(s: Seq<char>) -> Seq<char> {
    trim_end_chars(trim_start_chars(s))
}

/// Relies on str::trim: it removes the leading and trailing characters
/// that have the Unicode White_Space property.
#[verifier::external_body]
fn trim_str(s: &str) -> (r: &str)
    ensures
        r@ == trimmed(s@),
{
    s.trim()
}

/// The bytes of ` -> `, which separates the old and new path of a rename.
pub open spec fn arrow() -> Seq<u8> {
    seq![32u8, 45u8, 62u8, 32u8]
}

/// The last position before `n` where ` -> ` starts, if any.
pub open spec fn last_arrow_before(p: Seq<u8>, n: int) -> Option<int>
    decreases n,
{
    if n <= 0 {
        None
    } else if occurs_at(p, arrow(), n - 1) {
        Some(n - 1)
    } else {
        last_arrow_before(p, n - 1)
    }
}

/// The new path of a rename entry (after the last ` -> `), or the path
/// itself.
pub open spec fn rename_target(p: Seq<u8>) -> Seq<u8> {
    match last_arrow_before(p, p.len() as int) {
        Some(i) => p.subrange(i + 4, p.len() as int),
        None => p,
    }
}

/// The path a status line names, if it is kept: the line has a two-byte
/// status, a separator and a path (the three first bytes ASCII), the
/// status holds no `D` (deleted), and the path, trimmed and taken after
/// the last ` -> `, is not empty.
pub open spec fn status_entry(l: Seq<u8>) -> Option<Seq<u8>> {
    if l.len() >= 3 && l[0] < 128u8 && l[1] < 128u8 && l[2] < 128u8 && l[0] != 68u8 && l[1]
        != 68u8 {
        let path = rename_target(encode_utf8(trimmed(decode_utf8(l.subrange(3, l.len() as int)))));
        if path.len() > 0 {
            Some(path)
        } else {
            None
        }
    } else {
        None
    }
}

/// The paths that the status lines of a text name, in line order.
pub open spec fn status_entries(b: Seq<u8>) -> Seq<Seq<u8>>
    decreases b.len(),
{
    if b.len() == 0 {
        Seq::empty()
    } else {
        let e = find_byte(b, 0, 10u8);
        let head = match status_entry(first_line(b)) {
            Some(p) => seq![p],
            None => Seq::empty(),
        };
        if 0 <= e < b.len() {
            head + status_entries(b.subrange(e + 1, b.len() as int))
        } else {
            head
        }
    }
}

/// Rank of a byte in path order: the separator before every other byte,
/// so that paths compare component by component.
pub open spec fn path_rank(x: u8) -> int {
    if x == 47u8 {
        0
    } else {
        x as int + 1
    }
}

/// Path order: lexicographic by `path_rank`.
pub open spec fn path_lt(a: Seq<u8>, b: Seq<u8>) -> bool
    decreases a.len(),
{
    if a.len() == 0 {
        b.len() > 0
    } else if b.len() == 0 {
        false
    } else if path_rank(a[0]) < path_rank(b[0]) {
        true
    } else if path_rank(a[0]) > path_rank(b[0]) {
        false
    } else {
        path_lt(a.drop_first(), b.drop_first())
    }
}

proof fn lemma_path_lt_irreflexive(a: Seq<u8>)
    ensures
        !path_lt(a, a),
    decreases a.len(),
{
    if a.len() > 0 {
        lemma_path_lt_irreflexive(a.drop_first());
    }
}

proof fn lemma_path_lt_transitive(a: Seq<u8>, b: Seq<u8>, c: Seq<u8>)
    requires
        path_lt(a, b),
        path_lt(b, c),
    ensures
        path_lt(a, c),
    decreases a.len(),
{
    if a.len() > 0 && b.len() > 0 && c.len() > 0 && path_rank(a[0]) == path_rank(b[0])
        && path_rank(b[0]) == path_rank(c[0]) {
        lemma_path_lt_transitive(a.drop_first(), b.drop_first(), c.drop_first());
    }
}

proof fn lemma_path_lt_total(a: Seq<u8>, b: Seq<u8>)
    ensures
        a == b || path_lt(a, b) || path_lt(b, a),
    decreases a.len(),
{
    if a.len() > 0 && b.len() > 0 && path_rank(a[0]) == path_rank(b[0]) {
        lemma_path_lt_total(a.drop_first(), b.drop_first());
        if a.drop_first() == b.drop_first() {
            assert(a =~= seq![a[0]] + a.drop_first());
            assert(b =~= seq![b[0]] + b.drop_first());
        }
    } else if a.len() == 0 && b.len() == 0 {
        assert(a =~= b);
    }
}

fn path_less(a: &[u8], b: &[u8]) -> (r: bool)
    ensures
        r == path_lt(a@, b@),
{
    let ghost goal = path_lt(a@, b@);
    let mut i: usize = 0;
    assert(a@.skip(0) =~= a@ && b@.skip(0) =~= b@);
    while i < a.len() && i < b.len()
        invariant
            0 <= i <= a@.len(),
            i <= b@.len(),
            goal == path_lt(a@.skip(i as int), b@.skip(i as int)),
            goal == path_lt(a@, b@),
        decreases a@.len() - i,
    {
        assert(a@.skip(i as int)[0] == a@[i as int]);
        assert(b@.skip(i as int)[0] == b@[i as int]);
        assert(a@.skip(i as int).len() > 0 && b@.skip(i as int).len() > 0);
        let x: u16 = if a[i] == 47u8 {
            0
        } else {
            a[i] as u16 + 1
        };
        let y: u16 = if b[i] == 47u8 {
            0
        } else {
            b[i] as u16 + 1
        };
        if x < y {
            assert(path_lt(a@.skip(i as int), b@.skip(i as int)));
            return true;
        }
        if x > y {
            assert(!path_lt(a@.skip(i as int), b@.skip(i as int)));
            return false;
        }
        assert(a@.skip(i as int).drop_first() =~= a@.skip(i as int + 1));
        assert(b@.skip(i as int).drop_first() =~= b@.skip(i as int + 1));
        i += 1;
    }
    i == a.len() && i < b.len()
}

/// The bytes of each string of a list.
pub open spec fn byte_texts(v: Seq<String>) -> Seq<Seq<u8>> {
    v.map_values(|s: String| encode_utf8(s@))
}

/// The list is strictly increasing in path order.
pub open spec fn strictly_sorted(v: Seq<Seq<u8>>) -> bool {
    forall|i: int, j: int| 0 <= i < j < v.len() ==> path_lt(#[trigger] v[i], #[trigger] v[j])
}

/// Adds a path to a strictly sorted list unless it is already there.
fn insert_sorted(v: &mut Vec<String>, s: &str)
    requires
        strictly_sorted(byte_texts(old(v)@)),
    ensures
        strictly_sorted(byte_texts(final(v)@)),
        byte_texts(final(v)@).to_set() == byte_texts(old(v)@).to_set().insert(encode_utf8(s@)),
{
    let ghost before = byte_texts(v@);
    let ghost key = encode_utf8(s@);
    let sb = s.as_bytes();
    let mut p: usize = 0;
    while p < v.len() && path_less(v[p].as_str().as_bytes(), sb)
        invariant
            0 <= p <= v@.len(),
            v@ == old(v)@,
            before == byte_texts(v@),
            sb@ == key,
            forall|q: int| 0 <= q < p ==> path_lt(#[trigger] before[q], key),
        decreases v@.len() - p,
    {
        p += 1;
    }
    if p < v.len() && !path_less(sb, v[p].as_str().as_bytes()) {
        proof {
            lemma_path_lt_total(before[p as int], key);
            assert(before[p as int] == key);
            assert(before.to_set().insert(key) =~= before.to_set()) by {
                assert(before.contains(key));
            }
        }
        return;
    }
    v.insert(p, s.to_owned());
    proof {
        let after = byte_texts(v@);
        assert(after =~= before.insert(p as int, key));
        assert forall|i: int, j: int| 0 <= i < j < after.len() implies path_lt(
            #[trigger] after[i],
            #[trigger] after[j],
        ) by {
            if j < p {
            } else if j == p {
            } else if i > p {
            } else if i == p {
                assert(path_lt(key, before[p as int]));
                if j - 1 > p {
                    lemma_path_lt_transitive(key, before[p as int], before[j - 1]);
                }
            } else {
                assert(path_lt(before[i], key));
                assert(path_lt(key, before[p as int]));
                lemma_path_lt_transitive(before[i], key, before[p as int]);
                if j - 1 > p {
                    lemma_path_lt_transitive(before[i], before[p as int], before[j - 1]);
                }
            }
        }
        assert(after.to_set() =~= before.to_set().insert(key)) by {
            assert forall|x: Seq<u8>| after.to_set().contains(x) <==> before.to_set().insert(
                key,
            ).contains(x) by {
                if after.contains(x) {
                    let i = choose|i: int| 0 <= i < after.len() && after[i] == x;
                    if i < p {
                        assert(before[i] == x);
                    } else if i > p {
                        assert(before[i - 1] == x);
                    }
                }
                if before.contains(x) {
                    let i = choose|i: int| 0 <= i < before.len() && before[i] == x;
                    if i < p {
                        assert(after[i] == x);
                    } else {
                        assert(after[i + 1] == x);
                    }
                }
                if x == key {
                    assert(after[p as int] == x);
                }
            }
        }
    }
}

fn entry_of_line(line: &str) -> (r: Option<&str>)
    ensures
        r is None <==> status_entry(encode_utf8(line@)) is None,
        r matches Some(p) ==> status_entry(encode_utf8(line@)) == Some(encode_utf8(p@)),
{
    let b = line.as_bytes();
    if b.len() < 3 || b[0] >= 128u8 || b[1] >= 128u8 || b[2] >= 128u8 || b[0] == 68u8 || b[1]
        == 68u8 {
        return None;
    }
    let t1 = after_ascii(line);
    let t2 = after_ascii(t1);
    let t3 = after_ascii(t2);
    assert(encode_utf8(t3@) =~= b@.subrange(3, b@.len() as int));
    proof {
        encode_utf8_decode_utf8(t3@);
    }
    let t = trim_str(t3);
    let tb = t.as_bytes();
    let mut n = tb.len();
    while n > 0 && !(tb.len() >= 3 && n <= tb.len() - 3 && tb[n - 1] == 32u8 && tb[n] == 45u8 && tb[n + 1] == 62u8
        && tb[n + 2] == 32u8)
        invariant
            n <= tb@.len(),
            tb@.len() <= usize::MAX,
            last_arrow_before(tb@, tb@.len() as int) == last_arrow_before(tb@, n as int),
        decreases n,
    {
        proof {
            if occurs_at(tb@, arrow(), n - 1) {
                assert(tb@.subrange(n - 1, n + 3)[0] == tb@[n - 1]);
                assert(tb@.subrange(n - 1, n + 3)[1] == tb@[n as int]);
                assert(tb@.subrange(n - 1, n + 3)[2] == tb@[n + 1]);
                assert(tb@.subrange(n - 1, n + 3)[3] == tb@[n + 2]);
            }
        }
        n -= 1;
    }
    let path = if n > 0 {
        assert(tb@.subrange(n - 1, n + 3) =~= arrow());
        assert(occurs_at(tb@, arrow(), n - 1));
        let (_, tail) = split_at_ascii(t, n - 1);
        let a1 = after_ascii(tail);
        let a2 = after_ascii(a1);
        let a3 = after_ascii(a2);
        let a4 = after_ascii(a3);
        assert(encode_utf8(a4@) =~= rename_target(tb@));
        a4
    } else {
        assert(tb@ == rename_target(tb@));
        t
    };
    if path.is_empty() {
        None
    } else {
        Some(path)
    }
}

/// The paths named by the lines of a short-format status listing: sorted
/// in path order (component by component), each once. Entries of deleted
/// files are left out, and of a rename only the new path is kept.
pub fn status_paths(out: &str) -> (r: Vec<String>)
    ensures
        strictly_sorted(byte_texts(r@)),
        byte_texts(r@).to_set() == status_entries(encode_utf8(out@)).to_set(),
{
    let mut rest = out;
    let mut paths: Vec<String> = Vec::new();
    let ghost whole = encode_utf8(out@);
    let ghost mut got: Seq<Seq<u8>> = Seq::empty();
    assert(status_entries(whole) =~= got + status_entries(encode_utf8(rest@)));
    assert(byte_texts(paths@).to_set() =~= got.to_set());
    while !rest.is_empty()
        invariant
            status_entries(whole) == got + status_entries(encode_utf8(rest@)),
            strictly_sorted(byte_texts(paths@)),
            byte_texts(paths@).to_set() == got.to_set(),
        decreases encode_utf8(rest@).len(),
    {
        let ghost rb = encode_utf8(rest@);
        let (line, next) = split_first_line(rest);
        let ghost head = match status_entry(first_line(rb)) {
            Some(p) => seq![p],
            None => Seq::empty(),
        };
        assert(status_entries(rb) =~= head + status_entries(encode_utf8(next@)));
        match entry_of_line(line) {
            Some(p) => {
                insert_sorted(&mut paths, p);
                proof {
                    assert((got + head).to_set() =~= got.to_set().insert(encode_utf8(p@))) by {
                        assert forall|x: Seq<u8>| (got + head).contains(x) <==> got.to_set().insert(
                            encode_utf8(p@),
                        ).contains(x) by {
                            if (got + head).contains(x) {
                                let i = choose|i: int| 0 <= i < (got + head).len() && (got + head)[i] == x;
                                if i < got.len() {
                                    assert(got[i] == x);
                                }
                            }
                            if got.contains(x) {
                                let i = choose|i: int| 0 <= i < got.len() && got[i] == x;
                                assert((got + head)[i] == x);
                            }
                            if x == encode_utf8(p@) {
                                assert((got + head)[got.len() as int] == x);
                            }
                        }
                    }
                }
            },
            None => {
                assert(got + head =~= got);
            },
        }
        proof {
            assert(status_entries(whole) =~= (got + head) + status_entries(encode_utf8(next@)));
            got = got + head;
        }
        rest = next;
    }
    assert(status_entries(encode_utf8(rest@)) =~= Seq::<Seq<u8>>::empty());
    assert(got =~= status_entries(whole));
    paths
}

} // verus!
