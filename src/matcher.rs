//! Routing of files to tools by glob patterns.
//!
//! Each tool's include and exclude patterns are compiled into glob sets.
//! A file goes to the first tool, in declaration order, whose include set
//! matches it and whose exclude set does not.

use crate::config::Tool;
use globset::{Glob, GlobSet, GlobSetBuilder};
use vstd::prelude::*;

verus! {

#[verifier::external_type_specification]
#[verifier::external_body]
pub struct ExGlob(Glob);

#[verifier::external_type_specification]
#[verifier::external_body]
pub struct ExGlobSet(GlobSet);

#[verifier::external_type_specification]
#[verifier::external_body]
pub struct ExGlobSetBuilder(GlobSetBuilder);

#[verifier::external_type_specification]
#[verifier::external_body]
pub struct ExGlobError(globset::Error);

/// Whether a pattern text is accepted as a glob.
pub uninterp spec fn glob_parses(pattern: Seq<char>) -> bool;

/// Whether the glob written as `pattern` matches `path`.
pub uninterp spec fn glob_matches(pattern: Seq<char>, path: Seq<char>) -> bool;

/// The pattern text a compiled glob holds, the one `Glob::glob` returns.
pub uninterp spec fn glob_source(g: Glob) -> Seq<char>;

/// The pattern texts added to a set builder, in order.
pub uninterp spec fn builder_globs(b: GlobSetBuilder) -> Seq<Seq<char>>;

/// The pattern texts a built glob set was made from, in order.
pub uninterp spec fn set_globs(s: GlobSet) -> Seq<Seq<char>>;

/// Whether globs with these pattern texts combine into one set: it fails
/// only when the compiled set goes over fixed size limits.
pub uninterp spec fn set_builds(pats: Seq<Seq<char>>) -> bool;

/// Relies on globset::Glob::new: whether parsing succeeds depends on the
/// pattern text alone, and the glob keeps that text (see Glob::glob).
#[verifier::external_body]
fn parse_glob(pattern: &str) -> (r: Result<Glob, globset::Error>)
    ensures
        r is Ok <==> glob_parses(pattern@),
        r matches Ok(g) ==> glob_source(g) == pattern@,
{
    Glob::new(pattern)
}

/// Relies on globset::GlobSetBuilder::new: a new builder holds no glob.
#[verifier::external_body]
fn new_builder() -> (r: GlobSetBuilder)
    ensures
        builder_globs(r) == Seq::<Seq<char>>::empty(),
{
    GlobSetBuilder::new()
}

/// Relies on globset::GlobSetBuilder::add: the glob is appended to the
/// builder's list.
#[verifier::external_body]
fn builder_add(b: &mut GlobSetBuilder, g: Glob)
    ensures
        builder_globs(*final(b)) == builder_globs(*old(b)).push(glob_source(g)),
{
    b.add(g);
}

/// Relies on globset::GlobSetBuilder::build: whether it succeeds depends
/// on the builder's globs alone, a built set holds those globs, and a
/// builder without globs always builds.
#[verifier::external_body]
fn builder_build(b: &GlobSetBuilder) -> (r: Result<GlobSet, globset::Error>)
    ensures
        r is Ok <==> set_builds(builder_globs(*b)),
        r matches Ok(s) ==> set_globs(s) == builder_globs(*b),
        r is Err ==> builder_globs(*b).len() > 0,
{
    b.build()
}

/// Relies on globset::GlobSet::is_match: true iff any glob of the set
/// matches the path.
#[verifier::external_body]
fn set_is_match(s: &GlobSet, path: &str) -> (r: bool)
    ensures
        r == (exists|i: int| 0 <= i < set_globs(*s).len() && #[trigger] glob_matches(set_globs(*s)[i], path@)),
{
    s.is_match(path)
}

/// Why the patterns of a tool could not be compiled.
pub enum PatternError {
    /// `pattern` of tool `tool` is not a valid glob.
    InvalidGlob { tool: String, pattern: String },
    /// The globs of tool `tool` are valid but could not be combined into a set.
    SetBuild { tool: String },
}

/// The texts of a list of strings.
pub open spec fn texts(v: Seq<String>) -> Seq<Seq<char>> {
    v.map_values(|s: String| s@)
}

/// Whether every pattern of the list is a valid glob.
pub open spec fn all_parse(pats: Seq<String>) -> bool {
    forall|k: int| 0 <= k < pats.len() ==> #[trigger] glob_parses(pats[k]@)
}

/// `k` is the position of the first invalid pattern of the list.
pub open spec fn first_invalid(pats: Seq<String>, k: int) -> bool {
    &&& 0 <= k < pats.len()
    &&& !glob_parses(pats[k]@)
    &&& forall|j: int| 0 <= j < k ==> #[trigger] glob_parses(pats[j]@)
}

/// The patterns are all valid globs and combine into one set.
pub open spec fn globs_compile(pats: Seq<String>) -> bool {
    all_parse(pats) && set_builds(texts(pats))
}

/// Both pattern lists of the tool compile.
pub open spec fn tool_compiles(t: Tool) -> bool {
    globs_compile(t.includes@) && globs_compile(t.exclude@)
}

/// The tool's patterns are valid but one of its two sets does not build:
/// the include set, or else the exclude set.
pub open spec fn tool_set_fails(t: Tool) -> bool {
    ||| (all_parse(t.includes@) && !set_builds(texts(t.includes@)))
    ||| (globs_compile(t.includes@) && all_parse(t.exclude@) && !set_builds(texts(t.exclude@)))
}

/// `pattern` is the first invalid pattern of the tool, includes before excludes.
pub open spec fn first_invalid_of_tool(t: Tool, pattern: Seq<char>) -> bool {
    ||| exists|k: int| first_invalid(t.includes@, k) && t.includes@[k]@ == pattern
    ||| (all_parse(t.includes@) && exists|k: int|
        first_invalid(t.exclude@, k) && t.exclude@[k]@ == pattern)
}

/// Whether some pattern of the list matches the path.
pub open spec fn any_glob_matches(pats: Seq<String>, path: Seq<char>) -> bool {
    exists|i: int| 0 <= i < pats.len() && #[trigger] glob_matches(pats[i]@, path)
}

/// The tool takes the path: an include pattern matches and no exclude
/// pattern does.
pub open spec fn tool_matches(t: Tool, path: Seq<char>) -> bool {
    any_glob_matches(t.includes@, path) && !any_glob_matches(t.exclude@, path)
}

/// Tool `t` claims the path: it matches, and no tool declared before it does.
pub open spec fn claims(tools: Seq<Tool>, t: int, path: Seq<char>) -> bool {
    &&& 0 <= t < tools.len()
    &&& tool_matches(tools[t], path)
    &&& forall|k: int| 0 <= k < t ==> !#[trigger] tool_matches(tools[k], path)
}

/// No tool matches the path.
pub open spec fn unmatched(tools: Seq<Tool>, path: Seq<char>) -> bool {
    forall|k: int| 0 <= k < tools.len() ==> !#[trigger] tool_matches(tools[k], path)
}

/// The paths that tool `t` claims, in their original order.
pub open spec fn claimed(paths: Seq<Seq<char>>, tools: Seq<Tool>, t: int) -> Seq<Seq<char>>
    decreases paths.len(),
{
    if paths.len() == 0 {
        Seq::empty()
    } else {
        let rest = claimed(paths.drop_last(), tools, t);
        if claims(tools, t, paths.last()) {
            rest.push(paths.last())
        } else {
            rest
        }
    }
}

/// The routes produced for the first `n` tools: for each tool in order that
/// claims at least one path, its index and its claimed paths.
pub open spec fn routes(paths: Seq<Seq<char>>, tools: Seq<Tool>, n: int) -> Seq<(int, Seq<Seq<char>>)>
    decreases n,
{
    if n <= 0 {
        Seq::empty()
    } else {
        let prev = routes(paths, tools, n - 1);
        let g = claimed(paths, tools, n - 1);
        if g.len() > 0 {
            prev.push((n - 1, g))
        } else {
            prev
        }
    }
}

/// The paths that no tool matches, in their original order.
pub open spec fn unrouted(paths: Seq<Seq<char>>, tools: Seq<Tool>) -> Seq<Seq<char>>
    decreases paths.len(),
{
    if paths.len() == 0 {
        Seq::empty()
    } else {
        let rest = unrouted(paths.drop_last(), tools);
        if unmatched(tools, paths.last()) {
            rest.push(paths.last())
        } else {
            rest
        }
    }
}

/// Total number of paths over a list of routes.
pub open spec fn route_total(rs: Seq<(int, Seq<Seq<char>>)>) -> int
    decreases rs.len(),
{
    if rs.len() == 0 {
        0
    } else {
        route_total(rs.drop_last()) + rs.last().1.len()
    }
}

spec fn group_sum(paths: Seq<Seq<char>>, tools: Seq<Tool>, n: int) -> int
    decreases n,
{
    if n <= 0 {
        0
    } else {
        group_sum(paths, tools, n - 1) + claimed(paths, tools, n - 1).len()
    }
}

spec fn claimed_before(tools: Seq<Tool>, n: int, p: Seq<char>) -> bool {
    exists|t: int| 0 <= t < n && #[trigger] claims(tools, t, p)
}

proof fn lemma_claims_unique(tools: Seq<Tool>, t: int, u: int, p: Seq<char>)
    requires
        claims(tools, t, p),
        claims(tools, u, p),
    ensures
        t == u,
{
    if t < u {
        assert(!tool_matches(tools[t], p));
    } else if u < t {
        assert(!tool_matches(tools[u], p));
    }
}

proof fn lemma_claimed_before_iff_match(tools: Seq<Tool>, n: int, p: Seq<char>)
    requires
        0 <= n <= tools.len(),
    ensures
        claimed_before(tools, n, p) <==> exists|k: int|
            0 <= k < n && #[trigger] tool_matches(tools[k], p),
    decreases n,
{
    if n > 0 {
        lemma_claimed_before_iff_match(tools, n - 1, p);
        if claimed_before(tools, n, p) {
            let t = choose|t: int| 0 <= t < n && #[trigger] claims(tools, t, p);
            assert(tool_matches(tools[t], p));
        }
        if exists|k: int| 0 <= k < n && #[trigger] tool_matches(tools[k], p) {
            if !claimed_before(tools, n - 1, p) {
                assert(claims(tools, n - 1, p));
            }
        }
    }
}

proof fn lemma_route_total(paths: Seq<Seq<char>>, tools: Seq<Tool>, n: int)
    ensures
        route_total(routes(paths, tools, n)) == group_sum(paths, tools, n),
    decreases n,
{
    if n > 0 {
        lemma_route_total(paths, tools, n - 1);
        let prev = routes(paths, tools, n - 1);
        let g = claimed(paths, tools, n - 1);
        if g.len() > 0 {
            assert(prev.push((n - 1, g)).drop_last() =~= prev);
        }
    }
}

proof fn lemma_group_sum_step(paths: Seq<Seq<char>>, tools: Seq<Tool>, n: int)
    requires
        paths.len() > 0,
        0 <= n <= tools.len(),
    ensures
        group_sum(paths, tools, n) == group_sum(paths.drop_last(), tools, n) + (if claimed_before(
            tools,
            n,
            paths.last(),
        ) {
            1int
        } else {
            0int
        }),
    decreases n,
{
    let p = paths.last();
    if n > 0 {
        lemma_group_sum_step(paths, tools, n - 1);
        if claimed_before(tools, n - 1, p) && claims(tools, n - 1, p) {
            let t = choose|t: int| 0 <= t < n - 1 && #[trigger] claims(tools, t, p);
            lemma_claims_unique(tools, t, n - 1, p);
        }
        if claimed_before(tools, n, p) && !claims(tools, n - 1, p) {
            let t = choose|t: int| 0 <= t < n && #[trigger] claims(tools, t, p);
            assert(claimed_before(tools, n - 1, p));
        }
    }
}

proof fn lemma_counts(paths: Seq<Seq<char>>, tools: Seq<Tool>)
    ensures
        group_sum(paths, tools, tools.len() as int) + unrouted(paths, tools).len() == paths.len(),
    decreases paths.len(),
{
    let n = tools.len() as int;
    if paths.len() == 0 {
        assert(group_sum(paths, tools, n) == 0) by {
            lemma_group_sum_empty(paths, tools, n);
        }
    } else {
        lemma_counts(paths.drop_last(), tools);
        lemma_group_sum_step(paths, tools, n);
        lemma_claimed_before_iff_match(tools, n, paths.last());
    }
}

proof fn lemma_group_sum_empty(paths: Seq<Seq<char>>, tools: Seq<Tool>, n: int)
    requires
        paths.len() == 0,
    ensures
        group_sum(paths, tools, n) == 0,
    decreases n,
{
    if n > 0 {
        lemma_group_sum_empty(paths, tools, n - 1);
    }
}

proof fn lemma_claimed_members(paths: Seq<Seq<char>>, tools: Seq<Tool>, t: int, p: Seq<char>)
    ensures
        claimed(paths, tools, t).contains(p) <==> (paths.contains(p) && claims(tools, t, p)),
    decreases paths.len(),
{
    if paths.len() > 0 {
        let rest = paths.drop_last();
        lemma_claimed_members(rest, tools, t, p);
        assert(paths =~= rest.push(paths.last()));
        if paths.contains(p) && p != paths.last() {
            let i = choose|i: int| 0 <= i < paths.len() && paths[i] == p;
            assert(rest[i] == p);
        }
        if rest.contains(p) {
            let i = choose|i: int| 0 <= i < rest.len() && rest[i] == p;
            assert(paths[i] == p);
        }
        let c = claimed(rest, tools, t);
        if claims(tools, t, paths.last()) {
            assert(c.push(paths.last())[c.len() as int] == paths.last());
            if c.push(paths.last()).contains(p) && p != paths.last() {
                let i = choose|i: int| 0 <= i < c.len() + 1 && c.push(paths.last())[i] == p;
                assert(c[i] == p);
            }
            if c.contains(p) {
                let i = choose|i: int| 0 <= i < c.len() && c[i] == p;
                assert(c.push(paths.last())[i] == p);
            }
        }
    }
}

proof fn lemma_routes_shape(paths: Seq<Seq<char>>, tools: Seq<Tool>, n: int)
    ensures
        forall|j: int|
            0 <= j < routes(paths, tools, n).len() ==> {
                let e = #[trigger] routes(paths, tools, n)[j];
                0 <= e.0 < n && e.1 == claimed(paths, tools, e.0) && e.1.len() > 0
            },
        forall|t: int|
            0 <= t < n && #[trigger] claimed(paths, tools, t).len() > 0 ==> exists|j: int|
                0 <= j < routes(paths, tools, n).len() && (#[trigger] routes(paths, tools, n)[j]).0
                    == t,
    decreases n,
{
    if n > 0 {
        lemma_routes_shape(paths, tools, n - 1);
        let prev = routes(paths, tools, n - 1);
        let cur = routes(paths, tools, n);
        assert forall|j: int| 0 <= j < prev.len() implies #[trigger] cur[j] == prev[j] by {}
        assert forall|t: int|
            0 <= t < n && #[trigger] claimed(paths, tools, t).len() > 0 implies exists|j: int|
                0 <= j < cur.len() && (#[trigger] cur[j]).0 == t by {
            if t < n - 1 {
                let j = choose|j: int| 0 <= j < prev.len() && (#[trigger] prev[j]).0 == t;
                assert(cur[j] == prev[j]);
            } else {
                assert(cur[prev.len() as int].0 == t);
            }
        }
    }
}

/// Routing partitions the files. A file that some tool matches is in the
/// route of the first such tool and in no other route; a file that no tool
/// matches is in no route; and the routes together with the unmatched
/// files hold exactly as many entries as there are files.
pub proof fn lemma_routes_partition(paths: Seq<Seq<char>>, tools: Seq<Tool>)
    ensures
        forall|p: Seq<char>, t: int|
            paths.contains(p) && #[trigger] claims(tools, t, p) ==> exists|j: int|
                0 <= j < routes(paths, tools, tools.len() as int).len() && (#[trigger] routes(
                    paths,
                    tools,
                    tools.len() as int,
                )[j]).0 == t && routes(paths, tools, tools.len() as int)[j].1.contains(p),
        forall|p: Seq<char>, j: int|
            0 <= j < routes(paths, tools, tools.len() as int).len() && #[trigger] routes(
                paths,
                tools,
                tools.len() as int,
            )[j].1.contains(p) ==> paths.contains(p) && claims(
                tools,
                routes(paths, tools, tools.len() as int)[j].0,
                p,
            ),
        forall|p: Seq<char>|
            #[trigger] unmatched(tools, p) ==> forall|j: int|
                0 <= j < routes(paths, tools, tools.len() as int).len() ==> !(#[trigger] routes(
                    paths,
                    tools,
                    tools.len() as int,
                )[j]).1.contains(p),
        route_total(routes(paths, tools, tools.len() as int)) + unrouted(paths, tools).len()
            == paths.len(),
{
    let n = tools.len() as int;
    let rs = routes(paths, tools, n);
    lemma_routes_shape(paths, tools, n);
    assert forall|p: Seq<char>, t: int|
        paths.contains(p) && #[trigger] claims(tools, t, p) implies exists|j: int|
            0 <= j < rs.len() && (#[trigger] rs[j]).0 == t && rs[j].1.contains(p) by {
        lemma_claimed_members(paths, tools, t, p);
        let c = claimed(paths, tools, t);
        let i = choose|i: int| 0 <= i < c.len() && c[i] == p;
        assert(c.len() > 0);
        let j = choose|j: int| 0 <= j < rs.len() && (#[trigger] rs[j]).0 == t;
    }
    assert forall|p: Seq<char>, j: int|
        0 <= j < rs.len() && #[trigger] rs[j].1.contains(p) implies paths.contains(p) && claims(
        tools,
        rs[j].0,
        p,
    ) by {
        lemma_claimed_members(paths, tools, rs[j].0, p);
    }
    assert forall|p: Seq<char>|
        #[trigger] unmatched(tools, p) implies forall|j: int|
            0 <= j < rs.len() ==> !(#[trigger] rs[j]).1.contains(p) by {
        assert forall|j: int| 0 <= j < rs.len() implies !(#[trigger] rs[j]).1.contains(p) by {
            lemma_claimed_members(paths, tools, rs[j].0, p);
        }
    }
    lemma_route_total(paths, tools, n);
    lemma_counts(paths, tools);
}

/// The path is in a route of the tool at position `t`.
pub open spec fn routed_to(paths: Seq<Seq<char>>, tools: Seq<Tool>, t: int, p: Seq<char>) -> bool {
    exists|j: int|
        0 <= j < routes(paths, tools, tools.len() as int).len() && (#[trigger] routes(
            paths,
            tools,
            tools.len() as int,
        )[j]).0 == t && routes(paths, tools, tools.len() as int)[j].1.contains(p)
}

/// When two tools both match a file, the one declared first takes it: with
/// the tools in one order the file is routed to the first of them and not
/// to the second, and with the order reversed the other way round.
pub proof fn lemma_first_declared_wins(paths: Seq<Seq<char>>, a: Tool, b: Tool, p: Seq<char>)
    requires
        paths.contains(p),
        tool_matches(a, p),
        tool_matches(b, p),
    ensures
        routed_to(paths, seq![a, b], 0, p),
        !routed_to(paths, seq![a, b], 1, p),
        routed_to(paths, seq![b, a], 0, p),
        !routed_to(paths, seq![b, a], 1, p),
{
    let ab = seq![a, b];
    let ba = seq![b, a];
    assert(claims(ab, 0, p));
    assert(claims(ba, 0, p));
    assert(!claims(ab, 1, p));
    assert(!claims(ba, 1, p));
    lemma_routes_partition(paths, ab);
    lemma_routes_partition(paths, ba);
    assert(ab.len() == 2 && ba.len() == 2);
}

/// A compiled matcher for a single tool.
struct ToolMatcher {
    includes: GlobSet,
    excludes: GlobSet,
}

impl ToolMatcher {
    spec fn models(&self, t: Tool) -> bool {
        set_globs(self.includes) == texts(t.includes@) && set_globs(self.excludes) == texts(
            t.exclude@,
        )
    }

    /// Compiles the tool's include and exclude patterns.
    fn new(tool: &Tool) -> (r: Result<ToolMatcher, PatternError>)
        ensures
            r is Ok <==> tool_compiles(*tool),
            r matches Ok(m) ==> m.models(*tool),
            r matches Err(PatternError::InvalidGlob { tool: name, pattern }) ==> name
                == tool.name && first_invalid_of_tool(*tool, pattern@),
            r matches Err(PatternError::SetBuild { tool: name }) ==> name == tool.name
                && tool_set_fails(*tool),
    {
        let includes = match build_globset(&tool.name, &tool.includes) {
            Ok(s) => s,
            Err(e) => return Err(e),
        };
        let excludes = match build_globset(&tool.name, &tool.exclude) {
            Ok(s) => s,
            Err(e) => return Err(e),
        };
        Ok(ToolMatcher { includes, excludes })
    }

    /// Whether the path is included and not excluded.
    fn matches(&self, path: &str) -> (r: bool)
        ensures
            r == (any_glob_matches_texts(set_globs(self.includes), path@)
                && !any_glob_matches_texts(set_globs(self.excludes), path@)),
    {
        set_is_match(&self.includes, path) && !set_is_match(&self.excludes, path)
    }
}

/// Whether some pattern text of the list matches the path.
pub open spec fn any_glob_matches_texts(pats: Seq<Seq<char>>, path: Seq<char>) -> bool {
    exists|i: int| 0 <= i < pats.len() && #[trigger] glob_matches(pats[i], path)
}

proof fn lemma_texts_match(pats: Seq<String>, path: Seq<char>)
    ensures
        any_glob_matches_texts(texts(pats), path) == any_glob_matches(pats, path),
{
    if any_glob_matches(pats, path) {
        let i = choose|i: int| 0 <= i < pats.len() && #[trigger] glob_matches(pats[i]@, path);
        assert(texts(pats)[i] == pats[i]@);
    }
    if any_glob_matches_texts(texts(pats), path) {
        let i = choose|i: int| 0 <= i < texts(pats).len() && #[trigger] glob_matches(texts(pats)[i], path);
        assert(texts(pats)[i] == pats[i]@);
    }
}

/// Compiles a list of patterns into one glob set; `tool` names the owner in
/// the error.
fn build_globset(tool: &String, patterns: &Vec<String>) -> (r: Result<GlobSet, PatternError>)
    ensures
        r is Ok <==> globs_compile(patterns@),
        r matches Ok(s) ==> set_globs(s) == texts(patterns@),
        r matches Err(PatternError::InvalidGlob { tool: name, pattern }) ==> name == *tool
            && exists|k: int| first_invalid(patterns@, k) && patterns@[k]@ == pattern@,
        r matches Err(PatternError::SetBuild { tool: name }) ==> name == *tool && all_parse(patterns@)
            && !set_builds(texts(patterns@)),
{
    let mut builder = new_builder();
    let mut i: usize = 0;
    while i < patterns.len()
        invariant
            0 <= i <= patterns@.len(),
            builder_globs(builder) == texts(patterns@.take(i as int)),
            forall|j: int| 0 <= j < i ==> #[trigger] glob_parses(patterns@[j]@),
        decreases patterns@.len() - i,
    {
        let g = match parse_glob(patterns[i].as_str()) {
            Ok(g) => g,
            Err(_) => {
                assert(first_invalid(patterns@, i as int));
                return Err(PatternError::InvalidGlob { tool: tool.clone(), pattern: patterns[i].clone() });
            },
        };
        builder_add(&mut builder, g);
        assert(texts(patterns@.take(i as int + 1)) =~= texts(patterns@.take(i as int)).push(patterns@[i as int]@));
        i += 1;
    }
    assert(patterns@.take(i as int) =~= patterns@);
    match builder_build(&builder) {
        Ok(s) => Ok(s),
        Err(_) => Err(PatternError::SetBuild { tool: tool.clone() }),
    }
}

/// The files routed to one tool.
pub struct MatchResult<'a> {
    /// The tool configuration.
    pub tool: &'a Tool,
    /// Files claimed by this tool, in their original order.
    pub files: Vec<&'a str>,
}

/// The texts of the files of a route.
pub open spec fn route_files<'a>(m: MatchResult<'a>) -> Seq<Seq<char>> {
    m.files@.map_values(|f: &str| f@)
}

/// The results stand for the routes: same count, and each result carries
/// the tool and the paths of the route at its position.
pub open spec fn represents<'a>(
    r: Seq<MatchResult<'a>>,
    tools: Seq<Tool>,
    rs: Seq<(int, Seq<Seq<char>>)>,
) -> bool {
    &&& r.len() == rs.len()
    &&& forall|j: int|
        0 <= j < r.len() ==> {
            &&& 0 <= (#[trigger] rs[j]).0 < tools.len()
            &&& *r[j].tool == tools[rs[j].0]
            &&& route_files(r[j]) == rs[j].1
        }
}

/// Every tool at a position before `ti` compiles.
pub open spec fn all_tools_compile_before(tools: Seq<Tool>, ti: int) -> bool {
    forall|k: int| 0 <= k < ti ==> #[trigger] tool_compiles(tools[k])
}

/// Assigns each file to the first tool, in declaration order, that matches
/// it. Tools that claim no file get no entry; each entry keeps the files in
/// their original order.
pub fn match_files<'a>(files: &'a [String], tools: &'a [Tool]) -> (r: Result<
    Vec<MatchResult<'a>>,
    PatternError,
>)
    ensures
        r is Ok <==> all_tools_compile_before(tools@, tools@.len() as int),
        r matches Ok(v) ==> represents(v@, tools@, routes(texts(files@), tools@, tools@.len() as int)),
        r matches Err(PatternError::InvalidGlob { tool, pattern }) ==> exists|ti: int|
            0 <= ti < tools@.len() && all_tools_compile_before(tools@, ti) && tools@[ti].name == tool
                && first_invalid_of_tool(tools@[ti], pattern@),
        r matches Err(PatternError::SetBuild { tool }) ==> exists|ti: int|
            0 <= ti < tools@.len() && all_tools_compile_before(tools@, ti) && tools@[ti].name
                == tool && tool_set_fails(tools@[ti]),
{
    let ghost paths = texts(files@);
    let mut matchers: Vec<ToolMatcher> = Vec::new();
    let mut t: usize = 0;
    while t < tools.len()
        invariant
            0 <= t <= tools@.len(),
            matchers@.len() == t,
            all_tools_compile_before(tools@, t as int),
            forall|m: int| 0 <= m < t ==> #[trigger] matchers@[m].models(tools@[m]),
        decreases tools@.len() - t,
    {
        match ToolMatcher::new(&tools[t]) {
            Ok(m) => matchers.push(m),
            Err(e) => return Err(e),
        }
        t += 1;
    }

    let mut matched: Vec<bool> = Vec::new();
    let mut i: usize = 0;
    while i < files.len()
        invariant
            0 <= i <= files@.len(),
            matched@.len() == i,
            forall|k: int| 0 <= k < i ==> !#[trigger] matched@[k],
        decreases files@.len() - i,
    {
        matched.push(false);
        i += 1;
    }

    let mut results: Vec<MatchResult<'a>> = Vec::new();
    let mut t: usize = 0;
    while t < tools.len()
        invariant
            0 <= t <= tools@.len(),
            matchers@.len() == tools@.len(),
            forall|m: int| 0 <= m < tools@.len() ==> #[trigger] matchers@[m].models(tools@[m]),
            all_tools_compile_before(tools@, tools@.len() as int),
            paths == texts(files@),
            matched@.len() == files@.len(),
            forall|k: int|
                0 <= k < files@.len() ==> (#[trigger] matched@[k] <==> exists|m: int|
                    0 <= m < t && #[trigger] tool_matches(tools@[m], paths[k])),
            represents(results@, tools@, routes(paths, tools@, t as int)),
        decreases tools@.len() - t,
    {
        let mut tool_files: Vec<&'a str> = Vec::new();
        let mut i: usize = 0;
        while i < files.len()
            invariant
                0 <= t < tools@.len(),
                0 <= i <= files@.len(),
                matchers@.len() == tools@.len(),
                matchers@[t as int].models(tools@[t as int]),
                paths == texts(files@),
                matched@.len() == files@.len(),
                forall|k: int|
                    0 <= k < i ==> (#[trigger] matched@[k] <==> exists|m: int|
                        0 <= m <= t && #[trigger] tool_matches(tools@[m], paths[k])),
                forall|k: int|
                    i <= k < files@.len() ==> (#[trigger] matched@[k] <==> exists|m: int|
                        0 <= m < t && #[trigger] tool_matches(tools@[m], paths[k])),
                tool_files@.map_values(|f: &str| f@) == claimed(
                    paths.take(i as int),
                    tools@,
                    t as int,
                ),
            decreases files@.len() - i,
        {
            let ghost p = paths[i as int];
            assert(paths.take(i as int + 1).drop_last() =~= paths.take(i as int));
            assert(paths.take(i as int + 1).last() == p);
            if !matched[i] {
                let path = files[i].as_str();
                let hit = matchers[t].matches(path);
                proof {
                    lemma_texts_match(tools@[t as int].includes@, p);
                    lemma_texts_match(tools@[t as int].exclude@, p);
                }
                if hit {
                    assert(claims(tools@, t as int, p));
                    tool_files.push(path);
                    matched.set(i, true);
                    assert(tool_files@.map_values(|f: &str| f@) =~= claimed(
                        paths.take(i as int),
                        tools@,
                        t as int,
                    ).push(p));
                } else {
                    assert(!claims(tools@, t as int, p));
                }
            } else {
                assert(!claims(tools@, t as int, p));
            }
            i += 1;
        }
        assert(paths.take(files@.len() as int) =~= paths);
        if tool_files.len() > 0 {
            results.push(MatchResult { tool: &tools[t], files: tool_files });
        }
        t += 1;
    }
    Ok(results)
}

} // verus!
