//! The shader preprocessor: shader references, the source repository they
//! are read from, and the builder that expands `#include` lines and applies
//! `#define` substitutions.
use rand::seq::IteratorRandom;
use vstd::prelude::*;

use crate::defines::{
    add_found_defines, apply_defines, apply_table, table_clone, entries_of, merge_defines, new_table, pair_views,
    set_entry, table_insert, table_pairs, DefineTable,
};
use crate::paths::{
    include_target, parent_dir, parent_or_root, resolve_include_path, root, root_path, rooted,
    rooted_path,
};
use crate::text::{
    append_range, chars_of, concat, define_parser, define_sites, empties, include_parser,
    include_site_views, include_sites, lemma_site_ranges_ordered, lemma_splice_prefix,
    lemma_splice_step, define_site_views, range_views, ranges_ordered, remove_ranges, replace_all,
    replace_text, scan_defines, scan_includes, site_ranges, splice, string_of,
};

verus! {

// ---------------------------------------------------------------------------
// Errors
// ---------------------------------------------------------------------------

/// Why a build failed.
#[derive(Debug, Clone, PartialEq, Eq)]
pub enum ShaderError {
    /// No file of the repository has this path.
    FileNotFound(String),
    /// The quoted path of an `#include` line is not a Unix path.
    InvalidIncludePath(String),
    /// The repository already holds a file at this path.
    DuplicatePath(String),
}

/// A build failure, with its path as text.
pub enum ErrorView {
    FileNotFound(Seq<char>),
    InvalidIncludePath(Seq<char>),
    DuplicatePath(Seq<char>),
}

impl View for ShaderError {
    type V = ErrorView;

    open spec fn view(&self) -> ErrorView {
        match self {
            ShaderError::FileNotFound(p) => ErrorView::FileNotFound(p@),
            ShaderError::InvalidIncludePath(p) => ErrorView::InvalidIncludePath(p@),
            ShaderError::DuplicatePath(p) => ErrorView::DuplicatePath(p@),
        }
    }
}

/// `r` carries the text of `t` where `t` succeeds, and its error otherwise.
pub open spec fn text_result(r: Result<Vec<char>, ShaderError>, t: Result<Seq<char>, ErrorView>) -> bool {
    match t {
        Ok(x) => r matches Ok(y) && y@ == x,
        Err(e) => r matches Err(f) && f@ == e,
    }
}

/// `r` carries the text of `t` where `t` succeeds, and its error otherwise.
pub open spec fn string_result(r: Result<String, ShaderError>, t: Result<Seq<char>, ErrorView>) -> bool {
    match t {
        Ok(x) => r matches Ok(y) && y@ == x,
        Err(e) => r matches Err(f) && f@ == e,
    }
}

// ---------------------------------------------------------------------------
// Source repository
// ---------------------------------------------------------------------------

/// The shader files, by absolute, normalized path.
pub struct SourceRepository {
    entries: Vec<(String, String)>,
}

/// The source of the first file at path `k`.
pub open spec fn lookup(repo: Seq<(Seq<char>, Seq<char>)>, k: Seq<char>) -> Option<Seq<char>>
    decreases repo.len(),
{
    if repo.len() == 0 {
        None
    } else if repo[0].0 == k {
        Some(repo[0].1)
    } else {
        lookup(repo.skip(1), k)
    }
}

proof fn lemma_lookup_push(
    repo: Seq<(Seq<char>, Seq<char>)>,
    k: Seq<char>,
    v: Seq<char>,
)
    requires
        lookup(repo, k) is None,
    ensures
        lookup(repo.push((k, v)), k) == Some(v),
    decreases repo.len(),
{
    let r = repo.push((k, v));
    if repo.len() > 0 {
        assert(r.skip(1) =~= repo.skip(1).push((k, v)));
        lemma_lookup_push(repo.skip(1), k, v);
    } else {
        assert(r[0] == (k, v));
    }
}

impl View for SourceRepository {
    type V = Seq<(Seq<char>, Seq<char>)>;

    closed spec fn view(&self) -> Seq<(Seq<char>, Seq<char>)> {
        self.entries@.map_values(|e: (String, String)| (e.0@, e.1@))
    }
}

impl SourceRepository {
    /// A repository with no file.
    pub fn new() -> (r: Self)
        ensures
            r@ == Seq::<(Seq<char>, Seq<char>)>::empty(),
    {
        let r = SourceRepository { entries: Vec::new() };
        assert(r@ =~= Seq::<(Seq<char>, Seq<char>)>::empty());
        r
    }

    /// Adds the file `source` under its path made absolute and normalized;
    /// a second file at one such path is refused.
    pub fn add(&mut self, path: String, source: String) -> (r: Result<(), ShaderError>)
        ensures
            lookup(old(self)@, rooted(path@)) is Some ==> (r matches Err(e) && e@
                == ErrorView::DuplicatePath(rooted(path@))) && final(self)@ == old(self)@,
            lookup(old(self)@, rooted(path@)) is None ==> r is Ok && final(self)@ == old(
                self,
            )@.push((rooted(path@), source@)),
            r is Ok ==> lookup(final(self)@, rooted(path@)) == Some(source@),
    {
        let key = rooted_path(path.as_str());
        match self.get(key.as_str()) {
            Some(_) => Err(ShaderError::DuplicatePath(key)),
            None => {
                let ghost before = self@;
                self.entries.push((key, source));
                assert(self@ =~= before.push((rooted(path@), source@)));
                proof {
                    lemma_lookup_push(before, rooted(path@), source@);
                }
                Ok(())
            },
        }
    }

    /// The source of the file at `path`.
    pub fn get(&self, path: &str) -> (r: Option<String>)
        ensures
            r matches Some(s) ==> lookup(self@, path@) == Some(s@),
            r is None ==> lookup(self@, path@) is None,
    {
        let key = String::from_str(path);
        let mut i: usize = 0;
        assert(self@.skip(0) =~= self@);
        while i < self.entries.len()
            invariant
                key@ == path@,
                i <= self@.len(),
                self@.len() == self.entries@.len(),
                lookup(self@.skip(i as int), path@) == lookup(self@, path@),
            decreases self@.len() - i,
        {
            assert(self@[i as int] == (self.entries@[i as int].0@, self.entries@[i as int].1@));
            assert(self@.skip(i as int).skip(1) =~= self@.skip(i + 1));
            assert(self@.skip(i as int)[0] == self@[i as int]);
            if self.entries[i].0 == key {
                return Some(self.entries[i].1.clone());
            }
            i = i + 1;
        }
        None
    }
}

// ---------------------------------------------------------------------------
// Shader references and builders
// ---------------------------------------------------------------------------

/// A shader fragment to be included.
#[derive(Debug)]
pub enum Shader {
    /// Source text given inline.
    Source(String),
    /// A file of the source repository.
    Path(String),
    /// A builder of its own, built on its own.
    Builder(ShaderBuilder),
}

/// Builds shader source from fragments and `#define` substitutions.
#[derive(Debug)]
pub struct ShaderBuilder {
    include_directives: Vec<Shader>,
    define_directives: DefineTable,
}

/// What a shader reference stands for.
pub enum ShaderView {
    Source(Seq<char>),
    Path(Seq<char>),
    Builder(BuilderView),
}

/// What a builder holds: the fragments to include, in order and without
/// repetition, and the defines, in insertion order.
pub struct BuilderView {
    pub includes: Seq<ShaderView>,
    pub defines: Seq<(Seq<char>, Seq<char>)>,
}

/// What the fragment `s` stands for.
pub closed spec fn shader_view(s: Shader) -> ShaderView
    decreases s,
{
    match s {
        Shader::Source(t) => ShaderView::Source(t@),
        Shader::Path(p) => ShaderView::Path(p@),
        Shader::Builder(b) => ShaderView::Builder(builder_view(b)),
    }
}

/// What the builder `b` holds.
pub closed spec fn builder_view(b: ShaderBuilder) -> BuilderView
    decreases b,
{
    BuilderView {
        includes: shader_views(b.include_directives@),
        defines: entries_of(b.define_directives),
    }
}

/// What each fragment of `s` stands for, in order.
pub closed spec fn shader_views(s: Seq<Shader>) -> Seq<ShaderView>
    decreases s,
{
    if s.len() == 0 {
        seq![]
    } else {
        shader_views(s.drop_last()).push(shader_view(s.last()))
    }
}

impl From<String> for Shader {
    /// Inline source text.
    fn from(value: String) -> Shader {
        Shader::Source(value)
    }
}

impl vstd::std_specs::convert::FromSpecImpl<String> for Shader {
    open spec fn obeys_from_spec() -> bool {
        true
    }

    open spec fn from_spec(v: String) -> Shader {
        Shader::Source(v)
    }
}

impl From<ShaderBuilder> for Shader {
    /// A nested builder.
    fn from(value: ShaderBuilder) -> Shader {
        Shader::Builder(value)
    }
}

impl vstd::std_specs::convert::FromSpecImpl<ShaderBuilder> for Shader {
    open spec fn obeys_from_spec() -> bool {
        true
    }

    open spec fn from_spec(v: ShaderBuilder) -> Shader {
        Shader::Builder(v)
    }
}

/// The view of each kind of fragment: its text, its path, or what its
/// builder holds.
pub proof fn lemma_shader_view(s: Shader)
    ensures
        s matches Shader::Source(t) ==> s@ == ShaderView::Source(t@),
        s matches Shader::Path(p) ==> s@ == ShaderView::Path(p@),
        s matches Shader::Builder(b) ==> s@ == ShaderView::Builder(b@),
{
}

impl View for Shader {
    type V = ShaderView;

    open spec fn view(&self) -> ShaderView {
        shader_view(*self)
    }
}

impl View for ShaderBuilder {
    type V = BuilderView;

    open spec fn view(&self) -> BuilderView {
        builder_view(*self)
    }
}

// ---------------------------------------------------------------------------
// What a build gives
// ---------------------------------------------------------------------------

/// The number of files of `repo` whose path is not in `visited`.
pub open spec fn unvisited(repo: Seq<(Seq<char>, Seq<char>)>, visited: Seq<Seq<char>>) -> nat
    decreases repo.len(),
{
    if repo.len() == 0 {
        0
    } else {
        (if visited.contains(repo[0].0) {
            0nat
        } else {
            1nat
        }) + unvisited(repo.skip(1), visited)
    }
}

/// Enough nesting depth for any build against `repo`: each level of
/// includes expands a file that no level above it has expanded.
pub open spec fn include_fuel(repo: Seq<(Seq<char>, Seq<char>)>) -> nat {
    repo.len() + 1
}

/// The expansions of the first `n` include sites of a text in `dir`, one
/// after the other, and the paths visited after them; `visited` holds the
/// paths already expanded in this build, and `fuel` bounds the nesting.
pub open spec fn expand_sites(
    sites: Seq<(int, int, Seq<char>)>,
    n: int,
    dir: Seq<char>,
    visited: Seq<Seq<char>>,
    repo: Seq<(Seq<char>, Seq<char>)>,
    fuel: nat,
) -> Result<(Seq<Seq<char>>, Seq<Seq<char>>), ErrorView>
    decreases fuel, n,
{
    if n <= 0 {
        Ok((seq![], visited))
    } else {
        match expand_sites(sites, n - 1, dir, visited, repo, fuel) {
            Err(e) => Err(e),
            Ok((reps, v)) => match include_target(dir, sites[n - 1].2) {
                None => Err(ErrorView::InvalidIncludePath(sites[n - 1].2)),
                Some(q) => match visit_path(q, v, repo, fuel) {
                    Err(e) => Err(e),
                    Ok((r, v2)) => Ok((reps.push(r), v2)),
                },
            },
        }
    }
}

/// The expansion of the file at `p`: empty where its path was expanded
/// before in this build, else its source with every include line replaced
/// by the expansion of the file it names, relative to the directory of `p`.
pub open spec fn visit_path(
    p: Seq<char>,
    visited: Seq<Seq<char>>,
    repo: Seq<(Seq<char>, Seq<char>)>,
    fuel: nat,
) -> Result<(Seq<char>, Seq<Seq<char>>), ErrorView>
    decreases fuel, 0int,
{
    let key = rooted(p);
    if visited.contains(key) {
        Ok((seq![], visited))
    } else {
        match lookup(repo, key) {
            None => Err(ErrorView::FileNotFound(key)),
            Some(t) => if fuel == 0 {
                Err(ErrorView::FileNotFound(key))
            } else {
                let sites = include_sites(t);
                match expand_sites(
                    sites,
                    sites.len() as int,
                    parent_or_root(p),
                    visited.push(key),
                    repo,
                    (fuel - 1) as nat,
                ) {
                    Err(e) => Err(e),
                    Ok((reps, v)) => Ok((splice(t, site_ranges(sites), reps), v)),
                }
            },
        }
    }
}

/// `t`, read in `dir`, with every include line replaced by its expansion.
pub open spec fn expand_text(
    t: Seq<char>,
    dir: Seq<char>,
    visited: Seq<Seq<char>>,
    repo: Seq<(Seq<char>, Seq<char>)>,
) -> Result<(Seq<char>, Seq<Seq<char>>), ErrorView> {
    let sites = include_sites(t);
    match expand_sites(sites, sites.len() as int, dir, visited, repo, include_fuel(repo)) {
        Err(e) => Err(e),
        Ok((reps, v)) => Ok((splice(t, site_ranges(sites), reps), v)),
    }
}

/// The expansion of one included fragment. Inline text and nested builders
/// stand at most once among a builder's includes, so only files can come
/// back within one build.
pub open spec fn resolve_shader(
    s: ShaderView,
    visited: Seq<Seq<char>>,
    repo: Seq<(Seq<char>, Seq<char>)>,
) -> Result<(Seq<char>, Seq<Seq<char>>), ErrorView>
    decreases s,
{
    match s {
        ShaderView::Source(t) => expand_text(t, root(), visited, repo),
        ShaderView::Path(p) => visit_path(p, visited, repo, include_fuel(repo)),
        ShaderView::Builder(b) => match build_result(b, repo) {
            Err(e) => Err(e),
            Ok(t) => expand_text(t, root(), visited, repo),
        },
    }
}

/// The expansions of `incs`, concatenated in order, sharing one set of
/// visited paths that starts empty.
pub open spec fn resolve_all(incs: Seq<ShaderView>, repo: Seq<(Seq<char>, Seq<char>)>) -> Result<
    (Seq<char>, Seq<Seq<char>>),
    ErrorView,
>
    decreases incs,
{
    if incs.len() == 0 {
        Ok((seq![], seq![]))
    } else {
        match resolve_all(incs.drop_last(), repo) {
            Err(e) => Err(e),
            Ok((t, v)) => match resolve_shader(incs.last(), v, repo) {
                Err(e) => Err(e),
                Ok((t2, v2)) => Ok((t + t2, v2)),
            },
        }
    }
}

/// The defines found in `raw`, in order.
pub open spec fn found_defines(raw: Seq<char>) -> Seq<(Seq<char>, Seq<char>)> {
    define_sites(raw).map_values(|s: (int, int, (Seq<char>, Seq<char>))| s.2)
}

/// `raw` without its define lines.
pub open spec fn strip_defines(raw: Seq<char>) -> Seq<char> {
    splice(raw, site_ranges(define_sites(raw)), empties(define_sites(raw).len()))
}

/// The last step of a build: the define lines leave the text, what they
/// define joins the builder's own defines (a key defined already keeps its
/// value), and every define is applied, longest key first.
pub open spec fn finish_defines(raw: Seq<char>, own: Seq<(Seq<char>, Seq<char>)>) -> Seq<char> {
    apply_defines(strip_defines(raw), merge_defines(own, found_defines(raw)))
}

/// The source that a builder produces.
pub open spec fn build_result(b: BuilderView, repo: Seq<(Seq<char>, Seq<char>)>) -> Result<
    Seq<char>,
    ErrorView,
>
    decreases b,
{
    match resolve_all(b.includes, repo) {
        Err(e) => Err(e),
        Ok((raw, v)) => Ok(finish_defines(raw, b.defines)),
    }
}

/// The text of a fragment before its includes are expanded.
pub open spec fn shader_text(s: ShaderView, repo: Seq<(Seq<char>, Seq<char>)>) -> Result<
    Seq<char>,
    ErrorView,
> {
    match s {
        ShaderView::Source(t) => Ok(t),
        ShaderView::Path(p) => match lookup(repo, rooted(p)) {
            Some(t) => Ok(t),
            None => Err(ErrorView::FileNotFound(rooted(p))),
        },
        ShaderView::Builder(b) => build_result(b, repo),
    }
}

/// The directory that includes of a fragment are read from.
pub open spec fn shader_dir(s: ShaderView) -> Seq<char> {
    match s {
        ShaderView::Path(p) => parent_or_root(p),
        _ => root(),
    }
}

// ---------------------------------------------------------------------------
// Expansion
// ---------------------------------------------------------------------------

/// The texts of exec strings.
pub open spec fn names(v: Seq<String>) -> Seq<Seq<char>> {
    v.map_values(|s: String| s@)
}

proof fn lemma_contains_push(v: Seq<Seq<char>>, k: Seq<char>, x: Seq<char>)
    ensures
        v.push(k).contains(x) <==> (v.contains(x) || x == k),
{
    let w = v.push(k);
    if v.contains(x) {
        let i = choose|i: int| 0 <= i < v.len() && v[i] == x;
        assert(w[i] == x);
    }
    if x == k {
        assert(w[v.len() as int] == x);
    }
    if w.contains(x) {
        let i = choose|i: int| 0 <= i < w.len() && w[i] == x;
        if i < v.len() {
            assert(v[i] == x);
        }
    }
}

pub proof fn lemma_unvisited_mono(repo: Seq<(Seq<char>, Seq<char>)>, v1: Seq<Seq<char>>, v2: Seq<Seq<char>>)
    requires
        forall|x: Seq<char>| v1.contains(x) ==> v2.contains(x),
    ensures
        unvisited(repo, v2) <= unvisited(repo, v1),
    decreases repo.len(),
{
    if repo.len() > 0 {
        lemma_unvisited_mono(repo.skip(1), v1, v2);
    }
}

pub proof fn lemma_unvisited_push(repo: Seq<(Seq<char>, Seq<char>)>, v: Seq<Seq<char>>, k: Seq<char>)
    ensures
        unvisited(repo, v.push(k)) <= unvisited(repo, v),
        lookup(repo, k) is Some && !v.contains(k) ==> unvisited(repo, v.push(k)) < unvisited(
            repo,
            v,
        ),
    decreases repo.len(),
{
    assert forall|x: Seq<char>| v.contains(x) implies v.push(k).contains(x) by {
        lemma_contains_push(v, k, x);
    }
    if repo.len() > 0 {
        lemma_unvisited_push(repo.skip(1), v, k);
        lemma_contains_push(v, k, repo[0].0);
    }
}

pub proof fn lemma_unvisited_bound(repo: Seq<(Seq<char>, Seq<char>)>, v: Seq<Seq<char>>)
    ensures
        unvisited(repo, v) <= repo.len(),
    decreases repo.len(),
{
    if repo.len() > 0 {
        lemma_unvisited_bound(repo.skip(1), v);
    }
}

proof fn lemma_expand_error(
    sites: Seq<(int, int, Seq<char>)>,
    k: int,
    n: int,
    dir: Seq<char>,
    visited: Seq<Seq<char>>,
    repo: Seq<(Seq<char>, Seq<char>)>,
    fuel: nat,
)
    requires
        0 <= k < n,
        expand_sites(sites, k + 1, dir, visited, repo, fuel) is Err,
    ensures
        expand_sites(sites, n, dir, visited, repo, fuel) == expand_sites(
            sites,
            k + 1,
            dir,
            visited,
            repo,
            fuel,
        ),
    decreases n,
{
    if n > k + 1 {
        lemma_expand_error(sites, k, n - 1, dir, visited, repo, fuel);
    }
}

/// `new` starts with `old`: entries are only ever added at the end.
pub open spec fn extends(old: Seq<String>, new: Seq<String>) -> bool {
    old.len() <= new.len() && new.take(old.len() as int) == old
}

proof fn lemma_extends_trans(a: Seq<String>, b: Seq<String>, c: Seq<String>)
    requires
        extends(a, b),
        extends(b, c),
    ensures
        extends(a, c),
{
    assert(c.take(a.len() as int) =~= c.take(b.len() as int).take(a.len() as int));
}

/// `t`, read in the directory `dir`, with every `#include` line replaced
/// by the expansion of the file it names. `visited` holds the paths already
/// expanded in this build: it only grows, and gains the paths expanded
/// here. Only file paths enter it: inline text and nested builders stand
/// at most once among a builder's includes, so they are never met twice.
pub fn expand_includes(
    t: &Vec<char>,
    dir: &String,
    visited: &mut Vec<String>,
    repo: &SourceRepository,
) -> (r: Result<Vec<char>, ShaderError>)
    ensures
        extends(old(visited)@, final(visited)@),
        match expand_text(t@, dir@, names(old(visited)@), repo@) {
            Ok((x, v)) => r matches Ok(y) && y@ == x && names(final(visited)@) == v,
            Err(e) => r matches Err(y) && y@ == e,
        },
{
    proof {
        lemma_unvisited_bound(repo@, names(visited@));
    }
    expand_with_fuel(t, dir, visited, repo, Ghost(include_fuel(repo@)))
}

/// Whether `key` is among `visited`.
fn contains_name(visited: &Vec<String>, key: &String) -> (r: bool)
    ensures
        r == names(visited@).contains(key@),
{
    let mut i: usize = 0;
    while i < visited.len()
        invariant
            i <= visited@.len(),
            forall|j: int| 0 <= j < i ==> visited@[j]@ != key@,
        decreases visited@.len() - i,
    {
        if visited[i] == *key {
            assert(names(visited@)[i as int] == key@);
            return true;
        }
        i = i + 1;
    }
    proof {
        if names(visited@).contains(key@) {
            let j = choose|j: int| 0 <= j < names(visited@).len() && names(visited@)[j] == key@;
            assert(visited@[j]@ == key@);
        }
    }
    false
}

/// The expansion of the file at `p`.
fn visit(p: &String, visited: &mut Vec<String>, repo: &SourceRepository, Ghost(fuel): Ghost<nat>) -> (r:
    Result<Vec<char>, ShaderError>)
    requires
        fuel > unvisited(repo@, names(old(visited)@)),
    ensures
        unvisited(repo@, names(final(visited)@)) <= unvisited(repo@, names(old(visited)@)),
        extends(old(visited)@, final(visited)@),
        names(old(visited)@).contains(rooted(p@)) ==> final(visited)@ == old(visited)@,
        lookup(repo@, rooted(p@)) is None ==> final(visited)@ == old(visited)@,
        match visit_path(p@, names(old(visited)@), repo@, fuel) {
            Ok((t, v)) => r matches Ok(x) && x@ == t && names(final(visited)@) == v,
            Err(e) => r matches Err(x) && x@ == e,
        },
    decreases fuel, 0nat,
{
    let key = rooted_path(p.as_str());
    if contains_name(visited, &key) {
        assert(visited@.take(visited@.len() as int) =~= visited@);
        return Ok(Vec::new());
    }
    assert(visited@.take(visited@.len() as int) =~= visited@);
    match repo.get(key.as_str()) {
        None => Err(ShaderError::FileNotFound(key)),
        Some(source) => {
            let ghost before = names(visited@);
            proof {
                lemma_unvisited_push(repo@, before, key@);
            }
            let ghost e0 = visited@;
            visited.push(key);
            assert(names(visited@) =~= before.push(key@));
            assert(extends(e0, visited@)) by {
                assert(visited@.take(e0.len() as int) =~= e0);
            }
            let t = chars_of(source.as_str());
            let dir = parent_dir(p.as_str());
            let ghost e1 = visited@;
            let r = expand_with_fuel(&t, &dir, visited, repo, Ghost((fuel - 1) as nat));
            proof {
                lemma_extends_trans(e0, e1, visited@);
            }
            r
        },
    }
}

/// `t`, read in `dir`, with every include line replaced by its expansion.
fn expand_with_fuel(
    t: &Vec<char>,
    dir: &String,
    visited: &mut Vec<String>,
    repo: &SourceRepository,
    Ghost(fuel): Ghost<nat>,
) -> (r: Result<Vec<char>, ShaderError>)
    requires
        fuel > unvisited(repo@, names(old(visited)@)),
    ensures
        unvisited(repo@, names(final(visited)@)) <= unvisited(repo@, names(old(visited)@)),
        extends(old(visited)@, final(visited)@),
        match expand_sites(
            include_sites(t@),
            include_sites(t@).len() as int,
            dir@,
            names(old(visited)@),
            repo@,
            fuel,
        ) {
            Ok((reps, v)) => r matches Ok(x) && x@ == splice(
                t@,
                site_ranges(include_sites(t@)),
                reps,
            ) && names(final(visited)@) == v,
            Err(e) => r matches Err(x) && x@ == e,
        },
    decreases fuel, 1nat,
{
    let sites = scan_includes(t);
    let ghost ss = include_sites(t@);
    let ghost rs = site_ranges(ss);
    let ghost v0 = names(visited@);
    let ghost e0 = visited@;
    assert(e0.take(e0.len() as int) =~= e0);
    proof {
        lemma_site_ranges_ordered(t@, include_parser());
    }
    let mut out: Vec<char> = Vec::new();
    let mut c: usize = 0;
    let mut k: usize = 0;
    let ghost mut reps: Seq<Seq<char>> = seq![];
    while k < sites.len()
        invariant
            ss == include_sites(t@),
            rs == site_ranges(ss),
            v0 == names(old(visited)@),
            e0 == old(visited)@,
            extends(e0, visited@),
            include_site_views(sites@) == ss,
            ranges_ordered(rs, t@.len() as int),
            k <= sites@.len(),
            c <= t@.len(),
            k == 0 ==> c == 0,
            k > 0 ==> c == rs[k - 1].1,
            reps.len() == k,
            out@ == splice(t@.take(c as int), rs.take(k as int), reps),
            expand_sites(ss, k as int, dir@, v0, repo@, fuel) == Ok::<
                (Seq<Seq<char>>, Seq<Seq<char>>),
                ErrorView,
            >((reps, names(visited@))),
            fuel > unvisited(repo@, names(visited@)),
            unvisited(repo@, names(visited@)) <= unvisited(repo@, v0),
        decreases sites@.len() - k,
    {
        let s = sites[k].0;
        let e = sites[k].1;
        assert(ss[k as int] == (s as int, e as int, sites@[k as int].2@));
        assert(rs[k as int] == (s as int, e as int));
        assert(k > 0 ==> rs[k - 1].1 < rs[k as int].0);
        let raw = string_of(&sites[k].2);
        match resolve_include_path(dir.as_str(), raw.as_str()) {
            None => {
                proof {
                    lemma_expand_error(ss, k as int, ss.len() as int, dir@, v0, repo@, fuel);
                }
                return Err(ShaderError::InvalidIncludePath(raw));
            },
            Some(q) => {
                let ghost e1 = visited@;
                let vr = visit(&q, visited, repo, Ghost(fuel));
                proof {
                    lemma_extends_trans(e0, e1, visited@);
                }
                match vr {
                    Err(x) => {
                        proof {
                            lemma_expand_error(ss, k as int, ss.len() as int, dir@, v0, repo@, fuel);
                        }
                        return Err(x);
                    },
                    Ok(x) => {
                        proof {
                            assert(rs.take(k as int + 1) =~= rs.take(k as int).push(
                                (s as int, e as int),
                            ));
                            lemma_splice_step(
                                t@,
                                rs.take(k as int),
                                reps,
                                c as int,
                                s as int,
                                e as int,
                                x@,
                            );
                        }
                        append_range(&mut out, t, c, s);
                        append_range(&mut out, &x, 0, x.len());
                        assert(x@.subrange(0, x@.len() as int) =~= x@);
                        proof {
                            reps = reps.push(x@);
                        }
                        c = e;
                        k = k + 1;
                    },
                }
            },
        }
    }
    proof {
        assert(rs.take(k as int) =~= rs);
        lemma_splice_prefix(t@, rs, reps, c as int, t@.len() as int);
        assert(t@.take(t@.len() as int) =~= t@);
    }
    append_range(&mut out, t, c, t.len());
    Ok(out)
}

proof fn lemma_shader_views(s: Seq<Shader>)
    ensures
        shader_views(s).len() == s.len(),
        forall|i: int| 0 <= i < s.len() ==> shader_views(s)[i] == shader_view(#[trigger] s[i]),
    decreases s.len(),
{
    if s.len() > 0 {
        lemma_shader_views(s.drop_last());
        assert forall|i: int| 0 <= i < s.len() implies shader_views(s)[i] == shader_view(
            #[trigger] s[i],
        ) by {
            if i < s.len() - 1 {
                assert(s.drop_last()[i] == s[i]);
            }
        }
    }
}

pub proof fn lemma_resolve_all_error(incs: Seq<ShaderView>, k: int, n: int, repo: Seq<(Seq<char>, Seq<char>)>)
    requires
        0 <= k < n <= incs.len(),
        resolve_all(incs.take(k + 1), repo) is Err,
    ensures
        resolve_all(incs.take(n), repo) == resolve_all(incs.take(k + 1), repo),
    decreases n,
{
    if n > k + 1 {
        lemma_resolve_all_error(incs, k, n - 1, repo);
        assert(incs.take(n).drop_last() =~= incs.take(n - 1));
    }
}

/// The expansion of one included fragment.
fn resolve(s: &Shader, visited: &mut Vec<String>, repo: &SourceRepository) -> (r: Result<
    Vec<char>,
    ShaderError,
>)
    ensures
        extends(old(visited)@, final(visited)@),
        match resolve_shader(s@, names(old(visited)@), repo@) {
            Ok((t, v)) => r matches Ok(x) && x@ == t && names(final(visited)@) == v,
            Err(e) => r matches Err(x) && x@ == e,
        },
    decreases s,
{
    proof {
        lemma_unvisited_bound(repo@, names(visited@));
    }
    assert(visited@.take(visited@.len() as int) =~= visited@);
    match s {
        Shader::Source(t) => {
            let text = chars_of(t.as_str());
            let dir = root_path();
            expand_includes(&text, &dir, visited, repo)
        },
        Shader::Path(p) => visit(p, visited, repo, Ghost(include_fuel(repo@))),
        Shader::Builder(b) => match b.build_text(repo) {
            Err(e) => Err(e),
            Ok(text) => {
                let dir = root_path();
                expand_includes(&text, &dir, visited, repo)
            },
        },
    }
}

/// Whether `a` and `b` hold the same text.
fn same_text(a: &Vec<char>, b: &Vec<char>) -> (r: bool)
    ensures
        r == (a@ == b@),
{
    if a.len() != b.len() {
        return false;
    }
    let mut i: usize = 0;
    while i < a.len()
        invariant
            i <= a@.len() == b@.len(),
            a@.take(i as int) == b@.take(i as int),
        decreases a@.len() - i,
    {
        if a[i] != b[i] {
            return false;
        }
        assert(a@.take(i + 1) =~= a@.take(i as int).push(a@[i as int]));
        assert(b@.take(i + 1) =~= b@.take(i as int).push(b@[i as int]));
        i = i + 1;
    }
    assert(a@.take(i as int) =~= a@);
    assert(b@.take(i as int) =~= b@);
    true
}

/// Whether two lists of pairs of texts are the same.
fn same_pairs(a: &Vec<(Vec<char>, Vec<char>)>, b: &Vec<(Vec<char>, Vec<char>)>) -> (r: bool)
    ensures
        r == (pair_views(a@) == pair_views(b@)),
{
    assert(pair_views(a@).len() == a@.len() && pair_views(b@).len() == b@.len());
    if a.len() != b.len() {
        return false;
    }
    let mut i: usize = 0;
    while i < a.len()
        invariant
            i <= a@.len() == b@.len(),
            forall|j: int| 0 <= j < i ==> pair_views(a@)[j] == pair_views(b@)[j],
        decreases a@.len() - i,
    {
        if !same_text(&a[i].0, &b[i].0) || !same_text(&a[i].1, &b[i].1) {
            assert(pair_views(a@)[i as int] != pair_views(b@)[i as int]);
            return false;
        }
        i = i + 1;
    }
    assert(pair_views(a@) =~= pair_views(b@));
    true
}

impl Shader {
    /// Whether `self` and `other` stand for the same fragment: the same
    /// text, the same path, or builders with the same includes and defines
    /// in the same order.
    pub fn same_as(&self, other: &Shader) -> (r: bool)
        ensures
            r == (self@ == other@),
        decreases self,
    {
        match (self, other) {
            (Shader::Source(x), Shader::Source(y)) => *x == *y,
            (Shader::Path(x), Shader::Path(y)) => *x == *y,
            (Shader::Builder(x), Shader::Builder(y)) => x.same_as(y),
            _ => false,
        }
    }

    /// The directory that includes of this fragment are read from: the
    /// directory of its file, or the root.
    pub fn get_parent(&self) -> (r: String)
        ensures
            r@ == shader_dir(self@),
            self matches Shader::Path(p) ==> r@ == parent_or_root(p@),
            !(self is Path) ==> r@ == root(),
    {
        match self {
            Shader::Path(p) => parent_dir(p.as_str()),
            _ => root_path(),
        }
    }

    /// The text of this fragment before its includes are expanded: its own
    /// text, the source of its file, or what its builder produces.
    pub fn build(self, repo: &SourceRepository) -> (r: Result<String, ShaderError>)
        ensures
            string_result(r, shader_text(self@, repo@)),
            self matches Shader::Source(t) ==> (r matches Ok(x) && x@ == t@),
            self matches Shader::Path(p) ==> string_result(
                r,
                match lookup(repo@, rooted(p@)) {
                    Some(t) => Ok(t),
                    None => Err(ErrorView::FileNotFound(rooted(p@))),
                },
            ),
            self matches Shader::Builder(b) ==> string_result(r, build_result(b@, repo@)),
    {
        match self {
            Shader::Source(t) => Ok(t),
            Shader::Path(p) => {
                let key = rooted_path(p.as_str());
                match repo.get(key.as_str()) {
                    Some(t) => Ok(t),
                    None => Err(ShaderError::FileNotFound(key)),
                }
            },
            Shader::Builder(mut b) => b.build_source(repo),
        }
    }
}

/// `b` with `s` added after its includes, unless it is among them already.
pub open spec fn with_include(b: BuilderView, s: ShaderView) -> BuilderView {
    if b.includes.contains(s) {
        b
    } else {
        BuilderView { includes: b.includes.push(s), defines: b.defines }
    }
}

impl Default for ShaderBuilder {
    fn default() -> (r: Self)
        ensures
            r@ == (BuilderView { includes: seq![], defines: seq![] }),
    {
        ShaderBuilder::new()
    }
}

impl ShaderBuilder {
    /// A builder with no include and no define.
    pub fn new() -> (r: Self)
        ensures
            r@ == (BuilderView { includes: seq![], defines: seq![] }),
    {
        let r = ShaderBuilder { include_directives: Vec::new(), define_directives: new_table() };
        assert(shader_views(r.include_directives@) =~= Seq::<ShaderView>::empty());
        r
    }

    /// Whether `self` and `other` hold the same includes and defines, in
    /// the same order.
    pub fn same_as(&self, other: &ShaderBuilder) -> (r: bool)
        ensures
            r == (self@ == other@),
        decreases self,
    {
        proof {
            lemma_shader_views(self.include_directives@);
            lemma_shader_views(other.include_directives@);
        }
        if self.include_directives.len() != other.include_directives.len() {
            return false;
        }
        let mut i: usize = 0;
        while i < self.include_directives.len()
            invariant
                i <= self.include_directives@.len() == other.include_directives@.len(),
                forall|j: int| 0 <= j < i ==> self@.includes[j] == other@.includes[j],
                self@.includes.len() == self.include_directives@.len(),
                other@.includes.len() == other.include_directives@.len(),
                forall|j: int|
                    0 <= j < self.include_directives@.len() ==> self@.includes[j] == shader_view(
                        #[trigger] self.include_directives@[j],
                    ),
                forall|j: int|
                    0 <= j < other.include_directives@.len() ==> other@.includes[j] == shader_view(
                        #[trigger] other.include_directives@[j],
                    ),
            decreases self.include_directives@.len() - i,
        {
            if !self.include_directives[i].same_as(&other.include_directives[i]) {
                assert(self@.includes[i as int] != other@.includes[i as int]);
                return false;
            }
            i = i + 1;
        }
        assert(self@.includes =~= other@.includes);
        let a = table_pairs(&self.define_directives);
        let b = table_pairs(&other.define_directives);
        same_pairs(&a, &b)
    }

    /// Adds `shader` after the includes, unless the same fragment is
    /// already among them.
    pub fn include_shader(&mut self, shader: Shader)
        ensures
            final(self)@ == with_include(old(self)@, shader@),
    {
        proof {
            lemma_shader_views(self.include_directives@);
        }
        let mut i: usize = 0;
        while i < self.include_directives.len()
            invariant
                i <= self.include_directives@.len(),
                self@.includes.len() == self.include_directives@.len(),
                forall|j: int|
                    0 <= j < self.include_directives@.len() ==> self@.includes[j] == shader_view(
                        #[trigger] self.include_directives@[j],
                    ),
                forall|j: int| 0 <= j < i ==> self@.includes[j] != shader@,
            decreases self.include_directives@.len() - i,
        {
            if self.include_directives[i].same_as(&shader) {
                assert(self@.includes[i as int] == shader@);
                return;
            }
            i = i + 1;
        }
        let ghost before = self.include_directives@;
        self.include_directives.push(shader);
        proof {
            assert(self.include_directives@.drop_last() =~= before);
            assert(!old(self)@.includes.contains(shader@));
        }
    }

    /// Adds the file at `path` after the includes, unless it is already
    /// among them.
    pub fn include_path(&mut self, path: String)
        ensures
            final(self)@ == with_include(old(self)@, ShaderView::Path(path@)),
    {
        self.include_shader(Shader::Path(path))
    }

    /// Defines `key` as `value`; a key defined before takes the new value
    /// and moves to the back.
    pub fn define(&mut self, key: String, value: String)
        ensures
            final(self)@ == (BuilderView {
                includes: old(self)@.includes,
                defines: set_entry(old(self)@.defines, key@, value@),
            }),
    {
        table_insert(&mut self.define_directives, key, value);
    }

    /// The source this builder produces, leaving it empty: building twice
    /// gives the empty text the second time.
    pub fn build_source(&mut self, repo: &SourceRepository) -> (r: Result<String, ShaderError>)
        ensures
            string_result(r, build_result(old(self)@, repo@)),
            final(self)@ == (BuilderView { includes: seq![], defines: seq![] }),
    {
        let r = self.build_text(repo);
        *self = ShaderBuilder::new();
        match r {
            Ok(t) => Ok(string_of(&t)),
            Err(e) => Err(e),
        }
    }

    /// The source this builder produces, as characters.
    fn build_text(&self, repo: &SourceRepository) -> (r: Result<Vec<char>, ShaderError>)
        ensures
            text_result(r, build_result(self@, repo@)),
        decreases self,
    {
        let ghost incs = self@.includes;
        proof {
            lemma_shader_views(self.include_directives@);
            assert(incs.take(0) =~= Seq::<ShaderView>::empty());
        }
        let mut visited: Vec<String> = Vec::new();
        let mut raw: Vec<char> = Vec::new();
        assert(names(visited@) =~= Seq::<Seq<char>>::empty());
        let mut i: usize = 0;
        while i < self.include_directives.len()
            invariant
                incs == self@.includes,
                i <= self.include_directives@.len(),
                incs.len() == self.include_directives@.len(),
                forall|j: int|
                    0 <= j < self.include_directives@.len() ==> incs[j] == shader_view(
                        #[trigger] self.include_directives@[j],
                    ),
                resolve_all(incs.take(i as int), repo@) == Ok::<
                    (Seq<char>, Seq<Seq<char>>),
                    ErrorView,
                >((raw@, names(visited@))),
            decreases self.include_directives@.len() - i,
        {
            assert(incs.take(i + 1).drop_last() =~= incs.take(i as int));
            assert(incs.take(i + 1).last() == shader_view(self.include_directives@[i as int]));
            match resolve(&self.include_directives[i], &mut visited, repo) {
                Err(e) => {
                    proof {
                        lemma_resolve_all_error(incs, i as int, incs.len() as int, repo@);
                        assert(incs.take(incs.len() as int) =~= incs);
                    }
                    return Err(e);
                },
                Ok(x) => {
                    raw = concat(&raw, &x);
                },
            }
            i = i + 1;
        }
        assert(incs.take(i as int) =~= incs);
        let sites = scan_defines(&raw);
        let ghost ds = define_sites(raw@);
        let mut ranges: Vec<(usize, usize)> = Vec::new();
        let mut found: Vec<(Vec<char>, Vec<char>)> = Vec::new();
        let mut j: usize = 0;
        while j < sites.len()
            invariant
                ds == define_sites(raw@),
                define_site_views(sites@) == ds,
                j <= sites@.len(),
                range_views(ranges@) == site_ranges(ds).take(j as int),
                pair_views(found@) == found_defines(raw@).take(j as int),
            decreases sites@.len() - j,
        {
            let ghost (r0, f0) = (ranges@, found@);
            ranges.push((sites[j].0, sites[j].1));
            found.push((sites[j].2.0.clone(), sites[j].2.1.clone()));
            assert(range_views(ranges@) =~= range_views(r0).push(site_ranges(ds)[j as int]));
            assert(pair_views(found@) =~= pair_views(f0).push(found_defines(raw@)[j as int]));
            assert(site_ranges(ds).take(j + 1) =~= site_ranges(ds).take(j as int).push(
                site_ranges(ds)[j as int],
            ));
            assert(found_defines(raw@).take(j + 1) =~= found_defines(raw@).take(j as int).push(
                found_defines(raw@)[j as int],
            ));
            j = j + 1;
        }
        proof {
            assert(site_ranges(ds).take(j as int) =~= site_ranges(ds));
            assert(found_defines(raw@).take(j as int) =~= found_defines(raw@));
            lemma_site_ranges_ordered(raw@, define_parser());
        }
        let stripped = remove_ranges(&raw, &ranges);
        let mut table = table_clone(&self.define_directives);
        add_found_defines(&mut table, &found);
        Ok(apply_table(stripped, &table))
    }
}

// ---------------------------------------------------------------------------
// Renaming of functions
// ---------------------------------------------------------------------------

/// The text of a call of `name`: the name and an opening parenthesis.
pub open spec fn call_of(name: Seq<char>) -> Seq<char> {
    name.push('(')
}

/// `s` with every `from` in its text rewritten to `to`: inline text is
/// rewritten at once, a file goes into a builder that defines `from` as
/// `to`, and a builder gets that define.
pub open spec fn renamed(s: ShaderView, from: Seq<char>, to: Seq<char>) -> ShaderView {
    match s {
        ShaderView::Source(t) => ShaderView::Source(replace_all(t, from, to)),
        ShaderView::Path(p) => ShaderView::Builder(
            BuilderView { includes: seq![ShaderView::Path(p)], defines: seq![(from, to)] },
        ),
        ShaderView::Builder(b) => ShaderView::Builder(
            BuilderView { includes: b.includes, defines: set_entry(b.defines, from, to) },
        ),
    }
}

/// Whether `c` is an ASCII letter.
pub open spec fn is_ascii_letter(c: char) -> bool {
    ('a' <= c && c <= 'z') || ('A' <= c && c <= 'Z')
}

/// Relies on `rand::seq::IteratorRandom::choose_multiple` with the thread's
/// generator: `amount` items of `items`, or all of them where there are
/// fewer.
#[verifier::external_body]
fn choose_multiple(items: &Vec<char>, amount: usize) -> (r: Vec<char>)
    ensures
        r@.len() == if amount <= items@.len() {
            amount as int
        } else {
            items@.len() as int
        },
        forall|i: int| 0 <= i < r@.len() ==> items@.contains(#[trigger] r@[i]),
{
    items.iter().copied().choose_multiple(&mut rand::thread_rng(), amount)
}

/// The ASCII letters, each lower-case letter followed by its upper case.
fn ascii_letters() -> (r: Vec<char>)
    ensures
        r@.len() == 52,
        forall|i: int| 0 <= i < r@.len() ==> is_ascii_letter(#[trigger] r@[i]),
{
    let mut r: Vec<char> = Vec::new();
    let mut n: u8 = 0;
    while n < 26
        invariant
            n <= 26,
            r@.len() == 2 * n,
            forall|i: int| 0 <= i < r@.len() ==> is_ascii_letter(#[trigger] r@[i]),
        decreases 26 - n,
    {
        let lower = (97u8 + n) as char;
        let upper = (65u8 + n) as char;
        r.push(lower);
        r.push(upper);
        n = n + 1;
    }
    r
}

impl Shader {
    /// Rewrites every call `func_name(` to `new_name(` in this fragment.
    pub fn rename_fn(&mut self, func_name: &str, new_name: &str)
        ensures
            final(self)@ == renamed(old(self)@, call_of(func_name@), call_of(new_name@)),
            *old(self) matches Shader::Source(t) ==> (*final(self) matches Shader::Source(u) && u@
                == replace_all(t@, call_of(func_name@), call_of(new_name@)) ),
            *old(self) matches Shader::Path(p) ==> (*final(self) matches Shader::Builder(b) && b@
                == (BuilderView {
                includes: seq![ShaderView::Path(p@)],
                defines: seq![(call_of(func_name@), call_of(new_name@))],
            })),
            *old(self) matches Shader::Builder(b0) ==> (*final(self) matches Shader::Builder(b) && b@
                == (BuilderView {
                includes: b0@.includes,
                defines: set_entry(b0@.defines, call_of(func_name@), call_of(new_name@)),
            })),
    {
        let mut from = chars_of(func_name);
        from.push('(');
        let mut to = chars_of(new_name);
        to.push('(');
        let mut taken = Shader::Source(String::new());
        std::mem::swap(self, &mut taken);
        let result = match taken {
            Shader::Source(t) => {
                let text = chars_of(t.as_str());
                let r = replace_text(&text, &from, &to);
                Shader::Source(string_of(&r))
            },
            Shader::Path(p) => {
                let mut b = ShaderBuilder::new();
                b.include_shader(Shader::Path(p));
                b.define(string_of(&from), string_of(&to));
                proof {
                    assert(!Seq::<ShaderView>::empty().contains(ShaderView::Path(p@)));
                    assert(seq![ShaderView::Path(p@)] =~= Seq::<ShaderView>::empty().push(
                        ShaderView::Path(p@),
                    ));
                    assert(set_entry(Seq::empty(), from@, to@) =~= seq![(from@, to@)]);
                }
                Shader::Builder(b)
            },
            Shader::Builder(mut b) => {
                b.define(string_of(&from), string_of(&to));
                Shader::Builder(b)
            },
        };
        *self = result;
    }

    /// Rewrites every call `func_name(` in this fragment to a call of a
    /// fresh name of sixteen random ASCII letters, and returns that name.
    pub fn obfuscate_fn(&mut self, func_name: &str) -> (r: String)
        ensures
            r@.len() == 16,
            forall|i: int| 0 <= i < r@.len() ==> is_ascii_letter(#[trigger] r@[i]),
            final(self)@ == renamed(old(self)@, call_of(func_name@), call_of(r@)),
            *old(self) matches Shader::Source(t) ==> (*final(self) matches Shader::Source(u) && u@
                == replace_all(t@, call_of(func_name@), call_of(r@)) ),
            *old(self) matches Shader::Path(p) ==> (*final(self) matches Shader::Builder(b) && b@
                == (BuilderView {
                includes: seq![ShaderView::Path(p@)],
                defines: seq![(call_of(func_name@), call_of(r@))],
            })),
            *old(self) matches Shader::Builder(b0) ==> (*final(self) matches Shader::Builder(b) && b@
                == (BuilderView {
                includes: b0@.includes,
                defines: set_entry(b0@.defines, call_of(func_name@), call_of(r@)),
            })),
    {
        let letters = ascii_letters();
        let chosen = choose_multiple(&letters, 16);
        let name = string_of(&chosen);
        self.rename_fn(func_name, name.as_str());
        name
    }
}

} // verus!
