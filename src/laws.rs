//! Laws of the preprocessor, stated over the meaning of a build.
use vstd::prelude::*;

use crate::defines::{by_key_length, insert_by_length};
use crate::paths::{include_target, parent_or_root, rooted};
use crate::paths::root;
use crate::shader::{
    include_fuel, lemma_resolve_all_error, lemma_unvisited_mono, lemma_unvisited_push, unvisited, build_result, expand_sites, lookup, resolve_all, resolve_shader, visit_path, with_include,
    BuilderView, ErrorView, ShaderBuilder, ShaderView,
};
use crate::text::{empties, include_sites, site_ranges, splice};

verus! {

/// Adding a fragment that a builder includes already changes nothing, so
/// including one fragment twice is including it once.
pub proof fn law_include_idempotent(b: BuilderView, s: ShaderView)
    ensures
        with_include(with_include(b, s), s) == with_include(b, s),
{
    if !b.includes.contains(s) {
        let w = b.includes.push(s);
        assert(w[w.len() - 1] == s);
    }
}

proof fn lemma_visit_grows(
    p: Seq<char>,
    v: Seq<Seq<char>>,
    repo: Seq<(Seq<char>, Seq<char>)>,
    fuel: nat,
)
    ensures
        visit_path(p, v, repo, fuel) matches Ok((t, v2)) ==> v2.contains(rooted(p)) && forall|
            x: Seq<char>,
        | v.contains(x) ==> v2.contains(x),
    decreases fuel, 0int,
{
    let key = rooted(p);
    if !v.contains(key) && lookup(repo, key) is Some && fuel > 0 {
        let t = lookup(repo, key)->Some_0;
        let sites = include_sites(t);
        let vk = v.push(key);
        assert(vk[v.len() as int] == key);
        assert forall|x: Seq<char>| v.contains(x) implies vk.contains(x) by {
            let i = choose|i: int| 0 <= i < v.len() && v[i] == x;
            assert(vk[i] == x);
        }
        lemma_sites_grow(sites, sites.len() as int, parent_or_root(p), vk, repo, (fuel - 1) as nat);
    }
}

proof fn lemma_sites_grow(
    sites: Seq<(int, int, Seq<char>)>,
    n: int,
    dir: Seq<char>,
    v: Seq<Seq<char>>,
    repo: Seq<(Seq<char>, Seq<char>)>,
    fuel: nat,
)
    ensures
        expand_sites(sites, n, dir, v, repo, fuel) matches Ok((reps, v2)) ==> forall|x: Seq<char>|
            v.contains(x) ==> v2.contains(x),
    decreases fuel, n,
{
    if n > 0 {
        lemma_sites_grow(sites, n - 1, dir, v, repo, fuel);
        if let Ok((reps, v1)) = expand_sites(sites, n - 1, dir, v, repo, fuel) {
            if let Some(q) = include_target(dir, sites[n - 1].2) {
                lemma_visit_grows(q, v1, repo, fuel);
            }
        }
    }
}

/// Once a file has been expanded in a build, any later include of the same
/// file in that build expands to nothing and changes nothing.
pub proof fn law_expanded_file_elided(
    p: Seq<char>,
    q: Seq<char>,
    v: Seq<Seq<char>>,
    repo: Seq<(Seq<char>, Seq<char>)>,
    fuel: nat,
    later: nat,
)
    requires
        visit_path(p, v, repo, fuel) is Ok,
        rooted(q) == rooted(p),
    ensures
        visit_path(q, (visit_path(p, v, repo, fuel)->Ok_0).1, repo, later) == Ok::<
            (Seq<char>, Seq<Seq<char>>),
            ErrorView,
        >((seq![], (visit_path(p, v, repo, fuel)->Ok_0).1)),
{
    lemma_visit_grows(p, v, repo, fuel);
}

proof fn lemma_self_sites(
    sites: Seq<(int, int, Seq<char>)>,
    n: int,
    p: Seq<char>,
    v: Seq<Seq<char>>,
    repo: Seq<(Seq<char>, Seq<char>)>,
    fuel: nat,
)
    requires
        0 <= n <= sites.len(),
        v.contains(rooted(p)),
        forall|i: int|
            0 <= i < sites.len() ==> (#[trigger] include_target(parent_or_root(p), sites[i].2)
                matches Some(q) && rooted(q) == rooted(p)),
    ensures
        expand_sites(sites, n, parent_or_root(p), v, repo, fuel) == Ok::<
            (Seq<Seq<char>>, Seq<Seq<char>>),
            ErrorView,
        >((empties(n as nat), v)),
    decreases n,
{
    if n > 0 {
        lemma_self_sites(sites, n - 1, p, v, repo, fuel);
        let q = include_target(parent_or_root(p), sites[n - 1].2)->Some_0;
        assert(v.contains(rooted(q)));
        assert(visit_path(q, v, repo, fuel) == Ok::<(Seq<char>, Seq<Seq<char>>), ErrorView>(
            (Seq::<char>::empty(), v),
        ));
        assert(empties((n - 1) as nat).push(Seq::<char>::empty()) =~= empties(n as nat));
        assert(expand_sites(sites, n, parent_or_root(p), v, repo, fuel) == Ok::<
            (Seq<Seq<char>>, Seq<Seq<char>>),
            ErrorView,
        >((empties((n - 1) as nat).push(Seq::<char>::empty()), v)));
    } else {
        assert(empties(0) =~= Seq::<Seq<char>>::empty());
    }
}

/// A file whose includes all name the file itself expands, without error,
/// to its own source with every include line removed.
pub proof fn law_self_include(
    p: Seq<char>,
    v: Seq<Seq<char>>,
    repo: Seq<(Seq<char>, Seq<char>)>,
    fuel: nat,
)
    requires
        fuel > 0,
        !v.contains(rooted(p)),
        lookup(repo, rooted(p)) is Some,
        forall|i: int|
            0 <= i < include_sites(lookup(repo, rooted(p))->Some_0).len() ==> (#[trigger] include_target(
                parent_or_root(p),
                include_sites(lookup(repo, rooted(p))->Some_0)[i].2,
            ) matches Some(q) && rooted(q) == rooted(p)),
    ensures
        visit_path(p, v, repo, fuel) == Ok::<(Seq<char>, Seq<Seq<char>>), ErrorView>(
            (
                splice(
                    lookup(repo, rooted(p))->Some_0,
                    site_ranges(include_sites(lookup(repo, rooted(p))->Some_0)),
                    empties(include_sites(lookup(repo, rooted(p))->Some_0).len()),
                ),
                v.push(rooted(p)),
            ),
        ),
{
    let key = rooted(p);
    let t = lookup(repo, key)->Some_0;
    let sites = include_sites(t);
    let vk = v.push(key);
    assert(vk[v.len() as int] == key);
    lemma_self_sites(sites, sites.len() as int, p, vk, repo, (fuel - 1) as nat);
}

/// A builder that includes a file the repository does not hold fails with
/// `FileNotFound` for that file's path, and gives no text.
pub proof fn law_missing_file(
    p: Seq<char>,
    defines: Seq<(Seq<char>, Seq<char>)>,
    repo: Seq<(Seq<char>, Seq<char>)>,
)
    requires
        lookup(repo, rooted(p)) is None,
    ensures
        build_result(BuilderView { includes: seq![ShaderView::Path(p)], defines }, repo)
            == Err::<Seq<char>, ErrorView>(ErrorView::FileNotFound(rooted(p))),
{
    let incs = seq![ShaderView::Path(p)];
    assert(incs.drop_last() =~= Seq::<ShaderView>::empty());
    assert(!Seq::<Seq<char>>::empty().contains(rooted(p)));
    assert(resolve_all(incs, repo) == resolve_shader(ShaderView::Path(p), seq![], repo));
}

/// Two builders that hold the same includes and defines give the same
/// result: the same text, or the same error.
pub proof fn law_build_deterministic(
    a: ShaderBuilder,
    b: ShaderBuilder,
    repo: Seq<(Seq<char>, Seq<char>)>,
)
    requires
        a@ == b@,
    ensures
        build_result(a@, repo) == build_result(b@, repo),
{
}

/// The keys of `s` are in order of decreasing length.
pub open spec fn longest_first(s: Seq<(Seq<char>, Seq<char>)>) -> bool {
    forall|i: int, j: int| 0 <= i < j < s.len() ==> (#[trigger] s[i]).0.len() >= (#[trigger] s[j]).0.len()
}

proof fn lemma_insert_keeps_order(s: Seq<(Seq<char>, Seq<char>)>, e: (Seq<char>, Seq<char>))
    requires
        longest_first(s),
    ensures
        longest_first(insert_by_length(s, e)),
        insert_by_length(s, e).len() == s.len() + 1,
        forall|x: (Seq<char>, Seq<char>)|
            #[trigger] insert_by_length(s, e).contains(x) ==> (s.contains(x) || x == e),
        forall|x: (Seq<char>, Seq<char>)| #[trigger]
            s.contains(x) ==> insert_by_length(s, e).contains(x),
        insert_by_length(s, e).contains(e),
    decreases s.len(),
{
    let r = insert_by_length(s, e);
    if s.len() == 0 {
        assert forall|x: (Seq<char>, Seq<char>)| r.contains(x) <==> (s.contains(x) || x == e) by {
            if r.contains(x) {
                assert(r[0] == x);
            }
            if x == e {
                assert(r[0] == x);
            }
        }
    } else if s[0].0.len() >= e.0.len() {
        let t = s.skip(1);
        assert forall|i: int, j: int| 0 <= i < j < t.len() implies (#[trigger] t[i]).0.len() >= (
        #[trigger] t[j]).0.len() by {
            assert(t[i] == s[i + 1] && t[j] == s[j + 1]);
        }
        lemma_insert_keeps_order(t, e);
        let u = insert_by_length(t, e);
        assert(r == seq![s[0]] + u);
        assert forall|k: int| 0 <= k < u.len() implies s[0].0.len() >= (#[trigger] u[k]).0.len() by {
            assert(u.contains(u[k]));
            assert(t.contains(u[k]) || u[k] == e);
            if u[k] != e {
                let m = choose|m: int| 0 <= m < t.len() && t[m] == u[k];
                assert(t[m] == s[m + 1]);
            }
        }
        assert forall|i: int, j: int| 0 <= i < j < r.len() implies (#[trigger] r[i]).0.len() >= (
        #[trigger] r[j]).0.len() by {
            if i == 0 {
                assert(r[j] == u[j - 1]);
            } else {
                assert(r[i] == u[i - 1] && r[j] == u[j - 1]);
            }
        }
        assert forall|x: (Seq<char>, Seq<char>)| r.contains(x) <==> (s.contains(x) || x == e) by {
            if r.contains(x) {
                let k = choose|k: int| 0 <= k < r.len() && r[k] == x;
                if k == 0 {
                    assert(s[0] == x);
                } else {
                    assert(u[k - 1] == x);
                    assert(u.contains(x));
                    if x != e {
                        let m = choose|m: int| 0 <= m < t.len() && t[m] == x;
                        assert(s[m + 1] == x);
                    }
                }
            }
            if s.contains(x) {
                let k = choose|k: int| 0 <= k < s.len() && s[k] == x;
                if k == 0 {
                    assert(r[0] == x);
                } else {
                    assert(t[k - 1] == x);
                    assert(t.contains(x));
                    assert(u.contains(x));
                    let m = choose|m: int| 0 <= m < u.len() && u[m] == x;
                    assert(r[m + 1] == x);
                }
            }
            if x == e {
                assert(u.contains(x));
                let m = choose|m: int| 0 <= m < u.len() && u[m] == x;
                assert(r[m + 1] == x);
            }
        }
    } else {
        assert(r == seq![e] + s);
        assert forall|i: int, j: int| 0 <= i < j < r.len() implies (#[trigger] r[i]).0.len() >= (
        #[trigger] r[j]).0.len() by {
            if i == 0 {
                assert(r[j] == s[j - 1]);
                if j - 1 > 0 {
                    assert(s[0].0.len() >= s[j - 1].0.len());
                }
            } else {
                assert(r[i] == s[i - 1] && r[j] == s[j - 1]);
            }
        }
        assert forall|x: (Seq<char>, Seq<char>)| r.contains(x) <==> (s.contains(x) || x == e) by {
            if r.contains(x) {
                let k = choose|k: int| 0 <= k < r.len() && r[k] == x;
                if k > 0 {
                    assert(s[k - 1] == x);
                }
            }
            if s.contains(x) {
                let k = choose|k: int| 0 <= k < s.len() && s[k] == x;
                assert(r[k + 1] == x);
            }
            if x == e {
                assert(r[0] == x);
            }
        }
    }
}

/// Defines are applied longest key first: the order of substitution
/// holds every define once and never puts a key before a longer one, so a
/// short key cannot rewrite part of a longer key before that key is used.
pub proof fn law_defines_longest_first(d: Seq<(Seq<char>, Seq<char>)>)
    ensures
        longest_first(by_key_length(d)),
        by_key_length(d).len() == d.len(),
        forall|x: (Seq<char>, Seq<char>)| by_key_length(d).contains(x) <==> d.contains(x),
    decreases d.len(),
{
    if d.len() > 0 {
        let p = d.drop_last();
        law_defines_longest_first(p);
        lemma_insert_keeps_order(by_key_length(p), d.last());
        assert forall|x: (Seq<char>, Seq<char>)| by_key_length(d).contains(x) <==> d.contains(x) by {
            if d.contains(x) && x != d.last() {
                let k = choose|k: int| 0 <= k < d.len() && d[k] == x;
                assert(p[k] == x);
            }
            if p.contains(x) {
                let k = choose|k: int| 0 <= k < p.len() && p[k] == x;
                assert(d[k] == x);
            }
            if x == d.last() {
                assert(d[d.len() - 1] == x);
            }
        }
    }
}

proof fn lemma_sites_fuel(
    sites: Seq<(int, int, Seq<char>)>,
    n: int,
    dir: Seq<char>,
    v: Seq<Seq<char>>,
    repo: Seq<(Seq<char>, Seq<char>)>,
    f1: nat,
    f2: nat,
)
    requires
        f1 > unvisited(repo, v),
        f2 > unvisited(repo, v),
    ensures
        expand_sites(sites, n, dir, v, repo, f1) == expand_sites(sites, n, dir, v, repo, f2),
    decreases f1, n,
{
    if n > 0 {
        lemma_sites_fuel(sites, n - 1, dir, v, repo, f1, f2);
        if let Ok((reps, v1)) = expand_sites(sites, n - 1, dir, v, repo, f1) {
            lemma_sites_grow(sites, n - 1, dir, v, repo, f1);
            lemma_unvisited_mono(repo, v, v1);
            if let Some(q) = include_target(dir, sites[n - 1].2) {
                law_fuel_suffices(q, v1, repo, f1, f2);
            }
        }
    }
}

/// Expansion always ends: every nested file is one not yet visited, so a
/// nesting bound above the number of unvisited files is never reached, and
/// any two such bounds give the same result. `include_fuel` is such a
/// bound for every build.
pub proof fn law_fuel_suffices(
    p: Seq<char>,
    v: Seq<Seq<char>>,
    repo: Seq<(Seq<char>, Seq<char>)>,
    f1: nat,
    f2: nat,
)
    requires
        f1 > unvisited(repo, v),
        f2 > unvisited(repo, v),
    ensures
        visit_path(p, v, repo, f1) == visit_path(p, v, repo, f2),
    decreases f1, 0int,
{
    let key = rooted(p);
    if !v.contains(key) && lookup(repo, key) is Some {
        lemma_unvisited_push(repo, v, key);
        let t = lookup(repo, key)->Some_0;
        let sites = include_sites(t);
        lemma_sites_fuel(
            sites,
            sites.len() as int,
            parent_or_root(p),
            v.push(key),
            repo,
            (f1 - 1) as nat,
            (f2 - 1) as nat,
        );
    }
}

proof fn lemma_resolve_grows(s: ShaderView, v: Seq<Seq<char>>, repo: Seq<(Seq<char>, Seq<char>)>)
    ensures
        resolve_shader(s, v, repo) matches Ok((t, v2)) ==> (forall|x: Seq<char>|
            v.contains(x) ==> v2.contains(x)) && (s matches ShaderView::Path(p) ==> v2.contains(
            rooted(p),
        )),
{
    match s {
        ShaderView::Source(t) => {
            lemma_sites_grow(include_sites(t), include_sites(t).len() as int, root(), v, repo, include_fuel(repo));
        },
        ShaderView::Path(p) => {
            lemma_visit_grows(p, v, repo, include_fuel(repo));
        },
        ShaderView::Builder(b) => {
            if let Ok(t) = build_result(b, repo) {
                lemma_sites_grow(include_sites(t), include_sites(t).len() as int, root(), v, repo, include_fuel(repo));
            }
        },
    }
}

proof fn lemma_all_records(incs: Seq<ShaderView>, k: int, j: int, p: Seq<char>, repo: Seq<(Seq<char>, Seq<char>)>)
    requires
        0 <= j < k <= incs.len(),
        incs[j] == ShaderView::Path(p),
    ensures
        resolve_all(incs.take(k), repo) matches Ok((t, v)) ==> v.contains(rooted(p)),
    decreases k,
{
    assert(incs.take(k).drop_last() =~= incs.take(k - 1));
    assert(incs.take(k).last() == incs[k - 1]);
    if let Ok((t0, v0)) = resolve_all(incs.take(k - 1), repo) {
        lemma_resolve_grows(incs[k - 1], v0, repo);
        if k - 1 > j {
            lemma_all_records(incs, k - 1, j, p, repo);
        }
    }
}

/// Within one build a file is expanded at most once: after the first `k`
/// includes of a builder, every file that one of them named directly is
/// visited, so a later include of the same file, at the top or through any
/// file (see `law_expanded_file_elided`), expands to nothing.
pub proof fn law_file_expanded_once_per_build(
    incs: Seq<ShaderView>,
    k: int,
    j: int,
    p: Seq<char>,
    q: Seq<char>,
    repo: Seq<(Seq<char>, Seq<char>)>,
)
    requires
        0 <= j < k <= incs.len(),
        incs[j] == ShaderView::Path(p),
        rooted(q) == rooted(p),
        resolve_all(incs.take(k), repo) is Ok,
    ensures
        (resolve_all(incs.take(k), repo)->Ok_0).1.contains(rooted(p)),
        resolve_shader(ShaderView::Path(q), (resolve_all(incs.take(k), repo)->Ok_0).1, repo) == Ok::<
            (Seq<char>, Seq<Seq<char>>),
            ErrorView,
        >((seq![], (resolve_all(incs.take(k), repo)->Ok_0).1)),
{
    lemma_all_records(incs, k, j, p, repo);
}

/// A build stops at the first include that fails and returns that error,
/// with no text.
pub proof fn law_first_failure(b: BuilderView, k: int, repo: Seq<(Seq<char>, Seq<char>)>)
    requires
        0 <= k < b.includes.len(),
        resolve_all(b.includes.take(k), repo) is Ok,
        resolve_all(b.includes.take(k + 1), repo) is Err,
    ensures
        build_result(b, repo) == Err::<Seq<char>, ErrorView>(
            resolve_all(b.includes.take(k + 1), repo)->Err_0,
        ),
{
    lemma_resolve_all_error(b.includes, k, b.includes.len() as int, repo);
    assert(b.includes.take(b.includes.len() as int) =~= b.includes);
}

} // verus!
