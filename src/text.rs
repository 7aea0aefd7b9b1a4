//! Shader text as sequences of characters: conversion from and to `String`,
//! literal substitution, the line format of `#include` / `#define`
//! directives, and splicing of replacement text into line ranges.
use vstd::prelude::*;
use vstd::std_specs::iter::IteratorSpec;

verus! {

broadcast use vstd::string::group_string_axioms;

// ---------------------------------------------------------------------------
// Conversion
// ---------------------------------------------------------------------------

/// The characters of `s`, in order.
pub fn chars_of(s: &str) -> (r: Vec<char>)
    ensures
        r@ == s@,
{
    let mut it = s.chars();
    let mut v: Vec<char> = Vec::new();
    loop
        invariant
            v@ + it.remaining() == s@,
            it.obeys_prophetic_iter_laws(),
            it.decrease() is Some,
        decreases it.decrease()->0,
    {
        let ghost before = it.remaining();
        match it.next() {
            Some(c) => {
                assert(before =~= seq![c] + it.remaining());
                v.push(c);
                assert(v@ + it.remaining() =~= v@.drop_last() + before);
            },
            None => {
                assert(v@ =~= s@);
                return v;
            },
        }
    }
}

/// Relies on `String::push`: appends one character at the end.
#[verifier::external_body]
fn push_char(s: &mut String, c: char)
    ensures
        final(s)@ == old(s)@.push(c),
{
    s.push(c)
}

/// The string made of the characters `v`.
pub fn string_of(v: &Vec<char>) -> (r: String)
    ensures
        r@ == v@,
{
    let mut s = String::new();
    let mut i: usize = 0;
    while i < v.len()
        invariant
            i <= v@.len(),
            s@ == v@.take(i as int),
        decreases v@.len() - i,
    {
        push_char(&mut s, v[i]);
        i = i + 1;
        assert(s@ =~= v@.take(i as int));
    }
    assert(v@.take(v@.len() as int) =~= v@);
    s
}

/// `a` followed by `b`.
pub fn concat(a: &Vec<char>, b: &Vec<char>) -> (r: Vec<char>)
    ensures
        r@ == a@ + b@,
{
    let mut r = a.clone();
    append_range(&mut r, b, 0, b.len());
    assert(b@.subrange(0, b@.len() as int) =~= b@);
    r
}

/// Appends `src[from..to]` to `out`.
pub fn append_range(out: &mut Vec<char>, src: &Vec<char>, from: usize, to: usize)
    requires
        from <= to <= src@.len(),
    ensures
        final(out)@ == old(out)@ + src@.subrange(from as int, to as int),
{
    let ghost start = out@;
    let mut i = from;
    while i < to
        invariant
            from <= i <= to <= src@.len(),
            out@ == start + src@.subrange(from as int, i as int),
        decreases to - i,
    {
        out.push(src[i]);
        i = i + 1;
        assert(out@ =~= start + src@.subrange(from as int, i as int));
    }
}

/// Whether `pat` occurs in `t` at position `i`.
pub open spec fn occurs_at(t: Seq<char>, i: int, pat: Seq<char>) -> bool {
    0 <= i && i + pat.len() <= t.len() && t.subrange(i, i + pat.len()) == pat
}

/// Whether `pat` occurs in `t` at position `i`.
pub fn matches_at(t: &Vec<char>, i: usize, pat: &Vec<char>) -> (r: bool)
    ensures
        r == occurs_at(t@, i as int, pat@),
{
    if i > t.len() || pat.len() > t.len() - i {
        return false;
    }
    let mut j: usize = 0;
    while j < pat.len()
        invariant
            i + pat@.len() <= t@.len() <= usize::MAX,
            j <= pat@.len(),
            t@.subrange(i as int, i + j) == pat@.take(j as int),
        decreases pat@.len() - j,
    {
        if t[i + j] != pat[j] {
            assert(t@.subrange(i as int, i + pat@.len())[j as int] != pat@[j as int]);
            return false;
        }
        j = j + 1;
        assert(t@.subrange(i as int, i + j) =~= pat@.take(j as int));
    }
    assert(pat@.take(pat@.len() as int) =~= pat@);
    true
}

// ---------------------------------------------------------------------------
// Literal substitution
// ---------------------------------------------------------------------------

/// `t` with every occurrence of `pat` replaced by `rep`, scanning left to
/// right without overlap; an empty `pat` occurs before every character and
/// at the end.
pub open spec fn replace_all(t: Seq<char>, pat: Seq<char>, rep: Seq<char>) -> Seq<char>
    decreases t.len(),
{
    if pat.len() == 0 {
        if t.len() == 0 {
            rep
        } else {
            rep + seq![t[0]] + replace_all(t.skip(1), pat, rep)
        }
    } else if occurs_at(t, 0, pat) {
        rep + replace_all(t.skip(pat.len() as int), pat, rep)
    } else if t.len() == 0 {
        t
    } else {
        seq![t[0]] + replace_all(t.skip(1), pat, rep)
    }
}

proof fn lemma_occurs_shift(t: Seq<char>, i: int, pat: Seq<char>)
    requires
        0 <= i <= t.len(),
    ensures
        occurs_at(t, i, pat) == occurs_at(t.skip(i), 0, pat),
{
    if i + pat.len() <= t.len() {
        assert(t.subrange(i, i + pat.len()) =~= t.skip(i).subrange(0, pat.len() as int));
    }
}

/// `t` with every occurrence of `pat` replaced by `rep`.
pub fn replace_text(t: &Vec<char>, pat: &Vec<char>, rep: &Vec<char>) -> (r: Vec<char>)
    ensures
        r@ == replace_all(t@, pat@, rep@),
{
    let mut out: Vec<char> = Vec::new();
    let mut i: usize = 0;
    assert(t@.skip(0) =~= t@);
    while i < t.len()
        invariant
            i <= t@.len(),
            out@ + replace_all(t@.skip(i as int), pat@, rep@) == replace_all(t@, pat@, rep@),
        decreases t@.len() - i,
    {
        let ghost rest = t@.skip(i as int);
        proof {
            lemma_occurs_shift(t@, i as int, pat@);
        }
        if pat.len() == 0 {
            append_range(&mut out, rep, 0, rep.len());
            out.push(t[i]);
            assert(rest.skip(1) =~= t@.skip(i + 1));
            assert(rep@.subrange(0, rep@.len() as int) =~= rep@);
            i = i + 1;
        } else if matches_at(t, i, pat) {
            append_range(&mut out, rep, 0, rep.len());
            assert(rest.skip(pat@.len() as int) =~= t@.skip(i + pat@.len()));
            assert(rep@.subrange(0, rep@.len() as int) =~= rep@);
            i = i + pat.len();
        } else {
            out.push(t[i]);
            assert(rest.skip(1) =~= t@.skip(i + 1));
            i = i + 1;
        }
    }
    if pat.len() == 0 {
        append_range(&mut out, rep, 0, rep.len());
        assert(rep@.subrange(0, rep@.len() as int) =~= rep@);
    }
    assert(t@.skip(i as int) =~= Seq::<char>::empty());
    out
}

// ---------------------------------------------------------------------------
// Lines and directives
// ---------------------------------------------------------------------------

/// The end of the line that holds position `i`: the first newline at or
/// after `i`, or the end of the text.
pub open spec fn line_end(t: Seq<char>, i: int) -> int
    decreases t.len() - i,
{
    if i < 0 || i >= t.len() || t[i] == '\n' {
        i
    } else {
        line_end(t, i + 1)
    }
}

pub proof fn lemma_line_end(t: Seq<char>, i: int)
    requires
        0 <= i <= t.len(),
    ensures
        i <= line_end(t, i) <= t.len(),
        forall|j: int| i <= j < line_end(t, i) ==> t[j] != '\n',
        line_end(t, i) < t.len() ==> t[line_end(t, i)] == '\n',
    decreases t.len() - i,
{
    if i < t.len() && t[i] != '\n' {
        lemma_line_end(t, i + 1);
    }
}

/// The directive sites of `t` from the line that starts at `i` on: for
/// each line whose text `parse` accepts, its start, its end (before the
/// newline) and what `parse` read from it, in order of appearance.
pub open spec fn sites_from<P>(t: Seq<char>, i: int, parse: spec_fn(Seq<char>) -> Option<P>) -> Seq<
    (int, int, P),
>
    decreases t.len() - i,
{
    if i < 0 || i > t.len() {
        seq![]
    } else {
        let e = line_end(t, i);
        let here = match parse(t.subrange(i, e)) {
            Some(p) => seq![(i, e, p)],
            None => seq![],
        };
        if e < t.len() {
            proof {
                lemma_line_end(t, i);
            }
            here + sites_from(t, e + 1, parse)
        } else {
            here
        }
    }
}

/// The sites are in order, apart, and within `t` from `i` on.
pub open spec fn sites_ordered<P>(sites: Seq<(int, int, P)>, i: int, len: int) -> bool {
    &&& forall|k: int| 0 <= k < sites.len() ==> i <= #[trigger] sites[k].0 <= sites[k].1 <= len
    &&& forall|k: int| 0 <= k < sites.len() - 1 ==> #[trigger] sites[k].1 < sites[k + 1].0
}

proof fn lemma_sites_ordered<P>(t: Seq<char>, i: int, parse: spec_fn(Seq<char>) -> Option<P>)
    requires
        0 <= i <= t.len(),
    ensures
        sites_ordered(sites_from(t, i, parse), i, t.len() as int),
    decreases t.len() - i,
{
    lemma_line_end(t, i);
    let e = line_end(t, i);
    if e < t.len() {
        lemma_sites_ordered(t, e + 1, parse);
        let rest = sites_from(t, e + 1, parse);
        assert(rest.len() > 0 ==> rest[0].0 > e);
    }
}

/// The text of an `#include "<path>"` line opens with this.
pub open spec fn include_opening() -> Seq<char> {
    seq!['#', 'i', 'n', 'c', 'l', 'u', 'd', 'e', ' ', '"']
}

/// The text of a `#define <key> <value>` line opens with this.
pub open spec fn define_opening() -> Seq<char> {
    seq!['#', 'd', 'e', 'f', 'i', 'n', 'e', ' ']
}

/// The quoted path of an include line: the line is the opening, a
/// non-empty path and a closing quote.
pub open spec fn parse_include(line: Seq<char>) -> Option<Seq<char>> {
    if line.len() >= 12 && line.take(10) == include_opening() && line.last() == '"' {
        Some(line.subrange(10, line.len() - 1))
    } else {
        None
    }
}

/// The first space at or after `i` in `r` that has text after it.
pub open spec fn key_end(r: Seq<char>, i: int) -> Option<int>
    decreases r.len() - i,
{
    if i < 0 || i + 1 >= r.len() {
        None
    } else if r[i] == ' ' {
        Some(i)
    } else {
        key_end(r, i + 1)
    }
}

proof fn lemma_key_end(r: Seq<char>, i: int)
    requires
        0 <= i,
    ensures
        key_end(r, i) matches Some(k) ==> i <= k && k + 1 < r.len() && r[k] == ' ',
    decreases r.len() - i,
{
    if i + 1 < r.len() && r[i] != ' ' {
        lemma_key_end(r, i + 1);
    }
}

/// The key and the value of a define line: after the opening, the key is
/// the shortest non-empty text followed by a space and a non-empty value,
/// and the value runs to the end of the line.
pub open spec fn parse_define(line: Seq<char>) -> Option<(Seq<char>, Seq<char>)> {
    if line.len() >= 8 && line.take(8) == define_opening() {
        let r = line.skip(8);
        match key_end(r, 1) {
            Some(k) => Some((r.take(k), r.skip(k + 1))),
            None => None,
        }
    } else {
        None
    }
}

pub open spec fn include_parser() -> spec_fn(Seq<char>) -> Option<Seq<char>> {
    |line: Seq<char>| parse_include(line)
}

pub open spec fn define_parser() -> spec_fn(Seq<char>) -> Option<(Seq<char>, Seq<char>)> {
    |line: Seq<char>| parse_define(line)
}

/// The include sites of `t`.
pub open spec fn include_sites(t: Seq<char>) -> Seq<(int, int, Seq<char>)> {
    sites_from(t, 0, include_parser())
}

/// The define sites of `t`.
pub open spec fn define_sites(t: Seq<char>) -> Seq<(int, int, (Seq<char>, Seq<char>))> {
    sites_from(t, 0, define_parser())
}

/// The end of the line that holds position `i`.
fn find_line_end(t: &Vec<char>, i: usize) -> (e: usize)
    requires
        i <= t@.len(),
    ensures
        e == line_end(t@, i as int),
{
    let mut j = i;
    while j < t.len() && t[j] != '\n'
        invariant
            i <= j <= t@.len(),
            line_end(t@, j as int) == line_end(t@, i as int),
        decreases t@.len() - j,
    {
        j = j + 1;
    }
    j
}

/// Whether `t[s..e]` opens with `opening`.
fn opens_with(t: &Vec<char>, s: usize, e: usize, opening: &[char]) -> (r: bool)
    requires
        s <= e <= t@.len(),
    ensures
        r == (e - s >= opening@.len() && t@.subrange(s as int, e as int).take(opening@.len() as int)
            == opening@),
{
    if e - s < opening.len() {
        return false;
    }
    let mut j: usize = 0;
    while j < opening.len()
        invariant
            s + opening@.len() <= e <= t@.len(),
            j <= opening@.len(),
            t@.subrange(s as int, s + j) == opening@.take(j as int),
        decreases opening@.len() - j,
    {
        if t[s + j] != opening[j] {
            assert(t@.subrange(s as int, e as int).take(opening@.len() as int)[j as int]
                != opening@[j as int]);
            return false;
        }
        j = j + 1;
        assert(t@.subrange(s as int, s + j) =~= opening@.take(j as int));
    }
    assert(t@.subrange(s as int, e as int).take(opening@.len() as int) =~= t@.subrange(
        s as int,
        s + opening@.len(),
    ));
    assert(opening@.take(opening@.len() as int) =~= opening@);
    true
}

/// The path of the include line `t[s..e]`, if it is one.
fn read_include(t: &Vec<char>, s: usize, e: usize) -> (r: Option<Vec<char>>)
    requires
        s <= e <= t@.len(),
    ensures
        r matches Some(p) ==> parse_include(t@.subrange(s as int, e as int)) == Some(p@),
        r is None ==> parse_include(t@.subrange(s as int, e as int)) is None,
{
    let opening: [char; 10] = ['#', 'i', 'n', 'c', 'l', 'u', 'd', 'e', ' ', '"'];
    assert(opening@ =~= include_opening());
    if e - s >= 12 && opens_with(t, s, e, &opening) && t[e - 1] == '"' {
        let mut p: Vec<char> = Vec::new();
        append_range(&mut p, t, s + 10, e - 1);
        assert(p@ =~= t@.subrange(s as int, e as int).subrange(10, (e - s) - 1));
        Some(p)
    } else {
        None
    }
}

/// Where the key of the define body `t[b..e]` ends, counted from `b`.
fn find_key_end(t: &Vec<char>, b: usize, e: usize) -> (r: Option<usize>)
    requires
        b <= e <= t@.len(),
    ensures
        r matches Some(k) ==> key_end(t@.subrange(b as int, e as int), 1) == Some(k as int),
        r is None ==> key_end(t@.subrange(b as int, e as int), 1) is None,
{
    let ghost body = t@.subrange(b as int, e as int);
    if e - b < 2 {
        return None;
    }
    let mut i: usize = 1;
    while i < e - b - 1 && t[b + i] != ' '
        invariant
            b <= e <= t@.len(),
            1 <= i <= e - b,
            body == t@.subrange(b as int, e as int),
            key_end(body, i as int) == key_end(body, 1),
        decreases e - b - i,
    {
        i = i + 1;
    }
    if i < e - b - 1 {
        Some(i)
    } else {
        None
    }
}

/// The key and value of the define line `t[s..e]`, if it is one.
fn read_define(t: &Vec<char>, s: usize, e: usize) -> (r: Option<(Vec<char>, Vec<char>)>)
    requires
        s <= e <= t@.len(),
    ensures
        r matches Some(kv) ==> parse_define(t@.subrange(s as int, e as int)) == Some((kv.0@, kv.1@)),
        r is None ==> parse_define(t@.subrange(s as int, e as int)) is None,
{
    let opening: [char; 8] = ['#', 'd', 'e', 'f', 'i', 'n', 'e', ' '];
    assert(opening@ =~= define_opening());
    if !opens_with(t, s, e, &opening) {
        return None;
    }
    let ghost line = t@.subrange(s as int, e as int);
    assert(line.skip(8) =~= t@.subrange(s + 8, e as int));
    proof {
        lemma_key_end(t@.subrange(s + 8, e as int), 1);
    }
    match find_key_end(t, s + 8, e) {
        Some(k) => {
            let mut key: Vec<char> = Vec::new();
            append_range(&mut key, t, s + 8, s + 8 + k);
            let mut value: Vec<char> = Vec::new();
            append_range(&mut value, t, s + 8 + k + 1, e);
            assert(key@ =~= line.skip(8).take(k as int));
            assert(value@ =~= line.skip(8).skip(k + 1));
            Some((key, value))
        },
        None => None,
    }
}

/// The views of exec include sites.
pub open spec fn include_site_views(v: Seq<(usize, usize, Vec<char>)>) -> Seq<(int, int, Seq<char>)> {
    v.map_values(|x: (usize, usize, Vec<char>)| (x.0 as int, x.1 as int, x.2@))
}

/// The views of exec define sites.
pub open spec fn define_site_views(v: Seq<(usize, usize, (Vec<char>, Vec<char>))>) -> Seq<
    (int, int, (Seq<char>, Seq<char>)),
> {
    v.map_values(
        |x: (usize, usize, (Vec<char>, Vec<char>))| (x.0 as int, x.1 as int, (x.2.0@, x.2.1@)),
    )
}

/// The `#include` lines of `t`, with their ranges and quoted paths.
pub fn scan_includes(t: &Vec<char>) -> (r: Vec<(usize, usize, Vec<char>)>)
    ensures
        include_site_views(r@) == include_sites(t@),
{
    let mut found: Vec<(usize, usize, Vec<char>)> = Vec::new();
    let mut i: usize = 0;
    loop
        invariant
            i <= t@.len(),
            include_site_views(found@) + sites_from(t@, i as int, include_parser()) == include_sites(t@),
        decreases t@.len() - i,
    {
        let e = find_line_end(t, i);
        proof {
            lemma_line_end(t@, i as int);
        }
        let ghost before = found@;
        let ghost here = match include_parser()(t@.subrange(i as int, e as int)) {
            Some(p) => seq![(i as int, e as int, p)],
            None => Seq::<(int, int, Seq<char>)>::empty(),
        };
        assert(include_parser()(t@.subrange(i as int, e as int)) == parse_include(t@.subrange(i as int, e as int)));
        match read_include(t, i, e) {
            Some(p) => {
                found.push((i, e, p));
                assert(include_site_views(found@) =~= include_site_views(before) + here);
            },
            None => {
                assert(include_site_views(found@) =~= include_site_views(before) + here);
            },
        }
        if e >= t.len() {
            assert(include_site_views(found@) =~= include_sites(t@));
            return found;
        }
        i = e + 1;
    }
}

/// The `#define` lines of `t`, with their ranges, keys and values.
pub fn scan_defines(t: &Vec<char>) -> (r: Vec<(usize, usize, (Vec<char>, Vec<char>))>)
    ensures
        define_site_views(r@) == define_sites(t@),
{
    let mut found: Vec<(usize, usize, (Vec<char>, Vec<char>))> = Vec::new();
    let mut i: usize = 0;
    loop
        invariant
            i <= t@.len(),
            define_site_views(found@) + sites_from(t@, i as int, define_parser()) == define_sites(t@),
        decreases t@.len() - i,
    {
        let e = find_line_end(t, i);
        proof {
            lemma_line_end(t@, i as int);
        }
        let ghost before = found@;
        let ghost here = match define_parser()(t@.subrange(i as int, e as int)) {
            Some(p) => seq![(i as int, e as int, p)],
            None => Seq::<(int, int, (Seq<char>, Seq<char>))>::empty(),
        };
        assert(define_parser()(t@.subrange(i as int, e as int)) == parse_define(t@.subrange(i as int, e as int)));
        match read_define(t, i, e) {
            Some(kv) => {
                found.push((i, e, kv));
                assert(define_site_views(found@) =~= define_site_views(before) + here);
            },
            None => {
                assert(define_site_views(found@) =~= define_site_views(before) + here);
            },
        }
        if e >= t.len() {
            assert(define_site_views(found@) =~= define_sites(t@));
            return found;
        }
        i = e + 1;
    }
}

// ---------------------------------------------------------------------------
// Splicing
// ---------------------------------------------------------------------------

/// `t` with each range of `ranges` replaced by the text of `reps` at the
/// same position; the ranges are in order and apart.
pub open spec fn splice(t: Seq<char>, ranges: Seq<(int, int)>, reps: Seq<Seq<char>>) -> Seq<char>
    decreases ranges.len(),
{
    if ranges.len() == 0 {
        t
    } else {
        let k = ranges.len() - 1;
        splice(t.take(ranges[k].0), ranges.drop_last(), reps.drop_last()) + reps[k] + t.skip(
            ranges[k].1,
        )
    }
}

/// The ranges of sites.
pub open spec fn site_ranges<P>(sites: Seq<(int, int, P)>) -> Seq<(int, int)> {
    sites.map_values(|s: (int, int, P)| (s.0, s.1))
}

/// Text after the last range is kept as it is.
pub proof fn lemma_splice_prefix(
    t: Seq<char>,
    ranges: Seq<(int, int)>,
    reps: Seq<Seq<char>>,
    c: int,
    a: int,
)
    requires
        0 <= c <= a <= t.len(),
        ranges.len() > 0 ==> 0 <= ranges.last().0 <= ranges.last().1 <= c,
    ensures
        splice(t.take(a), ranges, reps) == splice(t.take(c), ranges, reps) + t.subrange(c, a),
{
    if ranges.len() == 0 {
        assert(t.take(a) =~= t.take(c) + t.subrange(c, a));
    } else {
        let k = ranges.len() - 1;
        let (s, e) = ranges[k];
        assert(t.take(a).take(s) =~= t.take(c).take(s));
        assert(t.take(a).skip(e) =~= t.take(c).skip(e) + t.subrange(c, a));
    }
}

/// One more range, after the others, with its replacement.
pub proof fn lemma_splice_step(
    t: Seq<char>,
    ranges: Seq<(int, int)>,
    reps: Seq<Seq<char>>,
    c: int,
    s: int,
    e: int,
    r: Seq<char>,
)
    requires
        0 <= c <= s <= e <= t.len(),
        reps.len() == ranges.len(),
        ranges.len() > 0 ==> 0 <= ranges.last().0 <= ranges.last().1 <= c,
    ensures
        splice(t.take(e), ranges.push((s, e)), reps.push(r)) == splice(t.take(c), ranges, reps)
            + t.subrange(c, s) + r,
{
    let rs = ranges.push((s, e));
    let ps = reps.push(r);
    assert(rs.drop_last() =~= ranges);
    assert(ps.drop_last() =~= reps);
    assert(t.take(e).take(s) =~= t.take(s));
    assert(t.take(e).skip(e) =~= Seq::<char>::empty());
    assert(splice(t.take(e), rs, ps) == splice(t.take(s), ranges, reps) + r + Seq::<char>::empty());
    lemma_splice_prefix(t, ranges, reps, c, s);
    assert(r + Seq::<char>::empty() =~= r);
}

/// `n` empty texts.
pub open spec fn empties(n: nat) -> Seq<Seq<char>> {
    Seq::new(n, |i: int| Seq::<char>::empty())
}

/// The ranges are in order, apart, and within a text of length `len`.
pub open spec fn ranges_ordered(ranges: Seq<(int, int)>, len: int) -> bool {
    &&& forall|k: int| 0 <= k < ranges.len() ==> 0 <= #[trigger] ranges[k].0 <= ranges[k].1 <= len
    &&& forall|k: int| 0 <= k < ranges.len() - 1 ==> #[trigger] ranges[k].1 < ranges[k + 1].0
}

/// The ranges of ordered sites are ordered.
pub proof fn lemma_site_ranges_ordered<P>(t: Seq<char>, parse: spec_fn(Seq<char>) -> Option<P>)
    ensures
        ranges_ordered(site_ranges(sites_from(t, 0, parse)), t.len() as int),
{
    lemma_sites_ordered(t, 0, parse);
    let sites = sites_from(t, 0, parse);
    let rs = site_ranges(sites);
    assert forall|k: int| 0 <= k < rs.len() - 1 implies #[trigger] rs[k].1 < rs[k + 1].0 by {
        assert(sites[k].1 < sites[k + 1].0);
    }
}

/// `t` without the text in `ranges`.
pub fn remove_ranges(t: &Vec<char>, ranges: &Vec<(usize, usize)>) -> (r: Vec<char>)
    requires
        ranges_ordered(range_views(ranges@), t@.len() as int),
    ensures
        r@ == splice(t@, range_views(ranges@), empties(ranges@.len())),
{
    let ghost rs = range_views(ranges@);
    let ghost ps = empties(ranges@.len());
    let mut out: Vec<char> = Vec::new();
    let mut c: usize = 0;
    let mut k: usize = 0;
    while k < ranges.len()
        invariant
            k <= ranges@.len(),
            c <= t@.len(),
            rs == range_views(ranges@),
            ps == empties(ranges@.len()),
            ranges_ordered(rs, t@.len() as int),
            k == 0 ==> c == 0,
            k > 0 ==> c == rs[k - 1].1,
            out@ == splice(t@.take(c as int), rs.take(k as int), ps.take(k as int)),
        decreases ranges@.len() - k,
    {
        let (s, e) = ranges[k];
        assert(rs[k as int] == (s as int, e as int));
        assert(k > 0 ==> rs[k - 1].1 < rs[k as int].0);
        proof {
            assert(rs.take(k as int + 1) =~= rs.take(k as int).push((s as int, e as int)));
            assert(ps.take(k as int + 1) =~= ps.take(k as int).push(Seq::<char>::empty()));
            lemma_splice_step(
                t@,
                rs.take(k as int),
                ps.take(k as int),
                c as int,
                s as int,
                e as int,
                Seq::<char>::empty(),
            );
        }
        append_range(&mut out, t, c, s);
        assert(out@ =~= splice(t@.take(c as int), rs.take(k as int), ps.take(k as int))
            + t@.subrange(c as int, s as int) + Seq::<char>::empty());
        c = e;
        k = k + 1;
    }
    proof {
        assert(rs.take(k as int) =~= rs);
        assert(ps.take(k as int) =~= ps);
        lemma_splice_prefix(t@, rs, ps, c as int, t@.len() as int);
        assert(t@.take(t@.len() as int) =~= t@);
    }
    append_range(&mut out, t, c, t.len());
    out
}

/// The views of exec ranges.
pub open spec fn range_views(v: Seq<(usize, usize)>) -> Seq<(int, int)> {
    v.map_values(|x: (usize, usize)| (x.0 as int, x.1 as int))
}

} // verus!
