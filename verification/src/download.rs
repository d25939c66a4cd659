use vstd::prelude::*;
use vstd::set_lib::{set_int_range, lemma_int_range, lemma_len_subset, lemma_map_size};
use vstd::relations::injective_on;
use crate::text::{string_views, chars_of, string_of, extend, push_decimal, dec_digits, lemma_dec_digits, views, has_sub, starts_with, contains_str, starts_with_str, trim, trimmed, split_lines, lines_of, split_on, split_char, lemma_split_char_nonempty, piece_from, lemma_split_char_pieces, matches_at, chars_eq, slice_of, copy_chars};

verus! {


// ---------------------------------------------------------------------------
// URL lists
// ---------------------------------------------------------------------------

/// The lines holding `http`, trimmed.
pub open spec fn url_lines(lines: Seq<Seq<char>>) -> Seq<Seq<char>>
    decreases lines.len(),
{
    if lines.len() == 0 {
        Seq::<Seq<char>>::empty()
    } else {
        let rest = url_lines(lines.drop_first());
        if has_sub(lines[0], "http"@) {
            seq![trim(lines[0])] + rest
        } else {
            rest
        }
    }
}

/// The URLs of a URL list: every line that holds `http`, trimmed.
pub fn parse_urls(content: &str) -> (r: Vec<String>)
    ensures
        string_views(r@) == url_lines(lines_of(content@)),
{
    let cv = chars_of(content);
    let lines = split_lines(&cv);
    let ghost ls = lines_of(content@);
    let mut out: Vec<String> = Vec::new();
    let mut i: usize = 0;
    assert(ls.skip(0) =~= ls);
    assert(string_views(out@) + url_lines(ls) =~= url_lines(ls));
    while i < lines.len()
        invariant
            i <= lines.len(),
            views(lines@) == ls,
            string_views(out@) + url_lines(ls.skip(i as int)) == url_lines(ls),
        decreases lines.len() - i,
    {
        let ghost rest = ls.skip(i as int);
        assert(rest[0] == lines@[i as int]@);
        assert(rest.drop_first() =~= ls.skip(i + 1));
        if contains_str(&lines[i], "http") {
            let ghost before = string_views(out@);
            let t = trimmed(&lines[i]);
            let ghost tv = t@;
            out.push(string_of(&t));
            assert(string_views(out@) =~= before.push(tv));
            assert(before.push(tv) + url_lines(ls.skip(i + 1)) =~= before + (seq![tv] + url_lines(
                ls.skip(i + 1),
            )));
        }
        i += 1;
    }
    assert(ls.skip(lines.len() as int) =~= Seq::<Seq<char>>::empty());
    assert(string_views(out@) + Seq::<Seq<char>>::empty() =~= string_views(out@));
    out
}

/// The lines of a pasted URL list that, trimmed, are non-empty and start with `http`.
pub open spec fn job_url_lines(lines: Seq<Seq<char>>) -> Seq<Seq<char>>
    decreases lines.len(),
{
    if lines.len() == 0 {
        Seq::<Seq<char>>::empty()
    } else {
        let t = trim(lines[0]);
        let rest = job_url_lines(lines.drop_first());
        if t.len() > 0 && starts_with(t, "http"@) {
            seq![t] + rest
        } else {
            rest
        }
    }
}

/// The URLs of a pasted list: trimmed lines that start with `http`.
pub fn parse_job_urls(content: &str) -> (r: Vec<String>)
    ensures
        string_views(r@) == job_url_lines(lines_of(content@)),
{
    let cv = chars_of(content);
    let lines = split_lines(&cv);
    let ghost ls = lines_of(content@);
    let mut out: Vec<String> = Vec::new();
    let mut i: usize = 0;
    assert(ls.skip(0) =~= ls);
    assert(string_views(out@) + job_url_lines(ls) =~= job_url_lines(ls));
    while i < lines.len()
        invariant
            i <= lines.len(),
            views(lines@) == ls,
            string_views(out@) + job_url_lines(ls.skip(i as int)) == job_url_lines(ls),
        decreases lines.len() - i,
    {
        let ghost rest = ls.skip(i as int);
        assert(rest[0] == lines@[i as int]@);
        assert(rest.drop_first() =~= ls.skip(i + 1));
        let t = trimmed(&lines[i]);
        if t.len() > 0 && starts_with_str(&t, "http") {
            let ghost before = string_views(out@);
            let ghost tv = t@;
            out.push(string_of(&t));
            assert(string_views(out@) =~= before.push(tv));
            assert(before.push(tv) + job_url_lines(ls.skip(i + 1)) =~= before + (seq![tv]
                + job_url_lines(ls.skip(i + 1))));
        }
        i += 1;
    }
    assert(ls.skip(lines.len() as int) =~= Seq::<Seq<char>>::empty());
    assert(string_views(out@) + Seq::<Seq<char>>::empty() =~= string_views(out@));
    out
}

// ---------------------------------------------------------------------------
// File names from URLs
// ---------------------------------------------------------------------------

/// `str::replace` of a non-empty pattern: matches replaced left to right.
pub open spec fn replace_all(s: Seq<char>, p: Seq<char>, r: Seq<char>) -> Seq<char>
    decreases s.len(),
{
    if s.len() == 0 {
        Seq::<char>::empty()
    } else if p.len() > 0 && starts_with(s, p) {
        r + replace_all(s.skip(p.len() as int), p, r)
    } else {
        seq![s[0]] + replace_all(s.drop_first(), p, r)
    }
}

fn replace_all_exec(s: &Vec<char>, p: &str, r: &str) -> (out: Vec<char>)
    requires
        p@.len() > 0,
    ensures
        out@ == replace_all(s@, p@, r@),
{
    let pv = chars_of(p);
    let rv = chars_of(r);
    let mut out: Vec<char> = Vec::new();
    let mut i: usize = 0;
    assert(s@.skip(0) =~= s@);
    while i < s.len()
        invariant
            i <= s.len(),
            pv@ == p@,
            rv@ == r@,
            p@.len() > 0,
            out@ + replace_all(s@.skip(i as int), p@, r@) == replace_all(s@, p@, r@),
        decreases s.len() - i,
    {
        let ghost rest = s@.skip(i as int);
        let ghost o0 = out@;
        if matches_at(s, &pv, i) {
            assert(rest.subrange(0, p@.len() as int) =~= s@.subrange(i as int, i + p@.len()));
            assert(starts_with(rest, p@));
            assert(rest.skip(p@.len() as int) =~= s@.skip(i + p@.len()));
            extend(&mut out, &rv);
            assert(out@ + replace_all(s@.skip(i + pv.len()), p@, r@) =~= o0 + replace_all(
                rest,
                p@,
                r@,
            ));
            i += pv.len();
        } else {
            proof {
                if starts_with(rest, p@) {
                    assert(rest.subrange(0, p@.len() as int) =~= s@.subrange(
                        i as int,
                        i + p@.len(),
                    ));
                }
            }
            assert(rest[0] == s@[i as int]);
            assert(rest.drop_first() =~= s@.skip(i + 1));
            out.push(s[i]);
            assert(out@ + replace_all(s@.skip(i + 1), p@, r@) =~= o0 + replace_all(rest, p@, r@));
            i += 1;
        }
    }
    assert(s@.skip(i as int) =~= Seq::<char>::empty());
    assert(out@ + Seq::<char>::empty() =~= out@);
    out
}

/// The last non-empty piece, if any.
pub open spec fn last_nonempty(ps: Seq<Seq<char>>) -> Option<Seq<char>>
    decreases ps.len(),
{
    if ps.len() == 0 {
        None
    } else if ps.last().len() > 0 {
        Some(ps.last())
    } else {
        last_nonempty(ps.drop_last())
    }
}

/// The file name of a URL: the last non-empty path segment before any `?`
/// (`unknown_file` if there is none), with `%2F` written as `_`.
pub open spec fn filename_spec(url: Seq<char>) -> Seq<char> {
    let base = split_char(url, '?')[0];
    let f = match last_nonempty(split_char(base, '/')) {
        Some(x) => x,
        None => "unknown_file"@,
    };
    replace_all(f, "%2F"@, "_"@)
}

/// The file name to save a URL under (Azure blob URLs: `.../container/name?sas`).
pub fn extract_filename(url: &str) -> (r: String)
    ensures
        r@ == filename_spec(url@),
{
    let uv = chars_of(url);
    let q = split_on(&uv, '?');
    proof {
        lemma_split_char_nonempty(url@, '?');
    }
    assert(q@[0]@ == split_char(url@, '?')[0]);
    let segs = split_on(&q[0], '/');
    let ghost ps = split_char(q@[0]@, '/');
    let mut i = segs.len();
    assert(ps.take(ps.len() as int) =~= ps);
    while i > 0 && segs[i - 1].len() == 0
        invariant
            i <= segs.len(),
            views(segs@) == ps,
            last_nonempty(ps) == last_nonempty(ps.take(i as int)),
        decreases i,
    {
        assert(ps.take(i as int).last() == segs@[i - 1]@);
        assert(ps.take(i as int).drop_last() =~= ps.take(i - 1));
        i -= 1;
    }
    let f = if i == 0 {
        assert(ps.take(0) =~= Seq::<Seq<char>>::empty());
        chars_of("unknown_file")
    } else {
        assert(ps.take(i as int).last() == segs@[i - 1]@);
        copy_chars(&segs[i - 1])
    };
    assert(ps.take(ps.len() as int) =~= ps);
    proof {
        reveal_strlit("%2F");
    }
    let out = replace_all_exec(&f, "%2F", "_");
    string_of(&out)
}

/// The file name of a URL as the web job takes it: the text after the last
/// `/`, cut at the first `?`.
pub open spec fn job_filename_spec(url: Seq<char>) -> Seq<char> {
    split_char(split_char(url, '/').last(), '?')[0]
}

pub fn job_filename(url: &str) -> (r: String)
    ensures
        r@ == job_filename_spec(url@),
{
    let uv = chars_of(url);
    let segs = split_on(&uv, '/');
    proof {
        lemma_split_char_nonempty(url@, '/');
    }
    let last = &segs[segs.len() - 1];
    assert(last@ == split_char(url@, '/').last());
    let q = split_on(last, '?');
    proof {
        lemma_split_char_nonempty(last@, '?');
    }
    assert(q@[0]@ == split_char(last@, '?')[0]);
    string_of(&q[0])
}

// ---------------------------------------------------------------------------
// Unique names
// ---------------------------------------------------------------------------

/// The position of the last `.`, if any.
pub open spec fn last_dot(s: Seq<char>) -> int
    decreases s.len(),
{
    if s.len() == 0 {
        -1
    } else if s.last() == '.' {
        s.len() - 1
    } else {
        last_dot(s.drop_last())
    }
}

proof fn lemma_last_dot(s: Seq<char>)
    ensures
        -1 <= last_dot(s) < s.len(),
        last_dot(s) >= 0 ==> s[last_dot(s)] == '.',
        forall|j: int| last_dot(s) < j < s.len() ==> s[j] != '.',
    decreases s.len(),
{
    if s.len() > 0 {
        lemma_last_dot(s.drop_last());
        if s.last() != '.' {
            assert forall|j: int| last_dot(s) < j < s.len() implies s[j] != '.' by {
                if j < s.len() - 1 {
                    assert(s[j] == s.drop_last()[j]);
                }
            }
        }
    }
}

/// The stem and the dotted extension of a file name without separators, as
/// `Path::file_stem` and `Path::extension` split it (`.` and `..` have neither).
pub open spec fn stem_ext(name: Seq<char>) -> (Seq<char>, Seq<char>) {
    if name == "."@ || name == ".."@ {
        (Seq::<char>::empty(), Seq::<char>::empty())
    } else if last_dot(name) <= 0 {
        (name, Seq::<char>::empty())
    } else {
        (name.take(last_dot(name)), name.skip(last_dot(name)))
    }
}

/// The `n`-th alternative name: `stem_n.ext`.
pub open spec fn candidate(stem: Seq<char>, ext: Seq<char>, n: nat) -> Seq<char> {
    stem + seq!['_'] + dec_digits(n) + ext
}

/// Counter `n` gives the first alternative name not yet taken.
pub open spec fn first_free(stem: Seq<char>, ext: Seq<char>, taken: Seq<Seq<char>>, n: nat) -> bool {
    n >= 1 && !taken.contains(candidate(stem, ext, n)) && forall|m: nat|
        1 <= m < n ==> taken.contains(#[trigger] candidate(stem, ext, m))
}

/// The name a file gets: its own if not taken yet, else the first free `stem_n.ext`.
pub open spec fn pick_name(name: Seq<char>, taken: Seq<Seq<char>>) -> Seq<char> {
    if !taken.contains(name) {
        name
    } else {
        let (stem, ext) = stem_ext(name);
        candidate(stem, ext, choose|n: nat| first_free(stem, ext, taken, n))
    }
}

proof fn lemma_candidate_injective(stem: Seq<char>, ext: Seq<char>, a: nat, b: nat)
    requires
        candidate(stem, ext, a) == candidate(stem, ext, b),
    ensures
        a == b,
{
    let ca = candidate(stem, ext, a);
    let cb = candidate(stem, ext, b);
    let da = dec_digits(a);
    let db = dec_digits(b);
    assert(ca.len() == stem.len() + 1 + da.len() + ext.len());
    assert(da.len() == db.len());
    let lo = stem.len() + 1;
    assert(ca.subrange(lo as int, (lo + da.len()) as int) =~= da);
    assert(cb.subrange(lo as int, (lo + db.len()) as int) =~= db);
    lemma_dec_digits(a);
    lemma_dec_digits(b);
}

/// Among the first `taken.len() + 1` alternative names one is free.
proof fn lemma_some_free(stem: Seq<char>, ext: Seq<char>, taken: Seq<Seq<char>>)
    ensures
        exists|n: nat| 1 <= n <= taken.len() + 1 && !taken.contains(#[trigger] candidate(stem, ext, n)),
{
    let t = taken.len() as int;
    if forall|n: nat| 1 <= n <= t + 1 ==> taken.contains(#[trigger] candidate(stem, ext, n)) {
        let f = |c: int| taken.index_of(candidate(stem, ext, c as nat));
        let x = set_int_range(1, t + 2);
        let y = x.map(f);
        lemma_int_range(1, t + 2);
        lemma_int_range(0, t);
        assert forall|c: int| x.contains(c) implies 0 <= #[trigger] f(c) < t && taken[f(c)]
            == candidate(stem, ext, c as nat) by {
            assert(taken.contains(candidate(stem, ext, c as nat)));
        }
        assert(injective_on(f, x)) by {
            assert forall|c1: int, c2: int|
                x.contains(c1) && x.contains(c2) && #[trigger] f(c1) == #[trigger] f(c2) implies c1
                == c2 by {
                lemma_candidate_injective(stem, ext, c1 as nat, c2 as nat);
            }
        }
        lemma_map_size(x, y, f);
        assert(y.subset_of(set_int_range(0, t)));
        lemma_len_subset(y, set_int_range(0, t));
        assert(false);
    }
}

/// The first free counter is the only one.
proof fn lemma_first_free_unique(stem: Seq<char>, ext: Seq<char>, taken: Seq<Seq<char>>, n: nat)
    requires
        first_free(stem, ext, taken, n),
    ensures
        (choose|m: nat| first_free(stem, ext, taken, m)) == n,
{
    let m = choose|m: nat| first_free(stem, ext, taken, m);
    assert(first_free(stem, ext, taken, m));
    if m < n {
        assert(taken.contains(candidate(stem, ext, m)));
    } else if n < m {
        assert(taken.contains(candidate(stem, ext, n)));
    }
}

/// Whether `name` is among the names taken.
fn is_taken(taken: &Vec<Vec<char>>, name: &Vec<char>) -> (r: bool)
    ensures
        r == views(taken@).contains(name@),
{
    let mut i: usize = 0;
    while i < taken.len()
        invariant
            i <= taken.len(),
            forall|j: int| 0 <= j < i ==> views(taken@)[j] != name@,
        decreases taken.len() - i,
    {
        if chars_eq(&taken[i], name) {
            assert(views(taken@)[i as int] == name@);
            return true;
        }
        i += 1;
    }
    false
}

pub fn stem_ext_exec(name: &Vec<char>) -> (r: (Vec<char>, Vec<char>))
    ensures
        (r.0@, r.1@) == stem_ext(name@),
{
    if crate::text::eq_str(name, ".") || crate::text::eq_str(name, "..") {
        return (Vec::new(), Vec::new());
    }
    proof {
        lemma_last_dot(name@);
    }
    let mut i = name.len();
    assert(name@.take(name@.len() as int) =~= name@);
    while i > 0 && name[i - 1] != '.'
        invariant
            i <= name.len(),
            last_dot(name@) == last_dot(name@.take(i as int)),
        decreases i,
    {
        assert(name@.take(i as int).last() == name@[i - 1]);
        assert(name@.take(i as int).drop_last() =~= name@.take(i - 1));
        i -= 1;
    }
    if i > 0 {
        assert(name@.take(i as int).last() == name@[i - 1]);
    } else {
        assert(name@.take(0) =~= Seq::<char>::empty());
    }
    if i <= 1 {
        (copy_chars(name), Vec::new())
    } else {
        (slice_of(name, 0, i - 1), slice_of(name, i - 1, name.len()))
    }
}

/// The name for a file: its own if not taken yet, else the first `stem_n.ext`
/// that is free.
pub fn unique_name(name: &Vec<char>, taken: &Vec<Vec<char>>) -> (r: Vec<char>)
    requires
        taken.len() < usize::MAX,
    ensures
        r@ == pick_name(name@, views(taken@)),
        !views(taken@).contains(r@),
{
    if !is_taken(taken, name) {
        return copy_chars(name);
    }
    let (stem, ext) = stem_ext_exec(name);
    let ghost ts = views(taken@);
    proof {
        lemma_some_free(stem@, ext@, ts);
    }
    let mut n: usize = 1;
    loop
        invariant
            1 <= n <= taken.len() + 1,
            taken.len() < usize::MAX,
            ts == views(taken@),
            ts.contains(name@),
            (stem@, ext@) == stem_ext(name@),
            forall|m: nat| 1 <= m < n ==> ts.contains(#[trigger] candidate(stem@, ext@, m)),
            exists|k: nat| n <= k <= taken.len() + 1 && !ts.contains(#[trigger] candidate(stem@, ext@, k)),
        decreases taken.len() + 1 - n,
    {
        let mut c = copy_chars(&stem);
        c.push('_');
        push_decimal(&mut c, n as u64);
        extend(&mut c, &ext);
        assert(c@ =~= candidate(stem@, ext@, n as nat));
        if !is_taken(taken, &c) {
            assert(first_free(stem@, ext@, ts, n as nat));
            proof {
                lemma_first_free_unique(stem@, ext@, ts, n as nat);
            }
            assert(ts.contains(name@));
            return c;
        }
        assert(ts.contains(candidate(stem@, ext@, n as nat)));
        let ghost k = choose|k: nat|
            n <= k <= taken.len() + 1 && !ts.contains(#[trigger] candidate(stem@, ext@, k));
        assert(k != n);
        n += 1;
    }
}

/// Names for the files of a URL list: each URL's file name, made unique
/// against the names given before it.
pub open spec fn planned_names(urls: Seq<Seq<char>>) -> Seq<Seq<char>>
    decreases urls.len(),
{
    if urls.len() == 0 {
        Seq::<Seq<char>>::empty()
    } else {
        let before = planned_names(urls.drop_last());
        before.push(pick_name(filename_spec(urls.last()), before))
    }
}

/// The file names a URL list is saved under, in order and pairwise distinct.
pub fn unique_filenames(urls: &Vec<String>) -> (r: Vec<String>)
    ensures
        string_views(r@) == planned_names(string_views(urls@)),
        forall|i: int, j: int| 0 <= i < j < r.len() ==> r@[i]@ != r@[j]@,
{
    let ghost us = string_views(urls@);
    let mut taken: Vec<Vec<char>> = Vec::new();
    let mut out: Vec<String> = Vec::new();
    let mut i: usize = 0;
    while i < urls.len()
        invariant
            i <= urls.len(),
            taken.len() == i,
            us == string_views(urls@),
            string_views(out@) == planned_names(us.take(i as int)),
            views(taken@) == planned_names(us.take(i as int)),
            forall|a: int, b: int| 0 <= a < b < out.len() ==> out@[a]@ != out@[b]@,
        decreases urls.len() - i,
    {
        assert(us.take(i + 1).drop_last() =~= us.take(i as int));
        assert(us.take(i + 1).last() == urls@[i as int]@);
        let f = extract_filename(urls[i].as_str());
        let fv = chars_of(f.as_str());
        let name = unique_name(&fv, &taken);
        let ghost old_out = string_views(out@);
        let ghost old_taken = views(taken@);
        let ghost nv = name@;
        out.push(string_of(&name));
        taken.push(name);
        assert(string_views(out@) =~= old_out.push(nv));
        assert(views(taken@) =~= old_taken.push(nv));
        assert forall|a: int, b: int| 0 <= a < b < out.len() implies out@[a]@ != out@[b]@ by {
            if b == out.len() - 1 {
                assert(old_out[a] == out@[a]@);
                assert(old_taken.contains(out@[a]@));
            }
        }
        i += 1;
    }
    assert(us.take(urls.len() as int) =~= us);
    out
}


/// `%2F` occurs in `t` at position `i`.
pub open spec fn escaped_slash_at(t: Seq<char>, i: int) -> bool {
    0 <= i && i + 3 <= t.len() && t[i] == '%' && t[i + 1] == '2' && t[i + 2] == 'F'
}

proof fn lemma_unescape_slashes(s: Seq<char>)
    ensures
        s.len() > 0 ==> replace_all(s, "%2F"@, "_"@).len() > 0,
        forall|i: int| 0 <= i < replace_all(s, "%2F"@, "_"@).len() ==>
            #[trigger] replace_all(s, "%2F"@, "_"@)[i] == '_' || s.contains(replace_all(s, "%2F"@, "_"@)[i]),
        forall|i: int| !escaped_slash_at(replace_all(s, "%2F"@, "_"@), i),
        replace_all(s, "%2F"@, "_"@).len() >= 2 && replace_all(s, "%2F"@, "_"@)[0] == '2'
            && replace_all(s, "%2F"@, "_"@)[1] == 'F' ==> s.len() >= 2 && s[0] == '2' && s[1] == 'F',
        replace_all(s, "%2F"@, "_"@).len() >= 1 && replace_all(s, "%2F"@, "_"@)[0] != '_'
            ==> s.len() >= 1 && s[0] == replace_all(s, "%2F"@, "_"@)[0],
    decreases s.len(),
{
    reveal_strlit("%2F");
    reveal_strlit("_");
    let p = "%2F"@;
    let r = "_"@;
    let t = replace_all(s, p, r);
    if s.len() > 0 {
        if starts_with(s, p) {
            let s1 = s.skip(3);
            lemma_unescape_slashes(s1);
            let t1 = replace_all(s1, p, r);
            assert(t == r + t1);
            assert forall|i: int| 0 <= i < t.len() implies #[trigger] t[i] == '_' || s.contains(t[i]) by {
                if i > 0 {
                    assert(t[i] == t1[i - 1]);
                    if t1[i - 1] != '_' {
                        let k = choose|k: int| 0 <= k < s1.len() && s1[k] == t1[i - 1];
                        assert(s[k + 3] == t[i]);
                    }
                }
            }
            assert forall|i: int| !escaped_slash_at(t, i) by {
                if i > 0 && escaped_slash_at(t, i) {
                    assert(escaped_slash_at(t1, i - 1));
                }
            }
        } else {
            let s1 = s.drop_first();
            lemma_unescape_slashes(s1);
            let t1 = replace_all(s1, p, r);
            assert(t == seq![s[0]] + t1);
            assert forall|i: int| 0 <= i < t.len() implies #[trigger] t[i] == '_' || s.contains(t[i]) by {
                if i > 0 {
                    assert(t[i] == t1[i - 1]);
                    if t1[i - 1] != '_' {
                        let k = choose|k: int| 0 <= k < s1.len() && s1[k] == t1[i - 1];
                        assert(s[k + 1] == t[i]);
                    }
                } else {
                    assert(s[0] == t[0]);
                }
            }
            assert forall|i: int| !escaped_slash_at(t, i) by {
                if i > 0 && escaped_slash_at(t, i) {
                    assert(escaped_slash_at(t1, i - 1));
                }
                if i == 0 && escaped_slash_at(t, i) {
                    assert(t1[0] == '2' && t1[1] == 'F');
                    assert(s.subrange(0, 3) =~= p);
                }
            }
            if t.len() >= 2 && t[0] == '2' && t[1] == 'F' {
                assert(t1[0] == 'F');
            }
        }
    }
}

/// The last non-empty piece is one of the pieces, and it is not empty.
proof fn lemma_last_nonempty(ps: Seq<Seq<char>>)
    ensures
        last_nonempty(ps) matches Some(x) ==> x.len() > 0 && exists|k: int| 0 <= k < ps.len() && ps[k] == x,
    decreases ps.len(),
{
    if ps.len() > 0 && ps.last().len() == 0 {
        lemma_last_nonempty(ps.drop_last());
        if let Some(x) = last_nonempty(ps.drop_last()) {
            let k = choose|k: int| 0 <= k < ps.drop_last().len() && ps.drop_last()[k] == x;
            assert(ps[k] == x);
        }
    } else if ps.len() > 0 {
        assert(ps[ps.len() - 1] == ps.last());
    }
}

/// A file name taken from a URL is never empty and holds no `/`, no `?` and
/// no escaped slash `%2F`.
pub proof fn lemma_filename_shape(url: Seq<char>)
    ensures
        filename_spec(url).len() > 0,
        !filename_spec(url).contains('/'),
        !filename_spec(url).contains('?'),
        forall|i: int| !escaped_slash_at(filename_spec(url), i),
{
    reveal_strlit("unknown_file");
    lemma_split_char_nonempty(url, '?');
    lemma_split_char_pieces(url, '?');
    let base = split_char(url, '?')[0];
    assert(piece_from(url, '?', base));
    let ps = split_char(base, '/');
    lemma_split_char_pieces(base, '/');
    lemma_last_nonempty(ps);
    let f = match last_nonempty(ps) {
        Some(x) => x,
        None => "unknown_file"@,
    };
    assert(f.len() > 0);
    assert forall|j: int| 0 <= j < f.len() implies f[j] != '/' && f[j] != '?' by {
        if let Some(x) = last_nonempty(ps) {
            let k = choose|k: int| 0 <= k < ps.len() && ps[k] == x;
            assert(piece_from(base, '/', ps[k]));
            assert(base.contains(f[j]));
            let i = choose|i: int| 0 <= i < base.len() && base[i] == f[j];
            assert(base[i] != '?');
        }
    }
    lemma_unescape_slashes(f);
    let t = filename_spec(url);
    assert(t == replace_all(f, "%2F"@, "_"@));
    assert forall|i: int| 0 <= i < t.len() implies t[i] != '/' && t[i] != '?' by {
        if t[i] != '_' {
            let j = choose|j: int| 0 <= j < f.len() && f[j] == t[i];
        }
    }
}

} // verus!
