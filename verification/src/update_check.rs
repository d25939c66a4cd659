use vstd::prelude::*;
use crate::text::{chars_of, string_of, extend_str, split_on, split_char, parsed_values, parse_all, has_sub, contains_str, lemma_split_char_nonempty, lemma_split_concat, lemma_split_single, occurs_at};

verus! {

/// The version of this build.
pub const CURRENT_VERSION: &'static str = "2.2.0";

/// A release as the release feed lists it.
#[derive(Clone, Debug)]
pub struct Release {
    pub tag_name: String,
    pub prerelease: bool,
    pub html_url: String,
}

/// A newer release that the user may want.
#[derive(Clone, Debug)]
pub struct UpdateInfo {
    pub latest_version: String,
    pub download_url: String,
    pub is_prerelease: bool,
}

// ---------------------------------------------------------------------------
// Pre-release versions
// ---------------------------------------------------------------------------

/// A version carrying a `-dev`, `-rc`, `-beta` or `-alpha` marker.
pub open spec fn is_prerelease_spec(v: Seq<char>) -> bool {
    has_sub(v, "-dev"@) || has_sub(v, "-rc"@) || has_sub(v, "-beta"@) || has_sub(v, "-alpha"@)
}

/// Whether a version string is a development or pre-release build.
pub fn is_prerelease_version(version: &str) -> (r: bool)
    ensures
        r == is_prerelease_spec(version@),
{
    let v = chars_of(version);
    contains_str(&v, "-dev") || contains_str(&v, "-rc") || contains_str(&v, "-beta")
        || contains_str(&v, "-alpha")
}

// ---------------------------------------------------------------------------
// Ordering versions
// ---------------------------------------------------------------------------

/// `trim_start_matches('v')`.
pub open spec fn strip_v(s: Seq<char>) -> Seq<char>
    decreases s.len(),
{
    if s.len() > 0 && s[0] == 'v' {
        strip_v(s.drop_first())
    } else {
        s
    }
}

/// The numeric parts of a version: leading `v`s dropped, everything from the
/// first `-` dropped, then the `.`-separated pieces that read as `u32`.
pub open spec fn version_parts(v: Seq<char>) -> Seq<nat> {
    parsed_values(split_char(split_char(strip_v(v), '-')[0], '.'), 0xFFFF_FFFF)
}

/// The verdict of the first position where the two part lists differ, if any
/// position within their common length does.
pub open spec fn first_difference(l: Seq<nat>, c: Seq<nat>) -> Option<bool>
    decreases l.len(),
{
    if l.len() == 0 || c.len() == 0 {
        None
    } else if l[0] > c[0] {
        Some(true)
    } else if l[0] < c[0] {
        Some(false)
    } else {
        first_difference(l.drop_first(), c.drop_first())
    }
}

/// `a > b` for strings: lexicographic by character.
pub open spec fn str_greater(a: Seq<char>, b: Seq<char>) -> bool
    decreases a.len(),
{
    if a.len() == 0 {
        false
    } else if b.len() == 0 {
        true
    } else if a[0] != b[0] {
        (a[0] as u32) > (b[0] as u32)
    } else {
        str_greater(a.drop_first(), b.drop_first())
    }
}

/// Whether `latest` is a newer version than `current`.
pub open spec fn newer_spec(latest: Seq<char>, current: Seq<char>) -> bool {
    let lp = version_parts(latest);
    let cp = version_parts(current);
    match first_difference(lp, cp) {
        Some(b) => b,
        None => if is_prerelease_spec(current) && !is_prerelease_spec(latest) {
            true
        } else if is_prerelease_spec(current) && is_prerelease_spec(latest) {
            str_greater(strip_v(latest), strip_v(current))
        } else {
            lp.len() > cp.len()
        },
    }
}

fn strip_leading_v(v: &Vec<char>) -> (r: Vec<char>)
    ensures
        r@ == strip_v(v@),
{
    let mut i: usize = 0;
    assert(v@.subrange(0, v.len() as int) =~= v@);
    while i < v.len() && v[i] == 'v'
        invariant
            i <= v.len(),
            strip_v(v@) == strip_v(v@.subrange(i as int, v.len() as int)),
        decreases v.len() - i,
    {
        assert(v@.subrange(i as int, v.len() as int).drop_first() =~= v@.subrange(
            i + 1,
            v.len() as int,
        ));
        i += 1;
    }
    let mut r: Vec<char> = Vec::new();
    let mut k = i;
    while k < v.len()
        invariant
            i <= k <= v.len(),
            r@ == v@.subrange(i as int, k as int),
        decreases v.len() - k,
    {
        r.push(v[k]);
        k += 1;
        assert(r@ =~= v@.subrange(i as int, k as int));
    }
    r
}

fn version_numbers(v: &Vec<char>) -> (r: Vec<u64>)
    ensures
        r@.map_values(|x: u64| x as nat) == version_parts(v@),
{
    let s = strip_leading_v(v);
    let dash = split_on(&s, '-');
    proof {
        lemma_split_char_nonempty(s@, '-');
    }
    assert(dash@[0]@ == split_char(s@, '-')[0]);
    let dots = split_on(&dash[0], '.');
    parse_all(&dots, 0xFFFF_FFFF)
}

fn first_difference_exec(l: &Vec<u64>, c: &Vec<u64>) -> (r: Option<bool>)
    ensures
        r == first_difference(l@.map_values(|x: u64| x as nat), c@.map_values(|x: u64| x as nat)),
{
    let ghost lv = l@.map_values(|x: u64| x as nat);
    let ghost cv = c@.map_values(|x: u64| x as nat);
    let mut i: usize = 0;
    assert(lv.skip(0) =~= lv);
    assert(cv.skip(0) =~= cv);
    while i < l.len() && i < c.len()
        invariant
            i <= l.len(),
            i <= c.len(),
            lv == l@.map_values(|x: u64| x as nat),
            cv == c@.map_values(|x: u64| x as nat),
            first_difference(lv, cv) == first_difference(lv.skip(i as int), cv.skip(i as int)),
        decreases l.len() - i,
    {
        assert(lv.skip(i as int)[0] == l@[i as int] as nat);
        assert(cv.skip(i as int)[0] == c@[i as int] as nat);
        if l[i] > c[i] {
            return Some(true);
        }
        if l[i] < c[i] {
            return Some(false);
        }
        assert(lv.skip(i as int).drop_first() =~= lv.skip(i + 1));
        assert(cv.skip(i as int).drop_first() =~= cv.skip(i + 1));
        i += 1;
    }
    None
}

pub fn str_greater_exec(a: &Vec<char>, b: &Vec<char>) -> (r: bool)
    ensures
        r == str_greater(a@, b@),
{
    let mut i: usize = 0;
    assert(a@.skip(0) =~= a@);
    assert(b@.skip(0) =~= b@);
    while i < a.len()
        invariant
            i <= a.len(),
            i <= b.len(),
            str_greater(a@, b@) == str_greater(a@.skip(i as int), b@.skip(i as int)),
        decreases a.len() - i,
    {
        if i >= b.len() {
            return true;
        }
        if a[i] != b[i] {
            return (a[i] as u32) > (b[i] as u32);
        }
        assert(a@.skip(i as int).drop_first() =~= a@.skip(i + 1));
        assert(b@.skip(i as int).drop_first() =~= b@.skip(i + 1));
        i += 1;
    }
    false
}

/// Compares two version strings: the numeric parts decide where they differ;
/// on equal parts a stable release is newer than a pre-release, two
/// pre-releases compare as text, and otherwise the one with more parts is newer.
pub fn version_is_newer(latest: &str, current: &str) -> (r: bool)
    ensures
        r == newer_spec(latest@, current@),
{
    let lv = chars_of(latest);
    let cv = chars_of(current);
    let lp = version_numbers(&lv);
    let cp = version_numbers(&cv);
    match first_difference_exec(&lp, &cp) {
        Some(b) => {
            return b;
        },
        None => {},
    }
    let cur_pre = is_prerelease_version(current);
    let lat_pre = is_prerelease_version(latest);
    if cur_pre && !lat_pre {
        return true;
    }
    if cur_pre && lat_pre {
        let ls = strip_leading_v(&lv);
        let cs = strip_leading_v(&cv);
        return str_greater_exec(&ls, &cs);
    }
    lp.len() > cp.len()
}

pub proof fn lemma_first_difference_same(p: Seq<nat>)
    ensures
        first_difference(p, p) is None,
    decreases p.len(),
{
    if p.len() > 0 {
        lemma_first_difference_same(p.drop_first());
    }
}

pub proof fn lemma_str_greater_same(a: Seq<char>)
    ensures
        !str_greater(a, a),
    decreases a.len(),
{
    if a.len() > 0 {
        lemma_str_greater_same(a.drop_first());
    }
}

/// Of two different texts exactly one is greater.
pub proof fn lemma_str_total(a: Seq<char>, b: Seq<char>)
    ensures
        a != b ==> (str_greater(a, b) || str_greater(b, a)),
        !(str_greater(a, b) && str_greater(b, a)),
    decreases a.len(),
{
    if a.len() > 0 && b.len() > 0 && a[0] == b[0] {
        lemma_str_total(a.drop_first(), b.drop_first());
        if a != b {
            assert(a.drop_first() != b.drop_first()) by {
                if a.drop_first() == b.drop_first() {
                    assert(a.len() == b.len());
                    assert forall|k: int| 0 <= k < a.len() implies a[k] == b[k] by {
                        if k > 0 {
                            assert(a[k] == a.drop_first()[k - 1]);
                            assert(b[k] == b.drop_first()[k - 1]);
                        }
                    }
                    assert(a =~= b);
                }
            }
        }
    } else if a.len() > 0 && b.len() > 0 {
        vstd::utf8::char_u32_cast(a[0], a[0] as u32);
        vstd::utf8::char_u32_cast(b[0], b[0] as u32);
    } else if a.len() == 0 && b.len() == 0 {
        assert(a =~= b);
    }
}

/// Text order is transitive.
pub proof fn lemma_str_transitive(a: Seq<char>, b: Seq<char>, c: Seq<char>)
    requires
        str_greater(a, b),
        str_greater(b, c),
    ensures
        str_greater(a, c),
    decreases a.len(),
{
    if c.len() > 0 && a[0] == b[0] && b[0] == c[0] {
        lemma_str_transitive(a.drop_first(), b.drop_first(), c.drop_first());
    }
}

/// Comparing the part lists the other way round flips the verdict.
pub proof fn lemma_first_difference_swap(l: Seq<nat>, c: Seq<nat>)
    ensures
        first_difference(c, l) == match first_difference(l, c) {
            Some(b) => Some(!b),
            None => None,
        },
    decreases l.len(),
{
    if l.len() > 0 && c.len() > 0 && l[0] == c[0] {
        lemma_first_difference_swap(l.drop_first(), c.drop_first());
    }
}

/// Of two versions with as many numeric parts, at most one is newer than
/// the other.
pub proof fn lemma_newer_asymmetric(a: Seq<char>, b: Seq<char>)
    requires
        version_parts(a).len() == version_parts(b).len(),
    ensures
        !(newer_spec(a, b) && newer_spec(b, a)),
{
    lemma_first_difference_swap(version_parts(a), version_parts(b));
    lemma_str_total(strip_v(a), strip_v(b));
}

/// No version is newer than itself.
pub proof fn lemma_newer_irreflexive(v: Seq<char>)
    ensures
        !newer_spec(v, v),
{
    lemma_first_difference_same(version_parts(v));
    lemma_str_greater_same(strip_v(v));
}

proof fn lemma_marker_shift(s: Seq<char>, t: Seq<char>, m: Seq<char>)
    requires
        has_sub(t, m),
    ensures
        has_sub(s + t, m),
{
    let i = choose|i: int| occurs_at(t, m, i);
    assert((s + t).subrange(s.len() + i, s.len() + i + m.len()) =~= t.subrange(i, i + m.len()));
    assert(occurs_at(s + t, m, s.len() + i));
}

proof fn lemma_no_dash_marker(s: Seq<char>, m: Seq<char>)
    requires
        !s.contains('-'),
        m.len() > 0,
        m[0] == '-',
    ensures
        !has_sub(s, m),
{
    if has_sub(s, m) {
        let i = choose|i: int| occurs_at(s, m, i);
        assert(s.subrange(i, i + m.len())[0] == m[0]);
        assert(s[i] == '-');
    }
}

/// A leading `v` neither makes nor hides a marker that starts with `-`.
proof fn lemma_v_marker(a: Seq<char>, m: Seq<char>)
    requires
        m.len() > 0,
        m[0] == '-',
    ensures
        has_sub(seq!['v'] + a, m) == has_sub(a, m),
{
    let va = seq!['v'] + a;
    if has_sub(a, m) {
        lemma_marker_shift(seq!['v'], a, m);
    }
    if has_sub(va, m) {
        let i = choose|i: int| occurs_at(va, m, i);
        assert(va.subrange(i, i + m.len())[0] == m[0]);
        assert(i != 0);
        assert(a.subrange(i - 1, i - 1 + m.len()) =~= va.subrange(i, i + m.len()));
        assert(occurs_at(a, m, i - 1));
    }
}

/// A leading `v` does not change whether a version is a pre-release.
pub proof fn lemma_v_prefix_prerelease(a: Seq<char>)
    ensures
        is_prerelease_spec(seq!['v'] + a) == is_prerelease_spec(a),
{
    reveal_strlit("-dev");
    reveal_strlit("-rc");
    reveal_strlit("-beta");
    reveal_strlit("-alpha");
    lemma_v_marker(a, "-dev"@);
    lemma_v_marker(a, "-rc"@);
    lemma_v_marker(a, "-beta"@);
    lemma_v_marker(a, "-alpha"@);
}

/// Adding a leading `v` to either version never changes whether one is
/// newer than the other.
pub proof fn lemma_newer_ignores_v(a: Seq<char>, b: Seq<char>)
    ensures
        newer_spec(seq!['v'] + a, b) == newer_spec(a, b),
        newer_spec(a, seq!['v'] + b) == newer_spec(a, b),
{
    let va = seq!['v'] + a;
    let vb = seq!['v'] + b;
    assert(va.drop_first() =~= a);
    assert(vb.drop_first() =~= b);
    assert(strip_v(va) == strip_v(a));
    assert(strip_v(vb) == strip_v(b));
    assert(version_parts(va) == version_parts(a));
    assert(version_parts(vb) == version_parts(b));
    lemma_v_prefix_prerelease(a);
    lemma_v_prefix_prerelease(b);
}

/// A stable version is newer than every pre-release of it, and no
/// pre-release is newer than the stable version it leads to.
pub proof fn lemma_stable_beats_prerelease(s: Seq<char>, t: Seq<char>)
    requires
        s.len() > 0,
        s[0] != 'v',
        !s.contains('-'),
        t.len() > 0,
        t[0] == '-',
        is_prerelease_spec(t),
    ensures
        newer_spec(s, s + t),
        !newer_spec(s + t, s),
{
    let st = s + t;
    assert(st[0] == s[0]);
    assert(strip_v(st) == st);
    assert(strip_v(s) == s);
    assert(st =~= s + seq!['-'] + t.drop_first());
    lemma_split_concat(s, t.drop_first(), '-');
    lemma_split_single(s, '-');
    lemma_split_char_nonempty(t.drop_first(), '-');
    assert(split_char(st, '-')[0] == s);
    assert(version_parts(st) == version_parts(s));
    lemma_first_difference_same(version_parts(s));
    if has_sub(t, "-dev"@) {
        lemma_marker_shift(s, t, "-dev"@);
    }
    if has_sub(t, "-rc"@) {
        lemma_marker_shift(s, t, "-rc"@);
    }
    if has_sub(t, "-beta"@) {
        lemma_marker_shift(s, t, "-beta"@);
    }
    if has_sub(t, "-alpha"@) {
        lemma_marker_shift(s, t, "-alpha"@);
    }
    reveal_strlit("-dev");
    reveal_strlit("-rc");
    reveal_strlit("-beta");
    reveal_strlit("-alpha");
    lemma_no_dash_marker(s, "-dev"@);
    lemma_no_dash_marker(s, "-rc"@);
    lemma_no_dash_marker(s, "-beta"@);
    lemma_no_dash_marker(s, "-alpha"@);
}

// ---------------------------------------------------------------------------
// Choosing an update
// ---------------------------------------------------------------------------

/// A release that the user of `current` is offered: newer than `current`, and
/// stable unless `current` itself is a pre-release.
pub open spec fn offered(r: Release, current: Seq<char>) -> bool {
    (is_prerelease_spec(current) || !r.prerelease) && newer_spec(r.tag_name@, current)
}

/// The first release of the feed that the user of `current` is offered, as
/// update information.
pub fn select_update(releases: &Vec<Release>, current: &str) -> (r: Option<UpdateInfo>)
    ensures
        r is None <==> forall|i: int| 0 <= i < releases.len() ==> !offered(releases@[i], current@),
        r matches Some(info) ==> exists|i: int|
            0 <= i < releases.len() && offered(releases@[i], current@) && (forall|j: int|
                0 <= j < i ==> !offered(releases@[j], current@))
                && info.latest_version@ == releases@[i].tag_name@ && info.download_url@
                == releases@[i].html_url@ && info.is_prerelease == releases@[i].prerelease,
{
    let current_is_prerelease = is_prerelease_version(current);
    let mut i: usize = 0;
    while i < releases.len()
        invariant
            i <= releases.len(),
            current_is_prerelease == is_prerelease_spec(current@),
            forall|j: int| 0 <= j < i ==> !offered(releases@[j], current@),
        decreases releases.len() - i,
    {
        let rel = &releases[i];
        if (current_is_prerelease || !rel.prerelease) && version_is_newer(
            rel.tag_name.as_str(),
            current,
        ) {
            let info = UpdateInfo {
                latest_version: rel.tag_name.clone(),
                download_url: rel.html_url.clone(),
                is_prerelease: rel.prerelease,
            };
            return Some(info);
        }
        i += 1;
    }
    None
}

// ---------------------------------------------------------------------------
// The web banner
// ---------------------------------------------------------------------------

pub open spec fn banner_label(info: UpdateInfo) -> Seq<char> {
    if info.is_prerelease {
        "pre-release"@
    } else {
        "stable release"@
    }
}

/// The notice the web page shows for an available update.
pub open spec fn banner_spec(info: UpdateInfo) -> Seq<char> {
    r#"<div style="background:#ecfdf5; border:1px solid #6ee7b7; border-radius:8px; padding:12px 16px; margin-bottom:16px; display:flex; align-items:center; justify-content:space-between; font-size:14px; color:#065f46;">
                    <span>New "#@ + banner_label(info) + r#" available: <strong>"#@ + info.latest_version@ + r#"</strong> (current: "#@ + CURRENT_VERSION@ + r#")</span>
                    <a href=""#@
        + info.download_url@ + r#"" target="_blank" rel="noopener noreferrer"
                       style="margin-left:12px; padding:6px 14px; background:#059669; color:#fff; border-radius:6px; text-decoration:none; font-size:12px; font-weight:500; white-space:nowrap;">
                        Download
                    </a>
                </div>"#@
}

/// HTML notice of an available update for the web page, or nothing.
pub fn get_web_update_banner(info: Option<&UpdateInfo>) -> (r: String)
    ensures
        r@ == match info {
            Some(i) => banner_spec(*i),
            None => Seq::<char>::empty(),
        },
{
    match info {
        Some(i) => {
            let mut v: Vec<char> = Vec::new();
            extend_str(&mut v, r#"<div style="background:#ecfdf5; border:1px solid #6ee7b7; border-radius:8px; padding:12px 16px; margin-bottom:16px; display:flex; align-items:center; justify-content:space-between; font-size:14px; color:#065f46;">
                    <span>New "#);
            if i.is_prerelease {
                extend_str(&mut v, "pre-release");
            } else {
                extend_str(&mut v, "stable release");
            }
            extend_str(&mut v, r#" available: <strong>"#);
            extend_str(&mut v, i.latest_version.as_str());
            extend_str(&mut v, r#"</strong> (current: "#);
            extend_str(&mut v, CURRENT_VERSION);
            extend_str(&mut v, r#")</span>
                    <a href=""#);
            extend_str(&mut v, i.download_url.as_str());
            extend_str(&mut v, r#"" target="_blank" rel="noopener noreferrer"
                       style="margin-left:12px; padding:6px 14px; background:#059669; color:#fff; border-radius:6px; text-decoration:none; font-size:12px; font-weight:500; white-space:nowrap;">
                        Download
                    </a>
                </div>"#);
            assert(v@ =~= banner_spec(*i));
            string_of(&v)
        },
        None => String::new(),
    }
}

// ---------------------------------------------------------------------------
// The outcome of the background check
// ---------------------------------------------------------------------------

/// The outcome of the background update check: empty until the check has
/// finished, then the update it found, if any. It is set once.
pub struct UpdateSlot {
    pub outcome: Option<Option<UpdateInfo>>,
}

impl UpdateSlot {
    pub fn new() -> (r: UpdateSlot)
        ensures
            r.outcome is None,
    {
        UpdateSlot { outcome: None }
    }

    /// Records the outcome of the check and tells whether it was recorded:
    /// the first outcome stays, later ones are ignored.
    pub fn set(&mut self, result: Option<UpdateInfo>) -> (r: bool)
        ensures
            r == (old(self).outcome is None),
            r ==> final(self).outcome == Some(result),
            !r ==> final(self).outcome == old(self).outcome,
    {
        if self.outcome.is_none() {
            self.outcome = Some(result);
            true
        } else {
            false
        }
    }

    /// The update that the finished check found; nothing while the check is
    /// still running or when it found none.
    pub fn get_update_info(&self) -> (r: Option<&UpdateInfo>)
        ensures
            match r {
                Some(i) => self.outcome == Some(Some(*i)),
                None => !(self.outcome matches Some(Some(_))),
            },
    {
        match &self.outcome {
            Some(Some(info)) => Some(info),
            _ => None,
        }
    }
}

pub open spec fn notice_label(info: UpdateInfo) -> Seq<char> {
    if info.is_prerelease {
        "pre-release"@
    } else {
        "stable"@
    }
}

/// The lines of the terminal notice of an available update: a blank line,
/// the versions, the download link, a blank line; none without an update.
pub fn cli_update_notice(info: Option<&UpdateInfo>) -> (r: Vec<String>)
    ensures
        crate::text::string_views(r@) == match info {
            Some(i) => seq![
                Seq::<char>::empty(),
                "  ** New "@ + notice_label(*i) + " available: "@ + i.latest_version@ + " (current: "@
                    + CURRENT_VERSION@ + ") **"@,
                "     Download: "@ + i.download_url@,
                Seq::<char>::empty(),
            ],
            None => Seq::<Seq<char>>::empty(),
        },
{
    let mut r: Vec<String> = Vec::new();
    match info {
        Some(i) => {
            let mut head: Vec<char> = Vec::new();
            extend_str(&mut head, "  ** New ");
            if i.is_prerelease {
                extend_str(&mut head, "pre-release");
            } else {
                extend_str(&mut head, "stable");
            }
            extend_str(&mut head, " available: ");
            extend_str(&mut head, i.latest_version.as_str());
            extend_str(&mut head, " (current: ");
            extend_str(&mut head, CURRENT_VERSION);
            extend_str(&mut head, ") **");
            let mut link: Vec<char> = Vec::new();
            extend_str(&mut link, "     Download: ");
            extend_str(&mut link, i.download_url.as_str());
            r.push(String::new());
            r.push(string_of(&head));
            r.push(string_of(&link));
            r.push(String::new());
            assert(crate::text::string_views(r@) =~= seq![
                Seq::<char>::empty(),
                "  ** New "@ + notice_label(*i) + " available: "@ + i.latest_version@ + " (current: "@
                    + CURRENT_VERSION@ + ") **"@,
                "     Download: "@ + i.download_url@,
                Seq::<char>::empty(),
            ]);
        },
        None => {
            assert(crate::text::string_views(r@) =~= Seq::<Seq<char>>::empty());
        },
    }
    r
}

} // verus!
