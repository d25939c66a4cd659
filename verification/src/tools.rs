use vstd::prelude::*;
use crate::text::{chars_of, string_of, trim, trimmed, lines_of, split_lines};
use crate::text::string_views;
use crate::decimal::eq_ignore_case;

verus! {

broadcast use vstd::string::group_string_axioms;

// ---------------------------------------------------------------------------
// Finding the Wireshark tools
// ---------------------------------------------------------------------------

/// The path that `where.exe` reports: the first line of its output, trimmed,
/// when it succeeded and printed something.
pub open spec fn where_candidate(ok: bool, out: Seq<char>) -> Option<Seq<char>> {
    if ok && lines_of(out).len() > 0 {
        Some(trim(lines_of(out)[0]))
    } else {
        None
    }
}

/// The places looked at, in order: what `where.exe` reported, then the
/// default installation paths.
pub open spec fn search_order(ok: bool, out: Seq<char>, defaults: Seq<Seq<char>>) -> Seq<
    Seq<char>,
> {
    match where_candidate(ok, out) {
        Some(c) => seq![c] + defaults,
        None => defaults,
    }
}

/// `present` may answer `b` for a path with the text `s`.
pub open spec fn answered<F: Fn(&String) -> bool>(present: F, s: Seq<char>, b: bool) -> bool {
    exists|x: String| x@ == s && call_ensures(present, (&x,), b)
}

/// The first of `candidates` for which `present` answers `true`.
fn first_present<F: Fn(&String) -> bool>(candidates: &Vec<String>, present: F) -> (r: Option<
    usize,
>)
    requires
        forall|x: &String| call_requires(present, (x,)),
    ensures
        match r {
            Some(k) => k < candidates.len() && answered(present, candidates@[k as int]@, true)
                && forall|j: int|
                0 <= j < k ==> answered(present, #[trigger] candidates@[j]@, false),
            None => forall|j: int|
                0 <= j < candidates.len() ==> answered(present, #[trigger] candidates@[j]@, false),
        },
{
    let mut i: usize = 0;
    while i < candidates.len()
        invariant
            i <= candidates.len(),
            forall|x: &String| call_requires(present, (x,)),
            forall|j: int| 0 <= j < i ==> answered(present, #[trigger] candidates@[j]@, false),
        decreases candidates.len() - i,
    {
        let found = present(&candidates[i]);
        if found {
            assert(call_ensures(present, (&candidates@[i as int],), true));
            return Some(i);
        }
        assert(call_ensures(present, (&candidates@[i as int],), false));
        i += 1;
    }
    None
}

/// Finds an executable: the path that `where.exe` reported (`where_ok`, its
/// success, and `where_stdout`, what it printed), else the first of the
/// default paths; each only if `present` says the path exists.
pub fn find_executable<F: Fn(&String) -> bool>(
    where_ok: bool,
    where_stdout: &str,
    default_paths: &Vec<String>,
    present: F,
) -> (r: Option<String>)
    requires
        forall|x: &String| call_requires(present, (x,)),
    ensures
        ({
            let order = search_order(where_ok, where_stdout@, string_views(default_paths@));
            match r {
                Some(p) => exists|k: int|
                    0 <= k < order.len() && p@ == order[k] && answered(present, order[k], true)
                        && forall|j: int| 0 <= j < k ==> answered(present, #[trigger] order[j], false),
                None => forall|j: int| 0 <= j < order.len() ==> answered(present, #[trigger] order[j], false),
            }
        }),
{
    let ghost order = search_order(where_ok, where_stdout@, string_views(default_paths@));
    let mut candidates: Vec<String> = Vec::new();
    if where_ok {
        let lines = split_lines(&chars_of(where_stdout));
        if lines.len() > 0 {
            let first = trimmed(&lines[0]);
            assert(lines@[0]@ == lines_of(where_stdout@)[0]);
            candidates.push(string_of(&first));
        }
    }
    let mut i: usize = 0;
    let ghost head = string_views(candidates@);
    assert(head + string_views(default_paths@).take(0) =~= head);
    while i < default_paths.len()
        invariant
            i <= default_paths.len(),
            string_views(candidates@) == head + string_views(default_paths@).take(i as int),
        decreases default_paths.len() - i,
    {
        candidates.push(default_paths[i].clone());
        assert(head + string_views(default_paths@).take(i + 1) =~= (head + string_views(
            default_paths@,
        ).take(i as int)).push(default_paths@[i as int]@));
        assert(string_views(candidates@) =~= string_views(candidates@.drop_last()).push(
            candidates@.last()@,
        ));
        i += 1;
    }
    assert(string_views(default_paths@).take(default_paths.len() as int) =~= string_views(
        default_paths@,
    ));
    assert(string_views(candidates@) =~= order);
    match first_present(&candidates, present) {
        Some(k) => {
            assert(candidates@[k as int]@ == order[k as int]);
            assert forall|j: int| 0 <= j < k implies answered(present, #[trigger] order[j], false) by {
                assert(candidates@[j]@ == order[j]);
            }
            Some(candidates[k].clone())
        },
        None => {
            assert forall|j: int| 0 <= j < order.len() implies answered(
                present,
                #[trigger] order[j],
                false,
            ) by {
                assert(candidates@[j]@ == order[j]);
            }
            None
        },
    }
}

/// Where Wireshark installs `mergecap` by default.
pub open spec fn mergecap_defaults() -> Seq<Seq<char>> {
    seq!["C:\\Program Files\\Wireshark\\mergecap.exe"@, "C:\\Program Files (x86)\\Wireshark\\mergecap.exe"@]
}

/// Where Wireshark installs `tshark` by default.
pub open spec fn tshark_defaults() -> Seq<Seq<char>> {
    seq!["C:\\Program Files\\Wireshark\\tshark.exe"@, "C:\\Program Files (x86)\\Wireshark\\tshark.exe"@]
}

/// Where Wireshark installs `capinfos` by default.
pub open spec fn capinfos_defaults() -> Seq<Seq<char>> {
    seq!["C:\\Program Files\\Wireshark\\capinfos.exe"@, "C:\\Program Files (x86)\\Wireshark\\capinfos.exe"@]
}

fn pair(a: &str, b: &str) -> (r: Vec<String>)
    ensures
        string_views(r@) == seq![a@, b@],
{
    let mut r: Vec<String> = Vec::new();
    r.push(a.to_owned());
    r.push(b.to_owned());
    assert(string_views(r@) =~= seq![a@, b@]);
    r
}

/// Finds `mergecap`: where `where.exe mergecap` points, else the default
/// Wireshark locations.
pub fn find_mergecap<F: Fn(&String) -> bool>(where_ok: bool, where_stdout: &str, present: F) -> (r:
    Option<String>)
    requires
        forall|x: &String| call_requires(present, (x,)),
    ensures
        ({
            let order = search_order(where_ok, where_stdout@, mergecap_defaults());
            match r {
                Some(p) => exists|k: int|
                    0 <= k < order.len() && p@ == order[k] && answered(present, order[k], true)
                        && forall|j: int| 0 <= j < k ==> answered(present, #[trigger] order[j], false),
                None => forall|j: int| 0 <= j < order.len() ==> answered(present, #[trigger] order[j], false),
            }
        }),
{
    let defaults = pair(
        "C:\\Program Files\\Wireshark\\mergecap.exe",
        "C:\\Program Files (x86)\\Wireshark\\mergecap.exe",
    );
    find_executable(where_ok, where_stdout, &defaults, present)
}

/// Finds `tshark`: where `where.exe tshark` points, else the default
/// Wireshark locations.
pub fn find_tshark<F: Fn(&String) -> bool>(where_ok: bool, where_stdout: &str, present: F) -> (r:
    Option<String>)
    requires
        forall|x: &String| call_requires(present, (x,)),
    ensures
        ({
            let order = search_order(where_ok, where_stdout@, tshark_defaults());
            match r {
                Some(p) => exists|k: int|
                    0 <= k < order.len() && p@ == order[k] && answered(present, order[k], true)
                        && forall|j: int| 0 <= j < k ==> answered(present, #[trigger] order[j], false),
                None => forall|j: int| 0 <= j < order.len() ==> answered(present, #[trigger] order[j], false),
            }
        }),
{
    let defaults = pair(
        "C:\\Program Files\\Wireshark\\tshark.exe",
        "C:\\Program Files (x86)\\Wireshark\\tshark.exe",
    );
    find_executable(where_ok, where_stdout, &defaults, present)
}

/// Finds `capinfos`: where `where.exe capinfos` points, else the default
/// Wireshark locations.
pub fn find_capinfos<F: Fn(&String) -> bool>(where_ok: bool, where_stdout: &str, present: F) -> (r:
    Option<String>)
    requires
        forall|x: &String| call_requires(present, (x,)),
    ensures
        ({
            let order = search_order(where_ok, where_stdout@, capinfos_defaults());
            match r {
                Some(p) => exists|k: int|
                    0 <= k < order.len() && p@ == order[k] && answered(present, order[k], true)
                        && forall|j: int| 0 <= j < k ==> answered(present, #[trigger] order[j], false),
                None => forall|j: int| 0 <= j < order.len() ==> answered(present, #[trigger] order[j], false),
            }
        }),
{
    let defaults = pair(
        "C:\\Program Files\\Wireshark\\capinfos.exe",
        "C:\\Program Files (x86)\\Wireshark\\capinfos.exe",
    );
    find_executable(where_ok, where_stdout, &defaults, present)
}

/// Whether an archive entry's file name is `azcopy.exe` in any letter case.
pub fn is_azcopy_exe(name: &str) -> (r: bool)
    ensures
        r == eq_ignore_case(name@, "azcopy.exe"@),
{
    let v = chars_of(name);
    let w = chars_of("azcopy.exe");
    if v.len() != w.len() {
        return false;
    }
    let mut i: usize = 0;
    while i < v.len()
        invariant
            i <= v.len() == w.len(),
            w@ == "azcopy.exe"@,
            v@ == name@,
            forall|j: int| 0 <= j < i ==> crate::decimal::ascii_lower(#[trigger] v@[j]) == w@[j],
        decreases v.len() - i,
    {
        let c = v[i];
        let lower = if 'A' <= c && c <= 'Z' {
            ((c as u8) + 32) as char
        } else {
            c
        };
        assert(lower == crate::decimal::ascii_lower(c)) by {
            if 'A' <= c && c <= 'Z' {
                assert((c as u8) as u32 == c as u32);
            }
        }
        if lower != w[i] {
            assert(crate::decimal::ascii_lower(v@[i as int]) != "azcopy.exe"@[i as int]);
            assert(!eq_ignore_case(name@, "azcopy.exe"@));
            return false;
        }
        i += 1;
    }
    true
}

} // verus!
