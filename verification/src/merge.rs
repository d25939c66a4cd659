use vstd::prelude::*;
use crate::text::{chars_of, string_of, chars_eq, string_views, extend_str};
use crate::update_check::{str_greater, str_greater_exec, lemma_str_greater_same, lemma_str_total, lemma_str_transitive};

verus! {

// ---------------------------------------------------------------------------
// The IP address in a capture's file name
// ---------------------------------------------------------------------------

/// What the `regex` crate captures as group 1 of the pattern
/// `_(\d{1,3}(?:\.\d{1,3}){3})\.pcap$` in a file name (`\d` being any Unicode
/// decimal digit), if the pattern matches.
pub uninterp spec fn ip_suffix_capture(name: Seq<char>) -> Option<Seq<char>>;

/// The pattern of an address that ends a capture's file name
/// (`name_10.0.0.1.pcap`), in the syntax of the `regex` crate.
pub open spec fn ip_pattern() -> Seq<char> {
    "_(\\d{1,3}(?:\\.\\d{1,3}){3})\\.pcap$"@
}

/// One to three ASCII decimal digits.
pub open spec fn short_number(s: Seq<char>) -> bool {
    1 <= s.len() <= 3 && forall|i: int| 0 <= i < s.len() ==> '0' <= #[trigger] s[i] <= '9'
}

/// The dotted address `a.b.c.d`.
pub open spec fn quad(a: Seq<char>, b: Seq<char>, c: Seq<char>, d: Seq<char>) -> Seq<char> {
    a + seq!['.'] + b + seq!['.'] + c + seq!['.'] + d
}

/// Five parts `[stem, a, b, c, d]` of a file name `<stem>_a.b.c.d.pcap`
/// whose last four parts are one to three ASCII digits each.
pub open spec fn quad_parts(p: Seq<Seq<char>>) -> bool {
    p.len() == 5 && short_number(p[1]) && short_number(p[2]) && short_number(p[3]) && short_number(p[4])
}

/// The file name `<stem>_a.b.c.d.pcap` of the parts `[stem, a, b, c, d]`.
pub open spec fn name_of(p: Seq<Seq<char>>) -> Seq<char> {
    quad_name(p[0], p[1], p[2], p[3], p[4])
}

/// The address `a.b.c.d` of the parts `[stem, a, b, c, d]`.
pub open spec fn ip_of(p: Seq<Seq<char>>) -> Seq<char> {
    quad(p[1], p[2], p[3], p[4])
}

/// `r` is `a.b.c.d` whenever `name` is `<stem>_a.b.c.d.pcap` with four
/// parts of one to three ASCII digits.
pub open spec fn quads_captured(name: Seq<char>, r: Option<String>) -> bool {
    forall|p: Seq<Seq<char>>|
        #![trigger name_of(p)]
        quad_parts(p) && name == name_of(p) ==> (r matches Some(ip) && ip@ == ip_of(p))
}

/// The file name `<stem>_a.b.c.d.pcap`.
pub open spec fn quad_name(stem: Seq<char>, a: Seq<char>, b: Seq<char>, c: Seq<char>, d: Seq<char>) -> Seq<
    char,
> {
    stem + seq!['_'] + quad(a, b, c, d) + ".pcap"@
}

/// The text of group 1 of `pattern` in `filename`, by `regex::Regex::new` and
/// `Regex::captures`; `None` when the pattern does not compile or match.
///
/// Trusted, for the address pattern `ip_pattern()` only (nothing is stated
/// of other patterns): the result is what `ip_suffix_capture` names; a
/// capture is preceded by `_` and followed by `.pcap` at the end of the name,
/// since `$` matches only at the end of the text; and a name
/// `<stem>_a.b.c.d.pcap` whose four parts are one to three ASCII digits each
/// gives `a.b.c.d`: a match must end the name with `.pcap`, start at a `_`
/// and hold only digits and dots between, so it starts at the last `_`, and
/// ASCII digits are decimal digits. Which other names match (other Unicode
/// digits) is not stated.
#[verifier::external_body]
fn extract_ip_from_filename(pattern: &str, filename: &str) -> (r: Option<String>)
    ensures
        pattern@ == ip_pattern() ==> (r matches Some(ip) ==> ip_suffix_capture(filename@) == Some(ip@)),
        pattern@ == ip_pattern() ==> (r is None ==> ip_suffix_capture(filename@) is None),
        pattern@ == ip_pattern() ==> (r matches Some(ip) ==> filename@.len() >= ip@.len() + 6 && filename@.skip(
            filename@.len() - ip@.len() - 6,
        ) == seq!['_'] + ip@ + ".pcap"@),
        pattern@ == ip_pattern() ==> quads_captured(filename@, r),
{
    let re = regex::Regex::new(pattern).ok()?;
    re.captures(filename).and_then(|cap| cap.get(1)).map(|m| m.as_str().to_string())
}

// ---------------------------------------------------------------------------
// Grouping captures by address
// ---------------------------------------------------------------------------

/// The positions (ascending) among the first `n` names whose address is `ip`.
pub open spec fn positions_of(caps: Seq<Option<Seq<char>>>, ip: Seq<char>, n: nat) -> Seq<nat>
    decreases n,
{
    if n == 0 {
        Seq::<nat>::empty()
    } else {
        let r = positions_of(caps, ip, (n - 1) as nat);
        if caps[n - 1] == Some(ip) {
            r.push((n - 1) as nat)
        } else {
            r
        }
    }
}

/// One address with the positions of the file names that carry it.
#[derive(Clone, Debug)]
pub struct IpGroup {
    pub ip: String,
    pub files: Vec<usize>,
}

pub open spec fn group_files(g: IpGroup) -> Seq<nat> {
    g.files@.map_values(|i: usize| i as nat)
}

/// `groups` holds each address found in `caps` once, in ascending text
/// order, with all the positions that carry it.
pub open spec fn groups_of(caps: Seq<Option<Seq<char>>>, groups: Seq<IpGroup>) -> bool {
    &&& forall|g: int|
        #![trigger groups[g]]
        0 <= g < groups.len() ==> group_files(groups[g]) == positions_of(
            caps,
            groups[g].ip@,
            caps.len(),
        )
    &&& forall|g: int, h: int|
        #![trigger groups[g], groups[h]]
        0 <= g < h < groups.len() ==> str_greater(groups[h].ip@, groups[g].ip@)
    &&& forall|j: int|
        #![trigger caps[j]]
        0 <= j < caps.len() && caps[j] is Some ==> exists|g: int|
            #![trigger groups[g]]
            0 <= g < groups.len() && caps[j] == Some(groups[g].ip@)
    &&& forall|g: int|
        #![trigger groups[g]]
        0 <= g < groups.len() ==> exists|j: int|
            #![trigger caps[j]]
            0 <= j < caps.len() && caps[j] == Some(groups[g].ip@)
}

proof fn lemma_positions_extend(caps: Seq<Option<Seq<char>>>, ip: Seq<char>, n: nat)
    requires
        n < caps.len(),
    ensures
        positions_of(caps, ip, n + 1) == if caps[n as int] == Some(ip) {
            positions_of(caps, ip, n).push(n)
        } else {
            positions_of(caps, ip, n)
        },
{
}

proof fn lemma_positions_none(caps: Seq<Option<Seq<char>>>, ip: Seq<char>, n: nat)
    requires
        n <= caps.len(),
        forall|i: int| 0 <= i < n ==> caps[i] != Some(ip),
    ensures
        positions_of(caps, ip, n) == Seq::<nat>::empty(),
    decreases n,
{
    if n > 0 {
        lemma_positions_none(caps, ip, (n - 1) as nat);
    }
}

/// Each group lists the positions among the first `n` names that carry its
/// address.
#[verifier::opaque]
spec fn files_ok(caps: Seq<Option<Seq<char>>>, groups: Seq<IpGroup>, n: nat) -> bool {
    forall|g: int|
        #![trigger groups[g]]
        0 <= g < groups.len() ==> group_files(groups[g]) == positions_of(caps, groups[g].ip@, n)
}

/// The addresses of the groups ascend strictly in text order.
#[verifier::opaque]
spec fn sorted_ok(groups: Seq<IpGroup>) -> bool {
    forall|g: int, h: int|
        #![trigger groups[g], groups[h]]
        0 <= g < h < groups.len() ==> str_greater(groups[h].ip@, groups[g].ip@)
}

/// Every address among the first `n` names has a group.
#[verifier::opaque]
spec fn covered_ok(caps: Seq<Option<Seq<char>>>, groups: Seq<IpGroup>, n: nat) -> bool {
    forall|j: int|
        #![trigger caps[j]]
        0 <= j < n && caps[j] is Some ==> exists|g: int|
            #![trigger groups[g]]
            0 <= g < groups.len() && caps[j] == Some(groups[g].ip@)
}

/// Every group's address occurs among the first `n` names.
#[verifier::opaque]
spec fn found_ok(caps: Seq<Option<Seq<char>>>, groups: Seq<IpGroup>, n: nat) -> bool {
    forall|g: int|
        #![trigger groups[g]]
        0 <= g < groups.len() ==> exists|j: int|
            #![trigger caps[j]]
            0 <= j < n && caps[j] == Some(groups[g].ip@)
}

/// The state of the grouping after the first `n` names.
spec fn groups_so_far(caps: Seq<Option<Seq<char>>>, groups: Seq<IpGroup>, n: nat) -> bool {
    &&& n <= caps.len()
    &&& files_ok(caps, groups, n)
    &&& sorted_ok(groups)
    &&& covered_ok(caps, groups, n)
    &&& found_ok(caps, groups, n)
}

proof fn lemma_distinct(a: Seq<char>, b: Seq<char>)
    requires
        str_greater(a, b),
    ensures
        a != b,
{
    lemma_str_greater_same(a);
}

proof fn lemma_start(caps: Seq<Option<Seq<char>>>)
    ensures
        groups_so_far(caps, Seq::<IpGroup>::empty(), 0),
{
    reveal(files_ok);
    reveal(sorted_ok);
    reveal(covered_ok);
    reveal(found_ok);
}

proof fn lemma_step_none(caps: Seq<Option<Seq<char>>>, groups: Seq<IpGroup>, n: nat)
    requires
        groups_so_far(caps, groups, n),
        n < caps.len(),
        caps[n as int] is None,
    ensures
        groups_so_far(caps, groups, n + 1),
{
    reveal(files_ok);
    reveal(covered_ok);
    reveal(found_ok);
    assert forall|g: int| 0 <= g < groups.len() implies group_files(#[trigger] groups[g])
        == positions_of(caps, groups[g].ip@, n + 1) by {
        lemma_positions_extend(caps, groups[g].ip@, n);
    }
    assert forall|g: int| 0 <= g < groups.len() implies exists|j: int|
        #![trigger caps[j]]
        0 <= j < n + 1 && caps[j] == Some(#[trigger] groups[g].ip@) by {
        let j = choose|j: int| #![trigger caps[j]] 0 <= j < n && caps[j] == Some(groups[g].ip@);
        assert(caps[j] == Some(groups[g].ip@));
    }
}

/// Adding name `i` to the existing group `p` of its address.
proof fn lemma_add_file(
    caps: Seq<Option<Seq<char>>>,
    old_groups: Seq<IpGroup>,
    ng: IpGroup,
    p: int,
    i: nat,
)
    requires
        groups_so_far(caps, old_groups, i),
        i < caps.len(),
        0 <= p < old_groups.len(),
        caps[i as int] == Some(old_groups[p].ip@),
        ng.ip@ == old_groups[p].ip@,
        group_files(ng) == group_files(old_groups[p]).push(i),
    ensures
        groups_so_far(caps, old_groups.update(p, ng), i + 1),
{
    lemma_add_files(caps, old_groups, ng, p, i);
    lemma_add_sorted(old_groups, ng, p);
    lemma_add_covered(caps, old_groups, ng, p, i);
    lemma_add_found(caps, old_groups, ng, p, i);
}

proof fn lemma_add_files(
    caps: Seq<Option<Seq<char>>>,
    old_groups: Seq<IpGroup>,
    ng: IpGroup,
    p: int,
    i: nat,
)
    requires
        files_ok(caps, old_groups, i),
        sorted_ok(old_groups),
        i < caps.len(),
        0 <= p < old_groups.len(),
        caps[i as int] == Some(old_groups[p].ip@),
        ng.ip@ == old_groups[p].ip@,
        group_files(ng) == group_files(old_groups[p]).push(i),
    ensures
        files_ok(caps, old_groups.update(p, ng), i + 1),
{
    let new_groups = old_groups.update(p, ng);
    reveal(files_ok);
    reveal(sorted_ok);
    assert forall|q: int| 0 <= q < new_groups.len() implies group_files(#[trigger] new_groups[q])
        == positions_of(caps, new_groups[q].ip@, i + 1) by {
        lemma_positions_extend(caps, new_groups[q].ip@, i);
        if q < p {
            assert(old_groups[q] == new_groups[q]);
            lemma_distinct(old_groups[p].ip@, old_groups[q].ip@);
        } else if q > p {
            assert(old_groups[q] == new_groups[q]);
            lemma_distinct(old_groups[q].ip@, old_groups[p].ip@);
        }
    }
}

proof fn lemma_add_sorted(old_groups: Seq<IpGroup>, ng: IpGroup, p: int)
    requires
        sorted_ok(old_groups),
        0 <= p < old_groups.len(),
        ng.ip@ == old_groups[p].ip@,
    ensures
        sorted_ok(old_groups.update(p, ng)),
{
    let new_groups = old_groups.update(p, ng);
    reveal(sorted_ok);
    assert forall|a: int, b: int| 0 <= a < b < new_groups.len() implies str_greater(
        #[trigger] new_groups[b].ip@,
        #[trigger] new_groups[a].ip@,
    ) by {
        assert(new_groups[a].ip@ == old_groups[a].ip@);
        assert(new_groups[b].ip@ == old_groups[b].ip@);
        assert(str_greater(old_groups[b].ip@, old_groups[a].ip@));
    }
}

proof fn lemma_add_covered(
    caps: Seq<Option<Seq<char>>>,
    old_groups: Seq<IpGroup>,
    ng: IpGroup,
    p: int,
    i: nat,
)
    requires
        covered_ok(caps, old_groups, i),
        i < caps.len(),
        0 <= p < old_groups.len(),
        caps[i as int] == Some(old_groups[p].ip@),
        ng.ip@ == old_groups[p].ip@,
    ensures
        covered_ok(caps, old_groups.update(p, ng), i + 1),
{
    let new_groups = old_groups.update(p, ng);
    reveal(covered_ok);
    assert forall|j: int| 0 <= j < i + 1 && #[trigger] caps[j] is Some implies exists|g: int|
        #![trigger new_groups[g]]
        0 <= g < new_groups.len() && caps[j] == Some(new_groups[g].ip@) by {
        if j == i {
            assert(caps[j] == Some(new_groups[p].ip@));
        } else {
            let g = choose|g: int|
                #![trigger old_groups[g]]
                0 <= g < old_groups.len() && caps[j] == Some(old_groups[g].ip@);
            assert(new_groups[g].ip@ == old_groups[g].ip@);
        }
    }
}

proof fn lemma_add_found(
    caps: Seq<Option<Seq<char>>>,
    old_groups: Seq<IpGroup>,
    ng: IpGroup,
    p: int,
    i: nat,
)
    requires
        found_ok(caps, old_groups, i),
        0 <= p < old_groups.len(),
        ng.ip@ == old_groups[p].ip@,
    ensures
        found_ok(caps, old_groups.update(p, ng), i + 1),
{
    let new_groups = old_groups.update(p, ng);
    reveal(found_ok);
    assert forall|g: int| 0 <= g < new_groups.len() implies exists|j: int|
        #![trigger caps[j]]
        0 <= j < i + 1 && caps[j] == Some(#[trigger] new_groups[g].ip@) by {
        assert(new_groups[g].ip@ == old_groups[g].ip@);
        let j = choose|j: int|
            #![trigger caps[j]]
            0 <= j < i && caps[j] == Some(old_groups[g].ip@);
        assert(caps[j] == Some(new_groups[g].ip@));
    }
}

/// An address that sorts strictly between the neighbours at `p` has not
/// occurred among the first `i` names.
proof fn lemma_new_address(
    caps: Seq<Option<Seq<char>>>,
    old_groups: Seq<IpGroup>,
    ip: Seq<char>,
    p: int,
    i: nat,
)
    requires
        groups_so_far(caps, old_groups, i),
        0 <= p <= old_groups.len(),
        forall|q: int| 0 <= q < p ==> str_greater(ip, #[trigger] old_groups[q].ip@),
        p < old_groups.len() ==> str_greater(old_groups[p].ip@, ip),
    ensures
        forall|j: int| 0 <= j < i ==> caps[j] != Some(ip),
        forall|q: int| 0 <= q < old_groups.len() ==> #[trigger] old_groups[q].ip@ != ip,
{
    reveal(sorted_ok);
    reveal(covered_ok);
    assert forall|q: int| 0 <= q < old_groups.len() implies #[trigger] old_groups[q].ip@ != ip by {
        if q < p {
            lemma_distinct(ip, old_groups[q].ip@);
        } else if q == p {
            lemma_distinct(old_groups[p].ip@, ip);
        } else {
            assert(str_greater(old_groups[q].ip@, old_groups[p].ip@));
            lemma_str_transitive(old_groups[q].ip@, old_groups[p].ip@, ip);
            lemma_distinct(old_groups[q].ip@, ip);
        }
    }
    assert forall|j: int| 0 <= j < i implies caps[j] != Some(ip) by {
        if caps[j] == Some(ip) {
            let h = choose|h: int|
                #![trigger old_groups[h]]
                0 <= h < old_groups.len() && caps[j] == Some(old_groups[h].ip@);
            assert(old_groups[h].ip@ != ip);
        }
    }
}

proof fn lemma_insert_files(
    caps: Seq<Option<Seq<char>>>,
    old_groups: Seq<IpGroup>,
    ng: IpGroup,
    p: int,
    i: nat,
)
    requires
        files_ok(caps, old_groups, i),
        i < caps.len(),
        0 <= p <= old_groups.len(),
        caps[i as int] == Some(ng.ip@),
        group_files(ng) == seq![i],
        forall|j: int| 0 <= j < i ==> caps[j] != Some(ng.ip@),
        forall|q: int| 0 <= q < old_groups.len() ==> #[trigger] old_groups[q].ip@ != ng.ip@,
    ensures
        files_ok(caps, old_groups.insert(p, ng), i + 1),
{
    let new_groups = old_groups.insert(p, ng);
    reveal(files_ok);
    lemma_positions_none(caps, ng.ip@, i);
    assert forall|q: int| 0 <= q < new_groups.len() implies group_files(#[trigger] new_groups[q])
        == positions_of(caps, new_groups[q].ip@, i + 1) by {
        lemma_positions_extend(caps, new_groups[q].ip@, i);
        if q < p {
            assert(new_groups[q] == old_groups[q]);
            assert(old_groups[q].ip@ != ng.ip@);
        } else if q > p {
            assert(new_groups[q] == old_groups[q - 1]);
            assert(old_groups[q - 1].ip@ != ng.ip@);
        } else {
            assert(seq![i] =~= Seq::<nat>::empty().push(i));
        }
    }
}

proof fn lemma_insert_sorted(old_groups: Seq<IpGroup>, ng: IpGroup, p: int)
    requires
        sorted_ok(old_groups),
        0 <= p <= old_groups.len(),
        forall|q: int| 0 <= q < p ==> str_greater(ng.ip@, #[trigger] old_groups[q].ip@),
        p < old_groups.len() ==> str_greater(old_groups[p].ip@, ng.ip@),
    ensures
        sorted_ok(old_groups.insert(p, ng)),
{
    let new_groups = old_groups.insert(p, ng);
    reveal(sorted_ok);
    assert forall|a: int, b: int| 0 <= a < b < new_groups.len() implies str_greater(
        #[trigger] new_groups[b].ip@,
        #[trigger] new_groups[a].ip@,
    ) by {
        if b < p {
            assert(new_groups[a] == old_groups[a]);
            assert(new_groups[b] == old_groups[b]);
        } else if b == p {
            assert(new_groups[a] == old_groups[a]);
        } else if a == p {
            assert(new_groups[b] == old_groups[b - 1]);
            if b - 1 > p {
                assert(str_greater(old_groups[b - 1].ip@, old_groups[p].ip@));
                lemma_str_transitive(old_groups[b - 1].ip@, old_groups[p].ip@, ng.ip@);
            }
        } else if a < p {
            assert(new_groups[a] == old_groups[a]);
            assert(new_groups[b] == old_groups[b - 1]);
            assert(str_greater(ng.ip@, old_groups[a].ip@));
            assert(str_greater(old_groups[b - 1].ip@, ng.ip@)) by {
                if b - 1 > p {
                    assert(str_greater(old_groups[b - 1].ip@, old_groups[p].ip@));
                    lemma_str_transitive(old_groups[b - 1].ip@, old_groups[p].ip@, ng.ip@);
                }
            }
            lemma_str_transitive(old_groups[b - 1].ip@, ng.ip@, old_groups[a].ip@);
        } else {
            assert(new_groups[a] == old_groups[a - 1]);
            assert(new_groups[b] == old_groups[b - 1]);
            assert(str_greater(old_groups[b - 1].ip@, old_groups[a - 1].ip@));
        }
    }
}

proof fn lemma_insert_covered(
    caps: Seq<Option<Seq<char>>>,
    old_groups: Seq<IpGroup>,
    ng: IpGroup,
    p: int,
    i: nat,
)
    requires
        covered_ok(caps, old_groups, i),
        i < caps.len(),
        0 <= p <= old_groups.len(),
        caps[i as int] == Some(ng.ip@),
    ensures
        covered_ok(caps, old_groups.insert(p, ng), i + 1),
{
    let new_groups = old_groups.insert(p, ng);
    reveal(covered_ok);
    assert forall|j: int| 0 <= j < i + 1 && #[trigger] caps[j] is Some implies exists|g: int|
        #![trigger new_groups[g]]
        0 <= g < new_groups.len() && caps[j] == Some(new_groups[g].ip@) by {
        if j == i {
            assert(caps[j] == Some(new_groups[p].ip@));
        } else {
            let g = choose|g: int|
                #![trigger old_groups[g]]
                0 <= g < old_groups.len() && caps[j] == Some(old_groups[g].ip@);
            if g < p {
                assert(new_groups[g] == old_groups[g]);
            } else {
                assert(new_groups[g + 1] == old_groups[g]);
            }
        }
    }
}

proof fn lemma_insert_found(
    caps: Seq<Option<Seq<char>>>,
    old_groups: Seq<IpGroup>,
    ng: IpGroup,
    p: int,
    i: nat,
)
    requires
        found_ok(caps, old_groups, i),
        i < caps.len(),
        0 <= p <= old_groups.len(),
        caps[i as int] == Some(ng.ip@),
    ensures
        found_ok(caps, old_groups.insert(p, ng), i + 1),
{
    let new_groups = old_groups.insert(p, ng);
    reveal(found_ok);
    assert forall|g: int| 0 <= g < new_groups.len() implies exists|j: int|
        #![trigger caps[j]]
        0 <= j < i + 1 && caps[j] == Some(#[trigger] new_groups[g].ip@) by {
        if g == p {
            assert(caps[i as int] == Some(new_groups[g].ip@));
        } else {
            let h = if g < p { g } else { g - 1 };
            assert(new_groups[g] == old_groups[h]);
            let j = choose|j: int|
                #![trigger caps[j]]
                0 <= j < i && caps[j] == Some(old_groups[h].ip@);
            assert(caps[j] == Some(new_groups[g].ip@));
        }
    }
}

fn add_file(groups: &mut Vec<IpGroup>, p: usize, i: usize, Ghost(caps): Ghost<Seq<Option<Seq<char>>>>)
    requires
        groups_so_far(caps, old(groups)@, i as nat),
        i < caps.len(),
        p < old(groups).len(),
        caps[i as int] == Some(old(groups)@[p as int].ip@),
    ensures
        groups_so_far(caps, final(groups)@, (i + 1) as nat),
{
    let ghost old_groups = groups@;
    let mut g = groups.remove(p);
    let ghost gf = group_files(g);
    g.files.push(i);
    assert(group_files(g) =~= gf.push(i as nat));
    groups.insert(p, g);
    proof {
        assert(groups@ =~= old_groups.update(p as int, g));
        lemma_add_file(caps, old_groups, g, p as int, i as nat);
    }
}

fn insert_group(
    groups: &mut Vec<IpGroup>,
    p: usize,
    ip: String,
    i: usize,
    Ghost(caps): Ghost<Seq<Option<Seq<char>>>>,
)
    requires
        groups_so_far(caps, old(groups)@, i as nat),
        i < caps.len(),
        p <= old(groups).len(),
        caps[i as int] == Some(ip@),
        forall|q: int| 0 <= q < p ==> str_greater(ip@, #[trigger] old(groups)@[q].ip@),
        p < old(groups).len() ==> str_greater(old(groups)@[p as int].ip@, ip@),
    ensures
        groups_so_far(caps, final(groups)@, (i + 1) as nat),
{
    let ghost old_groups = groups@;
    let mut files: Vec<usize> = Vec::new();
    files.push(i);
    let g = IpGroup { ip, files };
    proof {
        assert(group_files(g) =~= seq![i as nat]);
        lemma_new_address(caps, old_groups, g.ip@, p as int, i as nat);
        lemma_insert_files(caps, old_groups, g, p as int, i as nat);
        lemma_insert_sorted(old_groups, g, p as int);
        lemma_insert_covered(caps, old_groups, g, p as int, i as nat);
        lemma_insert_found(caps, old_groups, g, p as int, i as nat);
    }
    groups.insert(p, g);
}

/// At the end: the groups are those of the whole list, and there are none
/// exactly when no name carries an address.
proof fn lemma_finish(caps: Seq<Option<Seq<char>>>, groups: Seq<IpGroup>)
    requires
        groups_so_far(caps, groups, caps.len()),
    ensures
        groups_of(caps, groups),
        groups.len() == 0 <==> forall|j: int| 0 <= j < caps.len() ==> caps[j] is None,
{
    reveal(files_ok);
    reveal(sorted_ok);
    reveal(covered_ok);
    reveal(found_ok);
    if groups.len() > 0 {
        assert(0 <= 0 < groups.len());
        let g0 = groups[0];
        let j = choose|j: int| #![trigger caps[j]] 0 <= j < caps.len() && caps[j] == Some(g0.ip@);
        assert(caps[j] is Some);
    } else {
        assert forall|j: int| 0 <= j < caps.len() implies caps[j] is None by {
            if caps[j] is Some {
                let g = choose|g: int|
                    #![trigger groups[g]]
                    0 <= g < groups.len() && caps[j] == Some(groups[g].ip@);
            }
        }
    }
}

proof fn lemma_positions_member(caps: Seq<Option<Seq<char>>>, ip: Seq<char>, n: nat, j: int)
    requires
        n <= caps.len(),
        0 <= j < n,
    ensures
        positions_of(caps, ip, n).contains(j as nat) <==> caps[j] == Some(ip),
    decreases n,
{
    let r = positions_of(caps, ip, (n - 1) as nat);
    lemma_positions_below(caps, ip, (n - 1) as nat);
    if j < n - 1 {
        lemma_positions_member(caps, ip, (n - 1) as nat, j);
        if caps[n - 1] == Some(ip) {
            assert(r.push((n - 1) as nat).contains(j as nat) <==> r.contains(j as nat)) by {
                if r.push((n - 1) as nat).contains(j as nat) {
                    let k = choose|k: int| 0 <= k < r.len() + 1 && #[trigger] r.push((n - 1) as nat)[k] == j as nat;
                    if k < r.len() {
                        assert(r[k] == j as nat);
                    }
                }
                if r.contains(j as nat) {
                    let k = choose|k: int| 0 <= k < r.len() && #[trigger] r[k] == j as nat;
                    assert(r.push((n - 1) as nat)[k] == j as nat);
                }
            }
        }
    } else {
        if caps[n - 1] == Some(ip) {
            assert(r.push((n - 1) as nat)[r.len() as int] == (n - 1) as nat);
        } else {
            if r.contains(j as nat) {
                let k = choose|k: int| 0 <= k < r.len() && #[trigger] r[k] == j as nat;
            }
        }
    }
}

proof fn lemma_positions_below(caps: Seq<Option<Seq<char>>>, ip: Seq<char>, n: nat)
    ensures
        forall|k: int| 0 <= k < positions_of(caps, ip, n).len() ==> #[trigger] positions_of(caps, ip, n)[k] < n,
    decreases n,
{
    if n > 0 {
        let r = positions_of(caps, ip, (n - 1) as nat);
        lemma_positions_below(caps, ip, (n - 1) as nat);
        assert forall|k: int| 0 <= k < positions_of(caps, ip, n).len() implies #[trigger] positions_of(
            caps,
            ip,
            n,
        )[k] < n by {
            if caps[n - 1] == Some(ip) && k == r.len() {
            } else {
                assert(positions_of(caps, ip, n)[k] == r[k]);
            }
        }
    }
}

/// Every file that carries an address is merged exactly once, in the group
/// of its address; a file without an address is in no group.
pub proof fn lemma_files_partitioned(caps: Seq<Option<Seq<char>>>, groups: Seq<IpGroup>)
    requires
        groups_of(caps, groups),
    ensures
        forall|j: int, g: int|
            0 <= j < caps.len() && 0 <= g < groups.len() ==> (#[trigger] group_files(
                groups[g],
            ).contains(j as nat) <==> caps[j] == Some(groups[g].ip@)),
        forall|j: int, g: int, h: int|
            0 <= j < caps.len() && 0 <= g < groups.len() && 0 <= h < groups.len() && #[trigger] group_files(
                groups[g],
            ).contains(j as nat) && #[trigger] group_files(groups[h]).contains(j as nat) ==> g == h,
        forall|j: int|
            0 <= j < caps.len() && #[trigger] caps[j] is Some ==> exists|g: int|
                0 <= g < groups.len() && #[trigger] group_files(groups[g]).contains(j as nat),
{
    assert forall|j: int, g: int|
        0 <= j < caps.len() && 0 <= g < groups.len() implies (#[trigger] group_files(
            groups[g],
        ).contains(j as nat) <==> caps[j] == Some(groups[g].ip@)) by {
        lemma_positions_member(caps, groups[g].ip@, caps.len(), j);
    }
    assert forall|j: int, g: int, h: int|
        0 <= j < caps.len() && 0 <= g < groups.len() && 0 <= h < groups.len() && #[trigger] group_files(
            groups[g],
        ).contains(j as nat) && #[trigger] group_files(groups[h]).contains(j as nat) implies g == h by {
        lemma_positions_member(caps, groups[g].ip@, caps.len(), j);
        lemma_positions_member(caps, groups[h].ip@, caps.len(), j);
        if g < h {
            assert(str_greater(groups[h].ip@, groups[g].ip@));
            lemma_str_greater_same(groups[g].ip@);
        } else if h < g {
            assert(str_greater(groups[g].ip@, groups[h].ip@));
            lemma_str_greater_same(groups[h].ip@);
        }
    }
    assert forall|j: int| 0 <= j < caps.len() && #[trigger] caps[j] is Some implies exists|g: int|
        0 <= g < groups.len() && #[trigger] group_files(groups[g]).contains(j as nat) by {
        let g = choose|g: int| #![trigger groups[g]] 0 <= g < groups.len() && caps[j] == Some(groups[g].ip@);
        lemma_positions_member(caps, groups[g].ip@, caps.len(), j);
    }
}

/// The addresses captured from a list of names, as plain values.
pub open spec fn capture_views(caps: Seq<Option<String>>) -> Seq<Option<Seq<char>>> {
    caps.map_values(
        |c: Option<String>|
            match c {
                Some(s) => Some(s@),
                None => None,
            },
    )
}

/// Groups positions by the address captured there (`None` where a name
/// carries none); `None` when no position has an address. Groups come in
/// ascending address text order and list their positions in input order.
pub fn group_captures(caps: &Vec<Option<String>>) -> (r: Option<Vec<IpGroup>>)
    ensures
        r is None <==> forall|i: int| 0 <= i < caps.len() ==> #[trigger] caps@[i] is None,
        r matches Some(groups) ==> groups_of(capture_views(caps@), groups@),
{
    let ghost cv = capture_views(caps@);
    let mut groups: Vec<IpGroup> = Vec::new();
    let mut i: usize = 0;
    proof {
        lemma_start(cv);
    }
    while i < caps.len()
        invariant
            i <= caps.len(),
            cv == capture_views(caps@),
            groups_so_far(cv, groups@, i as nat),
        decreases caps.len() - i,
    {
        match &caps[i] {
            None => {
                proof {
                    lemma_step_none(cv, groups@, i as nat);
                }
            },
            Some(ip_ref) => {
                let ip = ip_ref.clone();
                assert(cv[i as int] == Some(ip@));
                let ipv = chars_of(ip.as_str());
                let mut p: usize = 0;
                while p < groups.len() && str_greater_exec(&ipv, &chars_of(groups[p].ip.as_str()))
                    invariant
                        p <= groups.len(),
                        ipv@ == ip@,
                        forall|q: int| 0 <= q < p ==> str_greater(ip@, #[trigger] groups@[q].ip@),
                    decreases groups.len() - p,
                {
                    p += 1;
                }
                if p < groups.len() && chars_eq(&ipv, &chars_of(groups[p].ip.as_str())) {
                    add_file(&mut groups, p, i, Ghost(cv));
                } else {
                    proof {
                        if p < groups.len() {
                            lemma_str_total(ip@, groups@[p as int].ip@);
                        }
                    }
                    insert_group(&mut groups, p, ip, i, Ghost(cv));
                }
            },
        }
        i += 1;
    }
    proof {
        lemma_finish(cv, groups@);
        assert forall|j: int| 0 <= j < caps.len() implies (#[trigger] caps@[j] is None <==> cv[j]
            is None) by {}
    }
    if groups.len() == 0 {
        None
    } else {
        Some(groups)
    }
}

/// Groups capture file names by the IP address their names end with; `None`
/// when no name carries one. Groups come in ascending address text order and
/// list the positions of their files in input order.
#[verifier::spinoff_prover]
#[verifier::rlimit(60)]
pub fn group_files_by_ip(names: &Vec<String>) -> (r: Option<Vec<IpGroup>>)
    ensures
        r is None <==> forall|i: int| 0 <= i < names.len() ==> ip_suffix_capture(
            #[trigger] names@[i]@,
        ) is None,
        r matches Some(groups) ==> groups_of(
            names@.map_values(|s: String| ip_suffix_capture(s@)),
            groups@,
        ),
        forall|i: int, p: Seq<Seq<char>>|
            #![trigger names@[i], name_of(p)]
            0 <= i < names.len() && quad_parts(p) && names@[i]@ == name_of(p) ==> (r matches Some(groups)
                && exists|g: int|
                0 <= g < groups.len() && groups@[g].ip@ == ip_of(p) && #[trigger] group_files(
                    groups@[g],
                ).contains(i as nat)),
{
    let mut caps: Vec<Option<String>> = Vec::new();
    let mut i: usize = 0;
    while i < names.len()
        invariant
            i <= names.len(),
            caps.len() == i,
            forall|j: int| 0 <= j < i ==> capture_views(caps@)[j] == ip_suffix_capture(#[trigger] names@[j]@),
            forall|j: int, p: Seq<Seq<char>>|
                #![trigger names@[j], name_of(p)]
                0 <= j < i && quad_parts(p) && names@[j]@ == name_of(p) ==> ip_suffix_capture(names@[j]@)
                    == Some(ip_of(p)),
        decreases names.len() - i,
    {
        let c = extract_ip_from_filename("_(\\d{1,3}(?:\\.\\d{1,3}){3})\\.pcap$", names[i].as_str());
        caps.push(c);
        proof {
            assert forall|j: int| 0 <= j < i + 1 implies capture_views(caps@)[j] == ip_suffix_capture(
                #[trigger] names@[j]@,
            ) by {
                if j < i {
                    assert(caps@[j] == caps@.drop_last()[j]);
                }
            }
            assert forall|j: int, p: Seq<Seq<char>>|
                0 <= j < i + 1 && quad_parts(p) && #[trigger] names@[j]@ == #[trigger] name_of(p) implies ip_suffix_capture(
                names@[j]@,
            ) == Some(ip_of(p)) by {
                if j == i {
                    assert(names@[j]@ == names@[i as int]@);
                }
            }
        }
        i += 1;
    }
    assert(capture_views(caps@) =~= names@.map_values(|s: String| ip_suffix_capture(s@)));
    proof {
        assert forall|j: int| 0 <= j < names.len() implies (caps@[j] is None <==> ip_suffix_capture(
            #[trigger] names@[j]@,
        ) is None) by {
            assert(capture_views(caps@)[j] == ip_suffix_capture(names@[j]@));
        }
        if forall|j: int| 0 <= j < caps.len() ==> #[trigger] caps@[j] is None {
            assert forall|j: int| 0 <= j < names.len() implies ip_suffix_capture(
                #[trigger] names@[j]@,
            ) is None by {
                assert(caps@[j] is None);
            }
        }
        if forall|j: int| 0 <= j < names.len() ==> ip_suffix_capture(#[trigger] names@[j]@) is None {
            assert forall|j: int| 0 <= j < caps.len() implies #[trigger] caps@[j] is None by {
                assert(ip_suffix_capture(names@[j]@) is None);
            }
        }
    }
    let r = group_captures(&caps);
    proof {
        assert forall|j: int, p: Seq<Seq<char>>|
            0 <= j < names.len() && quad_parts(p) && #[trigger] names@[j]@ == #[trigger] name_of(p) implies (r matches Some(groups)
            && exists|g: int|
            0 <= g < groups.len() && groups@[g].ip@ == ip_of(p) && #[trigger] group_files(
                groups@[g],
            ).contains(j as nat)) by {
            let cv = capture_views(caps@);
            assert(ip_suffix_capture(names@[j]@) == Some(ip_of(p)));
            assert(cv[j] == Some(ip_of(p)));
            assert(caps@[j] is Some);
            let groups = r->0;
            assert(groups_of(cv, groups@));
            assert(cv[j] is Some);
            let g = choose|g: int| 0 <= g < groups@.len() && cv[j] == Some(groups@[g].ip@);
            lemma_files_partitioned(cv, groups@);
            assert(group_files(groups@[g]).contains(j as nat));
        }
    }
    r
}

// ---------------------------------------------------------------------------
// Running mergecap
// ---------------------------------------------------------------------------

/// The name of the merged capture of an address: `<ip>_merged.pcap`.
pub fn merged_name(ip: &str) -> (r: String)
    ensures
        r@ == ip@ + "_merged.pcap"@,
{
    let mut v = chars_of(ip);
    extend_str(&mut v, "_merged.pcap");
    string_of(&v)
}

/// The arguments of the `mergecap` run that merges `inputs` into `output`.
pub fn mergecap_args(output: &str, inputs: &Vec<String>) -> (r: Vec<String>)
    ensures
        string_views(r@) == seq!["-w"@, output@] + string_views(inputs@),
{
    let mut r: Vec<String> = Vec::new();
    r.push("-w".to_owned());
    r.push(output.to_owned());
    let mut i: usize = 0;
    while i < inputs.len()
        invariant
            i <= inputs.len(),
            string_views(r@) == seq!["-w"@, output@] + string_views(inputs@).take(i as int),
        decreases inputs.len() - i,
    {
        let ghost before = string_views(r@);
        r.push(inputs[i].clone());
        assert(string_views(r@) =~= before.push(inputs@[i as int]@));
        assert(string_views(inputs@).take(i + 1) =~= string_views(inputs@).take(i as int).push(
            inputs@[i as int]@,
        ));
        i += 1;
    }
    assert(string_views(inputs@).take(inputs.len() as int) =~= string_views(inputs@));
    r
}

} // verus!
