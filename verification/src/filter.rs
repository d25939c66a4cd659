use vstd::prelude::*;
use crate::text::{chars_of, string_of, parse_unsigned, parse_unsigned_spec};
use crate::text::string_views;
use crate::download::{stem_ext, stem_ext_exec};
use crate::decimal::eq_ignore_case;

verus! {

broadcast use vstd::string::group_string_axioms;

// ---------------------------------------------------------------------------
// Packet count from `capinfos -c`
// ---------------------------------------------------------------------------

/// What the `regex` crate captures as group 1 of the pattern
/// `Number of packets:\s+(\d+)` in a text (`None` if it does not match).
pub uninterp spec fn packet_count_capture(text: Seq<char>) -> Option<Seq<char>>;

/// The digits that follow `Number of packets:` in `capinfos` output.
///
/// Calls `regex::Regex::new` on the pattern above and `Regex::captures` on the
/// text. Trusted: the result is what `packet_count_capture` names.
#[verifier::external_body]
fn capture_packet_count(output: &str) -> (r: Option<String>)
    ensures
        r matches Some(c) ==> packet_count_capture(output@) == Some(c@),
        r is None ==> packet_count_capture(output@) is None,
{
    let re = regex::Regex::new(r"Number of packets:\s+(\d+)").ok()?;
    re.captures(output).and_then(|c| c.get(1)).map(|m| m.as_str().to_string())
}

/// The count the captured digits give: their value as a `u64`, and 0 when
/// nothing was captured or the digits do not read as a `u64`.
pub open spec fn count_of(capture: Option<Seq<char>>) -> nat {
    match capture {
        Some(d) => match parse_unsigned_spec(d, u64::MAX as nat) {
            Some(v) => v,
            None => 0,
        },
        None => 0,
    }
}

/// The packet count for a captured digit string (see `count_of`).
pub fn count_from_capture(capture: Option<&str>) -> (r: u64)
    ensures
        r == count_of(
            match capture {
                Some(s) => Some(s@),
                None => None,
            },
        ),
{
    match capture {
        Some(s) => {
            let v = chars_of(s);
            match parse_unsigned(&v, u64::MAX) {
                Some(n) => n,
                None => 0,
            }
        },
        None => 0,
    }
}

/// The number of packets that `capinfos -c` reports, 0 when it reports none
/// that can be read.
pub fn packet_count(capinfos_output: &str) -> (r: u64)
    ensures
        r == count_of(packet_count_capture(capinfos_output@)),
{
    match capture_packet_count(capinfos_output) {
        Some(c) => count_from_capture(Some(c.as_str())),
        None => count_from_capture(None),
    }
}

// ---------------------------------------------------------------------------
// Which files are filtered, and how
// ---------------------------------------------------------------------------

/// A file name whose extension is `pcap` in any letter case.
pub open spec fn pcap_name(name: Seq<char>) -> bool {
    let ext = stem_ext(name).1;
    ext.len() > 0 && eq_ignore_case(ext.drop_first(), "pcap"@)
}

/// Whether a file name has the extension `pcap` (any case).
pub fn is_pcap_name(name: &str) -> (r: bool)
    ensures
        r == pcap_name(name@),
{
    let v = chars_of(name);
    let (_stem, ext) = stem_ext_exec(&v);
    if ext.len() != 5 {
        proof {
            reveal_strlit("pcap");
        }
        return false;
    }
    let a = ext[1];
    let b = ext[2];
    let c = ext[3];
    let d = ext[4];
    proof {
        reveal_strlit("pcap");
        assert(ext@.drop_first() =~= seq![a, b, c, d]);
    }
    (a == 'p' || a == 'P') && (b == 'c' || b == 'C') && (c == 'a' || c == 'A') && (d == 'p' || d
        == 'P')
}

/// The name a file's filtered copy gets: `<stem>_filtered.pcap`.
pub fn filtered_name(file_name: &str) -> (r: String)
    ensures
        r@ == stem_ext(file_name@).0 + "_filtered.pcap"@,
{
    let v = chars_of(file_name);
    let (mut stem, _ext) = stem_ext_exec(&v);
    crate::text::extend_str(&mut stem, "_filtered.pcap");
    string_of(&stem)
}

/// The decoding that `tshark` is told to apply: VXLAN on four UDP ports.
pub open spec fn vxlan_args() -> Seq<Seq<char>> {
    seq![
        "-d"@,
        "udp.port==65330,vxlan"@,
        "-d"@,
        "udp.port==65530,vxlan"@,
        "-d"@,
        "udp.port==10000,vxlan"@,
        "-d"@,
        "udp.port==20000,vxlan"@,
    ]
}

/// The arguments of the `tshark` run that filters `input` into `output`.
pub fn tshark_filter_args(input: &str, filter: &str, output: &str) -> (r: Vec<String>)
    ensures
        string_views(r@) == vxlan_args() + seq!["-r"@, input@, "-Y"@, filter@, "-w"@, output@],
{
    let mut r: Vec<String> = Vec::new();
    r.push("-d".to_owned());
    r.push("udp.port==65330,vxlan".to_owned());
    r.push("-d".to_owned());
    r.push("udp.port==65530,vxlan".to_owned());
    r.push("-d".to_owned());
    r.push("udp.port==10000,vxlan".to_owned());
    r.push("-d".to_owned());
    r.push("udp.port==20000,vxlan".to_owned());
    r.push("-r".to_owned());
    r.push(input.to_owned());
    r.push("-Y".to_owned());
    r.push(filter.to_owned());
    r.push("-w".to_owned());
    r.push(output.to_owned());
    assert(string_views(r@) =~= vxlan_args() + seq![
        "-r"@,
        input@,
        "-Y"@,
        filter@,
        "-w"@,
        output@,
    ]);
    r
}

/// Whether a filtered copy is to be deleted: it holds no packet and the user
/// asked for empty copies to go.
pub fn should_delete(packets: u64, delete_empty: bool) -> (r: bool)
    ensures
        r == (packets == 0 && delete_empty),
{
    packets == 0 && delete_empty
}

// ---------------------------------------------------------------------------
// Tally
// ---------------------------------------------------------------------------

/// What the filter run counts.
#[derive(Clone, Copy, Debug)]
pub struct FilterStats {
    pub processed: u32,
    pub with_packets: u32,
    pub empty: u32,
    pub deleted: u32,
    pub failed: u32,
}

impl FilterStats {
    /// Every processed file either holds packets or is empty, and only empty
    /// files are deleted.
    pub open spec fn wf(&self) -> bool {
        &&& self.processed == self.with_packets + self.empty
        &&& self.deleted <= self.empty
    }

    /// Room for one more file in every counter.
    pub open spec fn has_room(&self) -> bool {
        &&& self.processed < u32::MAX
        &&& self.with_packets < u32::MAX
        &&& self.empty < u32::MAX
        &&& self.deleted < u32::MAX
        &&& self.failed < u32::MAX
    }

    pub fn new() -> (r: FilterStats)
        ensures
            r.wf(),
            r.processed == 0 && r.with_packets == 0 && r.empty == 0 && r.deleted == 0 && r.failed
                == 0,
    {
        FilterStats { processed: 0, with_packets: 0, empty: 0, deleted: 0, failed: 0 }
    }

    /// A file for which `tshark` wrote no output.
    pub fn record_failure(&mut self)
        requires
            old(self).has_room(),
        ensures
            final(self).failed == old(self).failed + 1,
            final(self).processed == old(self).processed,
            final(self).with_packets == old(self).with_packets,
            final(self).empty == old(self).empty,
            final(self).deleted == old(self).deleted,
            old(self).wf() ==> final(self).wf(),
    {
        self.failed = self.failed + 1;
    }

    /// A file whose filtered copy holds `packets` packets; `deleted` tells
    /// whether an empty copy was removed.
    pub fn record_output(&mut self, packets: u64, deleted: bool)
        requires
            old(self).has_room(),
            deleted ==> packets == 0,
        ensures
            final(self).processed == old(self).processed + 1,
            final(self).with_packets == old(self).with_packets + if packets > 0 { 1int } else { 0 },
            final(self).empty == old(self).empty + if packets == 0 { 1int } else { 0 },
            final(self).deleted == old(self).deleted + if deleted { 1int } else { 0 },
            final(self).failed == old(self).failed,
            old(self).wf() ==> final(self).wf(),
    {
        self.processed = self.processed + 1;
        if packets == 0 {
            self.empty = self.empty + 1;
            if deleted {
                self.deleted = self.deleted + 1;
            }
        } else {
            self.with_packets = self.with_packets + 1;
        }
    }
}

} // verus!
