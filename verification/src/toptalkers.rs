use vstd::prelude::*;
use crate::text::{chars_of, string_of, extend, push_decimal, dec_digits, split_words, words, views, has_sub, starts_with, contains_str, starts_with_str, trim, trimmed, split_lines, lines_of, parse_unsigned, parse_unsigned_spec, contains_char, copy_chars};
use crate::decimal::{float_text, scaled_u64, is_float_text, scaled_value, pow10, decimal_times_pow10};
use crate::binary::double_scaled_floor;
use crate::conversations::{byte_unit, unit_exp, is_byte_unit_chars, nats, nth_or};

verus! {

/// One endpoint of a capture, as tshark's endpoint statistics list it.
#[derive(Clone, Debug)]
pub struct Talker {
    pub address: String,
    pub packets: u64,
    pub bytes_raw: u64,
    pub bytes_display: String,
    pub tx_packets: u64,
    pub tx_bytes_display: String,
    pub rx_packets: u64,
    pub rx_bytes_display: String,
}

pub struct TalkerView {
    pub address: Seq<char>,
    pub packets: nat,
    pub bytes_raw: nat,
    pub bytes_display: Seq<char>,
    pub tx_packets: nat,
    pub tx_bytes_display: Seq<char>,
    pub rx_packets: nat,
    pub rx_bytes_display: Seq<char>,
}

impl View for Talker {
    type V = TalkerView;

    open spec fn view(&self) -> TalkerView {
        TalkerView {
            address: self.address@,
            packets: self.packets as nat,
            bytes_raw: self.bytes_raw as nat,
            bytes_display: self.bytes_display@,
            tx_packets: self.tx_packets as nat,
            tx_bytes_display: self.tx_bytes_display@,
            rx_packets: self.rx_packets as nat,
            rx_bytes_display: self.rx_bytes_display@,
        }
    }
}

/// Whether a token is one of the size units tshark prints.
pub fn is_unit(s: &str) -> (r: bool)
    ensures
        r == byte_unit(s@),
{
    is_byte_unit_chars(&chars_of(s))
}

/// The byte count of a value token in a unit; a value that reads as no
/// number counts 0.
pub open spec fn endpoint_bytes(value: Seq<char>, unit: Seq<char>) -> nat {
    if float_text(value) {
        scaled_u64(value, unit_exp(unit))
    } else {
        0
    }
}

/// Frame counts, byte counts and byte texts of the tokens from `i` on.
pub open spec fn endpoint_scan(r: Seq<Seq<char>>, i: nat) -> (Seq<nat>, Seq<nat>, Seq<Seq<char>>)
    decreases r.len() - i,
{
    if i >= r.len() {
        (Seq::<nat>::empty(), Seq::<nat>::empty(), Seq::<Seq<char>>::empty())
    } else {
        match parse_unsigned_spec(r[i as int], 0xFFFF_FFFF_FFFF_FFFF) {
            Some(num) => if i + 2 < r.len() && byte_unit(r[i + 2int]) {
                let rest = endpoint_scan(r, i + 3);
                (
                    seq![num] + rest.0,
                    seq![endpoint_bytes(r[i + 1int], r[i + 2int])] + rest.1,
                    seq![r[i + 1int] + seq![' '] + r[i + 2int]] + rest.2,
                )
            } else if i + 1 < r.len() && byte_unit(r[i + 1int]) {
                let rest = endpoint_scan(r, i + 2);
                (
                    rest.0,
                    seq![decimal_times_pow10(num, 0, unit_exp(r[i + 1int]))] + rest.1,
                    seq![dec_digits(num) + seq![' '] + r[i + 1int]] + rest.2,
                )
            } else {
                endpoint_scan(r, i + 1)
            },
            None => endpoint_scan(r, i + 1),
        }
    }
}

pub open spec fn nth_text(s: Seq<Seq<char>>, i: nat) -> Seq<char> {
    if i < s.len() {
        s[i as int]
    } else {
        Seq::<char>::empty()
    }
}

/// The endpoint that one line of tshark's endpoint table describes.
pub open spec fn endpoint_line_spec(line: Seq<char>) -> Option<TalkerView> {
    let ts = words(line);
    if ts.len() < 3 || !ts[0].contains('.') {
        None
    } else {
        let sc = endpoint_scan(ts.skip(1), 0);
        Some(
            TalkerView {
                address: ts[0],
                packets: nth_or(sc.0, 0, 0),
                bytes_raw: nth_or(sc.1, 0, 0),
                bytes_display: nth_text(sc.2, 0),
                tx_packets: nth_or(sc.0, 1, 0),
                tx_bytes_display: nth_text(sc.2, 1),
                rx_packets: nth_or(sc.0, 2, 0),
                rx_bytes_display: nth_text(sc.2, 2),
            },
        )
    }
}

/// `(num as f64 * 10^k as f64) as u64`: the count read as the nearest double,
/// multiplied as doubles multiply, truncated and held in `u64`.
fn count_times_unit(num: u64, k: u64) -> (r: u64)
    requires
        k <= 12,
    ensures
        r == decimal_times_pow10(num as nat, 0, k as nat),
{
    if num == 0 {
        return 0;
    }
    let f: Vec<char> = Vec::new();
    proof {
        crate::decimal::lemma_pow10_20();
        assert(pow10(0) == 1);
        assert(f@.len() == 0);
        assert(crate::text::digits_value(f@) == 0);
        assert((num as u128) * pow10(0) + 0 == num);
    }
    double_scaled_floor(num as u128, f, k)
}

fn endpoint_scan_exec(toks: &Vec<Vec<char>>) -> (r: (Vec<u64>, Vec<u64>, Vec<Vec<char>>))
    requires
        toks.len() >= 1,
    ensures
        (nats(r.0@), nats(r.1@), views(r.2@)) == endpoint_scan(views(toks@).skip(1), 0),
{
    let ghost rs = views(toks@).skip(1);
    let ghost whole = endpoint_scan(rs, 0);
    let mut frames: Vec<u64> = Vec::new();
    let mut bytes: Vec<u64> = Vec::new();
    let mut shown: Vec<Vec<char>> = Vec::new();
    let n = toks.len() - 1;
    let mut i: usize = 0;
    while i < n
        invariant
            n == toks.len() - 1,
            rs == views(toks@).skip(1),
            rs.len() == n,
            whole == endpoint_scan(rs, 0),
            nats(frames@) + endpoint_scan(rs, i as nat).0 == whole.0,
            nats(bytes@) + endpoint_scan(rs, i as nat).1 == whole.1,
            views(shown@) + endpoint_scan(rs, i as nat).2 == whole.2,
        decreases n - i,
    {
        let ghost f0 = frames@;
        let ghost b0 = bytes@;
        let ghost s0 = shown@;
        let ghost cur = endpoint_scan(rs, i as nat);
        assert(rs[i as int] == toks@[i + 1]@);
        match parse_unsigned(&toks[i + 1], 0xFFFF_FFFF_FFFF_FFFF) {
            Some(num) => {
                if n - i > 2 && is_byte_unit_chars(&toks[i + 3]) {
                    assert(rs[i + 1] == toks@[i + 2]@);
                    assert(rs[i + 2] == toks@[i + 3]@);
                    let value = &toks[i + 2];
                    let unit = &toks[i + 3];
                    let bc = if is_float_text(value) {
                        let k = if crate::text::eq_str(unit, "kB") {
                            3
                        } else if crate::text::eq_str(unit, "MB") {
                            6
                        } else if crate::text::eq_str(unit, "GB") {
                            9
                        } else if crate::text::eq_str(unit, "TB") {
                            12
                        } else {
                            0
                        };
                        scaled_value(value, k)
                    } else {
                        0
                    };
                    let mut text = copy_chars(value);
                    text.push(' ');
                    extend(&mut text, unit);
                    let ghost tv = text@;
                    frames.push(num);
                    bytes.push(bc);
                    shown.push(text);
                    assert(tv =~= rs[i + 1] + seq![' '] + rs[i + 2]);
                    assert(views(shown@) =~= views(s0) + seq![tv]);
                    let ghost nxt = endpoint_scan(rs, (i + 3) as nat);
                    assert(nats(frames@) + nxt.0 =~= nats(f0) + cur.0);
                    assert(nats(bytes@) + nxt.1 =~= nats(b0) + cur.1);
                    assert(views(shown@) + nxt.2 =~= views(s0) + cur.2);
                    i += 3;
                } else if n - i > 1 && is_byte_unit_chars(&toks[i + 2]) {
                    assert(rs[i + 1] == toks@[i + 2]@);
                    let unit = &toks[i + 2];
                    let k = if crate::text::eq_str(unit, "kB") {
                        3
                    } else if crate::text::eq_str(unit, "MB") {
                        6
                    } else if crate::text::eq_str(unit, "GB") {
                        9
                    } else if crate::text::eq_str(unit, "TB") {
                        12
                    } else {
                        0
                    };
                    let bc = count_times_unit(num, k);
                    let mut text: Vec<char> = Vec::new();
                    push_decimal(&mut text, num);
                    text.push(' ');
                    extend(&mut text, unit);
                    let ghost tv = text@;
                    bytes.push(bc);
                    shown.push(text);
                    assert(tv =~= dec_digits(num as nat) + seq![' '] + rs[i + 1]);
                    assert(views(shown@) =~= views(s0) + seq![tv]);
                    let ghost nxt = endpoint_scan(rs, (i + 2) as nat);
                    assert(nats(bytes@) + nxt.1 =~= nats(b0) + cur.1);
                    assert(views(shown@) + nxt.2 =~= views(s0) + cur.2);
                    i += 2;
                } else {
                    i += 1;
                }
            },
            None => {
                i += 1;
            },
        }
    }
    assert(nats(frames@) =~= whole.0);
    assert(nats(bytes@) =~= whole.1);
    assert(views(shown@) =~= whole.2);
    (frames, bytes, shown)
}

fn nth_text_exec(v: &Vec<Vec<char>>, i: usize) -> (r: String)
    ensures
        r@ == nth_text(views(v@), i as nat),
{
    if i < v.len() {
        string_of(&v[i])
    } else {
        String::new()
    }
}

/// Reads one line of a tshark endpoint table: the address, then groups of
/// count, byte value and unit (all, sent, received).
pub fn parse_endpoint_line(line: &str) -> (r: Option<Talker>)
    ensures
        r matches Some(t) ==> endpoint_line_spec(line@) == Some(t@),
        r is None ==> endpoint_line_spec(line@) is None,
{
    let lv = chars_of(line);
    let toks = split_words(&lv);
    if toks.len() < 3 {
        return None;
    }
    assert(views(toks@)[0] == toks@[0]@);
    if !contains_char(&toks[0], '.') {
        return None;
    }
    let (frames, bytes, shown) = endpoint_scan_exec(&toks);
    let t = Talker {
        address: string_of(&toks[0]),
        packets: crate::conversations::nth_or_exec(&frames, 0, 0),
        bytes_raw: crate::conversations::nth_or_exec(&bytes, 0, 0),
        bytes_display: nth_text_exec(&shown, 0),
        tx_packets: crate::conversations::nth_or_exec(&frames, 1, 0),
        tx_bytes_display: nth_text_exec(&shown, 1),
        rx_packets: crate::conversations::nth_or_exec(&frames, 2, 0),
        rx_bytes_display: nth_text_exec(&shown, 2),
    };
    Some(t)
}

/// A trimmed line that is no endpoint: blank, a separator, the title or a filter line.
pub open spec fn skipped_endpoint_line(t: Seq<char>) -> bool {
    t.len() == 0 || starts_with(t, "="@) || starts_with(t, "|"@) || has_sub(t, "Endpoints"@)
        || starts_with(t, "Filter"@)
}

pub open spec fn talkers_from(lines: Seq<Seq<char>>) -> Seq<TalkerView>
    decreases lines.len(),
{
    if lines.len() == 0 {
        Seq::<TalkerView>::empty()
    } else {
        let t = trim(lines[0]);
        let rest = talkers_from(lines.drop_first());
        if skipped_endpoint_line(t) {
            rest
        } else {
            match endpoint_line_spec(t) {
                Some(x) => seq![x] + rest,
                None => rest,
            }
        }
    }
}

pub open spec fn talker_views(v: Seq<Talker>) -> Seq<TalkerView> {
    v.map_values(|t: Talker| t@)
}

/// Reads tshark's endpoint statistics (`-z endpoints,ip`) into talkers.
pub fn parse_endpoints(output: &str) -> (r: Vec<Talker>)
    ensures
        talker_views(r@) == talkers_from(lines_of(output@)),
{
    let ov = chars_of(output);
    let lines = split_lines(&ov);
    let ghost ls = lines_of(output@);
    let mut out: Vec<Talker> = Vec::new();
    let mut i: usize = 0;
    assert(ls.skip(0) =~= ls);
    assert(talker_views(out@) + talkers_from(ls) =~= talkers_from(ls));
    while i < lines.len()
        invariant
            i <= lines.len(),
            views(lines@) == ls,
            talker_views(out@) + talkers_from(ls.skip(i as int)) == talkers_from(ls),
        decreases lines.len() - i,
    {
        let ghost rest = ls.skip(i as int);
        assert(rest[0] == lines@[i as int]@);
        assert(rest.drop_first() =~= ls.skip(i + 1));
        let t = trimmed(&lines[i]);
        if t.len() == 0 || starts_with_str(&t, "=") || starts_with_str(&t, "|") || contains_str(
            &t,
            "Endpoints",
        ) || starts_with_str(&t, "Filter") {
        } else {
            let ts = string_of(&t);
            match parse_endpoint_line(ts.as_str()) {
                Some(x) => {
                    let ghost before = talker_views(out@);
                    out.push(x);
                    assert(talker_views(out@) =~= before.push(x@));
                    assert(before.push(x@) + talkers_from(ls.skip(i + 1)) =~= before + (seq![x@]
                        + talkers_from(ls.skip(i + 1))));
                },
                None => {},
            }
        }
        i += 1;
    }
    assert(ls.skip(lines.len() as int) =~= Seq::<Seq<char>>::empty());
    assert(talker_views(out@) + Seq::<TalkerView>::empty() =~= talker_views(out@));
    out
}

/// The first `limit` talkers (`Vec::truncate`).
pub fn truncate_talkers(talkers: &mut Vec<Talker>, limit: usize)
    ensures
        final(talkers)@ == if limit < old(talkers)@.len() {
            old(talkers)@.take(limit as int)
        } else {
            old(talkers)@
        },
{
    talkers.truncate(limit);
}

} // verus!
