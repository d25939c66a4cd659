use vstd::prelude::*;
use crate::text::{chars_of, string_of, extend_str, push_decimal, dec_digits, digit_to_char, digit_char, split_words, words, views, has_sub, starts_with, contains_str, starts_with_str, eq_str, trim, trimmed, split_lines, lines_of, replace_char, replaced, copy_chars, slice_of, is_digit};
use crate::decimal::{float_text, scaled_u64, is_float_text, scaled_value, ascii_lower};
use crate::rounding::{as_double, shown_digits, as_double_exec, shown_digits_exec};

verus! {

// ---------------------------------------------------------------------------
// Byte counts as text
// ---------------------------------------------------------------------------

/// `x` with `places` digits after the point, from `x * 10^places` given whole.
pub open spec fn fixed_text(scaled: nat, places: nat) -> Seq<char> {
    if places == 1 {
        dec_digits(scaled / 10) + seq!['.', digit_char(scaled % 10)]
    } else {
        dec_digits(scaled / 100) + seq!['.', digit_char(scaled / 10 % 10), digit_char(scaled % 10)]
    }
}

/// A byte count as text: `GB` and `MB` with two decimals, `kB` with one,
/// else bytes. The count is divided as binary doubles divide (each operand
/// and the quotient rounded to the nearest double) and the quotient is shown
/// with its decimals rounded half to even.
pub open spec fn format_bytes_spec(b: nat) -> Seq<char> {
    if b >= 1_000_000_000 {
        fixed_text(shown_digits(as_double(b), 1_000_000_000, 2), 2) + " GB"@
    } else if b >= 1_000_000 {
        fixed_text(shown_digits(as_double(b), 1_000_000, 2), 2) + " MB"@
    } else if b >= 1_000 {
        fixed_text(shown_digits(as_double(b), 1_000, 1), 1) + " kB"@
    } else {
        dec_digits(b) + " B"@
    }
}

fn push_fixed(out: &mut Vec<char>, scaled: u64, places: u64)
    requires
        places == 1 || places == 2,
    ensures
        final(out)@ == old(out)@ + fixed_text(scaled as nat, places as nat),
{
    if places == 1 {
        push_decimal(out, scaled / 10);
        out.push('.');
        let c = digit_to_char(scaled % 10);
        out.push(c);
    } else {
        push_decimal(out, scaled / 100);
        out.push('.');
        let c1 = digit_to_char(scaled / 10 % 10);
        out.push(c1);
        let c2 = digit_to_char(scaled % 10);
        out.push(c2);
    }
    assert(final(out)@ =~= old(out)@ + fixed_text(scaled as nat, places as nat));
}

/// A byte count for people: `1.23 GB`, `4.56 MB`, `7.8 kB` or `910 B`
/// (decimal units).
pub fn format_bytes(bytes: u64) -> (r: String)
    ensures
        r@ == format_bytes_spec(bytes as nat),
{
    let mut v: Vec<char> = Vec::new();
    if bytes < 1_000 {
        push_decimal(&mut v, bytes);
        extend_str(&mut v, " B");
        assert(v@ =~= format_bytes_spec(bytes as nat));
        return string_of(&v);
    }
    let x = as_double_exec(bytes);
    proof {
        vstd::arithmetic::power2::lemma2_to64();
        vstd::arithmetic::power2::lemma2_to64_rest();
        vstd::arithmetic::power2::lemma_pow2_adds(32, 4);
        vstd::arithmetic::power2::lemma_pow2_adds(32, 21);
        if bytes < 0x20_0000_0000_0000 {
            assert(x == bytes);
        }
    }
    if bytes >= 1_000_000_000 {
        let digits = shown_digits_exec(x, 1_000_000_000, 2);
        push_fixed(&mut v, digits, 2);
        extend_str(&mut v, " GB");
    } else if bytes >= 1_000_000 {
        let digits = shown_digits_exec(x, 1_000_000, 2);
        push_fixed(&mut v, digits, 2);
        extend_str(&mut v, " MB");
    } else {
        let digits = shown_digits_exec(x, 1_000, 1);
        push_fixed(&mut v, digits, 1);
        extend_str(&mut v, " kB");
    }
    assert(v@ =~= format_bytes_spec(bytes as nat));
    string_of(&v)
}

// ---------------------------------------------------------------------------
// Conversations
// ---------------------------------------------------------------------------

/// One conversation of a capture, as tshark's conversation statistics list it.
#[derive(Clone, Debug)]
pub struct Conversation {
    pub protocol: String,
    pub addr_a: String,
    pub port_a: String,
    pub addr_b: String,
    pub port_b: String,
    pub packets_a_to_b: u64,
    pub bytes_a_to_b: u64,
    pub packets_b_to_a: u64,
    pub bytes_b_to_a: u64,
    pub packets_total: u64,
    pub bytes_total: u64,
    pub duration: String,
}

pub struct ConversationView {
    pub protocol: Seq<char>,
    pub addr_a: Seq<char>,
    pub port_a: Seq<char>,
    pub addr_b: Seq<char>,
    pub port_b: Seq<char>,
    pub packets_a_to_b: nat,
    pub bytes_a_to_b: nat,
    pub packets_b_to_a: nat,
    pub bytes_b_to_a: nat,
    pub packets_total: nat,
    pub bytes_total: nat,
    pub duration: Seq<char>,
}

impl View for Conversation {
    type V = ConversationView;

    open spec fn view(&self) -> ConversationView {
        ConversationView {
            protocol: self.protocol@,
            addr_a: self.addr_a@,
            port_a: self.port_a@,
            addr_b: self.addr_b@,
            port_b: self.port_b@,
            packets_a_to_b: self.packets_a_to_b as nat,
            bytes_a_to_b: self.bytes_a_to_b as nat,
            packets_b_to_a: self.packets_b_to_a as nat,
            bytes_b_to_a: self.bytes_b_to_a as nat,
            packets_total: self.packets_total as nat,
            bytes_total: self.bytes_total as nat,
            duration: self.duration@,
        }
    }
}

/// `addr:port`, or the address alone when there is no port.
pub open spec fn endpoint_text(addr: Seq<char>, port: Seq<char>) -> Seq<char> {
    if port.len() == 0 {
        addr
    } else {
        addr + seq![':'] + port
    }
}

pub open spec fn label_spec(c: ConversationView) -> Seq<char> {
    "["@ + c.protocol + "] "@ + endpoint_text(c.addr_a, c.port_a) + " <-> "@ + endpoint_text(
        c.addr_b,
        c.port_b,
    )
}

pub open spec fn display_filter_spec(c: ConversationView) -> Seq<char> {
    if c.protocol == "TCP"@ {
        "(ip.addr=="@ + c.addr_a + " && ip.addr=="@ + c.addr_b + " && tcp.port=="@ + c.port_a
            + " && tcp.port=="@ + c.port_b + ")"@
    } else if c.protocol == "UDP"@ {
        "(ip.addr=="@ + c.addr_a + " && ip.addr=="@ + c.addr_b + " && udp.port=="@ + c.port_a
            + " && udp.port=="@ + c.port_b + ")"@
    } else {
        "(ip.addr=="@ + c.addr_a + " && ip.addr=="@ + c.addr_b + ")"@
    }
}

pub open spec fn summary_line_spec(c: ConversationView) -> Seq<char> {
    endpoint_text(c.addr_a, c.port_a) + " <-> "@ + endpoint_text(c.addr_b, c.port_b)
        + "  | pkts: "@ + dec_digits(c.packets_total) + " | bytes: "@ + dec_digits(c.bytes_total)
        + " | dur: "@ + c.duration
}

fn push_endpoint(out: &mut Vec<char>, addr: &String, port: &String)
    ensures
        final(out)@ == old(out)@ + endpoint_text(addr@, port@),
{
    extend_str(out, addr.as_str());
    if port.as_str().is_empty() {
    } else {
        out.push(':');
        extend_str(out, port.as_str());
    }
    assert(final(out)@ =~= old(out)@ + endpoint_text(addr@, port@));
}

impl Conversation {
    /// A tshark display filter selecting this conversation.
    pub fn to_display_filter(&self) -> (r: String)
        ensures
            r@ == display_filter_spec(self@),
    {
        let mut v: Vec<char> = Vec::new();
        let proto = chars_of(self.protocol.as_str());
        let is_tcp = eq_str(&proto, "TCP");
        let is_udp = eq_str(&proto, "UDP");
        extend_str(&mut v, "(ip.addr==");
        extend_str(&mut v, self.addr_a.as_str());
        extend_str(&mut v, " && ip.addr==");
        extend_str(&mut v, self.addr_b.as_str());
        if is_tcp || is_udp {
            if is_tcp {
                extend_str(&mut v, " && tcp.port==");
                extend_str(&mut v, self.port_a.as_str());
                extend_str(&mut v, " && tcp.port==");
            } else {
                extend_str(&mut v, " && udp.port==");
                extend_str(&mut v, self.port_a.as_str());
                extend_str(&mut v, " && udp.port==");
            }
            extend_str(&mut v, self.port_b.as_str());
        }
        extend_str(&mut v, ")");
        assert(v@ =~= display_filter_spec(self@));
        string_of(&v)
    }

    /// A short label: `[protocol] a:port <-> b:port`.
    pub fn label(&self) -> (r: String)
        ensures
            r@ == label_spec(self@),
    {
        let mut v: Vec<char> = Vec::new();
        extend_str(&mut v, "[");
        extend_str(&mut v, self.protocol.as_str());
        extend_str(&mut v, "] ");
        push_endpoint(&mut v, &self.addr_a, &self.port_a);
        extend_str(&mut v, " <-> ");
        push_endpoint(&mut v, &self.addr_b, &self.port_b);
        assert(v@ =~= label_spec(self@));
        string_of(&v)
    }

    /// The one-line description: endpoints, packets, bytes and duration.
    pub fn summary_line(&self) -> (r: String)
        ensures
            r@ == summary_line_spec(self@),
    {
        let mut v: Vec<char> = Vec::new();
        push_endpoint(&mut v, &self.addr_a, &self.port_a);
        extend_str(&mut v, " <-> ");
        push_endpoint(&mut v, &self.addr_b, &self.port_b);
        extend_str(&mut v, "  | pkts: ");
        push_decimal(&mut v, self.packets_total);
        extend_str(&mut v, " | bytes: ");
        push_decimal(&mut v, self.bytes_total);
        extend_str(&mut v, " | dur: ");
        extend_str(&mut v, self.duration.as_str());
        assert(v@ =~= summary_line_spec(self@));
        string_of(&v)
    }
}


// ---------------------------------------------------------------------------
// Reading tshark's conversation statistics
// ---------------------------------------------------------------------------

/// One of the size units tshark prints.
pub open spec fn byte_unit(t: Seq<char>) -> bool {
    t == "bytes"@ || t == "kB"@ || t == "MB"@ || t == "GB"@ || t == "TB"@
}

/// The power of ten that a unit stands for (`bytes` and anything else: 0).
pub open spec fn unit_exp(t: Seq<char>) -> nat {
    if t == "kB"@ {
        3
    } else if t == "MB"@ {
        6
    } else if t == "GB"@ {
        9
    } else if t == "TB"@ {
        12
    } else {
        0
    }
}

/// A number token with decimal commas read as points.
pub open spec fn num_text(t: Seq<char>) -> Seq<char> {
    replace_char(t, ',', '.')
}

/// The byte count of a value token followed by a unit token; a value that
/// reads as no number counts 0.
pub open spec fn byte_count(value: Seq<char>, unit: Seq<char>) -> nat {
    if float_text(num_text(value)) {
        scaled_u64(num_text(value), unit_exp(unit))
    } else {
        0
    }
}

pub fn is_byte_unit_chars(t: &Vec<char>) -> (r: bool)
    ensures
        r == byte_unit(t@),
{
    eq_str(t, "bytes") || eq_str(t, "kB") || eq_str(t, "MB") || eq_str(t, "GB") || eq_str(t, "TB")
}

/// Whether a token is one of the size units tshark prints.
pub fn is_byte_unit(s: &str) -> (r: bool)
    ensures
        r == byte_unit(s@),
{
    is_byte_unit_chars(&chars_of(s))
}

fn unit_exp_exec(t: &Vec<char>) -> (r: u64)
    ensures
        r == unit_exp(t@),
        r <= 12,
{
    if eq_str(t, "kB") {
        3
    } else if eq_str(t, "MB") {
        6
    } else if eq_str(t, "GB") {
        9
    } else if eq_str(t, "TB") {
        12
    } else {
        0
    }
}

/// Bytes for a value in a unit: the value read as a double, times the unit
/// as doubles multiply, truncated and held in `u64` (NaN and negatives give 0,
/// too large gives `u64::MAX`).
pub fn convert_to_bytes(value: &Vec<char>, unit: &Vec<char>) -> (r: u64)
    ensures
        r == byte_count(value@, unit@),
{
    let v = replaced(value, ',', '.');
    if is_float_text(&v) {
        let k = unit_exp_exec(unit);
        scaled_value(&v, k)
    } else {
        0
    }
}

/// Frame counts, byte counts and the other numbers of the tokens from `idx` on.
pub open spec fn scan(r: Seq<Seq<char>>, idx: nat) -> (Seq<nat>, Seq<nat>, Seq<Seq<char>>)
    decreases r.len() - idx,
{
    if idx >= r.len() {
        (Seq::<nat>::empty(), Seq::<nat>::empty(), Seq::<Seq<char>>::empty())
    } else {
        let t = num_text(r[idx as int]);
        if float_text(t) {
            if idx + 2 < r.len() && byte_unit(r[idx + 2int]) {
                let rest = scan(r, idx + 3);
                (
                    seq![scaled_u64(t, 0)] + rest.0,
                    seq![byte_count(r[idx + 1int], r[idx + 2int])] + rest.1,
                    rest.2,
                )
            } else if idx + 1 < r.len() && byte_unit(r[idx + 1int]) {
                let rest = scan(r, idx + 2);
                (rest.0, seq![scaled_u64(t, unit_exp(r[idx + 1int]))] + rest.1, rest.2)
            } else {
                let rest = scan(r, idx + 1);
                (rest.0, rest.1, seq![t] + rest.2)
            }
        } else {
            scan(r, idx + 1)
        }
    }
}

/// The address and port of `addr:port`; the text after the last `:` is the
/// port only when it is all ASCII digits.
pub open spec fn split_addr_port_spec(s: Seq<char>) -> (Seq<char>, Seq<char>) {
    if s.contains(':') {
        let i = last_index(s, ':');
        let port = s.subrange(i + 1, s.len() as int);
        if forall|j: int| 0 <= j < port.len() ==> is_digit(#[trigger] port[j]) {
            (s.take(i), port)
        } else {
            (s, Seq::<char>::empty())
        }
    } else {
        (s, Seq::<char>::empty())
    }
}

/// The position of the last occurrence of `c`.
pub open spec fn last_index(s: Seq<char>, c: char) -> int
    decreases s.len(),
{
    if s.len() == 0 {
        -1
    } else if s.last() == c {
        s.len() - 1
    } else {
        last_index(s.drop_last(), c)
    }
}

proof fn lemma_last_index(s: Seq<char>, c: char)
    ensures
        s.contains(c) ==> 0 <= last_index(s, c) < s.len() && s[last_index(s, c)] == c && forall|
            j: int,
        | last_index(s, c) < j < s.len() ==> s[j] != c,
        !s.contains(c) ==> last_index(s, c) == -1,
    decreases s.len(),
{
    if s.len() > 0 {
        lemma_last_index(s.drop_last(), c);
        if s.last() != c {
            if s.contains(c) {
                let k = choose|k: int| 0 <= k < s.len() && s[k] == c;
                assert(s.drop_last()[k] == c);
            }
            if s.drop_last().contains(c) {
                let k = choose|k: int| 0 <= k < s.drop_last().len() && s.drop_last()[k] == c;
                assert(s[k] == c);
                let li = last_index(s, c);
                assert(s[li] == s.drop_last()[li]);
                assert forall|j: int| li < j < s.len() implies s[j] != c by {
                    if j < s.len() - 1 {
                        assert(s[j] == s.drop_last()[j]);
                    }
                }
            }
        }
    }
}

/// Splits `addr:port` into address and port.
pub fn split_addr_port(s: &Vec<char>) -> (r: (Vec<char>, Vec<char>))
    ensures
        (r.0@, r.1@) == split_addr_port_spec(s@),
{
    proof {
        lemma_last_index(s@, ':');
    }
    let mut i = s.len();
    while i > 0 && s[i - 1] != ':'
        invariant
            i <= s.len(),
            forall|j: int| i <= j < s.len() ==> s@[j] != ':',
        decreases i,
    {
        i -= 1;
    }
    if i == 0 {
        assert(!s@.contains(':')) by {
            if s@.contains(':') {
                let k = choose|k: int| 0 <= k < s@.len() && s@[k] == ':';
                assert(s@[k] != ':');
            }
        }
        return (copy_chars(s), Vec::new());
    }
    let at = i - 1;
    assert(s@.contains(':')) by {
        assert(s@[at as int] == ':');
    }
    assert(last_index(s@, ':') == at);
    let port = slice_of(s, at + 1, s.len());
    let mut k: usize = 0;
    let mut all = true;
    while k < port.len()
        invariant
            k <= port.len(),
            all == forall|j: int| 0 <= j < k ==> is_digit(#[trigger] port@[j]),
        decreases port.len() - k,
    {
        if !('0' <= port[k] && port[k] <= '9') {
            all = false;
        }
        k += 1;
    }
    if all {
        (slice_of(s, 0, at), port)
    } else {
        (copy_chars(s), Vec::new())
    }
}


/// The numbers of a sequence of `u64`, as naturals.
pub open spec fn nats(s: Seq<u64>) -> Seq<nat> {
    s.map_values(|x: u64| x as nat)
}

/// Reads the tokens after the endpoints: frame counts, byte counts, and the
/// other numbers in their order.
fn scan_numbers(toks: &Vec<Vec<char>>, base: usize) -> (r: (Vec<u64>, Vec<u64>, Vec<Vec<char>>))
    requires
        base <= toks.len(),
    ensures
        (nats(r.0@), nats(r.1@), views(r.2@)) == scan(views(toks@).skip(base as int), 0),
{
    let ghost rs = views(toks@).skip(base as int);
    let ghost whole = scan(rs, 0);
    let mut frames: Vec<u64> = Vec::new();
    let mut bytes: Vec<u64> = Vec::new();
    let mut trailing: Vec<Vec<char>> = Vec::new();
    let n = toks.len() - base;
    let mut idx: usize = 0;
    while idx < n
        invariant
            n == toks.len() - base,
            rs == views(toks@).skip(base as int),
            whole == scan(rs, 0),
            rs.len() == n,
            nats(frames@) + scan(rs, idx as nat).0 == whole.0,
            nats(bytes@) + scan(rs, idx as nat).1 == whole.1,
            views(trailing@) + scan(rs, idx as nat).2 == whole.2,
        decreases n - idx,
    {
        let ghost f0 = frames@;
        let ghost b0 = bytes@;
        let ghost t0 = trailing@;
        let ghost cur = scan(rs, idx as nat);
        assert(rs[idx as int] == toks@[base + idx]@);
        let t = replaced(&toks[base + idx], ',', '.');
        if is_float_text(&t) {
            if n - idx > 2 && is_byte_unit_chars(&toks[base + idx + 2]) {
                assert(rs[idx + 2] == toks@[base + idx + 2]@);
                assert(rs[idx + 1] == toks@[base + idx + 1]@);
                let f = scaled_value(&t, 0);
                let bc = convert_to_bytes(&toks[base + idx + 1], &toks[base + idx + 2]);
                frames.push(f);
                bytes.push(bc);
                let ghost nxt = scan(rs, (idx + 3) as nat);
                assert(nats(frames@) =~= nats(f0) + seq![f as nat]);
                assert(nats(bytes@) =~= nats(b0) + seq![bc as nat]);
                assert(nats(frames@) + nxt.0 =~= nats(f0) + cur.0);
                assert(nats(bytes@) + nxt.1 =~= nats(b0) + cur.1);
                idx += 3;
            } else if n - idx > 1 && is_byte_unit_chars(&toks[base + idx + 1]) {
                assert(rs[idx + 1] == toks@[base + idx + 1]@);
                let k = unit_exp_exec(&toks[base + idx + 1]);
                let bc = scaled_value(&t, k);
                bytes.push(bc);
                let ghost nxt = scan(rs, (idx + 2) as nat);
                assert(nats(bytes@) =~= nats(b0) + seq![bc as nat]);
                assert(nats(bytes@) + nxt.1 =~= nats(b0) + cur.1);
                idx += 2;
            } else {
                let ghost tv = t@;
                trailing.push(t);
                let ghost nxt = scan(rs, (idx + 1) as nat);
                assert(views(trailing@) =~= views(t0) + seq![tv]);
                assert(views(trailing@) + nxt.2 =~= views(t0) + cur.2);
                idx += 1;
            }
        } else {
            idx += 1;
        }
    }
    assert(nats(frames@) =~= whole.0);
    assert(nats(bytes@) =~= whole.1);
    assert(views(trailing@) =~= whole.2);
    (frames, bytes, trailing)
}

/// The first position at or after `from` holding the token `<->`.
pub open spec fn arrow_at(ts: Seq<Seq<char>>, from: nat) -> Option<nat>
    decreases ts.len() - from,
{
    if from >= ts.len() {
        None
    } else if ts[from as int] == "<->"@ {
        Some(from)
    } else {
        arrow_at(ts, from + 1)
    }
}

pub open spec fn nth_or(s: Seq<nat>, i: nat, d: nat) -> nat {
    if i < s.len() {
        s[i as int]
    } else {
        d
    }
}

/// The conversation that one line of tshark's conversation table describes.
pub open spec fn conversation_line_spec(line: Seq<char>, protocol: Seq<char>) -> Option<
    ConversationView,
> {
    let ts = words(line);
    match arrow_at(ts, 0) {
        None => None,
        Some(a) => if a == 0 || a + 1 >= ts.len() {
            None
        } else {
            let left = split_addr_port_spec(ts[a - 1]);
            let right = split_addr_port_spec(ts[a + 1int]);
            let sc = scan(ts.skip(a + 2int), 0);
            let p1 = nth_or(sc.0, 0, 0);
            let b1 = nth_or(sc.1, 0, 0);
            let p2 = nth_or(sc.0, 1, 0);
            let b2 = nth_or(sc.1, 1, 0);
            Some(
                ConversationView {
                    protocol,
                    addr_a: left.0,
                    port_a: left.1,
                    addr_b: right.0,
                    port_b: right.1,
                    packets_a_to_b: p1,
                    bytes_a_to_b: b1,
                    packets_b_to_a: p2,
                    bytes_b_to_a: b2,
                    packets_total: nth_or(sc.0, 2, (p1 + p2) % 0x1_0000_0000_0000_0000),
                    bytes_total: nth_or(sc.1, 2, (b1 + b2) % 0x1_0000_0000_0000_0000),
                    duration: if sc.2.len() > 1 {
                        sc.2[1]
                    } else {
                        "0.0"@
                    },
                },
            )
        },
    }
}

pub fn nth_or_exec(v: &Vec<u64>, i: usize, d: u64) -> (r: u64)
    ensures
        r == nth_or(nats(v@), i as nat, d as nat),
{
    if i < v.len() {
        v[i]
    } else {
        d
    }
}

/// Reads one line of a tshark conversation table: `a:port <-> b:port`, then
/// groups of frames, bytes and unit, then the relative start and the duration.
pub fn parse_conversation_line(line: &str, protocol: &str) -> (r: Option<Conversation>)
    ensures
        r matches Some(c) ==> conversation_line_spec(line@, protocol@) == Some(c@),
        r is None ==> conversation_line_spec(line@, protocol@) is None,
{
    let lv = chars_of(line);
    let toks = split_words(&lv);
    let ghost ts = words(line@);
    assert(views(toks@) == ts);
    let mut a: usize = 0;
    while a < toks.len() && !eq_str(&toks[a], "<->")
        invariant
            a <= toks.len(),
            views(toks@) == ts,
            arrow_at(ts, 0) == arrow_at(ts, a as nat),
        decreases toks.len() - a,
    {
        assert(ts[a as int] == toks@[a as int]@);
        a += 1;
    }
    if a == toks.len() {
        return None;
    }
    assert(ts[a as int] == toks@[a as int]@);
    if a == 0 || a + 1 >= toks.len() {
        return None;
    }
    assert(ts[a - 1] == toks@[a - 1]@);
    assert(ts[a + 1] == toks@[a + 1]@);
    let (addr_a, port_a) = split_addr_port(&toks[a - 1]);
    let (addr_b, port_b) = split_addr_port(&toks[a + 1]);
    assert(views(toks@).skip(a + 2) == ts.skip(a + 2));
    let (frames, bytes, trailing) = scan_numbers(&toks, a + 2);
    let p1 = nth_or_exec(&frames, 0, 0);
    let b1 = nth_or_exec(&bytes, 0, 0);
    let p2 = nth_or_exec(&frames, 1, 0);
    let b2 = nth_or_exec(&bytes, 1, 0);
    let packets_total = nth_or_exec(&frames, 2, p1.wrapping_add(p2));
    let bytes_total = nth_or_exec(&bytes, 2, b1.wrapping_add(b2));
    let duration = if trailing.len() > 1 {
        assert(views(trailing@)[1] == trailing@[1]@);
        string_of(&trailing[1])
    } else {
        string_of(&chars_of("0.0"))
    };
    let c = Conversation {
        protocol: string_of(&chars_of(protocol)),
        addr_a: string_of(&addr_a),
        port_a: string_of(&port_a),
        addr_b: string_of(&addr_b),
        port_b: string_of(&port_b),
        packets_a_to_b: p1,
        bytes_a_to_b: b1,
        packets_b_to_a: p2,
        bytes_b_to_a: b2,
        packets_total,
        bytes_total,
        duration,
    };
    Some(c)
}


/// A trimmed line that is no conversation: blank, a filter line, a separator
/// or the column header.
pub open spec fn skipped_line(t: Seq<char>) -> bool {
    t.len() == 0 || starts_with(t, "Filter"@) || starts_with(t, "|"@) || starts_with(t, "="@) || (
    has_sub(t, "Frames"@) && has_sub(t, "Bytes"@))
}

/// The protocol in force after a section header line.
pub open spec fn header_protocol(t: Seq<char>, current: Seq<char>) -> Seq<char> {
    if has_sub(t, "TCP"@) {
        "TCP"@
    } else if has_sub(t, "UDP"@) {
        "UDP"@
    } else if has_sub(t, "IPv4"@) {
        "IPv4"@
    } else {
        current
    }
}

/// The conversations of the lines, read with `protocol` in force at the start.
pub open spec fn conversations_from(lines: Seq<Seq<char>>, protocol: Seq<char>) -> Seq<
    ConversationView,
>
    decreases lines.len(),
{
    if lines.len() == 0 {
        Seq::<ConversationView>::empty()
    } else {
        let t = trim(lines[0]);
        let rest = lines.drop_first();
        if has_sub(t, "Conversations"@) {
            conversations_from(rest, header_protocol(t, protocol))
        } else if skipped_line(t) || protocol.len() == 0 || !has_sub(t, "<->"@) {
            conversations_from(rest, protocol)
        } else {
            match conversation_line_spec(t, protocol) {
                Some(c) => seq![c] + conversations_from(rest, protocol),
                None => conversations_from(rest, protocol),
            }
        }
    }
}

/// A trimmed line that heads an IPv4 section: it names `Conversations` and
/// `IPv4`, and neither `TCP` nor `UDP`.
pub open spec fn ipv4_header(t: Seq<char>) -> bool {
    has_sub(t, "Conversations"@) && has_sub(t, "IPv4"@) && !has_sub(t, "TCP"@) && !has_sub(t, "UDP"@)
}

/// A trimmed line that reads as a conversation under `protocol`: no section
/// header, no skipped line, and an `a <-> b` line that parses.
pub open spec fn conversation_row(t: Seq<char>, protocol: Seq<char>) -> bool {
    !has_sub(t, "Conversations"@) && !skipped_line(t) && has_sub(t, "<->"@) && conversation_line_spec(
        t,
        protocol,
    ) is Some
}

/// An IPv4 section header puts the lines after it under the protocol
/// `IPv4`, whatever protocol was in force before it.
pub proof fn lemma_ipv4_section(h: Seq<char>, rest: Seq<Seq<char>>, protocol: Seq<char>)
    requires
        ipv4_header(trim(h)),
    ensures
        conversations_from(seq![h] + rest, protocol) == conversations_from(rest, "IPv4"@),
{
    let ls = seq![h] + rest;
    assert(ls[0] == h);
    assert(ls.drop_first() =~= rest);
}

/// Every conversation comes out under the protocol of the section header
/// before it: `TCP`, `UDP` or `IPv4`.
pub proof fn lemma_conversation_protocols(lines: Seq<Seq<char>>, protocol: Seq<char>)
    requires
        protocol.len() == 0 || protocol == "TCP"@ || protocol == "UDP"@ || protocol == "IPv4"@,
    ensures
        forall|k: int|
            0 <= k < conversations_from(lines, protocol).len() ==> {
                let p = #[trigger] conversations_from(lines, protocol)[k].protocol;
                p == "TCP"@ || p == "UDP"@ || p == "IPv4"@
            },
    decreases lines.len(),
{
    if lines.len() > 0 {
        let t = trim(lines[0]);
        let rest = lines.drop_first();
        let r = conversations_from(lines, protocol);
        if has_sub(t, "Conversations"@) {
            lemma_conversation_protocols(rest, header_protocol(t, protocol));
            assert(r == conversations_from(rest, header_protocol(t, protocol)));
        } else if skipped_line(t) || protocol.len() == 0 || !has_sub(t, "<->"@) {
            lemma_conversation_protocols(rest, protocol);
            assert(r == conversations_from(rest, protocol));
        } else {
            lemma_conversation_protocols(rest, protocol);
            let tail = conversations_from(rest, protocol);
            match conversation_line_spec(t, protocol) {
                Some(c) => {
                    assert(c.protocol == protocol);
                    assert(r == seq![c] + tail);
                    assert forall|k: int| 0 <= k < r.len() implies {
                        let p = #[trigger] r[k].protocol;
                        p == "TCP"@ || p == "UDP"@ || p == "IPv4"@
                    } by {
                        if k > 0 {
                            assert(r[k] == tail[k - 1]);
                        } else {
                            assert(r[0] == c);
                        }
                    }
                },
                None => {
                    assert(r == tail);
                },
            }
        }
    }
}

/// A conversation line right after an IPv4 section header gives exactly one
/// conversation, under the protocol `IPv4`.
pub proof fn lemma_ipv4_line(h: Seq<char>, l: Seq<char>)
    requires
        ipv4_header(trim(h)),
        conversation_row(trim(l), "IPv4"@),
    ensures
        conversations_from(seq![h, l], Seq::<char>::empty()).len() == 1,
        conversations_from(seq![h, l], Seq::<char>::empty())[0].protocol == "IPv4"@,
        Some(conversations_from(seq![h, l], Seq::<char>::empty())[0]) == conversation_line_spec(trim(l), "IPv4"@),
{
    reveal_strlit("IPv4");
    assert(seq![h, l] =~= seq![h] + seq![l]);
    lemma_ipv4_section(h, seq![l], Seq::<char>::empty());
    let r = conversations_from(seq![l], "IPv4"@);
    assert(seq![l][0] == l);
    assert(seq![l].drop_first() =~= Seq::<Seq<char>>::empty());
    let c = conversation_line_spec(trim(l), "IPv4"@).unwrap();
    assert("IPv4"@.len() == 4);
    assert(conversations_from(Seq::<Seq<char>>::empty(), "IPv4"@) == Seq::<ConversationView>::empty());
    assert(r == seq![c] + conversations_from(Seq::<Seq<char>>::empty(), "IPv4"@));
    assert(r =~= seq![c]);
}

/// The text of an IPv4 section header and one conversation line: the two
/// lines, read as such, give one conversation under `IPv4`.
pub proof fn lemma_ipv4_text(h: Seq<char>, l: Seq<char>)
    requires
        !h.contains('\n'),
        !l.contains('\n'),
        h.len() == 0 || h.last() != '\r',
        l.len() > 0,
        ipv4_header(trim(h)),
        conversation_row(trim(l), "IPv4"@),
    ensures
        conversations_from(lines_of(h + "\n"@ + l), Seq::<char>::empty()).len() == 1,
        conversations_from(lines_of(h + "\n"@ + l), Seq::<char>::empty())[0].protocol == "IPv4"@,
{
    reveal_strlit("\n");
    assert(h + "\n"@ + l =~= h + seq!['\n'] + l);
    crate::text::lemma_split_concat(h, l, '\n');
    crate::text::lemma_split_single(h, '\n');
    crate::text::lemma_split_single(l, '\n');
    let p = crate::text::split_char(h + seq!['\n'] + l, '\n');
    assert(p =~= seq![h, l]);
    assert(p.drop_last() =~= seq![h]);
    assert(crate::text::strip_cr(h) == h);
    assert(crate::text::strip_all(p.drop_last()) =~= seq![h]);
    assert(lines_of(h + "\n"@ + l) =~= seq![h, l]);
    lemma_ipv4_line(h, l);
}

pub open spec fn conv_views(v: Seq<Conversation>) -> Seq<ConversationView> {
    v.map_values(|c: Conversation| c@)
}

/// Reads tshark's conversation statistics (`-z conv,...`): section headers
/// set the protocol, and each `a <-> b` line under one gives a conversation.
pub fn parse_conversations(output: &str) -> (r: Vec<Conversation>)
    ensures
        conv_views(r@) == conversations_from(lines_of(output@), Seq::<char>::empty()),
{
    let ov = chars_of(output);
    let lines = split_lines(&ov);
    let ghost ls = lines_of(output@);
    let ghost whole = conversations_from(ls, Seq::<char>::empty());
    let mut out: Vec<Conversation> = Vec::new();
    let mut proto: Vec<char> = Vec::new();
    let mut i: usize = 0;
    assert(ls.skip(0) =~= ls);
    assert(conv_views(out@) =~= Seq::<ConversationView>::empty());
    assert(proto@ =~= Seq::<char>::empty());
    assert(conv_views(out@) + whole =~= whole);
    while i < lines.len()
        invariant
            i <= lines.len(),
            views(lines@) == ls,
            conv_views(out@) + conversations_from(ls.skip(i as int), proto@) == whole,
        decreases lines.len() - i,
    {
        let ghost rest = ls.skip(i as int);
        assert(rest[0] == lines@[i as int]@);
        assert(rest.drop_first() =~= ls.skip(i + 1));
        let t = trimmed(&lines[i]);
        if contains_str(&t, "Conversations") {
            if contains_str(&t, "TCP") {
                proto = chars_of("TCP");
            } else if contains_str(&t, "UDP") {
                proto = chars_of("UDP");
            } else if contains_str(&t, "IPv4") {
                proto = chars_of("IPv4");
            }
        } else if t.len() == 0 || starts_with_str(&t, "Filter") || starts_with_str(&t, "|")
            || starts_with_str(&t, "=") || (contains_str(&t, "Frames") && contains_str(
            &t,
            "Bytes",
        )) || proto.len() == 0 || !contains_str(&t, "<->") {
        } else {
            let ts = string_of(&t);
            let ps = string_of(&proto);
            match parse_conversation_line(ts.as_str(), ps.as_str()) {
                Some(c) => {
                    let ghost before = conv_views(out@);
                    out.push(c);
                    assert(conv_views(out@) =~= before.push(c@));
                    assert(before.push(c@) + conversations_from(ls.skip(i + 1), proto@) =~= before
                        + (seq![c@] + conversations_from(ls.skip(i + 1), proto@)));
                },
                None => {},
            }
        }
        i += 1;
    }
    assert(ls.skip(lines.len() as int) =~= Seq::<Seq<char>>::empty());
    assert(conv_views(out@) + Seq::<ConversationView>::empty() =~= conv_views(out@));
    out
}

// ---------------------------------------------------------------------------
// Exporting one conversation
// ---------------------------------------------------------------------------

/// What `str::to_lowercase` returns for a text.
pub uninterp spec fn lowercase_of(s: Seq<char>) -> Seq<char>;

/// `str::to_lowercase`. Trusted: the result is what `lowercase_of` names, and
/// text made of ASCII characters only comes back with each letter lowered
/// and every other character kept. What it does to other characters is not
/// stated.
#[verifier::external_body]
fn lowercase(s: &str) -> (r: String)
    ensures
        r@ == lowercase_of(s@),
        (forall|i: int| 0 <= i < s@.len() ==> (#[trigger] s@[i] as u32) < 128) ==> r@
            == s@.map_values(|c: char| ascii_lower(c)),
{
    s.to_lowercase()
}

/// The name of an exported conversation, given its protocol already in
/// lower case: `<capture stem>_<protocol>_<number>_flow.pcap`.
pub fn flow_name_from(stem: &str, lower_protocol: &str, number: usize) -> (r: String)
    ensures
        r@ == stem@ + "_"@ + lower_protocol@ + "_"@ + dec_digits(number as nat) + "_flow.pcap"@,
{
    let mut v: Vec<char> = Vec::new();
    extend_str(&mut v, stem);
    extend_str(&mut v, "_");
    extend_str(&mut v, lower_protocol);
    extend_str(&mut v, "_");
    push_decimal(&mut v, number as u64);
    extend_str(&mut v, "_flow.pcap");
    string_of(&v)
}

/// The name of an exported conversation:
/// `<capture stem>_<protocol in lower case>_<number>_flow.pcap`.
pub fn flow_file_name(stem: &str, protocol: &str, number: usize) -> (r: String)
    ensures
        r@ == stem@ + "_"@ + lowercase_of(protocol@) + "_"@ + dec_digits(number as nat)
            + "_flow.pcap"@,
{
    let lower = lowercase(protocol);
    flow_name_from(stem, lower.as_str(), number)
}

/// The message for a conversation number outside the listing.
pub open spec fn bad_number_message(number: usize, count: usize) -> Seq<char> {
    "Invalid conversation index "@ + dec_digits(number as nat) + ". Valid range: 1-"@
        + dec_digits(count as nat)
}

/// The position in the listing of the conversation numbered `number`
/// (counting from 1), or the error for a number outside `1..=count`.
pub fn export_position(number: usize, count: usize) -> (r: Result<usize, String>)
    ensures
        (1 <= number <= count) ==> r == Ok::<usize, String>((number - 1) as usize),
        !(1 <= number <= count) ==> (r matches Err(m) && m@ == bad_number_message(number, count)),
{
    if number == 0 || number > count {
        let mut v: Vec<char> = Vec::new();
        extend_str(&mut v, "Invalid conversation index ");
        push_decimal(&mut v, number as u64);
        extend_str(&mut v, ". Valid range: 1-");
        push_decimal(&mut v, count as u64);
        Err(string_of(&v))
    } else {
        Ok(number - 1)
    }
}

} // verus!
