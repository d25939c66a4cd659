use vstd::prelude::*;
use vstd::arithmetic::power2::{pow2, lemma2_to64, lemma_pow2_pos, lemma_pow2_adds};
use vstd::bits::lemma_u64_shl_is_mul;
use crate::text::{chars_of, string_of, split_on, split_char, parse_unsigned, parse_unsigned_spec, dec_digits, push_decimal, extend_str, trim, trimmed, lemma_split_concat, lemma_split_single, lemma_dec_digits_no_char, lemma_dec_digits_parse, parsed_values, parse_all};

verus! {

/// Why a subnet could not be computed or a CIDR text read.
#[derive(Clone, Debug)]
pub enum SubnetError {
    /// The prefix length is above 32.
    PrefixTooLarge(u8),
    /// The address does not hold four octets.
    InvalidIp(String),
    /// The text does not hold exactly one `/`.
    InvalidNotation(String),
    /// The text after `/` is no number in `0..=255`.
    InvalidPrefix(String),
}

impl SubnetError {
    /// The text of the error, as the calculator reports it.
    pub open spec fn message_spec(self) -> Seq<char> {
        match self {
            SubnetError::PrefixTooLarge(c) => "CIDR prefix must be 0-32, got "@ + dec_digits(c as nat),
            SubnetError::InvalidIp(ip) => "Invalid IP address: "@ + ip@,
            SubnetError::InvalidNotation(t) => "Invalid CIDR notation: "@ + t@
                + ". Expected format: X.X.X.X/N"@,
            SubnetError::InvalidPrefix(p) => "Invalid CIDR prefix: "@ + p@,
        }
    }

    pub fn message(&self) -> (r: String)
        ensures
            r@ == self.message_spec(),
    {
        let mut v: Vec<char> = Vec::new();
        match self {
            SubnetError::PrefixTooLarge(c) => {
                extend_str(&mut v, "CIDR prefix must be 0-32, got ");
                push_decimal(&mut v, *c as u64);
            },
            SubnetError::InvalidIp(ip) => {
                extend_str(&mut v, "Invalid IP address: ");
                extend_str(&mut v, ip.as_str());
            },
            SubnetError::InvalidNotation(t) => {
                extend_str(&mut v, "Invalid CIDR notation: ");
                extend_str(&mut v, t.as_str());
                extend_str(&mut v, ". Expected format: X.X.X.X/N");
            },
            SubnetError::InvalidPrefix(p) => {
                extend_str(&mut v, "Invalid CIDR prefix: ");
                extend_str(&mut v, p.as_str());
            },
        }
        string_of(&v)
    }
}

/// Everything the calculator reports about one IPv4 subnet.
#[derive(Clone, Debug)]
pub struct SubnetInfo {
    pub input_ip: String,
    pub cidr: u8,
    pub network: String,
    pub broadcast: String,
    pub subnet_mask: String,
    pub wildcard_mask: String,
    pub first_host: String,
    pub last_host: String,
    pub total_hosts: u64,
    pub usable_hosts: u64,
    pub ip_class: String,
    pub ip_type: String,
    pub binary_network: String,
    pub binary_mask: String,
    pub binary_broadcast: String,
}

// ---------------------------------------------------------------------------
// The model
// ---------------------------------------------------------------------------

/// The values of the pieces that read as octets, in order; the others are skipped.
pub open spec fn octet_values(pieces: Seq<Seq<char>>) -> Seq<nat> {
    parsed_values(pieces, 255)
}

/// The 32-bit value of a dotted address: the `.`-separated pieces that read
/// as octets must be exactly four.
pub open spec fn ip_value(ip: Seq<char>) -> Option<nat> {
    let o = octet_values(split_char(ip, '.'));
    if o.len() == 4 {
        Some(o[0] * 0x1000000 + o[1] * 0x10000 + o[2] * 0x100 + o[3])
    } else {
        None
    }
}

/// Octet `k` (0 is the most significant) of a 32-bit value.
pub open spec fn octet(n: nat, k: nat) -> nat {
    if k == 0 {
        n / 0x1000000 % 256
    } else if k == 1 {
        n / 0x10000 % 256
    } else if k == 2 {
        n / 0x100 % 256
    } else {
        n % 256
    }
}

/// Dotted-decimal text of a 32-bit value.
pub open spec fn ip_text(n: nat) -> Seq<char> {
    dec_digits(octet(n, 0)) + seq!['.'] + dec_digits(octet(n, 1)) + seq!['.'] + dec_digits(
        octet(n, 2),
    ) + seq!['.'] + dec_digits(octet(n, 3))
}

/// The `w` lowest bits of `x`, most significant first, as `0`/`1` characters.
pub open spec fn bits(x: nat, w: nat) -> Seq<char>
    decreases w,
{
    if w == 0 {
        Seq::<char>::empty()
    } else {
        bits(x / 2, (w - 1) as nat).push(if x % 2 == 1 { '1' } else { '0' })
    }
}

/// Dotted binary text, eight digits per octet.
pub open spec fn binary_text(n: nat) -> Seq<char> {
    bits(octet(n, 0), 8) + seq!['.'] + bits(octet(n, 1), 8) + seq!['.'] + bits(octet(n, 2), 8)
        + seq!['.'] + bits(octet(n, 3), 8)
}

pub open spec fn class_name(first: nat) -> Seq<char> {
    if first <= 127 {
        "Class A"@
    } else if first <= 191 {
        "Class B"@
    } else if first <= 223 {
        "Class C"@
    } else if first <= 239 {
        "Class D (Multicast)"@
    } else {
        "Class E (Reserved)"@
    }
}

pub open spec fn kind_name(n: nat) -> Seq<char> {
    let a = octet(n, 0);
    let b = octet(n, 1);
    if a == 10 || (a == 172 && 16 <= b <= 31) || (a == 192 && b == 168) {
        "Private (RFC 1918)"@
    } else if a == 127 {
        "Loopback"@
    } else if a == 169 && b == 254 {
        "Link-Local (APIPA)"@
    } else if 224 <= a <= 239 {
        "Multicast"@
    } else if a >= 240 {
        "Reserved"@
    } else {
        "Public"@
    }
}

/// The number of addresses in a subnet with this prefix length.
pub open spec fn block_size(cidr: nat) -> nat {
    pow2((32 - cidr) as nat)
}

pub open spec fn network_of(n: nat, cidr: nat) -> nat {
    (n - n % block_size(cidr)) as nat
}

pub open spec fn broadcast_of(n: nat, cidr: nat) -> nat {
    (network_of(n, cidr) + block_size(cidr) - 1) as nat
}

pub open spec fn mask_of(cidr: nat) -> nat {
    (0x1_0000_0000 - block_size(cidr)) as nat
}

pub open spec fn wildcard_of(cidr: nat) -> nat {
    (block_size(cidr) - 1) as nat
}

pub open spec fn usable_of(cidr: nat) -> nat {
    if cidr == 32 {
        1
    } else if cidr == 31 {
        2
    } else {
        (block_size(cidr) - 2) as nat
    }
}

pub open spec fn first_host_of(n: nat, cidr: nat) -> nat {
    if cidr >= 31 {
        network_of(n, cidr)
    } else {
        network_of(n, cidr) + 1
    }
}

pub open spec fn last_host_of(n: nat, cidr: nat) -> nat {
    if cidr == 32 {
        network_of(n, cidr)
    } else if cidr == 31 {
        broadcast_of(n, cidr)
    } else {
        (broadcast_of(n, cidr) - 1) as nat
    }
}

/// `info` describes the subnet of prefix `cidr` around the address `n`,
/// whose text was `ip`.
pub open spec fn describes(info: SubnetInfo, ip: Seq<char>, cidr: u8, n: nat) -> bool {
    let c = cidr as nat;
    &&& info.input_ip@ == ip
    &&& info.cidr == cidr
    &&& info.network@ == ip_text(network_of(n, c))
    &&& info.broadcast@ == ip_text(broadcast_of(n, c))
    &&& info.subnet_mask@ == ip_text(mask_of(c))
    &&& info.wildcard_mask@ == ip_text(wildcard_of(c))
    &&& info.first_host@ == ip_text(first_host_of(n, c))
    &&& info.last_host@ == ip_text(last_host_of(n, c))
    &&& info.total_hosts == block_size(c)
    &&& info.usable_hosts == usable_of(c)
    &&& info.ip_class@ == class_name(octet(n, 0))
    &&& info.ip_type@ == kind_name(n)
    &&& info.binary_network@ == binary_text(network_of(n, c))
    &&& info.binary_mask@ == binary_text(mask_of(c))
    &&& info.binary_broadcast@ == binary_text(broadcast_of(n, c))
}

// ---------------------------------------------------------------------------
// Arithmetic facts
// ---------------------------------------------------------------------------

pub proof fn lemma_block(cidr: nat)
    requires
        cidr <= 32,
    ensures
        1 <= block_size(cidr) <= 0x1_0000_0000,
        block_size(cidr) * pow2(cidr) == 0x1_0000_0000,
        cidr == 32 ==> block_size(cidr) == 1,
        cidr == 31 ==> block_size(cidr) == 2,
        cidr <= 30 ==> block_size(cidr) >= 4,
{
    lemma2_to64();
    lemma_pow2_pos((32 - cidr) as nat);
    lemma_pow2_pos(cidr);
    lemma_pow2_adds((32 - cidr) as nat, cidr);
    assert(((32 - cidr) as nat + cidr) as nat == 32);
    if cidr <= 30 {
        lemma_pow2_adds(2, (30 - cidr) as nat);
        assert((2 + (30 - cidr) as nat) as nat == (32 - cidr) as nat);
        assert(pow2(2) == 4);
        assert(pow2((30 - cidr) as nat) >= 1) by {
            lemma_pow2_pos((30 - cidr) as nat);
        }
        assert(block_size(cidr) >= 4) by (nonlinear_arith)
            requires
                block_size(cidr) == 4 * pow2((30 - cidr) as nat),
                pow2((30 - cidr) as nat) >= 1,
        {
        }
    }
    assert(block_size(cidr) <= 0x1_0000_0000) by (nonlinear_arith)
        requires
            block_size(cidr) * pow2(cidr) == 0x1_0000_0000,
            pow2(cidr) >= 1,
            block_size(cidr) >= 1,
    {
    }
}

/// The network address is the address with its host bits cleared; the
/// broadcast address has them all set, and both stay below 2^32.
pub proof fn lemma_subnet_bounds(n: nat, cidr: nat)
    requires
        n < 0x1_0000_0000,
        cidr <= 32,
    ensures
        network_of(n, cidr) <= n <= broadcast_of(n, cidr) < 0x1_0000_0000,
        network_of(n, cidr) % block_size(cidr) == 0,
        n % block_size(cidr) <= n,
        broadcast_of(n, cidr) == network_of(n, cidr) + block_size(cidr) - 1,
        mask_of(cidr) < 0x1_0000_0000,
{
    lemma_block(cidr);
    let b = block_size(cidr);
    let p = pow2(cidr);
    assert(n % b < b) by (nonlinear_arith)
        requires b >= 1,
    {
    }
    assert(n == b * (n / b) + n % b) by (nonlinear_arith)
        requires b >= 1,
    {
    }
    assert(b * (n / b) >= 0) by (nonlinear_arith)
        requires b >= 1,
    {
    }
    assert(network_of(n, cidr) == b * (n / b));
    assert((b * (n / b)) % b == 0) by (nonlinear_arith)
        requires b >= 1,
    {
    }
    assert(n / b < p) by (nonlinear_arith)
        requires n < b * p, b >= 1, n == b * (n / b) + n % b, n % b >= 0,
    {
    }
    assert(b * (n / b) + b <= b * p) by (nonlinear_arith)
        requires n / b < p, b >= 1,
    {
    }
}

/// The prefix mask as a 32-bit pattern: `cidr` one bits, then zero bits.
pub open spec fn mask_bits(cidr: nat) -> u32 {
    if cidr == 0 {
        0
    } else {
        0xFFFF_FFFFu32 << ((32 - cidr) as u32)
    }
}

/// The subnet numbers are the bit-mask formulas: the network is the address
/// AND the mask, the broadcast is the address OR the inverted mask, the
/// wildcard is the inverted mask, and the subnet holds `1 << (32 - cidr)`
/// addresses.
pub proof fn lemma_mask_formulas(n: u32, cidr: nat)
    requires
        cidr <= 32,
    ensures
        network_of(n as nat, cidr) == (n & mask_bits(cidr)),
        broadcast_of(n as nat, cidr) == (n | !mask_bits(cidr)),
        mask_of(cidr) == mask_bits(cidr),
        wildcard_of(cidr) == !mask_bits(cidr),
        block_size(cidr) == (1u64 << ((32 - cidr) as u64)),
{
    lemma_block(cidr);
    lemma_subnet_bounds(n as nat, cidr);
    let s64 = (32 - cidr) as u64;
    lemma_u64_shl_is_mul(1, s64);
    assert(block_size(cidr) == (1u64 << s64));
    if cidr == 0 {
        lemma2_to64();
        assert(block_size(0) == 0x1_0000_0000);
        assert((n as nat) % 0x1_0000_0000 == n as nat);
        assert(n & 0u32 == 0u32) by (bit_vector);
        assert(n | !0u32 == 0xFFFF_FFFFu32) by (bit_vector);
        assert(!0u32 == 0xFFFF_FFFFu32) by (bit_vector);
    } else {
        let s = (32 - cidr) as u32;
        let m = 0xFFFF_FFFFu32 << s;
        assert(!m == ((1u32 << s) - 1) as u32) by (bit_vector)
            requires s < 32, m == 0xFFFF_FFFFu32 << s,
        ;
        assert((n & m) as int + (n & !m) as int == n as int) by (bit_vector);
        assert((n | !m) as int == (n & m) as int + (!m) as int) by (bit_vector);
        assert(m as int == 0x1_0000_0000 - (!m) as int - 1) by (bit_vector);
        lemma2_to64();
        vstd::arithmetic::power2::lemma_pow2_strictly_increases(s as nat, 32);
        vstd::bits::lemma_u32_shl_is_mul(1, s);
        assert((1u32 << s) == pow2(s as nat));
        vstd::bits::lemma_u32_low_bits_mask_is_mod(n, s as nat);
        assert(vstd::bits::low_bits_mask(s as nat) == pow2(s as nat) - 1);
        assert(n & !m == n % (pow2(s as nat) as u32));
    }
}

/// The blocks of addresses by value: 10.0.0.0/8, 172.16.0.0/12 and
/// 192.168.0.0/16 are private (RFC 1918) and nothing else is; 127.0.0.0/8 is
/// loopback, 169.254.0.0/16 link-local, 224.0.0.0/4 multicast and
/// 240.0.0.0/4 reserved; every other address is public.
pub proof fn lemma_kind_blocks(n: nat)
    requires
        n < 0x1_0000_0000,
    ensures
        kind_name(n) == "Private (RFC 1918)"@ <==> (0x0A00_0000 <= n < 0x0B00_0000 || 0xAC10_0000 <= n
            < 0xAC20_0000 || 0xC0A8_0000 <= n < 0xC0A9_0000),
        0x7F00_0000 <= n < 0x8000_0000 ==> kind_name(n) == "Loopback"@,
        0xA9FE_0000 <= n < 0xA9FF_0000 ==> kind_name(n) == "Link-Local (APIPA)"@,
        0xE000_0000 <= n < 0xF000_0000 ==> kind_name(n) == "Multicast"@,
        0xF000_0000 <= n ==> kind_name(n) == "Reserved"@,
        kind_name(n) == "Public"@ <==> !(0x0A00_0000 <= n < 0x0B00_0000 || 0xAC10_0000 <= n < 0xAC20_0000
            || 0xC0A8_0000 <= n < 0xC0A9_0000 || 0x7F00_0000 <= n < 0x8000_0000 || 0xA9FE_0000 <= n
            < 0xA9FF_0000 || 0xE000_0000 <= n),
{
    reveal_strlit("Private (RFC 1918)");
    reveal_strlit("Loopback");
    reveal_strlit("Link-Local (APIPA)");
    reveal_strlit("Multicast");
    reveal_strlit("Reserved");
    reveal_strlit("Public");
    let a = octet(n, 0);
    let b = octet(n, 1);
    assert(a == n / 0x100_0000);
    assert(b == (n / 0x1_0000) % 256);
    assert(n / 0x1_0000 == a * 256 + b) by (nonlinear_arith)
        requires a == n / 0x100_0000, b == (n / 0x1_0000) % 256, n < 0x1_0000_0000,
    ;
    assert(a * 0x100_0000 + b * 0x1_0000 <= n < a * 0x100_0000 + b * 0x1_0000 + 0x1_0000) by (nonlinear_arith)
        requires n / 0x1_0000 == a * 256 + b,
    ;
    assert(a < 256 && b < 256);
    assert("Private (RFC 1918)"@.len() == 18 && "Loopback"@.len() == 8 && "Link-Local (APIPA)"@.len() == 18
        && "Multicast"@.len() == 9 && "Reserved"@.len() == 8 && "Public"@.len() == 6);
    assert("Private (RFC 1918)"@[0] != "Link-Local (APIPA)"@[0]);
    assert("Loopback"@[0] != "Reserved"@[0]);
}

/// Every dotted address `10.b.c.d` reads as an address whose kind is
/// private (RFC 1918), as do `172.x.c.d` for `x` in 16..=31 and `192.168.c.d`.
pub proof fn lemma_private_texts(a: u8, b: u8, c: u8, d: u8)
    requires
        a == 10 || (a == 172 && 16 <= b <= 31) || (a == 192 && b == 168),
    ensures
        ip_value(octets_text(a, b, c, d)) matches Some(n) && kind_name(n) == "Private (RFC 1918)"@,
{
    lemma_octets_text_roundtrip(a, b, c, d);
    let n = octets_value(a, b, c, d);
    lemma_kind_blocks(n);
}

/// Reading the dotted-decimal text of an address gives the address back.
pub proof fn lemma_ip_text_roundtrip(n: u32)
    ensures
        ip_value(ip_text(n as nat)) == Some(n as nat),
{
    let m = n as nat;
    let d0 = dec_digits(octet(m, 0));
    let d1 = dec_digits(octet(m, 1));
    let d2 = dec_digits(octet(m, 2));
    let d3 = dec_digits(octet(m, 3));
    lemma_dec_digits_no_char(octet(m, 0), '.');
    lemma_dec_digits_no_char(octet(m, 1), '.');
    lemma_dec_digits_no_char(octet(m, 2), '.');
    lemma_dec_digits_no_char(octet(m, 3), '.');
    lemma_split_single(d0, '.');
    lemma_split_single(d1, '.');
    lemma_split_single(d2, '.');
    lemma_split_single(d3, '.');
    lemma_split_concat(d0, d1, '.');
    lemma_split_concat(d0 + seq!['.'] + d1, d2, '.');
    lemma_split_concat(d0 + seq!['.'] + d1 + seq!['.'] + d2, d3, '.');
    let ps = split_char(ip_text(m), '.');
    assert(ps =~= seq![d0, d1, d2, d3]);
    lemma_dec_digits_parse(octet(m, 0), 255);
    lemma_dec_digits_parse(octet(m, 1), 255);
    lemma_dec_digits_parse(octet(m, 2), 255);
    lemma_dec_digits_parse(octet(m, 3), 255);
    assert(ps.drop_last() =~= seq![d0, d1, d2]);
    assert(ps.drop_last().drop_last() =~= seq![d0, d1]);
    assert(ps.drop_last().drop_last().drop_last() =~= seq![d0]);
    assert(ps.drop_last().drop_last().drop_last().drop_last() =~= Seq::<Seq<char>>::empty());
    assert(seq![d0].drop_last() =~= Seq::<Seq<char>>::empty());
    assert(seq![d0, d1].drop_last() =~= seq![d0]);
    assert(seq![d0, d1, d2].drop_last() =~= seq![d0, d1]);
    assert(seq![d0, d1, d2, d3].drop_last() =~= seq![d0, d1, d2]);
    assert(octet_values(Seq::<Seq<char>>::empty()) =~= Seq::<nat>::empty());
    assert(seq![d0].last() == d0);
    assert(parse_unsigned_spec(d0, 255) == Some(octet(m, 0)));
    assert(octet_values(seq![d0]) =~= seq![octet(m, 0)]);
    assert(octet_values(seq![d0, d1]) =~= seq![octet(m, 0), octet(m, 1)]);
    assert(octet_values(seq![d0, d1, d2]) =~= seq![octet(m, 0), octet(m, 1), octet(m, 2)]);
    let o = octet_values(ps);
    assert(o =~= seq![octet(m, 0), octet(m, 1), octet(m, 2), octet(m, 3)]);
    assert(((n / 0x1000000) % 256) * 0x1000000 + ((n / 0x10000) % 256) * 0x10000 + ((n / 0x100)
        % 256) * 0x100 + n % 256 == n) by (bit_vector);
}

/// Dotted-decimal text written from four octets.
pub open spec fn octets_text(a: u8, b: u8, c: u8, d: u8) -> Seq<char> {
    dec_digits(a as nat) + seq!['.'] + dec_digits(b as nat) + seq!['.'] + dec_digits(c as nat)
        + seq!['.'] + dec_digits(d as nat)
}

/// The address of four octets, most significant first.
pub open spec fn octets_value(a: u8, b: u8, c: u8, d: u8) -> nat {
    a as nat * 0x1000000 + b as nat * 0x10000 + c as nat * 0x100 + d as nat
}

/// Text written from four octets reads back as their address, and that
/// address prints as the same text.
pub proof fn lemma_octets_text_roundtrip(a: u8, b: u8, c: u8, d: u8)
    ensures
        ip_value(octets_text(a, b, c, d)) == Some(octets_value(a, b, c, d)),
        ip_text(octets_value(a, b, c, d)) == octets_text(a, b, c, d),
{
    let n = octets_value(a, b, c, d);
    assert(n < 0x1_0000_0000);
    let m: u32 = n as u32;
    assert(m as nat == n);
    assert(m / 0x1000000 % 256 == a as u32) by (bit_vector)
        requires
            m == a as u32 * 0x1000000 + b as u32 * 0x10000 + c as u32 * 0x100 + d as u32,
    ;
    assert(m / 0x10000 % 256 == b as u32) by (bit_vector)
        requires
            m == a as u32 * 0x1000000 + b as u32 * 0x10000 + c as u32 * 0x100 + d as u32,
    ;
    assert(m / 0x100 % 256 == c as u32) by (bit_vector)
        requires
            m == a as u32 * 0x1000000 + b as u32 * 0x10000 + c as u32 * 0x100 + d as u32,
    ;
    assert(m % 256 == d as u32) by (bit_vector)
        requires
            m == a as u32 * 0x1000000 + b as u32 * 0x10000 + c as u32 * 0x100 + d as u32,
    ;
    assert(octet(n, 0) == a as nat);
    assert(octet(n, 1) == b as nat);
    assert(octet(n, 2) == c as nat);
    assert(octet(n, 3) == d as nat);
    assert(ip_text(n) =~= octets_text(a, b, c, d));
    lemma_ip_text_roundtrip(m);
}

/// The subnet of a network address is the same subnet: the network and
/// broadcast addresses computed from it are unchanged.
pub proof fn lemma_network_fixed(n: nat, cidr: nat)
    requires
        n < 0x1_0000_0000,
        cidr <= 32,
    ensures
        network_of(network_of(n, cidr), cidr) == network_of(n, cidr),
        broadcast_of(network_of(n, cidr), cidr) == broadcast_of(n, cidr),
{
    lemma_subnet_bounds(n, cidr);
}

/// The usable hosts are exactly the addresses from the first host to the last
/// host, all within the subnet, and the subnet holds `total_hosts` addresses.
pub proof fn lemma_host_range(n: nat, cidr: nat)
    requires
        n < 0x1_0000_0000,
        cidr <= 32,
    ensures
        network_of(n, cidr) <= first_host_of(n, cidr) <= last_host_of(n, cidr) <= broadcast_of(
            n,
            cidr,
        ),
        usable_of(cidr) == last_host_of(n, cidr) - first_host_of(n, cidr) + 1,
        block_size(cidr) == broadcast_of(n, cidr) - network_of(n, cidr) + 1,
        mask_of(cidr) + wildcard_of(cidr) == 0xFFFF_FFFF,
{
    lemma_block(cidr);
    lemma_subnet_bounds(n, cidr);
}

// ---------------------------------------------------------------------------
// Address text
// ---------------------------------------------------------------------------

/// The 32-bit value of a dotted IPv4 address.
pub fn ip_to_u32(ip: &str) -> (r: Option<u32>)
    ensures
        r matches Some(v) ==> ip_value(ip@) == Some(v as nat),
        r is None ==> ip_value(ip@) is None,
{
    let v = chars_of(ip);
    let pieces = split_on(&v, '.');
    let octets = parse_all(&pieces, 255);
    if octets.len() != 4 {
        return None;
    }
    let a = octets[0];
    let b = octets[1];
    let c = octets[2];
    let d = octets[3];
    assert(octets@.map_values(|x: u64| x as nat)[0] == a as nat);
    assert(octets@.map_values(|x: u64| x as nat)[1] == b as nat);
    assert(octets@.map_values(|x: u64| x as nat)[2] == c as nat);
    assert(octets@.map_values(|x: u64| x as nat)[3] == d as nat);
    assert(a * 0x1000000 + b * 0x10000 + c * 0x100 + d <= 0xFFFF_FFFF) by (nonlinear_arith)
        requires a <= 255, b <= 255, c <= 255, d <= 255,
    {
    }
    let n = a * 0x1000000 + b * 0x10000 + c * 0x100 + d;
    Some(n as u32)
}

/// Appends the dotted-decimal text of `n`.
fn push_ip(out: &mut Vec<char>, n: u32)
    ensures
        final(out)@ == old(out)@ + ip_text(n as nat),
{
    push_decimal(out, (n / 0x1000000 % 256) as u64);
    out.push('.');
    push_decimal(out, (n / 0x10000 % 256) as u64);
    out.push('.');
    push_decimal(out, (n / 0x100 % 256) as u64);
    out.push('.');
    push_decimal(out, (n % 256) as u64);
    assert(final(out)@ =~= old(out)@ + ip_text(n as nat));
}

/// Dotted-decimal text of a 32-bit address.
pub fn u32_to_ip(n: u32) -> (r: String)
    ensures
        r@ == ip_text(n as nat),
{
    let mut v: Vec<char> = Vec::new();
    push_ip(&mut v, n);
    assert(v@ =~= ip_text(n as nat));
    string_of(&v)
}

fn push_bits(out: &mut Vec<char>, x: u64, w: u64)
    ensures
        final(out)@ == old(out)@ + bits(x as nat, w as nat),
    decreases w,
{
    if w > 0 {
        push_bits(out, x / 2, w - 1);
        out.push(if x % 2 == 1 { '1' } else { '0' });
    }
    assert(final(out)@ =~= old(out)@ + bits(x as nat, w as nat));
}

/// Dotted binary text of a 32-bit address (`{:08b}` per octet).
pub fn u32_to_binary(n: u32) -> (r: String)
    ensures
        r@ == binary_text(n as nat),
{
    let mut v: Vec<char> = Vec::new();
    push_bits(&mut v, (n / 0x1000000 % 256) as u64, 8);
    v.push('.');
    push_bits(&mut v, (n / 0x10000 % 256) as u64, 8);
    v.push('.');
    push_bits(&mut v, (n / 0x100 % 256) as u64, 8);
    v.push('.');
    push_bits(&mut v, (n % 256) as u64, 8);
    assert(v@ =~= binary_text(n as nat));
    string_of(&v)
}

/// The classful network class of an address, from its first octet.
pub fn ip_class(first_octet: u8) -> (r: &'static str)
    ensures
        r@ == class_name(first_octet as nat),
{
    if first_octet <= 127 {
        "Class A"
    } else if first_octet <= 191 {
        "Class B"
    } else if first_octet <= 223 {
        "Class C"
    } else if first_octet <= 239 {
        "Class D (Multicast)"
    } else {
        "Class E (Reserved)"
    }
}

/// The kind of address: private, loopback, link-local, multicast, reserved or public.
pub fn ip_type(ip_num: u32) -> (r: &'static str)
    ensures
        r@ == kind_name(ip_num as nat),
        r@ == "Private (RFC 1918)"@ <==> (0x0A00_0000 <= ip_num < 0x0B00_0000 || 0xAC10_0000 <= ip_num
            < 0xAC20_0000 || 0xC0A8_0000 <= ip_num < 0xC0A9_0000),
        r@ == "Public"@ <==> !(0x0A00_0000 <= ip_num < 0x0B00_0000 || 0xAC10_0000 <= ip_num < 0xAC20_0000
            || 0xC0A8_0000 <= ip_num < 0xC0A9_0000 || 0x7F00_0000 <= ip_num < 0x8000_0000 || 0xA9FE_0000
            <= ip_num < 0xA9FF_0000 || 0xE000_0000 <= ip_num),
{
    proof {
        lemma_kind_blocks(ip_num as nat);
    }
    let a = ip_num / 0x1000000 % 256;
    let b = ip_num / 0x10000 % 256;
    if a == 10 {
        return "Private (RFC 1918)";
    }
    if a == 172 && 16 <= b && b <= 31 {
        return "Private (RFC 1918)";
    }
    if a == 192 && b == 168 {
        return "Private (RFC 1918)";
    }
    if a == 127 {
        return "Loopback";
    }
    if a == 169 && b == 254 {
        return "Link-Local (APIPA)";
    }
    if a >= 224 && a <= 239 {
        return "Multicast";
    }
    if a >= 240 {
        return "Reserved";
    }
    "Public"
}

// ---------------------------------------------------------------------------
// The calculator
// ---------------------------------------------------------------------------

/// Network, broadcast, mask, wildcard, block size, usable count, first and
/// last host of the subnet of prefix `cidr` around `ip_num`.
fn subnet_numbers(ip_num: u32, cidr: u8) -> (r: (u32, u32, u32, u32, u64, u64, u32, u32))
    requires
        cidr <= 32,
    ensures
        r.0 == network_of(ip_num as nat, cidr as nat),
        r.1 == broadcast_of(ip_num as nat, cidr as nat),
        r.2 == mask_of(cidr as nat),
        r.3 == wildcard_of(cidr as nat),
        r.4 == block_size(cidr as nat),
        r.5 == usable_of(cidr as nat),
        r.6 == first_host_of(ip_num as nat, cidr as nat),
        r.7 == last_host_of(ip_num as nat, cidr as nat),
{
    let ghost n = ip_num as nat;
    let ghost c = cidr as nat;
    proof {
        lemma_block(c);
        lemma_subnet_bounds(n, c);
        lemma_u64_shl_is_mul(1, (32 - cidr) as u64);
    }
    let block: u64 = 1u64 << (32 - cidr) as u64;
    assert(block == block_size(c));
    let ip64 = ip_num as u64;
    let rem = ip64 % block;
    assert(rem == n % block_size(c));
    let network = ip64 - rem;
    let broadcast = network + block - 1;
    let mask = 0x1_0000_0000u64 - block;
    let wildcard = block - 1;
    let (usable_hosts, first_host, last_host) = if cidr == 32 {
        (1u64, network, network)
    } else if cidr == 31 {
        (2u64, network, broadcast)
    } else {
        (block - 2, network + 1, broadcast - 1)
    };
    (
        network as u32,
        broadcast as u32,
        mask as u32,
        wildcard as u32,
        block,
        usable_hosts,
        first_host as u32,
        last_host as u32,
    )
}

/// Computes the subnet of prefix `cidr` around the address `ip`.
pub fn calculate(ip: &str, cidr: u8) -> (r: Result<SubnetInfo, SubnetError>)
    ensures
        r is Ok <==> (cidr <= 32 && ip_value(ip@) is Some),
        r matches Ok(info) ==> describes(info, ip@, cidr, ip_value(ip@)->0),
        cidr > 32 ==> (r matches Err(SubnetError::PrefixTooLarge(c)) && c == cidr),
        cidr <= 32 && ip_value(ip@) is None ==> (r matches Err(SubnetError::InvalidIp(s))
            && s@ == ip@),
{
    if cidr > 32 {
        return Err(SubnetError::PrefixTooLarge(cidr));
    }
    let ip_num = match ip_to_u32(ip) {
        Some(n) => n,
        None => {
            let s = string_of(&chars_of(ip));
            return Err(SubnetError::InvalidIp(s));
        },
    };
    let (network, broadcast, mask, wildcard, total_hosts, usable_hosts, first_host, last_host) =
        subnet_numbers(ip_num, cidr);
    let first_octet = (ip_num / 0x1000000) as u8;
    assert(first_octet as nat == octet(ip_num as nat, 0));
    let input_ip = string_of(&chars_of(ip));
    let class_text = string_of(&chars_of(ip_class(first_octet)));
    let kind_text = string_of(&chars_of(ip_type(ip_num)));
    let info = SubnetInfo {
        input_ip,
        cidr,
        network: u32_to_ip(network),
        broadcast: u32_to_ip(broadcast),
        subnet_mask: u32_to_ip(mask),
        wildcard_mask: u32_to_ip(wildcard),
        first_host: u32_to_ip(first_host),
        last_host: u32_to_ip(last_host),
        total_hosts,
        usable_hosts,
        ip_class: class_text,
        ip_type: kind_text,
        binary_network: u32_to_binary(network),
        binary_mask: u32_to_binary(mask),
        binary_broadcast: u32_to_binary(broadcast),
    };
    Ok(info)
}

/// The address and the prefix length of a text such as `192.168.1.0/24`.
pub open spec fn cidr_spec(input: Seq<char>) -> Option<(Seq<char>, nat)> {
    let parts = split_char(input, '/');
    if parts.len() != 2 {
        None
    } else {
        match parse_unsigned_spec(trim(parts[1]), 255) {
            Some(v) => Some((trim(parts[0]), v)),
            None => None,
        }
    }
}

/// Reads CIDR notation: exactly one `/`, the address before it and a `u8`
/// prefix length after it, both trimmed.
pub fn parse_cidr(input: &str) -> (r: Result<(String, u8), SubnetError>)
    ensures
        r is Ok <==> cidr_spec(input@) is Some,
        r matches Ok((ip, c)) ==> cidr_spec(input@) == Some((ip@, c as nat)),
        split_char(input@, '/').len() != 2 ==> (r matches Err(SubnetError::InvalidNotation(s))
            && s@ == input@),
        split_char(input@, '/').len() == 2 && cidr_spec(input@) is None ==> (r matches Err(
            SubnetError::InvalidPrefix(s),
        ) && s@ == split_char(input@, '/')[1]),
{
    let v = chars_of(input);
    let parts = split_on(&v, '/');
    if parts.len() != 2 {
        return Err(SubnetError::InvalidNotation(string_of(&v)));
    }
    assert(parts@[0]@ == split_char(input@, '/')[0]);
    assert(parts@[1]@ == split_char(input@, '/')[1]);
    let ip = trimmed(&parts[0]);
    let prefix = trimmed(&parts[1]);
    match parse_unsigned(&prefix, 255) {
        Some(c) => Ok((string_of(&ip), c as u8)),
        None => Err(SubnetError::InvalidPrefix(string_of(&parts[1]))),
    }
}

} // verus!
