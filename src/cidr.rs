use vstd::arithmetic::power2::*;
use vstd::prelude::*;
use vstd::string::*;

use crate::text::{all_digits, chars_of, decimal_value, parse_unsigned, piece_spans, pieces, spans_view, unsigned_digits, unsigned_value};

verus! {

/// A host address: an IPv4 address as its 32-bit number, or an IPv6 address
/// as its 128-bit number.
#[derive(Clone, Copy, Debug, PartialEq, Eq, Structural)]
pub enum IpAddress {
    V4(u32),
    V6(u128),
}

/// Why a target cannot be expanded into hosts.
#[derive(Clone, Copy, Debug, PartialEq, Eq, Structural)]
pub enum TargetError {
    /// A target without `/` that is no IP address.
    InvalidTarget,
    /// The part before `/` is no IP address.
    InvalidAddress,
    /// The part after `/` is no unsigned 32-bit number.
    MalformedPrefix,
    /// The prefix length is above 32.
    InvalidPrefix,
    /// The prefix length is below 16: the block would hold too many hosts.
    PrefixTooBroad,
    /// An IPv6 address with a prefix: blocks are only expanded for IPv4.
    UnsupportedAddressFamily,
}

/// The shortest prefix length that is expanded.
pub const MIN_PREFIX: u32 = 16;

/// The value of one dotted-decimal octet: one to three digits, no leading zero,
/// at most 255.
pub open spec fn octet_value(p: Seq<char>) -> Option<nat> {
    if 1 <= p.len() <= 3 && all_digits(p) && (p.len() == 1 || p[0] != '0') && decimal_value(p)
        <= 255 {
        Some(decimal_value(p))
    } else {
        None
    }
}

/// The IPv4 address that `s` writes in dotted-decimal form (four octets), if any.
pub open spec fn ipv4_of(s: Seq<char>) -> Option<u32> {
    let parts = pieces(s, '.');
    if parts.len() == 4 && forall|k: int| 0 <= k < 4 ==> (#[trigger] octet_value(parts[k])) is Some {
        Some(
            (octet_value(parts[0])->0 * 16777216 + octet_value(parts[1])->0 * 65536 + octet_value(
                parts[2],
            )->0 * 256 + octet_value(parts[3])->0) as u32,
        )
    } else {
        None
    }
}

/// Reads `t[from..to]` as one octet.
fn parse_octet(t: &Vec<char>, from: usize, to: usize) -> (r: Option<u32>)
    requires
        from <= to <= t@.len(),
    ensures
        r is Some <==> octet_value(t@.subrange(from as int, to as int)) is Some,
        r is Some ==> r->0 as nat == octet_value(t@.subrange(from as int, to as int))->0,
{
    let ghost p = t@.subrange(from as int, to as int);
    if to - from < 1 || to - from > 3 {
        return None;
    }
    if !('0' <= t[from] && t[from] <= '9') {
        assert(!all_digits(p) && p[0] == t@[from as int]);
        return None;
    }
    if to - from > 1 && t[from] == '0' {
        return None;
    }
    assert(unsigned_digits(p) == p);
    parse_unsigned(t, from, to, 255)
}

/// Reads `t` as a dotted-decimal IPv4 address.
pub fn parse_ipv4(t: &Vec<char>) -> (r: Option<u32>)
    ensures
        r == ipv4_of(t@),
{
    let spans = piece_spans(t, '.');
    let ghost parts = pieces(t@, '.');
    if spans.len() != 4 {
        return None;
    }
    let mut octets: Vec<u32> = Vec::new();
    let mut k: usize = 0;
    while k < 4
        invariant
            spans@.len() == 4,
            spans_view(t@, spans@) == parts,
            parts == pieces(t@, '.'),
            forall|j: int| 0 <= j < 4 ==> (#[trigger] spans@[j]).0 <= spans@[j].1 <= t@.len(),
            k <= 4,
            octets@.len() == k,
            forall|j: int|
                0 <= j < k ==> (#[trigger] octet_value(parts[j])) is Some && octets@[j] as nat
                    == octet_value(parts[j])->0,
        decreases 4 - k,
    {
        let (a, b) = spans[k];
        assert(parts[k as int] == t@.subrange(a as int, b as int));
        match parse_octet(t, a, b) {
            None => {
                return None;
            },
            Some(v) => {
                octets.push(v);
            },
        }
        k = k + 1;
    }
    assert(octets@[0] <= 255 && octets@[1] <= 255 && octets@[2] <= 255 && octets@[3] <= 255);
    Some(octets[0] * 16777216 + octets[1] * 65536 + octets[2] * 256 + octets[3])
}

/// The position of the first `c` in `s`, or the length of `s` when `c` is absent.
pub open spec fn index_of(s: Seq<char>, c: char) -> nat
    decreases s.len(),
{
    if s.len() == 0 {
        0
    } else if s[0] == c {
        0
    } else {
        1 + index_of(s.drop_first(), c)
    }
}

/// Finds the first `c` in `t`.
pub fn find_char(t: &Vec<char>, c: char) -> (r: usize)
    ensures
        r == index_of(t@, c),
        r <= t@.len(),
{
    let n = t.len();
    let mut i: usize = 0;
    assert(t@.skip(0) =~= t@);
    while i < n && t[i] != c
        invariant
            i <= n == t@.len(),
            index_of(t@, c) == i + index_of(t@.skip(i as int), c),
        decreases n - i,
    {
        assert(t@.skip(i as int).drop_first() =~= t@.skip(i + 1));
        i = i + 1;
    }
    i
}

/// The number of addresses in a block with prefix length `n`.
pub open spec fn block_size(n: nat) -> nat {
    pow2((32 - n) as nat)
}

/// The block's network address: `a` with its `32 - n` low bits cleared.
pub open spec fn network_of(a: u32, n: nat) -> nat {
    (a as nat / block_size(n)) * block_size(n)
}

/// Every address strictly between the network and broadcast addresses of the
/// block of `a` with prefix length `n`, in ascending order.
pub open spec fn host_block(a: u32, n: nat) -> Seq<IpAddress> {
    Seq::new(
        (block_size(n) - 2) as nat,
        |i: int| IpAddress::V4((network_of(a, n) + 1 + i) as u32),
    )
}

/// The address that the text `t` denotes: dotted-decimal IPv4, else the IPv6
/// reading `v6` that the caller made of the same text.
pub open spec fn address_of(t: Seq<char>, v6: Option<u128>) -> Option<IpAddress> {
    match ipv4_of(t) {
        Some(a) => Some(IpAddress::V4(a)),
        None => match v6 {
            Some(x) => Some(IpAddress::V6(x)),
            None => None,
        },
    }
}

/// The text of the address in a target: what stands before the first `/`.
pub open spec fn address_text(s: Seq<char>) -> Seq<char> {
    s.take(index_of(s, '/') as int)
}

/// The text of the prefix length in a target: what follows the first `/`.
pub open spec fn prefix_text(s: Seq<char>) -> Seq<char> {
    s.skip(index_of(s, '/') + 1 as int)
}

/// The hosts that the target `s` names, where `v6` is the IPv6 address that
/// `address_text(s)` spells, if it spells one.
pub open spec fn expansion(s: Seq<char>, v6: Option<u128>) -> Result<Seq<IpAddress>, TargetError> {
    let p = index_of(s, '/');
    if p >= s.len() {
        match address_of(s, v6) {
            Some(ip) => Ok(seq![ip]),
            None => Err(TargetError::InvalidTarget),
        }
    } else {
        match address_of(s.take(p as int), v6) {
            None => Err(TargetError::InvalidAddress),
            Some(ip) => match unsigned_value(prefix_text(s), 0xffff_ffff) {
                None => Err(TargetError::MalformedPrefix),
                Some(n) => match ip {
                    IpAddress::V6(_) => Err(TargetError::UnsupportedAddressFamily),
                    IpAddress::V4(a) => if n > 32 {
                        Err(TargetError::InvalidPrefix)
                    } else if n < MIN_PREFIX {
                        Err(TargetError::PrefixTooBroad)
                    } else if n == 32 {
                        Ok(seq![ip])
                    } else {
                        Ok(host_block(a, n))
                    },
                },
            },
        }
    }
}

/// The usable hosts of the block of `a` with prefix length `n`.
pub fn hosts_in_block(a: u32, n: u32) -> (r: Vec<IpAddress>)
    requires
        MIN_PREFIX <= n < 32,
    ensures
        r@ == host_block(a, n as nat),
        r@.len() == block_size(n as nat) - 2,
{
    let bits: u32 = 32 - n;
    let mut size: u64 = 1;
    let mut j: u32 = 0;
    proof {
        lemma2_to64();
    }
    while j < bits
        invariant
            bits == 32 - n,
            bits <= 16,
            j <= bits,
            size == pow2(j as nat),
        decreases bits - j,
    {
        proof {
            lemma_pow2_unfold((j + 1) as nat);
            lemma2_to64();
            if j + 1 < 16 {
                lemma_pow2_strictly_increases((j + 1) as nat, 16);
            }
        }
        size = size * 2;
        j = j + 1;
    }
    let ghost q: int = a as int / size as int;
    let ghost m: int = a as int % size as int;
    let ghost whole: int = pow2(n as nat) as int;
    proof {
        lemma2_to64();
        if bits > 1 {
            lemma_pow2_strictly_increases(1, bits as nat);
        }
        lemma_pow2_adds(bits as nat, n as nat);
        assert((bits + n) as nat == 32);
        vstd::arithmetic::div_mod::lemma_fundamental_div_mod(a as int, size as int);
        assert(0 <= m < size) by (nonlinear_arith)
            requires
                m == a as int % size as int,
                size > 0,
        ;
        assert(q >= 0) by (nonlinear_arith)
            requires
                q == a as int / size as int,
                a >= 0,
                size > 0,
        ;
        assert(size * whole == 4294967296);
        assert(q + 1 <= whole) by (nonlinear_arith)
            requires
                a == size * q + m,
                0 <= m,
                a < size * whole,
                size > 0,
                q >= 0,
        ;
        assert((q + 1) * size <= 4294967296) by (nonlinear_arith)
            requires
                q + 1 <= whole,
                size * whole == 4294967296,
                size > 0,
        ;
    }
    let network: u64 = (a as u64 / size) * size;
    let ghost net = network_of(a, n as nat);
    assert(network as nat == net);
    assert(net + size <= 4294967296) by (nonlinear_arith)
        requires
            net == q * size,
            (q + 1) * size <= 4294967296,
    ;
    let count: u64 = size - 2;
    let mut r: Vec<IpAddress> = Vec::new();
    let mut i: u64 = 0;
    while i < count
        invariant
            count == size - 2,
            size <= 65536,
            network as nat == net,
            net + size <= 4294967296,
            i <= count,
            r@ =~= Seq::new(i as nat, |k: int| IpAddress::V4((net + 1 + k) as u32)),
        decreases count - i,
    {
        r.push(IpAddress::V4((network + 1 + i) as u32));
        i = i + 1;
    }
    r
}

/// The text before the first `/` of a target: what is read as its address.
pub fn address_part(cidr: &str) -> (r: &str)
    ensures
        r@ == address_text(cidr@),
{
    let chars = chars_of(cidr);
    let p = find_char(&chars, '/');
    cidr.substring_char(0, p)
}

/// Expands a target (an address, or an address and a prefix length after `/`)
/// into its hosts. `ipv6` is the IPv6 address that `address_part(cidr)`
/// spells, or `None` where it spells none.
pub fn expand_cidr(cidr: &str, ipv6: Option<u128>) -> (r: Result<Vec<IpAddress>, TargetError>)
    ensures
        match expansion(cidr@, ipv6) {
            Ok(hosts) => r is Ok && r->Ok_0@ == hosts,
            Err(e) => r == Err::<Vec<IpAddress>, TargetError>(e),
        },
{
    let chars = chars_of(cidr);
    let n = chars.len();
    let p = find_char(&chars, '/');
    let addr_end = p;
    let ip_chars = if p < n {
        let mut head: Vec<char> = Vec::new();
        let mut i: usize = 0;
        while i < p
            invariant
                i <= p < n == chars@.len(),
                head@ == chars@.take(i as int),
            decreases p - i,
        {
            head.push(chars[i]);
            i = i + 1;
            assert(head@ =~= chars@.take(i as int));
        }
        head
    } else {
        assert(chars@.take(p as int) =~= chars@);
        chars.clone()
    };
    assert(ip_chars@ == chars@.take(addr_end as int));
    let ip = match parse_ipv4(&ip_chars) {
        Some(a) => Some(IpAddress::V4(a)),
        None => match ipv6 {
            Some(x) => Some(IpAddress::V6(x)),
            None => None,
        },
    };
    if p >= n {
        assert(chars@.take(p as int) =~= cidr@);
        return match ip {
            Some(h) => Ok(vec![h]),
            None => Err(TargetError::InvalidTarget),
        };
    }
    let ip = match ip {
        Some(h) => h,
        None => {
            return Err(TargetError::InvalidAddress);
        },
    };
    assert(chars@.subrange(p + 1, n as int) =~= cidr@.skip(p + 1));
    let prefix = match parse_unsigned(&chars, p + 1, n, 0xffff_ffff) {
        Some(v) => v,
        None => {
            return Err(TargetError::MalformedPrefix);
        },
    };
    match ip {
        IpAddress::V6(_) => Err(TargetError::UnsupportedAddressFamily),
        IpAddress::V4(a) => {
            if prefix > 32 {
                Err(TargetError::InvalidPrefix)
            } else if prefix < MIN_PREFIX {
                Err(TargetError::PrefixTooBroad)
            } else if prefix == 32 {
                Ok(vec![ip])
            } else {
                Ok(hosts_in_block(a, prefix))
            }
        },
    }
}

/// A target `ip/n` with `16 <= n <= 31` expands to every address of the block
/// but its network and broadcast addresses: `2^(32-n) - 2` hosts.
pub proof fn lemma_block_host_count(s: Seq<char>, v6: Option<u128>, a: u32, n: nat)
    requires
        index_of(s, '/') < s.len(),
        ipv4_of(address_text(s)) == Some(a),
        unsigned_value(prefix_text(s), 0xffff_ffff) == Some(n),
        MIN_PREFIX <= n <= 31,
    ensures
        expansion(s, v6) is Ok,
        expansion(s, v6)->Ok_0.len() == pow2((32 - n) as nat) - 2,
{
    lemma2_to64();
    if 32 - n > 1 {
        lemma_pow2_strictly_increases(1, (32 - n) as nat);
    }
}

/// A target that is one address, bare or with prefix length 32, expands to
/// exactly that address.
pub proof fn lemma_single_address(s: Seq<char>, v6: Option<u128>, ip: IpAddress)
    requires
        address_of(address_text(s), v6) == Some(ip),
        index_of(s, '/') >= s.len() || (ip is V4 && unsigned_value(
            prefix_text(s),
            0xffff_ffff,
        ) == Some(32nat)),
    ensures
        expansion(s, v6) == Ok::<Seq<IpAddress>, TargetError>(seq![ip]),
{
    if index_of(s, '/') >= s.len() {
        lemma_index_of_bound(s, '/');
        assert(address_text(s) =~= s);
    }
}

proof fn lemma_index_of_bound(s: Seq<char>, c: char)
    ensures
        index_of(s, c) <= s.len(),
    decreases s.len(),
{
    if s.len() > 0 {
        lemma_index_of_bound(s.drop_first(), c);
    }
}

} // verus!
