use vstd::prelude::*;

verus! {

/// The character of the decimal digit `d`.
pub open spec fn digit_char(d: nat) -> char {
    seq!['0', '1', '2', '3', '4', '5', '6', '7', '8', '9'][d as int]
}

/// The decimal numeral of `v`, without leading zeros.
pub open spec fn decimal_text(v: nat) -> Seq<char>
    decreases v,
{
    if v < 10 {
        seq![digit_char(v)]
    } else {
        decimal_text(v / 10).push(digit_char(v % 10))
    }
}

/// The dotted-decimal text of the IPv4 address `a`.
pub open spec fn ipv4_text(a: u32) -> Seq<char> {
    decimal_text(a as nat / 16777216) + seq!['.'] + decimal_text((a as nat / 65536) % 256) + seq![
        '.',
    ] + decimal_text((a as nat / 256) % 256) + seq!['.'] + decimal_text(a as nat % 256)
}

/// The `host:port` label of a probe, given the host's text.
pub open spec fn label_text(host: Seq<char>, port: u16) -> Seq<char> {
    host + seq![':'] + decimal_text(port as nat)
}

/// Appends the decimal numeral of `v` to `out`.
pub fn push_decimal(out: &mut Vec<char>, v: u32)
    ensures
        final(out)@ == old(out)@ + decimal_text(v as nat),
    decreases v,
{
    let digits = vec!['0', '1', '2', '3', '4', '5', '6', '7', '8', '9'];
    if v >= 10 {
        push_decimal(out, v / 10);
    }
    out.push(digits[(v % 10) as usize]);
    assert(digits@ == seq!['0', '1', '2', '3', '4', '5', '6', '7', '8', '9']);
    if v >= 10 {
        assert(final(out)@ =~= old(out)@ + decimal_text(v as nat));
    } else {
        assert(final(out)@ =~= old(out)@ + decimal_text(v as nat));
    }
}

/// The dotted-decimal text of an IPv4 address.
pub fn ipv4_chars(a: u32) -> (r: Vec<char>)
    ensures
        r@ == ipv4_text(a),
{
    let mut r: Vec<char> = Vec::new();
    push_decimal(&mut r, a / 16777216);
    r.push('.');
    push_decimal(&mut r, (a / 65536) % 256);
    r.push('.');
    push_decimal(&mut r, (a / 256) % 256);
    r.push('.');
    push_decimal(&mut r, a % 256);
    assert(r@ =~= ipv4_text(a));
    r
}

/// The `host:port` label of a probe.
pub fn probe_label(host: &Vec<char>, port: u16) -> (r: Vec<char>)
    ensures
        r@ == label_text(host@, port),
{
    let mut r = host.clone();
    r.push(':');
    push_decimal(&mut r, port as u32);
    assert(r@ =~= label_text(host@, port));
    r
}

} // verus!
