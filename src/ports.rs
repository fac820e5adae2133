use vstd::prelude::*;
use vstd::string::*;

use crate::text::{chars_of, parse_unsigned, piece_spans, pieces, spans_view, trim, trim_bounds, unsigned_value};

verus! {

/// The port that one comma-separated piece names: trimmed, read as a 16-bit
/// unsigned number, and not zero.
pub open spec fn port_value(t: Seq<char>) -> Option<u16> {
    match unsigned_value(trim(t), 65535) {
        Some(v) => if v != 0 {
            Some(v as u16)
        } else {
            None
        },
        None => None,
    }
}

/// The message for a piece that names no port.
pub open spec fn port_error(t: Seq<char>) -> Seq<char> {
    if unsigned_value(trim(t), 65535) is None {
        "invalid port: "@ + trim(t)
    } else {
        "port 0 is not valid"@
    }
}

/// The list of ports that `s` names, when every piece names one.
pub open spec fn ports_of(s: Seq<char>) -> Seq<u16> {
    pieces(s, ',').map_values(|t: Seq<char>| port_value(t)->0)
}

pub open spec fn all_ports_valid(s: Seq<char>) -> bool {
    forall|k: int| 0 <= k < pieces(s, ',').len() ==> (#[trigger] port_value(pieces(s, ',')[k])) is Some
}

/// Reads a comma-separated list of ports. Each piece is trimmed of whitespace
/// and must be a number from 1 to 65535; order and repeats are kept. The first
/// piece that is not a port decides the error.
pub fn parse_ports(input: &str) -> (r: Result<Vec<u16>, String>)
    ensures
        r is Ok <==> all_ports_valid(input@),
        r is Ok ==> r->Ok_0@ == ports_of(input@),
        r is Err ==> exists|k: int|
            0 <= k < pieces(input@, ',').len() && (forall|j: int|
                0 <= j < k ==> (#[trigger] port_value(pieces(input@, ',')[j])) is Some)
                && port_value(pieces(input@, ',')[k]) is None && r->Err_0@ == port_error(
                pieces(input@, ',')[k],
            ),
{
    let chars = chars_of(input);
    let spans = piece_spans(&chars, ',');
    let ghost toks = pieces(input@, ',');
    let mut out: Vec<u16> = Vec::new();
    let mut k: usize = 0;
    while k < spans.len()
        invariant
            chars@ == input@,
            toks == pieces(input@, ','),
            spans_view(chars@, spans@) == toks,
            forall|j: int| 0 <= j < spans@.len() ==> (#[trigger] spans@[j]).0 <= spans@[j].1 <= chars@.len(),
            k <= spans@.len(),
            forall|j: int| 0 <= j < k ==> (#[trigger] port_value(toks[j])) is Some,
            out@ == toks.take(k as int).map_values(|t: Seq<char>| port_value(t)->0),
        decreases spans@.len() - k,
    {
        let (st, en) = spans[k];
        assert(toks[k as int] == chars@.subrange(st as int, en as int));
        let (a, b) = trim_bounds(&chars, st, en);
        match parse_unsigned(&chars, a, b, 65535) {
            None => {
                proof {
                    reveal_strlit("invalid port: ");
                }
                let mut msg = String::from_str("invalid port: ");
                msg.append(input.substring_char(a, b));
                return Err(msg);
            },
            Some(v) => {
                if v == 0 {
                    proof {
                        reveal_strlit("port 0 is not valid");
                    }
                    return Err(String::from_str("port 0 is not valid"));
                }
                out.push(v as u16);
                assert(toks.take(k + 1).map_values(|t: Seq<char>| port_value(t)->0) =~= toks.take(
                    k as int,
                ).map_values(|t: Seq<char>| port_value(t)->0).push(port_value(toks[k as int])->0));
            },
        }
        k = k + 1;
    }
    assert(toks.take(k as int) =~= toks);
    Ok(out)
}

} // verus!
