use vstd::prelude::*;
use vstd::string::*;

verus! {

/// The characters that `char::is_whitespace` accepts (Unicode `White_Space`).
pub open spec fn is_white(c: char) -> bool {
    ('\u{9}' <= c && c <= '\u{d}') || c == ' ' || c == '\u{85}' || c == '\u{a0}'
        || c == '\u{1680}' || ('\u{2000}' <= c && c <= '\u{200a}') || c == '\u{2028}'
        || c == '\u{2029}' || c == '\u{202f}' || c == '\u{205f}' || c == '\u{3000}'
}

/// Whitespace test used by trimming.
pub fn is_white_char(c: char) -> (r: bool)
    ensures
        r == is_white(c),
{
    ('\u{9}' <= c && c <= '\u{d}') || c == ' ' || c == '\u{85}' || c == '\u{a0}'
        || c == '\u{1680}' || ('\u{2000}' <= c && c <= '\u{200a}') || c == '\u{2028}'
        || c == '\u{2029}' || c == '\u{202f}' || c == '\u{205f}' || c == '\u{3000}'
}

/// `t` without its leading whitespace.
pub open spec fn trim_start(t: Seq<char>) -> Seq<char>
    decreases t.len(),
{
    if t.len() > 0 && is_white(t[0]) {
        trim_start(t.drop_first())
    } else {
        t
    }
}

/// `t` without its trailing whitespace.
pub open spec fn trim_end(t: Seq<char>) -> Seq<char>
    decreases t.len(),
{
    if t.len() > 0 && is_white(t.last()) {
        trim_end(t.drop_last())
    } else {
        t
    }
}

/// `t` without whitespace at either end.
pub open spec fn trim(t: Seq<char>) -> Seq<char> {
    trim_end(trim_start(t))
}

pub open spec fn is_digit(c: char) -> bool {
    '0' <= c && c <= '9'
}

pub open spec fn digit_value(c: char) -> nat {
    ((c as u32) - ('0' as u32)) as nat
}

pub open spec fn all_digits(d: Seq<char>) -> bool {
    forall|i: int| 0 <= i < d.len() ==> is_digit(#[trigger] d[i])
}

/// The number that the decimal digits `d` spell.
pub open spec fn decimal_value(d: Seq<char>) -> nat
    decreases d.len(),
{
    if d.len() == 0 {
        0
    } else {
        decimal_value(d.drop_last()) * 10 + digit_value(d.last())
    }
}

/// The digits of an unsigned numeral: an optional `+` sign is dropped.
pub open spec fn unsigned_digits(t: Seq<char>) -> Seq<char> {
    if t.len() > 0 && t[0] == '+' {
        t.drop_first()
    } else {
        t
    }
}

/// The value of the unsigned numeral `t` when it is at most `max`, the way
/// `str::parse` reads an unsigned integer type whose largest value is `max`.
pub open spec fn unsigned_value(t: Seq<char>, max: nat) -> Option<nat> {
    let d = unsigned_digits(t);
    if d.len() > 0 && all_digits(d) && decimal_value(d) <= max {
        Some(decimal_value(d))
    } else {
        None
    }
}

proof fn lemma_decimal_prefix_le(d: Seq<char>, k: int)
    requires
        all_digits(d),
        0 <= k <= d.len(),
    ensures
        decimal_value(d.take(k)) <= decimal_value(d),
    decreases d.len(),
{
    if k < d.len() {
        assert(all_digits(d.drop_last()));
        assert(d.drop_last().take(k) =~= d.take(k));
        lemma_decimal_prefix_le(d.drop_last(), k);
    } else {
        assert(d.take(k) =~= d);
    }
}

/// Returns the positions `(a, b)` such that `t[a..b]` is `t[from..to]` trimmed.
pub fn trim_bounds(t: &Vec<char>, from: usize, to: usize) -> (r: (usize, usize))
    requires
        from <= to <= t@.len(),
    ensures
        from <= r.0 <= r.1 <= to,
        t@.subrange(r.0 as int, r.1 as int) == trim(t@.subrange(from as int, to as int)),
{
    let ghost whole = t@.subrange(from as int, to as int);
    let mut a: usize = from;
    while a < to && is_white_char(t[a])
        invariant
            from <= a <= to <= t@.len(),
            whole == t@.subrange(from as int, to as int),
            trim_start(whole) == trim_start(t@.subrange(a as int, to as int)),
        decreases to - a,
    {
        assert(t@.subrange(a as int, to as int).drop_first() =~= t@.subrange(a + 1, to as int));
        a = a + 1;
    }
    let mut b: usize = to;
    assert(trim_start(t@.subrange(a as int, to as int)) == t@.subrange(a as int, to as int));
    while b > a && is_white_char(t[b - 1])
        invariant
            from <= a <= b <= to <= t@.len(),
            trim_start(whole) == t@.subrange(a as int, to as int),
            trim(whole) == trim_end(t@.subrange(a as int, b as int)),
        decreases b - a,
    {
        assert(t@.subrange(a as int, b as int).drop_last() =~= t@.subrange(a as int, b - 1));
        b = b - 1;
    }
    (a, b)
}

/// Reads `t[from..to]` as an unsigned numeral no greater than `max`.
pub fn parse_unsigned(t: &Vec<char>, from: usize, to: usize, max: u32) -> (r: Option<u32>)
    requires
        from <= to <= t@.len(),
    ensures
        r is Some <==> unsigned_value(t@.subrange(from as int, to as int), max as nat) is Some,
        r is Some ==> r->0 as nat == unsigned_value(
            t@.subrange(from as int, to as int),
            max as nat,
        )->0,
{
    let ghost s = t@.subrange(from as int, to as int);
    let mut i: usize = from;
    if i < to && t[i] == '+' {
        i = i + 1;
    }
    let ghost d = t@.subrange(i as int, to as int);
    assert(unsigned_digits(s) =~= d);
    if i == to {
        return None;
    }
    let start: usize = i;
    let mut acc: u64 = 0;
    assert(t@.subrange(start as int, start as int) =~= Seq::<char>::empty());
    while i < to
        invariant
            from <= start <= i <= to <= t@.len(),
            d == t@.subrange(start as int, to as int),
            s == t@.subrange(from as int, to as int),
            unsigned_digits(s) == d,
            acc as nat == decimal_value(t@.subrange(start as int, i as int)),
            all_digits(t@.subrange(start as int, i as int)),
            acc <= max,
        decreases to - i,
    {
        let c = t[i];
        if !('0' <= c && c <= '9') {
            assert(d[i - start] == c);
            return None;
        }
        let ghost next = t@.subrange(start as int, i + 1);
        assert(next.drop_last() =~= t@.subrange(start as int, i as int));
        acc = acc * 10 + ((c as u32) - ('0' as u32)) as u64;
        assert(all_digits(next));
        assert(acc as nat == decimal_value(next));
        if acc > max as u64 {
            proof {
                if all_digits(d) {
                    assert(d.take(i + 1 - start) =~= next);
                    lemma_decimal_prefix_le(d, i + 1 - start);
                }
            }
            return None;
        }
        i = i + 1;
    }
    assert(t@.subrange(start as int, i as int) =~= d);
    Some(acc as u32)
}

/// The pieces of `s` between occurrences of `sep`, in order; a string without `sep` is one piece.
pub open spec fn pieces(s: Seq<char>, sep: char) -> Seq<Seq<char>>
    decreases s.len(),
{
    if s.len() == 0 {
        seq![Seq::<char>::empty()]
    } else {
        let t = pieces(s.drop_last(), sep);
        if s.last() == sep {
            t.push(Seq::<char>::empty())
        } else {
            t.update(t.len() - 1, t.last().push(s.last()))
        }
    }
}

pub open spec fn spans_view(s: Seq<char>, spans: Seq<(usize, usize)>) -> Seq<Seq<char>> {
    spans.map_values(|p: (usize, usize)| s.subrange(p.0 as int, p.1 as int))
}

/// The characters of `s`, in order.
pub fn chars_of(s: &str) -> (r: Vec<char>)
    ensures
        r@ == s@,
{
    let n = s.unicode_len();
    let mut r: Vec<char> = Vec::new();
    let mut i: usize = 0;
    while i < n
        invariant
            n == s@.len(),
            i <= n,
            r@ == s@.take(i as int),
        decreases n - i,
    {
        r.push(s.get_char(i));
        i = i + 1;
        assert(r@ =~= s@.take(i as int));
    }
    assert(s@.take(n as int) =~= s@);
    r
}

/// The positions of the pieces of `t` between occurrences of `sep`.
pub fn piece_spans(t: &Vec<char>, sep: char) -> (r: Vec<(usize, usize)>)
    ensures
        spans_view(t@, r@) == pieces(t@, sep),
        forall|k: int| 0 <= k < r@.len() ==> (#[trigger] r@[k]).0 <= r@[k].1 <= t@.len(),
{
    let n = t.len();
    let mut spans: Vec<(usize, usize)> = Vec::new();
    let mut start: usize = 0;
    let mut i: usize = 0;
    assert(t@.take(0) =~= Seq::<char>::empty());
    assert(spans_view(t@, spans@).push(t@.subrange(0, 0)) =~= pieces(t@.take(0), sep));
    while i < n
        invariant
            n == t@.len(),
            start <= i <= n,
            forall|k: int| 0 <= k < spans@.len() ==> (#[trigger] spans@[k]).0 <= spans@[k].1 <= n,
            pieces(t@.take(i as int), sep) == spans_view(t@, spans@).push(
                t@.subrange(start as int, i as int),
            ),
        decreases n - i,
    {
        let ghost before = spans_view(t@, spans@);
        assert(t@.take(i + 1).drop_last() =~= t@.take(i as int));
        assert(t@.take(i + 1).last() == t@[i as int]);
        if t[i] == sep {
            let ghost old_start = start;
            spans.push((start, i));
            start = i + 1;
            assert(spans_view(t@, spans@) =~= before.push(t@.subrange(old_start as int, i as int)));
            assert(t@.subrange(start as int, i + 1) =~= Seq::<char>::empty());
            assert(pieces(t@.take(i + 1), sep) =~= spans_view(t@, spans@).push(
                t@.subrange(start as int, i + 1),
            ));
        } else {
            assert(t@.subrange(start as int, i + 1) =~= t@.subrange(start as int, i as int).push(t@[i as int]));
            let ghost tt = pieces(t@.take(i as int), sep);
            assert(pieces(t@.take(i + 1), sep) == tt.update(tt.len() - 1, tt.last().push(t@[i as int])));
            assert(pieces(t@.take(i + 1), sep) =~= spans_view(t@, spans@).push(
                t@.subrange(start as int, i + 1),
            ));
        }
        i = i + 1;
    }
    let ghost before = spans_view(t@, spans@);
    spans.push((start, n));
    assert(t@.take(n as int) =~= t@);
    assert(spans_view(t@, spans@) =~= before.push(t@.subrange(start as int, n as int)));
    spans
}

} // verus!
