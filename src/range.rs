//! Interpretation of the HTTP `Range` header against a content length.

use vstd::prelude::*;

verus! {

/// An inclusive span of bytes inside content of `total` bytes.
#[derive(Clone, Copy, Debug, PartialEq, Eq, Structural)]
pub struct ByteRange {
    pub start: u64,
    pub end: u64,
    pub total: u64,
}

impl ByteRange {
    pub open spec fn wf(&self) -> bool {
        self.start <= self.end && self.end < self.total
    }

    pub open spec fn spec_len(&self) -> nat {
        (self.end - self.start + 1) as nat
    }

    /// Number of bytes in the span.
    pub fn len(&self) -> (r: u64)
        requires
            self.wf(),
        ensures
            r == self.spec_len(),
    {
        self.end - self.start + 1
    }
}

/// What a request's `Range` header asks for.
#[derive(Clone, Copy, Debug, PartialEq, Eq, Structural)]
pub enum RangeDecision {
    /// The whole content: no header, or a span that ends before it starts.
    Full,
    /// One span inside the content.
    Satisfiable(ByteRange),
    /// The span starts at or past the end of the content.
    Unsatisfiable,
    /// The header is not a `bytes=` range.
    Malformed,
}

pub open spec fn is_digit(b: u8) -> bool {
    48 <= b && b <= 57
}

pub open spec fn all_digits(s: Seq<u8>) -> bool {
    forall|i: int| 0 <= i < s.len() ==> is_digit(#[trigger] s[i])
}

/// The number that a string of decimal digits denotes.
pub open spec fn digits_value(s: Seq<u8>) -> nat
    decreases s.len(),
{
    if s.len() == 0 {
        0
    } else {
        digits_value(s.drop_last()) * 10 + (s.last() - 48) as nat
    }
}

/// The text after an optional leading `+`.
pub open spec fn strip_plus(s: Seq<u8>) -> Seq<u8> {
    if s.len() > 0 && s[0] == 43u8 {
        s.subrange(1, s.len() as int)
    } else {
        s
    }
}

/// One or more digits whose value fits in a `u64`.
pub open spec fn parse_digits_spec(d: Seq<u8>) -> Option<u64> {
    if d.len() > 0 && all_digits(d) && digits_value(d) <= u64::MAX {
        Some(digits_value(d) as u64)
    } else {
        None
    }
}

/// Unsigned decimal parsing: an optional `+`, then one or more digits, whose value fits in a `u64`.
pub open spec fn parse_u64_spec(s: Seq<u8>) -> Option<u64> {
    parse_digits_spec(strip_plus(s))
}

/// The bytes that a header value may hold: visible ASCII and horizontal tab.
pub open spec fn visible_ascii(s: Seq<u8>) -> bool {
    forall|i: int| 0 <= i < s.len() ==> (#[trigger] s[i] == 9u8 || (32 <= s[i] && s[i] < 127))
}

/// The unit prefix `bytes=`.
pub open spec fn bytes_prefix() -> Seq<u8> {
    seq![98u8, 121u8, 116u8, 101u8, 115u8, 61u8]
}

pub open spec fn has_bytes_prefix(s: Seq<u8>) -> bool {
    s.len() >= 6 && s.subrange(0, 6) == bytes_prefix()
}

/// Index of the first `-` at or after `from`, or the length when there is none.
pub open spec fn field_end(s: Seq<u8>, from: int) -> int
    decreases s.len() - from,
{
    if from >= s.len() {
        s.len() as int
    } else if s[from] == 45u8 {
        from
    } else {
        field_end(s, from + 1)
    }
}

/// The text before the first `-`.
pub open spec fn first_field(s: Seq<u8>) -> Seq<u8> {
    s.subrange(0, field_end(s, 0))
}

/// The text between the first and the second `-`, when there is a first one.
pub open spec fn second_field(s: Seq<u8>) -> Option<Seq<u8>> {
    let e = field_end(s, 0);
    if e < s.len() {
        Some(s.subrange(e + 1, field_end(s, e + 1)))
    } else {
        None
    }
}

/// Resolution of an optional `Range` header against content of `total` bytes.
pub open spec fn decide(header: Option<Seq<u8>>, total: u64) -> RangeDecision {
    match header {
        None => RangeDecision::Full,
        Some(h) => if !visible_ascii(h) || !has_bytes_prefix(h) {
            RangeDecision::Malformed
        } else {
            let rest = h.subrange(6, h.len() as int);
            let start = match parse_u64_spec(first_field(rest)) {
                Some(v) => v,
                None => 0u64,
            };
            if start >= total {
                RangeDecision::Unsatisfiable
            } else {
                let last = (total - 1) as u64;
                let end = match second_field(rest) {
                    Some(f) => if f.len() > 0 {
                        match parse_u64_spec(f) {
                            Some(v) => v,
                            None => last,
                        }
                    } else {
                        last
                    },
                    None => last,
                };
                let end = if end < last { end } else { last };
                if end < start {
                    RangeDecision::Full
                } else {
                    RangeDecision::Satisfiable(ByteRange { start, end, total })
                }
            }
        },
    }
}

pub open spec fn opt_bytes(h: Option<&[u8]>) -> Option<Seq<u8>> {
    match h {
        Some(b) => Some(b@),
        None => None,
    }
}

proof fn lemma_digits_value_grows(s: Seq<u8>, i: int)
    requires
        0 <= i <= s.len(),
    ensures
        digits_value(s.subrange(0, i)) <= digits_value(s),
    decreases s.len() - i,
{
    if i < s.len() {
        lemma_digits_value_grows(s, i + 1);
        assert(s.subrange(0, i + 1).drop_last() =~= s.subrange(0, i));
    } else {
        assert(s.subrange(0, i) =~= s);
    }
}

/// Parses `s[lo..hi]` as an unsigned decimal number.
pub fn parse_u64(s: &[u8], lo: usize, hi: usize) -> (r: Option<u64>)
    requires
        lo <= hi <= s@.len(),
    ensures
        r == parse_u64_spec(s@.subrange(lo as int, hi as int)),
{
    let ghost whole = s@.subrange(lo as int, hi as int);
    let mut i: usize = lo;
    if i < hi && s[i] == 43u8 {
        i = i + 1;
    }
    let ghost d = s@.subrange(i as int, hi as int);
    assert(d =~= strip_plus(whole));
    if i == hi {
        return None;
    }
    let first: usize = i;
    let mut acc: u64 = 0;
    while i < hi
        invariant
            first <= i <= hi <= s@.len(),
            d == s@.subrange(first as int, hi as int),
            d == strip_plus(s@.subrange(lo as int, hi as int)),
            all_digits(s@.subrange(first as int, i as int)),
            acc == digits_value(s@.subrange(first as int, i as int)),
        decreases hi - i,
    {
        let b = s[i];
        if b < 48u8 || b > 57u8 {
            assert(!is_digit(d[i - first]));
            assert(parse_digits_spec(d) == None::<u64>);
            return None;
        }
        let digit = (b - 48u8) as u64;
        let ghost next = s@.subrange(first as int, i + 1);
        assert(next.drop_last() =~= s@.subrange(first as int, i as int));
        if acc > (u64::MAX - digit) / 10 {
            proof {
                assert(acc * 10 + digit > u64::MAX) by (nonlinear_arith)
                    requires
                        acc > (u64::MAX - digit) / 10,
                        digit <= 9,
                ;
                if all_digits(d) {
                    assert(next =~= d.subrange(0, i + 1 - first));
                    lemma_digits_value_grows(d, i + 1 - first);
                }
                assert(parse_digits_spec(d) == None::<u64>);
            }
            return None;
        }
        proof {
            assert(acc * 10 + digit <= u64::MAX) by (nonlinear_arith)
                requires
                    acc <= (u64::MAX - digit) / 10,
                    digit <= 9,
            ;
        }
        acc = acc * 10 + digit;
        i = i + 1;
    }
    assert(s@.subrange(first as int, i as int) =~= d);
    Some(acc)
}

/// Index of the first `-` in `s[from..]`, or the length of `s`.
fn find_dash(s: &[u8], from: usize) -> (r: usize)
    requires
        from <= s@.len(),
    ensures
        r == field_end(s@, from as int),
        from <= r <= s@.len(),
{
    proof {
        lemma_field_end_bounds(s@, from as int);
    }
    let mut i: usize = from;
    while i < s.len()
        invariant
            from <= i <= s@.len(),
            field_end(s@, from as int) == field_end(s@, i as int),
        decreases s@.len() - i,
    {
        if s[i] == 45u8 {
            return i;
        }
        i = i + 1;
    }
    i
}

/// Resolves a `Range` header value against content of `total` bytes.
pub fn parse_range(header: Option<&[u8]>, total: u64) -> (r: RangeDecision)
    ensures
        r == decide(opt_bytes(header), total),
        r is Satisfiable ==> r->Satisfiable_0.wf(),
{
    match header {
        None => RangeDecision::Full,
        Some(h) => {
            let mut i: usize = 0;
            while i < h.len()
                invariant
                    header == Some(h),
                    i <= h@.len(),
                    visible_ascii(h@.subrange(0, i as int)),
                decreases h@.len() - i,
            {
                let b = h[i];
                if !(b == 9u8 || (32u8 <= b && b < 127u8)) {
                    assert(h@.subrange(0, i as int + 1)[i as int] == b);
                    assert(!visible_ascii(h@));
                    return RangeDecision::Malformed;
                }
                assert(visible_ascii(h@.subrange(0, i as int + 1)));
                i = i + 1;
            }
            assert(h@.subrange(0, h@.len() as int) =~= h@);
            if h.len() < 6 || h[0] != 98u8 || h[1] != 121u8 || h[2] != 116u8 || h[3] != 101u8
                || h[4] != 115u8 || h[5] != 61u8 {
                proof {
                    if h@.len() >= 6 && h@.subrange(0, 6) == bytes_prefix() {
                        assert(h@.subrange(0, 6)[0] == h@[0]);
                        assert(h@.subrange(0, 6)[1] == h@[1]);
                        assert(h@.subrange(0, 6)[2] == h@[2]);
                        assert(h@.subrange(0, 6)[3] == h@[3]);
                        assert(h@.subrange(0, 6)[4] == h@[4]);
                        assert(h@.subrange(0, 6)[5] == h@[5]);
                    }
                }
                return RangeDecision::Malformed;
            }
            assert(h@.subrange(0, 6) =~= bytes_prefix());
            let ghost rest = h@.subrange(6, h@.len() as int);
            let e0 = find_dash(h, 6);
            proof {
                lemma_field_end_shift(h@, 6, 6);
            }
            assert(first_field(rest) =~= h@.subrange(6, e0 as int));
            let start = match parse_u64(h, 6, e0) {
                Some(v) => v,
                None => 0u64,
            };
            if start >= total {
                return RangeDecision::Unsatisfiable;
            }
            let last = total - 1;
            let mut end = last;
            if e0 < h.len() {
                let e1 = find_dash(h, e0 + 1);
                proof {
                    lemma_field_end_shift(h@, 6, e0 as int + 1);
                }
                assert(second_field(rest) == Some(h@.subrange(e0 + 1, e1 as int)));
                if e1 > e0 + 1 {
                    end = match parse_u64(h, e0 + 1, e1) {
                        Some(v) => v,
                        None => last,
                    };
                }
            }
            if end > last {
                end = last;
            }
            if end < start {
                return RangeDecision::Full;
            }
            RangeDecision::Satisfiable(ByteRange { start, end, total })
        },
    }
}

proof fn lemma_field_end_bounds(s: Seq<u8>, from: int)
    requires
        0 <= from <= s.len(),
    ensures
        from <= field_end(s, from) <= s.len(),
        field_end(s, from) < s.len() ==> s[field_end(s, from)] == 45u8,
        forall|j: int| from <= j < field_end(s, from) ==> s[j] != 45u8,
    decreases s.len() - from,
{
    if from < s.len() {
        lemma_field_end_bounds(s, from + 1);
    }
}

/// `field_end` on a suffix of `s` is `field_end` on `s`, shifted.
proof fn lemma_field_end_shift(s: Seq<u8>, k: int, from: int)
    requires
        0 <= k <= from <= s.len(),
    ensures
        field_end(s.subrange(k, s.len() as int), from - k) == field_end(s, from) - k,
    decreases s.len() - from,
{
    if from < s.len() {
        lemma_field_end_shift(s, k, from + 1);
    }
}

} // verus!
