//! Source-text helpers: UTF-8 boundary reasoning, substrings and comparisons.
use vstd::prelude::*;
use vstd::string::*;
use vstd::utf8::*;

verus! {

/// `a` is an initial segment of `b`.
pub open spec fn is_prefix<T>(a: Seq<T>, b: Seq<T>) -> bool {
    &&& a.len() <= b.len()
    &&& forall|i: int| 0 <= i < a.len() ==> #[trigger] b[i] == a[i]
}

broadcast use vstd::utf8::encode_utf8_valid_utf8, vstd::utf8::encode_utf8_decode_utf8;

/// `start..end` is an ordered range inside `bytes` whose ends both fall on
/// character boundaries.
pub open spec fn range_fits(bytes: Seq<u8>, start: int, end: int) -> bool {
    &&& 0 <= start <= end <= bytes.len()
    &&& is_char_boundary(bytes, start)
    &&& is_char_boundary(bytes, end)
}

/// The characters of `bytes` between two character boundaries.
pub open spec fn range_chars(bytes: Seq<u8>, start: int, end: int) -> Seq<char> {
    decode_utf8(bytes.subrange(start, end))
}

/// Stepping over one whole scalar from a character boundary lands on the next boundary.
pub proof fn lemma_boundary_step(b: Seq<u8>, p: int)
    requires
        valid_utf8(b),
        0 <= p < b.len(),
        is_char_boundary(b, p),
    ensures
        valid_first_scalar(b.subrange(p, b.len() as int)),
        is_char_boundary(b, p + length_of_first_scalar(b.subrange(p, b.len() as int))),
        p + length_of_first_scalar(b.subrange(p, b.len() as int)) <= b.len(),
    decreases b.len(),
{
    reveal_with_fuel(is_char_boundary, 2);
    let l0 = length_of_first_scalar(b);
    let tail = pop_first_scalar(b);
    if p == 0 {
        assert(b.subrange(0, b.len() as int) =~= b);
    } else {
        assert(tail.subrange(p - l0, tail.len() as int) =~= b.subrange(p, b.len() as int));
        lemma_boundary_step(tail, p - l0);
    }
}

/// After an ASCII byte at a character boundary, the next position is a boundary.
pub proof fn lemma_ascii_step(b: Seq<u8>, p: int)
    requires
        valid_utf8(b),
        0 <= p < b.len(),
        is_char_boundary(b, p),
        b[p] < 0x80,
    ensures
        is_char_boundary(b, p + 1),
{
    lemma_boundary_step(b, p);
    assert(b.subrange(p, b.len() as int)[0] == b[p]);
}

/// Positions are boundaries exactly when they do not hold a continuation byte.
pub proof fn lemma_boundary_iff(b: Seq<u8>, p: int)
    requires
        valid_utf8(b),
        0 <= p <= b.len(),
    ensures
        p < b.len() ==> (is_char_boundary(b, p) <==> !is_continuation_byte(b[p])),
        p == b.len() ==> is_char_boundary(b, p),
{
    if p < b.len() {
        is_char_boundary_iff_not_is_continuation_byte(b, p);
    } else {
        is_char_boundary_start_end_of_seq(b);
    }
}

/// A boundary below a cut point stays a boundary of the prefix up to the cut.
pub proof fn lemma_boundary_prefix(b: Seq<u8>, a: int, e: int)
    requires
        valid_utf8(b),
        range_fits(b, a, e),
    ensures
        valid_utf8(b.subrange(0, e)),
        is_char_boundary(b.subrange(0, e), a),
{
    valid_utf8_split(b, e);
    let pre = b.subrange(0, e);
    if a < e {
        is_char_boundary_iff_not_is_continuation_byte(b, a);
        is_char_boundary_iff_not_is_continuation_byte(pre, a);
    } else {
        assert(pre.len() == e);
        is_char_boundary_start_end_of_seq(pre);
    }
}

/// The text of `s` between two character boundaries (byte offsets).
pub fn substring<'a>(s: &'a str, start: usize, end: usize) -> (r: &'a str)
    requires
        range_fits(s.spec_bytes(), start as int, end as int),
    ensures
        r.spec_bytes() == s.spec_bytes().subrange(start as int, end as int),
        r@ == range_chars(s.spec_bytes(), start as int, end as int),
{
    proof {
        lemma_boundary_prefix(s.spec_bytes(), start as int, end as int);
    }
    let (head, _) = s.split_at(end);
    let (_, mid) = head.split_at(start);
    proof {
        assert(mid.spec_bytes() =~= s.spec_bytes().subrange(start as int, end as int));
        assert(decode_utf8(encode_utf8(mid@)) == mid@);
    }
    mid
}

/// Equality of two strings, decided on their UTF-8 bytes.
pub fn str_eq(a: &str, b: &str) -> (r: bool)
    ensures
        r == (a@ == b@),
{
    let x = a.as_bytes();
    let y = b.as_bytes();
    proof {
        assert(decode_utf8(encode_utf8(a@)) == a@);
        assert(decode_utf8(encode_utf8(b@)) == b@);
    }
    if x.len() != y.len() {
        return false;
    }
    let mut i: usize = 0;
    while i < x.len()
        invariant
            x@ == a.spec_bytes(),
            y@ == b.spec_bytes(),
            x@.len() == y@.len(),
            0 <= i <= x@.len(),
            forall|j: int| 0 <= j < i ==> x@[j] == y@[j],
        decreases x@.len() - i,
    {
        if x[i] != y[i] {
            return false;
        }
        i = i + 1;
    }
    proof {
        assert(x@ =~= y@);
    }
    true
}

/// `prefix` followed by `rest`.
pub fn join_text(prefix: &str, rest: &str) -> (r: String)
    ensures
        r@ == prefix@ + rest@,
{
    let mut s = String::from_str(prefix);
    s.append(rest);
    s
}

} // verus!
