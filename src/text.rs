use vstd::prelude::*;

verus! {

pub open spec fn is_digit(c: u8) -> bool {
    48 <= c <= 57
}

/// The value of a run of decimal digits.
pub open spec fn digits_value(d: Seq<u8>) -> int
    decreases d.len(),
{
    if d.len() == 0 {
        0
    } else {
        digits_value(d.drop_last()) * 10 + (d.last() - 48)
    }
}

/// The unsigned integer a value spells, as Rust's `str::parse` reads it: an
/// optional `+`, then one or more decimal digits, of a value no more than `max`.
pub open spec fn parse_uint(v: Seq<u8>, max: int) -> Option<int> {
    let d = unsigned_part(v);
    if d.len() == 0 || !all_digits(d) {
        None
    } else if digits_value(d) > max {
        None
    } else {
        Some(digits_value(d))
    }
}

/// `v` without one leading `+`.
pub open spec fn unsigned_part(v: Seq<u8>) -> Seq<u8> {
    if v.len() > 0 && v[0] == 43 {
        v.subrange(1, v.len() as int)
    } else {
        v
    }
}

pub open spec fn all_digits(d: Seq<u8>) -> bool {
    forall|i: int| 0 <= i < d.len() ==> is_digit(#[trigger] d[i])
}

/// The decimal digits of `x`, without leading zeros.
pub open spec fn decimal(x: nat) -> Seq<u8>
    decreases x,
{
    if x < 10 {
        seq![(x + 48) as u8]
    } else {
        decimal(x / 10).push((x % 10 + 48) as u8)
    }
}

proof fn lemma_digits_prefix_le(d: Seq<u8>, i: int)
    requires
        0 <= i <= d.len(),
        forall|j: int| 0 <= j < d.len() ==> is_digit(#[trigger] d[j]),
    ensures
        0 <= digits_value(d.subrange(0, i)) <= digits_value(d),
    decreases d.len() - i,
{
    if i < d.len() {
        lemma_digits_prefix_le(d, i + 1);
        let s = d.subrange(0, i + 1);
        assert(s.drop_last() =~= d.subrange(0, i));
    } else {
        assert(d.subrange(0, i) =~= d);
        lemma_digits_nonneg(d);
    }
}

proof fn lemma_digits_nonneg(d: Seq<u8>)
    requires
        forall|j: int| 0 <= j < d.len() ==> is_digit(#[trigger] d[j]),
    ensures
        digits_value(d) >= 0,
    decreases d.len(),
{
    if d.len() > 0 {
        lemma_digits_nonneg(d.drop_last());
    }
}

/// Decimal digits read back give the number they were written from.
pub proof fn lemma_decimal_round_trip(x: nat)
    ensures
        decimal(x).len() > 0,
        decimal(x)[0] != 43,
        forall|j: int| 0 <= j < decimal(x).len() ==> is_digit(#[trigger] decimal(x)[j]),
        digits_value(decimal(x)) == x,
    decreases x,
{
    if x < 10 {
        assert(decimal(x).drop_last() =~= Seq::<u8>::empty());
        assert(digits_value(decimal(x)) == digits_value(Seq::<u8>::empty()) * 10 + (decimal(x).last() - 48));
    } else {
        lemma_decimal_round_trip(x / 10);
        assert(decimal(x).drop_last() =~= decimal(x / 10));
        assert(decimal(x).last() == (x % 10 + 48) as u8);
        assert((x / 10) * 10 + x % 10 == x);
        assert(digits_value(decimal(x)) == digits_value(decimal(x / 10)) * 10 + (decimal(x).last() - 48));
    }
}

/// Parses an unsigned integer no more than `max` from `v`.
pub fn parse_uint_exec(v: &[u8], max: u32) -> (r: Option<u32>)
    ensures
        r is Some <==> parse_uint(v@, max as int) is Some,
        r is Some ==> r->Some_0 as int == parse_uint(v@, max as int)->Some_0,
{
    let start: usize = if v.len() > 0 && v[0] == 43 { 1 } else { 0 };
    let ghost d = unsigned_part(v@);
    assert(d =~= v@.subrange(start as int, v@.len() as int));
    if start == v.len() {
        assert(d.len() == 0);
        return None;
    }
    let mut i: usize = start;
    while i < v.len()
        invariant
            start <= i <= v@.len(),
            d == v@.subrange(start as int, v@.len() as int),
            d == unsigned_part(v@),
            d.len() > 0,
            forall|j: int| start <= j < i ==> is_digit(#[trigger] v@[j]),
        decreases v@.len() - i,
    {
        if v[i] < 48 || v[i] > 57 {
            assert(!is_digit(d[i - start]));
            assert(!all_digits(d));
            return None;
        }
        i = i + 1;
    }
    assert(forall|j: int| 0 <= j < d.len() ==> is_digit(#[trigger] d[j])) by {
        assert forall|j: int| 0 <= j < d.len() implies is_digit(#[trigger] d[j]) by {
            assert(d[j] == v@[start + j]);
        }
    }
    let mut acc: u32 = 0;
    let mut i: usize = start;
    while i < v.len()
        invariant
            start <= i <= v@.len(),
            d == v@.subrange(start as int, v@.len() as int),
            d == unsigned_part(v@),
            d.len() > 0,
            forall|j: int| 0 <= j < d.len() ==> is_digit(#[trigger] d[j]),
            acc as int == digits_value(d.subrange(0, i - start)),
            acc <= max,
        decreases v@.len() - i,
    {
        assert(is_digit(d[i - start]));
        assert(d[i - start] == v@[i as int]);
        let digit = (v[i] - 48) as u32;
        proof {
            let s = d.subrange(0, i - start + 1);
            assert(s.drop_last() =~= d.subrange(0, i - start));
            assert(s.last() == v@[i as int]);
        }
        if digit > max || acc > (max - digit) / 10 {
            proof {
                lemma_digits_prefix_le(d, i - start + 1);
                if digit <= max {
                    assert(acc * 10 + digit > max) by (nonlinear_arith)
                        requires acc > (max - digit) / 10, digit <= max;
                }
            }
            return None;
        }
        proof {
            assert(acc * 10 + digit <= max) by (nonlinear_arith)
                requires acc <= (max - digit) / 10, digit <= max;
        }
        acc = acc * 10 + digit;
        i = i + 1;
    }
    assert(d.subrange(0, i - start) =~= d);
    Some(acc)
}

} // verus!
