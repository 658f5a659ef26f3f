use vstd::prelude::*;

verus! {

/// The value of four bytes read as a big-endian unsigned integer.
pub open spec fn be_value(b: Seq<u8>) -> int
    recommends
        b.len() == 4,
{
    b[0] as int * 16777216 + b[1] as int * 65536 + b[2] as int * 256 + b[3] as int
}

/// The four big-endian bytes of `x`.
pub open spec fn be_bytes(x: u32) -> Seq<u8> {
    seq![
        (x / 16777216) as u8,
        ((x / 65536) % 256) as u8,
        ((x / 256) % 256) as u8,
        (x % 256) as u8,
    ]
}

pub proof fn lemma_be_value_of_bytes(x: u32)
    ensures
        be_value(be_bytes(x)) == x as int,
        be_bytes(x).len() == 4,
{
}

/// Four bytes are fixed by their big-endian value.
pub proof fn lemma_be_bytes_unique(a: Seq<u8>, b: Seq<u8>)
    requires
        a.len() == 4,
        b.len() == 4,
        be_value(a) == be_value(b),
    ensures
        a == b,
{
    assert(a[0] == b[0]) by (nonlinear_arith)
        requires
            be_value(a) == be_value(b),
            a[0] as int * 16777216 + a[1] as int * 65536 + a[2] as int * 256 + a[3] as int == be_value(a),
            b[0] as int * 16777216 + b[1] as int * 65536 + b[2] as int * 256 + b[3] as int == be_value(b),
            0 <= a[1] < 256, 0 <= a[2] < 256, 0 <= a[3] < 256,
            0 <= b[1] < 256, 0 <= b[2] < 256, 0 <= b[3] < 256,
    ;
    assert(a[1] == b[1]) by (nonlinear_arith)
        requires
            a[1] as int * 65536 + a[2] as int * 256 + a[3] as int == b[1] as int * 65536 + b[2] as int * 256 + b[3] as int,
            0 <= a[2] < 256, 0 <= a[3] < 256,
            0 <= b[2] < 256, 0 <= b[3] < 256,
    ;
    assert(a =~= b);
}

/// Reads four bytes as a big-endian `u32`.
pub fn read_be_u32(b: &[u8], at: usize) -> (r: u32)
    requires
        at + 4 <= b@.len(),
    ensures
        r as int == be_value(b@.subrange(at as int, at + 4)),
{
    (b[at] as u32) * 16777216 + (b[at + 1] as u32) * 65536 + (b[at + 2] as u32) * 256 + (b[at + 3] as u32)
}

/// Writes `x` as four big-endian bytes.
pub fn write_be_u32(x: u32) -> (r: [u8; 4])
    ensures
        r@ == be_bytes(x),
{
    let r = [(x / 16777216) as u8, ((x / 65536) % 256) as u8, ((x / 256) % 256) as u8, (x % 256) as u8];
    assert(r@ =~= be_bytes(x));
    r
}

/// Appends every byte of `b` to `out`.
pub fn push_all(out: &mut Vec<u8>, b: &[u8])
    ensures
        final(out)@ == old(out)@ + b@,
{
    let mut i: usize = 0;
    while i < b.len()
        invariant
            i <= b@.len(),
            out@ == old(out)@ + b@.subrange(0, i as int),
        decreases b@.len() - i,
    {
        out.push(b[i]);
        i = i + 1;
        assert(out@ =~= old(out)@ + b@.subrange(0, i as int));
    }
    assert(b@.subrange(0, i as int) =~= b@);
}

/// A fresh vector holding the bytes of `b[start..end]`.
pub fn copy_range(b: &[u8], start: usize, end: usize) -> (r: Vec<u8>)
    requires
        start <= end <= b@.len(),
    ensures
        r@ == b@.subrange(start as int, end as int),
{
    let mut r: Vec<u8> = Vec::new();
    push_all(&mut r, &b[start..end]);
    r
}

} // verus!
