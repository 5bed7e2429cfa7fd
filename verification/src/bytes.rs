use vstd::prelude::*;

verus! {

/// Little-endian byte image of a `u32`.
pub open spec fn u32_le(v: u32) -> Seq<u8> {
    seq![
        (v & 0xff) as u8,
        ((v >> 8) & 0xff) as u8,
        ((v >> 16) & 0xff) as u8,
        ((v >> 24) & 0xff) as u8,
    ]
}

/// Little-endian byte image of a `u16`.
pub open spec fn u16_le(v: u16) -> Seq<u8> {
    seq![(v & 0xff) as u8, ((v >> 8) & 0xff) as u8]
}

/// Little-endian byte image of an `i32` (two's complement).
pub open spec fn i32_le(v: i32) -> Seq<u8> {
    u32_le(v as u32)
}

/// Little-endian byte image of a sequence of `i32` values, in order.
pub open spec fn i32s_le(s: Seq<i32>) -> Seq<u8>
    decreases s.len(),
{
    if s.len() == 0 {
        Seq::empty()
    } else {
        i32_le(s[0]) + i32s_le(s.subrange(1, s.len() as int))
    }
}

pub proof fn lemma_u32_le_injective(v1: u32, v2: u32)
    requires
        u32_le(v1) == u32_le(v2),
    ensures
        v1 == v2,
{
    assert(((v1 & 0xff) as u8) == ((v2 & 0xff) as u8));
    assert((((v1 >> 8) & 0xff) as u8) == (((v2 >> 8) & 0xff) as u8));
    assert((((v1 >> 16) & 0xff) as u8) == (((v2 >> 16) & 0xff) as u8));
    assert((((v1 >> 24) & 0xff) as u8) == (((v2 >> 24) & 0xff) as u8));
    assert((((v1 & 0xff) as u8) == ((v2 & 0xff) as u8) && (((v1 >> 8) & 0xff) as u8) == (((v2 >> 8)
        & 0xff) as u8) && (((v1 >> 16) & 0xff) as u8) == (((v2 >> 16) & 0xff) as u8) && (((v1 >> 24)
        & 0xff) as u8) == (((v2 >> 24) & 0xff) as u8)) ==> v1 == v2) by (bit_vector);
}

pub proof fn lemma_i32_le_injective(v1: i32, v2: i32)
    requires
        i32_le(v1) == i32_le(v2),
    ensures
        v1 == v2,
{
    lemma_u32_le_injective(v1 as u32, v2 as u32);
    assert((v1 as u32) == (v2 as u32) ==> v1 == v2) by (bit_vector);
}

pub proof fn lemma_i32s_le_len(s: Seq<i32>)
    ensures
        i32s_le(s).len() == 4 * s.len(),
    decreases s.len(),
{
    if s.len() > 0 {
        lemma_i32s_le_len(s.subrange(1, s.len() as int));
    }
}

/// Appending one value appends its four bytes.
pub proof fn lemma_i32s_le_snoc(s: Seq<i32>, v: i32)
    ensures
        i32s_le(s.push(v)) == i32s_le(s) + i32_le(v),
    decreases s.len(),
{
    if s.len() == 0 {
        assert(s.push(v)[0] == v);
        assert(s.push(v).subrange(1, 1) =~= Seq::<i32>::empty());
        assert(i32s_le(s.push(v)) == i32_le(v) + i32s_le(Seq::<i32>::empty()));
        assert(i32s_le(s.push(v)) =~= i32s_le(s) + i32_le(v));
    } else {
        assert(s.push(v).subrange(1, s.len() as int + 1) =~= s.subrange(1, s.len() as int).push(v));
        lemma_i32s_le_snoc(s.subrange(1, s.len() as int), v);
        assert(i32s_le(s.push(v)) =~= i32s_le(s) + i32_le(v));
    }
}

/// Two value sequences of the same length with the same byte image are equal.
pub proof fn lemma_i32s_le_injective(s1: Seq<i32>, s2: Seq<i32>)
    requires
        s1.len() == s2.len(),
        i32s_le(s1) == i32s_le(s2),
    ensures
        s1 == s2,
    decreases s1.len(),
{
    if s1.len() > 0 {
        lemma_i32s_le_len(s1.subrange(1, s1.len() as int));
        lemma_i32s_le_len(s2.subrange(1, s2.len() as int));
        assert(i32_le(s1[0]) =~= i32s_le(s1).subrange(0, 4));
        assert(i32_le(s2[0]) =~= i32s_le(s2).subrange(0, 4));
        lemma_i32_le_injective(s1[0], s2[0]);
        assert(i32s_le(s1.subrange(1, s1.len() as int)) =~= i32s_le(s1).subrange(
            4,
            i32s_le(s1).len() as int,
        ));
        assert(i32s_le(s2.subrange(1, s2.len() as int)) =~= i32s_le(s2).subrange(
            4,
            i32s_le(s2).len() as int,
        ));
        let t1 = s1.subrange(1, s1.len() as int);
        let t2 = s2.subrange(1, s2.len() as int);
        lemma_i32s_le_injective(t1, t2);
        assert forall|i: int| 0 <= i < s1.len() implies s1[i] == s2[i] by {
            if i > 0 {
                assert(s1[i] == t1[i - 1]);
                assert(s2[i] == t2[i - 1]);
            }
        }
        assert(s1 =~= s2);
    } else {
        assert(s1 =~= s2);
    }
}

/// Append the four little-endian bytes of `v` to `out`.
pub fn push_u32_le(out: &mut Vec<u8>, v: u32)
    ensures
        final(out)@ == old(out)@ + u32_le(v),
{
    out.push((v & 0xff) as u8);
    out.push(((v >> 8) & 0xff) as u8);
    out.push(((v >> 16) & 0xff) as u8);
    out.push(((v >> 24) & 0xff) as u8);
    proof {
        assert(final(out)@ =~= old(out)@ + u32_le(v));
    }
}

/// Append the two little-endian bytes of `v` to `out`.
pub fn push_u16_le(out: &mut Vec<u8>, v: u16)
    ensures
        final(out)@ == old(out)@ + u16_le(v),
{
    out.push((v & 0xff) as u8);
    out.push(((v >> 8) & 0xff) as u8);
    proof {
        assert(final(out)@ =~= old(out)@ + u16_le(v));
    }
}

/// Append the four little-endian bytes of `v` to `out`.
pub fn push_i32_le(out: &mut Vec<u8>, v: i32)
    ensures
        final(out)@ == old(out)@ + i32_le(v),
{
    push_u32_le(out, v as u32);
}

/// Append the byte image of every value of `vals` to `out`.
pub fn push_i32s_le(out: &mut Vec<u8>, vals: &Vec<i32>)
    ensures
        final(out)@ == old(out)@ + i32s_le(vals@),
{
    let ghost start = out@;
    let mut i: usize = 0;
    proof {
        assert(vals@.subrange(0, 0) =~= Seq::<i32>::empty());
        assert(out@ =~= start + i32s_le(vals@.subrange(0, 0)));
    }
    while i < vals.len()
        invariant
            i <= vals@.len(),
            out@ == start + i32s_le(vals@.subrange(0, i as int)),
        decreases vals@.len() - i,
    {
        push_i32_le(out, vals[i]);
        proof {
            assert(vals@.subrange(0, i + 1) =~= vals@.subrange(0, i as int).push(vals@[i as int]));
            lemma_i32s_le_snoc(vals@.subrange(0, i as int), vals@[i as int]);
        }
        i = i + 1;
    }
    proof {
        assert(vals@.subrange(0, vals@.len() as int) =~= vals@);
    }
}

/// Read a `u32` from four little-endian bytes: the unique value whose image
/// is those bytes.
pub fn u32_from_le(b0: u8, b1: u8, b2: u8, b3: u8) -> (r: u32)
    ensures
        u32_le(r) == seq![b0, b1, b2, b3],
{
    let r: u32 = (b0 as u32) | ((b1 as u32) << 8) | ((b2 as u32) << 16) | ((b3 as u32) << 24);
    proof {
        let v: u32 = (b0 as u32) | ((b1 as u32) << 8) | ((b2 as u32) << 16) | ((b3 as u32) << 24);
        assert((v & 0xff) == b0 as u32 && ((v >> 8) & 0xff) == b1 as u32 && ((v >> 16) & 0xff)
            == b2 as u32 && ((v >> 24) & 0xff) == b3 as u32) by (bit_vector)
            requires
                v == (b0 as u32) | ((b1 as u32) << 8) | ((b2 as u32) << 16) | ((b3 as u32) << 24),
        ;
        assert(u32_le(r) =~= seq![b0, b1, b2, b3]);
    }
    r
}

/// Read an `i32` from four little-endian bytes.
pub fn i32_from_le(b0: u8, b1: u8, b2: u8, b3: u8) -> (r: i32)
    ensures
        i32_le(r) == seq![b0, b1, b2, b3],
{
    let u = u32_from_le(b0, b1, b2, b3);
    let r = u as i32;
    proof {
        assert((u as i32) as u32 == u) by (bit_vector);
    }
    r
}

/// Parse `count` values from `bytes` starting at `start`: the unique value
/// sequence whose byte image is that range.
pub fn parse_i32s(bytes: &Vec<u8>, start: usize, count: usize) -> (r: Vec<i32>)
    requires
        start + 4 * count <= bytes@.len(),
        bytes@.len() <= 0xffffffff,
    ensures
        r@.len() == count,
        i32s_le(r@) == bytes@.subrange(start as int, start + 4 * count),
{
    let mut r: Vec<i32> = Vec::new();
    let mut i: usize = 0;
    proof {
        assert(i32s_le(r@) =~= bytes@.subrange(start as int, start as int));
    }
    while i < count
        invariant
            i <= count,
            start + 4 * count <= bytes@.len(),
            bytes@.len() <= 0xffffffff,
            r@.len() == i,
            i32s_le(r@) == bytes@.subrange(start as int, start + 4 * i),
        decreases count - i,
    {
        let off = start + 4 * i;
        let v = i32_from_le(bytes[off], bytes[off + 1], bytes[off + 2], bytes[off + 3]);
        proof {
            lemma_i32s_le_snoc(r@, v);
            assert(i32_le(v) =~= seq![
                bytes@[off as int],
                bytes@[off + 1],
                bytes@[off + 2],
                bytes@[off + 3],
            ]);
            assert(bytes@.subrange(start as int, start + 4 * (i + 1)) =~= bytes@.subrange(
                start as int,
                start + 4 * i,
            ) + seq![bytes@[off as int], bytes@[off + 1], bytes@[off + 2], bytes@[off + 3]]);
        }
        r.push(v);
        i = i + 1;
    }
    r
}

} // verus!
