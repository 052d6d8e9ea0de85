//! Little-endian integer fields inside byte buffers: the size word of a
//! single entry, the `next` pointer of a multipart entry, and the two
//! header counters are all stored this way.
use vstd::prelude::*;

verus! {

/// The value of a two-byte little-endian word.
pub open spec fn le16_of(b0: u8, b1: u8) -> int {
    b0 + 0x100 * b1
}

/// The value of an eight-byte little-endian word given as a sequence.
pub open spec fn le64_of(s: Seq<u8>) -> int
    recommends
        s.len() == 8,
{
    s[0] + 0x100 * s[1] + 0x1_0000 * s[2] + 0x100_0000 * s[3] + 0x1_0000_0000 * s[4]
        + 0x100_0000_0000 * s[5] + 0x1_0000_0000_0000 * s[6] + 0x100_0000_0000_0000 * s[7]
}

/// Every eight-byte little-endian word fits in a `u64`.
pub proof fn lemma_le64_bounds(s: Seq<u8>)
    requires
        s.len() == 8,
    ensures
        0 <= le64_of(s) < 0x1_0000_0000_0000_0000,
{
}

/// Reads the eight-byte little-endian word at `pos`.
pub fn read_le64_at(b: &Vec<u8>, pos: usize) -> (r: u64)
    requires
        pos + 8 <= b@.len(),
    ensures
        r == le64_of(b@.subrange(pos as int, pos + 8)),
{
    let n: usize = b.len();
    let x0 = b[pos] as u64;
    let x1 = b[pos + 1] as u64;
    let x2 = b[pos + 2] as u64;
    let x3 = b[pos + 3] as u64;
    let x4 = b[pos + 4] as u64;
    let x5 = b[pos + 5] as u64;
    let x6 = b[pos + 6] as u64;
    let x7 = b[pos + 7] as u64;
    let r = x0 + 0x100 * x1 + 0x1_0000 * x2 + 0x100_0000 * x3 + 0x1_0000_0000 * x4
        + 0x100_0000_0000 * x5 + 0x1_0000_0000_0000 * x6 + 0x100_0000_0000_0000 * x7;
    proof {
        let s = b@.subrange(pos as int, pos + 8);
        assert(s[0] == b@[pos as int] && s[1] == b@[pos + 1] && s[2] == b@[pos + 2] && s[3]
            == b@[pos + 3] && s[4] == b@[pos + 4] && s[5] == b@[pos + 5] && s[6] == b@[pos + 6]
            && s[7] == b@[pos + 7]);
    }
    r
}

/// Appends the eight-byte little-endian encoding of `x` to `out`.
pub fn push_le64(out: &mut Vec<u8>, x: u64)
    ensures
        final(out)@.len() == old(out)@.len() + 8,
        final(out)@.subrange(0, old(out)@.len() as int) == old(out)@,
        le64_of(final(out)@.subrange(old(out)@.len() as int, old(out)@.len() + 8 as int)) == x,
{
    let ghost n = out@.len() as int;
    let b0: u8 = (x % 0x100) as u8;
    let b1: u8 = ((x / 0x100) % 0x100) as u8;
    let b2: u8 = ((x / 0x1_0000) % 0x100) as u8;
    let b3: u8 = ((x / 0x100_0000) % 0x100) as u8;
    let b4: u8 = ((x / 0x1_0000_0000) % 0x100) as u8;
    let b5: u8 = ((x / 0x100_0000_0000) % 0x100) as u8;
    let b6: u8 = ((x / 0x1_0000_0000_0000) % 0x100) as u8;
    let b7: u8 = (x / 0x100_0000_0000_0000) as u8;
    out.push(b0);
    out.push(b1);
    out.push(b2);
    out.push(b3);
    out.push(b4);
    out.push(b5);
    out.push(b6);
    out.push(b7);
    proof {
        let s = out@.subrange(n, n + 8);
        assert(s[0] == b0 && s[1] == b1 && s[2] == b2 && s[3] == b3 && s[4] == b4 && s[5] == b5
            && s[6] == b6 && s[7] == b7);
        lemma_le64_recompose(x);
        assert(out@.subrange(0, n) =~= old(out)@);
    }
}

/// Splitting a `u64` into its eight little-endian bytes and summing them
/// back gives the original value.
proof fn lemma_le64_recompose(x: u64)
    ensures
        (x % 0x100) + 0x100 * ((x / 0x100) % 0x100) + 0x1_0000 * ((x / 0x1_0000) % 0x100)
            + 0x100_0000 * ((x / 0x100_0000) % 0x100) + 0x1_0000_0000 * ((x / 0x1_0000_0000)
            % 0x100) + 0x100_0000_0000 * ((x / 0x100_0000_0000) % 0x100) + 0x1_0000_0000_0000 * ((x
            / 0x1_0000_0000_0000) % 0x100) + 0x100_0000_0000_0000 * ((x / 0x100_0000_0000_0000)
            % 0x100) == x,
{
    assert((x % 0x100) + 0x100 * ((x / 0x100) % 0x100) + 0x1_0000 * ((x / 0x1_0000) % 0x100)
        + 0x100_0000 * ((x / 0x100_0000) % 0x100) + 0x1_0000_0000 * ((x / 0x1_0000_0000) % 0x100)
        + 0x100_0000_0000 * ((x / 0x100_0000_0000) % 0x100) + 0x1_0000_0000_0000 * ((x
        / 0x1_0000_0000_0000) % 0x100) + 0x100_0000_0000_0000 * ((x / 0x100_0000_0000_0000)
        % 0x100) == x) by (bit_vector);
}

/// Appends the two-byte little-endian encoding of `x` to `out`.
pub fn push_le16(out: &mut Vec<u8>, x: u16)
    ensures
        final(out)@.len() == old(out)@.len() + 2,
        final(out)@.subrange(0, old(out)@.len() as int) == old(out)@,
        le16_of(final(out)@[old(out)@.len() as int], final(out)@[old(out)@.len() + 1 as int]) == x,
{
    let b0: u8 = (x % 0x100) as u8;
    let b1: u8 = (x / 0x100) as u8;
    out.push(b0);
    out.push(b1);
    proof {
        assert(b0 + 0x100 * b1 == x) by (bit_vector)
            requires
                b0 == (x % 0x100) as u8 && b1 == (x / 0x100) as u8,
        ;
        assert(final(out)@.subrange(0, old(out)@.len() as int) =~= old(out)@);
    }
}

/// Copies `src[start..end]` into a fresh vector.
#[verifier::loop_isolation(false)]
pub fn copy_range(src: &Vec<u8>, start: usize, end: usize) -> (r: Vec<u8>)
    requires
        start <= end <= src@.len(),
    ensures
        r@ == src@.subrange(start as int, end as int),
{
    let n: usize = src.len();
    let mut r: Vec<u8> = Vec::new();
    let mut i: usize = start;
    while i < end
        invariant
            start <= i <= end,
            r@ == src@.subrange(start as int, i as int),
        decreases end - i,
    {
        r.push(src[i]);
        proof {
            assert(r@ =~= src@.subrange(start as int, i + 1));
        }
        i = i + 1;
    }
    r
}

/// Appends `src[start..end]` to `dst`.
#[verifier::loop_isolation(false)]
pub fn append_range(dst: &mut Vec<u8>, src: &Vec<u8>, start: usize, end: usize)
    requires
        start <= end <= src@.len(),
    ensures
        final(dst)@ == old(dst)@ + src@.subrange(start as int, end as int),
{
    let n: usize = src.len();
    let mut i: usize = start;
    while i < end
        invariant
            start <= i <= end,
            dst@ == old(dst)@ + src@.subrange(start as int, i as int),
        decreases end - i,
    {
        dst.push(src[i]);
        proof {
            assert(dst@ =~= old(dst)@ + src@.subrange(start as int, i + 1));
        }
        i = i + 1;
    }
    proof {
        assert(dst@ =~= old(dst)@ + src@.subrange(start as int, end as int));
    }
}

/// Overwrites `dst[pos..pos+src.len()]` with the bytes of `src`.
#[verifier::loop_isolation(false)]
pub fn write_range(dst: &mut Vec<u8>, pos: usize, src: &Vec<u8>)
    requires
        pos + src@.len() <= old(dst)@.len(),
    ensures
        final(dst)@.len() == old(dst)@.len(),
        final(dst)@.subrange(pos as int, pos + src@.len()) == src@,
        forall|i: int|
            0 <= i < old(dst)@.len() && !(pos <= i < pos + src@.len()) ==> final(dst)@[i] == old(
                dst,
            )@[i],
{
    let dn: usize = dst.len();
    let n: usize = src.len();
    let mut i: usize = 0;
    while i < n
        invariant
            0 <= i <= n,
            n == src@.len(),
            dst@.len() == old(dst)@.len(),
            forall|j: int| 0 <= j < i ==> dst@[pos + j] == src@[j],
            forall|j: int|
                0 <= j < old(dst)@.len() && !(pos <= j < pos + i) ==> dst@[j] == old(dst)@[j],
        decreases n - i,
    {
        dst.set(pos + i, src[i]);
        i = i + 1;
    }
    proof {
        assert(dst@.subrange(pos as int, pos + src@.len()) =~= src@);
    }
}

/// Compares `a[a_off..a_off+len]` with `b[b_off..b_off+len]`.
#[verifier::loop_isolation(false)]
pub fn eq_range(a: &Vec<u8>, a_off: usize, b: &Vec<u8>, b_off: usize, len: usize) -> (r: bool)
    requires
        a_off + len <= a@.len(),
        b_off + len <= b@.len(),
    ensures
        r == (a@.subrange(a_off as int, a_off + len) == b@.subrange(b_off as int, b_off + len)),
{
    let an: usize = a.len();
    let bn: usize = b.len();
    let mut i: usize = 0;
    while i < len
        invariant
            0 <= i <= len,
            forall|j: int| 0 <= j < i ==> #[trigger] a@[a_off + j] == b@[b_off + j],
        decreases len - i,
    {
        if a[a_off + i] != b[b_off + i] {
            proof {
                assert(a@.subrange(a_off as int, a_off + len)[i as int] != b@.subrange(
                    b_off as int,
                    b_off + len,
                )[i as int]);
            }
            return false;
        }
        i = i + 1;
    }
    proof {
        assert forall|k: int| 0 <= k < len implies #[trigger] a@.subrange(a_off as int, a_off + len)[k]
            == b@.subrange(b_off as int, b_off + len)[k] by {
            assert(a@[a_off + k] == b@[b_off + k]);
        }
        assert(a@.subrange(a_off as int, a_off + len) =~= b@.subrange(b_off as int, b_off + len));
    }
    true
}

} // verus!
