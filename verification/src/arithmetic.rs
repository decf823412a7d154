//! Addition of two numbers that are held as byte images, block by block with
//! a ripple carry, and the 16-byte form of a 128-bit number.

use crate::block_iterator::{iter_file_blocks, BlockIterator, ByteReader};
use crate::le_bytes::{
    byte_digits, le_value, lemma_le_value_bound, lemma_le_value_concat, lemma_le_value_empty,
};
use crate::modulus::lemma_two_pow_64;
use crate::radix::{
    lemma_npow_adds, lemma_npow_positive, lemma_npow_unfold, lemma_radix_value_push, npow,
};
use vstd::prelude::*;
use vstd::std_specs::convert::IntoSpec;

verus! {

/// A huge unsigned integer that is stored in a file.
pub struct HugeUint {
    pub file_path: String,
    /// The number of blocks this file occupies.
    pub num_blocks: usize,
}

impl HugeUint {
    /// The record of a number that is stored under `file_path` in
    /// `num_blocks` blocks.
    pub fn new<S: Into<String>>(file_path: S, num_blocks: usize) -> (r: Self)
        ensures
            S::obeys_into_spec() ==> r.file_path == S::into_spec(file_path),
            r.num_blocks == num_blocks,
    {
        HugeUint { file_path: file_path.into(), num_blocks }
    }

    /// Returns an iterator over this number's blocks, given the byte image
    /// of its file.
    pub fn iter(&self, image: Vec<u8>) -> (r: BlockIterator<ByteReader>)
        ensures
            r.reader().wf(),
            r.reader().remaining() == image@,
    {
        iter_file_blocks(image)
    }
}

/// The value of the first `i` bytes of `s`, or of all of `s` where it is
/// shorter.
pub open spec fn prefix_value(s: Seq<u8>, i: nat) -> nat {
    if i <= s.len() {
        le_value(s.take(i as int))
    } else {
        le_value(s)
    }
}

/// Byte `i` of `s`, or zero behind its end.
pub open spec fn byte_or_zero(s: Seq<u8>, i: nat) -> nat {
    if i < s.len() {
        s[i as int] as nat
    } else {
        0
    }
}

pub proof fn lemma_le_value_push(s: Seq<u8>, b: u8)
    ensures
        le_value(s.push(b)) == le_value(s) + b * npow(256, s.len()),
{
    assert(byte_digits(s.push(b)) =~= byte_digits(s).push(b as nat));
    lemma_radix_value_push(byte_digits(s), b as nat, 256);
}

pub proof fn lemma_prefix_value_step(s: Seq<u8>, i: nat)
    ensures
        prefix_value(s, i + 1) == prefix_value(s, i) + byte_or_zero(s, i) * npow(256, i),
        prefix_value(s, 0) == 0,
        i >= s.len() ==> prefix_value(s, i) == le_value(s),
{
    assert(s.take(0) =~= Seq::<u8>::empty());
    lemma_le_value_empty();
    if i < s.len() {
        assert(s.take((i + 1) as int) =~= s.take(i as int).push(s[i as int]));
        lemma_le_value_push(s.take(i as int), s[i as int]);
    } else {
        assert(s.take(s.len() as int) =~= s);
        let p = npow(256, i);
        assert(0 * p == 0) by (nonlinear_arith);
    }
}

/// Adds two blocks byte by byte, least significant byte first, with a carry
/// coming in and a carry going out. The sum is as long as the longer block.
pub fn add_blocks(block1: &Vec<u8>, block2: &Vec<u8>, carry: u16) -> (r: (Vec<u8>, u16))
    requires
        carry <= 1,
    ensures
        r.0@.len() == if block1@.len() >= block2@.len() {
            block1@.len()
        } else {
            block2@.len()
        },
        r.1 <= 1,
        le_value(r.0@) + r.1 * npow(256, r.0@.len()) == le_value(block1@) + le_value(block2@)
            + carry,
{
    let max_len = if block1.len() >= block2.len() {
        block1.len()
    } else {
        block2.len()
    };
    let mut out_block: Vec<u8> = Vec::with_capacity(max_len);
    let mut carry: u16 = carry;
    let ghost carry_in = carry;
    let mut i: usize = 0;
    proof {
        lemma_prefix_value_step(block1@, 0);
        lemma_prefix_value_step(block2@, 0);
        lemma_le_value_empty();
        assert(out_block@ =~= Seq::<u8>::empty());
        assert(carry * npow(256, 0) == carry) by (nonlinear_arith)
            requires
                npow(256, 0) == 1,
        ;
    }
    while i < max_len
        invariant
            0 <= i <= max_len,
            max_len == if block1@.len() >= block2@.len() {
                block1@.len()
            } else {
                block2@.len()
            },
            carry <= 1,
            out_block@.len() == i,
            le_value(out_block@) + carry * npow(256, i as nat) == prefix_value(block1@, i as nat)
                + prefix_value(block2@, i as nat) + carry_in,
        decreases max_len - i,
    {
        let a: u16 = if i < block1.len() {
            block1[i] as u16
        } else {
            0
        };
        let b: u16 = if i < block2.len() {
            block2[i] as u16
        } else {
            0
        };
        let sum: u16 = a + b + carry;
        let low: u8 = (sum % 256) as u8;
        let ghost prev = out_block@;
        let ghost old_carry = carry;
        out_block.push(low);
        carry = sum / 256;
        proof {
            lemma_prefix_value_step(block1@, i as nat);
            lemma_prefix_value_step(block2@, i as nat);
            lemma_le_value_push(prev, low);
            lemma_npow_unfold(256, i as nat);
            let p = npow(256, i as nat);
            let pnext = npow(256, (i + 1) as nat);
            let lo = low as int;
            let c = carry as int;
            assert(lo * p + c * pnext == (a + b + old_carry) * p) by (nonlinear_arith)
                requires
                    lo + 256 * c == a + b + old_carry,
                    pnext == 256 * p,
            ;
            assert((a + b + old_carry) * p == a * p + b * p + old_carry * p)
                by (nonlinear_arith);
        }
        i += 1;
    }
    proof {
        lemma_prefix_value_step(block1@, max_len as nat);
        lemma_prefix_value_step(block2@, max_len as nat);
    }
    (out_block, carry)
}

/// Adds two numbers that are given as byte images, block by block, and
/// hands back the record and the byte image of the sum. The sum is as long as
/// the longer image, with one more byte where a carry is left at the end, and
/// it is counted with one more block then.
pub fn add_huge_uints(
    a: &HugeUint,
    a_image: Vec<u8>,
    b: &HugeUint,
    b_image: Vec<u8>,
    out: &str,
) -> (r: (HugeUint, Vec<u8>))
    requires
        a.num_blocks < usize::MAX,
        b.num_blocks < usize::MAX,
    ensures
        le_value(r.1@) == le_value(a_image@) + le_value(b_image@),
        r.0.file_path@ == out@,
        ({
            let longer = if a_image@.len() >= b_image@.len() {
                a_image@.len()
            } else {
                b_image@.len()
            };
            let blocks = if a.num_blocks >= b.num_blocks {
                a.num_blocks
            } else {
                b.num_blocks
            };
            let carried = le_value(a_image@) + le_value(b_image@) >= npow(256, longer);
            &&& r.1@.len() == if carried {
                longer + 1
            } else {
                longer
            }
            &&& r.0.num_blocks == if carried {
                blocks + 1
            } else {
                blocks as int
            }
        }),
{
    let ghost sa = a_image@;
    let ghost sb = b_image@;
    let mut iter1 = iter_file_blocks(a_image);
    let mut iter2 = iter_file_blocks(b_image);
    let mut out_image: Vec<u8> = Vec::new();
    let mut carry: u16 = 0;
    let mut result_size = if a.num_blocks >= b.num_blocks {
        a.num_blocks
    } else {
        b.num_blocks
    };
    let mut more = true;
    proof {
        lemma_prefix_value_step(sa, 0);
        lemma_prefix_value_step(sb, 0);
        lemma_le_value_empty();
        assert(out_image@ =~= Seq::<u8>::empty());
        assert(sa.skip(0) =~= sa);
        assert(sb.skip(0) =~= sb);
        assert(0 * npow(256, 0) == 0) by (nonlinear_arith);
    }
    while more
        invariant
            iter1.reader().wf(),
            iter2.reader().wf(),
            carry <= 1,
            ({
                let len = out_image@.len();
                let pa = if len <= sa.len() {
                    len
                } else {
                    sa.len()
                };
                let pb = if len <= sb.len() {
                    len
                } else {
                    sb.len()
                };
                &&& iter1.reader().remaining() == sa.skip(pa as int)
                &&& iter2.reader().remaining() == sb.skip(pb as int)
                &&& len <= sa.len() || len <= sb.len()
                &&& le_value(out_image@) + carry * npow(256, len) == prefix_value(sa, len)
                    + prefix_value(sb, len)
                &&& !more ==> len >= sa.len() && len >= sb.len()
            }),
        decreases
                (sa.len() + sb.len()) - (if out_image@.len() <= sa.len() {
                    out_image@.len()
                } else {
                    sa.len()
                }) - (if out_image@.len() <= sb.len() {
                    out_image@.len()
                } else {
                    sb.len()
                }) + if more {
                    1int
                } else {
                    0int
                },
    {
        let ghost len = out_image@.len();
        let ghost pa = if len <= sa.len() {
            len
        } else {
            sa.len()
        };
        let ghost pb = if len <= sb.len() {
            len
        } else {
            sb.len()
        };
        let ghost rem1 = iter1.reader().remaining();
        let ghost rem2 = iter2.reader().remaining();
        let block1 = match iter1.next_block() {
            Some(block) => block,
            None => Vec::new(),
        };
        let block2 = match iter2.next_block() {
            Some(block) => block,
            None => Vec::new(),
        };
        proof {
            assert(block1@ =~= rem1.take(block1@.len() as int));
            assert(block2@ =~= rem2.take(block2@.len() as int));
            assert(iter1.reader().remaining() =~= rem1.skip(block1@.len() as int));
            assert(iter2.reader().remaining() =~= rem2.skip(block2@.len() as int));
        }
        if block1.len() == 0 && block2.len() == 0 {
            more = false;
        } else {
            let (mut out_block, carry_out) = add_blocks(&block1, &block2, carry);
            let ghost prev = out_image@;
            let ghost ob = out_block@;
            let ghost old_carry = carry;
            out_image.append(&mut out_block);
            carry = carry_out;
            proof {
                let n1 = block1@.len();
                let n2 = block2@.len();
                let step = ob.len();
                let len2 = len + step;
                assert(out_image@ =~= prev + ob);
                lemma_le_value_concat(prev, ob);
                lemma_npow_adds(256, len, step);
                let p = npow(256, len);
                let q = npow(256, step);
                // what the two blocks add to the prefixes
                lemma_prefix_block(sa, len, len2, block1@);
                lemma_prefix_block(sb, len, len2, block2@);
                let v1 = le_value(block1@);
                let v2 = le_value(block2@);
                let vo = le_value(ob);
                let c = carry as int;
                assert(p * vo + c * (p * q) == p * v1 + p * v2 + old_carry * p)
                    by (nonlinear_arith)
                    requires
                        vo + c * q == v1 + v2 + old_carry,
                ;
                assert(sa.skip(pa as int).skip(n1 as int) =~= sa.skip((pa + n1) as int));
                assert(sb.skip(pb as int).skip(n2 as int) =~= sb.skip((pb + n2) as int));
            }
        }
    }
    proof {
        lemma_prefix_value_step(sa, out_image@.len());
        lemma_prefix_value_step(sb, out_image@.len());
        lemma_le_value_bound(out_image@);
        lemma_npow_positive(256, out_image@.len());
        let p = npow(256, out_image@.len());
        let c = carry as int;
        assert(c * p == 0 || c * p == p) by (nonlinear_arith)
            requires
                c == 0 || c == 1,
        ;
    }
    if carry > 0 {
        let ghost prev = out_image@;
        out_image.push(carry as u8);
        proof {
            lemma_le_value_push(prev, carry as u8);
        }
        result_size += 1;
    }
    let result = HugeUint { file_path: out.to_owned(), num_blocks: result_size };
    (result, out_image)
}

/// A block that is read at offset `len`, or nothing behind the end, adds its
/// value at `256^len` to the prefix.
pub proof fn lemma_prefix_block(s: Seq<u8>, len: nat, len2: nat, block: Seq<u8>)
    requires
        len <= len2,
        ({
            let pos = if len <= s.len() {
                len
            } else {
                s.len()
            };
            &&& block == s.skip(pos as int).take(block.len() as int)
            &&& pos + block.len() <= s.len()
            &&& block.len() <= len2 - len
            &&& (pos + block.len() == s.len() || block.len() == len2 - len)
        }),
    ensures
        prefix_value(s, len2) == prefix_value(s, len) + npow(256, len) * le_value(block),
{
    let p = npow(256, len);
    if len <= s.len() {
        let end = len + block.len();
        assert(s.take(end as int) =~= s.take(len as int) + block);
        lemma_le_value_concat(s.take(len as int), block);
        if end == s.len() {
            assert(s.take(end as int) =~= s);
        }
    } else {
        assert(block =~= Seq::<u8>::empty());
        lemma_le_value_empty();
        assert(p * 0 == 0) by (nonlinear_arith);
    }
}

pub proof fn lemma_two_pow_128()
    ensures
        npow(256, 16) == 0x1_0000_0000_0000_0000_0000_0000_0000_0000,
{
    lemma_two_pow_64();
    lemma_npow_adds(256, 8, 8);
    let c = npow(256, 8);
    assert(c * c == 0x1_0000_0000_0000_0000_0000_0000_0000_0000) by (nonlinear_arith)
        requires
            c == 0x1_0000_0000_0000_0000,
    ;
}

/// The 16 bytes of a 128-bit number, least significant first.
pub fn number_to_bytes(num: u128) -> (r: Vec<u8>)
    ensures
        r@.len() == 16,
        le_value(r@) == num,
{
    let mut out: Vec<u8> = Vec::with_capacity(16);
    let mut rest: u128 = num;
    let mut i: usize = 0;
    proof {
        lemma_le_value_empty();
        assert(out@ =~= Seq::<u8>::empty());
        assert(rest * npow(256, 0) == rest) by (nonlinear_arith)
            requires
                npow(256, 0) == 1,
        ;
    }
    while i < 16
        invariant
            0 <= i <= 16,
            out@.len() == i,
            le_value(out@) + rest * npow(256, i as nat) == num,
        decreases 16 - i,
    {
        let low: u8 = (rest % 256) as u8;
        let ghost prev = out@;
        let ghost old_rest = rest;
        out.push(low);
        rest = rest / 256;
        proof {
            lemma_le_value_push(prev, low);
            lemma_npow_unfold(256, i as nat);
            let p = npow(256, i as nat);
            let pnext = npow(256, (i + 1) as nat);
            let lo = low as int;
            let r = rest as int;
            assert(lo * p + r * pnext == old_rest * p) by (nonlinear_arith)
                requires
                    lo + 256 * r == old_rest,
                    pnext == 256 * p,
            ;
        }
        i += 1;
    }
    proof {
        lemma_two_pow_128();
        let p = npow(256, 16);
        let r = rest as int;
        assert(r == 0) by (nonlinear_arith)
            requires
                r * p <= num,
                num < p,
                r >= 0,
                p > 0,
        ;
        assert(0 * p == 0) by (nonlinear_arith);
    }
    out
}

/// The 128-bit number that up to 16 bytes denote, least significant first.
/// Bytes that are missing count as zero; bytes behind the sixteenth are not
/// read.
pub fn number_from_bytes(bytes: &Vec<u8>) -> (r: u128)
    ensures
        r == prefix_value(bytes@, 16),
{
    let n: usize = if bytes.len() < 16 {
        bytes.len()
    } else {
        16
    };
    let ghost s = bytes@.take(n as int);
    let mut r: u128 = 0;
    let mut i: usize = n;
    proof {
        assert(s.skip(n as int) =~= Seq::<u8>::empty());
        lemma_le_value_empty();
        if bytes.len() < 16 {
            assert(s =~= bytes@);
        }
    }
    while i > 0
        invariant
            0 <= i <= n,
            n <= 16,
            s.len() == n,
            s == bytes@.take(n as int),
            n <= bytes@.len(),
            r == le_value(s.skip(i as int)),
        decreases i,
    {
        i -= 1;
        proof {
            let tail = s.skip(i + 1);
            let cur = s.skip(i as int);
            assert(cur =~= seq![s[i as int]] + tail);
            lemma_le_value_concat(seq![s[i as int]], tail);
            crate::le_bytes::lemma_le_value_single(s[i as int]);
            lemma_npow_unfold(256, 0);
            lemma_le_value_bound(cur);
            crate::radix::lemma_npow_increases(256, cur.len(), 16);
            lemma_two_pow_128();
            let t = le_value(tail);
            let pnext = npow(256, 1);
            assert(pnext * t == 256 * t) by (nonlinear_arith)
                requires
                    pnext == 256,
            ;
            assert(seq![s[i as int]].len() == 1);
            assert(le_value(cur) == s[i as int] + 256 * t);
            assert(r == t);
            assert(s[i as int] == bytes@[i as int]);
            let rv = r as int;
            let bv = bytes@[i as int] as int;
            assert(rv * 256 + bv == le_value(cur)) by (nonlinear_arith)
                requires
                    rv == t,
                    le_value(cur) == bv + 256 * t,
            ;
        }
        r = r * 256 + bytes[i] as u128;
    }
    proof {
        assert(s.skip(0) =~= s);
    }
    r
}

} // verus!
