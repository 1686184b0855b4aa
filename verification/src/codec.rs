//! Byte-level codecs: little-endian integer encoding, message padding, and
//! the length-prefixed marshalling of block sequences.

use vstd::prelude::*;
use crate::result::Error;

verus! {

/// The value of a byte string read as a little-endian natural number.
pub open spec fn le_nat(s: Seq<u8>) -> nat
    decreases s.len(),
{
    if s.len() == 0 {
        0
    } else {
        (s[0] + 256 * le_nat(s.skip(1))) as nat
    }
}

/// The `n`-byte little-endian encoding of `v` (mod 256^n).
pub open spec fn le_bytes(v: nat, n: nat) -> Seq<u8>
    decreases n,
{
    if n == 0 {
        Seq::empty()
    } else {
        seq![(v % 256) as u8] + le_bytes(v / 256, (n - 1) as nat)
    }
}

/// 256 raised to the `n`-th power.
pub open spec fn pow256(n: nat) -> nat
    decreases n,
{
    if n == 0 {
        1
    } else {
        256 * pow256((n - 1) as nat)
    }
}

pub proof fn lemma_pow256_positive(n: nat)
    ensures
        pow256(n) >= 1,
    decreases n,
{
    if n > 0 {
        lemma_pow256_positive((n - 1) as nat);
    }
}

pub proof fn lemma_pow256_increases(a: nat, b: nat)
    requires
        a <= b,
    ensures
        pow256(a) <= pow256(b),
    decreases b,
{
    if a < b {
        lemma_pow256_increases(a, (b - 1) as nat);
        lemma_pow256_positive((b - 1) as nat);
    }
}

/// The concrete sizes of the powers of 256 used by the eight-byte fields.
pub proof fn lemma_pow256_vals()
    ensures
        pow256(7) == 0x100_0000_0000_0000,
        pow256(8) == 0x1_0000_0000_0000_0000,
{
    reveal_with_fuel(pow256, 10);
}

/// A little-endian value is bounded by 256 to the number of its bytes.
pub proof fn lemma_le_nat_bound(s: Seq<u8>)
    ensures
        le_nat(s) < pow256(s.len()),
    decreases s.len(),
{
    if s.len() > 0 {
        lemma_le_nat_bound(s.skip(1));
    }
}

/// Concatenation splits a little-endian value into low and high parts.
pub proof fn lemma_le_nat_append(a: Seq<u8>, b: Seq<u8>)
    ensures
        le_nat(a + b) == le_nat(a) + pow256(a.len()) * le_nat(b),
    decreases a.len(),
{
    if a.len() == 0 {
        assert(a + b =~= b);
        assert(le_nat(a) == 0);
        assert(pow256(a.len()) == 1);
        vstd::arithmetic::mul::lemma_mul_basics(le_nat(b) as int);
        assert(pow256(a.len()) * le_nat(b) == le_nat(b));
    } else {
        assert((a + b)[0] == a[0]);
        assert((a + b).skip(1) =~= a.skip(1) + b);
        lemma_le_nat_append(a.skip(1), b);
        let x = le_nat(a.skip(1)) as int;
        let p = pow256((a.len() - 1) as nat) as int;
        let y = le_nat(b) as int;
        assert(a.skip(1).len() == a.len() - 1);
        assert(le_nat(a.skip(1) + b) == x + p * y);
        assert(le_nat(a + b) == a[0] + 256 * (x + p * y));
        assert(256 * (x + p * y) == 256 * x + 256 * (p * y)) by {
            vstd::arithmetic::mul::lemma_mul_is_distributive_add(256, x, p * y);
        }
        assert(256 * (p * y) == (256 * p) * y) by {
            vstd::arithmetic::mul::lemma_mul_is_associative(256, p, y);
        }
        assert(le_nat(a) == a[0] + 256 * x);
        assert(pow256(a.len()) == 256 * p);
        assert(le_nat(a + b) == le_nat(a) + (256 * p) * y);
        assert(pow256(a.len()) * le_nat(b) == (256 * p) * y);
    }
}

/// `le_bytes` always yields exactly `n` bytes.
pub proof fn lemma_le_bytes_len(v: nat, n: nat)
    ensures
        le_bytes(v, n).len() == n,
    decreases n,
{
    if n > 0 {
        lemma_le_bytes_len(v / 256, (n - 1) as nat);
    }
}

/// Encoding then decoding restores any value that fits in `n` bytes.
pub proof fn lemma_le_bytes_nat(v: nat, n: nat)
    requires
        v < pow256(n),
    ensures
        le_nat(le_bytes(v, n)) == v,
    decreases n,
{
    if n > 0 {
        let rest = le_bytes(v / 256, (n - 1) as nat);
        assert(le_bytes(v, n).skip(1) =~= rest);
        assert(v / 256 < pow256((n - 1) as nat)) by {
            lemma_pow256_positive((n - 1) as nat);
            assert(v < 256 * pow256((n - 1) as nat));
        }
        lemma_le_bytes_nat(v / 256, (n - 1) as nat);
        assert(v % 256 + 256 * (v / 256) == v) by {
            vstd::arithmetic::div_mod::lemma_fundamental_div_mod(v as int, 256);
        }
    }
}

/// A run of zero bytes encodes the value zero.
pub proof fn lemma_le_nat_zeros(s: Seq<u8>)
    requires
        forall|i: int| 0 <= i < s.len() ==> s[i] == 0,
    ensures
        le_nat(s) == 0,
    decreases s.len(),
{
    if s.len() > 0 {
        lemma_le_nat_zeros(s.skip(1));
    }
}

/// Appending zero bytes does not change the little-endian value.
pub proof fn lemma_le_nat_zero_extend(s: Seq<u8>, z: Seq<u8>)
    requires
        forall|i: int| 0 <= i < z.len() ==> z[i] == 0,
    ensures
        le_nat(s + z) == le_nat(s),
{
    lemma_le_nat_append(s, z);
    lemma_le_nat_zeros(z);
}

/// Two byte strings of one length with one little-endian value are equal.
pub proof fn lemma_le_nat_injective(a: Seq<u8>, b: Seq<u8>)
    requires
        a.len() == b.len(),
        le_nat(a) == le_nat(b),
    ensures
        a == b,
    decreases a.len(),
{
    if a.len() > 0 {
        assert(a[0] + 256 * le_nat(a.skip(1)) == b[0] + 256 * le_nat(b.skip(1)));
        assert(a[0] == b[0] && le_nat(a.skip(1)) == le_nat(b.skip(1))) by {
            vstd::arithmetic::div_mod::lemma_fundamental_div_mod_converse(
                le_nat(a) as int,
                256,
                le_nat(a.skip(1)) as int,
                a[0] as int,
            );
            vstd::arithmetic::div_mod::lemma_fundamental_div_mod_converse(
                le_nat(b) as int,
                256,
                le_nat(b.skip(1)) as int,
                b[0] as int,
            );
        }
        lemma_le_nat_injective(a.skip(1), b.skip(1));
        assert forall|i: int| 0 <= i < a.len() implies a[i] == b[i] by {
            if i > 0 {
                assert(a[i] == a.skip(1)[i - 1]);
                assert(b[i] == b.skip(1)[i - 1]);
            }
        }
        assert(a =~= b);
    } else {
        assert(a =~= b);
    }
}


/// The canonical little-endian encoding of `v`: no trailing zero byte, and
/// the empty string for zero.
pub open spec fn le_min(v: nat) -> Seq<u8>
    decreases v,
{
    if v == 0 {
        Seq::empty()
    } else {
        seq![(v % 256) as u8] + le_min(v / 256)
    }
}

/// Decoding the canonical encoding restores the value.
pub proof fn lemma_le_min_value(v: nat)
    ensures
        le_nat(le_min(v)) == v,
    decreases v,
{
    if v > 0 {
        assert(le_min(v).skip(1) =~= le_min(v / 256));
        lemma_le_min_value(v / 256);
        assert(v % 256 + 256 * (v / 256) == v) by {
            vstd::arithmetic::div_mod::lemma_fundamental_div_mod(v as int, 256);
        }
    }
}

/// The canonical encoding is empty only for zero and never ends in a zero
/// byte.
pub proof fn lemma_le_min_form(v: nat)
    ensures
        v == 0 <==> le_min(v).len() == 0,
        le_min(v).len() > 0 ==> le_min(v)[le_min(v).len() - 1] != 0,
    decreases v,
{
    if v > 0 {
        lemma_le_min_form(v / 256);
        if v / 256 == 0 {
            assert(le_min(v) =~= seq![(v % 256) as u8]);
            assert(v % 256 != 0) by {
                vstd::arithmetic::div_mod::lemma_fundamental_div_mod(v as int, 256);
            }
        } else {
            let rest = le_min(v / 256);
            assert(le_min(v)[le_min(v).len() - 1] == rest[rest.len() - 1]);
        }
    }
}

/// A value below 256^n has a canonical encoding of at most `n` bytes.
pub proof fn lemma_le_min_len(v: nat, n: nat)
    requires
        v < pow256(n),
    ensures
        le_min(v).len() <= n,
    decreases n,
{
    if v > 0 {
        assert(n > 0);
        assert(v / 256 < pow256((n - 1) as nat)) by {
            lemma_pow256_positive((n - 1) as nat);
        }
        lemma_le_min_len(v / 256, (n - 1) as nat);
    }
}

/// Zero-extension of a byte string to at least `n` bytes.
pub open spec fn zext(s: Seq<u8>, n: nat) -> Seq<u8> {
    if s.len() >= n {
        s
    } else {
        s + Seq::new((n - s.len()) as nat, |i: int| 0u8)
    }
}

/// The canonical encoding of a value, zero-extended to the width it was
/// read from, is the original byte string.
pub proof fn lemma_le_min_zext(s: Seq<u8>)
    ensures
        zext(le_min(le_nat(s)), s.len()) == s,
{
    let v = le_nat(s);
    let c = le_min(v);
    lemma_le_min_value(v);
    lemma_le_nat_bound(s);
    lemma_le_min_len(v, s.len());
    let z = zext(c, s.len());
    assert(forall|i: int| c.len() <= i < z.len() ==> z[i] == 0);
    lemma_le_nat_zero_extend(c, z.skip(c.len() as int));
    assert(c + z.skip(c.len() as int) =~= z);
    assert(le_nat(z) == v);
    lemma_le_nat_injective(z, s);
}

// ---------------------------------------------------------------------------
// Padding
// ---------------------------------------------------------------------------

/// Number of filler bytes needed to round `len` up to a multiple of `k`.
pub open spec fn pad_gap(len: nat, k: nat) -> nat
    recommends
        k > 0,
{
    if len % k == 0 {
        0
    } else {
        (k - len % k) as nat
    }
}

/// The padded form of `b` for block size `k`: zero filler up to the block
/// boundary, then one extra block whose final eight bytes record the filler
/// length as a little-endian integer.
pub open spec fn pad_spec(b: Seq<u8>, k: nat) -> Seq<u8>
    recommends
        k >= 8,
{
    let gap = pad_gap(b.len(), k);
    b + Seq::new(gap, |i: int| 0u8) + Seq::new((k - 8) as nat, |i: int| 0u8) + le_bytes(gap, 8)
}

/// Reads the trailing length tag and strips the padding; `None` when the
/// buffer is too short or the tag is inconsistent.
pub open spec fn unpad_spec(s: Seq<u8>, k: nat) -> Option<Seq<u8>>
    recommends
        k >= 8,
{
    if s.len() < 8 || s.len() < k {
        None
    } else {
        let gap = le_nat(s.skip(s.len() - 8));
        if gap + k > s.len() {
            None
        } else {
            Some(s.take(s.len() - k - gap))
        }
    }
}

/// Padding always rounds the length up to a whole number of blocks, and
/// unpadding restores the original bytes exactly.
pub proof fn lemma_pad_round_trip(b: Seq<u8>, k: nat)
    requires
        8 <= k <= u64::MAX,
    ensures
        pad_spec(b, k).len() as int % (k as int) == 0,
        unpad_spec(pad_spec(b, k), k) == Some(b),
{
    let gap = pad_gap(b.len(), k);
    let zs = Seq::new(gap, |i: int| 0u8) + Seq::new((k - 8) as nat, |i: int| 0u8);
    let tag = le_bytes(gap, 8);
    let s = pad_spec(b, k);
    lemma_le_bytes_len(gap, 8);
    assert(s =~= (b + zs) + tag);
    assert(s.len() == b.len() + gap + k);

    assert((b.len() + gap) as int % (k as int) == 0) by {
        if b.len() as int % (k as int) != 0 {
            let q = b.len() as int / k as int;
            vstd::arithmetic::div_mod::lemma_fundamental_div_mod(b.len() as int, k as int);
            assert(b.len() + gap == q * k + k);
            assert((q + 1) * k == q * k + 1 * k) by {
                vstd::arithmetic::mul::lemma_mul_is_distributive_add_other_way(
                    k as int,
                    q,
                    1,
                );
            }
            vstd::arithmetic::div_mod::lemma_mod_multiples_basic(q + 1, k as int);
        }
    }
    assert(s.len() as int % (k as int) == 0) by {
        assert(s.len() == k + (b.len() + gap));
        vstd::arithmetic::div_mod::lemma_mod_add_multiples_vanish(
            (b.len() + gap) as int,
            k as int,
        );
    }

    assert(s.skip(s.len() - 8) =~= tag);
    assert(gap < pow256(8)) by {
        lemma_pow256_vals();
    }
    lemma_le_bytes_nat(gap, 8);
    assert(le_nat(s.skip(s.len() - 8)) == gap);
    assert(s.take(s.len() - k - gap) =~= b);
}

/// Pads `bytes` to a whole number of `block_size`-byte blocks, appending one
/// further block whose last eight bytes record the filler length.
pub fn pad_message(bytes: &[u8], block_size: usize) -> (r: Vec<u8>)
    requires
        block_size >= 8,
        bytes@.len() + 2 * block_size <= usize::MAX,
    ensures
        r@ == pad_spec(bytes@, block_size as nat),
{
    let len = bytes.len();
    let gap: usize = if len % block_size == 0 {
        0
    } else {
        block_size - len % block_size
    };
    assert(gap == pad_gap(bytes@.len(), block_size as nat));
    let mut out = vstd::slice::slice_to_vec(bytes);
    proof {
        assert(out@ =~= bytes@ + Seq::new(0, |j: int| 0u8));
    }
    let mut i: usize = 0;
    while i < gap
        invariant
            i <= gap,
            out@ == bytes@ + Seq::new(i as nat, |j: int| 0u8),
        decreases gap - i,
    {
        out.push(0u8);
        assert(out@ =~= bytes@ + Seq::new((i + 1) as nat, |j: int| 0u8));
        i = i + 1;
    }
    let zeros = block_size - 8;
    proof {
        assert(out@ =~= bytes@ + Seq::new(gap as nat, |t: int| 0u8) + Seq::new(0, |t: int| 0u8));
    }
    let mut j: usize = 0;
    while j < zeros
        invariant
            j <= zeros,
            out@ == bytes@ + Seq::new(gap as nat, |t: int| 0u8) + Seq::new(j as nat, |t: int| 0u8),
        decreases zeros - j,
    {
        out.push(0u8);
        assert(out@ =~= bytes@ + Seq::new(gap as nat, |t: int| 0u8) + Seq::new(
            (j + 1) as nat,
            |t: int| 0u8,
        ));
        j = j + 1;
    }
    let mut v: usize = gap;
    let ghost base = out@;
    proof {
        assert(out@ =~= base + le_bytes(gap as nat, 0));
    }
    let mut t: usize = 0;
    while t < 8
        invariant
            t <= 8,
            gap <= usize::MAX,
            out@ == base + le_bytes(gap as nat, t as nat),
            v == spec_shr256(gap as nat, t as nat),
        decreases 8 - t,
    {
        proof {
            lemma_le_bytes_snoc(gap as nat, t as nat);
            lemma_le_bytes_len(gap as nat, t as nat);
        }
        out.push((v % 256) as u8);
        v = v / 256;
        t = t + 1;
    }
    proof {
        assert(out@ =~= pad_spec(bytes@, block_size as nat));
    }
    out
}

/// `v` shifted right by `t` bytes.
pub open spec fn spec_shr256(v: nat, t: nat) -> nat
    decreases t,
{
    if t == 0 {
        v
    } else {
        spec_shr256(v, (t - 1) as nat) / 256
    }
}

proof fn lemma_shr256_step(v: nat, t: nat)
    ensures
        spec_shr256(v / 256, t) == spec_shr256(v, (t + 1) as nat),
    decreases t,
{
    if t > 0 {
        lemma_shr256_step(v, (t - 1) as nat);
        assert(spec_shr256(v / 256, t) == spec_shr256(v / 256, (t - 1) as nat) / 256);
        assert(spec_shr256(v, (t + 1) as nat) == spec_shr256(v, t) / 256);
    } else {
        assert(spec_shr256(v / 256, 0) == v / 256);
        assert(spec_shr256(v, 1) == spec_shr256(v, 0) / 256);
    }
}

/// Extending a little-endian encoding by one byte appends the next digit of
/// the value.
pub proof fn lemma_le_bytes_snoc(v: nat, t: nat)
    ensures
        le_bytes(v, (t + 1) as nat) == le_bytes(v, t) + seq![(spec_shr256(v, t) % 256) as u8],
    decreases t,
{
    if t == 0 {
        assert(le_bytes(v, 1) =~= seq![(v % 256) as u8] + le_bytes(v / 256, 0));
        assert(le_bytes(v, 1) =~= le_bytes(v, 0) + seq![(spec_shr256(v, 0) % 256) as u8]);
    } else {
        lemma_le_bytes_snoc(v / 256, (t - 1) as nat);
        assert(le_bytes(v, (t + 1) as nat) =~= seq![(v % 256) as u8] + le_bytes(
            v / 256,
            t as nat,
        ));
        lemma_shr256_step(v, (t - 1) as nat);
        assert(spec_shr256(v / 256, (t - 1) as nat) == spec_shr256(v, t));
        assert(le_bytes(v, (t + 1) as nat) =~= le_bytes(v, t) + seq![
            (spec_shr256(v, t) % 256) as u8,
        ]);
    }
}

/// Strips the padding written by [`pad_message`]; rejects buffers whose
/// trailing length tag is inconsistent with their size.
pub fn unpad_message(bytes: &[u8], block_size: usize) -> (r: Result<Vec<u8>, Error>)
    requires
        block_size >= 8,
    ensures
        (match r {
            Ok(m) => unpad_spec(bytes@, block_size as nat) == Some(m@),
            Err(e) => unpad_spec(bytes@, block_size as nat) is None && e == Error::MessageNotFound,
        }),
{
    let len = bytes.len();
    if len < 8 || len < block_size {
        return Err(Error::MessageNotFound);
    }
    let mut gap: u64 = 0;
    let mut t: usize = 0;
    proof {
        assert(bytes@.subrange(len as int, len as int) =~= Seq::<u8>::empty());
    }
    // read the trailing eight bytes: last byte is most significant
    while t < 8
        invariant
            t <= 8,
            len == bytes@.len(),
            8 <= len,
            gap == le_nat(bytes@.subrange(len - t, len as int)),
            gap < pow256(t as nat),
        decreases 8 - t,
    {
        let b = bytes[len - t - 1];
        proof {
            let s_old = bytes@.subrange(len - t, len as int);
            let s_new = bytes@.subrange(len - t - 1, len as int);
            assert(s_new.skip(1) =~= s_old);
            assert(s_new[0] == b);
            assert(le_nat(s_new) == b + 256 * le_nat(s_old));
            lemma_pow256_vals();
            lemma_pow256_increases(t as nat, 7);
        }
        gap = b as u64 + 256 * gap;
        t = t + 1;
    }
    proof {
        assert(bytes@.subrange(len - 8, len as int) =~= bytes@.skip(len - 8));
    }
    if gap > (len - block_size) as u64 {
        return Err(Error::MessageNotFound);
    }
    let gap = gap as usize;
    let keep = len - block_size - gap;
    let out = vstd::slice::slice_to_vec(vstd::slice::slice_subrange(bytes, 0, keep));
    proof {
        assert(out@ =~= bytes@.take(len - block_size - gap));
    }
    Ok(out)
}


/// A byte string forced to exactly `n` bytes: truncated, or zero-filled.
pub open spec fn resize_spec(s: Seq<u8>, n: nat) -> Seq<u8> {
    if n <= s.len() {
        s.take(n as int)
    } else {
        zext(s, n)
    }
}

/// Forces a byte vector to exactly `n` bytes, truncating or zero-filling.
pub fn resize_bytes(v: Vec<u8>, n: usize) -> (r: Vec<u8>)
    ensures
        r@ == resize_spec(v@, n as nat),
{
    let mut v = v;
    let ghost s = v@;
    if n <= v.len() {
        v.truncate(n);
        proof {
            assert(v@ =~= resize_spec(s, n as nat));
        }
        v
    } else {
        while v.len() < n
            invariant
                s == v@.take(s.len() as int),
                s.len() <= v@.len() <= n,
                forall|j: int| s.len() <= j < v@.len() ==> v@[j] == 0,
            decreases n - v@.len(),
        {
            v.push(0u8);
            proof {
                assert(v@.take(s.len() as int) =~= s);
            }
        }
        proof {
            assert(v@ =~= resize_spec(s, n as nat));
        }
        v
    }
}

/// Whether two byte strings are equal, decided byte by byte.
pub fn bytes_equal(a: &[u8], b: &[u8]) -> (r: bool)
    ensures
        r == (a@ == b@),
{
    if a.len() != b.len() {
        return false;
    }
    let mut i: usize = 0;
    while i < a.len()
        invariant
            i <= a@.len(),
            a@.len() == b@.len(),
            forall|j: int| 0 <= j < i ==> a@[j] == b@[j],
        decreases a@.len() - i,
    {
        if a[i] != b[i] {
            return false;
        }
        i = i + 1;
    }
    proof {
        assert(a@ =~= b@);
    }
    true
}

// ---------------------------------------------------------------------------
// Marshalling
// ---------------------------------------------------------------------------

/// The wire form of a block sequence: each block preceded by its length as an
/// eight-byte little-endian integer.
pub open spec fn marshal_spec(bs: Seq<Seq<u8>>) -> Seq<u8>
    decreases bs.len(),
{
    if bs.len() == 0 {
        Seq::empty()
    } else {
        le_bytes(bs[0].len(), 8) + bs[0] + marshal_spec(bs.skip(1))
    }
}

/// The inverse parse: reads length prefixes until the input is exhausted;
/// `None` when a prefix overruns the remaining bytes.
pub open spec fn unmarshal_spec(s: Seq<u8>) -> Option<Seq<Seq<u8>>>
    decreases s.len(),
{
    if s.len() == 0 {
        Some(Seq::empty())
    } else if s.len() < 8 {
        None
    } else {
        let l = le_nat(s.take(8));
        if l + 8 > s.len() {
            None
        } else {
            match unmarshal_spec(s.skip((8 + l) as int)) {
                Some(rest) => Some(seq![s.subrange(8, (8 + l) as int)] + rest),
                None => None,
            }
        }
    }
}

proof fn lemma_marshal_snoc(bs: Seq<Seq<u8>>, b: Seq<u8>)
    ensures
        marshal_spec(bs.push(b)) == marshal_spec(bs) + le_bytes(b.len(), 8) + b,
    decreases bs.len(),
{
    if bs.len() == 0 {
        let p = bs.push(b);
        assert(p.len() == 1);
        assert(p[0] == b);
        assert(p.skip(1) =~~= Seq::<Seq<u8>>::empty());
        assert(marshal_spec(p.skip(1)) =~= Seq::<u8>::empty());
        assert(marshal_spec(p) == le_bytes(p[0].len(), 8) + p[0] + marshal_spec(p.skip(1)));
        assert(marshal_spec(bs.push(b)) =~= le_bytes(b.len(), 8) + b);
        assert(marshal_spec(bs.push(b)) =~= marshal_spec(bs) + le_bytes(b.len(), 8) + b);
    } else {
        assert(bs.push(b)[0] == bs[0]);
        assert(bs.push(b).skip(1) =~~= bs.skip(1).push(b));
        lemma_marshal_snoc(bs.skip(1), b);
        assert(marshal_spec(bs.push(b)) =~= marshal_spec(bs) + le_bytes(b.len(), 8) + b);
    }
}

/// Serializes the blocks in order, each behind its length prefix.
pub fn marshal_bytes(bytes: &Vec<Vec<u8>>) -> (r: Vec<u8>)
    ensures
        r@ == marshal_spec(bytes.deep_view()),
{
    let mut out: Vec<u8> = Vec::new();
    proof {
        assert(out@ =~= marshal_spec(bytes.deep_view().take(0)));
    }
    let mut i: usize = 0;
    while i < bytes.len()
        invariant
            i <= bytes@.len(),
            out@ == marshal_spec(bytes.deep_view().take(i as int)),
        decreases bytes@.len() - i,
    {
        let b = &bytes[i];
        let ghost pre = out@;
        proof {
            assert(out@ =~= pre + le_bytes(b@.len(), 0));
        }
        let mut v: usize = b.len();
        let mut t: usize = 0;
        while t < 8
            invariant
                t <= 8,
                out@ == pre + le_bytes(b@.len(), t as nat),
                v == spec_shr256(b@.len(), t as nat),
            decreases 8 - t,
        {
            proof {
                lemma_le_bytes_snoc(b@.len(), t as nat);
                lemma_le_bytes_len(b@.len(), t as nat);
            }
            out.push((v % 256) as u8);
            v = v / 256;
            t = t + 1;
        }
        out.extend_from_slice(b.as_slice());
        proof {
            lemma_le_bytes_len(b@.len(), 8);
            lemma_marshal_snoc(bytes.deep_view().take(i as int), b@);
            assert(bytes.deep_view().take(i + 1) =~~= bytes.deep_view().take(i as int).push(b@));
            assert(out@ =~= marshal_spec(bytes.deep_view().take(i + 1)));
        }
        i = i + 1;
    }
    proof {
        assert(bytes.deep_view().take(bytes@.len() as int) =~~= bytes.deep_view());
    }
    out
}

/// Parses a marshalled stream back into its blocks; rejects a stream whose
/// length prefix claims more bytes than remain.
pub fn unmarshal_bytes(raw_bytes: &[u8]) -> (r: Result<Vec<Vec<u8>>, Error>)
    ensures
        (match r {
            Ok(bs) => unmarshal_spec(raw_bytes@) == Some(bs.deep_view()),
            Err(e) => unmarshal_spec(raw_bytes@) is None && e == Error::IncorrectAlgorithm,
        }),
{
    let n = raw_bytes.len();
    let mut result: Vec<Vec<u8>> = Vec::new();
    let mut offset: usize = 0;
    proof {
        assert(raw_bytes@.skip(0) =~= raw_bytes@);
        assert(result.deep_view() =~~= Seq::<Seq<u8>>::empty());
        if unmarshal_spec(raw_bytes@) is Some {
            let rest = unmarshal_spec(raw_bytes@)->Some_0;
            assert(result.deep_view() + rest =~~= rest);
        }
    }
    loop
        invariant
            offset <= n,
            n == raw_bytes@.len(),
            (match unmarshal_spec(raw_bytes@.skip(offset as int)) {
                Some(rest) => unmarshal_spec(raw_bytes@) == Some(result.deep_view() + rest),
                None => unmarshal_spec(raw_bytes@) is None,
            }),
        decreases n - offset,
    {
        if offset >= n {
            proof {
                assert(raw_bytes@.skip(offset as int) =~= Seq::<u8>::empty());
                assert(result.deep_view() + Seq::<Seq<u8>>::empty() =~~= result.deep_view());
            }
            return Ok(result);
        }
        let ghost tail = raw_bytes@.skip(offset as int);
        if n - offset < 8 {
            return Err(Error::IncorrectAlgorithm);
        }
        let mut l: u64 = 0;
        let mut t: usize = 0;
        proof {
            assert(raw_bytes@.subrange(offset + 8, offset + 8) =~= Seq::<u8>::empty());
        }
        // read the eight-byte length prefix: its last byte is most significant
        while t < 8
            invariant
                t <= 8,
                offset + 8 <= n,
                n == raw_bytes@.len(),
                l == le_nat(raw_bytes@.subrange(offset + 8 - t, offset + 8)),
                l < pow256(t as nat),
            decreases 8 - t,
        {
            let b = raw_bytes[offset + 8 - t - 1];
            proof {
                let s_old = raw_bytes@.subrange(offset + 8 - t, offset + 8);
                let s_new = raw_bytes@.subrange(offset + 8 - t - 1, offset + 8);
                assert(s_new.skip(1) =~= s_old);
                assert(s_new[0] == b);
                assert(le_nat(s_new) == b + 256 * le_nat(s_old));
                lemma_pow256_vals();
                lemma_pow256_increases(t as nat, 7);
            }
            l = b as u64 + 256 * l;
            t = t + 1;
        }
        proof {
            assert(raw_bytes@.subrange(offset as int, offset + 8) =~= tail.take(8));
        }
        let available = (n - offset - 8) as u64;
        if l > available {
            return Err(Error::IncorrectAlgorithm);
        }
        let l = l as usize;
        let block = vstd::slice::slice_to_vec(
            vstd::slice::slice_subrange(raw_bytes, offset + 8, offset + 8 + l),
        );
        proof {
            assert(block@ =~= tail.subrange(8, 8 + l));
        }
        let ghost old_dv = result.deep_view();
        result.push(block);
        proof {
            assert(result.deep_view() =~~= old_dv.push(block@));
            assert(tail.skip(8 + l) =~= raw_bytes@.skip(offset + 8 + l));
        }
        offset = offset + 8 + l;
        proof {
            let rest_opt = unmarshal_spec(raw_bytes@.skip(offset as int));
            if rest_opt is Some {
                let rest2 = rest_opt->Some_0;
                assert(unmarshal_spec(tail) == Some(seq![block@] + rest2));
                assert(old_dv + (seq![block@] + rest2) =~~= result.deep_view() + rest2);
            } else {
                assert(unmarshal_spec(tail) is None);
            }
        }
    }
}

/// Round trip: any block sequence whose blocks fit under the eight-byte
/// length prefix unmarshals back to itself, in order.
pub proof fn lemma_marshal_round_trip(bs: Seq<Seq<u8>>)
    requires
        forall|i: int| 0 <= i < bs.len() ==> #[trigger] bs[i].len() <= u64::MAX,
    ensures
        unmarshal_spec(marshal_spec(bs)) == Some(bs),
    decreases bs.len(),
{
    if bs.len() == 0 {
        assert(unmarshal_spec(marshal_spec(bs)) =~~= Some(bs));
    } else {
        let b = bs[0];
        let s = marshal_spec(bs);
        let tail = marshal_spec(bs.skip(1));
        lemma_le_bytes_len(b.len(), 8);
        assert(s =~= (le_bytes(b.len(), 8) + b) + tail);
        assert(s.len() >= 8 + b.len());
        assert(s.take(8) =~= le_bytes(b.len(), 8));
        assert(b.len() < pow256(8)) by {
            lemma_pow256_vals();
        }
        lemma_le_bytes_nat(b.len(), 8);
        assert(le_nat(s.take(8)) == b.len());
        assert(s.subrange(8, 8 + b.len() as int) =~= b);
        assert(s.skip(8 + b.len() as int) =~= tail);
        lemma_marshal_round_trip(bs.skip(1));
        assert(seq![b] + bs.skip(1) =~~= bs);
    }
}

} // verus!
