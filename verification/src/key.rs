//! Peer identifiers: fixed-width binary keys with a total order.
//!
//! A key is 20 bytes compared in unsigned big-endian (lexicographic) order.
//! The order is modelled by `key_val`, which reads a byte string as an
//! unsigned big-endian integer, so that every statement about key order and
//! about range partitioning can be made over plain integers.

use vstd::prelude::*;

verus! {

broadcast use vstd::array::group_array_axioms;

/// Width in bytes of a peer identifier.
pub const KEY_LEN: usize = 20;

/// A peer identifier: a 160-bit value, ordered as an unsigned big-endian
/// integer.  It doubles as a coordinate in the partitioned key space.
pub type Key = [u8; KEY_LEN];

/// 256 to the power `e`.
pub open spec fn p256(e: nat) -> int
    decreases e,
{
    if e == 0 {
        1
    } else {
        256 * p256((e - 1) as nat)
    }
}

/// The numeric value of a byte string read as an unsigned big-endian integer.
pub open spec fn key_val(s: Seq<u8>) -> int
    decreases s.len(),
{
    if s.len() == 0 {
        0
    } else {
        256 * key_val(s.drop_last()) + s.last()
    }
}

/// The largest value a key can take: all twenty bytes 0xFF.
pub open spec fn key_max_val() -> int {
    p256(KEY_LEN as nat) - 1
}

/// Powers of 256 are positive.
pub proof fn lemma_p256_pos(e: nat)
    ensures
        p256(e) >= 1,
    decreases e,
{
    if e > 0 {
        lemma_p256_pos((e - 1) as nat);
    }
}

/// A byte string's value is bounded by 256 to its length.
pub proof fn lemma_key_val_bounds(s: Seq<u8>)
    ensures
        0 <= key_val(s) < p256(s.len()),
    decreases s.len(),
{
    if s.len() > 0 {
        lemma_key_val_bounds(s.drop_last());
    }
}

/// Every 20-byte key's value lies inside the identifier space.
pub proof fn lemma_key_val_in_space(s: Seq<u8>)
    requires
        s.len() == KEY_LEN,
    ensures
        0 <= key_val(s) <= key_max_val(),
{
    lemma_key_val_bounds(s);
}

/// Appending a byte shifts the value one digit left.
pub proof fn lemma_key_val_push(s: Seq<u8>, b: u8)
    ensures
        key_val(s.push(b)) == 256 * key_val(s) + b,
{
    assert(s.push(b).drop_last() =~= s);
}

/// A byte string's value splits at any position into a prefix value shifted
/// past the suffix, plus the suffix value.
pub proof fn lemma_key_val_split(s: Seq<u8>, i: int)
    requires
        0 <= i <= s.len(),
    ensures
        key_val(s) == key_val(s.take(i)) * p256((s.len() - i) as nat) + key_val(s.skip(i)),
    decreases s.len(),
{
    if i == s.len() {
        assert(s.take(i) =~= s);
        assert(s.skip(i) =~= Seq::<u8>::empty());
    } else {
        let d = s.drop_last();
        lemma_key_val_split(d, i);
        assert(d.take(i) =~= s.take(i));
        assert(d.skip(i) =~= s.skip(i).drop_last());
        assert(s.skip(i).last() == s.last());
        assert(s.skip(i).len() == s.len() - i);
        let k = key_val(s.take(i));
        let q = p256((s.len() - 1 - i) as nat);
        assert(key_val(d) == k * q + key_val(d.skip(i)));
        assert(key_val(s) == 256 * (k * q + key_val(d.skip(i))) + s.last());
        assert(256 * (k * q) == k * (256 * q)) by (nonlinear_arith);
        assert(p256((s.len() - i) as nat) == 256 * q);
    }
}

/// The value of a suffix decomposes into its first byte as the leading digit
/// plus the rest.
pub proof fn lemma_key_val_skip_step(s: Seq<u8>, i: int)
    requires
        0 <= i < s.len(),
    ensures
        key_val(s.skip(i)) == s[i] * p256((s.len() - i - 1) as nat) + key_val(s.skip(i + 1)),
{
    let t = s.skip(i);
    lemma_key_val_split(t, 1);
    assert(t.take(1).drop_last() =~= Seq::<u8>::empty());
    assert(t.take(1).last() == s[i]);
    assert(key_val(Seq::<u8>::empty()) == 0);
    assert(key_val(t.take(1)) == s[i]);
    assert(t.skip(1) =~= s.skip(i + 1));
}

/// Two byte strings of equal length and equal value are equal.
pub proof fn lemma_key_val_injective(a: Seq<u8>, b: Seq<u8>)
    requires
        a.len() == b.len(),
        key_val(a) == key_val(b),
    ensures
        a =~= b,
    decreases a.len(),
{
    if a.len() > 0 {
        lemma_key_val_bounds(a.drop_last());
        lemma_key_val_bounds(b.drop_last());
        assert(a.last() == b.last());
        assert(key_val(a.drop_last()) == key_val(b.drop_last()));
        lemma_key_val_injective(a.drop_last(), b.drop_last());
        assert forall|i: int| 0 <= i < a.len() implies a[i] == b[i] by {
            if i < a.len() - 1 {
                assert(a.drop_last()[i] == b.drop_last()[i]);
            }
        }
    }
}

/// An all-zero byte string has value zero.
pub proof fn lemma_key_val_zero(s: Seq<u8>)
    requires
        forall|i: int| 0 <= i < s.len() ==> s[i] == 0,
    ensures
        key_val(s) == 0,
    decreases s.len(),
{
    if s.len() > 0 {
        lemma_key_val_zero(s.drop_last());
    }
}

/// An all-0xFF byte string has the largest value of its length.
pub proof fn lemma_key_val_ones(s: Seq<u8>)
    requires
        forall|i: int| 0 <= i < s.len() ==> s[i] == 255,
    ensures
        key_val(s) == p256(s.len()) - 1,
    decreases s.len(),
{
    if s.len() > 0 {
        lemma_key_val_ones(s.drop_last());
    }
}

/// Strings that agree on a prefix order by the first byte where they differ.
pub proof fn lemma_key_val_prefix_lt(a: Seq<u8>, b: Seq<u8>, i: int)
    requires
        a.len() == b.len(),
        0 <= i < a.len(),
        a.take(i) == b.take(i),
        a[i] < b[i],
    ensures
        key_val(a) < key_val(b),
{
    lemma_key_val_split(a, i);
    lemma_key_val_split(b, i);
    lemma_key_val_skip_step(a, i);
    lemma_key_val_skip_step(b, i);
    lemma_key_val_bounds(a.skip(i + 1));
    lemma_key_val_bounds(b.skip(i + 1));
    let q = p256((a.len() - i - 1) as nat);
    let ra = key_val(a.skip(i + 1));
    let rb = key_val(b.skip(i + 1));
    lemma_p256_pos((a.len() - i - 1) as nat);
    assert(a[i] * q + ra < b[i] * q + rb) by (nonlinear_arith)
        requires
            a[i] < b[i],
            0 <= ra < q,
            0 <= rb,
            q >= 1,
    ;
}

/// The floor midpoint of a non-empty integer interval stays inside it.
pub proof fn lemma_midpoint_between(x: int, y: int)
    requires
        x < y,
    ensures
        x <= (x + y) / 2 < y,
{
    vstd::arithmetic::div_mod::lemma_fundamental_div_mod(x + y, 2);
}

/// The least identifier: all bytes zero (the `START` sentinel of the space).
pub fn key_space_start() -> (r: Key)
    ensures
        key_val(r@) == 0,
        r@.len() == KEY_LEN,
{
    let r: Key = [0u8; KEY_LEN];
    proof {
        lemma_key_val_zero(r@);
    }
    r
}

/// The greatest identifier: all bytes 0xFF (the `END` sentinel of the space).
pub fn key_space_end() -> (r: Key)
    ensures
        key_val(r@) == key_max_val(),
        r@.len() == KEY_LEN,
{
    let r: Key = [255u8; KEY_LEN];
    proof {
        lemma_key_val_ones(r@);
    }
    r
}

/// Byte-wise equality of two keys.
pub fn key_eq(a: &Key, b: &Key) -> (r: bool)
    ensures
        r <==> a@ == b@,
{
    let mut i: usize = 0;
    while i < KEY_LEN
        invariant
            0 <= i <= KEY_LEN,
            forall|j: int| 0 <= j < i ==> a@[j] == b@[j],
        decreases KEY_LEN - i,
    {
        if a[i] != b[i] {
            proof {
                assert(a@[i as int] != b@[i as int]);
            }
            return false;
        }
        i += 1;
    }
    proof {
        assert(a@ =~= b@);
    }
    true
}

/// Whether key `a` orders at or below key `b` in unsigned big-endian order.
pub fn key_le(a: &Key, b: &Key) -> (r: bool)
    ensures
        r <==> key_val(a@) <= key_val(b@),
{
    let mut i: usize = 0;
    while i < KEY_LEN
        invariant
            0 <= i <= KEY_LEN,
            a@.take(i as int) == b@.take(i as int),
        decreases KEY_LEN - i,
    {
        if a[i] < b[i] {
            proof {
                lemma_key_val_prefix_lt(a@, b@, i as int);
            }
            return true;
        }
        if a[i] > b[i] {
            proof {
                lemma_key_val_prefix_lt(b@, a@, i as int);
            }
            return false;
        }
        proof {
            assert(a@.take(i + 1) =~= b@.take(i + 1));
        }
        i += 1;
    }
    proof {
        assert(a@.take(KEY_LEN as int) =~= a@);
        assert(b@.take(KEY_LEN as int) =~= b@);
    }
    true
}

/// The key immediately after `a` in identifier order.
pub fn key_succ(a: &Key) -> (r: Key)
    requires
        key_val(a@) < key_max_val(),
    ensures
        key_val(r@) == key_val(a@) + 1,
{
    let mut r: Key = *a;
    let mut i: usize = KEY_LEN;
    while i > 0
        invariant
            0 <= i <= KEY_LEN,
            key_val(a@) < key_max_val(),
            r@.len() == KEY_LEN,
            a@.len() == KEY_LEN,
            r@.take(i as int) == a@.take(i as int),
            forall|j: int| i <= j < KEY_LEN ==> r@[j] == 0 && a@[j] == 255,
        decreases i,
    {
        let idx = i - 1;
        if r[idx] == 255 {
            r[idx] = 0;
            proof {
                assert(a@.take(i as int)[idx as int] == a@[idx as int]);
                assert(a@[idx as int] == 255);
                if idx == 0 {
                    lemma_key_val_ones(a@);
                    assert(false);
                }
                assert(r@.take(idx as int) =~= a@.take(idx as int));
            }
            i = idx;
        } else {
            let old_digit = r[idx];
            r[idx] = old_digit + 1;
            proof {
                let ii = idx as int;
                assert(a@.take(i as int)[ii] == a@[ii]);
                assert(a@[ii] == old_digit);
                lemma_key_val_split(a@, ii);
                lemma_key_val_skip_step(a@, ii);
                lemma_key_val_split(r@, ii);
                lemma_key_val_skip_step(r@, ii);
                lemma_key_val_zero(r@.skip(ii + 1));
                lemma_key_val_ones(a@.skip(ii + 1));
                assert(r@.take(ii) =~= a@.take(ii));
                let k = key_val(a@.take(ii));
                let p = p256((KEY_LEN - ii) as nat);
                let q = p256((KEY_LEN - ii - 1) as nat);
                assert(a@.skip(ii + 1).len() == KEY_LEN - ii - 1);
                assert(key_val(a@) == k * p + old_digit * q + (q - 1));
                assert(key_val(r@) == k * p + (old_digit + 1) * q + 0);
                assert((old_digit + 1) * q == old_digit * q + q) by (nonlinear_arith);
            }
            return r;
        }
    }
    proof {
        lemma_key_val_ones(a@);
        assert(false);
    }
    r
}

/// The floor midpoint of two keys in identifier order.
pub fn key_avg(a: &Key, b: &Key) -> (r: Key)
    ensures
        key_val(r@) == (key_val(a@) + key_val(b@)) / 2,
{
    // First pass: the 21-byte big-endian sum of the two keys.
    let mut s: [u8; 21] = [0u8; 21];
    let mut carry: u16 = 0;
    let mut i: usize = KEY_LEN;
    while i > 0
        invariant
            0 <= i <= KEY_LEN,
            carry <= 1,
            a@.len() == KEY_LEN,
            b@.len() == KEY_LEN,
            s@.len() == 21,
            key_val(a@.skip(i as int)) + key_val(b@.skip(i as int)) == (carry as int) * p256(
                (KEY_LEN - i) as nat,
            ) + key_val(s@.skip(i as int + 1)),
        decreases i,
    {
        let idx = i - 1;
        let t: u16 = a[idx] as u16 + b[idx] as u16 + carry;
        let ghost s0 = s@;
        s[idx + 1] = (t % 256) as u8;
        let new_carry: u16 = t / 256;
        proof {
            let ii = idx as int;
            vstd::arithmetic::div_mod::lemma_fundamental_div_mod(t as int, 256);
            vstd::arithmetic::div_mod::lemma_mod_division_less_than_divisor(t as int, 256);
            assert(t <= 511);
            assert(new_carry <= 1);
            lemma_key_val_skip_step(a@, ii);
            lemma_key_val_skip_step(b@, ii);
            assert(s@.skip(ii + 2) =~= s0.skip(ii + 2));
            lemma_key_val_skip_step(s@, ii + 1);
            let q = p256((KEY_LEN - i) as nat);
            lemma_p256_pos((KEY_LEN - i) as nat);
            let ra = key_val(s0.skip(ii + 2));
            assert(key_val(a@.skip(ii)) + key_val(b@.skip(ii)) == (a@[ii] + b@[ii]) * q + (
            key_val(a@.skip(ii + 1)) + key_val(b@.skip(ii + 1)))) by (nonlinear_arith)
                requires
                    key_val(a@.skip(ii)) == a@[ii] * q + key_val(a@.skip(ii + 1)),
                    key_val(b@.skip(ii)) == b@[ii] * q + key_val(b@.skip(ii + 1)),
            ;
            assert((a@[ii] + b@[ii]) * q + (carry as int) * q == (t as int) * q) by (nonlinear_arith)
                requires
                    t == a@[ii] + b@[ii] + carry,
            ;
            assert((t as int) * q == (new_carry as int) * (256 * q) + (s@[ii + 1] as int) * q)
                by (nonlinear_arith)
                requires
                    t == 256 * (new_carry as int) + s@[ii + 1],
            ;
            assert(p256((KEY_LEN - ii) as nat) == 256 * q);
            assert(key_val(s@.skip(ii + 1)) == s@[ii + 1] * q + key_val(s@.skip(ii + 2)));
            assert(key_val(a@.skip(ii)) + key_val(b@.skip(ii)) == (new_carry as int) * p256(
                (KEY_LEN - ii) as nat,
            ) + key_val(s@.skip(ii + 1)));
        }
        carry = new_carry;
        i = idx;
    }
    let ghost s1 = s@;
    s[0] = carry as u8;
    proof {
        assert(a@.skip(0) =~= a@);
        assert(b@.skip(0) =~= b@);
        assert(s@.skip(1) =~= s1.skip(1));
        lemma_key_val_skip_step(s@, 0);
        assert(s@.skip(0) =~= s@);
        assert(key_val(s@) == key_val(a@) + key_val(b@));
    }
    // Second pass: halve the sum by long division, dropping the top quotient
    // digit, which is zero because the sum's top byte is the carry.
    let mut r: Key = [0u8; KEY_LEN];
    let mut rem: u16 = s[0] as u16;
    proof {
        assert(s@.take(1).drop_last() =~= Seq::<u8>::empty());
        assert(key_val(Seq::<u8>::empty()) == 0);
        assert(key_val(s@.take(1)) == s@[0]);
        assert(r@.take(0) =~= Seq::<u8>::empty());
    }
    let mut j: usize = 1;
    while j < 21
        invariant
            1 <= j <= 21,
            rem <= 1,
            s@.len() == 21,
            r@.len() == KEY_LEN,
            key_val(s@.take(j as int)) == 2 * key_val(r@.take(j as int - 1)) + rem,
        decreases 21 - j,
    {
        let cur: u16 = rem * 256 + s[j] as u16;
        let digit: u16 = cur / 2;
        let new_rem: u16 = cur % 2;
        let ghost r0 = r@;
        r[j - 1] = digit as u8;
        proof {
            let jj = j as int;
            vstd::arithmetic::div_mod::lemma_fundamental_div_mod(cur as int, 2);
            vstd::arithmetic::div_mod::lemma_mod_division_less_than_divisor(cur as int, 2);
            assert(cur <= 511);
            assert(digit <= 255);
            assert(s@.take(jj + 1) =~= s@.take(jj).push(s@[jj]));
            lemma_key_val_push(s@.take(jj), s@[jj]);
            assert(r@.take(jj) =~= r0.take(jj - 1).push(digit as u8));
            lemma_key_val_push(r0.take(jj - 1), digit as u8);
            assert(r@.take(jj - 1) =~= r0.take(jj - 1));
            assert(key_val(s@.take(jj + 1)) == 2 * key_val(r@.take(jj)) + new_rem);
        }
        rem = new_rem;
        j += 1;
    }
    proof {
        assert(s@.take(21) =~= s@);
        assert(r@.take(KEY_LEN as int) =~= r@);
        vstd::arithmetic::div_mod::lemma_fundamental_div_mod_converse(
            key_val(s@),
            2,
            key_val(r@),
            rem as int,
        );
    }
    r
}

} // verus!
