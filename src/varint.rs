use vstd::arithmetic::div_mod::{lemma_fundamental_div_mod, lemma_mod_breakdown, lemma_small_mod};
use vstd::prelude::*;

verus! {

/// A decoded variable-length integer and the number of bytes it occupied.
#[derive(Debug, Clone, Copy, PartialEq, Eq, Structural)]
pub struct Varint {
    pub value: i64,
    pub size: u8,
}

/// `128` raised to the power `k`.
pub open spec fn pow128(k: nat) -> nat
    decreases k,
{
    if k == 0 {
        1
    } else {
        128 * pow128((k - 1) as nat)
    }
}

/// The unsigned number read from the first `k` bytes of a varint: seven bits
/// from each of the first eight bytes, all eight bits of the ninth.
pub open spec fn varint_acc(s: Seq<u8>, k: nat) -> nat
    decreases k,
{
    if k == 0 {
        0
    } else if k <= 8 {
        varint_acc(s, (k - 1) as nat) * 128 + (s[k - 1] % 128) as nat
    } else {
        varint_acc(s, 8) * 256 + s[8] as nat
    }
}

/// Number of bytes a varint starting at `s[0]` occupies, looking from index `i`
/// on: it ends at the first byte below `0x80`, at the ninth byte, or where the
/// input ends.
pub open spec fn varint_len_from(s: Seq<u8>, i: nat) -> nat
    decreases 8 - i,
{
    if i >= s.len() {
        s.len()
    } else if i >= 8 || s[i as int] < 128 {
        i + 1
    } else {
        varint_len_from(s, i + 1)
    }
}

pub open spec fn varint_size(s: Seq<u8>) -> nat {
    varint_len_from(s, 0)
}

proof fn lemma_len_from_bounds(s: Seq<u8>, i: nat)
    requires
        i <= 8,
    ensures
        varint_len_from(s, i) <= s.len(),
        i < s.len() ==> varint_len_from(s, i) > i,
    decreases 8 - i,
{
    if i < s.len() && i < 8 && s[i as int] >= 128 {
        lemma_len_from_bounds(s, i + 1);
    }
}

/// A varint never reaches past its input, and takes at least one byte of a
/// non-empty one.
pub proof fn lemma_varint_size_bounds(s: Seq<u8>)
    ensures
        varint_size(s) <= s.len(),
        s.len() > 0 ==> varint_size(s) >= 1,
{
    lemma_len_from_bounds(s, 0);
}

/// Two's complement reading of a 64-bit pattern.
pub open spec fn as_signed64(n: nat) -> int {
    if n < 0x8000_0000_0000_0000 {
        n as int
    } else {
        n - 0x1_0000_0000_0000_0000
    }
}

/// The 64-bit pattern of a signed value.
pub open spec fn as_unsigned64(v: int) -> nat {
    if v >= 0 {
        v as nat
    } else {
        (v + 0x1_0000_0000_0000_0000) as nat
    }
}

/// The value a varint at the start of `s` decodes to.
pub open spec fn varint_value(s: Seq<u8>) -> int {
    as_signed64(varint_acc(s, varint_size(s)))
}

/// The varint at the start of `s`: its value and the bytes it takes.
pub open spec fn varint_of(s: Seq<u8>) -> Varint {
    Varint { value: varint_value(s) as i64, size: varint_size(s) as u8 }
}

/// Number of seven-bit groups needed to write `u`.
pub open spec fn groups_needed(u: nat) -> nat
    decreases u,
{
    if u < 128 {
        1
    } else {
        1 + groups_needed(u / 128)
    }
}

/// The low `k` seven-bit groups of `x`, most significant first, each with the
/// continuation bit set.
pub open spec fn continued_groups(x: nat, k: nat) -> Seq<u8>
    decreases k,
{
    if k == 0 {
        seq![]
    } else {
        continued_groups(x / 128, (k - 1) as nat).push((x % 128 + 128) as u8)
    }
}

/// Number of bytes in the shortest encoding of `v`.
pub open spec fn encoded_len(v: int) -> nat {
    let u = as_unsigned64(v);
    if u >= 0x100_0000_0000_0000 {
        9
    } else {
        groups_needed(u)
    }
}

/// The shortest encoding of `v`: up to eight bytes of seven bits each, or,
/// for values that need more than 56 bits, eight such bytes and a last byte
/// that carries eight bits.
pub open spec fn varint_encoding(v: int) -> Seq<u8> {
    let u = as_unsigned64(v);
    if u >= 0x100_0000_0000_0000 {
        continued_groups(u / 256, 8).push((u % 256) as u8)
    } else {
        continued_groups(u / 128, (groups_needed(u) - 1) as nat).push((u % 128) as u8)
    }
}

proof fn lemma_pow128_8()
    ensures
        pow128(8) == 0x100_0000_0000_0000,
{
    reveal_with_fuel(pow128, 9);
}

proof fn lemma_pow128_positive(k: nat)
    ensures
        pow128(k) > 0,
    decreases k,
{
    if k > 0 {
        lemma_pow128_positive((k - 1) as nat);
    }
}

proof fn lemma_pow128_monotone(j: nat, k: nat)
    requires
        j <= k,
    ensures
        pow128(j) <= pow128(k),
    decreases k,
{
    if j < k {
        lemma_pow128_monotone(j, (k - 1) as nat);
        lemma_pow128_positive((k - 1) as nat);
    }
}

/// The accumulated value depends on the bytes that were read, and no others.
proof fn lemma_acc_prefix(s: Seq<u8>, t: Seq<u8>, k: nat)
    requires
        k <= 9,
        k <= s.len(),
        k <= t.len(),
        s.subrange(0, k as int) == t.subrange(0, k as int),
    ensures
        varint_acc(s, k) == varint_acc(t, k),
    decreases k,
{
    if k > 0 {
        let j = if k <= 8 { (k - 1) as nat } else { 8 };
        assert(s.subrange(0, j as int) == s.subrange(0, k as int).subrange(0, j as int));
        assert(t.subrange(0, j as int) == t.subrange(0, k as int).subrange(0, j as int));
        assert(s[k - 1] == s.subrange(0, k as int)[k - 1]);
        assert(t[k - 1] == t.subrange(0, k as int)[k - 1]);
        lemma_acc_prefix(s, t, j);
    }
}

/// Reading `k` continued groups of `x` gives `x` modulo `128^k`.
proof fn lemma_acc_continued(x: nat, k: nat)
    requires
        k <= 8,
    ensures
        continued_groups(x, k).len() == k,
        varint_acc(continued_groups(x, k), k) == x % pow128(k),
        forall|i: int| 0 <= i < k ==> continued_groups(x, k)[i] >= 128,
    decreases k,
{
    if k == 0 {
        assert(x % 1 == 0);
    } else {
        let k1 = (k - 1) as nat;
        let s = continued_groups(x, k);
        let p = continued_groups(x / 128, k1);
        lemma_acc_continued(x / 128, k1);
        assert(s.subrange(0, k1 as int) == p);
        assert(p.subrange(0, k1 as int) == p);
        lemma_acc_prefix(s, p, k1);
        assert(s[k - 1] % 128 == x % 128) by {
            assert(s[k - 1] == (x % 128 + 128) as u8);
        }
        lemma_pow128_positive(k1);
        lemma_mod_breakdown(x as int, 128, pow128(k1) as int);
    }
}

proof fn lemma_groups_needed_bound(u: nat)
    ensures
        groups_needed(u) >= 1,
        u < pow128(groups_needed(u)),
    decreases u,
{
    if u < 128 {
        assert(pow128(1) == 128) by {
            reveal_with_fuel(pow128, 2);
        }
    } else {
        lemma_groups_needed_bound(u / 128);
        let p = pow128(groups_needed(u / 128));
        lemma_fundamental_div_mod(u as int, 128);
        assert(u < 128 * p) by (nonlinear_arith)
            requires
                u == 128 * (u / 128) + u % 128,
                u % 128 < 128,
                u / 128 < p,
        ;
    }
}

proof fn lemma_groups_needed_at_most(u: nat, k: nat)
    requires
        k >= 1,
        u < pow128(k),
    ensures
        groups_needed(u) <= k,
    decreases k,
{
    if u >= 128 {
        let k1 = (k - 1) as nat;
        if k1 == 0 {
            assert(pow128(1) == 128) by {
                reveal_with_fuel(pow128, 2);
            }
        } else {
            lemma_fundamental_div_mod(u as int, 128);
            assert(u / 128 < pow128(k1)) by (nonlinear_arith)
                requires
                    u < 128 * pow128(k1),
                    u == 128 * (u / 128) + u % 128,
                    u % 128 >= 0,
            ;
            lemma_groups_needed_at_most(u / 128, k1);
        }
    }
}

/// The encoding of every 64-bit value decodes back to that value, and the
/// decoder reports exactly the encoding's length as consumed.
pub proof fn lemma_varint_round_trip(v: i64)
    ensures
        varint_encoding(v as int).len() == encoded_len(v as int),
        1 <= encoded_len(v as int) <= 9,
        varint_size(varint_encoding(v as int)) == encoded_len(v as int),
        varint_value(varint_encoding(v as int)) == v as int,
{
    let u = as_unsigned64(v as int);
    let s = varint_encoding(v as int);
    lemma_pow128_8();
    if u >= 0x100_0000_0000_0000 {
        let p = continued_groups(u / 256, 8);
        lemma_acc_continued(u / 256, 8);
        assert(s.subrange(0, 8) == p);
        assert(p.subrange(0, 8) == p);
        lemma_acc_prefix(s, p, 8);
        assert(u / 256 < 0x100_0000_0000_0000);
        lemma_small_mod(u / 256, 0x100_0000_0000_0000);
        lemma_fundamental_div_mod(u as int, 256);
        assert(varint_len_from(s, 8) == 9);
        lemma_len_from_continued(s, 8, 8);
        assert(varint_len_from(s, 0) == 9);
    } else {
        let n = groups_needed(u);
        lemma_groups_needed_bound(u);
        lemma_groups_needed_at_most(u, 8);
        let n1 = (n - 1) as nat;
        let p = continued_groups(u / 128, n1);
        lemma_acc_continued(u / 128, n1);
        assert(s.subrange(0, n1 as int) == p);
        assert(p.subrange(0, n1 as int) == p);
        lemma_acc_prefix(s, p, n1);
        assert(s[n1 as int] % 128 == u % 128);
        lemma_pow128_positive(n1);
        lemma_mod_breakdown(u as int, 128, pow128(n1) as int);
        lemma_small_mod(u, pow128(n));
        assert(varint_len_from(s, n1) == n);
        lemma_len_from_continued(s, n1, n1);
        assert(varint_len_from(s, 0) == n);
    }
}

/// Before the last byte of an encoding every byte carries the continuation
/// bit, so the length found from any earlier index is the one found at `last`.
proof fn lemma_len_from_continued(s: Seq<u8>, last: nat, i: nat)
    requires
        i <= last,
        last <= 8,
        last < s.len(),
        forall|j: int| 0 <= j < last ==> s[j] >= 128,
    ensures
        varint_len_from(s, (last - i) as nat) == varint_len_from(s, last),
    decreases i,
{
    if i > 0 {
        lemma_len_from_continued(s, last, (i - 1) as nat);
    }
}

impl Varint {
    /// Decodes the varint at the start of `buf`. Reads at most nine bytes and
    /// never fails: a slice that ends early yields the bits read so far.
    pub fn from_bytes(buf: &[u8]) -> (r: Varint)
        ensures
            r.size as nat == varint_size(buf@),
            r.value as int == varint_value(buf@),
            r == varint_of(buf@),
            r.size as nat <= buf@.len(),
            buf@.len() > 0 ==> 1 <= r.size <= 9,
    {
        let mut acc: u64 = 0;
        let mut i: usize = 0;
        let mut done = false;
        proof {
            lemma_pow128_8();
        }
        while !done && i < buf.len()
            invariant
                i <= buf@.len(),
                i <= 9,
                acc == varint_acc(buf@, i as nat),
                i <= 8 ==> acc < pow128(i as nat),
                pow128(8) == 0x100_0000_0000_0000,
                done ==> varint_size(buf@) == i && i >= 1,
                !done ==> i <= 8 && varint_size(buf@) == varint_len_from(buf@, i as nat),
            decreases buf@.len() - i,
        {
            let b = buf[i];
            if i == 8 {
                assert(acc * 256 + b < 0x1_0000_0000_0000_0000) by (nonlinear_arith)
                    requires
                        acc < 0x100_0000_0000_0000,
                        b < 256,
                ;
                acc = acc * 256 + b as u64;
                done = true;
            } else {
                proof {
                    lemma_pow128_monotone((i + 1) as nat, 8);
                }
                let low = b % 128;
                assert(acc * 128 + low < pow128((i + 1) as nat)) by (nonlinear_arith)
                    requires
                        acc < pow128(i as nat),
                        low < 128,
                        pow128((i + 1) as nat) == 128 * pow128(i as nat),
                ;
                acc = acc * 128 + low as u64;
                if b < 128 {
                    done = true;
                }
            }
            i += 1;
        }
        let value: i64 = if acc < 0x8000_0000_0000_0000 {
            acc as i64
        } else {
            (acc - 0x8000_0000_0000_0000) as i64 + i64::MIN
        };
        Varint { value, size: i as u8 }
    }

    /// The shortest encoding of `self.value`, in the first
    /// `encoded_len(self.value)` bytes; the bytes after it are zero.
    pub fn to_bytes(&self) -> (r: [u8; 9])
        ensures
            r@.subrange(0, encoded_len(self.value as int) as int) == varint_encoding(
                self.value as int,
            ),
            forall|i: int| encoded_len(self.value as int) <= i < 9 ==> r@[i] == 0,
    {
        let v = self.value;
        let u: u64 = if v >= 0 {
            v as u64
        } else {
            (v - i64::MIN) as u64 + 0x8000_0000_0000_0000
        };
        proof {
            lemma_varint_round_trip(v);
        }
        let mut out: Vec<u8> = Vec::new();
        if u >= 0x100_0000_0000_0000 {
            push_continued(u / 256, 8, &mut out);
            out.push((u % 256) as u8);
        } else {
            let n = group_count(u);
            push_continued(u / 128, n - 1, &mut out);
            out.push((u % 128) as u8);
        }
        assert(out@ == varint_encoding(v as int));
        let mut r: [u8; 9] = [0u8; 9];
        let mut i: usize = 0;
        while i < out.len()
            invariant
                i <= out@.len(),
                out@.len() <= 9,
                forall|j: int| 0 <= j < i ==> r@[j] == out@[j],
                forall|j: int| i <= j < 9 ==> r@[j] == 0,
            decreases out@.len() - i,
        {
            r[i] = out[i];
            i += 1;
        }
        assert(r@.subrange(0, out@.len() as int) == out@);
        r
    }
}

/// Number of seven-bit groups in `u`.
fn group_count(u: u64) -> (n: usize)
    requires
        u < 0x100_0000_0000_0000,
    ensures
        n as nat == groups_needed(u as nat),
        1 <= n <= 8,
{
    let mut n: usize = 1;
    let mut rest = u;
    proof {
        lemma_pow128_8();
    }
    while rest >= 128
        invariant
            1 <= n <= 8,
            rest < pow128((9 - n) as nat),
            n + groups_needed(rest as nat) == groups_needed(u as nat) + 1,
        decreases rest,
    {
        let ghost k = (8 - n) as nat;
        assert(pow128((9 - n) as nat) == 128 * pow128(k));
        if n == 8 {
            assert(pow128(1) == 128) by {
                reveal_with_fuel(pow128, 2);
            }
        }
        proof {
            lemma_fundamental_div_mod(rest as int, 128);
        }
        assert(rest / 128 < pow128(k)) by (nonlinear_arith)
            requires
                rest < 128 * pow128(k),
                rest == 128 * (rest / 128) + rest % 128,
                rest % 128 >= 0,
        ;
        rest = rest / 128;
        n += 1;
    }
    n
}

/// Appends `continued_groups(x, k)` to `out`.
fn push_continued(x: u64, k: usize, out: &mut Vec<u8>)
    ensures
        final(out)@ == old(out)@ + continued_groups(x as nat, k as nat),
    decreases k,
{
    if k > 0 {
        push_continued(x / 128, k - 1, out);
        out.push((x % 128) as u8 + 128);
    }
}

} // verus!
