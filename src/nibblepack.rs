//! Nibble packing of `u64` values in groups of eight.
//!
//! A group starts with a bitmask byte whose bit `i` is set when value `i` is nonzero. An
//! all-zero group is that byte alone. Otherwise a second byte holds `(n - 1) << 4 | t`:
//! every nonzero value is a multiple of `16^t`, and `value / 16^t` fits in `n` nibbles. The
//! nonzero values then follow, in order, as `n` nibbles each (least significant first),
//! two nibbles to a byte with the low half first.
use vstd::prelude::*;
use vstd::arithmetic::div_mod::{lemma_div_denominator, lemma_fundamental_div_mod, lemma_mod_pos_bound};
use crate::error::CodingError;

verus! {

/// `16^k`.
pub open spec fn pow16(k: nat) -> nat
    decreases k,
{
    if k == 0 {
        1
    } else {
        16 * pow16((k - 1) as nat)
    }
}

/// Whether bit `i` of `mask` is set.
pub open spec fn bit(mask: u8, i: u8) -> bool {
    (mask >> i) & 1u8 == 1u8
}

/// The number of bits of `mask` set below bit `i`.
pub open spec fn rank(mask: u8, i: nat) -> nat
    decreases i,
{
    if i == 0 {
        0
    } else {
        rank(mask, (i - 1) as nat) + if bit(mask, (i - 1) as u8) {
            1nat
        } else {
            0nat
        }
    }
}

/// The value of a run of nibbles read least significant first.
pub open spec fn nibbles_value(nibs: Seq<u8>) -> nat
    decreases nibs.len(),
{
    if nibs.len() == 0 {
        0
    } else {
        nibs[0] as nat + 16 * nibbles_value(nibs.drop_first())
    }
}

/// The `n` lowest nibbles of `w`, least significant first.
pub open spec fn digits(w: nat, n: nat) -> Seq<u8> {
    Seq::new(n, |d: int| ((w / pow16(d as nat)) % 16) as u8)
}

/// Nibble `k` of the nibble stream that starts at byte `start`: the low half of a byte
/// comes before its high half.
pub open spec fn nibble_at(b: Seq<u8>, start: int, k: int) -> u8 {
    if k % 2 == 0 {
        (b[start + k / 2] % 16) as u8
    } else {
        (b[start + k / 2] / 16) as u8
    }
}

/// `n` nibbles of the stream at byte `start`, from nibble `from` on.
pub open spec fn nibbles(b: Seq<u8>, start: int, from: int, n: int) -> Seq<u8> {
    Seq::new(n as nat, |j: int| nibble_at(b, start, from + j))
}

/// Nibble width of the group at `p` (its header byte is `b[p + 1]`).
pub open spec fn group_width(b: Seq<u8>, p: int) -> int {
    b[p + 1] / 16 + 1
}

/// Trailing zero nibbles shared by the nonzero values of the group at `p`.
pub open spec fn group_shift(b: Seq<u8>, p: int) -> nat {
    (b[p + 1] % 16) as nat
}

/// Number of bytes of the group that starts at `p`.
pub open spec fn group_len(b: Seq<u8>, p: int) -> int {
    if b[p] == 0 {
        1
    } else {
        2 + (rank(b[p], 8) * group_width(b, p) + 1) / 2
    }
}

/// Value `i` of the group at `p`, as a mathematical integer.
pub open spec fn group_value(b: Seq<u8>, p: int, i: u8) -> nat {
    if b[p] != 0 && bit(b[p], i) {
        let n = group_width(b, p);
        nibbles_value(nibbles(b, p + 2, rank(b[p], i as nat) * n, n)) * pow16(group_shift(b, p))
    } else {
        0
    }
}

/// The bytes at `p` hold a whole group, and each of its values fits in a `u64`.
pub open spec fn group_ok(b: Seq<u8>, p: int) -> bool {
    &&& 0 <= p < b.len()
    &&& b[p] != 0 ==> p + 1 < b.len()
    &&& p + group_len(b, p) <= b.len()
    &&& forall|i: u8| i < 8 ==> #[trigger] group_value(b, p, i) <= u64::MAX
}

/// The eight values of the group at `p`.
pub open spec fn group_values(b: Seq<u8>, p: int) -> Seq<u64> {
    Seq::new(8, |i: int| group_value(b, p, i as u8) as u64)
}

/// Decodes `k` consecutive groups from `p`: all their values, and where the last one ends.
pub open spec fn decode_groups(b: Seq<u8>, p: int, k: nat) -> Option<(Seq<u64>, int)>
    decreases k,
{
    if k == 0 {
        Some((Seq::empty(), p))
    } else {
        match decode_groups(b, p, (k - 1) as nat) {
            Some((vs, q)) => if group_ok(b, q) {
                Some((vs + group_values(b, q), q + group_len(b, q)))
            } else {
                None
            },
            None => None,
        }
    }
}

/// Where a run of `k` groups from `p` ends, once it decodes.
pub open spec fn groups_end(b: Seq<u8>, p: int, k: nat) -> int {
    match decode_groups(b, p, k) {
        Some((_, q)) => q,
        None => p,
    }
}

/// The values of a run of `k` groups from `p`, once it decodes.
pub open spec fn groups_values(b: Seq<u8>, p: int, k: nat) -> Seq<u64> {
    match decode_groups(b, p, k) {
        Some((vs, _)) => vs,
        None => Seq::empty(),
    }
}

/// Number of nonzero values among the first `i` of `vs`.
pub open spec fn count_nonzero(vs: Seq<u64>, i: nat) -> nat
    decreases i,
{
    if i == 0 {
        0
    } else {
        count_nonzero(vs, (i - 1) as nat) + if vs[i - 1] != 0 {
            1nat
        } else {
            0nat
        }
    }
}

/// Every value of `vs`, divided by `16^t`, is a multiple of 16.
pub open spec fn divides_all(vs: Seq<u64>, t: nat) -> bool {
    forall|j: int| 0 <= j < vs.len() ==> #[trigger] (vs[j] as nat / pow16(t)) % 16 == 0
}

/// The shift a group is packed with: from `t` on, the largest `t <= 15` whose `16^t`
/// divides every value.
pub open spec fn shift_from(vs: Seq<u64>, t: nat) -> nat
    decreases 15 - t,
{
    if t < 15 && divides_all(vs, t) {
        shift_from(vs, t + 1)
    } else {
        t
    }
}

/// The largest of the first `i` values of `vs`, each divided by `16^t`.
pub open spec fn max_shifted(vs: Seq<u64>, t: nat, i: nat) -> nat
    decreases i,
{
    if i == 0 {
        0
    } else {
        let a = max_shifted(vs, t, (i - 1) as nat);
        let x = vs[i - 1] as nat / pow16(t);
        if x > a {
            x
        } else {
            a
        }
    }
}

/// Number of nibbles needed to write `w` (at least one).
pub open spec fn nib_len(w: nat) -> nat
    decreases w,
{
    if w < 16 {
        1
    } else {
        1 + nib_len(w / 16)
    }
}

/// Number of bytes the group of the eight values `vs` is packed into.
pub open spec fn group_size(vs: Seq<u64>) -> int {
    let cnt = count_nonzero(vs, 8);
    if cnt == 0 {
        1
    } else {
        let n = nib_len(max_shifted(vs, shift_from(vs, 0), 8));
        (2 + (cnt * n + 1) / 2) as int
    }
}

/// Number of bytes the first `g` groups of eight of `vs` are packed into.
pub open spec fn packed_len(vs: Seq<u64>, g: nat) -> int
    decreases g,
{
    if g == 0 {
        0
    } else {
        packed_len(vs, (g - 1) as nat) + group_size(vs.subrange(8 * (g - 1), 8 * g as int))
    }
}

pub proof fn lemma_packed_len_mono(vs: Seq<u64>, g: nat, h: nat)
    requires
        g <= h,
    ensures
        packed_len(vs, g) <= packed_len(vs, h),
    decreases h,
{
    if g < h {
        lemma_packed_len_mono(vs, g, (h - 1) as nat);
    }
}

proof fn lemma_pow16_facts()
    ensures
        pow16(15) == 0x1000_0000_0000_0000,
        pow16(16) == 0x1_0000_0000_0000_0000,
{
    reveal_with_fuel(pow16, 17);
}

proof fn lemma_pow16_pos(a: nat)
    ensures
        1 <= pow16(a),
    decreases a,
{
    if a > 0 {
        lemma_pow16_pos((a - 1) as nat);
    }
}

proof fn lemma_pow16_mono(a: nat, b: nat)
    requires
        a <= b,
    ensures
        1 <= pow16(a) <= pow16(b),
    decreases b,
{
    lemma_pow16_pos(a);
    if a < b {
        lemma_pow16_mono(a, (b - 1) as nat);
    }
}

/// Nibbles read back give a value below `16^len`.
proof fn lemma_nibbles_value_bound(s: Seq<u8>)
    requires
        forall|j: int| 0 <= j < s.len() ==> s[j] < 16,
    ensures
        nibbles_value(s) < pow16(s.len()),
    decreases s.len(),
{
    if s.len() > 0 {
        lemma_nibbles_value_bound(s.drop_first());
    }
}

/// The `n` lowest nibbles of `w` read back give `w`, when `w < 16^n`.
proof fn lemma_digits_value(w: nat, n: nat)
    requires
        w < pow16(n),
    ensures
        nibbles_value(digits(w, n)) == w,
    decreases n,
{
    if n == 0 {
    } else {
        let s = digits(w, n);
        let t = digits(w / 16, (n - 1) as nat);
        assert forall|d: int| 0 <= d < n - 1 implies s.drop_first()[d] == t[d] by {
            lemma_pow16_pos(d as nat);
            lemma_div_denominator(w as int, 16, pow16(d as nat) as int);
        }
        assert(s.drop_first() =~= t);
        assert(w / 16 < pow16((n - 1) as nat));
        lemma_digits_value(w / 16, (n - 1) as nat);
        lemma_fundamental_div_mod(w as int, 16);
        assert(pow16(0) == 1);
        assert(w / pow16(0) == w);
        assert(s[0] == w % 16);
    }
}

/// Setting bit `i` of a mask keeps the others.
proof fn lemma_set_bit(m: u8, i: u8, b: u8, j: u8)
    requires
        i < 8,
        j < 8,
        b == 1u8 << i,
    ensures
        bit(m | b, j) <==> (j == i || bit(m, j)),
{
    assert(((((m | b) >> j) & 1u8) == 1u8) <==> (j == i || ((m >> j) & 1u8) == 1u8)) by (bit_vector)
        requires
            i < 8,
            j < 8,
            b == 1u8 << i,
    ;
}

/// A mask with a bit set is not zero.
proof fn lemma_bit_nonzero(m: u8, i: u8)
    requires
        bit(m, i),
    ensures
        m != 0,
{
    assert(((m >> i) & 1u8) == 1u8 ==> m != 0) by (bit_vector);
}

/// The rank below `i` depends only on the bits below `i`.
proof fn lemma_rank_same(m1: u8, m2: u8, i: nat)
    requires
        i <= 8,
        forall|j: u8| j < i ==> bit(m1, j) == bit(m2, j),
    ensures
        rank(m1, i) == rank(m2, i),
    decreases i,
{
    if i > 0 {
        lemma_rank_same(m1, m2, (i - 1) as nat);
        assert(bit(m1, (i - 1) as u8) == bit(m2, (i - 1) as u8));
    }
}

proof fn lemma_rank_mono(m: u8, i: nat, j: nat)
    requires
        i <= j,
    ensures
        rank(m, i) <= rank(m, j),
        rank(m, j) <= rank(m, i) + (j - i),
    decreases j,
{
    if i < j {
        lemma_rank_mono(m, i, (j - 1) as nat);
    }
}

/// `b` with nibble `k` of the stream at `s` set to `nib`; the high half of a byte is added
/// onto a low half already in place.
pub open spec fn put_nibble(b: Seq<u8>, s: int, k: int, nib: u8) -> Seq<u8> {
    if k % 2 == 0 {
        b.update(s + k / 2, nib)
    } else {
        b.update(s + k / 2, (b[s + k / 2] + 16 * nib) as u8)
    }
}

proof fn lemma_put_nibble(b: Seq<u8>, s: int, k: int, nib: u8)
    requires
        0 <= s,
        0 <= k,
        s + k / 2 < b.len(),
        nib < 16,
        k % 2 == 1 ==> b[s + k / 2] < 16,
    ensures
        put_nibble(b, s, k, nib).len() == b.len(),
        forall|j: int| 0 <= j < k ==> nibble_at(put_nibble(b, s, k, nib), s, j) == nibble_at(b, s, j),
        nibble_at(put_nibble(b, s, k, nib), s, k) == nib,
        k % 2 == 0 ==> put_nibble(b, s, k, nib)[s + k / 2] < 16,
        forall|x: int| 0 <= x < b.len() && x != s + k / 2 ==> put_nibble(b, s, k, nib)[x] == b[x],
{
    let nb = put_nibble(b, s, k, nib);
    assert forall|j: int| 0 <= j < k implies nibble_at(nb, s, j) == nibble_at(b, s, j) by {
        if j / 2 != k / 2 {
            assert(nb[s + j / 2] == b[s + j / 2]);
        }
    }
}

/// Writes `w` as `n` nibbles at nibble `k0` of the stream at `s`.
fn write_nibbles(out: &mut [u8], s: usize, k0: usize, w: u64, n: u8)
    requires
        1 <= n <= 16,
        k0 <= 256,
        (w as nat) < pow16(n as nat),
        s + (k0 + n as int + 1) / 2 <= old(out)@.len(),
        k0 % 2 == 1 ==> old(out)@[s + k0 / 2] < 16,
    ensures
        final(out)@.len() == old(out)@.len(),
        forall|j: int| 0 <= j < k0 ==> nibble_at(final(out)@, s as int, j) == nibble_at(
            old(out)@,
            s as int,
            j,
        ),
        nibbles(final(out)@, s as int, k0 as int, n as int) == digits(w as nat, n as nat),
        (k0 + n) % 2 == 1 ==> final(out)@[s + (k0 + n) / 2] < 16,
        forall|x: int| 0 <= x < s + k0 / 2 ==> final(out)@[x] == old(out)@[x],
{
    let ghost b0 = out@;
    let buf_len = out.len();
    let mut d: u8 = 0;
    let mut rest: u64 = w;
    assert(pow16(0) == 1);
    while d < n
        invariant
            d <= n <= 16,
            k0 <= 256,
            (w as nat) < pow16(n as nat),
            s + (k0 + n as int + 1) / 2 <= out@.len(),
            out@.len() == b0.len(),
            buf_len == b0.len(),
            rest as nat == w as nat / pow16(d as nat),
            (k0 + d) % 2 == 1 ==> out@[s + (k0 + d) / 2] < 16,
            forall|j: int| 0 <= j < k0 ==> nibble_at(out@, s as int, j) == nibble_at(b0, s as int, j),
            forall|j: int| 0 <= j < d ==> nibble_at(out@, s as int, k0 + j) == digits(w as nat, n as nat)[j],
            forall|x: int| 0 <= x < s + k0 / 2 ==> out@[x] == b0[x],
        decreases n - d,
    {
        let nib: u8 = (rest % 16) as u8;
        let k = k0 + d as usize;
        let bi = s + k / 2;
        let ghost b1 = out@;
        proof {
            lemma_put_nibble(b1, s as int, k as int, nib);
        }
        if k % 2 == 0 {
            out[bi] = nib;
        } else {
            out[bi] = out[bi] + 16 * nib;
        }
        assert(out@ == put_nibble(b1, s as int, k as int, nib));
        proof {
            lemma_pow16_pos(d as nat);
            lemma_div_denominator(w as int, pow16(d as nat) as int, 16);
            assert(pow16((d + 1) as nat) == pow16(d as nat) * 16);
        }
        rest = rest / 16;
        d = d + 1;
    }
    assert(nibbles(out@, s as int, k0 as int, n as int) =~= digits(w as nat, n as nat));
}

/// Every value of `ws` is a multiple of 16.
pub open spec fn all_div16_spec(ws: Seq<u64>) -> bool {
    forall|j: int| 0 <= j < ws.len() ==> #[trigger] ws[j] % 16 == 0
}

fn all_div16(ws: &Vec<u64>) -> (r: bool)
    ensures
        r == all_div16_spec(ws@),
{
    let mut j: usize = 0;
    while j < ws.len()
        invariant
            j <= ws@.len(),
            forall|k: int| 0 <= k < j ==> #[trigger] ws@[k] % 16 == 0,
        decreases ws@.len() - j,
    {
        if ws[j] % 16 != 0 {
            return false;
        }
        j = j + 1;
    }
    true
}

/// A bit set below `i` leaves room below `rank(m, i)` for its own slot.
proof fn lemma_rank_before(m: u8, i2: u8, i: nat)
    requires
        i2 < i <= 8,
        bit(m, i2),
    ensures
        rank(m, i2 as nat) + 1 <= rank(m, i),
{
    lemma_rank_mono(m, (i2 + 1) as nat, i);
}

/// Nibble-packs the eight values `values[start..start + 8]` at `offset`, and returns the
/// offset just past them. Fails with `NotEnoughSpace`, leaving `out` untouched, when the
/// group does not fit; 66 bytes always suffice.
pub fn nibble_pack8(values: &[u64], start: usize, out: &mut [u8], offset: usize) -> (r: Result<
    usize,
    CodingError,
>)
    requires
        start + 8 <= values@.len(),
    ensures
        final(out)@.len() == old(out)@.len(),
        r is Ok <==> offset + group_size(values@.subrange(start as int, start + 8)) <= old(
            out,
        )@.len(),
        match r {
            Ok(end) => {
                &&& end == offset + group_size(values@.subrange(start as int, start + 8))
                &&& end <= offset + 66
                &&& group_ok(final(out)@, offset as int)
                &&& end == offset + group_len(final(out)@, offset as int)
                &&& group_values(final(out)@, offset as int) == values@.subrange(
                    start as int,
                    start + 8,
                )
                &&& final(out)@.subrange(0, offset as int) == old(out)@.subrange(0, offset as int)
            },
            Err(e) => e == CodingError::NotEnoughSpace && final(out)@ == old(out)@,
        },
{
    let ghost b0 = out@;
    let ghost vals = values@.subrange(start as int, start + 8);
    let len = out.len();
    let vlen = values.len();
    let mut mask: u8 = 0;
    proof {
        assert forall|j: u8| j < 8 implies !bit(0u8, j) by {
            assert((0u8 >> j) & 1u8 == 0u8) by (bit_vector);
        }
    }
    let mut cnt: u8 = 0;
    let mut i: u8 = 0;
    while i < 8
        invariant
            i <= 8,
            start + 8 <= values@.len(),
            vlen == values@.len(),
            cnt as nat == rank(mask, i as nat),
            cnt as nat == count_nonzero(vals, i as nat),
            (cnt == 0) == (mask == 0),
            cnt <= i,
            forall|j: u8| j < i ==> (#[trigger] bit(mask, j) <==> vals[j as int] != 0),
            forall|j: u8| i <= j < 8 ==> !bit(mask, j),
            vals == values@.subrange(start as int, start + 8),
        decreases 8 - i,
    {
        let v = values[start + i as usize];
        if v != 0 {
            let ghost m0 = mask;
            let b: u8 = 1u8 << i;
            proof {
                assert forall|j: u8| j < 8 implies (#[trigger] bit(m0 | b, j) <==> (j == i || bit(m0, j))) by {
                    lemma_set_bit(m0, i, b, j);
                }
                lemma_rank_same(m0, m0 | b, i as nat);
            }
            mask = mask | b;
            cnt = cnt + 1;
            proof {
                lemma_set_bit(m0, i, b, i);
                lemma_bit_nonzero(mask, i);
            }
        }
        proof {
            assert(v == vals[i as int]);
            assert(bit(mask, i) <==> v != 0);
            assert(rank(mask, (i + 1) as nat) == rank(mask, i as nat) + if bit(mask, i) {
                1nat
            } else {
                0nat
            });
        }
        i = i + 1;
    }
    if mask == 0 {
        if offset >= len {
            return Err(CodingError::NotEnoughSpace);
        }
        out[offset] = 0;
        proof {
            assert forall|j: u8| j < 8 implies vals[j as int] == 0 by {
                if vals[j as int] != 0 {
                    lemma_bit_nonzero(mask, j);
                }
            }
            assert(group_values(out@, offset as int) =~= vals);
            assert(out@.subrange(0, offset as int) =~= b0.subrange(0, offset as int));
        }
        return Ok(offset + 1);
    }
    // Shift: the trailing zero nibbles that all values share.
    let mut ws: Vec<u64> = Vec::new();
    let mut j: usize = 0;
    while j < 8
        invariant
            j <= 8,
            start + 8 <= values@.len(),
            vlen == values@.len(),
            vals == values@.subrange(start as int, start + 8),
            ws@ == vals.subrange(0, j as int),
        decreases 8 - j,
    {
        ws.push(values[start + j]);
        assert(vals.subrange(0, j + 1) =~= vals.subrange(0, j as int).push(vals[j as int]));
        j = j + 1;
    }
    assert(vals.subrange(0, 8) =~= vals);
    let mut t: u8 = 0;
    let mut more = all_div16(&ws);
    assert(pow16(0) == 1);
    assert forall|j: int| 0 <= j < 8 implies #[trigger] ws@[j] as nat == vals[j] as nat / pow16(0) by {}
    while t < 15 && more
        invariant
            ws@.len() == 8,
            vals.len() == 8,
            shift_from(vals, t as nat) == shift_from(vals, 0),
            forall|j: int| 0 <= j < 8 ==> #[trigger] ws@[j] as nat == vals[j] as nat / pow16(t as nat),
            t <= 15,
            more == all_div16_spec(ws@),
            forall|j: int| 0 <= j < 8 ==> #[trigger] vals[j] as nat == ws@[j] as nat * pow16(t as nat),
        decreases 15 - t,
    {
        let ghost before = ws@;
        proof {
            assert forall|j: int| 0 <= j < vals.len() implies #[trigger] (vals[j] as nat / pow16(t as nat)) % 16 == 0 by {
                assert(ws@[j] % 16 == 0);
            }
            assert(divides_all(vals, t as nat));
        }
        let mut j: usize = 0;
        while j < 8
            invariant
                j <= 8,
                ws@.len() == 8,
                before.len() == 8,
                all_div16_spec(before),
                forall|k: int| 0 <= k < j ==> #[trigger] ws@[k] as nat * 16 == before[k] as nat,
                forall|k: int| j <= k < 8 ==> #[trigger] ws@[k] == before[k],
            decreases 8 - j,
        {
            let w = ws[j];
            ws.set(j, w / 16);
            j = j + 1;
        }
        proof {
            assert forall|j: int| 0 <= j < 8 implies #[trigger] vals[j] as nat == ws@[j] as nat * pow16(
                (t + 1) as nat,
            ) by {
                let x = ws@[j] as nat;
                let p = pow16(t as nat);
                assert(vals[j] as nat == before[j] as nat * p);
                assert(before[j] as nat == x * 16);
                assert(pow16((t + 1) as nat) == 16 * p);
                assert(x * 16 * p == x * (16 * p)) by (nonlinear_arith);
            }
            assert forall|j: int| 0 <= j < 8 implies #[trigger] ws@[j] as nat == vals[j] as nat / pow16(
                (t + 1) as nat,
            ) by {
                let p = pow16(t as nat);
                lemma_pow16_pos(t as nat);
                lemma_div_denominator(vals[j] as int, p as int, 16);
                assert(pow16((t + 1) as nat) == p * 16);
                assert(before[j] as nat == vals[j] as nat / p);
                assert(ws@[j] as nat * 16 == before[j] as nat);
            }
        }
        t = t + 1;
        more = all_div16(&ws);
    }
    proof {
        if t < 15 {
            assert(!more);
            if divides_all(vals, t as nat) {
                assert forall|j: int| 0 <= j < ws@.len() implies #[trigger] ws@[j] % 16 == 0 by {
                    assert((vals[j] as nat / pow16(t as nat)) % 16 == 0);
                }
            }
        }
        assert(shift_from(vals, t as nat) == t);
    }
    // Width: the nibbles of the largest shifted value.
    let mut mx: u64 = 0;
    let mut j: usize = 0;
    while j < 8
        invariant
            j <= 8,
            ws@.len() == 8,
            vals.len() == 8,
            forall|k: int| 0 <= k < 8 ==> #[trigger] ws@[k] as nat == vals[k] as nat / pow16(t as nat),
            mx as nat == max_shifted(vals, t as nat, j as nat),
            forall|k: int| 0 <= k < j ==> #[trigger] ws@[k] <= mx,
        decreases 8 - j,
    {
        if ws[j] > mx {
            mx = ws[j];
        }
        j = j + 1;
    }

    let mut n: u8 = 1;
    let mut m: u64 = mx / 16;
    proof {
        reveal_with_fuel(pow16, 2);
    }
    while m > 0
        invariant
            1 <= n <= 16,
            m as nat == mx as nat / pow16(n as nat),
            nib_len(mx as nat) == n + if m > 0 {
                nib_len(m as nat)
            } else {
                0
            },
        decreases m,
    {
        assert(nib_len(m as nat) == 1 + if m / 16 > 0 {
            nib_len((m / 16) as nat)
        } else {
            0
        });
        proof {
            lemma_pow16_pos(n as nat);
            lemma_fundamental_div_mod(mx as int, pow16(n as nat) as int);
            assert(mx as nat >= pow16(n as nat)) by (nonlinear_arith)
                requires
                    m > 0,
                    m as nat == mx as nat / pow16(n as nat),
                    mx as int == pow16(n as nat) * (mx as int / pow16(n as nat) as int) + (mx as int
                        % pow16(n as nat) as int),
                    0 <= mx as int % pow16(n as nat) as int,
            ;
            lemma_pow16_facts();
            if n >= 16 {
                lemma_pow16_mono(16, n as nat);
            }
            lemma_div_denominator(mx as int, pow16(n as nat) as int, 16);
        }
        m = m / 16;
        n = n + 1;
    }
    proof {
        lemma_pow16_pos(n as nat);
        lemma_fundamental_div_mod(mx as int, pow16(n as nat) as int);
        lemma_mod_pos_bound(mx as int, pow16(n as nat) as int);
        assert(mx as nat == pow16(n as nat) * 0 + mx as int % pow16(n as nat) as int);
    }
    assert(cnt as usize * n as usize <= 128) by (nonlinear_arith)
        requires
            cnt <= 8,
            n <= 16,
    ;
    let nbytes: usize = (cnt as usize * n as usize + 1) / 2;
    assert(group_size(vals) == 2 + nbytes);
    if offset >= len || len - offset < 2 + nbytes {
        return Err(CodingError::NotEnoughSpace);
    }
    let hdr: u8 = (n - 1) * 16 + t;
    out[offset] = mask;
    out[offset + 1] = hdr;
    let s = offset + 2;
    let mut k: usize = 0;
    let mut i: u8 = 0;
    assert(rank(mask, 0) == 0);
    assert(rank(mask, 0) * n == 0);
    while i < 8
        invariant
            i <= 8,
            1 <= n <= 16,
            cnt as nat == rank(mask, 8),
            cnt <= 8,
            s == offset + 2,
            s + nbytes <= len,
            nbytes == (cnt * n + 1) / 2,
            start + 8 <= values@.len(),
            vlen == values@.len(),
            vals == values@.subrange(start as int, start + 8),
            forall|j: u8| j < 8 ==> (#[trigger] bit(mask, j) <==> vals[j as int] != 0),
            ws@.len() == 8,
            t <= 15,
            forall|j: int| 0 <= j < 8 ==> #[trigger] ws@[j] <= mx,
            forall|j: int| 0 <= j < 8 ==> #[trigger] vals[j] as nat == ws@[j] as nat * pow16(t as nat),
            (mx as nat) < pow16(n as nat),
            k == rank(mask, i as nat) * n,
            out@.len() == len,
            len == b0.len(),
            out@[offset as int] == mask,
            out@[offset + 1] == hdr,
            out@.subrange(0, offset as int) == b0.subrange(0, offset as int),
            k % 2 == 1 ==> out@[s + k / 2] < 16,
            forall|i2: u8|
                i2 < i && bit(mask, i2) ==> nibbles(out@, s as int, rank(mask, i2 as nat) * n, n as int)
                    == digits(ws@[i2 as int] as nat, n as nat),
        decreases 8 - i,
    {
        let v = values[start + i as usize];
        if v != 0 {
            let ghost b1 = out@;
            proof {
                lemma_rank_mono(mask, (i + 1) as nat, 8);
                assert(rank(mask, (i + 1) as nat) == rank(mask, i as nat) + 1);
                assert(k + n <= cnt * n) by (nonlinear_arith)
                    requires
                        k == rank(mask, i as nat) * n,
                        rank(mask, i as nat) + 1 <= cnt,
                ;
                assert(k <= 256) by (nonlinear_arith)
                    requires
                        k + n <= cnt * n,
                        cnt <= 8,
                        n <= 16,
                ;
            }
            write_nibbles(out, s, k, ws[i as usize], n);
            proof {
                assert(out@.subrange(0, offset as int) =~= b0.subrange(0, offset as int)) by {
                    assert forall|x: int| 0 <= x < offset implies out@[x] == b1[x] by {}
                }
                assert forall|i2: u8|
                    i2 < i + 1 && bit(mask, i2) implies nibbles(out@, s as int, rank(mask, i2 as nat) * n, n as int)
                        == digits(ws@[i2 as int] as nat, n as nat) by {
                    if i2 < i {
                        lemma_rank_before(mask, i2, i as nat);
                        assert(rank(mask, i2 as nat) * n + n <= k) by (nonlinear_arith)
                            requires
                                rank(mask, i2 as nat) + 1 <= rank(mask, i as nat),
                                k == rank(mask, i as nat) * n,
                        ;
                        assert(nibbles(out@, s as int, rank(mask, i2 as nat) * n, n as int) =~= nibbles(
                            b1,
                            s as int,
                            rank(mask, i2 as nat) * n,
                            n as int,
                        ));
                    }
                }
            }
            k = k + n as usize;
            proof {
                assert(k == rank(mask, (i + 1) as nat) * n) by (nonlinear_arith)
                    requires
                        k == rank(mask, i as nat) * n + n,
                        rank(mask, (i + 1) as nat) == rank(mask, i as nat) + 1,
                ;
            }
        }
        proof {
            assert(v == vals[i as int]);
            assert(bit(mask, i) <==> v != 0);
            assert(rank(mask, (i + 1) as nat) == rank(mask, i as nat) + if bit(mask, i) {
                1nat
            } else {
                0nat
            });
        }
        i = i + 1;
    }
    proof {
        assert(group_width(out@, offset as int) == n);
        assert(group_shift(out@, offset as int) == t);
        assert forall|j: u8| j < 8 implies #[trigger] group_value(out@, offset as int, j) == vals[j as int] by {
            assert(vals[j as int] as nat == ws@[j as int] as nat * pow16(t as nat));
            if bit(mask, j) {
                lemma_digits_value(ws@[j as int] as nat, n as nat);
            }
        }
        assert(group_values(out@, offset as int) =~= vals);
    }
    Ok(s + nbytes)
}

/// `16^k` for `k <= 15`.
fn pow16_u64(k: u8) -> (r: u64)
    requires
        k <= 15,
    ensures
        r as nat == pow16(k as nat),
{
    let mut p: u64 = 1;
    let mut j: u8 = 0;
    assert(pow16(0) == 1);
    while j < k
        invariant
            j <= k <= 15,
            p as nat == pow16(j as nat),
        decreases k - j,
    {
        proof {
            lemma_pow16_mono((j + 1) as nat, 15);
            lemma_pow16_facts();
        }
        p = p * 16;
        j = j + 1;
    }
    p
}

/// Reads `n` nibbles from nibble `k0` of the stream at byte `s`.
fn read_nibbles(inp: &[u8], s: usize, k0: usize, n: u8) -> (r: u64)
    requires
        1 <= n <= 16,
        k0 <= 256,
        s + (k0 + n as int + 1) / 2 <= inp@.len(),
    ensures
        r as nat == nibbles_value(nibbles(inp@, s as int, k0 as int, n as int)),
{
    let buf_len = inp.len();
    let mut acc: u64 = 0;
    let mut d: u8 = n;
    assert(nibbles(inp@, s as int, k0 + n, 0) =~= Seq::<u8>::empty());
    while d > 0
        invariant
            d <= n <= 16,
            k0 <= 256,
            buf_len == inp@.len(),
            s + (k0 + n as int + 1) / 2 <= inp@.len(),
            acc as nat == nibbles_value(nibbles(inp@, s as int, k0 + d, n - d)),
        decreases d,
    {
        let ghost tail = nibbles(inp@, s as int, k0 + d, n - d);
        proof {
            assert forall|j: int| 0 <= j < tail.len() implies tail[j] < 16 by {}
            lemma_nibbles_value_bound(tail);
            lemma_pow16_mono((n - d) as nat, 15);
            lemma_pow16_facts();
        }
        d = d - 1;
        let k = k0 + d as usize;
        let byte = inp[s + k / 2];
        let nib: u8 = if k % 2 == 0 {
            byte % 16
        } else {
            byte / 16
        };
        proof {
            let next = nibbles(inp@, s as int, k0 + d, n - d);
            assert(next.drop_first() =~= tail);
            assert(next[0] == nib);
        }
        acc = acc * 16 + nib as u64;
    }
    assert(nibbles(inp@, s as int, k0 as int, n as int) =~= nibbles(inp@, s as int, k0 + 0, n - 0));
    acc
}

/// Decodes the group of eight values at `p`, and returns them with the offset just past
/// the group. Fails with `InputTooShort` when the bytes from `p` on do not hold a whole
/// group whose values fit in a `u64`.
pub fn unpack_group(inp: &[u8], p: usize) -> (r: Result<(Vec<u64>, usize), CodingError>)
    ensures
        match r {
            Ok((vs, q)) => group_ok(inp@, p as int) && vs@ == group_values(inp@, p as int) && q == p
                + group_len(inp@, p as int),
            Err(e) => !group_ok(inp@, p as int) && e == CodingError::InputTooShort,
        },
{
    let len = inp.len();
    if p >= len {
        return Err(CodingError::InputTooShort);
    }
    let mask = inp[p];
    if mask == 0 {
        let vs: Vec<u64> = vec![0, 0, 0, 0, 0, 0, 0, 0];
        assert(vs@ =~= group_values(inp@, p as int));
        return Ok((vs, p + 1));
    }
    if len - p < 2 {
        return Err(CodingError::InputTooShort);
    }
    let h = inp[p + 1];
    let n: u8 = h / 16 + 1;
    let t: u8 = h % 16;
    let mut cnt: u8 = 0;
    let mut i: u8 = 0;
    while i < 8
        invariant
            i <= 8,
            cnt <= i,
            cnt as nat == rank(mask, i as nat),
        decreases 8 - i,
    {
        if (mask >> i) & 1u8 == 1u8 {
            cnt = cnt + 1;
        }
        i = i + 1;
    }
    assert(cnt as usize * n as usize <= 128) by (nonlinear_arith)
        requires
            cnt <= 8,
            n <= 16,
    ;
    let nbytes: usize = (cnt as usize * n as usize + 1) / 2;
    if len - p < 2 + nbytes {
        return Err(CodingError::InputTooShort);
    }
    let scale = pow16_u64(t);
    let mut vs: Vec<u64> = Vec::new();
    let mut k: usize = 0;
    let mut i: u8 = 0;
    while i < 8
        invariant
            i <= 8,
            len == inp@.len(),
            p < len,
            mask == inp@[p as int],
            mask != 0,
            h == inp@[p + 1],
            n as int == group_width(inp@, p as int),
            1 <= n <= 16,
            t as nat == group_shift(inp@, p as int),
            scale as nat == pow16(t as nat),
            cnt as nat == rank(mask, 8),
            cnt <= 8,
            nbytes == (cnt * n + 1) / 2,
            p + 2 + nbytes <= len,
            k == rank(mask, i as nat) * n,
            vs@.len() == i,
            forall|j: int| 0 <= j < i ==> vs@[j] as nat == group_value(inp@, p as int, j as u8),
            forall|j: u8| j < i ==> #[trigger] group_value(inp@, p as int, j) <= u64::MAX,
        decreases 8 - i,
    {
        if (mask >> i) & 1u8 == 1u8 {
            proof {
                lemma_rank_mono(mask, (i + 1) as nat, 8);
                assert(k + n <= cnt * n) by (nonlinear_arith)
                    requires
                        k == rank(mask, i as nat) * n,
                        rank(mask, i as nat) + 1 <= cnt,
                ;
                assert(k <= 256) by (nonlinear_arith)
                    requires
                        k + n <= cnt * n,
                        cnt <= 8,
                        n <= 16,
                ;
            }
            let w = read_nibbles(inp, p + 2, k, n);
            match w.checked_mul(scale) {
                Some(v) => {
                    vs.push(v);
                },
                None => {
                    proof {
                        assert(bit(mask, i));
                        assert(group_value(inp@, p as int, i) == w as nat * scale as nat);
                    }
                    return Err(CodingError::InputTooShort);
                },
            }
            k = k + n as usize;
            proof {
                assert(k == rank(mask, (i + 1) as nat) * n) by (nonlinear_arith)
                    requires
                        k == rank(mask, i as nat) * n + n,
                        rank(mask, (i + 1) as nat) == rank(mask, i as nat) + 1,
                ;
            }
        } else {
            vs.push(0);
        }
        i = i + 1;
    }
    assert(vs@ =~= group_values(inp@, p as int));
    Ok((vs, p + 2 + nbytes))
}

/// A group reads only its own bytes.
proof fn lemma_group_frame(b1: Seq<u8>, b2: Seq<u8>, q: int)
    requires
        group_ok(b1, q),
        q + group_len(b1, q) <= b2.len(),
        forall|x: int| q <= x < q + group_len(b1, q) ==> b1[x] == b2[x],
    ensures
        group_ok(b2, q),
        group_len(b2, q) == group_len(b1, q),
        group_values(b2, q) == group_values(b1, q),
{
    assert(b2[q] == b1[q]);
    if b1[q] != 0 {
        assert(b2[q + 1] == b1[q + 1]);
        let n = group_width(b1, q);
        let cnt = rank(b1[q], 8);
        assert forall|i: u8| i < 8 implies #[trigger] group_value(b2, q, i) == group_value(b1, q, i) by {
            if bit(b1[q], i) {
                let from = rank(b1[q], i as nat) * n;
                lemma_rank_mono(b1[q], (i + 1) as nat, 8);
                assert(from + n <= cnt * n) by (nonlinear_arith)
                    requires
                        from == rank(b1[q], i as nat) * n,
                        rank(b1[q], i as nat) + 1 <= cnt,
                        n >= 1,
                ;
                assert forall|j: int| 0 <= j < n implies #[trigger] nibbles(b2, q + 2, from, n)[j] == nibbles(
                    b1,
                    q + 2,
                    from,
                    n,
                )[j] by {
                    assert(q + 2 + (from + j) / 2 < q + group_len(b1, q));
                }
                assert(nibbles(b2, q + 2, from, n) =~= nibbles(b1, q + 2, from, n));
            }
        }
    }
    assert(group_values(b2, q) =~= group_values(b1, q));
}

/// A run of groups reads only its own bytes.
proof fn lemma_groups_frame(b1: Seq<u8>, b2: Seq<u8>, p: int, k: nat)
    requires
        decode_groups(b1, p, k) is Some,
        groups_end(b1, p, k) <= b2.len(),
        forall|x: int| p <= x < groups_end(b1, p, k) ==> b1[x] == b2[x],
    ensures
        decode_groups(b2, p, k) == decode_groups(b1, p, k),
        p <= groups_end(b1, p, k),
    decreases k,
{
    if k > 0 {
        let q = groups_end(b1, p, (k - 1) as nat);
        lemma_groups_frame(b1, b2, p, (k - 1) as nat);
        lemma_group_frame(b1, b2, q);
    }
}

/// Nibble-packs all of `values`, eight at a time, from `offset` on, and returns the offset
/// just past them. Fails with `NotEnoughSpace` when they do not fit; 66 bytes per eight
/// values always suffice.
pub fn pack_u64(values: &[u64], out: &mut [u8], offset: usize) -> (r: Result<usize, CodingError>)
    requires
        values@.len() % 8 == 0,
    ensures
        final(out)@.len() == old(out)@.len(),
        offset <= old(out)@.len() ==> final(out)@.subrange(0, offset as int) == old(out)@.subrange(
            0,
            offset as int,
        ),
        r is Ok <==> offset + packed_len(values@, values@.len() / 8) <= old(out)@.len(),
        match r {
            Ok(end) => end == offset + packed_len(values@, values@.len() / 8) && decode_groups(
                final(out)@,
                offset as int,
                values@.len() / 8,
            ) == Some((values@, end as int)),
            Err(e) => e == CodingError::NotEnoughSpace,
        },
{
    let ghost b0 = out@;
    let len = out.len();
    let vlen = values.len();
    let groups = vlen / 8;
    if offset > len {
        proof {
            lemma_packed_len_mono(values@, 0, (values@.len() / 8) as nat);
        }
        return Err(CodingError::NotEnoughSpace);
    }
    let mut g: usize = 0;
    let mut off = offset;
    assert(values@.subrange(0, 0) =~= Seq::<u64>::empty());
    while g < groups
        invariant
            groups == values@.len() / 8,
            vlen == values@.len(),
            values@.len() % 8 == 0,
            g <= groups,
            len == out@.len(),
            len == b0.len(),
            b0 == old(out)@,
            offset <= off,
            off == offset + packed_len(values@, g as nat),
            off <= len,
            offset <= len ==> out@.subrange(0, offset as int) == b0.subrange(0, offset as int),
            decode_groups(out@, offset as int, g as nat) == Some(
                (values@.subrange(0, 8 * g), off as int),
            ),
        decreases groups - g,
    {
        let ghost b1 = out@;
        assert(8 * g + 8 <= values@.len());
        assert(packed_len(values@, (g + 1) as nat) == packed_len(values@, g as nat) + group_size(
            values@.subrange(8 * g as int, 8 * g + 8),
        ));
        let res = nibble_pack8(values, 8 * g, out, off);
        match res {
            Ok(end) => {
                proof {
                    assert forall|x: int| offset <= x < off implies b1[x] == out@[x] by {
                        assert(out@.subrange(0, off as int)[x] == b1.subrange(0, off as int)[x]);
                    }
                    lemma_groups_frame(b1, out@, offset as int, g as nat);
                    assert(values@.subrange(0, 8 * g) + values@.subrange(8 * g, 8 * g + 8)
                        =~= values@.subrange(0, 8 * (g + 1)));
                    if offset <= len {
                        assert(out@.subrange(0, offset as int) =~= b0.subrange(0, offset as int)) by {
                            assert forall|x: int| 0 <= x < offset implies out@[x] == b0[x] by {
                                assert(out@.subrange(0, off as int)[x] == b1.subrange(0, off as int)[x]);
                                assert(b1.subrange(0, offset as int)[x] == b0.subrange(0, offset as int)[x]);
                            }
                        }
                    }
                }
                off = end;
            },
            Err(e) => {
                proof {
                    lemma_packed_len_mono(values@, (g + 1) as nat, groups as nat);
                }
                return Err(e);
            },
        }
        g = g + 1;
    }
    assert(values@.subrange(0, 8 * groups) =~= values@);
    Ok(off)
}

/// Decodes `count` values, eight at a time, from `offset` on, and returns them with the
/// offset just past them. Fails with `InputTooShort` when the bytes do not hold them.
pub fn unpack_u64(inp: &[u8], offset: usize, count: usize) -> (r: Result<(Vec<u64>, usize), CodingError>)
    requires
        count % 8 == 0,
    ensures
        match r {
            Ok((vs, q)) => decode_groups(inp@, offset as int, count as nat / 8) == Some(
                (vs@, q as int),
            ),
            Err(e) => decode_groups(inp@, offset as int, count as nat / 8) is None && e
                == CodingError::InputTooShort,
        },
{
    let groups = count / 8;
    let mut vs: Vec<u64> = Vec::new();
    let mut off = offset;
    let mut g: usize = 0;
    while g < groups
        invariant
            g <= groups,
            groups == count / 8,
            decode_groups(inp@, offset as int, g as nat) == Some((vs@, off as int)),
        decreases groups - g,
    {
        match unpack_group(inp, off) {
            Ok((more, end)) => {
                let ghost before = vs@;
                let mut j: usize = 0;
                while j < 8
                    invariant
                        j <= 8,
                        more@.len() == 8,
                        vs@ == before + more@.subrange(0, j as int),
                    decreases 8 - j,
                {
                    vs.push(more[j]);
                    assert(before + more@.subrange(0, j + 1) =~= before + more@.subrange(0, j as int)
                        + seq![more@[j as int]]);
                    j = j + 1;
                }
                assert(more@.subrange(0, 8) =~= more@);
                off = end;
            },
            Err(e) => {
                proof {
                    lemma_groups_none(inp@, offset as int, (g + 1) as nat, groups as nat);
                }
                return Err(e);
            },
        }
        g = g + 1;
    }
    Ok((vs, off))
}

/// Once a run of groups fails to decode, every longer run fails too.
pub proof fn lemma_groups_none(b: Seq<u8>, p: int, k: nat, m: nat)
    requires
        k <= m,
        decode_groups(b, p, k) is None,
    ensures
        decode_groups(b, p, m) is None,
    decreases m,
{
    if k < m {
        lemma_groups_none(b, p, k, (m - 1) as nat);
    }
}

/// A receiver of decoded `u32` values, eight at a time.
pub trait SinkU32 {
    /// All values received so far, in order.
    spec fn received(&self) -> Seq<u32>;

    /// Takes eight more values.
    fn accept_u32x8(&mut self, vals: &[u32])
        requires
            vals@.len() == 8,
        ensures
            final(self).received() == old(self).received() + vals@,
    ;
}

/// The low 32 bits of each value.
pub open spec fn low_u32s(vs: Seq<u64>) -> Seq<u32> {
    vs.map_values(|v: u64| v as u32)
}

/// Decodes the group at `p` into `sink`, each value cut to its low 32 bits, and returns the
/// offset just past the group.
pub fn unpack8_u32<S: SinkU32>(inp: &[u8], p: usize, sink: &mut S) -> (r: Result<usize, CodingError>)
    ensures
        match r {
            Ok(q) => group_ok(inp@, p as int) && q == p + group_len(inp@, p as int)
                && final(sink).received() == old(sink).received() + low_u32s(group_values(inp@, p as int)),
            Err(e) => !group_ok(inp@, p as int) && e == CodingError::InputTooShort && final(sink).received()
                == old(sink).received(),
        },
{
    match unpack_group(inp, p) {
        Ok((vs, q)) => {
            let mut out: [u32; 8] = [0u32; 8];
            let mut j: usize = 0;
            while j < 8
                invariant
                    j <= 8,
                    vs@.len() == 8,
                    out@.len() == 8,
                    forall|k: int| 0 <= k < j ==> #[trigger] out@[k] == vs@[k] as u32,
                decreases 8 - j,
            {
                out[j] = vs[j] as u32;
                j = j + 1;
            }
            assert(out@ =~= low_u32s(vs@));
            sink.accept_u32x8(out.as_slice());
            Ok(q)
        },
        Err(e) => Err(e),
    }
}

/// A run of groups reads only the bytes from `p` up to where it ends.
pub proof fn lemma_groups_suffix_frame(b1: Seq<u8>, b2: Seq<u8>, p: int, k: nat)
    requires
        k > 0,
        decode_groups(b1, p, k) is Some,
        b2.len() == b1.len(),
        forall|x: int| p <= x < b1.len() ==> b1[x] == b2[x],
    ensures
        decode_groups(b2, p, k) == decode_groups(b1, p, k),
{
    lemma_groups_end_bound(b1, p, k);
    lemma_groups_frame(b1, b2, p, k);
}

/// A run of groups that decodes lies within the bytes.
pub proof fn lemma_groups_end_bound(b: Seq<u8>, p: int, k: nat)
    requires
        decode_groups(b, p, k) is Some,
    ensures
        k == 0 ==> groups_end(b, p, k) == p,
        k > 0 ==> p < groups_end(b, p, k) <= b.len(),
    decreases k,
{
    if k > 0 {
        lemma_groups_end_bound(b, p, (k - 1) as nat);
    }
}

/// A group decodes the same from a window of the bytes that holds it.
proof fn lemma_group_shift(b: Seq<u8>, o: int, q: int, x: int)
    requires
        0 <= o <= q,
        group_ok(b, q),
        q + group_len(b, q) <= x <= b.len(),
    ensures
        group_ok(b.subrange(o, x), q - o),
        group_len(b.subrange(o, x), q - o) == group_len(b, q),
        group_values(b.subrange(o, x), q - o) == group_values(b, q),
{
    let c = b.subrange(o, x);
    assert(c[q - o] == b[q]);
    if b[q] != 0 {
        assert(c[q - o + 1] == b[q + 1]);
        let n = group_width(b, q);
        let cnt = rank(b[q], 8);
        assert forall|i: u8| i < 8 implies #[trigger] group_value(c, q - o, i) == group_value(b, q, i) by {
            if bit(b[q], i) {
                let from = rank(b[q], i as nat) * n;
                lemma_rank_mono(b[q], (i + 1) as nat, 8);
                assert(from + n <= cnt * n) by (nonlinear_arith)
                    requires
                        from == rank(b[q], i as nat) * n,
                        rank(b[q], i as nat) + 1 <= cnt,
                        n >= 1,
                ;
                assert forall|j: int| 0 <= j < n implies #[trigger] nibbles(c, q - o + 2, from, n)[j]
                    == nibbles(b, q + 2, from, n)[j] by {
                    assert(q + 2 + (from + j) / 2 < q + group_len(b, q));
                    assert(c[q - o + 2 + (from + j) / 2] == b[q + 2 + (from + j) / 2]);
                }
                assert(nibbles(c, q - o + 2, from, n) =~= nibbles(b, q + 2, from, n));
            }
        }
    }
    assert(group_values(c, q - o) =~= group_values(b, q));
}

/// A run of groups decodes the same from a window of the bytes that holds it.
pub proof fn lemma_groups_shift(b: Seq<u8>, o: int, p: int, k: nat, x: int)
    requires
        0 <= o <= p,
        decode_groups(b, p, k) is Some,
        groups_end(b, p, k) <= x <= b.len(),
    ensures
        decode_groups(b.subrange(o, x), p - o, k) == (match decode_groups(b, p, k) {
            Some((vs, q)) => Some((vs, q - o)),
            None => None,
        }),
    decreases k,
{
    if k > 0 {
        lemma_groups_end_bound(b, p, (k - 1) as nat);
        let q = groups_end(b, p, (k - 1) as nat);
        lemma_groups_shift(b, o, p, (k - 1) as nat, x);
        lemma_group_shift(b, o, q, x);
    }
}

/// Cutting each widened value back to 32 bits gives the value.
pub proof fn lemma_low_of_wide(vs: Seq<u32>)
    ensures
        low_u32s(vs.map_values(|v: u32| v as u64)) == vs,
{
    assert(low_u32s(vs.map_values(|v: u32| v as u64)) =~= vs);
}

} // verus!
