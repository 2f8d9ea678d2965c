//! The Rice decoder of FITS tile compression (RICE_1).
use vstd::prelude::*;
use crate::endian::be_value;

verus! {

/// Bit `i` of the bytes, counting from the most significant bit of byte 0.
pub open spec fn bit_at(b: Seq<u8>, i: int) -> nat {
    ((b[i / 8] >> ((7 - i % 8) as u8)) & 1u8) as nat
}

/// `n` bits from bit `pos` on, read as an unsigned number, first bit highest.
pub open spec fn bits_value(b: Seq<u8>, pos: int, n: nat) -> nat
    decreases n,
{
    if n == 0 {
        0
    } else {
        2 * bits_value(b, pos, (n - 1) as nat) + bit_at(b, pos + n - 1)
    }
}

pub open spec fn pow2(n: nat) -> nat
    decreases n,
{
    if n == 0 {
        1
    } else {
        2 * pow2((n - 1) as nat)
    }
}

/// The number of 0 bits from `pos` on before the next 1 bit, `None` when the
/// bits run out first.
pub open spec fn zero_run(b: Seq<u8>, pos: int) -> Option<nat>
    decreases 8 * b.len() - pos,
{
    if pos < 0 || pos >= 8 * b.len() {
        None
    } else if bit_at(b, pos) == 1 {
        Some(0)
    } else {
        match zero_run(b, pos + 1) {
            Some(z) => Some(z + 1),
            None => None,
        }
    }
}

/// The parameters of the code for a pixel width: bits of the block code, the
/// largest split for coded pixels, and the bits of a pixel.
pub open spec fn fs_bits(bytepix: nat) -> nat {
    if bytepix == 1 {
        3
    } else if bytepix == 2 {
        4
    } else {
        5
    }
}

pub open spec fn fs_max(bytepix: nat) -> int {
    if bytepix == 1 {
        6
    } else if bytepix == 2 {
        14
    } else {
        25
    }
}

/// A difference as coded: even numbers for differences of 0 and up, odd ones
/// for negative differences.
pub open spec fn unfold_diff(d: nat) -> int {
    if d % 2 == 0 {
        (d / 2) as int
    } else {
        -((d / 2) as int) - 1
    }
}

/// One coded difference at bit `pos` in a block with split `fs`: the
/// difference and the position after it. With no split (`fs < 0`) every
/// difference is 0; with the largest split it is stored whole in `8 *
/// bytepix` bits; otherwise its high part is a run of 0 bits ended by a 1
/// and its low part the next `fs` bits.
pub open spec fn coded_diff(b: Seq<u8>, pos: int, fs: int, bytepix: nat) -> Option<(nat, int)> {
    let total = 8 * b.len();
    if fs < 0 {
        Some((0, pos))
    } else if fs == fs_max(bytepix) {
        if pos + 8 * bytepix <= total {
            Some((bits_value(b, pos, 8 * bytepix), pos + 8 * bytepix))
        } else {
            None
        }
    } else {
        match zero_run(b, pos) {
            Some(z) => {
                let p = pos + z + 1;
                if z >= 0x1_0000_0000 || p + fs > total {
                    None
                } else {
                    Some((z * pow2(fs as nat) + bits_value(b, p, fs as nat), p + fs))
                }
            },
            None => None,
        }
    }
}

/// `count` pixels of one block from bit `pos` on, each the one before plus
/// its difference, modulo `2^(8 * bytepix)`: the values, the bit after them
/// and the last value.
pub open spec fn rice_block(
    b: Seq<u8>,
    pos: int,
    last: nat,
    count: nat,
    fs: int,
    bytepix: nat,
) -> Option<(Seq<nat>, int, nat)>
    decreases count,
{
    if count == 0 {
        Some((Seq::empty(), pos, last))
    } else {
        match coded_diff(b, pos, fs, bytepix) {
            Some((d, np)) => {
                let v = ((last + unfold_diff(d)) % (pow2(8 * bytepix) as int)) as nat;
                match rice_block(b, np, v, (count - 1) as nat, fs, bytepix) {
                    Some((vs, p, l)) => Some((seq![v] + vs, p, l)),
                    None => None,
                }
            },
            None => None,
        }
    }
}

/// The pixels of the blocks from bit `pos` on, `remaining` of them: each
/// block of `blocksize` pixels (fewer for the last) starts with its split
/// code.
pub open spec fn rice_blocks(
    b: Seq<u8>,
    pos: int,
    last: nat,
    remaining: nat,
    bytepix: nat,
    blocksize: nat,
) -> Option<Seq<nat>>
    decreases remaining,
{
    if remaining == 0 {
        Some(Seq::empty())
    } else if blocksize == 0 || pos + fs_bits(bytepix) > 8 * b.len() {
        None
    } else {
        let fs = bits_value(b, pos, fs_bits(bytepix)) - 1;
        let n = if blocksize < remaining {
            blocksize
        } else {
            remaining
        };
        if fs > fs_max(bytepix) {
            None
        } else {
            match rice_block(b, pos + fs_bits(bytepix), last, n, fs, bytepix) {
                Some((vs, p, l)) => match rice_blocks(b, p, l, (remaining - n) as nat, bytepix, blocksize) {
                    Some(rest) => Some(vs + rest),
                    None => None,
                },
                None => None,
            }
        }
    }
}

/// The `count` pixels that Rice-coded bytes hold, as unsigned values of
/// `8 * bytepix` bits: a starting value stored whole in the first `bytepix`
/// bytes, then the coded blocks, whose first difference is taken from that
/// value. `None` for a pixel width other than 1, 2 or
/// 4 bytes, or bytes that hold fewer pixels.
pub open spec fn rice_decode(b: Seq<u8>, bytepix: nat, blocksize: nat, count: nat) -> Option<Seq<nat>> {
    if !(bytepix == 1 || bytepix == 2 || bytepix == 4) || b.len() < bytepix {
        None
    } else {
        rice_blocks(b, (8 * bytepix) as int, bits_value(b, 0, 8 * bytepix), count, bytepix, blocksize)
    }
}

proof fn lemma_block_len(b: Seq<u8>, pos: int, last: nat, count: nat, fs: int, bytepix: nat)
    ensures
        rice_block(b, pos, last, count, fs, bytepix) matches Some((vs, _, _)) ==> vs.len() == count,
    decreases count,
{
    if count > 0 {
        match coded_diff(b, pos, fs, bytepix) {
            Some((d, np)) => {
                let v = ((last + unfold_diff(d)) % (pow2(8 * bytepix) as int)) as nat;
                lemma_block_len(b, np, v, (count - 1) as nat, fs, bytepix);
            },
            None => {},
        }
    }
}

proof fn lemma_blocks_len(b: Seq<u8>, pos: int, last: nat, remaining: nat, bytepix: nat, blocksize: nat)
    ensures
        rice_blocks(b, pos, last, remaining, bytepix, blocksize) matches Some(vs) ==> vs.len()
            == remaining,
    decreases remaining,
{
    if remaining > 0 && blocksize > 0 && pos + fs_bits(bytepix) <= 8 * b.len() {
        let fs = bits_value(b, pos, fs_bits(bytepix)) - 1;
        let n = if blocksize < remaining {
            blocksize
        } else {
            remaining
        };
        lemma_block_len(b, pos + fs_bits(bytepix), last, n, fs, bytepix);
        match rice_block(b, pos + fs_bits(bytepix), last, n, fs, bytepix) {
            Some((vs, p, l)) => {
                lemma_blocks_len(b, p, l, (remaining - n) as nat, bytepix, blocksize);
            },
            None => {},
        }
    }
}

/// Decoded pixels are as many as asked for, of a width of 1, 2 or 4 bytes.
pub proof fn lemma_rice_decode_len(b: Seq<u8>, bytepix: nat, blocksize: nat, count: nat)
    ensures
        rice_decode(b, bytepix, blocksize, count) matches Some(vs) ==> vs.len() == count && (
        bytepix == 1 || bytepix == 2 || bytepix == 4),
{
    lemma_blocks_len(b, (8 * bytepix) as int, bits_value(b, 0, 8 * bytepix), count, bytepix, blocksize);
}

proof fn lemma_pow2_values()
    ensures
        pow2(8) == 256,
        pow2(16) == 65536,
        pow2(32) == 0x1_0000_0000,
{
    reveal_with_fuel(pow2, 33);
}

proof fn lemma_pow2_pos(a: nat)
    ensures
        1 <= pow2(a),
    decreases a,
{
    if a > 0 {
        lemma_pow2_pos((a - 1) as nat);
    }
}

proof fn lemma_pow2_mono(a: nat, b: nat)
    requires
        a <= b,
    ensures
        1 <= pow2(a) <= pow2(b),
    decreases b,
{
    lemma_pow2_pos(a);
    if b > 0 {
        if a < b {
            lemma_pow2_mono(a, (b - 1) as nat);
        }
    }
}

proof fn lemma_bit_at(b: Seq<u8>, i: int)
    ensures
        bit_at(b, i) <= 1,
{
    let x = b[i / 8];
    let sh = (7 - i % 8) as u8;
    assert(((x >> sh) & 1u8) <= 1) by (bit_vector);
}

proof fn lemma_bits_bound(b: Seq<u8>, pos: int, n: nat)
    ensures
        bits_value(b, pos, n) < pow2(n),
    decreases n,
{
    if n > 0 {
        lemma_bits_bound(b, pos, (n - 1) as nat);
        lemma_bit_at(b, pos + n - 1);
    }
}

fn bit_of(b: &[u8], i: u128) -> (r: u64)
    requires
        i < 8 * b.len(),
    ensures
        r as nat == bit_at(b@, i as int),
        r <= 1,
{
    let byte = b[(i / 8) as usize];
    let sh = (7 - i % 8) as u8;
    let x = (byte >> sh) & 1u8;
    assert(x <= 1) by (bit_vector)
        requires
            x == (byte >> sh) & 1u8,
    ;
    x as u64
}

fn read_bits(b: &[u8], pos: u128, n: u64) -> (r: u64)
    requires
        n <= 32,
        pos + n <= 8 * b.len(),
    ensures
        r as nat == bits_value(b@, pos as int, n as nat),
        (r as nat) < pow2(n as nat),
{
    let mut v: u64 = 0;
    let mut k: u64 = 0;
    proof {
        lemma_pow2_values();
    }
    while k < n
        invariant
            0 <= k <= n <= 32,
            pos + n <= 8 * b.len(),
            v as nat == bits_value(b@, pos as int, k as nat),
            pow2(32) == 0x1_0000_0000,
        decreases n - k,
    {
        proof {
            lemma_bits_bound(b@, pos as int, k as nat);
            lemma_pow2_mono(k as nat, 32);
        }
        let bit = bit_of(b, pos + k as u128);
        v = 2 * v + bit;
        k = k + 1;
    }
    proof {
        lemma_bits_bound(b@, pos as int, n as nat);
    }
    v
}

/// Zeros before the next 1 bit, when the bits hold a 1 bit.
fn zero_run_of(b: &[u8], pos: u128) -> (r: Option<u128>)
    ensures
        match r {
            Some(z) => zero_run(b@, pos as int) == Some(z as nat),
            None => zero_run(b@, pos as int) is None,
        },
{
    let total: u128 = (b.len() as u128) * 8;
    let mut p = pos;
    while p < total
        invariant
            pos <= p,
            total == 8 * b.len(),
            zero_run(b@, pos as int) == match zero_run(b@, p as int) {
                Some(z) => Some(z + (p - pos) as nat),
                None => None,
            },
        decreases total - p,
    {
        if bit_of(b, p) == 1 {
            return Some(p - pos);
        }
        p = p + 1;
    }
    None
}

fn pow2_of(n: u64) -> (r: u64)
    requires
        n <= 32,
    ensures
        r as nat == pow2(n as nat),
{
    let mut p: u64 = 1;
    let mut k: u64 = 0;
    proof {
        lemma_pow2_values();
    }
    while k < n
        invariant
            0 <= k <= n <= 32,
            p as nat == pow2(k as nat),
            pow2(32) == 0x1_0000_0000,
        decreases n - k,
    {
        proof {
            lemma_pow2_mono((k + 1) as nat, 32);
        }
        p = 2 * p;
        k = k + 1;
    }
    p
}

fn coded_diff_of(b: &[u8], pos: u128, fs: i64, bytepix: u64) -> (r: Option<(u64, u128)>)
    requires
        bytepix == 1 || bytepix == 2 || bytepix == 4,
        -1 <= fs <= fs_max(bytepix as nat),
    ensures
        match r {
            Some((d, np)) => coded_diff(b@, pos as int, fs as int, bytepix as nat) == Some(
                (d as nat, np as int),
            ) && d < 0x100_0000_0000_0000,
            None => coded_diff(b@, pos as int, fs as int, bytepix as nat) is None,
        },
{
    let total: u128 = (b.len() as u128) * 8;
    let fmax: i64 = if bytepix == 1 {
        6
    } else if bytepix == 2 {
        14
    } else {
        25
    };
    if fs < 0 {
        return Some((0, pos));
    }
    if fs == fmax {
        let w = 8 * bytepix;
        if pos > total || (w as u128) > total - pos {
            return None;
        }
        let d = read_bits(b, pos, w);
        proof {
            lemma_pow2_values();
        }
        return Some((d, pos + w as u128));
    }
    match zero_run_of(b, pos) {
        Some(z) => {
            if z >= 0x1_0000_0000 {
                return None;
            }
            let p = pos + z + 1;
            if p > total || (fs as u128) > total - p {
                return None;
            }
            let low = read_bits(b, p, fs as u64);
            let m = pow2_of(fs as u64);
            proof {
                lemma_pow2_mono(fs as nat, 24);
                reveal_with_fuel(pow2, 25);
            }
            assert(pow2(24) == 0x100_0000);
            assert((z as u64) * m <= 0xFFFF_FFFF * 0x100_0000) by (nonlinear_arith)
                requires
                    z < 0x1_0000_0000,
                    m <= 0x100_0000,
            ;
            let d = (z as u64) * m + low;
            Some((d, p + fs as u128))
        },
        None => None,
    }
}

pub open spec fn nats(v: Seq<u64>) -> Seq<nat> {
    Seq::new(v.len(), |i: int| v[i] as nat)
}

fn step_value(last: u64, d: u64, m: u64) -> (r: u64)
    requires
        0 < m <= 0x1_0000_0000,
        last < m,
    ensures
        r as int == (last + unfold_diff(d as nat)) % (m as int),
        r < m,
{
    let h = d / 2;
    let hm = h % m;
    if d % 2 == 0 {
        proof {
            vstd::arithmetic::div_mod::lemma_add_mod_noop_right(last as int, h as int, m as int);
        }
        (last + hm) % m
    } else {
        proof {
            vstd::arithmetic::div_mod::lemma_fundamental_div_mod(h as int, m as int);
            let a = -((h as int) / (m as int)) - 1;
            let b0 = last + m - hm - 1;
            assert(m * a + b0 == last - h - 1) by (nonlinear_arith)
                requires
                    h == m * (h / m) + hm,
                    a == -(h / m) - 1,
                    b0 == last + m - hm - 1,
            ;
            vstd::arithmetic::div_mod::lemma_mod_multiples_vanish(a, b0, m as int);
        }
        (last + m - hm - 1) % m
    }
}

fn pixel_modulus(bytepix: u64) -> (r: u64)
    requires
        bytepix == 1 || bytepix == 2 || bytepix == 4,
    ensures
        r as nat == pow2(8 * bytepix as nat),
        0 < r <= 0x1_0000_0000,
{
    proof {
        lemma_pow2_values();
    }
    if bytepix == 1 {
        256
    } else if bytepix == 2 {
        65536
    } else {
        0x1_0000_0000
    }
}

fn rice_block_exec(b: &[u8], pos: u128, last: u64, count: u64, fs: i64, bytepix: u64) -> (r: Option<
    (Vec<u64>, u128, u64),
>)
    requires
        bytepix == 1 || bytepix == 2 || bytepix == 4,
        -1 <= fs <= fs_max(bytepix as nat),
        (last as nat) < pow2(8 * bytepix as nat),
    ensures
        match r {
            Some((vs, p, l)) => rice_block(b@, pos as int, last as nat, count as nat, fs as int, bytepix as nat)
                == Some((nats(vs@), p as int, l as nat)) && (l as nat) < pow2(8 * bytepix as nat),
            None => rice_block(b@, pos as int, last as nat, count as nat, fs as int, bytepix as nat) is None,
        },
{
    let m = pixel_modulus(bytepix);
    let mut vals: Vec<u64> = Vec::new();
    let mut p = pos;
    let mut l = last;
    let mut k: u64 = 0;
    while k < count
        invariant
            0 <= k <= count,
            bytepix == 1 || bytepix == 2 || bytepix == 4,
            -1 <= fs <= fs_max(bytepix as nat),
            m as nat == pow2(8 * bytepix as nat),
            0 < m <= 0x1_0000_0000,
            l < m,
            rice_block(b@, pos as int, last as nat, count as nat, fs as int, bytepix as nat) == match rice_block(
                b@,
                p as int,
                l as nat,
                (count - k) as nat,
                fs as int,
                bytepix as nat,
            ) {
                Some((vs, pp, ll)) => Some((nats(vals@) + vs, pp, ll)),
                None => None,
            },
        decreases count - k,
    {
        match coded_diff_of(b, p, fs, bytepix) {
            Some((d, np)) => {
                let v = step_value(l, d, m);
                proof {
                    let rest = rice_block(b@, np as int, v as nat, (count - k - 1) as nat, fs as int, bytepix as nat);
                    match rest {
                        Some((vs, pp, ll)) => {
                            assert(nats(vals@.push(v)) + vs =~= nats(vals@) + (seq![v as nat] + vs));
                        },
                        None => {},
                    }
                }
                vals.push(v);
                p = np;
                l = v;
            },
            None => {
                return None;
            },
        }
        k = k + 1;
    }
    proof {
        assert(nats(vals@) + Seq::<nat>::empty() =~= nats(vals@));
    }
    Some((vals, p, l))
}

/// The `count` pixels that Rice-coded bytes hold (see `rice_decode`).
pub fn rice_decode_exec(b: &[u8], bytepix: u64, blocksize: u64, count: u64) -> (r: Option<Vec<u64>>)
    ensures
        match r {
            Some(v) => rice_decode(b@, bytepix as nat, blocksize as nat, count as nat) == Some(nats(v@)),
            None => rice_decode(b@, bytepix as nat, blocksize as nat, count as nat) is None,
        },
{
    if !(bytepix == 1 || bytepix == 2 || bytepix == 4) || (b.len() as u64) < bytepix {
        return None;
    }
    let total: u128 = (b.len() as u128) * 8;
    let first = read_bits(b, 0, 8 * bytepix);
    let fsb: u64 = if bytepix == 1 {
        3
    } else if bytepix == 2 {
        4
    } else {
        5
    };
    let fmax: i64 = if bytepix == 1 {
        6
    } else if bytepix == 2 {
        14
    } else {
        25
    };
    let mut out: Vec<u64> = Vec::new();
    let mut p: u128 = (8 * bytepix) as u128;
    let mut l: u64 = first;
    let mut remaining: u64 = count;
    assert(nats(out@) + Seq::<nat>::empty() =~= Seq::<nat>::empty());
    while remaining > 0
        invariant
            bytepix == 1 || bytepix == 2 || bytepix == 4,
            fsb == fs_bits(bytepix as nat),
            fmax == fs_max(bytepix as nat),
            total == 8 * b.len(),
            (l as nat) < pow2(8 * bytepix as nat),
            rice_decode(b@, bytepix as nat, blocksize as nat, count as nat) == match rice_blocks(
                b@,
                p as int,
                l as nat,
                remaining as nat,
                bytepix as nat,
                blocksize as nat,
            ) {
                Some(rest) => Some(nats(out@) + rest),
                None => None,
            },
        decreases remaining,
    {
        if blocksize == 0 || p > total || (fsb as u128) > total - p {
            return None;
        }
        let code = read_bits(b, p, fsb);
        proof {
            lemma_pow2_mono(fsb as nat, 32);
            lemma_pow2_values();
        }
        let fs: i64 = code as i64 - 1;
        if fs > fmax {
            return None;
        }
        let n: u64 = if blocksize < remaining {
            blocksize
        } else {
            remaining
        };
        match rice_block_exec(b, p + fsb as u128, l, n, fs, bytepix) {
            Some((vs, np, nl)) => {
                proof {
                    let rest = rice_blocks(b@, np as int, nl as nat, (remaining - n) as nat, bytepix as nat, blocksize as nat);
                    match rest {
                        Some(r2) => {
                            assert(nats(out@) + (nats(vs@) + r2) =~= nats(out@ + vs@) + r2);
                        },
                        None => {},
                    }
                }
                let mut vs = vs;
                out.append(&mut vs);
                p = np;
                l = nl;
                remaining = remaining - n;
            },
            None => {
                return None;
            },
        }
    }
    assert(nats(out@) + Seq::<nat>::empty() =~= nats(out@));
    Some(out)
}

} // verus!
