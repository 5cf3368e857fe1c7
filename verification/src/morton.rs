//! Morton (Z-order) curve codec: interleaves the bits of a vector of
//! per-dimension cell identifiers into one scalar code, and inverts that
//! mapping exactly. The total order on codes is the index's sort key.

use crate::SfcError;
use vstd::arithmetic::div_mod::*;
use vstd::arithmetic::power2::*;
use vstd::prelude::*;

verus! {

/// Bit `j` of the natural number `v`.
pub open spec fn bit_of(v: nat, j: nat) -> nat {
    (v / pow2(j)) % 2
}

/// The interleaved "row" of bit level `j`: bit `j` of dimension `d`
/// contributes `2^(d - lo)`, for dimensions `lo..cells.len()`.
pub open spec fn row_from(cells: Seq<u64>, lo: int, j: nat) -> nat
    decreases cells.len() - lo,
{
    if lo < 0 || lo >= cells.len() {
        0
    } else {
        bit_of(cells[lo] as nat, j) + 2 * row_from(cells, lo + 1, j)
    }
}

/// Morton interleaving of the bit levels `j..bits` of `cells`.
pub open spec fn enc_from(cells: Seq<u64>, j: nat, bits: nat) -> nat
    decreases bits - j,
{
    if j >= bits {
        0
    } else {
        row_from(cells, 0, j) + pow2(cells.len() as nat) * enc_from(cells, (j + 1) as nat, bits)
    }
}

/// The Morton code of `cells`, interleaving `bits` bits per dimension.
pub open spec fn morton_enc(cells: Seq<u64>, bits: nat) -> nat {
    enc_from(cells, 0, bits)
}

/// Bits `0..j` of dimension `d` of a `k`-dimensional code, reassembled.
pub open spec fn dec_upto(code: nat, k: nat, d: int, j: nat) -> nat
    decreases j,
{
    if j <= 0 {
        0
    } else {
        dec_upto(code, k, d, (j - 1) as nat) + bit_of(
            code,
            (((j - 1) * k) as int + d) as nat,
        ) * pow2((j - 1) as nat)
    }
}

/// The full vector of cell identifiers recovered from `code`.
pub open spec fn morton_dec(code: nat, k: nat, bits: nat) -> Seq<u64> {
    Seq::new(k, |d: int| dec_upto(code, k, d, bits) as u64)
}

pub proof fn lemma_pow2_le(a: nat, b: nat)
    requires
        a <= b,
    ensures
        pow2(a) <= pow2(b),
{
    if a < b {
        lemma_pow2_strictly_increases(a, b);
    }
}

pub proof fn lemma_row_from_bound(cells: Seq<u64>, lo: int, j: nat)
    requires
        0 <= lo <= cells.len(),
    ensures
        row_from(cells, lo, j) < pow2((cells.len() - lo) as nat),
    decreases cells.len() - lo,
{
    if lo == cells.len() {
        assert(pow2(0) == 1) by {
            lemma2_to64();
        }
    } else {
        lemma_row_from_bound(cells, lo + 1, j);
        lemma_pow2_unfold((cells.len() - lo) as nat);
    }
}

pub proof fn lemma_enc_from_bound(cells: Seq<u64>, j: nat, bits: nat)
    requires
        j <= bits,
    ensures
        enc_from(cells, j, bits) < pow2((cells.len() * (bits - j)) as nat),
    decreases bits - j,
{
    let k = cells.len() as nat;
    if j >= bits {
        assert(pow2(0) == 1) by {
            lemma2_to64();
        }
    } else {
        lemma_enc_from_bound(cells, (j + 1) as nat, bits);
        lemma_row_from_bound(cells, 0, j);
        let row = row_from(cells, 0, j);
        let rest = enc_from(cells, (j + 1) as nat, bits);
        let bj = (bits - j - 1) as nat;
        let m = k * bj;
        lemma_pow2_pos(k);
        lemma_pow2_pos(m);
        assert(row + pow2(k) * rest < pow2(k) * pow2(m)) by (nonlinear_arith)
            requires
                row < pow2(k),
                rest < pow2(m),
                pow2(k) >= 1,
                pow2(m) >= 1,
        {
        }
        lemma_pow2_adds(k, m);
        assert(k + k * bj == k * (bj + 1)) by (nonlinear_arith);
        assert(bj + 1 == (bits - j) as nat);
        assert(k * ((bits - j) as nat) == k * (bj + 1));
    }
}

pub proof fn lemma_dec_upto_bound(code: nat, k: nat, d: int, j: nat)
    ensures
        dec_upto(code, k, d, j) < pow2(j),
    decreases j,
{
    if j == 0 {
        assert(pow2(0) == 1) by {
            lemma2_to64();
        }
    } else {
        lemma_dec_upto_bound(code, k, d, (j - 1) as nat);
        lemma_pow2_unfold(j);
    }
}

/// Bit `d - lo` of a row is bit `j` of dimension `d`.
proof fn lemma_bit_extract_row(cells: Seq<u64>, lo: int, d: int, j: nat)
    requires
        0 <= lo <= d < cells.len(),
    ensures
        bit_of(row_from(cells, lo, j), (d - lo) as nat) == bit_of(cells[d] as nat, j),
    decreases d - lo,
{
    let row = row_from(cells, lo, j);
    let b = bit_of(cells[lo] as nat, j);
    let rest = row_from(cells, lo + 1, j);
    if lo == d {
        assert(pow2(0) == 1) by {
            lemma2_to64();
        }
        assert(row / 1 == row);
        lemma_mod_multiples_vanish(rest as int, b as int, 2);
        assert(b % 2 == b);
    } else {
        let m = (d - lo) as nat;
        // row / 2 == rest
        lemma_div_multiples_vanish_fancy(rest as int, b as int, 2);
        assert((2 * rest as int + b) / 2 == rest);
        // row / pow2(m) == (row / 2) / pow2(m - 1)
        lemma_pow2_unfold(m);
        lemma_pow2_pos((m - 1) as nat);
        lemma_div_denominator(row as int, 2, pow2((m - 1) as nat) as int);
        assert(row as int / (2 * pow2((m - 1) as nat) as int) == (row as int / 2) / pow2(
            (m - 1) as nat,
        ) as int);
        lemma_bit_extract_row(cells, lo + 1, d, j);
    }
}

/// Bit `(j - j0) * k + d` of `enc_from(cells, j0, bits)` is bit `j` of
/// dimension `d`.
proof fn lemma_bit_extract_enc(cells: Seq<u64>, j0: nat, j: nat, d: int, bits: nat)
    requires
        j0 <= j < bits,
        0 <= d < cells.len(),
    ensures
        bit_of(enc_from(cells, j0, bits), ((j - j0) * cells.len() + d) as nat) == bit_of(
            cells[d] as nat,
            j,
        ),
    decreases j - j0,
{
    let k = cells.len() as nat;
    let enc = enc_from(cells, j0, bits);
    let row = row_from(cells, 0, j0);
    let rest = enc_from(cells, (j0 + 1) as nat, bits);
    lemma_row_from_bound(cells, 0, j0);
    lemma_pow2_pos(k);
    assert(enc == row + pow2(k) * rest);
    if j == j0 {
        // position is d < k; enc / 2^d = row / 2^d + 2^(k-d) * rest
        lemma_pow2_pos(d as nat);
        lemma_pow2_pos((k - d) as nat);
        lemma_pow2_adds(d as nat, (k - d) as nat);
        assert(pow2(k) * rest == (pow2((k - d) as nat) * rest) * pow2(d as nat))
            by (nonlinear_arith)
            requires
                pow2(k) == pow2(d as nat) * pow2((k - d) as nat),
        {
        }
        lemma_hoist_over_denominator(row as int, (pow2((k - d) as nat) * rest) as int, pow2(
            d as nat,
        ));
        let y = row as int / pow2(d as nat) as int;
        assert(enc as int / pow2(d as nat) as int == y + pow2((k - d) as nat) * rest);
        // the added term is even since k - d >= 1
        lemma_pow2_unfold((k - d) as nat);
        assert(pow2((k - d) as nat) * rest == 2 * (pow2((k - d - 1) as nat) * rest))
            by (nonlinear_arith)
            requires
                pow2((k - d) as nat) == 2 * pow2((k - d - 1) as nat),
        {
        }
        let z = pow2((k - d - 1) as nat) * rest;
        lemma_mod_multiples_vanish(z as int, y, 2);
        assert((2 * z + y) % 2 == y % 2);
        assert(bit_of(enc, d as nat) == bit_of(row, d as nat));
        lemma_bit_extract_row(cells, 0, d, j0);
        assert((j - j0) * cells.len() == 0) by (nonlinear_arith)
            requires
                j == j0,
        {
        }
        assert(((j - j0) * cells.len() + d) as nat == d as nat);
    } else {
        let kk = cells.len() as int;
        let p = (j - j0) * kk + d;
        assert((j - j0) * kk + d >= kk) by (nonlinear_arith)
            requires
                j0 < j,
                kk >= 1,
                0 <= d,
        {
        }
        // enc / 2^k == rest
        lemma_pow2_pos(k);
        lemma_div_multiples_vanish_fancy(rest as int, row as int, pow2(k) as int);
        assert((pow2(k) as int * rest + row) / pow2(k) as int == rest);
        // enc / 2^p == (enc / 2^k) / 2^(p - k)
        lemma_pow2_pos((p - kk) as nat);
        lemma_pow2_adds(k, (p - kk) as nat);
        lemma_div_denominator(enc as int, pow2(k) as int, pow2((p - kk) as nat) as int);
        assert(enc as int / pow2(p as nat) as int == rest as int / pow2((p - kk) as nat) as int);
        assert((j - j0) * kk + d - kk == (j - (j0 + 1)) * kk + d) by (nonlinear_arith);
        lemma_bit_extract_enc(cells, (j0 + 1) as nat, j, d, bits);
        assert(bit_of(rest, ((j - (j0 + 1)) * cells.len() + d) as nat) == bit_of(
            cells[d] as nat,
            j,
        ));
        assert(((j - (j0 + 1)) * cells.len() + d) as nat == (p - kk) as nat);
        assert(bit_of(enc, p as nat) == bit_of(rest, (p - kk) as nat));
    }
}

/// A one-dimensional decode of `v` itself recovers `v mod 2^j`.
proof fn lemma_dec_upto_self(v: nat, j: nat)
    ensures
        dec_upto(v, 1, 0, j) == v % pow2(j),
    decreases j,
{
    if j == 0 {
        assert(pow2(0) == 1) by {
            lemma2_to64();
        }
    } else {
        lemma_dec_upto_self(v, (j - 1) as nat);
        let pj1 = pow2((j - 1) as nat);
        lemma_pow2_pos((j - 1) as nat);
        lemma_pow2_unfold(j);
        lemma_mod_breakdown(v as int, pj1 as int, 2);
        assert(v as int % (pj1 as int * 2) == pj1 * ((v as int / pj1 as int) % 2) + v as int
            % pj1 as int);
        assert(pj1 as int * 2 == pow2(j));
        assert(v % pow2(j) == pj1 * ((v / pj1) % 2) + v % pj1);
        assert((((j - 1) * 1) as int + 0) as nat == (j - 1) as nat);
        assert(dec_upto(v, 1, 0, j) == dec_upto(v, 1, 0, (j - 1) as nat) + bit_of(
            v,
            (j - 1) as nat,
        ) * pj1);
        assert(bit_of(v, (j - 1) as nat) == (v / pj1) % 2);
        assert(bit_of(v, (j - 1) as nat) * pj1 == pj1 * ((v / pj1) % 2)) by (nonlinear_arith)
            requires
                bit_of(v, (j - 1) as nat) == (v / pj1) % 2,
        {
        }
        assert(dec_upto(v, 1, 0, j) == v % pow2(j));
    }
}

/// Decoding any dimension of the Morton code recovers that dimension's
/// cell identifier: the interleaving is exactly invertible.
pub proof fn lemma_morton_roundtrip(cells: Seq<u64>, bits: nat)
    requires
        cells.len() >= 1,
        forall|d: int| 0 <= d < cells.len() ==> (cells[d] as nat) < pow2(bits),
    ensures
        morton_dec(morton_enc(cells, bits), cells.len() as nat, bits) == cells,
{
    let k = cells.len() as nat;
    let enc = morton_enc(cells, bits);
    assert forall|d: int| 0 <= d < cells.len() implies morton_dec(enc, k, bits)[d] == cells[d] by {
        assert forall|j: nat| j <= bits implies dec_upto(enc, k, d, j) == dec_upto(
            cells[d] as nat,
            1,
            0,
            j,
        ) by {
            lemma_dec_matches(cells, bits, d, j);
        }
        lemma_dec_upto_self(cells[d] as nat, bits);
        lemma_pow2_pos(bits);
        lemma_small_mod(cells[d] as nat, pow2(bits));
        assert(dec_upto(enc, k, d, bits) == cells[d] as nat);
    }
    assert(morton_dec(enc, k, bits) =~= cells);
}

proof fn lemma_dec_matches(cells: Seq<u64>, bits: nat, d: int, j: nat)
    requires
        cells.len() >= 1,
        0 <= d < cells.len(),
        j <= bits,
    ensures
        dec_upto(morton_enc(cells, bits), cells.len() as nat, d, j) == dec_upto(
            cells[d] as nat,
            1,
            0,
            j,
        ),
    decreases j,
{
    if j > 0 {
        lemma_dec_matches(cells, bits, d, (j - 1) as nat);
        lemma_bit_extract_enc(cells, 0, (j - 1) as nat, d, bits);
        assert(((j - 1) as nat - 0) * cells.len() + d == (j - 1) * (cells.len() as nat) + d);
        assert(((j - 1) * 1) as int + 0 == j - 1);
    }
}

/// Computes `2^e` for exponents below 64.
pub fn two_pow(e: usize) -> (r: u64)
    requires
        e < 64,
    ensures
        r as nat == pow2(e as nat),
{
    let mut r: u64 = 1;
    let mut i: usize = 0;
    proof {
        assert(pow2(0) == 1) by {
            lemma2_to64();
        }
    }
    while i < e
        invariant
            i <= e,
            e < 64,
            r as nat == pow2(i as nat),
        decreases e - i,
    {
        proof {
            lemma_pow2_unfold((i + 1) as nat);
            lemma_pow2_strictly_increases((i + 1) as nat, 64);
            assert(pow2(64) == 0x10000000000000000) by {
                lemma2_to64_rest();
            }
        }
        r = r * 2;
        i = i + 1;
    }
    r
}

/// The bit-interleaving curve encoder/decoder. It projects a vector of
/// cell identifiers (one per dimension, each below `2^cell_bits`) into a
/// single `u64` curve code and back.
pub struct MortonEncoder {
    pub dimensions: usize,
    pub cell_bits: usize,
}

impl MortonEncoder {
    /// The encoder can serve at most three dimensions, and the interleaved
    /// code must fit in 64 bits.
    pub open spec fn wf(self) -> bool {
        &&& 1 <= self.dimensions <= 3
        &&& self.dimensions * self.cell_bits <= 64
    }

    pub open spec fn valid_cells(self, cells: Seq<u64>) -> bool {
        &&& cells.len() == self.dimensions
        &&& forall|d: int|
            0 <= d < cells.len() ==> (cells[d] as nat) < pow2(self.cell_bits as nat)
    }

    /// What `encode` returns: the Morton code of a valid identifier
    /// vector, nothing for an invalid one.
    pub open spec fn spec_encode(self, cells: Seq<u64>) -> Option<u64> {
        if self.valid_cells(cells) {
            Some(morton_enc(cells, self.cell_bits as nat) as u64)
        } else {
            None
        }
    }

    pub fn new(dimensions: usize, cell_bits: usize) -> (r: MortonEncoder)
        ensures
            r.dimensions == dimensions,
            r.cell_bits == cell_bits,
    {
        MortonEncoder { dimensions, cell_bits }
    }

    /// Interleaves `cells` into a Morton code; fails on a dimension
    /// mismatch or an identifier exceeding the bit budget.
    pub fn encode(&self, cells: &Vec<u64>) -> (r: Result<u64, SfcError>)
        requires
            self.wf(),
        ensures
            match r {
                Ok(code) => self.spec_encode(cells@) == Some(code),
                Err(_) => self.spec_encode(cells@) is None,
            },
    {
        if cells.len() != self.dimensions {
            return Err(SfcError::DimensionMismatch);
        }
        let bits = self.cell_bits;
        let k = self.dimensions;
        if bits < 64 {
            let bound = two_pow(bits);
            let mut d: usize = 0;
            while d < cells.len()
                invariant
                    d <= cells@.len(),
                    bits == self.cell_bits,
                    bound as nat == pow2(bits as nat),
                    forall|dd: int| 0 <= dd < d ==> (cells@[dd] as nat) < pow2(bits as nat),
                decreases cells@.len() - d,
            {
                if cells[d] >= bound {
                    return Err(SfcError::CodeOverflow);
                }
                d = d + 1;
            }
        } else {
            proof {
                assert(pow2(64) == 0x10000000000000000) by {
                    lemma2_to64_rest();
                }
                lemma_pow2_le(64, bits as nat);
            }
        }
        proof {
            assert(bits <= 64) by (nonlinear_arith)
                requires
                    1 <= k,
                    k * bits <= 64,
            {
            }
        }
        let mut code: u64 = 0;
        let mut j: usize = bits;
        while j > 0
            invariant
                j <= bits <= 64,
                bits == self.cell_bits,
                k == self.dimensions,
                self.wf(),
                cells@.len() == k,
                forall|dd: int| 0 <= dd < cells@.len() ==> (cells@[dd] as nat) < pow2(bits as nat),
                code as nat == enc_from(cells@, j as nat, bits as nat),
            decreases j,
        {
            j = j - 1;
            let row = row_at(cells, j);
            proof {
                lemma_enc_from_bound(cells@, j as nat, bits as nat);
                assert(cells@.len() * (bits - j) <= 64) by (nonlinear_arith)
                    requires
                        cells@.len() * bits <= 64,
                        j >= 0,
                        cells@.len() >= 1,
                        bits >= j,
                {
                }
                lemma_pow2_le((cells@.len() * (bits - j)) as nat, 64);
                assert(pow2(64) == 0x10000000000000000) by {
                    lemma2_to64_rest();
                }
                assert(enc_from(cells@, j as nat, bits as nat) == row_from(cells@, 0, j as nat)
                    + pow2(cells@.len() as nat) * enc_from(cells@, (j + 1) as nat, bits as nat));
                assert(code as nat == enc_from(cells@, (j + 1) as nat, bits as nat));
            }
            let mul = two_pow(k);
            proof {
                assert(code as nat * mul as nat + row as nat == enc_from(
                    cells@,
                    j as nat,
                    bits as nat,
                )) by (nonlinear_arith)
                    requires
                        code as nat == enc_from(cells@, (j + 1) as nat, bits as nat),
                        mul as nat == pow2(cells@.len() as nat),
                        row as nat == row_from(cells@, 0, j as nat),
                        enc_from(cells@, j as nat, bits as nat) == row_from(cells@, 0, j as nat)
                            + pow2(cells@.len() as nat) * enc_from(
                            cells@,
                            (j + 1) as nat,
                            bits as nat,
                        ),
                {
                }
            }
            code = code * mul + row;
        }
        proof {
            lemma_enc_from_bound(cells@, 0, bits as nat);
            assert(cells@.len() * (bits - 0) <= 64) by (nonlinear_arith)
                requires
                    cells@.len() * bits <= 64,
            {
            }
            lemma_pow2_le((cells@.len() * (bits as nat)) as nat, 64);
            assert(pow2(64) == 0x10000000000000000) by {
                lemma2_to64_rest();
            }
        }
        Ok(code)
    }

    /// Recovers the vector of cell identifiers interleaved in `code`.
    pub fn decode(&self, code: u64) -> (r: Vec<u64>)
        requires
            self.wf(),
        ensures
            r@ == morton_dec(code as nat, self.dimensions as nat, self.cell_bits as nat),
            r@.len() == self.dimensions,
    {
        let k = self.dimensions;
        let bits = self.cell_bits;
        proof {
            assert(bits <= 64) by (nonlinear_arith)
                requires
                    1 <= k,
                    k * bits <= 64,
            {
            }
        }
        let mut out: Vec<u64> = Vec::new();
        let mut d: usize = 0;
        while d < k
            invariant
                d <= k,
                bits <= 64,
                k == self.dimensions,
                bits == self.cell_bits,
                self.wf(),
                out@.len() == d,
                forall|dd: int|
                    0 <= dd < d ==> out@[dd] == dec_upto(
                        code as nat,
                        k as nat,
                        dd,
                        bits as nat,
                    ) as u64,
            decreases k - d,
        {
            let mut acc: u64 = 0;
            let mut j: usize = 0;
            while j < bits
                invariant
                    j <= bits,
                    bits <= 64,
                    d < k,
                    k == self.dimensions,
                    bits == self.cell_bits,
                    self.wf(),
                    acc as nat == dec_upto(code as nat, k as nat, d as int, j as nat),
                decreases bits - j,
            {
                proof {
                    assert(j * k + d < 64) by (nonlinear_arith)
                        requires
                            j < bits,
                            d < k,
                            1 <= k,
                            k * bits <= 64,
                    {
                    }
                    lemma_dec_upto_bound(code as nat, k as nat, d as int, j as nat);
                    lemma_pow2_unfold((j + 1) as nat);
                    lemma_pow2_le((j + 1) as nat, 64);
                    assert(pow2(64) == 0x10000000000000000) by {
                        lemma2_to64_rest();
                    }
                    lemma_pow2_pos((j * k + d) as nat);
                    lemma_pow2_pos(j as nat);
                }
                let p = j * k + d;
                let bit = (code / two_pow(p)) % 2;
                proof {
                    assert(bit as nat * pow2(j as nat) <= pow2(j as nat)) by (nonlinear_arith)
                        requires
                            bit <= 1,
                    {
                    }
                    assert(acc as nat + bit as nat * pow2(j as nat) < pow2((j + 1) as nat));
                }
                acc = acc + bit * two_pow(j);
                j = j + 1;
            }
            out.push(acc);
            d = d + 1;
        }
        proof {
            assert(out@ =~= morton_dec(code as nat, k as nat, bits as nat));
        }
        out
    }
}

/// Computes the interleaved row of bit level `j`.
fn row_at(cells: &Vec<u64>, j: usize) -> (r: u64)
    requires
        cells@.len() <= 16,
        j < 64,
    ensures
        r as nat == row_from(cells@, 0, j as nat),
{
    let mut r: u64 = 0;
    let mut d: usize = cells.len();
    while d > 0
        invariant
            d <= cells@.len() <= 16,
            j < 64,
            r as nat == row_from(cells@, d as int, j as nat),
        decreases d,
    {
        d = d - 1;
        proof {
            lemma_row_from_bound(cells@, d as int, j as nat);
            lemma_pow2_le((cells@.len() - d) as nat, 16);
            assert(pow2(16) == 0x10000) by {
                lemma2_to64();
            }
            lemma_pow2_pos(j as nat);
        }
        let bit = (cells[d] / two_pow(j)) % 2;
        r = r * 2 + bit;
    }
    r
}

} // verus!
