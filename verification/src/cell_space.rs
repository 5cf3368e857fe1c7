//! Coordinate quantizer. Each dimension gets a sorted dictionary of the
//! distinct coordinate values seen at build time; a dictionary position is
//! split into a cell identifier (`position / stride`) and an offset
//! (`position % stride`), so that at most `2^cell_bits` cells exist per
//! dimension. The mapping is inverted exactly by indexing the dictionary.

use crate::SfcError;
use vstd::arithmetic::div_mod::*;
use vstd::arithmetic::power2::*;
use vstd::prelude::*;
use vstd::seq_lib::*;

use crate::morton::lemma_pow2_le;
use crate::morton::two_pow;

verus! {

/// A strictly ascending sequence: sorted, with no duplicates.
pub open spec fn sorted_strict(s: Seq<u64>) -> bool {
    forall|i: int, j: int| 0 <= i < j < s.len() ==> s[i] < s[j]
}

/// The index of `v` in `s`; meaningful when `s` is strictly sorted and
/// contains `v`, in which case it is unique.
pub open spec fn idx_of(s: Seq<u64>, v: u64) -> int {
    choose|i: int| 0 <= i < s.len() && s[i] == v
}

pub proof fn lemma_idx_of(s: Seq<u64>, v: u64, i: int)
    requires
        sorted_strict(s),
        0 <= i < s.len(),
        s[i] == v,
    ensures
        s.contains(v),
        idx_of(s, v) == i,
{
    assert(s.contains(v)) by {
        assert(s[i] == v);
    }
    let j = idx_of(s, v);
    assert(0 <= j < s.len() && s[j] == v);
    if j < i {
        assert(s[j] < s[i]);
    }
    if i < j {
        assert(s[i] < s[j]);
    }
}

/// `i` is the greatest position whose value is at most `v`.
pub open spec fn is_down_in(s: Seq<u64>, v: u64, i: int) -> bool {
    &&& 0 <= i < s.len()
    &&& s[i] <= v
    &&& forall|k: int| i < k < s.len() ==> s[k] > v
}

pub open spec fn has_down_in(s: Seq<u64>, v: u64) -> bool {
    exists|i: int| is_down_in(s, v, i)
}

pub open spec fn down_in(s: Seq<u64>, v: u64) -> int {
    choose|i: int| is_down_in(s, v, i)
}

pub proof fn lemma_down_in(s: Seq<u64>, v: u64, i: int)
    requires
        is_down_in(s, v, i),
    ensures
        has_down_in(s, v),
        down_in(s, v) == i,
{
    assert(has_down_in(s, v)) by {
        assert(is_down_in(s, v, i));
    }
    let j = down_in(s, v);
    assert(is_down_in(s, v, j));
    if j < i {
        assert(s[i] > v);
    }
    if i < j {
        assert(s[j] > v);
    }
}

/// `i` is the least position whose value is at least `v`.
pub open spec fn is_up_in(s: Seq<u64>, v: u64, i: int) -> bool {
    &&& 0 <= i < s.len()
    &&& s[i] >= v
    &&& forall|k: int| 0 <= k < i ==> s[k] < v
}

pub open spec fn has_up_in(s: Seq<u64>, v: u64) -> bool {
    exists|i: int| is_up_in(s, v, i)
}

pub open spec fn up_in(s: Seq<u64>, v: u64) -> int {
    choose|i: int| is_up_in(s, v, i)
}

pub proof fn lemma_up_in(s: Seq<u64>, v: u64, i: int)
    requires
        is_up_in(s, v, i),
    ensures
        has_up_in(s, v),
        up_in(s, v) == i,
{
    assert(has_up_in(s, v)) by {
        assert(is_up_in(s, v, i));
    }
    let j = up_in(s, v);
    assert(is_up_in(s, v, j));
    if j < i {
        assert(s[j] < v);
    }
    if i < j {
        assert(s[i] < v);
    }
}

/// Whether some item among `items` (restricted to keys of length `dims`)
/// carries coordinate value `v` in dimension `d`.
pub open spec fn coord_present<F>(items: Seq<(Vec<u64>, F)>, dims: int, d: int, v: u64) -> bool
    decreases items.len(),
{
    if items.len() == 0 {
        false
    } else {
        coord_present(items.drop_last(), dims, d, v) || ((items.last().0)@.len() == dims && (
        items.last().0)@[d] == v)
    }
}

/// Finds `v` exactly in the strictly sorted `s`.
fn bsearch_exact(s: &Vec<u64>, v: u64) -> (r: Option<usize>)
    requires
        sorted_strict(s@),
    ensures
        match r {
            Some(i) => i < s@.len() && s@[i as int] == v,
            None => !s@.contains(v),
        },
{
    let mut lo: usize = 0;
    let mut hi: usize = s.len();
    while lo < hi
        invariant
            lo <= hi <= s@.len(),
            sorted_strict(s@),
            forall|k: int| 0 <= k < lo ==> s@[k] < v,
            forall|k: int| hi <= k < s@.len() ==> s@[k] > v,
        decreases hi - lo,
    {
        let mid = lo + (hi - lo) / 2;
        if s[mid] == v {
            return Some(mid);
        } else if s[mid] < v {
            lo = mid + 1;
        } else {
            hi = mid;
        }
    }
    proof {
        assert(forall|k: int| 0 <= k < s@.len() ==> s@[k] != v);
    }
    None
}

/// Finds the greatest position whose value is at most `v`.
fn bsearch_down(s: &Vec<u64>, v: u64) -> (r: Option<usize>)
    requires
        sorted_strict(s@),
    ensures
        match r {
            Some(i) => is_down_in(s@, v, i as int),
            None => forall|k: int| 0 <= k < s@.len() ==> s@[k] > v,
        },
{
    let mut lo: usize = 0;
    let mut hi: usize = s.len();
    while lo < hi
        invariant
            lo <= hi <= s@.len(),
            sorted_strict(s@),
            forall|k: int| 0 <= k < lo ==> s@[k] <= v,
            forall|k: int| hi <= k < s@.len() ==> s@[k] > v,
        decreases hi - lo,
    {
        let mid = lo + (hi - lo) / 2;
        if s[mid] <= v {
            lo = mid + 1;
        } else {
            hi = mid;
        }
    }
    if lo == 0 {
        None
    } else {
        Some(lo - 1)
    }
}

/// Finds the least position whose value is at least `v`.
fn bsearch_up(s: &Vec<u64>, v: u64) -> (r: Option<usize>)
    requires
        sorted_strict(s@),
    ensures
        match r {
            Some(i) => is_up_in(s@, v, i as int),
            None => forall|k: int| 0 <= k < s@.len() ==> s@[k] < v,
        },
{
    let mut lo: usize = 0;
    let mut hi: usize = s.len();
    while lo < hi
        invariant
            lo <= hi <= s@.len(),
            sorted_strict(s@),
            forall|k: int| 0 <= k < lo ==> s@[k] < v,
            forall|k: int| hi <= k < s@.len() ==> s@[k] >= v,
        decreases hi - lo,
    {
        let mid = lo + (hi - lo) / 2;
        if s[mid] < v {
            lo = mid + 1;
        } else {
            hi = mid;
        }
    }
    if lo == s.len() {
        None
    } else {
        Some(lo)
    }
}

/// Inserts `v` into the strictly sorted `s` unless it is already there.
fn insert_unique(s: &mut Vec<u64>, v: u64)
    requires
        sorted_strict(old(s)@),
    ensures
        sorted_strict(final(s)@),
        forall|w: u64| final(s)@.contains(w) <==> (old(s)@.contains(w) || w == v),
{
    match bsearch_up(s, v) {
        None => {
            s.push(v);
            proof {
                assert forall|x: int, y: int| 0 <= x < y < s@.len() implies s@[x] < s@[y] by {
                    if y == s@.len() - 1 {
                        assert(old(s)@[x] < v);
                    } else {
                        assert(old(s)@[x] < old(s)@[y]);
                    }
                }
                assert forall|w: u64| s@.contains(w) implies (old(s)@.contains(w) || w == v) by {
                    let k = choose|k: int| 0 <= k < s@.len() && s@[k] == w;
                    if k < old(s)@.len() {
                        assert(old(s)@[k] == w);
                    }
                }
                assert forall|w: u64| (old(s)@.contains(w) || w == v) implies s@.contains(w) by {
                    if w == v {
                        assert(s@[s@.len() - 1] == v);
                    } else {
                        let k = choose|k: int| 0 <= k < old(s)@.len() && old(s)@[k] == w;
                        assert(s@[k] == w);
                    }
                }
            }
        },
        Some(i) => {
            if s[i] == v {
                proof {
                    assert forall|w: u64| s@.contains(w) <==> (old(s)@.contains(w) || w == v) by {
                        if w == v {
                            assert(s@[i as int] == v);
                        }
                    }
                }
            } else {
                proof {
                    old(s)@.insert_ensures(i as int, v);
                }
                s.insert(i, v);
                proof {
                    assert forall|w: u64|
                        s@.contains(w) implies (old(s)@.contains(w) || w == v) by {
                        let k = choose|k: int| 0 <= k < s@.len() && s@[k] == w;
                        if k < i {
                            assert(old(s)@[k] == w);
                        } else if k > i {
                            assert(old(s)@[k - 1] == w);
                        }
                    }
                    assert forall|w: u64|
                        (old(s)@.contains(w) || w == v) implies s@.contains(w) by {
                        if w == v {
                            assert(s@[i as int] == v);
                        } else {
                            let k = choose|k: int| 0 <= k < old(s)@.len() && old(s)@[k] == w;
                            if k < i {
                                assert(s@[k] == w);
                            } else {
                                assert(s@[k + 1] == w);
                            }
                        }
                    }
                    assert forall|x: int, y: int| 0 <= x < y < s@.len() implies s@[x] < s@[y] by {
                        if y < i {
                            assert(s@[x] == old(s)@[x] && s@[y] == old(s)@[y]);
                        } else if y == i {
                            assert(old(s)@[x] < v);
                        } else if x == i {
                            assert(old(s)@[y - 1] >= old(s)@[i as int] > v);
                        } else if x < i {
                            assert(old(s)@[y - 1] >= old(s)@[i as int] > v > old(s)@[x]);
                        } else {
                            assert(s@[x] == old(s)@[x - 1] && s@[y] == old(s)@[y - 1]);
                        }
                    }
                }
            }
        },
    }
}

/// Stride for a dictionary of `len` entries at `cell_bits` of resolution:
/// the least positive count of offsets per cell so that the cell
/// identifiers stay below `2^cell_bits`.
fn compute_stride(len: usize, cell_bits: usize) -> (r: usize)
    ensures
        r >= 1,
        len as nat <= (r as nat) * pow2(cell_bits as nat),
{
    if cell_bits >= 64 {
        proof {
            assert(pow2(64) == 0x10000000000000000) by {
                lemma2_to64_rest();
            }
            lemma_pow2_le(64, cell_bits as nat);
            assert(((len as u64) as nat) < pow2(64));
        }
        1
    } else {
        let cap = two_pow(cell_bits);
        if cap <= 1 {
            proof {
                lemma_pow2_pos(cell_bits as nat);
                assert(cap as nat == pow2(cell_bits as nat) >= 1);
            }
            if len == 0 {
                1
            } else {
                proof {
                    assert(len as nat <= (len as nat) * pow2(cell_bits as nat))
                        by (nonlinear_arith)
                        requires
                            pow2(cell_bits as nat) >= 1,
                    {
                    }
                }
                len
            }
        } else {
            let len64 = len as u64;
            let q = len64 / cap;
            let r0 = len64 % cap;
            proof {
                lemma_fundamental_div_mod(len64 as int, cap as int);
                assert(2 * q <= len64) by (nonlinear_arith)
                    requires
                        cap >= 2,
                        q == len64 as int / cap as int,
                        len64 as int == cap as int * (len64 as int / cap as int) + len64 as int
                            % cap as int,
                        len64 as int % cap as int >= 0,
                {
                }
            }
            let s0 = if r0 != 0 {
                q + 1
            } else {
                q
            };
            let st = if s0 == 0 {
                1u64
            } else {
                s0
            };
            proof {
                assert(len64 as int <= st as int * cap as int) by (nonlinear_arith)
                    requires
                        cap >= 2,
                        q == len64 as int / cap as int,
                        r0 == len64 as int % cap as int,
                        len64 as int == cap as int * q + r0,
                        0 <= r0 < cap as int,
                        st as int == (if s0 == 0 {
                            1int
                        } else {
                            s0 as int
                        }),
                        s0 as int == (if r0 != 0 {
                            q as int + 1
                        } else {
                            q as int
                        }),
                {
                }
                assert(st <= len64 || st == 1);
                assert(st as int * cap as int == st as nat * pow2(cell_bits as nat));
            }
            st as usize
        }
    }
}

/// The quantizer: per-dimension sorted dictionaries plus the stride that
/// splits a dictionary position into (cell identifier, offset).
pub struct CellSpace {
    pub dimensions: usize,
    pub cell_bits: usize,
    pub dicts: Vec<Vec<u64>>,
    pub strides: Vec<usize>,
}

impl CellSpace {
    /// The dictionary of dimension `d`.
    pub open spec fn dict(self, d: int) -> Seq<u64> {
        self.dicts@[d]@
    }

    /// Offsets per cell in dimension `d`.
    pub open spec fn stride(self, d: int) -> int {
        self.strides@[d] as int
    }

    pub open spec fn wf(self) -> bool {
        &&& 1 <= self.dimensions
        &&& self.dicts@.len() == self.dimensions
        &&& self.strides@.len() == self.dimensions
        &&& forall|d: int| 0 <= d < self.dimensions ==> sorted_strict(#[trigger] self.dict(d))
        &&& forall|d: int| 0 <= d < self.dimensions ==> #[trigger] self.stride(d) >= 1
        &&& forall|d: int|
            0 <= d < self.dimensions ==> #[trigger] self.dict(d).len() <= self.stride(d) * pow2(
                self.cell_bits as nat,
            )
    }

    /// A position is on the grid when every coordinate is in its
    /// dimension's dictionary.
    pub open spec fn quantized(self, pos: Seq<u64>) -> bool {
        &&& pos.len() == self.dimensions
        &&& forall|d: int| 0 <= d < self.dimensions ==> #[trigger] self.dict(d).contains(pos[d])
    }

    /// What `key` returns: the exact quantization of `pos`.
    pub open spec fn spec_key(self, pos: Seq<u64>) -> Option<(Seq<u64>, Seq<usize>)> {
        if self.quantized(pos) {
            Some(
                (
                    Seq::new(
                        self.dimensions as nat,
                        |d: int| (idx_of(self.dict(d), pos[d]) / self.stride(d)) as u64,
                    ),
                    Seq::new(
                        self.dimensions as nat,
                        |d: int| (idx_of(self.dict(d), pos[d]) % self.stride(d)) as usize,
                    ),
                ),
            )
        } else {
            None
        }
    }

    /// What `key_down` returns: quantization of `pos` rounded down to the
    /// nearest grid point.
    pub open spec fn spec_key_down(self, pos: Seq<u64>) -> Option<(Seq<u64>, Seq<usize>)> {
        if pos.len() == self.dimensions && (forall|d: int|
            0 <= d < self.dimensions ==> has_down_in(#[trigger] self.dict(d), pos[d])) {
            Some(
                (
                    Seq::new(
                        self.dimensions as nat,
                        |d: int| (down_in(self.dict(d), pos[d]) / self.stride(d)) as u64,
                    ),
                    Seq::new(
                        self.dimensions as nat,
                        |d: int| (down_in(self.dict(d), pos[d]) % self.stride(d)) as usize,
                    ),
                ),
            )
        } else {
            None
        }
    }

    /// What `key_up` returns: quantization of `pos` rounded up to the
    /// nearest grid point.
    pub open spec fn spec_key_up(self, pos: Seq<u64>) -> Option<(Seq<u64>, Seq<usize>)> {
        if pos.len() == self.dimensions && (forall|d: int|
            0 <= d < self.dimensions ==> has_up_in(#[trigger] self.dict(d), pos[d])) {
            Some(
                (
                    Seq::new(
                        self.dimensions as nat,
                        |d: int| (up_in(self.dict(d), pos[d]) / self.stride(d)) as u64,
                    ),
                    Seq::new(
                        self.dimensions as nat,
                        |d: int| (up_in(self.dict(d), pos[d]) % self.stride(d)) as usize,
                    ),
                ),
            )
        } else {
            None
        }
    }

    /// What `value` returns: the coordinates reconstructed from cell
    /// identifiers and offsets.
    pub open spec fn spec_value(self, cells: Seq<u64>, offs: Seq<usize>) -> Option<Seq<u64>> {
        if cells.len() == self.dimensions && offs.len() == self.dimensions && (forall|d: int|
            0 <= d < self.dimensions ==> cells[d] * self.stride(d) + offs[d] < (
            #[trigger] self.dict(d)).len()) {
            Some(
                Seq::new(
                    self.dimensions as nat,
                    |d: int| self.dict(d)[cells[d] * self.stride(d) + offs[d]],
                ),
            )
        } else {
            None
        }
    }

    /// What `last` returns: the grid's maximal quantized point.
    pub open spec fn spec_last(self) -> Option<(Seq<u64>, Seq<usize>)> {
        if forall|d: int| 0 <= d < self.dimensions ==> (#[trigger] self.dict(d)).len() >= 1 {
            Some(
                (
                    Seq::new(
                        self.dimensions as nat,
                        |d: int| ((self.dict(d).len() - 1) / self.stride(d)) as u64,
                    ),
                    Seq::new(
                        self.dimensions as nat,
                        |d: int| ((self.dict(d).len() - 1) % self.stride(d)) as usize,
                    ),
                ),
            )
        } else {
            None
        }
    }

    /// Builds the quantizer from the item keys: one sorted dictionary of
    /// distinct coordinate values per dimension. Keys of the wrong length
    /// contribute nothing.
    pub fn new<F>(items: &Vec<(Vec<u64>, F)>, dimensions: usize, cell_bits: usize) -> (r: CellSpace)
        requires
            1 <= dimensions,
        ensures
            r.wf(),
            r.dimensions == dimensions,
            r.cell_bits == cell_bits,
            forall|d: int, v: u64|
                0 <= d < dimensions ==> (#[trigger] r.dict(d).contains(v) <==> coord_present(
                    items@,
                    dimensions as int,
                    d,
                    v,
                )),
    {
        let mut dicts: Vec<Vec<u64>> = Vec::new();
        let mut strides: Vec<usize> = Vec::new();
        let mut d: usize = 0;
        while d < dimensions
            invariant
                d <= dimensions,
                dicts@.len() == d,
                strides@.len() == d,
                forall|dd: int| 0 <= dd < d ==> sorted_strict(#[trigger] dicts@[dd]@),
                forall|dd: int| 0 <= dd < d ==> #[trigger] strides@[dd] >= 1,
                forall|dd: int|
                    0 <= dd < d ==> #[trigger] dicts@[dd]@.len() <= strides@[dd] * pow2(
                        cell_bits as nat,
                    ),
                forall|dd: int, v: u64|
                    0 <= dd < d ==> (#[trigger] dicts@[dd]@.contains(v) <==> coord_present(
                        items@,
                        dimensions as int,
                        dd,
                        v,
                    )),
            decreases dimensions - d,
        {
            let mut dict: Vec<u64> = Vec::new();
            let mut i: usize = 0;
            while i < items.len()
                invariant
                    i <= items@.len(),
                    d < dimensions,
                    sorted_strict(dict@),
                    forall|v: u64|
                        #[trigger] dict@.contains(v) <==> coord_present(
                            items@.take(i as int),
                            dimensions as int,
                            d as int,
                            v,
                        ),
                decreases items@.len() - i,
            {
                proof {
                    assert(items@.take(i as int + 1).drop_last() =~= items@.take(i as int));
                    assert(items@.take(i as int + 1).last() == items@[i as int]);
                }
                let key = &items[i].0;
                if key.len() == dimensions {
                    insert_unique(&mut dict, key[d]);
                }
                i = i + 1;
            }
            proof {
                assert(items@.take(items@.len() as int) =~= items@);
            }
            let stride = compute_stride(dict.len(), cell_bits);
            dicts.push(dict);
            strides.push(stride);
            d = d + 1;
        }
        CellSpace { dimensions, cell_bits, dicts, strides }
    }

    /// Quantizes `pos` exactly; fails when a coordinate is not on the grid.
    pub fn key(&self, pos: &Vec<u64>) -> (r: Result<(Vec<u64>, Vec<usize>), SfcError>)
        requires
            self.wf(),
        ensures
            match r {
                Ok(p) => self.spec_key(pos@) == Some((p.0@, p.1@)),
                Err(_) => self.spec_key(pos@) is None,
            },
    {
        if pos.len() != self.dimensions {
            return Err(SfcError::DimensionMismatch);
        }
        let mut cells: Vec<u64> = Vec::new();
        let mut offs: Vec<usize> = Vec::new();
        let mut d: usize = 0;
        while d < self.dimensions
            invariant
                self.wf(),
                d <= self.dimensions,
                pos@.len() == self.dimensions,
                cells@.len() == d,
                offs@.len() == d,
                forall|dd: int| 0 <= dd < d ==> (#[trigger] self.dict(dd)).contains(pos@[dd]),
                forall|dd: int|
                    0 <= dd < d ==> #[trigger] cells@[dd] == (idx_of(self.dict(dd), pos@[dd])
                        / self.stride(dd)) as u64,
                forall|dd: int|
                    0 <= dd < d ==> #[trigger] offs@[dd] == (idx_of(self.dict(dd), pos@[dd])
                        % self.stride(dd)) as usize,
            decreases self.dimensions - d,
        {
            let dict = &self.dicts[d];
            proof {
                assert(sorted_strict(self.dict(d as int)));
                assert(self.stride(d as int) >= 1);
            }
            match bsearch_exact(dict, pos[d]) {
                None => {
                    proof {
                        assert(!self.dict(d as int).contains(pos@[d as int]));
                    }
                    return Err(SfcError::OutOfGrid);
                },
                Some(i) => {
                    proof {
                        lemma_idx_of(self.dict(d as int), pos@[d as int], i as int);
                    }
                    let stride = self.strides[d];
                    cells.push((i / stride) as u64);
                    offs.push(i % stride);
                },
            }
            d = d + 1;
        }
        proof {
            assert(self.quantized(pos@));
            assert(cells@ =~= Seq::new(
                self.dimensions as nat,
                |dd: int| (idx_of(self.dict(dd), pos@[dd]) / self.stride(dd)) as u64,
            ));
            assert(offs@ =~= Seq::new(
                self.dimensions as nat,
                |dd: int| (idx_of(self.dict(dd), pos@[dd]) % self.stride(dd)) as usize,
            ));
        }
        Ok((cells, offs))
    }

    /// Quantizes `pos`, rounding each coordinate down to the nearest grid
    /// value; fails when a coordinate lies below the whole dictionary.
    pub fn key_down(&self, pos: &Vec<u64>) -> (r: Result<(Vec<u64>, Vec<usize>), SfcError>)
        requires
            self.wf(),
        ensures
            match r {
                Ok(p) => self.spec_key_down(pos@) == Some((p.0@, p.1@)),
                Err(_) => self.spec_key_down(pos@) is None,
            },
    {
        if pos.len() != self.dimensions {
            return Err(SfcError::DimensionMismatch);
        }
        let mut cells: Vec<u64> = Vec::new();
        let mut offs: Vec<usize> = Vec::new();
        let mut d: usize = 0;
        while d < self.dimensions
            invariant
                self.wf(),
                d <= self.dimensions,
                pos@.len() == self.dimensions,
                cells@.len() == d,
                offs@.len() == d,
                forall|dd: int| 0 <= dd < d ==> has_down_in(#[trigger] self.dict(dd), pos@[dd]),
                forall|dd: int|
                    0 <= dd < d ==> #[trigger] cells@[dd] == (down_in(self.dict(dd), pos@[dd])
                        / self.stride(dd)) as u64,
                forall|dd: int|
                    0 <= dd < d ==> #[trigger] offs@[dd] == (down_in(self.dict(dd), pos@[dd])
                        % self.stride(dd)) as usize,
            decreases self.dimensions - d,
        {
            let dict = &self.dicts[d];
            proof {
                assert(sorted_strict(self.dict(d as int)));
                assert(self.stride(d as int) >= 1);
            }
            match bsearch_down(dict, pos[d]) {
                None => {
                    proof {
                        assert forall|i: int|
                            !is_down_in(self.dict(d as int), pos@[d as int], i) by {
                            if 0 <= i < self.dict(d as int).len() {
                                assert(self.dict(d as int)[i] > pos@[d as int]);
                            }
                        }
                        assert(!has_down_in(self.dict(d as int), pos@[d as int]));
                    }
                    return Err(SfcError::OutOfGrid);
                },
                Some(i) => {
                    proof {
                        lemma_down_in(self.dict(d as int), pos@[d as int], i as int);
                    }
                    let stride = self.strides[d];
                    cells.push((i / stride) as u64);
                    offs.push(i % stride);
                },
            }
            d = d + 1;
        }
        proof {
            assert(cells@ =~= Seq::new(
                self.dimensions as nat,
                |dd: int| (down_in(self.dict(dd), pos@[dd]) / self.stride(dd)) as u64,
            ));
            assert(offs@ =~= Seq::new(
                self.dimensions as nat,
                |dd: int| (down_in(self.dict(dd), pos@[dd]) % self.stride(dd)) as usize,
            ));
        }
        Ok((cells, offs))
    }

    /// Quantizes `pos`, rounding each coordinate up to the nearest grid
    /// value; fails when a coordinate lies above the whole dictionary.
    pub fn key_up(&self, pos: &Vec<u64>) -> (r: Result<(Vec<u64>, Vec<usize>), SfcError>)
        requires
            self.wf(),
        ensures
            match r {
                Ok(p) => self.spec_key_up(pos@) == Some((p.0@, p.1@)),
                Err(_) => self.spec_key_up(pos@) is None,
            },
    {
        if pos.len() != self.dimensions {
            return Err(SfcError::DimensionMismatch);
        }
        let mut cells: Vec<u64> = Vec::new();
        let mut offs: Vec<usize> = Vec::new();
        let mut d: usize = 0;
        while d < self.dimensions
            invariant
                self.wf(),
                d <= self.dimensions,
                pos@.len() == self.dimensions,
                cells@.len() == d,
                offs@.len() == d,
                forall|dd: int| 0 <= dd < d ==> has_up_in(#[trigger] self.dict(dd), pos@[dd]),
                forall|dd: int|
                    0 <= dd < d ==> #[trigger] cells@[dd] == (up_in(self.dict(dd), pos@[dd])
                        / self.stride(dd)) as u64,
                forall|dd: int|
                    0 <= dd < d ==> #[trigger] offs@[dd] == (up_in(self.dict(dd), pos@[dd])
                        % self.stride(dd)) as usize,
            decreases self.dimensions - d,
        {
            let dict = &self.dicts[d];
            proof {
                assert(sorted_strict(self.dict(d as int)));
                assert(self.stride(d as int) >= 1);
            }
            match bsearch_up(dict, pos[d]) {
                None => {
                    proof {
                        assert forall|i: int|
                            !is_up_in(self.dict(d as int), pos@[d as int], i) by {
                            if 0 <= i < self.dict(d as int).len() {
                                assert(self.dict(d as int)[i] < pos@[d as int]);
                            }
                        }
                        assert(!has_up_in(self.dict(d as int), pos@[d as int]));
                    }
                    return Err(SfcError::OutOfGrid);
                },
                Some(i) => {
                    proof {
                        lemma_up_in(self.dict(d as int), pos@[d as int], i as int);
                    }
                    let stride = self.strides[d];
                    cells.push((i / stride) as u64);
                    offs.push(i % stride);
                },
            }
            d = d + 1;
        }
        proof {
            assert(cells@ =~= Seq::new(
                self.dimensions as nat,
                |dd: int| (up_in(self.dict(dd), pos@[dd]) / self.stride(dd)) as u64,
            ));
            assert(offs@ =~= Seq::new(
                self.dimensions as nat,
                |dd: int| (up_in(self.dict(dd), pos@[dd]) % self.stride(dd)) as usize,
            ));
        }
        Ok((cells, offs))
    }

    /// Reconstructs the coordinates denoted by (cell identifiers, offsets);
    /// fails when a pair points outside its dictionary.
    pub fn value(&self, cells: &Vec<u64>, offs: &Vec<usize>) -> (r: Result<Vec<u64>, SfcError>)
        requires
            self.wf(),
        ensures
            match r {
                Ok(p) => self.spec_value(cells@, offs@) == Some(p@),
                Err(_) => self.spec_value(cells@, offs@) is None,
            },
    {
        if cells.len() != self.dimensions || offs.len() != self.dimensions {
            return Err(SfcError::DimensionMismatch);
        }
        let mut out: Vec<u64> = Vec::new();
        let mut d: usize = 0;
        while d < self.dimensions
            invariant
                self.wf(),
                d <= self.dimensions,
                cells@.len() == self.dimensions,
                offs@.len() == self.dimensions,
                out@.len() == d,
                forall|dd: int|
                    0 <= dd < d ==> cells@[dd] * self.stride(dd) + offs@[dd] < (
                    #[trigger] self.dict(dd)).len(),
                forall|dd: int|
                    0 <= dd < d ==> #[trigger] out@[dd] == self.dict(dd)[cells@[dd] * self.stride(
                        dd,
                    ) + offs@[dd]],
            decreases self.dimensions - d,
        {
            let stride = self.strides[d];
            proof {
                assert(sorted_strict(self.dict(d as int)));
                assert(self.stride(d as int) >= 1);
                assert((cells@[d as int] as int) * (stride as int) + (offs@[d as int] as int)
                    < 0x100000000000000000000000000000000) by (nonlinear_arith)
                    requires
                        cells@[d as int] as int <= 0xffffffffffffffff,
                        stride as int <= 0xffffffffffffffff,
                        offs@[d as int] as int <= 0xffffffffffffffff,
                {
                }
            }
            let idx128 = cells[d] as u128 * stride as u128 + offs[d] as u128;
            let dict = &self.dicts[d];
            if idx128 >= dict.len() as u128 {
                proof {
                    assert(cells@[d as int] * self.stride(d as int) + offs@[d as int]
                        >= self.dict(d as int).len());
                }
                return Err(SfcError::BadReference);
            }
            let idx = idx128 as usize;
            out.push(dict[idx]);
            d = d + 1;
        }
        proof {
            assert(out@ =~= Seq::new(
                self.dimensions as nat,
                |dd: int| self.dict(dd)[cells@[dd] * self.stride(dd) + offs@[dd]],
            ));
        }
        Ok(out)
    }

    /// The grid's maximal quantized point, as (cell identifiers, offsets);
    /// fails when some dimension's dictionary is empty.
    pub fn last(&self) -> (r: Result<(Vec<u64>, Vec<usize>), SfcError>)
        requires
            self.wf(),
        ensures
            match r {
                Ok(p) => self.spec_last() == Some((p.0@, p.1@)),
                Err(_) => self.spec_last() is None,
            },
    {
        let mut cells: Vec<u64> = Vec::new();
        let mut offs: Vec<usize> = Vec::new();
        let mut d: usize = 0;
        while d < self.dimensions
            invariant
                self.wf(),
                d <= self.dimensions,
                cells@.len() == d,
                offs@.len() == d,
                forall|dd: int| 0 <= dd < d ==> (#[trigger] self.dict(dd)).len() >= 1,
                forall|dd: int|
                    0 <= dd < d ==> #[trigger] cells@[dd] == ((self.dict(dd).len() - 1)
                        / self.stride(dd)) as u64,
                forall|dd: int|
                    0 <= dd < d ==> #[trigger] offs@[dd] == ((self.dict(dd).len() - 1)
                        % self.stride(dd)) as usize,
            decreases self.dimensions - d,
        {
            let dict = &self.dicts[d];
            proof {
                assert(self.stride(d as int) >= 1);
            }
            if dict.len() == 0 {
                proof {
                    assert(self.dict(d as int).len() < 1);
                }
                return Err(SfcError::EmptyDimension);
            }
            let i = dict.len() - 1;
            let stride = self.strides[d];
            cells.push((i / stride) as u64);
            offs.push(i % stride);
            d = d + 1;
        }
        proof {
            assert(cells@ =~= Seq::new(
                self.dimensions as nat,
                |dd: int| ((self.dict(dd).len() - 1) / self.stride(dd)) as u64,
            ));
            assert(offs@ =~= Seq::new(
                self.dimensions as nat,
                |dd: int| ((self.dict(dd).len() - 1) % self.stride(dd)) as usize,
            ));
        }
        Ok((cells, offs))
    }
}

} // verus!
