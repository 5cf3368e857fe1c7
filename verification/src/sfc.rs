//! Space-filling-curve index: quantizes each item's key, interleaves the
//! cell identifiers into a Morton code, and keeps one cell per distinct
//! code, sorted ascending by code. Queries run by binary search over the
//! codes; the index is immutable once built.

use crate::cell_space::coord_present;
use crate::cell_space::down_in;
use crate::cell_space::idx_of;
use crate::cell_space::is_down_in;
use crate::cell_space::is_up_in;
use crate::cell_space::lemma_down_in;
use crate::cell_space::lemma_up_in;
use crate::cell_space::up_in;
use crate::cell_space::sorted_strict;
use crate::cell_space::CellSpace;
use crate::morton::lemma_enc_from_bound;
use crate::morton::lemma_morton_roundtrip;
use crate::morton::lemma_pow2_le;
use crate::morton::morton_dec;
use crate::morton::morton_enc;
use crate::morton::MortonEncoder;
use crate::SfcError;
use vstd::arithmetic::div_mod::*;
use vstd::arithmetic::power2::*;
use vstd::prelude::*;
use vstd::seq_lib::*;
use vstd::std_specs::cmp::PartialEqSpec;

verus! {

broadcast use vstd::seq_lib::group_seq_properties;

/// One indexed record: the per-dimension offsets inside its cell, plus the
/// opaque payload.
pub(crate) struct SFCRecord<F> {
    pub offsets: Vec<usize>,
    pub fields: F,
}

/// One cell: a curve code and the records whose keys share that code, in
/// insertion order.
pub(crate) struct SFCCell<F> {
    pub code: u64,
    pub records: Vec<SFCRecord<F>>,
}

/// The codes of `index` are strictly ascending.
pub(crate) open spec fn cells_sorted<F>(index: Seq<SFCCell<F>>) -> bool {
    forall|c1: int, c2: int|
        0 <= c1 < c2 < index.len() ==> (#[trigger] index[c1]).code < (#[trigger] index[c2]).code
}

/// Some cell of `index` carries `code`.
pub(crate) open spec fn has_cell_in<F>(index: Seq<SFCCell<F>>, code: u64) -> bool {
    exists|c: int| 0 <= c < index.len() && (#[trigger] index[c]).code == code
}

/// The index of the cell carrying `code`.
pub(crate) open spec fn cell_idx_in<F>(index: Seq<SFCCell<F>>, code: u64) -> int {
    choose|c: int| 0 <= c < index.len() && (#[trigger] index[c]).code == code
}

pub(crate) proof fn lemma_cell_idx_in<F>(index: Seq<SFCCell<F>>, code: u64, c: int)
    requires
        cells_sorted(index),
        0 <= c < index.len(),
        index[c].code == code,
    ensures
        has_cell_in(index, code),
        cell_idx_in(index, code) == c,
{
    assert(has_cell_in(index, code)) by {
        assert(index[c].code == code);
    }
    let c2 = cell_idx_in(index, code);
    if c2 < c {
        assert(index[c2].code < index[c].code);
    }
    if c < c2 {
        assert(index[c].code < index[c2].code);
    }
}

/// `p` is the insertion point for `code` among the sorted cell codes.
pub(crate) open spec fn is_ins_point<F>(index: Seq<SFCCell<F>>, code: u64, p: int) -> bool {
    &&& 0 <= p <= index.len()
    &&& forall|c: int| 0 <= c < p ==> (#[trigger] index[c]).code < code
    &&& forall|c: int| p <= c < index.len() ==> (#[trigger] index[c]).code > code
}

pub(crate) open spec fn ins_point_in<F>(index: Seq<SFCCell<F>>, code: u64) -> int {
    choose|p: int| is_ins_point(index, code, p)
}

pub(crate) proof fn lemma_ins_point_in<F>(index: Seq<SFCCell<F>>, code: u64, p: int)
    requires
        is_ins_point(index, code, p),
    ensures
        ins_point_in(index, code) == p,
{
    assert(is_ins_point(index, code, p));
    let p2 = ins_point_in(index, code);
    assert(is_ins_point(index, code, p2));
    if p2 < p {
        assert(index[p2].code > code);
        assert(index[p2].code < code);
    }
    if p < p2 {
        assert(index[p].code > code);
        assert(index[p].code < code);
    }
}

/// Binary search over the sorted cells: the position of `code`, or the
/// insertion point where it would go.
fn find_slot<F>(index: &Vec<SFCCell<F>>, code: u64) -> (r: Result<usize, usize>)
    requires
        cells_sorted(index@),
    ensures
        match r {
            Ok(c) => c < index@.len() && index@[c as int].code == code,
            Err(p) => is_ins_point(index@, code, p as int),
        },
{
    let mut lo: usize = 0;
    let mut hi: usize = index.len();
    while lo < hi
        invariant
            lo <= hi <= index@.len(),
            cells_sorted(index@),
            forall|c: int| 0 <= c < lo ==> (#[trigger] index@[c]).code < code,
            forall|c: int| hi <= c < index@.len() ==> (#[trigger] index@[c]).code > code,
        decreases hi - lo,
    {
        let mid = lo + (hi - lo) / 2;
        let mc = index[mid].code;
        if mc == code {
            return Ok(mid);
        } else if mc < code {
            lo = mid + 1;
        } else {
            hi = mid;
        }
    }
    Err(lo)
}

/// The curve code the pipeline assigns to `key`: quantize, then encode.
pub(crate) open spec fn pipe_code(space: CellSpace, morton: MortonEncoder, key: Seq<u64>) -> Option<
    u64,
> {
    match space.spec_key(key) {
        Some(q) => morton.spec_encode(q.0),
        None => None,
    }
}

pub(crate) open spec fn pipe_good(space: CellSpace, morton: MortonEncoder, key: Seq<u64>) -> bool {
    pipe_code(space, morton, key) is Some
}

pub(crate) open spec fn pipe_offs(space: CellSpace, key: Seq<u64>) -> Seq<usize> {
    match space.spec_key(key) {
        Some(q) => q.1,
        None => Seq::empty(),
    }
}

pub(crate) open spec fn item_match<F>(
    space: CellSpace,
    morton: MortonEncoder,
    item: (Vec<u64>, F),
    code: u64,
) -> bool {
    pipe_code(space, morton, item.0@) == Some(code)
}

/// The (offsets, payload) views of the records of one cell.
pub(crate) open spec fn rec_views<F>(rs: Seq<SFCRecord<F>>) -> Seq<(Seq<usize>, F)> {
    rs.map_values(|r: SFCRecord<F>| (r.offsets@, r.fields))
}

/// The records that the items assign to the cell with `code`, in input
/// order: one per item whose key quantizes and encodes to `code`.
pub(crate) open spec fn matching_records<F>(
    space: CellSpace,
    morton: MortonEncoder,
    items: Seq<(Vec<u64>, F)>,
    code: u64,
) -> Seq<(Seq<usize>, F)>
    decreases items.len(),
{
    if items.len() == 0 {
        Seq::empty()
    } else {
        matching_records(space, morton, items.drop_last(), code) + (if item_match(
            space,
            morton,
            items.last(),
            code,
        ) {
            seq![(pipe_offs(space, items.last().0@), items.last().1)]
        } else {
            Seq::empty()
        })
    }
}

/// If no item matches `code`, no record lands in that cell.
pub(crate) proof fn lemma_matching_empty<F>(
    space: CellSpace,
    morton: MortonEncoder,
    items: Seq<(Vec<u64>, F)>,
    code: u64,
)
    requires
        forall|i: int| 0 <= i < items.len() ==> !item_match(space, morton, #[trigger] items[i], code),
    ensures
        matching_records(space, morton, items, code) == Seq::<(Seq<usize>, F)>::empty(),
    decreases items.len(),
{
    if items.len() > 0 {
        assert(items.last() == items[items.len() - 1]);
        lemma_matching_empty(space, morton, items.drop_last(), code);
        assert(matching_records(space, morton, items, code) =~= Seq::<(Seq<usize>, F)>::empty());
    }
}

/// `start[d] <= p[d] <= end[d]` over the first `dims` dimensions.
pub open spec fn in_box_spec(start: Seq<u64>, end: Seq<u64>, p: Seq<u64>, dims: int) -> bool {
    forall|d: int| 0 <= d < dims ==> start[d] <= #[trigger] p[d] <= end[d]
}

/// Component-wise bounding-box test over the first `dims` coordinates.
fn box_contains(start: &Vec<u64>, end: &Vec<u64>, p: &Vec<u64>, dims: usize) -> (r: bool)
    requires
        start@.len() >= dims,
        end@.len() >= dims,
        p@.len() >= dims,
    ensures
        r == in_box_spec(start@, end@, p@, dims as int),
{
    let mut d: usize = 0;
    while d < dims
        invariant
            d <= dims,
            start@.len() >= dims,
            end@.len() >= dims,
            p@.len() >= dims,
            forall|k: int| 0 <= k < d ==> start@[k] <= #[trigger] p@[k] <= end@[k],
        decreases dims - d,
    {
        if start[d] > p[d] || p[d] > end[d] {
            return false;
        }
        d = d + 1;
    }
    true
}

/// Element-wise equality of two offset vectors of the same length.
fn offsets_equal(a: &Vec<usize>, b: &Vec<usize>) -> (r: bool)
    requires
        a@.len() == b@.len(),
    ensures
        r <==> a@ == b@,
{
    let mut d: usize = 0;
    while d < a.len()
        invariant
            d <= a@.len(),
            a@.len() == b@.len(),
            forall|k: int| 0 <= k < d ==> a@[k] == b@[k],
        decreases a@.len() - d,
    {
        if a[d] != b[d] {
            return false;
        }
        d = d + 1;
    }
    proof {
        assert(a@ =~= b@);
    }
    true
}

/// Space-filling-curve based index.
///
/// Built once from a finite collection of (key, payload) items; immutable
/// afterwards. Keys are coordinate vectors of exactly `dimensions`
/// entries.
pub struct SpaceFillingCurve<F> {
    dimensions: usize,
    morton: MortonEncoder,
    space: CellSpace,
    index: Vec<SFCCell<F>>,
}

impl<F> SpaceFillingCurve<F> {
    /// Structural well-formedness: consistent collaborators, strictly
    /// ascending cell codes, no empty cell, offset vectors of the
    /// configured dimension count.
    pub closed spec fn wf(self) -> bool {
        &&& self.space.wf()
        &&& self.morton.wf()
        &&& self.space.dimensions == self.dimensions
        &&& self.morton.dimensions == self.dimensions
        &&& self.morton.cell_bits == self.space.cell_bits
        &&& cells_sorted(self.index@)
        &&& forall|c: int| 0 <= c < self.index@.len() ==> (#[trigger] self.index@[c]).records@.len() >= 1
        &&& forall|c: int, rr: int|
            0 <= c < self.index@.len() && 0 <= rr < self.index@[c].records@.len() ==> (
            #[trigger] self.index@[c].records@[rr]).offsets@.len() == self.dimensions
    }

    pub closed spec fn spec_dimensions(self) -> int {
        self.dimensions as int
    }

    /// The cell codes, ascending.
    pub closed spec fn codes(self) -> Seq<u64> {
        Seq::new(self.index@.len(), |c: int| self.index@[c].code)
    }

    /// Whether `key` is quantizable and encodable on this index's grid.
    pub closed spec fn key_good(self, key: Seq<u64>) -> bool {
        pipe_good(self.space, self.morton, key)
    }

    /// The curve code of `key`.
    pub closed spec fn code_of(self, key: Seq<u64>) -> u64 {
        match pipe_code(self.space, self.morton, key) {
            Some(code) => code,
            None => 0,
        }
    }

    /// The offsets of `key` inside its cell.
    pub closed spec fn offs_of(self, key: Seq<u64>) -> Seq<usize> {
        pipe_offs(self.space, key)
    }

    pub closed spec fn has_cell(self, code: u64) -> bool {
        has_cell_in(self.index@, code)
    }

    pub closed spec fn cell_idx(self, code: u64) -> int {
        cell_idx_in(self.index@, code)
    }

    /// The index was built from exactly these items: each cell holds, in
    /// input order, one record per item whose key maps to its code, and
    /// every successfully mapped item has its cell.
    pub closed spec fn built_from(self, items: Seq<(Vec<u64>, F)>) -> bool {
        &&& forall|c: int|
            0 <= c < self.index@.len() ==> rec_views((#[trigger] self.index@[c]).records@)
                == matching_records(self.space, self.morton, items, self.index@[c].code)
        &&& forall|i: int|
            0 <= i < items.len() && self.key_good((#[trigger] items[i]).0@) ==> self.has_cell(
                self.code_of(items[i].0@),
            )
    }

    /// The grid covers exactly the coordinates of the items' well-formed
    /// keys.
    pub closed spec fn grid_covers(self, items: Seq<(Vec<u64>, F)>) -> bool {
        forall|d: int, v: u64|
            0 <= d < self.dimensions ==> (#[trigger] self.space.dict(d).contains(v)
                <==> coord_present(items, self.dimensions as int, d, v))
    }

    /// Creates a new index from the items: initializes the quantizer and
    /// the curve encoder from the keys, then maps each item to
    /// (code, record) and groups equal codes into cells, sorted ascending
    /// by code. An item whose key cannot be quantized or encoded is
    /// dropped; an empty item collection yields a well-formed empty index.
    pub fn new(items: Vec<(Vec<u64>, F)>, dimensions: usize, cell_bits: usize) -> (r: Self)
        requires
            1 <= dimensions <= 3,
            dimensions * cell_bits <= 64,
        ensures
            r.wf(),
            r.spec_dimensions() == dimensions,
            r.built_from(items@),
            r.grid_covers(items@),
            sorted_strict(r.codes()),
    {
        let space = CellSpace::new(&items, dimensions, cell_bits);
        let morton = MortonEncoder::new(dimensions, cell_bits);
        let ghost all_items = items@;
        let mut items = items;
        let total: usize = items.len();
        proof {
            assert(all_items.len() == total);
        }
        let mut index: Vec<SFCCell<F>> = Vec::new();
        let mut n: usize = 0;
        while items.len() > 0
            invariant
                space.wf(),
                morton.wf(),
                space.dimensions == dimensions,
                space.cell_bits == cell_bits,
                morton.dimensions == dimensions,
                morton.cell_bits == cell_bits,
                1 <= dimensions <= 3,
                n + items@.len() == all_items.len(),
                all_items.len() <= usize::MAX,
                items@ == all_items.skip(n as int),
                cells_sorted(index@),
                forall|c: int| 0 <= c < index@.len() ==> (#[trigger] index@[c]).records@.len() >= 1,
                forall|c: int, rr: int|
                    0 <= c < index@.len() && 0 <= rr < index@[c].records@.len() ==> (
                    #[trigger] index@[c].records@[rr]).offsets@.len() == dimensions,
                forall|c: int|
                    0 <= c < index@.len() ==> rec_views((#[trigger] index@[c]).records@)
                        == matching_records(space, morton, all_items.take(n as int), index@[c].code),
                forall|i: int|
                    0 <= i < n && pipe_good(space, morton, (#[trigger] all_items[i]).0@)
                        ==> has_cell_in(
                        index@,
                        pipe_code(space, morton, all_items[i].0@).unwrap(),
                    ),
            decreases items@.len(),
        {
            proof {
                assert(items@[0] == all_items[n as int]);
                assert(all_items.take(n as int + 1).drop_last() =~= all_items.take(n as int));
                assert(all_items.take(n as int + 1).last() == all_items[n as int]);
            }
            let (key, fields) = items.remove(0);
            proof {
                assert(items@ =~= all_items.skip(n as int + 1));
            }
            let ghost item = all_items[n as int];
            match space.key(&key) {
                Err(_) => {
                    proof {
                        assert(!pipe_good(space, morton, item.0@));
                        assert forall|c: int| 0 <= c < index@.len() implies rec_views(
                            (#[trigger] index@[c]).records@,
                        ) == matching_records(
                            space,
                            morton,
                            all_items.take(n as int + 1),
                            index@[c].code,
                        ) by {
                            assert(!item_match(space, morton, item, index@[c].code));
                            assert(matching_records(
                                space,
                                morton,
                                all_items.take(n as int + 1),
                                index@[c].code,
                            ) =~= matching_records(
                                space,
                                morton,
                                all_items.take(n as int),
                                index@[c].code,
                            ));
                        }
                    }
                },
                Ok((cells, offsets)) => {
                    match morton.encode(&cells) {
                        Err(_) => {
                            proof {
                                assert(!pipe_good(space, morton, item.0@));
                                assert forall|c: int| 0 <= c < index@.len() implies rec_views(
                                    (#[trigger] index@[c]).records@,
                                ) == matching_records(
                                    space,
                                    morton,
                                    all_items.take(n as int + 1),
                                    index@[c].code,
                                ) by {
                                    assert(!item_match(space, morton, item, index@[c].code));
                                    assert(matching_records(
                                        space,
                                        morton,
                                        all_items.take(n as int + 1),
                                        index@[c].code,
                                    ) =~= matching_records(
                                        space,
                                        morton,
                                        all_items.take(n as int),
                                        index@[c].code,
                                    ));
                                }
                            }
                        },
                        Ok(code) => {
                            proof {
                                assert(pipe_code(space, morton, item.0@) == Some(code));
                                assert(item_match(space, morton, item, code));
                                assert(pipe_offs(space, item.0@) == offsets@);
                                assert(offsets@.len() == dimensions);
                            }
                            let rec = SFCRecord { offsets, fields };
                            let ghost grec = rec;
                            let ghost gview = (grec.offsets@, grec.fields);
                            let ghost idx0 = index@;
                            match find_slot(&index, code) {
                                Ok(c) => {
                                    proof {
                                        idx0.remove_ensures(c as int);
                                    }
                                    let mut cell = index.remove(c);
                                    cell.records.push(rec);
                                    let ghost gcell = cell;
                                    proof {
                                        idx0.remove(c as int).insert_ensures(c as int, gcell);
                                    }
                                    index.insert(c, cell);
                                    proof {
                                        assert(index@.len() == idx0.len());
                                        assert(index@[c as int] == gcell);
                                        assert(gcell.code == code);
                                        assert(gcell.records@ == idx0[c as int].records@.push(
                                            grec,
                                        ));
                                        assert forall|k: int|
                                            0 <= k < idx0.len() && k != c implies index@[k]
                                            == idx0[k] by {
                                            if k > c {
                                                assert(index@[k] == idx0.remove(c as int)[k - 1]);
                                            }
                                        }
                                        assert(rec_views(gcell.records@) =~= rec_views(
                                            idx0[c as int].records@,
                                        ).push(gview));
                                        assert forall|cc: int|
                                            0 <= cc < index@.len() implies rec_views(
                                            (#[trigger] index@[cc]).records@,
                                        ) == matching_records(
                                            space,
                                            morton,
                                            all_items.take(n as int + 1),
                                            index@[cc].code,
                                        ) by {
                                            if cc == c {
                                                assert(matching_records(
                                                    space,
                                                    morton,
                                                    all_items.take(n as int + 1),
                                                    code,
                                                ) =~= matching_records(
                                                    space,
                                                    morton,
                                                    all_items.take(n as int),
                                                    code,
                                                ).push((pipe_offs(space, item.0@), item.1)));
                                            } else {
                                                assert(index@[cc] == idx0[cc]);
                                                if cc < c {
                                                    assert(idx0[cc].code < code);
                                                } else {
                                                    assert(idx0[cc].code > code);
                                                }
                                                assert(!item_match(
                                                    space,
                                                    morton,
                                                    item,
                                                    idx0[cc].code,
                                                ));
                                                assert(matching_records(
                                                    space,
                                                    morton,
                                                    all_items.take(n as int + 1),
                                                    index@[cc].code,
                                                ) =~= matching_records(
                                                    space,
                                                    morton,
                                                    all_items.take(n as int),
                                                    index@[cc].code,
                                                ));
                                            }
                                        }
                                        assert forall|i: int|
                                            0 <= i < n + 1 && pipe_good(
                                                space,
                                                morton,
                                                (#[trigger] all_items[i]).0@,
                                            ) implies has_cell_in(
                                            index@,
                                            pipe_code(space, morton, all_items[i].0@).unwrap(),
                                        ) by {
                                            let icode = pipe_code(
                                                space,
                                                morton,
                                                all_items[i].0@,
                                            ).unwrap();
                                            if i < n {
                                                let w = choose|w: int|
                                                    0 <= w < idx0.len() && (#[trigger] idx0[w]).code
                                                        == icode;
                                                assert(index@[w].code == icode);
                                            } else {
                                                assert(index@[c as int].code == code);
                                            }
                                        }
                                    }
                                },
                                Err(p) => {
                                    let mut records: Vec<SFCRecord<F>> = Vec::new();
                                    records.push(rec);
                                    let ghost newcell = SFCCell { code, records: records };
                                    proof {
                                        idx0.insert_ensures(p as int, newcell);
                                    }
                                    index.insert(p, SFCCell { code, records });
                                    proof {
                                        assert(index@ == idx0.insert(p as int, newcell));
                                        assert(index@.len() == idx0.len() + 1);
                                        assert(index@[p as int] == newcell);
                                        assert(newcell.records@ == seq![grec]);
                                        assert(rec_views(newcell.records@) =~= seq![gview]);
                                        assert(!has_cell_in(idx0, code)) by {
                                            assert forall|w: int|
                                                0 <= w < idx0.len() implies (
                                                #[trigger] idx0[w]).code != code by {
                                                if w < p {
                                                    assert(idx0[w].code < code);
                                                } else {
                                                    assert(idx0[w].code > code);
                                                }
                                            }
                                        }
                                        assert forall|i: int|
                                            0 <= i < n implies !item_match(
                                            space,
                                            morton,
                                            #[trigger] all_items.take(n as int)[i],
                                            code,
                                        ) by {
                                            if item_match(space, morton, all_items[i], code) {
                                                assert(pipe_good(space, morton, all_items[i].0@));
                                                assert(has_cell_in(idx0, code));
                                            }
                                        }
                                        lemma_matching_empty(
                                            space,
                                            morton,
                                            all_items.take(n as int),
                                            code,
                                        );
                                        assert(matching_records(
                                            space,
                                            morton,
                                            all_items.take(n as int + 1),
                                            code,
                                        ) =~= seq![(pipe_offs(space, item.0@), item.1)]);
                                        assert forall|c1: int, c2: int|
                                            0 <= c1 < c2 < index@.len() implies (
                                            #[trigger] index@[c1]).code < (
                                            #[trigger] index@[c2]).code by {
                                            if c1 < p && c2 == p {
                                                assert(index@[c1] == idx0[c1]);
                                            } else if c1 == p && c2 > p {
                                                assert(index@[c2] == idx0[c2 - 1]);
                                            } else if c2 < p {
                                                assert(index@[c1] == idx0[c1] && index@[c2]
                                                    == idx0[c2]);
                                            } else if c1 > p {
                                                assert(index@[c1] == idx0[c1 - 1] && index@[c2]
                                                    == idx0[c2 - 1]);
                                            } else {
                                                assert(index@[c1] == idx0[c1] && index@[c2]
                                                    == idx0[c2 - 1]);
                                            }
                                        }
                                        assert forall|cc: int|
                                            0 <= cc < index@.len() implies rec_views(
                                            (#[trigger] index@[cc]).records@,
                                        ) == matching_records(
                                            space,
                                            morton,
                                            all_items.take(n as int + 1),
                                            index@[cc].code,
                                        ) by {
                                            if cc != p {
                                                let oc: int = if cc < p {
                                                    cc
                                                } else {
                                                    cc - 1
                                                };
                                                assert(index@[cc] == idx0[oc]);
                                                assert(idx0[oc].code != code);
                                                assert(!item_match(
                                                    space,
                                                    morton,
                                                    item,
                                                    idx0[oc].code,
                                                ));
                                                assert(matching_records(
                                                    space,
                                                    morton,
                                                    all_items.take(n as int + 1),
                                                    index@[cc].code,
                                                ) =~= matching_records(
                                                    space,
                                                    morton,
                                                    all_items.take(n as int),
                                                    index@[cc].code,
                                                ));
                                            }
                                        }
                                        assert forall|i: int|
                                            0 <= i < n + 1 && pipe_good(
                                                space,
                                                morton,
                                                (#[trigger] all_items[i]).0@,
                                            ) implies has_cell_in(
                                            index@,
                                            pipe_code(space, morton, all_items[i].0@).unwrap(),
                                        ) by {
                                            let icode = pipe_code(
                                                space,
                                                morton,
                                                all_items[i].0@,
                                            ).unwrap();
                                            if i < n {
                                                let w = choose|w: int|
                                                    0 <= w < idx0.len() && (#[trigger] idx0[w]).code
                                                        == icode;
                                                if w < p {
                                                    assert(index@[w].code == icode);
                                                } else {
                                                    assert(index@[w + 1].code == icode);
                                                }
                                            } else {
                                                assert(index@[p as int].code == code);
                                            }
                                        }
                                    }
                                },
                            }
                        },
                    }
                },
            }
            n = n + 1;
        }
        proof {
            assert(all_items.take(all_items.len() as int) =~= all_items);
        }
        let r = SpaceFillingCurve { dimensions, morton, space, index };
        proof {
            assert forall|c1: int, c2: int|
                0 <= c1 < c2 < r.codes().len() implies r.codes()[c1] < r.codes()[c2] by {
                assert(r.index@[c1].code < r.index@[c2].code);
            }
        }
        r
    }
}

/// The payloads of the records in `rs` whose offsets equal `offs`, in
/// order.
pub(crate) open spec fn selected_fields<F>(rs: Seq<SFCRecord<F>>, offs: Seq<usize>) -> Seq<F>
    decreases rs.len(),
{
    if rs.len() == 0 {
        Seq::empty()
    } else {
        selected_fields(rs.drop_last(), offs) + (if rs.last().offsets@ == offs {
            seq![rs.last().fields]
        } else {
            Seq::empty()
        })
    }
}

impl<F> SpaceFillingCurve<F> {
    /// Maps a vector of cell identifiers to its curve code.
    fn encode(&self, cells: &Vec<u64>) -> (r: Result<u64, SfcError>)
        requires
            self.wf(),
        ensures
            match r {
                Ok(code) => self.morton.spec_encode(cells@) == Some(code),
                Err(_) => self.morton.spec_encode(cells@) is None,
            },
    {
        self.morton.encode(cells)
    }

    /// The grid's maximal quantized point, from the quantizer.
    fn last(&self) -> (r: Result<(Vec<u64>, Vec<usize>), SfcError>)
        requires
            self.wf(),
        ensures
            match r {
                Ok(p) => self.space.spec_last() == Some((p.0@, p.1@)),
                Err(_) => self.space.spec_last() is None,
            },
    {
        self.space.last()
    }

    /// The coordinates reconstructed by decoding `code` and indexing the
    /// dictionaries with the decoded cells and `offs`.
    pub closed spec fn spec_value_of(self, code: u64, offs: Seq<usize>) -> Option<Seq<u64>> {
        self.space.spec_value(
            morton_dec(code as nat, self.dimensions as nat, self.morton.cell_bits as nat),
            offs,
        )
    }

    /// Reconstructs the coordinate values stored under (code, offsets).
    fn value(&self, code: u64, offsets: &Vec<usize>) -> (r: Result<Vec<u64>, SfcError>)
        requires
            self.wf(),
        ensures
            match r {
                Ok(p) => self.spec_value_of(code, offsets@) == Some(p@),
                Err(_) => self.spec_value_of(code, offsets@) is None,
            },
    {
        let cells = self.morton.decode(code);
        self.space.value(&cells, offsets)
    }

    /// Rebuilds the full coordinate key stored under (code, offsets).
    fn position(&self, code: u64, offsets: &Vec<usize>) -> (r: Result<Vec<u64>, SfcError>)
        requires
            self.wf(),
        ensures
            match r {
                Ok(p) => self.spec_value_of(code, offsets@) == Some(p@),
                Err(_) => self.spec_value_of(code, offsets@) is None,
            },
    {
        self.value(code, offsets)
    }

    /// The payloads `find` returns for `key`: those of the records in
    /// `key`'s cell whose offset vector equals `key`'s, in insertion
    /// order; empty when `key` is off the grid or its cell is absent.
    pub closed spec fn spec_find(self, key: Seq<u64>) -> Seq<F> {
        if self.key_good(key) && self.has_cell(self.code_of(key)) {
            selected_fields(
                self.index@[self.cell_idx(self.code_of(key))].records@,
                self.offs_of(key),
            )
        } else {
            Seq::empty()
        }
    }

    /// Exact lookup: quantizes and encodes `key`, binary-searches the cell
    /// with that code, and returns the payloads of the records whose
    /// offsets match. A malformed or absent key yields an empty result.
    pub fn find(&self, key: &Vec<u64>) -> (r: Vec<&F>)
        requires
            self.wf(),
        ensures
            r@.len() == self.spec_find(key@).len(),
            forall|i: int| 0 <= i < r@.len() ==> *r@[i] == self.spec_find(key@)[i],
    {
        let mut values: Vec<&F> = Vec::new();
        match self.space.key(key) {
            Err(_) => {},
            Ok((cells, offsets)) => {
                match self.encode(&cells) {
                    Err(_) => {},
                    Ok(code) => {
                        proof {
                            assert(self.key_good(key@));
                            assert(self.code_of(key@) == code);
                            assert(self.offs_of(key@) == offsets@);
                        }
                        match find_slot(&self.index, code) {
                            Err(p) => {
                                proof {
                                    assert forall|c: int|
                                        0 <= c < self.index@.len() implies (
                                    #[trigger] self.index@[c]).code != code by {
                                        if c < p {
                                            assert(self.index@[c].code < code);
                                        } else {
                                            assert(self.index@[c].code > code);
                                        }
                                    }
                                    assert(!self.has_cell(code));
                                }
                            },
                            Ok(c) => {
                                proof {
                                    lemma_cell_idx_in(self.index@, code, c as int);
                                }
                                let cell = &self.index[c];
                                let ghost rs = cell.records@;
                                let mut rr: usize = 0;
                                while rr < cell.records.len()
                                    invariant
                                        self.wf(),
                                        0 <= c < self.index@.len(),
                                        cell == self.index@[c as int],
                                        rs == cell.records@,
                                        rr <= rs.len(),
                                        offsets@.len() == self.dimensions,
                                        values@.len() == selected_fields(
                                            rs.take(rr as int),
                                            offsets@,
                                        ).len(),
                                        forall|i: int|
                                            0 <= i < values@.len() ==> *(#[trigger] values@[i])
                                                == selected_fields(rs.take(rr as int), offsets@)[i],
                                    decreases rs.len() - rr,
                                {
                                    proof {
                                        assert(rs.take(rr as int + 1).drop_last() =~= rs.take(
                                            rr as int,
                                        ));
                                        assert(rs.take(rr as int + 1).last() == rs[rr as int]);
                                    }
                                    let record = &cell.records[rr];
                                    if offsets_equal(&record.offsets, &offsets) {
                                        values.push(&record.fields);
                                    }
                                    rr = rr + 1;
                                }
                                proof {
                                    assert(rs.take(rs.len() as int) =~= rs);
                                }
                            },
                        }
                    },
                }
            },
        }
        values
    }
}

/// A resolved range boundary: a cell index and the grid position that
/// produced it.
struct Limit {
    idx: usize,
    position: Vec<u64>,
}

struct Limits {
    start: Limit,
    end: Limit,
}

/// Owned result rows match their mathematical counterparts.
pub open spec fn pairs_match<F>(v: Seq<(Vec<u64>, &F)>, m: Seq<(Seq<u64>, F)>) -> bool {
    &&& v.len() == m.len()
    &&& forall|i: int| 0 <= i < v.len() ==> (#[trigger] v[i]).0@ == m[i].0 && *v[i].1 == m[i].1
}

/// Owned key rows match their mathematical counterparts.
pub open spec fn keys_match(v: Seq<Vec<u64>>, m: Seq<Seq<u64>>) -> bool {
    &&& v.len() == m.len()
    &&& forall|i: int| 0 <= i < v.len() ==> (#[trigger] v[i])@ == m[i]
}

impl<F> SpaceFillingCurve<F> {
    /// The half-open range of cell indices that `limits` resolves for
    /// `[start, end]`: the scan begins at the cell of the rounded-down
    /// start key (or the nearest cell below its code), and stops before
    /// the insertion point of the rounded-up end key (whose own cell, if
    /// present, is still included).
    pub closed spec fn spec_limits(self, start: Seq<u64>, end: Seq<u64>) -> Option<(int, int)> {
        match self.space.spec_key_down(start) {
            None => None,
            Some(q1) => match self.morton.spec_encode(q1.0) {
                None => None,
                Some(code1) => match self.space.spec_value(q1.0, q1.1) {
                    None => None,
                    Some(p1) => match self.space.spec_key_up(end) {
                        None => None,
                        Some(q2) => match self.morton.spec_encode(q2.0) {
                            None => None,
                            Some(code2) => match self.space.spec_value(q2.0, q2.1) {
                                None => None,
                                Some(p2) => {
                                    let s_idx = if has_cell_in(self.index@, code1) {
                                        cell_idx_in(self.index@, code1)
                                    } else if ins_point_in(self.index@, code1) > 0 {
                                        ins_point_in(self.index@, code1) - 1
                                    } else {
                                        0
                                    };
                                    let e_idx = if has_cell_in(self.index@, code2) {
                                        cell_idx_in(self.index@, code2) + 1
                                    } else {
                                        ins_point_in(self.index@, code2)
                                    };
                                    Some((s_idx, e_idx))
                                },
                            },
                        },
                    },
                },
            },
        }
    }

    /// Resolves the inclusive-exclusive cell index range for a bounding
    /// box: start key rounded down, end key rounded up, each located by
    /// binary search over the sorted codes. Fails when the quantizer
    /// cannot resolve a boundary.
    fn limits(&self, start: &Vec<u64>, end: &Vec<u64>) -> (r: Result<Limits, SfcError>)
        requires
            self.wf(),
        ensures
            match r {
                Ok(l) => {
                    &&& self.spec_limits(start@, end@) == Some(
                        (l.start.idx as int, l.end.idx as int),
                    )
                    &&& l.end.idx <= self.index@.len()
                    &&& l.start.idx < self.index@.len() || l.start.idx == 0
                },
                Err(_) => self.spec_limits(start@, end@) is None,
            },
    {
        let cell_count: usize = self.index.len();
        proof {
            assert(self.index@.len() == cell_count);
        }
        // Round down if not found, for start of range:
        let (cells, offsets) = match self.space.key_down(start) {
            Ok(p) => p,
            Err(e) => {
                return Err(e);
            },
        };
        let code = match self.encode(&cells) {
            Ok(c) => c,
            Err(e) => {
                return Err(e);
            },
        };
        let s_idx = match find_slot(&self.index, code) {
            Ok(c) => {
                proof {
                    lemma_cell_idx_in(self.index@, code, c as int);
                }
                c
            },
            Err(p) => {
                proof {
                    lemma_ins_point_in(self.index@, code, p as int);
                    assert forall|c: int|
                        0 <= c < self.index@.len() implies (#[trigger] self.index@[c]).code
                        != code by {
                        if c < p {
                            assert(self.index@[c].code < code);
                        } else {
                            assert(self.index@[c].code > code);
                        }
                    }
                    assert(!has_cell_in(self.index@, code));
                }
                if p > 0 {
                    p - 1
                } else {
                    0
                }
            },
        };
        let spos = match self.space.value(&cells, &offsets) {
            Ok(p) => p,
            Err(e) => {
                return Err(e);
            },
        };
        let lstart = Limit { idx: s_idx, position: spos };

        // Round up if not found, for end of range:
        let (cells, offsets) = match self.space.key_up(end) {
            Ok(p) => p,
            Err(e) => {
                return Err(e);
            },
        };
        let code = match self.encode(&cells) {
            Ok(c) => c,
            Err(e) => {
                return Err(e);
            },
        };
        let e_idx = match find_slot(&self.index, code) {
            Ok(c) => {
                proof {
                    lemma_cell_idx_in(self.index@, code, c as int);
                }
                c + 1
            },
            Err(p) => {
                proof {
                    lemma_ins_point_in(self.index@, code, p as int);
                    assert forall|c: int|
                        0 <= c < self.index@.len() implies (#[trigger] self.index@[c]).code
                        != code by {
                        if c < p {
                            assert(self.index@[c].code < code);
                        } else {
                            assert(self.index@[c].code > code);
                        }
                    }
                    assert(!has_cell_in(self.index@, code));
                }
                p
            },
        };
        let epos = match self.space.value(&cells, &offsets) {
            Ok(p) => p,
            Err(e) => {
                return Err(e);
            },
        };
        Ok(Limits { start: lstart, end: Limit { idx: e_idx, position: epos } })
    }

    /// All record pairs of one cell, accepted without per-record box
    /// tests; a record whose position cannot be reconstructed is skipped.
    pub(crate) closed spec fn fast_pairs(self, code: u64, rs: Seq<SFCRecord<F>>) -> Seq<(Seq<u64>, F)>
        decreases rs.len(),
    {
        if rs.len() == 0 {
            Seq::empty()
        } else {
            self.fast_pairs(code, rs.drop_last()) + (match self.spec_value_of(
                code,
                rs.last().offsets@,
            ) {
                Some(pos) => seq![(pos, rs.last().fields)],
                None => Seq::empty(),
            })
        }
    }

    /// The record pairs of one cell whose reconstructed positions lie in
    /// the box; unreconstructable records are skipped.
    pub(crate) closed spec fn slow_pairs(
        self,
        code: u64,
        rs: Seq<SFCRecord<F>>,
        start: Seq<u64>,
        end: Seq<u64>,
    ) -> Seq<(Seq<u64>, F)>
        decreases rs.len(),
    {
        if rs.len() == 0 {
            Seq::empty()
        } else {
            self.slow_pairs(code, rs.drop_last(), start, end) + (match self.spec_value_of(
                code,
                rs.last().offsets@,
            ) {
                Some(pos) => if in_box_spec(start, end, pos, self.dimensions as int) {
                    seq![(pos, rs.last().fields)]
                } else {
                    Seq::empty()
                },
                None => Seq::empty(),
            })
        }
    }

    /// What the range scan yields for cell `c`: everything, when the
    /// cell's first record and the grid's extreme point both lie in the
    /// box (the documented cell-pruning approximation); otherwise only
    /// the records that pass the per-record box test. A cell whose first
    /// record or whose grid extreme cannot be reconstructed is skipped.
    pub(crate) closed spec fn cell_pairs(self, c: int, start: Seq<u64>, end: Seq<u64>) -> Seq<
        (Seq<u64>, F),
    > {
        let cell = self.index@[c];
        match self.spec_value_of(cell.code, cell.records@[0].offsets@) {
            None => Seq::empty(),
            Some(first) => match self.space.spec_last() {
                None => Seq::empty(),
                Some(lq) => match self.space.spec_value(lq.0, lq.1) {
                    None => Seq::empty(),
                    Some(extreme) => {
                        if in_box_spec(start, end, first, self.dimensions as int) && in_box_spec(
                            start,
                            end,
                            extreme,
                            self.dimensions as int,
                        ) {
                            self.fast_pairs(cell.code, cell.records@)
                        } else {
                            self.slow_pairs(cell.code, cell.records@, start, end)
                        }
                    },
                },
            },
        }
    }

    /// The pairs of the cells in `[s, e)`, in cell order.
    pub(crate) closed spec fn range_pairs(self, s: int, e: int, start: Seq<u64>, end: Seq<u64>) -> Seq<
        (Seq<u64>, F),
    >
        decreases e - s,
    {
        if s >= e {
            Seq::empty()
        } else {
            self.cell_pairs(s, start, end) + self.range_pairs(s + 1, e, start, end)
        }
    }

    proof fn lemma_range_pairs_snoc(self, s: int, e: int, start: Seq<u64>, end: Seq<u64>)
        requires
            s <= e,
        ensures
            self.range_pairs(s, e + 1, start, end) == self.range_pairs(s, e, start, end)
                + self.cell_pairs(e, start, end),
        decreases e - s,
    {
        if s == e {
            assert(self.range_pairs(e + 1, e + 1, start, end) == Seq::<(Seq<u64>, F)>::empty());
            assert(self.range_pairs(s, e, start, end) == Seq::<(Seq<u64>, F)>::empty());
            assert(self.range_pairs(s, e + 1, start, end) == self.cell_pairs(s, start, end)
                + self.range_pairs(s + 1, e + 1, start, end));
            assert(self.range_pairs(s, e + 1, start, end) =~= self.range_pairs(s, e, start, end)
                + self.cell_pairs(e, start, end));
        } else {
            self.lemma_range_pairs_snoc(s + 1, e, start, end);
            assert(self.range_pairs(s, e + 1, start, end) == self.cell_pairs(s, start, end)
                + self.range_pairs(s + 1, e + 1, start, end));
            assert(self.range_pairs(s, e, start, end) == self.cell_pairs(s, start, end)
                + self.range_pairs(s + 1, e, start, end));
            assert(self.range_pairs(s, e + 1, start, end) =~= self.range_pairs(s, e, start, end)
                + self.cell_pairs(e, start, end));
        }
    }

    /// The (key, payload) pairs `find_range` returns for `[start, end]`:
    /// the scanned cells' accepted records, in ascending curve order and
    /// insertion order within a cell; empty when the range cannot be
    /// resolved.
    pub closed spec fn spec_find_range(self, start: Seq<u64>, end: Seq<u64>) -> Seq<
        (Seq<u64>, F),
    > {
        match self.spec_limits(start, end) {
            None => Seq::empty(),
            Some(se) => self.range_pairs(se.0, se.1, start, end),
        }
    }

    /// Bounding-box range query. Scans the cells the curve-order binary
    /// search selects; a whole cell is accepted without per-record tests
    /// when its first record and the grid's extreme point both lie in the
    /// box — a deliberate approximation, since the grid extreme is not a
    /// true per-cell maximum; otherwise
    /// each record's reconstructed position is tested. Returns pairs in
    /// curve order; a failed range resolution yields an empty result.
    pub fn find_range(&self, start: &Vec<u64>, end: &Vec<u64>) -> (r: Vec<(Vec<u64>, &F)>)
        requires
            self.wf(),
        ensures
            pairs_match(r@, self.spec_find_range(start@, end@)),
    {
        let mut values: Vec<(Vec<u64>, &F)> = Vec::new();
        match self.limits(start, end) {
            Err(_) => {},
            Ok(lims) => {
                proof {
                    assert(start@.len() == self.dimensions);
                    assert(end@.len() == self.dimensions);
                }
                let ghost s0 = lims.start.idx as int;
                let ghost e0 = lims.end.idx as int;
                let stop = lims.end.idx;
                let mut idx = lims.start.idx;
                if idx >= stop {
                    proof {
                        assert(self.range_pairs(s0, e0, start@, end@) =~= Seq::<
                            (Seq<u64>, F),
                        >::empty());
                    }
                    return values;
                }
                while idx < stop
                    invariant
                        self.wf(),
                        s0 <= idx as int <= e0,
                        e0 == stop as int,
                        e0 <= self.index@.len(),
                        start@.len() == self.dimensions,
                        end@.len() == self.dimensions,
                        pairs_match(values@, self.range_pairs(s0, idx as int, start@, end@)),
                    decreases stop - idx,
                {
                    let ghost base = self.range_pairs(s0, idx as int, start@, end@);
                    let cell = &self.index[idx];
                    let code = cell.code;
                    let ghost rs = cell.records@;
                    match self.value(code, &cell.records[0].offsets) {
                        Err(_) => {
                            proof {
                                assert(self.cell_pairs(idx as int, start@, end@) =~= Seq::<
                                    (Seq<u64>, F),
                                >::empty());
                            }
                        },
                        Ok(first) => {
                            match self.last() {
                                Err(_) => {
                                    proof {
                                        assert(self.cell_pairs(idx as int, start@, end@) =~= Seq::<
                                            (Seq<u64>, F),
                                        >::empty());
                                    }
                                },
                                Ok((lcells, loffs)) => {
                                    match self.space.value(&lcells, &loffs) {
                                        Err(_) => {
                                            proof {
                                                assert(self.cell_pairs(idx as int, start@, end@)
                                                    =~= Seq::<(Seq<u64>, F)>::empty());
                                            }
                                        },
                                        Ok(extreme) => {
                                            let f_in = box_contains(
                                                start,
                                                end,
                                                &first,
                                                self.dimensions,
                                            );
                                            let l_in = box_contains(
                                                start,
                                                end,
                                                &extreme,
                                                self.dimensions,
                                            );
                                            if f_in && l_in {
                                                let mut rr: usize = 0;
                                                while rr < cell.records.len()
                                                    invariant
                                                        self.wf(),
                                                        (idx as int) < self.index@.len(),
                                                        cell == self.index@[idx as int],
                                                        rs == cell.records@,
                                                        rr <= rs.len(),
                                                        pairs_match(
                                                            values@,
                                                            base + self.fast_pairs(
                                                                code,
                                                                rs.take(rr as int),
                                                            ),
                                                        ),
                                                        code == cell.code,
                                                    decreases rs.len() - rr,
                                                {
                                                    proof {
                                                        assert(rs.take(rr as int + 1).drop_last()
                                                            =~= rs.take(rr as int));
                                                        assert(rs.take(rr as int + 1).last()
                                                            == rs[rr as int]);
                                                    }
                                                    let record = &cell.records[rr];
                                                    match self.position(code, &record.offsets) {
                                                        Ok(keyv) => {
                                                            values.push((keyv, &record.fields));
                                                        },
                                                        Err(_) => {},
                                                    }
                                                    rr = rr + 1;
                                                }
                                                proof {
                                                    assert(rs.take(rs.len() as int) =~= rs);
                                                    assert(self.cell_pairs(
                                                        idx as int,
                                                        start@,
                                                        end@,
                                                    ) == self.fast_pairs(code, rs));
                                                }
                                            } else {
                                                let mut rr: usize = 0;
                                                while rr < cell.records.len()
                                                    invariant
                                                        self.wf(),
                                                        (idx as int) < self.index@.len(),
                                                        cell == self.index@[idx as int],
                                                        rs == cell.records@,
                                                        rr <= rs.len(),
                                                        start@.len() == self.dimensions,
                                                        end@.len() == self.dimensions,
                                                        pairs_match(
                                                            values@,
                                                            base + self.slow_pairs(
                                                                code,
                                                                rs.take(rr as int),
                                                                start@,
                                                                end@,
                                                            ),
                                                        ),
                                                        code == cell.code,
                                                    decreases rs.len() - rr,
                                                {
                                                    proof {
                                                        assert(rs.take(rr as int + 1).drop_last()
                                                            =~= rs.take(rr as int));
                                                        assert(rs.take(rr as int + 1).last()
                                                            == rs[rr as int]);
                                                    }
                                                    let record = &cell.records[rr];
                                                    match self.value(code, &record.offsets) {
                                                        Ok(pos) => {
                                                            let keep = box_contains(
                                                                start,
                                                                end,
                                                                &pos,
                                                                self.dimensions,
                                                            );
                                                            if keep {
                                                                values.push((pos, &record.fields));
                                                            }
                                                        },
                                                        Err(_) => {},
                                                    }
                                                    rr = rr + 1;
                                                }
                                                proof {
                                                    assert(rs.take(rs.len() as int) =~= rs);
                                                    assert(self.cell_pairs(
                                                        idx as int,
                                                        start@,
                                                        end@,
                                                    ) == self.slow_pairs(code, rs, start@, end@));
                                                }
                                            }
                                        },
                                    }
                                },
                            }
                        },
                    }
                    proof {
                        self.lemma_range_pairs_snoc(s0, idx as int, start@, end@);
                    }
                    idx = idx + 1;
                }
            },
        }
        values
    }

    /// Number of cells in the index.
    pub fn num_cells(&self) -> (r: usize)
        ensures
            r == self.codes().len(),
    {
        self.index.len()
    }

    /// The cell codes, in ascending order.
    pub fn cell_codes(&self) -> (r: Vec<u64>)
        ensures
            r@ == self.codes(),
    {
        let mut out: Vec<u64> = Vec::new();
        let mut c: usize = 0;
        while c < self.index.len()
            invariant
                c <= self.index@.len(),
                out@.len() == c,
                forall|k: int| 0 <= k < c ==> out@[k] == (#[trigger] self.index@[k]).code,
            decreases self.index@.len() - c,
        {
            out.push(self.index[c].code);
            c = c + 1;
        }
        proof {
            assert(out@ =~= self.codes());
        }
        out
    }
}

impl<F: PartialEq> SpaceFillingCurve<F> {
    /// The reconstructed keys of the records of one cell whose payload
    /// equals `v` under `F`'s equality specification.
    pub(crate) closed spec fn value_keys_in(self, rs: Seq<SFCRecord<F>>, code: u64, v: F) -> Seq<Seq<u64>>
        decreases rs.len(),
    {
        if rs.len() == 0 {
            Seq::empty()
        } else {
            self.value_keys_in(rs.drop_last(), code, v) + (if rs.last().fields.eq_spec(&v) {
                match self.spec_value_of(code, rs.last().offsets@) {
                    Some(pos) => seq![pos],
                    None => Seq::empty(),
                }
            } else {
                Seq::empty()
            })
        }
    }

    pub(crate) closed spec fn cells_value_keys(self, index: Seq<SFCCell<F>>, v: F) -> Seq<Seq<u64>>
        decreases index.len(),
    {
        if index.len() == 0 {
            Seq::empty()
        } else {
            self.cells_value_keys(index.drop_last(), v) + self.value_keys_in(
                index.last().records@,
                index.last().code,
                v,
            )
        }
    }

    /// The keys `find_by_value` returns: one per record whose payload
    /// equals `v`, in cell order then insertion order.
    pub closed spec fn spec_find_by_value(self, v: F) -> Seq<Seq<u64>> {
        self.cells_value_keys(self.index@, v)
    }

    /// Reverse lookup: a linear scan over every cell and record; returns
    /// the reconstructed key of each record whose payload equals `value`.
    /// The result is pinned down whenever `F`'s equality obeys its
    /// specification.
    pub fn find_by_value(&self, value: &F) -> (results: Vec<Vec<u64>>)
        requires
            self.wf(),
        ensures
            F::obeys_eq_spec() ==> keys_match(results@, self.spec_find_by_value(*value)),
    {
        let mut results: Vec<Vec<u64>> = Vec::new();
        let mut c: usize = 0;
        while c < self.index.len()
            invariant
                self.wf(),
                c <= self.index@.len(),
                F::obeys_eq_spec() ==> keys_match(
                    results@,
                    self.cells_value_keys(self.index@.take(c as int), *value),
                ),
            decreases self.index@.len() - c,
        {
            proof {
                assert(self.index@.take(c as int + 1).drop_last() =~= self.index@.take(c as int));
                assert(self.index@.take(c as int + 1).last() == self.index@[c as int]);
            }
            let ghost base = self.cells_value_keys(self.index@.take(c as int), *value);
            let cell = &self.index[c];
            let code = cell.code;
            let ghost rs = cell.records@;
            let mut rr: usize = 0;
            while rr < cell.records.len()
                invariant
                    self.wf(),
                    (c as int) < self.index@.len(),
                    cell == self.index@[c as int],
                    rs == cell.records@,
                    code == cell.code,
                    rr <= rs.len(),
                    F::obeys_eq_spec() ==> keys_match(
                        results@,
                        self.cells_value_keys(self.index@.take(c as int), *value)
                            + self.value_keys_in(rs.take(rr as int), code, *value),
                    ),
                decreases rs.len() - rr,
            {
                proof {
                    assert(rs.take(rr as int + 1).drop_last() =~= rs.take(rr as int));
                    assert(rs.take(rr as int + 1).last() == rs[rr as int]);
                }
                let record = &cell.records[rr];
                if record.fields.eq(value) {
                    match self.position(code, &record.offsets) {
                        Ok(keyv) => {
                            results.push(keyv);
                        },
                        Err(_) => {},
                    }
                }
                rr = rr + 1;
            }
            proof {
                assert(rs.take(rs.len() as int) =~= rs);
            }
            c = c + 1;
        }
        proof {
            assert(self.index@.take(self.index@.len() as int) =~= self.index@);
        }
        results
    }
}

/// A matched item's record appears among the matching records.
proof fn lemma_matching_contains<F>(
    space: CellSpace,
    morton: MortonEncoder,
    items: Seq<(Vec<u64>, F)>,
    code: u64,
    i: int,
)
    requires
        0 <= i < items.len(),
        item_match(space, morton, items[i], code),
    ensures
        matching_records(space, morton, items, code).contains(
            (pipe_offs(space, items[i].0@), items[i].1),
        ),
    decreases items.len(),
{
    let pair = (pipe_offs(space, items[i].0@), items[i].1);
    if i == items.len() - 1 {
        assert(items.last() == items[i]);
        let m = matching_records(space, morton, items, code);
        assert(m[m.len() - 1] == pair);
    } else {
        lemma_matching_contains(space, morton, items.drop_last(), code, i);
    }
}

/// Every matching record comes from some matched item.
proof fn lemma_matching_origin<F>(
    space: CellSpace,
    morton: MortonEncoder,
    items: Seq<(Vec<u64>, F)>,
    code: u64,
    j: int,
)
    requires
        0 <= j < matching_records(space, morton, items, code).len(),
    ensures
        exists|i: int|
            0 <= i < items.len() && item_match(space, morton, #[trigger] items[i], code)
                && matching_records(space, morton, items, code)[j] == (
            pipe_offs(space, items[i].0@),
            items[i].1,
            ),
    decreases items.len(),
{
    let m = matching_records(space, morton, items, code);
    let mp = matching_records(space, morton, items.drop_last(), code);
    if j < mp.len() {
        lemma_matching_origin(space, morton, items.drop_last(), code, j);
        let i = choose|i: int|
            0 <= i < items.drop_last().len() && item_match(
                space,
                morton,
                #[trigger] items.drop_last()[i],
                code,
            ) && mp[j] == (pipe_offs(space, items.drop_last()[i].0@), items.drop_last()[i].1);
        assert(items[i] == items.drop_last()[i]);
        assert(m[j] == mp[j]);
    } else {
        assert(item_match(space, morton, items.last(), code));
        assert(items.last() == items[items.len() - 1]);
        assert(m[j] == (pipe_offs(space, items[items.len() - 1].0@), items[items.len() - 1].1));
    }
}

/// A record with the queried offsets contributes its payload.
proof fn lemma_selected_contains<F>(rs: Seq<SFCRecord<F>>, offs: Seq<usize>, rr: int)
    requires
        0 <= rr < rs.len(),
        rs[rr].offsets@ == offs,
    ensures
        selected_fields(rs, offs).contains(rs[rr].fields),
    decreases rs.len(),
{
    if rr == rs.len() - 1 {
        let m = selected_fields(rs, offs);
        assert(m[m.len() - 1] == rs[rr].fields);
    } else {
        lemma_selected_contains(rs.drop_last(), offs, rr);
    }
}

/// Every selected payload belongs to a record with the queried offsets.
proof fn lemma_selected_origin<F>(rs: Seq<SFCRecord<F>>, offs: Seq<usize>, j: int)
    requires
        0 <= j < selected_fields(rs, offs).len(),
    ensures
        exists|rr: int|
            0 <= rr < rs.len() && (#[trigger] rs[rr]).offsets@ == offs && rs[rr].fields
                == selected_fields(rs, offs)[j],
    decreases rs.len(),
{
    let m = selected_fields(rs, offs);
    let mp = selected_fields(rs.drop_last(), offs);
    if j < mp.len() {
        lemma_selected_origin(rs.drop_last(), offs, j);
        let rr = choose|rr: int|
            0 <= rr < rs.drop_last().len() && (#[trigger] rs.drop_last()[rr]).offsets@ == offs
                && rs.drop_last()[rr].fields == mp[j];
        assert(rs[rr] == rs.drop_last()[rr]);
        assert(m[j] == mp[j]);
    } else {
        let rr = rs.len() - 1;
        assert(rs[rr] == rs.last());
        assert(m[j] == rs[rr].fields);
    }
}

impl<F> SpaceFillingCurve<F> {
    /// `key` has exactly the configured dimensions and every coordinate
    /// lies on the quantization grid.
    pub closed spec fn on_grid(self, key: Seq<u64>) -> bool {
        self.space.quantized(key)
    }

    /// A key on the grid always quantizes and encodes: the quantizer
    /// keeps every cell identifier below the encoder's bit budget.
    pub proof fn lemma_on_grid_good(self, key: Seq<u64>)
        requires
            self.wf(),
            self.on_grid(key),
        ensures
            self.key_good(key),
    {
        self.lemma_reconstruct_key(key);
    }

    /// The cell identifiers of `key` inside its cell.
    pub closed spec fn cells_of(self, key: Seq<u64>) -> Seq<u64> {
        match self.space.spec_key(key) {
            Some(q) => q.0,
            None => Seq::empty(),
        }
    }

    /// Round trip: quantizing a grid key, interleaving its cells,
    /// decoding the code and indexing the dictionaries reproduces the
    /// key exactly.
    pub proof fn lemma_reconstruct_key(self, key: Seq<u64>)
        requires
            self.wf(),
            self.on_grid(key),
        ensures
            self.key_good(key),
            self.spec_value_of(self.code_of(key), self.offs_of(key)) == Some(key),
    {
        self.lemma_reconstruct_parts(key);
    }

    proof fn lemma_reconstruct_parts(self, key: Seq<u64>)
        requires
            self.wf(),
            self.on_grid(key),
        ensures
            self.key_good(key),
            self.spec_value_of(self.code_of(key), self.offs_of(key)) == Some(key),
            self.space.spec_key(key) == Some((self.cells_of(key), self.offs_of(key))),
            self.morton.spec_encode(self.cells_of(key)) == Some(self.code_of(key)),
            morton_dec(
                self.code_of(key) as nat,
                self.dimensions as nat,
                self.morton.cell_bits as nat,
            ) == self.cells_of(key),
            self.space.spec_value(self.cells_of(key), self.offs_of(key)) == Some(key),
    {
        let dims = self.dimensions as int;
        let bits = self.space.cell_bits as nat;
        let cells = Seq::new(
            self.dimensions as nat,
            |d: int| (idx_of(self.space.dict(d), key[d]) / self.space.stride(d)) as u64,
        );
        let offs = Seq::new(
            self.dimensions as nat,
            |d: int| (idx_of(self.space.dict(d), key[d]) % self.space.stride(d)) as usize,
        );
        assert(self.space.spec_key(key) == Some((cells, offs)));
        assert forall|d: int| 0 <= d < dims implies {
            &&& 0 <= #[trigger] idx_of(self.space.dict(d), key[d]) < self.space.dict(d).len()
            &&& self.space.dict(d)[idx_of(self.space.dict(d), key[d])] == key[d]
        } by {
            assert(self.space.dict(d).contains(key[d]));
        }
        assert(bits <= 64) by (nonlinear_arith)
            requires
                1 <= self.dimensions,
                self.dimensions * self.space.cell_bits <= 64,
                bits == self.space.cell_bits,
        {
        }
        assert forall|d: int| 0 <= d < dims implies (cells[d] as nat) < pow2(bits) && cells[d]
            * self.space.stride(d) + offs[d] == idx_of(self.space.dict(d), key[d]) by {
            let s = self.space.dict(d);
            let st = self.space.stride(d);
            let i = idx_of(s, key[d]);
            assert(0 <= i < s.len());
            assert(st >= 1);
            assert(s.len() <= st * pow2(bits));
            lemma_pow2_pos(bits);
            lemma_multiply_divide_lt(i, st, pow2(bits) as int);
            assert(i / st < pow2(bits));
            lemma_pow2_le(bits, 64);
            assert(pow2(64) == 0x10000000000000000) by {
                lemma2_to64_rest();
            }
            assert(cells[d] == (i / st) as u64);
            assert(cells[d] as int == i / st);
            lemma_fundamental_div_mod(i, st);
            assert(i == st * (i / st) + i % st);
            assert(st * (i / st) == (i / st) * st) by (nonlinear_arith);
            assert(0 <= i % st < st);
            assert(offs[d] == (i % st) as usize);
            assert(offs[d] as int == i % st);
            assert(cells[d] * st + offs[d] == i);
        }
        assert(self.morton.valid_cells(cells));
        lemma_enc_from_bound(cells, 0, bits);
        assert(cells.len() * bits <= 64) by (nonlinear_arith)
            requires
                cells.len() == self.dimensions,
                self.dimensions * self.space.cell_bits <= 64,
                bits == self.space.cell_bits,
        {
        }
        lemma_pow2_le((cells.len() * (bits - 0)) as nat, 64);
        assert(pow2(64) == 0x10000000000000000) by {
            lemma2_to64_rest();
        }
        assert(self.morton.spec_encode(cells) == Some(morton_enc(cells, bits) as u64));
        assert(self.key_good(key));
        let code = self.code_of(key);
        assert(code as nat == morton_enc(cells, bits));
        lemma_morton_roundtrip(cells, bits);
        assert(morton_dec(code as nat, self.dimensions as nat, self.morton.cell_bits as nat)
            == cells);
        assert forall|d: int| 0 <= d < dims implies cells[d] * self.space.stride(d) + offs[d] < (
        #[trigger] self.space.dict(d)).len() by {
            assert(0 <= idx_of(self.space.dict(d), key[d]) < self.space.dict(d).len());
        }
        assert(self.space.spec_value(cells, offs) == Some(
            Seq::new(
                self.dimensions as nat,
                |d: int| self.space.dict(d)[cells[d] * self.space.stride(d) + offs[d]],
            ),
        ));
        assert(Seq::new(
            self.dimensions as nat,
            |d: int| self.space.dict(d)[cells[d] * self.space.stride(d) + offs[d]],
        ) =~= key);
    }

    /// Every item that was successfully indexed is found again: `find` on
    /// the item's key includes that item's payload.
    pub proof fn lemma_find_includes_indexed(self, items: Seq<(Vec<u64>, F)>, i: int)
        requires
            self.wf(),
            self.built_from(items),
            0 <= i < items.len(),
            self.key_good(items[i].0@),
        ensures
            self.spec_find(items[i].0@).contains(items[i].1),
    {
        let key = items[i].0@;
        let code = self.code_of(key);
        assert(self.has_cell(code));
        let c = self.cell_idx(code);
        assert(0 <= c < self.index@.len() && self.index@[c].code == code);
        assert(item_match(self.space, self.morton, items[i], code));
        lemma_matching_contains(self.space, self.morton, items, code, i);
        let m = matching_records(self.space, self.morton, items, code);
        let pair = (pipe_offs(self.space, key), items[i].1);
        let j = choose|j: int| 0 <= j < m.len() && m[j] == pair;
        let rs = self.index@[c].records@;
        assert(rec_views(rs) == m);
        assert(rec_views(rs)[j] == (rs[j].offsets@, rs[j].fields));
        assert(rs[j].offsets@ == self.offs_of(key));
        lemma_selected_contains(rs, self.offs_of(key), j);
        assert(rs[j].fields == items[i].1);
    }
}

impl<F> SpaceFillingCurve<F> {
    /// Every record of a built cell stems from a matching item, whose
    /// key it reconstructs to.
    proof fn lemma_cell_record_origin(self, items: Seq<(Vec<u64>, F)>, c: int, rr: int)
        requires
            self.wf(),
            self.built_from(items),
            0 <= c < self.index@.len(),
            0 <= rr < self.index@[c].records@.len(),
        ensures
            exists|i: int|
                {
                    &&& 0 <= i < items.len()
                    &&& item_match(self.space, self.morton, #[trigger] items[i], self.index@[c].code)
                    &&& self.index@[c].records@[rr].offsets@ == pipe_offs(self.space, items[i].0@)
                    &&& self.index@[c].records@[rr].fields == items[i].1
                    &&& self.spec_value_of(
                        self.index@[c].code,
                        self.index@[c].records@[rr].offsets@,
                    ) == Some(items[i].0@)
                },
    {
        let code = self.index@[c].code;
        let rs = self.index@[c].records@;
        assert(rec_views(rs) == matching_records(self.space, self.morton, items, code));
        assert(rec_views(rs)[rr] == (rs[rr].offsets@, rs[rr].fields));
        lemma_matching_origin(self.space, self.morton, items, code, rr);
        let i = choose|i: int|
            0 <= i < items.len() && item_match(self.space, self.morton, #[trigger] items[i], code)
                && matching_records(self.space, self.morton, items, code)[rr] == (
            pipe_offs(self.space, items[i].0@),
            items[i].1,
            );
        assert(self.space.spec_key(items[i].0@) is Some);
        assert(self.on_grid(items[i].0@));
        self.lemma_reconstruct_parts(items[i].0@);
        assert(self.code_of(items[i].0@) == code);
        assert(rs[rr].offsets@ == self.offs_of(items[i].0@));
        assert(self.spec_value_of(code, rs[rr].offsets@) == Some(items[i].0@));
    }

    /// A reconstructable record appears among a cell's fast-path pairs.
    proof fn lemma_fast_contains(self, code: u64, rs: Seq<SFCRecord<F>>, rr: int, pos: Seq<u64>)
        requires
            0 <= rr < rs.len(),
            self.spec_value_of(code, rs[rr].offsets@) == Some(pos),
        ensures
            self.fast_pairs(code, rs).contains((pos, rs[rr].fields)),
        decreases rs.len(),
    {
        if rr == rs.len() - 1 {
            let m = self.fast_pairs(code, rs);
            assert(rs.last() == rs[rr]);
            assert(m[m.len() - 1] == (pos, rs[rr].fields));
        } else {
            self.lemma_fast_contains(code, rs.drop_last(), rr, pos);
        }
    }

    /// A reconstructable record inside the box appears among a cell's
    /// per-record-tested pairs.
    proof fn lemma_slow_contains(
        self,
        code: u64,
        rs: Seq<SFCRecord<F>>,
        rr: int,
        pos: Seq<u64>,
        start: Seq<u64>,
        end: Seq<u64>,
    )
        requires
            0 <= rr < rs.len(),
            self.spec_value_of(code, rs[rr].offsets@) == Some(pos),
            in_box_spec(start, end, pos, self.dimensions as int),
        ensures
            self.slow_pairs(code, rs, start, end).contains((pos, rs[rr].fields)),
        decreases rs.len(),
    {
        if rr == rs.len() - 1 {
            let m = self.slow_pairs(code, rs, start, end);
            assert(rs.last() == rs[rr]);
            assert(m[m.len() - 1] == (pos, rs[rr].fields));
        } else {
            self.lemma_slow_contains(code, rs.drop_last(), rr, pos, start, end);
        }
    }

    /// For a grid point `p` with a cell of its own, the degenerate range
    /// query `[p, p]` scans exactly `p`'s cell, and every payload the
    /// exact lookup returns reappears in it, paired with `p`. (The
    /// converse does not hold in general: the cell-level fast path may
    /// also accept records of the same cell that lie outside the box.)
    pub proof fn lemma_point_range_covers_find(self, items: Seq<(Vec<u64>, F)>, p: Seq<u64>)
        requires
            self.wf(),
            self.built_from(items),
            self.on_grid(p),
            self.has_cell(self.code_of(p)),
        ensures
            forall|j: int|
                0 <= j < self.spec_find(p).len() ==> self.spec_find_range(p, p).contains(
                    (p, #[trigger] self.spec_find(p)[j]),
                ),
    {
        let dims = self.dimensions as int;
        let code = self.code_of(p);
        let offs = self.offs_of(p);
        let c = cell_idx_in(self.index@, code);
        let rs = self.index@[c].records@;
        self.lemma_point_cell_scan(items, p);
        self.lemma_reconstruct_parts(p);
        assert forall|j: int| 0 <= j < self.spec_find(p).len() implies self.spec_find_range(
            p,
            p,
        ).contains((p, #[trigger] self.spec_find(p)[j])) by {
            assert(self.spec_find(p) == selected_fields(rs, offs));
            lemma_selected_origin(rs, offs, j);
            let rr = choose|rr: int|
                0 <= rr < rs.len() && (#[trigger] rs[rr]).offsets@ == offs && rs[rr].fields
                    == selected_fields(rs, offs)[j];
            assert(self.spec_value_of(code, rs[rr].offsets@) == Some(p));
            if self.cell_pairs(c, p, p) == self.fast_pairs(code, rs) {
                self.lemma_fast_contains(code, rs, rr, p);
            } else {
                assert(self.cell_pairs(c, p, p) == self.slow_pairs(code, rs, p, p));
                assert(in_box_spec(p, p, p, dims));
                self.lemma_slow_contains(code, rs, rr, p, p, p);
            }
        }
    }

    /// The degenerate range query `[p, p]` on a grid point with a cell
    /// of its own scans exactly that cell.
    proof fn lemma_point_cell_scan(self, items: Seq<(Vec<u64>, F)>, p: Seq<u64>)
        requires
            self.wf(),
            self.built_from(items),
            self.on_grid(p),
            self.has_cell(self.code_of(p)),
        ensures
            0 <= cell_idx_in(self.index@, self.code_of(p)) < self.index@.len(),
            self.index@[cell_idx_in(self.index@, self.code_of(p))].code == self.code_of(p),
            self.spec_find_range(p, p) == self.cell_pairs(
                cell_idx_in(self.index@, self.code_of(p)),
                p,
                p,
            ),
            self.cell_pairs(cell_idx_in(self.index@, self.code_of(p)), p, p) == self.fast_pairs(
                self.code_of(p),
                self.index@[cell_idx_in(self.index@, self.code_of(p))].records@,
            ) || self.cell_pairs(cell_idx_in(self.index@, self.code_of(p)), p, p)
                == self.slow_pairs(
                self.code_of(p),
                self.index@[cell_idx_in(self.index@, self.code_of(p))].records@,
                p,
                p,
            ),
    {
        let dims = self.dimensions as int;
        self.lemma_reconstruct_parts(p);
        let code = self.code_of(p);
        let offs = self.offs_of(p);
        let cells = self.cells_of(p);
        // rounding a grid point up or down is the exact quantization
        assert forall|d: int| 0 <= d < dims implies is_down_in(
            #[trigger] self.space.dict(d),
            p[d],
            idx_of(self.space.dict(d), p[d]),
        ) && is_up_in(self.space.dict(d), p[d], idx_of(self.space.dict(d), p[d])) by {
            assert(self.space.dict(d).contains(p[d]));
            let i = idx_of(self.space.dict(d), p[d]);
            assert(0 <= i < self.space.dict(d).len() && self.space.dict(d)[i] == p[d]);
        }
        assert forall|d: int| 0 <= d < dims implies down_in(#[trigger] self.space.dict(d), p[d])
            == idx_of(self.space.dict(d), p[d]) && up_in(self.space.dict(d), p[d]) == idx_of(
            self.space.dict(d),
            p[d],
        ) by {
            lemma_down_in(self.space.dict(d), p[d], idx_of(self.space.dict(d), p[d]));
            lemma_up_in(self.space.dict(d), p[d], idx_of(self.space.dict(d), p[d]));
        }
        assert(self.space.spec_key_down(p) is Some && self.space.spec_key_down(p)->Some_0.0
            =~= cells && self.space.spec_key_down(p)->Some_0.1 =~= offs);
        assert(self.space.spec_key_up(p) is Some && self.space.spec_key_up(p)->Some_0.0 =~= cells
            && self.space.spec_key_up(p)->Some_0.1 =~= offs);
        assert(self.space.spec_key_down(p) == Some((cells, offs)));
        assert(self.space.spec_key_up(p) == Some((cells, offs)));
        let c = cell_idx_in(self.index@, code);
        assert(0 <= c < self.index@.len() && self.index@[c].code == code);
        assert(self.spec_limits(p, p) == Some((c, c + 1)));
        assert(self.spec_find_range(p, p) == self.range_pairs(c, c + 1, p, p));
        assert(self.range_pairs(c + 1, c + 1, p, p) == Seq::<(Seq<u64>, F)>::empty());
        assert(self.range_pairs(c, c + 1, p, p) =~= self.cell_pairs(c, p, p));
        // the cell's first record reconstructs, the grid extreme exists
        let rs = self.index@[c].records@;
        self.lemma_cell_record_origin(items, c, 0);
        assert(self.spec_value_of(code, rs[0].offsets@) is Some);
        assert forall|d: int| 0 <= d < dims implies (#[trigger] self.space.dict(d)).len()
            >= 1 by {
            assert(self.space.dict(d).contains(p[d]));
            assert(0 <= idx_of(self.space.dict(d), p[d]) < self.space.dict(d).len());
        }
        assert(self.space.spec_last() is Some);
        let lq = self.space.spec_last()->Some_0;
        assert forall|d: int| 0 <= d < dims implies lq.0[d] * self.space.stride(d) + lq.1[d] < (
        #[trigger] self.space.dict(d)).len() by {
            let ln = self.space.dict(d).len() as int;
            let st = self.space.stride(d);
            lemma_fundamental_div_mod(ln - 1, st);
            assert(st * ((ln - 1) / st) == ((ln - 1) / st) * st) by (nonlinear_arith);
            assert(lq.0[d] == ((ln - 1) / st) as u64);
            assert((ln - 1) / st >= 0);
            assert(st >= 1);
            assert(ln - 1 < st * ln) by (nonlinear_arith)
                requires
                    st >= 1,
                    ln >= 1,
            {
            }
            lemma_multiply_divide_lt(ln - 1, st, ln);
            assert(self.space.dicts@[d].len() == self.space.dict(d).len());
            assert(ln <= usize::MAX);
            assert((ln - 1) / st < 0x10000000000000000);
            assert(lq.0[d] as int == (ln - 1) / st);
            assert(lq.1[d] as int == (ln - 1) % st);
        }
        assert(self.space.spec_value(lq.0, lq.1) is Some);
        assert(self.cell_pairs(c, p, p) == self.fast_pairs(code, rs) || self.cell_pairs(c, p, p)
            == self.slow_pairs(code, rs, p, p));
    }

    /// With every stride equal to one — the resolution covers each
    /// distinct coordinate — each cell holds a single grid point, and the
    /// degenerate range query agrees with the exact lookup entirely:
    /// `find_range(p, p)` returns exactly `find(p)`'s payloads, in the
    /// same order, each paired with `p`.
    pub proof fn lemma_point_range_matches_find(self, items: Seq<(Vec<u64>, F)>, p: Seq<u64>)
        requires
            self.wf(),
            self.built_from(items),
            self.on_grid(p),
            self.has_cell(self.code_of(p)),
            self.unit_strides(),
        ensures
            self.spec_find_range(p, p).len() == self.spec_find(p).len(),
            forall|j: int|
                0 <= j < self.spec_find(p).len() ==> self.spec_find_range(p, p)[j] == (
                p,
                #[trigger] self.spec_find(p)[j],
                ),
    {
        let dims = self.dimensions as int;
        let code = self.code_of(p);
        let offs = self.offs_of(p);
        let c = cell_idx_in(self.index@, code);
        let rs = self.index@[c].records@;
        self.lemma_point_cell_scan(items, p);
        self.lemma_reconstruct_parts(p);
        assert forall|rr: int| 0 <= rr < rs.len() implies (#[trigger] rs[rr]).offsets@ == offs
            && self.spec_value_of(code, rs[rr].offsets@) == Some(p) by {
            self.lemma_cell_record_origin(items, c, rr);
            let i = choose|i: int|
                {
                    &&& 0 <= i < items.len()
                    &&& item_match(self.space, self.morton, #[trigger] items[i], code)
                    &&& rs[rr].offsets@ == pipe_offs(self.space, items[i].0@)
                    &&& rs[rr].fields == items[i].1
                    &&& self.spec_value_of(code, rs[rr].offsets@) == Some(items[i].0@)
                };
            let key = items[i].0@;
            assert(self.space.spec_key(key) is Some);
            assert(self.on_grid(key));
            self.lemma_reconstruct_parts(key);
            assert(self.code_of(key) == code);
            assert(self.cells_of(key) == morton_dec(
                code as nat,
                self.dimensions as nat,
                self.morton.cell_bits as nat,
            ));
            assert(self.cells_of(key) == self.cells_of(p));
            assert forall|d: int| 0 <= d < dims implies key[d] == #[trigger] p[d] by {
                let s = self.space.dict(d);
                let ik = idx_of(s, key[d]);
                let ip = idx_of(s, p[d]);
                assert(s.contains(key[d]) && s.contains(p[d]));
                assert(0 <= ik < s.len() && s[ik] == key[d]);
                assert(0 <= ip < s.len() && s[ip] == p[d]);
                assert(self.space.stride(d) == 1);
                assert(self.cells_of(key)[d] == (ik / 1) as u64);
                assert(self.cells_of(p)[d] == (ip / 1) as u64);
                assert(ik / 1 == ik && ip / 1 == ip);
                assert(self.space.dicts@[d].len() == s.len());
                assert(ik < 0x10000000000000000 && ip < 0x10000000000000000);
                assert(ik == ip);
            }
            assert(key =~= p);
        }
        assert(in_box_spec(p, p, p, dims));
        lemma_selected_all(rs, offs);
        assert(self.spec_find(p) == selected_fields(rs, offs));
        if self.cell_pairs(c, p, p) == self.fast_pairs(code, rs) {
            self.lemma_fast_pairs_all(code, rs, p);
        } else {
            assert(self.cell_pairs(c, p, p) == self.slow_pairs(code, rs, p, p));
            self.lemma_slow_pairs_all(code, rs, p, p, p);
        }
        let fr = self.spec_find_range(p, p);
        assert(fr == self.cell_pairs(c, p, p));
        assert(fr.len() == rs.len());
        assert forall|j: int|
            0 <= j < self.spec_find(p).len() implies fr[j] == (
            p,
            #[trigger] self.spec_find(p)[j],
        ) by {
            assert(fr[j] == (p, rs[j].fields));
            assert(self.spec_find(p)[j] == rs[j].fields);
        }
    }

    /// Every cell holds a single grid point: each dictionary position is
    /// its own cell, and all offsets are zero.
    pub closed spec fn unit_strides(self) -> bool {
        forall|d: int| 0 <= d < self.dimensions ==> #[trigger] self.space.stride(d) == 1
    }

    /// Shape of the fast path when every record reconstructs to `p`.
    proof fn lemma_fast_pairs_all(self, code: u64, rs: Seq<SFCRecord<F>>, p: Seq<u64>)
        requires
            forall|rr: int|
                0 <= rr < rs.len() ==> self.spec_value_of(code, (#[trigger] rs[rr]).offsets@)
                    == Some(p),
        ensures
            self.fast_pairs(code, rs).len() == rs.len(),
            forall|j: int|
                0 <= j < rs.len() ==> self.fast_pairs(code, rs)[j] == (
                p,
                (#[trigger] rs[j]).fields,
                ),
        decreases rs.len(),
    {
        if rs.len() > 0 {
            assert forall|rr: int| 0 <= rr < rs.drop_last().len() implies self.spec_value_of(
                code,
                (#[trigger] rs.drop_last()[rr]).offsets@,
            ) == Some(p) by {
                assert(rs.drop_last()[rr] == rs[rr]);
            }
            self.lemma_fast_pairs_all(code, rs.drop_last(), p);
            assert(rs.last() == rs[rs.len() - 1]);
            assert forall|jj: int| 0 <= jj < rs.len() - 1 implies rs.drop_last()[jj] == rs[jj] by {}
            let pref = self.fast_pairs(code, rs.drop_last());
            assert(self.fast_pairs(code, rs) == pref + seq![(p, rs[rs.len() - 1].fields)]);
            assert forall|j: int|
                0 <= j < rs.len() implies self.fast_pairs(code, rs)[j] == (
                p,
                (#[trigger] rs[j]).fields,
            ) by {
                if j < rs.len() - 1 {
                    assert(self.fast_pairs(code, rs)[j] == pref[j]);
                    assert(pref[j] == (p, rs.drop_last()[j].fields));
                }
            }
        }
    }

    /// Shape of the per-record-tested path when every record
    /// reconstructs to `p` and `p` lies in the box.
    proof fn lemma_slow_pairs_all(
        self,
        code: u64,
        rs: Seq<SFCRecord<F>>,
        p: Seq<u64>,
        start: Seq<u64>,
        end: Seq<u64>,
    )
        requires
            forall|rr: int|
                0 <= rr < rs.len() ==> self.spec_value_of(code, (#[trigger] rs[rr]).offsets@)
                    == Some(p),
            in_box_spec(start, end, p, self.dimensions as int),
        ensures
            self.slow_pairs(code, rs, start, end).len() == rs.len(),
            forall|j: int|
                0 <= j < rs.len() ==> self.slow_pairs(code, rs, start, end)[j] == (
                p,
                (#[trigger] rs[j]).fields,
                ),
        decreases rs.len(),
    {
        if rs.len() > 0 {
            assert forall|rr: int| 0 <= rr < rs.drop_last().len() implies self.spec_value_of(
                code,
                (#[trigger] rs.drop_last()[rr]).offsets@,
            ) == Some(p) by {
                assert(rs.drop_last()[rr] == rs[rr]);
            }
            self.lemma_slow_pairs_all(code, rs.drop_last(), p, start, end);
            assert(rs.last() == rs[rs.len() - 1]);
            assert forall|jj: int| 0 <= jj < rs.len() - 1 implies rs.drop_last()[jj] == rs[jj] by {}
            let pref = self.slow_pairs(code, rs.drop_last(), start, end);
            assert(self.slow_pairs(code, rs, start, end) == pref + seq![
                (p, rs[rs.len() - 1].fields),
            ]);
            assert forall|j: int|
                0 <= j < rs.len() implies self.slow_pairs(code, rs, start, end)[j] == (
                p,
                (#[trigger] rs[j]).fields,
            ) by {
                if j < rs.len() - 1 {
                    assert(self.slow_pairs(code, rs, start, end)[j] == pref[j]);
                    assert(pref[j] == (p, rs.drop_last()[j].fields));
                }
            }
        }
    }
}

/// Shape of the exact-match selection when every record carries the
/// queried offsets.
proof fn lemma_selected_all<F>(rs: Seq<SFCRecord<F>>, offs: Seq<usize>)
    requires
        forall|rr: int| 0 <= rr < rs.len() ==> (#[trigger] rs[rr]).offsets@ == offs,
    ensures
        selected_fields(rs, offs).len() == rs.len(),
        forall|j: int|
            0 <= j < rs.len() ==> selected_fields(rs, offs)[j] == (#[trigger] rs[j]).fields,
    decreases rs.len(),
{
    if rs.len() > 0 {
        assert forall|rr: int|
            0 <= rr < rs.drop_last().len() implies (#[trigger] rs.drop_last()[rr]).offsets@
            == offs by {
            assert(rs.drop_last()[rr] == rs[rr]);
        }
        lemma_selected_all(rs.drop_last(), offs);
        assert(rs.last() == rs[rs.len() - 1]);
        assert forall|jj: int| 0 <= jj < rs.len() - 1 implies rs.drop_last()[jj] == rs[jj] by {}
        let pref = selected_fields(rs.drop_last(), offs);
        assert(selected_fields(rs, offs) == pref + seq![rs[rs.len() - 1].fields]);
        assert forall|j: int|
            0 <= j < rs.len() implies selected_fields(rs, offs)[j] == (#[trigger] rs[j]).fields by {
            if j < rs.len() - 1 {
                assert(selected_fields(rs, offs)[j] == pref[j]);
                assert(pref[j] == rs.drop_last()[j].fields);
            }
        }
    }
}

impl<F: PartialEq> SpaceFillingCurve<F> {
    /// A record with a matching payload and a reconstructable position
    /// contributes its key to the cell's reverse-lookup results.
    proof fn lemma_value_keys_contains(
        self,
        rs: Seq<SFCRecord<F>>,
        code: u64,
        v: F,
        rr: int,
        pos: Seq<u64>,
    )
        requires
            0 <= rr < rs.len(),
            rs[rr].fields.eq_spec(&v),
            self.spec_value_of(code, rs[rr].offsets@) == Some(pos),
        ensures
            self.value_keys_in(rs, code, v).contains(pos),
        decreases rs.len(),
    {
        if rr == rs.len() - 1 {
            let m = self.value_keys_in(rs, code, v);
            assert(rs.last() == rs[rr]);
            assert(m[m.len() - 1] == pos);
        } else {
            self.lemma_value_keys_contains(rs.drop_last(), code, v, rr, pos);
        }
    }

    /// Whatever one cell contributes to the reverse lookup appears in the
    /// whole scan's results.
    proof fn lemma_cells_value_keys_lift(self, index: Seq<SFCCell<F>>, v: F, c: int, pos: Seq<u64>)
        requires
            0 <= c < index.len(),
            self.value_keys_in(index[c].records@, index[c].code, v).contains(pos),
        ensures
            self.cells_value_keys(index, v).contains(pos),
        decreases index.len(),
    {
        if c == index.len() - 1 {
            assert(index.last() == index[c]);
        } else {
            assert(index.drop_last()[c] == index[c]);
            self.lemma_cells_value_keys_lift(index.drop_last(), v, c, pos);
        }
    }

    /// Every reverse-lookup result is the reconstruction of some record
    /// with a matching payload.
    proof fn lemma_cells_value_keys_origin(self, index: Seq<SFCCell<F>>, v: F, j: int)
        requires
            0 <= j < self.cells_value_keys(index, v).len(),
        ensures
            exists|c: int, rr: int|
                {
                    &&& 0 <= c < index.len()
                    &&& 0 <= rr < index[c].records@.len()
                    &&& (#[trigger] index[c].records@[rr]).fields.eq_spec(&v)
                    &&& self.spec_value_of(index[c].code, index[c].records@[rr].offsets@) == Some(
                        self.cells_value_keys(index, v)[j],
                    )
                },
        decreases index.len(),
    {
        let m = self.cells_value_keys(index, v);
        let mp = self.cells_value_keys(index.drop_last(), v);
        if j < mp.len() {
            self.lemma_cells_value_keys_origin(index.drop_last(), v, j);
            let (c, rr) = choose|c: int, rr: int|
                {
                    &&& 0 <= c < index.drop_last().len()
                    &&& 0 <= rr < index.drop_last()[c].records@.len()
                    &&& (#[trigger] index.drop_last()[c].records@[rr]).fields.eq_spec(&v)
                    &&& self.spec_value_of(
                        index.drop_last()[c].code,
                        index.drop_last()[c].records@[rr].offsets@,
                    ) == Some(mp[j])
                };
            assert(index[c] == index.drop_last()[c]);
            assert(m[j] == mp[j]);
        } else {
            let c = index.len() - 1;
            assert(index.last() == index[c]);
            self.lemma_value_keys_origin(index[c].records@, index[c].code, v, j - mp.len());
        }
    }

    /// Every key one cell contributes comes from one of its records with
    /// a matching payload.
    proof fn lemma_value_keys_origin(self, rs: Seq<SFCRecord<F>>, code: u64, v: F, j: int)
        requires
            0 <= j < self.value_keys_in(rs, code, v).len(),
        ensures
            exists|rr: int|
                {
                    &&& 0 <= rr < rs.len()
                    &&& (#[trigger] rs[rr]).fields.eq_spec(&v)
                    &&& self.spec_value_of(code, rs[rr].offsets@) == Some(
                        self.value_keys_in(rs, code, v)[j],
                    )
                },
        decreases rs.len(),
    {
        let m = self.value_keys_in(rs, code, v);
        let mp = self.value_keys_in(rs.drop_last(), code, v);
        if j < mp.len() {
            self.lemma_value_keys_origin(rs.drop_last(), code, v, j);
            let rr = choose|rr: int|
                {
                    &&& 0 <= rr < rs.drop_last().len()
                    &&& (#[trigger] rs.drop_last()[rr]).fields.eq_spec(&v)
                    &&& self.spec_value_of(code, rs.drop_last()[rr].offsets@) == Some(mp[j])
                };
            assert(rs[rr] == rs.drop_last()[rr]);
            assert(m[j] == mp[j]);
        } else {
            let rr = rs.len() - 1;
            assert(rs.last() == rs[rr]);
            assert(m[j] == self.value_keys_in(rs, code, v)[j]);
        }
    }

    /// Reverse lookup is exact, set-wise: a key is returned for `v` if
    /// and only if some successfully indexed item carries that key and a
    /// payload equal to `v` under `F`'s equality specification.
    pub proof fn lemma_find_by_value_exact(self, items: Seq<(Vec<u64>, F)>, v: F)
        requires
            self.wf(),
            self.built_from(items),
        ensures
            forall|key: Seq<u64>|
                #[trigger] self.spec_find_by_value(v).contains(key) <==> exists|i: int|
                    0 <= i < items.len() && self.key_good((#[trigger] items[i]).0@)
                        && items[i].1.eq_spec(&v) && items[i].0@ == key,
    {
        assert forall|key: Seq<u64>| #[trigger] self.spec_find_by_value(v).contains(key) implies (
        exists|i: int|
            0 <= i < items.len() && self.key_good((#[trigger] items[i]).0@) && items[i].1.eq_spec(
                &v,
            ) && items[i].0@ == key) by {
            let j = choose|j: int|
                0 <= j < self.cells_value_keys(self.index@, v).len() && self.cells_value_keys(
                    self.index@,
                    v,
                )[j] == key;
            self.lemma_cells_value_keys_origin(self.index@, v, j);
            let (c, rr) = choose|c: int, rr: int|
                {
                    &&& 0 <= c < self.index@.len()
                    &&& 0 <= rr < self.index@[c].records@.len()
                    &&& (#[trigger] self.index@[c].records@[rr]).fields.eq_spec(&v)
                    &&& self.spec_value_of(
                        self.index@[c].code,
                        self.index@[c].records@[rr].offsets@,
                    ) == Some(key)
                };
            self.lemma_cell_record_origin(items, c, rr);
            let i = choose|i: int|
                {
                    &&& 0 <= i < items.len()
                    &&& item_match(self.space, self.morton, #[trigger] items[i], self.index@[c].code)
                    &&& self.index@[c].records@[rr].offsets@ == pipe_offs(self.space, items[i].0@)
                    &&& self.index@[c].records@[rr].fields == items[i].1
                    &&& self.spec_value_of(
                        self.index@[c].code,
                        self.index@[c].records@[rr].offsets@,
                    ) == Some(items[i].0@)
                };
            assert(items[i].0@ == key);
            assert(items[i].1.eq_spec(&v));
        }
        assert forall|key: Seq<u64>|
            (exists|i: int|
                0 <= i < items.len() && self.key_good((#[trigger] items[i]).0@)
                    && items[i].1.eq_spec(&v) && items[i].0@
                    == key) implies #[trigger] self.spec_find_by_value(v).contains(key) by {
            let i = choose|i: int|
                0 <= i < items.len() && self.key_good((#[trigger] items[i]).0@)
                    && items[i].1.eq_spec(&v) && items[i].0@ == key;
            let code = self.code_of(items[i].0@);
            assert(self.has_cell(code));
            let c = self.cell_idx(code);
            assert(0 <= c < self.index@.len() && self.index@[c].code == code);
            assert(item_match(self.space, self.morton, items[i], code));
            lemma_matching_contains(self.space, self.morton, items, code, i);
            let rs = self.index@[c].records@;
            let m = matching_records(self.space, self.morton, items, code);
            let pair = (pipe_offs(self.space, items[i].0@), items[i].1);
            let j = choose|j: int| 0 <= j < m.len() && m[j] == pair;
            assert(rec_views(rs) == m);
            assert(rec_views(rs)[j] == (rs[j].offsets@, rs[j].fields));
            self.lemma_reconstruct_parts(items[i].0@);
            assert(self.spec_value_of(code, rs[j].offsets@) == Some(key));
            self.lemma_value_keys_contains(rs, code, v, j, key);
            self.lemma_cells_value_keys_lift(self.index@, v, c, key);
        }
    }
}

} // verus!
