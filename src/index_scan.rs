//! The index scan executor: checks the schema, walks the key ranges over a
//! storage source, decodes each pair and hands out batches of columns.

use vstd::prelude::*;
use crate::column::{bytes_seq, ColumnView, LazyBatchColumn, LazyBatchColumnVec};
use crate::datum::{copy_range, split_datums};
use crate::error::Error;
use crate::index_value::{
    cells_view, decode_pair, handle_count, index_count, index_count_exec, layout_wf,
    process_kv_pair, row_cells, DecodedHandle, DecodedRow, HandleMode, HandleView, IndexLayout,
    RowOut,
};
use crate::schema::ColumnInfo;
use crate::storage::{key_lt, lower_bound, sorted, FixtureStorage, lemma_lower_bound_partition, lemma_lower_bound_range};

verus! {

/// A half-open key range `[start, end)`.
pub struct KeyRange {
    pub start: Vec<u8>,
    pub end: Vec<u8>,
}

/// The keys of a range.
pub struct RangeView {
    pub start: Seq<u8>,
    pub end: Seq<u8>,
}

impl View for KeyRange {
    type V = RangeView;

    open spec fn view(&self) -> RangeView {
        RangeView { start: self.start@, end: self.end@ }
    }
}

impl KeyRange {
    pub fn new(start: Vec<u8>, end: Vec<u8>) -> (r: KeyRange)
        ensures
            r@ == (RangeView { start: start@, end: end@ }),
    {
        KeyRange { start, end }
    }
}

/// The views of a vector of ranges.
pub open spec fn ranges_view(v: Seq<KeyRange>) -> Seq<RangeView> {
    Seq::new(v.len(), |k: int| v[k]@)
}

/// A range that holds exactly one key: its end is its start followed by a
/// zero byte.
pub open spec fn is_point_range(r: RangeView) -> bool {
    r.end == r.start.push(0)
}

/// First position at or after `i` holding key `k`.
pub open spec fn find_key(s: Seq<(Seq<u8>, Seq<u8>)>, k: Seq<u8>, i: nat) -> Option<nat>
    decreases s.len() - i,
{
    if i >= s.len() {
        None
    } else if s[i as int].0 == k {
        Some(i)
    } else {
        find_key(s, k, i + 1)
    }
}

/// Positions of the pairs that one range yields, in scan order: a direct
/// lookup for a point range when point lookups are allowed, else the pairs
/// from the first key not below the start to the first key not below the
/// end, walked forward or backward.
pub open spec fn range_positions(
    s: Seq<(Seq<u8>, Seq<u8>)>,
    r: RangeView,
    backward: bool,
    point_ok: bool,
) -> Seq<nat> {
    if point_ok && is_point_range(r) {
        match find_key(s, r.start, 0) {
            Some(i) => seq![i],
            None => Seq::empty(),
        }
    } else {
        let lo = lower_bound(s, r.start, 0);
        let hi = lower_bound(s, r.end, 0);
        if lo >= hi {
            Seq::empty()
        } else if backward {
            Seq::new((hi - lo) as nat, |k: int| (hi - 1 - k) as nat)
        } else {
            Seq::new((hi - lo) as nat, |k: int| (lo + k) as nat)
        }
    }
}

/// Positions of all pairs of a scan, range after range.
pub open spec fn scan_plan(
    s: Seq<(Seq<u8>, Seq<u8>)>,
    ranges: Seq<RangeView>,
    backward: bool,
    point_ok: bool,
) -> Seq<nat>
    decreases ranges.len(),
{
    if ranges.len() == 0 {
        Seq::empty()
    } else {
        scan_plan(s, ranges.drop_last(), backward, point_ok) + range_positions(
            s,
            ranges.last(),
            backward,
            point_ok,
        )
    }
}

/// The rows decoded from at most `n` pairs of the plan from `pos` on,
/// stopping at the first pair that fails, with its error.
pub open spec fn decode_run(
    l: IndexLayout,
    s: Seq<(Seq<u8>, Seq<u8>)>,
    plan: Seq<nat>,
    pos: nat,
    n: nat,
) -> (Seq<RowOut>, Option<Error>)
    decreases n,
{
    if n == 0 || pos >= plan.len() {
        (Seq::empty(), None)
    } else {
        let p = plan[pos as int] as int;
        match decode_pair(l, s[p].0, s[p].1) {
            Err(e) => (Seq::empty(), Some(e)),
            Ok(row) => {
                let (rest, e) = decode_run(l, s, plan, pos + 1, (n - 1) as nat);
                (seq![row] + rest, e)
            },
        }
    }
}

/// A row with one cell per index column and the handle the mode asks for.
pub open spec fn row_shaped(l: IndexLayout, row: RowOut) -> bool {
    &&& row.index_cells.len() == index_count(l)
    &&& match l.mode {
        HandleMode::NoHandle => row.handle is Absent,
        HandleMode::IntHandle => row.handle is Int,
        HandleMode::CommonHandle(m) => row.handle matches HandleView::Common(h) && h.len() == m,
    }
}

/// Column `c` of a batch of rows.
pub open spec fn column_of(l: IndexLayout, rows: Seq<RowOut>, c: int) -> ColumnView {
    let n = index_count(l) as int;
    if c < n {
        ColumnView::Raw(Seq::new(rows.len(), |r: int| rows[r].index_cells[c]))
    } else if l.mode is IntHandle {
        ColumnView::Decoded(Seq::new(rows.len(), |r: int| Some(rows[r].handle->Int_0)))
    } else {
        ColumnView::Raw(Seq::new(rows.len(), |r: int| rows[r].handle->Common_0[c - n]))
    }
}

/// The columns of a batch of rows: index columns and common-handle columns
/// raw, an integer handle decoded.
pub open spec fn batch_view(l: IndexLayout, rows: Seq<RowOut>) -> Seq<ColumnView> {
    Seq::new(l.columns.len(), |c: int| column_of(l, rows, c))
}

/// The handle mode that a schema and a count of common-handle columns
/// declare, or why they cannot be scanned.
pub open spec fn handle_mode_of(columns: Seq<ColumnInfo>, primary_column_ids_len: usize) -> Result<
    HandleMode,
    Error,
> {
    let is_int = columns.len() > 0 && columns.last().pk_handle;
    let is_common = primary_column_ids_len > 0;
    if is_int && is_common {
        Err(Error::BothHandles)
    } else {
        let mode = if is_int {
            HandleMode::IntHandle
        } else if is_common {
            HandleMode::CommonHandle(primary_column_ids_len)
        } else {
            HandleMode::NoHandle
        };
        if handle_count(mode) > columns.len() {
            Err(Error::TooManyHandleColumns)
        } else {
            Ok(mode)
        }
    }
}

/// Counters of an executor.
pub struct ExecuteStats {
    /// Pairs read from storage.
    pub scanned_rows: usize,
    /// Bytes of keys and values read from storage, saturating.
    pub scanned_bytes: u64,
}

/// Bytes of the keys and values of the `n` pairs of the plan from `pos` on.
pub open spec fn bytes_read(s: Seq<(Seq<u8>, Seq<u8>)>, plan: Seq<nat>, pos: nat, n: nat) -> nat
    decreases n,
{
    if n == 0 {
        0
    } else {
        let p = plan[pos + n - 1] as int;
        bytes_read(s, plan, pos, (n - 1) as nat) + s[p].0.len() + s[p].1.len()
    }
}

proof fn lemma_bytes_read_step(s: Seq<(Seq<u8>, Seq<u8>)>, plan: Seq<nat>, pos0: nat, pos: nat)
    requires
        pos0 <= pos,
    ensures
        bytes_read(s, plan, pos0, (pos + 1 - pos0) as nat) == bytes_read(s, plan, pos0, (pos - pos0) as nat)
            + s[plan[pos as int] as int].0.len() + s[plan[pos as int] as int].1.len(),
{
    assert(pos0 + (pos + 1 - pos0) - 1 == pos);
}

/// Adds the lengths of a key and a value to a byte count, saturating.
fn add_bytes(acc: u64, key_len: usize, value_len: usize) -> (r: u64)
    ensures
        r == saturate(acc + key_len + value_len),
{
    let k = key_len as u64;
    let v = value_len as u64;
    if acc > u64::MAX - k {
        return u64::MAX;
    }
    let a = acc + k;
    if a > u64::MAX - v {
        return u64::MAX;
    }
    a + v
}

/// Saturating sums accumulate like the exact sum, capped.
proof fn lemma_saturate_step(a: int, b: int)
    requires
        a >= 0,
        b >= 0,
    ensures
        saturate(saturate(a) + b) == saturate(a + b),
{
}

/// `x` capped at the largest `u64`.
pub open spec fn saturate(x: int) -> u64 {
    if x > u64::MAX {
        u64::MAX
    } else {
        x as u64
    }
}

/// What one pull hands out.
pub struct BatchExecuteResult {
    pub physical_columns: LazyBatchColumnVec,
    /// Positions of the rows that are valid: all of them.
    pub logical_rows: Vec<usize>,
    /// `Ok(true)` when no pair is left, `Ok(false)` when more may follow, the
    /// error of the pair that could not be decoded otherwise.
    pub is_drained: Result<bool, Error>,
}

/// A scan over a secondary index.
pub struct BatchIndexScanExecutor {
    storage: FixtureStorage,
    schema: Vec<ColumnInfo>,
    mode: HandleMode,
    plan: Vec<usize>,
    pos: usize,
    is_ended: bool,
    scanned_rows: usize,
    scanned_bytes: u64,
    key_ranges: Vec<KeyRange>,
    is_backward: bool,
    is_scanned_range_aware: bool,
    scanned_lower: Vec<u8>,
    scanned_upper: Vec<u8>,
}

/// A half-open key interval `[lower_inclusive, upper_exclusive)`.
pub struct IntervalRange {
    pub lower_inclusive: Vec<u8>,
    pub upper_exclusive: Vec<u8>,
}

/// The interval covered before anything is read: empty, at the start of the
/// first range (at its end for a backward scan).
pub open spec fn initial_scanned(ranges: Seq<RangeView>, backward: bool, aware: bool) -> (Seq<u8>, Seq<u8>) {
    if !aware || ranges.len() == 0 {
        (Seq::empty(), Seq::empty())
    } else if backward {
        (ranges[0].end, ranges[0].end)
    } else {
        (ranges[0].start, ranges[0].start)
    }
}

/// The interval covered after a pull that read `used` pairs from `pos` on:
/// it reaches the end of the last range once the scan is drained, else just
/// past the last key read (down to it, for a backward scan).
pub open spec fn scanned_after(
    old: (Seq<u8>, Seq<u8>),
    ranges: Seq<RangeView>,
    backward: bool,
    aware: bool,
    s: Seq<(Seq<u8>, Seq<u8>)>,
    plan: Seq<nat>,
    pos: nat,
    used: nat,
    drained: bool,
) -> (Seq<u8>, Seq<u8>) {
    if !aware {
        old
    } else if drained && ranges.len() > 0 {
        if backward {
            (ranges.last().start, old.1)
        } else {
            (old.0, ranges.last().end)
        }
    } else if used > 0 {
        let k = s[plan[pos + used - 1] as int].0;
        if backward {
            (k, old.1)
        } else {
            (old.0, k.push(0))
        }
    } else {
        old
    }
}

proof fn lemma_split_len(s: Seq<u8>, n: nat)
    ensures
        split_datums(s, n) matches Ok((c, _)) ==> c.len() == n,
    decreases n,
{
    if n > 0 {
        lemma_split_len(s, (n - 1) as nat);
    }
}

proof fn lemma_row_cells_len(l: IndexLayout, row: crate::row_v2::RowView, n: nat)
    ensures
        row_cells(l, row, n) matches Ok(c) ==> c.len() == n,
    decreases n,
{
    if n > 0 {
        lemma_row_cells_len(l, row, (n - 1) as nat);
    }
}

/// Every row a pair decodes to has the shape of the layout.
pub proof fn lemma_decoded_row_shaped(l: IndexLayout, key: Seq<u8>, value: Seq<u8>)
    requires
        layout_wf(l),
    ensures
        decode_pair(l, key, value) matches Ok(row) ==> row_shaped(l, row),
{
    let payload = crate::table::key_payload(key);
    lemma_split_len(payload, index_count(l));
    let mm: nat = match l.mode {
        HandleMode::CommonHandle(m) => m as nat,
        _ => 0,
    };
    lemma_split_len(value.subrange(4, crate::index_value::handle_end(value)), mm);
    if let Ok((_, rest)) = split_datums(payload, index_count(l)) {
        lemma_split_len(rest, mm);
    }
    if let Some(row) = crate::row_v2::parse_row(value.skip(crate::index_value::handle_end(value))) {
        lemma_row_cells_len(l, row, index_count(l));
    }
    if let Some(row) = crate::row_v2::parse_row(crate::index_value::restore_region(value)) {
        lemma_row_cells_len(l, row, index_count(l));
    }
}

/// The byte strings of a vector, copied.
fn clone_bytes(v: &Vec<u8>) -> (r: Vec<u8>)
    ensures
        r@ == v@,
{
    let r = copy_range(v.as_slice(), 0, v.len());
    assert(r@ =~= v@);
    r
}

/// The views of decoded rows.
pub open spec fn rows_view(rows: Seq<DecodedRow>) -> Seq<RowOut> {
    Seq::new(rows.len(), |k: int| rows[k]@)
}

/// Turns decoded rows into the columns of a batch.
fn build_column_vec(schema: &Vec<ColumnInfo>, mode: HandleMode, rows: &Vec<DecodedRow>) -> (r:
    LazyBatchColumnVec)
    requires
        layout_wf(IndexLayout { columns: schema@, mode }),
        forall|k: int|
            0 <= k < rows@.len() ==> row_shaped(
                IndexLayout { columns: schema@, mode },
                #[trigger] rows@[k]@,
            ),
    ensures
        r@ == batch_view(IndexLayout { columns: schema@, mode }, rows_view(rows@)),
{
    let ghost l = IndexLayout { columns: schema@, mode };
    let ghost rv = rows_view(rows@);
    let ncols: usize = schema.len();
    let n: usize = index_count_exec(schema, mode);
    let nrows: usize = rows.len();
    let mut columns: Vec<LazyBatchColumn> = Vec::with_capacity(ncols);
    let mut c: usize = 0;
    while c < ncols
        invariant
            c <= ncols == schema@.len(),
            n == index_count(l),
            nrows == rows@.len(),
            l == (IndexLayout { columns: schema@, mode }),
            layout_wf(l),
            rv == rows_view(rows@),
            forall|k: int| 0 <= k < rows@.len() ==> row_shaped(l, #[trigger] rows@[k]@),
            columns@.len() == c,
            forall|k: int| 0 <= k < c ==> (#[trigger] columns@[k])@ == column_of(l, rv, k),
        decreases ncols - c,
    {
        let col: LazyBatchColumn;
        if c >= n && mode == HandleMode::IntHandle {
            let mut ints: Vec<Option<i64>> = Vec::with_capacity(nrows);
            let mut r: usize = 0;
            while r < nrows
                invariant
                    r <= nrows == rows@.len(),
                    mode == HandleMode::IntHandle,
                    l == (IndexLayout { columns: schema@, mode }),
                    rv == rows_view(rows@),
                    forall|k: int| 0 <= k < rows@.len() ==> row_shaped(l, #[trigger] rows@[k]@),
                    ints@ == Seq::new(r as nat, |k: int| Some(rv[k].handle->Int_0)),
                decreases nrows - r,
            {
                assert(row_shaped(l, rows@[r as int]@));
                match &rows[r].handle {
                    DecodedHandle::Int(h) => {
                        ints.push(Some(*h));
                    },
                    _ => {
                        vstd::pervasive::unreached()
                    },
                }
                assert(ints@ =~= Seq::new((r + 1) as nat, |k: int| Some(rv[k].handle->Int_0)));
                r = r + 1;
            }
            col = LazyBatchColumn::Decoded(ints);
            assert(col@ == column_of(l, rv, c as int)) by {
                assert(ints@ =~= Seq::new(rv.len(), |k: int| Some(rv[k].handle->Int_0)));
            }
        } else {
            let mut raw: Vec<Vec<u8>> = Vec::with_capacity(nrows);
            let mut r: usize = 0;
            while r < nrows
                invariant
                    r <= nrows == rows@.len(),
                    c < ncols == schema@.len(),
                    n == index_count(l),
                    !(c >= n && mode == HandleMode::IntHandle),
                    l == (IndexLayout { columns: schema@, mode }),
                    layout_wf(l),
                    rv == rows_view(rows@),
                    forall|k: int| 0 <= k < rows@.len() ==> row_shaped(l, #[trigger] rows@[k]@),
                    raw@.len() == r,
                    forall|k: int| 0 <= k < r ==> (#[trigger] raw@[k])@ == column_of(l, rv, c as int)->Raw_0[k],
                decreases nrows - r,
            {
                assert(row_shaped(l, rows@[r as int]@));
                let ghost before = raw@;
                let cell: Vec<u8>;
                if c < n {
                    cell = clone_bytes(&rows[r].index_cells[c]);
                } else {
                    match &rows[r].handle {
                        DecodedHandle::Common(h) => {
                            cell = clone_bytes(&h[c - n]);
                            assert(rv[r as int].handle == HandleView::Common(cells_view(h@)));
                        },
                        _ => {
                            cell = vstd::pervasive::unreached();
                        },
                    }
                }
                assert(cell@ == column_of(l, rv, c as int)->Raw_0[r as int]);
                raw.push(cell);
                r = r + 1;
            }
            col = LazyBatchColumn::Raw(raw);
            assert(col@ == column_of(l, rv, c as int)) by {
                assert(bytes_seq(raw@) =~= column_of(l, rv, c as int)->Raw_0);
            }
        }
        columns.push(col);
        c = c + 1;
    }
    let r = LazyBatchColumnVec { columns };
    assert(r@ =~= batch_view(l, rv));
    r
}


/// Position of the first pair holding key `k`.
fn find_key_exec(storage: &FixtureStorage, k: &[u8]) -> (r: Option<usize>)
    ensures
        match find_key(storage@, k@, 0) {
            Some(i) => r == Some(i as usize) && i < storage@.len() <= usize::MAX,
            None => r is None,
        },
{
    let n: usize = storage.len();
    let mut i: usize = 0;
    while i < n
        invariant
            i <= n == storage@.len(),
            find_key(storage@, k@, 0) == find_key(storage@, k@, i as nat),
        decreases n - i,
    {
        if crate::storage::key_eq(storage.key_at(i), k) {
            return Some(i);
        }
        i = i + 1;
    }
    None
}

/// Whether `end` is `start` followed by a zero byte.
fn is_point_range_exec(r: &KeyRange) -> (b: bool)
    ensures
        b == is_point_range(r@),
{
    let ls: usize = r.start.len();
    let le: usize = r.end.len();
    if le == 0 || le - 1 != ls || r.end[ls] != 0 {
        assert(r.end@.len() == ls + 1 ==> r.end@ != r.start@.push(0) || r.end@[ls as int] == 0);
        return false;
    }
    let eq = crate::storage::key_eq(r.start.as_slice(), vstd::slice::slice_subrange(r.end.as_slice(), 0, ls));
    proof {
        if eq {
            assert(r.end@ =~= r.start@.push(0));
        } else {
            if r.end@ == r.start@.push(0) {
                assert(r.end@.subrange(0, ls as int) =~= r.start@);
            }
        }
    }
    eq
}

/// Appends the positions that one range yields.
fn push_range_positions(
    storage: &FixtureStorage,
    range: &KeyRange,
    backward: bool,
    point_ok: bool,
    plan: &mut Vec<usize>,
)
    requires
        forall|k: int| 0 <= k < old(plan)@.len() ==> #[trigger] old(plan)@[k] < storage@.len(),
    ensures
        plan_view(final(plan)@) == plan_view(old(plan)@) + range_positions(storage@, range@, backward, point_ok),
        forall|k: int| 0 <= k < final(plan)@.len() ==> #[trigger] final(plan)@[k] < storage@.len(),
{
    let ghost start = plan@;
    if point_ok && is_point_range_exec(range) {
        match find_key_exec(storage, range.start.as_slice()) {
            Some(i) => {
                plan.push(i);
                assert(plan_view(plan@) =~= plan_view(start) + seq![i as nat]);
            },
            None => {
                assert(plan_view(plan@) =~= plan_view(start) + Seq::<nat>::empty());
            },
        }
        return;
    }
    let lo = storage.lower_bound(range.start.as_slice());
    let hi = storage.lower_bound(range.end.as_slice());
    proof {
        crate::storage::lemma_lower_bound_range(storage@, range@.start, 0);
        crate::storage::lemma_lower_bound_range(storage@, range@.end, 0);
    }
    if lo >= hi {
        assert(plan_view(plan@) =~= plan_view(start) + Seq::<nat>::empty());
        return;
    }
    let ghost want = range_positions(storage@, range@, backward, point_ok);
    let mut k: usize = 0;
    while k < hi - lo
        invariant
            lo < hi <= storage@.len(),
            k <= hi - lo,
            want == (if backward {
                Seq::new((hi - lo) as nat, |j: int| (hi - 1 - j) as nat)
            } else {
                Seq::new((hi - lo) as nat, |j: int| (lo + j) as nat)
            }),
            plan_view(plan@) == plan_view(start) + want.subrange(0, k as int),
            forall|j: int| 0 <= j < plan@.len() ==> #[trigger] plan@[j] < storage@.len(),
        decreases hi - lo - k,
    {
        let p: usize = if backward { hi - 1 - k } else { lo + k };
        let ghost before = plan@;
        plan.push(p);
        assert(plan_view(plan@) =~= plan_view(before).push(p as nat));
        assert(want.subrange(0, k + 1) =~= want.subrange(0, k as int).push(p as nat));
        assert(plan_view(plan@) =~= plan_view(start) + want.subrange(0, k + 1));
        k = k + 1;
    }
    assert(want.subrange(0, (hi - lo) as int) =~= want);
}

/// The positions of a plan.
pub open spec fn plan_view(v: Seq<usize>) -> Seq<nat> {
    Seq::new(v.len(), |k: int| v[k] as nat)
}

/// The positions of all pairs of a scan.
fn build_plan(storage: &FixtureStorage, ranges: &Vec<KeyRange>, backward: bool, point_ok: bool) -> (r:
    Vec<usize>)
    ensures
        plan_view(r@) == scan_plan(storage@, ranges_view(ranges@), backward, point_ok),
        forall|k: int| 0 <= k < r@.len() ==> #[trigger] r@[k] < storage@.len(),
{
    let mut plan: Vec<usize> = Vec::new();
    let n: usize = ranges.len();
    let mut i: usize = 0;
    assert(plan_view(plan@) =~= Seq::<nat>::empty());
    assert(ranges_view(ranges@).subrange(0, 0) =~= Seq::<RangeView>::empty());
    while i < n
        invariant
            i <= n == ranges@.len(),
            plan_view(plan@) == scan_plan(storage@, ranges_view(ranges@).subrange(0, i as int), backward, point_ok),
            forall|k: int| 0 <= k < plan@.len() ==> #[trigger] plan@[k] < storage@.len(),
        decreases n - i,
    {
        push_range_positions(storage, &ranges[i], backward, point_ok, &mut plan);
        proof {
            let rs = ranges_view(ranges@).subrange(0, i + 1);
            assert(rs.drop_last() =~= ranges_view(ranges@).subrange(0, i as int));
            assert(rs.last() == ranges@[i as int]@);
        }
        i = i + 1;
    }
    assert(ranges_view(ranges@).subrange(0, n as int) =~= ranges_view(ranges@));
    plan
}

impl BatchIndexScanExecutor {
    /// The schema and handle mode.
    pub closed spec fn layout(&self) -> IndexLayout {
        IndexLayout { columns: self.schema@, mode: self.mode }
    }

    /// The pairs of the storage source.
    pub closed spec fn pairs(&self) -> Seq<(Seq<u8>, Seq<u8>)> {
        self.storage@
    }

    /// Positions of the pairs of the scan, in scan order.
    pub closed spec fn plan(&self) -> Seq<nat> {
        plan_view(self.plan@)
    }

    /// How many pairs of the plan have been consumed.
    pub closed spec fn consumed(&self) -> nat {
        self.pos as nat
    }

    /// Whether a pull reported the end of the scan or an error.
    pub closed spec fn ended(&self) -> bool {
        self.is_ended
    }

    /// Pairs read since the counters were last collected.
    pub closed spec fn pending_scanned(&self) -> nat {
        self.scanned_rows as nat
    }

    /// Bytes read since the counters were last collected, saturating.
    pub closed spec fn pending_bytes(&self) -> u64 {
        self.scanned_bytes
    }

    /// Whether ranges are walked backward.
    pub closed spec fn backward(&self) -> bool {
        self.is_backward
    }

    /// Whether the covered key interval is tracked.
    pub closed spec fn aware(&self) -> bool {
        self.is_scanned_range_aware
    }

    /// The ranges of the scan.
    pub closed spec fn ranges(&self) -> Seq<RangeView> {
        ranges_view(self.key_ranges@)
    }

    /// The key interval covered since it was last taken.
    pub closed spec fn scanned(&self) -> (Seq<u8>, Seq<u8>) {
        (self.scanned_lower@, self.scanned_upper@)
    }

    /// What a pull leaves as it found it.
    pub open spec fn same_scan(&self, other: &Self) -> bool {
        &&& other.layout() == self.layout()
        &&& other.pairs() == self.pairs()
        &&& other.plan() == self.plan()
        &&& other.backward() == self.backward()
        &&& other.aware() == self.aware()
        &&& other.ranges() == self.ranges()
    }

    pub closed spec fn wf(&self) -> bool {
        &&& layout_wf(self.layout())
        &&& self.pos <= self.plan@.len()
        &&& forall|k: int| 0 <= k < self.plan@.len() ==> #[trigger] self.plan@[k] < self.storage@.len()
        &&& self.scanned_rows <= self.pos
    }

    /// Builds an executor over `storage`. The last `primary_column_ids_len`
    /// columns make up a common handle; a last column flagged as the
    /// integer handle makes up an integer handle. With `unique`, a range
    /// that holds a single key is read by a direct lookup.
    pub fn new(
        storage: FixtureStorage,
        columns_info: Vec<ColumnInfo>,
        key_ranges: Vec<KeyRange>,
        primary_column_ids_len: usize,
        is_backward: bool,
        unique: bool,
        is_scanned_range_aware: bool,
    ) -> (r: Result<BatchIndexScanExecutor, Error>)
        ensures
            match handle_mode_of(columns_info@, primary_column_ids_len) {
                Ok(mode) => r matches Ok(e) && e.wf() && e.layout() == (IndexLayout {
                    columns: columns_info@,
                    mode,
                }) && e.pairs() == storage@ && e.plan() == scan_plan(
                    storage@,
                    ranges_view(key_ranges@),
                    is_backward,
                    unique,
                ) && e.consumed() == 0 && !e.ended() && e.pending_scanned() == 0
                    && e.pending_bytes() == 0
                    && e.backward() == is_backward && e.aware() == is_scanned_range_aware
                    && e.ranges() == ranges_view(key_ranges@) && e.scanned() == initial_scanned(
                    ranges_view(key_ranges@),
                    is_backward,
                    is_scanned_range_aware,
                ),
                Err(err) => r matches Err(x) && x == err,
            },
    {
        let n: usize = columns_info.len();
        let is_int_handle = n > 0 && columns_info[n - 1].pk_handle;
        let is_common_handle = primary_column_ids_len > 0;
        let mode = if is_int_handle && is_common_handle {
            return Err(Error::BothHandles);
        } else if is_int_handle {
            HandleMode::IntHandle
        } else if is_common_handle {
            HandleMode::CommonHandle(primary_column_ids_len)
        } else {
            HandleMode::NoHandle
        };
        let handle_column_cnt: usize = match mode {
            HandleMode::NoHandle => 0,
            HandleMode::IntHandle => 1,
            HandleMode::CommonHandle(m) => m,
        };
        if handle_column_cnt > n {
            return Err(Error::TooManyHandleColumns);
        }
        let plan = build_plan(&storage, &key_ranges, is_backward, unique);
        let mut scanned_lower: Vec<u8> = Vec::new();
        let mut scanned_upper: Vec<u8> = Vec::new();
        if is_scanned_range_aware && key_ranges.len() > 0 {
            let first = if is_backward {
                clone_bytes(&key_ranges[0].end)
            } else {
                clone_bytes(&key_ranges[0].start)
            };
            scanned_lower = clone_bytes(&first);
            scanned_upper = first;
        }
        let r = BatchIndexScanExecutor {
            storage,
            schema: columns_info,
            mode,
            plan,
            pos: 0,
            is_ended: false,
            scanned_rows: 0,
            scanned_bytes: 0,
            key_ranges,
            is_backward,
            is_scanned_range_aware,
            scanned_lower,
            scanned_upper,
        };
        assert(r.scanned() =~~= initial_scanned(ranges_view(r.key_ranges@), is_backward, is_scanned_range_aware));
        Ok(r)
    }

    /// The schema of the columns handed out.
    pub fn schema(&self) -> (r: &Vec<ColumnInfo>)
        ensures
            r@ == self.layout().columns,
    {
        &self.schema
    }

    /// Pulls the next batch of at most `scan_rows` rows. Pairs are decoded in
    /// scan order until `scan_rows` rows are made, the plan runs out, or a
    /// pair fails to decode; rows made before a failure stay in the batch.
    /// After the end or a failure was reported, an empty drained batch.
    pub fn next_batch(&mut self, scan_rows: usize) -> (r: BatchExecuteResult)
        requires
            old(self).wf(),
        ensures
            final(self).wf(),
            old(self).same_scan(&*final(self)),
            old(self).ended() ==> final(self).scanned() == old(self).scanned(),
            old(self).ended() ==> r.physical_columns@ == batch_view(old(self).layout(), Seq::empty())
                && r.is_drained == Ok::<bool, Error>(true) && final(self).consumed() == old(self).consumed()
                && final(self).ended() && r.logical_rows@.len() == 0
                && final(self).pending_scanned() == old(self).pending_scanned()
                && final(self).pending_bytes() == old(self).pending_bytes(),
            !old(self).ended() ==> {
                let (rows, err) = decode_run(
                    old(self).layout(),
                    old(self).pairs(),
                    old(self).plan(),
                    old(self).consumed(),
                    scan_rows as nat,
                );
                let used = rows.len() + if err is Some { 1nat } else { 0nat };
                &&& r.physical_columns@ == batch_view(old(self).layout(), rows)
                &&& r.logical_rows@ == Seq::new(rows.len(), |k: int| k as usize)
                &&& r.is_drained == match err {
                    Some(e) => Err(e),
                    None => Ok(old(self).plan().len() - old(self).consumed() < scan_rows),
                }
                &&& final(self).consumed() == old(self).consumed() + used
                &&& final(self).ended() == !(r.is_drained == Ok::<bool, Error>(false))
                &&& final(self).pending_scanned() == old(self).pending_scanned() + used
                &&& final(self).pending_bytes() == saturate(
                    old(self).pending_bytes() + bytes_read(old(self).pairs(), old(self).plan(), old(self).consumed(), used),
                )
                &&& final(self).scanned() == scanned_after(
                    old(self).scanned(),
                    old(self).ranges(),
                    old(self).backward(),
                    old(self).aware(),
                    old(self).pairs(),
                    old(self).plan(),
                    old(self).consumed(),
                    used,
                    r.is_drained == Ok::<bool, Error>(true),
                )
            },
    {
        let ghost l = self.layout();
        if self.is_ended {
            let rows: Vec<DecodedRow> = Vec::new();
            let cols = build_column_vec(&self.schema, self.mode, &rows);
            assert(rows_view(rows@) =~= Seq::<RowOut>::empty());
            return BatchExecuteResult {
                physical_columns: cols,
                logical_rows: Vec::new(),
                is_drained: Ok(true),
            };
        }
        let ghost pos0 = self.pos as nat;
        let pos0_exec: usize = self.pos;
        let ghost s = self.storage@;
        let ghost plan = plan_view(self.plan@);
        let total: usize = self.plan.len();
        let mut rows: Vec<DecodedRow> = Vec::new();
        let mut logical_rows: Vec<usize> = Vec::new();
        let mut produced: usize = 0;
        let mut failure: Option<Error> = None;
        while produced < scan_rows && self.pos < total && failure.is_none()
            invariant
                self.wf(),
                old(self).same_scan(&*self),
                self.scanned() == old(self).scanned(),
                l == self.layout(),
                s == self.storage@,
                plan == plan_view(self.plan@),
                total == self.plan@.len(),
                produced <= scan_rows,
                self.pos == pos0 + produced + if failure is Some { 1nat } else { 0nat },
                self.scanned_rows == old(self).scanned_rows + (self.pos - pos0),
                self.scanned_bytes == saturate(old(self).scanned_bytes + bytes_read(s, plan, pos0, (self.pos - pos0) as nat)),
                !self.is_ended,
                rows@.len() == produced,
                logical_rows@ == Seq::new(produced as nat, |k: int| k as usize),
                forall|k: int| 0 <= k < rows@.len() ==> row_shaped(l, #[trigger] rows@[k]@),
                ({
                    let (all, err) = decode_run(l, s, plan, pos0, scan_rows as nat);
                    let (rest, err2) = decode_run(l, s, plan, self.pos as nat, (scan_rows - produced) as nat);
                    match failure {
                        Some(e) => all == rows_view(rows@) && err == Some(e),
                        None => all == rows_view(rows@) + rest && err == err2,
                    }
                }),
            decreases total - self.pos,
        {
            let p = self.plan[self.pos];
            let key = self.storage.key_at(p);
            let value = self.storage.value_at(p);
            let res = process_kv_pair(&self.schema, self.mode, key, value);
            proof {
                lemma_decoded_row_shaped(l, s[p as int].0, s[p as int].1);
            }
            let ghost before = rows@;
            match res {
                Ok(row) => {
                    rows.push(row);
                    logical_rows.push(produced);
                    assert(rows_view(rows@) =~= rows_view(before).push(rows@[produced as int]@));
                    assert(logical_rows@ =~= Seq::new((produced + 1) as nat, |k: int| k as usize));
                    produced = produced + 1;
                    assert(rows_view(rows@) + decode_run(l, s, plan, (self.pos + 1) as nat, (scan_rows - produced) as nat).0
                        =~= rows_view(before) + decode_run(l, s, plan, self.pos as nat, (scan_rows - (produced - 1)) as nat).0);
                },
                Err(e) => {
                    failure = Some(e);
                    assert(rows_view(rows@) + decode_run(l, s, plan, self.pos as nat, (scan_rows - produced) as nat).0
                        =~= rows_view(rows@));
                },
            }
            proof {
                lemma_bytes_read_step(s, plan, pos0, self.pos as nat);
            }
            self.scanned_bytes = add_bytes(self.scanned_bytes, key.len(), value.len());
            proof {
                lemma_saturate_step(
                    old(self).scanned_bytes + bytes_read(s, plan, pos0, (self.pos - pos0) as nat),
                    (s[p as int].0.len() + s[p as int].1.len()) as int,
                );
            }
            self.pos = self.pos + 1;
            self.scanned_rows = self.scanned_rows + 1;
        }
        proof {
            if failure is None {
                assert(rows_view(rows@) + Seq::<RowOut>::empty() =~= rows_view(rows@));
            }
        }
        let is_drained: Result<bool, Error> = match failure {
            Some(e) => Err(e),
            None => Ok(produced < scan_rows),
        };
        self.is_ended = match is_drained {
            Ok(false) => false,
            _ => true,
        };
        let drained_all = match is_drained {
            Ok(true) => true,
            _ => false,
        };
        let nranges: usize = self.key_ranges.len();
        if self.is_scanned_range_aware {
            if drained_all && nranges > 0 {
                if self.is_backward {
                    self.scanned_lower = clone_bytes(&self.key_ranges[nranges - 1].start);
                } else {
                    self.scanned_upper = clone_bytes(&self.key_ranges[nranges - 1].end);
                }
            } else if self.pos > pos0_exec {
                let last = self.plan[self.pos - 1];
                let key = crate::datum::copy_range(self.storage.key_at(last), 0, self.storage.key_at(last).len());
                if self.is_backward {
                    self.scanned_lower = key;
                } else {
                    let mut k = key;
                    k.push(0);
                    self.scanned_upper = k;
                }
            }
        }
        let cols = build_column_vec(&self.schema, self.mode, &rows);
        BatchExecuteResult { physical_columns: cols, logical_rows, is_drained }
    }

    /// Adds the pairs read since the last call to `dest`, saturating, and
    /// clears the executor's own count.
    pub fn collect_exec_stats(&mut self, dest: &mut ExecuteStats)
        requires
            old(self).wf(),
        ensures
            final(self).wf(),
            old(self).same_scan(&*final(self)),
            final(self).scanned() == old(self).scanned(),
            final(self).consumed() == old(self).consumed(),
            final(self).ended() == old(self).ended(),
            final(self).pending_scanned() == 0,
            final(self).pending_bytes() == 0,
            final(dest).scanned_bytes == saturate(old(dest).scanned_bytes + old(self).pending_bytes()),
            final(dest).scanned_rows == if old(dest).scanned_rows + old(self).pending_scanned() > usize::MAX {
                usize::MAX as int
            } else {
                old(dest).scanned_rows + old(self).pending_scanned()
            },
    {
        if dest.scanned_rows > usize::MAX - self.scanned_rows {
            dest.scanned_rows = usize::MAX;
        } else {
            dest.scanned_rows = dest.scanned_rows + self.scanned_rows;
        }
        self.scanned_rows = 0;
        if dest.scanned_bytes > u64::MAX - self.scanned_bytes {
            dest.scanned_bytes = u64::MAX;
        } else {
            dest.scanned_bytes = dest.scanned_bytes + self.scanned_bytes;
        }
        self.scanned_bytes = 0;
    }

    /// Hands out the key interval covered since the last call, and starts the
    /// next one where it ended.
    pub fn take_scanned_range(&mut self) -> (r: IntervalRange)
        requires
            old(self).wf(),
        ensures
            final(self).wf(),
            old(self).same_scan(&*final(self)),
            final(self).consumed() == old(self).consumed(),
            final(self).ended() == old(self).ended(),
            final(self).pending_scanned() == old(self).pending_scanned(),
            final(self).pending_bytes() == old(self).pending_bytes(),
            (r.lower_inclusive@, r.upper_exclusive@) == old(self).scanned(),
            final(self).scanned() == if !old(self).aware() {
                old(self).scanned()
            } else if old(self).backward() {
                (old(self).scanned().0, old(self).scanned().0)
            } else {
                (old(self).scanned().1, old(self).scanned().1)
            },
    {
        let lower = clone_bytes(&self.scanned_lower);
        let upper = clone_bytes(&self.scanned_upper);
        if self.is_scanned_range_aware {
            if self.is_backward {
                self.scanned_upper = clone_bytes(&lower);
            } else {
                self.scanned_lower = clone_bytes(&upper);
            }
        }
        IntervalRange { lower_inclusive: lower, upper_exclusive: upper }
    }

    /// Whether a result cache may keep what this scan produced: only when the
    /// storage source vouches that no uncacheable data was met.
    pub fn can_be_cached(&self) -> (r: bool)
        ensures
            !r,
    {
        match self.storage.met_uncacheable_data() {
            Some(false) => true,
            _ => false,
        }
    }
}


/// Key `k` lies in range `r`.
pub open spec fn in_range(k: Seq<u8>, r: RangeView) -> bool {
    !key_lt(k, r.start) && key_lt(k, r.end)
}

/// Over sorted storage a range scan yields exactly the pairs whose keys lie
/// in the range, in ascending key order when walked forward and in
/// descending order when walked backward.
pub proof fn lemma_range_scan_exact(s: Seq<(Seq<u8>, Seq<u8>)>, r: RangeView)
    requires
        sorted(s),
    ensures
        ({
            let ps = range_positions(s, r, false, false);
            &&& forall|k: int| 0 <= k < ps.len() ==> #[trigger] ps[k] < s.len() && in_range(s[ps[k] as int].0, r)
            &&& forall|i: int| 0 <= i < s.len() && in_range(#[trigger] s[i].0, r) ==> exists|k: int|
                0 <= k < ps.len() && ps[k] == i
            &&& forall|j: int, k: int| 0 <= j < k < ps.len() ==> key_lt(#[trigger] s[ps[j] as int].0, #[trigger] s[ps[k] as int].0)
            &&& range_positions(s, r, true, false) == ps.reverse()
        }),
{
    let lo = lower_bound(s, r.start, 0);
    let hi = lower_bound(s, r.end, 0);
    lemma_lower_bound_range(s, r.start, 0);
    lemma_lower_bound_range(s, r.end, 0);
    let ps = range_positions(s, r, false, false);
    assert forall|i: int| 0 <= i < s.len() implies (in_range(s[i].0, r) <==> lo <= i < hi) by {
        lemma_lower_bound_partition(s, r.start, i);
        lemma_lower_bound_partition(s, r.end, i);
    }
    assert forall|k: int| 0 <= k < ps.len() implies #[trigger] ps[k] < s.len() && in_range(s[ps[k] as int].0, r) by {
        assert(ps[k] == lo + k);
    }
    assert forall|i: int| 0 <= i < s.len() && in_range(#[trigger] s[i].0, r) implies exists|k: int|
        0 <= k < ps.len() && ps[k] == i by {
        assert(ps[i - lo] == i);
    }
    if lo < hi {
        assert(range_positions(s, r, true, false) =~= ps.reverse());
    } else {
        assert(range_positions(s, r, true, false) =~= ps.reverse());
    }
}

/// Construction rejects a schema that declares an integer handle and a
/// positive number of common-handle columns.
pub proof fn lemma_rejects_both_handles(columns: Seq<ColumnInfo>, primary_column_ids_len: usize)
    requires
        columns.len() > 0,
        columns.last().pk_handle,
        primary_column_ids_len > 0,
    ensures
        handle_mode_of(columns, primary_column_ids_len) == Err::<HandleMode, Error>(Error::BothHandles),
{
}


proof fn lemma_find_key(s: Seq<(Seq<u8>, Seq<u8>)>, k: Seq<u8>, i: nat)
    ensures
        find_key(s, k, i) matches Some(j) ==> i <= j < s.len() && s[j as int].0 == k,
        find_key(s, k, i) is None ==> forall|j: int| i <= j < s.len() ==> s[j].0 != k,
    decreases s.len() - i,
{
    if i < s.len() && s[i as int].0 != k {
        lemma_find_key(s, k, i + 1);
    }
}

proof fn lemma_below_successor(x: Seq<u8>, k: Seq<u8>)
    ensures
        key_lt(x, k.push(0)) ==> key_lt(x, k) || x == k,
        key_lt(k, k.push(0)),
    decreases k.len(),
{
    let kp = k.push(0);
    if k.len() == 0 {
        assert(kp[0] == 0);
        if x.len() == 0 {
            assert(x =~= k);
        } else if x[0] == kp[0] {
            assert(kp.skip(1).len() == 0);
            assert(!key_lt(x.skip(1), kp.skip(1)));
            assert(!key_lt(x, kp));
        } else {
            assert(!key_lt(x, kp));
        }
    } else {
        assert(kp.skip(1) =~= k.skip(1).push(0));
        assert(kp[0] == k[0]);
        lemma_below_successor(x.skip(1), k.skip(1));
        assert(key_lt(k, kp) == key_lt(k.skip(1), kp.skip(1)));
        if x.len() == 0 {
        } else if x[0] != k[0] {
            assert(key_lt(x, kp) == key_lt(x, k));
        } else {
            assert(key_lt(x, kp) == key_lt(x.skip(1), k.skip(1).push(0)));
            assert(key_lt(x, k) == key_lt(x.skip(1), k.skip(1)));
            if x.skip(1) == k.skip(1) {
                assert(x =~= seq![x[0]] + x.skip(1));
                assert(k =~= seq![k[0]] + k.skip(1));
            }
        }
    }
}

/// Over sorted storage, a point range read by a direct lookup yields what
/// scanning the range yields, in either direction.
pub proof fn lemma_point_lookup_is_range_scan(s: Seq<(Seq<u8>, Seq<u8>)>, r: RangeView, backward: bool)
    requires
        sorted(s),
        is_point_range(r),
    ensures
        range_positions(s, r, backward, true) == range_positions(s, r, backward, false),
{
    let k = r.start;
    let lo = lower_bound(s, r.start, 0);
    let hi = lower_bound(s, r.end, 0);
    lemma_lower_bound_range(s, r.start, 0);
    lemma_lower_bound_range(s, r.end, 0);
    lemma_find_key(s, k, 0);
    lemma_below_successor(k, k);
    crate::storage::lemma_key_lt_irreflexive(k);
    assert forall|i: int| 0 <= i < s.len() implies (lo <= i < hi <==> s[i].0 == k) by {
        lemma_lower_bound_partition(s, r.start, i);
        lemma_lower_bound_partition(s, r.end, i);
        lemma_below_successor(s[i].0, k);
        crate::storage::lemma_key_lt_asymmetric(s[i].0, k);
    }
    match find_key(s, k, 0) {
        Some(i) => {
            assert(lo <= i < hi);
            if hi > i + 1 {
                assert(s[i + 1int].0 == k);
                assert(key_lt(s[i as int].0, s[i + 1int].0));
            }
            if lo < i {
                assert(s[lo as int].0 == k);
                assert(key_lt(s[lo as int].0, s[i as int].0));
            }
            assert(range_positions(s, r, backward, false) =~= seq![i]);
        },
        None => {
            if lo < hi {
                assert(s[lo as int].0 == k);
            }
            assert(range_positions(s, r, backward, false) =~= Seq::<nat>::empty());
        },
    }
}


/// Pulling `a` pairs and then `b` more yields the rows, and the error, of
/// pulling `a + b` pairs at once, when the first pull meets no error: the
/// batch size does not change what a scan produces.
pub proof fn lemma_decode_run_split(
    l: IndexLayout,
    s: Seq<(Seq<u8>, Seq<u8>)>,
    plan: Seq<nat>,
    pos: nat,
    a: nat,
    b: nat,
)
    requires
        decode_run(l, s, plan, pos, a).1 is None,
    ensures
        ({
            let first = decode_run(l, s, plan, pos, a).0;
            let second = decode_run(l, s, plan, pos + first.len(), b);
            decode_run(l, s, plan, pos, a + b) == (first + second.0, second.1)
        }),
    decreases a,
{
    let first = decode_run(l, s, plan, pos, a).0;
    if a == 0 || pos >= plan.len() {
        assert(first =~= Seq::<RowOut>::empty());
        assert(first + decode_run(l, s, plan, pos, b).0 =~= decode_run(l, s, plan, pos, b).0);
        if pos >= plan.len() {
            assert(decode_run(l, s, plan, pos, b).0 =~= Seq::<RowOut>::empty());
        }
    } else {
        let p = plan[pos as int] as int;
        match decode_pair(l, s[p].0, s[p].1) {
            Err(_) => {},
            Ok(row) => {
                lemma_decode_run_split(l, s, plan, pos + 1, (a - 1) as nat, b);
                let rest = decode_run(l, s, plan, pos + 1, (a - 1) as nat).0;
                assert(first == seq![row] + rest);
                assert((a + b - 1) as nat == (a - 1) as nat + b);
                let second = decode_run(l, s, plan, pos + 1 + rest.len(), b);
                assert(seq![row] + (rest + second.0) =~= first + second.0);
            },
        }
    }
}

} // verus!
