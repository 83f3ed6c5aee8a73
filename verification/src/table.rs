use vstd::prelude::*;

use crate::IndexOptions;
use crate::record::{EntryInput, FileRecord, RecordModel, record_shape_ok, spec_record_of};
use crate::record::lemma_record_of_shape;

verus! {

/// Mathematical model of an `IndexTable`: the run's options and the
/// sequence of row models in insertion order.
#[verifier::ext_equal]
pub struct TableModel {
    pub options: IndexOptions,
    pub rows: Seq<RecordModel>,
}

/// The finished product of a run: an ordered collection of rows sharing
/// one column shape. Created empty, grown only by appending, never
/// rewritten.
#[derive(Debug, PartialEq)]
pub struct IndexTable {
    pub options: IndexOptions,
    pub rows: Vec<FileRecord>,
}

impl View for IndexTable {
    type V = TableModel;

    open spec fn view(&self) -> TableModel {
        TableModel { options: self.options, rows: self.rows@.map_values(|r: FileRecord| r@) }
    }
}

/// Some row of `rows` carries the path `p`.
pub open spec fn has_path(rows: Seq<RecordModel>, p: Seq<u8>) -> bool {
    exists|i: int| 0 <= i < rows.len() && #[trigger] rows[i].path == p
}

/// No two rows share a path.
pub open spec fn paths_distinct(rows: Seq<RecordModel>) -> bool {
    forall|i: int, j: int|
        0 <= i < j < rows.len() ==> #[trigger] rows[i].path != #[trigger] rows[j].path
}

/// Well-formedness of a table: every row has the column shape fixed by
/// the options, and paths are unique within the run.
pub open spec fn table_wf(m: TableModel) -> bool {
    &&& forall|i: int| 0 <= i < m.rows.len() ==> record_shape_ok(m.options, #[trigger] m.rows[i])
    &&& paths_distinct(m.rows)
}

/// The rows an index run produces from a traversal sequence: one row per
/// entry in traversal order, except that an entry whose path was already
/// recorded is skipped, so a path reachable twice (for instance through a
/// cyclic directory symlink) yields a single row.
pub open spec fn spec_index(opts: IndexOptions, entries: Seq<EntryInput>) -> Seq<RecordModel>
    decreases entries.len(),
{
    if entries.len() == 0 {
        Seq::empty()
    } else {
        let prev = spec_index(opts, entries.drop_last());
        let e = entries.last();
        if has_path(prev, e@.path) {
            prev
        } else {
            prev.push(spec_record_of(opts, e@))
        }
    }
}

/// Byte-for-byte equality of two byte vectors.
pub fn bytes_eq(a: &Vec<u8>, b: &Vec<u8>) -> (r: bool)
    ensures
        r <==> a@ == b@,
{
    if a.len() != b.len() {
        return false;
    }
    let mut i: usize = 0;
    while i < a.len()
        invariant
            0 <= i <= a.len(),
            a@.len() == b@.len(),
            forall|k: int| 0 <= k < i ==> a@[k] == b@[k],
        decreases a.len() - i,
    {
        if a[i] != b[i] {
            return false;
        }
        i = i + 1;
    }
    proof {
        assert(a@ =~= b@);
    }
    true
}

impl IndexTable {
    /// A new, empty table for a run with the given options.
    pub fn new(options: IndexOptions) -> (t: IndexTable)
        ensures
            t@.options == options,
            t@.rows.len() == 0,
            table_wf(t@),
    {
        let t = IndexTable { options, rows: Vec::new() };
        proof {
            assert(t@.rows =~= Seq::<RecordModel>::empty());
        }
        t
    }

    /// The number of rows.
    pub fn row_count(&self) -> (n: usize)
        ensures
            n == self@.rows.len(),
    {
        self.rows.len()
    }

    /// Whether some row already carries this path.
    pub fn contains_path(&self, p: &Vec<u8>) -> (r: bool)
        ensures
            r == has_path(self@.rows, p@),
    {
        let mut i: usize = 0;
        while i < self.rows.len()
            invariant
                0 <= i <= self.rows.len(),
                self@.rows.len() == self.rows@.len(),
                forall|k: int| 0 <= k < self.rows@.len() ==> #[trigger] self@.rows[k]
                    == self.rows@[k]@,
                forall|k: int| 0 <= k < i ==> #[trigger] self@.rows[k].path != p@,
            decreases self.rows.len() - i,
        {
            if bytes_eq(&self.rows[i].path, p) {
                assert(self@.rows[i as int].path == p@);
                return true;
            }
            i = i + 1;
        }
        false
    }

    /// Appends the row for one traversal entry unless its path is already
    /// recorded; returns whether a row was appended. The single way a
    /// table grows: one row per newly seen path, nothing ever removed.
    pub fn push_entry(&mut self, e: EntryInput) -> (added: bool)
        requires
            table_wf(old(self)@),
        ensures
            final(self)@.options == old(self)@.options,
            added == !has_path(old(self)@.rows, e@.path),
            added ==> final(self)@.rows == old(self)@.rows.push(
                spec_record_of(old(self)@.options, e@),
            ),
            !added ==> final(self)@.rows == old(self)@.rows,
            table_wf(final(self)@),
    {
        if self.contains_path(&e.path) {
            return false;
        }
        let ghost old_rows = self@.rows;
        let ghost opts = self.options;
        let ghost em = e@;
        let r = crate::record::record_for_entry(self.options, e);
        self.rows.push(r);
        proof {
            assert(final(self)@.rows =~= old_rows.push(spec_record_of(opts, em)));
            lemma_record_of_shape(opts, em);
            let rows2 = final(self)@.rows;
            assert forall|i: int, j: int| 0 <= i < j < rows2.len() implies #[trigger] rows2[i].path
                != #[trigger] rows2[j].path by {
                if j == rows2.len() - 1 {
                    assert(rows2[i] == old_rows[i]);
                    assert(!has_path(old_rows, em.path));
                }
            }
        }
        true
    }
}

/// Runs the whole assembly step at once: folds a traversal sequence into
/// a finished table. The result is pinned exactly: its rows are
/// `spec_index` of the entries, so one row per entry with a fresh path,
/// in traversal order, and the table is well-formed.
pub fn index_from_entries(options: IndexOptions, entries: Vec<EntryInput>) -> (t: IndexTable)
    ensures
        t@.options == options,
        t@.rows == spec_index(options, entries@),
        table_wf(t@),
{
    let mut t = IndexTable::new(options);
    let mut rest = entries;
    let total = rest.len();
    let ghost all = rest@;
    let mut i: usize = 0;
    proof {
        assert(all.len() == total);
        assert(t@.rows =~= spec_index(options, all.take(0)));
    }
    while rest.len() > 0
        invariant
            t@.options == options,
            table_wf(t@),
            all.len() <= usize::MAX,
            i + rest@.len() == all.len(),
            rest@ =~= all.skip(i as int),
            t@.rows == spec_index(options, all.take(i as int)),
        decreases rest.len(),
    {
        let e = rest.remove(0);
        proof {
            assert(e == all[i as int]);
        }
        t.push_entry(e);
        proof {
            assert(all.take(i + 1 as int).drop_last() =~= all.take(i as int));
            assert(all.take(i + 1 as int).last() == all[i as int]);
            assert(rest@ =~= all.skip(i + 1 as int));
        }
        i = i + 1;
    }
    proof {
        assert(all.take(all.len() as int) =~= all);
    }
    t
}

/// Rows produced by an index run never repeat a path, whatever the
/// traversal yielded: an entry reachable both through its real path and
/// through a cyclic symlink is recorded once.
pub proof fn lemma_index_paths_distinct(opts: IndexOptions, entries: Seq<EntryInput>)
    ensures
        paths_distinct(spec_index(opts, entries)),
    decreases entries.len(),
{
    if entries.len() > 0 {
        lemma_index_paths_distinct(opts, entries.drop_last());
    }
}

/// A path appears among the produced rows exactly when some traversal
/// entry carried it.
pub proof fn lemma_index_path_source(opts: IndexOptions, entries: Seq<EntryInput>, p: Seq<u8>)
    ensures
        has_path(spec_index(opts, entries), p) <==> exists|i: int|
            0 <= i < entries.len() && #[trigger] entries[i]@.path == p,
    decreases entries.len(),
{
    if entries.len() > 0 {
        lemma_index_path_source(opts, entries.drop_last(), p);
        let prev = spec_index(opts, entries.drop_last());
        let rows = spec_index(opts, entries);
        if has_path(rows, p) {
            if has_path(prev, p) {
                let k = choose|i: int| 0 <= i < entries.drop_last().len() && #[trigger] entries.drop_last()[i]@.path == p;
                assert(entries[k]@.path == p);
            } else {
                assert(entries[entries.len() - 1]@.path == p);
            }
        }
        if exists|i: int| 0 <= i < entries.len() && #[trigger] entries[i]@.path == p {
            let k = choose|i: int| 0 <= i < entries.len() && #[trigger] entries[i]@.path == p;
            if k < entries.len() - 1 {
                assert(entries.drop_last()[k]@.path == p);
                assert(has_path(prev, p));
                if !has_path(rows, p) {
                    assert(rows == prev || rows == prev.push(spec_record_of(opts, entries.last()@)));
                    let j = choose|i: int| 0 <= i < prev.len() && #[trigger] prev[i].path == p;
                    assert(rows[j].path == p);
                }
            } else {
                if !has_path(prev, p) {
                    let last = rows.len() - 1;
                    assert(rows[last].path == p);
                }
            }
        }
    }
}

/// When every traversal entry carries a distinct path — a tree with only
/// readable entries, walked without following symlink cycles — the table
/// holds exactly one row per filesystem entry: row count equals entry
/// count, and row `i` is the record of entry `i`.
pub proof fn lemma_index_full_count(opts: IndexOptions, entries: Seq<EntryInput>)
    requires
        forall|i: int, j: int|
            0 <= i < j < entries.len() ==> #[trigger] entries[i]@.path != #[trigger] entries[j]@.path,
    ensures
        spec_index(opts, entries).len() == entries.len(),
        forall|i: int| 0 <= i < entries.len() ==> #[trigger] spec_index(opts, entries)[i]
            == spec_record_of(opts, entries[i]@),
    decreases entries.len(),
{
    if entries.len() > 0 {
        let head = entries.drop_last();
        assert forall|i: int, j: int| 0 <= i < j < head.len() implies #[trigger] head[i]@.path
            != #[trigger] head[j]@.path by {
            assert(entries[i]@.path != entries[j]@.path);
        }
        lemma_index_full_count(opts, head);
        let prev = spec_index(opts, head);
        let e = entries.last();
        if has_path(prev, e@.path) {
            lemma_index_path_source(opts, head, e@.path);
            let k = choose|i: int| 0 <= i < head.len() && #[trigger] head[i]@.path == e@.path;
            assert(entries[k]@.path == entries[entries.len() - 1]@.path);
            assert(false);
        }
        assert forall|i: int| 0 <= i < entries.len() implies #[trigger] spec_index(opts, entries)[i]
            == spec_record_of(opts, entries[i]@) by {
            if i < entries.len() - 1 {
                assert(head[i]@ == entries[i]@);
            }
        }
    }
}

/// Presence of the hash column across a well-formed table: a row carries
/// a hash cell exactly when hashing was enabled for the run and the row
/// is a file. Directories never carry one.
pub proof fn lemma_hash_column_presence(m: TableModel)
    requires
        table_wf(m),
    ensures
        forall|i: int| 0 <= i < m.rows.len() ==> (#[trigger] m.rows[i].content_hash is Some <==> (
        m.options.with_hash && !m.rows[i].is_directory)),
{
}

/// Presence of the metadata columns across a well-formed table: every row
/// carries size and modified-time cells exactly when metadata was enabled
/// for the run; otherwise both columns are absent across the whole table.
pub proof fn lemma_metadata_column_presence(m: TableModel)
    requires
        table_wf(m),
    ensures
        forall|i: int| 0 <= i < m.rows.len() ==> (#[trigger] m.rows[i].size is Some <==>
        m.options.with_metadata),
        forall|i: int| 0 <= i < m.rows.len() ==> (#[trigger] m.rows[i].modified_time is Some <==>
        m.options.with_metadata),
{
}

/// Population of the metadata cells over a whole run: with metadata
/// enabled, every successfully-stat'd entry's row carries its size and
/// modification time as values and every failed stat is recorded as a
/// field error; with metadata disabled both columns are absent across
/// the whole table.
pub proof fn lemma_metadata_population(opts: IndexOptions, entries: Seq<EntryInput>)
    requires
        forall|i: int, j: int|
            0 <= i < j < entries.len() ==> #[trigger] entries[i]@.path != #[trigger] entries[j]@.path,
    ensures
        forall|i: int| 0 <= i < entries.len() ==> spec_index(opts, entries)[i].size == (
        if opts.with_metadata {
            Some(
                match #[trigger] entries[i]@.meta {
                    Ok(m) => Ok(m.size),
                    Err(_) => Err(crate::record::FieldError::MetadataUnavailable),
                },
            )
        } else {
            None::<Result<u64, crate::record::FieldError>>
        }),
        forall|i: int| 0 <= i < entries.len() ==> spec_index(opts, entries)[i].modified_time == (
        if opts.with_metadata {
            Some(
                match #[trigger] entries[i]@.meta {
                    Ok(m) => Ok(m.modified),
                    Err(_) => Err(crate::record::FieldError::MetadataUnavailable),
                },
            )
        } else {
            None::<Result<u64, crate::record::FieldError>>
        }),
{
    lemma_index_full_count(opts, entries);
}

/// The stat outcomes of two runs agree on everything but the timestamp.
pub open spec fn meta_size_agrees(a: Result<crate::record::EntryMeta, ()>, b: Result<
    crate::record::EntryMeta,
    (),
>) -> bool {
    match (a, b) {
        (Ok(x), Ok(y)) => x.size == y.size,
        (Err(_), Err(_)) => true,
        _ => false,
    }
}

/// Two rows agree on everything but the modification time.
pub open spec fn record_content_agrees(x: RecordModel, y: RecordModel) -> bool {
    &&& x.path == y.path
    &&& x.is_directory == y.is_directory
    &&& x.size == y.size
    &&& x.content_hash == y.content_hash
}

/// Two row sequences agree pairwise on everything but modification times.
pub open spec fn rows_content_agree(a: Seq<RecordModel>, b: Seq<RecordModel>) -> bool {
    &&& a.len() == b.len()
    &&& forall|i: int| 0 <= i < a.len() ==> record_content_agrees(#[trigger] a[i], #[trigger] b[i])
}

/// Content stability: re-indexing an unchanged tree with the same options
/// yields the same `path`, `is_directory`, `size` and `content_hash`
/// columns, even where the second walk reports different modification
/// times.
pub proof fn lemma_index_content_stable(
    opts: IndexOptions,
    first: Seq<EntryInput>,
    second: Seq<EntryInput>,
)
    requires
        first.len() == second.len(),
        forall|i: int| 0 <= i < first.len() ==> #[trigger] first[i]@.path == second[i]@.path,
        forall|i: int| 0 <= i < first.len() ==> #[trigger] first[i]@.kind == second[i]@.kind,
        forall|i: int| 0 <= i < first.len() ==> meta_size_agrees(
            #[trigger] first[i]@.meta,
            second[i]@.meta,
        ),
        forall|i: int| 0 <= i < first.len() ==> #[trigger] first[i]@.hash == second[i]@.hash,
    ensures
        rows_content_agree(spec_index(opts, first), spec_index(opts, second)),
    decreases first.len(),
{
    if first.len() > 0 {
        let fh = first.drop_last();
        let sh = second.drop_last();
        assert forall|i: int| 0 <= i < fh.len() implies {
            &&& #[trigger] fh[i]@.path == sh[i]@.path
            &&& fh[i]@.kind == sh[i]@.kind
            &&& meta_size_agrees(fh[i]@.meta, sh[i]@.meta)
            &&& fh[i]@.hash == sh[i]@.hash
        } by {
            assert(first[i]@.path == second[i]@.path);
            assert(first[i]@.kind == second[i]@.kind);
            assert(meta_size_agrees(first[i]@.meta, second[i]@.meta));
            assert(first[i]@.hash == second[i]@.hash);
        }
        lemma_index_content_stable(opts, fh, sh);
        let pf = spec_index(opts, fh);
        let ps = spec_index(opts, sh);
        let ef = first.last();
        let es = second.last();
        assert(first[first.len() - 1]@.path == second[first.len() - 1]@.path);
        assert(first[first.len() - 1]@.kind == second[first.len() - 1]@.kind);
        assert(meta_size_agrees(first[first.len() - 1]@.meta, second[first.len() - 1]@.meta));
        assert(first[first.len() - 1]@.hash == second[first.len() - 1]@.hash);
        assert(has_path(pf, ef@.path) <==> has_path(ps, es@.path)) by {
            if has_path(pf, ef@.path) {
                let k = choose|i: int| 0 <= i < pf.len() && #[trigger] pf[i].path == ef@.path;
                assert(ps[k].path == es@.path);
            }
            if has_path(ps, es@.path) {
                let k = choose|i: int| 0 <= i < ps.len() && #[trigger] ps[i].path == es@.path;
                assert(pf[k].path == ef@.path);
            }
        }
        let rf = spec_index(opts, first);
        let rs = spec_index(opts, second);
        assert forall|i: int| 0 <= i < rf.len() implies record_content_agrees(
            #[trigger] rf[i],
            #[trigger] rs[i],
        ) by {
            if i < pf.len() {
                assert(rf[i] == pf[i]);
                assert(rs[i] == ps[i]);
                assert(record_content_agrees(pf[i], ps[i]));
            } else {
                assert(rf[i] == spec_record_of(opts, ef@));
                assert(rs[i] == spec_record_of(opts, es@));
                assert(ef@.path == es@.path);
                assert(ef@.kind == es@.kind);
                assert(meta_size_agrees(ef@.meta, es@.meta));
                assert(ef@.hash == es@.hash);
                assert(spec_record_of(opts, ef@).size == spec_record_of(opts, es@).size) by {
                    match (ef@.meta, es@.meta) {
                        (Ok(x), Ok(y)) => {
                            assert(x.size == y.size);
                        },
                        _ => {
                        },
                    }
                }
            }
        }
    }
}

} // verus!
