use vstd::prelude::*;

use crate::IndexOptions;
use crate::record::{FieldError, FileRecord, RecordModel, record_shape_ok};
use crate::table::{IndexTable, TableModel};

verus! {

/// A u64 as eight little-endian bytes.
pub open spec fn u64_le(x: u64) -> Seq<u8> {
    seq![
        (x & 0xff) as u8,
        ((x >> 8) & 0xff) as u8,
        ((x >> 16) & 0xff) as u8,
        ((x >> 24) & 0xff) as u8,
        ((x >> 32) & 0xff) as u8,
        ((x >> 40) & 0xff) as u8,
        ((x >> 48) & 0xff) as u8,
        ((x >> 56) & 0xff) as u8,
    ]
}

/// The u64 read back from eight little-endian bytes.
pub open spec fn le_u64(b: Seq<u8>) -> u64
    recommends
        b.len() == 8,
{
    (b[0] as u64) | ((b[1] as u64) << 8) | ((b[2] as u64) << 16) | ((b[3] as u64) << 24) | ((
    b[4] as u64) << 32) | ((b[5] as u64) << 40) | ((b[6] as u64) << 48) | ((b[7] as u64) << 56)
}

/// Reading back the eight little-endian bytes of a u64 yields it again.
pub proof fn lemma_u64_le_roundtrip(x: u64)
    ensures
        le_u64(u64_le(x)) == x,
{
    assert(((x & 0xff) as u8 as u64) | (((x >> 8) & 0xff) as u8 as u64) << 8 | (((x >> 16)
        & 0xff) as u8 as u64) << 16 | (((x >> 24) & 0xff) as u8 as u64) << 24 | (((x >> 32)
        & 0xff) as u8 as u64) << 32 | (((x >> 40) & 0xff) as u8 as u64) << 40 | (((x >> 48)
        & 0xff) as u8 as u64) << 48 | (((x >> 56) & 0xff) as u8 as u64) << 56 == x)
        by (bit_vector);
}

/// The option byte that heads a cache file.
pub open spec fn flags_of(opts: IndexOptions) -> u8 {
    if opts.with_metadata {
        if opts.with_hash {
            3
        } else {
            1
        }
    } else {
        if opts.with_hash {
            2
        } else {
            0
        }
    }
}

/// The options read back from an option byte; any other byte is not a
/// cache file.
pub open spec fn opts_of_flags(f: u8) -> Option<IndexOptions> {
    if f == 0 {
        Some(IndexOptions { with_metadata: false, with_hash: false })
    } else if f == 1 {
        Some(IndexOptions { with_metadata: true, with_hash: false })
    } else if f == 2 {
        Some(IndexOptions { with_metadata: false, with_hash: true })
    } else if f == 3 {
        Some(IndexOptions { with_metadata: true, with_hash: true })
    } else {
        None
    }
}

/// The metadata cells of one row on disk: nothing when the column is
/// absent, a zero tag for a failed stat, a one tag followed by size and
/// modification time when it succeeded.
pub open spec fn enc_meta(r: RecordModel) -> Seq<u8> {
    match (r.size, r.modified_time) {
        (Some(Ok(sz)), Some(Ok(mt))) => seq![1u8] + u64_le(sz) + u64_le(mt),
        (Some(_), _) => seq![0u8],
        (None, _) => Seq::empty(),
    }
}

/// The hash cell of one row on disk: nothing when the column is absent
/// for this row, a zero tag for a failed hash, a one tag followed by the
/// digest when it succeeded.
pub open spec fn enc_hash(r: RecordModel) -> Seq<u8> {
    match r.content_hash {
        Some(Ok(d)) => seq![1u8] + u64_le(d),
        Some(Err(_)) => seq![0u8],
        None => Seq::empty(),
    }
}

/// One row on disk: path length, path bytes, kind byte, then the
/// metadata and hash cells.
pub open spec fn enc_record(r: RecordModel) -> Seq<u8> {
    u64_le(r.path.len() as u64) + r.path + seq![if r.is_directory { 1u8 } else { 0u8 }]
        + enc_meta(r) + enc_hash(r)
}

/// All rows on disk, in table order.
pub open spec fn enc_rows(rows: Seq<RecordModel>) -> Seq<u8>
    decreases rows.len(),
{
    if rows.len() == 0 {
        Seq::empty()
    } else {
        enc_record(rows[0]) + enc_rows(rows.drop_first())
    }
}

/// A whole table on disk: the option byte, the row count, then the rows.
pub open spec fn spec_encode(m: TableModel) -> Seq<u8> {
    seq![flags_of(m.options)] + u64_le(m.rows.len() as u64) + enc_rows(m.rows)
}

/// Appending a row to a table appends its encoding to the table's.
pub proof fn lemma_enc_rows_snoc(rows: Seq<RecordModel>, r: RecordModel)
    ensures
        enc_rows(rows.push(r)) == enc_rows(rows) + enc_record(r),
    decreases rows.len(),
{
    if rows.len() == 0 {
        assert(rows.push(r).drop_first() =~= Seq::<RecordModel>::empty());
        assert(rows.push(r)[0] == r);
        assert(enc_rows(rows.push(r)) == enc_record(r) + enc_rows(
            rows.push(r).drop_first(),
        ));
        assert(enc_rows(rows.push(r).drop_first()) == Seq::<u8>::empty());
        assert(enc_record(r) + Seq::<u8>::empty() =~= Seq::<u8>::empty() + enc_record(r));
        assert(enc_rows(rows) == Seq::<u8>::empty());
    } else {
        assert(rows.push(r).drop_first() =~= rows.drop_first().push(r));
        lemma_enc_rows_snoc(rows.drop_first(), r);
        assert(enc_rows(rows.push(r)) == enc_record(rows[0]) + (enc_rows(rows.drop_first())
            + enc_record(r)));
        assert(enc_record(rows[0]) + (enc_rows(rows.drop_first()) + enc_record(r)) =~= (enc_record(
            rows[0],
        ) + enc_rows(rows.drop_first())) + enc_record(r));
    }
}

/// Reads the metadata cells of one row at offset `o`: no bytes when the
/// column is absent for the run, else a tag byte and, on a one tag, the
/// size and modification time.
pub open spec fn parse_meta(s: Seq<u8>, o: int, opts: IndexOptions) -> Option<
    (Option<Result<u64, FieldError>>, Option<Result<u64, FieldError>>, int),
> {
    if !opts.with_metadata {
        Some((None, None, o))
    } else if s.len() < o + 1 {
        None
    } else if s[o] == 0 {
        Some(
            (
                Some(Err(FieldError::MetadataUnavailable)),
                Some(Err(FieldError::MetadataUnavailable)),
                o + 1,
            ),
        )
    } else if s[o] == 1 {
        if s.len() < o + 17 {
            None
        } else {
            Some(
                (
                    Some(Ok(le_u64(s.subrange(o + 1, o + 9)))),
                    Some(Ok(le_u64(s.subrange(o + 9, o + 17)))),
                    o + 17,
                ),
            )
        }
    } else {
        None
    }
}

/// Reads the hash cell of one row at offset `o`: no bytes when the
/// column is absent for the run or the row is a directory, else a tag
/// byte and, on a one tag, the digest.
pub open spec fn parse_hash(s: Seq<u8>, o: int, opts: IndexOptions, is_dir: bool) -> Option<
    (Option<Result<u64, FieldError>>, int),
> {
    if !(opts.with_hash && !is_dir) {
        Some((None, o))
    } else if s.len() < o + 1 {
        None
    } else if s[o] == 0 {
        Some((Some(Err(FieldError::HashUnavailable)), o + 1))
    } else if s[o] == 1 {
        if s.len() < o + 9 {
            None
        } else {
            Some((Some(Ok(le_u64(s.subrange(o + 1, o + 9)))), o + 9))
        }
    } else {
        None
    }
}

/// Reads one row from the front of `s`, yielding the row and the number
/// of bytes it occupied, or nothing when the bytes are not a row.
pub open spec fn parse_record(s: Seq<u8>, opts: IndexOptions) -> Option<(RecordModel, int)> {
    if s.len() < 8 {
        None
    } else {
        let plen = le_u64(s.take(8)) as int;
        if s.len() < 9 + plen {
            None
        } else {
            let path = s.subrange(8, 8 + plen);
            let kb = s[8 + plen];
            if kb != 0 && kb != 1 {
                None
            } else {
                let is_dir = kb == 1;
                match parse_meta(s, 9 + plen, opts) {
                    None => None,
                    Some((size, mt, o2)) => match parse_hash(s, o2, opts, is_dir) {
                        None => None,
                        Some((hash, o3)) => Some(
                            (
                                RecordModel {
                                    path,
                                    is_directory: is_dir,
                                    size,
                                    modified_time: mt,
                                    content_hash: hash,
                                },
                                o3,
                            ),
                        ),
                    },
                }
            }
        }
    }
}

/// Reads `n` rows from the front of `s`.
pub open spec fn parse_rows(s: Seq<u8>, opts: IndexOptions, n: nat) -> Option<
    (Seq<RecordModel>, int),
>
    decreases n,
{
    if n == 0 {
        Some((Seq::empty(), 0))
    } else {
        match parse_record(s, opts) {
            None => None,
            Some((r, used)) => match parse_rows(s.skip(used), opts, (n - 1) as nat) {
                None => None,
                Some((rs, used2)) => Some((seq![r] + rs, used + used2)),
            },
        }
    }
}

/// Reads a whole cache file back: the option byte, the row count, then
/// exactly that many rows filling the file to its end. Anything else is
/// not a cache file.
pub open spec fn spec_decode(s: Seq<u8>) -> Option<TableModel> {
    if s.len() < 9 {
        None
    } else {
        match opts_of_flags(s[0]) {
            None => None,
            Some(options) => {
                let n = le_u64(s.subrange(1, 9));
                match parse_rows(s.skip(9), options, n as nat) {
                    None => None,
                    Some((rows, used)) => if used == s.len() - 9 {
                        Some(TableModel { options, rows })
                    } else {
                        None
                    },
                }
            },
        }
    }
}

/// A row the cache format can carry exactly: the column shape fits the
/// options and the path length fits the length field.
pub open spec fn record_encodable(opts: IndexOptions, r: RecordModel) -> bool {
    &&& record_shape_ok(opts, r)
    &&& r.path.len() <= u64::MAX
}

/// A table the cache format can carry exactly.
pub open spec fn table_encodable(m: TableModel) -> bool {
    &&& forall|i: int| 0 <= i < m.rows.len() ==> record_encodable(m.options, #[trigger] m.rows[i])
    &&& m.rows.len() <= u64::MAX
}

/// Reading one encoded row back yields that row, whatever follows it.
pub proof fn lemma_parse_record_inverts(opts: IndexOptions, r: RecordModel, rest: Seq<u8>)
    requires
        record_encodable(opts, r),
    ensures
        parse_record(enc_record(r) + rest, opts) == Some((r, enc_record(r).len() as int)),
{
    let e = enc_record(r);
    let s = e + rest;
    let a = u64_le(r.path.len() as u64);
    let plen = r.path.len() as int;
    let kseq = seq![if r.is_directory { 1u8 } else { 0u8 }];
    let m = enc_meta(r);
    let h = enc_hash(r);
    assert(a.len() == 8);
    assert(kseq.len() == 1);
    assert(e == a + r.path + kseq + m + h);
    assert(e.len() == 9 + plen + m.len() + h.len());
    assert(s.take(8) =~= a);
    lemma_u64_le_roundtrip(r.path.len() as u64);
    assert(le_u64(s.take(8)) as int == plen);
    assert(s.len() >= 9 + plen);
    assert(s.subrange(8, 8 + plen) =~= r.path);
    assert(s[8 + plen] == (if r.is_directory { 1u8 } else { 0u8 }));
    let o1 = 9 + plen;
    // the metadata cells
    match (r.size, r.modified_time) {
        (Some(Ok(sz)), Some(Ok(mt))) => {
            assert(m == seq![1u8] + u64_le(sz) + u64_le(mt));
            assert(m.len() == 17);
            assert(s[o1] == 1);
            assert(s.subrange(o1 + 1, o1 + 9) =~= u64_le(sz));
            assert(s.subrange(o1 + 9, o1 + 17) =~= u64_le(mt));
            lemma_u64_le_roundtrip(sz);
            lemma_u64_le_roundtrip(mt);
            assert(opts.with_metadata);
            assert(parse_meta(s, o1, opts) == Some((r.size, r.modified_time, o1 + 17)));
        },
        (Some(Err(t1)), Some(Err(t2))) => {
            assert(m == seq![0u8]);
            assert(s[o1] == 0);
            assert(opts.with_metadata);
            assert(t1 == FieldError::MetadataUnavailable);
            assert(t2 == FieldError::MetadataUnavailable);
            assert(parse_meta(s, o1, opts) == Some((r.size, r.modified_time, o1 + 1)));
        },
        (None, _) => {
            assert(!opts.with_metadata);
            assert(r.modified_time is None);
            assert(parse_meta(s, o1, opts) == Some((r.size, r.modified_time, o1)));
        },
        _ => {
            assert(false);
        },
    }
    let o2 = o1 + m.len();
    assert(parse_meta(s, o1, opts) == Some((r.size, r.modified_time, o2)));
    // the hash cell
    match r.content_hash {
        Some(Ok(d)) => {
            assert(h == seq![1u8] + u64_le(d));
            assert(opts.with_hash && !r.is_directory);
            assert(s[o2] == 1);
            assert(s.subrange(o2 + 1, o2 + 9) =~= u64_le(d));
            lemma_u64_le_roundtrip(d);
            assert(parse_hash(s, o2, opts, r.is_directory) == Some((r.content_hash, o2 + 9)));
        },
        Some(Err(t)) => {
            assert(h == seq![0u8]);
            assert(opts.with_hash && !r.is_directory);
            assert(s[o2] == 0);
            assert(t == FieldError::HashUnavailable);
            assert(parse_hash(s, o2, opts, r.is_directory) == Some((r.content_hash, o2 + 1)));
        },
        None => {
            assert(!(opts.with_hash && !r.is_directory));
            assert(parse_hash(s, o2, opts, r.is_directory) == Some((r.content_hash, o2)));
        },
    }
    let o3 = o2 + h.len();
    assert(parse_hash(s, o2, opts, r.is_directory) == Some((r.content_hash, o3)));
    let parsed = RecordModel {
        path: s.subrange(8, 8 + plen),
        is_directory: s[8 + plen] == 1,
        size: r.size,
        modified_time: r.modified_time,
        content_hash: r.content_hash,
    };
    assert(parsed =~= r);
    assert(o3 == e.len());
}

/// Reading `n` encoded rows back yields those rows, whatever follows.
#[verifier::rlimit(100)]
pub proof fn lemma_parse_rows_invert(opts: IndexOptions, rows: Seq<RecordModel>, rest: Seq<u8>)
    requires
        forall|i: int| 0 <= i < rows.len() ==> record_encodable(opts, #[trigger] rows[i]),
    ensures
        parse_rows(enc_rows(rows) + rest, opts, rows.len() as nat) == Some(
            (rows, enc_rows(rows).len() as int),
        ),
    decreases rows.len(),
{
    if rows.len() == 0 {
        assert(enc_rows(rows) + rest =~= rest);
        assert(rows =~= Seq::<RecordModel>::empty());
    } else {
        let e0 = enc_record(rows[0]);
        let tailrows = rows.drop_first();
        let etail = enc_rows(tailrows);
        let s = enc_rows(rows) + rest;
        assert(enc_rows(rows) == e0 + etail);
        assert(s =~= e0 + (etail + rest));
        lemma_parse_record_inverts(opts, rows[0], etail + rest);
        assert(parse_record(s, opts) == Some((rows[0], e0.len() as int)));
        assert(s.skip(e0.len() as int) =~= etail + rest);
        assert forall|i: int| 0 <= i < tailrows.len() implies record_encodable(
            opts,
            #[trigger] tailrows[i],
        ) by {
            assert(tailrows[i] == rows[i + 1]);
        }
        lemma_parse_rows_invert(opts, tailrows, rest);
        assert(parse_rows(s.skip(e0.len() as int), opts, tailrows.len() as nat) == Some(
            (tailrows, etail.len() as int),
        ));
        assert(seq![rows[0]] + tailrows =~= rows);
        assert(parse_rows(s, opts, rows.len() as nat) == Some(
            (rows, (e0.len() + etail.len()) as int),
        ));
    }
}

/// Round trip: a cache file read back yields exactly the table that was
/// written — same options, same row count, same value in every cell.
pub proof fn lemma_cache_round_trip(m: TableModel)
    requires
        table_encodable(m),
    ensures
        spec_decode(spec_encode(m)) == Some(m),
{
    let s = spec_encode(m);
    let n64 = m.rows.len() as u64;
    assert(s.len() >= 9);
    assert(s[0] == flags_of(m.options));
    assert(opts_of_flags(flags_of(m.options)) == Some(m.options));
    assert(s.subrange(1, 9) =~= u64_le(n64));
    lemma_u64_le_roundtrip(n64);
    assert(le_u64(s.subrange(1, 9)) == n64);
    assert(n64 as nat == m.rows.len());
    lemma_parse_rows_invert(m.options, m.rows, Seq::empty());
    assert(s.skip(9) =~= enc_rows(m.rows) + Seq::<u8>::empty());
    assert(parse_rows(s.skip(9), m.options, m.rows.len() as nat) == Some(
        (m.rows, enc_rows(m.rows).len() as int),
    ));
    assert(enc_rows(m.rows).len() == s.len() - 9);
    assert(TableModel { options: m.options, rows: m.rows } =~= m);
}

/// Appends the eight little-endian bytes of a u64.
fn push_u64_le(out: &mut Vec<u8>, x: u64)
    ensures
        final(out)@ == old(out)@ + u64_le(x),
{
    proof {
        assert(x & 0xff <= 0xff && (x >> 8) & 0xff <= 0xff && (x >> 16) & 0xff <= 0xff && (x >> 24)
            & 0xff <= 0xff && (x >> 32) & 0xff <= 0xff && (x >> 40) & 0xff <= 0xff && (x >> 48)
            & 0xff <= 0xff && (x >> 56) & 0xff <= 0xff) by (bit_vector);
    }
    out.push((x & 0xff) as u8);
    out.push(((x >> 8) & 0xff) as u8);
    out.push(((x >> 16) & 0xff) as u8);
    out.push(((x >> 24) & 0xff) as u8);
    out.push(((x >> 32) & 0xff) as u8);
    out.push(((x >> 40) & 0xff) as u8);
    out.push(((x >> 48) & 0xff) as u8);
    out.push(((x >> 56) & 0xff) as u8);
    proof {
        assert(final(out)@ =~= old(out)@ + u64_le(x));
    }
}

/// Appends a copy of the given bytes.
fn push_bytes(out: &mut Vec<u8>, src: &Vec<u8>)
    ensures
        final(out)@ == old(out)@ + src@,
{
    let mut i: usize = 0;
    while i < src.len()
        invariant
            0 <= i <= src.len(),
            out@ == old(out)@ + src@.take(i as int),
        decreases src.len() - i,
    {
        out.push(src[i]);
        proof {
            assert(old(out)@ + src@.take(i + 1) =~= (old(out)@ + src@.take(i as int)).push(
                src@[i as int],
            ));
        }
        i = i + 1;
    }
    proof {
        assert(old(out)@ + src@.take(src@.len() as int) =~= old(out)@ + src@);
    }
}

/// Appends the on-disk form of one row.
fn push_record(out: &mut Vec<u8>, r: &FileRecord)
    ensures
        final(out)@ == old(out)@ + enc_record(r@),
{
    push_u64_le(out, r.path.len() as u64);
    push_bytes(out, &r.path);
    out.push(if r.is_directory { 1u8 } else { 0u8 });
    match (r.size, r.modified_time) {
        (Some(Ok(sz)), Some(Ok(mt))) => {
            out.push(1u8);
            push_u64_le(out, sz);
            push_u64_le(out, mt);
        },
        (Some(_), _) => {
            out.push(0u8);
        },
        (None, _) => {},
    }
    match r.content_hash {
        Some(Ok(d)) => {
            out.push(1u8);
            push_u64_le(out, d);
        },
        Some(Err(_)) => {
            out.push(0u8);
        },
        None => {},
    }
    proof {
        assert(final(out)@ =~= old(out)@ + enc_record(r@));
    }
}

/// Serializes a finished table to its on-disk bytes. The result is
/// exactly `spec_encode` of the table, so two identical tables always
/// produce identical cache files.
pub fn encode_table(t: &IndexTable) -> (out: Vec<u8>)
    ensures
        out@ == spec_encode(t@),
{
    let mut out: Vec<u8> = Vec::new();
    let flags: u8 = if t.options.with_metadata {
        if t.options.with_hash {
            3
        } else {
            1
        }
    } else {
        if t.options.with_hash {
            2
        } else {
            0
        }
    };
    out.push(flags);
    push_u64_le(&mut out, t.rows.len() as u64);
    let ghost rows = t@.rows;
    let ghost header = out@;
    proof {
        assert(rows.take(0) =~= Seq::<RecordModel>::empty());
        assert(header + enc_rows(rows.take(0)) =~= header);
    }
    let mut i: usize = 0;
    while i < t.rows.len()
        invariant
            0 <= i <= t.rows.len(),
            rows == t@.rows,
            rows.len() == t.rows@.len(),
            forall|k: int| 0 <= k < rows.len() ==> #[trigger] rows[k] == t.rows@[k]@,
            out@ == header + enc_rows(rows.take(i as int)),
        decreases t.rows.len() - i,
    {
        push_record(&mut out, &t.rows[i]);
        proof {
            lemma_enc_rows_snoc(rows.take(i as int), rows[i as int]);
            assert(rows.take(i + 1) =~= rows.take(i as int).push(rows[i as int]));
            assert(header + enc_rows(rows.take(i + 1)) =~= (header + enc_rows(rows.take(i as int)))
                + enc_record(rows[i as int]));
        }
        i = i + 1;
    }
    proof {
        assert(rows.take(rows.len() as int) =~= rows);
        assert(header =~= seq![flags_of(t@.options)] + u64_le(rows.len() as u64));
        assert(out@ =~= spec_encode(t@));
    }
    out
}

/// Any row the parser accepts has the column shape fixed by the options:
/// its cells were built from the option bits and the kind byte alone.
pub proof fn lemma_parse_record_shape(s: Seq<u8>, opts: IndexOptions)
    requires
        parse_record(s, opts) is Some,
    ensures
        record_shape_ok(opts, parse_record(s, opts)->Some_0.0),
{
}

/// Any row sequence the parser accepts is uniformly shaped.
pub proof fn lemma_parse_rows_shape(s: Seq<u8>, opts: IndexOptions, n: nat)
    requires
        parse_rows(s, opts, n) is Some,
    ensures
        forall|i: int| 0 <= i < parse_rows(s, opts, n)->Some_0.0.len() ==> record_shape_ok(
            opts,
            #[trigger] parse_rows(s, opts, n)->Some_0.0[i],
        ),
    decreases n,
{
    if n > 0 {
        lemma_parse_record_shape(s, opts);
        let (r, used) = parse_record(s, opts)->Some_0;
        lemma_parse_rows_shape(s.skip(used), opts, (n - 1) as nat);
        let rest = parse_rows(s.skip(used), opts, (n - 1) as nat)->Some_0.0;
        let whole = parse_rows(s, opts, n)->Some_0.0;
        assert(whole == seq![r] + rest);
        assert forall|i: int| 0 <= i < whole.len() implies record_shape_ok(
            opts,
            #[trigger] whole[i],
        ) by {
            if i > 0 {
                assert(whole[i] == rest[i - 1]);
            }
        }
    }
}

/// Every table read back from a cache file is uniformly shaped: the
/// presence of each optional cell follows the file's option byte and the
/// row's kind, across all rows — one schema for the whole table.
pub proof fn lemma_decode_shape(s: Seq<u8>)
    requires
        spec_decode(s) is Some,
    ensures
        forall|i: int| 0 <= i < spec_decode(s)->Some_0.rows.len() ==> record_shape_ok(
            spec_decode(s)->Some_0.options,
            #[trigger] spec_decode(s)->Some_0.rows[i],
        ),
{
    let m = spec_decode(s)->Some_0;
    let n = le_u64(s.subrange(1, 9));
    lemma_parse_rows_shape(s.skip(9), m.options, n as nat);
}

/// Reads a u64 from eight little-endian bytes at `pos`.
fn read_u64_le(bytes: &Vec<u8>, pos: usize) -> (x: u64)
    requires
        pos + 8 <= bytes@.len(),
    ensures
        x == le_u64(bytes@.subrange(pos as int, pos + 8)),
{
    let len = bytes.len();
    proof {
        assert(pos + 8 <= len);
    }
    let b0 = bytes[pos] as u64;
    let b1 = bytes[pos + 1] as u64;
    let b2 = bytes[pos + 2] as u64;
    let b3 = bytes[pos + 3] as u64;
    let b4 = bytes[pos + 4] as u64;
    let b5 = bytes[pos + 5] as u64;
    let b6 = bytes[pos + 6] as u64;
    let b7 = bytes[pos + 7] as u64;
    let x = b0 | (b1 << 8) | (b2 << 16) | (b3 << 24) | (b4 << 32) | (b5 << 40) | (b6 << 48) | (b7
        << 56);
    proof {
        let sub = bytes@.subrange(pos as int, pos + 8);
        assert(sub[0] == bytes@[pos as int]);
        assert(sub[1] == bytes@[pos + 1]);
        assert(sub[2] == bytes@[pos + 2]);
        assert(sub[3] == bytes@[pos + 3]);
        assert(sub[4] == bytes@[pos + 4]);
        assert(sub[5] == bytes@[pos + 5]);
        assert(sub[6] == bytes@[pos + 6]);
        assert(sub[7] == bytes@[pos + 7]);
    }
    x
}

/// Copies the bytes between `start` and `end`.
fn bytes_range(bytes: &Vec<u8>, start: usize, end: usize) -> (r: Vec<u8>)
    requires
        start <= end <= bytes@.len(),
    ensures
        r@ == bytes@.subrange(start as int, end as int),
{
    let mut out: Vec<u8> = Vec::new();
    let mut i: usize = start;
    proof {
        assert(out@ =~= bytes@.subrange(start as int, start as int));
    }
    while i < end
        invariant
            start <= i <= end <= bytes@.len(),
            out@ == bytes@.subrange(start as int, i as int),
        decreases end - i,
    {
        out.push(bytes[i]);
        proof {
            assert(bytes@.subrange(start as int, i + 1) =~= bytes@.subrange(
                start as int,
                i as int,
            ).push(bytes@[i as int]));
        }
        i = i + 1;
    }
    out
}

/// Reads one row at `pos`, exactly as the specification parser does:
/// it yields a row and the position after it precisely when `parse_record`
/// does on the bytes from `pos` on.
#[verifier::rlimit(100)]
fn parse_one_record(bytes: &Vec<u8>, pos: usize, opts: IndexOptions) -> (r: Option<
    (FileRecord, usize),
>)
    requires
        pos <= bytes@.len(),
    ensures
        (r is None) <==> (parse_record(bytes@.skip(pos as int), opts) is None),
        r matches Some((fr, np)) ==> (parse_record(bytes@.skip(pos as int), opts) matches Some(
            (rm, used),
        ) && fr@ == rm && np == pos + used && pos < np <= bytes@.len()),
{
    let ghost s = bytes@.skip(pos as int);
    let len = bytes.len();
    if len - pos < 8 {
        return None;
    }
    let plen64 = read_u64_le(bytes, pos);
    proof {
        assert(s.take(8) =~= bytes@.subrange(pos as int, pos + 8));
    }
    let rem = len - pos;
    if plen64 > rem as u64 || (rem as u64) - plen64 < 9 {
        proof {
            assert(s.len() < 9 + le_u64(s.take(8)) as int);
        }
        return None;
    }
    let plen = plen64 as usize;
    proof {
        assert(s.len() >= 9 + le_u64(s.take(8)) as int);
    }
    let path = bytes_range(bytes, pos + 8, pos + 8 + plen);
    proof {
        assert(s.subrange(8, 8 + plen as int) =~= bytes@.subrange(pos + 8, pos + 8 + plen as int));
    }
    let kb = bytes[pos + 8 + plen];
    proof {
        assert(s[8 + plen as int] == bytes@[pos + 8 + plen as int]);
    }
    if kb != 0 && kb != 1 {
        return None;
    }
    let is_directory = kb == 1;
    let mut o: usize = pos + 9 + plen;
    let ghost orel = 9 + plen as int;
    let size: Option<Result<u64, FieldError>>;
    let modified_time: Option<Result<u64, FieldError>>;
    if opts.with_metadata {
        if len - o < 1 {
            proof {
                assert(s.len() < orel + 1);
            }
            return None;
        }
        let tag = bytes[o];
        proof {
            assert(s[orel] == bytes@[o as int]);
        }
        if tag == 0 {
            size = Some(Err(FieldError::MetadataUnavailable));
            modified_time = Some(Err(FieldError::MetadataUnavailable));
            o = o + 1;
        } else if tag == 1 {
            if len - o < 17 {
                proof {
                    assert(s.len() < orel + 17);
                }
                return None;
            }
            let sz = read_u64_le(bytes, o + 1);
            let mt = read_u64_le(bytes, o + 9);
            proof {
                assert(s.subrange(orel + 1, orel + 9) =~= bytes@.subrange(o + 1, o + 9));
                assert(s.subrange(orel + 9, orel + 17) =~= bytes@.subrange(o + 9, o + 17));
            }
            size = Some(Ok(sz));
            modified_time = Some(Ok(mt));
            o = o + 17;
        } else {
            proof {
                assert(parse_meta(s, orel, opts) is None);
            }
            return None;
        }
    } else {
        size = None;
        modified_time = None;
    }
    let ghost o2rel = o - pos;
    proof {
        assert(parse_meta(s, orel, opts) == Some((size, modified_time, o2rel)));
    }
    let content_hash: Option<Result<u64, FieldError>>;
    if opts.with_hash && !is_directory {
        if len - o < 1 {
            proof {
                assert(s.len() < o2rel + 1);
            }
            return None;
        }
        let tag = bytes[o];
        proof {
            assert(s[o2rel] == bytes@[o as int]);
        }
        if tag == 0 {
            content_hash = Some(Err(FieldError::HashUnavailable));
            o = o + 1;
        } else if tag == 1 {
            if len - o < 9 {
                proof {
                    assert(s.len() < o2rel + 9);
                }
                return None;
            }
            let d = read_u64_le(bytes, o + 1);
            proof {
                assert(s.subrange(o2rel + 1, o2rel + 9) =~= bytes@.subrange(o + 1, o + 9));
            }
            content_hash = Some(Ok(d));
            o = o + 9;
        } else {
            proof {
                assert(parse_hash(s, o2rel, opts, is_directory) is None);
            }
            return None;
        }
    } else {
        content_hash = None;
    }
    let ghost o3rel = o - pos;
    proof {
        assert(parse_hash(s, o2rel, opts, is_directory) == Some((content_hash, o3rel)));
    }
    let fr = FileRecord { path, is_directory, size, modified_time, content_hash };
    proof {
        let parsed = parse_record(s, opts)->Some_0;
        assert(fr@ =~= parsed.0);
    }
    Some((fr, o))
}

/// Deserializes a cache file back into a table: it yields a table exactly
/// when the bytes are a well-formed cache file (`spec_decode` succeeds),
/// and then the table read back is exactly the one the file encodes.
/// Together with `lemma_cache_round_trip`, reading a written cache yields
/// the written table again, cell for cell.
pub fn decode_table(bytes: &Vec<u8>) -> (r: Option<IndexTable>)
    ensures
        (r is None) <==> (spec_decode(bytes@) is None),
        r matches Some(t) ==> spec_decode(bytes@) == Some(t@),
{
    let len = bytes.len();
    if len < 9 {
        return None;
    }
    let flags = bytes[0];
    if flags > 3 {
        proof {
            assert(opts_of_flags(bytes@[0]) is None);
        }
        return None;
    }
    let options = IndexOptions {
        with_metadata: flags == 1 || flags == 3,
        with_hash: flags == 2 || flags == 3,
    };
    proof {
        assert(opts_of_flags(bytes@[0]) == Some(options));
    }
    let n = read_u64_le(bytes, 1);
    proof {
        assert(le_u64(bytes@.subrange(1, 9)) == n);
    }
    let mut rows: Vec<FileRecord> = Vec::new();
    let mut pos: usize = 9;
    let mut i: u64 = 0;
    proof {
        assert(rows@.map_values(|fr: FileRecord| fr@) =~= Seq::<RecordModel>::empty());
        match parse_rows(bytes@.skip(9), options, n as nat) {
            Some((rs, u)) => {
                assert(rows@.map_values(|fr: FileRecord| fr@) + rs =~= rs);
            },
            None => {},
        }
    }
    while i < n
        invariant
            9 <= pos <= len,
            0 <= i <= n,
            len == bytes@.len(),
            opts_of_flags(bytes@[0]) == Some(options),
            le_u64(bytes@.subrange(1, 9)) == n,
            parse_rows(bytes@.skip(9), options, n as nat) == (match parse_rows(
                bytes@.skip(pos as int),
                options,
                (n - i) as nat,
            ) {
                None => None::<(Seq<RecordModel>, int)>,
                Some((rs, u)) => Some(
                    (rows@.map_values(|fr: FileRecord| fr@) + rs, (pos - 9) + u),
                ),
            }),
        decreases n - i,
    {
        let ghost rows_before = rows@.map_values(|fr: FileRecord| fr@);
        let step = parse_one_record(bytes, pos, options);
        match step {
            None => {
                proof {
                    assert(parse_rows(bytes@.skip(pos as int), options, (n - i) as nat) is None);
                    assert(parse_rows(bytes@.skip(9), options, n as nat) is None);
                    assert(spec_decode(bytes@) is None);
                }
                return None;
            },
            Some((fr, np)) => {
                proof {
                    let srem = bytes@.skip(pos as int);
                    let used = np - pos;
                    assert(parse_record(srem, options) == Some((fr@, used as int)));
                    assert(srem.skip(used as int) =~= bytes@.skip(np as int));
                    assert(rows@.push(fr).map_values(|fr2: FileRecord| fr2@) =~= rows_before.push(
                        fr@,
                    ));
                    match parse_rows(bytes@.skip(np as int), options, (n - i - 1) as nat) {
                        Some((rs, u)) => {
                            assert(seq![fr@] + rs =~= rs.insert(0, fr@));
                            assert(rows_before + (seq![fr@] + rs) =~= rows_before.push(fr@)
                                + rs);
                        },
                        None => {},
                    }
                }
                rows.push(fr);
                pos = np;
                i = i + 1;
            },
        }
    }
    proof {
        assert(parse_rows(bytes@.skip(pos as int), options, (n - i) as nat) == Some(
            (Seq::<RecordModel>::empty(), 0int),
        ));
        assert(rows@.map_values(|fr: FileRecord| fr@) + Seq::<RecordModel>::empty() =~= rows@
            .map_values(|fr: FileRecord| fr@));
    }
    if pos != len {
        proof {
            assert(spec_decode(bytes@) is None);
        }
        return None;
    }
    let t = IndexTable { options, rows };
    proof {
        assert(t@ =~= TableModel {
            options,
            rows: rows@.map_values(|fr: FileRecord| fr@),
        });
    }
    Some(t)
}

} // verus!
