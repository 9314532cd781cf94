use vstd::prelude::*;
use crate::parse::token_value;
use crate::scan::{
    group, merge_maps, merge_seq, records, scan, with_record, GroupView, RecordView,
    FIELD_DELIMITER, RECORD_DELIMITER,
};
use crate::search::{find, lemma_find, lemma_find_concat};
use crate::split::{chunk_texts, concat_all, is_partition, lemma_partition_rebuilds};

verus! {

/// Records of a buffer that parses without error, followed by more text, come
/// first and unchanged: such a buffer ends exactly at a record boundary.
pub proof fn lemma_records_concat(a: Seq<u8>, b: Seq<u8>)
    requires
        records(a).1 is None,
    ensures
        records(a + b) == (records(a).0 + records(b).0, records(b).1),
    decreases a.len(),
{
    if a.len() == 0 {
        assert(a + b =~= b);
        assert(records(a).0 + records(b).0 =~= records(b).0);
    } else {
        let ab = a + b;
        lemma_find(a, FIELD_DELIMITER);
        lemma_find_concat(a, b, FIELD_DELIMITER);
        let k = find(a, FIELD_DELIMITER)->Some_0;
        assert(ab.subrange(0, k as int) =~= a.subrange(0, k as int));
        let rest = a.subrange(k + 1int, a.len() as int);
        assert(ab.subrange(k + 1int, ab.len() as int) =~= rest + b);
        lemma_find(rest, RECORD_DELIMITER);
        lemma_find_concat(rest, b, RECORD_DELIMITER);
        let n = find(rest, RECORD_DELIMITER)->Some_0;
        assert((rest + b).subrange(0, n as int) =~= rest.subrange(0, n as int));
        let v = token_value(rest.subrange(0, n as int))->Some_0;
        let tail = a.subrange(k + n + 2int, a.len() as int);
        assert(ab.subrange(k + n + 2int, ab.len() as int) =~= tail + b);
        lemma_records_concat(tail, b);
        assert(seq![(a.subrange(0, k as int), v as i32)] + (records(tail).0 + records(b).0)
            =~= (seq![(a.subrange(0, k as int), v as i32)] + records(tail).0) + records(b).0);
    }
}

/// Grouping a concatenation of records is merging the groupings of the parts.
pub proof fn lemma_group_concat(r1: Seq<RecordView>, r2: Seq<RecordView>)
    ensures
        group(r1 + r2) == merge_maps(group(r1), group(r2)),
    decreases r2.len(),
{
    if r2.len() == 0 {
        assert(r1 + r2 =~= r1);
        assert(merge_maps(group(r1), Map::empty()) =~= group(r1));
    } else {
        let init = r2.drop_last();
        let (key, v) = r2.last();
        lemma_group_concat(r1, init);
        assert((r1 + r2).drop_last() =~= r1 + init);
        assert((r1 + r2).last() == r2.last());
        let g1 = group(r1);
        let g2 = group(init);
        let lhs = with_record(merge_maps(g1, g2), key, v);
        let rhs = merge_maps(g1, with_record(g2, key, v));
        assert(lhs =~= rhs);
    }
}

/// Scanning record-aligned chunks one by one and merging the partial
/// groupings in order gives exactly what one sequential scan of the whole
/// buffer gives, sample keys included, whenever all those scans succeed.
pub proof fn lemma_parallel_matches_sequential(
    cs: Seq<Seq<u8>>,
    ms: Seq<Map<u64, GroupView>>,
)
    requires
        cs.len() == ms.len(),
        forall|i: int| 0 <= i < cs.len() ==> scan(#[trigger] cs[i]) == Ok::<
            Map<u64, GroupView>,
            crate::error::FormatError,
        >(ms[i]),
        scan(concat_all(cs)) is Ok,
    ensures
        scan(concat_all(cs)) == Ok::<Map<u64, GroupView>, crate::error::FormatError>(
            merge_seq(ms),
        ),
{
    lemma_chunks_group(cs, ms);
}

/// For the chunks of any record-aligned partition of a buffer, merging the
/// chunks' scans in order gives the sequential scan of the buffer, whenever
/// all those scans succeed.
pub proof fn lemma_partition_scan_matches_sequential(
    data: Seq<u8>,
    rs: Seq<(usize, usize)>,
    ms: Seq<Map<u64, GroupView>>,
)
    requires
        is_partition(data, rs),
        rs.len() == ms.len(),
        forall|i: int| 0 <= i < rs.len() ==> scan(#[trigger] chunk_texts(data, rs)[i]) == Ok::<
            Map<u64, GroupView>,
            crate::error::FormatError,
        >(ms[i]),
        scan(data) is Ok,
    ensures
        scan(data) == Ok::<Map<u64, GroupView>, crate::error::FormatError>(merge_seq(ms)),
{
    lemma_partition_rebuilds(data, rs);
    lemma_parallel_matches_sequential(chunk_texts(data, rs), ms);
}

proof fn lemma_chunks_group(cs: Seq<Seq<u8>>, ms: Seq<Map<u64, GroupView>>)
    requires
        cs.len() == ms.len(),
        forall|i: int| 0 <= i < cs.len() ==> scan(#[trigger] cs[i]) == Ok::<
            Map<u64, GroupView>,
            crate::error::FormatError,
        >(ms[i]),
    ensures
        records(concat_all(cs)).1 is None,
        group(records(concat_all(cs)).0) == merge_seq(ms),
    decreases cs.len(),
{
    if cs.len() == 0 {
        assert(records(Seq::<u8>::empty()).0 =~= Seq::<RecordView>::empty());
    } else {
        let ci = cs.drop_last();
        let mi = ms.drop_last();
        assert forall|i: int| 0 <= i < ci.len() implies scan(#[trigger] ci[i]) == Ok::<
            Map<u64, GroupView>,
            crate::error::FormatError,
        >(mi[i]) by {
            assert(ci[i] == cs[i]);
        }
        lemma_chunks_group(ci, mi);
        let last = cs.last();
        assert(scan(cs[cs.len() - 1]) == Ok::<Map<u64, GroupView>, crate::error::FormatError>(
            ms[ms.len() - 1],
        ));
        lemma_records_concat(concat_all(ci), last);
        lemma_group_concat(records(concat_all(ci)).0, records(last).0);
    }
}

} // verus!
