use vstd::prelude::*;
use vstd::slice::slice_subrange;
use crate::error::FormatError;
use crate::scan::RECORD_DELIMITER;
use crate::search::{find, find_byte, lemma_find};

verus! {

/// Position `at` of `data` is a record boundary: the start, or just after a
/// record delimiter.
pub open spec fn ends_record(data: Seq<u8>, at: int) -> bool {
    at == 0 || data[at - 1] == RECORD_DELIMITER
}

/// `rs` are contiguous ranges covering `data` from start to end, in order,
/// each ending on a record boundary.
pub open spec fn is_partition(data: Seq<u8>, rs: Seq<(usize, usize)>) -> bool {
    &&& rs.len() >= 1
    &&& rs[0].0 == 0
    &&& rs.last().1 == data.len()
    &&& forall|i: int|
        0 <= i < rs.len() ==> (#[trigger] rs[i]).0 <= rs[i].1 && ends_record(data, rs[i].1 as int)
    &&& forall|i: int| 0 <= i < rs.len() - 1 ==> (#[trigger] rs[i]).1 == rs[i + 1].0
}

/// Each range but the last is cut at the first record delimiter found at or
/// after `step` bytes from its start; the last starts within `step` bytes of
/// the end and takes the rest.
pub open spec fn follows_cut_rule(data: Seq<u8>, rs: Seq<(usize, usize)>, step: int) -> bool {
    &&& forall|i: int|
        0 <= i < rs.len() - 1 ==> (#[trigger] rs[i]).0 + step < data.len() && find(
            data.subrange(rs[i].0 + step, data.len() as int),
            RECORD_DELIMITER,
        ) == Some((rs[i].1 - 1 - rs[i].0 - step) as nat) && rs[i].1 - 1 >= rs[i].0 + step
    &&& rs.last().0 + step >= data.len()
}

/// Splits `data` into record-aligned ranges of about `len / jobs` bytes for
/// independent workers. Fails when a non-empty buffer does not end with a
/// record delimiter.
pub fn split_chunks(data: &[u8], jobs: usize) -> (r: Result<Vec<(usize, usize)>, FormatError>)
    requires
        jobs >= 1,
    ensures
        r is Err <==> data@.len() > 0 && data@.last() != RECORD_DELIMITER,
        match r {
            Ok(rs) => is_partition(data@, rs@) && follows_cut_rule(
                data@,
                rs@,
                (data@.len() / jobs as nat) as int,
            ),
            Err(e) => e == FormatError::MissingTrailingNewline,
        },
{
    let len = data.len();
    if len > 0 && data[len - 1] != RECORD_DELIMITER {
        return Err(FormatError::MissingTrailingNewline);
    }
    let step = len / jobs;
    let mut ranges: Vec<(usize, usize)> = Vec::new();
    let mut first: usize = 0;
    while step < len - first
        invariant
            len == data@.len(),
            step == len / jobs,
            first <= len,
            len > 0 ==> data@[len - 1] == RECORD_DELIMITER,
            ranges@.len() == 0 ==> first == 0,
            ranges@.len() > 0 ==> ranges@[0].0 == 0 && ranges@.last().1 == first,
            forall|i: int|
                0 <= i < ranges@.len() ==> (#[trigger] ranges@[i]).0 <= ranges@[i].1
                    && ends_record(data@, ranges@[i].1 as int),
            forall|i: int|
                0 <= i < ranges@.len() - 1 ==> (#[trigger] ranges@[i]).1 == ranges@[i + 1].0,
            forall|i: int|
                0 <= i < ranges@.len() ==> (#[trigger] ranges@[i]).0 + step < data@.len() && find(
                    data@.subrange(ranges@[i].0 + step, data@.len() as int),
                    RECORD_DELIMITER,
                ) == Some((ranges@[i].1 - 1 - ranges@[i].0 - step) as nat) && ranges@[i].1 - 1
                    >= ranges@[i].0 + step,
        decreases len - first,
    {
        let last = first + step;
        let tail = slice_subrange(data, last, len);
        proof {
            lemma_find(tail@, RECORD_DELIMITER);
        }
        let pos = match find_byte(RECORD_DELIMITER, tail) {
            Some(p) => p,
            None => {
                assert(tail@[len - 1 - last] == RECORD_DELIMITER);
                return Err(FormatError::MissingTrailingNewline);
            },
        };
        assert(data@[last + pos] == RECORD_DELIMITER);
        ranges.push((first, last + pos + 1));
        first = last + pos + 1;
    }
    ranges.push((first, len));
    Ok(ranges)
}

/// The text of each range.
pub open spec fn chunk_texts(data: Seq<u8>, rs: Seq<(usize, usize)>) -> Seq<Seq<u8>> {
    rs.map_values(|r: (usize, usize)| data.subrange(r.0 as int, r.1 as int))
}

/// The parts joined in order.
pub open spec fn concat_all(cs: Seq<Seq<u8>>) -> Seq<u8>
    decreases cs.len(),
{
    if cs.len() == 0 {
        Seq::empty()
    } else {
        concat_all(cs.drop_last()) + cs.last()
    }
}

/// The ranges of a partition join back into the whole buffer, with no gap and
/// no overlap.
pub proof fn lemma_partition_rebuilds(data: Seq<u8>, rs: Seq<(usize, usize)>)
    requires
        is_partition(data, rs),
    ensures
        concat_all(chunk_texts(data, rs)) == data,
{
    lemma_partition_prefix(data, rs, rs.len() as int);
    assert(rs.take(rs.len() as int) =~= rs);
    assert(data.subrange(0, data.len() as int) =~= data);
}

proof fn lemma_partition_prefix(data: Seq<u8>, rs: Seq<(usize, usize)>, k: int)
    requires
        is_partition(data, rs),
        1 <= k <= rs.len(),
    ensures
        concat_all(chunk_texts(data, rs.take(k))) == data.subrange(0, rs[k - 1].1 as int),
    decreases k,
{
    let cs = chunk_texts(data, rs.take(k));
    let r = rs[k - 1];
    lemma_partition_bounds(data, rs, k - 1);
    assert(cs.last() == data.subrange(r.0 as int, r.1 as int));
    assert(concat_all(cs) == concat_all(cs.drop_last()) + cs.last());
    if k == 1 {
        assert(r.0 == 0);
        assert(concat_all(Seq::<Seq<u8>>::empty()) == Seq::<u8>::empty());
        assert(cs.drop_last() =~= Seq::<Seq<u8>>::empty());
        assert(Seq::<u8>::empty() + cs.last() =~= data.subrange(0, r.1 as int));
    } else {
        lemma_partition_prefix(data, rs, k - 1);
        assert(cs.drop_last() =~= chunk_texts(data, rs.take(k - 1)));
        let p = rs[k - 2];
        assert(p.1 == r.0);
        assert(data.subrange(0, p.1 as int) + data.subrange(r.0 as int, r.1 as int)
            =~= data.subrange(0, r.1 as int));
    }
}

proof fn lemma_partition_bounds(data: Seq<u8>, rs: Seq<(usize, usize)>, i: int)
    requires
        is_partition(data, rs),
        0 <= i < rs.len(),
    ensures
        0 <= rs[i].0 <= rs[i].1 <= data.len(),
    decreases rs.len() - i,
{
    assert(rs[i].0 <= rs[i].1);
    if i < rs.len() - 1 {
        lemma_partition_bounds(data, rs, i + 1);
        assert(rs[i].1 == rs[i + 1].0);
    }
}

} // verus!
