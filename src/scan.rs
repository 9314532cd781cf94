use vstd::prelude::*;
use vstd::slice::slice_subrange;
use std::collections::HashMap;
use crate::error::FormatError;
use crate::key::{fingerprint, str_to_key};
use crate::parse::{parse_to_fixed_point, token_value};
use crate::search::{find, find_byte};
use crate::stats::{Stats, StatsView, MAX_VALUE, MIN_VALUE};

verus! {

broadcast use vstd::std_specs::hash::group_hash_axioms;

/// Separates a key from its value (`;`).
pub const FIELD_DELIMITER: u8 = 0x3b;

/// Ends a record (`\n`).
pub const RECORD_DELIMITER: u8 = 0x0a;

/// One parsed record: the key bytes and the value in tenths.
pub type RecordView = (Seq<u8>, i32);

/// What a group holds: the sample key bytes and the statistics.
pub type GroupView = (Seq<u8>, StatsView);

/// The records of `data` in order, up to the first malformed line, and the
/// error of that line if there is one. Every line must be `key;value\n`.
pub open spec fn records(data: Seq<u8>) -> (Seq<RecordView>, Option<FormatError>)
    decreases data.len(),
{
    if data.len() == 0 {
        (seq![], None)
    } else {
        match find(data, FIELD_DELIMITER) {
            None => (seq![], Some(FormatError::MissingFieldDelimiter)),
            Some(k) => {
                if find(data.subrange(0, k as int), RECORD_DELIMITER) is Some {
                    (seq![], Some(FormatError::MissingFieldDelimiter))
                } else {
                    let rest = data.subrange(k + 1int, data.len() as int);
                    match find(rest, RECORD_DELIMITER) {
                        None => (seq![], Some(FormatError::MissingNewline)),
                        Some(n) => match token_value(rest.subrange(0, n as int)) {
                            None => (seq![], Some(FormatError::InvalidValue)),
                            Some(v) => {
                                // always true; stated so that the recursion visibly shrinks
                                if k + n + 2 <= data.len() {
                                    let tail = records(data.subrange(k + n + 2int, data.len() as int));
                                    (seq![(data.subrange(0, k as int), v as i32)] + tail.0, tail.1)
                                } else {
                                    (seq![], None)
                                }
                            },
                        },
                    }
                }
            },
        }
    }
}

/// The grouping after one more record: a known fingerprint keeps its sample
/// key and adds the value; a new one starts with this record's key.
pub open spec fn with_record(m: Map<u64, GroupView>, key: Seq<u8>, v: i32) -> Map<u64, GroupView> {
    let fp = fingerprint(key);
    if m.contains_key(fp) {
        m.insert(fp, (m[fp].0, m[fp].1.add(v as int)))
    } else {
        m.insert(fp, (key, StatsView::empty().add(v as int)))
    }
}

/// The grouping of `recs` by fingerprint, in order.
pub open spec fn group(recs: Seq<RecordView>) -> Map<u64, GroupView>
    decreases recs.len(),
{
    if recs.len() == 0 {
        Map::empty()
    } else {
        with_record(group(recs.drop_last()), recs.last().0, recs.last().1)
    }
}

/// Every group's statistics fit their fixed-width fields.
pub open spec fn fits_all(m: Map<u64, GroupView>) -> bool {
    forall|fp: u64| m.contains_key(fp) ==> (#[trigger] m[fp]).1.fits()
}

/// Every group holds at least one value, all in the accepted range.
pub open spec fn all_in_domain(m: Map<u64, GroupView>) -> bool {
    forall|fp: u64| m.contains_key(fp) ==> (#[trigger] m[fp]).1.in_domain()
}

/// No prefix of `recs` makes a group overflow.
pub open spec fn no_overflow(recs: Seq<RecordView>) -> bool {
    forall|i: int| 0 <= i <= recs.len() ==> fits_all(#[trigger] group(recs.take(i)))
}

/// What scanning `data` gives: the grouping of its records, or the first
/// error met in order (an overflow, or a malformed line).
pub open spec fn scan(data: Seq<u8>) -> Result<Map<u64, GroupView>, FormatError> {
    let (recs, err) = records(data);
    if !no_overflow(recs) {
        Err(FormatError::Overflow)
    } else {
        match err {
            Some(e) => Err(e),
            None => Ok(group(recs)),
        }
    }
}

/// One group: a fingerprint, the first key seen with it, and its statistics.
#[derive(Clone, Copy, Debug)]
pub struct Group<'a> {
    pub fingerprint: u64,
    pub key: &'a [u8],
    pub stats: Stats,
}

/// A mapping from fingerprint to group, with groups kept in order of first sight.
pub struct Groups<'a> {
    entries: Vec<Group<'a>>,
    index: HashMap<u64, usize>,
}

impl<'a> View for Groups<'a> {
    type V = Map<u64, GroupView>;

    closed spec fn view(&self) -> Map<u64, GroupView> {
        Map::new(
            |fp: u64| self.index@.contains_key(fp),
            |fp: u64|
                (
                    self.entries@[self.index@[fp] as int].key@,
                    self.entries@[self.index@[fp] as int].stats@,
                ),
        )
    }
}

impl<'a> Groups<'a> {
    /// The index holds exactly the entries' fingerprints, each at its position.
    pub closed spec fn wf(&self) -> bool {
        &&& forall|fp: u64| #[trigger]
            self.index@.contains_key(fp) ==> self.index@[fp] < self.entries@.len()
                && self.entries@[self.index@[fp] as int].fingerprint == fp
        &&& forall|i: int|
            0 <= i < self.entries@.len() ==> self.index@.contains_key(
                (#[trigger] self.entries@[i]).fingerprint,
            ) && self.index@[self.entries@[i].fingerprint] == i
    }

    /// An empty mapping.
    pub fn new() -> (g: Self)
        ensures
            g.wf(),
            g@ == Map::<u64, GroupView>::empty(),
    {
        let g = Groups { entries: Vec::new(), index: HashMap::new() };
        assert(g@ =~= Map::<u64, GroupView>::empty());
        g
    }

    /// The groups in order of first sight.
    pub closed spec fn groups(&self) -> Seq<Group<'a>> {
        self.entries@
    }

    /// The groups in order of first sight: each fingerprint of the mapping
    /// once, with its sample key and statistics.
    pub fn as_slice(&self) -> (r: &[Group<'a>])
        requires
            self.wf(),
        ensures
            r@ == self.groups(),
            forall|i: int|
                0 <= i < r@.len() ==> self@.contains_key((#[trigger] r@[i]).fingerprint)
                    && self@[r@[i].fingerprint] == (r@[i].key@, r@[i].stats@),
            forall|i: int, j: int|
                0 <= i < j < r@.len() ==> (#[trigger] r@[i]).fingerprint != (#[trigger] r@[j]).fingerprint,
            forall|fp: u64|
                #[trigger] self@.contains_key(fp) ==> exists|i: int|
                    0 <= i < r@.len() && (#[trigger] r@[i]).fingerprint == fp,
    {
        assert forall|fp: u64| #[trigger] self@.contains_key(fp) implies exists|i: int|
            0 <= i < self.entries@.len() && (#[trigger] self.entries@[i]).fingerprint == fp by {
            let i = self.index@[fp] as int;
            assert(self.entries@[i].fingerprint == fp);
        }
        self.entries.as_slice()
    }

    /// Adds one record, or fails with `Overflow`, leaving the mapping as it
    /// was, when its group's sum or count would no longer fit.
    pub fn add_record(&mut self, key: &'a [u8], value: i32) -> (r: Result<(), FormatError>)
        requires
            old(self).wf(),
            fits_all(old(self)@),
            all_in_domain(old(self)@),
            MIN_VALUE <= value <= MAX_VALUE,
        ensures
            final(self).wf(),
            all_in_domain(final(self)@),
            r is Ok <==> fits_all(with_record(old(self)@, key@, value)),
            r is Ok ==> final(self)@ == with_record(old(self)@, key@, value),
            r is Err ==> r == Err::<(), FormatError>(FormatError::Overflow) && final(self)@ == old(
                self,
            )@,
    {
        let fp = str_to_key(key);
        let ghost m = self@;
        let ghost m2 = with_record(m, key@, value);
        match self.index.get(&fp) {
            Some(i) => {
                let i = *i;
                let mut g = self.entries[i];
                assert(m.contains_key(fp) && m[fp] == (g.key@, g.stats@));
                if g.stats.count == usize::MAX || (g.stats.sum as i64) + (value as i64)
                    > i32::MAX as i64 || (g.stats.sum as i64) + (value as i64) < i32::MIN as i64 {
                    assert(!m2[fp].1.fits());
                    return Err(FormatError::Overflow);
                }
                g.stats.add(value);
                self.entries.set(i, g);
                assert(self@ =~= m2);
                assert(fits_all(m2));
                assert(all_in_domain(m2));
            },
            None => {
                let mut s = Stats::new();
                s.add(value);
                let g = Group { fingerprint: fp, key, stats: s };
                let n = self.entries.len();
                self.entries.push(g);
                self.index.insert(fp, n);
                assert(self@ =~= m2);
                assert(fits_all(m2));
                assert(all_in_domain(m2));
            },
        }
        Ok(())
    }
}

/// Two groupings combined: a fingerprint present in both keeps the first
/// one's sample key and merges the statistics.
pub open spec fn merge_maps(a: Map<u64, GroupView>, b: Map<u64, GroupView>) -> Map<u64, GroupView> {
    Map::new(
        |fp: u64| a.contains_key(fp) || b.contains_key(fp),
        |fp: u64|
            if a.contains_key(fp) && b.contains_key(fp) {
                (a[fp].0, a[fp].1.merge(b[fp].1))
            } else if a.contains_key(fp) {
                a[fp]
            } else {
                b[fp]
            },
    )
}

/// Groupings combined in order, from an empty one.
pub open spec fn merge_seq(ms: Seq<Map<u64, GroupView>>) -> Map<u64, GroupView>
    decreases ms.len(),
{
    if ms.len() == 0 {
        Map::empty()
    } else {
        merge_maps(merge_seq(ms.drop_last()), ms.last())
    }
}

/// No step of combining `ms` in order makes a group overflow.
pub open spec fn merge_fits(ms: Seq<Map<u64, GroupView>>) -> bool {
    forall|i: int| 0 <= i <= ms.len() ==> fits_all(#[trigger] merge_seq(ms.take(i)))
}

impl<'a> Groups<'a> {
    spec fn prefix(&self, i: int) -> Map<u64, GroupView> {
        Map::new(|fp: u64| self@.contains_key(fp) && self.index@[fp] < i, |fp: u64| self@[fp])
    }

    /// Folds `other` into this mapping, or fails with `Overflow` when a
    /// merged group would no longer fit.
    pub fn merge_from(&mut self, other: &Groups<'a>) -> (r: Result<(), FormatError>)
        requires
            old(self).wf(),
            other.wf(),
            fits_all(old(self)@),
            fits_all(other@),
            all_in_domain(old(self)@),
            all_in_domain(other@),
        ensures
            final(self).wf(),
            all_in_domain(final(self)@),
            r is Ok <==> fits_all(merge_maps(old(self)@, other@)),
            r is Ok ==> final(self)@ == merge_maps(old(self)@, other@),
            r is Err ==> r == Err::<(), FormatError>(FormatError::Overflow),
    {
        let ghost m0 = self@;
        let mut i: usize = 0;
        assert(merge_maps(m0, other.prefix(0)) =~= m0);
        while i < other.entries.len()
            invariant
                i <= other.entries@.len(),
                self.wf(),
                other.wf(),
                fits_all(self@),
                fits_all(m0),
                fits_all(other@),
                all_in_domain(self@),
                all_in_domain(other@),
                m0 == old(self)@,
                self@ == merge_maps(m0, other.prefix(i as int)),
            decreases other.entries@.len() - i,
        {
            let g = other.entries[i];
            let fp = g.fingerprint;
            let ghost before = self@;
            assert(other@.contains_key(fp) && other.index@[fp] == i);
            assert(other@[fp] == (g.key@, g.stats@));
            assert(other.prefix(i + 1) =~= other.prefix(i as int).insert(fp, other@[fp]));
            assert(!other.prefix(i as int).contains_key(fp));
            match self.index.get(&fp) {
                Some(j) => {
                    let j = *j;
                    let mut e = self.entries[j];
                    assert(before.contains_key(fp) && before[fp] == (e.key@, e.stats@));
                    assert(m0.contains_key(fp) && m0[fp] == before[fp]);
                    let ghost merged = merge_maps(m0, other@)[fp];
                    assert(merge_maps(m0, other@).contains_key(fp));
                    assert(merged == (m0[fp].0, m0[fp].1.merge(other@[fp].1)));
                    if e.stats.count > usize::MAX - g.stats.count || (e.stats.sum as i64) + (
                    g.stats.sum as i64) > i32::MAX as i64 || (e.stats.sum as i64) + (
                    g.stats.sum as i64) < i32::MIN as i64 {
                        assert(!merged.1.fits());
                        assert(!fits_all(merge_maps(m0, other@)));
                        return Err(FormatError::Overflow);
                    }
                    e.stats.merge(&g.stats);
                    self.entries.set(j, e);
                    assert(self@[fp] == (m0[fp].0, m0[fp].1.merge(other@[fp].1)));
                    let ghost (s1, s2) = (before[fp].1, other@[fp].1);
                    assert(s1.in_domain() && s2.in_domain());
                    assert(s1.merge(s2).in_domain()) by (nonlinear_arith)
                        requires
                            s1.in_domain(),
                            s2.in_domain(),
                    ;
                },
                None => {
                    assert(!self.index@.contains_key(fp));
                    assert(!before.contains_key(fp));
                    assert(!m0.contains_key(fp)) by {
                        if m0.contains_key(fp) {
                            assert(merge_maps(m0, other.prefix(i as int)).contains_key(fp));
                        }
                    }
                    let n = self.entries.len();
                    self.entries.push(g);
                    self.index.insert(fp, n);
                    assert(self@[fp] == other@[fp]);
                },
            }
            let ghost target = merge_maps(m0, other.prefix(i + 1));
            assert forall|k: u64| #[trigger] self@.contains_key(k) == target.contains_key(k) by {
                if k != fp {
                    assert(self.index@.contains_key(k) == before.contains_key(k));
                }
            }
            assert forall|k: u64| #[trigger] self@.contains_key(k) implies self@[k] == target[k] by {
                if k != fp {
                    assert(self.index@[k] != self.index@[fp]);
                    assert(self@[k] == before[k]);
                }
            }
            assert forall|k: u64| #[trigger] self@.contains_key(k) implies self@[k].1.in_domain() by {
                if k != fp {
                    assert(self.index@[k] != self.index@[fp]);
                    assert(self@[k] == before[k]);
                }
            }
            assert(self@ =~= merge_maps(m0, other.prefix(i + 1)));
            i = i + 1;
        }
        assert(other.prefix(i as int) =~= other@);
        Ok(())
    }
}

/// The reducer: combines the partial mappings in order into one, or fails with
/// `Overflow` when a merged group would no longer fit.
pub fn merge_partials<'a>(partials: &[Groups<'a>]) -> (r: Result<Groups<'a>, FormatError>)
    requires
        forall|i: int| 0 <= i < partials@.len() ==> (#[trigger] partials@[i]).wf() && fits_all(
            partials@[i]@,
        ) && all_in_domain(partials@[i]@),
    ensures
        r is Ok <==> merge_fits(partials@.map_values(|g: Groups<'a>| g@)),
        match r {
            Ok(g) => g.wf() && fits_all(g@) && all_in_domain(g@) && g@ == merge_seq(
                partials@.map_values(|g: Groups<'a>| g@),
            ),
            Err(e) => e == FormatError::Overflow,
        },
{
    let ghost ms = partials@.map_values(|g: Groups<'a>| g@);
    let mut merged = Groups::new();
    let mut i: usize = 0;
    assert(ms.take(0) =~= Seq::<Map<u64, GroupView>>::empty());
    while i < partials.len()
        invariant
            i <= partials@.len(),
            ms == partials@.map_values(|g: Groups<'a>| g@),
            forall|j: int| 0 <= j < partials@.len() ==> (#[trigger] partials@[j]).wf() && fits_all(
                partials@[j]@,
            ) && all_in_domain(partials@[j]@),
            merged.wf(),
            all_in_domain(merged@),
            fits_all(merged@),
            merged@ == merge_seq(ms.take(i as int)),
            forall|j: int| 0 <= j <= i ==> fits_all(#[trigger] merge_seq(ms.take(j))),
        decreases partials@.len() - i,
    {
        assert(ms.take(i + 1).drop_last() =~= ms.take(i as int));
        match merged.merge_from(&partials[i]) {
            Ok(()) => {},
            Err(e) => {
                assert(!fits_all(merge_seq(ms.take(i + 1))));
                return Err(e);
            },
        }
        i = i + 1;
    }
    assert(ms.take(i as int) =~= ms);
    Ok(merged)
}

proof fn lemma_no_overflow_push(done: Seq<RecordView>, rec: RecordView)
    requires
        no_overflow(done),
        fits_all(group(done.push(rec))),
    ensures
        no_overflow(done.push(rec)),
{
    let all = done.push(rec);
    assert forall|i: int| 0 <= i <= all.len() implies fits_all(#[trigger] group(all.take(i))) by {
        if i <= done.len() {
            assert(all.take(i) =~= done.take(i));
        } else {
            assert(all.take(i) =~= all);
        }
    }
}

proof fn lemma_overflow_prefix(done: Seq<RecordView>, tail: Seq<RecordView>)
    requires
        !fits_all(group(done)),
    ensures
        !no_overflow(done + tail),
{
    assert((done + tail).take(done.len() as int) =~= done);
}

/// Scans one record-aligned chunk: every line `key;value\n` is parsed and its
/// value added to the group of the key's fingerprint. The result is the
/// grouping of all records, or the first error met in order.
pub fn process<'a>(data: &'a [u8]) -> (r: Result<Groups<'a>, FormatError>)
    ensures
        match r {
            Ok(g) => g.wf() && fits_all(g@) && all_in_domain(g@) && scan(data@) == Ok::<Map<u64, GroupView>, FormatError>(
                g@,
            ),
            Err(e) => scan(data@) == Err::<Map<u64, GroupView>, FormatError>(e),
        },
{
    let mut groups = Groups::new();
    let mut pos: usize = 0;
    let ghost mut done: Seq<RecordView> = seq![];
    assert(data@.subrange(0, data@.len() as int) =~= data@);
    assert(done.take(0) =~= done);
    while pos < data.len()
        invariant
            pos <= data.len(),
            groups.wf(),
            all_in_domain(groups@),
            groups@ == group(done),
            no_overflow(done),
            records(data@).0 == done + records(data@.subrange(pos as int, data@.len() as int)).0,
            records(data@).1 == records(data@.subrange(pos as int, data@.len() as int)).1,
        decreases data.len() - pos,
    {
        assert(done.take(done.len() as int) =~= done);
        let rest = slice_subrange(data, pos, data.len());
        let ghost tail_recs = records(rest@).0;
        let k = match find_byte(FIELD_DELIMITER, rest) {
            Some(k) => k,
            None => {
                assert(done + tail_recs =~= done);
                return Err(FormatError::MissingFieldDelimiter);
            },
        };
        proof {
            crate::search::lemma_find(rest@, FIELD_DELIMITER);
        }
        let key = slice_subrange(rest, 0, k);
        if find_byte(RECORD_DELIMITER, key).is_some() {
            assert(done + tail_recs =~= done);
            return Err(FormatError::MissingFieldDelimiter);
        }
        let after = slice_subrange(rest, k + 1, rest.len());
        let n = match find_byte(RECORD_DELIMITER, after) {
            Some(n) => n,
            None => {
                assert(done + tail_recs =~= done);
                return Err(FormatError::MissingNewline);
            },
        };
        proof {
            crate::search::lemma_find(after@, RECORD_DELIMITER);
        }
        let token = slice_subrange(after, 0, n);
        let v = match parse_to_fixed_point(token) {
            Ok(v) => v,
            Err(e) => {
                assert(done + tail_recs =~= done);
                return Err(e);
            },
        };
        let ghost next = rest@.subrange(k + n + 2, rest@.len() as int);
        assert(next =~= data@.subrange(pos + k + n + 2, data@.len() as int));
        assert(records(rest@).0 == seq![(key@, v)] + records(next).0);
        assert(done + records(rest@).0 =~= done.push((key@, v)) + records(next).0);
        assert(done.push((key@, v)).drop_last() =~= done);
        assert(group(done.push((key@, v))) == with_record(group(done), key@, v));
        match groups.add_record(key, v) {
            Ok(()) => {},
            Err(e) => {
                proof {
                    lemma_overflow_prefix(done.push((key@, v)), records(next).0);
                }
                return Err(e);
            },
        }
        proof {
            lemma_no_overflow_push(done, (key@, v));
            done = done.push((key@, v));
        }
        pos = pos + k + n + 2;
    }
    assert(data@.subrange(pos as int, data@.len() as int) =~= Seq::<u8>::empty());
    assert(done + records(Seq::<u8>::empty()).0 =~= done);
    assert(done.take(done.len() as int) =~= done);
    Ok(groups)
}

} // verus!
