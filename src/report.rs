use vstd::prelude::*;
use crate::parse::{fixed_text, write_fixed_point};
use crate::scan::{Group, Groups};
use crate::stats::{trunc_div, StatsView};

verus! {

/// Byte-wise lexicographic order on keys.
pub open spec fn key_le(a: Seq<u8>, b: Seq<u8>) -> bool
    decreases a.len(),
{
    if a.len() == 0 {
        true
    } else if b.len() == 0 {
        false
    } else if a[0] != b[0] {
        a[0] < b[0]
    } else {
        key_le(a.drop_first(), b.drop_first())
    }
}

pub proof fn lemma_key_le_total(a: Seq<u8>, b: Seq<u8>)
    ensures
        key_le(a, b) || key_le(b, a),
    decreases a.len(),
{
    if a.len() > 0 && b.len() > 0 && a[0] == b[0] {
        lemma_key_le_total(a.drop_first(), b.drop_first());
    }
}

pub proof fn lemma_key_le_transitive(a: Seq<u8>, b: Seq<u8>, c: Seq<u8>)
    requires
        key_le(a, b),
        key_le(b, c),
    ensures
        key_le(a, c),
    decreases a.len(),
{
    if a.len() > 0 && b.len() > 0 && c.len() > 0 && a[0] == b[0] && b[0] == c[0] {
        lemma_key_le_transitive(a.drop_first(), b.drop_first(), c.drop_first());
    }
}

/// Compares two keys byte by byte.
pub fn key_less_eq(a: &[u8], b: &[u8]) -> (r: bool)
    ensures
        r == key_le(a@, b@),
{
    let mut i: usize = 0;
    assert(a@.subrange(0, a@.len() as int) =~= a@);
    assert(b@.subrange(0, b@.len() as int) =~= b@);
    while i < a.len() && i < b.len() && a[i] == b[i]
        invariant
            i <= a@.len(),
            i <= b@.len(),
            key_le(a@, b@) == key_le(a@.subrange(i as int, a@.len() as int), b@.subrange(i as int, b@.len() as int)),
        decreases a@.len() - i,
    {
        assert(a@.subrange(i as int, a@.len() as int).drop_first() =~= a@.subrange(i + 1, a@.len() as int));
        assert(b@.subrange(i as int, b@.len() as int).drop_first() =~= b@.subrange(i + 1, b@.len() as int));
        i = i + 1;
    }
    if i == a.len() {
        true
    } else if i == b.len() {
        false
    } else {
        a[i] < b[i]
    }
}

/// The groups are in key order.
pub open spec fn sorted_by_key(gs: Seq<Group>) -> bool {
    forall|i: int, j: int| 0 <= i < j < gs.len() ==> key_le(#[trigger] gs[i].key@, #[trigger] gs[j].key@)
}

/// The groups of `groups`, sorted by key bytes.
pub fn sorted_groups<'a>(groups: &Groups<'a>) -> (r: Vec<Group<'a>>)
    requires
        groups.wf(),
    ensures
        r@.to_multiset() == groups.groups().to_multiset(),
        sorted_by_key(r@),
{
    let src = groups.as_slice();
    let mut out: Vec<Group<'a>> = Vec::new();
    let mut i: usize = 0;
    assert(src@.take(0) =~= out@);
    while i < src.len()
        invariant
            i <= src@.len(),
            src@ == groups.groups(),
            out@.to_multiset() == src@.take(i as int).to_multiset(),
            sorted_by_key(out@),
        decreases src@.len() - i,
    {
        let g = src[i];
        let mut p: usize = 0;
        while p < out.len() && key_less_eq(out[p].key, g.key)
            invariant
                p <= out@.len(),
                sorted_by_key(out@),
                forall|j: int| 0 <= j < p ==> key_le(#[trigger] out@[j].key@, g.key@),
            decreases out@.len() - p,
        {
            p = p + 1;
        }
        proof {
            if p < out@.len() {
                lemma_key_le_total(out@[p as int].key@, g.key@);
                assert forall|j: int| p <= j < out@.len() implies key_le(g.key@, #[trigger] out@[j].key@) by {
                    if j > p {
                        lemma_key_le_transitive(g.key@, out@[p as int].key@, out@[j].key@);
                    }
                }
            }
            vstd::seq_lib::to_multiset_insert(out@, p as int, g);
            assert(src@.take(i + 1) =~= src@.take(i as int).push(g));
            vstd::seq_lib::to_multiset_build(src@.take(i as int), g);
        }
        let ghost before = out@;
        out.insert(p, g);
        assert forall|a: int, b: int| 0 <= a < b < out@.len() implies key_le(#[trigger] out@[a].key@, #[trigger] out@[b].key@) by {
            if b < p {
            } else if a < p && b == p {
            } else if a < p && b > p {
                assert(out@[b] == before[b - 1]);
            } else if a == p {
                assert(out@[b] == before[b - 1]);
            } else {
                assert(out@[a] == before[a - 1]);
                assert(out@[b] == before[b - 1]);
            }
        }
        i = i + 1;
    }
    assert(src@.take(i as int) =~= src@);
    out
}

/// The text of one group: `key=min/avg/max, `.
pub open spec fn entry_text(key: Seq<u8>, s: StatsView) -> Seq<u8> {
    key + seq![0x3du8] + fixed_text(s.min) + seq![0x2fu8] + fixed_text(trunc_div(s.sum, s.count as int))
        + seq![0x2fu8] + fixed_text(s.max) + seq![0x2cu8, 0x20u8]
}

/// The texts of the groups, in order.
pub open spec fn entries_text(gs: Seq<Group>) -> Seq<u8>
    decreases gs.len(),
{
    if gs.len() == 0 {
        Seq::empty()
    } else {
        entries_text(gs.drop_last()) + entry_text(gs.last().key@, gs.last().stats@)
    }
}

/// The report: `{`, each group's text, then `}` and a newline.
pub open spec fn report_text(gs: Seq<Group>) -> Seq<u8> {
    seq![0x7bu8] + entries_text(gs) + seq![0x7du8, 0x0au8]
}

/// Renders groups, in the order given, as `{k1=min/avg/max, k2=..., }` and a
/// newline, each value with one fractional digit.
pub fn render(groups: &[Group]) -> (r: Vec<u8>)
    requires
        forall|i: int| 0 <= i < groups@.len() ==> (#[trigger] groups@[i]).stats@.in_domain(),
    ensures
        r@ == report_text(groups@),
{
    let mut out: Vec<u8> = Vec::new();
    out.push(0x7bu8);
    let mut i: usize = 0;
    assert(groups@.take(0) =~= Seq::<Group>::empty());
    while i < groups.len()
        invariant
            i <= groups@.len(),
            forall|k: int| 0 <= k < groups@.len() ==> (#[trigger] groups@[k]).stats@.in_domain(),
            out@ == seq![0x7bu8] + entries_text(groups@.take(i as int)),
        decreases groups@.len() - i,
    {
        let g = groups[i];
        let ghost start = out@;
        let mut j: usize = 0;
        while j < g.key.len()
            invariant
                j <= g.key@.len(),
                out@ == start + g.key@.take(j as int),
            decreases g.key@.len() - j,
        {
            out.push(g.key[j]);
            assert(g.key@.take(j + 1) =~= g.key@.take(j as int).push(g.key@[j as int]));
            j = j + 1;
        }
        assert(g.key@.take(j as int) =~= g.key@);
        let s = g.stats;
        assert(s@.in_domain());
        let avg = s.avg();
        let ghost c = s.count as int;
        let ghost m = s.sum as int;
        assert(-999 <= trunc_div(m, c) <= 999) by (nonlinear_arith)
            requires
                c >= 1,
                -999 * c <= m <= 999 * c,
        {
            if m >= 0 {
                assert(m / c <= 999);
            } else {
                assert((-m) / c <= 999);
            }
        }
        out.push(0x3du8);
        write_fixed_point(&mut out, s.min);
        out.push(0x2fu8);
        write_fixed_point(&mut out, avg);
        out.push(0x2fu8);
        write_fixed_point(&mut out, s.max);
        out.push(0x2cu8);
        out.push(0x20u8);
        assert(groups@.take(i + 1).drop_last() =~= groups@.take(i as int));
        assert(out@ =~= seq![0x7bu8] + entries_text(groups@.take(i + 1)));
        i = i + 1;
    }
    assert(groups@.take(i as int) =~= groups@);
    out.push(0x7du8);
    out.push(0x0au8);
    assert(out@ =~= report_text(groups@));
    out
}

} // verus!
