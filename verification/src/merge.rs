use vstd::prelude::*;
use vstd::slice::slice_index_get;
use crate::timestamp::Timestamp;
use crate::log_file_reader::{LogFileReader, State};

verus! {

/// One merged output record: the source's label, the parsed timestamp, and
/// the rest of the line after the timestamp prefix.
pub struct Record {
    pub source: String,
    pub timestamp: Timestamp,
    pub line: String,
}

/// The per-source record sequences of a collection of cursors, in the order
/// the sources were supplied.
pub open spec fn models(rs: Seq<LogFileReader>) -> Seq<Seq<(Timestamp, Seq<char>)>> {
    Seq::new(rs.len(), |j: int| rs[j].records())
}

/// The total number of records left across all sources.
pub open spec fn total_len(srcs: Seq<Seq<(Timestamp, Seq<char>)>>) -> int
    decreases srcs.len(),
{
    if srcs.len() == 0 {
        0
    } else {
        srcs[0].len() + total_len(srcs.skip(1))
    }
}

pub proof fn lemma_total_len_nonneg(srcs: Seq<Seq<(Timestamp, Seq<char>)>>)
    ensures
        total_len(srcs) >= 0,
    decreases srcs.len(),
{
    if srcs.len() > 0 {
        lemma_total_len_nonneg(srcs.skip(1));
    }
}

pub proof fn lemma_total_len_update(
    srcs: Seq<Seq<(Timestamp, Seq<char>)>>,
    j: int,
    v: Seq<(Timestamp, Seq<char>)>,
)
    requires
        0 <= j < srcs.len(),
    ensures
        total_len(srcs.update(j, v)) == total_len(srcs) - srcs[j].len() + v.len(),
    decreases srcs.len(),
{
    let u = srcs.update(j, v);
    if j == 0 {
        assert(u.skip(1) =~= srcs.skip(1));
        assert(u[0] == v);
    } else {
        assert(u.skip(1) =~= srcs.skip(1).update(j - 1, v));
        lemma_total_len_update(srcs.skip(1), j - 1, v);
        assert(u[0] == srcs[0]);
    }
}

/// Scans sources from index `i` on, carrying the best pick so far (`-1` for
/// none): a source with records left replaces the pick only when its head
/// timestamp is strictly earlier, so on a tie the earlier-listed source wins.
pub open spec fn sel_from(srcs: Seq<Seq<(Timestamp, Seq<char>)>>, i: int, best: int) -> int
    decreases srcs.len() - i,
{
    if i < 0 || i >= srcs.len() {
        best
    } else if srcs[i].len() > 0 && (best < 0 || srcs[i][0].0.spec_lt(srcs[best][0].0)) {
        sel_from(srcs, i + 1, i)
    } else {
        sel_from(srcs, i + 1, best)
    }
}

/// The source the merge draws from next: the one with the earliest head
/// timestamp, the earliest-listed on a tie; `-1` when none has records left.
pub open spec fn selected(srcs: Seq<Seq<(Timestamp, Seq<char>)>>) -> int {
    sel_from(srcs, 0, -1)
}

proof fn lemma_sel_from_props(srcs: Seq<Seq<(Timestamp, Seq<char>)>>, i: int, best: int)
    requires
        0 <= i <= srcs.len(),
        best == -1 || (0 <= best < i && srcs[best].len() > 0),
        best == -1 ==> forall|k: int| 0 <= k < i ==> (#[trigger] srcs[k]).len() == 0,
        best >= 0 ==> forall|k: int|
            0 <= k < i && (#[trigger] srcs[k]).len() > 0 ==> srcs[best][0].0.spec_le(
                srcs[k][0].0,
            ),
        best >= 0 ==> forall|k: int|
            0 <= k < best && (#[trigger] srcs[k]).len() > 0 ==> srcs[best][0].0.spec_lt(
                srcs[k][0].0,
            ),
    ensures
        ({
            let j = sel_from(srcs, i, best);
            &&& (j == -1 ==> forall|k: int| 0 <= k < srcs.len() ==> (#[trigger] srcs[k]).len()
                == 0)
            &&& (j >= 0 ==> 0 <= j < srcs.len() && srcs[j].len() > 0 && (forall|k: int|
                0 <= k < srcs.len() && (#[trigger] srcs[k]).len() > 0 ==> srcs[j][0].0.spec_le(
                    srcs[k][0].0,
                )) && (forall|k: int|
                0 <= k < j && (#[trigger] srcs[k]).len() > 0 ==> srcs[j][0].0.spec_lt(
                    srcs[k][0].0,
                )))
        }),
    decreases srcs.len() - i,
{
    if i < srcs.len() {
        if srcs[i].len() > 0 && (best < 0 || srcs[i][0].0.spec_lt(srcs[best][0].0)) {
            lemma_sel_from_props(srcs, i + 1, i);
        } else {
            lemma_sel_from_props(srcs, i + 1, best);
        }
    }
}

/// The selected source holds the earliest head timestamp, and on a tie it is
/// the earliest-listed one: every earlier-listed source with records left has
/// a strictly later head.
pub proof fn lemma_selected_props(srcs: Seq<Seq<(Timestamp, Seq<char>)>>)
    ensures
        selected(srcs) == -1 ==> forall|k: int|
            0 <= k < srcs.len() ==> (#[trigger] srcs[k]).len() == 0,
        selected(srcs) >= 0 ==> ({
            let j = selected(srcs);
            &&& 0 <= j < srcs.len()
            &&& srcs[j].len() > 0
            &&& forall|k: int|
                0 <= k < srcs.len() && (#[trigger] srcs[k]).len() > 0 ==> srcs[j][0].0.spec_le(
                    srcs[k][0].0,
                )
            &&& forall|k: int|
                0 <= k < j && (#[trigger] srcs[k]).len() > 0 ==> srcs[j][0].0.spec_lt(
                    srcs[k][0].0,
                )
        }),
{
    lemma_sel_from_props(srcs, 0, -1);
}

/// All records the merge will emit, as (source index, timestamp, line rest)
/// triples: repeatedly the head record of the selected source, until no
/// source has records left.
pub open spec fn spec_merge(srcs: Seq<Seq<(Timestamp, Seq<char>)>>) -> Seq<
    (int, Timestamp, Seq<char>),
>
    decreases total_len(srcs),
        via spec_merge_decreases
{
    let j = selected(srcs);
    if j < 0 {
        Seq::empty()
    } else {
        seq![(j, srcs[j][0].0, srcs[j][0].1)] + spec_merge(srcs.update(j, srcs[j].skip(1)))
    }
}

#[via_fn]
proof fn spec_merge_decreases(srcs: Seq<Seq<(Timestamp, Seq<char>)>>) {
    let j = selected(srcs);
    if j >= 0 {
        lemma_selected_props(srcs);
        lemma_total_len_update(srcs, j, srcs[j].skip(1));
        lemma_total_len_nonneg(srcs.update(j, srcs[j].skip(1)));
    }
}

/// Output record `m` reproduces merge entry `m`: the label of the source the
/// entry names, its timestamp, and its line text.
pub open spec fn out_entry_matches(
    out: Seq<Record>,
    merged: Seq<(int, Timestamp, Seq<char>)>,
    names: Seq<Seq<char>>,
    m: int,
) -> bool {
    let e = merged[m];
    &&& 0 <= e.0 < names.len()
    &&& out[m].source@ == names[e.0]
    &&& out[m].timestamp == e.1
    &&& out[m].line@ == e.2
}

/// The labels of a collection of cursors, in supply order.
pub open spec fn labels(rs: Seq<LogFileReader>) -> Seq<Seq<char>> {
    Seq::new(rs.len(), |j: int| rs[j].spec_filename())
}

/// Merges the given cursors into one stream of records ordered by the merge
/// rule: repeatedly advance every cursor, take the line of the `Readable`
/// cursor with the earliest timestamp (the earliest-supplied source on a
/// tie), and stop when none is `Readable`.  The output is exactly the merge
/// of the per-source record sequences.
pub fn merge_logs(readers: Vec<LogFileReader>) -> (out: Vec<Record>)
    requires
        forall|j: int| 0 <= j < readers@.len() ==> (#[trigger] readers@[j]).wf(),
    ensures
        out@.len() == spec_merge(models(readers@)).len(),
        forall|m: int| 0 <= m < out@.len() ==> out_entry_matches(
            out@,
            spec_merge(models(readers@)),
            labels(readers@),
            m,
        ),
{
    let ghost init = models(readers@);
    let ghost names = labels(readers@);
    let mut rs = readers;
    let n = rs.len();
    let mut out: Vec<Record> = Vec::new();
    loop
        invariant
            rs@.len() == n,
            init.len() == n,
            names.len() == n,
            init == models(readers@),
            names == labels(readers@),
            forall|j: int| 0 <= j < n ==> (#[trigger] rs@[j]).wf(),
            forall|j: int| 0 <= j < n ==> (#[trigger] rs@[j]).spec_filename() == names[j],
            out@.len() <= spec_merge(init).len(),
            spec_merge(init).skip(out@.len() as int) == spec_merge(models(rs@)),
            forall|m: int| 0 <= m < out@.len() ==> out_entry_matches(out@, spec_merge(init), names, m),
        decreases total_len(models(rs@)),
    {
        let ghost cur0 = models(rs@);
        // Advance every cursor that is still Hungry (a no-op on the others):
        // afterwards each is Readable with its head record staged, or Done.
        let mut i: usize = 0;
        while i < n
            invariant
                rs@.len() == n,
                n == names.len(),
                0 <= i <= n,
                forall|j: int| 0 <= j < n ==> (#[trigger] rs@[j]).wf(),
                forall|j: int| 0 <= j < n ==> (#[trigger] rs@[j]).spec_filename() == names[j],
                models(rs@) == cur0,
                forall|j: int| 0 <= j < i ==> (#[trigger] rs@[j]).spec_state()
                    == State::Readable || rs@[j].spec_state() == State::Done,
                forall|j: int| 0 <= j < i && (#[trigger] rs@[j]).spec_state()
                    == State::Readable ==> rs@[j].records().len() > 0 && rs@[j].records()[0].0
                    == rs@[j].spec_timestamp(),
                forall|j: int| 0 <= j < i && (#[trigger] rs@[j]).spec_state() == State::Done
                    ==> rs@[j].records().len() == 0,
            decreases n - i,
        {
            let ghost pre = rs@;
            let mut r = rs.remove(i);
            r.advance();
            rs.insert(i, r);
            proof {
                assert(rs@ =~= pre.update(i as int, rs@[i as int]));
                assert(models(rs@) =~= cur0);
            }
            i += 1;
        }
        // Select the Readable cursor with the earliest timestamp; the
        // earliest-supplied source wins ties.
        let ghost cur = models(rs@);
        let mut best: Option<usize> = None;
        let mut s: usize = 0;
        while s < n
            invariant
                rs@.len() == n,
                0 <= s <= n,
                forall|j: int| 0 <= j < n ==> (#[trigger] rs@[j]).wf(),
                cur == models(rs@),
                cur.len() == n,
                forall|j: int| 0 <= j < n ==> (#[trigger] rs@[j]).spec_state()
                    == State::Readable || rs@[j].spec_state() == State::Done,
                forall|j: int| 0 <= j < n && (#[trigger] rs@[j]).spec_state()
                    == State::Readable ==> rs@[j].records().len() > 0 && rs@[j].records()[0].0
                    == rs@[j].spec_timestamp(),
                forall|j: int| 0 <= j < n && (#[trigger] rs@[j]).spec_state() == State::Done
                    ==> rs@[j].records().len() == 0,
                ({
                    let b = match best {
                        Some(x) => x as int,
                        None => -1,
                    };
                    &&& (b == -1 || (0 <= b < n && cur[b].len() > 0 && rs@[b].spec_state()
                        == State::Readable))
                    &&& sel_from(cur, s as int, b) == selected(cur)
                }),
            decreases n - s,
        {
            let ghost b0: int = match best {
                Some(x) => x as int,
                None => -1,
            };
            let r = slice_index_get(rs.as_slice(), s);
            let readable = r.state() == State::Readable;
            let mut take_it = false;
            if readable {
                match best {
                    None => {
                        take_it = true;
                    },
                    Some(b) => {
                        let tb = slice_index_get(rs.as_slice(), b).timestamp();
                        let ts = r.timestamp();
                        take_it = ts.lt(&tb);
                    },
                }
            }
            proof {
                assert(cur[s as int] == rs@[s as int].records());
                assert(readable <==> cur[s as int].len() > 0);
                if take_it {
                    assert(sel_from(cur, s as int, b0) == sel_from(cur, s as int + 1, s as int));
                } else {
                    assert(sel_from(cur, s as int, b0) == sel_from(cur, s as int + 1, b0));
                }
            }
            if take_it {
                best = Some(s);
            }
            s += 1;
        }
        match best {
            None => {
                proof {
                    assert(sel_from(cur, n as int, -1) == -1);
                    assert(selected(cur) == -1);
                    assert(spec_merge(cur) == Seq::<(int, Timestamp, Seq<char>)>::empty());
                    assert(spec_merge(init).skip(out@.len() as int) =~= Seq::<
                        (int, Timestamp, Seq<char>),
                    >::empty());
                    assert(out@.len() == spec_merge(init).len());
                }
                return out;
            },
            Some(b) => {
                let ghost olen = out@.len() as int;
                let ghost oldout = out@;
                let ghost pre = rs@;
                let mut r = rs.remove(b);
                let taken = r.take_line();
                rs.insert(b, r);
                proof {
                    assert(rs@ =~= pre.update(b as int, rs@[b as int]));
                }
                match taken {
                    Some((src, ts, rest)) => {
                        let ghost e0 = (b as int, cur[b as int][0].0, cur[b as int][0].1);
                        proof {
                            assert(sel_from(cur, n as int, b as int) == b as int);
                            assert(selected(cur) == b as int);
                            assert(spec_merge(cur) == seq![e0] + spec_merge(
                                cur.update(b as int, cur[b as int].skip(1)),
                            ));
                            assert(spec_merge(cur).len() >= 1);
                            assert(spec_merge(init).skip(olen) == spec_merge(cur));
                            assert(olen < spec_merge(init).len());
                            assert(spec_merge(init).skip(olen)[0] == spec_merge(init)[olen]);
                            assert(spec_merge(init)[olen] == e0);
                            assert(models(rs@) =~= cur.update(b as int, cur[b as int].skip(1)));
                            assert(spec_merge(init).skip(olen + 1) =~= spec_merge(cur).skip(1));
                            assert(spec_merge(cur).skip(1) =~= spec_merge(models(rs@)));
                            assert(cur[b as int] == pre[b as int].records());
                            assert(src@ == names[b as int]);
                            assert(ts == cur[b as int][0].0);
                            assert(rest@ == cur[b as int][0].1);
                            lemma_total_len_update(cur, b as int, cur[b as int].skip(1));
                            lemma_total_len_nonneg(models(rs@));
                        }
                        out.push(Record { source: src, timestamp: ts, line: rest });
                        proof {
                            assert(names.len() == n);
                            assert forall|m: int| 0 <= m < out@.len() implies out_entry_matches(
                                out@,
                                spec_merge(init),
                                names,
                                m,
                            ) by {
                                if m < olen {
                                    assert(out@[m] == oldout[m]);
                                    assert(out_entry_matches(oldout, spec_merge(init), names, m));
                                } else {
                                    assert(m == olen);
                                    assert(out@[m].source@ == names[b as int]);
                                }
                            }
                        }
                    },
                    None => {
                        proof {
                            assert(false);
                        }
                    },
                }
            },
        }
    }
}

/// A source's records are in non-decreasing timestamp order.
pub open spec fn src_sorted(rs: Seq<(Timestamp, Seq<char>)>) -> bool {
    forall|a: int, b: int|
        0 <= a <= b < rs.len() ==> (#[trigger] rs[a]).0.spec_le((#[trigger] rs[b]).0)
}

/// Every record the merge emits is no earlier than a bound that sits at or
/// below every source's head.
proof fn lemma_merge_lower_bound(srcs: Seq<Seq<(Timestamp, Seq<char>)>>, lo: Timestamp)
    requires
        forall|j: int| 0 <= j < srcs.len() ==> src_sorted(#[trigger] srcs[j]),
        forall|k: int|
            0 <= k < srcs.len() && (#[trigger] srcs[k]).len() > 0 ==> lo.spec_le(srcs[k][0].0),
    ensures
        forall|m: int|
            0 <= m < spec_merge(srcs).len() ==> lo.spec_le(
                (#[trigger] spec_merge(srcs)[m]).1,
            ),
    decreases total_len(srcs),
{
    let j = selected(srcs);
    if j >= 0 {
        lemma_selected_props(srcs);
        let srcs2 = srcs.update(j, srcs[j].skip(1));
        assert forall|q: int| 0 <= q < srcs2.len() implies src_sorted(#[trigger] srcs2[q]) by {
            if q == j {
                assert forall|a: int, b: int|
                    0 <= a <= b < srcs2[q].len() implies (#[trigger] srcs2[q][a]).0.spec_le(
                        (#[trigger] srcs2[q][b]).0,
                    ) by {
                    assert(srcs2[q][a] == srcs[j][a + 1]);
                    assert(srcs2[q][b] == srcs[j][b + 1]);
                }
            }
        }
        assert forall|k: int|
            0 <= k < srcs2.len() && (#[trigger] srcs2[k]).len() > 0 implies lo.spec_le(
                srcs2[k][0].0,
            ) by {
            if k == j {
                assert(srcs2[j][0] == srcs[j][1]);
                assert(srcs[j][0].0.spec_le(srcs[j][1].0));
            }
        }
        lemma_total_len_update(srcs, j, srcs[j].skip(1));
        lemma_total_len_nonneg(srcs2);
        lemma_merge_lower_bound(srcs2, lo);
        assert forall|m: int|
            0 <= m < spec_merge(srcs).len() implies lo.spec_le(
                (#[trigger] spec_merge(srcs)[m]).1,
            ) by {
            if m > 0 {
                assert(spec_merge(srcs)[m] == spec_merge(srcs2)[m - 1]);
            }
        }
    }
}

/// Merge monotonicity: when every source's records are in non-decreasing
/// timestamp order, the merged stream's timestamps are non-decreasing too.
pub proof fn lemma_merge_monotone(srcs: Seq<Seq<(Timestamp, Seq<char>)>>)
    requires
        forall|j: int| 0 <= j < srcs.len() ==> src_sorted(#[trigger] srcs[j]),
    ensures
        forall|a: int, b: int|
            0 <= a <= b < spec_merge(srcs).len() ==> (#[trigger] spec_merge(
                srcs,
            )[a]).1.spec_le((#[trigger] spec_merge(srcs)[b]).1),
    decreases total_len(srcs),
{
    let j = selected(srcs);
    if j >= 0 {
        lemma_selected_props(srcs);
        let head = srcs[j][0].0;
        let srcs2 = srcs.update(j, srcs[j].skip(1));
        assert forall|q: int| 0 <= q < srcs2.len() implies src_sorted(#[trigger] srcs2[q]) by {
            if q == j {
                assert forall|a: int, b: int|
                    0 <= a <= b < srcs2[q].len() implies (#[trigger] srcs2[q][a]).0.spec_le(
                        (#[trigger] srcs2[q][b]).0,
                    ) by {
                    assert(srcs2[q][a] == srcs[j][a + 1]);
                    assert(srcs2[q][b] == srcs[j][b + 1]);
                }
            }
        }
        assert forall|k: int|
            0 <= k < srcs2.len() && (#[trigger] srcs2[k]).len() > 0 implies head.spec_le(
                srcs2[k][0].0,
            ) by {
            if k == j {
                assert(srcs2[j][0] == srcs[j][1]);
                assert(srcs[j][0].0.spec_le(srcs[j][1].0));
            }
        }
        lemma_total_len_update(srcs, j, srcs[j].skip(1));
        lemma_total_len_nonneg(srcs2);
        lemma_merge_monotone(srcs2);
        lemma_merge_lower_bound(srcs2, head);
        assert forall|a: int, b: int|
            0 <= a <= b < spec_merge(srcs).len() implies (#[trigger] spec_merge(
                srcs,
            )[a]).1.spec_le((#[trigger] spec_merge(srcs)[b]).1) by {
            if a == 0 {
                if b > 0 {
                    assert(spec_merge(srcs)[b] == spec_merge(srcs2)[b - 1]);
                    assert(head.spec_le(spec_merge(srcs2)[b - 1].1));
                }
            } else {
                assert(spec_merge(srcs)[a] == spec_merge(srcs2)[a - 1]);
                assert(spec_merge(srcs)[b] == spec_merge(srcs2)[b - 1]);
            }
        }
    }
}

/// Merging a single source re-emits its records in their original order,
/// each under that source's index.
pub proof fn lemma_merge_single(src: Seq<(Timestamp, Seq<char>)>)
    ensures
        spec_merge(seq![src]).len() == src.len(),
        forall|m: int|
            0 <= m < src.len() ==> (#[trigger] spec_merge(seq![src])[m]) == (
                0int,
                src[m].0,
                src[m].1,
            ),
    decreases src.len(),
{
    let s = seq![src];
    if src.len() == 0 {
        assert(sel_from(s, 1, -1) == -1);
        assert(sel_from(s, 0, -1) == -1);
        assert(spec_merge(s) == Seq::<(int, Timestamp, Seq<char>)>::empty());
    } else {
        assert(s[0].len() > 0);
        assert(sel_from(s, 1, 0) == 0);
        assert(sel_from(s, 0, -1) == sel_from(s, 1, 0));
        assert(selected(s) == 0);
        let s2 = s.update(0, src.skip(1));
        assert(spec_merge(s) == seq![(0int, src[0].0, src[0].1)] + spec_merge(s2));
        assert(s2 =~= seq![src.skip(1)]);
        lemma_merge_single(src.skip(1));
        assert forall|m: int|
            0 <= m < src.len() implies (#[trigger] spec_merge(s)[m]) == (
                0int,
                src[m].0,
                src[m].1,
            ) by {
            if m > 0 {
                assert(spec_merge(s)[m] == spec_merge(seq![src.skip(1)])[m - 1]);
                assert(src.skip(1)[m - 1] == src[m]);
            }
        }
    }
}

proof fn lemma_sel_from_push_empty(srcs: Seq<Seq<(Timestamp, Seq<char>)>>, i: int, best: int)
    requires
        0 <= i,
        best == -1 || (0 <= best < i && best < srcs.len()),
    ensures
        sel_from(srcs.push(Seq::empty()), i, best) == sel_from(srcs, i, best),
    decreases srcs.len() + 1 - i,
{
    let p = srcs.push(Seq::<(Timestamp, Seq<char>)>::empty());
    if i >= p.len() {
        assert(sel_from(p, i, best) == best);
        assert(sel_from(srcs, i, best) == best);
    } else if i == srcs.len() {
        assert(p[i].len() == 0);
        assert(sel_from(p, i, best) == sel_from(p, i + 1, best));
        assert(sel_from(p, i + 1, best) == best);
        assert(sel_from(srcs, i, best) == best);
    } else {
        assert(p[i] == srcs[i]);
        if best >= 0 {
            assert(p[best] == srcs[best]);
        }
        if srcs[i].len() > 0 && (best < 0 || srcs[i][0].0.spec_lt(srcs[best][0].0)) {
            lemma_sel_from_push_empty(srcs, i + 1, i);
        } else {
            lemma_sel_from_push_empty(srcs, i + 1, best);
        }
    }
}

/// An empty source contributes no records and does not block the others:
/// merging with it listed gives exactly the merge without it.
pub proof fn lemma_merge_empty_source(srcs: Seq<Seq<(Timestamp, Seq<char>)>>)
    ensures
        spec_merge(srcs.push(Seq::empty())) == spec_merge(srcs),
    decreases total_len(srcs),
{
    let p = srcs.push(Seq::<(Timestamp, Seq<char>)>::empty());
    lemma_sel_from_push_empty(srcs, 0, -1);
    let j = selected(srcs);
    assert(selected(p) == j);
    if j < 0 {
        assert(spec_merge(p) == Seq::<(int, Timestamp, Seq<char>)>::empty());
        assert(spec_merge(srcs) == Seq::<(int, Timestamp, Seq<char>)>::empty());
    } else {
        lemma_selected_props(srcs);
        assert(p[j] == srcs[j]);
        let srcs2 = srcs.update(j, srcs[j].skip(1));
        assert(p.update(j, p[j].skip(1)) =~= srcs2.push(Seq::empty()));
        lemma_total_len_update(srcs, j, srcs[j].skip(1));
        lemma_total_len_nonneg(srcs2);
        lemma_merge_empty_source(srcs2);
        assert(spec_merge(p) == seq![(j, p[j][0].0, p[j][0].1)] + spec_merge(
            p.update(j, p[j].skip(1)),
        ));
    }
}

} // verus!
