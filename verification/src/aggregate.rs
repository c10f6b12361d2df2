//! Aggregation: group unsubscribe records by sending domain, count them,
//! and rank the groups by descending count.

use vstd::prelude::*;

use crate::scan::{RecordView, UnsubscribeRecord};
use crate::text::{domain_of, spec_domain};

verus! {

/// One ranked group: a sending domain, how many records it has, and those
/// records in the order they were scanned.
pub struct DomainGroup {
    pub domain: String,
    pub count: usize,
    pub records: Vec<UnsubscribeRecord>,
}

/// The mathematical content of a `DomainGroup`.
#[verifier::ext_equal]
pub ghost struct GroupView {
    pub domain: Seq<char>,
    pub count: int,
    pub records: Seq<RecordView>,
}

impl DeepView for DomainGroup {
    type V = GroupView;

    open spec fn deep_view(&self) -> GroupView {
        GroupView {
            domain: self.domain@,
            count: self.count as int,
            records: self.records.deep_view(),
        }
    }
}

/// Adds one record with domain `d` to the groups: the first group with that
/// domain grows by the record, and a fresh group is appended when none has it.
pub open spec fn spec_insert_record(gs: Seq<GroupView>, d: Seq<char>, r: RecordView) -> Seq<
    GroupView,
>
    decreases gs.len(),
{
    if gs.len() == 0 {
        seq![GroupView { domain: d, count: 1, records: seq![r] }]
    } else if gs[0].domain == d {
        seq![GroupView { domain: d, count: gs[0].count + 1, records: gs[0].records.push(r) }]
            + gs.drop_first()
    } else {
        seq![gs[0]] + spec_insert_record(gs.drop_first(), d, r)
    }
}

/// Groups the records by their sender's domain, in first-occurrence order;
/// a record whose sender address holds no `'@'` is left out.
pub open spec fn spec_group_records(rs: Seq<RecordView>) -> Seq<GroupView>
    decreases rs.len(),
{
    if rs.len() == 0 {
        Seq::empty()
    } else {
        let prev = spec_group_records(rs.drop_last());
        match spec_domain(rs.last().sender_email) {
            None => prev,
            Some(d) => spec_insert_record(prev, d, rs.last()),
        }
    }
}

/// Inserts `g` behind every group whose count is at least as large, so that
/// groups ranked earlier keep their place on ties.
pub open spec fn spec_insert_ranked(g: GroupView, gs: Seq<GroupView>) -> Seq<GroupView>
    decreases gs.len(),
{
    if gs.len() == 0 {
        seq![g]
    } else if gs[0].count >= g.count {
        seq![gs[0]] + spec_insert_ranked(g, gs.drop_first())
    } else {
        seq![g] + gs
    }
}

/// Sorts the groups by descending count, stably.
pub open spec fn spec_rank(gs: Seq<GroupView>) -> Seq<GroupView>
    decreases gs.len(),
{
    if gs.len() == 0 {
        Seq::empty()
    } else {
        spec_insert_ranked(gs.last(), spec_rank(gs.drop_last()))
    }
}

/// The whole aggregation: group by domain, then rank by descending count.
pub open spec fn spec_aggregate(rs: Seq<RecordView>) -> Seq<GroupView> {
    spec_rank(spec_group_records(rs))
}

/// The groups are ordered by weakly decreasing count.
pub open spec fn spec_sorted_desc(gs: Seq<GroupView>) -> bool {
    forall|i: int, j: int| 0 <= i <= j < gs.len() ==> gs[i].count >= gs[j].count
}

proof fn lemma_insert_record_found(gs: Seq<GroupView>, d: Seq<char>, r: RecordView, j: int)
    requires
        0 <= j < gs.len(),
        gs[j].domain == d,
        forall|k: int| 0 <= k < j ==> gs[k].domain != d,
    ensures
        spec_insert_record(gs, d, r) == gs.update(
            j,
            GroupView { domain: d, count: gs[j].count + 1, records: gs[j].records.push(r) },
        ),
    decreases j,
{
    if j == 0 {
        assert(spec_insert_record(gs, d, r) =~= gs.update(
            0,
            GroupView { domain: d, count: gs[0].count + 1, records: gs[0].records.push(r) },
        ));
    } else {
        lemma_insert_record_found(gs.drop_first(), d, r, j - 1);
        assert(seq![gs[0]] + gs.drop_first().update(
            j - 1,
            GroupView {
                domain: d,
                count: gs.drop_first()[j - 1].count + 1,
                records: gs.drop_first()[j - 1].records.push(r),
            },
        ) =~= gs.update(
            j,
            GroupView { domain: d, count: gs[j].count + 1, records: gs[j].records.push(r) },
        ));
    }
}

proof fn lemma_insert_record_new(gs: Seq<GroupView>, d: Seq<char>, r: RecordView)
    requires
        forall|k: int| 0 <= k < gs.len() ==> gs[k].domain != d,
    ensures
        spec_insert_record(gs, d, r) == gs.push(
            GroupView { domain: d, count: 1, records: seq![r] },
        ),
    decreases gs.len(),
{
    if gs.len() == 0 {
        assert(spec_insert_record(gs, d, r) =~= gs.push(
            GroupView { domain: d, count: 1, records: seq![r] },
        ));
    } else {
        lemma_insert_record_new(gs.drop_first(), d, r);
        assert(seq![gs[0]] + gs.drop_first().push(
            GroupView { domain: d, count: 1, records: seq![r] },
        ) =~= gs.push(GroupView { domain: d, count: 1, records: seq![r] }));
    }
}

proof fn lemma_insert_ranked_at(g: GroupView, gs: Seq<GroupView>, j: int)
    requires
        0 <= j <= gs.len(),
        forall|k: int| 0 <= k < j ==> gs[k].count >= g.count,
        j == gs.len() || gs[j].count < g.count,
    ensures
        spec_insert_ranked(g, gs) == gs.insert(j, g),
    decreases j,
{
    if gs.len() == 0 {
        assert(spec_insert_ranked(g, gs) =~= gs.insert(0, g));
    } else if j == 0 {
        assert(spec_insert_ranked(g, gs) =~= gs.insert(0, g));
    } else {
        lemma_insert_ranked_at(g, gs.drop_first(), j - 1);
        assert(seq![gs[0]] + gs.drop_first().insert(j - 1, g) =~= gs.insert(j, g));
    }
}

/// Groups the records by sending domain and ranks the groups by descending
/// count; ties keep the order in which the domains were first seen. A record
/// whose sender address holds no `'@'` is left out.
pub fn aggregate(records: &Vec<UnsubscribeRecord>) -> (r: Vec<DomainGroup>)
    ensures
        r.deep_view() == spec_aggregate(records.deep_view()),
{
    let ghost rsv = records.deep_view();
    let mut groups: Vec<DomainGroup> = Vec::new();
    proof {
        assert(rsv.take(0) =~= Seq::<RecordView>::empty());
    }
    let mut i: usize = 0;
    while i < records.len()
        invariant
            0 <= i <= records.len(),
            rsv == records.deep_view(),
            rsv.len() == records.len(),
            groups.deep_view() == spec_group_records(rsv.take(i as int)),
            forall|k: int|
                0 <= k < groups.len() ==> (#[trigger] groups.deep_view()[k]).count <= i,
        decreases records.len() - i,
    {
        let rec = &records[i];
        proof {
            assert(rsv.take(i + 1).drop_last() =~= rsv.take(i as int));
            assert(rsv.take(i + 1).last() == rec.deep_view());
        }
        match domain_of(rec.sender_email.as_str()) {
            None => {},
            Some(d) => {
                let ghost pre = groups.deep_view();
                let mut j: usize = 0;
                let mut found: bool = false;
                while j < groups.len() && !found
                    invariant
                        0 <= j <= groups.len(),
                        found ==> j < groups.len() && groups.deep_view()[j as int].domain == d@,
                        forall|k: int|
                            0 <= k < j ==> (#[trigger] groups.deep_view()[k]).domain != d@,
                    decreases groups.len() - j + (if found { 0int } else { 1int }),
                {
                    if groups[j].domain == d {
                        found = true;
                    } else {
                        j = j + 1;
                    }
                }
                if found {
                    proof {
                        assert(pre[j as int].count <= i as int);
                    }
                    let mut g = groups.remove(j);
                    g.count = g.count + 1;
                    g.records.push(rec.clone());
                    let ghost gv = g.deep_view();
                    groups.insert(j, g);
                    proof {
                        lemma_insert_record_found(pre, d@, rec.deep_view(), j as int);
                        assert(gv.records =~= pre[j as int].records.push(rec.deep_view()));
                        assert(groups.deep_view() =~= pre.update(j as int, gv));
                        assert(gv =~= GroupView {
                            domain: d@,
                            count: pre[j as int].count + 1,
                            records: pre[j as int].records.push(rec.deep_view()),
                        });
                    }
                } else {
                    let mut members: Vec<UnsubscribeRecord> = Vec::new();
                    members.push(rec.clone());
                    let g = DomainGroup { domain: d, count: 1, records: members };
                    groups.push(g);
                    proof {
                        lemma_insert_record_new(pre, g.deep_view().domain, rec.deep_view());
                        assert(g.deep_view().records =~= seq![rec.deep_view()]);
                        assert(g.deep_view() =~= GroupView {
                            domain: g.deep_view().domain,
                            count: 1,
                            records: seq![rec.deep_view()],
                        });
                        assert(groups.deep_view() =~= pre.push(g.deep_view()));
                    }
                }
            },
        }
        i = i + 1;
    }
    proof {
        assert(rsv.take(rsv.len() as int) =~= rsv);
    }
    let total: usize = groups.len();
    let ghost all = groups.deep_view();
    let mut ranked: Vec<DomainGroup> = Vec::new();
    proof {
        assert(all.take(0) =~= Seq::<GroupView>::empty());
        assert(all.skip(0) =~= all);
    }
    let mut done: usize = 0;
    while done < total
        invariant
            0 <= done <= total,
            total - done == groups.len(),
            all.len() == total,
            groups.deep_view() == all.skip(done as int),
            ranked.deep_view() == spec_rank(all.take(done as int)),
        decreases total - done,
    {
        let ghost gsv = groups.deep_view();
        let g = groups.remove(0);
        proof {
            assert(g.deep_view() == gsv[0]);
            assert(gsv[0] == all[done as int]);
            assert(groups.deep_view() =~= gsv.drop_first());
            assert(gsv.drop_first() =~= all.skip(done + 1));
            assert(all.take(done + 1).drop_last() =~= all.take(done as int));
            assert(all.take(done + 1).last() == all[done as int]);
        }
        let mut j: usize = 0;
        while j < ranked.len() && ranked[j].count >= g.count
            invariant
                0 <= j <= ranked.len(),
                forall|k: int|
                    0 <= k < j ==> (#[trigger] ranked.deep_view()[k]).count >= g.deep_view().count,
            decreases ranked.len() - j,
        {
            j = j + 1;
        }
        let ghost rv = ranked.deep_view();
        proof {
            lemma_insert_ranked_at(g.deep_view(), rv, j as int);
        }
        ranked.insert(j, g);
        proof {
            assert(ranked.deep_view() =~= rv.insert(j as int, g.deep_view()));
        }
        done = done + 1;
    }
    proof {
        assert(all.take(total as int) =~= all);
    }
    ranked
}


/// Whether some group has domain `d`.
pub open spec fn domain_in(gs: Seq<GroupView>, d: Seq<char>) -> bool {
    exists|k: int| 0 <= k < gs.len() && gs[k].domain == d
}

/// The records of `rs` whose sender's domain is `d`, in scan order.
pub open spec fn spec_matching(rs: Seq<RecordView>, d: Seq<char>) -> Seq<RecordView>
    decreases rs.len(),
{
    if rs.len() == 0 {
        Seq::empty()
    } else if spec_domain(rs.last().sender_email) == Some(d) {
        spec_matching(rs.drop_last(), d).push(rs.last())
    } else {
        spec_matching(rs.drop_last(), d)
    }
}

/// Each group holds exactly the records of its domain, in scan order, its
/// count is their number, and no domain appears twice.
pub open spec fn groups_pointwise(rs: Seq<RecordView>, gs: Seq<GroupView>) -> bool {
    (forall|k: int|
        0 <= k < gs.len() ==> (#[trigger] gs[k]).records == spec_matching(rs, gs[k].domain))
        && (forall|k: int| 0 <= k < gs.len() ==> (#[trigger] gs[k]).count == gs[k].records.len())
        && (forall|k: int| 0 <= k < gs.len() ==> (#[trigger] gs[k]).records.len() >= 1)
        && (forall|k: int, l: int| 0 <= k < l < gs.len() ==> gs[k].domain != gs[l].domain)
}

/// Every record with a derivable domain has a group for that domain.
pub open spec fn groups_complete(rs: Seq<RecordView>, gs: Seq<GroupView>) -> bool {
    forall|i: int|
        0 <= i < rs.len() ==> match spec_domain((#[trigger] rs[i]).sender_email) {
            None => true,
            Some(d) => domain_in(gs, d),
        }
}

proof fn lemma_matching_empty(rs: Seq<RecordView>, d: Seq<char>)
    requires
        forall|i: int| 0 <= i < rs.len() ==> spec_domain((#[trigger] rs[i]).sender_email) != Some(d),
    ensures
        spec_matching(rs, d) == Seq::<RecordView>::empty(),
    decreases rs.len(),
{
    if rs.len() > 0 {
        assert(rs[rs.len() - 1] == rs.last());
        lemma_matching_empty(rs.drop_last(), d);
    }
}

/// Every record that `spec_matching` keeps is one of the scanned records,
/// and its sender's domain is the group's domain.
pub proof fn lemma_matching_members(rs: Seq<RecordView>, d: Seq<char>)
    ensures
        forall|i: int|
            0 <= i < spec_matching(rs, d).len() ==> (exists|j: int|
                0 <= j < rs.len() && #[trigger] spec_matching(rs, d)[i] == rs[j]),
        forall|i: int|
            0 <= i < spec_matching(rs, d).len() ==> spec_domain(
                (#[trigger] spec_matching(rs, d)[i]).sender_email,
            ) == Some(d),
    decreases rs.len(),
{
    if rs.len() > 0 {
        lemma_matching_members(rs.drop_last(), d);
        let m = spec_matching(rs, d);
        let prev = spec_matching(rs.drop_last(), d);
        assert forall|i: int| 0 <= i < m.len() implies ((exists|j: int|
            0 <= j < rs.len() && #[trigger] m[i] == rs[j]) && spec_domain(m[i].sender_email)
            == Some(d)) by {
            if spec_domain(rs.last().sender_email) == Some(d) && i == m.len() - 1 {
                assert(m[i] == rs.last());
                assert(m[i] == rs[rs.len() - 1]);
            } else {
                assert(m[i] == prev[i]);
                let j = choose|j: int| 0 <= j < rs.drop_last().len() && prev[i] == rs.drop_last()[j];
                assert(rs.drop_last()[j] == rs[j]);
            }
        }
    }
}

/// Grouping is exact: each group of `spec_group_records(rs)` holds exactly
/// the records of its domain in scan order, counts them, no domain repeats,
/// and every record with a derivable domain lands in some group.
pub proof fn lemma_group_records_exact(rs: Seq<RecordView>)
    ensures
        groups_pointwise(rs, spec_group_records(rs)),
        groups_complete(rs, spec_group_records(rs)),
    decreases rs.len(),
{
    if rs.len() == 0 {
        return;
    }
    let prev = spec_group_records(rs.drop_last());
    let r = rs.last();
    lemma_group_records_exact(rs.drop_last());
    assert(rs[rs.len() - 1] == r);
    assert(forall|i: int| 0 <= i < rs.len() - 1 ==> rs.drop_last()[i] == rs[i]);
    match spec_domain(r.sender_email) {
        None => {
            assert forall|k: int| 0 <= k < prev.len() implies (#[trigger] prev[k]).records
                == spec_matching(rs, prev[k].domain) by {
                assert(spec_matching(rs, prev[k].domain) == spec_matching(
                    rs.drop_last(),
                    prev[k].domain,
                ));
            }
        },
        Some(d) => {
            if domain_in(prev, d) {
                let j = choose|j: int| 0 <= j < prev.len() && prev[j].domain == d;
                assert(forall|k: int| 0 <= k < j ==> prev[k].domain != d);
                lemma_insert_record_found(prev, d, r, j);
                let gs = prev.update(
                    j,
                    GroupView { domain: d, count: prev[j].count + 1, records: prev[j].records.push(r) },
                );
                assert forall|k: int| 0 <= k < gs.len() implies (#[trigger] gs[k]).records
                    == spec_matching(rs, gs[k].domain) by {
                    if k == j {
                        assert(spec_matching(rs, d) == spec_matching(rs.drop_last(), d).push(r));
                    } else {
                        assert(gs[k] == prev[k]);
                        assert(gs[k].domain != d);
                        assert(spec_matching(rs, gs[k].domain) == spec_matching(
                            rs.drop_last(),
                            gs[k].domain,
                        ));
                    }
                }
                assert forall|i: int| 0 <= i < rs.len() implies match spec_domain(
                    (#[trigger] rs[i]).sender_email,
                ) {
                    None => true,
                    Some(dd) => domain_in(gs, dd),
                } by {
                    match spec_domain(rs[i].sender_email) {
                        None => {},
                        Some(dd) => {
                            if i == rs.len() - 1 {
                                assert(gs[j].domain == d);
                            } else {
                                assert(rs.drop_last()[i] == rs[i]);
                                assert(domain_in(prev, dd));
                                let t = choose|t: int|
                                    0 <= t < prev.len() && prev[t].domain == dd;
                                assert(gs[t].domain == dd);
                            }
                        },
                    }
                }
                assert(groups_complete(rs, gs));
            } else {
                lemma_insert_record_new(prev, d, r);
                let gs = prev.push(GroupView { domain: d, count: 1, records: seq![r] });
                assert forall|i: int| 0 <= i < rs.len() - 1 implies spec_domain(
                    (#[trigger] rs.drop_last()[i]).sender_email,
                ) != Some(d) by {
                    if spec_domain(rs.drop_last()[i].sender_email) == Some(d) {
                        assert(domain_in(prev, d));
                    }
                }
                lemma_matching_empty(rs.drop_last(), d);
                assert forall|k: int| 0 <= k < gs.len() implies (#[trigger] gs[k]).records
                    == spec_matching(rs, gs[k].domain) by {
                    if k == gs.len() - 1 {
                        assert(spec_matching(rs, d) == spec_matching(rs.drop_last(), d).push(r));
                        assert(Seq::<RecordView>::empty().push(r) =~= seq![r]);
                    } else {
                        assert(gs[k] == prev[k]);
                        assert(gs[k].domain != d);
                        assert(spec_matching(rs, gs[k].domain) == spec_matching(
                            rs.drop_last(),
                            gs[k].domain,
                        ));
                    }
                }
                assert forall|i: int| 0 <= i < rs.len() implies match spec_domain(
                    (#[trigger] rs[i]).sender_email,
                ) {
                    None => true,
                    Some(dd) => domain_in(gs, dd),
                } by {
                    match spec_domain(rs[i].sender_email) {
                        None => {},
                        Some(dd) => {
                            if i == rs.len() - 1 {
                                assert(gs[gs.len() - 1].domain == d);
                            } else {
                                assert(rs.drop_last()[i] == rs[i]);
                                assert(domain_in(prev, dd));
                                let t = choose|t: int|
                                    0 <= t < prev.len() && prev[t].domain == dd;
                                assert(gs[t].domain == dd);
                            }
                        },
                    }
                }
                assert(groups_complete(rs, gs));
            }
        },
    }
}

proof fn lemma_insert_ranked_is_insert(g: GroupView, gs: Seq<GroupView>)
    ensures
        exists|j: int|
            0 <= j <= gs.len() && spec_insert_ranked(g, gs) == #[trigger] gs.insert(j, g),
    decreases gs.len(),
{
    if gs.len() == 0 {
        assert(spec_insert_ranked(g, gs) =~= gs.insert(0, g));
    } else if gs[0].count >= g.count {
        lemma_insert_ranked_is_insert(g, gs.drop_first());
        let j = choose|j: int|
            0 <= j <= gs.drop_first().len() && spec_insert_ranked(g, gs.drop_first())
                == #[trigger] gs.drop_first().insert(j, g);
        gs.drop_first().insert_ensures(j, g);
        gs.insert_ensures(j + 1, g);
        assert(seq![gs[0]] + gs.drop_first().insert(j, g) =~= gs.insert(j + 1, g));
    } else {
        assert(spec_insert_ranked(g, gs) =~= gs.insert(0, g));
    }
}

proof fn lemma_insert_ranked_sorted(g: GroupView, gs: Seq<GroupView>)
    requires
        spec_sorted_desc(gs),
    ensures
        spec_sorted_desc(spec_insert_ranked(g, gs)),
    decreases gs.len(),
{
    if gs.len() == 0 {
    } else if gs[0].count >= g.count {
        assert(spec_sorted_desc(gs.drop_first()));
        lemma_insert_ranked_sorted(g, gs.drop_first());
        lemma_insert_ranked_is_insert(g, gs.drop_first());
        let j = choose|j: int|
            0 <= j <= gs.drop_first().len() && spec_insert_ranked(g, gs.drop_first())
                == #[trigger] gs.drop_first().insert(j, g);
        gs.drop_first().insert_ensures(j, g);
        let res = spec_insert_ranked(g, gs);
        assert(res == seq![gs[0]] + spec_insert_ranked(g, gs.drop_first()));
        assert forall|a: int, b: int| 0 <= a <= b < res.len() implies res[a].count
            >= res[b].count by {
            if a == 0 && b > 0 {
                let x = spec_insert_ranked(g, gs.drop_first())[b - 1];
                assert(res[b] == x);
                assert(x == gs.drop_first().insert(j, g)[b - 1]);
                if b - 1 < j {
                    assert(x == gs.drop_first()[b - 1]);
                } else if b - 1 == j {
                    assert(x == g);
                } else {
                    assert(x == gs.drop_first()[b - 2]);
                }
            } else if a > 0 {
                assert(res[a] == spec_insert_ranked(g, gs.drop_first())[a - 1]);
                assert(res[b] == spec_insert_ranked(g, gs.drop_first())[b - 1]);
            }
        }
    } else {
    }
}

proof fn lemma_rank_exact(rs: Seq<RecordView>, gs: Seq<GroupView>)
    requires
        groups_pointwise(rs, gs),
    ensures
        groups_pointwise(rs, spec_rank(gs)),
        spec_sorted_desc(spec_rank(gs)),
        spec_rank(gs).len() == gs.len(),
        forall|d: Seq<char>|
            #![trigger domain_in(spec_rank(gs), d)]
            #![trigger domain_in(gs, d)]
            domain_in(spec_rank(gs), d) <==> domain_in(gs, d),
    decreases gs.len(),
{
    if gs.len() == 0 {
        return;
    }
    let tail = gs.drop_last();
    let g = gs.last();
    assert(forall|k: int| 0 <= k < tail.len() ==> tail[k] == gs[k]);
    assert(gs[gs.len() - 1] == g);
    assert(groups_pointwise(rs, tail));
    lemma_rank_exact(rs, tail);
    let prev = spec_rank(tail);
    lemma_insert_ranked_sorted(g, prev);
    lemma_insert_ranked_is_insert(g, prev);
    let j = choose|j: int|
        0 <= j <= prev.len() && spec_insert_ranked(g, prev) == #[trigger] prev.insert(j, g);
    prev.insert_ensures(j, g);
    let res = prev.insert(j, g);
    assert(spec_rank(gs) == res);
    assert forall|k: int| 0 <= k < res.len() implies ((#[trigger] res[k]).records == spec_matching(
        rs,
        res[k].domain,
    ) && res[k].count == res[k].records.len() && res[k].records.len() >= 1) by {
        if k < j {
            assert(res[k] == prev[k]);
        } else if k == j {
            assert(res[k] == g);
        } else {
            assert(res[k] == prev[k - 1]);
        }
    }
    assert forall|k: int, l: int| 0 <= k < l < res.len() implies res[k].domain
        != res[l].domain by {
        let a = if k < j { prev[k] } else if k == j { g } else { prev[k - 1] };
        let b = if l < j { prev[l] } else if l == j { g } else { prev[l - 1] };
        assert(res[k] == a);
        assert(res[l] == b);
        if k == j || l == j {
            if a.domain == b.domain {
                let other = if k == j { b } else { a };
                assert(domain_in(prev, other.domain));
                assert(domain_in(tail, g.domain));
            }
        }
    }
    assert forall|d: Seq<char>| domain_in(res, d) implies domain_in(gs, d) by {
        let k = choose|k: int| 0 <= k < res.len() && res[k].domain == d;
        if k < j {
            assert(res[k] == prev[k]);
            assert(domain_in(prev, d));
            assert(domain_in(tail, d));
            let t = choose|t: int| 0 <= t < tail.len() && tail[t].domain == d;
            assert(gs[t].domain == d);
        } else if k == j {
            assert(gs[gs.len() - 1].domain == d);
        } else {
            assert(res[k] == prev[k - 1]);
            assert(domain_in(prev, d));
            assert(domain_in(tail, d));
            let t = choose|t: int| 0 <= t < tail.len() && tail[t].domain == d;
            assert(gs[t].domain == d);
        }
    }
    assert forall|d: Seq<char>| domain_in(gs, d) implies domain_in(res, d) by {
        let k = choose|k: int| 0 <= k < gs.len() && gs[k].domain == d;
        if k == gs.len() - 1 {
            assert(res[j].domain == d);
        } else {
            assert(tail[k].domain == d);
            assert(domain_in(tail, d));
            let t = choose|t: int| 0 <= t < prev.len() && prev[t].domain == d;
            if t < j {
                assert(res[t].domain == d);
            } else {
                assert(res[t + 1].domain == d);
            }
        }
    }
}

/// Grouping is exact and ranking keeps it so: in the aggregated result each
/// group holds exactly the records of its domain in scan order, counts them,
/// no domain appears twice, and every record with a derivable domain is
/// accounted for.
pub proof fn lemma_aggregate_exact(rs: Seq<RecordView>)
    ensures
        groups_pointwise(rs, spec_aggregate(rs)),
        groups_complete(rs, spec_aggregate(rs)),
{
    lemma_group_records_exact(rs);
    lemma_rank_exact(rs, spec_group_records(rs));
    assert forall|i: int| 0 <= i < rs.len() implies match spec_domain(
        (#[trigger] rs[i]).sender_email,
    ) {
        None => true,
        Some(d) => domain_in(spec_aggregate(rs), d),
    } by {
        match spec_domain(rs[i].sender_email) {
            None => {},
            Some(d) => {
                assert(domain_in(spec_group_records(rs), d));
            },
        }
    }
}

/// Ranking is descending by count: the aggregated groups are ordered by
/// weakly decreasing count.
pub proof fn lemma_aggregate_sorted(rs: Seq<RecordView>)
    ensures
        spec_sorted_desc(spec_aggregate(rs)),
{
    lemma_group_records_exact(rs);
    lemma_rank_exact(rs, spec_group_records(rs));
}

} // verus!
