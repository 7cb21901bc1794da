//! The year → month → day tree of entries, and its outline renderer.
//!
//! Buckets are association lists with strictly ascending integer keys, so the
//! renderer can walk them in sorted order directly.

use vstd::prelude::*;
use vstd::seq_lib::lemma_multiset_commutative;
use vstd::seq_lib::to_multiset_build;
use crate::DecodeError;
use crate::dates::{valid_date, spec_month_name, month_name, weekday_of, weekday_name};
use crate::day_one::{
    Entry, EntryView, Journal, entry_views, moon_ok, spec_properties, spec_title, spec_first_link,
    spec_body, pairs,
};
use crate::text::dec_of;
use crate::text::u32_string;

verus! {

// ---------------------------------------------------------------------------
// Association lists keyed by integers.
// ---------------------------------------------------------------------------

pub open spec fn alookup<V>(s: Seq<(int, V)>, k: int) -> Option<V>
    decreases s.len(),
{
    if s.len() == 0 {
        None
    } else if s[0].0 == k {
        Some(s[0].1)
    } else {
        alookup(s.drop_first(), k)
    }
}

pub open spec fn keys_sorted<V>(s: Seq<(int, V)>) -> bool {
    forall|a: int, b: int| #![trigger s[a].0, s[b].0] 0 <= a < b < s.len() ==> s[a].0 < s[b].0
}

proof fn lemma_alookup_update<V>(s: Seq<(int, V)>, i: int, v: V, k2: int)
    requires
        0 <= i < s.len(),
        forall|t: int| #![trigger s[t]] 0 <= t < s.len() && t != i ==> s[t].0 != s[i].0,
    ensures
        alookup(s.update(i, (s[i].0, v)), k2) == (if k2 == s[i].0 {
            Some(v)
        } else {
            alookup(s, k2)
        }),
    decreases s.len(),
{
    let s2 = s.update(i, (s[i].0, v));
    if i == 0 {
        assert(s2[0] == (s[0].0, v));
        if k2 != s[0].0 {
            assert(s2.drop_first() =~= s.drop_first());
        }
    } else {
        assert(s2[0] == s[0]);
        assert(s2.drop_first() =~= s.drop_first().update(i - 1, (s[i].0, v)));
        assert(s.drop_first()[i - 1] == s[i]);
        if k2 == s[0].0 {
            assert(s[0].0 != s[i].0);
        } else {
            assert forall|t: int|
                0 <= t < s.drop_first().len() && t != i - 1 implies #[trigger] s.drop_first()[t].0
                != s.drop_first()[i - 1].0 by {
                assert(s.drop_first()[t] == s[t + 1]);
            }
            lemma_alookup_update(s.drop_first(), i - 1, v, k2);
        }
    }
}

proof fn lemma_alookup_insert<V>(s: Seq<(int, V)>, i: int, k: int, v: V, k2: int)
    requires
        0 <= i <= s.len(),
        forall|t: int| #![trigger s[t]] 0 <= t < s.len() ==> s[t].0 != k,
    ensures
        alookup(s.insert(i, (k, v)), k2) == (if k2 == k {
            Some(v)
        } else {
            alookup(s, k2)
        }),
    decreases s.len(),
{
    let s2 = s.insert(i, (k, v));
    if i == 0 {
        assert(s2[0] == (k, v));
        assert(s2.drop_first() =~= s);
    } else {
        assert(s2[0] == s[0]);
        assert(s2.drop_first() =~= s.drop_first().insert(i - 1, (k, v)));
        if k2 == s[0].0 {
            assert(s[0].0 != k);
        } else {
            assert forall|t: int| 0 <= t < s.drop_first().len() implies #[trigger] s.drop_first()[t].0
                != k by {
                assert(s.drop_first()[t] == s[t + 1]);
            }
            lemma_alookup_insert(s.drop_first(), i - 1, k, v, k2);
        }
    }
}

proof fn lemma_keys_sorted_insert<V>(s: Seq<(int, V)>, i: int, k: int, v: V)
    requires
        keys_sorted(s),
        0 <= i <= s.len(),
        forall|t: int| #![trigger s[t]] 0 <= t < i ==> s[t].0 < k,
        forall|t: int| #![trigger s[t]] i <= t < s.len() ==> s[t].0 > k,
    ensures
        keys_sorted(s.insert(i, (k, v))),
{
    let s2 = s.insert(i, (k, v));
    assert(s2 =~= s.take(i) + seq![(k, v)] + s.skip(i));
    assert forall|a: int, b: int| 0 <= a < b < s2.len() implies #[trigger] s2[a].0 < #[trigger] s2[b].0 by {
        if a < i {
            assert(s2[a] == s[a]);
        } else if a == i {
            assert(s2[a] == (k, v));
        } else {
            assert(s2[a] == s[a - 1]);
        }
        if b < i {
            assert(s2[b] == s[b]);
        } else if b == i {
            assert(s2[b] == (k, v));
        } else {
            assert(s2[b] == s[b - 1]);
        }
    }
}

proof fn lemma_alookup_at<V>(s: Seq<(int, V)>, i: int)
    requires
        0 <= i < s.len(),
        forall|t: int| #![trigger s[t]] 0 <= t < i ==> s[t].0 != s[i].0,
    ensures
        alookup(s, s[i].0) == Some(s[i].1),
    decreases i,
{
    if i == 0 {
    } else {
        assert(s[0].0 != s[i].0);
        assert(s.drop_first()[i - 1] == s[i]);
        assert forall|t: int| 0 <= t < i - 1 implies #[trigger] s.drop_first()[t].0
            != s.drop_first()[i - 1].0 by {
            assert(s.drop_first()[t] == s[t + 1]);
        }
        lemma_alookup_at(s.drop_first(), i - 1);
    }
}

proof fn lemma_alookup_none<V>(s: Seq<(int, V)>, k: int)
    requires
        forall|t: int| #![trigger s[t]] 0 <= t < s.len() ==> s[t].0 != k,
    ensures
        alookup(s, k) is None,
    decreases s.len(),
{
    if s.len() > 0 {
        assert(s[0].0 != k);
        assert forall|t: int| 0 <= t < s.drop_first().len() implies #[trigger] s.drop_first()[t].0
            != k by {
            assert(s.drop_first()[t] == s[t + 1]);
        }
        lemma_alookup_none(s.drop_first(), k);
    }
}

// ---------------------------------------------------------------------------
// The tree.
// ---------------------------------------------------------------------------

pub struct Day {
    pub entries: Vec<Entry>,
}

pub struct Month {
    pub days: Vec<(u32, Day)>,
}

pub struct Year {
    pub months: Vec<(u32, Month)>,
}

/// The root of the time tree.
pub struct Root {
    pub years: Vec<(i32, Year)>,
}

pub open spec fn days_v(s: Seq<(u32, Day)>) -> Seq<(int, Seq<EntryView>)> {
    s.map_values(|p: (u32, Day)| (p.0 as int, entry_views(p.1.entries@)))
}

pub open spec fn months_v(s: Seq<(u32, Month)>) -> Seq<(int, Seq<(int, Seq<EntryView>)>)> {
    s.map_values(|p: (u32, Month)| (p.0 as int, days_v(p.1.days@)))
}

pub open spec fn years_v(s: Seq<(i32, Year)>) -> Seq<
    (int, Seq<(int, Seq<(int, Seq<EntryView>)>)>),
> {
    s.map_values(|p: (i32, Year)| (p.0 as int, months_v(p.1.months@)))
}

impl View for Root {
    type V = Seq<(int, Seq<(int, Seq<(int, Seq<EntryView>)>)>)>;

    open spec fn view(&self) -> Seq<(int, Seq<(int, Seq<(int, Seq<EntryView>)>)>)> {
        years_v(self.years@)
    }
}

/// Day buckets of one month: sorted keys, each a real calendar day.
pub open spec fn wf_days(y: int, m: int, dv: Seq<(int, Seq<EntryView>)>) -> bool {
    &&& keys_sorted(dv)
    &&& forall|c: int| #![trigger dv[c]] 0 <= c < dv.len() ==> valid_date(y, m, dv[c].0)
}

/// Month buckets of one year: sorted keys in 1..=12.
pub open spec fn wf_months(y: int, mv: Seq<(int, Seq<(int, Seq<EntryView>)>)>) -> bool {
    &&& keys_sorted(mv)
    &&& forall|b: int| #![trigger mv[b]]
        0 <= b < mv.len() ==> 1 <= mv[b].0 <= 12 && wf_days(y, mv[b].0, mv[b].1)
}

/// The tree invariant: sorted buckets whose keys are real calendar dates.
pub open spec fn wf_root(rv: Seq<(int, Seq<(int, Seq<(int, Seq<EntryView>)>)>)>) -> bool {
    &&& keys_sorted(rv)
    &&& forall|a: int| #![trigger rv[a]]
        0 <= a < rv.len() ==> 0 <= rv[a].0 <= 9999 && wf_months(rv[a].0, rv[a].1)
}

pub open spec fn found(o: Option<Seq<EntryView>>) -> Seq<EntryView> {
    match o {
        Some(es) => es,
        None => Seq::empty(),
    }
}

pub open spec fn bucket_d(dv: Seq<(int, Seq<EntryView>)>, d: int) -> Seq<EntryView> {
    found(alookup(dv, d))
}

pub open spec fn bucket_md(
    mv: Seq<(int, Seq<(int, Seq<EntryView>)>)>,
    m: int,
    d: int,
) -> Seq<EntryView> {
    match alookup(mv, m) {
        Some(dv) => bucket_d(dv, d),
        None => Seq::empty(),
    }
}

/// The entries the tree holds under year `y`, month `m`, day `d`.
pub open spec fn bucket(
    rv: Seq<(int, Seq<(int, Seq<(int, Seq<EntryView>)>)>)>,
    y: int,
    m: int,
    d: int,
) -> Seq<EntryView> {
    match alookup(rv, y) {
        Some(mv) => bucket_md(mv, m, d),
        None => Seq::empty(),
    }
}

pub open spec fn day_entries(dv: Seq<(int, Seq<EntryView>)>) -> Seq<EntryView>
    decreases dv.len(),
{
    if dv.len() == 0 {
        Seq::empty()
    } else {
        day_entries(dv.drop_last()) + dv.last().1
    }
}

pub open spec fn month_entries(mv: Seq<(int, Seq<(int, Seq<EntryView>)>)>) -> Seq<EntryView>
    decreases mv.len(),
{
    if mv.len() == 0 {
        Seq::empty()
    } else {
        month_entries(mv.drop_last()) + day_entries(mv.last().1)
    }
}

/// Every entry the tree holds, in walk order.
pub open spec fn root_entries(
    rv: Seq<(int, Seq<(int, Seq<(int, Seq<EntryView>)>)>)>,
) -> Seq<EntryView>
    decreases rv.len(),
{
    if rv.len() == 0 {
        Seq::empty()
    } else {
        root_entries(rv.drop_last()) + month_entries(rv.last().1)
    }
}

proof fn lemma_day_entries_cat(a: Seq<(int, Seq<EntryView>)>, b: Seq<(int, Seq<EntryView>)>)
    ensures
        day_entries(a + b) == day_entries(a) + day_entries(b),
    decreases b.len(),
{
    if b.len() == 0 {
        assert(a + b =~= a);
        assert(day_entries(a) + day_entries(b) =~= day_entries(a));
    } else {
        lemma_day_entries_cat(a, b.drop_last());
        assert((a + b).drop_last() =~= a + b.drop_last());
        assert((a + b).last() == b.last());
        assert(day_entries(a) + (day_entries(b.drop_last()) + b.last().1) =~= (day_entries(a)
            + day_entries(b.drop_last())) + b.last().1);
    }
}

proof fn lemma_month_entries_cat(
    a: Seq<(int, Seq<(int, Seq<EntryView>)>)>,
    b: Seq<(int, Seq<(int, Seq<EntryView>)>)>,
)
    ensures
        month_entries(a + b) == month_entries(a) + month_entries(b),
    decreases b.len(),
{
    if b.len() == 0 {
        assert(a + b =~= a);
        assert(month_entries(a) + month_entries(b) =~= month_entries(a));
    } else {
        lemma_month_entries_cat(a, b.drop_last());
        assert((a + b).drop_last() =~= a + b.drop_last());
        assert((a + b).last() == b.last());
        assert(month_entries(a) + (month_entries(b.drop_last()) + day_entries(b.last().1)) =~= (
        month_entries(a) + month_entries(b.drop_last())) + day_entries(b.last().1));
    }
}

proof fn lemma_root_entries_cat(
    a: Seq<(int, Seq<(int, Seq<(int, Seq<EntryView>)>)>)>,
    b: Seq<(int, Seq<(int, Seq<(int, Seq<EntryView>)>)>)>,
)
    ensures
        root_entries(a + b) == root_entries(a) + root_entries(b),
    decreases b.len(),
{
    if b.len() == 0 {
        assert(a + b =~= a);
        assert(root_entries(a) + root_entries(b) =~= root_entries(a));
    } else {
        lemma_root_entries_cat(a, b.drop_last());
        assert((a + b).drop_last() =~= a + b.drop_last());
        assert((a + b).last() == b.last());
        assert(root_entries(a) + (root_entries(b.drop_last()) + month_entries(b.last().1)) =~= (
        root_entries(a) + root_entries(b.drop_last())) + month_entries(b.last().1));
    }
}


proof fn lemma_day_entries_insert_empty(s: Seq<(int, Seq<EntryView>)>, i: int, d: int)
    requires
        0 <= i <= s.len(),
    ensures
        day_entries(s.insert(i, (d, Seq::empty()))) == day_entries(s),
{
    let emp = Seq::<EntryView>::empty();
    let s2 = s.insert(i, (d, emp));
    assert(s =~= s.take(i) + s.skip(i));
    lemma_day_entries_cat(s.take(i), s.skip(i));
    assert(s2 =~= (s.take(i) + seq![(d, emp)]) + s.skip(i));
    lemma_day_entries_cat(s.take(i) + seq![(d, emp)], s.skip(i));
    lemma_day_entries_cat(s.take(i), seq![(d, emp)]);
    assert(day_entries(seq![(d, emp)]) =~= emp) by {
        assert(day_entries(Seq::<(int, Seq<EntryView>)>::empty()) == Seq::<EntryView>::empty());
        assert(seq![(d, emp)].drop_last() =~= Seq::<(int, Seq<EntryView>)>::empty());
        assert(seq![(d, emp)].last() == (d, emp));
    }
    assert(day_entries(s2) =~= day_entries(s));
}

proof fn lemma_day_entries_mset(
    s: Seq<(int, Seq<EntryView>)>,
    i: int,
    d: int,
    es0: Seq<EntryView>,
    e: EntryView,
)
    requires
        0 <= i < s.len(),
        s[i] == (d, es0),
    ensures
        day_entries(s.update(i, (d, es0.push(e)))).to_multiset() == day_entries(
            s,
        ).to_multiset().insert(e),
{
    let fin = s.update(i, (d, es0.push(e)));
    assert(s =~= s.take(i) + s.subrange(i, i + 1) + s.skip(i + 1));
    assert(fin =~= s.take(i) + seq![(d, es0.push(e))] + s.skip(i + 1));
    lemma_day_entries_cat(s.take(i), s.subrange(i, i + 1));
    lemma_day_entries_cat(s.take(i) + s.subrange(i, i + 1), s.skip(i + 1));
    lemma_day_entries_cat(s.take(i), seq![(d, es0.push(e))]);
    lemma_day_entries_cat(s.take(i) + seq![(d, es0.push(e))], s.skip(i + 1));
    assert(day_entries(Seq::<(int, Seq<EntryView>)>::empty()) == Seq::<EntryView>::empty());
    assert(day_entries(s.subrange(i, i + 1)) =~= es0) by {
        assert(s.subrange(i, i + 1).drop_last() =~= Seq::<(int, Seq<EntryView>)>::empty());
        assert(s.subrange(i, i + 1).last() == (d, es0));
    }
    assert(day_entries(seq![(d, es0.push(e))]) =~= es0.push(e)) by {
        assert(seq![(d, es0.push(e))].drop_last() =~= Seq::<(int, Seq<EntryView>)>::empty());
        assert(seq![(d, es0.push(e))].last() == (d, es0.push(e)));
    }
    let pre = day_entries(s.take(i));
    let post = day_entries(s.skip(i + 1));
    assert(day_entries(s) == pre + es0 + post);
    assert(day_entries(fin) == pre + es0.push(e) + post);
    lemma_multiset_commutative(pre, es0);
    lemma_multiset_commutative(pre + es0, post);
    lemma_multiset_commutative(pre, es0.push(e));
    lemma_multiset_commutative(pre + es0.push(e), post);
    to_multiset_build(es0, e);
    assert(day_entries(fin).to_multiset() =~= day_entries(s).to_multiset().insert(e));
}

proof fn lemma_month_entries_insert_empty(s: Seq<(int, Seq<(int, Seq<EntryView>)>)>, i: int, m: int)
    requires
        0 <= i <= s.len(),
    ensures
        month_entries(s.insert(i, (m, Seq::empty()))) == month_entries(s),
{
    let emp = Seq::<(int, Seq<EntryView>)>::empty();
    let s2 = s.insert(i, (m, emp));
    assert(s =~= s.take(i) + s.skip(i));
    lemma_month_entries_cat(s.take(i), s.skip(i));
    assert(s2 =~= (s.take(i) + seq![(m, emp)]) + s.skip(i));
    lemma_month_entries_cat(s.take(i) + seq![(m, emp)], s.skip(i));
    lemma_month_entries_cat(s.take(i), seq![(m, emp)]);
    assert(month_entries(seq![(m, emp)]) =~= Seq::<EntryView>::empty()) by {
        assert(month_entries(Seq::<(int, Seq<(int, Seq<EntryView>)>)>::empty()) == Seq::<
            EntryView,
        >::empty());
        assert(seq![(m, emp)].drop_last() =~= Seq::<(int, Seq<(int, Seq<EntryView>)>)>::empty());
        assert(seq![(m, emp)].last() == (m, emp));
        assert(day_entries(emp) =~= Seq::<EntryView>::empty());
    }
    assert(month_entries(s2) =~= month_entries(s));
}

proof fn lemma_month_entries_mset(
    s: Seq<(int, Seq<(int, Seq<EntryView>)>)>,
    i: int,
    m: int,
    dvo: Seq<(int, Seq<EntryView>)>,
    dvn: Seq<(int, Seq<EntryView>)>,
    e: EntryView,
)
    requires
        0 <= i < s.len(),
        s[i] == (m, dvo),
        day_entries(dvn).to_multiset() == day_entries(dvo).to_multiset().insert(e),
    ensures
        month_entries(s.update(i, (m, dvn))).to_multiset() == month_entries(
            s,
        ).to_multiset().insert(e),
{
    let fin = s.update(i, (m, dvn));
    assert(s =~= s.take(i) + s.subrange(i, i + 1) + s.skip(i + 1));
    assert(fin =~= s.take(i) + seq![(m, dvn)] + s.skip(i + 1));
    lemma_month_entries_cat(s.take(i), s.subrange(i, i + 1));
    lemma_month_entries_cat(s.take(i) + s.subrange(i, i + 1), s.skip(i + 1));
    lemma_month_entries_cat(s.take(i), seq![(m, dvn)]);
    lemma_month_entries_cat(s.take(i) + seq![(m, dvn)], s.skip(i + 1));
    assert(month_entries(Seq::<(int, Seq<(int, Seq<EntryView>)>)>::empty()) == Seq::<
        EntryView,
    >::empty());
    assert(month_entries(s.subrange(i, i + 1)) =~= day_entries(dvo)) by {
        assert(s.subrange(i, i + 1).drop_last() =~= Seq::<
            (int, Seq<(int, Seq<EntryView>)>),
        >::empty());
        assert(s.subrange(i, i + 1).last() == (m, dvo));
    }
    assert(month_entries(seq![(m, dvn)]) =~= day_entries(dvn)) by {
        assert(seq![(m, dvn)].drop_last() =~= Seq::<(int, Seq<(int, Seq<EntryView>)>)>::empty());
        assert(seq![(m, dvn)].last() == (m, dvn));
    }
    let pre = month_entries(s.take(i));
    let post = month_entries(s.skip(i + 1));
    assert(month_entries(s) == pre + day_entries(dvo) + post);
    assert(month_entries(fin) == pre + day_entries(dvn) + post);
    lemma_multiset_commutative(pre, day_entries(dvo));
    lemma_multiset_commutative(pre + day_entries(dvo), post);
    lemma_multiset_commutative(pre, day_entries(dvn));
    lemma_multiset_commutative(pre + day_entries(dvn), post);
    assert(month_entries(fin).to_multiset() =~= month_entries(s).to_multiset().insert(e));
}

proof fn lemma_root_entries_insert_empty(
    s: Seq<(int, Seq<(int, Seq<(int, Seq<EntryView>)>)>)>,
    i: int,
    y: int,
)
    requires
        0 <= i <= s.len(),
    ensures
        root_entries(s.insert(i, (y, Seq::empty()))) == root_entries(s),
{
    let emp = Seq::<(int, Seq<(int, Seq<EntryView>)>)>::empty();
    let s2 = s.insert(i, (y, emp));
    assert(s =~= s.take(i) + s.skip(i));
    lemma_root_entries_cat(s.take(i), s.skip(i));
    assert(s2 =~= (s.take(i) + seq![(y, emp)]) + s.skip(i));
    lemma_root_entries_cat(s.take(i) + seq![(y, emp)], s.skip(i));
    lemma_root_entries_cat(s.take(i), seq![(y, emp)]);
    assert(root_entries(seq![(y, emp)]) =~= Seq::<EntryView>::empty()) by {
        assert(root_entries(Seq::<(int, Seq<(int, Seq<(int, Seq<EntryView>)>)>)>::empty())
            == Seq::<EntryView>::empty());
        assert(seq![(y, emp)].drop_last() =~= Seq::<
            (int, Seq<(int, Seq<(int, Seq<EntryView>)>)>),
        >::empty());
        assert(seq![(y, emp)].last() == (y, emp));
        assert(month_entries(emp) =~= Seq::<EntryView>::empty());
    }
    assert(root_entries(s2) =~= root_entries(s));
}

proof fn lemma_root_entries_mset(
    s: Seq<(int, Seq<(int, Seq<(int, Seq<EntryView>)>)>)>,
    i: int,
    y: int,
    mvo: Seq<(int, Seq<(int, Seq<EntryView>)>)>,
    mvn: Seq<(int, Seq<(int, Seq<EntryView>)>)>,
    e: EntryView,
)
    requires
        0 <= i < s.len(),
        s[i] == (y, mvo),
        month_entries(mvn).to_multiset() == month_entries(mvo).to_multiset().insert(e),
    ensures
        root_entries(s.update(i, (y, mvn))).to_multiset() == root_entries(
            s,
        ).to_multiset().insert(e),
{
    let fin = s.update(i, (y, mvn));
    assert(s =~= s.take(i) + s.subrange(i, i + 1) + s.skip(i + 1));
    assert(fin =~= s.take(i) + seq![(y, mvn)] + s.skip(i + 1));
    lemma_root_entries_cat(s.take(i), s.subrange(i, i + 1));
    lemma_root_entries_cat(s.take(i) + s.subrange(i, i + 1), s.skip(i + 1));
    lemma_root_entries_cat(s.take(i), seq![(y, mvn)]);
    lemma_root_entries_cat(s.take(i) + seq![(y, mvn)], s.skip(i + 1));
    assert(root_entries(Seq::<(int, Seq<(int, Seq<(int, Seq<EntryView>)>)>)>::empty()) == Seq::<
        EntryView,
    >::empty());
    assert(root_entries(s.subrange(i, i + 1)) =~= month_entries(mvo)) by {
        assert(s.subrange(i, i + 1).drop_last() =~= Seq::<
            (int, Seq<(int, Seq<(int, Seq<EntryView>)>)>),
        >::empty());
        assert(s.subrange(i, i + 1).last() == (y, mvo));
    }
    assert(root_entries(seq![(y, mvn)]) =~= month_entries(mvn)) by {
        assert(seq![(y, mvn)].drop_last() =~= Seq::<
            (int, Seq<(int, Seq<(int, Seq<EntryView>)>)>),
        >::empty());
        assert(seq![(y, mvn)].last() == (y, mvn));
    }
    let pre = root_entries(s.take(i));
    let post = root_entries(s.skip(i + 1));
    assert(root_entries(s) == pre + month_entries(mvo) + post);
    assert(root_entries(fin) == pre + month_entries(mvn) + post);
    lemma_multiset_commutative(pre, month_entries(mvo));
    lemma_multiset_commutative(pre + month_entries(mvo), post);
    lemma_multiset_commutative(pre, month_entries(mvn));
    lemma_multiset_commutative(pre + month_entries(mvn), post);
    assert(root_entries(fin).to_multiset() =~= root_entries(s).to_multiset().insert(e));
}

// ---------------------------------------------------------------------------
// Building the tree.
// ---------------------------------------------------------------------------



// Adds one entry to the day buckets of a single month.
#[verifier::loop_isolation(false)]
#[verifier::rlimit(80)]
fn day_add(days: Vec<(u32, Day)>, d: u32, entry: Entry, Ghost(gy): Ghost<int>, Ghost(gm): Ghost<
    int,
>) -> (r: Vec<(u32, Day)>)
    requires
        wf_days(gy, gm, days_v(days@)),
        valid_date(gy, gm, d as int),
    ensures
        wf_days(gy, gm, days_v(r@)),
        bucket_d(days_v(r@), d as int) == bucket_d(days_v(days@), d as int).push(entry@),
        forall|k: int| k != d ==> bucket_d(days_v(r@), k) == bucket_d(days_v(days@), k),
        day_entries(days_v(r@)).to_multiset() == day_entries(days_v(days@)).to_multiset().insert(
            entry@,
        ),
{
    let ghost dv0 = days_v(days@);
    let mut days = days;
    let mut i: usize = 0;
    while i < days.len() && days[i].0 < d
        invariant
            i <= days@.len(),
            forall|t: int| #![trigger dv0[t]] 0 <= t < i ==> dv0[t].0 < d,
        decreases days@.len() - i,
    {
        proof {
            assert(dv0[i as int].0 == days@[i as int].0 as int);
        }
        i += 1;
    }
    proof {
        assert forall|t: int| i <= t < dv0.len() implies #[trigger] dv0[t].0 >= d by {
            if i < days@.len() {
                assert(dv0[i as int].0 == days@[i as int].0 as int);
                assert(dv0[i as int].0 >= d);
            }
        }
    }
    let ghost mid = dv0;
    if i == days.len() || days[i].0 > d {
        proof {
            assert(i < days@.len() ==> dv0[i as int].0 > d);
            assert forall|t: int| 0 <= t < dv0.len() implies #[trigger] dv0[t].0 != d by {
                if t > i {
                    assert(dv0[i as int].0 <= dv0[t].0);
                }
            }
            lemma_alookup_none(dv0, d as int);
        }
        let ghost dseq0 = days@;
        days.insert(i, (d, Day { entries: Vec::new() }));
        proof {
            mid = days_v(days@);
            let emp = Seq::<EntryView>::empty();
            assert(days@[i as int].0 == d);
            assert(entry_views(days@[i as int].1.entries@) =~= emp);
            assert(mid =~= dv0.insert(i as int, (d as int, emp))) by {
                assert forall|t: int| 0 <= t < mid.len() implies mid[t] == dv0.insert(
                    i as int,
                    (d as int, emp),
                )[t] by {
                    if t < i {
                        assert(days@[t] == dseq0[t]);
                    } else if t > i {
                        assert(days@[t] == dseq0[t - 1]);
                    }
                }
            }
            lemma_keys_sorted_insert(dv0, i as int, d as int, emp);
            assert forall|k2: int| true implies alookup(mid, k2) == (if k2 == d {
                Some(emp)
            } else {
                alookup(dv0, k2)
            }) by {
                lemma_alookup_insert(dv0, i as int, d as int, emp, k2);
            }
            assert forall|c: int| 0 <= c < mid.len() implies valid_date(
                gy,
                gm,
                #[trigger] mid[c].0,
            ) by {
                if c < i {
                    assert(mid[c] == dv0[c]);
                } else if c > i {
                    assert(mid[c] == dv0[c - 1]);
                }
            }
            // the inserted bucket is empty, so the walked entries are unchanged
            lemma_day_entries_insert_empty(dv0, i as int, d as int);
            assert(day_entries(mid) == day_entries(dv0));
            assert(bucket_d(dv0, d as int) =~= emp);
            assert(mid[i as int] == (d as int, emp));
        }
    } else {
        proof {
            assert(mid[i as int].0 == days@[i as int].0 as int);
            assert(mid[i as int].0 == d);
            assert forall|t: int| 0 <= t < i implies #[trigger] mid[t].0 != mid[i as int].0 by {
                assert(mid[t].0 < mid[i as int].0);
            }
            lemma_alookup_at(mid, i as int);
            assert(bucket_d(dv0, d as int) == mid[i as int].1);
        }
    }
    proof {
        assert(i < days@.len());
        assert(mid == days_v(days@));
        assert(mid[i as int].0 == d);
        assert(alookup(mid, d as int) == Some(mid[i as int].1));
        assert(bucket_d(dv0, d as int) == mid[i as int].1);
        assert(forall|k2: int| k2 != d ==> alookup(mid, k2) == alookup(dv0, k2));
        assert(day_entries(mid) == day_entries(dv0));
        assert(wf_days(gy, gm, mid));
    }
    let ghost dseq1 = days@;
    let (dk, mut daybucket) = days.remove(i);
    proof {
        assert((dk, daybucket) == dseq1[i as int]);
        assert(entry_views(daybucket.entries@) == mid[i as int].1);
    }
    let ghost es0 = entry_views(daybucket.entries@);
    daybucket.entries.push(entry);
    proof {
        assert(entry_views(daybucket.entries@) =~= es0.push(entry@));
    }
    days.insert(i, (dk, daybucket));
    proof {
        assert(days@ =~= dseq1.update(i as int, days@[i as int]));
        assert(days@[i as int].0 == d);
        assert(entry_views(days@[i as int].1.entries@) == es0.push(entry@));
        let fin = days_v(days@);
        assert(fin =~= mid.update(i as int, (d as int, es0.push(entry@)))) by {
            assert forall|t: int| 0 <= t < fin.len() implies fin[t] == mid.update(
                i as int,
                (d as int, es0.push(entry@)),
            )[t] by {
                if t != i {
                    assert(days@[t] == dseq1[t]);
                }
            }
        }
        assert forall|t: int|
            0 <= t < mid.len() && t != i implies #[trigger] mid[t].0 != mid[i as int].0 by {}
        assert forall|k2: int| true implies alookup(fin, k2) == (if k2 == d {
            Some(es0.push(entry@))
        } else {
            alookup(mid, k2)
        }) by {
            lemma_alookup_update(mid, i as int, es0.push(entry@), k2);
        }
        // well-formedness of the result
        assert(keys_sorted(fin)) by {
            assert forall|a: int, b: int| 0 <= a < b < fin.len() implies #[trigger] fin[a].0
                < #[trigger] fin[b].0 by {
                assert(fin[a].0 == mid[a].0);
                assert(fin[b].0 == mid[b].0);
            }
        }
        assert forall|c: int| 0 <= c < fin.len() implies valid_date(gy, gm, #[trigger] fin[c].0) by {
            assert(fin[c].0 == mid[c].0);
        }
        // the two bucket postconditions
        assert(bucket_d(fin, d as int) =~= bucket_d(dv0, d as int).push(entry@));
        // multiset change: exactly this entry was added
        lemma_day_entries_mset(mid, i as int, d as int, es0, entry@);
        assert(day_entries(fin).to_multiset() =~= day_entries(dv0).to_multiset().insert(entry@));
    }
    days
}

// Adds one entry to the month buckets of a single year.
#[verifier::loop_isolation(false)]
#[verifier::rlimit(80)]
fn month_add(months: Vec<(u32, Month)>, m: u32, d: u32, entry: Entry, Ghost(gy): Ghost<int>) -> (r:
    Vec<(u32, Month)>)
    requires
        wf_months(gy, months_v(months@)),
        valid_date(gy, m as int, d as int),
    ensures
        wf_months(gy, months_v(r@)),
        bucket_md(months_v(r@), m as int, d as int) == bucket_md(
            months_v(months@),
            m as int,
            d as int,
        ).push(entry@),
        forall|m2: int, d2: int|
            !(m2 == m && d2 == d) ==> bucket_md(months_v(r@), m2, d2) == bucket_md(
                months_v(months@),
                m2,
                d2,
            ),
        month_entries(months_v(r@)).to_multiset() == month_entries(
            months_v(months@),
        ).to_multiset().insert(entry@),
{
    let ghost mv0 = months_v(months@);
    let mut months = months;
    let mut i: usize = 0;
    while i < months.len() && months[i].0 < m
        invariant
            i <= months@.len(),
            forall|t: int| #![trigger mv0[t]] 0 <= t < i ==> mv0[t].0 < m,
        decreases months@.len() - i,
    {
        proof {
            assert(mv0[i as int].0 == months@[i as int].0 as int);
        }
        i += 1;
    }
    proof {
        assert forall|t: int| i <= t < mv0.len() implies #[trigger] mv0[t].0 >= m by {
            if i < months@.len() {
                assert(mv0[i as int].0 == months@[i as int].0 as int);
                assert(mv0[i as int].0 >= m);
            }
        }
    }
    let ghost mid = mv0;
    if i == months.len() || months[i].0 > m {
        proof {
            assert(i < months@.len() ==> mv0[i as int].0 > m);
            assert forall|t: int| 0 <= t < mv0.len() implies #[trigger] mv0[t].0 != m by {
                if t > i {
                    assert(mv0[i as int].0 <= mv0[t].0);
                }
            }
            lemma_alookup_none(mv0, m as int);
        }
        let ghost mseq0 = months@;
        months.insert(i, (m, Month { days: Vec::new() }));
        proof {
            mid = months_v(months@);
            let emp = Seq::<(int, Seq<EntryView>)>::empty();
            assert(months@[i as int].0 == m);
            assert(days_v(months@[i as int].1.days@) =~= emp);
            assert(mid =~= mv0.insert(i as int, (m as int, emp))) by {
                assert forall|t: int| 0 <= t < mid.len() implies mid[t] == mv0.insert(
                    i as int,
                    (m as int, emp),
                )[t] by {
                    if t < i {
                        assert(months@[t] == mseq0[t]);
                    } else if t > i {
                        assert(months@[t] == mseq0[t - 1]);
                    }
                }
            }
            lemma_keys_sorted_insert(mv0, i as int, m as int, emp);
            assert forall|k2: int| true implies alookup(mid, k2) == (if k2 == m {
                Some(emp)
            } else {
                alookup(mv0, k2)
            }) by {
                lemma_alookup_insert(mv0, i as int, m as int, emp, k2);
            }
            assert forall|b: int|
                0 <= b < mid.len() implies 1 <= #[trigger] mid[b].0 <= 12 && wf_days(
                gy,
                mid[b].0,
                mid[b].1,
            ) by {
                if b < i {
                    assert(mid[b] == mv0[b]);
                } else if b > i {
                    assert(mid[b] == mv0[b - 1]);
                }
            }
            lemma_month_entries_insert_empty(mv0, i as int, m as int);
            assert(month_entries(mid) == month_entries(mv0));
            assert(mid[i as int] == (m as int, emp));
            assert forall|d2: int| true implies bucket_md(mv0, m as int, d2) == bucket_d(
                mid[i as int].1,
                d2,
            ) by {}
        }
    } else {
        proof {
            assert(mid[i as int].0 == months@[i as int].0 as int);
            assert(mid[i as int].0 == m);
            assert forall|t: int| 0 <= t < i implies #[trigger] mid[t].0 != mid[i as int].0 by {
                assert(mid[t].0 < mid[i as int].0);
            }
            lemma_alookup_at(mid, i as int);
            assert forall|d2: int| true implies bucket_md(mv0, m as int, d2) == bucket_d(
                mid[i as int].1,
                d2,
            ) by {}
        }
    }
    proof {
        assert(i < months@.len());
        assert(mid == months_v(months@));
        assert(mid[i as int].0 == m);
        assert(alookup(mid, m as int) == Some(mid[i as int].1));
        assert(forall|d2: int| bucket_md(mv0, m as int, d2) == bucket_d(mid[i as int].1, d2));
        assert(forall|k2: int| k2 != m ==> alookup(mid, k2) == alookup(mv0, k2));
        assert(month_entries(mid) == month_entries(mv0));
        assert(wf_months(gy, mid));
    }
    let ghost mseq1 = months@;
    let (mk, monthb) = months.remove(i);
    proof {
        assert((mk, monthb) == mseq1[i as int]);
        assert(days_v(monthb.days@) == mid[i as int].1);
    }
    let ghost dv_old = days_v(monthb.days@);
    let new_days = day_add(monthb.days, d, entry, Ghost(gy), Ghost(m as int));
    let ghost dv_new = days_v(new_days@);
    months.insert(i, (mk, Month { days: new_days }));
    proof {
        assert(months@ =~= mseq1.update(i as int, months@[i as int]));
        assert(months@[i as int].0 == m);
        assert(days_v(months@[i as int].1.days@) == dv_new);
        let fin = months_v(months@);
        assert(fin =~= mid.update(i as int, (m as int, dv_new))) by {
            assert forall|t: int| 0 <= t < fin.len() implies fin[t] == mid.update(
                i as int,
                (m as int, dv_new),
            )[t] by {
                if t != i {
                    assert(months@[t] == mseq1[t]);
                }
            }
        }
        assert forall|t: int|
            0 <= t < mid.len() && t != i implies #[trigger] mid[t].0 != mid[i as int].0 by {}
        assert forall|k2: int| true implies alookup(fin, k2) == (if k2 == m {
            Some(dv_new)
        } else {
            alookup(mid, k2)
        }) by {
            lemma_alookup_update(mid, i as int, dv_new, k2);
        }
        assert(keys_sorted(fin)) by {
            assert forall|a: int, b: int| 0 <= a < b < fin.len() implies #[trigger] fin[a].0
                < #[trigger] fin[b].0 by {
                assert(fin[a].0 == mid[a].0);
                assert(fin[b].0 == mid[b].0);
            }
        }
        assert forall|b: int|
            0 <= b < fin.len() implies 1 <= #[trigger] fin[b].0 <= 12 && wf_days(
            gy,
            fin[b].0,
            fin[b].1,
        ) by {
            assert(fin[b].0 == mid[b].0);
            if b != i {
                assert(fin[b] == mid[b]);
            }
        }
        // bucket postconditions
        assert(bucket_md(fin, m as int, d as int) =~= bucket_md(mv0, m as int, d as int).push(
            entry@,
        ));
        assert forall|m2: int, d2: int| !(m2 == m && d2 == d) implies bucket_md(fin, m2, d2)
            == bucket_md(mv0, m2, d2) by {
            if m2 == m {
                assert(bucket_d(dv_new, d2) == bucket_d(dv_old, d2));
                assert(bucket_md(mv0, m2, d2) == bucket_d(dv_old, d2));
            }
        }
        // multiset change: exactly this entry was added
        lemma_month_entries_mset(mid, i as int, m as int, dv_old, dv_new, entry@);
        assert(month_entries(fin).to_multiset() =~= month_entries(mv0).to_multiset().insert(
            entry@,
        ));
    }
    months
}

impl Root {
    /// Places one entry in the bucket of its creation date, creating the
    /// bucket chain as needed.
    #[verifier::loop_isolation(false)]
    #[verifier::rlimit(80)]
    fn add_entry(&mut self, entry: Entry)
        requires
            wf_root(old(self)@),
            entry@.wf(),
        ensures
            wf_root(final(self)@),
            bucket(
                final(self)@,
                entry@.creation_date.year as int,
                entry@.creation_date.month as int,
                entry@.creation_date.day as int,
            ) == bucket(
                old(self)@,
                entry@.creation_date.year as int,
                entry@.creation_date.month as int,
                entry@.creation_date.day as int,
            ).push(entry@),
            forall|y2: int, m2: int, d2: int|
                !(y2 == entry@.creation_date.year && m2 == entry@.creation_date.month && d2
                    == entry@.creation_date.day) ==> bucket(final(self)@, y2, m2, d2) == bucket(
                    old(self)@,
                    y2,
                    m2,
                    d2,
                ),
            root_entries(final(self)@).to_multiset() == root_entries(
                old(self)@,
            ).to_multiset().insert(entry@),
    {
        let y = entry.year();
        let m = entry.month();
        let d = entry.day();
        let ghost rv0 = self@;
        let mut i: usize = 0;
        while i < self.years.len() && self.years[i].0 < y
            invariant
                i <= self.years@.len(),
                forall|t: int| #![trigger rv0[t]] 0 <= t < i ==> rv0[t].0 < y,
            decreases self.years@.len() - i,
        {
            proof {
                assert(rv0[i as int].0 == self.years@[i as int].0 as int);
            }
            i += 1;
        }
        proof {
            assert forall|t: int| i <= t < rv0.len() implies #[trigger] rv0[t].0 >= y by {
                if i < self.years@.len() {
                    assert(rv0[i as int].0 == self.years@[i as int].0 as int);
                    assert(rv0[i as int].0 >= y);
                }
            }
        }
        let ghost mid = rv0;
        if i == self.years.len() || self.years[i].0 > y {
            proof {
                assert(i < self.years@.len() ==> rv0[i as int].0 > y);
                assert forall|t: int| 0 <= t < rv0.len() implies #[trigger] rv0[t].0 != y by {
                    if t > i {
                        assert(rv0[i as int].0 <= rv0[t].0);
                    }
                }
                lemma_alookup_none(rv0, y as int);
            }
            let ghost yseq0 = self.years@;
            self.years.insert(i, (y, Year { months: Vec::new() }));
            proof {
                mid = self@;
                let emp = Seq::<(int, Seq<(int, Seq<EntryView>)>)>::empty();
                assert(self.years@[i as int].0 == y);
                assert(months_v(self.years@[i as int].1.months@) =~= emp);
                assert(mid =~= rv0.insert(i as int, (y as int, emp))) by {
                    assert forall|t: int| 0 <= t < mid.len() implies mid[t] == rv0.insert(
                        i as int,
                        (y as int, emp),
                    )[t] by {
                        if t < i {
                            assert(self.years@[t] == yseq0[t]);
                        } else if t > i {
                            assert(self.years@[t] == yseq0[t - 1]);
                        }
                    }
                }
                lemma_keys_sorted_insert(rv0, i as int, y as int, emp);
                assert forall|k2: int| true implies alookup(mid, k2) == (if k2 == y {
                    Some(emp)
                } else {
                    alookup(rv0, k2)
                }) by {
                    lemma_alookup_insert(rv0, i as int, y as int, emp, k2);
                }
                assert forall|a: int|
                    0 <= a < mid.len() implies 0 <= #[trigger] mid[a].0 <= 9999 && wf_months(
                    mid[a].0,
                    mid[a].1,
                ) by {
                    if a < i {
                        assert(mid[a] == rv0[a]);
                    } else if a > i {
                        assert(mid[a] == rv0[a - 1]);
                    }
                }
                lemma_root_entries_insert_empty(rv0, i as int, y as int);
                assert(root_entries(mid) == root_entries(rv0));
                assert(mid[i as int] == (y as int, emp));
                assert forall|m2: int, d2: int| true implies bucket(rv0, y as int, m2, d2)
                    == bucket_md(mid[i as int].1, m2, d2) by {}
            }
        } else {
            proof {
                assert(mid[i as int].0 == self.years@[i as int].0 as int);
                assert(mid[i as int].0 == y);
                assert forall|t: int| 0 <= t < i implies #[trigger] mid[t].0 != mid[i as int].0 by {
                    assert(mid[t].0 < mid[i as int].0);
                }
                lemma_alookup_at(mid, i as int);
                assert forall|m2: int, d2: int| true implies bucket(rv0, y as int, m2, d2)
                    == bucket_md(mid[i as int].1, m2, d2) by {}
            }
        }
        proof {
            assert(i < self.years@.len());
            assert(mid == self@);
            assert(mid[i as int].0 == y);
            assert(alookup(mid, y as int) == Some(mid[i as int].1));
            assert(forall|m2: int, d2: int|
                bucket(rv0, y as int, m2, d2) == bucket_md(mid[i as int].1, m2, d2));
            assert(forall|k2: int| k2 != y ==> alookup(mid, k2) == alookup(rv0, k2));
            assert(root_entries(mid) == root_entries(rv0));
            assert(wf_root(mid));
            assert(valid_date(y as int, m as int, d as int));
        }
        let ghost yseq1 = self.years@;
        let (yk, yearb) = self.years.remove(i);
        proof {
            assert((yk, yearb) == yseq1[i as int]);
            assert(months_v(yearb.months@) == mid[i as int].1);
        }
        let ghost mv_old = months_v(yearb.months@);
        let new_months = month_add(yearb.months, m, d, entry, Ghost(y as int));
        let ghost mv_new = months_v(new_months@);
        self.years.insert(i, (yk, Year { months: new_months }));
        proof {
            assert(self.years@ =~= yseq1.update(i as int, self.years@[i as int]));
            assert(self.years@[i as int].0 == y);
            assert(months_v(self.years@[i as int].1.months@) == mv_new);
            let fin = self@;
            assert(fin =~= mid.update(i as int, (y as int, mv_new))) by {
                assert forall|t: int| 0 <= t < fin.len() implies fin[t] == mid.update(
                    i as int,
                    (y as int, mv_new),
                )[t] by {
                    if t != i {
                        assert(self.years@[t] == yseq1[t]);
                    }
                }
            }
            assert forall|t: int|
                0 <= t < mid.len() && t != i implies #[trigger] mid[t].0 != mid[i as int].0 by {}
            assert forall|k2: int| true implies alookup(fin, k2) == (if k2 == y {
                Some(mv_new)
            } else {
                alookup(mid, k2)
            }) by {
                lemma_alookup_update(mid, i as int, mv_new, k2);
            }
            assert(keys_sorted(fin)) by {
                assert forall|a: int, b: int| 0 <= a < b < fin.len() implies #[trigger] fin[a].0
                    < #[trigger] fin[b].0 by {
                    assert(fin[a].0 == mid[a].0);
                    assert(fin[b].0 == mid[b].0);
                }
            }
            assert forall|a: int|
                0 <= a < fin.len() implies 0 <= #[trigger] fin[a].0 <= 9999 && wf_months(
                fin[a].0,
                fin[a].1,
            ) by {
                assert(fin[a].0 == mid[a].0);
                if a != i {
                    assert(fin[a] == mid[a]);
                }
            }
            assert(bucket(fin, y as int, m as int, d as int) =~= bucket(
                rv0,
                y as int,
                m as int,
                d as int,
            ).push(entry@));
            assert forall|y2: int, m2: int, d2: int| !(y2 == y && m2 == m && d2 == d) implies
                bucket(fin, y2, m2, d2) == bucket(rv0, y2, m2, d2) by {
                if y2 == y {
                    assert(bucket_md(mv_new, m2, d2) == bucket_md(mv_old, m2, d2));
                    assert(bucket(rv0, y2, m2, d2) == bucket_md(mv_old, m2, d2));
                }
            }
            // multiset change: exactly this entry was added
            lemma_root_entries_mset(mid, i as int, y as int, mv_old, mv_new, entry@);
            assert(root_entries(fin).to_multiset() =~= root_entries(rv0).to_multiset().insert(
                entry@,
            ));
        }
    }
}


/// The entries of `s` whose creation date is year `y`, month `m`, day `d`,
/// in input order.
pub open spec fn date_filter(s: Seq<EntryView>, y: int, m: int, d: int) -> Seq<EntryView>
    decreases s.len(),
{
    if s.len() == 0 {
        Seq::empty()
    } else {
        date_filter(s.drop_last(), y, m, d) + (if s.last().creation_date.year == y
            && s.last().creation_date.month == m && s.last().creation_date.day == d {
            seq![s.last()]
        } else {
            Seq::empty()
        })
    }
}

impl Root {
    /// Builds the time tree from a journal in one pass.
    ///
    /// Every bucket holds exactly the journal entries of its date, in input
    /// order, and walking the whole tree reaches every journal entry exactly
    /// once: nothing is lost, nothing duplicated.
    #[verifier::loop_isolation(false)]
    pub fn from(journal: Journal) -> (r: Root)
        requires
            forall|i: int|
                0 <= i < journal.entries@.len() ==> (#[trigger] journal.entries@[i])@.wf(),
        ensures
            wf_root(r@),
            forall|y: int, m: int, d: int|
                bucket(r@, y, m, d) == date_filter(entry_views(journal.entries@), y, m, d),
            root_entries(r@).to_multiset() == entry_views(journal.entries@).to_multiset(),
            root_entries(r@).len() == journal.entries@.len(),
    {
        broadcast use vstd::seq_lib::group_to_multiset_ensures;

        let ghost evs = entry_views(journal.entries@);
        let mut root = Root { years: Vec::new() };
        let mut entries = journal.entries;
        let ghost total = evs.len();
        proof {
            assert(root@ =~= Seq::<(int, Seq<(int, Seq<(int, Seq<EntryView>)>)>)>::empty());
            assert(entry_views(entries@) =~= evs.skip(0));
            assert(evs.take(0) =~= Seq::<EntryView>::empty());
            assert forall|y: int, m: int, d: int| true implies bucket(root@, y, m, d) == date_filter(
                evs.take(0),
                y,
                m,
                d,
            ) by {}
            assert(root_entries(root@).to_multiset() =~= evs.take(0).to_multiset());
        }
        while entries.len() > 0
            invariant
                entries@.len() <= total,
                entry_views(entries@) == evs.skip(total - entries@.len()),
                wf_root(root@),
                forall|y: int, m: int, d: int|
                    bucket(root@, y, m, d) == date_filter(
                        evs.take(total - entries@.len()),
                        y,
                        m,
                        d,
                    ),
                root_entries(root@).to_multiset() == evs.take(
                    total - entries@.len(),
                ).to_multiset(),
            decreases entries@.len(),
        {
            let ghost done = total - entries@.len();
            let ghost eseq = entries@;
            let e = entries.remove(0);
            proof {
                assert(evs.skip(done)[0] == evs[done]);
                assert(entry_views(eseq)[0] == eseq[0]@);
                assert(e@ == evs[done]);
                assert(entry_views(entries@) =~= evs.skip(done + 1)) by {
                    assert(entries@ =~= eseq.drop_first());
                    assert forall|t: int| 0 <= t < entries@.len() implies entry_views(
                        entries@,
                    )[t] == evs.skip(done + 1)[t] by {
                        assert(entries@[t] == eseq[t + 1]);
                        assert(entry_views(eseq)[t + 1] == eseq[t + 1]@);
                        assert(evs.skip(done)[t + 1] == evs[done + 1 + t]);
                    }
                }
                assert(evs[done].wf());
            }
            let ghost before = root@;
            root.add_entry(e);
            proof {
                let now = done + 1;
                assert(evs.take(now).drop_last() =~= evs.take(done));
                assert(evs.take(now).last() == evs[done]);
                let ey = e@.creation_date.year as int;
                let em = e@.creation_date.month as int;
                let ed = e@.creation_date.day as int;
                assert forall|y: int, m: int, d: int| true implies bucket(root@, y, m, d)
                    == date_filter(evs.take(now), y, m, d) by {
                    if y == ey && m == em && d == ed {
                        assert(date_filter(evs.take(now), y, m, d) =~= date_filter(
                            evs.take(done),
                            y,
                            m,
                            d,
                        ).push(evs[done]));
                    } else {
                        assert(date_filter(evs.take(now), y, m, d) =~= date_filter(
                            evs.take(done),
                            y,
                            m,
                            d,
                        ));
                    }
                }
                assert(evs.take(now) =~= evs.take(done).push(evs[done]));
                assert(evs.take(now).to_multiset() =~= evs.take(done).to_multiset().insert(
                    evs[done],
                ));
            }
        }
        proof {
            assert(evs.take(total as int) =~= evs);
            assert(root_entries(root@).to_multiset().len() == evs.to_multiset().len());
        }
        root
    }
}

// ---------------------------------------------------------------------------
// Rendering.
// ---------------------------------------------------------------------------

pub open spec fn render_props(ps: Seq<(Seq<char>, Seq<char>)>) -> Seq<char>
    decreases ps.len(),
{
    if ps.len() == 0 {
        Seq::empty()
    } else {
        render_props(ps.drop_last()) + ":"@ + ps.last().0 + ": "@ + ps.last().1 + "\n"@
    }
}

/// One entry: heading with the title (or `Empty`), the delimited properties
/// block, then the converted body.
pub open spec fn render_entry(e: EntryView) -> Seq<char> {
    "**** "@ + (match spec_title(e, spec_first_link(e)) {
        Some(t) => t,
        None => "Empty"@,
    }) + "\n"@ + ":PROPERTIES:\n"@ + render_props(spec_properties(e)) + ":END:\n"@ + (
    match spec_body(e, e.photos) {
        Some(b) => b,
        None => Seq::empty(),
    }) + "\n"@
}

pub open spec fn render_entries(es: Seq<EntryView>) -> Seq<char>
    decreases es.len(),
{
    if es.len() == 0 {
        Seq::empty()
    } else {
        render_entries(es.drop_last()) + render_entry(es.last())
    }
}

pub open spec fn render_day(y: int, m: int, d: int, es: Seq<EntryView>) -> Seq<char> {
    "*** "@ + dec_of(y) + "-"@ + dec_of(m) + "-"@ + dec_of(d) + " "@ + weekday_of(y, m, d) + "\n"@
        + render_entries(es)
}

pub open spec fn render_days(y: int, m: int, dv: Seq<(int, Seq<EntryView>)>) -> Seq<char>
    decreases dv.len(),
{
    if dv.len() == 0 {
        Seq::empty()
    } else {
        render_days(y, m, dv.drop_last()) + render_day(y, m, dv.last().0, dv.last().1)
    }
}

pub open spec fn render_month(y: int, m: int, dv: Seq<(int, Seq<EntryView>)>) -> Seq<char> {
    "** "@ + dec_of(y) + "-"@ + dec_of(m) + " "@ + spec_month_name(m) + "\n"@ + render_days(
        y,
        m,
        dv,
    )
}

pub open spec fn render_months(y: int, mv: Seq<(int, Seq<(int, Seq<EntryView>)>)>) -> Seq<char>
    decreases mv.len(),
{
    if mv.len() == 0 {
        Seq::empty()
    } else {
        render_months(y, mv.drop_last()) + render_month(y, mv.last().0, mv.last().1)
    }
}

pub open spec fn render_year(y: int, mv: Seq<(int, Seq<(int, Seq<EntryView>)>)>) -> Seq<char> {
    "* "@ + dec_of(y) + "\n"@ + render_months(y, mv)
}

/// The whole outline document of a tree.
pub open spec fn spec_render(rv: Seq<(int, Seq<(int, Seq<(int, Seq<EntryView>)>)>)>) -> Seq<char>
    decreases rv.len(),
{
    if rv.len() == 0 {
        Seq::empty()
    } else {
        spec_render(rv.drop_last()) + render_year(rv.last().0, rv.last().1)
    }
}

pub open spec fn day_ok(es: Seq<EntryView>) -> bool {
    forall|l: int| 0 <= l < es.len() ==> moon_ok(#[trigger] es[l])
}

pub open spec fn month_ok(dv: Seq<(int, Seq<EntryView>)>) -> bool {
    forall|c: int| 0 <= c < dv.len() ==> day_ok(#[trigger] dv[c].1)
}

pub open spec fn year_ok(mv: Seq<(int, Seq<(int, Seq<EntryView>)>)>) -> bool {
    forall|b: int| 0 <= b < mv.len() ==> month_ok(#[trigger] mv[b].1)
}

/// Every entry in the tree carries a known lunar-phase code, if any.
pub open spec fn root_ok(rv: Seq<(int, Seq<(int, Seq<(int, Seq<EntryView>)>)>)>) -> bool {
    forall|a: int| 0 <= a < rv.len() ==> year_ok(#[trigger] rv[a].1)
}

/// Rendering depends on the tree's abstract value alone: two trees with the
/// same buckets render to the same document, in this process or another.
pub proof fn lemma_render_deterministic(a: &Root, b: &Root)
    requires
        a@ == b@,
    ensures
        spec_render(a@) == spec_render(b@),
{
}


/// Renders one entry: heading, properties block, converted body.
#[verifier::loop_isolation(false)]
#[verifier::rlimit(80)]
fn render_one_entry(e: &Entry) -> (r: Result<String, DecodeError>)
    ensures
        match r {
            Ok(s) => moon_ok(e@) && s@ == render_entry(e@),
            Err(err) => !moon_ok(e@) && err == DecodeError::MoonPhase,
        },
{
    let mut out = String::new();
    let link = e.first_photo_link();
    let title = e.title(link);
    out.append("**** ");
    match &title {
        Some(t) => out.append(t.as_str()),
        None => out.append("Empty"),
    }
    out.append("\n");
    out.append(":PROPERTIES:\n");
    match e.properties() {
        Ok(props) => {
            let ghost pre_props = out@;
            proof {
                assert(pairs(props@).take(0) =~= Seq::<(Seq<char>, Seq<char>)>::empty());
            }
            let mut q: usize = 0;
            while q < props.len()
                invariant
                    q <= props@.len(),
                    pairs(props@) == spec_properties(e@),
                    out@ == pre_props + render_props(pairs(props@).take(q as int)),
                decreases props@.len() - q,
            {
                proof {
                    assert(pairs(props@).take(q as int + 1).drop_last() =~= pairs(props@).take(
                        q as int,
                    ));
                    assert(pairs(props@).take(q as int + 1).last() == (
                        props@[q as int].0@,
                        props@[q as int].1@,
                    ));
                }
                out.append(":");
                out.append(props[q].0.as_str());
                out.append(": ");
                out.append(props[q].1.as_str());
                out.append("\n");
                q += 1;
            }
            proof {
                assert(pairs(props@).take(props@.len() as int) =~= pairs(props@));
            }
        },
        Err(err) => {
            return Err(err);
        },
    }
    out.append(":END:\n");
    let body = e.body(&e.photos);
    match &body {
        Some(bs) => out.append(bs.as_str()),
        None => {},
    }
    out.append("\n");
    proof {
        assert(crate::day_one::opt_photo_views(e.photos) == e@.photos);
        assert(out@ =~= render_entry(e@));
    }
    Ok(out)
}

/// Renders one day: its heading line and every entry in arrival order.
#[verifier::loop_isolation(false)]
#[verifier::rlimit(80)]
fn render_one_day(y: i32, m: u32, d: u32, day: &Day) -> (r: Result<String, DecodeError>)
    requires
        0 <= y,
        valid_date(y as int, m as int, d as int),
    ensures
        match r {
            Ok(s) => day_ok(entry_views(day.entries@)) && s@ == render_day(
                y as int,
                m as int,
                d as int,
                entry_views(day.entries@),
            ),
            Err(err) => !day_ok(entry_views(day.entries@)) && err == DecodeError::MoonPhase,
        },
{
    let ghost esv = entry_views(day.entries@);
    let mut out = String::new();
    out.append("*** ");
    let ys = u32_string(y as u32);
    out.append(ys.as_str());
    out.append("-");
    let ms = u32_string(m);
    out.append(ms.as_str());
    out.append("-");
    let ds = u32_string(d);
    out.append(ds.as_str());
    out.append(" ");
    let wd = weekday_name(y, m, d);
    out.append(wd.as_str());
    out.append("\n");
    let ghost pre_entries = out@;
    proof {
        assert(esv.take(0) =~= Seq::<EntryView>::empty());
    }
    let mut l: usize = 0;
    while l < day.entries.len()
        invariant
            l <= esv.len(),
            esv.len() == day.entries@.len(),
            out@ == pre_entries + render_entries(esv.take(l as int)),
            forall|l2: int| 0 <= l2 < l ==> moon_ok(#[trigger] esv[l2]),
        decreases esv.len() - l,
    {
        let e = &day.entries[l];
        proof {
            assert(esv[l as int] == e@);
        }
        match render_one_entry(e) {
            Ok(rendered) => {
                out.append(rendered.as_str());
            },
            Err(err) => {
                proof {
                    assert(!moon_ok(esv[l as int]));
                    assert(!day_ok(esv)) by {
                        if day_ok(esv) {
                            assert(moon_ok(esv[l as int]));
                        }
                    }
                }
                return Err(err);
            },
        }
        proof {
            assert(esv.take(l as int + 1).drop_last() =~= esv.take(l as int));
            assert(esv.take(l as int + 1).last() == esv[l as int]);
            assert(out@ =~= pre_entries + render_entries(esv.take(l as int + 1)));
        }
        l += 1;
    }
    proof {
        assert(esv.take(esv.len() as int) =~= esv);
    }
    Ok(out)
}

/// Renders one month: its heading line and its days, ascending.
#[verifier::loop_isolation(false)]
#[verifier::rlimit(80)]
fn render_one_month(y: i32, m: u32, month: &Month) -> (r: Result<String, DecodeError>)
    requires
        0 <= y,
        1 <= m <= 12,
        wf_days(y as int, m as int, days_v(month.days@)),
    ensures
        match r {
            Ok(s) => month_ok(days_v(month.days@)) && s@ == render_month(
                y as int,
                m as int,
                days_v(month.days@),
            ),
            Err(err) => !month_ok(days_v(month.days@)) && err == DecodeError::MoonPhase,
        },
{
    let ghost dv = days_v(month.days@);
    let mut out = String::new();
    out.append("** ");
    let ys = u32_string(y as u32);
    out.append(ys.as_str());
    out.append("-");
    let ms = u32_string(m);
    out.append(ms.as_str());
    out.append(" ");
    out.append(month_name(m));
    out.append("\n");
    let ghost pre_days = out@;
    proof {
        assert(dv.take(0) =~= Seq::<(int, Seq<EntryView>)>::empty());
    }
    let mut c: usize = 0;
    while c < month.days.len()
        invariant
            c <= dv.len(),
            dv.len() == month.days@.len(),
            out@ == pre_days + render_days(y as int, m as int, dv.take(c as int)),
            forall|c2: int| 0 <= c2 < c ==> day_ok(#[trigger] dv[c2].1),
        decreases dv.len() - c,
    {
        let dkey: u32 = month.days[c].0;
        proof {
            assert(dv[c as int] == (
                month.days@[c as int].0 as int,
                entry_views(month.days@[c as int].1.entries@),
            ));
            assert(valid_date(y as int, m as int, dv[c as int].0));
        }
        match render_one_day(y, m, dkey, &month.days[c].1) {
            Ok(rendered) => {
                out.append(rendered.as_str());
            },
            Err(err) => {
                proof {
                    assert(!day_ok(dv[c as int].1));
                    assert(!month_ok(dv)) by {
                        if month_ok(dv) {
                            assert(day_ok(dv[c as int].1));
                        }
                    }
                }
                return Err(err);
            },
        }
        proof {
            assert(dv.take(c as int + 1).drop_last() =~= dv.take(c as int));
            assert(dv.take(c as int + 1).last() == dv[c as int]);
            assert(out@ =~= pre_days + render_days(y as int, m as int, dv.take(c as int + 1)));
        }
        c += 1;
    }
    proof {
        assert(dv.take(dv.len() as int) =~= dv);
    }
    Ok(out)
}

/// Renders one year: its heading line and its months, ascending.
#[verifier::loop_isolation(false)]
#[verifier::rlimit(80)]
fn render_one_year(y: i32, year: &Year) -> (r: Result<String, DecodeError>)
    requires
        0 <= y <= 9999,
        wf_months(y as int, months_v(year.months@)),
    ensures
        match r {
            Ok(s) => year_ok(months_v(year.months@)) && s@ == render_year(
                y as int,
                months_v(year.months@),
            ),
            Err(err) => !year_ok(months_v(year.months@)) && err == DecodeError::MoonPhase,
        },
{
    let ghost mv = months_v(year.months@);
    let mut out = String::new();
    out.append("* ");
    let ys = u32_string(y as u32);
    out.append(ys.as_str());
    out.append("\n");
    let ghost pre_months = out@;
    proof {
        assert(mv.take(0) =~= Seq::<(int, Seq<(int, Seq<EntryView>)>)>::empty());
    }
    let mut b: usize = 0;
    while b < year.months.len()
        invariant
            b <= mv.len(),
            mv.len() == year.months@.len(),
            out@ == pre_months + render_months(y as int, mv.take(b as int)),
            forall|b2: int| 0 <= b2 < b ==> month_ok(#[trigger] mv[b2].1),
        decreases mv.len() - b,
    {
        let mkey: u32 = year.months[b].0;
        proof {
            assert(mv[b as int] == (
                year.months@[b as int].0 as int,
                days_v(year.months@[b as int].1.days@),
            ));
            assert(1 <= mv[b as int].0 <= 12);
            assert(wf_days(y as int, mv[b as int].0, mv[b as int].1));
        }
        match render_one_month(y, mkey, &year.months[b].1) {
            Ok(rendered) => {
                out.append(rendered.as_str());
            },
            Err(err) => {
                proof {
                    assert(!month_ok(mv[b as int].1));
                    assert(!year_ok(mv)) by {
                        if year_ok(mv) {
                            assert(month_ok(mv[b as int].1));
                        }
                    }
                }
                return Err(err);
            },
        }
        proof {
            assert(mv.take(b as int + 1).drop_last() =~= mv.take(b as int));
            assert(mv.take(b as int + 1).last() == mv[b as int]);
            assert(out@ =~= pre_months + render_months(y as int, mv.take(b as int + 1)));
        }
        b += 1;
    }
    proof {
        assert(mv.take(mv.len() as int) =~= mv);
    }
    Ok(out)
}

impl Root {
    /// Renders the outline document: years, months and days in ascending
    /// order, each entry under its day with heading, properties block and
    /// converted body.  Fails exactly when some entry in the tree names an
    /// unknown lunar phase.
    #[verifier::loop_isolation(false)]
    #[verifier::rlimit(80)]
    pub fn print(&self) -> (r: Result<String, DecodeError>)
        requires
            wf_root(self@),
        ensures
            match r {
                Ok(s) => root_ok(self@) && s@ == spec_render(self@),
                Err(e) => !root_ok(self@) && e == DecodeError::MoonPhase,
            },
    {
        let ghost rv = self@;
        let mut out = String::new();
        proof {
            assert(rv.take(0) =~= Seq::<(int, Seq<(int, Seq<(int, Seq<EntryView>)>)>)>::empty());
        }
        let mut a: usize = 0;
        while a < self.years.len()
            invariant
                a <= self.years@.len(),
                out@ == spec_render(rv.take(a as int)),
                forall|a2: int| 0 <= a2 < a ==> year_ok(#[trigger] rv[a2].1),
            decreases self.years@.len() - a,
        {
            let ykey: i32 = self.years[a].0;
            proof {
                assert(rv[a as int] == (
                    self.years@[a as int].0 as int,
                    months_v(self.years@[a as int].1.months@),
                ));
                assert(0 <= rv[a as int].0 <= 9999);
                assert(wf_months(rv[a as int].0, rv[a as int].1));
            }
            match render_one_year(ykey, &self.years[a].1) {
                Ok(rendered) => {
                    out.append(rendered.as_str());
                },
                Err(err) => {
                    proof {
                        assert(!year_ok(rv[a as int].1));
                        assert(!root_ok(rv)) by {
                            if root_ok(rv) {
                                assert(year_ok(rv[a as int].1));
                            }
                        }
                    }
                    return Err(err);
                },
            }
            proof {
                assert(rv.take(a as int + 1).drop_last() =~= rv.take(a as int));
                assert(rv.take(a as int + 1).last() == rv[a as int]);
                assert(out@ =~= spec_render(rv.take(a as int + 1)));
            }
            a += 1;
        }
        proof {
            assert(rv.take(rv.len() as int) =~= rv);
        }
        Ok(out)
    }
}

} // verus!

