//! Merge planning: the skip rules and the stable timestamp sort.
//!
//! A bucket dated today is skipped — its hour may still be recording.
//! A bucket whose output artifact already exists as a non-empty regular
//! file is skipped — the merge is idempotent.  Every other bucket is
//! executed on its segments sorted by instant, equal instants keeping
//! their discovery order.

use vstd::prelude::*;

use crate::group::Bucket;
use crate::scan::{seg_views, SegView, Segment};
use crate::time::{is_digit, is_digit_seq, lemma_digit_seq_ascii};
use vstd::multiset::Multiset;
use vstd::seq_lib::lemma_multiset_commutative;

verus! {

/// Non-decreasing by instant.
pub open spec fn sorted_by_instant(s: Seq<SegView>) -> bool {
    forall|a: int, b: int| 0 <= a <= b < s.len() ==> s[a].instant <= s[b].instant
}

/// `x` inserted after every element whose instant does not exceed its
/// own: the insertion step of a stable sort.
pub open spec fn insert_sorted(s: Seq<SegView>, x: SegView) -> Seq<SegView>
    decreases s.len(),
{
    if s.len() == 0 {
        seq![x]
    } else if s.first().instant <= x.instant {
        seq![s.first()] + insert_sorted(s.drop_first(), x)
    } else {
        seq![x] + s
    }
}

/// The stable sort of `s` by instant: each element in turn inserted
/// after its equals, so discovery order is kept among equal instants.
pub open spec fn stable_sort(s: Seq<SegView>) -> Seq<SegView>
    decreases s.len(),
{
    if s.len() == 0 {
        Seq::empty()
    } else {
        insert_sorted(stable_sort(s.drop_last()), s.last())
    }
}

/// The elements of `s` whose instant is `t`, in order.
pub open spec fn filter_at(s: Seq<SegView>, t: u64) -> Seq<SegView> {
    s.filter(|sv: SegView| sv.instant == t)
}

/// Where the boundary between `<= x` and `> x` is known, the insertion
/// is a plain splice at that boundary.
pub proof fn lemma_insert_sorted_split(s: Seq<SegView>, x: SegView, p: int)
    requires
        0 <= p <= s.len(),
        forall|i: int| 0 <= i < p ==> s[i].instant <= x.instant,
        forall|i: int| p <= i < s.len() ==> s[i].instant > x.instant,
    ensures
        insert_sorted(s, x) == s.take(p) + seq![x] + s.skip(p),
    decreases s.len(),
{
    if s.len() == 0 {
        assert(insert_sorted(s, x) =~= s.take(p) + seq![x] + s.skip(p));
    } else if p == 0 {
        assert(s.first().instant > x.instant);
        assert(insert_sorted(s, x) =~= s.take(0) + seq![x] + s.skip(0));
    } else {
        assert(s[0].instant <= x.instant);
        let rest = s.drop_first();
        assert forall|i: int| 0 <= i < p - 1 implies rest[i].instant <= x.instant by {
            assert(rest[i] == s[i + 1]);
        }
        assert forall|i: int| p - 1 <= i < rest.len() implies rest[i].instant > x.instant by {
            assert(rest[i] == s[i + 1]);
        }
        lemma_insert_sorted_split(rest, x, p - 1);
        assert(insert_sorted(s, x) =~= s.take(p) + seq![x] + s.skip(p)) by {
            assert(insert_sorted(s, x) == seq![s.first()] + (rest.take(p - 1) + seq![x]
                + rest.skip(p - 1)));
        }
    }
}

/// The boundary index itself: the length of the leading run of
/// elements whose instant does not exceed `x`'s.
pub open spec fn insert_point(s: Seq<SegView>, x: SegView) -> int
    decreases s.len(),
{
    if s.len() == 0 {
        0
    } else if s.first().instant <= x.instant {
        1 + insert_point(s.drop_first(), x)
    } else {
        0
    }
}

pub proof fn lemma_insert_point(s: Seq<SegView>, x: SegView)
    requires
        sorted_by_instant(s),
    ensures
        0 <= insert_point(s, x) <= s.len(),
        forall|i: int| 0 <= i < insert_point(s, x) ==> s[i].instant <= x.instant,
        forall|i: int| insert_point(s, x) <= i < s.len() ==> s[i].instant > x.instant,
    decreases s.len(),
{
    if s.len() > 0 {
        let rest = s.drop_first();
        assert(sorted_by_instant(rest)) by {
            assert forall|a: int, b: int| 0 <= a <= b < rest.len() implies rest[a].instant
                <= rest[b].instant by {
                assert(rest[a] == s[a + 1] && rest[b] == s[b + 1]);
            }
        }
        lemma_insert_point(rest, x);
        let p = insert_point(s, x);
        if s.first().instant <= x.instant {
            assert forall|i: int| 0 <= i < p implies s[i].instant <= x.instant by {
                if i > 0 {
                    assert(rest[i - 1] == s[i]);
                }
            }
            assert forall|i: int| p <= i < s.len() implies s[i].instant > x.instant by {
                assert(rest[i - 1] == s[i]);
            }
        } else {
            assert forall|i: int| 0 <= i < s.len() implies s[i].instant > x.instant by {
                assert(s[0].instant <= s[i].instant);
            }
        }
    }
}

/// Inserting into a sorted run keeps it sorted.
pub proof fn lemma_insert_sorted_sorted(s: Seq<SegView>, x: SegView)
    requires
        sorted_by_instant(s),
    ensures
        sorted_by_instant(insert_sorted(s, x)),
{
    lemma_insert_point(s, x);
    let p = insert_point(s, x);
    lemma_insert_sorted_split(s, x, p);
    let out = s.take(p) + seq![x] + s.skip(p);
    assert forall|a: int, b: int| 0 <= a <= b < out.len() implies out[a].instant
        <= out[b].instant by {
        if a < p {
            assert(out[a] == s[a]);
        } else if a == p {
            assert(out[a] == x);
        } else {
            assert(out[a] == s[a - 1]);
        }
        if b < p {
            assert(out[b] == s[b]);
        } else if b == p {
            assert(out[b] == x);
        } else {
            assert(out[b] == s[b - 1]);
        }
    }
}

/// Insertion adds exactly `x` to the contents.
pub proof fn lemma_insert_sorted_multiset(s: Seq<SegView>, x: SegView, p: int)
    requires
        0 <= p <= s.len(),
        insert_sorted(s, x) == s.take(p) + seq![x] + s.skip(p),
    ensures
        insert_sorted(s, x).to_multiset() == s.to_multiset().insert(x),
{
    broadcast use vstd::seq_lib::group_to_multiset_ensures;

    let a = s.take(p);
    let b = s.skip(p);
    lemma_multiset_commutative(a + seq![x], b);
    lemma_multiset_commutative(a, seq![x]);
    lemma_multiset_commutative(a, b);
    assert(a + b =~= s);
    assert(seq![x] =~= Seq::<SegView>::empty().push(x));
    assert(Seq::<SegView>::empty().push(x).to_multiset() =~= Multiset::<
        SegView,
    >::empty().insert(x));
    assert(insert_sorted(s, x).to_multiset() =~= s.to_multiset().insert(x));
}

/// Insertion appends `x` to the elements at its own instant and leaves
/// every other instant's run unchanged: the stability of one step.
pub proof fn lemma_insert_sorted_stable(s: Seq<SegView>, x: SegView, t: u64)
    requires
        sorted_by_instant(s),
    ensures
        x.instant == t ==> filter_at(insert_sorted(s, x), t) == filter_at(s, t).push(x),
        x.instant != t ==> filter_at(insert_sorted(s, x), t) == filter_at(s, t),
{
    let pred = |sv: SegView| sv.instant == t;
    lemma_insert_point(s, x);
    let p = insert_point(s, x);
    lemma_insert_sorted_split(s, x, p);
    let a = s.take(p);
    let b = s.skip(p);
    Seq::filter_distributes_over_add(a + seq![x], b, pred);
    Seq::filter_distributes_over_add(a, seq![x], pred);
    Seq::filter_distributes_over_add(a, b, pred);
    assert(a + b =~= s);
    lemma_filter_single(x, pred);
    if x.instant == t {
        assert forall|i: int| 0 <= i < b.len() implies !pred(#[trigger] b[i]) by {
            assert(b[i] == s[p + i]);
        }
        lemma_filter_empty(b, pred);
        assert(filter_at(insert_sorted(s, x), t) =~= filter_at(s, t).push(x));
    } else {
        assert(filter_at(insert_sorted(s, x), t) =~= filter_at(s, t));
    }
}

proof fn lemma_filter_single(x: SegView, pred: spec_fn(SegView) -> bool)
    ensures
        pred(x) ==> seq![x].filter(pred) == seq![x],
        !pred(x) ==> seq![x].filter(pred) == Seq::<SegView>::empty(),
{
    reveal_with_fuel(Seq::<_>::filter, 3);
    assert(seq![x].drop_last() =~= Seq::<SegView>::empty());
    assert(Seq::<SegView>::empty().filter(pred) =~= Seq::<SegView>::empty());
    if pred(x) {
        assert(seq![x].filter(pred) =~= seq![x]);
    } else {
        assert(seq![x].filter(pred) =~= Seq::<SegView>::empty());
    }
}

proof fn lemma_filter_empty(s: Seq<SegView>, pred: spec_fn(SegView) -> bool)
    requires
        forall|i: int| 0 <= i < s.len() ==> !pred(#[trigger] s[i]),
    ensures
        s.filter(pred) == Seq::<SegView>::empty(),
    decreases s.len(),
{
    reveal_with_fuel(Seq::<_>::filter, 2);
    if s.len() > 0 {
        lemma_filter_empty(s.drop_last(), pred);
        assert(s.filter(pred) =~= Seq::<SegView>::empty());
    } else {
        assert(s.filter(pred) =~= Seq::<SegView>::empty());
    }
}

/// The stable sort is sorted.
pub proof fn lemma_stable_sort_sorted(s: Seq<SegView>)
    ensures
        sorted_by_instant(stable_sort(s)),
    decreases s.len(),
{
    if s.len() > 0 {
        lemma_stable_sort_sorted(s.drop_last());
        lemma_insert_sorted_sorted(stable_sort(s.drop_last()), s.last());
    }
}

/// The stable sort is a permutation: same segments, same multiplicity.
pub proof fn lemma_stable_sort_multiset(s: Seq<SegView>)
    ensures
        stable_sort(s).to_multiset() == s.to_multiset(),
    decreases s.len(),
{
    broadcast use vstd::seq_lib::group_to_multiset_ensures;

    if s.len() > 0 {
        let d = s.drop_last();
        let x = s.last();
        lemma_stable_sort_multiset(d);
        lemma_stable_sort_sorted(d);
        lemma_insert_point(stable_sort(d), x);
        let p = insert_point(stable_sort(d), x);
        lemma_insert_sorted_split(stable_sort(d), x, p);
        lemma_insert_sorted_multiset(stable_sort(d), x, p);
        assert(d.push(x) =~= s);
        assert(stable_sort(s).to_multiset() =~= s.to_multiset());
    }
}

/// The stable sort keeps discovery order among equal instants: at every
/// instant, the run of segments is exactly the input's run.
pub proof fn lemma_stable_sort_stable(s: Seq<SegView>, t: u64)
    ensures
        filter_at(stable_sort(s), t) == filter_at(s, t),
    decreases s.len(),
{
    let pred = |sv: SegView| sv.instant == t;
    if s.len() == 0 {
        reveal_with_fuel(Seq::<_>::filter, 2);
        assert(filter_at(stable_sort(s), t) =~= filter_at(s, t));
    } else {
        let d = s.drop_last();
        let x = s.last();
        lemma_stable_sort_stable(d, t);
        lemma_stable_sort_sorted(d);
        lemma_insert_sorted_stable(stable_sort(d), x, t);
        assert(d + seq![x] =~= s);
        Seq::filter_distributes_over_add(d, seq![x], pred);
        lemma_filter_single(x, pred);
        if x.instant == t {
            assert(filter_at(s, t) =~= filter_at(d, t).push(x));
        } else {
            assert(filter_at(s, t) =~= filter_at(d, t));
        }
    }
}

/// Sorts segments by instant, stably: the result is exactly the stable
/// sort of the input.
pub fn sort_segments(segs: &Vec<Segment>) -> (r: Vec<Segment>)
    ensures
        seg_views(r@) == stable_sort(seg_views(segs@)),
{
    let mut out: Vec<Segment> = Vec::new();
    proof {
        assert(seg_views(segs@.take(0)) =~= Seq::<SegView>::empty());
        assert(seg_views(out@) =~= stable_sort(seg_views(segs@.take(0))));
        lemma_stable_sort_sorted(seg_views(segs@.take(0)));
    }
    let mut i: usize = 0;
    while i < segs.len()
        invariant
            0 <= i <= segs@.len(),
            seg_views(out@) == stable_sort(seg_views(segs@.take(i as int))),
            sorted_by_instant(seg_views(out@)),
        decreases segs@.len() - i,
    {
        let x = segs[i].duplicate();
        let ghost xv = x@;
        let ghost pre = seg_views(out@);
        let mut p: usize = 0;
        while p < out.len() && out[p].instant <= x.instant
            invariant
                0 <= p <= out@.len(),
                forall|q: int| 0 <= q < p ==> seg_views(out@)[q].instant <= xv.instant,
                xv.instant == x.instant,
                seg_views(out@) == pre,
                sorted_by_instant(pre),
            decreases out@.len() - p,
        {
            p += 1;
        }
        proof {
            assert forall|q: int| p <= q < pre.len() implies pre[q].instant > xv.instant by {
                assert(pre[p as int].instant <= pre[q].instant);
            }
            lemma_insert_sorted_split(pre, xv, p as int);
            lemma_insert_sorted_sorted(pre, xv);
        }
        out.insert(p, x);
        proof {
            assert(seg_views(out@) =~= pre.take(p as int) + seq![xv] + pre.skip(p as int));
            let next = seg_views(segs@.take(i + 1int));
            assert(next.drop_last() =~= seg_views(segs@.take(i as int)));
            assert(next.last() == segs@[i as int]@);
            assert(stable_sort(next) == insert_sorted(
                stable_sort(seg_views(segs@.take(i as int))),
                segs@[i as int]@,
            ));
            assert(seg_views(out@) == stable_sort(next));
        }
        i += 1;
    }
    proof {
        assert(segs@.take(segs@.len() as int) =~= segs@);
    }
    out
}

/// Within any planned bucket the segments come out non-decreasing by
/// instant, as a permutation of what went in, and with discovery order
/// kept among equal instants: at every instant `t`, the run of segments
/// is exactly the input's run at `t`.
pub proof fn lemma_planned_order(s: Seq<SegView>, t: u64)
    ensures
        sorted_by_instant(stable_sort(s)),
        stable_sort(s).to_multiset() == s.to_multiset(),
        filter_at(stable_sort(s), t) == filter_at(s, t),
{
    lemma_stable_sort_sorted(s);
    lemma_stable_sort_multiset(s);
    lemma_stable_sort_stable(s, t);
}

/// What the shell saw at the output path: whether something is there,
/// whether it is a regular file, and its size in bytes.
#[derive(Debug, Clone, Copy, PartialEq, Eq, Structural)]
pub struct ArtifactStatus {
    pub exists: bool,
    pub is_regular: bool,
    pub size: u64,
}

/// An existing, non-empty regular file is the sole proof that a bucket
/// was already processed.
pub open spec fn artifact_valid(a: ArtifactStatus) -> bool {
    a.exists && a.is_regular && a.size > 0
}

pub fn artifact_is_valid(a: &ArtifactStatus) -> (b: bool)
    ensures
        b == artifact_valid(*a),
{
    a.exists && a.is_regular && a.size > 0
}

/// The planner's verdict on one bucket.
#[derive(Debug)]
pub enum BucketPlan {
    /// The bucket's date is today: it may still be recording.
    SkipToday,
    /// A valid output artifact already exists: nothing to do.
    SkipExisting,
    /// Merge these segments, in this order.
    Execute(Vec<Segment>),
}

/// The three possible verdicts, on the two facts that decide them.
#[derive(Debug, Clone, Copy, PartialEq, Eq, Structural)]
pub enum PlanKind {
    SkipToday,
    SkipExisting,
    Run,
}

/// The planner's decision rule: today's buckets are skipped first,
/// already-materialized buckets second, and only the rest run.
pub open spec fn plan_kind(date_is_today: bool, artifact_is_valid: bool) -> PlanKind {
    if date_is_today {
        PlanKind::SkipToday
    } else if artifact_is_valid {
        PlanKind::SkipExisting
    } else {
        PlanKind::Run
    }
}

/// A bucket dated today is never selected for execution, whatever its
/// segments hold and whatever state its output artifact is in.
pub proof fn lemma_today_never_runs(artifact_is_valid: bool)
    ensures
        plan_kind(true, artifact_is_valid) == PlanKind::SkipToday,
        plan_kind(true, artifact_is_valid) != PlanKind::Run,
{
}

/// Once a merge has produced a non-empty artifact, the next pass over
/// the same bucket skips it: re-running is a no-op and the artifact is
/// not touched again.
pub proof fn lemma_rerun_is_noop(a: ArtifactStatus, date_is_today: bool)
    requires
        artifact_valid(a),
        !date_is_today,
    ensures
        plan_kind(date_is_today, artifact_valid(a)) == PlanKind::SkipExisting,
        plan_kind(date_is_today, artifact_valid(a)) != PlanKind::Run,
{
}

/// The date a bucket key falls on: its first eight digits.
pub open spec fn bucket_date(key: Seq<char>) -> Seq<char> {
    key.subrange(0, 8)
}

/// True exactly when the bucket's date is today's.
pub fn is_today(date_key: &str, today: &str) -> (b: bool)
    ensures
        b == (date_key@ == today@),
{
    let a = date_key.to_owned();
    let b = today.to_owned();
    a.eq(&b)
}

/// Decides one bucket.  The verdict follows [`plan_kind`] on the two
/// facts that matter, and an `Execute` verdict carries exactly the
/// stable sort of the bucket's segments.
pub fn plan_bucket(bucket: &Bucket, today: &str, artifact: &ArtifactStatus) -> (r: BucketPlan)
    requires
        bucket.key@.len() >= 8,
        is_digit_seq(bucket.key@),
    ensures
        (r is SkipToday) == (plan_kind(bucket_date(bucket.key@) == today@, artifact_valid(*artifact))
            == PlanKind::SkipToday),
        (r is SkipExisting) == (plan_kind(
            bucket_date(bucket.key@) == today@,
            artifact_valid(*artifact),
        ) == PlanKind::SkipExisting),
        r matches BucketPlan::Execute(v) ==> plan_kind(
            bucket_date(bucket.key@) == today@,
            artifact_valid(*artifact),
        ) == PlanKind::Run && seg_views(v@) == stable_sort(seg_views(bucket.segments@)),
        plan_kind(bucket_date(bucket.key@) == today@, artifact_valid(*artifact)) == PlanKind::Run
            ==> r is Execute,
{
    proof {
        lemma_digit_seq_ascii(bucket.key@);
        assert forall|i: int| 0 <= i < 8 implies is_digit(#[trigger] bucket_date(bucket.key@)[i]) by {
            assert(bucket_date(bucket.key@)[i] == bucket.key@[i]);
        }
    }
    let date = bucket.key.as_str().substring_ascii(0, 8);
    if is_today(date, today) {
        BucketPlan::SkipToday
    } else if artifact_is_valid(artifact) {
        BucketPlan::SkipExisting
    } else {
        BucketPlan::Execute(sort_segments(&bucket.segments))
    }
}

} // verus!
