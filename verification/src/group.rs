//! Grouping discovered segments into hour or day buckets.
//!
//! Grouping is a pure partition: every segment lands in exactly one
//! bucket, keyed by its full ten-digit hour key or by that key's first
//! eight digits, and a bucket holds its segments in discovery order.

use vstd::prelude::*;

use crate::scan::{
    lemma_scan_entries_keyed, scan_tree, scan_tree_spec, seg_views, segment_keyed, FsEntry,
    ScanError, SegView, Segment,
};
use crate::time::{is_bucket_key, is_date_key, is_digit, lemma_digit_seq_ascii};

verus! {

/// The requested granularity: one output per hour or one per day.
#[derive(Debug, Clone, Copy, PartialEq, Eq, Structural)]
pub enum MergeLevel {
    Hour,
    Day,
}

impl MergeLevel {
    /// The level's name as the command line spells it.
    pub fn name(&self) -> (r: &'static str)
        ensures
            *self is Hour ==> r@ == "hour"@,
            *self is Day ==> r@ == "day"@,
    {
        match self {
            MergeLevel::Hour => "hour",
            MergeLevel::Day => "day",
        }
    }
}

/// The grouping key a segment falls under: its hour key, or that key's
/// date prefix.
pub open spec fn seg_key(s: SegView, level: MergeLevel) -> Seq<char> {
    match level {
        MergeLevel::Hour => s.bucket_hour,
        MergeLevel::Day => s.bucket_hour.subrange(0, 8),
    }
}

/// A grouping key is the bucket key or the date key of a well-keyed
/// segment, depending on the level.
pub open spec fn key_wf(key: Seq<char>, level: MergeLevel) -> bool {
    match level {
        MergeLevel::Hour => is_bucket_key(key),
        MergeLevel::Day => is_date_key(key),
    }
}

pub proof fn lemma_seg_key_wf(s: SegView, level: MergeLevel)
    requires
        segment_keyed(s),
    ensures
        key_wf(seg_key(s, level), level),
{
    if level is Day {
        let k = s.bucket_hour.subrange(0, 8);
        assert forall|i: int| 0 <= i < 8 implies is_digit(#[trigger] k[i]) by {
            assert(k[i] == s.bucket_hour[i]);
        }
    }
}

/// One bucket: its key and its segments, in discovery order.
#[derive(Debug)]
pub struct Bucket {
    pub key: String,
    pub segments: Vec<Segment>,
}

/// The grouping key of a segment, as a fresh string.
pub fn key_of_segment(s: &Segment, level: MergeLevel) -> (r: String)
    requires
        segment_keyed(s@),
    ensures
        r@ == seg_key(s@, level),
{
    match level {
        MergeLevel::Hour => s.bucket_hour.clone(),
        MergeLevel::Day => {
            proof {
                lemma_digit_seq_ascii(s.bucket_hour@);
            }
            s.bucket_hour.as_str().substring_ascii(0, 8).to_owned()
        },
    }
}

/// String equality, by contents.
fn string_eq(a: &String, b: &String) -> (r: bool)
    ensures
        r == (a@ == b@),
{
    a.eq(b)
}

proof fn lemma_filter_singleton(x: SegView, pred: spec_fn(SegView) -> bool)
    ensures
        pred(x) ==> seq![x].filter(pred) == seq![x],
        !pred(x) ==> seq![x].filter(pred) == Seq::<SegView>::empty(),
{
    reveal_with_fuel(Seq::<_>::filter, 3);
    assert(seq![x].drop_last() =~= Seq::<SegView>::empty());
    assert(seq![x].last() == x);
    assert(Seq::<SegView>::empty().filter(pred) =~= Seq::<SegView>::empty());
    if pred(x) {
        assert(seq![x].filter(pred) =~= seq![x]);
    } else {
        assert(seq![x].filter(pred) =~= Seq::<SegView>::empty());
    }
}

proof fn lemma_filter_none(s: Seq<SegView>, pred: spec_fn(SegView) -> bool)
    requires
        forall|i: int| 0 <= i < s.len() ==> !pred(#[trigger] s[i]),
    ensures
        s.filter(pred) == Seq::<SegView>::empty(),
    decreases s.len(),
{
    reveal_with_fuel(Seq::<_>::filter, 2);
    if s.len() > 0 {
        lemma_filter_none(s.drop_last(), pred);
        assert(s.filter(pred) =~= Seq::<SegView>::empty());
    } else {
        assert(s.filter(pred) =~= Seq::<SegView>::empty());
    }
}

/// Some key in `keys` reads `k`.
pub open spec fn key_among(keys: Seq<String>, k: Seq<char>) -> bool {
    exists|j: int| 0 <= j < keys.len() && #[trigger] keys[j]@ == k
}

/// Some segment's grouping key is `k`.
pub open spec fn key_of_some_segment(
    segs: Seq<Segment>,
    level: MergeLevel,
    k: Seq<char>,
) -> bool {
    exists|i: int| 0 <= i < segs.len() && seg_key(#[trigger] segs[i]@, level) == k
}

/// Some bucket in `r` carries the key `k`.
pub open spec fn bucket_with_key(r: Seq<Bucket>, k: Seq<char>) -> bool {
    exists|j: int| 0 <= j < r.len() && #[trigger] r[j].key@ == k
}

/// The distinct grouping keys of `segs`, each at its first occurrence.
fn distinct_keys(segs: &Vec<Segment>, level: MergeLevel) -> (keys: Vec<String>)
    requires
        forall|i: int| 0 <= i < segs@.len() ==> segment_keyed(#[trigger] segs@[i]@),
    ensures
        forall|a: int, b: int| 0 <= a < b < keys@.len() ==> keys@[a]@ != keys@[b]@,
        forall|i: int|
            0 <= i < segs@.len() ==> key_among(keys@, seg_key(#[trigger] segs@[i]@, level)),
        forall|j: int|
            0 <= j < keys@.len() ==> key_of_some_segment(segs@, level, #[trigger] keys@[j]@),
        forall|j: int| 0 <= j < keys@.len() ==> key_wf(#[trigger] keys@[j]@, level),
{
    let mut keys: Vec<String> = Vec::new();
    let mut i: usize = 0;
    while i < segs.len()
        invariant
            0 <= i <= segs@.len(),
            forall|p: int| 0 <= p < segs@.len() ==> segment_keyed(#[trigger] segs@[p]@),
            forall|a: int, b: int| 0 <= a < b < keys@.len() ==> keys@[a]@ != keys@[b]@,
            forall|p: int|
                0 <= p < i ==> key_among(keys@, seg_key(#[trigger] segs@[p]@, level)),
            forall|j: int|
                0 <= j < keys@.len() ==> key_of_some_segment(segs@, level, #[trigger] keys@[j]@),
            forall|j: int| 0 <= j < keys@.len() ==> key_wf(#[trigger] keys@[j]@, level),
        decreases segs@.len() - i,
    {
        let k = key_of_segment(&segs[i], level);
        let mut found = false;
        let mut j: usize = 0;
        while j < keys.len()
            invariant
                0 <= j <= keys@.len(),
                k@ == seg_key(segs@[i as int]@, level),
                i < segs@.len(),
                found <==> exists|q: int| 0 <= q < j && #[trigger] keys@[q]@ == k@,
            decreases keys@.len() - j,
        {
            if string_eq(&keys[j], &k) {
                found = true;
            }
            j += 1;
        }
        let ghost old_keys = keys@;
        if !found {
            proof {
                lemma_seg_key_wf(segs@[i as int]@, level);
            }
            keys.push(k);
            proof {
                let last = old_keys.len() as int;
                assert(keys@[last]@ == seg_key(segs@[i as int]@, level));
                assert forall|a: int, b: int| 0 <= a < b < keys@.len() implies keys@[a]@
                    != keys@[b]@ by {
                    if b == last {
                        assert(keys@[a] == old_keys[a]);
                        assert(old_keys[a]@ != k@);
                    } else {
                        assert(keys@[a] == old_keys[a] && keys@[b] == old_keys[b]);
                    }
                }
                assert forall|p: int| 0 <= p < i + 1 implies key_among(
                    keys@,
                    seg_key(#[trigger] segs@[p]@, level),
                ) by {
                    if p == i {
                        assert(keys@[last]@ == seg_key(segs@[p]@, level));
                    } else {
                        let q = choose|q: int|
                            0 <= q < old_keys.len() && #[trigger] old_keys[q]@ == seg_key(
                                segs@[p]@,
                                level,
                            );
                        assert(keys@[q]@ == seg_key(segs@[p]@, level));
                    }
                }
                assert forall|q: int| 0 <= q < keys@.len() implies key_of_some_segment(
                    segs@,
                    level,
                    #[trigger] keys@[q]@,
                ) by {
                    if q == last {
                        assert(seg_key(segs@[i as int]@, level) == keys@[q]@);
                    } else {
                        assert(keys@[q] == old_keys[q]);
                    }
                }
                assert forall|q: int| 0 <= q < keys@.len() implies key_wf(
                    #[trigger] keys@[q]@,
                    level,
                ) by {
                    if q != last {
                        assert(keys@[q] == old_keys[q]);
                    }
                }
            }
        } else {
            proof {
                let q = choose|q: int| 0 <= q < keys@.len() && #[trigger] keys@[q]@ == k@;
                assert(keys@[q]@ == seg_key(segs@[i as int]@, level));
                assert(key_among(keys@, seg_key(segs@[i as int]@, level)));
            }
        }
        i += 1;
    }
    keys
}

/// The segments of `segs` whose grouping key is `key`, in order.
fn matching_segments(segs: &Vec<Segment>, key: &String, level: MergeLevel) -> (r: Vec<Segment>)
    requires
        forall|i: int| 0 <= i < segs@.len() ==> segment_keyed(#[trigger] segs@[i]@),
    ensures
        seg_views(r@) == seg_views(segs@).filter(|sv: SegView| seg_key(sv, level) == key@),
{
    let ghost pred = |sv: SegView| seg_key(sv, level) == key@;
    let mut r: Vec<Segment> = Vec::new();
    proof {
        assert(seg_views(r@) =~= Seq::<SegView>::empty());
        assert(seg_views(segs@.take(0)) =~= Seq::<SegView>::empty());
        lemma_filter_none(seg_views(segs@.take(0)), pred);
    }
    let mut i: usize = 0;
    while i < segs.len()
        invariant
            0 <= i <= segs@.len(),
            forall|p: int| 0 <= p < segs@.len() ==> segment_keyed(#[trigger] segs@[p]@),
            pred == (|sv: SegView| seg_key(sv, level) == key@),
            seg_views(r@) == seg_views(segs@.take(i as int)).filter(pred),
        decreases segs@.len() - i,
    {
        let k = key_of_segment(&segs[i], level);
        let ghost sv = segs@[i as int]@;
        let ghost pre = seg_views(segs@.take(i as int));
        proof {
            assert(seg_views(segs@.take(i + 1int)) =~= pre + seq![sv]);
            Seq::filter_distributes_over_add(pre, seq![sv], pred);
            lemma_filter_singleton(sv, pred);
        }
        if string_eq(&k, key) {
            r.push(segs[i].duplicate());
            proof {
                assert(seg_views(r@) =~= seg_views(segs@.take(i + 1int)).filter(pred));
            }
        } else {
            proof {
                assert(seg_views(r@) =~= seg_views(segs@.take(i + 1int)).filter(pred));
            }
        }
        i += 1;
    }
    proof {
        assert(segs@.take(segs@.len() as int) =~= segs@);
    }
    r
}

/// Partitions the segments into buckets by their grouping key.  Keys
/// are pairwise distinct, every segment's key is represented, every
/// bucket holds exactly the segments with its key, in discovery order,
/// and no bucket is empty.
pub fn group_segments(segs: &Vec<Segment>, level: MergeLevel) -> (r: Vec<Bucket>)
    requires
        forall|i: int| 0 <= i < segs@.len() ==> segment_keyed(#[trigger] segs@[i]@),
    ensures
        forall|a: int, b: int| 0 <= a < b < r@.len() ==> r@[a].key@ != r@[b].key@,
        forall|j: int|
            0 <= j < r@.len() ==> seg_views(#[trigger] r@[j].segments@) == seg_views(
                segs@,
            ).filter(|sv: SegView| seg_key(sv, level) == r@[j].key@),
        forall|i: int|
            0 <= i < segs@.len() ==> bucket_with_key(r@, seg_key(#[trigger] segs@[i]@, level)),
        forall|j: int| 0 <= j < r@.len() ==> key_wf(#[trigger] r@[j].key@, level),
        forall|j: int| 0 <= j < r@.len() ==> #[trigger] r@[j].segments@.len() > 0,
{
    let keys = distinct_keys(segs, level);
    let mut r: Vec<Bucket> = Vec::new();
    let mut j: usize = 0;
    while j < keys.len()
        invariant
            0 <= j <= keys@.len(),
            forall|p: int| 0 <= p < segs@.len() ==> segment_keyed(#[trigger] segs@[p]@),
            forall|q: int|
                0 <= q < keys@.len() ==> key_of_some_segment(segs@, level, #[trigger] keys@[q]@),
            forall|q: int| 0 <= q < keys@.len() ==> key_wf(#[trigger] keys@[q]@, level),
            r@.len() == j,
            forall|q: int| 0 <= q < j ==> #[trigger] r@[q].key@ == keys@[q]@,
            forall|q: int|
                0 <= q < j ==> seg_views(#[trigger] r@[q].segments@) == seg_views(segs@).filter(
                    |sv: SegView| seg_key(sv, level) == r@[q].key@,
                ),
            forall|q: int| 0 <= q < j ==> #[trigger] r@[q].segments@.len() > 0,
        decreases keys@.len() - j,
    {
        let segments = matching_segments(segs, &keys[j], level);
        proof {
            let pred = |sv: SegView| seg_key(sv, level) == keys@[j as int]@;
            let p = choose|p: int|
                0 <= p < segs@.len() && seg_key(#[trigger] segs@[p]@, level) == keys@[j as int]@;
            assert(seg_views(segs@)[p] == segs@[p]@);
            assert(pred(seg_views(segs@)[p]));
            assert(seg_views(segs@).filter(pred).contains(seg_views(segs@)[p])) by {
                Seq::lemma_filter_contains(seg_views(segs@), pred, p);
            }
            assert(seg_views(segments@).len() > 0);
            assert(segments@.len() == seg_views(segments@).len());
        }
        let key = keys[j].clone();
        r.push(Bucket { key, segments });
        j += 1;
    }
    proof {
        assert forall|i: int| 0 <= i < segs@.len() implies bucket_with_key(
            r@,
            seg_key(#[trigger] segs@[i]@, level),
        ) by {
            let q = choose|q: int|
                0 <= q < keys@.len() && #[trigger] keys@[q]@ == seg_key(segs@[i]@, level);
            assert(r@[q].key@ == seg_key(segs@[i]@, level));
        }
    }
    r
}

/// Scans the input tree and partitions what it finds into buckets: the
/// whole read-only half of one pass.  On success the buckets partition
/// exactly the scanned segments, as [`group_segments`] states; a scan
/// failure is returned as it is.
pub fn scan_into_buckets(
    root_name: &str,
    entries: &Vec<FsEntry>,
    fallback_hour: &str,
    level: MergeLevel,
) -> (r: Result<Vec<Bucket>, ScanError>)
    ensures
        match r {
            Ok(buckets) => scan_tree_spec(root_name@, entries@, fallback_hour@) matches Ok(found)
                && {
                &&& forall|a: int, b: int|
                    0 <= a < b < buckets@.len() ==> buckets@[a].key@ != buckets@[b].key@
                &&& forall|j: int|
                    0 <= j < buckets@.len() ==> seg_views(#[trigger] buckets@[j].segments@)
                        == found.filter(|sv: SegView| seg_key(sv, level) == buckets@[j].key@)
                &&& forall|i: int|
                    0 <= i < found.len() ==> bucket_with_key(
                        buckets@,
                        seg_key(#[trigger] found[i], level),
                    )
                &&& forall|j: int| 0 <= j < buckets@.len() ==> key_wf(#[trigger] buckets@[j].key@, level)
                &&& forall|j: int| 0 <= j < buckets@.len() ==> #[trigger] buckets@[j].segments@.len() > 0
            },
            Err(err) => scan_tree_spec(root_name@, entries@, fallback_hour@) == Err::<
                Seq<SegView>,
                ScanError,
            >(err),
        },
{
    let segs = match scan_tree(root_name, entries, fallback_hour) {
        Ok(segs) => segs,
        Err(err) => {
            return Err(err);
        },
    };
    let ghost found = seg_views(segs@);
    proof {
        let ctx = if is_bucket_key(root_name@) {
            root_name@
        } else {
            fallback_hour@
        };
        lemma_scan_entries_keyed(entries@, ctx);
        assert forall|i: int| 0 <= i < segs@.len() implies segment_keyed(#[trigger] segs@[i]@) by {
            assert(found[i] == segs@[i]@);
        }
    }
    let buckets = group_segments(&segs, level);
    proof {
        assert forall|i: int| 0 <= i < found.len() implies bucket_with_key(
            buckets@,
            seg_key(#[trigger] found[i], level),
        ) by {
            assert(found[i] == segs@[i]@);
        }
    }
    Ok(buckets)
}

} // verus!
