//! Segment discovery: the directory-tree model, the segment file-name
//! pattern, and timestamp reconstruction.
//!
//! The unverified shell reads the real file system into an [`FsEntry`]
//! tree (following no symbolic links) and hands it to [`scan_tree`],
//! which finds every segment and reconstructs its instant from the
//! enclosing bucket directory's name and the minute and second encoded
//! in the file name.

use vstd::prelude::*;

use crate::time::{
    char_digit, civil_fields_valid, encode_instant, is_bucket_dir_name, is_bucket_key, is_digit,
    key_day, key_hour,
    key_month, key_year, lemma_key_val_fields, lemma_num_val2, lemma_num_val_bound,
    lemma_num_val_prefix_le, num_val, parse_bucket_key, pow10, valid_civil,
};

verus! {

/// Why a scan failed.
///
/// `BucketFormat`: the hour context in force for a matching file was
/// not exactly ten digits.  `Timestamp`: the calendar fields did not
/// form a valid civil time (say month 13, or minute 73).
#[derive(Debug, Clone, Copy, PartialEq, Eq, Structural)]
pub enum ScanError {
    BucketFormat,
    Timestamp,
}

/// One discovered segment: its file path, the ten-digit hour key of the
/// bucket it belongs to, and its reconstructed instant.
#[derive(Debug)]
pub struct Segment {
    pub path: String,
    pub bucket_hour: String,
    pub instant: u64,
}

/// The mathematical image of a [`Segment`].
pub ghost struct SegView {
    pub path: Seq<char>,
    pub bucket_hour: Seq<char>,
    pub instant: u64,
}

impl View for Segment {
    type V = SegView;

    open spec fn view(&self) -> SegView {
        SegView { path: self.path@, bucket_hour: self.bucket_hour@, instant: self.instant }
    }
}

impl Segment {
    /// A copy whose view is the same.
    pub fn duplicate(&self) -> (r: Segment)
        ensures
            r@ == self@,
    {
        Segment {
            path: self.path.clone(),
            bucket_hour: self.bucket_hour.clone(),
            instant: self.instant,
        }
    }
}

/// The views of a sequence of segments.
pub open spec fn seg_views(s: Seq<Segment>) -> Seq<SegView> {
    s.map_values(|x: Segment| x@)
}

/// A segment whose bucket key is well formed, as every segment a scan
/// produces is.
pub open spec fn segment_keyed(s: SegView) -> bool {
    is_bucket_key(s.bucket_hour)
}

/// The file-name suffix every segment carries.
pub open spec fn mp4_ext() -> Seq<char> {
    seq!['.', 'm', 'p', '4']
}

/// Start of the maximal all-digit run that ends the sequence.
pub open spec fn suffix_start(s: Seq<char>) -> int
    decreases s.len(),
{
    if s.len() == 0 || !is_digit(s.last()) {
        s.len() as int
    } else {
        suffix_start(s.drop_last())
    }
}

/// The maximal trailing digit run is pinned by its two boundary facts.
pub proof fn lemma_suffix_start_unique(s: Seq<char>, j: int)
    requires
        0 <= j <= s.len(),
        forall|k: int| j <= k < s.len() ==> is_digit(#[trigger] s[k]),
        j > 0 ==> !is_digit(s[j - 1]),
    ensures
        suffix_start(s) == j,
    decreases s.len(),
{
    if s.len() == 0 {
    } else if !is_digit(s.last()) {
        assert(j == s.len());
    } else {
        assert(j < s.len());
        lemma_suffix_start_unique(s.drop_last(), j);
    }
}

/// What a segment file name means: the minute and second fields, if the
/// name matches `<anything>MMMSSS_<digits>.mp4` — two minute digits, a
/// literal `M`, two second digits, a literal `S`, an underscore, then a
/// collision-avoidance number small enough for a 64-bit signed parse.
pub open spec fn segment_file_info(name: Seq<char>) -> Option<(nat, nat)> {
    let n = name.len() as int;
    if n < 12 {
        None
    } else if name.subrange(n - 4, n) != mp4_ext() {
        None
    } else {
        let body = name.subrange(0, n - 4);
        let m = body.len() as int;
        let j = suffix_start(body);
        if j < m && j >= 7 && body[j - 1] == '_' && body[j - 2] == 'S' && is_digit(body[j - 3])
            && is_digit(body[j - 4]) && body[j - 5] == 'M' && is_digit(body[j - 6]) && is_digit(
            body[j - 7],
        ) && num_val(body.subrange(j, m)) <= 0x7fff_ffff_ffff_ffff {
            Some((num_val(body.subrange(j - 7, j - 5)), num_val(body.subrange(j - 4, j - 2))))
        } else {
            None
        }
    }
}

/// Minute and second fields of a segment file name, or `None` where the
/// name does not match the segment pattern.
pub fn match_segment_name(name: &str) -> (r: Option<(u8, u8)>)
    ensures
        match r {
            Some(p) => segment_file_info(name@) == Some((p.0 as nat, p.1 as nat)) && p.0 <= 99
                && p.1 <= 99,
            None => segment_file_info(name@) is None,
        },
{
    let n = name.unicode_len();
    if n < 12 {
        return None;
    }
    let c0 = name.get_char(n - 4);
    let c1 = name.get_char(n - 3);
    let c2 = name.get_char(n - 2);
    let c3 = name.get_char(n - 1);
    proof {
        let tail = name@.subrange(n - 4, n as int);
        assert(tail[0] == name@[n - 4] && tail[1] == name@[n - 3] && tail[2] == name@[n - 2]
            && tail[3] == name@[n - 1]);
    }
    if !(c0 == '.' && c1 == 'm' && c2 == 'p' && c3 == '4') {
        return None;
    }
    proof {
        assert(name@.subrange(n - 4, n as int) =~= mp4_ext());
    }
    let m = n - 4;
    let ghost body = name@.subrange(0, m as int);
    let mut j: usize = m;
    loop
        invariant
            0 <= j <= m == n - 4,
            n == name@.len(),
            n >= 12,
            forall|k: int| j <= k < m ==> is_digit(#[trigger] name@[k]),
        ensures
            0 <= j <= m,
            forall|k: int| j <= k < m ==> is_digit(#[trigger] name@[k]),
            j == 0 || !is_digit(name@[j - 1]),
        decreases j,
    {
        if j == 0 {
            break;
        }
        let c = name.get_char(j - 1);
        if char_digit(c).is_none() {
            break;
        }
        j -= 1;
    }
    proof {
        assert forall|k: int| j <= k < body.len() implies is_digit(#[trigger] body[k]) by {
            assert(body[k] == name@[k]);
        }
        if j > 0 {
            assert(body[j - 1] == name@[j - 1]);
        }
        lemma_suffix_start_unique(body, j as int);
    }
    if j == m || j < 7 {
        return None;
    }
    proof {
        assert(body[j - 1] == name@[j - 1]);
        assert(body[j - 2] == name@[j - 2]);
        assert(body[j - 3] == name@[j - 3]);
        assert(body[j - 4] == name@[j - 4]);
        assert(body[j - 5] == name@[j - 5]);
        assert(body[j - 6] == name@[j - 6]);
        assert(body[j - 7] == name@[j - 7]);
    }
    if name.get_char(j - 1) != '_' || name.get_char(j - 2) != 'S' {
        return None;
    }
    let s10 = match char_digit(name.get_char(j - 4)) {
        Some(d) => d,
        None => {
            return None;
        },
    };
    let s1 = match char_digit(name.get_char(j - 3)) {
        Some(d) => d,
        None => {
            return None;
        },
    };
    if name.get_char(j - 5) != 'M' {
        return None;
    }
    let m10 = match char_digit(name.get_char(j - 7)) {
        Some(d) => d,
        None => {
            return None;
        },
    };
    let m1 = match char_digit(name.get_char(j - 6)) {
        Some(d) => d,
        None => {
            return None;
        },
    };
    // The collision-avoidance number must fit a 64-bit signed parse.
    let ghost suffix = body.subrange(j as int, m as int);
    let bound: u64 = 0x7fff_ffff_ffff_ffff;
    let mut acc: u64 = 0;
    let mut k: usize = j;
    while k < m
        invariant
            j <= k <= m == n - 4,
            n == name@.len(),
            n >= 12,
            j >= 7,
            body =~= name@.subrange(0, m as int),
            suffix =~= body.subrange(j as int, m as int),
            name@.subrange(n - 4, n as int) =~= mp4_ext(),
            suffix_start(body) == j as int,
            forall|q: int| j <= q < m ==> is_digit(#[trigger] name@[q]),
            bound == 0x7fff_ffff_ffff_ffff,
            acc == num_val(name@.subrange(j as int, k as int)),
            acc <= bound,
        decreases m - k,
    {
        let ghost pre = name@.subrange(j as int, k as int);
        let c = name.get_char(k);
        let d = match char_digit(c) {
            Some(d) => d,
            None => {
                return None;  // unreachable: the run is all digits
            },
        };
        proof {
            let post = name@.subrange(j as int, k + 1int);
            assert(post.drop_last() =~= pre);
            assert(post.last() == name@[k as int]);
        }
        if acc > bound / 10 || (acc == bound / 10 && d > 7) {
            proof {
                assert(num_val(name@.subrange(j as int, k + 1int)) > bound);
                lemma_num_val_prefix_le(suffix, k + 1 - j);
                assert(suffix.subrange(0, k + 1 - j) =~= name@.subrange(j as int, k + 1int));
                assert(num_val(suffix) > bound);
            }
            return None;
        }
        acc = acc * 10 + (d as u64);
        k += 1;
    }
    proof {
        assert(suffix =~= name@.subrange(j as int, m as int));
        assert(num_val(suffix) == acc);
    }
    let mi = m10 * 10 + m1;
    let se = s10 * 10 + s1;
    proof {
        lemma_num_val2(body.subrange(j - 7, j - 5));
        lemma_num_val2(body.subrange(j - 4, j - 2));
        assert(body.subrange(j - 7, j - 5)[0] == name@[j - 7]);
        assert(body.subrange(j - 7, j - 5)[1] == name@[j - 6]);
        assert(body.subrange(j - 4, j - 2)[0] == name@[j - 4]);
        assert(body.subrange(j - 4, j - 2)[1] == name@[j - 3]);
    }
    Some((mi, se))
}

/// The instant a segment in bucket `key` at `mi` minutes and `se`
/// seconds stands for, or the error the reconstruction fails with.
pub open spec fn key_instant(key: Seq<char>, mi: nat, se: nat) -> Result<u64, ScanError> {
    if !is_bucket_key(key) {
        Err(ScanError::BucketFormat)
    } else if !valid_civil(key_year(key), key_month(key), key_day(key), key_hour(key), mi, se) {
        Err(ScanError::Timestamp)
    } else {
        Ok(encode_instant(key, mi, se) as u64)
    }
}

/// Reconstructs the instant of a segment from its hour context and the
/// minute and second taken from its file name.
pub fn build_instant(key: &str, mi: u8, se: u8) -> (r: Result<u64, ScanError>)
    ensures
        r == key_instant(key@, mi as nat, se as nat),
{
    match parse_bucket_key(key) {
        None => Err(ScanError::BucketFormat),
        Some((y, mo, d, h)) => {
            proof {
                lemma_num_val_bound(key@.subrange(0, 4));
                lemma_num_val_bound(key@.subrange(4, 6));
                lemma_num_val_bound(key@.subrange(6, 8));
                lemma_num_val_bound(key@.subrange(8, 10));
                assert(pow10(4) == 10000 && pow10(2) == 100) by {
                    reveal_with_fuel(pow10, 5);
                }
                assert forall|j: int| 0 <= j < 4 implies is_digit(
                    #[trigger] key@.subrange(0, 4)[j],
                ) by {
                    assert(key@.subrange(0, 4)[j] == key@[j]);
                }
                assert forall|j: int| 0 <= j < 2 implies is_digit(
                    #[trigger] key@.subrange(4, 6)[j],
                ) by {
                    assert(key@.subrange(4, 6)[j] == key@[j + 4]);
                }
                assert forall|j: int| 0 <= j < 2 implies is_digit(
                    #[trigger] key@.subrange(6, 8)[j],
                ) by {
                    assert(key@.subrange(6, 8)[j] == key@[j + 6]);
                }
                assert forall|j: int| 0 <= j < 2 implies is_digit(
                    #[trigger] key@.subrange(8, 10)[j],
                ) by {
                    assert(key@.subrange(8, 10)[j] == key@[j + 8]);
                }
            }
            if !civil_fields_valid(y, mo, d, h, mi as u32, se as u32) {
                Err(ScanError::Timestamp)
            } else {
                proof {
                    lemma_key_val_fields(key@);
                }
                let ts: u64 = ((((y as u64) * 100 + (mo as u64)) * 100 + (d as u64)) * 100 + (
                h as u64)) * 10000 + (mi as u64) * 100 + (se as u64);
                Ok(ts)
            }
        },
    }
}

/// A directory tree as the shell hands it over: real files and real
/// directories only, symbolic links never followed.
pub enum FsEntry {
    File { name: String, path: String },
    Dir { name: String, entries: Vec<FsEntry> },
}

/// Segments found under one entry, scanned with hour context `ctx`:
/// a matching file becomes one segment stamped from `ctx` and its own
/// minute and second; a ten-digit directory is entered with its name as
/// the new context; any other directory is left alone.
pub open spec fn scan_entry_spec(e: FsEntry, ctx: Seq<char>) -> Result<Seq<SegView>, ScanError>
    decreases e,
{
    match e {
        FsEntry::File { name, path } => match segment_file_info(name@) {
            Some(ms) => match key_instant(ctx, ms.0, ms.1) {
                Ok(ts) => Ok(seq![SegView { path: path@, bucket_hour: ctx, instant: ts }]),
                Err(err) => Err(err),
            },
            None => Ok(Seq::empty()),
        },
        FsEntry::Dir { name, entries } => if is_bucket_key(name@) {
            scan_entries_spec(entries@, name@)
        } else {
            Ok(Seq::empty())
        },
    }
}

/// Segments found under a run of sibling entries, in order; the first
/// failure wins.
pub open spec fn scan_entries_spec(es: Seq<FsEntry>, ctx: Seq<char>) -> Result<
    Seq<SegView>,
    ScanError,
>
    decreases es,
{
    if es.len() == 0 {
        Ok(Seq::empty())
    } else {
        match scan_entries_spec(es.drop_last(), ctx) {
            Ok(pre) => match scan_entry_spec(es.last(), ctx) {
                Ok(cur) => Ok(pre + cur),
                Err(err) => Err(err),
            },
            Err(err) => Err(err),
        }
    }
}

/// Every segment a successful scan yields carries a well-formed
/// ten-digit bucket key.
pub proof fn lemma_scan_entry_keyed(e: FsEntry, ctx: Seq<char>)
    ensures
        scan_entry_spec(e, ctx) matches Ok(found) ==> forall|i: int|
            0 <= i < found.len() ==> segment_keyed(#[trigger] found[i]),
    decreases e,
{
    match e {
        FsEntry::File { .. } => {
        },
        FsEntry::Dir { name, entries } => {
            if is_bucket_key(name@) {
                lemma_scan_entries_keyed(entries@, name@);
            }
        },
    }
}

/// As [`lemma_scan_entry_keyed`], over a run of sibling entries.
pub proof fn lemma_scan_entries_keyed(es: Seq<FsEntry>, ctx: Seq<char>)
    ensures
        scan_entries_spec(es, ctx) matches Ok(found) ==> forall|i: int|
            0 <= i < found.len() ==> segment_keyed(#[trigger] found[i]),
    decreases es,
{
    if es.len() > 0 {
        lemma_scan_entries_keyed(es.drop_last(), ctx);
        lemma_scan_entry_keyed(es.last(), ctx);
    }
}

/// A failure among the first `k` entries decides the whole run.
pub proof fn lemma_scan_err_extends(es: Seq<FsEntry>, ctx: Seq<char>, k: int)
    requires
        0 <= k <= es.len(),
        scan_entries_spec(es.take(k), ctx) is Err,
    ensures
        scan_entries_spec(es, ctx) == scan_entries_spec(es.take(k), ctx),
    decreases es.len() - k,
{
    if k == es.len() {
        assert(es.take(k) =~= es);
    } else {
        assert(es.drop_last().take(k) =~= es.take(k));
        lemma_scan_err_extends(es.drop_last(), ctx, k);
        assert(es.take(es.len() as int) =~= es);
    }
}

fn scan_entry(e: &FsEntry, ctx: &str, out: &mut Vec<Segment>) -> (r: Result<(), ScanError>)
    ensures
        match r {
            Ok(_) => scan_entry_spec(*e, ctx@) matches Ok(found) && seg_views(final(out)@)
                == seg_views(old(out)@) + found,
            Err(err) => scan_entry_spec(*e, ctx@) == Err::<Seq<SegView>, ScanError>(err),
        },
    decreases *e,
{
    match e {
        FsEntry::File { name, path } => {
            match match_segment_name(name.as_str()) {
                Some((mi, se)) => match build_instant(ctx, mi, se) {
                    Ok(ts) => {
                        let seg = Segment {
                            path: path.clone(),
                            bucket_hour: ctx.to_owned(),
                            instant: ts,
                        };
                        let ghost sv = seg@;
                        out.push(seg);
                        proof {
                            assert(seg_views(out@) =~= seg_views(old(out)@) + seq![sv]);
                        }
                        Ok(())
                    },
                    Err(err) => Err(err),
                },
                None => {
                    proof {
                        assert(seg_views(out@) =~= seg_views(out@) + Seq::<SegView>::empty());
                    }
                    Ok(())
                },
            }
        },
        FsEntry::Dir { name, entries } => {
            if is_bucket_dir_name(name.as_str()) {
                scan_entries(entries, name.as_str(), out)
            } else {
                proof {
                    assert(seg_views(out@) =~= seg_views(out@) + Seq::<SegView>::empty());
                }
                Ok(())
            }
        },
    }
}

fn scan_entries(es: &Vec<FsEntry>, ctx: &str, out: &mut Vec<Segment>) -> (r: Result<
    (),
    ScanError,
>)
    ensures
        match r {
            Ok(_) => scan_entries_spec(es@, ctx@) matches Ok(found) && seg_views(final(out)@)
                == seg_views(old(out)@) + found,
            Err(err) => scan_entries_spec(es@, ctx@) == Err::<Seq<SegView>, ScanError>(err),
        },
    decreases es@,
{
    let ghost init = out@;
    let mut i: usize = 0;
    while i < es.len()
        invariant
            0 <= i <= es@.len(),
            scan_entries_spec(es@.take(i as int), ctx@) matches Ok(found) && seg_views(out@)
                == seg_views(init) + found,
        decreases es@.len() - i,
    {
        match scan_entry(&es[i], ctx, out) {
            Ok(_) => {
                proof {
                    let prefix = es@.take(i as int);
                    let next = es@.take(i + 1int);
                    assert(next.drop_last() =~= prefix);
                    assert(next.last() == es@[i as int]);
                    let found_pre = scan_entries_spec(prefix, ctx@)->Ok_0;
                    let found_cur = scan_entry_spec(es@[i as int], ctx@)->Ok_0;
                    assert(seg_views(out@) == seg_views(init) + (found_pre + found_cur));
                }
            },
            Err(err) => {
                proof {
                    let next = es@.take(i + 1int);
                    assert(next.drop_last() =~= es@.take(i as int));
                    assert(next.last() == es@[i as int]);
                    assert(scan_entries_spec(next, ctx@) == Err::<Seq<SegView>, ScanError>(err));
                    lemma_scan_err_extends(es@, ctx@, i + 1);
                }
                return Err(err);
            },
        }
        i += 1;
    }
    proof {
        assert(es@.take(es@.len() as int) =~= es@);
    }
    Ok(())
}

/// Segments found under the whole input tree.  The hour context for
/// files lying directly in the root is the root directory's own name if
/// that is a bucket name, and otherwise `fallback_hour`, the current
/// UTC hour as the shell formatted it.
pub open spec fn scan_tree_spec(
    root_name: Seq<char>,
    es: Seq<FsEntry>,
    fallback_hour: Seq<char>,
) -> Result<Seq<SegView>, ScanError> {
    scan_entries_spec(
        es,
        if is_bucket_key(root_name) {
            root_name
        } else {
            fallback_hour
        },
    )
}

/// Scans the input tree and returns every segment in discovery order.
pub fn scan_tree(root_name: &str, entries: &Vec<FsEntry>, fallback_hour: &str) -> (r: Result<
    Vec<Segment>,
    ScanError,
>)
    ensures
        match r {
            Ok(v) => scan_tree_spec(root_name@, entries@, fallback_hour@) == Ok::<
                Seq<SegView>,
                ScanError,
            >(seg_views(v@)),
            Err(err) => scan_tree_spec(root_name@, entries@, fallback_hour@) == Err::<
                Seq<SegView>,
                ScanError,
            >(err),
        },
{
    let mut out: Vec<Segment> = Vec::new();
    let res = if is_bucket_dir_name(root_name) {
        scan_entries(entries, root_name, &mut out)
    } else {
        scan_entries(entries, fallback_hour, &mut out)
    };
    proof {
        assert(seg_views(Seq::<Segment>::empty()) =~= Seq::<SegView>::empty());
    }
    match res {
        Ok(_) => Ok(out),
        Err(err) => Err(err),
    }
}

} // verus!
