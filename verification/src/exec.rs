//! Merge execution, as a plan of plain steps.
//!
//! The library never touches the file system: it lays out the exact
//! steps one bucket's merge takes — ensure the output directory, then
//! either copy the single segment verbatim, or write an ordered
//! manifest, run the concatenation tool on it, and remove the manifest
//! again.  The removal step is part of the plan unconditionally, so the
//! manifest never outlives the merge, whether the tool succeeded or
//! not.  The unverified shell performs the steps in order.

use vstd::prelude::*;

use crate::scan::{mp4_ext, seg_views, SegView, Segment};
use crate::time::{is_digit, is_digit_seq, lemma_digit_seq_ascii};

verus! {

/// The directory and file an executed bucket writes to:
/// `<root>/<date>/<key>.mp4`.
pub open spec fn output_dir_spec(root: Seq<char>, key: Seq<char>) -> Seq<char> {
    root + seq!['/'] + key.subrange(0, 8)
}

pub open spec fn output_file_spec(root: Seq<char>, key: Seq<char>) -> Seq<char> {
    output_dir_spec(root, key) + seq!['/'] + key + mp4_ext()
}

/// The output directory and output file for a bucket key under `root`.
pub fn output_paths(root: &str, key: &str) -> (r: (String, String))
    requires
        key@.len() >= 8,
        is_digit_seq(key@),
    ensures
        r.0@ == output_dir_spec(root@, key@),
        r.1@ == output_file_spec(root@, key@),
{
    proof {
        lemma_digit_seq_ascii(key@);
        reveal_strlit("/");
        reveal_strlit(".mp4");
    }
    let date = key.substring_ascii(0, 8);
    let mut dir = root.to_owned();
    dir.append("/");
    dir.append(date);
    proof {
        assert(dir@ =~= output_dir_spec(root@, key@));
    }
    let mut file = dir.clone();
    file.append("/");
    file.append(key);
    file.append(".mp4");
    proof {
        assert(file@ =~= output_file_spec(root@, key@));
    }
    (dir, file)
}

/// The scratch manifest path beside an output file: the same name with
/// the media extension replaced by the list extension.
pub open spec fn manifest_path_spec(output: Seq<char>) -> Seq<char> {
    output.subrange(0, output.len() - 4) + txt_ext()
}

pub open spec fn txt_ext() -> Seq<char> {
    seq!['.', 't', 'x', 't']
}

/// An output path this module would ever write: it ends in the media
/// extension.
pub open spec fn output_path_wf(output: Seq<char>) -> bool {
    output.len() >= 4 && output.subrange(output.len() - 4, output.len() as int) == mp4_ext()
}

/// Derives the manifest path from the output path.
pub fn manifest_path(output: &str) -> (r: String)
    requires
        output_path_wf(output@),
    ensures
        r@ == manifest_path_spec(output@),
{
    proof {
        reveal_strlit(".txt");
    }
    let n = output.unicode_len();
    let stem = output.substring_char(0, n - 4);
    let mut r = stem.to_owned();
    r.append(".txt");
    proof {
        assert(r@ =~= manifest_path_spec(output@));
    }
    r
}

/// One manifest line: the segment's path, quoted, on a line of its own.
pub open spec fn manifest_line(path: Seq<char>) -> Seq<char> {
    "file '"@ + path + "'\n"@
}

/// The whole manifest: one line per segment, in the given order.
pub open spec fn manifest_text(segs: Seq<SegView>) -> Seq<char>
    decreases segs.len(),
{
    if segs.len() == 0 {
        Seq::empty()
    } else {
        manifest_text(segs.drop_last()) + manifest_line(segs.last().path)
    }
}

/// Renders the manifest for the given segments, in order.
pub fn build_manifest(segs: &Vec<Segment>) -> (r: String)
    ensures
        r@ == manifest_text(seg_views(segs@)),
{
    let mut out = String::new();
    proof {
        assert(seg_views(segs@.take(0)) =~= Seq::<SegView>::empty());
        assert(out@ =~= manifest_text(seg_views(segs@.take(0))));
    }
    let mut i: usize = 0;
    while i < segs.len()
        invariant
            0 <= i <= segs@.len(),
            out@ == manifest_text(seg_views(segs@.take(i as int))),
        decreases segs@.len() - i,
    {
        out.append("file '");
        out.append(segs[i].path.as_str());
        out.append("'\n");
        proof {
            let next = seg_views(segs@.take(i + 1int));
            assert(next.drop_last() =~= seg_views(segs@.take(i as int)));
            assert(next.last() == segs@[i as int]@);
            assert(out@ =~= manifest_text(next));
        }
        i += 1;
    }
    proof {
        assert(segs@.take(segs@.len() as int) =~= segs@);
    }
    out
}

/// One step of a merge, for the shell to perform.
#[derive(Debug)]
pub enum MergeStep {
    /// Create the directory, parents included; no error if present.
    EnsureDir { dir: String },
    /// Copy the file's bytes verbatim.
    CopyFile { source: String, dest: String },
    /// Write the content to the path, replacing what was there.
    WriteFile { path: String, content: String },
    /// Run the external tool: lossless stream-copy concatenation of the
    /// manifest's entries into the output, overwriting it.
    RunConcatTool { manifest: String, output: String },
    /// Best-effort removal; its own failure is not fatal.
    RemoveFile { path: String },
}

/// Lays out the steps that merge one bucket's ordered segments into
/// `output_file`.  One segment is copied verbatim, so the output is
/// byte-identical to it; several are concatenated through a manifest
/// listing them in order, and every plan that writes the manifest also
/// ends by removing it.
pub fn build_merge_steps(segs: &Vec<Segment>, output_dir: &str, output_file: &str) -> (r: Vec<
    MergeStep,
>)
    requires
        segs@.len() >= 1,
        output_path_wf(output_file@),
    ensures
        r@.len() >= 2,
        r@[0] matches MergeStep::EnsureDir { dir } && dir@ == output_dir@,
        segs@.len() == 1 ==> r@.len() == 2 && (r@[1] matches MergeStep::CopyFile { source, dest }
            && source@ == segs@[0]@.path && dest@ == output_file@),
        segs@.len() > 1 ==> r@.len() == 4 && (r@[1] matches MergeStep::WriteFile { path, content }
            && path@ == manifest_path_spec(output_file@) && content@ == manifest_text(
            seg_views(segs@),
        )) && (r@[2] matches MergeStep::RunConcatTool { manifest, output } && manifest@
            == manifest_path_spec(output_file@) && output@ == output_file@) && (r@[3]
            matches MergeStep::RemoveFile { path } && path@ == manifest_path_spec(output_file@)),
        forall|i: int|
            0 <= i < r@.len() ==> (#[trigger] r@[i] matches MergeStep::WriteFile { path, .. }
                ==> (r@.last() matches MergeStep::RemoveFile { path: q } && q@ == path@)),
{
    let mut steps: Vec<MergeStep> = Vec::new();
    steps.push(MergeStep::EnsureDir { dir: output_dir.to_owned() });
    if segs.len() == 1 {
        steps.push(
            MergeStep::CopyFile { source: segs[0].path.clone(), dest: output_file.to_owned() },
        );
    } else {
        let manifest = manifest_path(output_file);
        let content = build_manifest(segs);
        steps.push(MergeStep::WriteFile { path: manifest.clone(), content });
        steps.push(
            MergeStep::RunConcatTool { manifest: manifest.clone(), output: output_file.to_owned() },
        );
        steps.push(MergeStep::RemoveFile { path: manifest });
    }
    steps
}

} // verus!
