//! The tree aggregator's per-file step and whole-scan fold.
//!
//! A scan visits files in traversal order. Each file that decoded as
//! text contributes its newline-delimited segment count to the grand
//! total and to exactly one bucket: the name of the first registry
//! entry listing its extension, or the sentinel bucket `"Unknown"` when
//! no entry matches or the file name has no extension. A file whose
//! content did not decode contributes to nothing at all.

use vstd::prelude::*;
use vstd::string::StringSliceAdditionalSpecFns;
use vstd::utf8::encode_utf8;

use crate::aggregate::AggregationState;
use crate::aggregate::spec_record;
use crate::lines::count_segments;
use crate::lines::newline_segments;
use crate::registry::EntryView;
use crate::registry::Registry;
use crate::registry::lemma_classify_ext_first_match;
use crate::registry::spec_classify_name;
use crate::registry::spec_dotted_ext;

verus! {

/// The bucket a file named by `name_bytes` feeds: the matched entry's
/// language name, or `"Unknown"` when classification fails.
pub open spec fn spec_bucket_key(entries: Seq<EntryView>, name_bytes: Seq<u8>) -> Seq<char> {
    match spec_classify_name(entries, name_bytes) {
        Some(i) => entries[i].name,
        None => "Unknown"@,
    }
}

impl AggregationState {
    /// Processes one decoded file: counts its newline-delimited
    /// segments and adds them to the grand total and to the bucket its
    /// name classifies into.
    pub fn process_file(&mut self, reg: &Registry, name: &str, content: &[u8])
        requires
            old(self).wf(),
            content@.len() < u64::MAX,
            old(self).total_lines + newline_segments(content@) <= u64::MAX,
        ensures
            final(self).wf(),
            final(self).total_lines == old(self).total_lines + newline_segments(content@),
            final(self).buckets_model() == spec_record(
                old(self).buckets_model(),
                spec_bucket_key(reg@, name.spec_bytes()),
                newline_segments(content@),
            ),
    {
        let n: u64 = count_segments(content);
        let idx = reg.classify_name(name.as_bytes());
        proof {
            match spec_dotted_ext(name.spec_bytes()) {
                Some(ext) => lemma_classify_ext_first_match(reg@, ext),
                None => {},
            }
            assert(reg@.len() == reg.entries@.len());
        }
        let key: String = match idx {
            Some(i) => {
                proof {
                    assert(reg@[i as int] == reg.entries@[i as int]@);
                }
                reg.entries[i].name.clone()
            },
            None => "Unknown".to_owned(),
        };
        proof {
            assert(key@ == spec_bucket_key(reg@, name.spec_bytes()));
        }
        self.record(key, n);
    }
}

/// One directory entry handed to the aggregator: the file's name and
/// its content as bytes, or `None` when the content did not decode as
/// text.
pub struct ScannedFile {
    pub name: String,
    pub content: Option<Vec<u8>>,
}

/// The mathematical content of a `ScannedFile`: the name's bytes and
/// the content bytes, if the file decoded.
pub struct FileView {
    pub name: Seq<u8>,
    pub content: Option<Seq<u8>>,
}

impl View for ScannedFile {
    type V = FileView;

    open spec fn view(&self) -> FileView {
        FileView {
            name: encode_utf8(self.name@),
            content: match self.content {
                Some(c) => Some(c@),
                None => None,
            },
        }
    }
}

pub open spec fn files_view(files: Seq<ScannedFile>) -> Seq<FileView> {
    files.map_values(|f: ScannedFile| f@)
}

/// The aggregation that scanning `files` in order yields: the grand
/// total and the bucket list.
pub open spec fn spec_scan(entries: Seq<EntryView>, files: Seq<FileView>) -> (int, Seq<
    (Seq<char>, int),
>)
    decreases files.len(),
{
    if files.len() == 0 {
        (0, Seq::empty())
    } else {
        let prev = spec_scan(entries, files.drop_last());
        match files.last().content {
            None => prev,
            Some(c) => (
                prev.0 + newline_segments(c),
                spec_record(prev.1, spec_bucket_key(entries, files.last().name), newline_segments(c)),
            ),
        }
    }
}

/// Whether the file at position `k` would push the grand total past
/// what a 64-bit counter holds.
pub open spec fn scan_overflows_at(entries: Seq<EntryView>, files: Seq<FileView>, k: int) -> bool {
    0 <= k < files.len() && match files[k].content {
        None => false,
        Some(c) => c.len() >= u64::MAX || spec_scan(entries, files.take(k)).0 + newline_segments(c)
            > u64::MAX,
    }
}

/// Scans a list of files in order, starting from the empty aggregation;
/// `None` exactly when some file would push the total past a 64-bit
/// counter.
#[verifier::loop_isolation(false)]
pub fn scan_files(reg: &Registry, files: &Vec<ScannedFile>) -> (r: Option<AggregationState>)
    ensures
        match r {
            Some(st) => st.wf() && st.total_lines == spec_scan(reg@, files_view(files@)).0
                && st.buckets_model() == spec_scan(reg@, files_view(files@)).1 && (forall|k: int|
                !scan_overflows_at(reg@, files_view(files@), k)),
            None => exists|k: int| scan_overflows_at(reg@, files_view(files@), k),
        },
{
    let ghost fv = files_view(files@);
    let mut st = AggregationState::new();
    proof {
        assert(fv.take(0) =~= Seq::<FileView>::empty());
    }
    let mut i: usize = 0;
    while i < files.len()
        invariant
            i <= files@.len(),
            st.wf(),
            st.total_lines == spec_scan(reg@, fv.take(i as int)).0,
            st.buckets_model() == spec_scan(reg@, fv.take(i as int)).1,
            forall|k: int| 0 <= k < i ==> !scan_overflows_at(reg@, fv, k),
        decreases files@.len() - i,
    {
        proof {
            assert(fv.take(i + 1).drop_last() =~= fv.take(i as int));
            assert(fv.take(i + 1).last() == fv[i as int]);
            assert(fv[i as int] == files@[i as int]@);
            assert(fv.take(i as int) =~= fv.take(i as int));
        }
        let f = &files[i];
        match &f.content {
            None => {},
            Some(c) => {
                if c.len() as u64 == u64::MAX {
                    proof {
                        assert(scan_overflows_at(reg@, fv, i as int));
                    }
                    return None;
                }
                let segs: u64 = count_segments(c.as_slice());
                if st.total_lines > u64::MAX - segs {
                    proof {
                        assert(scan_overflows_at(reg@, fv, i as int));
                    }
                    return None;
                }
                st.process_file(reg, f.name.as_str(), c.as_slice());
            },
        }
        i = i + 1;
    }
    proof {
        assert(fv.take(files@.len() as int) =~= fv);
    }
    Some(st)
}

/// The grand total is the sum, over the files that decoded as text, of
/// their newline-delimited segment counts.
pub open spec fn spec_total_segments(files: Seq<FileView>) -> int
    decreases files.len(),
{
    if files.len() == 0 {
        0
    } else {
        spec_total_segments(files.drop_last()) + match files.last().content {
            None => 0,
            Some(c) => newline_segments(c),
        }
    }
}

/// The grand total of a scan equals the sum over all processed files of
/// the number of newline-delimited segments in each file's content.
pub proof fn lemma_scan_total_is_sum(entries: Seq<EntryView>, files: Seq<FileView>)
    ensures
        spec_scan(entries, files).0 == spec_total_segments(files),
    decreases files.len(),
{
    if files.len() > 0 {
        lemma_scan_total_is_sum(entries, files.drop_last());
    }
}

/// Scanning the same unchanged file list against the same registry
/// twice yields identical aggregation values.
pub proof fn lemma_scan_deterministic(
    entries: Seq<EntryView>,
    files: Seq<FileView>,
    r1: (int, Seq<(Seq<char>, int)>),
    r2: (int, Seq<(Seq<char>, int)>),
)
    requires
        r1 == spec_scan(entries, files),
        r2 == spec_scan(entries, files),
    ensures
        r1 == r2,
{
}

/// A file whose content did not decode as text contributes nothing:
/// removing it from the list leaves the scan's result unchanged.
pub proof fn lemma_binary_file_excluded(entries: Seq<EntryView>, files: Seq<FileView>, k: int)
    requires
        0 <= k < files.len(),
        files[k].content is None,
    ensures
        spec_scan(entries, files.remove(k)) == spec_scan(entries, files),
    decreases files.len(),
{
    if k == files.len() - 1 {
        assert(files.remove(k) =~= files.drop_last());
    } else {
        assert(files.remove(k).drop_last() =~= files.drop_last().remove(k));
        assert(files.remove(k).last() == files.last());
        lemma_binary_file_excluded(entries, files.drop_last(), k);
    }
}

} // verus!
