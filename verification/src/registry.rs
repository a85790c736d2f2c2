//! The language registry: an immutable table mapping file extensions to
//! language names.
//!
//! Classification takes a file's extension with its leading separator
//! (for example `.rs`) and scans the entries in load order, each entry's
//! extension list in stored order, returning the first entry holding an
//! exact, case-sensitive match. Extensions are compared by their bytes;
//! a language's display name is kept as a string for the report.

use vstd::prelude::*;
use vstd::string::StringSliceAdditionalSpecFns;
use vstd::utf8::encode_utf8;

verus! {

/// One language: a display name and the extension strings attributed to
/// it, each beginning with the separator `.`.
pub struct LanguageEntry {
    pub name: String,
    pub extensions: Vec<String>,
}

/// The mathematical content of a `LanguageEntry`: the name as a
/// character sequence and each extension as its byte encoding.
pub struct EntryView {
    pub name: Seq<char>,
    pub exts: Seq<Seq<u8>>,
}

impl View for LanguageEntry {
    type V = EntryView;

    open spec fn view(&self) -> EntryView {
        EntryView {
            name: self.name@,
            exts: self.extensions@.map_values(|e: String| encode_utf8(e@)),
        }
    }
}

/// Whether some extension of entry `e` equals `ext` exactly.
pub open spec fn entry_matches(e: EntryView, ext: Seq<u8>) -> bool {
    exists|j: int| 0 <= j < e.exts.len() && e.exts[j] == ext
}

pub open spec fn spec_classify_from(entries: Seq<EntryView>, ext: Seq<u8>, i: int) -> Option<int>
    decreases entries.len() - i,
{
    if i < 0 || i >= entries.len() {
        None
    } else if entry_matches(entries[i], ext) {
        Some(i)
    } else {
        spec_classify_from(entries, ext, i + 1)
    }
}

/// Index of the first entry, in load order, one of whose extensions
/// equals `ext` exactly; `None` when no entry lists `ext`.
pub open spec fn spec_classify_ext(entries: Seq<EntryView>, ext: Seq<u8>) -> Option<int> {
    spec_classify_from(entries, ext, 0)
}

/// Index of the last `.` byte in `name`, if any.
pub open spec fn spec_last_dot(name: Seq<u8>) -> Option<int>
    decreases name.len(),
{
    if name.len() == 0 {
        None
    } else if name.last() == 46u8 {
        Some(name.len() - 1)
    } else {
        spec_last_dot(name.drop_last())
    }
}

/// The extension of a file name, with its leading separator: the suffix
/// of `name` from its last `.` byte on, absent when `name` holds no `.`.
pub open spec fn spec_dotted_ext(name: Seq<u8>) -> Option<Seq<u8>> {
    match spec_last_dot(name) {
        None => None,
        Some(i) => Some(name.subrange(i, name.len() as int)),
    }
}

/// Classification of a whole file name: its dotted extension, if any,
/// looked up among `entries`.
pub open spec fn spec_classify_name(entries: Seq<EntryView>, name: Seq<u8>) -> Option<int> {
    match spec_dotted_ext(name) {
        None => None,
        Some(ext) => spec_classify_ext(entries, ext),
    }
}

/// Byte-for-byte equality of two slices.
fn bytes_eq(a: &[u8], b: &[u8]) -> (r: bool)
    ensures
        r == (a@ == b@),
{
    if a.len() != b.len() {
        return false;
    }
    let mut k: usize = 0;
    while k < a.len()
        invariant
            k <= a@.len(),
            a@.len() == b@.len(),
            forall|t: int| 0 <= t < k ==> a@[t] == b@[t],
        decreases a@.len() - k,
    {
        if a[k] != b[k] {
            return false;
        }
        k = k + 1;
    }
    proof {
        assert(a@ =~= b@);
    }
    true
}

/// The extension of `name` with its leading separator, as a borrowed
/// suffix of `name`; `None` when `name` holds no `.` byte.
pub fn extension_of(name: &[u8]) -> (r: Option<&[u8]>)
    ensures
        match r {
            Some(e) => spec_dotted_ext(name@) == Some(e@),
            None => spec_dotted_ext(name@) is None,
        },
{
    let mut i: usize = name.len();
    proof {
        assert(name@.take(name@.len() as int) =~= name@);
    }
    while i > 0
        invariant
            i <= name@.len(),
            spec_last_dot(name@) == spec_last_dot(name@.take(i as int)),
        decreases i,
    {
        proof {
            assert(name@.take(i as int).last() == name@[i - 1]);
            assert(name@.take(i as int).drop_last() =~= name@.take(i - 1));
        }
        if name[i - 1] == 46u8 {
            return Some(&name[(i - 1)..name.len()]);
        }
        i = i - 1;
    }
    None
}

/// The immutable extension-to-language lookup table, consulted once per
/// file during a scan and never changed after loading.
pub struct Registry {
    pub entries: Vec<LanguageEntry>,
}

impl View for Registry {
    type V = Seq<EntryView>;

    open spec fn view(&self) -> Seq<EntryView> {
        self.entries@.map_values(|e: LanguageEntry| e@)
    }
}

/// Whether entry `e` lists `ext` among its extension strings.
fn entry_has_ext(e: &LanguageEntry, ext: &[u8]) -> (r: bool)
    ensures
        r == entry_matches(e@, ext@),
{
    let mut j: usize = 0;
    while j < e.extensions.len()
        invariant
            j <= e.extensions@.len(),
            e@.exts.len() == e.extensions@.len(),
            forall|t: int| 0 <= t < j ==> e@.exts[t] != ext@,
            e@.exts == e.extensions@.map_values(|s: String| encode_utf8(s@)),
        decreases e.extensions@.len() - j,
    {
        let s: &String = &e.extensions[j];
        if bytes_eq(s.as_str().as_bytes(), ext) {
            proof {
                assert(e@.exts[j as int] == ext@);
            }
            return true;
        }
        j = j + 1;
    }
    false
}

impl Registry {
    /// Wraps a loaded table of entries; the table is never mutated.
    pub fn new(entries: Vec<LanguageEntry>) -> (r: Registry)
        ensures
            r.entries@ == entries@,
            r@ == entries@.map_values(|e: LanguageEntry| e@),
    {
        Registry { entries }
    }

    /// Looks the dotted extension `ext` up: the index of the first entry
    /// in load order listing it exactly, `None` when the file has no
    /// extension or no entry lists it.
    pub fn classify(&self, ext: Option<&[u8]>) -> (r: Option<usize>)
        ensures
            match ext {
                None => r is None,
                Some(e) => match r {
                    Some(i) => spec_classify_ext(self@, e@) == Some(i as int),
                    None => spec_classify_ext(self@, e@) is None,
                },
            },
    {
        match ext {
            None => None,
            Some(eb) => {
                let mut i: usize = 0;
                while i < self.entries.len()
                    invariant
                        ext == Some(eb),
                        i <= self.entries@.len(),
                        self@.len() == self.entries@.len(),
                        spec_classify_ext(self@, eb@) == spec_classify_from(self@, eb@, i as int),
                    decreases self.entries@.len() - i,
                {
                    if entry_has_ext(&self.entries[i], eb) {
                        proof {
                            assert(self@[i as int] == self.entries@[i as int]@);
                            assert(spec_classify_from(self@, eb@, i as int) == Some(i as int));
                        }
                        return Some(i);
                    }
                    proof {
                        assert(self@[i as int] == self.entries@[i as int]@);
                    }
                    i = i + 1;
                }
                None
            },
        }
    }

    /// Classifies a whole file name: finds its dotted extension and
    /// looks it up.
    pub fn classify_name(&self, name: &[u8]) -> (r: Option<usize>)
        ensures
            match r {
                Some(i) => spec_classify_name(self@, name@) == Some(i as int),
                None => spec_classify_name(self@, name@) is None,
            },
    {
        self.classify(extension_of(name))
    }
}

/// Classification is a function of the registry and the extension
/// alone: on a fixed registry, equal extensions classify alike.
pub proof fn lemma_classify_deterministic(
    entries: Seq<EntryView>,
    ext1: Seq<u8>,
    ext2: Seq<u8>,
)
    requires
        ext1 == ext2,
    ensures
        spec_classify_ext(entries, ext1) == spec_classify_ext(entries, ext2),
{
}

/// What a successful classification means: the result is the index of
/// an entry listing the extension, and no earlier entry lists it.
pub proof fn lemma_classify_ext_first_match(entries: Seq<EntryView>, ext: Seq<u8>)
    ensures
        match spec_classify_ext(entries, ext) {
            Some(i) => 0 <= i < entries.len() && entry_matches(entries[i], ext) && forall|k: int|
                0 <= k < i ==> !entry_matches(entries[k], ext),
            None => forall|k: int| 0 <= k < entries.len() ==> !entry_matches(entries[k], ext),
        },
{
    lemma_classify_from_first_match(entries, ext, 0);
}

proof fn lemma_classify_from_first_match(entries: Seq<EntryView>, ext: Seq<u8>, i: int)
    requires
        0 <= i,
    ensures
        match spec_classify_from(entries, ext, i) {
            Some(m) => i <= m < entries.len() && entry_matches(entries[m], ext) && forall|k: int|
                i <= k < m ==> !entry_matches(entries[k], ext),
            None => forall|k: int| i <= k < entries.len() ==> !entry_matches(entries[k], ext),
        },
    decreases entries.len() - i,
{
    if i < entries.len() && !entry_matches(entries[i], ext) {
        lemma_classify_from_first_match(entries, ext, i + 1);
    }
}

} // verus!
