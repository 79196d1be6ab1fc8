use vstd::prelude::*;
use std::collections::HashMap;
use crate::addr_map::{
    AddrMap, lemma_insert_if_vacant_at, lemma_spec_lb_props, lemma_upsert_at, spec_insert_if_vacant,
    spec_lb, spec_upsert, wf_entries,
};
use crate::line_program::{
    LineProgramRow, LineSequenceV, RawLineRow, parse_line_program, seqs_view, spec_parse,
};

verus! {

broadcast use vstd::std_specs::hash::group_hash_axioms;

/// A compile-time source file: directory and leaf path, both handles
/// into the string table. A missing directory stays absent.
#[derive(Debug, Clone, Copy, PartialEq, Eq, Hash)]
pub struct File {
    pub directory_idx: Option<u32>,
    pub path_name_idx: u32,
}

/// "This address attributes to `line` of the file at `file_idx`".
/// `function_idx` is an extension point for resolved function records
/// and carries no value in this core. `inlined_into_idx` is a handle
/// into the source-location table forming a singly-linked chain from
/// the innermost (post-inlining) location out to the call site that
/// caused the inlining.
#[derive(Debug, Clone, Copy, PartialEq, Eq, Hash)]
pub struct SourceLocation {
    pub file_idx: u32,
    pub line: u32,
    pub function_idx: Option<u32>,
    pub inlined_into_idx: Option<u32>,
}

/// One entry of a unit's file table: the directory attribute (absent
/// when the file has none) and the path attribute, both already read
/// as strings.
#[derive(Debug)]
pub struct FileRecord {
    pub directory: Option<String>,
    pub path_name: String,
}

/// The debug-entry kinds this converter processes; every other tag is
/// walked over without effect.
#[derive(Debug, Clone, Copy, PartialEq, Eq, Structural)]
pub enum DieTag {
    Subprogram,
    InlinedSubroutine,
    Other,
}

/// A named attribute of a debug entry: the numeric DWARF attribute
/// code and its value read as unsigned data, when it has one.
#[derive(Debug, Clone, Copy)]
pub struct DieAttr {
    pub name: u16,
    pub udata: Option<u64>,
}

/// A half-open PC range `[begin, end)` attached to a debug entry.
#[derive(Debug, Clone, Copy)]
pub struct DieRange {
    pub begin: u64,
    pub end: u64,
}

/// One debug entry of a unit's tree, in depth-first order.
#[derive(Debug)]
pub struct DieEntry {
    pub tag: DieTag,
    pub attrs: Vec<DieAttr>,
    pub ranges: Vec<DieRange>,
}

/// Everything of one compilation unit that the converter consumes: the
/// unit's file table, the raw rows of its line-number program (absent
/// when the unit has none), and its debug entries in depth-first
/// order.
#[derive(Debug)]
pub struct UnitData {
    pub has_line_program: bool,
    pub files: Vec<Option<FileRecord>>,
    pub rows: Vec<RawLineRow>,
    pub entries: Vec<DieEntry>,
}

/// The numeric DWARF code of the call-file attribute.
pub const DW_AT_CALL_FILE: u16 = 0x58;

/// The numeric DWARF code of the call-line attribute.
pub const DW_AT_CALL_LINE: u16 = 0x59;

/// The position of the first occurrence of `v`, or the length when `v`
/// is absent.
pub open spec fn intern_index<A>(s: Seq<A>, v: A) -> int
    decreases s.len(),
{
    if s.len() == 0 {
        0
    } else if s[0] == v {
        0
    } else {
        1 + intern_index(s.drop_first(), v)
    }
}

/// Interning `v`: an absent value is appended and handed the next
/// sequential handle, a present value is handed the handle of its
/// first occurrence; a table whose next handle would collide with the
/// reserved unresolved sentinel stays unchanged and hands out the
/// sentinel.
pub open spec fn spec_intern<A>(s: Seq<A>, v: A) -> (Seq<A>, u32) {
    let i = intern_index(s, v);
    if i < u32::MAX as int {
        ((if i < s.len() { s } else { s.push(v) }), i as u32)
    } else {
        (s, u32::MAX)
    }
}

/// `intern_index` points at the first occurrence.
pub proof fn lemma_intern_index_props<A>(s: Seq<A>, v: A)
    ensures
        0 <= intern_index(s, v) <= s.len(),
        intern_index(s, v) < s.len() ==> s[intern_index(s, v)] == v,
        forall|j: int| 0 <= j < intern_index(s, v) ==> s[j] != v,
        intern_index(s, v) == s.len() ==> !s.contains(v),
    decreases s.len(),
{
    if s.len() > 0 && s[0] != v {
        lemma_intern_index_props(s.drop_first(), v);
        let i = intern_index(s, v);
        if i < s.len() {
            assert(s.drop_first()[i - 1] == s[i]);
        }
        assert forall|j: int| 0 <= j < i implies s[j] != v by {
            if j > 0 {
                assert(s.drop_first()[j - 1] == s[j]);
            }
        }
        if i == s.len() {
            assert forall|j: int| 0 <= j < s.len() implies s[j] != v by {
                if j > 0 {
                    assert(s.drop_first()[j - 1] == s[j]);
                }
            }
        }
    }
}

/// Interning the same content twice returns the same handle both
/// times, and the second pass changes nothing; a distinct absent value
/// grows the table by exactly one.
pub proof fn lemma_intern_idempotent<A>(s: Seq<A>, v: A)
    ensures
        spec_intern(spec_intern(s, v).0, v).1 == spec_intern(s, v).1,
        spec_intern(spec_intern(s, v).0, v).0 == spec_intern(s, v).0,
        !s.contains(v) && s.len() < u32::MAX as int ==> spec_intern(s, v).0.len() == s.len() + 1,
        s.contains(v) ==> spec_intern(s, v).0 == s,
{
    lemma_intern_index_props(s, v);
    let i = intern_index(s, v);
    let t = spec_intern(s, v).0;
    if i >= s.len() && i < u32::MAX as int {
        // appended at position i == s.len(); its first occurrence in
        // the grown table is that very position
        lemma_intern_index_props(t, v);
        let i2 = intern_index(t, v);
        assert(t[i] == v);
        if i2 < i {
            assert(t[i2] == s[i2]);
            assert(s[i2] != v);
            assert(t[i2] == v);
        }
        assert(i2 == i);
    }
    if s.contains(v) {
        let w = choose|j: int| 0 <= j < s.len() && s[j] == v;
        if i == s.len() {
            assert(s[w] == v);
        }
    }
}

/// The deduplicating store behind the whole converter: strings, files,
/// source locations, and the unit-spanning sorted address index whose
/// values are source-location handles.
#[derive(Debug)]
pub struct Converter {
    strings: Vec<String>,
    files: Vec<File>,
    source_locations: Vec<SourceLocation>,
    ranges: AddrMap<u32>,
}

/// Every chain handle stored in the table points strictly backwards
/// (to an already-interned location) or is the unresolved sentinel, so
/// following a chain always terminates.
pub open spec fn wf_locs(locs: Seq<SourceLocation>) -> bool {
    forall|i: int| 0 <= i < locs.len() ==> match (#[trigger] locs[i]).inlined_into_idx {
        Some(j) => (j as int) < i || j == u32::MAX,
        None => true,
    }
}

/// Every handle stored in the address index refers into the
/// source-location table or is the unresolved sentinel.
pub open spec fn wf_range_vals(ranges: Seq<(u32, u32)>, locs_len: int) -> bool {
    forall|i: int| 0 <= i < ranges.len() ==> ((#[trigger] ranges[i]).1 as int) < locs_len
        || ranges[i].1 == u32::MAX
}

impl Converter {
    /// The contents of the string table, by handle.
    pub closed spec fn strings_seq(self) -> Seq<Seq<char>> {
        self.strings@.map_values(|x: String| x@)
    }

    /// The contents of the file table, by handle.
    pub closed spec fn files_seq(self) -> Seq<File> {
        self.files@
    }

    /// The contents of the source-location table, by handle.
    pub closed spec fn locs_seq(self) -> Seq<SourceLocation> {
        self.source_locations@
    }

    /// The entries of the global range index, in address order.
    pub closed spec fn ranges_seq(self) -> Seq<(u32, u32)> {
        self.ranges@
    }

    /// Well-formedness: handles fit below the reserved sentinel, chain
    /// links point backwards, the index is sorted strictly by address,
    /// and its values refer into the source-location table.
    pub open spec fn wf(self) -> bool {
        &&& self.strings_seq().len() <= u32::MAX as int
        &&& self.files_seq().len() <= u32::MAX as int
        &&& self.locs_seq().len() <= u32::MAX as int
        &&& wf_locs(self.locs_seq())
        &&& wf_entries(self.ranges_seq())
        &&& wf_range_vals(self.ranges_seq(), self.locs_seq().len() as int)
    }

    /// A converter with empty tables and an empty index.
    pub fn new() -> (r: Converter)
        ensures
            r.wf(),
            r.strings_seq() == Seq::<Seq<char>>::empty(),
            r.files_seq() == Seq::<File>::empty(),
            r.locs_seq() == Seq::<SourceLocation>::empty(),
            r.ranges_seq() == Seq::<(u32, u32)>::empty(),
    {
        let r = Converter {
            strings: Vec::new(),
            files: Vec::new(),
            source_locations: Vec::new(),
            ranges: AddrMap::new(),
        };
        proof {
            assert(r.strings_seq() =~= Seq::<Seq<char>>::empty());
        }
        r
    }

    /// Number of distinct strings interned so far.
    pub fn string_count(&self) -> (r: usize)
        ensures
            r == self.strings_seq().len(),
    {
        self.strings.len()
    }

    /// Number of distinct files interned so far.
    pub fn file_count(&self) -> (r: usize)
        ensures
            r == self.files_seq().len(),
    {
        self.files.len()
    }

    /// Number of distinct source locations interned so far.
    pub fn source_location_count(&self) -> (r: usize)
        ensures
            r == self.locs_seq().len(),
    {
        self.source_locations.len()
    }

    /// The string behind a handle, if the handle is live.
    pub fn string_at(&self, idx: u32) -> (r: Option<&String>)
        ensures
            match r {
                Some(s) => (idx as int) < self.strings_seq().len() && s@ == self.strings_seq()[
                    idx as int
                ],
                None => (idx as int) >= self.strings_seq().len(),
            },
    {
        if (idx as usize) < self.strings.len() {
            Some(&self.strings[idx as usize])
        } else {
            None
        }
    }

    /// The file behind a handle, if the handle is live.
    pub fn file_at(&self, idx: u32) -> (r: Option<&File>)
        ensures
            match r {
                Some(f) => (idx as int) < self.files_seq().len() && *f == self.files_seq()[
                    idx as int
                ],
                None => (idx as int) >= self.files_seq().len(),
            },
    {
        if (idx as usize) < self.files.len() {
            Some(&self.files[idx as usize])
        } else {
            None
        }
    }

    /// Interns a string: identical content always returns the same
    /// handle, new content the next sequential handle.
    pub fn insert_string(&mut self, s: String) -> (idx: u32)
        requires
            old(self).wf(),
        ensures
            final(self).wf(),
            final(self).strings_seq() == spec_intern(old(self).strings_seq(), s@).0,
            idx == spec_intern(old(self).strings_seq(), s@).1,
            final(self).files_seq() == old(self).files_seq(),
            final(self).locs_seq() == old(self).locs_seq(),
            final(self).ranges_seq() == old(self).ranges_seq(),
    {
        proof {
            lemma_intern_index_props(self.strings_seq(), s@);
        }
        let ghost gs = self.strings_seq();
        let mut j: usize = 0;
        while j < self.strings.len()
            invariant
                j <= self.strings@.len(),
                self == old(self),
                old(self).wf(),
                gs == self.strings_seq(),
                forall|k: int| 0 <= k < j ==> gs[k] != s@,
            decreases self.strings@.len() - j,
        {
            if self.strings[j] == s {
                proof {
                    lemma_intern_index_props(gs, s@);
                    assert(gs[j as int] == s@);
                    let i = intern_index(gs, s@);
                    if i < j {
                        assert(gs[i] == s@);
                    }
                    if i > j {
                        assert(gs[j as int] != s@);
                    }
                }
                return j as u32;
            }
            j += 1;
        }
        proof {
            let i = intern_index(gs, s@);
            if i < gs.len() {
                assert(gs[i] != s@);
            }
            assert(i == gs.len());
        }
        if self.strings.len() < (u32::MAX as usize) {
            let idx = self.strings.len();
            self.strings.push(s);
            proof {
                assert(final(self).strings_seq() =~= gs.push(s@));
            }
            idx as u32
        } else {
            u32::MAX
        }
    }

    /// Interns a file record: identical content always returns the
    /// same handle.
    pub fn insert_file_record(&mut self, f: File) -> (idx: u32)
        requires
            old(self).wf(),
        ensures
            final(self).wf(),
            final(self).files_seq() == spec_intern(old(self).files_seq(), f).0,
            idx == spec_intern(old(self).files_seq(), f).1,
            final(self).strings_seq() == old(self).strings_seq(),
            final(self).locs_seq() == old(self).locs_seq(),
            final(self).ranges_seq() == old(self).ranges_seq(),
    {
        proof {
            lemma_intern_index_props(self.files_seq(), f);
        }
        let ghost gs = self.files_seq();
        let mut j: usize = 0;
        while j < self.files.len()
            invariant
                j <= self.files@.len(),
                self == old(self),
                old(self).wf(),
                gs == self.files_seq(),
                forall|k: int| 0 <= k < j ==> gs[k] != f,
            decreases self.files@.len() - j,
        {
            let c = self.files[j];
            if file_eq(&c, &f) {
                proof {
                    lemma_intern_index_props(gs, f);
                    let i = intern_index(gs, f);
                    if i < j {
                        assert(gs[i] == f);
                    }
                    if i > j {
                        assert(gs[j as int] != f);
                    }
                }
                return j as u32;
            }
            j += 1;
        }
        proof {
            let i = intern_index(gs, f);
            if i < gs.len() {
                assert(gs[i] != f);
            }
        }
        if self.files.len() < (u32::MAX as usize) {
            let idx = self.files.len();
            self.files.push(f);
            idx as u32
        } else {
            u32::MAX
        }
    }

    /// Interns a source location: identical content always returns the
    /// same handle. The location's chain link must point into the
    /// table as it stands (or be the sentinel), which keeps every
    /// stored chain pointing strictly backwards.
    pub fn insert_source_location(&mut self, source_location: SourceLocation) -> (idx: u32)
        requires
            old(self).wf(),
            match source_location.inlined_into_idx {
                Some(j) => (j as int) < old(self).locs_seq().len() || j == u32::MAX,
                None => true,
            },
        ensures
            final(self).wf(),
            final(self).locs_seq() == spec_intern(old(self).locs_seq(), source_location).0,
            idx == spec_intern(old(self).locs_seq(), source_location).1,
            final(self).strings_seq() == old(self).strings_seq(),
            final(self).files_seq() == old(self).files_seq(),
            final(self).ranges_seq() == old(self).ranges_seq(),
    {
        proof {
            lemma_intern_index_props(self.locs_seq(), source_location);
        }
        let ghost gs = self.locs_seq();
        let mut j: usize = 0;
        while j < self.source_locations.len()
            invariant
                j <= self.source_locations@.len(),
                self == old(self),
                old(self).wf(),
                gs == self.locs_seq(),
                forall|k: int| 0 <= k < j ==> gs[k] != source_location,
            decreases self.source_locations@.len() - j,
        {
            let c = self.source_locations[j];
            if source_location_eq(&c, &source_location) {
                proof {
                    lemma_intern_index_props(gs, source_location);
                    let i = intern_index(gs, source_location);
                    if i < j {
                        assert(gs[i] == source_location);
                    }
                    if i > j {
                        assert(gs[j as int] != source_location);
                    }
                }
                return j as u32;
            }
            j += 1;
        }
        proof {
            let i = intern_index(gs, source_location);
            if i < gs.len() {
                assert(gs[i] != source_location);
            }
        }
        if self.source_locations.len() < (u32::MAX as usize) {
            let idx = self.source_locations.len();
            self.source_locations.push(source_location);
            proof {
                assert(wf_locs(final(self).locs_seq())) by {
                    assert(forall|i: int| 0 <= i < gs.len() ==> final(self).locs_seq()[i] == gs[i]);
                }
            }
            idx as u32
        } else {
            u32::MAX
        }
    }
}

/// Field-wise comparison of two file records.
fn file_eq(a: &File, b: &File) -> (r: bool)
    ensures
        r == (a == b),
{
    let dir_eq = match (a.directory_idx, b.directory_idx) {
        (Some(x), Some(y)) => x == y,
        (None, None) => true,
        _ => false,
    };
    dir_eq && a.path_name_idx == b.path_name_idx
}

/// Field-wise comparison of two source locations.
fn source_location_eq(a: &SourceLocation, b: &SourceLocation) -> (r: bool)
    ensures
        r == (a == b),
{
    let fun_eq = match (a.function_idx, b.function_idx) {
        (Some(x), Some(y)) => x == y,
        (None, None) => true,
        _ => false,
    };
    let chain_eq = match (a.inlined_into_idx, b.inlined_into_idx) {
        (Some(x), Some(y)) => x == y,
        (None, None) => true,
        _ => false,
    };
    a.file_idx == b.file_idx && a.line == b.line && fun_eq && chain_eq
}

/// The per-unit file cache, physically reused across units purely as a
/// capacity optimization: it is cleared at the start of every unit, so
/// no state carries over.
#[derive(Debug)]
pub struct ReusableCaches {
    file_mapping: HashMap<u32, u32>,
}

impl View for ReusableCaches {
    type V = Map<u32, u32>;

    closed spec fn view(&self) -> Map<u32, u32> {
        self.file_mapping@
    }
}

impl ReusableCaches {
    /// An empty cache.
    pub fn new() -> (r: ReusableCaches)
        ensures
            r@ == Map::<u32, u32>::empty(),
    {
        ReusableCaches { file_mapping: HashMap::new() }
    }

    /// Empties the cache, keeping its backing storage.
    pub fn clear(&mut self)
        ensures
            final(self)@ == Map::<u32, u32>::empty(),
    {
        self.file_mapping.clear();
    }
}

impl Default for ReusableCaches {
    /// An empty cache.
    fn default() -> (r: ReusableCaches)
        ensures
            r@ == Map::<u32, u32>::empty(),
    {
        ReusableCaches::new()
    }
}

/// Resolving a unit-local file index to a global file handle, memoized
/// in the per-unit cache: a cached index is answered from the cache; an
/// index with no file-table entry resolves to the unresolved sentinel
/// (and is not cached); otherwise the directory and path strings and
/// the file record are interned and the handle is cached. Returns the
/// updated string table, file table, cache, and the handle.
pub open spec fn resolve_file(
    st: Seq<Seq<char>>,
    fi: Seq<File>,
    cache: Map<u32, u32>,
    uf: Seq<Option<FileRecord>>,
    file_index: u64,
) -> (Seq<Seq<char>>, Seq<File>, Map<u32, u32>, u32) {
    let key = file_index as u32;
    if cache.contains_key(key) {
        (st, fi, cache, cache[key])
    } else if file_index >= uf.len() || uf[file_index as int] is None {
        (st, fi, cache, u32::MAX)
    } else {
        let rec = uf[file_index as int]->Some_0;
        let dir = match rec.directory {
            Some(d) => {
                let r0 = spec_intern(st, d@);
                (r0.0, Some(r0.1))
            },
            None => (st, None),
        };
        let path = spec_intern(dir.0, rec.path_name@);
        let f = File { directory_idx: dir.1, path_name_idx: path.1 };
        let fr = spec_intern(fi, f);
        (path.0, fr.0, cache.insert(key, fr.1), fr.1)
    }
}

impl Converter {
    /// Maps a unit-local file index to a global, deduplicated file
    /// handle, memoized in `cache` for the remainder of this unit's
    /// processing. An index with no entry in the unit's file table
    /// resolves to the unresolved sentinel.
    pub fn insert_file(
        &mut self,
        cache: &mut ReusableCaches,
        unit_files: &Vec<Option<FileRecord>>,
        file_index: u64,
    ) -> (idx: u32)
        requires
            old(self).wf(),
        ensures
            final(self).wf(),
            ({
                let r = resolve_file(
                    old(self).strings_seq(),
                    old(self).files_seq(),
                    old(cache)@,
                    unit_files@,
                    file_index,
                );
                &&& final(self).strings_seq() == r.0
                &&& final(self).files_seq() == r.1
                &&& final(cache)@ == r.2
                &&& idx == r.3
            }),
            final(self).locs_seq() == old(self).locs_seq(),
            final(self).ranges_seq() == old(self).ranges_seq(),
    {
        let key = #[verifier::truncate] (file_index as u32);
        match cache.file_mapping.get(&key) {
            Some(v) => {
                return *v;
            },
            None => {},
        }
        if file_index >= unit_files.len() as u64 {
            return u32::MAX;
        }
        let rec = match &unit_files[file_index as usize] {
            None => {
                return u32::MAX;
            },
            Some(rec) => rec,
        };
        let directory_idx = match &rec.directory {
            Some(d) => Some(self.insert_string(d.clone())),
            None => None,
        };
        let path_name_idx = self.insert_string(rec.path_name.clone());
        let file = File { directory_idx, path_name_idx };
        let file_idx = self.insert_file_record(file);
        cache.file_mapping.insert(key, file_idx);
        file_idx
    }
}

/// Scans a debug entry's attributes for the call-file and call-line
/// attributes; a repeated attribute keeps the last value seen.
pub open spec fn spec_caller_info(attrs: Seq<DieAttr>, i: int, call_file: Option<u64>, call_line: Option<u64>) -> (Option<u64>, Option<u64>)
    decreases attrs.len() - i,
{
    if i < 0 || i >= attrs.len() {
        (call_file, call_line)
    } else {
        let a = attrs[i];
        if a.name == DW_AT_CALL_FILE {
            spec_caller_info(attrs, i + 1, a.udata, call_line)
        } else if a.name == DW_AT_CALL_LINE {
            spec_caller_info(attrs, i + 1, call_file, a.udata)
        } else {
            spec_caller_info(attrs, i + 1, call_file, call_line)
        }
    }
}

/// Extracts the call-site attributes (call file, call line) of a
/// debug entry.
pub fn find_caller_info(attrs: &Vec<DieAttr>) -> (r: (Option<u64>, Option<u64>))
    ensures
        r == spec_caller_info(attrs@, 0, None::<u64>, None::<u64>),
{
    let mut call_file: Option<u64> = None;
    let mut call_line: Option<u64> = None;
    let mut i: usize = 0;
    while i < attrs.len()
        invariant
            i <= attrs@.len(),
            spec_caller_info(attrs@, i as int, call_file, call_line) == spec_caller_info(
                attrs@,
                0,
                None::<u64>,
                None::<u64>,
            ),
        decreases attrs@.len() - i,
    {
        let a = attrs[i];
        if a.name == DW_AT_CALL_FILE {
            call_file = a.udata;
        } else if a.name == DW_AT_CALL_LINE {
            call_line = a.udata;
        }
        i += 1;
    }
    (call_file, call_line)
}

/// Every chain handle stored in a breakpoint value refers into the
/// source-location table or is the unresolved sentinel.
pub open spec fn wf_bp_vals(bps: Seq<(u32, SourceLocation)>, locs_len: int) -> bool {
    forall|i: int| 0 <= i < bps.len() ==> match (#[trigger] bps[i]).1.inlined_into_idx {
        Some(j) => (j as int) < locs_len || j == u32::MAX,
        None => true,
    }
}

/// Writing a value with a valid chain handle keeps all breakpoint
/// values valid.
pub proof fn lemma_upsert_bp_vals(
    bps: Seq<(u32, SourceLocation)>,
    key: u32,
    v: SourceLocation,
    locs_len: int,
)
    requires
        wf_entries(bps),
        wf_bp_vals(bps, locs_len),
        match v.inlined_into_idx {
            Some(j) => (j as int) < locs_len || j == u32::MAX,
            None => true,
        },
    ensures
        wf_bp_vals(spec_upsert(bps, key, v), locs_len),
{
    lemma_spec_lb_props(bps, key);
    let i = spec_lb(bps, key);
    lemma_upsert_at(bps, key, v, i);
    let t = spec_upsert(bps, key, v);
    assert forall|k: int| 0 <= k < t.len() implies match (#[trigger] t[k]).1.inlined_into_idx {
        Some(j) => (j as int) < locs_len || j == u32::MAX,
        None => true,
    } by {
        if i < bps.len() && bps[i].0 == key {
            assert(t[k] == bps.update(i, (key, v))[k]);
        } else {
            if k < i {
                assert(t[k] == bps[k]);
            } else if k > i {
                assert(t[k] == bps[k - 1]);
            }
        }
    }
}

/// Inserting a valid handle keeps all index values valid.
pub proof fn lemma_insert_if_vacant_range_vals(
    ranges: Seq<(u32, u32)>,
    key: u32,
    v: u32,
    locs_len: int,
)
    requires
        wf_entries(ranges),
        wf_range_vals(ranges, locs_len),
        (v as int) < locs_len || v == u32::MAX,
    ensures
        wf_range_vals(spec_insert_if_vacant(ranges, key, v), locs_len),
{
    lemma_spec_lb_props(ranges, key);
    let i = spec_lb(ranges, key);
    lemma_insert_if_vacant_at(ranges, key, v, i);
    let t = spec_insert_if_vacant(ranges, key, v);
    assert forall|k: int| 0 <= k < t.len() implies ((#[trigger] t[k]).1 as int) < locs_len
        || t[k].1 == u32::MAX by {
        if !(i < ranges.len() && ranges[i].0 == key) {
            if k < i {
                assert(t[k] == ranges[k]);
            } else if k > i {
                assert(t[k] == ranges[k - 1]);
            }
        }
    }
}

/// Building the per-unit breakpoints from the rows of one decoded
/// sequence, from position `i` on: each row's file is resolved and a
/// breakpoint is written at the row's address, later rows at an
/// already-written address overwriting the earlier entry.
pub open spec fn bps_from_rows(
    st: Seq<Seq<char>>,
    fi: Seq<File>,
    cache: Map<u32, u32>,
    uf: Seq<Option<FileRecord>>,
    rows: Seq<LineProgramRow>,
    i: int,
    bps: Seq<(u32, SourceLocation)>,
) -> (Seq<Seq<char>>, Seq<File>, Map<u32, u32>, Seq<(u32, SourceLocation)>)
    decreases rows.len() - i,
{
    if i < 0 || i >= rows.len() {
        (st, fi, cache, bps)
    } else {
        let row = rows[i];
        let r = resolve_file(st, fi, cache, uf, row.file_index as u64);
        let loc = SourceLocation {
            file_idx: r.3,
            line: row.line,
            function_idx: None,
            inlined_into_idx: None,
        };
        bps_from_rows(r.0, r.1, r.2, uf, rows, i + 1, spec_upsert(bps, row.address as u32, loc))
    }
}

/// Building the per-unit breakpoints from every decoded sequence, from
/// position `i` on.
pub open spec fn bps_from_seqs(
    st: Seq<Seq<char>>,
    fi: Seq<File>,
    cache: Map<u32, u32>,
    uf: Seq<Option<FileRecord>>,
    seqs: Seq<LineSequenceV>,
    i: int,
    bps: Seq<(u32, SourceLocation)>,
) -> (Seq<Seq<char>>, Seq<File>, Map<u32, u32>, Seq<(u32, SourceLocation)>)
    decreases seqs.len() - i,
{
    if i < 0 || i >= seqs.len() {
        (st, fi, cache, bps)
    } else {
        let r = bps_from_rows(st, fi, cache, uf, seqs[i].rows, 0, bps);
        bps_from_seqs(r.0, r.1, r.2, uf, seqs, i + 1, r.3)
    }
}

/// Attributing call-site information to the breakpoints at positions
/// `[i, hi)`. For an inlined subroutine, each breakpoint's value is
/// given a caller frame carrying the call file and line and inheriting
/// whatever outer chain the breakpoint already had; the caller frame
/// is interned and the breakpoint's chain link set to its handle,
/// leaving the breakpoint's own file and line untouched as the
/// innermost location. For a plain subprogram the breakpoint is only
/// marked with the (unresolved) function attribution.
pub open spec fn attr_rows(
    locs: Seq<SourceLocation>,
    bps: Seq<(u32, SourceLocation)>,
    i: int,
    hi: int,
    inlined: bool,
    caller_file: u32,
    caller_line: u32,
) -> (Seq<SourceLocation>, Seq<(u32, SourceLocation)>)
    decreases hi - i,
{
    if i < 0 || i >= hi || i >= bps.len() {
        (locs, bps)
    } else {
        let callee = bps[i].1;
        if inlined {
            let caller = SourceLocation {
                file_idx: caller_file,
                line: caller_line,
                function_idx: callee.function_idx,
                inlined_into_idx: callee.inlined_into_idx,
            };
            let r = spec_intern(locs, caller);
            let new_callee = SourceLocation {
                file_idx: callee.file_idx,
                line: callee.line,
                function_idx: None,
                inlined_into_idx: Some(r.1),
            };
            attr_rows(
                r.0,
                bps.update(i, (bps[i].0, new_callee)),
                i + 1,
                hi,
                inlined,
                caller_file,
                caller_line,
            )
        } else {
            let new_callee = SourceLocation {
                file_idx: callee.file_idx,
                line: callee.line,
                function_idx: None,
                inlined_into_idx: callee.inlined_into_idx,
            };
            attr_rows(
                locs,
                bps.update(i, (bps[i].0, new_callee)),
                i + 1,
                hi,
                inlined,
                caller_file,
                caller_line,
            )
        }
    }
}

/// Attributing one debug entry's PC ranges, from position `i` on: each
/// range selects the covered breakpoints through the range-splitting
/// rule and attributes them.
pub open spec fn attr_ranges(
    locs: Seq<SourceLocation>,
    bps: Seq<(u32, SourceLocation)>,
    ranges: Seq<DieRange>,
    i: int,
    inlined: bool,
    caller_file: u32,
    caller_line: u32,
) -> (Seq<SourceLocation>, Seq<(u32, SourceLocation)>)
    decreases ranges.len() - i,
{
    if i < 0 || i >= ranges.len() {
        (locs, bps)
    } else {
        let rg = ranges[i];
        let lo = spec_lb(bps, rg.begin as u32);
        let hi = spec_lb(bps, rg.end as u32);
        let r = attr_rows(locs, bps, lo, hi, inlined, caller_file, caller_line);
        attr_ranges(r.0, r.1, ranges, i + 1, inlined, caller_file, caller_line)
    }
}

/// Walking the unit's debug entries from position `i` on: subprogram
/// and inlined-subroutine entries have their call-site attributes
/// extracted (resolving the call file through the per-unit cache, with
/// handle 0 standing for "no file" and line 0 for a missing call
/// line) and their PC ranges attributed; every other entry is skipped.
pub open spec fn attr_entries(
    st: Seq<Seq<char>>,
    fi: Seq<File>,
    cache: Map<u32, u32>,
    locs: Seq<SourceLocation>,
    uf: Seq<Option<FileRecord>>,
    bps: Seq<(u32, SourceLocation)>,
    entries: Seq<DieEntry>,
    i: int,
) -> (Seq<Seq<char>>, Seq<File>, Map<u32, u32>, Seq<SourceLocation>, Seq<(u32, SourceLocation)>)
    decreases entries.len() - i,
{
    if i < 0 || i >= entries.len() {
        (st, fi, cache, locs, bps)
    } else {
        let e = entries[i];
        if e.tag is Other {
            attr_entries(st, fi, cache, locs, uf, bps, entries, i + 1)
        } else {
            let ci = spec_caller_info(e.attrs@, 0, None, None);
            let rf = match ci.0 {
                Some(fid) => resolve_file(st, fi, cache, uf, fid),
                None => (st, fi, cache, 0u32),
            };
            let cl = (match ci.1 {
                Some(l) => l,
                None => 0,
            }) as u32;
            let inlined = e.tag is InlinedSubroutine;
            let r = attr_ranges(locs, bps, e.ranges@, 0, inlined, rf.3, cl);
            attr_entries(rf.0, rf.1, rf.2, r.0, uf, r.1, entries, i + 1)
        }
    }
}

/// Merging the unit's breakpoints into the global index, from position
/// `i` on: each breakpoint's source location is interned and the
/// handle inserted at the breakpoint's address only if that address is
/// not already present (first writer wins across units).
pub open spec fn merge_bps(
    locs: Seq<SourceLocation>,
    ranges: Seq<(u32, u32)>,
    bps: Seq<(u32, SourceLocation)>,
    i: int,
) -> (Seq<SourceLocation>, Seq<(u32, u32)>)
    decreases bps.len() - i,
{
    if i < 0 || i >= bps.len() {
        (locs, ranges)
    } else {
        let r = spec_intern(locs, bps[i].1);
        merge_bps(r.0, spec_insert_if_vacant(ranges, bps[i].0, r.1), bps, i + 1)
    }
}

/// Processing one unit: decode its line program, build its breakpoints
/// (resolving files through the freshly cleared per-unit cache), walk
/// its debug entries attributing call sites, and merge the result into
/// the global index. A unit without a line program changes nothing.
/// Returns the string table, file table, source-location table, global
/// index and cache after the unit.
pub open spec fn spec_process_unit(
    st: Seq<Seq<char>>,
    fi: Seq<File>,
    locs: Seq<SourceLocation>,
    ranges: Seq<(u32, u32)>,
    cache0: Map<u32, u32>,
    unit: UnitData,
) -> (Seq<Seq<char>>, Seq<File>, Seq<SourceLocation>, Seq<(u32, u32)>, Map<u32, u32>) {
    if !unit.has_line_program {
        (st, fi, locs, ranges, cache0)
    } else {
        let seqs = spec_parse(unit.rows@);
        let b = bps_from_seqs(st, fi, Map::empty(), unit.files@, seqs, 0, Seq::empty());
        let a = attr_entries(b.0, b.1, b.2, locs, unit.files@, b.3, unit.entries@, 0);
        let m = merge_bps(a.3, ranges, a.4, 0);
        (a.0, a.1, m.0, m.1, a.2)
    }
}

/// Processing every unit in order, from position `i` on, threading the
/// reusable per-unit cache through.
pub open spec fn spec_process_units(
    st: Seq<Seq<char>>,
    fi: Seq<File>,
    locs: Seq<SourceLocation>,
    ranges: Seq<(u32, u32)>,
    cache0: Map<u32, u32>,
    units: Seq<UnitData>,
    i: int,
) -> (Seq<Seq<char>>, Seq<File>, Seq<SourceLocation>, Seq<(u32, u32)>, Map<u32, u32>)
    decreases units.len() - i,
{
    if i < 0 || i >= units.len() {
        (st, fi, locs, ranges, cache0)
    } else {
        let r = spec_process_unit(st, fi, locs, ranges, cache0, units[i]);
        spec_process_units(r.0, r.1, r.2, r.3, r.4, units, i + 1)
    }
}

/// Merging preserves every entry the global index already had: a
/// second claim on an occupied address is discarded, never merged and
/// never an error.
pub proof fn lemma_merge_first_wins(
    locs: Seq<SourceLocation>,
    ranges: Seq<(u32, u32)>,
    bps: Seq<(u32, SourceLocation)>,
    i: int,
)
    requires
        wf_entries(ranges),
    ensures
        wf_entries(merge_bps(locs, ranges, bps, i).1),
        forall|j: int| 0 <= j < ranges.len() ==> merge_bps(locs, ranges, bps, i).1.contains(
            #[trigger] ranges[j],
        ),
    decreases bps.len() - i,
{
    if i < 0 || i >= bps.len() {
        assert forall|j: int| 0 <= j < ranges.len() implies merge_bps(
            locs,
            ranges,
            bps,
            i,
        ).1.contains(#[trigger] ranges[j]) by {
            assert(merge_bps(locs, ranges, bps, i).1[j] == ranges[j]);
        }
    } else {
        let r = spec_intern(locs, bps[i].1);
        let key = bps[i].0;
        let t = spec_insert_if_vacant(ranges, key, r.1);
        lemma_spec_lb_props(ranges, key);
        let p = spec_lb(ranges, key);
        lemma_insert_if_vacant_at(ranges, key, r.1, p);
        crate::addr_map::lemma_insert_if_vacant_wf(ranges, key, r.1);
        lemma_merge_first_wins(r.0, t, bps, i + 1);
        assert forall|j: int| 0 <= j < ranges.len() implies merge_bps(
            locs,
            ranges,
            bps,
            i,
        ).1.contains(#[trigger] ranges[j]) by {
            // the old entry survives the conditional insert, possibly
            // shifted one position to the right
            if p < ranges.len() && ranges[p].0 == key {
                assert(t.contains(ranges[j])) by {
                    assert(t[j] == ranges[j]);
                }
            } else {
                if j < p {
                    assert(t[j] == ranges[j]);
                } else {
                    assert(t[j + 1] == ranges[j]);
                }
            }
            let w = choose|w: int| 0 <= w < t.len() && t[w] == ranges[j];
            assert(merge_bps(r.0, t, bps, i + 1).1.contains(t[w]));
        }
    }
}

impl Converter {
    /// Processes one compilation unit, resolving its file references
    /// through `reusable_cache`, which is cleared at entry: its
    /// storage is reused across units purely for capacity, with no
    /// semantic carry-over. A unit without a line program is skipped
    /// entirely.
    pub fn process_dwarf_cu(
        &mut self,
        reusable_cache: &mut ReusableCaches,
        unit: &UnitData,
    )
        requires
            old(self).wf(),
        ensures
            final(self).wf(),
            ({
                let r = spec_process_unit(
                    old(self).strings_seq(),
                    old(self).files_seq(),
                    old(self).locs_seq(),
                    old(self).ranges_seq(),
                    old(reusable_cache)@,
                    *unit,
                );
                &&& final(self).strings_seq() == r.0
                &&& final(self).files_seq() == r.1
                &&& final(self).locs_seq() == r.2
                &&& final(self).ranges_seq() == r.3
                &&& final(reusable_cache)@ == r.4
            }),
    {
        if !unit.has_line_program {
            return;
        }
        reusable_cache.clear();
        let sequences = parse_line_program(&unit.rows);
        let ghost btgt = bps_from_seqs(
            self.strings_seq(),
            self.files_seq(),
            Map::<u32, u32>::empty(),
            unit.files@,
            spec_parse(unit.rows@),
            0,
            Seq::<(u32, SourceLocation)>::empty(),
        );
        let mut line_program_ranges: AddrMap<SourceLocation> = AddrMap::new();
        proof {
            assert(line_program_ranges@ =~= Seq::<(u32, SourceLocation)>::empty());
        }
        let mut si: usize = 0;
        while si < sequences.len()
            invariant
                si <= sequences@.len(),
                seqs_view(sequences@) == spec_parse(unit.rows@),
                self.wf(),
                bps_from_seqs(
                    self.strings_seq(),
                    self.files_seq(),
                    reusable_cache@,
                    unit.files@,
                    seqs_view(sequences@),
                    si as int,
                    line_program_ranges@,
                ) == btgt,
                wf_entries(line_program_ranges@),
                wf_bp_vals(line_program_ranges@, self.locs_seq().len() as int),
                self.locs_seq() == old(self).locs_seq(),
                self.ranges_seq() == old(self).ranges_seq(),
            decreases sequences@.len() - si,
        {
            let ghost st_s = self.strings_seq();
            let ghost fi_s = self.files_seq();
            let ghost ca_s = reusable_cache@;
            let ghost bp_s = line_program_ranges@;
            let rows = &sequences[si].rows;
            proof {
                assert(seqs_view(sequences@)[si as int] == sequences@[si as int]@);
            }
            let ghost rtgt = bps_from_rows(
                st_s,
                fi_s,
                ca_s,
                unit.files@,
                rows@,
                0,
                bp_s,
            );
            let mut ri: usize = 0;
            while ri < rows.len()
                invariant
                    ri <= rows@.len(),
                    self.wf(),
                    self.locs_seq() == old(self).locs_seq(),
                    self.ranges_seq() == old(self).ranges_seq(),
                    bps_from_rows(
                        self.strings_seq(),
                        self.files_seq(),
                        reusable_cache@,
                        unit.files@,
                        rows@,
                        ri as int,
                        line_program_ranges@,
                    ) == rtgt,
                    wf_entries(line_program_ranges@),
                    wf_bp_vals(line_program_ranges@, self.locs_seq().len() as int),
                decreases rows@.len() - ri,
            {
                let row = rows[ri];
                let file_idx = self.insert_file(reusable_cache, &unit.files, row.file_index as u64);
                let loc = SourceLocation {
                    file_idx,
                    line: row.line,
                    function_idx: None,
                    inlined_into_idx: None,
                };
                proof {
                    lemma_upsert_bp_vals(
                        line_program_ranges@,
                        row.address as u32,
                        loc,
                        self.locs_seq().len() as int,
                    );
                }
                line_program_ranges.upsert(#[verifier::truncate] (row.address as u32), loc);
                ri += 1;
            }
            proof {
                assert(bps_from_seqs(
                    st_s,
                    fi_s,
                    ca_s,
                    unit.files@,
                    seqs_view(sequences@),
                    si as int,
                    bp_s,
                ) == bps_from_seqs(
                    self.strings_seq(),
                    self.files_seq(),
                    reusable_cache@,
                    unit.files@,
                    seqs_view(sequences@),
                    si + 1,
                    line_program_ranges@,
                ));
            }
            si += 1;
        }
        // walk the unit's debug entries
        let ghost atgt = attr_entries(
            self.strings_seq(),
            self.files_seq(),
            reusable_cache@,
            self.locs_seq(),
            unit.files@,
            line_program_ranges@,
            unit.entries@,
            0,
        );
        let ghost pre_walk_ranges = self.ranges_seq();
        let mut ei: usize = 0;
        while ei < unit.entries.len()
            invariant
                ei <= unit.entries@.len(),
                self.wf(),
                self.ranges_seq() == pre_walk_ranges,
                attr_entries(
                    self.strings_seq(),
                    self.files_seq(),
                    reusable_cache@,
                    self.locs_seq(),
                    unit.files@,
                    line_program_ranges@,
                    unit.entries@,
                    ei as int,
                ) == atgt,
                wf_entries(line_program_ranges@),
                wf_bp_vals(line_program_ranges@, self.locs_seq().len() as int),
            decreases unit.entries@.len() - ei,
        {
            let ghost st_e0 = self.strings_seq();
            let ghost fi_e0 = self.files_seq();
            let ghost ca_e0 = reusable_cache@;
            let ghost lo_e0 = self.locs_seq();
            let ghost bp_e0 = line_program_ranges@;
            let entry = &unit.entries[ei];
            let is_other = match entry.tag {
                DieTag::Other => true,
                _ => false,
            };
            if !is_other {
                let caller_info = find_caller_info(&entry.attrs);
                let caller_file = match caller_info.0 {
                    Some(file_id) => self.insert_file(reusable_cache, &unit.files, file_id),
                    None => 0,
                };
                let caller_line = match caller_info.1 {
                    Some(l) => #[verifier::truncate] (l as u32),
                    None => 0,
                };
                let is_inlined = match entry.tag {
                    DieTag::InlinedSubroutine => true,
                    _ => false,
                };
                let ghost st_e = self.strings_seq();
                let ghost fi_e = self.files_seq();
                let ghost ca_e = reusable_cache@;
                let ghost gtgt = attr_ranges(
                    self.locs_seq(),
                    line_program_ranges@,
                    entry.ranges@,
                    0,
                    is_inlined,
                    caller_file,
                    caller_line,
                );
                let mut gi: usize = 0;
                while gi < entry.ranges.len()
                    invariant
                        gi <= entry.ranges@.len(),
                        self.wf(),
                        self.strings_seq() == st_e,
                        self.files_seq() == fi_e,
                        reusable_cache@ == ca_e,
                        self.ranges_seq() == pre_walk_ranges,
                        attr_ranges(
                            self.locs_seq(),
                            line_program_ranges@,
                            entry.ranges@,
                            gi as int,
                            is_inlined,
                            caller_file,
                            caller_line,
                        ) == gtgt,
                        wf_entries(line_program_ranges@),
                        wf_bp_vals(line_program_ranges@, self.locs_seq().len() as int),
                    decreases entry.ranges@.len() - gi,
                {
                    let rg = entry.ranges[gi];
                    let (lo, hi) = line_program_ranges.sub_range(
                        #[verifier::truncate] (rg.begin as u32),
                        #[verifier::truncate] (rg.end as u32),
                    );
                    let ghost ttgt = attr_rows(
                        self.locs_seq(),
                        line_program_ranges@,
                        lo as int,
                        hi as int,
                        is_inlined,
                        caller_file,
                        caller_line,
                    );
                    let ghost fixed_hi = hi as int;
                    let mut i: usize = lo;
                    while i < hi
                        invariant
                            hi as int == fixed_hi,
                            fixed_hi <= line_program_ranges@.len(),
                            self.wf(),
                            self.strings_seq() == st_e,
                            self.files_seq() == fi_e,
                            reusable_cache@ == ca_e,
                            self.ranges_seq() == pre_walk_ranges,
                            attr_rows(
                                self.locs_seq(),
                                line_program_ranges@,
                                i as int,
                                fixed_hi,
                                is_inlined,
                                caller_file,
                                caller_line,
                            ) == ttgt,
                            wf_entries(line_program_ranges@),
                            wf_bp_vals(line_program_ranges@, self.locs_seq().len() as int),
                        decreases fixed_hi - i,
                    {
                        let callee = *line_program_ranges.value_at(i);
                        let ghost pre_locs = self.locs_seq();
                        let ghost pre_bps = line_program_ranges@;
                        if is_inlined {
                            let caller = SourceLocation {
                                file_idx: caller_file,
                                line: caller_line,
                                function_idx: callee.function_idx,
                                inlined_into_idx: callee.inlined_into_idx,
                            };
                            proof {
                                lemma_intern_index_props(self.locs_seq(), caller);
                            }
                            let h = self.insert_source_location(caller);
                            proof {
                                assert((h as int) < self.locs_seq().len() || h == u32::MAX);
                            }
                            let new_callee = SourceLocation {
                                file_idx: callee.file_idx,
                                line: callee.line,
                                function_idx: None,
                                inlined_into_idx: Some(h),
                            };
                            line_program_ranges.set_value_at(i, new_callee);
                            proof {
                                assert(wf_entries(line_program_ranges@)) by {
                                    assert(forall|p: int| 0 <= p < pre_bps.len()
                                        ==> (#[trigger] line_program_ranges@[p]).0 == pre_bps[p].0);
                                }
                                assert(pre_locs.len() <= self.locs_seq().len());
                                assert(wf_bp_vals(
                                    line_program_ranges@,
                                    self.locs_seq().len() as int,
                                )) by {
                                    assert(forall|p: int| 0 <= p < pre_bps.len() && p != i
                                        ==> #[trigger] line_program_ranges@[p] == pre_bps[p]);
                                }
                            }
                        } else {
                            let new_callee = SourceLocation {
                                file_idx: callee.file_idx,
                                line: callee.line,
                                function_idx: None,
                                inlined_into_idx: callee.inlined_into_idx,
                            };
                            line_program_ranges.set_value_at(i, new_callee);
                            proof {
                                assert(wf_entries(line_program_ranges@)) by {
                                    assert(forall|p: int| 0 <= p < pre_bps.len()
                                        ==> (#[trigger] line_program_ranges@[p]).0 == pre_bps[p].0);
                                }
                                assert(wf_bp_vals(
                                    line_program_ranges@,
                                    self.locs_seq().len() as int,
                                )) by {
                                    assert(forall|p: int| 0 <= p < pre_bps.len() && p != i
                                        ==> #[trigger] line_program_ranges@[p] == pre_bps[p]);
                                }
                            }
                        }
                        i += 1;
                    }
                    gi += 1;
                }
                proof {
                    assert(attr_entries(
                        st_e0,
                        fi_e0,
                        ca_e0,
                        lo_e0,
                        unit.files@,
                        bp_e0,
                        unit.entries@,
                        ei as int,
                    ) == attr_entries(
                        self.strings_seq(),
                        self.files_seq(),
                        reusable_cache@,
                        self.locs_seq(),
                        unit.files@,
                        line_program_ranges@,
                        unit.entries@,
                        ei + 1,
                    ));
                }
            }
            ei += 1;
        }
        // merge into the global index
        let ghost fin_st = self.strings_seq();
        let ghost fin_fi = self.files_seq();
        let ghost fin_ca = reusable_cache@;
        let ghost mtgt = merge_bps(self.locs_seq(), self.ranges_seq(), line_program_ranges@, 0);
        let mut mi: usize = 0;
        while mi < line_program_ranges.len()
            invariant
                mi <= line_program_ranges@.len(),
                self.wf(),
                self.strings_seq() == fin_st,
                self.files_seq() == fin_fi,
                reusable_cache@ == fin_ca,
                merge_bps(self.locs_seq(), self.ranges_seq(), line_program_ranges@, mi as int)
                    == mtgt,
                wf_bp_vals(line_program_ranges@, self.locs_seq().len() as int),
            decreases line_program_ranges@.len() - mi,
        {
            let addr = line_program_ranges.key_at(mi);
            let loc = *line_program_ranges.value_at(mi);
            proof {
                lemma_intern_index_props(self.locs_seq(), loc);
            }
            let source_location_idx = self.insert_source_location(loc);
            proof {
                assert((source_location_idx as int) < self.locs_seq().len()
                    || source_location_idx == u32::MAX);
                lemma_insert_if_vacant_range_vals(
                    self.ranges_seq(),
                    addr,
                    source_location_idx,
                    self.locs_seq().len() as int,
                );
            }
            self.ranges.insert_if_vacant(addr, source_location_idx);
            mi += 1;
        }
    }

    /// Iterates over every compilation unit, processing each in order
    /// with one reusable per-unit cache.
    pub fn process_dwarf(&mut self, units: &Vec<UnitData>)
        requires
            old(self).wf(),
        ensures
            final(self).wf(),
            ({
                let r = spec_process_units(
                    old(self).strings_seq(),
                    old(self).files_seq(),
                    old(self).locs_seq(),
                    old(self).ranges_seq(),
                    Map::<u32, u32>::empty(),
                    units@,
                    0,
                );
                &&& final(self).strings_seq() == r.0
                &&& final(self).files_seq() == r.1
                &&& final(self).locs_seq() == r.2
                &&& final(self).ranges_seq() == r.3
            }),
    {
        let mut reusable_cache = ReusableCaches::default();
        let mut i: usize = 0;
        while i < units.len()
            invariant
                i <= units@.len(),
                self.wf(),
                spec_process_units(
                    self.strings_seq(),
                    self.files_seq(),
                    self.locs_seq(),
                    self.ranges_seq(),
                    reusable_cache@,
                    units@,
                    i as int,
                ) == spec_process_units(
                    old(self).strings_seq(),
                    old(self).files_seq(),
                    old(self).locs_seq(),
                    old(self).ranges_seq(),
                    Map::<u32, u32>::empty(),
                    units@,
                    0,
                ),
            decreases units@.len() - i,
        {
            self.process_dwarf_cu(&mut reusable_cache, &units[i]);
            i += 1;
        }
    }
}

/// The inline-frame chain starting at handle `i`: the location itself,
/// then the locations reached by following `inlined_into_idx` links,
/// innermost first. A link that does not point strictly backwards (in
/// particular the unresolved sentinel, which is never a live handle)
/// ends the chain.
pub open spec fn spec_chain(locs: Seq<SourceLocation>, i: int) -> Seq<SourceLocation>
    decreases i,
{
    if 0 <= i < locs.len() {
        let l = locs[i];
        match l.inlined_into_idx {
            None => seq![l],
            Some(j) => if (j as int) < i {
                seq![l] + spec_chain(locs, j as int)
            } else {
                seq![l]
            },
        }
    } else {
        Seq::empty()
    }
}

/// The frames yielded for an address: none when the address lies below
/// every breakpoint, otherwise the chain of the location mapped at the
/// greatest breakpoint not past the address.
pub open spec fn spec_lookup(
    ranges: Seq<(u32, u32)>,
    locs: Seq<SourceLocation>,
    addr: u32,
) -> Seq<SourceLocation> {
    let fi = crate::addr_map::spec_floor_idx(ranges, addr);
    if fi >= 0 {
        spec_chain(locs, ranges[fi].1 as int)
    } else {
        Seq::empty()
    }
}

/// Chain termination: for any location in a well-formed table,
/// following `inlined_into_idx` yields a finite chain of at most
/// `i + 1` frames, beginning with the location itself and ending at a
/// location with no further live link.
pub proof fn lemma_chain_terminates(locs: Seq<SourceLocation>, i: int)
    requires
        wf_locs(locs),
        locs.len() <= u32::MAX as int,
        0 <= i < locs.len(),
    ensures
        1 <= spec_chain(locs, i).len() <= i + 1,
        spec_chain(locs, i)[0] == locs[i],
        match spec_chain(locs, i).last().inlined_into_idx {
            Some(j) => (j as int) >= locs.len(),
            None => true,
        },
    decreases i,
{
    let l = locs[i];
    match l.inlined_into_idx {
        None => {},
        Some(j) => {
            if (j as int) < i {
                lemma_chain_terminates(locs, j as int);
            } else {
                // wf_locs only allows a non-backward link to be the
                // sentinel, which lies at or past the table's end
                assert(j == u32::MAX);
            }
        },
    }
}

/// Every lookup yields finitely many frames: no more than the table
/// holds, and the walk ends at a frame with no further live link.
pub proof fn lemma_lookup_terminates(c: Converter, addr: u32)
    requires
        c.wf(),
    ensures
        ({
            let r = spec_lookup(c.ranges_seq(), c.locs_seq(), addr);
            &&& r.len() <= c.locs_seq().len()
            &&& r.len() > 0 ==> match r.last().inlined_into_idx {
                Some(j) => (j as int) >= c.locs_seq().len(),
                None => true,
            }
        }),
{
    let fi = crate::addr_map::spec_floor_idx(c.ranges_seq(), addr);
    crate::addr_map::lemma_spec_floor_idx_props(c.ranges_seq(), addr);
    if fi >= 0 {
        let h = c.ranges_seq()[fi].1;
        if (h as int) < c.locs_seq().len() {
            lemma_chain_terminates(c.locs_seq(), h as int);
        }
        // otherwise the handle is the sentinel and the chain is empty
    }
}

impl Converter {
    /// Returns the chain of source locations attributed to `addr`,
    /// innermost (post-inlining) frame first, outermost frame last; an
    /// address below every breakpoint yields no frames.
    pub fn lookup(&self, addr: u32) -> (r: Vec<SourceLocation>)
        requires
            self.wf(),
        ensures
            r@ == spec_lookup(self.ranges_seq(), self.locs_seq(), addr),
    {
        let ghost target = spec_lookup(self.ranges_seq(), self.locs_seq(), addr);
        let mut out: Vec<SourceLocation> = Vec::new();
        let start = match self.ranges.floor(addr) {
            None => {
                proof {
                    assert(out@ =~= target);
                }
                return out;
            },
            Some(v) => *v,
        };
        let mut cur: usize = start as usize;
        proof {
            assert(out@ + spec_chain(self.locs_seq(), cur as int) =~= target);
        }
        while cur < self.source_locations.len()
            invariant
                self.wf(),
                target == spec_lookup(self.ranges_seq(), self.locs_seq(), addr),
                out@ + spec_chain(self.locs_seq(), cur as int) == target,
            decreases cur,
        {
            let l = self.source_locations[cur];
            let ghost pre_out = out@;
            proof {
                assert(self.locs_seq()[cur as int] == l);
            }
            out.push(l);
            match l.inlined_into_idx {
                None => {
                    proof {
                        assert(spec_chain(self.locs_seq(), cur as int) == seq![l]);
                        assert(out@ =~= pre_out + seq![l]);
                        assert(out@ =~= target);
                    }
                    return out;
                },
                Some(j) => {
                    if (j as usize) < cur {
                        proof {
                            assert(spec_chain(self.locs_seq(), cur as int) == seq![l]
                                + spec_chain(self.locs_seq(), j as int));
                            assert(out@ =~= pre_out + seq![l]);
                            assert(out@ + spec_chain(self.locs_seq(), j as int) =~= target);
                        }
                        cur = j as usize;
                    } else {
                        proof {
                            assert(spec_chain(self.locs_seq(), cur as int) == seq![l]);
                            assert(out@ =~= pre_out + seq![l]);
                            assert(out@ =~= target);
                        }
                        return out;
                    }
                },
            }
        }
        proof {
            assert(out@ =~= target);
        }
        out
    }
}

} // verus!
