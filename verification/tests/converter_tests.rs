use dwarf_stats::addr_map::AddrMap;
use dwarf_stats::converter::{
    Converter, DieAttr, DieEntry, DieRange, DieTag, FileRecord, ReusableCaches, SourceLocation,
    UnitData, DW_AT_CALL_FILE, DW_AT_CALL_LINE,
};
use dwarf_stats::line_program::{parse_line_program, RawLineRow};

fn row(address: u64, file_index: u64, line: u64) -> RawLineRow {
    RawLineRow { end_sequence: false, address, file_index, line: Some(line) }
}

fn end_row(address: u64) -> RawLineRow {
    RawLineRow { end_sequence: true, address, file_index: 0, line: None }
}

fn file_record(directory: Option<&str>, path_name: &str) -> Option<FileRecord> {
    Some(FileRecord {
        directory: directory.map(|d| d.to_string()),
        path_name: path_name.to_string(),
    })
}

fn unit(files: Vec<Option<FileRecord>>, rows: Vec<RawLineRow>, entries: Vec<DieEntry>) -> UnitData {
    UnitData { has_line_program: true, files, rows, entries }
}

#[test]
fn decoder_collapse_same_address() {
    // two consecutive rows at one address with different (file, line):
    // one row remains, carrying the second row's values
    let rows = vec![row(0x10, 1, 1), row(0x10, 1, 2), end_row(0x20)];
    let seqs = parse_line_program(&rows);
    assert_eq!(seqs.len(), 1);
    assert_eq!(seqs[0].rows.len(), 1);
    assert_eq!(seqs[0].rows[0].address, 0x10);
    assert_eq!(seqs[0].rows[0].file_index, 1);
    assert_eq!(seqs[0].rows[0].line, 2);
    assert_eq!(seqs[0].start, 0x10);
    assert_eq!(seqs[0].end, 0x20);
}

#[test]
fn decoder_dedup_same_mapping() {
    // two consecutive rows at different addresses with an identical
    // (file, line) pair: only the first row remains
    let rows = vec![row(0x10, 1, 7), row(0x18, 1, 7), end_row(0x20)];
    let seqs = parse_line_program(&rows);
    assert_eq!(seqs.len(), 1);
    assert_eq!(seqs[0].rows.len(), 1);
    assert_eq!(seqs[0].rows[0].address, 0x10);
    assert_eq!(seqs[0].rows[0].line, 7);
}

#[test]
fn decoder_sequences_sorted_by_start() {
    // the later-scanned sequence starts earlier; the output comes out
    // ordered by start anyway
    let rows = vec![
        row(0x30, 1, 3),
        end_row(0x40),
        row(0x10, 1, 1),
        end_row(0x20),
        row(0x20, 1, 2),
        end_row(0x28),
    ];
    let seqs = parse_line_program(&rows);
    assert_eq!(seqs.len(), 3);
    assert_eq!(seqs[0].start, 0x10);
    assert_eq!(seqs[1].start, 0x20);
    assert_eq!(seqs[2].start, 0x30);
}

#[test]
fn decoder_empty_sequence_dropped() {
    // an end marker with no accumulated rows produces no sequence,
    // and rows left open at the end of the program are discarded
    let rows = vec![end_row(0x20), row(0x30, 1, 3)];
    let seqs = parse_line_program(&rows);
    assert_eq!(seqs.len(), 0);
}

#[test]
fn range_split_boundary_rule() {
    let mut m: AddrMap<u32> = AddrMap::new();
    m.upsert(10, 100);
    m.upsert(20, 200);
    m.upsert(30, 300);
    // keys {10, 20, 30}, query [12, 25): 10 lies below the lower
    // bound, 20 is covered, 30 starts past the first key >= 25
    let (lo, hi) = m.sub_range(12, 25);
    assert_eq!((lo, hi), (1, 2));
    assert_eq!(m.key_at(lo), 20);
    // `end` equal to an existing key: that key is excluded
    let (lo, hi) = m.sub_range(12, 30);
    assert_eq!((lo, hi), (1, 2));
    // no key >= `end`: the slice extends to the last entry
    let (lo, hi) = m.sub_range(12, 100);
    assert_eq!((lo, hi), (1, 3));
    assert_eq!(m.key_at(2), 30);
    // an empty query range selects nothing
    let (lo, hi) = m.sub_range(11, 10);
    assert!(lo >= hi);
}

#[test]
fn addr_map_upsert_and_floor() {
    let mut m: AddrMap<u32> = AddrMap::new();
    m.upsert(20, 1);
    m.upsert(10, 2);
    m.upsert(20, 3);
    assert_eq!(m.len(), 2);
    assert_eq!(m.key_at(0), 10);
    assert_eq!(m.key_at(1), 20);
    assert_eq!(*m.value_at(1), 3);
    assert_eq!(m.floor(9), None);
    assert_eq!(m.floor(10), Some(&2));
    assert_eq!(m.floor(19), Some(&2));
    assert_eq!(m.floor(500), Some(&3));
    m.insert_if_vacant(10, 9);
    assert_eq!(*m.value_at(0), 2);
    m.insert_if_vacant(15, 9);
    assert_eq!(m.len(), 3);
    assert_eq!(m.floor(16), Some(&9));
}

#[test]
fn interning_idempotence() {
    let mut c = Converter::new();
    let loc = SourceLocation {
        file_idx: 1,
        line: 10,
        function_idx: None,
        inlined_into_idx: None,
    };
    let h1 = c.insert_source_location(loc);
    let h2 = c.insert_source_location(loc);
    assert_eq!(h1, h2);
    assert_eq!(c.source_location_count(), 1);
    let other = SourceLocation { line: 11, ..loc };
    let h3 = c.insert_source_location(other);
    assert_ne!(h1, h3);
    assert_eq!(c.source_location_count(), 2);

    let s1 = c.insert_string("hello".to_string());
    let s2 = c.insert_string("hello".to_string());
    assert_eq!(s1, s2);
    assert_eq!(c.string_count(), 1);

    let f = dwarf_stats::converter::File { directory_idx: Some(s1), path_name_idx: s1 };
    let f1 = c.insert_file_record(f);
    let f2 = c.insert_file_record(f);
    assert_eq!(f1, f2);
    assert_eq!(c.file_count(), 1);
}

fn subprogram(begin: u64, end: u64) -> DieEntry {
    DieEntry {
        tag: DieTag::Subprogram,
        attrs: vec![],
        ranges: vec![DieRange { begin, end }],
    }
}

fn inlined(call_file: u64, call_line: u64, begin: u64, end: u64) -> DieEntry {
    DieEntry {
        tag: DieTag::InlinedSubroutine,
        attrs: vec![
            DieAttr { name: DW_AT_CALL_FILE, udata: Some(call_file) },
            DieAttr { name: DW_AT_CALL_LINE, udata: Some(call_line) },
        ],
        ranges: vec![DieRange { begin, end }],
    }
}

#[test]
fn end_to_end_inline_chain() {
    // one function over [0x1000, 0x1020) whose line table has rows at
    // 0x1000 (line 10) and 0x1010 (line 20); a callee is inlined over
    // the sub-interval [0x1010, 0x1020), called from line 15
    let u = unit(
        vec![None, file_record(Some("src"), "main.c")],
        vec![row(0x1000, 1, 10), row(0x1010, 1, 20), end_row(0x1020)],
        vec![subprogram(0x1000, 0x1020), inlined(1, 15, 0x1010, 0x1020)],
    );
    let mut c = Converter::new();
    c.process_dwarf(&vec![u]);

    // inside the inlined range: two frames, callee first, call site second
    let frames = c.lookup(0x1015);
    assert_eq!(frames.len(), 2);
    assert_eq!(frames[0].line, 20);
    assert_eq!(frames[1].line, 15);
    assert_eq!(frames[0].file_idx, frames[1].file_idx);
    let file = c.file_at(frames[0].file_idx).unwrap();
    let path = c.string_at(file.path_name_idx).unwrap();
    assert_eq!(path.as_str(), "main.c");
    let dir = c.string_at(file.directory_idx.unwrap()).unwrap();
    assert_eq!(dir.as_str(), "src");

    // outside any inlined range: exactly one frame
    let frames = c.lookup(0x1005);
    assert_eq!(frames.len(), 1);
    assert_eq!(frames[0].line, 10);
    assert_eq!(frames[0].inlined_into_idx, None);

    // below every breakpoint: no frames
    assert_eq!(c.lookup(0x0fff).len(), 0);
}

#[test]
fn merge_collision_first_unit_wins() {
    // two units claim address 0x2000 with different lines: the first
    // unit's location stays, the second is discarded silently
    let u1 = unit(
        vec![None, file_record(None, "one.c")],
        vec![row(0x2000, 1, 11), end_row(0x2010)],
        vec![],
    );
    let u2 = unit(
        vec![None, file_record(None, "two.c")],
        vec![row(0x2000, 1, 22), end_row(0x2010)],
        vec![],
    );
    let mut c = Converter::new();
    c.process_dwarf(&vec![u1, u2]);
    let frames = c.lookup(0x2000);
    assert_eq!(frames.len(), 1);
    assert_eq!(frames[0].line, 11);
    let file = c.file_at(frames[0].file_idx).unwrap();
    let path = c.string_at(file.path_name_idx).unwrap();
    assert_eq!(path.as_str(), "one.c");
}

#[test]
fn unit_without_line_program_skipped() {
    let u = UnitData {
        has_line_program: false,
        files: vec![file_record(None, "skipped.c")],
        rows: vec![row(0x3000, 0, 1), end_row(0x3010)],
        entries: vec![subprogram(0x3000, 0x3010)],
    };
    let mut c = Converter::new();
    c.process_dwarf(&vec![u]);
    assert_eq!(c.string_count(), 0);
    assert_eq!(c.file_count(), 0);
    assert_eq!(c.source_location_count(), 0);
    assert_eq!(c.lookup(0x3000).len(), 0);
}

#[test]
fn missing_file_entry_resolves_to_sentinel() {
    // file index 5 has no entry in the unit's file table
    let u = unit(
        vec![None, file_record(None, "real.c")],
        vec![row(0x4000, 5, 1), end_row(0x4010)],
        vec![],
    );
    let mut c = Converter::new();
    c.process_dwarf(&vec![u]);
    let frames = c.lookup(0x4000);
    assert_eq!(frames.len(), 1);
    assert_eq!(frames[0].file_idx, u32::MAX);
    assert!(c.file_at(frames[0].file_idx).is_none());
}

#[test]
fn files_deduplicated_across_units() {
    let u1 = unit(
        vec![None, file_record(Some("src"), "shared.c")],
        vec![row(0x5000, 1, 1), end_row(0x5010)],
        vec![],
    );
    let u2 = unit(
        vec![None, file_record(Some("src"), "shared.c")],
        vec![row(0x6000, 1, 2), end_row(0x6010)],
        vec![],
    );
    let mut c = Converter::new();
    c.process_dwarf(&vec![u1, u2]);
    assert_eq!(c.file_count(), 1);
    assert_eq!(c.string_count(), 2);
    let a = c.lookup(0x5000);
    let b = c.lookup(0x6000);
    assert_eq!(a[0].file_idx, b[0].file_idx);
}

#[test]
fn nested_inlining_builds_longer_chain() {
    // an outer call at line 5 inlines a routine whose body inlines
    // another over the same addresses: three frames come back,
    // innermost first
    let u = unit(
        vec![None, file_record(None, "deep.c")],
        vec![row(0x7000, 1, 100), end_row(0x7020)],
        vec![
            subprogram(0x7000, 0x7020),
            inlined(1, 5, 0x7000, 0x7020),
            inlined(1, 50, 0x7000, 0x7020),
        ],
    );
    let mut c = Converter::new();
    c.process_dwarf(&vec![u]);
    let frames = c.lookup(0x7010);
    assert_eq!(frames.len(), 3);
    assert_eq!(frames[0].line, 100);
    assert_eq!(frames[1].line, 50);
    assert_eq!(frames[2].line, 5);
    assert_eq!(frames[2].inlined_into_idx, None);
}

#[test]
fn caller_without_call_file_uses_handle_zero() {
    // an inlined subroutine with no call-file attribute: the caller
    // frame carries file handle 0 and line 0
    let entry = DieEntry {
        tag: DieTag::InlinedSubroutine,
        attrs: vec![],
        ranges: vec![DieRange { begin: 0x8000, end: 0x8010 }],
    };
    let u = unit(
        vec![None, file_record(None, "zero.c")],
        vec![row(0x8000, 1, 1), end_row(0x8010)],
        vec![entry],
    );
    let mut c = Converter::new();
    c.process_dwarf(&vec![u]);
    let frames = c.lookup(0x8005);
    assert_eq!(frames.len(), 2);
    assert_eq!(frames[1].file_idx, 0);
    assert_eq!(frames[1].line, 0);
}

#[test]
fn reusable_cache_clear_is_empty() {
    let mut cache = ReusableCaches::default();
    cache.clear();
    let mut c = Converter::new();
    let u = unit(
        vec![None, file_record(None, "cu.c")],
        vec![row(0x9000, 1, 1), end_row(0x9010)],
        vec![],
    );
    c.process_dwarf_cu(&mut cache, &u);
    assert_eq!(c.lookup(0x9000).len(), 1);
}

#[test]
fn insert_file_memoizes_within_unit() {
    let mut cache = ReusableCaches::new();
    let mut c = Converter::new();
    let files = vec![None, file_record(Some("d"), "f.c")];
    let h1 = c.insert_file(&mut cache, &files, 1);
    let h2 = c.insert_file(&mut cache, &files, 1);
    assert_eq!(h1, h2);
    assert_eq!(c.file_count(), 1);
    // an index past the table resolves to the sentinel
    assert_eq!(c.insert_file(&mut cache, &files, 7), u32::MAX);
    // index 0 has a vacant entry: also the sentinel
    assert_eq!(c.insert_file(&mut cache, &files, 0), u32::MAX);
}
