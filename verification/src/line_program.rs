use vstd::prelude::*;

verus! {

/// One state-machine row of a unit's line-number program, as emitted
/// by the debug-info reader: either a normal row describing the file
/// and line active at an address, or an end-of-sequence marker.
#[derive(Debug, Clone, Copy)]
pub struct RawLineRow {
    /// True for an end-of-sequence marker; its `address` is the end of
    /// the sequence and its other fields carry no meaning.
    pub end_sequence: bool,
    pub address: u64,
    /// Index into the unit's file table.
    pub file_index: u64,
    /// Source line, absent when the row carries no line information.
    pub line: Option<u64>,
}

/// A collapsed row: the file and line that become active at `address`.
#[derive(Debug, Clone, Copy, PartialEq, Eq, Structural)]
pub struct LineProgramRow {
    pub address: u64,
    pub file_index: u32,
    pub line: u32,
}

/// A run of consecutive rows between two end-of-sequence markers,
/// covering addresses `[start, end)`.
#[derive(Debug)]
pub struct LineSequence {
    pub start: u64,
    pub end: u64,
    pub rows: Vec<LineProgramRow>,
}

/// The mathematical value of a `LineSequence`.
pub struct LineSequenceV {
    pub start: u64,
    pub end: u64,
    pub rows: Seq<LineProgramRow>,
}

impl View for LineSequence {
    type V = LineSequenceV;

    open spec fn view(&self) -> LineSequenceV {
        LineSequenceV { start: self.start, end: self.end, rows: self.rows@ }
    }
}

/// The values of a list of sequences.
pub open spec fn seqs_view(v: Seq<LineSequence>) -> Seq<LineSequenceV> {
    v.map_values(|s: LineSequence| s@)
}

/// The collapsed row a raw row turns into: the file index is truncated
/// to the table width and a missing line becomes 0.
pub open spec fn spec_row(r: RawLineRow) -> LineProgramRow {
    LineProgramRow {
        address: r.address,
        file_index: r.file_index as u32,
        line: (match r.line {
            Some(l) => l,
            None => 0,
        }) as u32,
    }
}

/// Accumulating one normal row: a row at the address of the previous
/// accumulated row overwrites that row's file and line (the later row
/// wins); a row repeating the previous row's file and line is dropped
/// as redundant; any other row is appended.
pub open spec fn spec_step_row(acc: Seq<LineProgramRow>, r: RawLineRow) -> Seq<LineProgramRow> {
    let row = spec_row(r);
    if acc.len() > 0 && acc.last().address == row.address {
        acc.update(acc.len() - 1, row)
    } else if acc.len() > 0 && acc.last().file_index == row.file_index && acc.last().line
        == row.line {
        acc
    } else {
        acc.push(row)
    }
}

/// Inserts a closed sequence into a list sorted by `start`, after all
/// sequences whose `start` does not exceed the new one.
pub open spec fn spec_insort(seqs: Seq<LineSequenceV>, m: LineSequenceV) -> Seq<LineSequenceV>
    decreases seqs.len(),
{
    if seqs.len() == 0 {
        seq![m]
    } else if seqs.last().start > m.start {
        spec_insort(seqs.drop_last(), m).push(seqs.last())
    } else {
        seqs.push(m)
    }
}

/// The whole decode, scanning rows from position `i` with the already
/// closed sequences `seqs` and the accumulated rows `acc` of the open
/// sequence. An end marker closes the open sequence (using its first
/// row's address as `start` and the marker's address as `end`) unless
/// no rows were accumulated; rows left open at the end of the program
/// are discarded.
pub open spec fn spec_decode(
    rows: Seq<RawLineRow>,
    i: int,
    seqs: Seq<LineSequenceV>,
    acc: Seq<LineProgramRow>,
) -> Seq<LineSequenceV>
    decreases rows.len() - i,
{
    if i < 0 || i >= rows.len() {
        seqs
    } else {
        let r = rows[i];
        if r.end_sequence {
            if acc.len() > 0 {
                spec_decode(
                    rows,
                    i + 1,
                    spec_insort(seqs, LineSequenceV { start: acc[0].address, end: r.address, rows: acc }),
                    Seq::empty(),
                )
            } else {
                spec_decode(rows, i + 1, seqs, acc)
            }
        } else {
            spec_decode(rows, i + 1, seqs, spec_step_row(acc, r))
        }
    }
}

/// The ordered sequences decoded from a line program.
pub open spec fn spec_parse(rows: Seq<RawLineRow>) -> Seq<LineSequenceV> {
    spec_decode(rows, 0, Seq::empty(), Seq::empty())
}

/// Sequences ordered by their `start` address.
pub open spec fn sorted_by_start(seqs: Seq<LineSequenceV>) -> bool {
    forall|i: int, j: int| 0 <= i < j < seqs.len() ==> seqs[i].start <= seqs[j].start
}

/// Two consecutive rows at the same address collapse into one row
/// carrying the second row's file and line.
pub proof fn lemma_decoder_collapse(acc: Seq<LineProgramRow>, r: RawLineRow)
    requires
        !r.end_sequence,
        acc.len() > 0,
        acc.last().address == spec_row(r).address,
    ensures
        spec_step_row(acc, r) == acc.update(acc.len() - 1, spec_row(r)),
        spec_step_row(acc, r).len() == acc.len(),
        spec_step_row(acc, r).last() == spec_row(r),
{
}

/// A row at a new address that repeats the previous row's file and
/// line is dropped: only the first of the two rows remains.
pub proof fn lemma_decoder_dedup(acc: Seq<LineProgramRow>, r: RawLineRow)
    requires
        !r.end_sequence,
        acc.len() > 0,
        acc.last().address != spec_row(r).address,
        acc.last().file_index == spec_row(r).file_index,
        acc.last().line == spec_row(r).line,
    ensures
        spec_step_row(acc, r) == acc,
{
}

/// Insertion keeps the list sorted, grows it by the new sequence, and
/// adds nothing else.
pub proof fn lemma_insort_sorted(seqs: Seq<LineSequenceV>, m: LineSequenceV)
    requires
        sorted_by_start(seqs),
    ensures
        sorted_by_start(spec_insort(seqs, m)),
        spec_insort(seqs, m).len() == seqs.len() + 1,
        forall|k: int| 0 <= k < spec_insort(seqs, m).len() ==>
            (#[trigger] spec_insort(seqs, m)[k] == m || seqs.contains(spec_insort(seqs, m)[k])),
    decreases seqs.len(),
{
    if seqs.len() == 0 {
    } else if seqs.last().start > m.start {
        let d = seqs.drop_last();
        assert(sorted_by_start(d));
        lemma_insort_sorted(d, m);
        let t = spec_insort(d, m).push(seqs.last());
        assert forall|i: int, j: int| 0 <= i < j < t.len() implies t[i].start <= t[j].start by {
            if j < t.len() - 1 {
                assert(t[i] == spec_insort(d, m)[i] && t[j] == spec_insort(d, m)[j]);
            } else {
                // every element of the recursive insert is m or from d,
                // and both start no later than the removed last element
                assert(t[i] == m || d.contains(t[i]));
            }
        }
        assert forall|k: int| 0 <= k < t.len() implies (#[trigger] t[k] == m || seqs.contains(
            t[k],
        )) by {
            if k < t.len() - 1 {
                assert(t[k] == spec_insort(d, m)[k]);
                if t[k] != m {
                    let l = choose|l: int| 0 <= l < d.len() && d[l] == t[k];
                    assert(seqs[l] == t[k]);
                }
            } else {
                assert(seqs[seqs.len() - 1] == t[k]);
            }
        }
    } else {
        let t = seqs.push(m);
        assert forall|k: int| 0 <= k < t.len() implies (#[trigger] t[k] == m || seqs.contains(
            t[k],
        )) by {
            if k < seqs.len() {
                assert(seqs[k] == t[k]);
            }
        }
    }
}

/// The decode keeps its list of closed sequences sorted by `start`.
pub proof fn lemma_decode_sorted(
    rows: Seq<RawLineRow>,
    i: int,
    seqs: Seq<LineSequenceV>,
    acc: Seq<LineProgramRow>,
)
    requires
        sorted_by_start(seqs),
    ensures
        sorted_by_start(spec_decode(rows, i, seqs, acc)),
    decreases rows.len() - i,
{
    if i < 0 || i >= rows.len() {
    } else {
        let r = rows[i];
        if r.end_sequence {
            if acc.len() > 0 {
                let m = LineSequenceV { start: acc[0].address, end: r.address, rows: acc };
                lemma_insort_sorted(seqs, m);
                lemma_decode_sorted(rows, i + 1, spec_insort(seqs, m), Seq::empty());
            } else {
                lemma_decode_sorted(rows, i + 1, seqs, acc);
            }
        } else {
            lemma_decode_sorted(rows, i + 1, seqs, spec_step_row(acc, r));
        }
    }
}

/// Decoded sequences are always sorted by `start`, regardless of the
/// order of the input rows.
pub proof fn lemma_sequences_sorted(rows: Seq<RawLineRow>)
    ensures
        sorted_by_start(spec_parse(rows)),
{
    lemma_decode_sorted(rows, 0, Seq::empty(), Seq::empty());
}

/// Places a closed sequence into `v`, keeping `v` sorted by `start`.
fn insort_exec(v: &mut Vec<LineSequence>, m: LineSequence)
    ensures
        seqs_view(final(v)@) == spec_insort(seqs_view(old(v)@), m@),
{
    let mut p = v.len();
    while p > 0 && v[p - 1].start > m.start
        invariant
            p <= v@.len(),
            forall|j: int| p <= j < v@.len() ==> v@[j].start > m@.start,
        decreases p,
    {
        p -= 1;
    }
    proof {
        lemma_insort_at(seqs_view(v@), m@, p as int);
    }
    v.insert(p, m);
    proof {
        assert(seqs_view(final(v)@) =~= seqs_view(old(v)@).insert(p as int, m@));
    }
}

/// Positional form of `spec_insort`: inserting at the first position
/// after which every sequence starts strictly later.
proof fn lemma_insort_at(s: Seq<LineSequenceV>, m: LineSequenceV, p: int)
    requires
        0 <= p <= s.len(),
        forall|j: int| p <= j < s.len() ==> s[j].start > m.start,
        p > 0 ==> s[p - 1].start <= m.start,
    ensures
        spec_insort(s, m) == s.insert(p, m),
    decreases s.len(),
{
    if s.len() == 0 {
        assert(spec_insort(s, m) =~= s.insert(0, m));
    } else if s.last().start > m.start {
        assert(p < s.len());
        let d = s.drop_last();
        lemma_insort_at(d, m, p);
        assert(spec_insort(s, m) =~= s.insert(p, m));
    } else {
        assert(p == s.len());
        assert(spec_insort(s, m) =~= s.insert(p, m));
    }
}

/// Decodes a line-number program into ordered sequences of collapsed
/// rows: rows at one address collapse to the latest row, consecutive
/// rows repeating a (file, line) pair collapse to the first, and the
/// resulting sequences come out sorted by `start`.
pub fn parse_line_program(rows: &Vec<RawLineRow>) -> (r: Vec<LineSequence>)
    ensures
        seqs_view(r@) == spec_parse(rows@),
        sorted_by_start(seqs_view(r@)),
{
    let mut sequences: Vec<LineSequence> = Vec::new();
    let mut sequence_rows: Vec<LineProgramRow> = Vec::new();
    let mut i: usize = 0;
    proof {
        assert(seqs_view(sequences@) =~= Seq::<LineSequenceV>::empty());
        assert(sequence_rows@ =~= Seq::<LineProgramRow>::empty());
    }
    while i < rows.len()
        invariant
            i <= rows@.len(),
            spec_decode(rows@, i as int, seqs_view(sequences@), sequence_rows@) == spec_parse(
                rows@,
            ),
        decreases rows@.len() - i,
    {
        let ghost prev_seqs = seqs_view(sequences@);
        let ghost prev_acc = sequence_rows@;
        let r = rows[i];
        if r.end_sequence {
            if sequence_rows.len() > 0 {
                let start = sequence_rows[0].address;
                let end = r.address;
                let taken = sequence_rows;
                sequence_rows = Vec::new();
                let closed = LineSequence { start, end, rows: taken };
                insort_exec(&mut sequences, closed);
                proof {
                    assert(sequence_rows@ =~= Seq::<LineProgramRow>::empty());
                }
            }
        } else {
            let row = LineProgramRow {
                address: r.address,
                file_index: #[verifier::truncate] (r.file_index as u32),
                line: match r.line {
                    Some(l) => #[verifier::truncate] (l as u32),
                    None => 0,
                },
            };
            let n = sequence_rows.len();
            if n > 0 && sequence_rows[n - 1].address == row.address {
                sequence_rows[n - 1] = row;
                proof {
                    assert(sequence_rows@ =~= spec_step_row(prev_acc, r));
                }
            } else if n > 0 && sequence_rows[n - 1].file_index == row.file_index
                && sequence_rows[n - 1].line == row.line {
                // redundant row: previous mapping already covers it
            } else {
                sequence_rows.push(row);
            }
        }
        i += 1;
    }
    proof {
        lemma_sequences_sorted(rows@);
    }
    sequences
}

} // verus!
