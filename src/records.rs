//! The record parser: one GFA line at a time, then a whole file.
use vstd::prelude::*;
use crate::decimal::{decimal, decimal_value, is_decimal, parse_decimal, push_decimal};
use crate::dna::{is_dna, is_dna_seq};
use crate::steps::{decode_p_steps, decode_w_steps, p_path, steps_view, w_path, StepV};
use crate::text::{
    chars_of, lemma_split_on_nonempty, push_char, push_range, split_fields, split_on, string_of,
};

verus! {

/// Why a line was rejected.
#[derive(Clone, Copy, Debug, PartialEq, Eq, Structural)]
pub enum LineFault {
    /// A segment sequence holds a character outside `ACGTNacgtn`.
    NonDnaSequence,
    /// A link's overlap is neither `*` nor `0M`.
    OverlappingLink,
    /// The record has fewer fields than its type needs.
    MissingField,
    /// A step of a path is malformed.
    MalformedStep,
    /// A walk's start offset is not a decimal number that fits.
    BadOffset,
}

/// Why a run stopped.
#[derive(Debug, PartialEq, Eq)]
pub enum GfaError {
    /// The line with this one-based number was rejected.
    Line { line: usize, fault: LineFault },
    /// A path step names a segment that no S line defines.
    MissingSegment { name: String },
}

/// The value of a `GfaError`.
pub ghost enum GfaErrorV {
    Line(nat, LineFault),
    MissingSegment(Seq<char>),
}

impl View for GfaError {
    type V = GfaErrorV;

    open spec fn view(&self) -> GfaErrorV {
        match self {
            GfaError::Line { line, fault } => GfaErrorV::Line(*line as nat, *fault),
            GfaError::MissingSegment { name } => GfaErrorV::MissingSegment(name@),
        }
    }
}

/// What one line contributes.
pub enum Record {
    Segment { name: String, seq: String },
    Path { name: String, steps: Vec<(String, bool)> },
    Ignored,
}

/// The value of a `Record`.
pub ghost enum RecordV {
    Segment(Seq<char>, Seq<char>),
    Path(Seq<char>, Seq<StepV>),
    Ignored,
}

impl View for Record {
    type V = RecordV;

    open spec fn view(&self) -> RecordV {
        match self {
            Record::Segment { name, seq } => RecordV::Segment(name@, seq@),
            Record::Path { name, steps } => RecordV::Path(name@, steps_view(steps@)),
            Record::Ignored => RecordV::Ignored,
        }
    }
}

/// The name of a walk: `sample#hap#contig`, followed by `:from-end` when
/// neither offset is `*`, where `from` is the zero-based `start` plus one.
/// `None` when the start offset is needed and is not a decimal number below
/// `u64::MAX`.
pub open spec fn walk_name(
    sample: Seq<char>,
    hap: Seq<char>,
    contig: Seq<char>,
    start: Seq<char>,
    end: Seq<char>,
) -> Option<Seq<char>> {
    let base = sample + seq!['#'] + hap + seq!['#'] + contig;
    if start == seq!['*'] || end == seq!['*'] {
        Some(base)
    } else if is_decimal(start) && decimal_value(start) < u64::MAX {
        Some(base + seq![':'] + decimal(decimal_value(start) + 1) + seq!['-'] + end)
    } else {
        None
    }
}

/// What a line holds, split into tab-separated fields `f` and dispatched on
/// its tag `f[0]`.
pub open spec fn line_record(line: Seq<char>) -> Result<RecordV, LineFault> {
    let f = split_on(line, '\t');
    let tag = f[0];
    if tag == seq!['S'] {
        if f.len() < 3 {
            Err(LineFault::MissingField)
        } else if !is_dna_seq(f[2]) {
            Err(LineFault::NonDnaSequence)
        } else {
            Ok(RecordV::Segment(f[1], f[2]))
        }
    } else if tag == seq!['L'] {
        if f.len() < 6 {
            Err(LineFault::MissingField)
        } else if f[5] == seq!['*'] || f[5] == seq!['0', 'M'] {
            Ok(RecordV::Ignored)
        } else {
            Err(LineFault::OverlappingLink)
        }
    } else if tag == seq!['P'] {
        if f.len() < 3 {
            Err(LineFault::MissingField)
        } else {
            match p_path(f[2]) {
                Some(st) => Ok(RecordV::Path(f[1], st)),
                None => Err(LineFault::MalformedStep),
            }
        }
    } else if tag == seq!['W'] {
        if f.len() < 7 {
            Err(LineFault::MissingField)
        } else {
            match walk_name(f[1], f[2], f[3], f[4], f[5]) {
                None => Err(LineFault::BadOffset),
                Some(name) => match w_path(f[6]) {
                    Some(st) => Ok(RecordV::Path(name, st)),
                    None => Err(LineFault::MalformedStep),
                },
            }
        }
    } else {
        Ok(RecordV::Ignored)
    }
}

/// Whether a field is exactly the one character `c`.
fn is_one(f: &Vec<char>, c: char) -> (r: bool)
    ensures
        r == (f@ == seq![c]),
{
    if f.len() == 1 {
        assert(f@ =~= seq![f@[0]]);
        f[0] == c
    } else {
        false
    }
}

/// The name of a walk from its sample, haplotype, contig and offset fields.
pub fn derive_walk_name(
    sample: &[char],
    hap: &[char],
    contig: &[char],
    start: &[char],
    end: &[char],
) -> (r: Option<String>)
    ensures
        match walk_name(sample@, hap@, contig@, start@, end@) {
            Some(n) => r is Some && r->Some_0@ == n,
            None => r is None,
        },
{
    let mut name = String::new();
    push_range(&mut name, sample, 0, sample.len());
    push_char(&mut name, '#');
    push_range(&mut name, hap, 0, hap.len());
    push_char(&mut name, '#');
    push_range(&mut name, contig, 0, contig.len());
    assert(sample@.subrange(0, sample@.len() as int) == sample@);
    assert(hap@.subrange(0, hap@.len() as int) == hap@);
    assert(contig@.subrange(0, contig@.len() as int) == contig@);
    assert(name@ =~= sample@ + seq!['#'] + hap@ + seq!['#'] + contig@);
    let star_start = start.len() == 1 && start[0] == '*';
    let star_end = end.len() == 1 && end[0] == '*';
    assert(star_start == (start@ == seq!['*'])) by {
        if start@.len() == 1 {
            assert(start@ =~= seq![start@[0]]);
        }
    }
    assert(star_end == (end@ == seq!['*'])) by {
        if end@.len() == 1 {
            assert(end@ =~= seq![end@[0]]);
        }
    }
    if star_start || star_end {
        return Some(name);
    }
    match parse_decimal(start) {
        None => None,
        Some(v) => {
            let ghost base = name@;
            push_char(&mut name, ':');
            push_decimal(&mut name, v + 1);
            push_char(&mut name, '-');
            push_range(&mut name, end, 0, end.len());
            assert(end@.subrange(0, end@.len() as int) == end@);
            assert(name@ =~= base + seq![':'] + decimal(decimal_value(start@) + 1) + seq!['-']
                + end@);
            Some(name)
        },
    }
}

/// Parses one line into the record it holds, or the fault that rejects it.
pub fn parse_line(line: &str) -> (r: Result<Record, LineFault>)
    ensures
        match line_record(line@) {
            Ok(v) => r is Ok && r->Ok_0@ == v,
            Err(e) => r == Err::<Record, LineFault>(e),
        },
{
    let cs = chars_of(line);
    let f = split_fields(cs.as_slice(), '\t');
    let ghost g = split_on(line@, '\t');
    assert(f@.len() >= 1) by {
        assert(f@.len() == g.len());
        lemma_split_on_nonempty(line@, '\t');
    }
    assert(f@[0]@ == g[0]);
    if is_one(&f[0], 'S') {
        if f.len() < 3 {
            return Err(LineFault::MissingField);
        }
        assert(f@[1]@ == g[1] && f@[2]@ == g[2]);
        let seq = string_of(f[2].as_slice(), 0, f[2].len());
        assert(f@[2]@.subrange(0, f@[2]@.len() as int) == f@[2]@);
        if !is_dna(seq.as_str()) {
            return Err(LineFault::NonDnaSequence);
        }
        let name = string_of(f[1].as_slice(), 0, f[1].len());
        assert(f@[1]@.subrange(0, f@[1]@.len() as int) == f@[1]@);
        Ok(Record::Segment { name, seq })
    } else if is_one(&f[0], 'L') {
        if f.len() < 6 {
            return Err(LineFault::MissingField);
        }
        let o = &f[5];
        assert(o@ == g[5]);
        let zero_m = o.len() == 2 && o[0] == '0' && o[1] == 'M';
        assert(zero_m == (o@ == seq!['0', 'M'])) by {
            if o@.len() == 2 {
                assert(o@ =~= seq![o@[0], o@[1]]);
            }
        }
        if is_one(o, '*') || zero_m {
            Ok(Record::Ignored)
        } else {
            Err(LineFault::OverlappingLink)
        }
    } else if is_one(&f[0], 'P') {
        if f.len() < 3 {
            return Err(LineFault::MissingField);
        }
        assert(f@[1]@ == g[1] && f@[2]@ == g[2]);
        match decode_p_steps(f[2].as_slice()) {
            Some(steps) => {
                let name = string_of(f[1].as_slice(), 0, f[1].len());
                assert(f@[1]@.subrange(0, f@[1]@.len() as int) == f@[1]@);
                Ok(Record::Path { name, steps })
            },
            None => Err(LineFault::MalformedStep),
        }
    } else if is_one(&f[0], 'W') {
        if f.len() < 7 {
            return Err(LineFault::MissingField);
        }
        assert(f@[1]@ == g[1] && f@[2]@ == g[2] && f@[3]@ == g[3]);
        assert(f@[4]@ == g[4] && f@[5]@ == g[5] && f@[6]@ == g[6]);
        match derive_walk_name(
            f[1].as_slice(),
            f[2].as_slice(),
            f[3].as_slice(),
            f[4].as_slice(),
            f[5].as_slice(),
        ) {
            None => Err(LineFault::BadOffset),
            Some(name) => match decode_w_steps(f[6].as_slice()) {
                Some(steps) => Ok(Record::Path { name, steps }),
                None => Err(LineFault::MalformedStep),
            },
        }
    } else {
        Ok(Record::Ignored)
    }
}

/// Segment names with their sequences, in the order of their lines.
pub type TableV = Seq<(Seq<char>, Seq<char>)>;

/// A path as values: its name and its steps.
pub type PathV = (Seq<char>, Seq<StepV>);

/// The characters of each line.
pub open spec fn lines_view(lines: Seq<String>) -> Seq<Seq<char>> {
    lines.map_values(|l: String| l@)
}

/// The value of a segment table.
pub open spec fn table_view(t: Seq<(String, String)>) -> TableV {
    t.map_values(|e: (String, String)| (e.0@, e.1@))
}

/// The value of a path list.
pub open spec fn paths_view(p: Seq<(String, Vec<(String, bool)>)>) -> Seq<PathV> {
    p.map_values(|e: (String, Vec<(String, bool)>)| (e.0@, steps_view(e.1@)))
}

/// The segments and paths of `lines`, in order, or the one-based number of
/// the first rejected line with its fault.
pub open spec fn parse_lines(lines: Seq<Seq<char>>) -> Result<(TableV, Seq<PathV>), (nat, LineFault)>
    decreases lines.len(),
{
    if lines.len() == 0 {
        Ok((Seq::empty(), Seq::empty()))
    } else {
        match parse_lines(lines.drop_last()) {
            Err(e) => Err(e),
            Ok((segs, paths)) => match line_record(lines.last()) {
                Err(f) => Err((lines.len(), f)),
                Ok(RecordV::Segment(n, q)) => Ok((segs.push((n, q)), paths)),
                Ok(RecordV::Path(n, st)) => Ok((segs, paths.push((n, st)))),
                Ok(RecordV::Ignored) => Ok((segs, paths)),
            },
        }
    }
}

/// Lines after a rejected one do not change the outcome of the parse.
pub proof fn lemma_parse_err_extends(lines: Seq<Seq<char>>, j: int)
    requires
        0 <= j <= lines.len(),
        parse_lines(lines.take(j)) is Err,
    ensures
        parse_lines(lines) == parse_lines(lines.take(j)),
    decreases lines.len() - j,
{
    if j < lines.len() {
        assert(lines.take(j + 1).drop_last() == lines.take(j));
        lemma_parse_err_extends(lines, j + 1);
    } else {
        assert(lines.take(j) == lines);
    }
}

/// Every sequence in a parsed table is DNA.
pub proof fn lemma_parsed_segments_dna(lines: Seq<Seq<char>>)
    requires
        parse_lines(lines) is Ok,
    ensures
        forall|i: int|
            0 <= i < parse_lines(lines)->Ok_0.0.len() ==> is_dna_seq(
                #[trigger] parse_lines(lines)->Ok_0.0[i].1,
            ),
    decreases lines.len(),
{
    if lines.len() > 0 {
        lemma_parsed_segments_dna(lines.drop_last());
    }
}

/// Parses a whole file, given as its lines, into its segments and paths.
///
/// The first rejected line stops the parse; its number is reported.
pub fn parse_gfa(lines: &Vec<String>) -> (r: Result<
    (Vec<(String, String)>, Vec<(String, Vec<(String, bool)>)>),
    GfaError,
>)
    ensures
        match parse_lines(lines_view(lines@)) {
            Ok((t, p)) => r is Ok && table_view(r->Ok_0.0@) == t && paths_view(r->Ok_0.1@) == p,
            Err((no, fault)) => r is Err && r->Err_0@ == GfaErrorV::Line(no, fault),
        },
{
    let ghost lv = lines_view(lines@);
    let mut segs: Vec<(String, String)> = Vec::new();
    let mut paths: Vec<(String, Vec<(String, bool)>)> = Vec::new();
    let mut i: usize = 0;
    assert(lv.take(0) =~= Seq::<Seq<char>>::empty());
    assert(table_view(segs@) =~= Seq::empty());
    assert(paths_view(paths@) =~= Seq::empty());
    while i < lines.len()
        invariant
            0 <= i <= lines@.len() == lv.len(),
            lv == lines_view(lines@),
            parse_lines(lv.take(i as int)) == Ok::<(TableV, Seq<PathV>), (nat, LineFault)>(
                (table_view(segs@), paths_view(paths@)),
            ),
        decreases lines@.len() - i,
    {
        assert(lv.take(i + 1).drop_last() == lv.take(i as int));
        assert(lv[i as int] == lines@[i as int]@);
        assert(lv.take(i + 1).last() == lv[i as int]);
        let ghost prev = (table_view(segs@), paths_view(paths@));
        let rec = parse_line(lines[i].as_str());
        match rec {
            Err(fault) => {
                proof {
                    lemma_parse_err_extends(lv, i + 1);
                }
                return Err(GfaError::Line { line: i + 1, fault });
            },
            Ok(Record::Segment { name, seq }) => {
                let ghost e = (name@, seq@);
                segs.push((name, seq));
                assert(table_view(segs@) =~= prev.0.push(e));
                assert(paths_view(paths@) == prev.1);
            },
            Ok(Record::Path { name, steps }) => {
                let ghost e = (name@, steps_view(steps@));
                paths.push((name, steps));
                assert(paths_view(paths@) =~= prev.1.push(e));
                assert(table_view(segs@) == prev.0);
            },
            Ok(Record::Ignored) => {},
        }
        i = i + 1;
    }
    assert(lv.take(lines@.len() as int) == lv);
    Ok((segs, paths))
}

} // verus!
