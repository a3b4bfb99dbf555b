//! Path resolution: each path becomes the concatenation of its segments'
//! sequences, reverse-complemented where a step is reversed, written as a
//! FASTA record.
use vstd::prelude::*;
use vstd::string::StringExecFns;
use crate::dna::{is_dna_seq, reverse_complement, revcomp};
use crate::records::{
    lemma_parse_err_extends, lemma_parsed_segments_dna, line_record, lines_view, parse_gfa,
    parse_lines, paths_view, table_view, GfaError, GfaErrorV, LineFault, PathV, RecordV, TableV,
};
use crate::steps::{steps_view, StepV};
use crate::text::{push_char, split_on};

verus! {

/// The sequence of the last segment named `name` in the table, as when the
/// entries are inserted into a map in order.
pub open spec fn lookup(table: TableV, name: Seq<char>) -> Option<Seq<char>>
    decreases table.len(),
{
    if table.len() == 0 {
        None
    } else if table.last().0 == name {
        Some(table.last().1)
    } else {
        lookup(table.drop_last(), name)
    }
}

/// A segment's sequence as a step traverses it.
pub open spec fn oriented(seq: Seq<char>, reverse: bool) -> Seq<char> {
    if reverse {
        revcomp(seq)
    } else {
        seq
    }
}

/// The sequence that `steps` spell over `table`, or the name of the first
/// step whose segment is missing.
pub open spec fn resolve(table: TableV, steps: Seq<StepV>) -> Result<Seq<char>, Seq<char>>
    decreases steps.len(),
{
    if steps.len() == 0 {
        Ok(Seq::empty())
    } else {
        match resolve(table, steps.drop_last()) {
            Err(n) => Err(n),
            Ok(prefix) => match lookup(table, steps.last().0) {
                None => Err(steps.last().0),
                Some(q) => Ok(prefix + oriented(q, steps.last().1)),
            },
        }
    }
}

/// A FASTA record: a header line with the name, then the sequence on one line.
pub open spec fn fasta_record(name: Seq<char>, seq: Seq<char>) -> Seq<char> {
    seq!['>'] + name + seq!['\n'] + seq + seq!['\n']
}

/// The records of all paths in order, or the first missing segment name.
pub open spec fn render(table: TableV, paths: Seq<PathV>) -> Result<Seq<char>, Seq<char>>
    decreases paths.len(),
{
    if paths.len() == 0 {
        Ok(Seq::empty())
    } else {
        match render(table, paths.drop_last()) {
            Err(n) => Err(n),
            Ok(out) => match resolve(table, paths.last().1) {
                Err(n) => Err(n),
                Ok(q) => Ok(out + fasta_record(paths.last().0, q)),
            },
        }
    }
}

/// The output of a whole run over `lines`, or why it stopped.
pub open spec fn run(lines: Seq<Seq<char>>) -> Result<Seq<char>, GfaErrorV> {
    match parse_lines(lines) {
        Err((no, fault)) => Err(GfaErrorV::Line(no, fault)),
        Ok((table, paths)) => match render(table, paths) {
            Err(n) => Err(GfaErrorV::MissingSegment(n)),
            Ok(out) => Ok(out),
        },
    }
}

/// Every sequence of the table is DNA, as the parser guarantees.
pub open spec fn all_dna(table: TableV) -> bool {
    forall|i: int| 0 <= i < table.len() ==> is_dna_seq(#[trigger] table[i].1)
}

/// The sequence of the last segment named `name`.
pub fn find_segment<'a>(
    segments: &'a Vec<(String, String)>,
    name: &String,
) -> (r: Option<&'a String>)
    ensures
        match lookup(table_view(segments@), name@) {
            Some(q) => r is Some && r->Some_0@ == q,
            None => r is None,
        },
{
    let ghost t = table_view(segments@);
    let mut i: usize = segments.len();
    assert(t.take(i as int) == t);
    while i > 0
        invariant
            0 <= i <= segments@.len(),
            t == table_view(segments@),
            lookup(t, name@) == lookup(t.take(i as int), name@),
        decreases i,
    {
        assert(t.take(i as int).drop_last() == t.take(i - 1));
        assert(t.take(i as int).last() == (segments@[i - 1].0@, segments@[i - 1].1@));
        if segments[i - 1].0 == *name {
            return Some(&segments[i - 1].1);
        }
        i = i - 1;
    }
    None
}

/// The sequence of one path: its steps' segment sequences in order, each
/// reverse-complemented where the step is reversed.
pub fn resolve_path(
    segments: &Vec<(String, String)>,
    steps: &Vec<(String, bool)>,
) -> (r: Result<String, GfaError>)
    requires
        all_dna(table_view(segments@)),
    ensures
        match resolve(table_view(segments@), steps_view(steps@)) {
            Ok(q) => r is Ok && r->Ok_0@ == q,
            Err(n) => r is Err && r->Err_0@ == GfaErrorV::MissingSegment(n),
        },
{
    let ghost t = table_view(segments@);
    let ghost sv = steps_view(steps@);
    let mut out = String::new();
    let mut j: usize = 0;
    while j < steps.len()
        invariant
            0 <= j <= steps@.len() == sv.len(),
            t == table_view(segments@),
            sv == steps_view(steps@),
            all_dna(t),
            resolve(t, sv.take(j as int)) == Ok::<Seq<char>, Seq<char>>(out@),
        decreases steps@.len() - j,
    {
        let name = &steps[j].0;
        let reverse = steps[j].1;
        assert(sv.take(j + 1).drop_last() == sv.take(j as int));
        assert(sv.take(j + 1).last() == (name@, reverse));
        match find_segment(segments, name) {
            None => {
                proof {
                    lemma_resolve_err_extends(t, sv, j + 1);
                }
                return Err(GfaError::MissingSegment { name: name.clone() });
            },
            Some(seq) => {
                proof {
                    lemma_lookup_in_table(t, name@);
                }
                if reverse {
                    let rc = reverse_complement(seq.as_str());
                    out.append(rc.as_str());
                } else {
                    out.append(seq.as_str());
                }
            },
        }
        j = j + 1;
    }
    assert(sv.take(steps@.len() as int) == sv);
    Ok(out)
}

proof fn lemma_lookup_in_table(table: TableV, name: Seq<char>)
    requires
        all_dna(table),
        lookup(table, name) is Some,
    ensures
        is_dna_seq(lookup(table, name)->Some_0),
    decreases table.len(),
{
    if table.last().0 != name {
        assert(all_dna(table.drop_last())) by {
            assert forall|i: int| 0 <= i < table.len() - 1 implies is_dna_seq(
                #[trigger] table.drop_last()[i].1,
            ) by {
                assert(table.drop_last()[i] == table[i]);
            }
        }
        lemma_lookup_in_table(table.drop_last(), name);
    } else {
        assert(is_dna_seq(table[table.len() - 1].1));
    }
}

proof fn lemma_resolve_err_extends(table: TableV, steps: Seq<StepV>, j: int)
    requires
        0 <= j <= steps.len(),
        resolve(table, steps.take(j)) is Err,
    ensures
        resolve(table, steps) == resolve(table, steps.take(j)),
    decreases steps.len() - j,
{
    if j < steps.len() {
        assert(steps.take(j + 1).drop_last() == steps.take(j));
        lemma_resolve_err_extends(table, steps, j + 1);
    } else {
        assert(steps.take(j) == steps);
    }
}

/// Appends the FASTA record of one resolved path to `out`.
pub fn write_record(out: &mut String, name: &str, seq: &str)
    ensures
        final(out)@ == old(out)@ + fasta_record(name@, seq@),
{
    let ghost start = out@;
    push_char(out, '>');
    out.append(name);
    push_char(out, '\n');
    out.append(seq);
    push_char(out, '\n');
    assert(out@ =~= start + fasta_record(name@, seq@));
}

proof fn lemma_render_err_extends(table: TableV, paths: Seq<PathV>, j: int)
    requires
        0 <= j <= paths.len(),
        render(table, paths.take(j)) is Err,
    ensures
        render(table, paths) == render(table, paths.take(j)),
    decreases paths.len() - j,
{
    if j < paths.len() {
        assert(paths.take(j + 1).drop_last() == paths.take(j));
        lemma_render_err_extends(table, paths, j + 1);
    } else {
        assert(paths.take(j) == paths);
    }
}

/// Converts a whole file, given as its lines, into the FASTA records of its
/// paths, in the order of their lines.
pub fn convert(lines: &Vec<String>) -> (r: Result<String, GfaError>)
    ensures
        match run(lines_view(lines@)) {
            Ok(o) => r is Ok && r->Ok_0@ == o,
            Err(e) => r is Err && r->Err_0@ == e,
        },
{
    let (segments, paths) = match parse_gfa(lines) {
        Ok(parsed) => parsed,
        Err(e) => {
            return Err(e);
        },
    };
    let ghost t = table_view(segments@);
    let ghost pv = paths_view(paths@);
    proof {
        lemma_parsed_segments_dna(lines_view(lines@));
        assert forall|i: int| 0 <= i < t.len() implies is_dna_seq(#[trigger] t[i].1) by {
            assert(t[i] == parse_lines(lines_view(lines@))->Ok_0.0[i]);
        }
    }
    let mut out = String::new();
    let mut k: usize = 0;
    while k < paths.len()
        invariant
            0 <= k <= paths@.len() == pv.len(),
            t == table_view(segments@),
            pv == paths_view(paths@),
            all_dna(t),
            parse_lines(lines_view(lines@)) == Ok::<(TableV, Seq<PathV>), (nat, LineFault)>(
                (t, pv),
            ),
            render(t, pv.take(k as int)) == Ok::<Seq<char>, Seq<char>>(out@),
        decreases paths@.len() - k,
    {
        assert(pv.take(k + 1).drop_last() == pv.take(k as int));
        assert(pv.take(k + 1).last() == (paths@[k as int].0@, steps_view(paths@[k as int].1@)));
        match resolve_path(&segments, &paths[k].1) {
            Ok(seq) => {
                write_record(&mut out, paths[k].0.as_str(), seq.as_str());
            },
            Err(e) => {
                proof {
                    lemma_render_err_extends(t, pv, k + 1);
                }
                return Err(e);
            },
        }
        k = k + 1;
    }
    assert(pv.take(paths@.len() as int) == pv);
    Ok(out)
}

proof fn lemma_missing_step_fails(table: TableV, steps: Seq<StepV>, j: int)
    requires
        0 <= j < steps.len(),
        lookup(table, steps[j].0) is None,
    ensures
        resolve(table, steps) is Err,
{
    assert(steps.take(j + 1).drop_last() == steps.take(j));
    assert(steps.take(j + 1).last() == steps[j]);
    lemma_resolve_err_extends(table, steps, j + 1);
}

/// A step that names no segment makes the whole run fail: no output is
/// produced, neither for its path nor for any other.
pub proof fn lemma_missing_segment_fails_run(lines: Seq<Seq<char>>, k: int, j: int)
    requires
        parse_lines(lines) is Ok,
        0 <= k < parse_lines(lines)->Ok_0.1.len(),
        0 <= j < parse_lines(lines)->Ok_0.1[k].1.len(),
        lookup(parse_lines(lines)->Ok_0.0, parse_lines(lines)->Ok_0.1[k].1[j].0) is None,
    ensures
        run(lines) is Err,
        run(lines)->Err_0 is MissingSegment,
{
    let table = parse_lines(lines)->Ok_0.0;
    let paths = parse_lines(lines)->Ok_0.1;
    lemma_missing_step_fails(table, paths[k].1, j);
    assert(paths.take(k + 1).drop_last() == paths.take(k));
    assert(paths.take(k + 1).last() == paths[k]);
    lemma_render_err_extends(table, paths, k + 1);
}

/// A line that is rejected on its own makes the parse fail.
proof fn lemma_bad_line_fails_parse(lines: Seq<Seq<char>>, i: int)
    requires
        0 <= i < lines.len(),
        line_record(lines[i]) is Err,
    ensures
        parse_lines(lines) is Err,
{
    assert(lines.take(i + 1).drop_last() == lines.take(i));
    assert(lines.take(i + 1).last() == lines[i]);
    lemma_parse_err_extends(lines, i + 1);
}

/// A segment line whose sequence holds a character outside the DNA alphabet
/// makes the run fail at parsing, before any path is resolved.
pub proof fn lemma_non_dna_fails_run(lines: Seq<Seq<char>>, i: int)
    requires
        0 <= i < lines.len(),
        split_on(lines[i], '\t')[0] == seq!['S'],
        split_on(lines[i], '\t').len() >= 3,
        !is_dna_seq(split_on(lines[i], '\t')[2]),
    ensures
        run(lines) is Err,
        run(lines)->Err_0 is Line,
{
    assert(line_record(lines[i]) == Err::<RecordV, LineFault>(LineFault::NonDnaSequence));
    lemma_bad_line_fails_parse(lines, i);
}

} // verus!
