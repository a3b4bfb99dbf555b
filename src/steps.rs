//! The two step syntaxes of paths: comma-separated `name+` / `name-` tokens
//! (P lines) and runs of `>name` / `<name` tokens (W lines).
use vstd::prelude::*;
use crate::text::{
    chars_of, lemma_split_on_plain_suffix, lemma_split_on_sep, split_fields, split_on, string_of,
};

verus! {

/// A step as values: the referenced segment name and whether it is traversed
/// in reverse.
pub type StepV = (Seq<char>, bool);

/// The value of a list of executable steps.
pub open spec fn steps_view(v: Seq<(String, bool)>) -> Seq<StepV> {
    v.map_values(|st: (String, bool)| (st.0@, st.1))
}

/// One comma-separated token: a non-empty name followed by `+` (forward) or
/// `-` (reverse).
pub open spec fn p_step(tok: Seq<char>) -> Option<StepV> {
    if tok.len() >= 2 && (tok.last() == '+' || tok.last() == '-') {
        Some((tok.drop_last(), tok.last() == '-'))
    } else {
        None
    }
}

/// Decodes the tokens in order, skipping empty ones; `None` as soon as one
/// token is malformed.
pub open spec fn p_steps_of(toks: Seq<Seq<char>>) -> Option<Seq<StepV>>
    decreases toks.len(),
{
    if toks.len() == 0 {
        Some(Seq::<StepV>::empty())
    } else {
        match p_steps_of(toks.drop_last()) {
            None => None,
            Some(prev) => if toks.last().len() == 0 {
                Some(prev)
            } else {
                match p_step(toks.last()) {
                    Some(st) => Some(prev.push(st)),
                    None => None,
                }
            },
        }
    }
}

/// The steps that a P-line step field denotes, or `None` when it is malformed.
pub open spec fn p_path(s: Seq<char>) -> Option<Seq<StepV>> {
    p_steps_of(split_on(s, ','))
}

proof fn lemma_p_steps_none_extends(toks: Seq<Seq<char>>, j: int)
    requires
        0 <= j <= toks.len(),
        p_steps_of(toks.take(j)) is None,
    ensures
        p_steps_of(toks) is None,
    decreases toks.len() - j,
{
    if j < toks.len() {
        assert(toks.take(j + 1).drop_last() == toks.take(j));
        lemma_p_steps_none_extends(toks, j + 1);
    } else {
        assert(toks.take(j) == toks);
    }
}

/// Decodes a comma-separated step list such as `s1+,s2-`.
///
/// Empty tokens are skipped. A token is malformed when it has no name before
/// its last character or when that character is neither `+` nor `-`; the
/// result is then `None`.
pub(crate) fn decode_p_steps(cs: &[char]) -> (r: Option<Vec<(String, bool)>>)
    ensures
        match p_path(cs@) {
            Some(st) => r is Some && steps_view(r->Some_0@) == st,
            None => r is None,
        },
{
    let toks = split_fields(cs, ',');
    let ghost all = split_on(cs@, ',');
    assert(toks@.len() == all.len());
    let mut out: Vec<(String, bool)> = Vec::new();
    let mut j: usize = 0;
    while j < toks.len()
        invariant
            0 <= j <= toks@.len() == all.len(),
            all == split_on(cs@, ','),
            forall|k: int| 0 <= k < toks@.len() ==> #[trigger] toks@[k]@ == all[k],
            p_steps_of(all.take(j as int)) == Some(steps_view(out@)),
        decreases toks@.len() - j,
    {
        let tok = &toks[j];
        let n = tok.len();
        assert(tok@ == all[j as int]);
        assert(all.take(j + 1).drop_last() == all.take(j as int));
        if n == 0 {
        } else if n >= 2 && (tok[n - 1] == '+' || tok[n - 1] == '-') {
            let name = string_of(tok.as_slice(), 0, n - 1);
            assert(tok@.drop_last() == tok@.subrange(0, n - 1));
            out.push((name, tok[n - 1] == '-'));
            assert(steps_view(out@) == steps_view(out@.drop_last()).push((name@, tok[n - 1] == '-')));
        } else {
            proof {
                lemma_p_steps_none_extends(all, j + 1);
            }
            return None;
        }
        j = j + 1;
    }
    assert(all.take(toks@.len() as int) == all);
    Some(out)
}

/// Decodes a comma-separated step list such as `s1+,s2-`; see
/// `p_path` for when it is malformed.
pub fn parse_p_path(s: &str) -> (r: Option<Vec<(String, bool)>>)
    ensures
        match p_path(s@) {
            Some(st) => r is Some && steps_view(r->Some_0@) == st,
            None => r is None,
        },
{
    let cs = chars_of(s);
    decode_p_steps(cs.as_slice())
}

/// The two orientation markers of the W-line syntax.
pub open spec fn is_marker(c: char) -> bool {
    c == '>' || c == '<'
}

/// The positions of the markers in `s`, in increasing order.
pub open spec fn marker_positions(s: Seq<char>) -> Seq<int>
    decreases s.len(),
{
    if s.len() == 0 {
        Seq::<int>::empty()
    } else {
        let prev = marker_positions(s.drop_last());
        if is_marker(s.last()) {
            prev.push(s.len() - 1)
        } else {
            prev
        }
    }
}

/// The step begun by the `j`-th marker: its name runs up to the next marker
/// or to the end of `s`; `<` marks it as reversed.
pub open spec fn w_step(s: Seq<char>, m: Seq<int>, j: int) -> StepV {
    let end = if j + 1 < m.len() {
        m[j + 1]
    } else {
        s.len() as int
    };
    (s.subrange(m[j] + 1, end), s[m[j]] == '<')
}

/// The steps that a W-line step field denotes: one per marker, or `None`
/// when some step has an empty name. Text before the first marker belongs
/// to no step.
pub open spec fn w_path(s: Seq<char>) -> Option<Seq<StepV>> {
    let m = marker_positions(s);
    if exists|j: int| 0 <= j < m.len() && (#[trigger] w_step(s, m, j)).0.len() == 0 {
        None
    } else {
        Some(Seq::new(m.len(), |j: int| w_step(s, m, j)))
    }
}

proof fn lemma_markers_prefix(s: Seq<char>, i: int)
    requires
        0 <= i <= s.len(),
    ensures
        marker_positions(s.take(i)).len() <= marker_positions(s).len(),
        marker_positions(s.take(i)) == marker_positions(s).take(
            marker_positions(s.take(i)).len() as int,
        ),
    decreases s.len() - i,
{
    if i == s.len() {
        assert(s.take(i) == s);
    } else {
        lemma_markers_prefix(s, i + 1);
        assert(s.take(i + 1).drop_last() == s.take(i));
    }
}

/// Decodes a marker-separated step list such as `>s1<s2`.
///
/// Each `>` or `<` begins a step whose name runs to the next marker or to
/// the end of the field. A field without markers gives no steps. A step
/// with an empty name makes the result `None`.
pub(crate) fn decode_w_steps(cs: &[char]) -> (r: Option<Vec<(String, bool)>>)
    ensures
        match w_path(cs@) {
            Some(st) => r is Some && steps_view(r->Some_0@) == st,
            None => r is None,
        },
{
    let n = cs.len();
    let ghost full = marker_positions(cs@);
    let mut out: Vec<(String, bool)> = Vec::new();
    let mut open: Option<usize> = None;
    let mut i: usize = 0;
    while i < n
        invariant
            0 <= i <= n == cs@.len(),
            full == marker_positions(cs@),
            ({
                let m = marker_positions(cs@.take(i as int));
                &&& (open is None <==> m.len() == 0)
                &&& (open is Some ==> open->Some_0 == m.last() && open->Some_0 < i)
                &&& out@.len() == (if m.len() == 0 { 0 } else { m.len() - 1 })
                &&& forall|j: int|
                    0 <= j < out@.len() ==> #[trigger] steps_view(out@)[j] == w_step(cs@, m, j)
                &&& forall|j: int| 0 <= j < out@.len() ==> (#[trigger] out@[j]).0@.len() > 0
            }),
        decreases n - i,
    {
        let ghost m0 = marker_positions(cs@.take(i as int));
        let c = cs[i];
        assert(cs@.take(i + 1).drop_last() == cs@.take(i as int));
        let ghost m1 = marker_positions(cs@.take(i + 1));
        if c == '>' || c == '<' {
            assert(m1 == m0.push(i as int));
            match open {
                Some(p) => {
                    let ghost j = out@.len() as int;
                    assert(m1[j] == p && m1[j + 1] == i);
                    if p + 1 == i {
                        proof {
                            lemma_markers_prefix(cs@, i + 1);
                            assert(full[j] == p && full[j + 1] == i);
                            assert(w_step(cs@, full, j).0.len() == 0);
                        }
                        return None;
                    }
                    let name = string_of(cs, p + 1, i);
                    let ghost prev = out@;
                    out.push((name, cs[p] == '<'));
                    assert forall|k: int| 0 <= k < out@.len() implies #[trigger] steps_view(
                        out@,
                    )[k] == w_step(cs@, m1, k) by {
                        if k < j {
                            assert(out@[k] == prev[k]);
                            assert(steps_view(prev)[k] == w_step(cs@, m0, k));
                            assert(m1[k] == m0[k] && m1[k + 1] == m0[k + 1]);
                        }
                    }
                    assert forall|k: int| 0 <= k < out@.len() implies (#[trigger] out@[k]).0@.len()
                        > 0 by {
                        if k < j {
                            assert(out@[k] == prev[k]);
                        }
                    }
                },
                None => {},
            }
            open = Some(i);
        } else {
            assert(m1 == m0);
        }
        i = i + 1;
    }
    assert(cs@.take(n as int) == cs@);
    let ghost m = full;
    match open {
        Some(p) => {
            let ghost j = out@.len() as int;
            if p + 1 == n {
                assert(w_step(cs@, m, j).0.len() == 0);
                return None;
            }
            let name = string_of(cs, p + 1, n);
            let ghost prev = out@;
            out.push((name, cs[p] == '<'));
            assert forall|k: int| 0 <= k < out@.len() implies #[trigger] steps_view(out@)[k]
                == w_step(cs@, m, k) by {
                if k < j {
                    assert(out@[k] == prev[k]);
                    assert(steps_view(prev)[k] == w_step(cs@, m, k));
                }
            }
            assert forall|k: int| 0 <= k < out@.len() implies (#[trigger] out@[k]).0@.len() > 0 by {
                if k < j {
                    assert(out@[k] == prev[k]);
                }
            }
        },
        None => {},
    }
    assert(steps_view(out@) == Seq::new(m.len(), |j: int| w_step(cs@, m, j)));
    assert forall|j: int| 0 <= j < m.len() implies (#[trigger] w_step(cs@, m, j)).0.len() != 0 by {
        assert(steps_view(out@)[j] == w_step(cs@, m, j));
        assert(out@[j].0@.len() > 0);
    }
    Some(out)
}

/// Decodes a marker-separated step list such as `>s1<s2`; see `w_path`
/// for when it is malformed.
pub fn parse_w_path(s: &str) -> (r: Option<Vec<(String, bool)>>)
    ensures
        match w_path(s@) {
            Some(st) => r is Some && steps_view(r->Some_0@) == st,
            None => r is None,
        },
{
    let cs = chars_of(s);
    decode_w_steps(cs.as_slice())
}

/// The comma-syntax token of a step: its name followed by `+` or `-`.
pub open spec fn p_token(st: StepV) -> Seq<char> {
    st.0.push(if st.1 { '-' } else { '+' })
}

/// The comma-syntax encoding of a step list.
pub open spec fn p_encode(steps: Seq<StepV>) -> Seq<char>
    decreases steps.len(),
{
    if steps.len() == 0 {
        Seq::empty()
    } else if steps.len() == 1 {
        p_token(steps[0])
    } else {
        p_encode(steps.drop_last()).push(',') + p_token(steps.last())
    }
}

/// Steps that the comma syntax can carry: names are non-empty and hold no
/// comma.
pub open spec fn p_encodable(steps: Seq<StepV>) -> bool {
    forall|i: int| 0 <= i < steps.len() ==> (#[trigger] steps[i]).0.len() > 0 && !steps[i].0.contains(',')
}

proof fn lemma_p_token_plain(st: StepV)
    requires
        !st.0.contains(','),
    ensures
        !p_token(st).contains(','),
{
    let t = p_token(st);
    if t.contains(',') {
        let k = choose|k: int| 0 <= k < t.len() && t[k] == ',';
        if k < st.0.len() {
            assert(st.0[k] == ',');
        }
    }
}

proof fn lemma_split_p_encode(steps: Seq<StepV>)
    requires
        steps.len() > 0,
        p_encodable(steps),
    ensures
        split_on(p_encode(steps), ',') == Seq::new(steps.len(), |i: int| p_token(steps[i])),
    decreases steps.len(),
{
    let last = steps.last();
    assert(steps[steps.len() - 1] == last);
    lemma_p_token_plain(last);
    if steps.len() == 1 {
        lemma_split_on_plain_suffix(Seq::<char>::empty(), p_token(last), ',');
        assert(Seq::<char>::empty() + p_token(last) == p_token(last));
        assert(split_on(p_encode(steps), ',') =~= Seq::new(steps.len(), |i: int| p_token(steps[i])));
    } else {
        let prev = steps.drop_last();
        assert(p_encodable(prev)) by {
            assert forall|i: int| 0 <= i < prev.len() implies (#[trigger] prev[i]).0.len() > 0
                && !prev[i].0.contains(',') by {
                assert(prev[i] == steps[i]);
            }
        }
        lemma_split_p_encode(prev);
        let e = p_encode(prev);
        lemma_split_on_sep(e, ',');
        lemma_split_on_plain_suffix(e.push(','), p_token(last), ',');
        assert(Seq::<char>::empty() + p_token(last) == p_token(last));
        assert(split_on(p_encode(steps), ',') =~= Seq::new(steps.len(), |i: int| p_token(steps[i])));
    }
}

proof fn lemma_p_steps_of_tokens(steps: Seq<StepV>)
    requires
        p_encodable(steps),
    ensures
        p_steps_of(Seq::new(steps.len(), |i: int| p_token(steps[i]))) == Some(steps),
    decreases steps.len(),
{
    let toks = Seq::new(steps.len(), |i: int| p_token(steps[i]));
    if steps.len() > 0 {
        let prev = steps.drop_last();
        assert(p_encodable(prev)) by {
            assert forall|i: int| 0 <= i < prev.len() implies (#[trigger] prev[i]).0.len() > 0
                && !prev[i].0.contains(',') by {
                assert(prev[i] == steps[i]);
            }
        }
        lemma_p_steps_of_tokens(prev);
        assert(toks.drop_last() =~= Seq::new(prev.len(), |i: int| p_token(prev[i])));
        let last = steps.last();
        assert(steps[steps.len() - 1] == last);
        assert(toks.last() == p_token(last));
        assert(p_token(last).drop_last() == last.0);
        assert(prev.push(last) =~= steps);
    } else {
        assert(steps =~= Seq::<StepV>::empty());
    }
}

/// Writing a step list in the comma syntax and decoding it gives back the
/// same steps, with `name+` read as forward and `name-` as reverse.
pub proof fn lemma_p_round_trip(steps: Seq<StepV>)
    requires
        p_encodable(steps),
    ensures
        p_path(p_encode(steps)) == Some(steps),
{
    if steps.len() == 0 {
        assert(steps =~= Seq::<StepV>::empty());
        assert(p_encode(steps) == Seq::<char>::empty());
        let toks = split_on(Seq::<char>::empty(), ',');
        assert(toks == seq![Seq::<char>::empty()]);
        assert(toks.drop_last() =~= Seq::<Seq<char>>::empty());
        assert(p_steps_of(toks.drop_last()) == Some(Seq::<StepV>::empty()));
    } else {
        lemma_split_p_encode(steps);
        lemma_p_steps_of_tokens(steps);
    }
}

/// The marker-syntax token of a step: `>` (forward) or `<` (reverse), then
/// its name.
pub open spec fn w_token(st: StepV) -> Seq<char> {
    seq![if st.1 { '<' } else { '>' }] + st.0
}

/// The marker-syntax encoding of a step list.
pub open spec fn w_encode(steps: Seq<StepV>) -> Seq<char>
    decreases steps.len(),
{
    if steps.len() == 0 {
        Seq::empty()
    } else {
        w_encode(steps.drop_last()) + w_token(steps.last())
    }
}

/// Steps that the marker syntax can carry: names are non-empty and hold no
/// marker.
pub open spec fn w_encodable(steps: Seq<StepV>) -> bool {
    forall|i: int|
        0 <= i < steps.len() ==> (#[trigger] steps[i]).0.len() > 0 && !steps[i].0.contains('>')
            && !steps[i].0.contains('<')
}

proof fn lemma_markers_plain_suffix(x: Seq<char>, y: Seq<char>)
    requires
        !y.contains('>'),
        !y.contains('<'),
    ensures
        marker_positions(x + y) == marker_positions(x),
    decreases y.len(),
{
    if y.len() == 0 {
        assert(x + y == x);
    } else {
        let y0 = y.drop_last();
        assert(!y0.contains('>') && !y0.contains('<')) by {
            if y0.contains('>') || y0.contains('<') {
                let k = choose|k: int| 0 <= k < y0.len() && (y0[k] == '>' || y0[k] == '<');
                assert(y[k] == y0[k]);
            }
        }
        lemma_markers_plain_suffix(x, y0);
        assert((x + y).drop_last() == x + y0);
        assert(y[y.len() - 1] == y.last());
    }
}

/// Writing a step list in the marker syntax and decoding it gives back the
/// same steps, with `>name` read as forward and `<name` as reverse.
pub proof fn lemma_w_round_trip(steps: Seq<StepV>)
    requires
        w_encodable(steps),
    ensures
        marker_positions(w_encode(steps)).len() == steps.len(),
        w_path(w_encode(steps)) == Some(steps),
    decreases steps.len(),
{
    if steps.len() == 0 {
        assert(Seq::new(0, |j: int| w_step(Seq::<char>::empty(), Seq::<int>::empty(), j)) =~= steps);
    } else {
        let prev = steps.drop_last();
        let last = steps.last();
        assert(steps[steps.len() - 1] == last);
        assert(w_encodable(prev)) by {
            assert forall|i: int| 0 <= i < prev.len() implies (#[trigger] prev[i]).0.len() > 0
                && !prev[i].0.contains('>') && !prev[i].0.contains('<') by {
                assert(prev[i] == steps[i]);
            }
        }
        lemma_w_round_trip(prev);
        let e = w_encode(prev);
        let c = if last.1 { '<' } else { '>' };
        let e1 = e.push(c);
        let s = w_encode(steps);
        assert(s =~= e1 + last.0);
        assert(e1.drop_last() == e);
        lemma_markers_plain_suffix(e1, last.0);
        let m0 = marker_positions(e);
        let m = marker_positions(s);
        assert(m == m0.push(e.len() as int));
        let n = steps.len() - 1;
        assert forall|j: int| 0 <= j < steps.len() implies #[trigger] w_step(s, m, j) == steps[j] by {
            if j < n {
                lemma_markers_bounded(e);
                assert(w_step(e, m0, j) == prev[j]);
                assert(0 <= m0[j] < e.len());
                let end = if j + 1 < m0.len() { m0[j + 1] } else { e.len() as int };
                assert(m[j] == m0[j]);
                assert(end == (if j + 1 < m.len() { m[j + 1] } else { s.len() as int }));
                assert(m0[j] + 1 <= end <= e.len()) by {
                    if j + 1 < m0.len() {
                        assert(m0[j] < m0[j + 1]);
                    }
                }
                assert(s.subrange(m0[j] + 1, end) =~= e.subrange(m0[j] + 1, end));
                assert(s[m0[j]] == e[m0[j]]);
            } else {
                assert(s.subrange(e.len() as int + 1, s.len() as int) =~= last.0);
                assert(s[e.len() as int] == c);
            }
        }
        assert(Seq::new(m.len(), |j: int| w_step(s, m, j)) =~= steps);
    }
}

proof fn lemma_markers_bounded(s: Seq<char>)
    ensures
        forall|j: int|
            0 <= j < marker_positions(s).len() ==> 0 <= #[trigger] marker_positions(s)[j] < s.len(),
        forall|j: int, k: int|
            0 <= j < k < marker_positions(s).len() ==> #[trigger] marker_positions(s)[j]
                < #[trigger] marker_positions(s)[k],
    decreases s.len(),
{
    if s.len() > 0 {
        lemma_markers_bounded(s.drop_last());
        let p = marker_positions(s.drop_last());
        if is_marker(s.last()) {
            assert(marker_positions(s) == p.push(s.len() - 1));
        } else {
            assert(marker_positions(s) == p);
        }
    }
}

} // verus!
