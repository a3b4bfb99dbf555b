//! The DNA alphabet of segment sequences and the reverse complement, both
//! computed by `bio::alphabets::dna`.
use vstd::prelude::*;
use crate::text::push_char;

verus! {

broadcast use vstd::string::group_string_axioms;

/// A byte of the alphabet `ACGTNacgtn`.
pub open spec fn is_dna_byte(b: u8) -> bool {
    b == 65u8 || b == 67u8 || b == 71u8 || b == 84u8 || b == 78u8 || b == 97u8 || b == 99u8
        || b == 103u8 || b == 116u8 || b == 110u8
}

/// A character of the alphabet `ACGTNacgtn`.
pub open spec fn is_dna_char(c: char) -> bool {
    c == 'A' || c == 'C' || c == 'G' || c == 'T' || c == 'N' || c == 'a' || c == 'c' || c == 'g'
        || c == 't' || c == 'n'
}

/// Every character of `s` belongs to the alphabet.
pub open spec fn is_dna_seq(s: Seq<char>) -> bool {
    forall|i: int| 0 <= i < s.len() ==> is_dna_char(#[trigger] s[i])
}

/// The Watson-Crick partner of a base byte; case is kept and `N` stays `N`.
pub open spec fn complement_byte(b: u8) -> u8 {
    if b == 65u8 { 84u8 }
    else if b == 84u8 { 65u8 }
    else if b == 67u8 { 71u8 }
    else if b == 71u8 { 67u8 }
    else if b == 97u8 { 116u8 }
    else if b == 116u8 { 97u8 }
    else if b == 99u8 { 103u8 }
    else if b == 103u8 { 99u8 }
    else { b }
}

/// The Watson-Crick partner of a base; case is kept and `N` stays `N`.
pub open spec fn complement_char(c: char) -> char {
    if c == 'A' { 'T' }
    else if c == 'T' { 'A' }
    else if c == 'C' { 'G' }
    else if c == 'G' { 'C' }
    else if c == 'a' { 't' }
    else if c == 't' { 'a' }
    else if c == 'c' { 'g' }
    else if c == 'g' { 'c' }
    else { c }
}

/// `s` read backwards with every base replaced by its complement.
pub open spec fn revcomp(s: Seq<char>) -> Seq<char> {
    Seq::new(s.len(), |i: int| complement_char(s[s.len() - 1 - i]))
}

/// Relies on `bio::alphabets::dna::n_alphabet` and `Alphabet::is_word`:
/// true exactly when every byte is one of `ACGTNacgtn`.
#[verifier::external_body]
fn n_alphabet_word(b: &[u8]) -> (r: bool)
    ensures
        r == (forall|i: int| 0 <= i < b@.len() ==> is_dna_byte(#[trigger] b@[i])),
{
    bio::alphabets::dna::n_alphabet().is_word(b)
}

/// Relies on `bio::alphabets::dna::revcomp`: the bytes in reverse order, each
/// mapped through the complement table, which on `ACGTNacgtn` swaps `A`/`T`
/// and `C`/`G` in either case and keeps `N`.
#[verifier::external_body]
fn revcomp_bytes(b: &[u8]) -> (r: Vec<u8>)
    requires
        forall|i: int| 0 <= i < b@.len() ==> is_dna_byte(#[trigger] b@[i]),
    ensures
        r@ == Seq::new(b@.len(), |i: int| complement_byte(b@[b@.len() - 1 - i])),
{
    bio::alphabets::dna::revcomp(b)
}

proof fn lemma_dna_char_byte(c: char)
    requires
        '\0' <= c <= '\u{7f}',
    ensures
        is_dna_char(c) <==> is_dna_byte(c as u8),
        is_dna_char(c) ==> (complement_byte(c as u8) as char) == complement_char(c),
        is_dna_char(c) ==> is_dna_byte(complement_byte(c as u8)),
{
    assert(('\0' <= c <= '\u{7f}') ==> (c as u8) as u32 == c as u32);
}

/// Whether every character of `s` is one of `ACGTNacgtn`.
pub fn is_dna(s: &str) -> (r: bool)
    ensures
        r == is_dna_seq(s@),
{
    if !s.is_ascii() {
        assert(!is_dna_seq(s@)) by {
            let i = choose|i: int| 0 <= i < s@.len() && !('\0' <= #[trigger] s@[i] <= '\u{7f}');
            assert(!is_dna_char(s@[i]));
        }
        return false;
    }
    let b = s.as_bytes();
    let r = n_alphabet_word(b);
    assert(b@ == Seq::new(s@.len(), |i: int| s@[i] as u8));
    assert forall|i: int| 0 <= i < s@.len() implies is_dna_char(#[trigger] s@[i]) == is_dna_byte(
        b@[i],
    ) by {
        lemma_dna_char_byte(s@[i]);
    }
    r
}

/// The reverse complement of a DNA sequence.
pub fn reverse_complement(s: &str) -> (r: String)
    requires
        is_dna_seq(s@),
    ensures
        r@ == revcomp(s@),
{
    assert('\0' <= 'A' <= '\u{7f}');
    assert(s.is_ascii());
    let b = s.as_bytes();
    assert(b@ == Seq::new(s@.len(), |i: int| s@[i] as u8));
    assert forall|i: int| 0 <= i < b@.len() implies is_dna_byte(#[trigger] b@[i]) by {
        lemma_dna_char_byte(s@[i]);
    }
    let v = revcomp_bytes(b);
    let ghost n = s@.len();
    let mut r = String::new();
    let mut i: usize = 0;
    while i < v.len()
        invariant
            0 <= i <= v@.len() == n == s@.len(),
            b@ == Seq::new(n, |i: int| s@[i] as u8),
            is_dna_seq(s@),
            v@ == Seq::new(n, |i: int| complement_byte(b@[n - 1 - i])),
            r@ == revcomp(s@).take(i as int),
        decreases v@.len() - i,
    {
        proof {
            lemma_dna_char_byte(s@[n - 1 - i]);
        }
        push_char(&mut r, v[i] as char);
        assert(revcomp(s@).take(i + 1) == revcomp(s@).take(i as int).push(revcomp(s@)[i as int]));
        i = i + 1;
    }
    assert(revcomp(s@).take(n as int) == revcomp(s@));
    r
}

/// Taking the reverse complement twice gives back the sequence, and the
/// reverse complement of a DNA sequence is again a DNA sequence.
pub proof fn lemma_revcomp_involutive(s: Seq<char>)
    requires
        is_dna_seq(s),
    ensures
        is_dna_seq(revcomp(s)),
        revcomp(revcomp(s)) == s,
{
    assert(revcomp(revcomp(s)) =~= s);
}

} // verus!
