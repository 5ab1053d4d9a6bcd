//! Finds the printable-ASCII runs of a byte stream and scores how much each
//! one reads like human text.
use vstd::prelude::*;

pub mod extract;
pub mod score;

use crate::extract::{
    candidates,
    cands_view,
    extract_strings,
    lemma_candidates_are_the_runs,
    printable,
    Candidate,
};
use crate::score::{ascii_text, enhanced_human_readable, score_of};

verus! {

/// Runs shorter than this are not extracted.
pub const MIN_LENGTH: usize = 6;

/// Candidates scoring below this are left out of the output.
pub const MIN_SCORE: i32 = 40;

/// A candidate that passed the score threshold, as it is reported.
pub struct ScoredString {
    pub position: usize,
    pub string: String,
    pub score: i32,
}

impl View for ScoredString {
    type V = (int, Seq<char>, int);

    open spec fn view(&self) -> (int, Seq<char>, int) {
        (self.position as int, self.string@, self.score as int)
    }
}

/// Every byte of `b` is printable.
pub open spec fn all_printable(b: Seq<u8>) -> bool {
    forall|i: int| 0 <= i < b.len() ==> printable(#[trigger] b[i])
}

/// A run as it is reported: offset, text and score.
pub open spec fn scored(c: (int, Seq<u8>)) -> (int, Seq<char>, int) {
    (c.0, ascii_text(c.1), score_of(ascii_text(c.1)))
}

/// The runs of `cs` whose score reaches the threshold, scored, in order.
pub open spec fn readable(cs: Seq<(int, Seq<u8>)>) -> Seq<(int, Seq<char>, int)>
    decreases cs.len(),
{
    if cs.len() == 0 {
        Seq::empty()
    } else {
        let rest = readable(cs.drop_last());
        let x = scored(cs.last());
        if x.2 >= MIN_SCORE {
            rest.push(x)
        } else {
            rest
        }
    }
}

/// Relies on `String::from_utf8_lossy`: bytes that are valid UTF-8, as ASCII
/// bytes are, come out unchanged, one character per byte.
#[verifier::external_body]
fn decode_lossy(bytes: &[u8]) -> (r: String)
    ensures
        (forall|i: int| 0 <= i < bytes@.len() ==> #[trigger] bytes@[i] < 0x80) ==> r@
            == ascii_text(bytes@),
{
    String::from_utf8_lossy(bytes).into_owned()
}

/// Scores a printable run and keeps it when the score reaches the threshold.
pub fn score_candidate(c: &Candidate) -> (r: Option<ScoredString>)
    ensures
        all_printable(c.bytes@) ==> (r is Some <==> scored(c@).2 >= MIN_SCORE),
        all_printable(c.bytes@) && r is Some ==> r->0@ == scored(c@),
{
    let text = decode_lossy(c.bytes.as_slice());
    let score = enhanced_human_readable(text.as_str());
    if score >= MIN_SCORE {
        Some(ScoredString { position: c.offset, string: text, score })
    } else {
        None
    }
}

/// The printable runs of `data` of at least `MIN_LENGTH` bytes whose score
/// reaches the threshold, with offset, text and score, in stream order.
pub fn readable_strings(data: &[u8]) -> (r: Vec<ScoredString>)
    ensures
        r@.map_values(|x: ScoredString| x@) == readable(candidates(data@, MIN_LENGTH as int)),
{
    let cands = extract_strings(data, MIN_LENGTH);
    let ghost cs = cands_view(cands@);
    proof {
        lemma_candidates_are_the_runs(data@, MIN_LENGTH as int);
    }
    let mut out: Vec<ScoredString> = Vec::new();
    assert(cs.take(0) =~= Seq::<(int, Seq<u8>)>::empty());
    assert(out@.map_values(|x: ScoredString| x@) =~= Seq::<(int, Seq<char>, int)>::empty());
    let n = cands.len();
    for i in 0..n
        invariant
            n == cs.len(),
            cs == cands_view(cands@),
            forall|k: int| 0 <= k < cs.len() ==> all_printable(#[trigger] cs[k].1),
            out@.map_values(|x: ScoredString| x@) == readable(cs.take(i as int)),
    {
        let c = &cands[i];
        assert(c@ == cs[i as int]);
        assert(cs.take(i + 1).drop_last() =~= cs.take(i as int));
        let ghost before = out@;
        match score_candidate(c) {
            Some(s) => {
                proof {
                    before.lemma_push_map_commute(|x: ScoredString| x@, s);
                }
                out.push(s);
            },
            None => {},
        }
    }
    assert(cs.take(n as int) =~= cs);
    out
}

} // verus!
