//! Streaming extraction of the maximal printable runs of a byte stream.
use vstd::prelude::*;

verus! {

/// A byte is printable when it lies in the ASCII range from space to tilde.
pub open spec fn printable(b: u8) -> bool {
    0x20 <= b && b <= 0x7e
}

/// Tells whether `b` is a printable ASCII byte.
pub fn is_printable(b: u8) -> (r: bool)
    ensures
        r == printable(b),
{
    b >= 32 && b <= 126
}

/// `s[a..e]` is a maximal printable run: non-empty, printable throughout, and
/// bounded on each side by a non-printable byte or an end of the stream.
pub open spec fn is_run(s: Seq<u8>, a: int, e: int) -> bool {
    &&& 0 <= a < e <= s.len()
    &&& forall|i: int| a <= i < e ==> printable(#[trigger] s[i])
    &&& (a == 0 || !printable(s[a - 1]))
    &&& (e == s.len() || !printable(s[e]))
}

/// Where the printable suffix of `s` begins (`s.len()` when `s` ends in a
/// non-printable byte or is empty).
pub open spec fn run_start(s: Seq<u8>) -> int
    decreases s.len(),
{
    if s.len() == 0 {
        0
    } else if printable(s.last()) {
        run_start(s.drop_last())
    } else {
        s.len() as int
    }
}

/// A run of length `len` is long enough to report under the threshold `min`.
pub open spec fn reportable(len: int, min: int) -> bool {
    len > 0 && len >= min
}

/// The runs of `s` that a later non-printable byte has closed and that are long
/// enough, as `(offset, bytes)`, in stream order.
pub open spec fn closed_runs(s: Seq<u8>, min: int) -> Seq<(int, Seq<u8>)>
    decreases s.len(),
{
    if s.len() == 0 {
        Seq::empty()
    } else {
        let p = s.drop_last();
        let st = run_start(p);
        if !printable(s.last()) && reportable(p.len() - st, min) {
            closed_runs(p, min).push((st, p.subrange(st, p.len() as int)))
        } else {
            closed_runs(p, min)
        }
    }
}

/// The run still open at the end of `s`, if it is long enough.
pub open spec fn open_run(s: Seq<u8>, min: int) -> Seq<(int, Seq<u8>)> {
    let st = run_start(s);
    if reportable(s.len() - st, min) {
        seq![(st, s.subrange(st, s.len() as int))]
    } else {
        Seq::empty()
    }
}

/// Every reportable run of the whole stream `s`, in stream order.
pub open spec fn candidates(s: Seq<u8>, min: int) -> Seq<(int, Seq<u8>)> {
    closed_runs(s, min) + open_run(s, min)
}

/// A printable run found in a stream: its absolute offset and its bytes.
pub struct Candidate {
    pub offset: usize,
    pub bytes: Vec<u8>,
}

impl View for Candidate {
    type V = (int, Seq<u8>);

    open spec fn view(&self) -> (int, Seq<u8>) {
        (self.offset as int, self.bytes@)
    }
}

/// The abstract content of a list of candidates.
pub open spec fn cands_view(v: Seq<Candidate>) -> Seq<(int, Seq<u8>)> {
    v.map_values(|c: Candidate| c@)
}

proof fn lemma_run_start(s: Seq<u8>)
    ensures
        0 <= run_start(s) <= s.len(),
        forall|i: int| run_start(s) <= i < s.len() ==> printable(#[trigger] s[i]),
        run_start(s) == 0 || !printable(s[run_start(s) - 1]),
    decreases s.len(),
{
    if s.len() > 0 {
        let p = s.drop_last();
        lemma_run_start(p);
        assert forall|i: int| 0 <= i < p.len() implies p[i] == s[i] by {}
    }
}

proof fn lemma_run_start_unique(s: Seq<u8>, a: int)
    requires
        0 <= a <= s.len(),
        forall|i: int| a <= i < s.len() ==> printable(#[trigger] s[i]),
        a == 0 || !printable(s[a - 1]),
    ensures
        a == run_start(s),
{
    lemma_run_start(s);
    let t = run_start(s);
    if a < t {
        assert(printable(s[t - 1]));
    } else if a > t {
        assert(printable(s[a - 1]));
    }
}

/// Each entry of `c` is a reportable maximal run of `s`, ending no later
/// than `bound`, with its bytes as they stand in `s`.
pub open spec fn all_runs_of(s: Seq<u8>, min: int, c: Seq<(int, Seq<u8>)>, bound: int) -> bool {
    forall|k: int|
        0 <= k < c.len() ==> {
            let e = c[k].0 + c[k].1.len();
            &&& is_run(s, c[k].0, e)
            &&& e <= bound
            &&& reportable(c[k].1.len() as int, min)
            &&& #[trigger] c[k].1 == s.subrange(c[k].0, e)
        }
}

/// The entries of `c` lie apart and in stream order: each one ends before the
/// next one starts.
pub open spec fn in_stream_order(c: Seq<(int, Seq<u8>)>) -> bool {
    forall|j: int, k: int| 0 <= j < k < c.len() ==> #[trigger] c[j].0 + c[j].1.len() < #[trigger] c[k].0
}

/// Every reportable maximal run of `s` ending no later than `bound` is an
/// entry of `c`.
pub open spec fn has_every_run(s: Seq<u8>, min: int, c: Seq<(int, Seq<u8>)>, bound: int) -> bool {
    forall|a: int, e: int|
        #[trigger] is_run(s, a, e) && e <= bound && reportable(e - a, min) ==> exists|k: int|
            0 <= k < c.len() && #[trigger] c[k] == (a, s.subrange(a, e))
}

proof fn lemma_closed_runs(s: Seq<u8>, min: int)
    ensures
        all_runs_of(s, min, closed_runs(s, min), s.len() - 1),
        in_stream_order(closed_runs(s, min)),
        has_every_run(s, min, closed_runs(s, min), s.len() - 1),
    decreases s.len(),
{
    if s.len() > 0 {
        let p = s.drop_last();
        let st = run_start(p);
        let prev = closed_runs(p, min);
        let c = closed_runs(s, min);
        lemma_closed_runs(p, min);
        lemma_run_start(p);
        assert forall|i: int| 0 <= i < p.len() implies p[i] == s[i] by {}
        assert forall|a: int, e: int| 0 <= a <= e <= p.len() implies p.subrange(a, e)
            == s.subrange(a, e) by {
            assert(p.subrange(a, e) =~= s.subrange(a, e));
        }
        assert forall|a: int, e: int| is_run(p, a, e) && e < p.len() implies is_run(s, a, e) by {}
        assert(forall|k: int| 0 <= k < prev.len() ==> c[k] == prev[k]);
        assert forall|k: int| 0 <= k < prev.len() implies prev[k].0 + prev[k].1.len() < st by {
            let e = prev[k].0 + prev[k].1.len();
            assert(is_run(p, prev[k].0, e));
            assert(!printable(p[e]));
        }
        if !printable(s.last()) && reportable(p.len() - st, min) {
            assert(is_run(s, st, p.len() as int));
            assert(c[prev.len() as int] == (st, s.subrange(st, p.len() as int)));
        }
        assert forall|a: int, e: int|
            #[trigger] is_run(s, a, e) && e <= s.len() - 1 && reportable(e - a, min) implies exists|k: int|
            0 <= k < c.len() && #[trigger] c[k] == (a, s.subrange(a, e)) by {
            if e < p.len() {
                assert(is_run(p, a, e));
                let k = choose|k: int| 0 <= k < prev.len() && #[trigger] prev[k] == (a, p.subrange(a, e));
                assert(c[k] == (a, s.subrange(a, e)));
            } else {
                assert forall|i: int| a <= i < p.len() implies printable(#[trigger] p[i]) by {
                    assert(printable(s[i]));
                }
                lemma_run_start_unique(p, a);
                assert(c[prev.len() as int] == (a, s.subrange(a, e)));
            }
        }
    }
}

/// Every maximal printable run of a stream that is long enough is reported
/// exactly once, at the absolute offset where it starts and with its bytes;
/// nothing else is reported, and the reports come in increasing offset order.
pub proof fn lemma_candidates_are_the_runs(s: Seq<u8>, min: int)
    ensures
        all_runs_of(s, min, candidates(s, min), s.len() as int),
        in_stream_order(candidates(s, min)),
        has_every_run(s, min, candidates(s, min), s.len() as int),
        forall|j: int, k: int|
            0 <= j < candidates(s, min).len() && 0 <= k < candidates(s, min).len()
                && #[trigger] candidates(s, min)[j].0 == #[trigger] candidates(s, min)[k].0 ==> j == k,
{
    let closed = closed_runs(s, min);
    let tail = open_run(s, min);
    let c = candidates(s, min);
    let st = run_start(s);
    lemma_closed_runs(s, min);
    lemma_run_start(s);
    assert(forall|k: int| 0 <= k < closed.len() ==> c[k] == closed[k]);
    assert forall|k: int| 0 <= k < closed.len() implies closed[k].0 + closed[k].1.len() < st by {
        let e = closed[k].0 + closed[k].1.len();
        assert(is_run(s, closed[k].0, e));
        assert(!printable(s[e]));
    }
    if reportable(s.len() - st, min) {
        assert(c[closed.len() as int] == (st, s.subrange(st, s.len() as int)));
        assert(is_run(s, st, s.len() as int));
    }
    assert forall|a: int, e: int|
        #[trigger] is_run(s, a, e) && e <= s.len() && reportable(e - a, min) implies exists|k: int|
        0 <= k < c.len() && #[trigger] c[k] == (a, s.subrange(a, e)) by {
        if e < s.len() {
            let k = choose|k: int| 0 <= k < closed.len() && #[trigger] closed[k] == (a, s.subrange(a, e));
            assert(c[k] == (a, s.subrange(a, e)));
        } else {
            lemma_run_start_unique(s, a);
            assert(c[closed.len() as int] == (a, s.subrange(a, e)));
        }
    }
    assert forall|j: int, k: int|
        0 <= j < c.len() && 0 <= k < c.len() && #[trigger] c[j].0 == #[trigger] c[k].0 implies j == k by {
        if j < k {
            assert(c[j].0 + c[j].1.len() < c[k].0);
        } else if k < j {
            assert(c[k].0 + c[k].1.len() < c[j].0);
        }
    }
}

/// No run shorter than the threshold is ever reported, however close it stands
/// to other printable bytes.
pub proof fn lemma_no_short_run(s: Seq<u8>, min: int)
    ensures
        forall|k: int|
            0 <= k < candidates(s, min).len() ==> #[trigger] candidates(s, min)[k].1.len() >= min,
{
    lemma_candidates_are_the_runs(s, min);
}

/// A long enough run that reaches the end of the stream, with no non-printable
/// byte after it, is still reported, as the last candidate.
pub proof fn lemma_run_at_end_reported(s: Seq<u8>, min: int, a: int)
    requires
        0 <= a < s.len(),
        s.len() - a >= min,
        forall|i: int| a <= i < s.len() ==> printable(#[trigger] s[i]),
        a == 0 || !printable(s[a - 1]),
    ensures
        candidates(s, min).len() > 0,
        candidates(s, min).last() == (a, s.subrange(a, s.len() as int)),
{
    lemma_run_start_unique(s, a);
}

/// Scans a byte stream handed over in chunks of any size, keeping the
/// absolute position across chunk boundaries.
pub struct Extractor {
    min_length: usize,
    position: usize,
    run: Vec<u8>,
    consumed: Ghost<Seq<u8>>,
}

impl Extractor {
    /// The bytes fed so far, in order.
    pub closed spec fn consumed(&self) -> Seq<u8> {
        self.consumed@
    }

    /// The shortest run that is reported.
    pub closed spec fn min_length(&self) -> int {
        self.min_length as int
    }

    /// The position counts the bytes fed, and the pending run is the printable
    /// suffix of what was fed.
    pub closed spec fn wf(&self) -> bool {
        &&& self.position == self.consumed@.len()
        &&& self.run@.len() <= self.position
        &&& run_start(self.consumed@) == self.position - self.run@.len()
        &&& self.run@ == self.consumed@.subrange(
            self.position - self.run@.len(),
            self.position as int,
        )
    }

    /// An extractor at the start of a stream.
    pub fn new(min_length: usize) -> (r: Self)
        ensures
            r.wf(),
            r.consumed() == Seq::<u8>::empty(),
            r.min_length() == min_length,
    {
        let r = Extractor { min_length, position: 0, run: Vec::new(), consumed: Ghost(Seq::empty()) };
        assert(r.run@ =~= r.consumed@.subrange(0, 0));
        r
    }

    /// Takes the next chunk of the stream and returns the runs that it closes.
    pub fn feed(&mut self, chunk: &[u8]) -> (r: Vec<Candidate>)
        requires
            old(self).wf(),
            old(self).consumed().len() + chunk@.len() <= usize::MAX,
        ensures
            final(self).wf(),
            final(self).consumed() == old(self).consumed() + chunk@,
            final(self).min_length() == old(self).min_length(),
            closed_runs(old(self).consumed(), old(self).min_length()) + cands_view(r@) == closed_runs(
                final(self).consumed(),
                final(self).min_length(),
            ),
    {
        let ghost start = self.consumed@;
        let ghost min = self.min_length as int;
        let mut out: Vec<Candidate> = Vec::new();
        assert(closed_runs(start, min) + cands_view(out@) =~= closed_runs(start, min));
        assert(start + chunk@.subrange(0, 0) =~= start);
        for i in 0..chunk.len()
            invariant
                self.wf(),
                self.min_length == min,
                self.consumed@ == start + chunk@.subrange(0, i as int),
                start.len() + chunk@.len() <= usize::MAX,
                closed_runs(start, min) + cands_view(out@) == closed_runs(self.consumed@, min),
        {
            let b = chunk[i];
            let ghost prev = self.consumed@;
            let ghost next = prev.push(b);
            assert(next.drop_last() =~= prev);
            assert(start + chunk@.subrange(0, i + 1) =~= next);
            if is_printable(b) {
                self.run.push(b);
                assert(self.run@ =~= next.subrange(
                    next.len() - self.run@.len(),
                    next.len() as int,
                ));
            } else {
                if self.run.len() >= self.min_length && self.run.len() > 0 {
                    let mut bytes: Vec<u8> = Vec::new();
                    std::mem::swap(&mut self.run, &mut bytes);
                    let c = Candidate { offset: self.position - bytes.len(), bytes };
                    proof {
                        out@.lemma_push_map_commute(|c: Candidate| c@, c);
                    }
                    out.push(c);
                    assert(closed_runs(start, min) + cands_view(out@) =~= closed_runs(next, min));
                } else {
                    self.run.clear();
                }
                assert(self.run@ =~= next.subrange(self.position + 1, self.position + 1));
            }
            self.position = self.position + 1;
            self.consumed = Ghost(next);
        }
        assert(chunk@.subrange(0, chunk@.len() as int) =~= chunk@);
        out
    }

    /// Ends the stream and returns the run that reaches its end, if that run is
    /// long enough.
    pub fn finish(self) -> (r: Vec<Candidate>)
        requires
            self.wf(),
        ensures
            cands_view(r@) == open_run(self.consumed(), self.min_length()),
    {
        let mut out: Vec<Candidate> = Vec::new();
        if self.run.len() >= self.min_length && self.run.len() > 0 {
            let c = Candidate { offset: self.position - self.run.len(), bytes: self.run };
            out.push(c);
            assert(cands_view(out@) =~= open_run(self.consumed@, self.min_length as int));
        } else {
            assert(cands_view(out@) =~= open_run(self.consumed@, self.min_length as int));
        }
        out
    }
}

/// Every printable run of `data` of at least `min_length` bytes, with its
/// offset, in order.
pub fn extract_strings(data: &[u8], min_length: usize) -> (r: Vec<Candidate>)
    ensures
        cands_view(r@) == candidates(data@, min_length as int),
{
    let n = data.len();
    let mut ex = Extractor::new(min_length);
    let mut out = ex.feed(data);
    let mut last = ex.finish();
    proof {
        assert(Seq::<u8>::empty() + data@ =~= data@);
        assert(closed_runs(Seq::<u8>::empty(), min_length as int) =~= Seq::empty());
        assert(cands_view(out@) =~= closed_runs(data@, min_length as int));
    }
    let ghost first = out@;
    let ghost rest = last@;
    out.append(&mut last);
    assert(cands_view(out@) =~= cands_view(first) + cands_view(rest));
    out
}

} // verus!
