//! One worker's search over its share of the outer digit.
use vstd::prelude::*;
use crate::candidate::{Verifier, derivation_fails, matches_target};
use crate::config::Job;
use crate::odometer::{
    Odometer, RADIX, digits_of, digits_valid, lemma_digits_of_value, lemma_space_step, lemma_value_bound, lemma_value_of_digits,
    lemma_value_split, space, value_of,
};
use crate::partition::{in_range, is_chain, partition_is_exact};
use crate::phrase::{Wordlist, assemble, assemble_round_trip, assembled, is_word, join, tokens, words_at};
use vstd::arithmetic::div_mod::{lemma_fundamental_div_mod, lemma_mod_bound};

verus! {

/// The phrase that the search tries at position `v`.
pub open spec fn candidate(job: Job, list: Seq<Seq<char>>, v: nat) -> Seq<char> {
    assembled(job.known@, join(words_at(list, digits_of(v, job.missing as nat))), job.head)
}

/// No position in `[lo, hi)` gives a matching phrase or a failed derivation.
pub open spec fn none_match(job: Job, list: Seq<Seq<char>>, target: Seq<char>, lo: nat, hi: nat) -> bool {
    forall|u: nat|
        lo <= u < hi ==> !matches_target(#[trigger] candidate(job, list, u), target)
            && !derivation_fails(candidate(job, list, u))
}

/// What one run of a worker ended with.
pub enum Step {
    /// This phrase matches the target.
    Found(String),
    /// The budget was used up on this many non-matching candidates.
    Progress(u64),
    /// The range is done after this many more non-matching candidates.
    Exhausted(u64),
    /// Key derivation failed for this phrase, a valid mnemonic.
    Anomaly(String),
}

pub struct Worker {
    pos: Odometer,
    end: usize,
    done: bool,
}

/// The outer digit is below `end` exactly when the position is below
/// `end * 2048^(k-1)`.
proof fn lemma_outer_bound(d: Seq<usize>, end: nat)
    requires
        d.len() >= 1,
        digits_valid(d),
    ensures
        (d[d.len() - 1] < end) == (value_of(d) < end * space((d.len() - 1) as nat)),
{
    let k = d.len() as int;
    lemma_value_split(d, k - 1);
    let low = d.take(k - 1);
    assert(digits_valid(low));
    lemma_value_bound(low);
    let hi = d.skip(k - 1);
    assert(hi.drop_first() =~= Seq::<usize>::empty());
    assert(hi.len() == 1 && hi[0] == d[k - 1]);
    assert(value_of(Seq::<usize>::empty()) == 0);
    assert(value_of(hi) == d[k - 1] as nat);
    let s = space((k - 1) as nat);
    let l = value_of(low);
    let o = d[k - 1] as nat;
    assert((o < end) == (l + s * o < end * s)) by (nonlinear_arith)
        requires
            l < s,
    ;
}

/// Position `v` lies in the span of a worker started on outer range `r`
/// with `k` digits.
pub open spec fn in_span(r: (usize, usize), k: nat, v: nat) -> bool {
    r.0 * space((k - 1) as nat) <= v < r.1 * space((k - 1) as nat)
}

/// Some worker of the partition `rs` has position `v` in its span.
pub open spec fn spanned(rs: Seq<(usize, usize)>, k: nat, v: nat) -> bool {
    exists|i: int| 0 <= i < rs.len() && #[trigger] in_span(rs[i], k, v)
}

/// A position is in a worker's span exactly when its outer digit is in the
/// worker's outer range.
proof fn lemma_span_outer(r: (usize, usize), k: nat, v: nat)
    requires
        k >= 1,
    ensures
        in_span(r, k, v) == in_range(r, (v / space((k - 1) as nat)) as int),
{
    let s = space((k - 1) as nat) as int;
    crate::odometer::lemma_space_positive((k - 1) as nat);
    lemma_fundamental_div_mod(v as int, s);
    lemma_mod_bound(v as int, s);
    let q = (v as int) / s;
    let m = (v as int) % s;
    let a = r.0 as int;
    let b = r.1 as int;
    assert((a * s <= v) == (a <= q)) by (nonlinear_arith)
        requires
            v == s * q + m,
            0 <= m < s,
            s >= 1,
    ;
    assert((v < b * s) == (q < b)) by (nonlinear_arith)
        requires
            v == s * q + m,
            0 <= m < s,
            s >= 1,
    ;
}

/// Workers started on the ranges of a partition split the search space of
/// `k` missing words between them: every position below `2048^k` lies in the
/// span of exactly one worker, and no other position lies in any span.
pub proof fn partition_spans_search_space(rs: Seq<(usize, usize)>, k: nat)
    requires
        is_chain(rs),
        1 <= k <= 11,
    ensures
        forall|v: nat| #[trigger] spanned(rs, k, v) <==> v < space(k),
        forall|i: int, j: int, v: nat|
            0 <= i < j < rs.len() && #[trigger] in_span(rs[i], k, v) ==> !#[trigger] in_span(rs[j], k, v),
{
    partition_is_exact(rs);
    let s = space((k - 1) as nat);
    lemma_space_step(k);
    crate::odometer::lemma_space_positive((k - 1) as nat);
    assert forall|v: nat| #[trigger] spanned(rs, k, v) <==> v < space(k) by {
        let q = (v / s) as int;
        assert((v < space(k)) == (q < 2048)) by (nonlinear_arith)
            requires
                space(k) == 2048 * s,
                s >= 1,
                q == v / s,
        ;
        if spanned(rs, k, v) {
            let i = choose|i: int| 0 <= i < rs.len() && #[trigger] in_span(rs[i], k, v);
            lemma_span_outer(rs[i], k, v);
            assert(crate::partition::covered(rs, q));
        }
        if v < space(k) {
            assert(crate::partition::covered(rs, q));
            let i = choose|i: int| 0 <= i < rs.len() && #[trigger] in_range(rs[i], q);
            lemma_span_outer(rs[i], k, v);
            assert(in_span(rs[i], k, v));
        }
    }
    assert forall|i: int, j: int, v: nat|
        0 <= i < j < rs.len() && #[trigger] in_span(rs[i], k, v) implies !#[trigger] in_span(rs[j], k, v) by {
        lemma_span_outer(rs[i], k, v);
        lemma_span_outer(rs[j], k, v);
    }
}

/// Every phrase the search tries, and so every phrase it reports, splits on
/// whitespace into twelve words: the known words, unchanged, and the words of
/// the position's digits, in the configured order.
pub proof fn candidate_tokens(job: Job, list: Seq<Seq<char>>, v: nat)
    requires
        job.wf(),
        list.len() == 2048,
        forall|i: int| 0 <= i < 2048 ==> is_word(#[trigger] list[i]),
        v < space(job.missing as nat),
    ensures
        ({
            let t = tokens(candidate(job, list, v));
            let kt = tokens(job.known@);
            let gap = words_at(list, digits_of(v, job.missing as nat));
            &&& t.len() == 12
            &&& job.head ==> t == gap + kt && t.skip(job.missing as int) == kt
            &&& !job.head ==> t == kt + gap && t.take(kt.len() as int) == kt
        }),
{
    let k = job.missing as nat;
    let d = digits_of(v, k);
    lemma_digits_of_value(v, k);
    let gap = words_at(list, d);
    assert forall|i: int| 0 <= i < gap.len() implies is_word(#[trigger] gap[i]) by {
        assert(d[i] < 2048);
        assert(gap[i] == list[d[i] as int]);
    }
    assemble_round_trip(job.known@, gap, job.head);
}

impl Worker {
    pub closed spec fn position(&self) -> nat {
        self.pos.value()
    }

    pub closed spec fn digits_len(&self) -> nat {
        self.pos@.len()
    }

    /// The first position past this worker's range.
    pub closed spec fn end_value(&self) -> nat {
        self.end as nat * space((self.pos@.len() - 1) as nat)
    }

    pub closed spec fn is_done(&self) -> bool {
        self.done
    }

    pub closed spec fn wf(&self) -> bool {
        &&& self.pos.wf()
        &&& self.end <= 2048
        &&& !self.done ==> self.pos.outer_spec() < self.end
    }

    /// A worker for the outer digits `start..end` of the job's search space.
    pub fn new(job: &Job, start: usize, end: usize) -> (r: Worker)
        requires
            job.wf(),
            start <= end <= RADIX,
        ensures
            r.wf(),
            r.digits_len() == job.missing,
            r.is_done() == (start == end),
            start < end ==> r.position() == start as nat * space((job.missing - 1) as nat),
            r.end_value() == end as nat * space((job.missing - 1) as nat),
    {
        let first = if start < RADIX {
            start
        } else {
            0
        };
        let pos = Odometer::new(job.missing, first);
        Worker { pos, end, done: start >= end }
    }

    /// Tries at most `budget` candidates from the current position, in order.
    /// Stops early on a match, whose phrase it returns with the position left
    /// on it, or when the range is done.
    pub fn run(&mut self, job: &Job, words: &Wordlist, verifier: &Verifier, budget: u64) -> (r: Step)
        requires
            old(self).wf(),
            job.wf(),
            old(self).digits_len() == job.missing,
            words.wf(),
            verifier.wf(),
            budget >= 1,
        ensures
            final(self).wf(),
            final(self).digits_len() == old(self).digits_len(),
            final(self).end_value() == old(self).end_value(),
            old(self).is_done() ==> final(self).is_done() && r == Step::Exhausted(0),
            !old(self).is_done() ==> old(self).position() < old(self).end_value(),
            !old(self).is_done() ==> match r {
                Step::Found(p) => {
                    &&& final(self).is_done()
                    &&& old(self).position() <= final(self).position() < old(self).end_value()
                    &&& final(self).position() < old(self).position() + budget
                    &&& p@ == candidate(*job, words.spec_words(), final(self).position())
                    &&& matches_target(p@, verifier.target())
                    &&& none_match(
                        *job,
                        words.spec_words(),
                        verifier.target(),
                        old(self).position(),
                        final(self).position(),
                    )
                },
                Step::Progress(n) => {
                    &&& n == budget
                    &&& !final(self).is_done()
                    &&& final(self).position() == old(self).position() + n
                    &&& final(self).position() < old(self).end_value()
                    &&& none_match(
                        *job,
                        words.spec_words(),
                        verifier.target(),
                        old(self).position(),
                        final(self).position(),
                    )
                },
                Step::Anomaly(p) => {
                    &&& final(self).is_done()
                    &&& old(self).position() <= final(self).position() < old(self).end_value()
                    &&& final(self).position() < old(self).position() + budget
                    &&& p@ == candidate(*job, words.spec_words(), final(self).position())
                    &&& derivation_fails(p@)
                    &&& none_match(
                        *job,
                        words.spec_words(),
                        verifier.target(),
                        old(self).position(),
                        final(self).position(),
                    )
                },
                Step::Exhausted(n) => {
                    &&& final(self).is_done()
                    &&& n <= budget
                    &&& old(self).position() + n == old(self).end_value()
                    &&& none_match(
                        *job,
                        words.spec_words(),
                        verifier.target(),
                        old(self).position(),
                        old(self).end_value(),
                    )
                },
            },
    {
        if self.done {
            return Step::Exhausted(0);
        }
        let ghost k = self.pos@.len();
        let ghost lo = self.position();
        let ghost hi = self.end_value();
        let ghost list = words.spec_words();
        let ghost target = verifier.target();
        let ghost end = self.end;
        proof {
            lemma_outer_bound(self.pos@, self.end as nat);
        }
        let mut tried: u64 = 0;
        while tried < budget
            invariant
                self.wf(),
                !self.done,
                self.pos@.len() == k,
                k == job.missing,
                job.wf(),
                words.wf(),
                verifier.wf(),
                list == words.spec_words(),
                target == verifier.target(),
                hi == self.end_value(),
                end == self.end,
                !old(self).is_done(),
                lo == old(self).position(),
                hi == old(self).end_value(),
                k == old(self).digits_len(),
                lo < hi,
                tried <= budget,
                self.position() == lo + tried,
                self.position() < hi,
                none_match(*job, list, target, lo, self.position()),
            decreases budget - tried,
        {
            let gap = words.render(self.pos.digits());
            let phrase = assemble(job.known.as_str(), gap.as_str(), job.head);
            proof {
                lemma_value_of_digits(self.pos@);
                assert(phrase@ == candidate(*job, list, self.position()));
            }
            match verifier.check(phrase.as_str()) {
                Err(_) => {
                    self.done = true;
                    return Step::Anomaly(phrase);
                },
                Ok(true) => {
                    self.done = true;
                    return Step::Found(phrase);
                },
                Ok(false) => {},
            }
            let ghost before = self.position();
            tried = tried + 1;
            let wrapped = self.pos.advance();
            proof {
                assert forall|u: nat| lo <= u < before + 1 implies !matches_target(
                    #[trigger] candidate(*job, list, u),
                    target,
                ) && !derivation_fails(candidate(*job, list, u)) by {
                    if u < before {
                    }
                }
            }
            if wrapped {
                proof {
                    lemma_space_step(k);
                    assert(self.end as nat * space((k - 1) as nat) <= 2048 * space((k - 1) as nat))
                        by (nonlinear_arith)
                        requires
                            self.end <= 2048,
                    ;
                }
                self.done = true;
                return Step::Exhausted(tried);
            }
            if self.pos.outer() >= self.end {
                proof {
                    lemma_outer_bound(self.pos@, self.end as nat);
                }
                self.done = true;
                return Step::Exhausted(tried);
            }
            proof {
                lemma_outer_bound(self.pos@, self.end as nat);
            }
        }
        Step::Progress(tried)
    }
}

} // verus!
