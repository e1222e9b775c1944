//! The tabulation engine: the round-by-round instant-runoff loop.
//!
//! Every round tallies the current front preference of each non-exhausted
//! voter.  A leader holding a strict majority of all counted ballots ends the
//! run as the winner; otherwise the lowest-scoring choice is eliminated and
//! every voter discards leading eliminated entries before the next round.
//! The majority denominator is the original ballot count, fixed once at the
//! start of the run, even after ballots exhaust.

use vstd::prelude::*;

use crate::ElectionError;
use crate::ballot::CandidateId;
use crate::ballot::NUM_CHOICES;
use crate::ballot::Voter;
use crate::ballot::prefs_wf;

verus! {

/// Ghost views of all voters' preference sequences.
pub open spec fn views(voters: Seq<Voter>) -> Seq<Seq<int>> {
    voters.map_values(|v: Voter| v@)
}

pub open spec fn all_wf(vs: Seq<Seq<int>>) -> bool {
    forall|i: int| 0 <= i < vs.len() ==> prefs_wf(#[trigger] vs[i])
}

/// A preference sequence with its leading eliminated entries removed, so
/// that its front (if any) is a standing choice.
pub open spec fn strip(prefs: Seq<int>, elim: Set<int>) -> Seq<int>
    decreases prefs.len(),
{
    if prefs.len() > 0 && elim.contains(prefs[0]) {
        strip(prefs.drop_first(), elim)
    } else {
        prefs
    }
}

pub open spec fn strip_all(vs: Seq<Seq<int>>, elim: Set<int>) -> Seq<Seq<int>> {
    vs.map_values(|p: Seq<int>| strip(p, elim))
}

/// How many voters currently stand behind choice `c`: those whose preference
/// sequence is non-empty with `c` at its front.
pub open spec fn count_first_prefs(vs: Seq<Seq<int>>, c: int) -> nat
    decreases vs.len(),
{
    if vs.len() == 0 {
        0
    } else {
        count_first_prefs(vs.drop_last(), c) + (if vs.last().len() > 0 && vs.last()[0] == c {
            1nat
        } else {
            0nat
        })
    }
}

/// `c` is the round's leader: it holds votes, no choice outscores it, and
/// every lower identifier scores strictly less (ties go to the lowest
/// identifier).
pub open spec fn leader_of(t: Seq<usize>, c: int) -> bool {
    &&& 0 <= c < t.len()
    &&& t[c] > 0
    &&& forall|d: int| 0 <= d < t.len() ==> #[trigger] t[d] <= t[c]
    &&& forall|d: int| 0 <= d < c ==> #[trigger] t[d] < t[c]
}

/// `c` is the round's loser: it holds votes, no choice with votes scores
/// less, and every lower identifier with votes scores strictly more (ties go
/// to the lowest identifier).
pub open spec fn loser_of(t: Seq<usize>, c: int) -> bool {
    &&& 0 <= c < t.len()
    &&& t[c] > 0
    &&& forall|d: int| 0 <= d < t.len() && #[trigger] t[d] > 0 ==> t[c] <= t[d]
    &&& forall|d: int| 0 <= d < c && #[trigger] t[d] > 0 ==> t[c] < t[d]
}

/// Number of `true` entries.
pub open spec fn count_trues(s: Seq<bool>) -> nat
    decreases s.len(),
{
    if s.len() == 0 {
        0
    } else {
        count_trues(s.drop_last()) + (if s.last() {
            1nat
        } else {
            0nat
        })
    }
}

proof fn lemma_count_trues_le_len(s: Seq<bool>)
    ensures
        count_trues(s) <= s.len(),
    decreases s.len(),
{
    if s.len() > 0 {
        lemma_count_trues_le_len(s.drop_last());
    }
}

proof fn lemma_count_trues_update(s: Seq<bool>, i: int)
    requires
        0 <= i < s.len(),
    ensures
        !s[i] ==> count_trues(s.update(i, true)) == count_trues(s) + 1,
        s[i] ==> count_trues(s.update(i, true)) == count_trues(s),
    decreases s.len(),
{
    let t = s.update(i, true);
    if i == s.len() - 1 {
        assert(t.drop_last() =~= s.drop_last());
        assert(t.last());
    } else {
        assert(t.drop_last() =~= s.drop_last().update(i, true));
        assert(t.last() == s.last());
        lemma_count_trues_update(s.drop_last(), i);
    }
}

/// The set of choices removed from contention.  It grows by one choice per
/// non-terminal round; a choice, once added, is never removed or re-added.
pub struct Eliminated {
    pub flags: Vec<bool>,
}

impl View for Eliminated {
    type V = Set<int>;

    open spec fn view(&self) -> Set<int> {
        Set::new(|c: int| 0 <= c < NUM_CHOICES && self.flags@[c])
    }
}

impl Eliminated {
    pub open spec fn wf(&self) -> bool {
        self.flags@.len() == NUM_CHOICES
    }

    /// How many choices are eliminated so far.
    pub open spec fn count(&self) -> nat {
        count_trues(self.flags@)
    }

    pub fn new() -> (r: Self)
        ensures
            r.wf(),
            r@ == Set::<int>::empty(),
            r.count() == 0,
    {
        let mut flags: Vec<bool> = Vec::new();
        let mut k: usize = 0;
        while k < NUM_CHOICES
            invariant
                k <= NUM_CHOICES,
                flags@.len() == k,
                forall|i: int| 0 <= i < k ==> !(#[trigger] flags@[i]),
                count_trues(flags@) == 0,
            decreases NUM_CHOICES - k,
        {
            let ghost prev = flags@;
            flags.push(false);
            proof {
                assert(flags@.drop_last() =~= prev);
            }
            k += 1;
        }
        let r = Eliminated { flags };
        proof {
            assert(r@ =~= Set::<int>::empty());
        }
        r
    }

    pub fn contains(&self, c: CandidateId) -> (b: bool)
        requires
            self.wf(),
            c.wf(),
        ensures
            b == self@.contains(c.0 as int),
    {
        self.flags[c.0]
    }

    /// Add the round's loser to the set; nothing is ever removed.
    pub fn insert(&mut self, c: CandidateId)
        requires
            old(self).wf(),
            c.wf(),
        ensures
            final(self).wf(),
            final(self)@ == old(self)@.insert(c.0 as int),
            !old(self)@.contains(c.0 as int) ==> final(self).count() == old(self).count() + 1,
            old(self)@.contains(c.0 as int) ==> final(self).count() == old(self).count(),
    {
        let ghost oldflags = self.flags@;
        self.flags[c.0] = true;
        proof {
            assert(self.flags@ =~= oldflags.update(c.0 as int, true));
            assert(self@ =~= Set::new(
                |x: int| 0 <= x < NUM_CHOICES && oldflags[x],
            ).insert(c.0 as int));
            lemma_count_trues_update(oldflags, c.0 as int);
        }
    }
}

proof fn lemma_count_le_len(vs: Seq<Seq<int>>, c: int)
    ensures
        count_first_prefs(vs, c) <= vs.len(),
    decreases vs.len(),
{
    if vs.len() > 0 {
        lemma_count_le_len(vs.drop_last(), c);
    }
}

/// Build one round's tally afresh from the current front preference of every
/// non-exhausted voter.  Fully exhausted voters contribute to no entry.
pub fn tally_round(voters: &Vec<Voter>) -> (t: Vec<usize>)
    requires
        all_wf(views(voters@)),
    ensures
        t@.len() == NUM_CHOICES,
        forall|c: int|
            0 <= c < NUM_CHOICES ==> #[trigger] t@[c] == count_first_prefs(views(voters@), c),
{
    let ghost vs = views(voters@);
    let mut t: Vec<usize> = Vec::new();
    let mut k: usize = 0;
    while k < NUM_CHOICES
        invariant
            k <= NUM_CHOICES,
            t@.len() == k,
            forall|c: int| 0 <= c < k ==> #[trigger] t@[c] == 0,
        decreases NUM_CHOICES - k,
    {
        t.push(0);
        k += 1;
    }
    let mut n: usize = 0;
    while n < voters.len()
        invariant
            n <= voters@.len(),
            vs == views(voters@),
            all_wf(vs),
            t@.len() == NUM_CHOICES,
            forall|c: int|
                0 <= c < NUM_CHOICES ==> #[trigger] t@[c] == count_first_prefs(
                    vs.take(n as int),
                    c,
                ),
        decreases voters@.len() - n,
    {
        proof {
            assert(vs.take(n + 1).drop_last() =~= vs.take(n as int));
            assert(vs.take(n + 1).last() == vs[n as int]);
            assert(vs[n as int] == voters@[n as int]@);
        }
        if voters[n].choices.len() > 0 {
            let c = voters[n].choices[0];
            proof {
                assert(vs[n as int][0] == c.0 as int);
                assert(prefs_wf(vs[n as int]));
                lemma_count_le_len(vs.take(n as int), c.0 as int);
            }
            let cur = t[c.0];
            t[c.0] = cur + 1;
        } else {
            proof {
                assert(vs[n as int].len() == 0);
            }
        }
        n += 1;
    }
    proof {
        assert(vs.take(vs.len() as int) =~= vs);
    }
    t
}

/// Pick the round's leader: the maximal tally entry, ties resolved to the
/// lowest identifier.  `None` when no choice holds any votes at all (every
/// voter is exhausted).
pub fn leader(t: &Vec<usize>) -> (r: Option<CandidateId>)
    requires
        t@.len() == NUM_CHOICES,
    ensures
        match r {
            Some(c) => leader_of(t@, c.0 as int) && c.wf(),
            None => forall|d: int| 0 <= d < t@.len() ==> #[trigger] t@[d] == 0,
        },
{
    let mut best: Option<usize> = None;
    let mut c: usize = 0;
    while c < NUM_CHOICES
        invariant
            c <= NUM_CHOICES,
            t@.len() == NUM_CHOICES,
            match best {
                None => forall|d: int| 0 <= d < c ==> #[trigger] t@[d] == 0,
                Some(b) => {
                    &&& b < c
                    &&& t@[b as int] > 0
                    &&& forall|d: int| 0 <= d < c ==> #[trigger] t@[d] <= t@[b as int]
                    &&& forall|d: int| 0 <= d < b ==> #[trigger] t@[d] < t@[b as int]
                },
            },
        decreases NUM_CHOICES - c,
    {
        let tc = t[c];
        if tc > 0 {
            best = match best {
                None => Some(c),
                Some(b) => if tc > t[b] {
                    Some(c)
                } else {
                    Some(b)
                },
            };
        }
        c += 1;
    }
    match best {
        None => None,
        Some(b) => Some(CandidateId(b)),
    }
}

/// Pick the choice to eliminate: the minimal entry among choices that hold
/// votes, ties resolved to the lowest identifier.  The tally must not be
/// empty; an empty tally is the fatal exhausted-electorate condition that
/// the caller reports instead.
pub fn loser(t: &Vec<usize>) -> (r: CandidateId)
    requires
        t@.len() == NUM_CHOICES,
        exists|d: int| 0 <= d < t@.len() && #[trigger] t@[d] > 0,
    ensures
        loser_of(t@, r.0 as int),
        r.wf(),
{
    let mut best: Option<usize> = None;
    let mut c: usize = 0;
    while c < NUM_CHOICES
        invariant
            c <= NUM_CHOICES,
            t@.len() == NUM_CHOICES,
            match best {
                None => forall|d: int| 0 <= d < c ==> #[trigger] t@[d] == 0,
                Some(b) => {
                    &&& b < c
                    &&& t@[b as int] > 0
                    &&& forall|d: int|
                        0 <= d < c && #[trigger] t@[d] > 0 ==> t@[b as int] <= t@[d]
                    &&& forall|d: int|
                        0 <= d < b && #[trigger] t@[d] > 0 ==> t@[b as int] < t@[d]
                },
            },
        decreases NUM_CHOICES - c,
    {
        let tc = t[c];
        if tc > 0 {
            best = match best {
                None => Some(c),
                Some(b) => if tc < t[b] {
                    Some(c)
                } else {
                    Some(b)
                },
            };
        }
        c += 1;
    }
    match best {
        None => {
            proof {
                assert(false);
            }
            CandidateId(0)
        },
        Some(b) => CandidateId(b),
    }
}

/// Remove leading eliminated entries from one voter's preferences until the
/// front entry is a standing choice or the ballot is exhausted.
pub fn strip_front(voter: &mut Voter, elim: &Eliminated)
    requires
        elim.wf(),
        old(voter).wf(),
    ensures
        final(voter)@ == strip(old(voter)@, elim@),
        final(voter).wf(),
{
    while voter.choices.len() > 0 && elim.contains(voter.choices[0])
        invariant
            elim.wf(),
            voter.wf(),
            strip(voter@, elim@) == strip(old(voter)@, elim@),
        decreases voter.choices@.len(),
    {
        let ghost prev = voter@;
        voter.choices.remove(0);
        proof {
            assert(voter@ =~= prev.drop_first());
            assert(forall|i: int| 0 <= i < voter@.len() ==> #[trigger] voter@[i] == prev[i + 1]);
        }
    }
}

/// What one completed round reports: its 1-based number, the full tally
/// (indexed by identifier value), the round's leader, and the choice
/// eliminated at its end — `None` exactly in the terminal round, where the
/// leader held a majority and won.
#[derive(Debug, Clone)]
pub struct Round {
    pub number: usize,
    pub tally: Vec<usize>,
    pub leader: CandidateId,
    pub eliminated: Option<CandidateId>,
}

/// The eliminated set standing after the first `k` reported rounds.
pub open spec fn losers_before(rounds: Seq<Round>, k: int) -> Set<int>
    decreases k,
{
    if k <= 0 {
        Set::empty()
    } else {
        match rounds[k - 1].eliminated {
            Some(c) => losers_before(rounds, k - 1).insert(c.0 as int),
            None => losers_before(rounds, k - 1),
        }
    }
}

/// Round `k` (0-based) of a report is faithful to the electorate: its tally
/// counts the front preferences of the initial ballots stripped of all
/// earlier losers, its leader is the maximal entry (lowest identifier among
/// equals), and it either declares a strict majority of `total` and
/// eliminates nobody, or falls short and eliminates the minimal standing
/// entry (lowest identifier among equals).
pub open spec fn round_ok(initial: Seq<Seq<int>>, total: int, rounds: Seq<Round>, k: int) -> bool {
    let state = strip_all(initial, losers_before(rounds, k));
    let r = rounds[k];
    &&& r.number == k + 1
    &&& r.tally@.len() == NUM_CHOICES
    &&& forall|c: int|
        0 <= c < NUM_CHOICES ==> #[trigger] r.tally@[c] == count_first_prefs(state, c)
    &&& leader_of(r.tally@, r.leader.0 as int)
    &&& match r.eliminated {
        None => 2 * r.tally@[r.leader.0 as int] > total,
        Some(l) => {
            &&& 2 * r.tally@[r.leader.0 as int] <= total
            &&& loser_of(r.tally@, l.0 as int)
        },
    }
}

/// Every reported round is faithful to the electorate.
pub open spec fn trace_ok(initial: Seq<Seq<int>>, total: int, rounds: Seq<Round>) -> bool {
    forall|k: int| 0 <= k < rounds.len() ==> #[trigger] round_ok(initial, total, rounds, k)
}

/// Stripping with nothing eliminated changes nothing.
proof fn lemma_strip_all_empty(vs: Seq<Seq<int>>)
    ensures
        strip_all(vs, Set::empty()) == vs,
{
    assert forall|i: int| 0 <= i < vs.len() implies #[trigger] strip_all(vs, Set::empty())[i]
        == vs[i] by {
        assert(strip(vs[i], Set::empty()) == vs[i]);
    }
    assert(strip_all(vs, Set::empty()) =~= vs);
}

/// Stripping with a grown set finishes the job of the smaller one.
proof fn lemma_strip_compose(p: Seq<int>, e1: Set<int>, e2: Set<int>)
    requires
        e1 <= e2,
    ensures
        strip(strip(p, e1), e2) == strip(p, e2),
    decreases p.len(),
{
    if p.len() > 0 && e1.contains(p[0]) {
        lemma_strip_compose(p.drop_first(), e1, e2);
    }
}

/// What stripping leaves: a shorter, still well-formed sequence whose front
/// (if any) is a standing choice.
proof fn lemma_strip_props(p: Seq<int>, e: Set<int>)
    ensures
        strip(p, e).len() <= p.len(),
        strip(p, e).len() > 0 ==> !e.contains(strip(p, e)[0]),
        prefs_wf(p) ==> prefs_wf(strip(p, e)),
    decreases p.len(),
{
    if p.len() > 0 && e.contains(p[0]) {
        assert(forall|i: int|
            0 <= i < p.drop_first().len() ==> #[trigger] p.drop_first()[i] == p[i + 1]);
        lemma_strip_props(p.drop_first(), e);
    }
}

/// A choice at no voter's front holds no votes.
proof fn lemma_count_not_front_zero(vs: Seq<Seq<int>>, c: int)
    requires
        forall|i: int| 0 <= i < vs.len() ==> ((#[trigger] vs[i]).len() > 0 ==> vs[i][0] != c),
    ensures
        count_first_prefs(vs, c) == 0,
    decreases vs.len(),
{
    if vs.len() > 0 {
        lemma_count_not_front_zero(vs.drop_last(), c);
    }
}

/// With every count at zero, every voter is exhausted.
proof fn lemma_all_zero_all_empty(vs: Seq<Seq<int>>)
    requires
        all_wf(vs),
        forall|c: int| 0 <= c < NUM_CHOICES ==> #[trigger] count_first_prefs(vs, c) == 0,
    ensures
        forall|i: int| 0 <= i < vs.len() ==> (#[trigger] vs[i]).len() == 0,
    decreases vs.len(),
{
    if vs.len() > 0 {
        let last = vs.last();
        if last.len() > 0 {
            let c = last[0];
            assert(prefs_wf(vs[vs.len() - 1]));
            assert(0 <= c < NUM_CHOICES);
            assert(count_first_prefs(vs, c) >= 1);
            assert(false);
        }
        assert(all_wf(vs.drop_last())) by {
            assert(forall|i: int|
                0 <= i < vs.drop_last().len() ==> #[trigger] vs.drop_last()[i] == vs[i]);
        }
        assert forall|c: int| 0 <= c < NUM_CHOICES implies #[trigger] count_first_prefs(
            vs.drop_last(),
            c,
        ) == 0 by {
            assert(count_first_prefs(vs, c) == count_first_prefs(vs.drop_last(), c));
        }
        lemma_all_zero_all_empty(vs.drop_last());
        assert forall|i: int| 0 <= i < vs.len() implies (#[trigger] vs[i]).len() == 0 by {
            if i < vs.len() - 1 {
                assert(vs.drop_last()[i] == vs[i]);
            }
        }
    }
}

/// The eliminated set after `k` rounds reads only the first `k` rounds.
proof fn lemma_losers_before_push(rounds: Seq<Round>, r: Round, k: int)
    requires
        0 <= k <= rounds.len(),
    ensures
        losers_before(rounds.push(r), k) == losers_before(rounds, k),
    decreases k,
{
    if k > 0 {
        assert(rounds.push(r)[k - 1] == rounds[k - 1]);
        lemma_losers_before_push(rounds, r, k - 1);
    }
}

/// A faithful round stays faithful when a later round is reported.
proof fn lemma_round_ok_push(initial: Seq<Seq<int>>, total: int, rounds: Seq<Round>, r: Round, k: int)
    requires
        0 <= k < rounds.len(),
        round_ok(initial, total, rounds, k),
    ensures
        round_ok(initial, total, rounds.push(r), k),
{
    lemma_losers_before_push(rounds, r, k);
    assert(rounds.push(r)[k] == rounds[k]);
}

/// The complete election result: every round's report, ending in the round
/// whose leader held a strict majority, and that winner's raw vote count
/// against the fixed ballot total.
#[derive(Debug)]
pub struct ElectionResult {
    pub rounds: Vec<Round>,
    pub winner: CandidateId,
    pub winner_votes: usize,
    pub total_ballots: usize,
}

/// Run the instant-runoff loop to completion over the parsed voters.
///
/// Each round tallies the current front preference of every non-exhausted
/// voter.  A leader with a strict majority of all counted ballots — the
/// denominator is fixed at the start, not recomputed as ballots exhaust —
/// ends the run as the winner.  Otherwise the loser is eliminated, every
/// voter discards its leading eliminated entries, and the next round begins.
/// Ties for leader and for loser both go to the lowest identifier.  If every
/// ballot exhausts before any round finds a majority, the run fails with the
/// rounds completed up to that point.
pub fn run_election(voters: Vec<Voter>) -> (r: Result<ElectionResult, ElectionError>)
    requires
        all_wf(views(voters@)),
    ensures
        match r {
            Ok(res) => {
                &&& res.total_ballots == voters@.len()
                &&& res.rounds@.len() >= 1
                &&& trace_ok(views(voters@), voters@.len() as int, res.rounds@)
                &&& forall|k: int|
                    0 <= k < res.rounds@.len() - 1 ==> (#[trigger] res.rounds@[k]).eliminated
                        is Some
                &&& res.rounds@.last().eliminated is None
                &&& res.winner == res.rounds@.last().leader
                &&& res.winner_votes == res.rounds@.last().tally@[res.winner.0 as int]
            },
            Err(e) => e matches ElectionError::ExhaustedElectorate(rounds) && {
                &&& trace_ok(views(voters@), voters@.len() as int, rounds@)
                &&& forall|k: int|
                    0 <= k < rounds@.len() ==> (#[trigger] rounds@[k]).eliminated is Some
                &&& forall|i: int|
                    0 <= i < views(voters@).len() ==> strip(
                        #[trigger] views(voters@)[i],
                        losers_before(rounds@, rounds@.len() as int),
                    ).len() == 0
            },
        },
{
    let ghost initial = views(voters@);
    let total = voters.len();
    let mut live = voters;
    let mut elim = Eliminated::new();
    let mut rounds: Vec<Round> = Vec::new();
    proof {
        lemma_strip_all_empty(initial);
    }
    loop
        invariant
            initial == views(voters@),
            total == initial.len(),
            live@.len() == initial.len(),
            all_wf(initial),
            all_wf(views(live@)),
            elim.wf(),
            views(live@) == strip_all(initial, elim@),
            elim@ == losers_before(rounds@, rounds@.len() as int),
            rounds@.len() == elim.count(),
            elim.count() <= NUM_CHOICES,
            trace_ok(initial, total as int, rounds@),
            forall|k: int| 0 <= k < rounds@.len() ==> (#[trigger] rounds@[k]).eliminated is Some,
        decreases NUM_CHOICES - elim.count(),
    {
        let ghost state_k = views(live@);
        let ghost eold = elim@;
        let ghost k = rounds@.len() as int;
        let t = tally_round(&live);
        let number = rounds.len() + 1;
        match leader(&t) {
            None => {
                proof {
                    assert forall|c: int| 0 <= c < NUM_CHOICES implies #[trigger] count_first_prefs(
                        state_k,
                        c,
                    ) == 0 by {
                        assert(t@[c] == count_first_prefs(state_k, c));
                        assert(t@[c] == 0);
                    }
                    lemma_all_zero_all_empty(state_k);
                    assert forall|i: int| 0 <= i < initial.len() implies strip(
                        #[trigger] initial[i],
                        losers_before(rounds@, rounds@.len() as int),
                    ).len() == 0 by {
                        assert(state_k[i] == strip(initial[i], eold));
                    }
                }
                return Err(ElectionError::ExhaustedElectorate(rounds));
            },
            Some(ldr) => {
                let lv = t[ldr.0];
                proof {
                    lemma_count_le_len(state_k, ldr.0 as int);
                }
                if lv > total - lv {
                    let round = Round { number, tally: t, leader: ldr, eliminated: None };
                    let ghost oldrounds = rounds@;
                    rounds.push(round);
                    proof {
                        assert forall|m: int| 0 <= m < rounds@.len() implies #[trigger] round_ok(
                            initial,
                            total as int,
                            rounds@,
                            m,
                        ) by {
                            if m < k {
                                lemma_round_ok_push(initial, total as int, oldrounds, round, m);
                            } else {
                                lemma_losers_before_push(oldrounds, round, k);
                                assert(rounds@[k] == round);
                            }
                        }
                        assert(rounds@.last() == round);
                    }
                    return Ok(
                        ElectionResult {
                            rounds,
                            winner: ldr,
                            winner_votes: lv,
                            total_ballots: total,
                        },
                    );
                }
                let lsr = loser(&t);
                proof {
                    if eold.contains(lsr.0 as int) {
                        assert forall|i: int| 0 <= i < state_k.len() implies ((
                        #[trigger] state_k[i]).len() > 0 ==> state_k[i][0] != lsr.0 as int) by {
                            assert(state_k[i] == strip(initial[i], eold));
                            lemma_strip_props(initial[i], eold);
                        }
                        lemma_count_not_front_zero(state_k, lsr.0 as int);
                        assert(false);
                    }
                    lemma_count_trues_le_len(elim.flags@);
                }
                elim.insert(lsr);
                proof {
                    lemma_count_trues_le_len(elim.flags@);
                }
                let round = Round { number, tally: t, leader: ldr, eliminated: Some(lsr) };
                let ghost oldrounds = rounds@;
                rounds.push(round);
                proof {
                    assert forall|m: int| 0 <= m < rounds@.len() implies #[trigger] round_ok(
                        initial,
                        total as int,
                        rounds@,
                        m,
                    ) by {
                        if m < k {
                            lemma_round_ok_push(initial, total as int, oldrounds, round, m);
                        } else {
                            lemma_losers_before_push(oldrounds, round, k);
                            assert(rounds@[k] == round);
                        }
                    }
                    lemma_losers_before_push(oldrounds, round, k);
                    assert(rounds@[k] == round);
                    assert(losers_before(rounds@, k + 1) == eold.insert(lsr.0 as int));
                }
                let ghost enew = elim@;
                let mut n: usize = 0;
                while n < live.len()
                    invariant
                        n <= live@.len(),
                        live@.len() == initial.len(),
                        all_wf(initial),
                        elim.wf(),
                        elim@ == enew,
                        eold <= enew,
                        forall|j: int|
                            0 <= j < n ==> #[trigger] views(live@)[j] == strip(initial[j], enew),
                        forall|j: int|
                            n <= j < live@.len() ==> #[trigger] views(live@)[j] == strip(
                                initial[j],
                                eold,
                            ),
                        forall|j: int| 0 <= j < live@.len() ==> prefs_wf(#[trigger] views(live@)[j]),
                    decreases live@.len() - n,
                {
                    let ghost prevlive = live@;
                    proof {
                        lemma_strip_props(initial[n as int], eold);
                        assert(views(prevlive)[n as int] == prevlive[n as int]@);
                        assert(prefs_wf(prevlive[n as int]@));
                    }
                    strip_front(&mut live[n], &elim);
                    proof {
                        assert(live@[n as int]@ == strip(prevlive[n as int]@, enew));
                        lemma_strip_compose(initial[n as int], eold, enew);
                        lemma_strip_props(initial[n as int], enew);
                        assert forall|j: int| 0 <= j < live@.len() && j != n implies
                            #[trigger] views(live@)[j] == views(prevlive)[j] by {
                            assert(live@[j] == prevlive[j]);
                            assert(views(live@)[j] == live@[j]@);
                            assert(views(prevlive)[j] == prevlive[j]@);
                        }
                        assert(views(live@)[n as int] == live@[n as int]@);
                        assert(views(live@)[n as int] == strip(initial[n as int], enew));
                    }
                    n += 1;
                }
                proof {
                    assert(views(live@) =~= strip_all(initial, enew));
                }
            },
        }
    }
}

/// Sum of the counts of the choices `0 .. upto`.
pub open spec fn sum_counts(vs: Seq<Seq<int>>, upto: int) -> nat
    decreases upto,
{
    if upto <= 0 {
        0
    } else {
        sum_counts(vs, upto - 1) + count_first_prefs(vs, upto - 1)
    }
}

/// How many voters are fully exhausted (empty preference sequence).
pub open spec fn count_exhausted(vs: Seq<Seq<int>>) -> nat
    decreases vs.len(),
{
    if vs.len() == 0 {
        0
    } else {
        count_exhausted(vs.drop_last()) + (if vs.last().len() == 0 {
            1nat
        } else {
            0nat
        })
    }
}

/// Sum of the tally entries `0 .. upto`.
pub open spec fn sum_tally(t: Seq<usize>, upto: int) -> int
    decreases upto,
{
    if upto <= 0 {
        0
    } else {
        sum_tally(t, upto - 1) + t[upto - 1]
    }
}

proof fn lemma_sum_counts_zero(vs: Seq<Seq<int>>, upto: int)
    requires
        vs.len() == 0,
    ensures
        sum_counts(vs, upto) == 0,
    decreases upto,
{
    if upto > 0 {
        lemma_sum_counts_zero(vs, upto - 1);
    }
}

proof fn lemma_sum_counts_push(vs: Seq<Seq<int>>, v: Seq<int>, upto: int)
    ensures
        sum_counts(vs.push(v), upto) == sum_counts(vs, upto) + (if v.len() > 0 && 0 <= v[0]
            < upto {
            1int
        } else {
            0int
        }),
    decreases upto,
{
    if upto > 0 {
        lemma_sum_counts_push(vs, v, upto - 1);
        assert(vs.push(v).drop_last() =~= vs);
        assert(vs.push(v).last() == v);
    }
}

proof fn lemma_sum_tally_matches(t: Seq<usize>, vs: Seq<Seq<int>>, upto: int)
    requires
        0 <= upto <= t.len(),
        forall|c: int| 0 <= c < upto ==> #[trigger] t[c] == count_first_prefs(vs, c),
    ensures
        sum_tally(t, upto) == sum_counts(vs, upto),
    decreases upto,
{
    if upto > 0 {
        lemma_sum_tally_matches(t, vs, upto - 1);
    }
}

/// Vote conservation over any electorate state: every voter either stands
/// behind exactly one choice's count or is exhausted, so the counts sum to
/// the number of voters minus the exhausted ones, and never exceed it.
pub proof fn lemma_vote_conservation(vs: Seq<Seq<int>>)
    requires
        all_wf(vs),
    ensures
        sum_counts(vs, NUM_CHOICES as int) + count_exhausted(vs) == vs.len(),
        sum_counts(vs, NUM_CHOICES as int) <= vs.len(),
    decreases vs.len(),
{
    if vs.len() == 0 {
        lemma_sum_counts_zero(vs, NUM_CHOICES as int);
    } else {
        let dl = vs.drop_last();
        let v = vs.last();
        assert(all_wf(dl)) by {
            assert(forall|i: int| 0 <= i < dl.len() ==> #[trigger] dl[i] == vs[i]);
        }
        lemma_vote_conservation(dl);
        assert(dl.push(v) =~= vs);
        lemma_sum_counts_push(dl, v, NUM_CHOICES as int);
        assert(prefs_wf(vs[vs.len() - 1]));
    }
}

/// Vote conservation at a reported round: the sum of the round's tally
/// counts equals the fixed ballot total minus the number of voters already
/// exhausted when the round began, and so never exceeds the total.
pub proof fn lemma_round_vote_conservation(
    initial: Seq<Seq<int>>,
    total: int,
    rounds: Seq<Round>,
    k: int,
)
    requires
        all_wf(initial),
        total == initial.len(),
        0 <= k < rounds.len(),
        round_ok(initial, total, rounds, k),
    ensures
        sum_tally(rounds[k].tally@, NUM_CHOICES as int) + count_exhausted(
            strip_all(initial, losers_before(rounds, k)),
        ) == total,
        sum_tally(rounds[k].tally@, NUM_CHOICES as int) <= total,
{
    let state = strip_all(initial, losers_before(rounds, k));
    assert(all_wf(state)) by {
        assert forall|i: int| 0 <= i < state.len() implies prefs_wf(#[trigger] state[i]) by {
            assert(state[i] == strip(initial[i], losers_before(rounds, k)));
            lemma_strip_props(initial[i], losers_before(rounds, k));
        }
    }
    lemma_vote_conservation(state);
    lemma_sum_tally_matches(rounds[k].tally@, state, NUM_CHOICES as int);
}

proof fn lemma_single_le_sum(vs: Seq<Seq<int>>, c: int, upto: int)
    requires
        0 <= c < upto,
    ensures
        count_first_prefs(vs, c) <= sum_counts(vs, upto),
    decreases upto,
{
    if c < upto - 1 {
        lemma_single_le_sum(vs, c, upto - 1);
    }
}

proof fn lemma_pair_le_sum(vs: Seq<Seq<int>>, a: int, b: int, upto: int)
    requires
        0 <= a < b < upto,
    ensures
        count_first_prefs(vs, a) + count_first_prefs(vs, b) <= sum_counts(vs, upto),
    decreases upto,
{
    if b == upto - 1 {
        lemma_single_le_sum(vs, a, upto - 1);
    } else {
        lemma_pair_le_sum(vs, a, b, upto - 1);
    }
}

/// Majority termination: a choice that is the first preference of a strict
/// majority of the ballots is the leader of round 1 and wins there, so a
/// faithful report of such an electorate has exactly one round.
pub proof fn lemma_majority_wins_round_one(
    initial: Seq<Seq<int>>,
    total: int,
    rounds: Seq<Round>,
    c: int,
)
    requires
        all_wf(initial),
        total == initial.len(),
        rounds.len() >= 1,
        trace_ok(initial, total, rounds),
        forall|k: int| 0 <= k < rounds.len() - 1 ==> (#[trigger] rounds[k]).eliminated is Some,
        0 <= c < NUM_CHOICES,
        2 * count_first_prefs(initial, c) > total,
    ensures
        rounds[0].leader.0 == c,
        rounds[0].eliminated is None,
        rounds.len() == 1,
{
    assert(round_ok(initial, total, rounds, 0));
    lemma_strip_all_empty(initial);
    assert(strip_all(initial, losers_before(rounds, 0)) == initial);
    let t = rounds[0].tally@;
    let l = rounds[0].leader.0 as int;
    assert(t[c] == count_first_prefs(initial, c));
    assert(t[l] >= t[c]);
    if l != c {
        lemma_vote_conservation(initial);
        assert(t[l] == count_first_prefs(initial, l));
        if l < c {
            lemma_pair_le_sum(initial, l, c, NUM_CHOICES as int);
        } else {
            lemma_pair_le_sum(initial, c, l, NUM_CHOICES as int);
        }
        assert(false);
    }
    if rounds[0].eliminated is Some {
        assert(2 * t[l] <= total);
        assert(false);
    }
    if rounds.len() > 1 {
        assert(rounds[0].eliminated is Some);
        assert(false);
    }
}

proof fn lemma_losers_monotone(rounds: Seq<Round>, j: int, k: int)
    requires
        0 <= j <= k <= rounds.len(),
    ensures
        losers_before(rounds, j) <= losers_before(rounds, k),
    decreases k - j,
{
    if j < k {
        lemma_losers_monotone(rounds, j, k - 1);
        assert(losers_before(rounds, k - 1) <= losers_before(rounds, k));
    }
}

/// Monotonic elimination: the eliminated set only grows across rounds, and
/// a choice already eliminated is never again reported as a round's leader
/// nor as its eliminated choice.
pub proof fn lemma_monotonic_elimination(
    initial: Seq<Seq<int>>,
    total: int,
    rounds: Seq<Round>,
    j: int,
    k: int,
)
    requires
        all_wf(initial),
        trace_ok(initial, total, rounds),
        0 <= j <= k < rounds.len(),
    ensures
        losers_before(rounds, j) <= losers_before(rounds, k),
        !losers_before(rounds, k).contains(rounds[k].leader.0 as int),
        (rounds[k].eliminated matches Some(l) ==> !losers_before(rounds, k).contains(l.0 as int)),
{
    lemma_losers_monotone(rounds, j, k);
    let e = losers_before(rounds, k);
    let state = strip_all(initial, e);
    assert(round_ok(initial, total, rounds, k));
    let t = rounds[k].tally@;
    let l = rounds[k].leader.0 as int;
    if e.contains(l) {
        assert forall|i: int| 0 <= i < state.len() implies ((#[trigger] state[i]).len() > 0
            ==> state[i][0] != l) by {
            assert(state[i] == strip(initial[i], e));
            lemma_strip_props(initial[i], e);
        }
        lemma_count_not_front_zero(state, l);
        assert(t[l] == count_first_prefs(state, l));
        assert(false);
    }
    if rounds[k].eliminated is Some {
        let lo = rounds[k].eliminated.unwrap().0 as int;
        if e.contains(lo) {
            assert forall|i: int| 0 <= i < state.len() implies ((#[trigger] state[i]).len() > 0
                ==> state[i][0] != lo) by {
                assert(state[i] == strip(initial[i], e));
                lemma_strip_props(initial[i], e);
            }
            lemma_count_not_front_zero(state, lo);
            assert(t[lo] == count_first_prefs(state, lo));
            assert(false);
        }
    }
}

/// Exhaustion handling: a voter whose entire preference sequence names
/// eliminated choices strips to the empty ballot, and an exhausted voter
/// contributes nothing to any choice's count.
pub proof fn lemma_exhausted_voter(prefs: Seq<int>, elim: Set<int>, vs: Seq<Seq<int>>, c: int)
    requires
        forall|j: int| 0 <= j < prefs.len() ==> elim.contains(#[trigger] prefs[j]),
    ensures
        strip(prefs, elim).len() == 0,
        count_first_prefs(vs.push(Seq::empty()), c) == count_first_prefs(vs, c),
    decreases prefs.len(),
{
    assert(vs.push(Seq::empty()).drop_last() =~= vs);
    if prefs.len() > 0 {
        assert(elim.contains(prefs[0]));
        assert(forall|i: int|
            0 <= i < prefs.drop_first().len() ==> #[trigger] prefs.drop_first()[i] == prefs[i
                + 1]);
        lemma_exhausted_voter(prefs.drop_first(), elim, vs, c);
    }
}

} // verus!
