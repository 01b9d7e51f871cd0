//! Sampling: drawing strings from a compiled pattern, bounded integers, and
//! a single uniformly-selected line out of a stream of unknown length.

use vstd::prelude::*;

use rand::Rng;

use crate::lexical::push_char;

verus! {

/// A compiled pattern ready for repeated sampling: one enumerated set of
/// candidate strings per sub-pattern, index-aligned with the repeat count of
/// that sub-pattern.
#[derive(Debug, PartialEq)]
pub struct StringSampler {
    pub support: Vec<Vec<String>>,
    pub repetitions: Vec<u8>,
}

/// The mathematical view of a support table: per sub-pattern, the sequence
/// of candidate strings as character sequences.
pub open spec fn support_view(support: Seq<Vec<String>>) -> Seq<Seq<Seq<char>>> {
    support.map_values(|g: Vec<String>| g@.map_values(|x: String| x@))
}

/// The view of one choice table: per sub-pattern, the drawn indexes.
pub open spec fn choices_view(ch: Seq<Vec<usize>>) -> Seq<Seq<usize>> {
    ch.map_values(|v: Vec<usize>| v@)
}

/// A choice table fits a sampler when it has one index group per
/// sub-pattern, each group as long as that sub-pattern's repeat count, and
/// every index within its candidate set.
pub open spec fn choices_ok(support: Seq<Seq<Seq<char>>>, reps: Seq<u8>, ch: Seq<Seq<usize>>) -> bool {
    &&& ch.len() == support.len()
    &&& forall|i: int| 0 <= i < ch.len() ==> (#[trigger] ch[i]).len() == reps[i]
    &&& forall|i: int, j: int|
        0 <= i < ch.len() && 0 <= j < ch[i].len() ==> (#[trigger] ch[i][j]) < support[i].len()
}

/// The concatenation of the candidates picked from one candidate set, in
/// draw order.
pub open spec fn render_group(alts: Seq<Seq<char>>, picks: Seq<usize>) -> Seq<char>
    decreases picks.len(),
{
    if picks.len() == 0 {
        Seq::empty()
    } else {
        alts[picks[0] as int] + render_group(alts, picks.drop_first())
    }
}

/// The full output for one choice table: the per-group concatenations,
/// joined in sub-pattern order.
pub open spec fn rendered(support: Seq<Seq<Seq<char>>>, ch: Seq<Seq<usize>>) -> Seq<char>
    decreases ch.len(),
{
    if ch.len() == 0 {
        Seq::empty()
    } else {
        render_group(support[0], ch[0]) + rendered(support.drop_first(), ch.drop_first())
    }
}

impl StringSampler {
    /// The view of this sampler's support table.
    pub open spec fn supports(&self) -> Seq<Seq<Seq<char>>> {
        support_view(self.support@)
    }

    /// Internal consistency: the support and repetition tables are
    /// index-aligned and no candidate set is empty.
    pub open spec fn wf(&self) -> bool {
        &&& self.support@.len() == self.repetitions@.len()
        &&& forall|i: int|
            0 <= i < self.support@.len() ==> (#[trigger] self.support@[i])@.len() >= 1
    }

    /// Assembles the output string for a given choice table: for each
    /// sub-pattern in order, the candidates picked by that group's indexes
    /// are appended in draw order.
    pub fn sample_with_choices(&self, choices: &Vec<Vec<usize>>) -> (r: String)
        requires
            self.wf(),
            choices_ok(self.supports(), self.repetitions@, choices_view(choices@)),
        ensures
            r@ == rendered(self.supports(), choices_view(choices@)),
    {
        let ghost sup = self.supports();
        let ghost ch = choices_view(choices@);
        let mut result = String::new();
        let mut i: usize = 0;
        proof {
            assert(sup.skip(0) =~= sup);
            assert(ch.skip(0) =~= ch);
        }
        while i < choices.len()
            invariant
                i <= choices@.len(),
                sup == self.supports(),
                ch == choices_view(choices@),
                choices_ok(sup, self.repetitions@, ch),
                self.wf(),
                rendered(sup, ch) == result@ + rendered(sup.skip(i as int), ch.skip(i as int)),
            decreases choices@.len() - i,
        {
            let group = &self.support[i];
            let picks = &choices[i];
            let ghost alts = sup[i as int];
            let ghost pk = ch[i as int];
            let ghost head = result@;
            let mut j: usize = 0;
            proof {
                assert(pk.skip(0) =~= pk);
            }
            while j < picks.len()
                invariant
                    j <= picks@.len(),
                    alts == group@.map_values(|x: String| x@),
                    pk == picks@,
                    forall|m: int| 0 <= m < pk.len() ==> (#[trigger] pk[m]) < alts.len(),
                    head.len() <= result@.len(),
                    result@.subrange(0, head.len() as int) == head,
                    render_group(alts, pk) == result@.skip(head.len() as int) + render_group(
                        alts,
                        pk.skip(j as int),
                    ),
                decreases picks@.len() - j,
            {
                let ghost old_res = result@;
                let idx = picks[j];
                result.append(group[idx].as_str());
                proof {
                    let alt = alts[pk[j as int] as int];
                    assert(alt == group@[idx as int]@);
                    assert(result@ == old_res + alt);
                    assert(result@.subrange(0, head.len() as int) =~= head);
                    assert(result@.skip(head.len() as int) =~= old_res.skip(head.len() as int)
                        + alt);
                    assert(pk.skip(j as int).drop_first() =~= pk.skip(j as int + 1));
                    assert(render_group(alts, pk.skip(j as int)) == alt + render_group(
                        alts,
                        pk.skip(j as int + 1),
                    ));
                    assert(result@.skip(head.len() as int) + render_group(
                        alts,
                        pk.skip(j as int + 1),
                    ) =~= old_res.skip(head.len() as int) + render_group(alts, pk.skip(j as int)));
                }
                j += 1;
            }
            proof {
                assert(pk.skip(pk.len() as int) =~= Seq::<usize>::empty());
                assert(render_group(alts, pk.skip(pk.len() as int)) == Seq::<char>::empty());
                assert(render_group(alts, pk) =~= result@.skip(head.len() as int));
                assert(result@ =~= head + result@.skip(head.len() as int));
                assert(sup.skip(i as int).drop_first() =~= sup.skip(i as int + 1));
                assert(ch.skip(i as int).drop_first() =~= ch.skip(i as int + 1));
                assert(sup.skip(i as int)[0] == alts);
                assert(ch.skip(i as int)[0] == pk);
                assert(rendered(sup, ch) == result@ + rendered(
                    sup.skip(i as int + 1),
                    ch.skip(i as int + 1),
                ));
            }
            i += 1;
        }
        proof {
            assert(ch.skip(ch.len() as int) =~= Seq::<Seq<usize>>::empty());
            assert(sup.skip(choices@.len() as int).len() == sup.len() - ch.len());
        }
        result
    }
}

/// Every candidate of each set has the fixed length given for that set.
pub open spec fn uniform_lengths(support: Seq<Seq<Seq<char>>>, lens: Seq<int>) -> bool {
    &&& support.len() == lens.len()
    &&& forall|i: int, k: int|
        0 <= i < support.len() && 0 <= k < support[i].len() ==> (#[trigger] support[i][k]).len()
            == lens[i]
}

/// The length every output must have when each candidate set has candidates
/// of one fixed length: the sum over the sets of that length times the
/// repeat count.
pub open spec fn weighted_length(lens: Seq<int>, reps: Seq<u8>) -> int
    decreases lens.len(),
{
    if lens.len() == 0 {
        0
    } else {
        lens[0] * (reps[0] as int) + weighted_length(lens.drop_first(), reps.drop_first())
    }
}

/// Picking from a set whose candidates all have length `len` contributes
/// `len` per pick.
proof fn lemma_render_group_length(alts: Seq<Seq<char>>, picks: Seq<usize>, len: int)
    requires
        forall|m: int| 0 <= m < picks.len() ==> (#[trigger] picks[m]) < alts.len(),
        forall|k: int| 0 <= k < alts.len() ==> (#[trigger] alts[k]).len() == len,
    ensures
        render_group(alts, picks).len() == len * picks.len(),
    decreases picks.len(),
{
    if picks.len() > 0 {
        lemma_render_group_length(alts, picks.drop_first(), len);
        assert(len * (picks.len() - 1) + len == len * picks.len()) by (nonlinear_arith);
    }
}

/// The output length of a sampler whose candidate sets each hold candidates
/// of one fixed length is the same for every choice table that fits: for a
/// pattern of literals and single-character classes the output length is
/// fully determined by the lengths and the repeat counts.
pub proof fn lemma_sample_length(
    support: Seq<Seq<Seq<char>>>,
    reps: Seq<u8>,
    ch: Seq<Seq<usize>>,
    lens: Seq<int>,
)
    requires
        choices_ok(support, reps, ch),
        uniform_lengths(support, lens),
        reps.len() == support.len(),
    ensures
        rendered(support, ch).len() == weighted_length(lens, reps),
    decreases ch.len(),
{
    if ch.len() > 0 {
        assert(forall|m: int| 0 <= m < ch[0].len() ==> (#[trigger] ch[0][m]) < support[0].len());
        lemma_render_group_length(support[0], ch[0], lens[0]);
        let sup2 = support.drop_first();
        let reps2 = reps.drop_first();
        let ch2 = ch.drop_first();
        let lens2 = lens.drop_first();
        assert(choices_ok(sup2, reps2, ch2)) by {
            assert forall|i: int| 0 <= i < ch2.len() implies (#[trigger] ch2[i]).len()
                == reps2[i] by {
                assert(ch2[i] == ch[i + 1]);
            }
            assert forall|i: int, j: int|
                0 <= i < ch2.len() && 0 <= j < ch2[i].len() implies (#[trigger] ch2[i][j])
                < sup2[i].len() by {
                assert(ch2[i] == ch[i + 1]);
                assert(sup2[i] == support[i + 1]);
            }
        }
        assert(uniform_lengths(sup2, lens2)) by {
            assert forall|i: int, k: int|
                0 <= i < sup2.len() && 0 <= k < sup2[i].len() implies (#[trigger] sup2[i][k]).len()
                == lens2[i] by {
                assert(sup2[i] == support[i + 1]);
            }
        }
        lemma_sample_length(sup2, reps2, ch2, lens2);
    }
}

/// Relies on `rand::Rng::gen_range` over `0..n` with the thread-local
/// generator: the range is non-empty, and the drawn value lies in it.
/// Nothing is assumed about the distribution.
#[verifier::external_body]
fn random_index(n: usize) -> (r: usize)
    requires
        1 <= n,
    ensures
        r < n,
{
    rand::thread_rng().gen_range(0..n)
}

/// Relies on `rand::Rng::gen_range` over `0..n` with the thread-local
/// generator: the range is non-empty, and the drawn value lies in it.
/// Nothing is assumed about the distribution.
#[verifier::external_body]
fn random_u64_below(n: u64) -> (r: u64)
    requires
        1 <= n,
    ensures
        r < n,
{
    rand::thread_rng().gen_range(0..n)
}

impl StringSampler {
    /// Draws one random output: for each sub-pattern in order, one
    /// independent uniform draw from its candidate set per repetition, all
    /// concatenated.  Every outcome is the assembly of some choice table
    /// that fits this sampler.
    pub fn sample(&self) -> (r: String)
        requires
            self.wf(),
        ensures
            exists|ch: Seq<Seq<usize>>|
                choices_ok(self.supports(), self.repetitions@, ch) && r@ == rendered(
                    self.supports(),
                    ch,
                ),
    {
        let mut choices: Vec<Vec<usize>> = Vec::new();
        let mut i: usize = 0;
        while i < self.support.len()
            invariant
                self.wf(),
                i <= self.support@.len(),
                i == choices@.len(),
                forall|m: int|
                    0 <= m < i ==> (#[trigger] choices@[m])@.len() == self.repetitions@[m],
                forall|m: int, j: int|
                    0 <= m < i && 0 <= j < choices@[m]@.len() ==> (#[trigger] choices@[m]@[j])
                        < self.support@[m]@.len(),
            decreases self.support@.len() - i,
        {
            let reps = self.repetitions[i];
            let group_len = self.support[i].len();
            let mut group: Vec<usize> = Vec::new();
            let mut j: u8 = 0;
            while j < reps
                invariant
                    j <= reps,
                    j as int == group@.len(),
                    1 <= group_len,
                    forall|m: int| 0 <= m < group@.len() ==> (#[trigger] group@[m]) < group_len,
                decreases reps - j,
            {
                group.push(random_index(group_len));
                j += 1;
            }
            choices.push(group);
            i += 1;
        }
        let result = self.sample_with_choices(&choices);
        proof {
            let ch = choices_view(choices@);
            assert(choices_ok(self.supports(), self.repetitions@, ch));
        }
        result
    }
}

/// Draws one integer uniformly from the half-open range `[lower, upper)`:
/// the lower bound is always reached in principle, the upper bound never.
pub fn integer_given_bounds(lower: u64, upper: u64) -> (r: u64)
    requires
        lower < upper,
    ensures
        lower <= r < upper,
{
    lower + random_u64_below(upper - lower)
}

/// Draws a string of exactly `length` characters, each one an independent
/// uniform pick from the 62 ASCII alphanumerics.
pub fn string_from_alphanumeric(length: usize) -> (r: String)
    ensures
        r@.len() == length,
        forall|i: int|
            0 <= i < r@.len() ==> "ABCDEFGHIJKLMNOPQRSTUVWXYZabcdefghijklmnopqrstuvwxyz0123456789"@.contains(
                #[trigger] r@[i],
            ),
{
    let alphabet = "ABCDEFGHIJKLMNOPQRSTUVWXYZabcdefghijklmnopqrstuvwxyz0123456789";
    proof {
        reveal_strlit("ABCDEFGHIJKLMNOPQRSTUVWXYZabcdefghijklmnopqrstuvwxyz0123456789");
    }
    let mut result = String::new();
    let mut i: usize = 0;
    while i < length
        invariant
            i == result@.len(),
            i <= length,
            alphabet@ == "ABCDEFGHIJKLMNOPQRSTUVWXYZabcdefghijklmnopqrstuvwxyz0123456789"@,
            alphabet@.len() == 62,
            forall|m: int| 0 <= m < result@.len() ==> alphabet@.contains(#[trigger] result@[m]),
        decreases length - i,
    {
        let idx = random_index(62);
        let c = alphabet.get_char(idx);
        push_char(&mut result, c);
        i += 1;
    }
    result
}

/// Single-slot reservoir over a stream of lines: after any number of offers
/// the held line is one of the lines seen, and each offer keeps the
/// uniform-selection discipline by replacing the held line with probability
/// `1 / count`.  The lines seen so far are tracked in ghost state.
pub struct Reservoir {
    pub selected: Option<String>,
    pub count: u64,
    pub lines: Ghost<Seq<Seq<char>>>,
}

impl Reservoir {
    /// Internal consistency: the count matches the lines seen, and a line
    /// is held exactly when at least one was offered, drawn from the lines
    /// seen.
    pub open spec fn wf(&self) -> bool {
        &&& self.count == self.lines@.len()
        &&& match self.selected {
            Some(s) => self.count > 0 && self.lines@.contains(s@),
            None => self.count == 0,
        }
    }

    /// An empty reservoir: nothing seen, nothing held.
    pub fn new() -> (r: Reservoir)
        ensures
            r.wf(),
            r.count == 0,
            r.lines@ == Seq::<Seq<char>>::empty(),
            r.selected is None,
    {
        Reservoir { selected: None, count: 0, lines: Ghost(Seq::empty()) }
    }

    /// Offers the next line of the stream: the line count rises by one and
    /// the held line is replaced by the offered one with probability
    /// `1 / count`, so the first line is always taken and afterwards the
    /// held line is either kept or replaced by the newcomer.
    pub fn offer(&mut self, line: String)
        requires
            old(self).wf(),
            old(self).count < u64::MAX,
        ensures
            final(self).wf(),
            final(self).count == old(self).count + 1,
            final(self).lines@ == old(self).lines@.push(line@),
            final(self).selected is Some,
            match (final(self).selected, old(self).selected) {
                (Some(now), Some(before)) => now@ == line@ || now@ == before@,
                (Some(now), None) => now@ == line@,
                _ => false,
            },
    {
        self.count = self.count + 1;
        proof {
            assert(old(self).lines@.push(line@).last() == line@);
            assert forall|x: Seq<char>| old(self).lines@.contains(x) implies old(
                self,
            ).lines@.push(line@).contains(x) by {
                let k = choose|k: int|
                    0 <= k < old(self).lines@.len() && old(self).lines@[k] == x;
                assert(old(self).lines@.push(line@)[k] == x);
            }
        }
        self.lines = Ghost(self.lines@.push(line@));
        let draw = random_u64_below(self.count);
        if draw == 0 {
            self.selected = Some(line);
        }
    }
}

} // verus!
