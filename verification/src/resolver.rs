//! The duplicate resolver.
//!
//! Given the extracted questions with their embeddings, the reference pairs
//! from the backing store, and the similarity threshold, each question is
//! classified in turn: first against its own options, then against the other
//! questions of the batch, then against the reference store, and otherwise as
//! unique with its closest reference candidate.  Every comparison is a strict
//! threshold test on both the question and the answer similarity.

use vstd::prelude::*;
use crate::extract::Question;
use crate::similarity::{
    SIMILARITY_SCALE, cosine_of, cosine_similarity, tdiv, valid_vector,
};
use crate::text::{trim, trim_seq};

verus! {

/// A precomputed embedding pair from the reference store.
pub struct ReferencePair {
    pub question_vector: Vec<i64>,
    pub answer_vector: Vec<i64>,
}

/// A question together with every embedding the resolver reads.
pub struct EmbeddedQuestion {
    /// The parsed question record.
    pub question: Question,
    /// Embedding of the question prompt.
    pub question_embedding: Vec<i64>,
    /// Embedding of the correct answers joined into one string.
    pub answer_embedding: Vec<i64>,
    /// One embedding per correct answer, in answer order.
    pub answer_embeddings: Vec<Vec<i64>>,
    /// One embedding per option line, in option order.
    pub option_embeddings: Vec<Vec<i64>>,
}

/// Why a question was flagged, and against what.
pub enum Verdict {
    /// Two of the question's own options mean the same thing.
    Internal { question: usize, first_option: usize, second_option: usize, similarity: i64 },
    /// The question duplicates another question of the same document.
    Document {
        question: usize,
        other: usize,
        question_similarity: i64,
        answer_similarity: i64,
        score: i64,
    },
    /// The question duplicates a stored reference pair.
    Reference {
        question: usize,
        reference: usize,
        question_similarity: i64,
        answer_similarity: i64,
        score: i64,
    },
    /// No duplicate anywhere; the closest reference candidate is kept for
    /// display when one exists.
    Unique { question: usize, closest: Option<ClosestReference> },
}

/// The best-scoring reference candidate of a unique question.
pub struct ClosestReference {
    pub reference: usize,
    pub question_similarity: i64,
    pub answer_similarity: i64,
    pub score: i64,
}

/// All embeddings of one question have dimension `d`, bounded coordinates,
/// and line up with the question's answers and options.
pub open spec fn eq_wf(q: EmbeddedQuestion, d: nat) -> bool {
    &&& q.question_embedding@.len() == d
    &&& valid_vector(q.question_embedding@)
    &&& q.answer_embedding@.len() == d
    &&& valid_vector(q.answer_embedding@)
    &&& q.answer_embeddings@.len() == q.question.correct_answers@.len()
    &&& forall|i: int|
        0 <= i < q.answer_embeddings@.len() ==> (#[trigger] q.answer_embeddings@[i]@.len() == d
            && valid_vector(q.answer_embeddings@[i]@))
    &&& q.option_embeddings@.len() == q.question.options@.len()
    &&& forall|i: int|
        0 <= i < q.option_embeddings@.len() ==> (#[trigger] q.option_embeddings@[i]@.len() == d
            && valid_vector(q.option_embeddings@[i]@))
}

/// Both vectors of a reference pair have dimension `d` and bounded
/// coordinates.
pub open spec fn ref_wf(r: ReferencePair, d: nat) -> bool {
    &&& r.question_vector@.len() == d
    &&& valid_vector(r.question_vector@)
    &&& r.answer_vector@.len() == d
    &&& valid_vector(r.answer_vector@)
}

/// Every question of the batch is well-formed at dimension `d`.
pub open spec fn questions_wf(qs: Seq<EmbeddedQuestion>, d: nat) -> bool {
    forall|i: int| 0 <= i < qs.len() ==> eq_wf(#[trigger] qs[i], d)
}

/// Every reference pair is well-formed at dimension `d`.
pub open spec fn references_wf(rs: Seq<ReferencePair>, d: nat) -> bool {
    forall|i: int| 0 <= i < rs.len() ==> ref_wf(#[trigger] rs[i], d)
}

/// The whole batch shares one embedding dimension `d`.
pub open spec fn batch_wf(qs: Seq<EmbeddedQuestion>, rs: Seq<ReferencePair>, d: nat) -> bool {
    questions_wf(qs, d) && references_wf(rs, d)
}

/// A pair of similarities classifies as a duplicate exactly when both
/// strictly exceed the threshold; equality never classifies.
pub open spec fn clears_threshold(s1: int, s2: int, t: int) -> bool {
    s1 > t && s2 > t
}

/// Whether a similarity pair classifies as a duplicate under `threshold`:
/// both values must strictly exceed it.
pub fn is_duplicate_pair(s1: i64, s2: i64, threshold: i64) -> (r: bool)
    ensures
        r == clears_threshold(s1 as int, s2 as int, threshold as int),
{
    s1 > threshold && s2 > threshold
}

/// The combined display score of a similarity pair: their mean, truncated
/// toward zero, in the fixed-point scale.
pub open spec fn score_spec(s1: int, s2: int) -> int {
    tdiv(s1 + s2, 2)
}

/// The combined display score of a similarity pair.
pub fn similarity_score(s1: i64, s2: i64) -> (r: i64)
    requires
        -SIMILARITY_SCALE <= s1 <= SIMILARITY_SCALE,
        -SIMILARITY_SCALE <= s2 <= SIMILARITY_SCALE,
    ensures
        r == score_spec(s1 as int, s2 as int),
{
    let sum = s1 + s2;
    if sum >= 0 {
        ((sum as u64) / 2) as i64
    } else {
        -(((-sum) as u64 / 2) as i64)
    }
}

/// The display score does not depend on the order of the two similarities.
pub proof fn lemma_score_symmetric(s1: int, s2: int)
    ensures
        score_spec(s1, s2) == score_spec(s2, s1),
{
}

/// The display score is monotonic in both similarities.
pub proof fn lemma_score_monotonic(a1: int, a2: int, b1: int, b2: int)
    requires
        a1 <= b1,
        a2 <= b2,
    ensures
        score_spec(a1, a2) <= score_spec(b1, b2),
{
    let a = a1 + a2;
    let b = b1 + b2;
    if a >= 0 {
        vstd::arithmetic::div_mod::lemma_div_is_ordered(a, b, 2);
    } else if b < 0 {
        vstd::arithmetic::div_mod::lemma_div_is_ordered(-b, -a, 2);
    } else {
        vstd::arithmetic::div_mod::lemma_div_pos_is_pos(-a, 2);
        vstd::arithmetic::div_mod::lemma_div_pos_is_pos(b, 2);
    }
}

/// Similarity of two questions' prompts.
pub open spec fn pair_question_sim(a: EmbeddedQuestion, b: EmbeddedQuestion) -> int {
    cosine_of(a.question_embedding@, b.question_embedding@)
}

/// Sum of the per-position similarities of the first `n` correct answers.
pub open spec fn answer_sim_sum(a: EmbeddedQuestion, b: EmbeddedQuestion, n: int) -> int
    decreases n,
{
    if n <= 0 {
        0
    } else {
        answer_sim_sum(a, b, n - 1) + cosine_of(
            a.answer_embeddings@[n - 1]@,
            b.answer_embeddings@[n - 1]@,
        )
    }
}

/// Answer similarity of two questions: `0` outright when they have different
/// numbers of correct answers, otherwise the mean of the per-position
/// similarities.
pub open spec fn pair_answer_sim(a: EmbeddedQuestion, b: EmbeddedQuestion) -> int {
    let n = a.question.correct_answers@.len() as int;
    if n != b.question.correct_answers@.len() as int {
        0
    } else if n == 0 {
        0
    } else {
        tdiv(answer_sim_sum(a, b, n), n)
    }
}

/// Both pairwise similarities are symmetric in the two questions.
pub proof fn lemma_pair_sims_symmetric(a: EmbeddedQuestion, b: EmbeddedQuestion)
    ensures
        pair_question_sim(a, b) == pair_question_sim(b, a),
        pair_answer_sim(a, b) == pair_answer_sim(b, a),
{
    crate::similarity::lemma_cosine_symmetric(
        crate::similarity::ints(a.question_embedding@),
        crate::similarity::ints(b.question_embedding@),
    );
    let n = a.question.correct_answers@.len() as int;
    if n == b.question.correct_answers@.len() as int {
        lemma_answer_sim_sum_symmetric(a, b, n);
    }
}

/// The per-position similarity sum is symmetric.
proof fn lemma_answer_sim_sum_symmetric(a: EmbeddedQuestion, b: EmbeddedQuestion, n: int)
    ensures
        answer_sim_sum(a, b, n) == answer_sim_sum(b, a, n),
    decreases n,
{
    if n > 0 {
        lemma_answer_sim_sum_symmetric(a, b, n - 1);
        crate::similarity::lemma_cosine_symmetric(
            crate::similarity::ints(a.answer_embeddings@[n - 1]@),
            crate::similarity::ints(b.answer_embeddings@[n - 1]@),
        );
    }
}

/// The two questions share an embedding dimension.
pub open spec fn compatible(a: EmbeddedQuestion, b: EmbeddedQuestion) -> bool {
    exists|d: nat| eq_wf(a, d) && eq_wf(b, d)
}

/// The pairwise similarities of two questions of one batch: the prompt
/// similarity, and the answer similarity, which is `0` outright whenever the
/// questions have different numbers of correct answers.
pub fn pair_similarity(a: &EmbeddedQuestion, b: &EmbeddedQuestion) -> (r: (i64, i64))
    requires
        compatible(*a, *b),
    ensures
        r.0 as int == pair_question_sim(*a, *b),
        r.1 as int == pair_answer_sim(*a, *b),
        -SIMILARITY_SCALE <= r.0 <= SIMILARITY_SCALE,
        -SIMILARITY_SCALE <= r.1 <= SIMILARITY_SCALE,
{
    let ghost d = choose|d: nat| eq_wf(*a, d) && eq_wf(*b, d);
    let qsim = cosine_similarity(&a.question_embedding, &b.question_embedding);
    let na = a.question.correct_answers.len();
    let nb = b.question.correct_answers.len();
    if na != nb || na == 0 {
        return (qsim, 0);
    }
    let mut sum: i128 = 0;
    let mut p: usize = 0;
    while p < na
        invariant
            p <= na,
            na == a.question.correct_answers@.len(),
            na == b.question.correct_answers@.len(),
            eq_wf(*a, d),
            eq_wf(*b, d),
            sum == answer_sim_sum(*a, *b, p as int),
            -(p as int) * SIMILARITY_SCALE <= sum <= (p as int) * SIMILARITY_SCALE,
        decreases na - p,
    {
        let c = cosine_similarity(&a.answer_embeddings[p], &b.answer_embeddings[p]);
        proof {
            assert((p as int) * SIMILARITY_SCALE + SIMILARITY_SCALE == ((p + 1) as int)
                * SIMILARITY_SCALE) by (nonlinear_arith);
        }
        sum = sum + c as i128;
        p = p + 1;
    }
    proof {
        assert((na as int) * SIMILARITY_SCALE <= 0x8000_0000_0000_0000_0000i128)
            by (nonlinear_arith)
            requires
                na <= 0xffff_ffff_ffff_ffffu64,
        ;
    }
    let mean: i64 = if sum >= 0 {
        let m = (sum as u128) / (na as u128);
        proof {
            vstd::arithmetic::div_mod::lemma_div_is_ordered(
                sum as int,
                (na as int) * SIMILARITY_SCALE,
                na as int,
            );
            vstd::arithmetic::div_mod::lemma_div_multiples_vanish(
                SIMILARITY_SCALE as int,
                na as int,
            );
        }
        m as i64
    } else {
        let m = ((-sum) as u128) / (na as u128);
        proof {
            vstd::arithmetic::div_mod::lemma_div_is_ordered(
                (-sum) as int,
                (na as int) * SIMILARITY_SCALE,
                na as int,
            );
            vstd::arithmetic::div_mod::lemma_div_multiples_vanish(
                SIMILARITY_SCALE as int,
                na as int,
            );
        }
        -(m as i64)
    };
    (qsim, mean)
}

/// An option takes part in the internal check only when its trimmed text is
/// longer than three characters.
pub open spec fn eligible_option(opts: Seq<Seq<char>>, j: int) -> bool {
    trim_seq(opts[j]).len() > 3
}

/// Options `j < k` are an internal duplicate pair: both eligible, and their
/// embeddings strictly clear the threshold.
pub open spec fn option_pair_hit(
    opts: Seq<Seq<char>>,
    embs: Seq<Seq<i64>>,
    t: int,
    j: int,
    k: int,
) -> bool {
    &&& 0 <= j < k < opts.len()
    &&& eligible_option(opts, j)
    &&& eligible_option(opts, k)
    &&& cosine_of(embs[j], embs[k]) > t
}

/// First hit for fixed `j`, scanning `k` upward.
pub open spec fn fip_inner(
    opts: Seq<Seq<char>>,
    embs: Seq<Seq<i64>>,
    t: int,
    j: int,
    k: int,
) -> Option<(int, int)>
    decreases opts.len() - k,
{
    if k >= opts.len() {
        None
    } else if option_pair_hit(opts, embs, t, j, k) {
        Some((j, k))
    } else {
        fip_inner(opts, embs, t, j, k + 1)
    }
}

/// First hit scanning `j` upward, pairs in lexicographic order.
pub open spec fn fip_outer(
    opts: Seq<Seq<char>>,
    embs: Seq<Seq<i64>>,
    t: int,
    j: int,
) -> Option<(int, int)>
    decreases opts.len() - j,
{
    if j >= opts.len() {
        None
    } else {
        match fip_inner(opts, embs, t, j, j + 1) {
            Some(p) => Some(p),
            None => fip_outer(opts, embs, t, j + 1),
        }
    }
}

/// The first internal duplicate pair of an option list, in scan order.
pub open spec fn first_internal_pair(opts: Seq<Seq<char>>, embs: Seq<Seq<i64>>, t: int) -> Option<
    (int, int),
> {
    fip_outer(opts, embs, t, 0)
}

/// An ineligible first option admits no hit for any `k`.
proof fn lemma_fip_inner_inelig(opts: Seq<Seq<char>>, embs: Seq<Seq<i64>>, t: int, j: int, k: int)
    requires
        !eligible_option(opts, j),
    ensures
        fip_inner(opts, embs, t, j, k) is None,
    decreases opts.len() - k,
{
    if k < opts.len() {
        lemma_fip_inner_inelig(opts, embs, t, j, k + 1);
    }
}

/// A hit reported by the inner scan is a real hit.
proof fn lemma_fip_inner_sound(
    opts: Seq<Seq<char>>,
    embs: Seq<Seq<i64>>,
    t: int,
    j: int,
    k0: int,
    j2: int,
    k2: int,
)
    requires
        fip_inner(opts, embs, t, j, k0) == Some((j2, k2)),
    ensures
        option_pair_hit(opts, embs, t, j2, k2),
    decreases opts.len() - k0,
{
    if k0 < opts.len() && !option_pair_hit(opts, embs, t, j, k0) {
        lemma_fip_inner_sound(opts, embs, t, j, k0 + 1, j2, k2);
    }
}

/// A reported internal pair is a real hit: both options are eligible and
/// their similarity strictly clears the threshold.
pub proof fn lemma_internal_pair_is_hit(
    opts: Seq<Seq<char>>,
    embs: Seq<Seq<i64>>,
    t: int,
    j: int,
    k: int,
)
    requires
        first_internal_pair(opts, embs, t) == Some((j, k)),
    ensures
        option_pair_hit(opts, embs, t, j, k),
{
    lemma_fip_outer_sound(opts, embs, t, 0, j, k);
}

/// A hit reported by the outer scan is a real hit.
proof fn lemma_fip_outer_sound(
    opts: Seq<Seq<char>>,
    embs: Seq<Seq<i64>>,
    t: int,
    j0: int,
    j2: int,
    k2: int,
)
    requires
        fip_outer(opts, embs, t, j0) == Some((j2, k2)),
    ensures
        option_pair_hit(opts, embs, t, j2, k2),
    decreases opts.len() - j0,
{
    if j0 < opts.len() {
        match fip_inner(opts, embs, t, j0, j0 + 1) {
            Some(p) => {
                lemma_fip_inner_sound(opts, embs, t, j0, j0 + 1, j2, k2);
            },
            None => {
                lemma_fip_outer_sound(opts, embs, t, j0 + 1, j2, k2);
            },
        }
    }
}

/// An empty inner scan admits no hit at its first index from `k0` on.
proof fn lemma_fip_inner_complete(
    opts: Seq<Seq<char>>,
    embs: Seq<Seq<i64>>,
    t: int,
    j: int,
    k0: int,
)
    requires
        fip_inner(opts, embs, t, j, k0) is None,
    ensures
        forall|k: int| k0 <= k ==> !option_pair_hit(opts, embs, t, j, k),
    decreases opts.len() - k0,
{
    if k0 < opts.len() {
        lemma_fip_inner_complete(opts, embs, t, j, k0 + 1);
    }
}

/// When no internal pair is reported, no pair of options is a hit.
pub proof fn lemma_no_internal_pair(opts: Seq<Seq<char>>, embs: Seq<Seq<i64>>, t: int)
    requires
        first_internal_pair(opts, embs, t) is None,
    ensures
        forall|j: int, k: int| !option_pair_hit(opts, embs, t, j, k),
{
    lemma_fip_outer_complete(opts, embs, t, 0);
    assert forall|j: int, k: int| !option_pair_hit(opts, embs, t, j, k) by {
        if 0 <= j && j < k {
            assert(!option_pair_hit(opts, embs, t, j, k));
        }
    }
}

/// An empty outer scan admits no hit at any first index from `j0` on.
proof fn lemma_fip_outer_complete(opts: Seq<Seq<char>>, embs: Seq<Seq<i64>>, t: int, j0: int)
    requires
        fip_outer(opts, embs, t, j0) is None,
    ensures
        forall|j: int, k: int| j0 <= j ==> !option_pair_hit(opts, embs, t, j, k),
    decreases opts.len() - j0,
{
    if j0 < opts.len() {
        lemma_fip_inner_complete(opts, embs, t, j0, j0 + 1);
        lemma_fip_outer_complete(opts, embs, t, j0 + 1);
        assert forall|j: int, k: int| j0 <= j implies !option_pair_hit(opts, embs, t, j, k) by {
            if j == j0 {
                if k > j0 {
                    assert(!option_pair_hit(opts, embs, t, j0, k));
                }
            }
        }
    }
}

/// The option embeddings are usable pairwise: each bounded, all of one
/// dimension.
pub open spec fn embeddings_usable(embs: Seq<Seq<i64>>) -> bool {
    &&& forall|i: int| 0 <= i < embs.len() ==> valid_vector(#[trigger] embs[i])
    &&& forall|i: int, j: int|
        0 <= i < embs.len() && 0 <= j < embs.len() ==> (#[trigger] embs[i]).len() == (
        #[trigger] embs[j]).len()
}

/// The first pair of distinct options that mean the same thing: both with
/// trimmed text longer than three characters, embeddings strictly clearing
/// the threshold; pairs are scanned in document order.
pub fn find_duplicate_answer_pair(
    answers: &Vec<String>,
    embeddings: &Vec<Vec<i64>>,
    threshold: i64,
) -> (r: Option<(usize, usize, i64)>)
    requires
        embeddings@.len() == answers@.len(),
        embeddings_usable(embeddings.deep_view()),
    ensures
        match r {
            Some(hit) => hit.0 < hit.1 < answers@.len() && first_internal_pair(
                answers.deep_view(),
                embeddings.deep_view(),
                threshold as int,
            ) == Some((hit.0 as int, hit.1 as int)) && hit.2 as int == cosine_of(
                embeddings.deep_view()[hit.0 as int],
                embeddings.deep_view()[hit.1 as int],
            ),
            None => first_internal_pair(
                answers.deep_view(),
                embeddings.deep_view(),
                threshold as int,
            ) is None,
        },
{
    let ghost opts = answers.deep_view();
    let ghost embs = embeddings.deep_view();
    let n = answers.len();
    proof {
        assert(embs.len() == n);
        assert(opts.len() == n);
    }
    let mut j: usize = 0;
    while j < n
        invariant
            j <= n,
            n == answers@.len(),
            n == embeddings@.len(),
            opts == answers.deep_view(),
            embs == embeddings.deep_view(),
            embeddings_usable(embs),
            fip_outer(opts, embs, threshold as int, 0) == fip_outer(
                opts,
                embs,
                threshold as int,
                j as int,
            ),
        decreases n - j,
    {
        let elig_j = trim(answers[j].as_str()).unicode_len() > 3;
        proof {
            assert(answers@[j as int]@ == opts[j as int]);
            assert(elig_j == eligible_option(opts, j as int));
        }
        if elig_j {
            let mut k: usize = j + 1;
            while k < n
                invariant
                    j < k <= n,
                    n == answers@.len(),
                    n == embeddings@.len(),
                    opts == answers.deep_view(),
                    embs == embeddings.deep_view(),
                    embeddings_usable(embs),
                    fip_outer(opts, embs, threshold as int, 0) == match fip_inner(
                        opts,
                        embs,
                        threshold as int,
                        j as int,
                        k as int,
                    ) {
                        Some(p) => Some(p),
                        None => fip_outer(opts, embs, threshold as int, j as int + 1),
                    },
                    eligible_option(opts, j as int),
                decreases n - k,
            {
                let elig_k = trim(answers[k].as_str()).unicode_len() > 3;
                proof {
                    assert(answers@[k as int]@ == opts[k as int]);
                    assert(elig_k == eligible_option(opts, k as int));
                    assert(embeddings@[j as int]@ == embs[j as int]);
                    assert(embeddings@[k as int]@ == embs[k as int]);
                }
                if elig_k {
                    let s = cosine_similarity(&embeddings[j], &embeddings[k]);
                    if s > threshold {
                        proof {
                            assert(option_pair_hit(
                                opts,
                                embs,
                                threshold as int,
                                j as int,
                                k as int,
                            ));
                        }
                        return Some((j, k, s));
                    }
                }
                proof {
                    assert(!option_pair_hit(opts, embs, threshold as int, j as int, k as int));
                }
                k = k + 1;
            }
            proof {
                assert(fip_inner(opts, embs, threshold as int, j as int, n as int) is None);
            }
        } else {
            proof {
                lemma_fip_inner_inelig(opts, embs, threshold as int, j as int, j as int + 1);
            }
        }
        j = j + 1;
    }
    None
}

/// The internal-answer check: the first pair of options that mean the same
/// thing, as the two option texts with their similarity, or nothing.
/// Options with trimmed text of three characters or fewer are ignored.
pub fn check_duplicate_answers(
    answers: &Vec<String>,
    embeddings: &Vec<Vec<i64>>,
    threshold: i64,
) -> (r: Option<(String, String, i64)>)
    requires
        embeddings@.len() == answers@.len(),
        embeddings_usable(embeddings.deep_view()),
    ensures
        match (
            r,
            first_internal_pair(answers.deep_view(), embeddings.deep_view(), threshold as int),
        ) {
            (Some(hit), Some(p)) => hit.0@ == answers.deep_view()[p.0] && hit.1@
                == answers.deep_view()[p.1] && hit.2 as int == cosine_of(
                embeddings.deep_view()[p.0],
                embeddings.deep_view()[p.1],
            ),
            (None, None) => true,
            _ => false,
        },
{
    match find_duplicate_answer_pair(answers, embeddings, threshold) {
        Some((j, k, s)) => Some((answers[j].clone(), answers[k].clone(), s)),
        None => None,
    }
}

/// Similarity of a question's prompt to a stored question vector.
pub open spec fn ref_question_sim(q: EmbeddedQuestion, r: ReferencePair) -> int {
    cosine_of(q.question_embedding@, r.question_vector@)
}

/// Similarity of a question's joined answers to a stored answer vector.
pub open spec fn ref_answer_sim(q: EmbeddedQuestion, r: ReferencePair) -> int {
    cosine_of(q.answer_embedding@, r.answer_vector@)
}

/// The question matches a reference pair: both similarities strictly clear
/// the threshold.
pub open spec fn is_ref_match(q: EmbeddedQuestion, r: ReferencePair, t: int) -> bool {
    clears_threshold(ref_question_sim(q, r), ref_answer_sim(q, r), t)
}

/// Index of the first matching reference pair at or after `k`, if any.
pub open spec fn first_ref_match_from(
    q: EmbeddedQuestion,
    refs: Seq<ReferencePair>,
    t: int,
    k: int,
) -> Option<int>
    decreases refs.len() - k,
{
    if k >= refs.len() {
        None
    } else if is_ref_match(q, refs[k], t) {
        Some(k)
    } else {
        first_ref_match_from(q, refs, t, k + 1)
    }
}

/// The combined similarity a reference candidate is ranked by.
pub open spec fn cand_sum(q: EmbeddedQuestion, r: ReferencePair) -> int {
    ref_question_sim(q, r) + ref_answer_sim(q, r)
}

/// The best-ranked reference among the first `n`, earliest one winning ties.
pub open spec fn best_candidate_upto(q: EmbeddedQuestion, refs: Seq<ReferencePair>, n: int) -> Option<
    int,
>
    decreases n,
{
    if n <= 0 {
        None
    } else {
        match best_candidate_upto(q, refs, n - 1) {
            None => Some(n - 1),
            Some(b) => if cand_sum(q, refs[n - 1]) > cand_sum(q, refs[b]) {
                Some(n - 1)
            } else {
                Some(b)
            },
        }
    }
}

/// The internal-duplicate pair of one question's options, if any.
pub open spec fn internal_pair_of(q: EmbeddedQuestion, t: int) -> Option<(int, int)> {
    first_internal_pair(q.question.options.deep_view(), q.option_embeddings.deep_view(), t)
}

/// The verdict for an internal duplicate at options `j < k` of question `i`.
pub open spec fn internal_verdict(qs: Seq<EmbeddedQuestion>, i: int, j: int, k: int) -> Verdict {
    Verdict::Internal {
        question: i as usize,
        first_option: j as usize,
        second_option: k as usize,
        similarity: cosine_of(
            qs[i].option_embeddings.deep_view()[j],
            qs[i].option_embeddings.deep_view()[k],
        ) as i64,
    }
}

/// The verdict for question `i` duplicating question `j` of the batch.
pub open spec fn document_verdict(qs: Seq<EmbeddedQuestion>, i: int, j: int) -> Verdict {
    Verdict::Document {
        question: i as usize,
        other: j as usize,
        question_similarity: pair_question_sim(qs[i], qs[j]) as i64,
        answer_similarity: pair_answer_sim(qs[i], qs[j]) as i64,
        score: score_spec(pair_question_sim(qs[i], qs[j]), pair_answer_sim(qs[i], qs[j])) as i64,
    }
}

/// The verdict for question `i` duplicating reference pair `m`.
pub open spec fn reference_verdict(
    qs: Seq<EmbeddedQuestion>,
    refs: Seq<ReferencePair>,
    i: int,
    m: int,
) -> Verdict {
    Verdict::Reference {
        question: i as usize,
        reference: m as usize,
        question_similarity: ref_question_sim(qs[i], refs[m]) as i64,
        answer_similarity: ref_answer_sim(qs[i], refs[m]) as i64,
        score: score_spec(ref_question_sim(qs[i], refs[m]), ref_answer_sim(qs[i], refs[m])) as i64,
    }
}

/// The closest reference candidate recorded on a unique question.
pub open spec fn closest_of(q: EmbeddedQuestion, refs: Seq<ReferencePair>) -> Option<
    ClosestReference,
> {
    match best_candidate_upto(q, refs, refs.len() as int) {
        None => None,
        Some(b) => Some(
            ClosestReference {
                reference: b as usize,
                question_similarity: ref_question_sim(q, refs[b]) as i64,
                answer_similarity: ref_answer_sim(q, refs[b]) as i64,
                score: score_spec(ref_question_sim(q, refs[b]), ref_answer_sim(q, refs[b])) as i64,
            },
        ),
    }
}

/// Question `j` of the batch duplicates question `i`.
pub open spec fn is_doc_match(qs: Seq<EmbeddedQuestion>, t: int, i: int, j: int) -> bool {
    j != i && clears_threshold(pair_question_sim(qs[i], qs[j]), pair_answer_sim(qs[i], qs[j]), t)
}

/// The document-duplicate verdicts of question `i` against questions before
/// `n`, in batch order.
pub open spec fn doc_verdicts_upto(qs: Seq<EmbeddedQuestion>, t: int, i: int, n: int) -> Seq<
    Verdict,
>
    decreases n,
{
    if n <= 0 {
        Seq::empty()
    } else {
        let pre = doc_verdicts_upto(qs, t, i, n - 1);
        if is_doc_match(qs, t, i, n - 1) {
            pre.push(document_verdict(qs, i, n - 1))
        } else {
            pre
        }
    }
}

/// The verdicts emitted for question `i`: its internal duplicate if it has
/// one; else every document duplicate; else the first reference duplicate;
/// else a unique verdict carrying the closest reference candidate.
pub open spec fn verdicts_for(
    qs: Seq<EmbeddedQuestion>,
    refs: Seq<ReferencePair>,
    t: int,
    i: int,
) -> Seq<Verdict> {
    match internal_pair_of(qs[i], t) {
        Some(p) => seq![internal_verdict(qs, i, p.0, p.1)],
        None => {
            let dv = doc_verdicts_upto(qs, t, i, qs.len() as int);
            if dv.len() > 0 {
                dv
            } else {
                match first_ref_match_from(qs[i], refs, t, 0) {
                    Some(m) => seq![reference_verdict(qs, refs, i, m)],
                    None => seq![
                        Verdict::Unique { question: i as usize, closest: closest_of(qs[i], refs) },
                    ],
                }
            }
        },
    }
}

/// The verdicts of the first `n` questions, in order.
pub open spec fn resolve_upto(
    qs: Seq<EmbeddedQuestion>,
    refs: Seq<ReferencePair>,
    t: int,
    n: int,
) -> Seq<Verdict>
    decreases n,
{
    if n <= 0 {
        Seq::empty()
    } else {
        resolve_upto(qs, refs, t, n - 1) + verdicts_for(qs, refs, t, n - 1)
    }
}

/// The full resolution of a batch: every question's verdicts, in order.
pub open spec fn resolution(qs: Seq<EmbeddedQuestion>, refs: Seq<ReferencePair>, t: int) -> Seq<
    Verdict,
> {
    resolve_upto(qs, refs, t, qs.len() as int)
}

/// Every cache entry holds the two similarities of its canonical question
/// pair.
spec fn cache_wf(c: Seq<(usize, usize, i64, i64)>, qs: Seq<EmbeddedQuestion>) -> bool {
    forall|x: int|
        0 <= x < c.len() ==> {
            let e = #[trigger] c[x];
            &&& e.0 < e.1
            &&& (e.1 as int) < qs.len()
            &&& e.2 as int == pair_question_sim(qs[e.0 as int], qs[e.1 as int])
            &&& e.3 as int == pair_answer_sim(qs[e.0 as int], qs[e.1 as int])
            &&& -SIMILARITY_SCALE <= e.2 <= SIMILARITY_SCALE
            &&& -SIMILARITY_SCALE <= e.3 <= SIMILARITY_SCALE
        }
}

/// The cached similarities of the canonical pair `(a, b)`, if present.
fn cache_lookup(
    cache: &Vec<(usize, usize, i64, i64)>,
    qs: &Vec<EmbeddedQuestion>,
    a: usize,
    b: usize,
) -> (r: Option<(i64, i64)>)
    requires
        cache_wf(cache@, qs@),
        a < b < qs@.len(),
    ensures
        match r {
            Some(s) => s.0 as int == pair_question_sim(qs@[a as int], qs@[b as int]) && s.1 as int
                == pair_answer_sim(qs@[a as int], qs@[b as int]) && -SIMILARITY_SCALE <= s.0
                <= SIMILARITY_SCALE && -SIMILARITY_SCALE <= s.1 <= SIMILARITY_SCALE,
            None => true,
        },
{
    let mut x: usize = 0;
    while x < cache.len()
        invariant
            x <= cache@.len(),
            cache_wf(cache@, qs@),
            a < b < qs@.len(),
        decreases cache@.len() - x,
    {
        let e = cache[x];
        if e.0 == a && e.1 == b {
            return Some((e.2, e.3));
        }
        x = x + 1;
    }
    None
}

/// The two pairwise similarities of questions `i` and `j`, memoized in the
/// cache under the canonical ordered index pair.
fn pair_sims_cached(
    qs: &Vec<EmbeddedQuestion>,
    i: usize,
    j: usize,
    cache: &mut Vec<(usize, usize, i64, i64)>,
) -> (r: (i64, i64))
    requires
        i != j,
        i < qs@.len(),
        j < qs@.len(),
        cache_wf(old(cache)@, qs@),
        exists|d: nat| questions_wf(qs@, d),
    ensures
        cache_wf(final(cache)@, qs@),
        r.0 as int == pair_question_sim(qs@[i as int], qs@[j as int]),
        r.1 as int == pair_answer_sim(qs@[i as int], qs@[j as int]),
        -SIMILARITY_SCALE <= r.0 <= SIMILARITY_SCALE,
        -SIMILARITY_SCALE <= r.1 <= SIMILARITY_SCALE,
{
    let (a, b) = if i < j {
        (i, j)
    } else {
        (j, i)
    };
    let sims = match cache_lookup(cache, qs, a, b) {
        Some(s) => s,
        None => {
            proof {
                let d = choose|d: nat| questions_wf(qs@, d);
                assert(eq_wf(qs@[a as int], d));
                assert(eq_wf(qs@[b as int], d));
            }
            let s = pair_similarity(&qs[a], &qs[b]);
            let ghost prev = cache@;
            cache.push((a, b, s.0, s.1));
            proof {
                assert forall|x: int| 0 <= x < cache@.len() implies {
                    let e = #[trigger] cache@[x];
                    &&& e.0 < e.1
                    &&& (e.1 as int) < qs@.len()
                    &&& e.2 as int == pair_question_sim(qs@[e.0 as int], qs@[e.1 as int])
                    &&& e.3 as int == pair_answer_sim(qs@[e.0 as int], qs@[e.1 as int])
                    &&& -SIMILARITY_SCALE <= e.2 <= SIMILARITY_SCALE
                    &&& -SIMILARITY_SCALE <= e.3 <= SIMILARITY_SCALE
                } by {
                    if x < prev.len() {
                        assert(cache@[x] == prev[x]);
                    }
                }
            }
            s
        },
    };
    proof {
        if i > j {
            lemma_pair_sims_symmetric(qs@[a as int], qs@[b as int]);
        }
    }
    sims
}

/// Classifies every question of the batch, in order.
///
/// Each question yields its internal-duplicate verdict when two of its own
/// options clear the threshold; otherwise one document-duplicate verdict for
/// every other question of the batch that clears it; otherwise a
/// reference-duplicate verdict for the first matching stored pair; otherwise
/// a unique verdict carrying the best-ranked reference candidate, when one
/// exists.  Pairwise similarities are memoized per run, keyed by the
/// unordered question pair.
pub fn resolve_questions(
    questions: &Vec<EmbeddedQuestion>,
    references: &Vec<ReferencePair>,
    threshold: i64,
) -> (r: Vec<Verdict>)
    requires
        0 < threshold < SIMILARITY_SCALE,
        exists|d: nat| batch_wf(questions@, references@, d),
    ensures
        r@ == resolution(questions@, references@, threshold as int),
{
    let ghost t = threshold as int;
    let mut out: Vec<Verdict> = Vec::new();
    let mut cache: Vec<(usize, usize, i64, i64)> = Vec::new();
    let n = questions.len();
    let mut i: usize = 0;
    while i < n
        invariant
            i <= n,
            n == questions@.len(),
            t == threshold as int,
            0 < threshold < SIMILARITY_SCALE,
            exists|d: nat| batch_wf(questions@, references@, d),
            cache_wf(cache@, questions@),
            out@ == resolve_upto(questions@, references@, t, i as int),
        decreases n - i,
    {
        let ghost d0 = choose|d: nat| batch_wf(questions@, references@, d);
        proof {
            assert(eq_wf(questions@[i as int], d0));
        }
        let q = &questions[i];
        proof {
            assert forall|x: int|
                0 <= x < q.option_embeddings.deep_view().len() implies valid_vector(
                #[trigger] q.option_embeddings.deep_view()[x],
            ) && q.option_embeddings.deep_view()[x].len() == d0 by {
                assert(q.option_embeddings.deep_view()[x] == q.option_embeddings@[x]@);
            }
            assert(embeddings_usable(q.option_embeddings.deep_view()));
        }
        let internal = find_duplicate_answer_pair(
            &q.question.options,
            &q.option_embeddings,
            threshold,
        );
        match internal {
            Some((j, k, s)) => {
                out.push(
                    Verdict::Internal {
                        question: i,
                        first_option: j,
                        second_option: k,
                        similarity: s,
                    },
                );
                proof {
                    assert(internal_pair_of(questions@[i as int], t) == Some((j as int, k as int)));
                    assert(verdicts_for(questions@, references@, t, i as int) =~= seq![
                        internal_verdict(questions@, i as int, j as int, k as int),
                    ]);
                    assert(out@ =~= resolve_upto(questions@, references@, t, i as int + 1));
                }
            },
            None => {
                proof {
                    assert(internal_pair_of(questions@[i as int], t) is None);
                    assert(doc_verdicts_upto(questions@, t, i as int, 0) =~= Seq::<Verdict>::empty());
                }
                let mut j: usize = 0;
                let mut found = false;
                while j < n
                    invariant
                        j <= n,
                        i < n,
                        n == questions@.len(),
                        t == threshold as int,
                        0 < threshold < SIMILARITY_SCALE,
                        exists|d: nat| batch_wf(questions@, references@, d),
                        cache_wf(cache@, questions@),
                        internal_pair_of(questions@[i as int], t) is None,
                        out@ == resolve_upto(questions@, references@, t, i as int)
                            + doc_verdicts_upto(questions@, t, i as int, j as int),
                        found == (doc_verdicts_upto(questions@, t, i as int, j as int).len() > 0),
                    decreases n - j,
                {
                    if j != i {
                        proof {
                            let d = choose|d: nat| batch_wf(questions@, references@, d);
                            assert(questions_wf(questions@, d));
                        }
                        let (s1, s2) = pair_sims_cached(questions, i, j, &mut cache);
                        if is_duplicate_pair(s1, s2, threshold) {
                            let sc = similarity_score(s1, s2);
                            out.push(
                                Verdict::Document {
                                    question: i,
                                    other: j,
                                    question_similarity: s1,
                                    answer_similarity: s2,
                                    score: sc,
                                },
                            );
                            found = true;
                            proof {
                                assert(is_doc_match(questions@, t, i as int, j as int));
                                assert(out@.last() == document_verdict(
                                    questions@,
                                    i as int,
                                    j as int,
                                ));
                                assert(out@ =~= resolve_upto(questions@, references@, t, i as int)
                                    + doc_verdicts_upto(questions@, t, i as int, j as int + 1));
                            }
                        } else {
                            proof {
                                assert(!is_doc_match(questions@, t, i as int, j as int));
                            }
                        }
                    } else {
                        proof {
                            assert(!is_doc_match(questions@, t, i as int, j as int));
                        }
                    }
                    j = j + 1;
                }
                if found {
                    proof {
                        assert(verdicts_for(questions@, references@, t, i as int)
                            == doc_verdicts_upto(questions@, t, i as int, n as int));
                        assert(out@ =~= resolve_upto(questions@, references@, t, i as int + 1));
                    }
                } else {
                    proof {
                        assert(out@ =~= resolve_upto(questions@, references@, t, i as int));
                    }
                    let m = references.len();
                    let mut k: usize = 0;
                    let mut done = false;
                    let mut best: Option<(usize, i64, i64)> = None;
                    while k < m
                        invariant
                            k <= m,
                            i < n,
                            n == questions@.len(),
                            m == references@.len(),
                            t == threshold as int,
                            0 < threshold < SIMILARITY_SCALE,
                            exists|d: nat| batch_wf(questions@, references@, d),
                            cache_wf(cache@, questions@),
                            internal_pair_of(questions@[i as int], t) is None,
                            doc_verdicts_upto(questions@, t, i as int, n as int).len() == 0,
                            !done ==> out@ == resolve_upto(questions@, references@, t, i as int),
                            !done ==> first_ref_match_from(
                                questions@[i as int],
                                references@,
                                t,
                                0,
                            ) == first_ref_match_from(questions@[i as int], references@, t, k as int),
                            !done ==> match best {
                                None => best_candidate_upto(
                                    questions@[i as int],
                                    references@,
                                    k as int,
                                ) is None,
                                Some(bb) => {
                                    &&& best_candidate_upto(
                                        questions@[i as int],
                                        references@,
                                        k as int,
                                    ) == Some(bb.0 as int)
                                    &&& bb.0 < m
                                    &&& bb.1 as int == ref_question_sim(
                                        questions@[i as int],
                                        references@[bb.0 as int],
                                    )
                                    &&& bb.2 as int == ref_answer_sim(
                                        questions@[i as int],
                                        references@[bb.0 as int],
                                    )
                                    &&& -SIMILARITY_SCALE <= bb.1 <= SIMILARITY_SCALE
                                    &&& -SIMILARITY_SCALE <= bb.2 <= SIMILARITY_SCALE
                                },
                            },
                            done ==> out@ == resolve_upto(questions@, references@, t, i as int)
                                + verdicts_for(questions@, references@, t, i as int),
                        decreases m - k,
                    {
                        if !done {
                            let ghost d1 = choose|d: nat| batch_wf(questions@, references@, d);
                            proof {
                                assert(eq_wf(questions@[i as int], d1));
                                assert(ref_wf(references@[k as int], d1));
                            }
                            let qq = &questions[i];
                            let rp = &references[k];
                            let s1 = cosine_similarity(&qq.question_embedding, &rp.question_vector);
                            let s2 = cosine_similarity(&qq.answer_embedding, &rp.answer_vector);
                            if is_duplicate_pair(s1, s2, threshold) {
                                let sc = similarity_score(s1, s2);
                                out.push(
                                    Verdict::Reference {
                                        question: i,
                                        reference: k,
                                        question_similarity: s1,
                                        answer_similarity: s2,
                                        score: sc,
                                    },
                                );
                                done = true;
                                proof {
                                    assert(is_ref_match(
                                        questions@[i as int],
                                        references@[k as int],
                                        t,
                                    ));
                                    assert(first_ref_match_from(
                                        questions@[i as int],
                                        references@,
                                        t,
                                        k as int,
                                    ) == Some(k as int));
                                    assert(out@.last() == reference_verdict(
                                        questions@,
                                        references@,
                                        i as int,
                                        k as int,
                                    ));
                                    assert(verdicts_for(questions@, references@, t, i as int)
                                        =~= seq![
                                        reference_verdict(
                                            questions@,
                                            references@,
                                            i as int,
                                            k as int,
                                        ),
                                    ]);
                                    assert(out@ =~= resolve_upto(
                                        questions@,
                                        references@,
                                        t,
                                        i as int,
                                    ) + verdicts_for(questions@, references@, t, i as int));
                                }
                            } else {
                                proof {
                                    assert(!is_ref_match(
                                        questions@[i as int],
                                        references@[k as int],
                                        t,
                                    ));
                                    assert(cand_sum(questions@[i as int], references@[k as int])
                                        == s1 as int + s2 as int);
                                }
                                match best {
                                    None => {
                                        best = Some((k, s1, s2));
                                    },
                                    Some(bb) => {
                                        if s1 + s2 > bb.1 + bb.2 {
                                            best = Some((k, s1, s2));
                                        }
                                    },
                                }
                            }
                        }
                        k = k + 1;
                    }
                    if !done {
                        proof {
                            assert(first_ref_match_from(
                                questions@[i as int],
                                references@,
                                t,
                                0,
                            ) is None);
                        }
                        let closest = match best {
                            None => None,
                            Some((b, s1, s2)) => {
                                let sc = similarity_score(s1, s2);
                                Some(
                                    ClosestReference {
                                        reference: b,
                                        question_similarity: s1,
                                        answer_similarity: s2,
                                        score: sc,
                                    },
                                )
                            },
                        };
                        proof {
                            assert(closest == closest_of(questions@[i as int], references@));
                        }
                        out.push(Verdict::Unique { question: i, closest });
                        proof {
                            assert(verdicts_for(questions@, references@, t, i as int) =~= seq![
                                Verdict::Unique {
                                    question: i as int as usize,
                                    closest: closest_of(questions@[i as int], references@),
                                },
                            ]);
                            assert(out@ =~= resolve_upto(questions@, references@, t, i as int)
                                + verdicts_for(questions@, references@, t, i as int));
                        }
                    }
                    proof {
                        assert(out@ =~= resolve_upto(questions@, references@, t, i as int + 1));
                    }
                }
            },
        }
        i = i + 1;
    }
    proof {
        assert(out@ =~= resolution(questions@, references@, t));
    }
    out
}

impl Verdict {
    /// Whether this verdict flags a duplicate of any kind.
    pub fn is_similar(&self) -> (r: bool)
        ensures
            r == !(*self is Unique),
    {
        match self {
            Verdict::Unique { .. } => false,
            _ => true,
        }
    }

    /// The display label of the verdict's kind.
    pub fn duplicate_type(&self) -> (r: String)
        ensures
            r@ == duplicate_type_label(*self),
    {
        match self {
            Verdict::Internal { .. } => String::from_str("internal"),
            Verdict::Document { .. } => String::from_str("docx"),
            Verdict::Reference { .. } => String::from_str("db"),
            Verdict::Unique { .. } => String::from_str("none"),
        }
    }
}

/// The display label of a verdict's kind.
pub open spec fn duplicate_type_label(v: Verdict) -> Seq<char> {
    match v {
        Verdict::Internal { .. } => "internal"@,
        Verdict::Document { .. } => "docx"@,
        Verdict::Reference { .. } => "db"@,
        Verdict::Unique { .. } => "none"@,
    }
}

} // verus!
