use exam_dedup::extract::Question;
use exam_dedup::resolver::{
    check_duplicate_answers, pair_similarity, resolve_questions, EmbeddedQuestion, ReferencePair,
    Verdict,
};

fn question(id: &str, text: &str, answers: Vec<&str>) -> Question {
    Question {
        id: id.to_string(),
        text: text.to_string(),
        options: vec![],
        correct_answer_keys: answers.iter().map(|_| "A".to_string()).collect(),
        correct_answers: answers.into_iter().map(|s| s.to_string()).collect(),
    }
}

fn embedded(id: &str, text: &str, answers: Vec<&str>, qe: Vec<i64>, ae: Vec<i64>) -> EmbeddedQuestion {
    let n = answers.len();
    EmbeddedQuestion {
        question: question(id, text, answers),
        question_embedding: qe,
        answer_embedding: ae.clone(),
        answer_embeddings: vec![ae; n],
        option_embeddings: vec![],
    }
}

fn with_options(mut q: EmbeddedQuestion, options: Vec<&str>, embs: Vec<Vec<i64>>) -> EmbeddedQuestion {
    q.question.options = options.into_iter().map(|s| s.to_string()).collect();
    q.option_embeddings = embs;
    q
}

#[test]
fn internal_check_ignores_short_options() {
    // Four options of at most three characters, all with identical
    // embeddings: no internal duplicate may be raised.
    let answers: Vec<String> =
        vec!["Cat".to_string(), "Dog".to_string(), "Hat".to_string(), "Mat".to_string()];
    let embs: Vec<Vec<i64>> = vec![vec![10000, 0]; 4];
    assert!(check_duplicate_answers(&answers, &embs, 9000).is_none());
}

#[test]
fn internal_check_reports_first_similar_long_pair() {
    let answers: Vec<String> = vec![
        "A blue sky".to_string(),
        "Abc".to_string(),
        "A clear sky".to_string(),
        "A clear sky again".to_string(),
    ];
    let embs: Vec<Vec<i64>> =
        vec![vec![10000, 0], vec![10000, 0], vec![10000, 0], vec![0, 10000]];
    let hit = check_duplicate_answers(&answers, &embs, 9000).unwrap();
    assert_eq!(hit.0, "A blue sky");
    assert_eq!(hit.1, "A clear sky");
    assert_eq!(hit.2, 10000);
}

#[test]
fn answer_similarity_is_zero_when_answer_counts_differ() {
    // Identical answer embeddings, but one question has one correct answer
    // and the other two: the answer similarity is forced to zero.
    let a = embedded("1", "Same text", vec!["Only answer"], vec![10000, 0], vec![10000, 0]);
    let b = embedded(
        "2",
        "Same text",
        vec!["First", "Second"],
        vec![10000, 0],
        vec![10000, 0],
    );
    let (qsim, asim) = pair_similarity(&a, &b);
    assert_eq!(qsim, 10000);
    assert_eq!(asim, 0);
}

#[test]
fn answer_similarity_is_mean_of_positions() {
    let mut a = embedded("1", "T", vec!["x", "y"], vec![10000, 0], vec![10000, 0]);
    let mut b = embedded("2", "T", vec!["x", "y"], vec![10000, 0], vec![10000, 0]);
    a.answer_embeddings = vec![vec![10000, 0], vec![10000, 0]];
    b.answer_embeddings = vec![vec![10000, 0], vec![0, 10000]];
    let (_, asim) = pair_similarity(&a, &b);
    assert_eq!(asim, 5000);
}

#[test]
fn identical_questions_are_document_duplicates_both_ways() {
    // Two questions with identical text and a single identical correct
    // answer, threshold 0.5: both are flagged against each other, and the
    // reference check is skipped even though a reference would match.
    let q0 = embedded("1", "What is a cat?", vec!["A feline"], vec![10000, 0], vec![10000, 0]);
    let q1 = embedded("2", "What is a cat?", vec!["A feline"], vec![10000, 0], vec![10000, 0]);
    let refs = vec![ReferencePair {
        question_vector: vec![10000, 0],
        answer_vector: vec![10000, 0],
    }];
    let verdicts = resolve_questions(&vec![q0, q1], &refs, 5000);
    assert_eq!(verdicts.len(), 2);
    match &verdicts[0] {
        Verdict::Document { question, other, question_similarity, answer_similarity, score } => {
            assert_eq!((*question, *other), (0, 1));
            assert_eq!(*question_similarity, 10000);
            assert_eq!(*answer_similarity, 10000);
            assert_eq!(*score, 10000);
        }
        _ => panic!("expected a document duplicate for the first question"),
    }
    match &verdicts[1] {
        Verdict::Document { question, other, .. } => {
            assert_eq!((*question, *other), (1, 0));
        }
        _ => panic!("expected a document duplicate for the second question"),
    }
    assert!(verdicts[0].is_similar());
    assert_eq!(verdicts[0].duplicate_type(), "docx");
}

#[test]
fn below_threshold_reference_becomes_closest_candidate() {
    // The best reference match is over the threshold on the question side
    // only: the verdict is unique, with that pair recorded as the closest
    // candidate.
    let q = embedded("1", "What is a cat?", vec!["A feline"], vec![10000, 0], vec![3000, 4000]);
    let refs = vec![ReferencePair {
        question_vector: vec![6000, 8000],
        answer_vector: vec![-3000, 4000],
    }];
    let verdicts = resolve_questions(&vec![q], &refs, 5000);
    assert_eq!(verdicts.len(), 1);
    match &verdicts[0] {
        Verdict::Unique { question, closest } => {
            assert_eq!(*question, 0);
            let c = closest.as_ref().unwrap();
            assert_eq!(c.reference, 0);
            assert_eq!(c.question_similarity, 6000);
            assert_eq!(c.answer_similarity, 2800);
            assert_eq!(c.score, 4400);
        }
        _ => panic!("expected a unique verdict"),
    }
    assert!(!verdicts[0].is_similar());
    assert_eq!(verdicts[0].duplicate_type(), "none");
}

#[test]
fn reference_duplicate_stops_at_first_match() {
    let q = embedded("1", "Stored question", vec!["Stored answer"], vec![10000, 0], vec![0, 10000]);
    let matching = ReferencePair { question_vector: vec![10000, 0], answer_vector: vec![0, 10000] };
    let also_matching =
        ReferencePair { question_vector: vec![10000, 0], answer_vector: vec![0, 10000] };
    let verdicts = resolve_questions(&vec![q], &vec![matching, also_matching], 5000);
    assert_eq!(verdicts.len(), 1);
    match &verdicts[0] {
        Verdict::Reference { question, reference, question_similarity, answer_similarity, score } => {
            assert_eq!((*question, *reference), (0, 0));
            assert_eq!(*question_similarity, 10000);
            assert_eq!(*answer_similarity, 10000);
            assert_eq!(*score, 10000);
        }
        _ => panic!("expected a reference duplicate"),
    }
    assert_eq!(verdicts[0].duplicate_type(), "db");
}

#[test]
fn internal_duplicate_skips_all_other_checks() {
    let q0 = with_options(
        embedded("1", "Twin question", vec!["Answer text"], vec![10000, 0], vec![10000, 0]),
        vec!["Large cat creature", "Giant cat creature"],
        vec![vec![10000, 0], vec![10000, 0]],
    );
    let q1 = embedded("2", "Twin question", vec!["Answer text"], vec![10000, 0], vec![10000, 0]);
    let verdicts = resolve_questions(&vec![q0, q1], &vec![], 5000);
    assert_eq!(verdicts.len(), 2);
    match &verdicts[0] {
        Verdict::Internal { question, first_option, second_option, similarity } => {
            assert_eq!(*question, 0);
            assert_eq!((*first_option, *second_option), (0, 1));
            assert_eq!(*similarity, 10000);
        }
        _ => panic!("expected an internal duplicate"),
    }
    match &verdicts[1] {
        Verdict::Document { question, other, .. } => {
            assert_eq!((*question, *other), (1, 0));
        }
        _ => panic!("expected a document duplicate for the second question"),
    }
    assert_eq!(verdicts[0].duplicate_type(), "internal");
}

#[test]
fn mismatched_answer_counts_never_match_end_to_end() {
    // Same prompts and same joined-answer embeddings, but different answer
    // counts: no document duplicate, and with no references both are unique.
    let q0 = embedded("1", "Same", vec!["One"], vec![10000, 0], vec![10000, 0]);
    let q1 = embedded("2", "Same", vec!["One", "Two"], vec![10000, 0], vec![10000, 0]);
    let verdicts = resolve_questions(&vec![q0, q1], &vec![], 5000);
    assert_eq!(verdicts.len(), 2);
    assert!(matches!(verdicts[0], Verdict::Unique { closest: None, .. }));
    assert!(matches!(verdicts[1], Verdict::Unique { closest: None, .. }));
}

#[test]
fn unique_without_references_has_no_candidate() {
    let q = embedded("1", "Alone", vec!["Answer"], vec![10000, 0], vec![0, 10000]);
    let verdicts = resolve_questions(&vec![q], &vec![], 5000);
    assert_eq!(verdicts.len(), 1);
    match &verdicts[0] {
        Verdict::Unique { question, closest } => {
            assert_eq!(*question, 0);
            assert!(closest.is_none());
        }
        _ => panic!("expected a unique verdict"),
    }
}

#[test]
fn empty_batch_resolves_to_nothing() {
    let verdicts = resolve_questions(&vec![], &vec![], 5000);
    assert!(verdicts.is_empty());
}

#[test]
fn best_candidate_keeps_first_on_ties() {
    let q = embedded("1", "Q", vec!["A"], vec![10000, 0], vec![10000, 0]);
    let r0 = ReferencePair { question_vector: vec![6000, 8000], answer_vector: vec![-3000, 4000] };
    let r1 = ReferencePair { question_vector: vec![6000, 8000], answer_vector: vec![-3000, 4000] };
    let verdicts = resolve_questions(&vec![q], &vec![r0, r1], 9000);
    match &verdicts[0] {
        Verdict::Unique { closest, .. } => {
            assert_eq!(closest.as_ref().unwrap().reference, 0);
        }
        _ => panic!("expected a unique verdict"),
    }
}
