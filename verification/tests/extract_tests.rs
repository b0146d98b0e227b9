use exam_dedup::document::{
    extract_cell_text, filter_blocks, table_question_id, Block, Cell, CellParagraph, Row, Run,
    Table,
};
use exam_dedup::extract::{extract_questions, joined_correct_answers, ExtractError};
use exam_dedup::records::extract_questions_from_docx;
use exam_dedup::text::{split_commas_str, to_upper, trim};

fn cell(text: &str) -> Cell {
    Cell {
        paragraphs: vec![CellParagraph { runs: vec![Run::Text(text.to_string())] }],
    }
}

fn row(cells: Vec<&str>) -> Row {
    Row { cells: cells.into_iter().map(cell).collect() }
}

fn table(rows: Vec<Vec<&str>>) -> Table {
    Table { rows: rows.into_iter().map(row).collect() }
}

#[test]
fn cell_text_concatenates_all_text_runs() {
    let c = Cell {
        paragraphs: vec![
            CellParagraph {
                runs: vec![
                    Run::Text("Hello ".to_string()),
                    Run::Other,
                    Run::Text("wor".to_string()),
                ],
            },
            CellParagraph { runs: vec![Run::Text("ld".to_string())] },
        ],
    };
    assert_eq!(extract_cell_text(&c), "Hello world");
}

#[test]
fn trim_strips_surrounding_whitespace() {
    assert_eq!(trim("  a b \t\n"), "a b");
    assert_eq!(trim(""), "");
    assert_eq!(trim(" \t "), "");
    assert_eq!(trim("xy"), "xy");
}

#[test]
fn to_upper_folds_ascii_letters() {
    assert_eq!(to_upper("a,c d!"), "A,C D!");
    assert_eq!(to_upper(""), "");
}

#[test]
fn split_commas_keeps_empty_tokens() {
    let toks = split_commas_str("A, B,,C");
    let toks: Vec<&str> = toks.iter().map(|s| s.as_str()).collect();
    assert_eq!(toks, vec!["A", " B", "", "C"]);
    let single = split_commas_str("AB");
    assert_eq!(single.len(), 1);
    assert_eq!(single[0], "AB");
}

#[test]
fn extraction_parses_a_well_formed_table() {
    let blocks = vec![Block::Table(table(vec![
        vec!["QN=1 ", " What is a cat? "],
        vec!["a.", "A small feline"],
        vec!["b.", "A large dog"],
        vec!["ANSWER:", "a"],
    ]))];
    let qs = extract_questions(&blocks).unwrap();
    assert_eq!(qs.len(), 1);
    assert_eq!(qs[0].id, "1");
    assert_eq!(qs[0].text, "What is a cat?");
    assert_eq!(qs[0].options, vec!["A. A small feline", "B. A large dog"]);
    assert_eq!(qs[0].correct_answer_keys, vec!["A"]);
    assert_eq!(qs[0].correct_answers, vec!["A small feline"]);
}

#[test]
fn extraction_resolves_multiple_answers_in_key_order() {
    let blocks = vec![Block::Table(table(vec![
        vec!["QN=2", "Pick two"],
        vec!["a.", "First"],
        vec!["b.", "Second"],
        vec!["c.", "Third"],
        vec!["ANSWER:", "c, a"],
    ]))];
    let qs = extract_questions(&blocks).unwrap();
    assert_eq!(qs[0].correct_answer_keys, vec!["C", "A"]);
    assert_eq!(qs[0].correct_answers, vec!["Third", "First"]);
    assert_eq!(joined_correct_answers(&qs[0]), "Third First");
}

#[test]
fn extraction_of_empty_document_yields_no_questions() {
    let qs = extract_questions(&vec![]).unwrap();
    assert!(qs.is_empty());
}

#[test]
fn extraction_rejects_table_without_qn_prefix() {
    let blocks = vec![Block::Table(table(vec![
        vec!["Question 1", "What is a cat?"],
        vec!["a.", "A small feline"],
        vec!["ANSWER:", "a"],
    ]))];
    let err = extract_questions(&blocks).unwrap_err();
    assert!(matches!(err, ExtractError::MissingQuestionId));
}

#[test]
fn extraction_rejects_question_without_text() {
    let blocks = vec![Block::Table(table(vec![
        vec!["QN=3", "   "],
        vec!["a.", "Something"],
        vec!["ANSWER:", "a"],
    ]))];
    let err = extract_questions(&blocks).unwrap_err();
    match err {
        ExtractError::MissingQuestionText(id) => assert_eq!(id, "3"),
        _ => panic!("expected a missing-text error"),
    }
}

#[test]
fn extraction_rejects_unresolvable_answer_key() {
    let blocks = vec![Block::Table(table(vec![
        vec!["QN=7", "What is a dog?"],
        vec!["a.", "A canine"],
        vec!["ANSWER:", "E"],
    ]))];
    let err = extract_questions(&blocks).unwrap_err();
    match err {
        ExtractError::MissingCorrectAnswer(id) => assert_eq!(id, "7"),
        _ => panic!("expected a missing-answer error"),
    }
}

#[test]
fn extraction_is_all_or_nothing() {
    let blocks = vec![
        Block::Table(table(vec![
            vec!["QN=1", "Good question"],
            vec!["a.", "Fine"],
            vec!["ANSWER:", "a"],
        ])),
        Block::Table(table(vec![vec!["broken", "table"]])),
    ];
    assert!(extract_questions(&blocks).is_err());
}

#[test]
fn extraction_ignores_non_table_blocks_and_metadata_rows() {
    let blocks = vec![
        Block::Other,
        Block::Table(table(vec![
            vec!["QN=4", "Why?"],
            vec!["MARK:", "1"],
            vec!["a.", "Because"],
            vec!["ANSWER:", "A"],
        ])),
        Block::Other,
    ];
    let qs = extract_questions(&blocks).unwrap();
    assert_eq!(qs.len(), 1);
    assert_eq!(qs[0].id, "4");
    assert_eq!(qs[0].options.len(), 1);
}

#[test]
fn later_answer_row_wins() {
    let blocks = vec![Block::Table(table(vec![
        vec!["QN=5", "Choose"],
        vec!["a.", "Yes"],
        vec!["b.", "No"],
        vec!["ANSWER:", "a"],
        vec!["ANSWER:", "b"],
    ]))];
    let qs = extract_questions(&blocks).unwrap();
    assert_eq!(qs[0].correct_answers, vec!["No"]);
}

#[test]
fn error_messages_name_the_question() {
    let e = ExtractError::MissingCorrectAnswer("7".to_string());
    assert_eq!(e.message(), "malformed document: question 7 has no correct answer");
    let e = ExtractError::MissingQuestionId;
    assert_eq!(e.message(), "malformed document: a table is missing its question id");
}

#[test]
fn filter_keeps_matching_tables_and_those_without_an_id() {
    let blocks = vec![
        Block::Other,
        Block::Table(table(vec![vec!["QN=1", "One"]])),
        Block::Table(table(vec![vec!["QN=2", "Two"]])),
        Block::Table(table(vec![vec!["no id here", "text"]])),
        Block::Table(table(vec![vec!["QN=3", "Three"]])),
    ];
    let keep: Vec<String> = vec!["2".to_string()];
    let out = filter_blocks(blocks, &keep);
    assert_eq!(out.len(), 3);
    assert!(matches!(out[0], Block::Other));
    match &out[1] {
        Block::Table(t) => assert_eq!(table_question_id(t).unwrap(), "2"),
        _ => panic!("expected the kept table"),
    }
    match &out[2] {
        Block::Table(t) => assert!(table_question_id(t).is_none()),
        _ => panic!("expected the id-less table"),
    }
}

#[test]
fn filter_with_empty_keep_list_drops_every_identified_table() {
    let blocks = vec![
        Block::Table(table(vec![vec!["QN=1", "One"]])),
        Block::Table(table(vec![vec!["plain", "table"]])),
    ];
    let keep: Vec<String> = vec![];
    let out = filter_blocks(blocks, &keep);
    assert_eq!(out.len(), 1);
}

#[test]
fn records_read_metadata_fields() {
    let tables = vec![table(vec![
        vec!["QN=9", "What is an array?"],
        vec!["a.", "A sequence"],
        vec!["b.", ""],
        vec!["c.", "A tree"],
        vec!["ANSWER:", "a"],
        vec!["MARK:", "0.5"],
        vec!["UNIT:", "Chapter 1"],
        vec!["LO:", "LO2"],
        vec!["MIX CHOICES:", "Yes"],
        vec!["AUTHOR:", "someone"],
        vec!["EDITOR:", "someone else"],
        vec!["REFERENCE:", "the book"],
    ])];
    let recs = extract_questions_from_docx(&tables);
    assert_eq!(recs.len(), 1);
    let r = &recs[0];
    assert_eq!(r.qn, "9");
    assert_eq!(r.question, "What is an array?");
    assert_eq!(r.options, vec!["A sequence", "A tree"]);
    assert_eq!(r.answer, "a");
    assert_eq!(r.mark, "0.5");
    assert_eq!(r.unit, "Chapter 1");
    assert_eq!(r.lo, "LO2");
    assert_eq!(r.mix_choices, "Yes");
    assert_eq!(r.creator_reviewer, "someone");
    assert_eq!(r.editor, "someone else");
    assert_eq!(r.reference, "the book");
}
