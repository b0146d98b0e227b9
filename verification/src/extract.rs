//! The document question extractor.
//!
//! Each table of the document body yields one question: the first row names
//! the question id (`QN=` prefix) and the prompt, later rows carry labeled
//! options (`a.`, `b.`, ...) and the `ANSWER:` row with the comma-separated
//! keys of the correct options.  A table that yields no id, no prompt or no
//! resolvable correct answer fails the whole extraction: the document is
//! malformed and no partial result is produced.

use vstd::prelude::*;
use crate::document::{
    Block, Cell, Row, Table, cell_text, extract_cell_text, question_id, question_text,
    row_cell_trimmed, table_question_id,
};
use crate::text::{
    join_spaced, join_with_spaces, split_commas, split_commas_str, str_eq, to_upper, trim,
    trim_seq, upper_char, upper_seq,
};

verus! {

/// A question record parsed from one table, in document order.
#[derive(Debug)]
pub struct Question {
    /// Identifier from the `QN=` cell; never empty.
    pub id: String,
    /// The question prompt; never empty.
    pub text: String,
    /// Labeled option lines, as `"<LABEL>. <text>"`, in document order.
    pub options: Vec<String>,
    /// Upper-cased keys from the `ANSWER:` row, in row order.
    pub correct_answer_keys: Vec<String>,
    /// Option texts the keys resolve to, in key order; never empty.
    pub correct_answers: Vec<String>,
}

/// Why a document was rejected as malformed.
#[derive(Debug)]
pub enum ExtractError {
    /// A table has no `QN=` id in its first cell.
    MissingQuestionId,
    /// The named question has an id but no prompt text.
    MissingQuestionText(String),
    /// The named question has no resolvable correct answer.
    MissingCorrectAnswer(String),
}

/// A row whose first cell is a two-character label ending in `.`, with the
/// option text beside it.
pub open spec fn is_option_row(row: Row) -> bool {
    let c0 = row_cell_trimmed(row, 0);
    c0.len() == 2 && c0[1] == '.' && row.cells@.len() >= 2
}

/// The upper-cased label character of an option row.
pub open spec fn option_label(row: Row) -> char {
    upper_char(row_cell_trimmed(row, 0)[0])
}

/// The trimmed option text of an option row.
pub open spec fn option_text(row: Row) -> Seq<char> {
    row_cell_trimmed(row, 1)
}

/// The option line recorded for an option row.
pub open spec fn option_line(row: Row) -> Seq<char> {
    seq![option_label(row), '.', ' '] + option_text(row)
}

/// A row whose first cell is the `ANSWER:` marker, with the key list beside
/// it.
pub open spec fn is_answer_row(row: Row) -> bool {
    row_cell_trimmed(row, 0) == "ANSWER:"@ && row.cells@.len() >= 2
}

/// The option lines of all option rows, in row order.
pub open spec fn options_of(rows: Seq<Row>) -> Seq<Seq<char>>
    decreases rows.len(),
{
    if rows.len() == 0 {
        Seq::empty()
    } else {
        let pre = options_of(rows.drop_last());
        if is_option_row(rows.last()) {
            pre.push(option_line(rows.last()))
        } else {
            pre
        }
    }
}

/// The option text recorded under `label`; a later option row with the same
/// label wins.
pub open spec fn label_lookup(rows: Seq<Row>, label: char) -> Option<Seq<char>>
    decreases rows.len(),
{
    if rows.len() == 0 {
        None
    } else if is_option_row(rows.last()) && option_label(rows.last()) == label {
        Some(option_text(rows.last()))
    } else {
        label_lookup(rows.drop_last(), label)
    }
}

/// The keys parsed from an answer cell: the trimmed text upper-cased, split
/// on commas, each token trimmed.
pub open spec fn keys_of_cell(c: Seq<char>) -> Seq<Seq<char>> {
    split_commas(upper_seq(trim_seq(c))).map_values(|k: Seq<char>| trim_seq(k))
}

/// The correct-answer keys of a table: those of its last answer row, or none.
pub open spec fn answer_keys(rows: Seq<Row>) -> Seq<Seq<char>>
    decreases rows.len(),
{
    if rows.len() == 0 {
        Seq::empty()
    } else if is_answer_row(rows.last()) {
        keys_of_cell(cell_text(rows.last().cells@[1]))
    } else {
        answer_keys(rows.drop_last())
    }
}

/// The option text a key resolves to: single-character keys look up their
/// label, anything else resolves to nothing.
pub open spec fn key_lookup(rows: Seq<Row>, key: Seq<char>) -> Option<Seq<char>> {
    if key.len() == 1 {
        label_lookup(rows, key[0])
    } else {
        None
    }
}

/// The resolved correct answers for `keys`, in key order, unresolvable keys
/// dropped.
pub open spec fn resolved_from(rows: Seq<Row>, keys: Seq<Seq<char>>) -> Seq<Seq<char>>
    decreases keys.len(),
{
    if keys.len() == 0 {
        Seq::empty()
    } else {
        let pre = resolved_from(rows, keys.drop_last());
        match key_lookup(rows, keys.last()) {
            Some(t) => pre.push(t),
            None => pre,
        }
    }
}

/// The resolved correct answers of a table.
pub open spec fn resolved_answers(t: Table) -> Seq<Seq<char>> {
    resolved_from(t.rows@, answer_keys(t.rows@))
}

/// A table that extraction accepts: it has an id, a prompt, and at least one
/// resolvable correct answer.
pub open spec fn table_ok(t: Table) -> bool {
    question_id(t).len() > 0 && question_text(t).len() > 0 && resolved_answers(t).len() > 0
}

/// The error a failing table produces, with the id it names.
pub open spec fn table_error(t: Table, e: ExtractError) -> bool {
    match e {
        ExtractError::MissingQuestionId => question_id(t).len() == 0,
        ExtractError::MissingQuestionText(id) => question_id(t).len() > 0 && question_text(
            t,
        ).len() == 0 && id@ == question_id(t),
        ExtractError::MissingCorrectAnswer(id) => question_id(t).len() > 0 && question_text(
            t,
        ).len() > 0 && resolved_answers(t).len() == 0 && id@ == question_id(t),
    }
}

/// The question record a table parses to.
pub open spec fn q_matches(q: Question, t: Table) -> bool {
    &&& q.id@ == question_id(t)
    &&& q.text@ == question_text(t)
    &&& q.options.deep_view() == options_of(t.rows@)
    &&& q.correct_answer_keys.deep_view() == answer_keys(t.rows@)
    &&& q.correct_answers.deep_view() == resolved_answers(t)
}

/// The tables of a document body, in order.
pub open spec fn tables_of(blocks: Seq<Block>) -> Seq<Table>
    decreases blocks.len(),
{
    if blocks.len() == 0 {
        Seq::empty()
    } else {
        let pre = tables_of(blocks.drop_last());
        match blocks.last() {
            Block::Table(t) => pre.push(t),
            Block::Other => pre,
        }
    }
}

/// Index of the first failing table, or the length when all pass.
pub open spec fn first_bad(ts: Seq<Table>) -> int
    decreases ts.len(),
{
    if ts.len() == 0 {
        0
    } else if !table_ok(ts.first()) {
        0
    } else {
        1 + first_bad(ts.drop_first())
    }
}

/// A failing table at `k`, with none before it, pins `first_bad` to `k`.
proof fn lemma_first_bad_at(ts: Seq<Table>, k: int)
    requires
        0 <= k < ts.len(),
        !table_ok(ts[k]),
        forall|j: int| 0 <= j < k ==> table_ok(#[trigger] ts[j]),
    ensures
        first_bad(ts) == k,
    decreases ts.len(),
{
    if k > 0 {
        assert forall|j: int| 0 <= j < k - 1 implies table_ok(#[trigger] ts.drop_first()[j]) by {
            assert(ts.drop_first()[j] == ts[j + 1]);
        }
        assert(ts.drop_first()[k - 1] == ts[k]);
        lemma_first_bad_at(ts.drop_first(), k - 1);
    }
}

/// The option text stored last under `label` in an association list.
pub open spec fn assoc_find(entries: Seq<(char, String)>, label: char) -> Option<Seq<char>>
    decreases entries.len(),
{
    if entries.len() == 0 {
        None
    } else if entries.last().0 == label {
        Some(entries.last().1@)
    } else {
        assoc_find(entries.drop_last(), label)
    }
}

/// Upper-case image of a character; letters outside ASCII are kept as-is.
fn upper_char_exec(c: char) -> (r: char)
    ensures
        r == upper_char(c),
{
    match c {
        'a' => 'A',
        'b' => 'B',
        'c' => 'C',
        'd' => 'D',
        'e' => 'E',
        'f' => 'F',
        'g' => 'G',
        'h' => 'H',
        'i' => 'I',
        'j' => 'J',
        'k' => 'K',
        'l' => 'L',
        'm' => 'M',
        'n' => 'N',
        'o' => 'O',
        'p' => 'P',
        'q' => 'Q',
        'r' => 'R',
        's' => 'S',
        't' => 'T',
        'u' => 'U',
        'v' => 'V',
        'w' => 'W',
        'x' => 'X',
        'y' => 'Y',
        'z' => 'Z',
        _ => c,
    }
}

/// The last option text stored under `label`.
fn assoc_find_exec(entries: &Vec<(char, String)>, label: char) -> (r: Option<String>)
    ensures
        match r {
            Some(s) => assoc_find(entries@, label) == Some(s@),
            None => assoc_find(entries@, label) is None,
        },
{
    let mut j: usize = entries.len();
    proof {
        assert(entries@.take(entries@.len() as int) =~= entries@);
    }
    while j > 0
        invariant
            j <= entries@.len(),
            assoc_find(entries@, label) == assoc_find(entries@.take(j as int), label),
        decreases j,
    {
        j = j - 1;
        if entries[j].0 == label {
            proof {
                assert(entries@.take(j + 1).last() == entries@[j as int]);
            }
            return Some(entries[j].1.clone());
        }
        proof {
            assert(entries@.take(j + 1).drop_last() =~= entries@.take(j as int));
            assert(entries@.take(j + 1).last() == entries@[j as int]);
        }
    }
    proof {
        assert(entries@.take(0) =~= Seq::<(char, String)>::empty());
    }
    None
}

/// The answer keys held in one `ANSWER:` cell.
fn parse_answer_keys(cell: &Cell) -> (r: Vec<String>)
    ensures
        r.deep_view() == keys_of_cell(cell_text(*cell)),
{
    let raw = extract_cell_text(cell);
    let trimmed = trim(raw.as_str());
    let upper = to_upper(trimmed);
    let toks = split_commas_str(upper.as_str());
    let mut out: Vec<String> = Vec::new();
    let mut i: usize = 0;
    while i < toks.len()
        invariant
            i <= toks@.len(),
            toks.deep_view() == split_commas(upper_seq(trim_seq(cell_text(*cell)))),
            out.deep_view() =~= toks.deep_view().map_values(|k: Seq<char>| trim_seq(k)).take(
                i as int,
            ),
        decreases toks@.len() - i,
    {
        let tok = String::from_str(trim(toks[i].as_str()));
        let ghost prev = out.deep_view();
        out.push(tok);
        proof {
            let mapped = toks.deep_view().map_values(|k: Seq<char>| trim_seq(k));
            assert(out.deep_view() =~= prev.push(tok@));
            assert(mapped.take(i + 1) =~= mapped.take(i as int).push(mapped[i as int]));
        }
        i = i + 1;
    }
    proof {
        let mapped = toks.deep_view().map_values(|k: Seq<char>| trim_seq(k));
        assert(mapped.take(toks@.len() as int) =~= mapped);
    }
    out
}

/// The trimmed prompt text of a table.
fn table_text(t: &Table) -> (r: String)
    ensures
        r@ == question_text(*t),
{
    if t.rows.len() > 0 {
        let row = &t.rows[0];
        if row.cells.len() > 1 {
            let raw = extract_cell_text(&row.cells[1]);
            String::from_str(trim(raw.as_str()))
        } else {
            String::new()
        }
    } else {
        String::new()
    }
}

/// `tables_of` distributes over concatenation.
proof fn lemma_tables_of_concat(s1: Seq<Block>, s2: Seq<Block>)
    ensures
        tables_of(s1 + s2) == tables_of(s1) + tables_of(s2),
    decreases s2.len(),
{
    if s2.len() == 0 {
        assert(s1 + s2 =~= s1);
        assert(tables_of(s1) + tables_of(s2) =~= tables_of(s1));
    } else {
        lemma_tables_of_concat(s1, s2.drop_last());
        assert((s1 + s2).drop_last() =~= s1 + s2.drop_last());
        assert((s1 + s2).last() == s2.last());
        match s2.last() {
            Block::Table(t) => {
                assert(tables_of(s1) + tables_of(s2) =~= (tables_of(s1) + tables_of(
                    s2.drop_last(),
                )).push(t));
            },
            Block::Other => {},
        }
    }
}

/// Parses one table into a question record, or reports why the table is
/// malformed: no id, then no prompt, then no resolvable correct answer.
pub fn parse_question_table(t: &Table) -> (r: Result<Question, ExtractError>)
    ensures
        match r {
            Ok(q) => table_ok(*t) && q_matches(q, *t),
            Err(e) => !table_ok(*t) && table_error(*t, e),
        },
{
    let id = match table_question_id(t) {
        Some(id) => id,
        None => {
            return Err(ExtractError::MissingQuestionId);
        },
    };
    let text = table_text(t);
    if text.as_str().unicode_len() == 0 {
        return Err(ExtractError::MissingQuestionText(id));
    }
    let rows = &t.rows;
    let mut options: Vec<String> = Vec::new();
    let mut labels: Vec<(char, String)> = Vec::new();
    let mut keys: Vec<String> = Vec::new();
    let mut ri: usize = 0;
    proof {
        assert(options.deep_view() =~= options_of(rows@.take(0)));
        assert(keys.deep_view() =~= answer_keys(rows@.take(0)));
        assert(rows@.take(0) =~= Seq::<Row>::empty());
        assert(labels@.take(0) =~= Seq::<(char, String)>::empty());
    }
    while ri < rows.len()
        invariant
            ri <= rows@.len(),
            options.deep_view() == options_of(rows@.take(ri as int)),
            keys.deep_view() == answer_keys(rows@.take(ri as int)),
            forall|c: char| #[trigger]
                assoc_find(labels@, c) == label_lookup(rows@.take(ri as int), c),
        decreases rows@.len() - ri,
    {
        let row = &rows[ri];
        let ghost rpre = rows@.take(ri as int);
        proof {
            assert(rows@.take(ri + 1).drop_last() =~= rpre);
            assert(rows@.take(ri + 1).last() == rows@[ri as int]);
        }
        if row.cells.len() > 0 {
            let c0raw = extract_cell_text(&row.cells[0]);
            let c0t = trim(c0raw.as_str());
            proof {
                assert(c0t@ == row_cell_trimmed(*row, 0));
            }
            if c0t.unicode_len() == 2 && c0t.get_char(1) == '.' && row.cells.len() >= 2 {
                let text_raw = extract_cell_text(&row.cells[1]);
                let text_t = String::from_str(trim(text_raw.as_str()));
                let mut opt = to_upper(c0t);
                proof {
                    reveal_strlit(" ");
                    assert(opt@ =~= seq![option_label(*row), '.']);
                }
                opt.append(" ");
                opt.append(text_t.as_str());
                proof {
                    assert(opt@ =~= option_line(*row));
                }
                let ghost opts_prev = options.deep_view();
                options.push(opt);
                let label = upper_char_exec(c0t.get_char(0));
                let ghost labels_prev = labels@;
                labels.push((label, text_t));
                proof {
                    assert(is_option_row(rows@[ri as int]));
                    assert(options.deep_view() =~= opts_prev.push(option_line(*row)));
                    assert(labels@.drop_last() =~= labels_prev);
                    assert forall|c: char| #[trigger]
                        assoc_find(labels@, c) == label_lookup(rows@.take(ri + 1), c) by {
                        if c == label {
                            assert(assoc_find(labels@, c) == Some(text_t@));
                        } else {
                            assert(assoc_find(labels@, c) == assoc_find(labels_prev, c));
                        }
                    }
                }
            } else {
                proof {
                    assert(!is_option_row(rows@[ri as int]));
                    assert(options.deep_view() == options_of(rows@.take(ri + 1)));
                    assert(forall|c: char| #[trigger]
                        assoc_find(labels@, c) == label_lookup(rows@.take(ri + 1), c));
                }
            }
            if str_eq(c0t, "ANSWER:") && row.cells.len() >= 2 {
                proof {
                    assert(is_answer_row(rows@[ri as int]));
                }
                keys = parse_answer_keys(&row.cells[1]);
            } else {
                proof {
                    assert(!is_answer_row(rows@[ri as int]));
                    assert(keys.deep_view() == answer_keys(rows@.take(ri + 1)));
                }
            }
        } else {
            proof {
                assert(row_cell_trimmed(rows@[ri as int], 0) =~= Seq::<char>::empty());
                assert(!is_option_row(rows@[ri as int]));
                assert(!is_answer_row(rows@[ri as int])) by {
                    reveal_strlit("ANSWER:");
                }
                assert(options.deep_view() == options_of(rows@.take(ri + 1)));
                assert(keys.deep_view() == answer_keys(rows@.take(ri + 1)));
                assert(forall|c: char| #[trigger]
                    assoc_find(labels@, c) == label_lookup(rows@.take(ri + 1), c));
            }
        }
        ri = ri + 1;
    }
    proof {
        assert(rows@.take(rows@.len() as int) =~= rows@);
    }
    let mut answers: Vec<String> = Vec::new();
    let mut ki: usize = 0;
    proof {
        assert(answers.deep_view() =~= resolved_from(rows@, keys.deep_view().take(0)));
    }
    while ki < keys.len()
        invariant
            ki <= keys@.len(),
            keys.deep_view() == answer_keys(rows@),
            forall|c: char| #[trigger] assoc_find(labels@, c) == label_lookup(rows@, c),
            answers.deep_view() == resolved_from(rows@, keys.deep_view().take(ki as int)),
        decreases keys@.len() - ki,
    {
        let key = &keys[ki];
        let ghost kpre = keys.deep_view().take(ki as int);
        proof {
            assert(keys.deep_view().take(ki + 1).drop_last() =~= kpre);
            assert(keys.deep_view().take(ki + 1).last() == keys.deep_view()[ki as int]);
        }
        if key.as_str().unicode_len() == 1 {
            let c = key.as_str().get_char(0);
            match assoc_find_exec(&labels, c) {
                Some(text) => {
                    proof {
                        assert(seq![keys.deep_view()[ki as int][0]] =~= keys.deep_view()[
                            ki as int]);
                        assert(key_lookup(rows@, keys.deep_view()[ki as int]) == Some(text@));
                    }
                    let ghost apre = answers.deep_view();
                    answers.push(text);
                    proof {
                        assert(answers.deep_view() =~= apre.push(
                            key_lookup(rows@, keys.deep_view()[ki as int]).unwrap(),
                        ));
                    }
                },
                None => {
                    proof {
                        assert(seq![keys.deep_view()[ki as int][0]] =~= keys.deep_view()[
                            ki as int]);
                        assert(key_lookup(rows@, keys.deep_view()[ki as int]) is None);
                    }
                },
            }
        } else {
            proof {
                assert(key_lookup(rows@, keys.deep_view()[ki as int]) is None);
            }
        }
        ki = ki + 1;
    }
    proof {
        assert(keys.deep_view().take(keys@.len() as int) =~= keys.deep_view());
        assert(answers.deep_view() == resolved_answers(*t));
    }
    if answers.len() == 0 {
        return Err(ExtractError::MissingCorrectAnswer(id));
    }
    Ok(
        Question {
            id,
            text,
            options,
            correct_answer_keys: keys,
            correct_answers: answers,
        },
    )
}

/// Extracts every question of the document body, in document order, or fails
/// on the first malformed table with no partial result.
pub fn extract_questions(blocks: &Vec<Block>) -> (r: Result<Vec<Question>, ExtractError>)
    ensures
        match r {
            Ok(qs) => {
                let ts = tables_of(blocks@);
                &&& qs@.len() == ts.len()
                &&& forall|i: int|
                    0 <= i < ts.len() ==> table_ok(#[trigger] ts[i]) && q_matches(qs@[i], ts[i])
            },
            Err(e) => {
                let ts = tables_of(blocks@);
                let k = first_bad(ts);
                k < ts.len() && table_error(ts[k], e)
            },
        },
{
    let mut qs: Vec<Question> = Vec::new();
    let mut i: usize = 0;
    proof {
        assert(tables_of(blocks@.take(0)) =~= Seq::<Table>::empty());
    }
    while i < blocks.len()
        invariant
            i <= blocks@.len(),
            qs@.len() == tables_of(blocks@.take(i as int)).len(),
            forall|j: int|
                0 <= j < qs@.len() ==> table_ok(#[trigger] tables_of(blocks@.take(i as int))[j])
                    && q_matches(qs@[j], tables_of(blocks@.take(i as int))[j]),
        decreases blocks@.len() - i,
    {
        let ghost pre = tables_of(blocks@.take(i as int));
        proof {
            assert(blocks@.take(i + 1).drop_last() =~= blocks@.take(i as int));
            assert(blocks@.take(i + 1).last() == blocks@[i as int]);
        }
        match &blocks[i] {
            Block::Table(t) => {
                match parse_question_table(t) {
                    Ok(q) => {
                        qs.push(q);
                        proof {
                            assert(tables_of(blocks@.take(i + 1)) =~= pre.push(*t));
                        }
                    },
                    Err(e) => {
                        proof {
                            let full = tables_of(blocks@);
                            assert(blocks@ =~= blocks@.take(i as int) + blocks@.skip(i as int));
                            lemma_tables_of_concat(blocks@.take(i as int), blocks@.skip(i as int));
                            assert(blocks@.skip(i as int) =~= seq![blocks@[i as int]] + blocks@.skip(
                                i + 1,
                            ));
                            lemma_tables_of_concat(
                                seq![blocks@[i as int]],
                                blocks@.skip(i + 1),
                            );
                            assert(seq![blocks@[i as int]].drop_last() =~= Seq::<Block>::empty());
                            assert(tables_of(Seq::<Block>::empty()) =~= Seq::<Table>::empty());
                            assert(seq![blocks@[i as int]].last() == Block::Table(*t));
                            assert(tables_of(seq![blocks@[i as int]]) =~= seq![*t]);
                            assert(full =~= pre + seq![*t] + tables_of(blocks@.skip(i + 1)));
                            assert(full[pre.len() as int] == *t);
                            assert forall|j: int| 0 <= j < pre.len() implies table_ok(
                                #[trigger] full[j],
                            ) by {
                                assert(full[j] == pre[j]);
                            }
                            lemma_first_bad_at(full, pre.len() as int);
                        }
                        return Err(e);
                    },
                }
            },
            Block::Other => {
                proof {
                    assert(tables_of(blocks@.take(i + 1)) =~= pre);
                }
            },
        }
        i = i + 1;
    }
    proof {
        assert(blocks@.take(blocks@.len() as int) =~= blocks@);
    }
    Ok(qs)
}

/// The correct answers of a question joined into one string by single
/// spaces; its embedding stands for the whole answer set.
pub fn joined_correct_answers(q: &Question) -> (r: String)
    ensures
        r@ == join_spaced(q.correct_answers.deep_view()),
{
    join_with_spaces(&q.correct_answers)
}

/// The wording of an extraction error.
pub open spec fn error_message(e: ExtractError) -> Seq<char> {
    match e {
        ExtractError::MissingQuestionId => "malformed document: a table is missing its question id"@,
        ExtractError::MissingQuestionText(id) => "malformed document: question "@ + id@
            + " has no text"@,
        ExtractError::MissingCorrectAnswer(id) => "malformed document: question "@ + id@
            + " has no correct answer"@,
    }
}

impl ExtractError {
    /// A human-readable description of the error.
    pub fn message(&self) -> (r: String)
        ensures
            r@ == error_message(*self),
    {
        match self {
            ExtractError::MissingQuestionId => String::from_str(
                "malformed document: a table is missing its question id",
            ),
            ExtractError::MissingQuestionText(id) => String::from_str(
                "malformed document: question ",
            ).concat(id.as_str()).concat(" has no text"),
            ExtractError::MissingCorrectAnswer(id) => String::from_str(
                "malformed document: question ",
            ).concat(id.as_str()).concat(" has no correct answer"),
        }
    }
}

} // verus!
