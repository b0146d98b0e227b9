//! Full question records, metadata included.
//!
//! Besides the extraction pipeline, a table can be read into a flat record
//! that keeps every keyed metadata row (marks, unit, learning outcome, and so
//! on).  The first row carries the `QN=` id and the prompt; every later row
//! is a key-value pair named by its first cell.  No validation is applied:
//! every table yields a record, with empty strings for missing rows.

use vstd::prelude::*;
use crate::document::{
    Row, Table, extract_cell_text, question_id, question_text, row_cell_trimmed,
    table_question_id,
};
use crate::text::{str_eq, trim};

verus! {

/// One table of the document, read as a flat record.
pub struct QuestionData {
    /// Identifier from the `QN=` cell of the first row.
    pub qn: String,
    /// The question prompt from the first row.
    pub question: String,
    /// The non-empty texts of the `a.` to `d.` rows, in row order.
    pub options: Vec<String>,
    /// The value of the last `ANSWER:` row.
    pub answer: String,
    /// The value of the last `MARK:` row.
    pub mark: String,
    /// The value of the last `UNIT:` row.
    pub unit: String,
    /// The value of the last `LO:` row.
    pub lo: String,
    /// The value of the last `MIX CHOICES:` row.
    pub mix_choices: String,
    /// The value of the last `AUTHOR:` row.
    pub creator_reviewer: String,
    /// The value of the last `EDITOR:` row.
    pub editor: String,
    /// The value of the last `REFERENCE:` row.
    pub reference: String,
}

/// The trimmed value of the last row keyed `key`, or empty when none is.
pub open spec fn keyed_value(rows: Seq<Row>, key: Seq<char>) -> Seq<char>
    decreases rows.len(),
{
    if rows.len() == 0 {
        Seq::empty()
    } else if row_cell_trimmed(rows.last(), 0) == key && rows.last().cells@.len() >= 2 {
        row_cell_trimmed(rows.last(), 1)
    } else {
        keyed_value(rows.drop_last(), key)
    }
}

/// A row keyed `a.` to `d.` with a non-empty value.
pub open spec fn is_choice_row(row: Row) -> bool {
    let k = row_cell_trimmed(row, 0);
    &&& (k == "a."@ || k == "b."@ || k == "c."@ || k == "d."@)
    &&& row.cells@.len() >= 2
    &&& row_cell_trimmed(row, 1).len() > 0
}

/// The values of the choice rows, in row order.
pub open spec fn choice_values(rows: Seq<Row>) -> Seq<Seq<char>>
    decreases rows.len(),
{
    if rows.len() == 0 {
        Seq::empty()
    } else {
        let pre = choice_values(rows.drop_last());
        if is_choice_row(rows.last()) {
            pre.push(row_cell_trimmed(rows.last(), 1))
        } else {
            pre
        }
    }
}

/// The record a table reads to.
pub open spec fn record_matches(qd: QuestionData, t: Table) -> bool {
    &&& qd.qn@ == question_id(t)
    &&& qd.question@ == question_text(t)
    &&& qd.options.deep_view() == choice_values(t.rows@)
    &&& qd.answer@ == keyed_value(t.rows@, "ANSWER:"@)
    &&& qd.mark@ == keyed_value(t.rows@, "MARK:"@)
    &&& qd.unit@ == keyed_value(t.rows@, "UNIT:"@)
    &&& qd.lo@ == keyed_value(t.rows@, "LO:"@)
    &&& qd.mix_choices@ == keyed_value(t.rows@, "MIX CHOICES:"@)
    &&& qd.creator_reviewer@ == keyed_value(t.rows@, "AUTHOR:"@)
    &&& qd.editor@ == keyed_value(t.rows@, "EDITOR:"@)
    &&& qd.reference@ == keyed_value(t.rows@, "REFERENCE:"@)
}

/// Reads one table into a flat record; missing rows leave empty fields.
pub fn extract_question_data(t: &Table) -> (r: QuestionData)
    ensures
        record_matches(r, *t),
{
    let qn = match table_question_id(t) {
        Some(id) => id,
        None => String::new(),
    };
    let question = if t.rows.len() > 0 {
        let row = &t.rows[0];
        if row.cells.len() > 1 {
            let raw = extract_cell_text(&row.cells[1]);
            String::from_str(trim(raw.as_str()))
        } else {
            String::new()
        }
    } else {
        String::new()
    };
    let mut options: Vec<String> = Vec::new();
    let mut answer = String::new();
    let mut mark = String::new();
    let mut unit = String::new();
    let mut lo = String::new();
    let mut mix_choices = String::new();
    let mut creator_reviewer = String::new();
    let mut editor = String::new();
    let mut reference = String::new();
    let rows = &t.rows;
    let mut ri: usize = 0;
    proof {
        assert(rows@.take(0) =~= Seq::<Row>::empty());
        assert(options.deep_view() =~= choice_values(rows@.take(0)));
    }
    while ri < rows.len()
        invariant
            ri <= rows@.len(),
            options.deep_view() == choice_values(rows@.take(ri as int)),
            answer@ == keyed_value(rows@.take(ri as int), "ANSWER:"@),
            mark@ == keyed_value(rows@.take(ri as int), "MARK:"@),
            unit@ == keyed_value(rows@.take(ri as int), "UNIT:"@),
            lo@ == keyed_value(rows@.take(ri as int), "LO:"@),
            mix_choices@ == keyed_value(rows@.take(ri as int), "MIX CHOICES:"@),
            creator_reviewer@ == keyed_value(rows@.take(ri as int), "AUTHOR:"@),
            editor@ == keyed_value(rows@.take(ri as int), "EDITOR:"@),
            reference@ == keyed_value(rows@.take(ri as int), "REFERENCE:"@),
        decreases rows@.len() - ri,
    {
        let row = &rows[ri];
        proof {
            assert(rows@.take(ri + 1).drop_last() =~= rows@.take(ri as int));
            assert(rows@.take(ri + 1).last() == rows@[ri as int]);
            reveal_strlit("a.");
            reveal_strlit("b.");
            reveal_strlit("c.");
            reveal_strlit("d.");
            reveal_strlit("ANSWER:");
            reveal_strlit("MARK:");
            reveal_strlit("UNIT:");
            reveal_strlit("LO:");
            reveal_strlit("MIX CHOICES:");
            reveal_strlit("AUTHOR:");
            reveal_strlit("EDITOR:");
            reveal_strlit("REFERENCE:");
            assert("MARK:"@[0] == 'M' && "UNIT:"@[0] == 'U');
            assert("MARK:"@ != "UNIT:"@);
            assert("ANSWER:"@[0] == 'A' && "EDITOR:"@[0] == 'E' && "AUTHOR:"@[1] == 'U' && "ANSWER:"@[1] == 'N');
            assert("ANSWER:"@ != "EDITOR:"@ && "ANSWER:"@ != "AUTHOR:"@ && "AUTHOR:"@ != "EDITOR:"@);
        }
        if row.cells.len() >= 2 {
            let c0raw = extract_cell_text(&row.cells[0]);
            let c0t = trim(c0raw.as_str());
            let vraw = extract_cell_text(&row.cells[1]);
            let value = String::from_str(trim(vraw.as_str()));
            proof {
                assert(c0t@ == row_cell_trimmed(*row, 0));
                assert(value@ == row_cell_trimmed(*row, 1));
            }
            if str_eq(c0t, "a.") || str_eq(c0t, "b.") || str_eq(c0t, "c.") || str_eq(c0t, "d.") {
                if value.as_str().unicode_len() > 0 {
                    let ghost prev = options.deep_view();
                    options.push(value);
                    proof {
                        assert(is_choice_row(rows@[ri as int]));
                        assert(options.deep_view() =~= prev.push(
                            row_cell_trimmed(rows@[ri as int], 1),
                        ));
                    }
                } else {
                    proof {
                        assert(!is_choice_row(rows@[ri as int]));
                    }
                }
            } else if str_eq(c0t, "ANSWER:") {
                answer = value;
            } else if str_eq(c0t, "MARK:") {
                mark = value;
            } else if str_eq(c0t, "UNIT:") {
                unit = value;
            } else if str_eq(c0t, "LO:") {
                lo = value;
            } else if str_eq(c0t, "MIX CHOICES:") {
                mix_choices = value;
            } else if str_eq(c0t, "AUTHOR:") {
                creator_reviewer = value;
            } else if str_eq(c0t, "EDITOR:") {
                editor = value;
            } else if str_eq(c0t, "REFERENCE:") {
                reference = value;
            } else {
                proof {
                    assert(!is_choice_row(rows@[ri as int]));
                }
            }
        } else {
            proof {
                assert(!is_choice_row(rows@[ri as int]));
            }
        }
        ri = ri + 1;
    }
    proof {
        assert(rows@.take(rows@.len() as int) =~= rows@);
        assert(qn@ =~= question_id(*t));
        assert(question@ =~= question_text(*t));
    }
    QuestionData {
        qn,
        question,
        options,
        answer,
        mark,
        unit,
        lo,
        mix_choices,
        creator_reviewer,
        editor,
        reference,
    }
}

/// Reads every table of the document into a flat record, in document order.
pub fn extract_questions_from_docx(tables: &Vec<Table>) -> (r: Vec<QuestionData>)
    ensures
        r@.len() == tables@.len(),
        forall|i: int| 0 <= i < tables@.len() ==> record_matches(r@[i], #[trigger] tables@[i]),
{
    let mut out: Vec<QuestionData> = Vec::new();
    let mut i: usize = 0;
    while i < tables.len()
        invariant
            i <= tables@.len(),
            out@.len() == i,
            forall|j: int| 0 <= j < i ==> record_matches(out@[j], #[trigger] tables@[j]),
        decreases tables@.len() - i,
    {
        let qd = extract_question_data(&tables[i]);
        out.push(qd);
        i = i + 1;
    }
    out
}

} // verus!
