//! Document model for the question extractor and the filter.
//!
//! A document body is an ordered sequence of blocks; only table blocks carry
//! question content.  A table holds rows of cells, and a cell holds rich text
//! as paragraphs of runs.  The scanner only ever reads the flattened text of
//! a cell, so the model keeps exactly that structure and nothing more.

use vstd::prelude::*;
use crate::text::{has_prefix, str_eq, strip_prefix_str, trim, trim_seq};

verus! {

/// One run of content inside a cell paragraph: a text span, or other markup
/// that carries no text.
pub enum Run {
    Text(String),
    Other,
}

/// A paragraph inside a table cell.
pub struct CellParagraph {
    pub runs: Vec<Run>,
}

/// A table cell.
pub struct Cell {
    pub paragraphs: Vec<CellParagraph>,
}

/// A table row.
pub struct Row {
    pub cells: Vec<Cell>,
}

/// A table: ordered rows of ordered cells.
pub struct Table {
    pub rows: Vec<Row>,
}

/// A block-level element of a document body: a table, or anything else.
pub enum Block {
    Table(Table),
    Other,
}

/// The text carried by a single run.
pub open spec fn run_text(r: Run) -> Seq<char> {
    match r {
        Run::Text(s) => s@,
        Run::Other => Seq::empty(),
    }
}

/// The text of a sequence of runs, concatenated in order.
pub open spec fn runs_text(rs: Seq<Run>) -> Seq<char>
    decreases rs.len(),
{
    if rs.len() == 0 {
        Seq::empty()
    } else {
        runs_text(rs.drop_last()) + run_text(rs.last())
    }
}

/// The text of one cell paragraph.
pub open spec fn para_text(p: CellParagraph) -> Seq<char> {
    runs_text(p.runs@)
}

/// The text of a sequence of cell paragraphs, concatenated in order.
pub open spec fn paras_text(ps: Seq<CellParagraph>) -> Seq<char>
    decreases ps.len(),
{
    if ps.len() == 0 {
        Seq::empty()
    } else {
        paras_text(ps.drop_last()) + para_text(ps.last())
    }
}

/// The flattened text of a cell: every text run, in document order.
pub open spec fn cell_text(c: Cell) -> Seq<char> {
    paras_text(c.paragraphs@)
}

/// The trimmed text of cell `k` of `row`, or empty when the cell is missing.
pub open spec fn row_cell_trimmed(row: Row, k: int) -> Seq<char> {
    if 0 <= k < row.cells@.len() {
        trim_seq(cell_text(row.cells@[k]))
    } else {
        Seq::empty()
    }
}

/// The question id announced by a table: the first cell of the first row,
/// trimmed, stripped of its `QN=` prefix, trimmed again.  Empty when the
/// table announces none.
pub open spec fn question_id(t: Table) -> Seq<char> {
    if t.rows@.len() > 0 && t.rows@[0].cells@.len() > 0 {
        let c0 = trim_seq(cell_text(t.rows@[0].cells@[0]));
        if has_prefix(c0, "QN="@) {
            trim_seq(c0.skip("QN="@.len() as int))
        } else {
            Seq::empty()
        }
    } else {
        Seq::empty()
    }
}

/// The question prompt announced by a table: the second cell of the first
/// row, trimmed.
pub open spec fn question_text(t: Table) -> Seq<char> {
    if t.rows@.len() > 0 {
        row_cell_trimmed(t.rows@[0], 1)
    } else {
        Seq::empty()
    }
}

/// Whether the filter keeps a table: tables without a parseable question id
/// are always kept, the rest only when their id is in the keep list.
pub open spec fn keeps_table(t: Table, keep: Seq<Seq<char>>) -> bool {
    question_id(t).len() == 0 || keep.contains(question_id(t))
}

/// Whether the filter keeps a block: non-table blocks are always kept.
pub open spec fn block_kept(b: Block, keep: Seq<Seq<char>>) -> bool {
    match b {
        Block::Table(t) => keeps_table(t, keep),
        Block::Other => true,
    }
}

/// The document body after filtering, in order.
pub open spec fn filtered_blocks(blocks: Seq<Block>, keep: Seq<Seq<char>>) -> Seq<Block>
    decreases blocks.len(),
{
    if blocks.len() == 0 {
        Seq::empty()
    } else {
        let rest = filtered_blocks(blocks.drop_first(), keep);
        if block_kept(blocks.first(), keep) {
            seq![blocks.first()] + rest
        } else {
            rest
        }
    }
}

/// The flattened text of a table cell: every text run, in document order.
pub fn extract_cell_text(cell: &Cell) -> (r: String)
    ensures
        r@ == cell_text(*cell),
{
    let mut out = String::new();
    let mut i: usize = 0;
    proof {
        assert(paras_text(cell.paragraphs@.take(0)) =~= Seq::<char>::empty());
    }
    while i < cell.paragraphs.len()
        invariant
            i <= cell.paragraphs@.len(),
            out@ == paras_text(cell.paragraphs@.take(i as int)),
        decreases cell.paragraphs@.len() - i,
    {
        let para = &cell.paragraphs[i];
        let mut j: usize = 0;
        proof {
            assert(runs_text(para.runs@.take(0)) =~= Seq::<char>::empty());
        }
        while j < para.runs.len()
            invariant
                j <= para.runs@.len(),
                i < cell.paragraphs@.len(),
                para == cell.paragraphs@[i as int],
                out@ == paras_text(cell.paragraphs@.take(i as int)) + runs_text(
                    para.runs@.take(j as int),
                ),
            decreases para.runs@.len() - j,
        {
            match &para.runs[j] {
                Run::Text(s) => {
                    out.append(s.as_str());
                },
                Run::Other => {},
            }
            proof {
                assert(para.runs@.take(j + 1).drop_last() =~= para.runs@.take(j as int));
                assert(para.runs@.take(j + 1).last() == para.runs@[j as int]);
                assert(runs_text(para.runs@.take(j + 1)) == runs_text(para.runs@.take(j as int))
                    + run_text(para.runs@[j as int]));
            }
            j = j + 1;
        }
        proof {
            assert(para.runs@.take(para.runs@.len() as int) =~= para.runs@);
            assert(cell.paragraphs@.take(i + 1).drop_last() =~= cell.paragraphs@.take(i as int));
            assert(cell.paragraphs@.take(i + 1).last() == cell.paragraphs@[i as int]);
        }
        i = i + 1;
    }
    proof {
        assert(cell.paragraphs@.take(cell.paragraphs@.len() as int) =~= cell.paragraphs@);
    }
    out
}

/// The question id announced by a table, when it has one.
pub fn table_question_id(t: &Table) -> (r: Option<String>)
    ensures
        match r {
            Some(s) => s@ == question_id(*t) && question_id(*t).len() > 0,
            None => question_id(*t).len() == 0,
        },
{
    if t.rows.len() == 0 {
        return None;
    }
    let row = &t.rows[0];
    if row.cells.len() == 0 {
        return None;
    }
    let raw = extract_cell_text(&row.cells[0]);
    let trimmed = trim(raw.as_str());
    match strip_prefix_str(trimmed, "QN=") {
        Some(rest) => {
            let id = trim(rest);
            if id.unicode_len() == 0 {
                None
            } else {
                Some(String::from_str(id))
            }
        },
        None => None,
    }
}

/// Whether the filter keeps this table, for the given list of ids.
pub fn table_is_kept(t: &Table, keep_ids: &Vec<String>) -> (r: bool)
    ensures
        r == keeps_table(*t, keep_ids.deep_view()),
{
    match table_question_id(t) {
        None => true,
        Some(id) => {
            let mut j: usize = 0;
            while j < keep_ids.len()
                invariant
                    j <= keep_ids@.len(),
                    id@ == question_id(*t),
                    forall|k: int| 0 <= k < j ==> keep_ids.deep_view()[k] != id@,
                decreases keep_ids@.len() - j,
            {
                if str_eq(id.as_str(), keep_ids[j].as_str()) {
                    proof {
                        assert(keep_ids.deep_view()[j as int] == question_id(*t));
                    }
                    return true;
                }
                j = j + 1;
            }
            proof {
                assert(!keep_ids.deep_view().contains(question_id(*t)));
            }
            false
        },
    }
}

/// Rewrites a document body, keeping every non-table block and exactly the
/// tables the keep list retains; the order of blocks is preserved.
pub fn filter_blocks(blocks: Vec<Block>, keep_ids: &Vec<String>) -> (r: Vec<Block>)
    ensures
        r@ == filtered_blocks(blocks@, keep_ids.deep_view()),
{
    let ghost orig = blocks@;
    let mut rest = blocks;
    let mut out: Vec<Block> = Vec::new();
    proof {
        assert(out@ + filtered_blocks(rest@, keep_ids.deep_view()) =~= filtered_blocks(
            orig,
            keep_ids.deep_view(),
        ));
    }
    while rest.len() > 0
        invariant
            out@ + filtered_blocks(rest@, keep_ids.deep_view()) =~= filtered_blocks(
                orig,
                keep_ids.deep_view(),
            ),
        decreases rest@.len(),
    {
        let ghost prev = rest@;
        let b = rest.remove(0);
        proof {
            assert(rest@ =~= prev.drop_first());
            assert(b == prev.first());
        }
        let kept = match &b {
            Block::Table(t) => table_is_kept(t, keep_ids),
            Block::Other => true,
        };
        if kept {
            let ghost prev_out = out@;
            out.push(b);
            proof {
                assert(prev_out + filtered_blocks(prev, keep_ids.deep_view()) =~= prev_out + (seq![
                    prev.first(),
                ] + filtered_blocks(prev.drop_first(), keep_ids.deep_view())));
                assert(out@ + filtered_blocks(rest@, keep_ids.deep_view()) =~= prev_out
                    + filtered_blocks(prev, keep_ids.deep_view()));
            }
        }
    }
    proof {
        assert(filtered_blocks(rest@, keep_ids.deep_view()) =~= Seq::<Block>::empty());
        assert(out@ =~= out@ + filtered_blocks(rest@, keep_ids.deep_view()));
    }
    out
}

} // verus!
