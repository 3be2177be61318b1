//! Rendering found combinations as comma-delimited text.
//!
//! A result is handed over as columns of textual fields; the writer lays
//! them out one row per entry of the first column, each column
//! contributing its entry at that row or an empty field once it runs out.
//! The rows are encoded as comma-delimited lines.  The encoding itself is
//! done by the `csv` crate; its output is pinned down exactly for rows
//! whose fields are free of the delimiter, the quote and the line-ending
//! characters, which is the only shape this library produces.

use vstd::prelude::*;

verus! {

/// The field contains none of the characters that would make the encoder
/// quote it: the delimiter, the quote, and the two line-ending characters.
pub open spec fn clean_field(f: Seq<char>) -> bool {
    forall|j: int|
        0 <= j < f.len() ==> ((#[trigger] f[j]) != ',' && f[j] != '"' && f[j] != '\n' && f[j]
            != '\r')
}

/// The row is encoded verbatim: it has at least one field, every field is
/// clean, and it is not a lone empty field (which the encoder quotes to
/// keep the record visible).
pub open spec fn clean_row(row: Seq<Seq<char>>) -> bool {
    &&& row.len() >= 1
    &&& forall|j: int| 0 <= j < row.len() ==> clean_field(#[trigger] row[j])
    &&& !(row.len() == 1 && row[0].len() == 0)
}

/// Every row is encoded verbatim.
pub open spec fn clean_rows(rows: Seq<Seq<Seq<char>>>) -> bool {
    forall|i: int| 0 <= i < rows.len() ==> clean_row(#[trigger] rows[i])
}

/// Every record holds as many fields as the first: the shape the
/// encoder's field-count check demands of a non-flexible writer.
pub open spec fn uniform_rows(rows: Seq<Seq<Seq<char>>>) -> bool {
    forall|i: int| 0 <= i < rows.len() ==> (#[trigger] rows[i]).len() == rows[0].len()
}

/// The text of one row: its fields joined by commas.
pub open spec fn row_text(row: Seq<Seq<char>>) -> Seq<char>
    decreases row.len(),
{
    if row.len() == 0 {
        Seq::<char>::empty()
    } else if row.len() == 1 {
        row[0]
    } else {
        row_text(row.drop_last()) + seq![','] + row.last()
    }
}

/// The text of an encoded table: each row's text followed by a newline.
pub open spec fn rows_text(rows: Seq<Seq<Seq<char>>>) -> Seq<char>
    decreases rows.len(),
{
    if rows.len() == 0 {
        Seq::<char>::empty()
    } else {
        rows_text(rows.drop_last()) + row_text(rows.last()) + seq!['\n']
    }
}

/// Relies on the `csv` crate's writer, built with a comma delimiter, no
/// automatic header and the default quote-when-necessary style: records
/// made of clean fields (no delimiter, quote or line-ending characters,
/// and not a lone empty field) are written verbatim, the fields joined by
/// commas and each record closed with a newline.  The in-memory output is
/// handed back as text.  Success is promised: the only error this writer
/// raises over an in-memory sink is its check that every record holds as
/// many fields as the first, which the `uniform_rows` precondition rules
/// out; writing into a byte vector never fails, and the output of clean
/// textual fields is valid text.
#[verifier::external_body]
fn csv_encode(rows: &Vec<Vec<Vec<char>>>) -> (r: Option<String>)
    requires
        clean_rows(rows.deep_view()),
        uniform_rows(rows.deep_view()),
    ensures
        r is Some,
        match r {
            Some(s) => s@ == rows_text(rows.deep_view()),
            None => true,
        },
{
    let mut w = csv::WriterBuilder::new().has_headers(false).delimiter(b',').from_writer(
        Vec::new(),
    );
    for row in rows {
        let fields: Vec<String> = row.iter().map(|f| f.iter().collect::<String>()).collect();
        if w.write_record(&fields).is_err() {
            return None;
        }
    }
    match w.into_inner() {
        Ok(buf) => String::from_utf8(buf).ok(),
        Err(_) => None,
    }
}

/// The rows that lay the given columns out side by side: one row per
/// entry of the first column; a column that has run out contributes an
/// empty field.  No columns give no rows.
pub open spec fn rows_spec(cols: Seq<Seq<Seq<char>>>) -> Seq<Seq<Seq<char>>> {
    if cols.len() == 0 {
        Seq::<Seq<Seq<char>>>::empty()
    } else {
        Seq::new(
            cols[0].len(),
            |i: int|
                Seq::new(
                    cols.len(),
                    |c: int|
                        if i < cols[c].len() {
                            cols[c][i]
                        } else {
                            Seq::<char>::empty()
                        },
                ),
        )
    }
}

/// An exact copy of one field.
fn copy_field(f: &Vec<char>) -> (r: Vec<char>)
    ensures
        r@ == f@,
{
    let mut r: Vec<char> = Vec::new();
    let mut k: usize = 0;
    while k < f.len()
        invariant
            k <= f@.len(),
            r@ == f@.take(k as int),
        decreases f@.len() - k,
    {
        r.push(f[k]);
        proof {
            assert(f@.take(k as int + 1) =~= f@.take(k as int).push(f@[k as int]));
        }
        k += 1;
    }
    proof {
        assert(f@.take(f@.len() as int) =~= f@);
    }
    r
}

/// The rows for the given columns, exactly as `rows_spec` states them.
pub fn rows_from_columns(cols: &Vec<Vec<Vec<char>>>) -> (rows: Vec<Vec<Vec<char>>>)
    ensures
        rows.deep_view() == rows_spec(cols.deep_view()),
{
    let mut rows: Vec<Vec<Vec<char>>> = Vec::new();
    if cols.len() == 0 {
        proof {
            assert(rows.deep_view() =~= rows_spec(cols.deep_view()));
        }
        return rows;
    }
    let ghost dv = cols.deep_view();
    let height = cols[0].len();
    proof {
        assert(dv[0] =~= cols@[0].deep_view());
        assert(dv[0].len() == height);
    }
    let mut i: usize = 0;
    while i < height
        invariant
            i <= height,
            cols@.len() == dv.len() >= 1,
            height == dv[0].len(),
            dv == cols.deep_view(),
            rows.deep_view() == rows_spec(dv).take(i as int),
        decreases height - i,
    {
        let ghost prev = rows.deep_view();
        let mut row: Vec<Vec<char>> = Vec::new();
        let mut c: usize = 0;
        while c < cols.len()
            invariant
                c <= cols@.len(),
                cols@.len() == dv.len(),
                dv == cols.deep_view(),
                i < height == dv[0].len(),
                row.deep_view() == rows_spec(dv)[i as int].take(c as int),
            decreases cols@.len() - c,
        {
            let ghost prow = row.deep_view();
            proof {
                assert(dv[c as int] =~= cols@[c as int].deep_view());
            }
            if i < cols[c].len() {
                let field = copy_field(&cols[c][i]);
                proof {
                    assert(field.deep_view() =~= dv[c as int][i as int]);
                }
                row.push(field);
            } else {
                let empty_field: Vec<char> = Vec::new();
                proof {
                    assert(empty_field.deep_view() =~= Seq::<char>::empty());
                }
                row.push(empty_field);
            }
            proof {
                assert(row.deep_view() =~= prow.push(rows_spec(dv)[i as int][c as int]));
                assert(rows_spec(dv)[i as int].take(c as int + 1) =~= prow.push(
                    rows_spec(dv)[i as int][c as int],
                ));
            }
            c += 1;
        }
        proof {
            assert(row.deep_view() =~= rows_spec(dv)[i as int]);
        }
        rows.push(row);
        proof {
            assert(rows.deep_view() =~= prev.push(rows_spec(dv)[i as int]));
            assert(rows_spec(dv).take(i as int + 1) =~= prev.push(rows_spec(dv)[i as int]));
        }
        i += 1;
    }
    proof {
        assert(rows_spec(dv).take(i as int) =~= rows_spec(dv));
    }
    rows
}

/// Whether one field is clean, exactly as `clean_field` states it.
fn field_clean(f: &Vec<char>) -> (ok: bool)
    ensures
        ok == clean_field(f@),
{
    let mut j: usize = 0;
    while j < f.len()
        invariant
            j <= f@.len(),
            forall|t: int|
                0 <= t < j ==> ((#[trigger] f@[t]) != ',' && f@[t] != '"' && f@[t] != '\n'
                    && f@[t] != '\r'),
        decreases f@.len() - j,
    {
        let ch = f[j];
        if ch == ',' || ch == '"' || ch == '\n' || ch == '\r' {
            return false;
        }
        j += 1;
    }
    true
}

/// Whether every row is encoded verbatim, exactly as `clean_rows` states
/// it.
fn all_rows_clean(rows: &Vec<Vec<Vec<char>>>) -> (ok: bool)
    ensures
        ok == clean_rows(rows.deep_view()),
{
    let ghost dv = rows.deep_view();
    let mut i: usize = 0;
    while i < rows.len()
        invariant
            i <= rows@.len(),
            rows@.len() == dv.len(),
            dv == rows.deep_view(),
            forall|t: int| 0 <= t < i ==> clean_row(#[trigger] dv[t]),
        decreases rows@.len() - i,
    {
        proof {
            assert(dv[i as int] =~= rows@[i as int].deep_view());
        }
        if rows[i].len() == 0 {
            return false;
        }
        if rows[i].len() == 1 && rows[i][0].len() == 0 {
            proof {
                assert(dv[i as int][0] =~= rows@[i as int]@[0]@);
            }
            return false;
        }
        let mut j: usize = 0;
        while j < rows[i].len()
            invariant
                i < rows@.len(),
                j <= rows@[i as int]@.len(),
                rows@.len() == dv.len(),
                dv == rows.deep_view(),
                dv[i as int] == rows@[i as int].deep_view(),
                forall|t: int| 0 <= t < j ==> clean_field(#[trigger] dv[i as int][t]),
            decreases rows@[i as int]@.len() - j,
        {
            if !field_clean(&rows[i][j]) {
                proof {
                    assert(dv[i as int][j as int] =~= rows@[i as int]@[j as int]@);
                }
                return false;
            }
            proof {
                assert(dv[i as int][j as int] =~= rows@[i as int]@[j as int]@);
            }
            j += 1;
        }
        i += 1;
    }
    true
}

/// The comma-delimited text for the given columns: the rows of
/// `rows_spec`, one line per row, as `rows_text` states them.  The text
/// is returned exactly when the rows are all clean; columns whose rows
/// are not are refused with `None`.  No columns give the empty text.
pub fn render_csv(cols: &Vec<Vec<Vec<char>>>) -> (r: Option<String>)
    ensures
        match r {
            Some(s) => clean_rows(rows_spec(cols.deep_view())) && s@ == rows_text(
                rows_spec(cols.deep_view()),
            ),
            None => !clean_rows(rows_spec(cols.deep_view())),
        },
{
    let rows = rows_from_columns(cols);
    if !all_rows_clean(&rows) {
        return None;
    }
    proof {
        let dv = rows.deep_view();
        assert forall|i: int| 0 <= i < dv.len() implies (#[trigger] dv[i]).len()
            == dv[0].len() by {
            assert(dv[i].len() == cols.deep_view().len());
            assert(dv[0].len() == cols.deep_view().len());
        }
        assert(uniform_rows(dv));
    }
    csv_encode(&rows)
}

/// The text of a single column laid out one field per line.
pub open spec fn column_lines(col: Seq<Seq<char>>) -> Seq<char>
    decreases col.len(),
{
    if col.len() == 0 {
        Seq::<char>::empty()
    } else {
        column_lines(col.drop_last()) + col.last() + seq!['\n']
    }
}

/// How often the character occurs in the text.
pub open spec fn count_char(s: Seq<char>, c: char) -> nat
    decreases s.len(),
{
    if s.len() == 0 {
        0nat
    } else {
        count_char(s.drop_last(), c) + (if s.last() == c {
            1nat
        } else {
            0nat
        })
    }
}

proof fn lemma_count_concat(a: Seq<char>, b: Seq<char>, c: char)
    ensures
        count_char(a + b, c) == count_char(a, c) + count_char(b, c),
    decreases b.len(),
{
    if b.len() == 0 {
        assert(a + b =~= a);
    } else {
        assert((a + b).drop_last() =~= a + b.drop_last());
        assert((a + b).last() == b.last());
        lemma_count_concat(a, b.drop_last(), c);
    }
}

proof fn lemma_count_clean_field(f: Seq<char>)
    requires
        clean_field(f),
    ensures
        count_char(f, '\n') == 0,
    decreases f.len(),
{
    if f.len() > 0 {
        assert(clean_field(f.drop_last()));
        lemma_count_clean_field(f.drop_last());
    }
}

/// Output shape: a single column of `k` clean fields renders as exactly
/// `k` rows of one field each, the text putting each field on a line of
/// its own, so the text holds exactly `k` line endings.
pub proof fn lemma_single_column_shape(col: Seq<Seq<char>>)
    requires
        forall|i: int| 0 <= i < col.len() ==> clean_field(#[trigger] col[i]),
    ensures
        rows_spec(seq![col]).len() == col.len(),
        forall|i: int| 0 <= i < col.len() ==> rows_spec(seq![col])[i] == seq![#[trigger] col[i]],
        rows_text(rows_spec(seq![col])) == column_lines(col),
        count_char(column_lines(col), '\n') == col.len(),
    decreases col.len(),
{
    let rows = rows_spec(seq![col]);
    assert forall|i: int| 0 <= i < col.len() implies rows[i] == seq![#[trigger] col[i]] by {
        assert(rows[i] =~= seq![col[i]]);
    }
    if col.len() == 0 {
        assert(rows =~= Seq::<Seq<Seq<char>>>::empty());
    } else {
        let shorter = col.drop_last();
        assert(forall|i: int| 0 <= i < shorter.len() ==> shorter[i] == #[trigger] col[i]);
        lemma_single_column_shape(shorter);
        assert(rows.drop_last() =~~= rows_spec(seq![shorter]));
        assert(rows.last() =~= seq![col.last()]);
        assert(row_text(seq![col.last()]) == col.last());
        assert(rows_text(rows) == rows_text(rows_spec(seq![shorter])) + col.last() + seq!['\n']);
        assert(column_lines(col) == column_lines(shorter) + col.last() + seq!['\n']);
        lemma_count_concat(column_lines(shorter), col.last(), '\n');
        lemma_count_concat(column_lines(shorter) + col.last(), seq!['\n'], '\n');
        lemma_count_clean_field(col.last());
        assert(count_char(seq!['\n'], '\n') == 1) by {
            assert(seq!['\n'].drop_last() =~= Seq::<char>::empty());
            assert(count_char(Seq::<char>::empty(), '\n') == 0);
            assert(seq!['\n'].last() == '\n');
        }
        assert((column_lines(shorter) + col.last()) + seq!['\n'] =~= column_lines(shorter)
            + col.last() + seq!['\n']);
    }
}

} // verus!
