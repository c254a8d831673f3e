//! The table codec: delimited text with a header line to and from a `Table`.
//!
//! The first nonempty line is the header (comma-separated column names); every
//! later nonempty line is one row. A column whose cells are all decimal
//! integer literals is typed numeric; any other column keeps its raw text.

use vstd::prelude::*;

use crate::numeral::{int_literal_val, is_int_literal, dec_i64, parse_int, push_dec_i64};
use crate::table::{ColDataModel, ColModel, Column, ColumnData, Table, col_len, table_rows, table_wf};
use crate::text::{keep_nonempty, spec_split, strs_view, str_eq, split_str, filter_nonempty, lemma_split_len};

verus! {

/// Why a payload failed to decode.
#[derive(Clone, Copy, Debug, PartialEq, Eq, Structural)]
pub enum DecodeError {
    /// No nonempty line, so no header.
    MissingHeader,
    /// Two header columns share a name.
    DuplicateColumn,
    /// A row's field count differs from the header's.
    RowWidth,
}

/// The nonempty lines of a payload.
pub open spec fn content_lines(input: Seq<char>) -> Seq<Seq<char>> {
    keep_nonempty(spec_split(input, '\n'))
}

/// The column names of the header line.
pub open spec fn header_names(lines: Seq<Seq<char>>) -> Seq<Seq<char>> {
    spec_split(lines[0], ',')
}

/// The fields of data row `r` (row 0 is the line after the header).
pub open spec fn row_fields(lines: Seq<Seq<char>>, r: int) -> Seq<Seq<char>> {
    spec_split(lines[r + 1], ',')
}

/// Whether all names are pairwise distinct.
pub open spec fn names_unique(names: Seq<Seq<char>>) -> bool {
    forall|j1: int, j2: int|
        0 <= j1 < j2 < names.len() ==> (#[trigger] names[j1]) != (#[trigger] names[j2])
}

/// Whether every data row has exactly `ncols` fields.
pub open spec fn rows_wide(lines: Seq<Seq<char>>, ncols: int) -> bool {
    forall|r: int| 0 <= r < lines.len() - 1 ==> (#[trigger] row_fields(lines, r)).len() == ncols
}

/// Whether every cell of column `j` is an integer literal.
pub open spec fn col_all_int(lines: Seq<Seq<char>>, j: int) -> bool {
    forall|r: int| 0 <= r < lines.len() - 1 ==> is_int_literal(#[trigger] row_fields(lines, r)[j])
}

/// The decoded column `j`: typed numeric when every cell parses, raw text
/// otherwise.
pub open spec fn decoded_col(lines: Seq<Seq<char>>, j: int) -> ColModel {
    let nrows = (lines.len() - 1) as nat;
    ColModel {
        name: header_names(lines)[j],
        data: if col_all_int(lines, j) {
            ColDataModel::Ints(
                Seq::new(nrows, |r: int| int_literal_val(row_fields(lines, r)[j]) as i64),
            )
        } else {
            ColDataModel::Texts(Seq::new(nrows, |r: int| row_fields(lines, r)[j]))
        },
    }
}

/// What a payload decodes to: the table of its header and rows, or the first
/// error in the order header, duplicate names, row width.
pub open spec fn spec_decode(input: Seq<char>) -> Result<Seq<ColModel>, DecodeError> {
    let lines = content_lines(input);
    if lines.len() == 0 {
        Err(DecodeError::MissingHeader)
    } else {
        let names = header_names(lines);
        if !names_unique(names) {
            Err(DecodeError::DuplicateColumn)
        } else if !rows_wide(lines, names.len() as int) {
            Err(DecodeError::RowWidth)
        } else {
            Ok(Seq::new(names.len(), |j: int| decoded_col(lines, j)))
        }
    }
}

/// A decoded table is well formed.
pub proof fn lemma_spec_decode_wf(input: Seq<char>)
    requires
        spec_decode(input) is Ok,
    ensures
        table_wf(spec_decode(input)->Ok_0),
{
    let lines = content_lines(input);
    let names = header_names(lines);
    let t = spec_decode(input)->Ok_0;
    lemma_split_len(lines[0], ',');
    assert(forall|j: int| 0 <= j < t.len() ==> col_len(#[trigger] t[j].data) == lines.len() - 1);
}

/// Whether all names in `names` are pairwise distinct.
fn check_unique(names: &Vec<String>) -> (b: bool)
    ensures
        b == names_unique(strs_view(names@)),
{
    let gn = Ghost(strs_view(names@));
    let mut j1: usize = 0;
    while j1 < names.len()
        invariant
            gn@ == strs_view(names@),
            0 <= j1 <= names@.len(),
            forall|a: int, b: int| 0 <= a < b < j1 ==> (#[trigger] gn@[a]) != (#[trigger] gn@[b]),
        decreases names@.len() - j1,
    {
        let mut j0: usize = 0;
        while j0 < j1
            invariant
                gn@ == strs_view(names@),
                0 <= j0 <= j1 < names@.len(),
                forall|a: int, b: int| 0 <= a < b < j1 ==> (#[trigger] gn@[a]) != (#[trigger] gn@[b]),
                forall|a: int| 0 <= a < j0 ==> (#[trigger] gn@[a]) != gn@[j1 as int],
            decreases j1 - j0,
        {
            if str_eq(names[j0].as_str(), names[j1].as_str()) {
                proof {
                    assert(gn@[j0 as int] == names@[j0 as int]@);
                    assert(gn@[j1 as int] == names@[j1 as int]@);
                    assert(!names_unique(gn@));
                }
                return false;
            }
            j0 += 1;
        }
        j1 += 1;
    }
    true
}

/// Whether every cell of column `j` is an integer literal.
fn rows_col_all_int(rows: &Vec<Vec<String>>, j: usize) -> (b: bool)
    requires
        forall|r: int| 0 <= r < rows@.len() ==> j < (#[trigger] rows@[r])@.len(),
    ensures
        b == (forall|r: int|
            0 <= r < rows@.len() ==> is_int_literal((#[trigger] rows@[r])@[j as int]@)),
{
    let mut r: usize = 0;
    while r < rows.len()
        invariant
            forall|k: int| 0 <= k < rows@.len() ==> j < (#[trigger] rows@[k])@.len(),
            0 <= r <= rows@.len(),
            forall|k: int| 0 <= k < r ==> is_int_literal((#[trigger] rows@[k])@[j as int]@),
        decreases rows@.len() - r,
    {
        if parse_int(rows[r][j].as_str()).is_none() {
            return false;
        }
        r += 1;
    }
    true
}

/// The parsed values of an all-integer column.
fn build_int_col(rows: &Vec<Vec<String>>, j: usize) -> (v: Vec<i64>)
    requires
        forall|r: int| 0 <= r < rows@.len() ==> j < (#[trigger] rows@[r])@.len(),
        forall|r: int| 0 <= r < rows@.len() ==> is_int_literal((#[trigger] rows@[r])@[j as int]@),
    ensures
        v@ == Seq::new(rows@.len(), |r: int| int_literal_val(rows@[r]@[j as int]@) as i64),
{
    let mut v: Vec<i64> = Vec::new();
    let mut r: usize = 0;
    while r < rows.len()
        invariant
            forall|k: int| 0 <= k < rows@.len() ==> j < (#[trigger] rows@[k])@.len(),
            forall|k: int| 0 <= k < rows@.len() ==> is_int_literal((#[trigger] rows@[k])@[j as int]@),
            0 <= r <= rows@.len(),
            v@.len() == r,
            forall|k: int|
                0 <= k < r ==> (#[trigger] v@[k]) == int_literal_val(rows@[k]@[j as int]@) as i64,
        decreases rows@.len() - r,
    {
        match parse_int(rows[r][j].as_str()) {
            Some(x) => {
                v.push(x);
            },
            None => {
                proof {
                    assert(false);
                }
            },
        }
        r += 1;
    }
    proof {
        assert(v@ =~= Seq::new(rows@.len(), |r: int| int_literal_val(rows@[r]@[j as int]@) as i64));
    }
    v
}

/// The raw text of a column.
fn build_text_col(rows: &Vec<Vec<String>>, j: usize) -> (v: Vec<String>)
    requires
        forall|r: int| 0 <= r < rows@.len() ==> j < (#[trigger] rows@[r])@.len(),
    ensures
        strs_view(v@) == Seq::new(rows@.len(), |r: int| rows@[r]@[j as int]@),
{
    let mut v: Vec<String> = Vec::new();
    let mut r: usize = 0;
    while r < rows.len()
        invariant
            forall|k: int| 0 <= k < rows@.len() ==> j < (#[trigger] rows@[k])@.len(),
            0 <= r <= rows@.len(),
            v@.len() == r,
            forall|k: int| 0 <= k < r ==> (#[trigger] v@[k])@ == rows@[k]@[j as int]@,
        decreases rows@.len() - r,
    {
        v.push(rows[r][j].clone());
        r += 1;
    }
    proof {
        assert(strs_view(v@) =~~= Seq::new(rows@.len(), |r: int| rows@[r]@[j as int]@));
    }
    v
}

/// Decode a payload into a table, or report the first defect. The decoded
/// table is exactly what `spec_decode` names, and is well formed.
#[verifier::loop_isolation(false)]
pub fn decode(input: &str) -> (r: Result<Table, DecodeError>)
    ensures
        (match r {
            Ok(t) => spec_decode(input@) matches Ok(m) && t@ == m && t.wf(),
            Err(e) => spec_decode(input@) matches Err(m) && m == e,
        }),
{
    let raw_lines = split_str(input, '\n');
    let lines = filter_nonempty(&raw_lines);
    let ghost glines: Seq<Seq<char>> = content_lines(input@);
    proof {
        assert(strs_view(lines@) == glines);
    }
    if lines.len() == 0 {
        return Err(DecodeError::MissingHeader);
    }
    let names = split_str(lines[0].as_str(), ',');
    let ghost gnames: Seq<Seq<char>> = header_names(glines);
    proof {
        assert(strs_view(names@) == gnames);
        lemma_split_len(glines[0], ',');
    }
    if !check_unique(&names) {
        return Err(DecodeError::DuplicateColumn);
    }

    // Split every data row and hold each to the header's width.
    let mut rows: Vec<Vec<String>> = Vec::new();
    let mut li: usize = 1;
    while li < lines.len()
        invariant
            glines == strs_view(lines@),
            gnames == strs_view(names@),
            gnames.len() == names@.len(),
            glines.len() == lines@.len(),
            names_unique(gnames),
            1 <= li <= lines@.len(),
            rows@.len() == li - 1,
            forall|k: int|
                0 <= k < rows@.len() ==> strs_view((#[trigger] rows@[k])@) == row_fields(glines, k),
            forall|k: int| 0 <= k < rows@.len() ==> (#[trigger] rows@[k])@.len() == gnames.len(),
        decreases lines@.len() - li,
    {
        let fields = split_str(lines[li].as_str(), ',');
        proof {
            assert(strs_view(fields@) == row_fields(glines, li - 1));
        }
        if fields.len() != names.len() {
            proof {
                assert(strs_view(fields@).len() == fields@.len());
                assert(gnames.len() == names@.len());
                assert(glines.len() == lines@.len());
                assert(row_fields(glines, li - 1).len() != gnames.len());
                assert(!rows_wide(glines, gnames.len() as int));
            }
            return Err(DecodeError::RowWidth);
        }
        rows.push(fields);
        li += 1;
    }
    proof {
        assert(rows_wide(glines, gnames.len() as int)) by {
            assert(forall|r: int|
                0 <= r < glines.len() - 1 ==> (#[trigger] row_fields(glines, r)).len()
                    == strs_view(rows@[r]@).len());
        }
    }

    // Build each column, inferring its type from its cells.
    let ghost nrows: nat = rows@.len();
    let mut cols: Vec<Column> = Vec::new();
    let mut j: usize = 0;
    while j < names.len()
        invariant
            glines == strs_view(lines@),
            gnames == strs_view(names@),
            gnames.len() == names@.len(),
            glines.len() == lines@.len(),
            names_unique(gnames),
            rows_wide(glines, gnames.len() as int),
            glines.len() >= 1,
            rows@.len() == nrows,
            nrows == glines.len() - 1,
            forall|k: int|
                0 <= k < rows@.len() ==> strs_view((#[trigger] rows@[k])@) == row_fields(glines, k),
            forall|k: int| 0 <= k < rows@.len() ==> (#[trigger] rows@[k])@.len() == gnames.len(),
            0 <= j <= names@.len(),
            names@.len() == gnames.len(),
            cols@.len() == j,
            forall|q: int| 0 <= q < j ==> (#[trigger] cols@[q])@ == decoded_col(glines, q),
        decreases names@.len() - j,
    {
        proof {
            assert(forall|r: int|
                0 <= r < rows@.len() ==> (#[trigger] rows@[r])@[j as int]@ == row_fields(
                    glines,
                    r,
                )[j as int]);
        }
        let all_int = rows_col_all_int(&rows, j);
        proof {
            if all_int {
                assert forall|r: int|
                    0 <= r < glines.len() - 1 implies is_int_literal(
                    #[trigger] row_fields(glines, r)[j as int],
                ) by {
                    assert(rows@[r]@[j as int]@ == row_fields(glines, r)[j as int]);
                    assert(is_int_literal(rows@[r]@[j as int]@));
                }
                assert(col_all_int(glines, j as int));
            } else {
                let r = choose|r: int|
                    0 <= r < rows@.len() && !is_int_literal(rows@[r]@[j as int]@);
                assert(row_fields(glines, r)[j as int] == rows@[r]@[j as int]@);
                assert(!col_all_int(glines, j as int));
            }
        }
        let data: ColumnData = if all_int {
            ColumnData::Ints(build_int_col(&rows, j))
        } else {
            ColumnData::Texts(build_text_col(&rows, j))
        };
        let col = Column { name: names[j].clone(), data };
        proof {
            assert(gnames[j as int] == names@[j as int]@);
            match col@.data {
                ColDataModel::Ints(v) => {
                    assert forall|r: int|
                        0 <= r < nrows implies v[r] == int_literal_val(
                        row_fields(glines, r)[j as int],
                    ) as i64 by {
                        assert(rows@[r]@[j as int]@ == row_fields(glines, r)[j as int]);
                    }
                    assert(v =~= Seq::new(
                        nrows,
                        |r: int| int_literal_val(row_fields(glines, r)[j as int]) as i64,
                    ));
                },
                ColDataModel::Texts(v) => {
                    assert forall|r: int|
                        0 <= r < nrows implies v[r] == row_fields(glines, r)[j as int] by {
                        assert(rows@[r]@[j as int]@ == row_fields(glines, r)[j as int]);
                    }
                    assert(v =~~= Seq::new(nrows, |r: int| row_fields(glines, r)[j as int]));
                },
            }
            assert(col@ =~~= decoded_col(glines, j as int));
        }
        cols.push(col);
        j += 1;
    }
    let t = Table { cols };
    proof {
        assert(t@ =~~= Seq::new(gnames.len(), |q: int| decoded_col(glines, q)));
        lemma_spec_decode_wf(input@);
    }
    Ok(t)
}

/// The fields of one line, joined with commas.
pub open spec fn join_fields(cells: Seq<Seq<char>>) -> Seq<char>
    decreases cells.len(),
{
    if cells.len() == 0 {
        Seq::<char>::empty()
    } else if cells.len() == 1 {
        cells[0]
    } else {
        join_fields(cells.drop_last()) + seq![','] + cells.last()
    }
}

/// The text of one cell: a numeric cell renders in decimal, a text cell is
/// itself.
pub open spec fn cell_text(c: ColModel, r: int) -> Seq<char> {
    match c.data {
        ColDataModel::Ints(v) => dec_i64(v[r]),
        ColDataModel::Texts(v) => v[r],
    }
}

/// The text of data row `r`.
pub open spec fn row_text(t: Seq<ColModel>, r: int) -> Seq<char> {
    join_fields(Seq::new(t.len(), |j: int| cell_text(t[j], r)))
}

/// The text of the first `n` data rows, each ended by a newline.
pub open spec fn rows_text(t: Seq<ColModel>, n: int) -> Seq<char>
    decreases n,
{
    if n <= 0 {
        Seq::<char>::empty()
    } else {
        rows_text(t, n - 1) + row_text(t, n - 1) + seq!['\n']
    }
}

/// The header line's text.
pub open spec fn header_text(t: Seq<ColModel>) -> Seq<char> {
    join_fields(Seq::new(t.len(), |j: int| t[j].name))
}

/// What a table renders to: an optional header line, then every row.
pub open spec fn spec_encode(t: Seq<ColModel>, include_header: bool) -> Seq<char> {
    (if include_header {
        header_text(t) + seq!['\n']
    } else {
        Seq::<char>::empty()
    }) + rows_text(t, table_rows(t) as int)
}

/// Render a table as delimited text, optionally with its header line.
#[verifier::loop_isolation(false)]
pub fn encode(t: &Table, include_header: bool) -> (out: String)
    requires
        t.wf(),
    ensures
        out@ == spec_encode(t@, include_header),
{
    let mut out = String::new();
    proof {
        reveal_strlit(",");
        reveal_strlit("\n");
        assert(","@ =~= seq![',']);
        assert("\n"@ =~= seq!['\n']);
    }
    if include_header {
        let mut j: usize = 0;
        while j < t.cols.len()
            invariant
                t.wf(),
                0 <= j <= t@.len(),
                out@ == join_fields(Seq::new(j as nat, |q: int| t@[q].name)),
            decreases t@.len() - j,
        {
            proof {
                reveal_strlit(",");
                assert(","@ =~= seq![',']);
                assert(Seq::new((j + 1) as nat, |q: int| t@[q].name).drop_last() =~= Seq::new(
                    j as nat,
                    |q: int| t@[q].name,
                ));
            }
            if j > 0 {
                out.append(",");
            }
            out.append(t.cols[j].name.as_str());
            proof {
                assert(t@[j as int].name == t.cols@[j as int]@.name);
                assert(out@ =~= join_fields(Seq::new((j + 1) as nat, |q: int| t@[q].name)));
            }
            j += 1;
        }
        out.append("\n");
        proof {
            reveal_strlit("\n");
            assert("\n"@ =~= seq!['\n']);
            assert(Seq::new(t@.len(), |q: int| t@[q].name) =~~= Seq::new(
                (t.cols@.len()) as nat,
                |q: int| t@[q].name,
            ));
            assert(out@ =~= header_text(t@) + seq!['\n']);
        }
    }
    let ghost head: Seq<char> = out@;
    let nrows = t.rows();
    let mut r: usize = 0;
    while r < nrows
        invariant
            t.wf(),
            nrows == table_rows(t@),
            0 <= r <= nrows,
            head == (if include_header {
                header_text(t@) + seq!['\n']
            } else {
                Seq::<char>::empty()
            }),
            out@ == head + rows_text(t@, r as int),
        decreases nrows - r,
    {
        let mut j: usize = 0;
        while j < t.cols.len()
            invariant
                t.wf(),
                nrows == table_rows(t@),
                0 <= r < nrows,
                0 <= j <= t@.len(),
                out@ == head + rows_text(t@, r as int) + join_fields(
                    Seq::new(j as nat, |q: int| cell_text(t@[q], r as int)),
                ),
            decreases t@.len() - j,
        {
            proof {
                reveal_strlit(",");
                assert(","@ =~= seq![',']);
                assert(Seq::new((j + 1) as nat, |q: int| cell_text(t@[q], r as int)).drop_last()
                    =~= Seq::new(j as nat, |q: int| cell_text(t@[q], r as int)));
                assert(t@[j as int] == t.cols@[j as int]@);
                assert(col_len(t@[j as int].data) == table_rows(t@));
            }
            if j > 0 {
                out.append(",");
            }
            match &t.cols[j].data {
                ColumnData::Ints(v) => {
                    push_dec_i64(&mut out, v[r]);
                },
                ColumnData::Texts(v) => {
                    out.append(v[r].as_str());
                    proof {
                        assert(v@.map_values(|s: String| s@)[r as int] == v@[r as int]@);
                    }
                },
            }
            proof {
                assert(out@ =~= head + rows_text(t@, r as int) + join_fields(
                    Seq::new((j + 1) as nat, |q: int| cell_text(t@[q], r as int)),
                ));
            }
            j += 1;
        }
        out.append("\n");
        proof {
            reveal_strlit("\n");
            assert("\n"@ =~= seq!['\n']);
            assert(Seq::new(t@.len(), |q: int| cell_text(t@[q], r as int)) =~~= Seq::new(
                (t.cols@.len()) as nat,
                |q: int| cell_text(t@[q], r as int),
            ));
            assert(out@ =~= head + rows_text(t@, r + 1));
        }
        r += 1;
    }
    out
}

} // verus!
