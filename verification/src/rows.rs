//! Records and the positional merge.  A line holds `index, timestamp,
//! value`; a file contributes the rows of its well-formed lines in order;
//! the first file with any rows fixes the shape of the output, and every
//! later file adds its values position by position.

use vstd::prelude::*;
use crate::bytestr::{split_commas_spec, split_commas, trimmed, trim_bytes, COMMA};
use crate::value::{parsed_value, parse_value, sum_bits, add_values, rendered, render_value};
use crate::bytestr::{copy_bytes, append_bytes};

verus! {

/// One record: `index` and `timestamp` verbatim, `value` as binary64 bits.
pub struct Row {
    pub index: Vec<u8>,
    pub timestamp: Vec<u8>,
    pub value: u64,
}

/// The mathematical shadow of a `Row`.
pub ghost struct RowModel {
    pub index: Seq<u8>,
    pub timestamp: Seq<u8>,
    pub value: u64,
}

impl View for Row {
    type V = RowModel;

    open spec fn view(&self) -> RowModel {
        RowModel { index: self.index@, timestamp: self.timestamp@, value: self.value }
    }
}

impl DeepView for Row {
    type V = RowModel;

    open spec fn deep_view(&self) -> RowModel {
        self@
    }
}

/// The row a line yields: exactly three comma-separated fields, each
/// trimmed, the third a numeric literal; anything else yields none.
pub open spec fn line_row(line: Seq<u8>) -> Option<RowModel> {
    let fields = split_commas_spec(line);
    if fields.len() == 3 {
        match parsed_value(trimmed(fields[2])) {
            Some(bits) => Some(
                RowModel {
                    index: trimmed(fields[0]),
                    timestamp: trimmed(fields[1]),
                    value: bits,
                },
            ),
            None => None,
        }
    } else {
        None
    }
}

/// The rows of a file's lines, in line order, well-formed lines only.
pub open spec fn valid_rows(lines: Seq<Seq<u8>>) -> Seq<RowModel>
    decreases lines.len(),
{
    if lines.len() == 0 {
        Seq::empty()
    } else {
        let rest = valid_rows(lines.drop_last());
        match line_row(lines.last()) {
            Some(r) => rest.push(r),
            None => rest,
        }
    }
}

/// One later file folded into the accumulator: positions past either
/// length are left alone.
pub open spec fn add_into(acc: Seq<RowModel>, rows: Seq<RowModel>) -> Seq<RowModel> {
    Seq::new(
        acc.len(),
        |i: int|
            if i < rows.len() {
                RowModel {
                    index: acc[i].index,
                    timestamp: acc[i].timestamp,
                    value: sum_bits(acc[i].value, rows[i].value),
                }
            } else {
                acc[i]
            },
    )
}

/// The remaining files folded into the accumulator, left to right.
pub open spec fn summed_from(acc: Seq<RowModel>, rest: Seq<Seq<RowModel>>) -> Seq<RowModel>
    decreases rest.len(),
{
    if rest.len() == 0 {
        acc
    } else {
        summed_from(add_into(acc, rest.first()), rest.drop_first())
    }
}

/// The merged rows of a group's files: empty until some file has rows; the
/// first such file is taken whole and the rest are folded in.
pub open spec fn summed(files: Seq<Seq<RowModel>>) -> Seq<RowModel>
    decreases files.len(),
{
    if files.len() == 0 {
        Seq::empty()
    } else if files.first().len() == 0 {
        summed(files.drop_first())
    } else {
        summed_from(files.first(), files.drop_first())
    }
}

/// Each file's lines parsed to rows.
pub open spec fn parsed_files(files: Seq<Seq<Seq<u8>>>) -> Seq<Seq<RowModel>> {
    files.map_values(|lines: Seq<Seq<u8>>| valid_rows(lines))
}

/// The merged rows of a group, from the files' raw lines.
pub open spec fn summed_files(files: Seq<Seq<Seq<u8>>>) -> Seq<RowModel> {
    summed(parsed_files(files))
}

/// Parses one line; yields the row exactly where the line is well-formed.
pub fn parse_line(line: &Vec<u8>) -> (r: Option<Row>)
    ensures
        r.deep_view() == line_row(line@),
{
    let fields = split_commas(line);
    proof {
        assert(fields.deep_view().len() == fields@.len());
    }
    if fields.len() != 3 {
        return None;
    }
    proof {
        assert(fields.deep_view()[0] == fields@[0]@);
        assert(fields.deep_view()[1] == fields@[1]@);
        assert(fields.deep_view()[2] == fields@[2]@);
    }
    let third = trim_bytes(&fields[2]);
    match parse_value(&third) {
        Some(bits) => {
            let idx = trim_bytes(&fields[0]);
            let ts = trim_bytes(&fields[1]);
            Some(Row { index: idx, timestamp: ts, value: bits })
        },
        None => None,
    }
}

/// Parses a file's lines; yields the rows of the well-formed lines in
/// order.
pub fn parse_lines(lines: &Vec<Vec<u8>>) -> (rows: Vec<Row>)
    ensures
        rows.deep_view() == valid_rows(lines.deep_view()),
{
    let mut rows: Vec<Row> = Vec::new();
    let mut i: usize = 0;
    while i < lines.len()
        invariant
            i <= lines.len(),
            rows.deep_view() == valid_rows(lines.deep_view().subrange(0, i as int)),
        decreases lines.len() - i,
    {
        let ghost prev = rows.deep_view();
        let r = parse_line(&lines[i]);
        proof {
            let sub2 = lines.deep_view().subrange(0, i as int + 1);
            assert(sub2.drop_last() =~~= lines.deep_view().subrange(0, i as int));
            assert(sub2.last() =~= lines@[i as int]@);
            assert(lines.deep_view()[i as int] =~= lines@[i as int]@);
        }
        match r {
            Some(row) => {
                rows.push(row);
                proof {
                    assert(rows.deep_view() =~~= prev.push(row@));
                }
            },
            None => {},
        }
        i = i + 1;
    }
    proof {
        assert(lines.deep_view().subrange(0, lines@.len() as int) =~~= lines.deep_view());
    }
    rows
}

/// Merges a group's files, given as each file's raw lines in read order.
pub fn sum_group(files: &Vec<Vec<Vec<u8>>>) -> (rows: Vec<Row>)
    ensures
        rows.deep_view() == summed_files(files.deep_view()),
{
    let ghost pf = parsed_files(files.deep_view());
    proof {
        assert(pf.subrange(0, pf.len() as int) =~= pf);
    }
    let mut acc: Vec<Row> = Vec::new();
    let mut started: bool = false;
    let mut fi: usize = 0;
    while fi < files.len()
        invariant
            fi <= files.len(),
            pf == parsed_files(files.deep_view()),
            pf.len() == files@.len(),
            started ==> summed(pf) == summed_from(
                acc.deep_view(),
                pf.subrange(fi as int, pf.len() as int),
            ),
            !started ==> summed(pf) == summed(pf.subrange(fi as int, pf.len() as int))
                && acc.len() == 0,
        decreases files.len() - fi,
    {
        let cur = parse_lines(&files[fi]);
        let ghost rem = pf.subrange(fi as int, pf.len() as int);
        proof {
            assert(files.deep_view()[fi as int] =~~= files@[fi as int].deep_view());
            assert(cur.deep_view() == pf[fi as int]);
            assert(rem.first() == pf[fi as int]);
            assert(rem.drop_first() =~= pf.subrange(fi as int + 1, pf.len() as int));
        }
        if !started {
            if cur.len() > 0 {
                proof {
                    assert(summed(rem) == summed_from(rem.first(), rem.drop_first()));
                }
                acc = cur;
                started = true;
            } else {
                proof {
                    assert(cur.deep_view() =~= Seq::<RowModel>::empty());
                    assert(summed(rem) == summed(rem.drop_first()));
                }
            }
        } else {
            let ghost acc0 = acc.deep_view();
            let m = if cur.len() < acc.len() {
                cur.len()
            } else {
                acc.len()
            };
            let mut j: usize = 0;
            while j < m
                invariant
                    j <= m,
                    m <= acc.len(),
                    m <= cur.len(),
                    acc.len() == acc0.len(),
                    m == cur@.len() || m == acc0.len(),
                    forall|k: int|
                        0 <= k < j ==> acc.deep_view()[k] == add_into(acc0, cur.deep_view())[k],
                    forall|k: int| j <= k < acc.len() ==> acc.deep_view()[k] == acc0[k],
                decreases m - j,
            {
                let ghost before_dv = acc.deep_view();
                let nv = add_values(acc[j].value, cur[j].value);
                proof {
                    assert(before_dv[j as int] == acc@[j as int]@);
                    assert(before_dv[j as int] == acc0[j as int]);
                    assert(cur.deep_view()[j as int] == cur@[j as int]@);
                    assert(nv == sum_bits(acc0[j as int].value, cur.deep_view()[j as int].value));
                }
                acc[j].value = nv;
                proof {
                    assert(forall|k: int|
                        0 <= k < acc0.len() && k != j ==> acc.deep_view()[k] == before_dv[k]);
                    assert(acc.deep_view()[j as int] == acc@[j as int]@);
                    assert(acc.deep_view()[j as int].value == nv);
                    assert(acc.deep_view()[j as int].index == acc0[j as int].index);
                    assert(acc.deep_view()[j as int].timestamp == acc0[j as int].timestamp);
                    assert(acc.deep_view()[j as int] == add_into(acc0, cur.deep_view())[j as int]);
                    assert forall|k: int| 0 <= k <= j implies acc.deep_view()[k] == add_into(
                        acc0,
                        cur.deep_view(),
                    )[k] by {
                        if k < j {
                            assert(before_dv[k] == add_into(acc0, cur.deep_view())[k]);
                            assert(acc.deep_view()[k] == before_dv[k]);
                        }
                    }
                }
                j = j + 1;
            }
            proof {
                assert(acc.deep_view() =~~= add_into(acc0, cur.deep_view()));
                assert(summed_from(acc0, rem) == summed_from(
                    add_into(acc0, rem.first()),
                    rem.drop_first(),
                ));
            }
        }
        fi = fi + 1;
    }
    proof {
        let rem = pf.subrange(files@.len() as int, pf.len() as int);
        assert(rem =~= Seq::<Seq<RowModel>>::empty());
        if started {
            assert(summed_from(acc.deep_view(), rem) == acc.deep_view());
        } else {
            assert(summed(rem) =~= Seq::<RowModel>::empty());
            assert(acc.deep_view() =~= Seq::<RowModel>::empty());
        }
    }
    acc
}

/// The output rendering of one row: the two fields verbatim, then the
/// value's decimal rendering, joined by comma and space.
pub open spec fn rendered_line(r: RowModel) -> Seq<u8> {
    r.index + seq![COMMA, 32u8] + r.timestamp + seq![COMMA, 32u8] + rendered(r.value)
}

/// The output lines for a row sequence, in order.
pub open spec fn rendered_lines(rows: Seq<RowModel>) -> Seq<Seq<u8>> {
    rows.map_values(|r: RowModel| rendered_line(r))
}

/// Renders rows to output lines.
pub fn render_rows(rows: &Vec<Row>) -> (out: Vec<Vec<u8>>)
    ensures
        out.deep_view() == rendered_lines(rows.deep_view()),
{
    let mut out: Vec<Vec<u8>> = Vec::new();
    let mut i: usize = 0;
    while i < rows.len()
        invariant
            i <= rows.len(),
            out.deep_view() == rendered_lines(rows.deep_view()).subrange(0, i as int),
        decreases rows.len() - i,
    {
        let ghost prev = out.deep_view();
        let mut line = copy_bytes(&rows[i].index);
        line.push(COMMA);
        line.push(32);
        append_bytes(&mut line, &rows[i].timestamp);
        line.push(COMMA);
        line.push(32);
        let v = render_value(rows[i].value);
        append_bytes(&mut line, &v);
        proof {
            assert(rows.deep_view()[i as int] == rows@[i as int]@);
            assert(line@ =~= rendered_line(rows.deep_view()[i as int]));
        }
        out.push(line);
        proof {
            assert(out.deep_view() =~~= prev.push(line@));
            assert(prev.push(rendered_lines(rows.deep_view())[i as int]) =~~= rendered_lines(
                rows.deep_view(),
            ).subrange(0, i as int + 1));
        }
        i = i + 1;
    }
    proof {
        let rl = rendered_lines(rows.deep_view());
        assert(rl.subrange(0, rows@.len() as int) =~~= rl);
    }
    out
}

/// The newline byte that ends every output line.
pub const NEWLINE: u8 = 10;

/// The whole output file: every row's rendering, each ended by a newline.
pub open spec fn file_content(rows: Seq<RowModel>) -> Seq<u8>
    decreases rows.len(),
{
    if rows.len() == 0 {
        Seq::empty()
    } else {
        file_content(rows.drop_last()) + rendered_line(rows.last()) + seq![NEWLINE]
    }
}

/// Renders rows to the output file's full contents.
pub fn render_output(rows: &Vec<Row>) -> (out: Vec<u8>)
    ensures
        out@ == file_content(rows.deep_view()),
{
    let lines = render_rows(rows);
    proof {
        assert(lines.deep_view().len() == lines@.len());
        assert(rendered_lines(rows.deep_view()).len() == rows.deep_view().len());
        assert(rows.deep_view().subrange(0, 0) =~= Seq::<RowModel>::empty());
    }
    let mut out: Vec<u8> = Vec::new();
    let mut i: usize = 0;
    while i < lines.len()
        invariant
            i <= lines.len(),
            lines.deep_view() == rendered_lines(rows.deep_view()),
            lines@.len() == rows.deep_view().len(),
            out@ == file_content(rows.deep_view().subrange(0, i as int)),
        decreases lines.len() - i,
    {
        proof {
            let sub2 = rows.deep_view().subrange(0, i as int + 1);
            assert(sub2.drop_last() =~~= rows.deep_view().subrange(0, i as int));
            assert(sub2.last() == rows.deep_view()[i as int]);
            assert(lines.deep_view()[i as int] == lines@[i as int]@);
            assert(lines.deep_view()[i as int] == rendered_line(rows.deep_view()[i as int]));
        }
        append_bytes(&mut out, &lines[i]);
        out.push(NEWLINE);
        proof {
            assert(out@ =~= file_content(rows.deep_view().subrange(0, i as int)) + rendered_line(
                rows.deep_view()[i as int],
            ) + seq![NEWLINE]);
        }
        i = i + 1;
    }
    proof {
        assert(rows.deep_view().subrange(0, rows@.len() as int) =~~= rows.deep_view());
    }
    out
}

/// The running sum, in file order, of the values that later files
/// contribute at position `i`; a file too short to reach `i` contributes
/// nothing.
pub open spec fn pos_fold(v: u64, rest: Seq<Seq<RowModel>>, i: int) -> u64
    decreases rest.len(),
{
    if rest.len() == 0 {
        v
    } else {
        pos_fold(
            if 0 <= i < rest.first().len() {
                sum_bits(v, rest.first()[i].value)
            } else {
                v
            },
            rest.drop_first(),
            i,
        )
    }
}

proof fn lemma_summed_from_pointwise(acc: Seq<RowModel>, rest: Seq<Seq<RowModel>>, i: int)
    requires
        0 <= i < acc.len(),
    ensures
        summed_from(acc, rest).len() == acc.len(),
        summed_from(acc, rest)[i].index == acc[i].index,
        summed_from(acc, rest)[i].timestamp == acc[i].timestamp,
        summed_from(acc, rest)[i].value == pos_fold(acc[i].value, rest, i),
    decreases rest.len(),
{
    if rest.len() == 0 {
    } else {
        let acc2 = add_into(acc, rest.first());
        assert(acc2.len() == acc.len());
        lemma_summed_from_pointwise(acc2, rest.drop_first(), i);
    }
}

/// The merged output of a group keeps the shape of the first file with any
/// rows: the same row count, its `index` and `timestamp` fields verbatim,
/// and at each position the running sum, in file order, of that position's
/// values across the later files that reach it.
pub proof fn lemma_merge_rows(files: Seq<Seq<RowModel>>, k: int, i: int)
    requires
        0 <= k < files.len(),
        forall|j: int| 0 <= j < k ==> files[j].len() == 0,
        files[k].len() > 0,
        0 <= i < files[k].len(),
    ensures
        summed(files).len() == files[k].len(),
        summed(files)[i].index == files[k][i].index,
        summed(files)[i].timestamp == files[k][i].timestamp,
        summed(files)[i].value == pos_fold(
            files[k][i].value,
            files.subrange(k + 1, files.len() as int),
            i,
        ),
    decreases k,
{
    if k == 0 {
        lemma_summed_from_pointwise(files.first(), files.drop_first(), i);
        assert(files.drop_first() =~= files.subrange(1, files.len() as int));
    } else {
        assert(files.first().len() == 0);
        let tail = files.drop_first();
        assert(forall|j: int| 0 <= j < k - 1 ==> tail[j].len() == 0);
        assert(tail[k - 1] == files[k]);
        lemma_merge_rows(tail, k - 1, i);
        assert(tail.subrange(k, tail.len() as int) =~= files.subrange(k + 1, files.len() as int));
    }
}

/// A line that yields no row — the wrong field count or a non-numeric
/// value — adds nothing and shifts nothing: inserting it anywhere leaves
/// the file's parsed rows unchanged.
pub proof fn lemma_malformed_line_excluded(lines: Seq<Seq<u8>>, i: int, bad: Seq<u8>)
    requires
        0 <= i <= lines.len(),
        line_row(bad) is None,
    ensures
        valid_rows(lines.insert(i, bad)) == valid_rows(lines),
    decreases lines.len(),
{
    let s2 = lines.insert(i, bad);
    if i == lines.len() {
        assert(s2 =~~= lines.push(bad));
        assert(s2.drop_last() =~~= lines);
        assert(s2.last() == bad);
    } else {
        assert(s2.len() == lines.len() + 1);
        assert(s2.last() == lines.last());
        assert(s2.drop_last() =~~= lines.drop_last().insert(i, bad));
        lemma_malformed_line_excluded(lines.drop_last(), i, bad);
    }
}

} // verus!
