//! The flat file: one record per line, four fields to a line, separated by
//! commas: name, description, price, quantity.
//!
//! Nothing escapes a comma or a line break, so a field that holds one does
//! not come back as it was written.

use vstd::prelude::*;
use vstd::string::StringExecFns;
use crate::error::InventoryError;
use crate::number::{
    all_number_chars,
    is_digit,
    is_number_char,
    is_price_chars,
    is_price_text,
    lemma_price_text_chars,
    lemma_quantity_round_trip,
    lemma_quantity_text_chars,
    push_quantity,
    quantity_of_chars,
    quantity_of_text,
    quantity_text,
};
use crate::product::{Row, RowView, row_views};
use crate::text::{chars_of, string_of, sub_chars};

verus! {

/// The index of the first `c` in `s`, or the length of `s` where it holds
/// none.
pub open spec fn first_index(s: Seq<char>, c: char) -> int
    decreases s.len(),
{
    if s.len() == 0 || s[0] == c {
        0
    } else {
        1 + first_index(s.skip(1), c)
    }
}

/// The fields of a line: the stretches between its commas. A line without a
/// comma is one field, and so is the empty line.
pub open spec fn split_fields(line: Seq<char>) -> Seq<Seq<char>>
    decreases line.len(),
{
    let comma = first_index(line, ',');
    if 0 <= comma < line.len() {
        seq![line.take(comma)] + split_fields(line.skip(comma + 1))
    } else {
        seq![line]
    }
}

/// A line without the carriage return that may end it.
pub open spec fn strip_return(line: Seq<char>) -> Seq<char> {
    if line.len() > 0 && line.last() == '\r' {
        line.drop_last()
    } else {
        line
    }
}

/// The lines of a text. Each line feed ends a line, and a carriage return
/// just before it goes with it. What follows the last line feed is a line
/// too, unless it is empty; so the empty text has no line.
pub open spec fn split_lines(text: Seq<char>) -> Seq<Seq<char>>
    decreases text.len(),
{
    let feed = first_index(text, '\n');
    if text.len() == 0 {
        seq![]
    } else if 0 <= feed < text.len() {
        seq![strip_return(text.take(feed))] + split_lines(text.skip(feed + 1))
    } else {
        seq![text]
    }
}

/// The row that a line writes, or why it writes none.
pub open spec fn parse_row(line: Seq<char>) -> Result<RowView, InventoryError> {
    let fields = split_fields(line);
    if fields.len() != 4 {
        Err(InventoryError::MalformedRecord)
    } else if !is_price_text(fields[2]) {
        Err(InventoryError::InvalidPrice)
    } else {
        match quantity_of_text(fields[3]) {
            None => Err(InventoryError::InvalidQuantity),
            Some(quantity) => Ok(
                RowView { name: fields[0], description: fields[1], price: fields[2], quantity },
            ),
        }
    }
}

/// The rows that the lines write, in order; or, where some line writes none,
/// the failure of the first such line.
pub open spec fn parse_rows(lines: Seq<Seq<char>>) -> Result<Seq<RowView>, InventoryError>
    decreases lines.len(),
{
    if lines.len() == 0 {
        Ok(seq![])
    } else {
        match parse_row(lines[0]) {
            Err(e) => Err(e),
            Ok(row) => match parse_rows(lines.skip(1)) {
                Err(e) => Err(e),
                Ok(rows) => Ok(seq![row] + rows),
            },
        }
    }
}

/// The rows that a text writes, line by line.
pub open spec fn parse_lines(text: Seq<char>) -> Result<Seq<RowView>, InventoryError> {
    parse_rows(split_lines(text))
}

/// The line that writes a row: its four fields with commas between them,
/// the quantity as it is written.
pub open spec fn row_line(row: RowView) -> Seq<char> {
    row.name + seq![','] + row.description + seq![','] + row.price + seq![','] + quantity_text(
        row.quantity,
    )
}

/// The line that writes a row, with the line feed that ends it.
pub open spec fn render_row(row: RowView) -> Seq<char> {
    row_line(row) + seq!['\n']
}

/// The text that writes the rows, one line each, in order.
pub open spec fn render_rows(rows: Seq<RowView>) -> Seq<char>
    decreases rows.len(),
{
    if rows.len() == 0 {
        seq![]
    } else {
        render_row(rows[0]) + render_rows(rows.skip(1))
    }
}

/// What each vector holds, in the same order.
spec fn texts(items: Seq<Vec<char>>) -> Seq<Seq<char>> {
    Seq::new(items.len(), |i: int| items[i]@)
}

/// The index of the first `c` at or after `from`, or the length.
fn find_char(chars: &Vec<char>, c: char, from: usize) -> (at: usize)
    requires
        from <= chars.len(),
    ensures
        from <= at <= chars.len(),
        at - from == first_index(chars@.skip(from as int), c),
{
    let mut i: usize = from;
    while i < chars.len() && chars[i] != c
        invariant
            from <= i <= chars.len(),
            first_index(chars@.skip(from as int), c) == (i - from) + first_index(
                chars@.skip(i as int),
                c,
            ),
        decreases chars.len() - i,
    {
        proof {
            assert(chars@.skip(i as int)[0] == chars@[i as int]);
            assert(chars@.skip(i as int).skip(1) =~= chars@.skip(i as int + 1));
        }
        i += 1;
    }
    proof {
        if i < chars.len() {
            assert(chars@.skip(i as int)[0] == chars@[i as int]);
        }
    }
    i
}

/// The fields of a line, each as its characters.
fn fields_of(line: &Vec<char>) -> (fields: Vec<Vec<char>>)
    ensures
        texts(fields@) == split_fields(line@),
{
    let mut fields: Vec<Vec<char>> = Vec::new();
    let mut from: usize = 0;
    assert(line@.skip(0) =~= line@);
    loop
        invariant_except_break
            from <= line.len(),
            split_fields(line@) == texts(fields@) + split_fields(line@.skip(from as int)),
        ensures
            texts(fields@) == split_fields(line@),
        decreases line.len() - from,
    {
        let comma = find_char(line, ',', from);
        let field = sub_chars(line, from, comma);
        let ghost rest = line@.skip(from as int);
        let ghost before = texts(fields@);
        fields.push(field);
        proof {
            assert(rest.take(comma - from) =~= line@.subrange(from as int, comma as int));
            if comma < line.len() {
                assert(rest.skip(comma - from + 1) =~= line@.skip(comma as int + 1));
                assert(texts(fields@) =~= before + seq![rest.take(comma - from)]);
            } else {
                assert(rest.take(comma - from) =~= rest);
                assert(texts(fields@) =~= before + seq![rest]);
            }
        }
        if comma >= line.len() {
            break ;
        }
        from = comma + 1;
    }
    fields
}

/// The lines of a text, each as its characters.
fn lines_of(text: &Vec<char>) -> (lines: Vec<Vec<char>>)
    ensures
        texts(lines@) == split_lines(text@),
{
    let mut lines: Vec<Vec<char>> = Vec::new();
    let mut from: usize = 0;
    assert(text@.skip(0) =~= text@);
    while from < text.len()
        invariant
            from <= text.len(),
            split_lines(text@) == texts(lines@) + split_lines(text@.skip(from as int)),
        decreases text.len() - from,
    {
        let feed = find_char(text, '\n', from);
        let ghost rest = text@.skip(from as int);
        let ghost before = texts(lines@);
        if feed >= text.len() {
            let line = sub_chars(text, from, feed);
            lines.push(line);
            proof {
                assert(rest =~= text@.subrange(from as int, feed as int));
                assert(texts(lines@) =~= before + seq![rest]);
                assert(split_lines(text@.skip(feed as int)) =~= Seq::<Seq<char>>::empty());
            }
            from = feed;
        } else {
            let end: usize = if feed > from && text[feed - 1] == '\r' {
                feed - 1
            } else {
                feed
            };
            let line = sub_chars(text, from, end);
            lines.push(line);
            proof {
                assert(rest.take(feed - from) =~= text@.subrange(from as int, feed as int));
                assert(strip_return(rest.take(feed - from)) =~= text@.subrange(
                    from as int,
                    end as int,
                ));
                assert(rest.skip(feed - from + 1) =~= text@.skip(feed as int + 1));
                assert(texts(lines@) =~= before + seq![strip_return(rest.take(feed - from))]);
            }
            from = feed + 1;
        }
    }
    lines
}

/// Reads one line, given as its characters.
fn row_of_chars(line: &Vec<char>) -> (result: Result<Row, InventoryError>)
    ensures
        match result {
            Ok(row) => parse_row(line@) == Ok::<RowView, InventoryError>(row@),
            Err(e) => parse_row(line@) == Err::<RowView, InventoryError>(e),
        },
{
    let fields = fields_of(line);
    if fields.len() != 4 {
        return Err(InventoryError::MalformedRecord);
    }
    assert(texts(fields@)[0] == fields@[0]@);
    assert(texts(fields@)[1] == fields@[1]@);
    assert(texts(fields@)[2] == fields@[2]@);
    assert(texts(fields@)[3] == fields@[3]@);
    if !is_price_chars(&fields[2]) {
        return Err(InventoryError::InvalidPrice);
    }
    match quantity_of_chars(&fields[3]) {
        None => Err(InventoryError::InvalidQuantity),
        Some(quantity) => {
            let name = string_of(&fields[0], 0, fields[0].len());
            let description = string_of(&fields[1], 0, fields[1].len());
            let price = string_of(&fields[2], 0, fields[2].len());
            proof {
                assert(fields@[0]@.subrange(0, fields@[0]@.len() as int) =~= fields@[0]@);
                assert(fields@[1]@.subrange(0, fields@[1]@.len() as int) =~= fields@[1]@);
                assert(fields@[2]@.subrange(0, fields@[2]@.len() as int) =~= fields@[2]@);
            }
            Ok(Row { name, description, price, quantity })
        },
    }
}

/// Reads one line, given without the line break that ended it.
///
/// The line must have exactly four fields, else it is a `MalformedRecord`.
/// The third must write a price, else it is an `InvalidPrice`; the fourth a
/// quantity, else it is an `InvalidQuantity`. The row keeps the first three
/// fields as they stand and the fourth as the number it writes.
pub fn parse_line(line: &str) -> (result: Result<Row, InventoryError>)
    ensures
        match result {
            Ok(row) => parse_row(line@) == Ok::<RowView, InventoryError>(row@),
            Err(e) => parse_row(line@) == Err::<RowView, InventoryError>(e),
        },
{
    let chars = chars_of(line);
    row_of_chars(&chars)
}

/// Reads a whole text, line by line. The result is every line's row, in
/// order, or the failure of the first line that writes none.
pub fn parse_text(text: &str) -> (result: Result<Vec<Row>, InventoryError>)
    ensures
        match result {
            Ok(rows) => parse_lines(text@) == Ok::<Seq<RowView>, InventoryError>(row_views(rows@)),
            Err(e) => parse_lines(text@) == Err::<Seq<RowView>, InventoryError>(e),
        },
{
    let chars = chars_of(text);
    let lines = lines_of(&chars);
    let mut rows: Vec<Row> = Vec::new();
    let mut i: usize = 0;
    assert(texts(lines@).skip(0) =~= texts(lines@));
    while i < lines.len()
        invariant
            i <= lines.len(),
            texts(lines@) == split_lines(text@),
            parse_rows(texts(lines@)) == match parse_rows(texts(lines@).skip(i as int)) {
                Ok(rest) => Ok::<Seq<RowView>, InventoryError>(row_views(rows@) + rest),
                Err(e) => Err::<Seq<RowView>, InventoryError>(e),
            },
        decreases lines.len() - i,
    {
        let ghost rest = texts(lines@).skip(i as int);
        assert(rest[0] == lines@[i as int]@);
        assert(rest.skip(1) =~= texts(lines@).skip(i as int + 1));
        match row_of_chars(&lines[i]) {
            Err(e) => {
                return Err(e);
            },
            Ok(row) => {
                let ghost before = row_views(rows@);
                rows.push(row);
                proof {
                    assert(row_views(rows@) =~= before + seq![row@]);
                    match parse_rows(rest.skip(1)) {
                        Ok(tail) => {
                            assert(before + (seq![row@] + tail) =~= row_views(rows@) + tail);
                        },
                        Err(e) => {},
                    }
                }
            },
        }
        i += 1;
    }
    proof {
        assert(texts(lines@).skip(lines@.len() as int) =~= Seq::<Seq<char>>::empty());
        assert(row_views(rows@) + Seq::<RowView>::empty() =~= row_views(rows@));
    }
    Ok(rows)
}

/// Appends the line that writes `row` to `out`.
fn push_row(out: &mut String, row: &Row)
    ensures
        final(out)@ == old(out)@ + render_row(row@),
{
    out.append(row.name.as_str());
    out.push(',');
    out.append(row.description.as_str());
    out.push(',');
    out.append(row.price.as_str());
    out.push(',');
    push_quantity(out, row.quantity);
    out.push('\n');
    assert(out@ =~= old(out)@ + render_row(row@));
}

/// Writes one row as a line, line feed included.
pub fn render_line(row: &Row) -> (line: String)
    ensures
        line@ == render_row(row@),
{
    let mut line = String::new();
    push_row(&mut line, row);
    line
}

/// Writes the rows as a text, one line each, in order.
pub fn render_text(rows: &Vec<Row>) -> (text: String)
    ensures
        text@ == render_rows(row_views(rows@)),
{
    let mut text = String::new();
    let mut i: usize = 0;
    assert(row_views(rows@).skip(0) =~= row_views(rows@));
    while i < rows.len()
        invariant
            i <= rows.len(),
            render_rows(row_views(rows@)) == text@ + render_rows(row_views(rows@).skip(i as int)),
        decreases rows.len() - i,
    {
        proof {
            let rest = row_views(rows@).skip(i as int);
            assert(rest[0] == rows@[i as int]@);
            assert(rest.skip(1) =~= row_views(rows@).skip(i as int + 1));
            assert(text@ + (render_row(rest[0]) + render_rows(rest.skip(1))) =~= (text@
                + render_row(rest[0])) + render_rows(rest.skip(1)));
        }
        push_row(&mut text, &rows[i]);
        i += 1;
    }
    proof {
        assert(row_views(rows@).skip(rows@.len() as int) =~= Seq::<RowView>::empty());
    }
    text
}

/// `s` holds no `c`.
pub open spec fn lacks(s: Seq<char>, c: char) -> bool {
    forall|i: int| 0 <= i < s.len() ==> #[trigger] s[i] != c
}

/// A text that holds neither a comma nor a line feed.
pub open spec fn is_plain(s: Seq<char>) -> bool {
    lacks(s, ',') && lacks(s, '\n')
}

/// The fields with a comma between each two.
pub open spec fn join_fields(fields: Seq<Seq<char>>) -> Seq<char>
    decreases fields.len(),
{
    if fields.len() == 0 {
        seq![]
    } else if fields.len() == 1 {
        fields[0]
    } else {
        fields[0] + seq![','] + join_fields(fields.skip(1))
    }
}

/// A row that a line can carry: its name and description are plain, and its
/// price is the text of a price.
pub open spec fn is_writable(row: RowView) -> bool {
    is_plain(row.name) && is_plain(row.description) && is_price_text(row.price)
}

proof fn lemma_first_index_absent(s: Seq<char>, c: char)
    requires
        lacks(s, c),
    ensures
        first_index(s, c) == s.len(),
    decreases s.len(),
{
    if s.len() > 0 {
        assert(s[0] != c);
        assert forall|i: int| 0 <= i < s.skip(1).len() implies #[trigger] s.skip(1)[i] != c by {
            assert(s[i + 1] != c);
        }
        lemma_first_index_absent(s.skip(1), c);
    }
}

proof fn lemma_first_index_after(head: Seq<char>, c: char, rest: Seq<char>)
    requires
        lacks(head, c),
    ensures
        first_index(head + seq![c] + rest, c) == head.len(),
    decreases head.len(),
{
    let s = head + seq![c] + rest;
    if head.len() > 0 {
        assert(s[0] == head[0]);
        assert forall|i: int| 0 <= i < head.skip(1).len() implies #[trigger] head.skip(1)[i]
            != c by {
            assert(head[i + 1] != c);
        }
        assert(s.skip(1) =~= head.skip(1) + seq![c] + rest);
        lemma_first_index_after(head.skip(1), c, rest);
    } else {
        assert(s[0] == c);
    }
}

/// `first_index` finds the first `c`: no character before the index is `c`,
/// and the character at the index is `c` where the index lies within `s`.
pub proof fn lemma_first_index(s: Seq<char>, c: char)
    ensures
        0 <= first_index(s, c) <= s.len(),
        first_index(s, c) < s.len() ==> s[first_index(s, c)] == c,
        lacks(s.take(first_index(s, c)), c),
    decreases s.len(),
{
    if s.len() > 0 && s[0] != c {
        lemma_first_index(s.skip(1), c);
        let at = first_index(s, c);
        assert forall|i: int| 0 <= i < at implies #[trigger] s.take(at)[i] != c by {
            if i > 0 {
                assert(s.skip(1).take(at - 1)[i - 1] != c);
            }
        }
    }
}

/// A line has at least one field, no field holds a comma, and the fields
/// with commas between them are the line.
pub proof fn lemma_fields_of_line(line: Seq<char>)
    ensures
        split_fields(line).len() >= 1,
        forall|i: int| 0 <= i < split_fields(line).len() ==> lacks(#[trigger] split_fields(line)[i], ','),
        join_fields(split_fields(line)) == line,
    decreases line.len(),
{
    lemma_first_index(line, ',');
    let comma = first_index(line, ',');
    if comma < line.len() {
        let rest = line.skip(comma + 1);
        lemma_fields_of_line(rest);
        let fields = split_fields(line);
        assert(fields.skip(1) =~= split_fields(rest));
        assert(line =~= line.take(comma) + seq![','] + rest);
        assert forall|i: int| 0 <= i < fields.len() implies lacks(#[trigger] fields[i], ',') by {
            if i > 0 {
                assert(fields[i] == split_fields(rest)[i - 1]);
            }
        }
    } else {
        assert(line.take(comma) =~= line);
    }
}

/// Fields that hold no comma, at least one of them, are the fields of the
/// line that joins them.
pub proof fn lemma_line_of_fields(fields: Seq<Seq<char>>)
    requires
        fields.len() >= 1,
        forall|i: int| 0 <= i < fields.len() ==> lacks(#[trigger] fields[i], ','),
    ensures
        split_fields(join_fields(fields)) == fields,
    decreases fields.len(),
{
    if fields.len() == 1 {
        lemma_split_fields_last(fields[0]);
        assert(fields =~= seq![fields[0]]);
    } else {
        let rest = fields.skip(1);
        assert forall|i: int| 0 <= i < rest.len() implies lacks(#[trigger] rest[i], ',') by {
            assert(lacks(fields[i + 1], ','));
        }
        lemma_line_of_fields(rest);
        lemma_split_fields_next(fields[0], join_fields(rest));
        assert(seq![fields[0]] + rest =~= fields);
    }
}

proof fn lemma_split_fields_last(field: Seq<char>)
    requires
        lacks(field, ','),
    ensures
        split_fields(field) == seq![field],
{
    lemma_first_index_absent(field, ',');
}

proof fn lemma_split_fields_next(field: Seq<char>, rest: Seq<char>)
    requires
        lacks(field, ','),
    ensures
        split_fields(field + seq![','] + rest) == seq![field] + split_fields(rest),
{
    let line = field + seq![','] + rest;
    lemma_first_index_after(field, ',', rest);
    assert(line.take(field.len() as int) =~= field);
    assert(line.skip(field.len() as int + 1) =~= rest);
}

pub(crate) proof fn lemma_split_lines_next(line: Seq<char>, rest: Seq<char>)
    requires
        lacks(line, '\n'),
    ensures
        split_lines(line + seq!['\n'] + rest) == seq![strip_return(line)] + split_lines(rest),
{
    let text = line + seq!['\n'] + rest;
    lemma_first_index_after(line, '\n', rest);
    assert(text.take(line.len() as int) =~= line);
    assert(text.skip(line.len() as int + 1) =~= rest);
}

proof fn lemma_number_chars_plain(s: Seq<char>)
    requires
        all_number_chars(s),
    ensures
        lacks(s, ','),
        lacks(s, '\n'),
{
    assert forall|i: int| 0 <= i < s.len() implies #[trigger] s[i] != ',' by {
        assert(is_number_char(s[i]));
    }
    assert forall|i: int| 0 <= i < s.len() implies #[trigger] s[i] != '\n' by {
        assert(is_number_char(s[i]));
    }
}

pub(crate) proof fn lemma_concat_lacks(a: Seq<char>, b: Seq<char>, c: char)
    requires
        lacks(a, c),
        lacks(b, c),
    ensures
        lacks(a + b, c),
{
    assert forall|i: int| 0 <= i < (a + b).len() implies #[trigger] (a + b)[i] != c by {
        if i < a.len() {
            assert(a[i] != c);
        } else {
            assert(b[i - a.len()] != c);
        }
    }
}

proof fn lemma_row_line(row: RowView)
    requires
        is_writable(row),
    ensures
        parse_row(row_line(row)) == Ok::<RowView, InventoryError>(row),
        lacks(row_line(row), '\n'),
        strip_return(row_line(row)) == row_line(row),
{
    let quantity = quantity_text(row.quantity);
    lemma_price_text_chars(row.price);
    lemma_quantity_text_chars(row.quantity);
    lemma_quantity_round_trip(row.quantity);
    lemma_number_chars_plain(row.price);
    lemma_number_chars_plain(quantity);
    let tail2 = row.price + seq![','] + quantity;
    let tail1 = row.description + seq![','] + tail2;
    let line = row.name + seq![','] + tail1;
    assert(line =~= row_line(row));
    lemma_split_fields_next(row.name, tail1);
    lemma_split_fields_next(row.description, tail2);
    lemma_split_fields_next(row.price, quantity);
    lemma_split_fields_last(quantity);
    assert(split_fields(line) =~= seq![row.name, row.description, row.price, quantity]);
    let comma = seq![','];
    assert(lacks(comma, '\n'));
    lemma_concat_lacks(row.price, comma, '\n');
    lemma_concat_lacks(row.price + comma, quantity, '\n');
    lemma_concat_lacks(row.description, comma, '\n');
    lemma_concat_lacks(row.description + comma, tail2, '\n');
    lemma_concat_lacks(row.name, comma, '\n');
    lemma_concat_lacks(row.name + comma, tail1, '\n');
    assert(line.last() == quantity.last());
    assert(is_digit(line.last()));
}

/// A line read back gives the row that it was written from, provided the
/// row's name and description hold no comma and no line feed and its price
/// is the text of a price.
pub proof fn lemma_line_round_trip(row: RowView)
    requires
        is_writable(row),
    ensures
        parse_row(row_line(row)) == Ok::<RowView, InventoryError>(row),
{
    lemma_row_line(row);
}

/// A text read back gives the rows that it was written from, in order,
/// provided each row's name and description hold no comma and no line feed
/// and its price is the text of a price.
pub proof fn lemma_text_round_trip(rows: Seq<RowView>)
    requires
        forall|i: int| 0 <= i < rows.len() ==> is_writable(#[trigger] rows[i]),
    ensures
        parse_lines(render_rows(rows)) == Ok::<Seq<RowView>, InventoryError>(rows),
    decreases rows.len(),
{
    if rows.len() == 0 {
        assert(rows =~= Seq::<RowView>::empty());
    } else {
        let row = rows[0];
        let rest = rows.skip(1);
        assert forall|i: int| 0 <= i < rest.len() implies is_writable(#[trigger] rest[i]) by {
            assert(is_writable(rows[i + 1]));
        }
        lemma_text_round_trip(rest);
        lemma_row_line(row);
        lemma_split_lines_next(row_line(row), render_rows(rest));
        let lines = split_lines(render_rows(rows));
        assert(render_rows(rows) =~= row_line(row) + seq!['\n'] + render_rows(rest));
        assert(lines[0] == row_line(row));
        assert(lines.skip(1) =~= split_lines(render_rows(rest)));
        assert(seq![row] + rest =~= rows);
    }
}

/// Where a line writes no row and every line before it writes one, reading
/// the lines fails as that line does.
pub proof fn lemma_first_failure(lines: Seq<Seq<char>>, at: int, failure: InventoryError)
    requires
        0 <= at < lines.len(),
        parse_row(lines[at]) == Err::<RowView, InventoryError>(failure),
        forall|i: int| 0 <= i < at ==> (#[trigger] parse_row(lines[i])).is_ok(),
    ensures
        parse_rows(lines) == Err::<Seq<RowView>, InventoryError>(failure),
    decreases lines.len(),
{
    if at > 0 {
        assert(parse_row(lines[0]).is_ok());
        assert forall|i: int| 0 <= i < at - 1 implies (#[trigger] parse_row(
            lines.skip(1)[i],
        )).is_ok() by {
            assert(parse_row(lines[i + 1]).is_ok());
        }
        lemma_first_failure(lines.skip(1), at - 1, failure);
    }
}

/// Where every line writes a row, reading the lines gives those rows, one
/// for each line and in the same order.
pub proof fn lemma_every_row(lines: Seq<Seq<char>>)
    requires
        forall|i: int| 0 <= i < lines.len() ==> (#[trigger] parse_row(lines[i])).is_ok(),
    ensures
        parse_rows(lines).is_ok(),
        parse_rows(lines).unwrap().len() == lines.len(),
        forall|i: int|
            0 <= i < lines.len() ==> parse_row(lines[i]) == Ok::<RowView, InventoryError>(
                #[trigger] parse_rows(lines).unwrap()[i],
            ),
    decreases lines.len(),
{
    if lines.len() > 0 {
        assert(parse_row(lines[0]).is_ok());
        assert forall|i: int| 0 <= i < lines.len() - 1 implies (#[trigger] parse_row(
            lines.skip(1)[i],
        )).is_ok() by {
            assert(parse_row(lines[i + 1]).is_ok());
        }
        lemma_every_row(lines.skip(1));
        let rows = parse_rows(lines).unwrap();
        let rest = parse_rows(lines.skip(1)).unwrap();
        assert forall|i: int| 0 <= i < lines.len() implies parse_row(lines[i]) == Ok::<
            RowView,
            InventoryError,
        >(#[trigger] rows[i]) by {
            if i > 0 {
                assert(rows[i] == rest[i - 1]);
                assert(lines.skip(1)[i - 1] == lines[i]);
            }
        }
    }
}

} // verus!
