//! The report: a heading of two lines, then one line for each row.

use vstd::prelude::*;
use vstd::string::StringExecFns;
use crate::codec::{lacks, lemma_concat_lacks, lemma_split_lines_next, split_lines, strip_return};
use crate::number::{
    is_digit,
    is_number_char,
    lemma_quantity_text_chars,
    push_quantity,
    quantity_text,
};
use crate::product::{Row, RowView, row_views};

verus! {

/// The first line of the report.
pub open spec fn title_line() -> Seq<char> {
    "Inventory Report:"@
}

/// The second line of the report, a rule under the title.
pub open spec fn rule_line() -> Seq<char> {
    "-----------------"@
}

/// The line that shows one row: its four fields, each after its label.
pub open spec fn report_line(row: RowView) -> Seq<char> {
    "Name: "@ + row.name + ", Description: "@ + row.description + ", Price: "@ + row.price
        + ", Quantity: "@ + quantity_text(row.quantity)
}

/// The lines that show the rows, in order, each ended by a line feed.
pub open spec fn report_body(rows: Seq<RowView>) -> Seq<char>
    decreases rows.len(),
{
    if rows.len() == 0 {
        seq![]
    } else {
        report_line(rows[0]) + seq!['\n'] + report_body(rows.skip(1))
    }
}

/// The whole report: the title, the rule, then the rows.
pub open spec fn report_text(rows: Seq<RowView>) -> Seq<char> {
    title_line() + seq!['\n'] + rule_line() + seq!['\n'] + report_body(rows)
}

/// The lines that show the rows, as a sequence of lines.
pub open spec fn report_lines(rows: Seq<RowView>) -> Seq<Seq<char>> {
    Seq::new(rows.len(), |i: int| report_line(rows[i]))
}

/// Appends the line that shows `row`, and a line feed, to `out`.
fn push_report_line(out: &mut String, row: &Row)
    ensures
        final(out)@ == old(out)@ + report_line(row@) + seq!['\n'],
{
    let ghost before = out@;
    out.append("Name: ");
    out.append(row.name.as_str());
    out.append(", Description: ");
    out.append(row.description.as_str());
    out.append(", Price: ");
    out.append(row.price.as_str());
    out.append(", Quantity: ");
    push_quantity(out, row.quantity);
    assert(out@ =~= before + report_line(row@));
    out.push('\n');
}

/// Writes the report on `rows`: the title, the rule under it, and then one
/// line for each row, in order, that shows the row's name, description,
/// price and quantity.
pub fn generate_report(rows: &Vec<Row>) -> (report: String)
    ensures
        report@ == report_text(row_views(rows@)),
{
    let mut report = String::new();
    report.append("Inventory Report:");
    report.push('\n');
    report.append("-----------------");
    report.push('\n');
    let ghost heading = report@;
    assert(heading =~= title_line() + seq!['\n'] + rule_line() + seq!['\n']);
    let mut i: usize = 0;
    assert(row_views(rows@).skip(0) =~= row_views(rows@));
    assert(heading + seq![] =~= heading);
    while i < rows.len()
        invariant
            i <= rows.len(),
            heading + report_body(row_views(rows@)) == report@ + report_body(
                row_views(rows@).skip(i as int),
            ),
        decreases rows.len() - i,
    {
        proof {
            let rest = row_views(rows@).skip(i as int);
            assert(rest[0] == rows@[i as int]@);
            assert(rest.skip(1) =~= row_views(rows@).skip(i as int + 1));
            assert(report@ + (report_line(rest[0]) + seq!['\n'] + report_body(rest.skip(1)))
                =~= (report@ + report_line(rest[0]) + seq!['\n']) + report_body(rest.skip(1)));
        }
        push_report_line(&mut report, &rows[i]);
        i += 1;
    }
    proof {
        assert(row_views(rows@).skip(rows@.len() as int) =~= Seq::<RowView>::empty());
        assert(report@ + Seq::<char>::empty() =~= report@);
    }
    report
}

/// A row whose name, description and price hold no line feed.
pub open spec fn is_one_line_row(row: RowView) -> bool {
    lacks(row.name, '\n') && lacks(row.description, '\n') && lacks(row.price, '\n')
}

proof fn lemma_report_line(row: RowView)
    requires
        is_one_line_row(row),
    ensures
        lacks(report_line(row), '\n'),
        strip_return(report_line(row)) == report_line(row),
{
    reveal_strlit("Name: ");
    reveal_strlit(", Description: ");
    reveal_strlit(", Price: ");
    reveal_strlit(", Quantity: ");
    let quantity = quantity_text(row.quantity);
    lemma_quantity_text_chars(row.quantity);
    assert forall|i: int| 0 <= i < quantity.len() implies #[trigger] quantity[i] != '\n' by {
        assert(is_number_char(quantity[i]));
    }
    let a = "Name: "@;
    let b = a + row.name;
    let c = b + ", Description: "@;
    let d = c + row.description;
    let e = d + ", Price: "@;
    let f = e + row.price;
    let g = f + ", Quantity: "@;
    lemma_concat_lacks(a, row.name, '\n');
    lemma_concat_lacks(b, ", Description: "@, '\n');
    lemma_concat_lacks(c, row.description, '\n');
    lemma_concat_lacks(d, ", Price: "@, '\n');
    lemma_concat_lacks(e, row.price, '\n');
    lemma_concat_lacks(f, ", Quantity: "@, '\n');
    lemma_concat_lacks(g, quantity, '\n');
    assert(report_line(row).last() == quantity.last());
    assert(is_digit(quantity.last()));
}

proof fn lemma_body_lines(rows: Seq<RowView>)
    requires
        forall|i: int| 0 <= i < rows.len() ==> is_one_line_row(#[trigger] rows[i]),
    ensures
        split_lines(report_body(rows)) == report_lines(rows),
    decreases rows.len(),
{
    if rows.len() == 0 {
        assert(report_lines(rows) =~= Seq::<Seq<char>>::empty());
    } else {
        let rest = rows.skip(1);
        assert forall|i: int| 0 <= i < rest.len() implies is_one_line_row(#[trigger] rest[i]) by {
            assert(is_one_line_row(rows[i + 1]));
        }
        lemma_body_lines(rest);
        lemma_report_line(rows[0]);
        lemma_split_lines_next(report_line(rows[0]), report_body(rest));
        assert(seq![report_line(rows[0])] + report_lines(rest) =~= report_lines(rows));
    }
}

/// The report, taken line by line, is the title, the rule, and then exactly
/// one line for each row, in the rows' order, which shows that row's four
/// fields; provided no name, description or price holds a line feed.
pub proof fn lemma_report_lines(rows: Seq<RowView>)
    requires
        forall|i: int| 0 <= i < rows.len() ==> is_one_line_row(#[trigger] rows[i]),
    ensures
        split_lines(report_text(rows)) == seq![title_line(), rule_line()] + report_lines(rows),
        split_lines(report_text(rows)).len() == rows.len() + 2,
{
    reveal_strlit("Inventory Report:");
    reveal_strlit("-----------------");
    lemma_body_lines(rows);
    let body = report_body(rows);
    let below = rule_line() + seq!['\n'] + body;
    lemma_split_lines_next(rule_line(), body);
    lemma_split_lines_next(title_line(), below);
    assert(report_text(rows) =~= title_line() + seq!['\n'] + below);
    assert(seq![title_line()] + (seq![rule_line()] + report_lines(rows)) =~= seq![
        title_line(),
        rule_line(),
    ] + report_lines(rows));
}

} // verus!
