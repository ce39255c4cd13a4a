use inventory::product::Row;
use inventory::report::generate_report;

fn row(name: &str, description: &str, price: &str, quantity: i32) -> Row {
    Row {
        name: name.to_string(),
        description: description.to_string(),
        price: price.to_string(),
        quantity,
    }
}

#[test]
fn report_of_nothing_is_the_heading() {
    assert_eq!(generate_report(&Vec::new()), "Inventory Report:\n-----------------\n");
}

#[test]
fn report_shows_each_row_on_its_line() {
    let rows = vec![
        row("Product1", "Description1", "10", 5),
        row("Product2", "Description2", "20", 10),
    ];
    assert_eq!(
        generate_report(&rows),
        "Inventory Report:\n-----------------\n\
         Name: Product1, Description: Description1, Price: 10, Quantity: 5\n\
         Name: Product2, Description: Description2, Price: 20, Quantity: 10\n"
    );
}

#[test]
fn report_mentions_every_name_and_quantity_once() {
    let rows = vec![
        row("Alpha", "first", "1.5", 111),
        row("Beta", "second", "2.5", -222),
        row("Gamma", "third", "3.5", 333),
    ];
    let report = generate_report(&rows);
    assert_eq!(report.lines().count(), 5);
    for r in &rows {
        assert_eq!(report.matches(&format!("Name: {},", r.name)).count(), 1);
        assert_eq!(report.matches(&format!("Quantity: {}\n", r.quantity)).count(), 1);
    }
}
