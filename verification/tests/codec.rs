use inventory::codec::{parse_line, parse_text, render_line, render_text};
use inventory::error::InventoryError;
use inventory::store::Inventory;
use inventory::persistence::{rows_of_store, store_of_rows};
use inventory::product::{Price, Product, Row};

fn price(value: f64) -> Price {
    Price::from_bits(value.to_bits())
}

fn price_text(price: Price) -> String {
    format!("{}", f64::from_bits(price.to_bits()))
}

fn price_of_text(text: &str) -> Price {
    price(text.parse::<f64>().unwrap())
}

fn product(name: &str, description: &str, value: f64, quantity: i32) -> Product {
    Product {
        name: name.to_string(),
        description: description.to_string(),
        price: price(value),
        quantity,
    }
}

fn row(name: &str, description: &str, price: &str, quantity: i32) -> Row {
    Row {
        name: name.to_string(),
        description: description.to_string(),
        price: price.to_string(),
        quantity,
    }
}

fn save(inventory: &Inventory) -> String {
    let prices: Vec<String> = inventory.products().iter().map(|p| price_text(p.price)).collect();
    render_text(&rows_of_store(inventory, &prices).unwrap())
}

fn load(text: &str) -> Result<Inventory, InventoryError> {
    let rows = parse_text(text)?;
    let prices: Vec<Price> = rows.iter().map(|r| price_of_text(&r.price)).collect();
    Ok(store_of_rows(rows, &prices).unwrap())
}

#[test]
fn round_trip_of_two_products() {
    let mut inventory = Inventory::new();
    inventory.add_product(product("A", "d1", 10.0, 5));
    inventory.add_product(product("B", "d2", 20.0, 10));
    let text = save(&inventory);
    let loaded = load(&text).expect("Error loading from text");
    assert_eq!(loaded.len(), 2);
    assert_eq!(loaded.get("A"), Some(&product("A", "d1", 10.0, 5)));
    assert_eq!(loaded.get("B"), Some(&product("B", "d2", 20.0, 10)));
    assert_eq!(loaded.get("A"), inventory.get("A"));
    assert_eq!(loaded.get("B"), inventory.get("B"));
}

#[test]
fn saved_text_has_one_line_for_each_entry() {
    let mut inventory = Inventory::new();
    inventory.add_product(product("A", "d1", 10.0, 5));
    inventory.add_product(product("B", "d2", 20.0, 10));
    let text = save(&inventory);
    let mut lines: Vec<&str> = text.lines().collect();
    lines.sort();
    assert_eq!(lines, vec!["A,d1,10,5", "B,d2,20,10"]);
    assert!(text.ends_with('\n'));
}

#[test]
fn round_trip_of_rows_is_exact() {
    let rows = vec![
        row("A", "d1", "10", 5),
        row("", "", "0.5", 0),
        row("B b", "d 2!", "-1.25e-3", -17),
        row("C", "d3", "inf", i32::MAX),
        row("D", "d4", "NaN", i32::MIN),
    ];
    let text = render_text(&rows);
    assert_eq!(text, "A,d1,10,5\n,,0.5,0\nB b,d 2!,-1.25e-3,-17\nC,d3,inf,2147483647\nD,d4,NaN,-2147483648\n");
    assert_eq!(parse_text(&text), Ok(rows));
}

#[test]
fn render_line_writes_the_four_fields() {
    assert_eq!(render_line(&row("A", "d1", "10", 5)), "A,d1,10,5\n");
    assert_eq!(render_line(&row("Tea", "green, loose", "9.99", -3)), "Tea,green, loose,9.99,-3\n");
    assert_eq!(render_text(&Vec::new()), "");
}

#[test]
fn parse_line_reads_the_four_fields() {
    assert_eq!(parse_line("A,d1,10.0,5"), Ok(row("A", "d1", "10.0", 5)));
    assert_eq!(parse_line(",,.5,+7"), Ok(row("", "", ".5", 7)));
    assert_eq!(parse_line(" A , d ,1e3,-0"), Ok(row(" A ", " d ", "1e3", 0)));
}

#[test]
fn malformed_line_is_rejected() {
    assert_eq!(parse_text("OnlyTwo,Fields"), Err(InventoryError::MalformedRecord));
    assert_eq!(parse_text("OnlyTwo,Fields\n"), Err(InventoryError::MalformedRecord));
    assert_eq!(parse_line("OnlyTwo,Fields"), Err(InventoryError::MalformedRecord));
    assert_eq!(parse_line(""), Err(InventoryError::MalformedRecord));
    assert_eq!(parse_line("a,b,1"), Err(InventoryError::MalformedRecord));
    assert_eq!(parse_line("a,b,1,2,"), Err(InventoryError::MalformedRecord));
    assert_eq!(parse_line("a,b,c,1,2"), Err(InventoryError::MalformedRecord));
    assert!(load("A,d1,10,5\nOnlyTwo,Fields\n").is_err());
}

#[test]
fn invalid_price_is_rejected() {
    assert_eq!(parse_text("X,desc,notanumber,5"), Err(InventoryError::InvalidPrice));
    assert_eq!(parse_line("X,desc,notanumber,5"), Err(InventoryError::InvalidPrice));
    assert_eq!(parse_line("X,desc,,5"), Err(InventoryError::InvalidPrice));
    assert_eq!(parse_line("X,desc, 9.99,5"), Err(InventoryError::InvalidPrice));
}

#[test]
fn invalid_quantity_is_rejected() {
    assert_eq!(parse_text("X,desc,9.99,notanint"), Err(InventoryError::InvalidQuantity));
    assert_eq!(parse_line("X,desc,9.99,notanint"), Err(InventoryError::InvalidQuantity));
    assert_eq!(parse_line("X,desc,9.99,"), Err(InventoryError::InvalidQuantity));
    assert_eq!(parse_line("X,desc,9.99,5.0"), Err(InventoryError::InvalidQuantity));
    assert_eq!(parse_line("X,desc,9.99,2147483648"), Err(InventoryError::InvalidQuantity));
    assert_eq!(parse_line("X,desc,9.99, 5"), Err(InventoryError::InvalidQuantity));
}

#[test]
fn price_is_examined_before_quantity() {
    assert_eq!(parse_line("X,desc,notanumber,notanint"), Err(InventoryError::InvalidPrice));
}

#[test]
fn first_failing_line_decides() {
    assert_eq!(
        parse_text("A,d,1,1\nB,d,x,1\nOnlyTwo,Fields\n"),
        Err(InventoryError::InvalidPrice)
    );
    assert_eq!(
        parse_text("A,d,1,1\nOnlyTwo,Fields\nB,d,x,1\n"),
        Err(InventoryError::MalformedRecord)
    );
    assert_eq!(
        parse_text("A,d,1,x\nOnlyTwo,Fields\nB,d,x,1\n"),
        Err(InventoryError::InvalidQuantity)
    );
}

#[test]
fn empty_line_is_malformed() {
    assert_eq!(parse_text("A,d1,10,5\n\n"), Err(InventoryError::MalformedRecord));
    assert_eq!(parse_text("\n"), Err(InventoryError::MalformedRecord));
    assert_eq!(parse_text("A,d1,10,5\n\nB,d2,20,10\n"), Err(InventoryError::MalformedRecord));
}

#[test]
fn line_breaks_end_lines() {
    assert_eq!(parse_text(""), Ok(Vec::new()));
    assert_eq!(parse_text("A,d1,10,5"), Ok(vec![row("A", "d1", "10", 5)]));
    assert_eq!(parse_text("A,d1,10,5\n"), Ok(vec![row("A", "d1", "10", 5)]));
    assert_eq!(
        parse_text("A,d1,10,5\r\nB,d2,20,10\r\n"),
        Ok(vec![row("A", "d1", "10", 5), row("B", "d2", "20", 10)])
    );
    assert_eq!(parse_text("A,d1,10,5\r"), Err(InventoryError::InvalidQuantity));
    assert_eq!(parse_text("A\r,d1,10,5\n"), Ok(vec![row("A\r", "d1", "10", 5)]));
}

#[test]
fn lines_agree_with_the_lines_of_std() {
    let texts = [
        "", "\n", "\r\n", "a", "a\n", "a\r\n", "a\r", "a\n\n", "a\nb", "a\r\n\r\nb\r", "\r", "\n\r",
        "x\r\r\ny",
    ];
    for text in texts {
        let expected: Vec<Result<Row, InventoryError>> = text.lines().map(parse_line).collect();
        let mut rows = Vec::new();
        let mut failure = None;
        for result in expected {
            match result {
                Ok(row) => rows.push(row),
                Err(e) => {
                    failure = Some(e);
                    break;
                }
            }
        }
        let all = match failure {
            Some(e) => Err(e),
            None => Ok(rows),
        };
        assert_eq!(parse_text(text), all, "text {:?}", text);
    }
    assert_eq!(
        parse_text("a,b,1,2\r\nc,d,3,4\ne,f,5,6"),
        Ok(vec![row("a", "b", "1", 2), row("c", "d", "3", 4), row("e", "f", "5", 6)])
    );
}

#[test]
fn duplicate_names_keep_the_last_line() {
    let loaded = load("A,first,1,1\nB,other,2,2\nA,last,3,3\n").unwrap();
    assert_eq!(loaded.len(), 2);
    assert_eq!(loaded.get("A"), Some(&product("A", "last", 3.0, 3)));
    assert_eq!(loaded.get("B"), Some(&product("B", "other", 2.0, 2)));
}

#[test]
fn a_comma_in_a_field_does_not_come_back() {
    let text = render_text(&vec![row("A,B", "d", "1", 1)]);
    assert_eq!(text, "A,B,d,1,1\n");
    assert_eq!(parse_text(&text), Err(InventoryError::MalformedRecord));
}

#[test]
fn rows_and_products_convert() {
    let p = product("A", "d1", 10.0, 5);
    let r = Row::of_product(&p, price_text(p.price));
    assert_eq!(r, row("A", "d1", "10", 5));
    assert_eq!(r.clone().into_product(price(10.0)), p);
    assert_eq!(r.clone(), r);
}

#[test]
fn non_ascii_fields_pass_through() {
    let rows = vec![row("Thé", "vert — 緑茶", "9.99", 3)];
    let text = render_text(&rows);
    assert_eq!(text, "Thé,vert — 緑茶,9.99,3\n");
    assert_eq!(parse_text(&text), Ok(rows));
}

#[test]
fn rows_of_store_show_each_product_with_its_price_text() {
    let mut inventory = Inventory::new();
    inventory.add_product(product("A", "d1", 10.0, 5));
    inventory.add_product(product("B", "d2", 20.0, 10));
    let listed = inventory.products();
    let prices: Vec<String> = listed.iter().map(|p| format!("<{}>", p.name)).collect();
    let rows = rows_of_store(&inventory, &prices).unwrap();
    assert_eq!(rows.len(), 2);
    for (shown, p) in rows.iter().zip(listed.iter()) {
        assert_eq!(shown, &row(&p.name, &p.description, &format!("<{}>", p.name), p.quantity));
    }
    assert_eq!(rows_of_store(&inventory, &vec!["10".to_string()]), None);
    assert_eq!(rows_of_store(&inventory, &Vec::new()), None);
    assert_eq!(rows_of_store(&Inventory::new(), &Vec::new()), Some(Vec::new()));
}

#[test]
fn store_of_rows_files_each_row_with_its_price() {
    let rows = vec![row("A", "first", "1", 1), row("B", "other", "2", 2), row("A", "last", "3", 3)];
    let prices = vec![price(1.0), price(2.0), price(3.0)];
    let inventory = store_of_rows(rows.clone(), &prices).unwrap();
    assert_eq!(inventory.len(), 2);
    assert_eq!(inventory.get("A"), Some(&product("A", "last", 3.0, 3)));
    assert_eq!(inventory.get("B"), Some(&product("B", "other", 2.0, 2)));
    assert!(store_of_rows(rows, &vec![price(1.0)]).is_none());
    assert!(store_of_rows(Vec::new(), &Vec::new()).unwrap().is_empty());
}
