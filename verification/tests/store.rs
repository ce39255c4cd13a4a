use inventory::error::{InventoryError, IoStage};
use inventory::store::Inventory;
use inventory::product::{Price, Product};

fn price(value: f64) -> Price {
    Price::from_bits(value.to_bits())
}

fn product(name: &str, description: &str, value: f64, quantity: i32) -> Product {
    Product {
        name: name.to_string(),
        description: description.to_string(),
        price: price(value),
        quantity,
    }
}

// Helper function to create a sample inventory for testing
fn create_sample_inventory() -> Inventory {
    let mut inventory = Inventory::new();
    let products = vec![
        Product {
            name: "Product1".to_string(),
            description: "Description1".to_string(),
            price: price(10.0),
            quantity: 5,
        },
        Product {
            name: "Product2".to_string(),
            description: "Description2".to_string(),
            price: price(20.0),
            quantity: 10,
        },
    ];
    for product in products {
        inventory.add_product(product);
    }
    inventory
}

#[test]
fn test_add_product() {
    let mut inventory = Inventory::new();
    let product = Product {
        name: "TestProduct".to_string(),
        description: "TestDescription".to_string(),
        price: price(15.0),
        quantity: 8,
    };
    inventory.add_product(product.clone());
    assert_eq!(inventory.len(), 1);
    assert_eq!(inventory.get("TestProduct"), Some(&product));
}

#[test]
fn test_edit_product() {
    let mut inventory = create_sample_inventory();
    let edited_product = Product {
        name: "Product1".to_string(),
        description: "NewDescription".to_string(),
        price: price(12.0),
        quantity: 20,
    };
    inventory.edit_product("Product1", edited_product.clone()).unwrap();
    assert_eq!(inventory.get("Product1"), Some(&edited_product));
}

#[test]
fn test_edit_non_existing_product() {
    let mut inventory = create_sample_inventory();
    let edited_product = Product {
        name: "NonExistingProduct".to_string(),
        description: "NewDescription".to_string(),
        price: price(12.0),
        quantity: 20,
    };
    let result = inventory.edit_product("NonExistingProduct", edited_product);
    assert!(result.is_err());
    assert_eq!(
        result.err().map(|e| e.message()),
        Some(String::from("Product not found"))
    );
}

#[test]
fn test_delete_product() {
    let mut inventory = create_sample_inventory();
    inventory.delete_product("Product1").unwrap();
    assert_eq!(inventory.len(), 1);
    assert!(inventory.get("Product1").is_none());
}

#[test]
fn test_delete_non_existing_product() {
    let mut inventory = create_sample_inventory();
    let result = inventory.delete_product("NonExistingProduct");
    assert!(result.is_err());
    assert_eq!(
        result.err().map(|e| e.message()),
        Some(String::from("Product not found"))
    );
}

#[test]
fn new_inventory_is_empty() {
    let inventory = Inventory::new();
    assert_eq!(inventory.len(), 0);
    assert!(inventory.is_empty());
    assert!(!inventory.contains("Product1"));
    assert!(inventory.get("Product1").is_none());
    assert!(inventory.products().is_empty());
}

#[test]
fn add_twice_keeps_one_entry_with_the_second_value() {
    let mut inventory = create_sample_inventory();
    inventory.add_product(product("Widget", "first", 1.5, 1));
    inventory.add_product(product("Widget", "second", 2.5, 2));
    assert_eq!(inventory.len(), 3);
    assert_eq!(inventory.get("Widget"), Some(&product("Widget", "second", 2.5, 2)));
    let listed = inventory.products();
    assert_eq!(listed.iter().filter(|p| p.name == "Widget").count(), 1);
    assert_eq!(inventory.get("Product1"), Some(&product("Product1", "Description1", 10.0, 5)));
    assert_eq!(inventory.get("Product2"), Some(&product("Product2", "Description2", 20.0, 10)));
}

#[test]
fn edit_of_a_missing_key_leaves_the_store_unchanged() {
    let mut inventory = create_sample_inventory();
    let result = inventory.edit_product("Ghost", product("Ghost", "boo", 1.0, 1));
    assert_eq!(result, Err(InventoryError::NotFound));
    assert_eq!(inventory.len(), 2);
    assert!(!inventory.contains("Ghost"));
    assert_eq!(inventory.get("Product1"), Some(&product("Product1", "Description1", 10.0, 5)));
    assert_eq!(inventory.get("Product2"), Some(&product("Product2", "Description2", 20.0, 10)));
}

#[test]
fn delete_of_a_missing_key_leaves_the_store_unchanged() {
    let mut inventory = create_sample_inventory();
    let result = inventory.delete_product("Ghost");
    assert_eq!(result, Err(InventoryError::NotFound));
    assert_eq!(inventory.len(), 2);
    assert_eq!(inventory.get("Product1"), Some(&product("Product1", "Description1", 10.0, 5)));
    assert_eq!(inventory.get("Product2"), Some(&product("Product2", "Description2", 20.0, 10)));
}

#[test]
fn delete_removes_exactly_that_entry() {
    let mut inventory = create_sample_inventory();
    inventory.add_product(product("Product3", "Description3", 30.0, 15));
    assert_eq!(inventory.delete_product("Product2"), Ok(()));
    assert_eq!(inventory.len(), 2);
    assert!(!inventory.contains("Product2"));
    assert_eq!(inventory.get("Product1"), Some(&product("Product1", "Description1", 10.0, 5)));
    assert_eq!(inventory.get("Product3"), Some(&product("Product3", "Description3", 30.0, 15)));
    assert_eq!(inventory.delete_product("Product2"), Err(InventoryError::NotFound));
}

#[test]
fn edit_keeps_the_key_when_the_new_name_differs() {
    let mut inventory = create_sample_inventory();
    let renamed = product("Renamed", "NewDescription", 12.0, 20);
    assert_eq!(inventory.edit_product("Product1", renamed.clone()), Ok(()));
    assert_eq!(inventory.len(), 2);
    assert_eq!(inventory.get("Product1"), Some(&renamed));
    assert!(inventory.get("Renamed").is_none());
    assert!(!inventory.contains("Renamed"));
}

#[test]
fn products_lists_each_entry_once() {
    let inventory = create_sample_inventory();
    let mut listed = inventory.products();
    listed.sort_by(|a, b| a.name.cmp(&b.name));
    assert_eq!(
        listed,
        vec![
            product("Product1", "Description1", 10.0, 5),
            product("Product2", "Description2", 20.0, 10),
        ]
    );
}

#[test]
fn from_products_keeps_the_last_of_two_with_one_name() {
    let inventory = Inventory::from_products(vec![
        product("A", "first", 1.0, 1),
        product("B", "other", 2.0, 2),
        product("A", "last", 3.0, 3),
    ]);
    assert_eq!(inventory.len(), 2);
    assert_eq!(inventory.get("A"), Some(&product("A", "last", 3.0, 3)));
    assert_eq!(inventory.get("B"), Some(&product("B", "other", 2.0, 2)));
}

#[test]
fn from_products_of_a_listing_gives_the_store_back() {
    let inventory = create_sample_inventory();
    let again = Inventory::from_products(inventory.products());
    assert_eq!(again.len(), 2);
    assert_eq!(again.get("Product1"), inventory.get("Product1"));
    assert_eq!(again.get("Product2"), inventory.get("Product2"));
}

#[test]
fn names_are_told_apart_exactly() {
    let mut inventory = Inventory::new();
    inventory.add_product(product("", "no name", 1.0, 1));
    inventory.add_product(product("a", "lower", 2.0, 2));
    inventory.add_product(product("A", "upper", 3.0, 3));
    inventory.add_product(product("a ", "with space", 4.0, 4));
    assert_eq!(inventory.len(), 4);
    assert_eq!(inventory.get(""), Some(&product("", "no name", 1.0, 1)));
    assert_eq!(inventory.get("a"), Some(&product("a", "lower", 2.0, 2)));
    assert_eq!(inventory.get("A"), Some(&product("A", "upper", 3.0, 3)));
    assert_eq!(inventory.get("a "), Some(&product("a ", "with space", 4.0, 4)));
}

#[test]
fn price_keeps_its_bits() {
    let p = Price::from_bits(9.99f64.to_bits());
    assert_eq!(f64::from_bits(p.to_bits()), 9.99);
    assert_eq!(p, price(9.99));
    assert_ne!(p, price(9.98));
}

#[test]
fn every_failure_has_its_message() {
    assert_eq!(InventoryError::NotFound.message(), "Product not found");
    assert_eq!(InventoryError::Io(IoStage::Open).message(), "Unable to open file");
    assert_eq!(InventoryError::Io(IoStage::Read).message(), "Error reading file");
    assert_eq!(InventoryError::Io(IoStage::Create).message(), "Unable to create file");
    assert_eq!(InventoryError::Io(IoStage::Write).message(), "Error writing to file");
    assert_eq!(InventoryError::MalformedRecord.message(), "Invalid file format");
    assert_eq!(InventoryError::InvalidPrice.message(), "Invalid price");
    assert_eq!(InventoryError::InvalidQuantity.message(), "Invalid quantity");
}

#[test]
fn delete_in_any_place_keeps_the_others_findable() {
    for gone in 0..5 {
        let mut inventory = Inventory::new();
        for i in 0..5 {
            inventory.add_product(product(&format!("P{}", i), "d", i as f64, i));
        }
        assert_eq!(inventory.delete_product(&format!("P{}", gone)), Ok(()));
        assert_eq!(inventory.len(), 4);
        for i in 0..5 {
            let name = format!("P{}", i);
            if i == gone {
                assert!(inventory.get(&name).is_none());
                assert!(!inventory.contains(&name));
            } else {
                assert_eq!(inventory.get(&name), Some(&product(&name, "d", i as f64, i)));
            }
        }
        let mut names: Vec<String> = inventory.products().into_iter().map(|p| p.name).collect();
        names.sort();
        let expected: Vec<String> =
            (0..5).filter(|i| *i != gone).map(|i| format!("P{}", i)).collect();
        assert_eq!(names, expected);
        inventory.add_product(product(&format!("P{}", gone), "back", 0.5, -1));
        assert_eq!(inventory.len(), 5);
        assert_eq!(
            inventory.get(&format!("P{}", gone)),
            Some(&product(&format!("P{}", gone), "back", 0.5, -1))
        );
    }
}

#[test]
fn store_behaves_as_a_map_over_many_steps() {
    let mut inventory = Inventory::new();
    let mut model: std::collections::HashMap<String, Product> = std::collections::HashMap::new();
    let mut seed: u32 = 12345;
    for step in 0..2000 {
        seed = seed.wrapping_mul(1664525).wrapping_add(1013904223);
        let name = format!("N{}", (seed >> 16) % 24);
        let choice = (seed >> 8) % 4;
        let fresh = product(&name, &format!("step {}", step), step as f64, step);
        match choice {
            0 | 1 => {
                inventory.add_product(fresh.clone());
                model.insert(name.clone(), fresh);
            }
            2 => {
                let expected = if model.contains_key(&name) {
                    model.insert(name.clone(), fresh.clone());
                    Ok(())
                } else {
                    Err(InventoryError::NotFound)
                };
                assert_eq!(inventory.edit_product(&name, fresh), expected);
            }
            _ => {
                let expected = match model.remove(&name) {
                    Some(_) => Ok(()),
                    None => Err(InventoryError::NotFound),
                };
                assert_eq!(inventory.delete_product(&name), expected);
            }
        }
        assert_eq!(inventory.len(), model.len());
        assert_eq!(inventory.is_empty(), model.is_empty());
        assert_eq!(inventory.get(&name), model.get(&name));
        assert_eq!(inventory.contains(&name), model.contains_key(&name));
    }
    let mut listed = inventory.products();
    listed.sort_by(|a, b| a.name.cmp(&b.name));
    let mut expected: Vec<Product> = model.values().cloned().collect();
    expected.sort_by(|a, b| a.name.cmp(&b.name));
    assert_eq!(listed, expected);
}
