use workshop_backend::model::{
    AddEmployeePayload, CreateProjectPayload, CreateWorkshopPayload, Message, ProjectStatus,
    RecordExpensePayload, UpdateInventoryPayload, WideSum, Workshop,
};
use ic_stable_structures::memory_manager::{MemoryId, MemoryManager};
use ic_stable_structures::{DefaultMemoryImpl, StableBTreeMap, StableCell};
use workshop_backend::store::{records_consistent, Store};
use workshop_backend::vault::Vault;
use workshop_backend::text::{contains_char, is_blank, is_email_valid, is_white_space_char};

fn vault_over(memory: DefaultMemoryImpl) -> Vault {
    let m = MemoryManager::init(memory);
    Vault {
        counter: StableCell::init(m.get(MemoryId::new(0)), 0).expect("counter"),
        workshops: StableBTreeMap::init(m.get(MemoryId::new(1))),
        projects: StableBTreeMap::init(m.get(MemoryId::new(2))),
        employees: StableBTreeMap::init(m.get(MemoryId::new(3))),
        expenses: StableBTreeMap::init(m.get(MemoryId::new(4))),
        inventories: StableBTreeMap::init(m.get(MemoryId::new(5))),
    }
}

fn fresh() -> Store {
    Store::open(vault_over(DefaultMemoryImpl::default())).expect("store")
}

fn workshop(name: &str, contact: &str, email: &str) -> CreateWorkshopPayload {
    CreateWorkshopPayload {
        name: name.to_string(),
        location: "Main St".to_string(),
        owner: "Ann".to_string(),
        contact: contact.to_string(),
        email: email.to_string(),
    }
}

fn project(workshop_id: u64, cost_estimate: u64) -> CreateProjectPayload {
    CreateProjectPayload {
        workshop_id,
        name: "Table".to_string(),
        description: "Oak dining table".to_string(),
        deadline: 1_700_000_000,
        cost_estimate,
    }
}

fn employee(workshop_id: u64, hourly_rate: u64) -> AddEmployeePayload {
    AddEmployeePayload {
        workshop_id,
        name: "Bo".to_string(),
        role: "Joiner".to_string(),
        hourly_rate,
    }
}

fn expense(workshop_id: u64, amount: u64) -> RecordExpensePayload {
    RecordExpensePayload {
        workshop_id,
        category: "Timber".to_string(),
        amount,
        description: "Planks".to_string(),
    }
}

fn stock(workshop_id: u64, quantity: u64, unit_price: u64) -> UpdateInventoryPayload {
    UpdateInventoryPayload {
        workshop_id,
        item_name: "Screws".to_string(),
        quantity,
        unit_price,
    }
}

fn wide(low: u128) -> WideSum {
    WideSum { high: 0, low }
}

fn is_invalid<T>(r: &Result<T, Message>) -> bool {
    matches!(r, Err(Message::InvalidPayload(_)))
}

fn is_not_found<T>(r: &Result<T, Message>) -> bool {
    matches!(r, Err(Message::NotFound(_)))
}

#[test]
fn scenario_oak_and_co() {
    let mut s = fresh();
    let w = s.create_workshop(workshop("Oak & Co", "555-0100", "a@b.com"), 10).unwrap();
    assert_eq!(w.id, 1);
    let p = s.create_project(project(1, 25000)).unwrap();
    assert_eq!(p.id, 2);
    assert_eq!(p.status, ProjectStatus::Ongoing);
    assert_eq!(p.status.as_str(), "ongoing");
    let e = s.record_expense(expense(1, 4000), 11).unwrap();
    assert_eq!(e.id, 3);
    assert_eq!(s.calculate_total_expenses(1), Ok(4000));
    let e2 = s.record_expense(expense(1, 1050), 12).unwrap();
    assert_eq!(e2.id, 4);
    assert_eq!(s.calculate_total_expenses(1), Ok(5050));
    assert!(is_not_found(&s.calculate_total_expenses(999)));
}

#[test]
fn created_workshop_is_found() {
    let mut s = fresh();
    let a = s.create_workshop(workshop("A", "1", "a@b.c"), 5).unwrap();
    let b = s.create_workshop(workshop("B", "2", "b@c.d"), 6).unwrap();
    assert!(b.id > a.id);
    assert_eq!(b.created_at, 6);
    assert_eq!(b.name, "B");
    assert_eq!(s.get_workshop_by_id(b.id), Ok(b.clone()));
    assert_eq!(s.get_workshop_by_id(a.id), Ok(a));
}

#[test]
fn ids_are_shared_across_kinds() {
    let mut s = fresh();
    let w = s.create_workshop(workshop("W", "1", "w@x.y"), 0).unwrap();
    let p = s.create_project(project(w.id, 1)).unwrap();
    let e = s.add_employee(employee(w.id, 2)).unwrap();
    let x = s.record_expense(expense(w.id, 3), 0).unwrap();
    let i = s.update_inventory(stock(w.id, 4, 5), 0).unwrap();
    let ids = vec![w.id, p.id, e.id, x.id, i.id];
    assert_eq!(ids, vec![1, 2, 3, 4, 5]);
}

#[test]
fn ids_are_not_reused_after_delete() {
    let mut s = fresh();
    let a = s.create_workshop(workshop("A", "1", "a@b.c"), 0).unwrap();
    assert!(matches!(s.delete_workshop(a.id), Ok(Message::Success(_))));
    let b = s.create_workshop(workshop("B", "1", "a@b.c"), 0).unwrap();
    assert_eq!(b.id, 2);
}

#[test]
fn children_need_an_existing_workshop() {
    let mut s = fresh();
    s.create_workshop(workshop("W", "1", "w@x.y"), 0).unwrap();
    assert!(is_not_found(&s.create_project(project(42, 100))));
    assert!(is_not_found(&s.add_employee(employee(42, 100))));
    assert!(is_not_found(&s.record_expense(expense(42, 100), 0)));
    assert!(is_not_found(&s.update_inventory(stock(42, 1, 100), 0)));
    assert_eq!(s.count_workshops(), 1);
}

#[test]
fn payload_errors_come_before_missing_workshop() {
    let mut s = fresh();
    assert!(is_invalid(&s.create_project(project(42, 0))));
    let mut p = project(42, 10);
    p.name = String::new();
    assert!(is_invalid(&s.create_project(p)));
    assert!(is_invalid(&s.add_employee(employee(42, 0))));
    let mut e = employee(42, 10);
    e.role = String::new();
    assert!(is_invalid(&s.add_employee(e)));
    assert!(is_invalid(&s.record_expense(expense(42, 0), 0)));
    assert!(is_invalid(&s.update_inventory(stock(42, 0, 10), 0)));
    assert!(is_invalid(&s.update_inventory(stock(42, 3, 0), 0)));
}

#[test]
fn failed_calls_take_no_id() {
    let mut s = fresh();
    assert!(is_invalid(&s.create_workshop(workshop("", "1", "a@b.c"), 0)));
    assert!(is_not_found(&s.record_expense(expense(7, 5), 0)));
    let w = s.create_workshop(workshop("W", "1", "a@b.c"), 0).unwrap();
    assert_eq!(w.id, 1);
}

#[test]
fn workshop_payload_checks() {
    let mut s = fresh();
    assert!(is_invalid(&s.create_workshop(workshop("   ", "1", "a@b.c"), 0)));
    assert!(is_invalid(&s.create_workshop(workshop("W", "\t\n", "a@b.c"), 0)));
    assert!(is_invalid(&s.create_workshop(workshop("W", "1", " "), 0)));
    assert!(is_invalid(&s.create_workshop(workshop("\u{3000}", "1", "a@b.c"), 0)));
    assert!(is_invalid(&s.create_workshop(workshop("W", "1", "ab.c"), 0)));
    assert!(is_invalid(&s.create_workshop(workshop("W", "1", "a@bc"), 0)));
    assert_eq!(s.count_workshops(), 0);
    assert!(s.create_workshop(workshop(" W ", "1", "@."), 0).is_ok());
}

#[test]
fn email_check_is_weak() {
    assert!(is_email_valid("a@b.com"));
    assert!(is_email_valid(".@"));
    assert!(!is_email_valid("a@bcom"));
    assert!(!is_email_valid("ab.com"));
    assert!(!is_email_valid(""));
}

#[test]
fn blank_text() {
    assert!(is_blank(""));
    assert!(is_blank(" \t\r\n"));
    assert!(is_blank("\u{a0}\u{2003}"));
    assert!(!is_blank(" x "));
    assert!(!is_blank("\u{200b}"));
}

#[test]
fn totals_are_per_workshop() {
    let mut s = fresh();
    let a = s.create_workshop(workshop("A", "1", "a@b.c"), 0).unwrap();
    let b = s.create_workshop(workshop("B", "1", "a@b.c"), 0).unwrap();
    assert_eq!(s.calculate_total_expenses(a.id), Ok(0));
    assert_eq!(s.calculate_inventory_value(a.id), Ok(wide(0)));
    s.record_expense(expense(a.id, 700), 0).unwrap();
    s.record_expense(expense(b.id, 50), 0).unwrap();
    s.record_expense(expense(a.id, 300), 0).unwrap();
    s.update_inventory(stock(a.id, 3, 250), 0).unwrap();
    s.update_inventory(stock(b.id, 2, 10), 0).unwrap();
    s.update_inventory(stock(a.id, 4, 5), 0).unwrap();
    assert_eq!(s.calculate_total_expenses(a.id), Ok(1000));
    assert_eq!(s.calculate_total_expenses(b.id), Ok(50));
    assert_eq!(s.calculate_inventory_value(a.id), Ok(wide(770)));
    assert_eq!(s.calculate_inventory_value(b.id), Ok(wide(20)));
    assert!(is_not_found(&s.calculate_inventory_value(99)));
}

#[test]
fn inventory_entries_are_never_merged() {
    let mut s = fresh();
    let a = s.create_workshop(workshop("A", "1", "a@b.c"), 0).unwrap();
    let first = s.update_inventory(stock(a.id, 1, 100), 7).unwrap();
    let second = s.update_inventory(stock(a.id, 1, 100), 8).unwrap();
    assert_ne!(first.id, second.id);
    assert_eq!(second.restock_date, 8);
    assert_eq!(s.calculate_inventory_value(a.id), Ok(wide(200)));
}

#[test]
fn inventory_value_wider_than_u128() {
    let mut s = fresh();
    let a = s.create_workshop(workshop("A", "1", "a@b.c"), 0).unwrap();
    s.update_inventory(stock(a.id, u64::MAX, u64::MAX), 0).unwrap();
    let one = (u64::MAX as u128) * (u64::MAX as u128);
    assert_eq!(s.calculate_inventory_value(a.id), Ok(wide(one)));
    s.update_inventory(stock(a.id, u64::MAX, u64::MAX), 0).unwrap();
    let two = WideSum {
        high: 1,
        low: one.wrapping_add(one),
    };
    assert_eq!(s.calculate_inventory_value(a.id), Ok(two));
    s.update_inventory(stock(a.id, 3, 4), 0).unwrap();
    let more = WideSum {
        high: 1,
        low: one.wrapping_add(one) + 12,
    };
    assert_eq!(s.calculate_inventory_value(a.id), Ok(more));
}

#[test]
fn expense_total_of_large_amounts() {
    let mut s = fresh();
    let a = s.create_workshop(workshop("A", "1", "a@b.c"), 0).unwrap();
    s.record_expense(expense(a.id, u64::MAX), 0).unwrap();
    s.record_expense(expense(a.id, u64::MAX), 0).unwrap();
    assert_eq!(s.calculate_total_expenses(a.id), Ok(2 * (u64::MAX as u128)));
}

#[test]
fn listing_is_ordered_and_stable() {
    let mut s = fresh();
    assert_eq!(s.list_workshops(), Ok(vec![]));
    let a = s.create_workshop(workshop("A", "1", "a@b.c"), 0).unwrap();
    s.create_project(project(a.id, 5)).unwrap();
    let b = s.create_workshop(workshop("B", "1", "a@b.c"), 0).unwrap();
    let c = s.create_workshop(workshop("C", "1", "a@b.c"), 0).unwrap();
    let first = s.list_workshops().unwrap();
    let second = s.list_workshops().unwrap();
    assert_eq!(first, second);
    let ids: Vec<u64> = first.iter().map(|w: &Workshop| w.id).collect();
    assert_eq!(ids, vec![a.id, b.id, c.id]);
    assert_eq!(first[1], b);
}

#[test]
fn delete_workshop_leaves_children() {
    let mut s = fresh();
    let a = s.create_workshop(workshop("A", "1", "a@b.c"), 0).unwrap();
    let b = s.create_workshop(workshop("B", "1", "a@b.c"), 0).unwrap();
    s.record_expense(expense(a.id, 40), 0).unwrap();
    s.record_expense(expense(b.id, 60), 0).unwrap();
    assert!(matches!(s.delete_workshop(a.id), Ok(Message::Success(_))));
    assert!(is_not_found(&s.get_workshop_by_id(a.id)));
    assert!(is_not_found(&s.delete_workshop(a.id)));
    assert!(is_not_found(&s.calculate_total_expenses(a.id)));
    assert_eq!(s.calculate_total_expenses(b.id), Ok(60));
    assert_eq!(s.count_workshops(), 1);
    assert_eq!(s.list_workshops(), Ok(vec![b]));
}

#[test]
fn update_workshop_details_replaces_given_fields() {
    let mut s = fresh();
    let a = s.create_workshop(workshop("A", "1", "a@b.c"), 0).unwrap();
    let r = s.update_workshop_details(a.id, Some("Alder".to_string()), Some("  ".to_string()));
    assert!(matches!(r, Ok(Message::Success(_))));
    let got = s.get_workshop_by_id(a.id).unwrap();
    assert_eq!(got.name, "Alder");
    assert_eq!(got.location, "Main St");
    s.update_workshop_details(a.id, None, Some("Dock Rd".to_string())).unwrap();
    let got = s.get_workshop_by_id(a.id).unwrap();
    assert_eq!(got.name, "Alder");
    assert_eq!(got.location, "Dock Rd");
    assert_eq!(got.email, "a@b.c");
    assert!(is_not_found(&s.update_workshop_details(9, Some("X".to_string()), None)));
}

#[test]
fn employee_starts_active() {
    let mut s = fresh();
    let a = s.create_workshop(workshop("A", "1", "a@b.c"), 0).unwrap();
    let e = s.add_employee(employee(a.id, 1800)).unwrap();
    assert!(e.is_active);
    assert_eq!(e.hourly_rate, 1800);
    assert_eq!(e.workshop_id, a.id);
}

#[test]
fn status_words() {
    assert_eq!(ProjectStatus::Completed.as_str(), "completed");
    assert_eq!(ProjectStatus::Canceled.as_str(), "canceled");
    assert_eq!(ProjectStatus::from_code(ProjectStatus::Completed.code()), ProjectStatus::Completed);
}

#[test]
fn reopened_store_keeps_records_and_counter() {
    let memory = DefaultMemoryImpl::default();
    let mut s = Store::open(vault_over(memory.clone())).expect("store");
    let w = s.create_workshop(workshop("W", "1", "a@b.c"), 3).unwrap();
    s.record_expense(expense(w.id, 250), 4).unwrap();
    drop(s);
    let mut again = Store::open(vault_over(memory)).expect("store");
    assert_eq!(again.get_workshop_by_id(w.id), Ok(w.clone()));
    assert_eq!(again.calculate_total_expenses(w.id), Ok(250));
    let next = again.create_workshop(workshop("V", "1", "a@b.c"), 5).unwrap();
    assert_eq!(next.id, 3);
}

#[test]
fn open_refuses_ids_above_the_counter() {
    let mut v = vault_over(DefaultMemoryImpl::default());
    let row = (
        ("W".to_string(), String::new(), String::new()),
        ("1".to_string(), "a@b.c".to_string(), 0),
        5,
    );
    v.workshops.insert(5, row);
    assert!(!records_consistent(&v));
    assert!(matches!(Store::open(v), Err(Message::Error(_))));
}

#[test]
fn open_refuses_an_id_held_twice() {
    let mut v = vault_over(DefaultMemoryImpl::default());
    v.counter.set(2).unwrap();
    let row = (
        ("W".to_string(), String::new(), String::new()),
        ("1".to_string(), "a@b.c".to_string(), 0),
        1,
    );
    v.workshops.insert(1, row);
    assert!(records_consistent(&v));
    v.expenses.insert(1, ((1, 1), (String::new(), String::new(), 10), 0));
    assert!(!records_consistent(&v));
    assert!(matches!(Store::open(v), Err(Message::Error(_))));
}

#[test]
fn character_checks() {
    assert!(contains_char("a@b", '@'));
    assert!(!contains_char("ab", '@'));
    assert!(contains_char("日本.", '.'));
    assert!(is_white_space_char('\u{3000}'));
    assert!(is_white_space_char('\n'));
    assert!(!is_white_space_char('x'));
    assert!(!is_white_space_char('\u{200b}'));
}
