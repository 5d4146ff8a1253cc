use record_store::avl_tree::AvlTree;
use record_store::errors::ApplicationError;
use record_store::operation_handlers::{ClientHandler, EmployeeHandler};
use record_store::records::{Client, Employee, Record, ServiceChoice};

fn seed_clients() -> AvlTree<Client> {
    let mut clients = AvlTree::new();
    clients.insert(101, Client::new(101, String::from("Bob Jones"), ServiceChoice::Unset, 1));
    clients.insert(102, Client::new(102, String::from("Sarah Davis"), ServiceChoice::Unset, 1));
    clients.insert(103, Client::new(103, String::from("Amy Friendly"), ServiceChoice::Unset, 2));
    clients
}

fn seed_employees() -> AvlTree<Employee> {
    let mut employees = AvlTree::new();
    employees.insert(1, Employee::new(1, String::from("Ann")));
    employees.insert(2, Employee::new(2, String::from("Ben")));
    employees
}

fn client_handler() -> ClientHandler<AvlTree<Client>> {
    match ClientHandler::new(seed_clients()) {
        Ok(handler) => handler,
        Err(error) => panic!("seed refused: {:?}", error),
    }
}

fn snapshot(handler: &ClientHandler<AvlTree<Client>>) -> Vec<(i32, Client)> {
    handler.list_clients().iter().map(|entry| (entry.0, entry.1.clone())).collect()
}

#[test]
fn seeded_clients_are_listed_by_owner() {
    let handler = client_handler();
    assert_eq!(handler.get_clients_for_employee(1), Some(&vec![101, 102]));
    assert_eq!(handler.get_clients_for_employee(2), Some(&vec![103]));
}

#[test]
fn index_is_built_in_ascending_order_whatever_the_seed_order() {
    let mut clients = AvlTree::new();
    for id in [9, 3, 7, 1, 5] {
        clients.insert(id, Client::new(id, String::new(), ServiceChoice::Unset, 4));
    }
    let handler = ClientHandler::new(clients).ok().unwrap();
    assert_eq!(handler.get_clients_for_employee(4), Some(&vec![1, 3, 5, 7, 9]));
}

#[test]
fn update_sets_the_service_of_one_client() {
    let mut handler = client_handler();
    let mut updated = handler.get_client(101).unwrap().duplicate();
    updated.change_client_service(ServiceChoice::Brokerage);
    assert_eq!(handler.update_client(&updated), Ok(()));
    assert_eq!(handler.get_client(101).unwrap().get_client_service(), ServiceChoice::Brokerage);
    assert_eq!(handler.get_client(101).unwrap().get_client_name(), "Bob Jones");
    assert_eq!(handler.get_client(102).unwrap().get_client_service(), ServiceChoice::Unset);
    assert_eq!(handler.get_client(103).unwrap().get_client_service(), ServiceChoice::Unset);
    assert_eq!(handler.get_clients_for_employee(1), Some(&vec![101, 102]));
}

#[test]
fn reassigning_a_client_moves_it_between_owners() {
    let mut handler = client_handler();
    let mut moved = handler.get_client(103).unwrap().duplicate();
    moved.change_owner(1);
    assert_eq!(handler.update_client(&moved), Ok(()));
    assert_eq!(handler.get_clients_for_employee(2), None);
    assert_eq!(handler.get_clients_for_employee(1), Some(&vec![101, 102, 103]));
    assert_eq!(handler.get_client(103).unwrap().get_owner_employee_id(), 1);
}

#[test]
fn reassigned_client_is_listed_at_its_place() {
    let mut handler = client_handler();
    let mut moved = handler.get_client(101).unwrap().duplicate();
    moved.change_owner(2);
    assert_eq!(handler.update_client(&moved), Ok(()));
    assert_eq!(handler.get_clients_for_employee(1), Some(&vec![102]));
    assert_eq!(handler.get_clients_for_employee(2), Some(&vec![101, 103]));
}

#[test]
fn reassigning_to_an_employee_without_clients_starts_a_list() {
    let mut handler = client_handler();
    let mut moved = handler.get_client(102).unwrap().duplicate();
    moved.change_owner(77);
    assert_eq!(handler.update_client(&moved), Ok(()));
    assert_eq!(handler.get_clients_for_employee(77), Some(&vec![102]));
    assert_eq!(handler.get_clients_for_employee(1), Some(&vec![101]));
}

#[test]
fn get_of_a_missing_client_is_not_found() {
    let handler = client_handler();
    let before = snapshot(&handler);
    assert_eq!(handler.get_client(999), Err(ApplicationError::NotFound));
    assert_eq!(snapshot(&handler), before);
}

#[test]
fn update_of_a_missing_client_is_not_found_and_changes_nothing() {
    let mut handler = client_handler();
    let before = snapshot(&handler);
    let stranger = Client::new(999, String::from("Nobody"), ServiceChoice::Retirement, 1);
    assert_eq!(handler.update_client(&stranger), Err(ApplicationError::NotFound));
    assert_eq!(snapshot(&handler), before);
    assert_eq!(handler.get_clients_for_employee(1), Some(&vec![101, 102]));
}

#[test]
fn clients_of_an_unknown_employee_are_absent() {
    let handler = client_handler();
    assert_eq!(handler.get_clients_for_employee(3), None);
}

#[test]
fn insert_client_adds_to_store_and_index() {
    let mut handler = client_handler();
    handler.insert_client(Client::new(100, String::from("Zed"), ServiceChoice::Retirement, 2));
    assert_eq!(handler.get_clients_for_employee(2), Some(&vec![100, 103]));
    assert_eq!(handler.get_client(100).unwrap().get_client_name(), "Zed");
}

#[test]
fn insert_client_over_a_stored_client_moves_it() {
    let mut handler = client_handler();
    handler.insert_client(Client::new(101, String::from("Bob Jones"), ServiceChoice::Unset, 2));
    assert_eq!(handler.get_clients_for_employee(1), Some(&vec![102]));
    assert_eq!(handler.get_clients_for_employee(2), Some(&vec![101, 103]));
    assert_eq!(snapshot(&handler).len(), 3);
}

#[test]
fn delete_client_removes_from_store_and_index() {
    let mut handler = client_handler();
    assert_eq!(handler.delete_client(103), Ok(()));
    assert_eq!(handler.get_client(103), Err(ApplicationError::NotFound));
    assert_eq!(handler.get_clients_for_employee(2), None);
    assert_eq!(handler.delete_client(103), Err(ApplicationError::NotFound));
    assert_eq!(handler.get_clients_for_employee(1), Some(&vec![101, 102]));
}

#[test]
fn list_clients_is_in_ascending_order_of_id() {
    let handler = client_handler();
    let ids: Vec<i32> = handler.list_clients().iter().map(|entry| entry.0).collect();
    assert_eq!(ids, vec![101, 102, 103]);
}

#[test]
fn client_facade_refuses_a_record_under_a_foreign_key() {
    let mut clients = seed_clients();
    clients.insert(104, Client::new(105, String::from("Misfiled"), ServiceChoice::Unset, 1));
    match ClientHandler::new(clients) {
        Ok(_) => panic!("a misfiled record was accepted"),
        Err(error) => assert_eq!(error, ApplicationError::InitializationFailure),
    }
}

#[test]
fn employee_facade_finds_employees() {
    let handler = EmployeeHandler::new(seed_employees()).ok().unwrap();
    assert_eq!(handler.get_employee(1).unwrap().get_employee_name(), "Ann");
    assert_eq!(handler.get_employee(2).unwrap().get_employee_id(), 2);
    assert_eq!(handler.get_employee(3), Err(ApplicationError::NotFound));
    let ids: Vec<i32> = handler.list_employees().iter().map(|entry| entry.0).collect();
    assert_eq!(ids, vec![1, 2]);
}

#[test]
fn employee_facade_refuses_a_record_under_a_foreign_key() {
    let mut employees = seed_employees();
    employees.insert(3, Employee::new(4, String::from("Misfiled")));
    match EmployeeHandler::new(employees) {
        Ok(_) => panic!("a misfiled record was accepted"),
        Err(error) => assert_eq!(error, ApplicationError::InitializationFailure),
    }
}

#[test]
fn facades_over_an_empty_store() {
    let clients: ClientHandler<AvlTree<Client>> = ClientHandler::new(AvlTree::new()).ok().unwrap();
    assert_eq!(clients.get_client(1), Err(ApplicationError::NotFound));
    assert_eq!(clients.get_clients_for_employee(1), None);
    assert!(clients.list_clients().is_empty());
}
