use record_store::database::Database;
use record_store::errors::ApplicationError;
use record_store::menu::{ClientServiceChoice, MainMenuChoice, Menu, MenuAction};
use record_store::records::{Client, Employee, Record, ServiceChoice};

fn seed() -> Database {
    let mut database = Database::new();
    database.add_employee(Employee::new(1, String::from("Ann")));
    database.add_employee(Employee::new(2, String::from("Ben")));
    database.add_client(Client::new(101, String::from("Bob Jones"), ServiceChoice::Unset, 1));
    database.add_client(Client::new(102, String::from("Sarah Davis"), ServiceChoice::Unset, 1));
    database.add_client(Client::new(103, String::from("Amy Friendly"), ServiceChoice::Unset, 2));
    database
}

fn menu() -> Menu {
    match Menu::new(seed()) {
        Ok(menu) => menu,
        Err(error) => panic!("seed refused: {:?}", error),
    }
}

fn shown(menu: &Menu, employee_id: i32) -> Option<Vec<(i32, i32)>> {
    menu.display_clients(employee_id).map(|rows| {
        rows.iter().map(|row| (row.get_client_id(), row.get_client_service().code())).collect()
    })
}

#[test]
fn main_menu_numbers() {
    assert_eq!(MainMenuChoice::convert_i32(-1), Some(MainMenuChoice::DefaultMenuValue));
    assert_eq!(MainMenuChoice::convert_i32(1), Some(MainMenuChoice::PrintClientList));
    assert_eq!(MainMenuChoice::convert_i32(2), Some(MainMenuChoice::ChangeServiceChoice));
    assert_eq!(MainMenuChoice::convert_i32(3), Some(MainMenuChoice::ExitProgram));
}

#[test]
fn main_menu_rejects_other_numbers() {
    for value in [0, 4, -2, 100, i32::MIN, i32::MAX] {
        assert_eq!(MainMenuChoice::convert_i32(value), None);
    }
}

#[test]
fn main_menu_codes_convert_back() {
    for choice in [
        MainMenuChoice::DefaultMenuValue,
        MainMenuChoice::PrintClientList,
        MainMenuChoice::ChangeServiceChoice,
        MainMenuChoice::ExitProgram,
    ] {
        assert_eq!(MainMenuChoice::convert_i32(choice.code()), Some(choice));
    }
    assert_eq!(MainMenuChoice::DefaultMenuValue.code(), -1);
    assert_eq!(MainMenuChoice::ExitProgram.code(), 3);
}

#[test]
fn main_menu_actions() {
    assert_eq!(Menu::next_action(1), MenuAction::DisplayClients);
    assert_eq!(Menu::next_action(2), MenuAction::ChangeService);
    assert_eq!(Menu::next_action(3), MenuAction::Exit);
    for value in [-1, 0, 4, 99, i32::MIN, i32::MAX] {
        assert_eq!(Menu::next_action(value), MenuAction::AskAgain);
    }
}

#[test]
fn service_menu_numbers() {
    assert_eq!(ClientServiceChoice::convert_i32(0), Some(ClientServiceChoice::ReturnMenu));
    assert_eq!(ClientServiceChoice::convert_i32(1), Some(ClientServiceChoice::Brokerage));
    assert_eq!(ClientServiceChoice::convert_i32(2), Some(ClientServiceChoice::Retirement));
}

#[test]
fn service_menu_rejects_other_numbers() {
    for value in [-1, 3, 42, i32::MIN, i32::MAX] {
        assert_eq!(ClientServiceChoice::convert_i32(value), None);
    }
}

#[test]
fn service_menu_codes_convert_back() {
    for choice in [
        ClientServiceChoice::ReturnMenu,
        ClientServiceChoice::Brokerage,
        ClientServiceChoice::Retirement,
    ] {
        assert_eq!(ClientServiceChoice::convert_i32(choice.code()), Some(choice));
    }
}

#[test]
fn service_menu_selections() {
    assert_eq!(ClientServiceChoice::ReturnMenu.selection(), None);
    assert_eq!(ClientServiceChoice::Brokerage.selection(), Some(ServiceChoice::Brokerage));
    assert_eq!(ClientServiceChoice::Retirement.selection(), Some(ServiceChoice::Retirement));
    assert_eq!(ServiceChoice::Unset.code(), 0);
    assert_eq!(ServiceChoice::Brokerage.code(), 1);
    assert_eq!(ServiceChoice::Retirement.code(), 2);
}

#[test]
fn scenario_clients_of_employee_one() {
    let menu = menu();
    assert_eq!(menu.client_handler().get_clients_for_employee(1), Some(&vec![101, 102]));
}

#[test]
fn scenario_service_choice_is_stored() {
    let mut menu = menu();
    assert_eq!(menu.customer_choice_handler(101, ClientServiceChoice::Brokerage), Ok(()));
    let client = menu.client_handler().get_client(101).unwrap();
    assert_eq!(client.get_client_service(), ServiceChoice::Brokerage);
    assert_eq!(client.get_client_name(), "Bob Jones");
    assert_eq!(client.get_owner_employee_id(), 1);
    assert_eq!(
        menu.client_handler().get_client(102).unwrap().get_client_service(),
        ServiceChoice::Unset
    );
    assert_eq!(
        menu.client_handler().get_client(103).unwrap().get_client_service(),
        ServiceChoice::Unset
    );
}

#[test]
fn scenario_missing_client_is_not_found() {
    let menu = menu();
    assert_eq!(menu.client_handler().get_client(999), Err(ApplicationError::NotFound));
}

#[test]
fn scenario_employees_are_found() {
    let menu = menu();
    assert_eq!(menu.employee_handler().get_employee(2).unwrap().get_employee_name(), "Ben");
    assert_eq!(menu.employee_handler().get_employee(101), Err(ApplicationError::NotFound));
}

#[test]
fn choice_for_a_missing_client_fails_and_changes_nothing() {
    let mut menu = menu();
    let before = shown(&menu, 1);
    assert_eq!(
        menu.customer_choice_handler(999, ClientServiceChoice::Retirement),
        Err(ApplicationError::NotFound)
    );
    assert_eq!(
        menu.customer_choice_handler(999, ClientServiceChoice::ReturnMenu),
        Err(ApplicationError::NotFound)
    );
    assert_eq!(shown(&menu, 1), before);
}

#[test]
fn going_back_changes_nothing() {
    let mut menu = menu();
    assert_eq!(menu.customer_choice_handler(102, ClientServiceChoice::Retirement), Ok(()));
    assert_eq!(menu.customer_choice_handler(102, ClientServiceChoice::ReturnMenu), Ok(()));
    assert_eq!(
        menu.client_handler().get_client(102).unwrap().get_client_service(),
        ServiceChoice::Retirement
    );
}

#[test]
fn display_lists_the_clients_of_an_employee() {
    let mut menu = menu();
    assert_eq!(menu.customer_choice_handler(102, ClientServiceChoice::Retirement), Ok(()));
    assert_eq!(shown(&menu, 1), Some(vec![(101, 0), (102, 2)]));
    assert_eq!(shown(&menu, 2), Some(vec![(103, 0)]));
}

#[test]
fn display_has_nothing_for_an_employee_without_clients() {
    let menu = menu();
    assert_eq!(shown(&menu, 3), None);
}

#[test]
fn menu_refuses_a_misfiled_client() {
    let mut database = seed();
    database.clients.insert(7, Client::new(8, String::from("Misfiled"), ServiceChoice::Unset, 1));
    match Menu::new(database) {
        Ok(_) => panic!("a misfiled record was accepted"),
        Err(error) => assert_eq!(error, ApplicationError::InitializationFailure),
    }
}

#[test]
fn menu_refuses_a_misfiled_employee() {
    let mut database = seed();
    database.employees.insert(7, Employee::new(8, String::from("Misfiled")));
    match Menu::new(database) {
        Ok(_) => panic!("a misfiled record was accepted"),
        Err(error) => assert_eq!(error, ApplicationError::InitializationFailure),
    }
}

#[test]
fn database_clone_is_independent() {
    let mut database = seed();
    let copy = database.deep_clone();
    database.add_client(Client::new(104, String::from("New"), ServiceChoice::Unset, 2));
    assert_eq!(database.clients.delete(101), Ok(()));
    let ids: Vec<i32> = copy.clients.traverse_ascending().iter().map(|entry| entry.0).collect();
    assert_eq!(ids, vec![101, 102, 103]);
    let ids: Vec<i32> = copy.employees.traverse_ascending().iter().map(|entry| entry.0).collect();
    assert_eq!(ids, vec![1, 2]);
}

#[test]
fn records_report_their_fields() {
    let mut client = Client::new(5, String::from("Eve"), ServiceChoice::Unset, 3);
    assert_eq!(client.get_client_id(), 5);
    assert_eq!(client.id(), 5);
    assert_eq!(client.get_client_name(), "Eve");
    assert_eq!(client.get_owner_employee_id(), 3);
    client.change_client_service(ServiceChoice::Retirement);
    assert_eq!(client.get_client_service(), ServiceChoice::Retirement);
    client.change_owner(4);
    assert_eq!(client, Client::new(5, String::from("Eve"), ServiceChoice::Retirement, 4));
    assert_eq!(client.duplicate(), client);
    let employee = Employee::new(9, String::from("Joe"));
    assert_eq!(employee.id(), 9);
    assert_eq!(employee.duplicate(), employee);
}
