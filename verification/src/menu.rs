//! The menu: what a choice at the console means, and what it does to the
//! records.
//!
//! Reading the choices and printing the answers is left to the caller. The
//! functions here take the numbers that were read and hand back what is to
//! be shown.

use vstd::prelude::*;
use crate::avl_tree::AvlTree;
use crate::database::Database;
use crate::errors::ApplicationError;
use crate::listing::is_ascending_listing;
use crate::operation_handlers::{clients_owned_by, ClientHandler, EmployeeHandler};
use crate::records::{keyed_by_id, Client, Employee, Record, ServiceChoice};

verus! {

/// The entries of the main menu.
#[derive(Clone, Copy, Debug, PartialEq, Eq, Structural)]
pub enum MainMenuChoice {
    /// The value a choice has before anything was entered.
    DefaultMenuValue,
    PrintClientList,
    ChangeServiceChoice,
    ExitProgram,
}

impl MainMenuChoice {
    /// The number that stands for this entry: -1 for the default, then 1, 2
    /// and 3 in the order of the menu.
    pub open spec fn spec_code(self) -> i32 {
        match self {
            MainMenuChoice::DefaultMenuValue => -1i32,
            MainMenuChoice::PrintClientList => 1,
            MainMenuChoice::ChangeServiceChoice => 2,
            MainMenuChoice::ExitProgram => 3,
        }
    }

    /// The entry that `value` stands for, if any.
    pub open spec fn spec_convert_i32(value: i32) -> Option<MainMenuChoice> {
        if value == -1 {
            Some(MainMenuChoice::DefaultMenuValue)
        } else if value == 1 {
            Some(MainMenuChoice::PrintClientList)
        } else if value == 2 {
            Some(MainMenuChoice::ChangeServiceChoice)
        } else if value == 3 {
            Some(MainMenuChoice::ExitProgram)
        } else {
            None
        }
    }

    /// The number that stands for this entry.
    pub fn code(&self) -> (c: i32)
        ensures
            c == self.spec_code(),
    {
        match self {
            MainMenuChoice::DefaultMenuValue => -1,
            MainMenuChoice::PrintClientList => 1,
            MainMenuChoice::ChangeServiceChoice => 2,
            MainMenuChoice::ExitProgram => 3,
        }
    }

    /// The entry that the number `value` stands for; nothing for a number
    /// that stands for no entry.
    pub fn convert_i32(value: i32) -> (choice: Option<MainMenuChoice>)
        ensures
            choice == Self::spec_convert_i32(value),
    {
        match value {
            -1 => Some(MainMenuChoice::DefaultMenuValue),
            1 => Some(MainMenuChoice::PrintClientList),
            2 => Some(MainMenuChoice::ChangeServiceChoice),
            3 => Some(MainMenuChoice::ExitProgram),
            _ => None,
        }
    }

    /// A number stands for an entry exactly if it is that entry's number.
    pub proof fn lemma_code_round_trip(value: i32, choice: MainMenuChoice)
        ensures
            Self::spec_convert_i32(value) == Some(choice) <==> choice.spec_code() == value,
    {
    }
}

/// What happens next after a number was entered at the main menu.
#[derive(Clone, Copy, Debug, PartialEq, Eq, Structural)]
pub enum MenuAction {
    /// Ask for an employee and show that employee's clients.
    DisplayClients,
    /// Ask for a client and a service, and store the choice.
    ChangeService,
    /// Leave the menu.
    Exit,
    /// The number stands for nothing that can be chosen: ask again.
    AskAgain,
}

/// The entries of the menu from which a client's service is chosen.
#[derive(Clone, Copy, Debug, PartialEq, Eq, Structural)]
pub enum ClientServiceChoice {
    /// Go back without choosing.
    ReturnMenu,
    Brokerage,
    Retirement,
}

impl ClientServiceChoice {
    /// The number that stands for this entry: 0, 1 and 2 in the order of
    /// the menu.
    pub open spec fn spec_code(self) -> i32 {
        match self {
            ClientServiceChoice::ReturnMenu => 0,
            ClientServiceChoice::Brokerage => 1,
            ClientServiceChoice::Retirement => 2,
        }
    }

    /// The entry that `value` stands for, if any.
    pub open spec fn spec_convert_i32(value: i32) -> Option<ClientServiceChoice> {
        if value == 0 {
            Some(ClientServiceChoice::ReturnMenu)
        } else if value == 1 {
            Some(ClientServiceChoice::Brokerage)
        } else if value == 2 {
            Some(ClientServiceChoice::Retirement)
        } else {
            None
        }
    }

    /// The service that this entry selects; going back selects none.
    pub open spec fn spec_selection(self) -> Option<ServiceChoice> {
        match self {
            ClientServiceChoice::ReturnMenu => None,
            ClientServiceChoice::Brokerage => Some(ServiceChoice::Brokerage),
            ClientServiceChoice::Retirement => Some(ServiceChoice::Retirement),
        }
    }

    /// The number that stands for this entry.
    pub fn code(&self) -> (c: i32)
        ensures
            c == self.spec_code(),
    {
        match self {
            ClientServiceChoice::ReturnMenu => 0,
            ClientServiceChoice::Brokerage => 1,
            ClientServiceChoice::Retirement => 2,
        }
    }

    /// The entry that the number `value` stands for; nothing for a number
    /// that stands for no entry.
    pub fn convert_i32(value: i32) -> (choice: Option<ClientServiceChoice>)
        ensures
            choice == Self::spec_convert_i32(value),
    {
        match value {
            0 => Some(ClientServiceChoice::ReturnMenu),
            1 => Some(ClientServiceChoice::Brokerage),
            2 => Some(ClientServiceChoice::Retirement),
            _ => None,
        }
    }

    /// The service that this entry selects; going back selects none.
    pub fn selection(&self) -> (service: Option<ServiceChoice>)
        ensures
            service == self.spec_selection(),
    {
        match self {
            ClientServiceChoice::ReturnMenu => None,
            ClientServiceChoice::Brokerage => Some(ServiceChoice::Brokerage),
            ClientServiceChoice::Retirement => Some(ServiceChoice::Retirement),
        }
    }

    /// A number stands for an entry exactly if it is that entry's number.
    pub proof fn lemma_code_round_trip(value: i32, choice: ClientServiceChoice)
        ensures
            Self::spec_convert_i32(value) == Some(choice) <==> choice.spec_code() == value,
    {
    }

    /// An entry that selects a service has that service's number.
    pub proof fn lemma_selection_keeps_code(choice: ClientServiceChoice)
        ensures
            choice.spec_selection() is Some ==> choice.spec_selection()->0.spec_code()
                == choice.spec_code(),
            choice.spec_selection() is None <==> choice == ClientServiceChoice::ReturnMenu,
    {
    }
}

/// The clients to show for an employee, as entries of a listing: each
/// client under their id.
pub open spec fn rows_of(rows: Seq<&Client>) -> Seq<(i32, Client)> {
    Seq::new(rows.len(), |i: int| (rows[i].id, *rows[i]))
}

/// The records of an update that sets the service of client `id`.
pub open spec fn with_service(clients: Map<i32, Client>, id: i32, service: ServiceChoice) -> Map<
    i32,
    Client,
> {
    clients.insert(id, Client { service, ..clients[id] })
}

/// The menu over one data set, with a facade of its own for each kind of
/// record.
pub struct Menu {
    client_handler: ClientHandler<AvlTree<Client>>,
    employee_handler: EmployeeHandler<AvlTree<Employee>>,
}

impl Menu {
    /// The client records that the menu works on, each under its id.
    pub closed spec fn clients(self) -> Map<i32, Client> {
        self.client_handler.clients()
    }

    /// The employee records that the menu works on, each under its id.
    pub closed spec fn employees(self) -> Map<i32, Employee> {
        self.employee_handler.employees()
    }

    /// A menu over the given data set.
    ///
    /// The client facade gets a copy of the data set, the employee facade
    /// the data set itself, so that neither facade can reach into the
    /// other's records. Fails if a record of the data set is filed under a
    /// key other than its own id.
    pub fn new(database: Database) -> (built: Result<Menu, ApplicationError>)
        ensures
            built is Ok <==> keyed_by_id(database.clients@) && keyed_by_id(database.employees@),
            built is Ok ==> built->Ok_0.clients() == database.clients@,
            built is Ok ==> built->Ok_0.employees() == database.employees@,
            built is Err ==> built->Err_0 == ApplicationError::InitializationFailure,
    {
        let copy = database.deep_clone();
        let client_handler = match ClientHandler::new(copy.clients) {
            Ok(handler) => handler,
            Err(error) => {
                return Err(error);
            },
        };
        let employee_handler = match EmployeeHandler::new(database.employees) {
            Ok(handler) => handler,
            Err(error) => {
                return Err(error);
            },
        };
        Ok(Menu { client_handler, employee_handler })
    }

    /// What the number `menu_choice` asks for at the main menu: 1 shows a
    /// client list, 2 changes a service, 3 leaves, and any other number,
    /// the default value among them, asks again.
    pub open spec fn spec_next_action(menu_choice: i32) -> MenuAction {
        match MainMenuChoice::spec_convert_i32(menu_choice) {
            Some(MainMenuChoice::PrintClientList) => MenuAction::DisplayClients,
            Some(MainMenuChoice::ChangeServiceChoice) => MenuAction::ChangeService,
            Some(MainMenuChoice::ExitProgram) => MenuAction::Exit,
            _ => MenuAction::AskAgain,
        }
    }

    /// What the number `menu_choice` asks for at the main menu.
    pub fn next_action(menu_choice: i32) -> (action: MenuAction)
        ensures
            action == Self::spec_next_action(menu_choice),
    {
        match MainMenuChoice::convert_i32(menu_choice) {
            Some(MainMenuChoice::PrintClientList) => MenuAction::DisplayClients,
            Some(MainMenuChoice::ChangeServiceChoice) => MenuAction::ChangeService,
            Some(MainMenuChoice::ExitProgram) => MenuAction::Exit,
            _ => MenuAction::AskAgain,
        }
    }

    /// The facade for clients.
    pub fn client_handler(&self) -> (handler: &ClientHandler<AvlTree<Client>>)
        ensures
            handler.clients() == self.clients(),
    {
        &self.client_handler
    }

    /// The facade for employees.
    pub fn employee_handler(&self) -> (handler: &EmployeeHandler<AvlTree<Employee>>)
        ensures
            handler.employees() == self.employees(),
    {
        &self.employee_handler
    }

    /// Carries out the choice of a service for the client `client_id`.
    ///
    /// Fails, and changes nothing, if there is no such client. Going back
    /// changes nothing either. Any other choice sets the client's service
    /// and leaves the rest of the record, and all other records, as they
    /// were.
    pub fn customer_choice_handler(
        &mut self,
        client_id: i32,
        new_service: ClientServiceChoice,
    ) -> (outcome: Result<(), ApplicationError>)
        ensures
            outcome is Ok <==> old(self).clients().contains_key(client_id),
            outcome is Err ==> outcome->Err_0 == ApplicationError::NotFound,
            final(self).clients() == (if outcome is Ok && new_service.spec_selection() is Some {
                with_service(old(self).clients(), client_id, new_service.spec_selection()->0)
            } else {
                old(self).clients()
            }),
            final(self).employees() == old(self).employees(),
    {
        let mut updated_client = match self.client_handler.get_client(client_id) {
            Ok(client) => client.duplicate(),
            Err(error) => {
                return Err(error);
            },
        };
        match new_service.selection() {
            None => Ok(()),
            Some(service) => {
                updated_client.change_client_service(service);
                self.client_handler.update_client(&updated_client)
            },
        }
    }

    /// The clients of the given employee, in ascending order of id, ready
    /// to be shown; nothing if the employee has no clients.
    pub fn display_clients(&self, employee_id: i32) -> (rows: Option<Vec<&Client>>)
        ensures
            rows is Some <==> exists|id: i32|
                clients_owned_by(self.clients(), employee_id).contains(id),
            rows is Some ==> is_ascending_listing(
                rows_of(rows->0@),
                self.clients().restrict(clients_owned_by(self.clients(), employee_id)),
            ),
    {
        let ids = match self.client_handler.get_clients_for_employee(employee_id) {
            Some(ids) => ids,
            None => {
                return None;
            },
        };
        let ghost owned = self.clients().restrict(
            clients_owned_by(self.clients(), employee_id),
        );
        let mut rows: Vec<&Client> = Vec::new();
        let mut next: usize = 0;
        while next < ids.len()
            invariant
                next <= ids@.len(),
                rows@.len() == next,
                forall|id: i32|
                    ids@.contains(id) <==> clients_owned_by(self.clients(), employee_id).contains(
                        id,
                    ),
                forall|i: int|
                    0 <= i < next ==> (#[trigger] rows@[i]).id == ids@[i] && *rows@[i]
                        == self.clients()[ids@[i]],
            decreases ids@.len() - next,
        {
            let id: i32 = ids[next];
            proof {
                assert(ids@.contains(id));
            }
            match self.client_handler.get_client(id) {
                Ok(client) => {
                    rows.push(client);
                },
                Err(_) => {
                    proof {
                        assert(false);
                    }
                },
            }
            next = next + 1;
        }
        proof {
            let listed = rows_of(rows@);
            assert forall|i: int| 0 <= i < listed.len() implies owned.contains_key(
                #[trigger] listed[i].0,
            ) && owned[listed[i].0] == listed[i].1 by {
                assert(rows@[i].id == ids@[i]);
                assert(ids@.contains(ids@[i]));
            }
            assert forall|i: int, j: int| 0 <= i < j < listed.len() implies listed[i].0
                < listed[j].0 by {
                assert(rows@[i].id == ids@[i]);
                assert(rows@[j].id == ids@[j]);
            }
            assert forall|id: i32| owned.contains_key(id) implies exists|i: int|
                0 <= i < listed.len() && #[trigger] listed[i].0 == id by {
                assert(ids@.contains(id));
                let i = choose|i: int| 0 <= i < ids@.len() && ids@[i] == id;
                assert(rows@[i].id == ids@[i]);
                assert(listed[i].0 == id);
            }
        }
        Some(rows)
    }
}

} // verus!
