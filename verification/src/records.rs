//! The two kinds of record the store keeps: clients and employees.

use vstd::prelude::*;

verus! {

/// A record that can be copied out of a store in full.
///
/// Deep-cloning a store copies every record through this method, so that the
/// clone shares nothing with its source.
pub trait Record: Sized {
    /// The id of the record.
    spec fn spec_id(&self) -> i32;

    /// The id of the record.
    fn id(&self) -> (id: i32)
        ensures
            id == self.spec_id(),
    ;

    /// A second, independent record equal to this one.
    fn duplicate(&self) -> (copy: Self)
        ensures
            copy == *self,
    ;
}

/// Every record is filed under its own id.
pub open spec fn keyed_by_id<T: Record>(records: Map<i32, T>) -> bool {
    forall|key: i32| records.contains_key(key) ==> (#[trigger] records[key]).spec_id() == key
}

/// The service a client has chosen, if any.
#[derive(Clone, Copy, Debug, PartialEq, Eq, Structural)]
pub enum ServiceChoice {
    /// No service has been chosen yet.
    Unset,
    Brokerage,
    Retirement,
}

impl ServiceChoice {
    /// The number under which the choice is shown: 0 for none, 1 for
    /// brokerage, 2 for retirement.
    pub open spec fn spec_code(self) -> i32 {
        match self {
            ServiceChoice::Unset => 0,
            ServiceChoice::Brokerage => 1,
            ServiceChoice::Retirement => 2,
        }
    }

    /// The number under which the choice is shown.
    pub fn code(&self) -> (c: i32)
        ensures
            c == self.spec_code(),
    {
        match self {
            ServiceChoice::Unset => 0,
            ServiceChoice::Brokerage => 1,
            ServiceChoice::Retirement => 2,
        }
    }
}

/// A client, assigned to the employee who looks after them.
#[derive(Debug, PartialEq, Eq)]
pub struct Client {
    pub id: i32,
    pub name: String,
    pub service: ServiceChoice,
    pub owner_employee_id: i32,
}

impl Client {
    /// A client with the given fields.
    pub fn new(id: i32, name: String, service: ServiceChoice, owner_employee_id: i32) -> (client:
        Client)
        ensures
            client == (Client { id, name, service, owner_employee_id }),
    {
        Client { id, name, service, owner_employee_id }
    }

    pub fn get_client_id(&self) -> (id: i32)
        ensures
            id == self.id,
    {
        self.id
    }

    pub fn get_client_name(&self) -> (name: &String)
        ensures
            *name == self.name,
    {
        &self.name
    }

    pub fn get_client_service(&self) -> (service: ServiceChoice)
        ensures
            service == self.service,
    {
        self.service
    }

    pub fn get_owner_employee_id(&self) -> (owner: i32)
        ensures
            owner == self.owner_employee_id,
    {
        self.owner_employee_id
    }

    /// Sets the chosen service on this record only. A store that holds a
    /// copy of the record learns of the change when the record is handed to
    /// its update operation.
    pub fn change_client_service(&mut self, service: ServiceChoice)
        ensures
            *final(self) == (Client { service, ..*old(self) }),
    {
        self.service = service;
    }

    /// Assigns the client to another employee, on this record only.
    pub fn change_owner(&mut self, owner_employee_id: i32)
        ensures
            *final(self) == (Client { owner_employee_id, ..*old(self) }),
    {
        self.owner_employee_id = owner_employee_id;
    }
}

impl Clone for Client {
    fn clone(&self) -> (copy: Client)
        ensures
            copy == *self,
    {
        Client {
            id: self.id,
            name: self.name.clone(),
            service: self.service,
            owner_employee_id: self.owner_employee_id,
        }
    }
}

impl Record for Client {
    open spec fn spec_id(&self) -> i32 {
        self.id
    }

    fn id(&self) -> (id: i32) {
        self.id
    }

    fn duplicate(&self) -> (copy: Client) {
        self.clone()
    }
}

/// An employee.
#[derive(Debug, PartialEq, Eq)]
pub struct Employee {
    pub id: i32,
    pub name: String,
}

impl Employee {
    /// An employee with the given fields.
    pub fn new(id: i32, name: String) -> (employee: Employee)
        ensures
            employee == (Employee { id, name }),
    {
        Employee { id, name }
    }

    pub fn get_employee_id(&self) -> (id: i32)
        ensures
            id == self.id,
    {
        self.id
    }

    pub fn get_employee_name(&self) -> (name: &String)
        ensures
            *name == self.name,
    {
        &self.name
    }
}

impl Clone for Employee {
    fn clone(&self) -> (copy: Employee)
        ensures
            copy == *self,
    {
        Employee { id: self.id, name: self.name.clone() }
    }
}

impl Record for Employee {
    open spec fn spec_id(&self) -> i32 {
        self.id
    }

    fn id(&self) -> (id: i32) {
        self.id
    }

    fn duplicate(&self) -> (copy: Employee) {
        self.clone()
    }
}

} // verus!
