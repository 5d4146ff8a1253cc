//! The seed from which the facades are built: one store of clients and one
//! of employees.

use vstd::prelude::*;
use crate::avl_tree::AvlTree;
use crate::records::{Client, Employee};

verus! {

/// The clients and the employees of one data set.
pub struct Database {
    pub clients: AvlTree<Client>,
    pub employees: AvlTree<Employee>,
}

impl Database {
    /// A data set without records.
    pub fn new() -> (database: Self)
        ensures
            database.clients@ == Map::<i32, Client>::empty(),
            database.employees@ == Map::<i32, Employee>::empty(),
    {
        Database { clients: AvlTree::new(), employees: AvlTree::new() }
    }

    /// Files `client` under its id, in place of any client already there.
    pub fn add_client(&mut self, client: Client)
        ensures
            final(self).clients@ == old(self).clients@.insert(client.id, client),
            final(self).employees == old(self).employees,
    {
        let id: i32 = client.id;
        self.clients.insert(id, client);
    }

    /// Files `employee` under its id, in place of any employee already
    /// there.
    pub fn add_employee(&mut self, employee: Employee)
        ensures
            final(self).employees@ == old(self).employees@.insert(employee.id, employee),
            final(self).clients == old(self).clients,
    {
        let id: i32 = employee.id;
        self.employees.insert(id, employee);
    }

    /// A second data set with the same records that shares nothing with
    /// this one.
    pub fn deep_clone(&self) -> (copy: Self)
        ensures
            copy.clients@ == self.clients@,
            copy.employees@ == self.employees@,
    {
        Database { clients: self.clients.deep_clone(), employees: self.employees.deep_clone() }
    }
}

} // verus!
