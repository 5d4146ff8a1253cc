//! The facades through which clients and employees are read and changed.
//!
//! Each facade owns the store behind it. The client facade also owns the
//! index from an employee to that employee's clients, and is the only place
//! where that index changes.

use vstd::prelude::*;
use crate::errors::ApplicationError;
use crate::index::SecondaryIndex;
use crate::listing::{entries_of, is_ascending_listing, strictly_ascending};
use crate::records::{keyed_by_id, Client, Employee, Record};
use crate::storage::Storage;

verus! {

/// Every assignment of a client to an employee that the client records
/// state, each as a pair of an employee id and a client id.
pub open spec fn ownership(clients: Map<i32, Client>) -> Set<(i32, i32)> {
    Set::new(
        |pair: (i32, i32)|
            clients.contains_key(pair.1) && clients[pair.1].owner_employee_id == pair.0,
    )
}

/// The ids of the clients whose record names `employee` as their owner.
pub open spec fn clients_owned_by(clients: Map<i32, Client>, employee: i32) -> Set<i32> {
    Set::new(|id: i32| clients.contains_key(id) && clients[id].owner_employee_id == employee)
}

/// A client whose record is replaced by one that names another owner leaves
/// the clients of the old owner and joins those of the new one. No other
/// client changes owner.
pub proof fn lemma_reassignment_moves_client(clients: Map<i32, Client>, updated: Client)
    requires
        clients.contains_key(updated.id),
        clients[updated.id].owner_employee_id != updated.owner_employee_id,
    ensures
        !clients_owned_by(
            clients.insert(updated.id, updated),
            clients[updated.id].owner_employee_id,
        ).contains(updated.id),
        clients_owned_by(clients.insert(updated.id, updated), updated.owner_employee_id).contains(
            updated.id,
        ),
        forall|employee: i32, other: i32|
            other != updated.id ==> (clients_owned_by(
                clients.insert(updated.id, updated),
                employee,
            ).contains(other) <==> clients_owned_by(clients, employee).contains(other)),
{
}

/// Whether every record of the store is filed under its own id.
fn is_keyed_by_id<T: Record, S: Storage<T>>(store: &S) -> (keyed: bool)
    ensures
        keyed == keyed_by_id(store.contents()),
{
    let walk = store.traverse_ascending();
    let ghost entries = entries_of(walk@);
    let mut next: usize = 0;
    while next < walk.len()
        invariant
            next <= walk@.len(),
            entries == entries_of(walk@),
            is_ascending_listing(entries, store.contents()),
            forall|i: int| 0 <= i < next ==> (#[trigger] entries[i]).1.spec_id() == entries[i].0,
        decreases walk@.len() - next,
    {
        let entry = &walk[next];
        if entry.1.id() != entry.0 {
            proof {
                assert(entries[next as int].1.spec_id() != entries[next as int].0);
                assert(store.contents().contains_key(entries[next as int].0));
            }
            return false;
        }
        next = next + 1;
    }
    proof {
        assert forall|key: i32| store.contents().contains_key(key) implies (
        #[trigger] store.contents()[key]).spec_id() == key by {
            let i = choose|i: int| 0 <= i < entries.len() && #[trigger] entries[i].0 == key;
            assert(entries[i].1.spec_id() == entries[i].0);
        }
    }
    true
}

/// The entry of a listing of clients states the assignment `pair`.
spec fn states(entry: (i32, Client), pair: (i32, i32)) -> bool {
    entry.0 == pair.1 && entry.1.owner_employee_id == pair.0
}

/// The index of the clients of a store, built by grouping them by owner.
fn index_of<S: Storage<Client>>(store: &S) -> (index: SecondaryIndex)
    ensures
        index.pairs() == ownership(store.contents()),
{
    let walk = store.traverse_ascending();
    let ghost entries = entries_of(walk@);
    let mut index = SecondaryIndex::new();
    let mut next: usize = 0;
    while next < walk.len()
        invariant
            next <= walk@.len(),
            entries == entries_of(walk@),
            forall|pair: (i32, i32)|
                index.pairs().contains(pair) <==> exists|i: int|
                    0 <= i < next && #[trigger] states(entries[i], pair),
        decreases walk@.len() - next,
    {
        let entry = &walk[next];
        let ghost earlier = index.pairs();
        index.assign(entry.1.owner_employee_id, entry.0);
        proof {
            let added = (entry.1.owner_employee_id, entry.0);
            assert(states(entries[next as int], added));
            assert forall|pair: (i32, i32)|
                index.pairs().contains(pair) <==> exists|i: int|
                    0 <= i < next + 1 && #[trigger] states(entries[i], pair) by {
                if earlier.contains(pair) {
                    let i = choose|i: int| 0 <= i < next && #[trigger] states(entries[i], pair);
                    assert(0 <= i < next + 1 && states(entries[i], pair));
                }
                if exists|i: int| 0 <= i < next + 1 && #[trigger] states(entries[i], pair) {
                    let i = choose|i: int| 0 <= i < next + 1 && #[trigger] states(entries[i], pair);
                    if i < next {
                        assert(earlier.contains(pair));
                    } else {
                        assert(pair == added);
                    }
                }
            }
        }
        next = next + 1;
    }
    proof {
        let clients = store.contents();
        assert forall|pair: (i32, i32)|
            index.pairs().contains(pair) <==> ownership(clients).contains(pair) by {
            if index.pairs().contains(pair) {
                let i = choose|i: int| 0 <= i < next && #[trigger] states(entries[i], pair);
                assert(clients.contains_key(entries[i].0));
            }
            if ownership(clients).contains(pair) {
                let i = choose|i: int| 0 <= i < entries.len() && #[trigger] entries[i].0 == pair.1;
                assert(clients.contains_key(entries[i].0));
                assert(states(entries[i], pair));
            }
        }
        assert(index.pairs() =~= ownership(clients));
    }
    index
}

/// What the client facade owns: the clients and the index over them.
struct ClientState<S> {
    store: S,
    index: SecondaryIndex,
}

/// The facade for clients: lookup and change by id, and the list of clients
/// of an employee.
pub struct ClientHandler<S: Storage<Client>> {
    state: ClientState<S>,
}

impl<S: Storage<Client>> ClientHandler<S> {
    #[verifier::type_invariant]
    spec fn consistent(self) -> bool {
        &&& keyed_by_id(self.state.store.contents())
        &&& self.state.index.pairs() == ownership(self.state.store.contents())
    }

    /// The client records behind the facade, each under its id.
    pub closed spec fn clients(self) -> Map<i32, Client> {
        self.state.store.contents()
    }

    /// A facade over the given clients.
    ///
    /// The index is built here, by grouping the clients by owner. Fails if
    /// some record of the store is filed under a key other than its own id.
    pub fn new(store: S) -> (built: Result<Self, ApplicationError>)
        ensures
            built is Ok <==> keyed_by_id(store.contents()),
            built is Ok ==> built->Ok_0.clients() == store.contents(),
            built is Err ==> built->Err_0 == ApplicationError::InitializationFailure,
    {
        if !is_keyed_by_id(&store) {
            return Err(ApplicationError::InitializationFailure);
        }
        let index = index_of(&store);
        Ok(ClientHandler { state: ClientState { store, index } })
    }

    /// The client with the given id.
    pub fn get_client(&self, id: i32) -> (found: Result<&Client, ApplicationError>)
        ensures
            found is Ok <==> self.clients().contains_key(id),
            found is Ok ==> *found->Ok_0 == self.clients()[id] && found->Ok_0.id == id,
            found is Err ==> found->Err_0 == ApplicationError::NotFound,
    {
        proof {
            use_type_invariant(self);
        }
        match self.state.store.get(id) {
            Some(client) => Ok(client),
            None => Err(ApplicationError::NotFound),
        }
    }

    /// Puts `client` in place of the stored record with the same id.
    ///
    /// Fails, and changes nothing, if no client with that id is stored. If
    /// the new record names another owner than the stored one, the client
    /// moves from the old owner's list to the new owner's.
    pub fn update_client(&mut self, client: &Client) -> (outcome: Result<(), ApplicationError>)
        ensures
            outcome is Ok <==> old(self).clients().contains_key(client.id),
            outcome is Ok ==> final(self).clients() == old(self).clients().insert(
                client.id,
                *client,
            ),
            outcome is Err ==> outcome->Err_0 == ApplicationError::NotFound,
            outcome is Err ==> final(self).clients() == old(self).clients(),
    {
        proof {
            use_type_invariant(&*self);
        }
        let mut state = ClientState { store: S::empty(), index: SecondaryIndex::new() };
        proof {
            assert(ownership(state.store.contents()) =~= Set::<(i32, i32)>::empty());
        }
        core::mem::swap(&mut self.state, &mut state);
        let previous_owner: i32 = match state.store.get(client.id) {
            Some(stored) => stored.owner_employee_id,
            None => {
                self.state = state;
                return Err(ApplicationError::NotFound);
            },
        };
        let outcome = state.store.update(client.id, client.duplicate());
        if previous_owner != client.owner_employee_id {
            state.index.unassign(previous_owner, client.id);
            state.index.assign(client.owner_employee_id, client.id);
        }
        proof {
            assert(state.index.pairs() =~= ownership(state.store.contents()));
        }
        self.state = state;
        outcome
    }

    /// Stores `client` under its id, in place of any record already there,
    /// and enters it in its owner's list.
    pub fn insert_client(&mut self, client: Client)
        ensures
            final(self).clients() == old(self).clients().insert(client.id, client),
    {
        proof {
            use_type_invariant(&*self);
        }
        let mut state = ClientState { store: S::empty(), index: SecondaryIndex::new() };
        proof {
            assert(ownership(state.store.contents()) =~= Set::<(i32, i32)>::empty());
        }
        core::mem::swap(&mut self.state, &mut state);
        let id: i32 = client.id;
        let owner: i32 = client.owner_employee_id;
        match state.store.get(id) {
            Some(stored) => {
                let previous_owner: i32 = stored.owner_employee_id;
                state.index.unassign(previous_owner, id);
            },
            None => {},
        }
        state.store.insert(id, client);
        state.index.assign(owner, id);
        proof {
            assert(state.index.pairs() =~= ownership(state.store.contents()));
        }
        self.state = state;
    }

    /// Removes the client with the given id, from the store and from its
    /// owner's list.
    ///
    /// Fails, and changes nothing, if no client with that id is stored.
    pub fn delete_client(&mut self, id: i32) -> (outcome: Result<(), ApplicationError>)
        ensures
            outcome is Ok <==> old(self).clients().contains_key(id),
            outcome is Ok ==> final(self).clients() == old(self).clients().remove(id),
            outcome is Err ==> outcome->Err_0 == ApplicationError::NotFound,
            outcome is Err ==> final(self).clients() == old(self).clients(),
    {
        proof {
            use_type_invariant(&*self);
        }
        let mut state = ClientState { store: S::empty(), index: SecondaryIndex::new() };
        proof {
            assert(ownership(state.store.contents()) =~= Set::<(i32, i32)>::empty());
        }
        core::mem::swap(&mut self.state, &mut state);
        let owner: i32 = match state.store.get(id) {
            Some(stored) => stored.owner_employee_id,
            None => {
                self.state = state;
                return Err(ApplicationError::NotFound);
            },
        };
        let outcome = state.store.delete(id);
        state.index.unassign(owner, id);
        proof {
            assert(state.index.pairs() =~= ownership(state.store.contents()));
        }
        self.state = state;
        outcome
    }

    /// The ids of the clients of the given employee, in ascending order.
    ///
    /// Nothing is returned for an employee who has no clients, whether or
    /// not an employee with that id exists.
    pub fn get_clients_for_employee(&self, employee_id: i32) -> (found: Option<&Vec<i32>>)
        ensures
            found is Some <==> exists|id: i32|
                clients_owned_by(self.clients(), employee_id).contains(id),
            found is Some ==> strictly_ascending(found->0@),
            found is Some ==> forall|id: i32|
                found->0@.contains(id) <==> clients_owned_by(self.clients(), employee_id).contains(
                    id,
                ),
    {
        proof {
            use_type_invariant(self);
        }
        let found = self.state.index.clients_of(employee_id);
        proof {
            let clients = self.clients();
            assert forall|id: i32|
                self.state.index.pairs().contains((employee_id, id)) <==> clients_owned_by(
                    clients,
                    employee_id,
                ).contains(id) by {}
            if found is Some {
                let id = choose|id: i32| self.state.index.pairs().contains((employee_id, id));
                assert(clients_owned_by(clients, employee_id).contains(id));
            }
            if exists|id: i32| clients_owned_by(clients, employee_id).contains(id) {
                let id = choose|id: i32| clients_owned_by(clients, employee_id).contains(id);
                assert(self.state.index.pairs().contains((employee_id, id)));
            }
        }
        found
    }

    /// Every client with its id, in ascending order of id.
    pub fn list_clients(&self) -> (walk: Vec<(i32, &Client)>)
        ensures
            is_ascending_listing(entries_of(walk@), self.clients()),
            forall|i: int| 0 <= i < walk@.len() ==> (#[trigger] walk@[i]).1.id == walk@[i].0,
    {
        proof {
            use_type_invariant(self);
        }
        let walk = self.state.store.traverse_ascending();
        proof {
            assert forall|i: int| 0 <= i < walk@.len() implies (#[trigger] walk@[i]).1.id
                == walk@[i].0 by {
                assert(self.clients().contains_key(entries_of(walk@)[i].0));
            }
        }
        walk
    }
}

/// The facade for employees: lookup by id.
pub struct EmployeeHandler<S: Storage<Employee>> {
    store: S,
}

impl<S: Storage<Employee>> EmployeeHandler<S> {
    #[verifier::type_invariant]
    spec fn consistent(self) -> bool {
        keyed_by_id(self.store.contents())
    }

    /// The employee records behind the facade, each under its id.
    pub closed spec fn employees(self) -> Map<i32, Employee> {
        self.store.contents()
    }

    /// A facade over the given employees.
    ///
    /// Fails if some record of the store is filed under a key other than
    /// its own id.
    pub fn new(store: S) -> (built: Result<Self, ApplicationError>)
        ensures
            built is Ok <==> keyed_by_id(store.contents()),
            built is Ok ==> built->Ok_0.employees() == store.contents(),
            built is Err ==> built->Err_0 == ApplicationError::InitializationFailure,
    {
        if !is_keyed_by_id(&store) {
            return Err(ApplicationError::InitializationFailure);
        }
        Ok(EmployeeHandler { store })
    }

    /// The employee with the given id.
    pub fn get_employee(&self, id: i32) -> (found: Result<&Employee, ApplicationError>)
        ensures
            found is Ok <==> self.employees().contains_key(id),
            found is Ok ==> *found->Ok_0 == self.employees()[id] && found->Ok_0.id == id,
            found is Err ==> found->Err_0 == ApplicationError::NotFound,
    {
        proof {
            use_type_invariant(self);
        }
        match self.store.get(id) {
            Some(employee) => Ok(employee),
            None => Err(ApplicationError::NotFound),
        }
    }

    /// Every employee with their id, in ascending order of id.
    pub fn list_employees(&self) -> (walk: Vec<(i32, &Employee)>)
        ensures
            is_ascending_listing(entries_of(walk@), self.employees()),
    {
        self.store.traverse_ascending()
    }
}

} // verus!
