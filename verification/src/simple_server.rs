use std::collections::{BTreeMap, BTreeSet};
use vstd::prelude::*;

use fixed_index_vec::FixedIndexVec;

use crate::message_processing::{
    default_endmark, default_escape, default_marker, received_text, spec_received_text,
    spec_split_client_input, split_client_input, strings_view, Endmark,
};
use crate::text::replace_all;
use crate::server::{ClientRead, ServerAcceptError};

verus! {

broadcast use {
    vstd::std_specs::btree::group_btree_axioms,
    vstd::laws_cmp::group_laws_cmp,
    vstd::map::group_map_axioms,
    vstd::set::group_set_axioms,
};

#[verifier::external_type_specification]
#[verifier::external_body]
#[verifier::reject_recursive_types(T)]
pub struct ExFixedIndexVec<T>(FixedIndexVec<T>);

/// The entries a `FixedIndexVec` of client ids holds, by index.
pub uninterp spec fn slot_entries(v: FixedIndexVec<usize>) -> Map<usize, usize>;

/// The index a `FixedIndexVec` of client ids gives the next pushed entry.
pub uninterp spec fn slot_next_index(v: FixedIndexVec<usize>) -> usize;

/// `FixedIndexVec::new`: no entries, and the next index is 0.
#[verifier::external_body]
fn slots_new() -> (fresh: FixedIndexVec<usize>)
    ensures
        slot_entries(fresh).is_empty(),
        slot_next_index(fresh) == 0,
{
    FixedIndexVec::new()
}

/// `FixedIndexVec::push`: stores `value` at the next index, which then moves
/// on by one (the increment overflows at `usize::MAX`).
#[verifier::external_body]
fn slots_push(v: &mut FixedIndexVec<usize>, value: usize)
    requires
        slot_next_index(*old(v)) < usize::MAX,
    ensures
        slot_entries(*final(v)) == slot_entries(*old(v)).insert(slot_next_index(*old(v)), value),
        slot_next_index(*final(v)) == slot_next_index(*old(v)) + 1,
{
    v.push(value);
}

/// `FixedIndexVec::remove`: takes out the entry at `index`, if there is one,
/// leaving the next index as it was.
#[verifier::external_body]
fn slots_remove(v: &mut FixedIndexVec<usize>, index: usize) -> (r: Option<usize>)
    ensures
        slot_entries(*final(v)) == slot_entries(*old(v)).remove(index),
        slot_next_index(*final(v)) == slot_next_index(*old(v)),
        r == (if slot_entries(*old(v)).contains_key(index) {
            Some(slot_entries(*old(v))[index])
        } else {
            None
        }),
{
    v.remove(index)
}

/// `FixedIndexVec::next_index`.
#[verifier::external_body]
fn slots_next_index(v: &FixedIndexVec<usize>) -> (r: usize)
    ensures
        r == slot_next_index(*v),
{
    v.next_index()
}

/// What the server keeps of one accepted client: its id, the text received
/// after its last complete message, whether reads from it block, whether it is
/// marked for removal, and the data the server attached to it.
#[derive(Debug)]
pub struct Client<ClientData> {
    id: usize,
    message_buffer: String,
    is_blocking_read: bool,
    should_remove: bool,
    data: ClientData,
}

impl<ClientData> Client<ClientData> {
    /// The client's id.
    pub closed spec fn spec_id(&self) -> usize {
        self.id
    }

    /// The text received after the client's last complete message.
    pub closed spec fn spec_buffer(&self) -> Seq<char> {
        self.message_buffer@
    }

    /// Whether reads from the client block.
    pub closed spec fn spec_is_blocking_read(&self) -> bool {
        self.is_blocking_read
    }

    /// Whether the client is marked for removal.
    pub closed spec fn spec_should_remove(&self) -> bool {
        self.should_remove
    }

    /// The data attached to the client.
    pub closed spec fn spec_data(&self) -> ClientData {
        self.data
    }

    /// The client's id.
    pub fn id(&self) -> (r: usize)
        ensures
            r == self.spec_id(),
    {
        self.id
    }

    /// The data attached to the client.
    pub fn data(&self) -> (r: &ClientData)
        ensures
            *r == self.spec_data(),
    {
        &self.data
    }

    /// The data attached to the client, to change.
    pub fn data_mut(&mut self) -> (r: &mut ClientData)
        ensures
            *r == old(self).spec_data(),
            final(self).spec_data() == *final(r),
            final(self).spec_id() == old(self).spec_id(),
            final(self).spec_buffer() == old(self).spec_buffer(),
            final(self).spec_is_blocking_read() == old(self).spec_is_blocking_read(),
            final(self).spec_should_remove() == old(self).spec_should_remove(),
    {
        &mut self.data
    }

    /// Whether reads from this client block.
    pub fn is_blocking_read(&self) -> (r: bool)
        ensures
            r == self.spec_is_blocking_read(),
    {
        self.is_blocking_read
    }

    /// Whether this client is marked for removal.
    pub fn should_remove(&self) -> (r: bool)
        ensures
            r == self.spec_should_remove(),
    {
        self.should_remove
    }

    /// Marks this client for removal; `true` when it was not marked before.
    pub fn mark_to_remove(&mut self) -> (r: bool)
        ensures
            r == !old(self).spec_should_remove(),
            final(self).spec_should_remove(),
            final(self).spec_id() == old(self).spec_id(),
            final(self).spec_buffer() == old(self).spec_buffer(),
            final(self).spec_is_blocking_read() == old(self).spec_is_blocking_read(),
            final(self).spec_data() == old(self).spec_data(),
    {
        if self.should_remove {
            return false;
        }
        self.should_remove = true;
        true
    }
}

/// The state of a server apart from its sockets: the registry of clients, the
/// data the server holds, the endmark of its messages and whether its listener
/// blocks.
#[derive(Debug)]
pub struct InnerSimpleServer<ServerData, ClientData> {
    slots: FixedIndexVec<usize>,
    clients: BTreeMap<usize, Client<ClientData>>,
    reserved: BTreeSet<usize>,
    data: ServerData,
    endmark: Endmark,
    is_blocking: bool,
}

impl<ServerData, ClientData> InnerSimpleServer<ServerData, ClientData> {
    /// The clients by id.
    pub closed spec fn client_map(&self) -> Map<usize, Client<ClientData>> {
        self.clients@
    }

    /// The id the next accepted client gets.
    pub closed spec fn next_id(&self) -> usize {
        slot_next_index(self.slots)
    }

    /// The ids held back for clients being accepted.
    pub closed spec fn reserved_ids(&self) -> Set<usize> {
        self.reserved@
    }

    /// The endmark of the server's messages.
    pub closed spec fn spec_endmark(&self) -> Endmark {
        self.endmark
    }

    /// Whether the listener blocks.
    pub closed spec fn spec_is_blocking(&self) -> bool {
        self.is_blocking
    }

    /// The data the server holds.
    pub closed spec fn spec_data(&self) -> ServerData {
        self.data
    }

    /// The registry agrees with the stable index vector: it holds the ids of
    /// the registered clients and of the reserved ids, none of them both, each
    /// stored under itself and below the next id.
    pub closed spec fn wf(&self) -> bool {
        &&& slot_entries(self.slots).dom() == self.clients@.dom().union(self.reserved@)
        &&& forall|i: usize| #[trigger]
            self.reserved@.contains(i) ==> !self.clients@.contains_key(i)
        &&& forall|i: usize| #[trigger]
            slot_entries(self.slots).contains_key(i) ==> {
                &&& slot_entries(self.slots)[i] == i
                &&& i < slot_next_index(self.slots)
            }
        &&& forall|i: usize| #[trigger]
            self.clients@.contains_key(i) ==> self.clients@[i].id == i
    }

    /// A server with no clients, holding `server_data`, using the default
    /// endmark; `is_blocking` tells whether its listener blocks.
    pub fn new(server_data: ServerData, is_blocking: bool) -> (r: Self)
        ensures
            r.wf(),
            r.client_map() == Map::<usize, Client<ClientData>>::empty(),
            r.reserved_ids() == Set::<usize>::empty(),
            r.next_id() == 0,
            r.spec_data() == server_data,
            r.spec_is_blocking() == is_blocking,
            r.spec_endmark().marker() == default_marker(),
            r.spec_endmark().escape_marker() == default_escape(),
    {
        let r = InnerSimpleServer {
            slots: slots_new(),
            clients: BTreeMap::new(),
            reserved: BTreeSet::new(),
            data: server_data,
            endmark: default_endmark(),
            is_blocking,
        };
        proof {
            assert(slot_entries(r.slots).dom() =~= r.clients@.dom().union(r.reserved@));
        }
        r
    }

    /// Whether a client with this id is registered.
    pub fn contains_client(&self, client_index: usize) -> (r: bool)
        ensures
            r == self.client_map().contains_key(client_index),
    {
        self.clients.get(&client_index).is_some()
    }

    /// The number of registered clients.
    pub fn clients_len(&self) -> (r: usize)
        ensures
            r == self.client_map().len(),
    {
        self.clients.len()
    }

    /// The id the next accepted client gets.
    pub fn next_client_id(&self) -> (r: usize)
        ensures
            r == self.next_id(),
    {
        slots_next_index(&self.slots)
    }

    /// The client with this id, if registered.
    pub fn get_client(&self, client_index: usize) -> (r: Option<&Client<ClientData>>)
        ensures
            match r {
                Some(c) => self.client_map().contains_key(client_index) && *c == self.client_map()[client_index],
                None => !self.client_map().contains_key(client_index),
            },
    {
        self.clients.get(&client_index)
    }

    /// Registers a client accepted with `filtered` as its data; a refused
    /// connection (`None`) changes nothing. The new client gets the next id,
    /// an empty buffer and no removal mark.
    pub fn admit_client(&mut self, filtered: Option<ClientData>, is_blocking_read: bool) -> (r:
        Option<usize>)
        requires
            old(self).wf(),
            filtered is Some ==> old(self).next_id() < usize::MAX,
        ensures
            final(self).wf(),
            final(self).spec_data() == old(self).spec_data(),
            final(self).spec_endmark() == old(self).spec_endmark(),
            final(self).spec_is_blocking() == old(self).spec_is_blocking(),
            final(self).reserved_ids() == old(self).reserved_ids(),
            match filtered {
                None => {
                    &&& r is None
                    &&& final(self).client_map() == old(self).client_map()
                    &&& final(self).next_id() == old(self).next_id()
                },
                Some(d) => {
                    let id = old(self).next_id();
                    let c = final(self).client_map()[id];
                    &&& r == Some(id)
                    &&& !old(self).client_map().contains_key(id)
                    &&& final(self).client_map().dom() == old(self).client_map().dom().insert(id)
                    &&& forall|i: usize| #[trigger]
                        old(self).client_map().contains_key(i) ==> final(self).client_map()[i]
                            == old(self).client_map()[i]
                    &&& c.spec_id() == id
                    &&& c.spec_data() == d
                    &&& c.spec_buffer() == Seq::<char>::empty()
                    &&& c.spec_is_blocking_read() == is_blocking_read
                    &&& !c.spec_should_remove()
                    &&& final(self).next_id() == id + 1
                },
            },
    {
        match filtered {
            None => None,
            Some(d) => {
                let id = slots_next_index(&self.slots);
                proof {
                    assert(!slot_entries(self.slots).contains_key(id));
                }
                let client = Client {
                    id,
                    message_buffer: String::new(),
                    is_blocking_read,
                    should_remove: false,
                    data: d,
                };
                slots_push(&mut self.slots, id);
                self.clients.insert(id, client);
                proof {
                    assert(slot_entries(self.slots).dom() =~= self.clients@.dom().union(
                        self.reserved@,
                    ));
                }
                Some(id)
            },
        }
    }

    /// Holds back the next id for a client being accepted, before its
    /// connection is filtered: no other client gets it while it is reserved.
    pub fn reserve_client_id(&mut self) -> (id: usize)
        requires
            old(self).wf(),
            old(self).next_id() < usize::MAX,
        ensures
            final(self).wf(),
            id == old(self).next_id(),
            final(self).next_id() == id + 1,
            !old(self).reserved_ids().contains(id),
            !old(self).client_map().contains_key(id),
            final(self).reserved_ids() == old(self).reserved_ids().insert(id),
            final(self).client_map() == old(self).client_map(),
            final(self).spec_data() == old(self).spec_data(),
            final(self).spec_endmark() == old(self).spec_endmark(),
            final(self).spec_is_blocking() == old(self).spec_is_blocking(),
    {
        let id = slots_next_index(&self.slots);
        proof {
            assert(!slot_entries(self.slots).contains_key(id));
        }
        slots_push(&mut self.slots, id);
        self.reserved.insert(id);
        proof {
            assert(slot_entries(self.slots).dom() =~= self.clients@.dom().union(self.reserved@));
        }
        id
    }

    /// Completes the acceptance of the client whose id `id` was reserved:
    /// with `filtered` as its data it is registered under that id, with an
    /// empty buffer and no removal mark; a refused connection (`None`) gives
    /// the id up. Either way the id is no longer reserved. An id that is not
    /// reserved changes nothing and gives `None`.
    pub fn admit_reserved_client(
        &mut self,
        id: usize,
        filtered: Option<ClientData>,
        is_blocking_read: bool,
    ) -> (r: Option<usize>)
        requires
            old(self).wf(),
        ensures
            final(self).wf(),
            final(self).next_id() == old(self).next_id(),
            final(self).reserved_ids() == old(self).reserved_ids().remove(id),
            final(self).spec_data() == old(self).spec_data(),
            final(self).spec_endmark() == old(self).spec_endmark(),
            final(self).spec_is_blocking() == old(self).spec_is_blocking(),
            !old(self).reserved_ids().contains(id) ==> r is None && final(self).client_map()
                == old(self).client_map(),
            old(self).reserved_ids().contains(id) ==> match filtered {
                None => {
                    &&& r is None
                    &&& final(self).client_map() == old(self).client_map()
                },
                Some(d) => {
                    let c = final(self).client_map()[id];
                    &&& r == Some(id)
                    &&& !old(self).client_map().contains_key(id)
                    &&& final(self).client_map() == old(self).client_map().insert(id, c)
                    &&& c.spec_id() == id
                    &&& c.spec_data() == d
                    &&& c.spec_buffer() == Seq::<char>::empty()
                    &&& c.spec_is_blocking_read() == is_blocking_read
                    &&& !c.spec_should_remove()
                },
            },
    {
        if !self.reserved.contains(&id) {
            proof {
                assert(self.reserved@.remove(id) =~= self.reserved@);
            }
            return None;
        }
        self.reserved.remove(&id);
        let r = match filtered {
            None => {
                slots_remove(&mut self.slots, id);
                None
            },
            Some(d) => {
                let client = Client {
                    id,
                    message_buffer: String::new(),
                    is_blocking_read,
                    should_remove: false,
                    data: d,
                };
                self.clients.insert(id, client);
                Some(id)
            },
        };
        proof {
            assert(slot_entries(self.slots).dom() =~= self.clients@.dom().union(self.reserved@));
        }
        r
    }

    /// Unregisters the client with this id, if there is one; its id is not
    /// given out again.
    pub fn remove_client(&mut self, client_index: usize)
        requires
            old(self).wf(),
        ensures
            final(self).wf(),
            final(self).client_map() == old(self).client_map().remove(client_index),
            final(self).reserved_ids() == old(self).reserved_ids(),
            final(self).next_id() == old(self).next_id(),
            final(self).spec_data() == old(self).spec_data(),
            final(self).spec_endmark() == old(self).spec_endmark(),
            final(self).spec_is_blocking() == old(self).spec_is_blocking(),
    {
        if self.clients.remove(&client_index).is_some() {
            slots_remove(&mut self.slots, client_index);
        }
        proof {
            assert(slot_entries(self.slots).dom() =~= self.clients@.dom().union(self.reserved@));
            assert(self.clients@ =~= old(self).clients@.remove(client_index));
        }
    }

    /// Gives the client with this id `data` as its data, returning the data
    /// it had; `None`, with nothing changed, when no such client is
    /// registered.
    pub fn replace_client_data(&mut self, client_index: usize, data: ClientData) -> (r: Option<
        ClientData,
    >)
        requires
            old(self).wf(),
        ensures
            final(self).wf(),
            old(self).same_but_client(final(self), client_index),
            match r {
                None => !old(self).client_map().contains_key(client_index) && final(self).client_map()
                    == old(self).client_map(),
                Some(previous) => {
                    let before = old(self).client_map()[client_index];
                    let after = final(self).client_map()[client_index];
                    &&& old(self).client_map().contains_key(client_index)
                    &&& previous == before.spec_data()
                    &&& after.spec_data() == data
                    &&& after.spec_id() == before.spec_id()
                    &&& after.spec_buffer() == before.spec_buffer()
                    &&& after.spec_is_blocking_read() == before.spec_is_blocking_read()
                    &&& after.spec_should_remove() == before.spec_should_remove()
                },
            },
    {
        let mut client = match self.clients.remove(&client_index) {
            Some(c) => c,
            None => {
                proof {
                    assert(self.clients@ =~= old(self).clients@);
                }
                return None;
            },
        };
        let mut previous = data;
        std::mem::swap(&mut client.data, &mut previous);
        self.clients.insert(client_index, client);
        proof {
            assert(slot_entries(self.slots).dom() =~= self.clients@.dom().union(self.reserved@));
        }
        Some(previous)
    }

    /// The endmark of this server's messages.
    pub fn message_endmark(&self) -> (r: &Endmark)
        ensures
            *r == self.spec_endmark(),
    {
        &self.endmark
    }

    /// Whether the listener blocks.
    pub fn is_blocking(&self) -> (r: bool)
        ensures
            r == self.spec_is_blocking(),
    {
        self.is_blocking
    }

    /// A non-blocking accept of every incoming client may run only while the
    /// listener does not block: `Err(IsBlocking)` when it does.
    pub fn check_nonblocking_accept(&self) -> (r: Result<(), ServerAcceptError>)
        ensures
            r is Err <==> self.spec_is_blocking(),
    {
        if self.is_blocking {
            Err(ServerAcceptError::IsBlocking)
        } else {
            Ok(())
        }
    }

    /// The data this server holds, to change.
    pub fn data_mut(&mut self) -> (r: &mut ServerData)
        ensures
            *r == old(self).spec_data(),
            final(self).spec_data() == *final(r),
            final(self).client_map() == old(self).client_map(),
            final(self).next_id() == old(self).next_id(),
            final(self).reserved_ids() == old(self).reserved_ids(),
            final(self).spec_endmark() == old(self).spec_endmark(),
            final(self).spec_is_blocking() == old(self).spec_is_blocking(),
            old(self).wf() ==> final(self).wf(),
    {
        &mut self.data
    }

    /// Frames this server's messages with `endmark` from now on.
    pub fn set_endmark(&mut self, endmark: Endmark)
        ensures
            final(self).spec_endmark() == endmark,
            final(self).client_map() == old(self).client_map(),
            final(self).next_id() == old(self).next_id(),
            final(self).reserved_ids() == old(self).reserved_ids(),
            final(self).spec_data() == old(self).spec_data(),
            final(self).spec_is_blocking() == old(self).spec_is_blocking(),
            old(self).wf() ==> final(self).wf(),
    {
        self.endmark = endmark;
    }

    /// The data this server holds.
    pub fn data(&self) -> (r: &ServerData)
        ensures
            *r == self.spec_data(),
    {
        &self.data
    }

    /// Records the outcome of switching the listener's blocking mode:
    /// `applied` tells whether the socket accepted the change. Unless it did
    /// or `force` is set, nothing changes and `Err` is returned.
    pub fn set_nonblocking(&mut self, non_blocking: bool, force: bool, applied: bool) -> (r: Result<
        (),
        (),
    >)
        ensures
            r is Err <==> (!applied && !force),
            r is Ok ==> final(self).spec_is_blocking() == !non_blocking,
            r is Err ==> final(self).spec_is_blocking() == old(self).spec_is_blocking(),
            final(self).client_map() == old(self).client_map(),
            final(self).next_id() == old(self).next_id(),
            final(self).reserved_ids() == old(self).reserved_ids(),
            final(self).spec_data() == old(self).spec_data(),
            final(self).spec_endmark() == old(self).spec_endmark(),
            old(self).wf() ==> final(self).wf(),
    {
        if !applied && !force {
            return Err(());
        }
        self.is_blocking = !non_blocking;
        Ok(())
    }
}


/// What one attempt to read from a client's stream gave.
#[derive(Debug)]
pub enum ReadEvent {
    /// These bytes were read; none means the peer closed the connection.
    Received(Vec<u8>),
    /// Nothing to read now.
    WouldBlock,
    /// The peer reset the connection.
    ConnectionReset,
    /// Any other read error.
    Failed,
}

/// What to do after a read event.
#[derive(Debug, PartialEq, Eq, Structural)]
pub enum ReadStep {
    /// Read again.
    Continue,
    /// Stop reading; the read is complete.
    Finished,
    /// Stop reading; the client is gone or marked for removal and the read
    /// yields nothing.
    Dropped,
    /// The received bytes cannot be decoded or split into messages: the
    /// client is marked for removal and the read yields nothing.
    Unprocessable,
}

impl<ClientData> Client<ClientData> {
    /// `other` is this client marked for removal, and otherwise unchanged.
    pub open spec fn marked_as(&self, other: &Client<ClientData>) -> bool {
        &&& other.spec_should_remove()
        &&& other.spec_id() == self.spec_id()
        &&& other.spec_buffer() == self.spec_buffer()
        &&& other.spec_is_blocking_read() == self.spec_is_blocking_read()
        &&& other.spec_data() == self.spec_data()
    }

    /// `other` is this client with only its buffer possibly changed.
    pub open spec fn same_but_buffer(&self, other: &Client<ClientData>) -> bool {
        &&& other.spec_id() == self.spec_id()
        &&& other.spec_is_blocking_read() == self.spec_is_blocking_read()
        &&& other.spec_should_remove() == self.spec_should_remove()
        &&& other.spec_data() == self.spec_data()
    }
}

impl<ServerData, ClientData> InnerSimpleServer<ServerData, ClientData> {
    /// `other` is this server with at most the client `client_index` changed.
    pub open spec fn same_but_client(&self, other: &Self, client_index: usize) -> bool {
        &&& other.client_map().dom() == self.client_map().dom()
        &&& forall|k: usize| #[trigger]
            self.client_map().contains_key(k) && k != client_index ==> other.client_map()[k]
                == self.client_map()[k]
        &&& other.next_id() == self.next_id()
        &&& other.reserved_ids() == self.reserved_ids()
        &&& other.spec_data() == self.spec_data()
        &&& other.spec_endmark() == self.spec_endmark()
        &&& other.spec_is_blocking() == self.spec_is_blocking()
    }

    /// Whether the client is registered and not marked for removal.
    pub fn is_readable(&self, client_index: usize) -> (r: bool)
        requires
            self.wf(),
        ensures
            r == (self.client_map().contains_key(client_index)
                && !self.client_map()[client_index].spec_should_remove()),
    {
        match self.clients.get(&client_index) {
            Some(c) => !c.should_remove,
            None => false,
        }
    }

    /// Adds text just received from a client to what it had buffered, and
    /// returns the complete messages now in it; the rest stays buffered.
    /// `None`, with nothing changed, when the text cannot be split.
    pub fn read_client_input(&mut self, client_index: usize, received: &Vec<char>) -> (r: Option<
        Vec<String>,
    >)
        requires
            old(self).wf(),
            old(self).client_map().contains_key(client_index),
        ensures
            final(self).wf(),
            old(self).same_but_client(final(self), client_index),
            old(self).client_map()[client_index].same_but_buffer(
                &final(self).client_map()[client_index],
            ),
            match spec_split_client_input(
                old(self).client_map()[client_index].spec_buffer(),
                received@,
                old(self).spec_endmark().marker(),
                old(self).spec_endmark().escape_marker(),
            ) {
                Some((ms, rest)) => {
                    &&& r matches Some(v) && strings_view(v@) == ms
                    &&& final(self).client_map()[client_index].spec_buffer() == rest
                },
                None => {
                    &&& r is None
                    &&& final(self).client_map() == old(self).client_map()
                },
            },
    {
        let mut client = match self.clients.remove(&client_index) {
            Some(c) => c,
            None => {
                return None;
            },
        };
        let ghost before = client;
        let split = split_client_input(client.message_buffer.as_str(), received, &self.endmark);
        let r = match split {
            Some((messages, rest)) => {
                client.message_buffer = rest;
                Some(messages)
            },
            None => None,
        };
        self.clients.insert(client_index, client);
        proof {
            assert(slot_entries(self.slots).dom() =~= self.clients@.dom().union(self.reserved@));
            if r is None {
                assert(self.clients@ =~= old(self).clients@);
            }
        }
        r
    }

    /// Marks the client with this id for removal: `Some(true)` when it was not
    /// marked before, `Some(false)` when it was, `None` when no such client is
    /// registered. Reads of a marked client yield nothing.
    pub fn mark_client_to_remove(&mut self, client_index: usize) -> (r: Option<bool>)
        requires
            old(self).wf(),
        ensures
            final(self).wf(),
            old(self).same_but_client(final(self), client_index),
            match r {
                None => !old(self).client_map().contains_key(client_index) && final(self).client_map()
                    == old(self).client_map(),
                Some(first) => {
                    let before = old(self).client_map()[client_index];
                    let after = final(self).client_map()[client_index];
                    &&& old(self).client_map().contains_key(client_index)
                    &&& first == !before.spec_should_remove()
                    &&& after.spec_should_remove()
                    &&& after.spec_id() == before.spec_id()
                    &&& after.spec_buffer() == before.spec_buffer()
                    &&& after.spec_is_blocking_read() == before.spec_is_blocking_read()
                    &&& after.spec_data() == before.spec_data()
                },
            },
    {
        let mut client = match self.clients.remove(&client_index) {
            Some(c) => c,
            None => {
                proof {
                    assert(self.clients@ =~= old(self).clients@);
                }
                return None;
            },
        };
        let first = client.mark_to_remove();
        self.clients.insert(client_index, client);
        proof {
            assert(slot_entries(self.slots).dom() =~= self.clients@.dom().union(self.reserved@));
        }
        Some(first)
    }

    /// Applies the outcome of one read from the stream of a registered client:
    /// bytes are counted (saturating) and their complete messages appended to
    /// `read`. No bytes (the peer disconnected), a reset connection, or bytes
    /// that cannot be decoded or split into messages mark the client for
    /// removal and drop the read; other errors finish it.
    pub fn apply_read_event(
        &mut self,
        client_index: usize,
        read: &mut ClientRead,
        event: ReadEvent,
    ) -> (step: ReadStep)
        requires
            old(self).wf(),
            old(self).client_map().contains_key(client_index),
        ensures
            final(self).wf(),
            old(self).same_but_client(final(self), client_index),
            match event {
                ReadEvent::Received(bytes) => {
                    &&& final(read).spec_bytes_read() == (if old(read).spec_bytes_read() + bytes@.len()
                        > usize::MAX {
                        usize::MAX as int
                    } else {
                        old(read).spec_bytes_read() + bytes@.len()
                    })
                    &&& if bytes@.len() == 0 {
                        &&& step == ReadStep::Dropped
                        &&& final(read).spec_messages() == old(read).spec_messages()
                        &&& old(self).client_map()[client_index].marked_as(
                            &final(self).client_map()[client_index],
                        )
                    } else {
                        match spec_received_text(bytes@) {
                            None => {
                                &&& step == ReadStep::Unprocessable
                                &&& final(read).spec_messages() == old(read).spec_messages()
                                &&& old(self).client_map()[client_index].marked_as(
                                    &final(self).client_map()[client_index],
                                )
                            },
                            Some(text) => match spec_split_client_input(
                                old(self).client_map()[client_index].spec_buffer(),
                                text,
                                old(self).spec_endmark().marker(),
                                old(self).spec_endmark().escape_marker(),
                            ) {
                                None => {
                                    &&& step == ReadStep::Unprocessable
                                    &&& final(read).spec_messages() == old(read).spec_messages()
                                    &&& old(self).client_map()[client_index].marked_as(
                                        &final(self).client_map()[client_index],
                                    )
                                },
                                Some((ms, rest)) => {
                                    &&& step == ReadStep::Continue
                                    &&& final(read).spec_messages() == old(read).spec_messages()
                                        + ms
                                    &&& old(self).client_map()[client_index].same_but_buffer(
                                        &final(self).client_map()[client_index],
                                    )
                                    &&& final(self).client_map()[client_index].spec_buffer()
                                        == rest
                                },
                            },
                        }
                    }
                },
                ReadEvent::ConnectionReset => {
                    &&& step == ReadStep::Dropped
                    &&& *final(read) == *old(read)
                    &&& old(self).client_map()[client_index].marked_as(
                        &final(self).client_map()[client_index],
                    )
                },
                _ => {
                    &&& step == ReadStep::Finished
                    &&& *final(read) == *old(read)
                    &&& final(self).client_map() == old(self).client_map()
                },
            },
    {
        match event {
            ReadEvent::Received(bytes) => {
                let n = bytes.len();
                read.add_bytes(n);
                if n == 0 {
                    self.mark_client_to_remove(client_index);
                    return ReadStep::Dropped;
                }
                let text = match received_text(&bytes) {
                    Some(t) => t,
                    None => {
                        self.mark_client_to_remove(client_index);
                        return ReadStep::Unprocessable;
                    },
                };
                match self.read_client_input(client_index, &text) {
                    Some(messages) => {
                        read.push_messages(&messages);
                        ReadStep::Continue
                    },
                    None => {
                        self.mark_client_to_remove(client_index);
                        ReadStep::Unprocessable
                    },
                }
            },
            ReadEvent::ConnectionReset => {
                self.mark_client_to_remove(client_index);
                ReadStep::Dropped
            },
            _ => ReadStep::Finished,
        }
    }
}


impl<ServerData, ClientData> InnerSimpleServer<ServerData, ClientData> {
    /// Whether a read of all clients reads this one: registered and not
    /// marked for removal; when blocking clients are skipped, also reads from
    /// it must not block.
    pub open spec fn is_polled(&self, k: usize, skip_blocking_clients: bool) -> bool {
        &&& self.client_map().contains_key(k)
        &&& !self.client_map()[k].spec_should_remove()
        &&& skip_blocking_clients ==> !self.client_map()[k].spec_is_blocking_read()
    }

    /// Whether client `k` is listed: registered, and unless `all`, polled.
    pub open spec fn is_listed(&self, k: usize, all: bool, skip_blocking_clients: bool) -> bool {
        if all {
            self.client_map().contains_key(k)
        } else {
            self.is_polled(k, skip_blocking_clients)
        }
    }

    /// The listed clients' ids, in increasing order.
    fn listed_ids(&self, all: bool, skip_blocking_clients: bool) -> (r: Vec<usize>)
        requires
            self.wf(),
        ensures
            forall|k: usize| r@.contains(k) <==> self.is_listed(k, all, skip_blocking_clients),
            forall|a: int, b: int| 0 <= a < b < r@.len() ==> r@[a] < r@[b],
    {
        let mut out: Vec<usize> = Vec::new();
        let next = slots_next_index(&self.slots);
        let mut id: usize = 0;
        while id < next
            invariant
                self.wf(),
                next == self.next_id(),
                id <= next,
                forall|a: int, b: int| 0 <= a < b < out@.len() ==> out@[a] < out@[b],
                forall|a: int| 0 <= a < out@.len() ==> out@[a] < id,
                forall|k: usize|
                    k < id ==> (out@.contains(k) <==> self.is_listed(k, all, skip_blocking_clients)),
                forall|k: usize| out@.contains(k) ==> k < id,
            decreases next - id,
        {
            let ghost prev = out@;
            match self.clients.get(&id) {
                Some(c) => {
                    if all || (!c.should_remove && !(skip_blocking_clients && c.is_blocking_read)) {
                        out.push(id);
                    }
                },
                None => {},
            }
            proof {
                assert forall|k: usize| k < id + 1 implies (out@.contains(k) <==> self.is_listed(
                    k,
                    all,
                    skip_blocking_clients,
                )) by {
                    if out@ != prev {
                        assert(out@ == prev.push(id));
                        if k < id {
                            if prev.contains(k) {
                                let j = choose|j: int| 0 <= j < prev.len() && prev[j] == k;
                                assert(out@[j] == k);
                            }
                            if out@.contains(k) {
                                let j = choose|j: int| 0 <= j < out@.len() && out@[j] == k;
                                if j == prev.len() {
                                    assert(out@[j] == id);
                                } else {
                                    assert(prev[j] == k);
                                }
                            }
                        } else {
                            assert(out@[prev.len() as int] == id);
                        }
                    }
                }
                assert forall|k: usize| out@.contains(k) implies k < id + 1 by {
                    if out@ != prev {
                        let j = choose|j: int| 0 <= j < out@.len() && out@[j] == k;
                        if j < prev.len() {
                            assert(prev[j] == k);
                        }
                    }
                }
            }
            id += 1;
        }
        proof {
            assert forall|k: usize| self.is_listed(k, all, skip_blocking_clients) implies k < id by {
                assert(slot_entries(self.slots).contains_key(k));
            }
        }
        out
    }

    /// The ids of the clients a read of all clients reads, in increasing
    /// order: every registered client not marked for removal, leaving out
    /// those whose reads block when `skip_blocking_clients`; none at all when
    /// the listener blocks and blocking clients are skipped.
    pub fn readable_clients(&self, skip_blocking_clients: bool) -> (r: Vec<usize>)
        requires
            self.wf(),
        ensures
            self.spec_is_blocking() && skip_blocking_clients ==> r@.len() == 0,
            !(self.spec_is_blocking() && skip_blocking_clients) ==> {
                &&& forall|k: usize| r@.contains(k) <==> self.is_polled(k, skip_blocking_clients)
                &&& forall|a: int, b: int| 0 <= a < b < r@.len() ==> r@[a] < r@[b]
            },
    {
        if self.is_blocking && skip_blocking_clients {
            return Vec::new();
        }
        self.listed_ids(false, skip_blocking_clients)
    }

    /// The ids of all registered clients, in increasing order.
    pub fn client_ids(&self) -> (r: Vec<usize>)
        requires
            self.wf(),
        ensures
            forall|k: usize| r@.contains(k) <==> self.client_map().contains_key(k),
            forall|a: int, b: int| 0 <= a < b < r@.len() ==> r@[a] < r@[b],
    {
        self.listed_ids(true, false)
    }
}


impl<ServerData, ClientData> InnerSimpleServer<ServerData, ClientData> {
    /// The text to write to client `client` for `message`: the message
    /// framed with this server's endmark, or `None` when no such client is
    /// registered.
    pub fn outgoing_message(&self, client: usize, message: &str) -> (r: Option<String>)
        requires
            self.wf(),
        ensures
            r is Some <==> self.client_map().contains_key(client),
            r matches Some(text) ==> text@ == replace_all(
                message@,
                self.spec_endmark().marker(),
                self.spec_endmark().escape_marker(),
            ) + self.spec_endmark().marker(),
    {
        if !self.contains_client(client) {
            return None;
        }
        Some(self.endmark.prepare_message(message))
    }
}

/// The id the next accepted client gets is above the id of every registered
/// client, so admitting a client never reuses the id of one that is
/// registered.
pub proof fn law_next_id_is_fresh<ServerData, ClientData>(
    server: InnerSimpleServer<ServerData, ClientData>,
    client_index: usize,
)
    requires
        server.wf(),
        server.client_map().contains_key(client_index),
    ensures
        client_index < server.next_id(),
{
    assert(slot_entries(server.slots).contains_key(client_index));
}

} // verus!
