//! A client connection: its buffers, whether it waits on a list, and its
//! subscriptions; and the slab that holds the connections.
use vstd::prelude::*;
use slab::Slab;

verus! {

/// The slab of the `slab` crate, a store whose keys stay stable, declared so
/// that the connections can be held in one.
#[verifier::external_type_specification]
#[verifier::external_body]
#[verifier::reject_recursive_types(T)]
pub struct ExSlab<T>(Slab<T>);

/// A client connection, without its socket, which the event loop keeps.
pub struct Connection {
    pub read_buffer: Vec<u8>,
    pub write_buffer: Vec<u8>,
    pub blocked: bool,
    pub block_key: Option<Vec<u8>>,
    pub block_deadline: Option<u128>,
    pub subscriptions: Vec<Vec<u8>>,
    pub is_pubsub: bool,
}

/// What a connection holds.
pub struct ConnView {
    pub read_buffer: Seq<u8>,
    pub write_buffer: Seq<u8>,
    pub blocked: bool,
    pub block_key: Option<Seq<u8>>,
    pub block_deadline: Option<u128>,
    pub subscriptions: Seq<Seq<u8>>,
    pub is_pubsub: bool,
}

impl View for Connection {
    type V = ConnView;

    open spec fn view(&self) -> ConnView {
        ConnView {
            read_buffer: self.read_buffer@,
            write_buffer: self.write_buffer@,
            blocked: self.blocked,
            block_key: match self.block_key {
                Some(k) => Some(k@),
                None => None,
            },
            block_deadline: self.block_deadline,
            subscriptions: self.subscriptions@.map_values(|v: Vec<u8>| v@),
            is_pubsub: self.is_pubsub,
        }
    }
}

/// The connections, each under the key one less than its token.
pub type ConnectionSlab = Slab<Connection>;

/// What the slab holds: the state of the connection under each occupied
/// key.
pub uninterp spec fn slab_connections(s: ConnectionSlab) -> Map<usize, ConnView>;

impl Connection {
    /// A connection with empty buffers, not waiting, with no subscription.
    pub fn new() -> (r: Self)
        ensures
            r@ == (ConnView {
                read_buffer: Seq::empty(),
                write_buffer: Seq::empty(),
                blocked: false,
                block_key: None,
                block_deadline: None,
                subscriptions: Seq::empty(),
                is_pubsub: false,
            }),
    {
        let r = Connection {
            read_buffer: Vec::new(),
            write_buffer: Vec::new(),
            blocked: false,
            block_key: None,
            block_deadline: None,
            subscriptions: Vec::new(),
            is_pubsub: false,
        };
        assert(r.subscriptions@.map_values(|v: Vec<u8>| v@) =~= Seq::<Seq<u8>>::empty());
        r
    }
}

/// `Slab::get`: the connection under `key`, where the slab holds one.
#[verifier::external_body]
pub(crate) fn connection_at(s: &ConnectionSlab, key: usize) -> (r: Option<&Connection>)
    ensures
        match r {
            Some(c) => slab_connections(*s).contains_key(key) && c@ == slab_connections(*s)[key],
            None => !slab_connections(*s).contains_key(key),
        },
{
    s.get(key)
}

/// `Slab::get_mut`: the connection under `key`, where the slab holds one,
/// to change in place; the slab then holds it as the caller leaves it, and
/// the other connections as they were.
#[verifier::external_body]
pub(crate) fn connection_mut(s: &mut ConnectionSlab, key: usize) -> (r: Option<&mut Connection>)
    ensures
        match r {
            Some(c) => {
                &&& slab_connections(*old(s)).contains_key(key)
                &&& c@ == slab_connections(*old(s))[key]
                &&& slab_connections(*final(s)) == slab_connections(*old(s)).insert(key, final(c)@)
            },
            None => {
                &&& !slab_connections(*old(s)).contains_key(key)
                &&& slab_connections(*final(s)) == slab_connections(*old(s))
            },
        },
{
    s.get_mut(key)
}

} // verus!
