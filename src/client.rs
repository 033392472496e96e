//! The network client as this library sees it: a content-addressed store of
//! immutable data, an in-memory implementation, and the chunk adapter that
//! checks every fetched chunk against its address.
use crate::error::{bytes_result, outcome, CoreError};
use crate::idata::{content_name, ImmutableData};
use vstd::prelude::*;
use vstd::slice::slice_to_vec;

verus! {

/// The store after putting `value` under `name`: the first value stored under
/// a name stays.
pub open spec fn store_put(st: Map<Seq<u8>, Seq<u8>>, name: Seq<u8>, value: Seq<u8>) -> Map<
    Seq<u8>,
    Seq<u8>,
> {
    if st.contains_key(name) {
        st
    } else {
        st.insert(name, value)
    }
}

/// The store after putting each of `chunks` in turn.
pub open spec fn store_put_all(st: Map<Seq<u8>, Seq<u8>>, chunks: Seq<Seq<u8>>) -> Map<
    Seq<u8>,
    Seq<u8>,
>
    decreases chunks.len(),
{
    if chunks.len() == 0 {
        st
    } else {
        store_put(
            store_put_all(st, chunks.drop_last()),
            content_name(chunks.last()),
            chunks.last(),
        )
    }
}

/// Whether the store `after` still holds everything `before` held: a store
/// only ever grows.
pub open spec fn grows(before: Map<Seq<u8>, Seq<u8>>, after: Map<Seq<u8>, Seq<u8>>) -> bool {
    forall|k: Seq<u8>|
        #[trigger] before.contains_key(k) ==> after.contains_key(k) && after[k] == before[k]
}

pub proof fn lemma_put_all_grows(st: Map<Seq<u8>, Seq<u8>>, cs: Seq<Seq<u8>>)
    ensures
        grows(st, store_put_all(st, cs)),
    decreases cs.len(),
{
    if cs.len() > 0 {
        lemma_put_all_grows(st, cs.drop_last());
    }
}

/// What fetching the chunk at `name` from a store holding `st` gives.
pub open spec fn fetch_spec(st: Map<Seq<u8>, Seq<u8>>, name: Seq<u8>) -> Result<
    Seq<u8>,
    CoreError,
> {
    if !st.contains_key(name) {
        Err(CoreError::ChunkNotFound)
    } else if content_name(st[name]) != name {
        Err(CoreError::ChunkCorrupt)
    } else {
        Ok(st[name])
    }
}

/// A handle on the network's immutable data store.
pub trait Client {
    /// What the store holds: each address with its payload.
    spec fn stored(&self) -> Map<Seq<u8>, Seq<u8>>;

    /// Whether the handle never fails at the transport layer.
    spec fn infallible(&self) -> bool;

    /// The handle's own consistency.
    spec fn inv(&self) -> bool;

    /// Stores `data` under its name; a name already present keeps its payload.
    fn put_idata(&mut self, data: ImmutableData) -> (r: Result<(), CoreError>)
        requires
            old(self).inv(),
        ensures
            final(self).inv(),
            final(self).infallible() == old(self).infallible(),
            r is Ok ==> final(self).stored() == store_put(
                old(self).stored(),
                content_name(data@),
                data@,
            ),
            r is Err ==> final(self).stored() == old(self).stored(),
            outcome(r, Ok(()), old(self).infallible()),
    ;

    /// Fetches the data stored under `name`.
    fn get_idata(&self, name: &Vec<u8>) -> (r: Result<ImmutableData, CoreError>)
        requires
            self.inv(),
        ensures
            match r {
                Ok(d) => self.stored().contains_key(name@) && d@ == self.stored()[name@],
                Err(e) => (e == CoreError::NetworkUnavailable && !self.infallible()) || (e
                    == CoreError::ChunkNotFound && !self.stored().contains_key(name@)),
            },
    ;
}

/// Whether two byte strings are equal.
pub fn bytes_equal(a: &[u8], b: &[u8]) -> (r: bool)
    ensures
        r == (a@ == b@),
{
    if a.len() != b.len() {
        return false;
    }
    let mut i: usize = 0;
    while i < a.len()
        invariant
            a@.len() == b@.len(),
            i <= a@.len(),
            forall|j: int| 0 <= j < i ==> a@[j] == b@[j],
        decreases a@.len() - i,
    {
        if a[i] != b[i] {
            return false;
        }
        i = i + 1;
    }
    assert(a@ =~= b@);
    true
}

/// A store held in memory, as a test network, which can be cut off to
/// simulate a lost connection.
pub struct MemoryClient {
    entries: Vec<ImmutableData>,
    contents: Ghost<Map<Seq<u8>, Seq<u8>>>,
    offline: bool,
}

impl MemoryClient {
    /// An empty store.
    pub fn new() -> (r: Self)
        ensures
            r.inv(),
            r.stored() == Map::<Seq<u8>, Seq<u8>>::empty(),
            r.infallible(),
    {
        MemoryClient { entries: Vec::new(), contents: Ghost(Map::empty()), offline: false }
    }

    /// Cuts the connection (`true`) or restores it (`false`); what is stored stays.
    pub fn simulate_network_disconnect(&mut self, offline: bool)
        requires
            old(self).inv(),
        ensures
            final(self).inv(),
            final(self).stored() == old(self).stored(),
            final(self).infallible() == !offline,
    {
        proof {
            assert(self.inv());
        }
        let ghost entries = self.entries@;
        self.offline = offline;
        assert(self.entries@ == entries);
    }

    /// The index of the entry named `name`, if any.
    fn find(&self, name: &Vec<u8>) -> (r: Option<usize>)
        requires
            self.inv(),
        ensures
            match r {
                Some(i) => i < self.entries@.len() && content_name(self.entries@[i as int]@)
                    == name@,
                None => !self.stored().contains_key(name@),
            },
    {
        let mut i: usize = 0;
        while i < self.entries.len()
            invariant
                self.inv(),
                i <= self.entries@.len(),
                forall|j: int| 0 <= j < i ==> content_name(#[trigger] self.entries@[j]@) != name@,
            decreases self.entries@.len() - i,
        {
            if bytes_equal(self.entries[i].name().as_slice(), name.as_slice()) {
                return Some(i);
            }
            i = i + 1;
        }
        None
    }

    /// The number of objects held.
    pub fn len(&self) -> (r: usize)
        requires
            self.inv(),
        ensures
            r == self.stored().len(),
    {
        proof {
            self.lemma_len();
        }
        self.entries.len()
    }

    proof fn lemma_len(&self)
        requires
            self.inv(),
        ensures
            self.entries@.len() == self.stored().len(),
    {
        let names = self.entries@.map_values(|d: ImmutableData| content_name(d@));
        assert(names.no_duplicates()) by {
            assert forall|i: int, j: int|
                0 <= i < names.len() && 0 <= j < names.len() && i != j implies names[i]
                != names[j] by {
                assert(names[i] == content_name(self.entries@[i]@));
            }
        }
        assert(names.to_set() =~= self.stored().dom()) by {
            assert forall|k: Seq<u8>| self.stored().dom().contains(k) implies names.to_set().contains(k) by {
                let i = choose|i: int| 0 <= i < self.entries@.len() && content_name(#[trigger] self.entries@[i]@) == k;
                assert(names[i] == k);
            }
        }
        names.unique_seq_to_set();
    }
}

impl Client for MemoryClient {
    closed spec fn stored(&self) -> Map<Seq<u8>, Seq<u8>> {
        self.contents@
    }

    closed spec fn infallible(&self) -> bool {
        !self.offline
    }

    closed spec fn inv(&self) -> bool {
        &&& forall|i: int|
            0 <= i < self.entries@.len() ==> {
                &&& self.contents@.contains_key(content_name(#[trigger] self.entries@[i]@))
                &&& self.contents@[content_name(self.entries@[i]@)] == self.entries@[i]@
            }
        &&& forall|k: Seq<u8>|
            self.contents@.contains_key(k) ==> exists|i: int|
                0 <= i < self.entries@.len() && content_name(#[trigger] self.entries@[i]@) == k
        &&& forall|i: int, j: int|
            0 <= i < j < self.entries@.len() ==> content_name(#[trigger] self.entries@[i]@)
                != content_name(#[trigger] self.entries@[j]@)
    }

    fn put_idata(&mut self, data: ImmutableData) -> (r: Result<(), CoreError>) {
        if self.offline {
            return Err(CoreError::NetworkUnavailable);
        }
        let name = slice_to_vec(data.name().as_slice());
        match self.find(&name) {
            Some(_) => {},
            None => {
                let ghost old_entries = self.entries@;
                self.entries.push(data);
                self.contents = Ghost(self.contents@.insert(name@, data@));
                proof {
                    let n = self.entries@.len() - 1;
                    assert forall|k: Seq<u8>| self.contents@.contains_key(k) implies exists|i: int|
                        0 <= i < self.entries@.len() && content_name(#[trigger] self.entries@[i]@)
                            == k by {
                        if k == name@ {
                            assert(content_name(self.entries@[n]@) == k);
                        } else {
                            let i = choose|i: int| 0 <= i < old_entries.len() && content_name(#[trigger] old_entries[i]@) == k;
                            assert(self.entries@[i] == old_entries[i]);
                        }
                    }
                    assert forall|i: int, j: int|
                        0 <= i < j < self.entries@.len() implies content_name(#[trigger] self.entries@[i]@)
                            != content_name(#[trigger] self.entries@[j]@) by {
                        if j == n {
                            assert(self.entries@[i] == old_entries[i]);
                        } else {
                            assert(self.entries@[i] == old_entries[i]);
                            assert(self.entries@[j] == old_entries[j]);
                        }
                    }
                    assert forall|i: int| 0 <= i < self.entries@.len() implies {
                        &&& self.contents@.contains_key(content_name(#[trigger] self.entries@[i]@))
                        &&& self.contents@[content_name(self.entries@[i]@)] == self.entries@[i]@
                    } by {
                        if i < n {
                            assert(self.entries@[i] == old_entries[i]);
                        }
                    }
                }
            },
        }
        Ok(())
    }

    fn get_idata(&self, name: &Vec<u8>) -> (r: Result<ImmutableData, CoreError>) {
        if self.offline {
            return Err(CoreError::NetworkUnavailable);
        }
        match self.find(name) {
            Some(i) => {
                let value = slice_to_vec(self.entries[i].value().as_slice());
                Ok(ImmutableData::new(value))
            },
            None => Err(CoreError::ChunkNotFound),
        }
    }
}

/// Stores `chunk` as immutable data and returns its address.
pub fn put_chunk<C: Client>(client: &mut C, chunk: Vec<u8>) -> (r: Result<Vec<u8>, CoreError>)
    requires
        old(client).inv(),
    ensures
        final(client).inv(),
        final(client).infallible() == old(client).infallible(),
        outcome(bytes_result(r), Ok(content_name(chunk@)), old(client).infallible()),
        r is Ok ==> r->Ok_0@.len() == 32,
        r is Ok ==> final(client).stored() == store_put(
            old(client).stored(),
            content_name(chunk@),
            chunk@,
        ),
        r is Err ==> final(client).stored() == old(client).stored(),
        grows(old(client).stored(), final(client).stored()),
{
    let data = ImmutableData::new(chunk);
    let name = slice_to_vec(data.name().as_slice());
    match client.put_idata(data) {
        Ok(()) => Ok(name),
        Err(e) => Err(e),
    }
}

/// Fetches the chunk at `name`, failing when it is absent or does not hash
/// to its address.
pub fn get_chunk<C: Client>(client: &C, name: &Vec<u8>) -> (r: Result<Vec<u8>, CoreError>)
    requires
        client.inv(),
    ensures
        outcome(bytes_result(r), fetch_spec(client.stored(), name@), client.infallible()),
{
    match client.get_idata(name) {
        Ok(d) => {
            if bytes_equal(d.name().as_slice(), name.as_slice()) {
                Ok(d.into_value())
            } else {
                Err(CoreError::ChunkCorrupt)
            }
        },
        Err(e) => Err(e),
    }
}

} // verus!
