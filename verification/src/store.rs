//! The object store: compressed object files, each under its address.

use crate::bytes::{bytes_eq, lemma_position_of_push, lemma_position_of_unique, position_of};
use crate::text::{text_bytes, text_from_bytes};
use vstd::prelude::*;
use vstd::string::*;
use vstd::utf8::*;

verus! {

/// One stored object file.
#[derive(Debug, Clone)]
pub struct StoredObject {
    /// The address that the file is stored under.
    pub address: String,
    /// The file's bytes: the compressed object.
    pub data: Vec<u8>,
}

impl StoredObject {
    /// The bytes of the address.
    pub open spec fn key(&self) -> Seq<u8> {
        encode_utf8(self.address@)
    }
}

/// The files of an object store. Where an address occurs twice, the first
/// file is the one that counts.
#[derive(Debug, Clone)]
pub struct ObjectStore {
    /// The stored files, in the order in which they were added.
    pub objects: Vec<StoredObject>,
}

impl View for ObjectStore {
    type V = Map<Seq<u8>, Seq<u8>>;

    /// From each stored address to the bytes of its file.
    open spec fn view(&self) -> Map<Seq<u8>, Seq<u8>> {
        Map::new(
            |a: Seq<u8>| position_of(self.keys(), a) < self.objects@.len(),
            |a: Seq<u8>| self.objects@[position_of(self.keys(), a)].data@,
        )
    }
}

impl ObjectStore {
    /// The addresses of the files, in order.
    pub open spec fn keys(&self) -> Seq<Seq<u8>> {
        Seq::new(self.objects@.len(), |i: int| self.objects@[i].key())
    }

    /// A store without objects: it holds no file, so no address is stored.
    pub fn new() -> (store: Self)
        ensures
            store.objects@ == Seq::<StoredObject>::empty(),
            store@ == Map::<Seq<u8>, Seq<u8>>::empty(),
    {
        let store = ObjectStore { objects: Vec::new() };
        assert(store@ =~= Map::<Seq<u8>, Seq<u8>>::empty());
        store
    }

    /// Where the file for `address` stands, or the number of files if there is none.
    pub fn position(&self, address: &str) -> (at: usize)
        ensures
            at == position_of(self.keys(), address.spec_bytes()),
            at <= self.objects@.len(),
    {
        let wanted = address.as_bytes();
        let mut at: usize = 0;
        while at < self.objects.len()
            invariant
                at <= self.objects@.len(),
                wanted@ == address.spec_bytes(),
                forall|i: int| 0 <= i < at ==> self.keys()[i] != wanted@,
            decreases self.objects@.len() - at,
        {
            if bytes_eq(self.objects[at].address.as_str().as_bytes(), wanted) {
                proof {
                    lemma_position_of_unique(self.keys(), wanted@, at as int);
                }
                return at;
            }
            at += 1;
        }
        proof {
            lemma_position_of_unique(self.keys(), wanted@, at as int);
        }
        at
    }

    /// Whether an object is stored under `address`.
    pub fn contains(&self, address: &str) -> (present: bool)
        ensures
            present == self@.contains_key(address.spec_bytes()),
    {
        self.position(address) < self.objects.len()
    }

    /// The stored file for `address`, as it is.
    pub fn raw(&self, address: &str) -> (data: Option<&Vec<u8>>)
        ensures
            match data {
                Some(d) => self@.contains_key(address.spec_bytes()) && d@ == self@[address.spec_bytes()],
                None => !self@.contains_key(address.spec_bytes()),
            },
    {
        let at = self.position(address);
        if at < self.objects.len() {
            Some(&self.objects[at].data)
        } else {
            None
        }
    }

    /// Adds the file `data` under `address` unless a file is there already:
    /// a stored object is never replaced.
    pub fn insert_raw(&mut self, address: String, data: Vec<u8>)
        ensures
            final(self)@ == if old(self)@.contains_key(encode_utf8(address@)) {
                old(self)@
            } else {
                old(self)@.insert(encode_utf8(address@), data@)
            },
    {
        let at = self.position(address.as_str());
        if at == self.objects.len() {
            let ghost key = encode_utf8(address@);
            let ghost before = *self;
            self.objects.push(StoredObject { address, data });
            proof {
                let after = *self;
                assert(after.keys() =~= before.keys().push(key));
                assert forall|a: Seq<u8>| #[trigger]
                    after@.dom().contains(a) == before@.insert(key, data@).dom().contains(a) by {
                    lemma_position_of_push(before.keys(), key, a);
                }
                assert forall|a: Seq<u8>| after@.dom().contains(a) implies #[trigger] after@[a]
                    == before@.insert(key, data@)[a] by {
                    lemma_position_of_push(before.keys(), key, a);
                    let at = position_of(before.keys(), a);
                    if at < before.objects@.len() {
                        assert(after.objects@[at] == before.objects@[at]);
                    } else {
                        assert(after.objects@[before.objects@.len() as int].data@ == data@);
                    }
                }
                assert(after@ =~= before@.insert(key, data@));
            }
        }
    }
}

/// The directory and the file that an object is kept in on disk: the first
/// two bytes of its address name the directory, the others the file.
pub open spec fn object_place(address: Seq<u8>) -> Option<(Seq<u8>, Seq<u8>)> {
    if address.len() < 4 {
        None
    } else {
        Some((text_bytes(address.take(2)), text_bytes(address.skip(2))))
    }
}

/// The directory and the file that the object at `address` is kept in;
/// `None` for an address of less than four bytes, under which nothing is
/// looked up.
pub fn object_file(address: &str) -> (place: Option<(String, String)>)
    ensures
        match place {
            Some((dir, file)) => object_place(address.spec_bytes()) == Some(
                (encode_utf8(dir@), encode_utf8(file@)),
            ),
            None => object_place(address.spec_bytes()) is None,
        },
{
    let data = address.as_bytes();
    if data.len() < 4 {
        return None;
    }
    assert(data@.subrange(0, 2) =~= data@.take(2));
    assert(data@.subrange(2, data.len() as int) =~= data@.skip(2));
    Some((text_from_bytes(&data[0..2]), text_from_bytes(&data[2..data.len()])))
}

} // verus!
