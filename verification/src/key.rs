//! Cache keys.
use vstd::prelude::*;

use crate::text::copy_bytes;

verus! {

/// What a key is: the namespace it lives in, empty for the default one, and
/// its name there.
#[verifier::ext_equal]
pub struct KeyView {
    pub namespace: Seq<u8>,
    pub name: Seq<u8>,
}

/// A key: a name in a namespace.
#[derive(Debug, PartialEq, Eq)]
pub struct Key {
    pub namespace: Vec<u8>,
    pub name: Vec<u8>,
}

impl View for Key {
    type V = KeyView;

    open spec fn view(&self) -> KeyView {
        KeyView { namespace: self.namespace@, name: self.name@ }
    }
}

/// The views of a list of keys.
pub open spec fn key_views(keys: Seq<Key>) -> Seq<KeyView> {
    keys.map_values(|key: Key| key@)
}

impl Key {
    pub fn new(namespace: Vec<u8>, name: Vec<u8>) -> (key: Key)
        ensures
            key@ == (KeyView { namespace: namespace@, name: name@ }),
    {
        Key { namespace, name }
    }

    /// A key of the default namespace.
    pub fn unnamespaced(name: Vec<u8>) -> (key: Key)
        ensures
            key@ == (KeyView { namespace: Seq::empty(), name: name@ }),
    {
        Key { namespace: Vec::new(), name }
    }

    pub fn is_namespaced(&self) -> (namespaced: bool)
        ensures
            namespaced == (self@.namespace.len() > 0),
    {
        self.namespace.len() > 0
    }
}

impl Clone for Key {
    fn clone(&self) -> (copy: Key)
        ensures
            copy@ == self@,
    {
        Key {
            namespace: copy_bytes(self.namespace.as_slice()),
            name: copy_bytes(self.name.as_slice()),
        }
    }
}

/// A copy of a list of keys.
pub fn copy_keys(keys: &Vec<Key>) -> (copy: Vec<Key>)
    ensures
        key_views(copy@) == key_views(keys@),
{
    let mut copy: Vec<Key> = Vec::new();
    let mut index: usize = 0;
    while index < keys.len()
        invariant
            index <= keys.len(),
            copy.len() == index,
            forall|i: int| 0 <= i < index ==> (#[trigger] copy@[i])@ == keys@[i]@,
        decreases keys.len() - index,
    {
        copy.push(keys[index].clone());
        index += 1;
    }
    assert(key_views(copy@) =~= key_views(keys@));
    copy
}

/// A list of keys is viewed key by key, each with its namespace and its name, in
/// order.
pub proof fn law_keys_are_viewed_in_order(keys: Seq<Key>, index: int)
    requires
        0 <= index < keys.len(),
    ensures
        key_views(keys).len() == keys.len(),
        key_views(keys)[index].namespace == keys[index].namespace@,
        key_views(keys)[index].name == keys[index].name@,
{
}

} // verus!
