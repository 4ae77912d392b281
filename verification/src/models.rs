//! Shared data model: the key-value record produced by `Map` and consumed
//! by `Reduce`, and the messages of the coordinator's task interface.

use vstd::prelude::*;

verus! {

/// One record emitted by a `Map` call: both sides are text.
pub struct KeyValue {
    pub key: String,
    pub value: String,
}

impl View for KeyValue {
    type V = (Seq<char>, Seq<char>);

    open spec fn view(&self) -> (Seq<char>, Seq<char>) {
        (self.key@, self.value@)
    }
}

impl KeyValue {
    /// An explicit copy; field contents are preserved.
    pub fn duplicate(&self) -> (r: KeyValue)
        ensures
            r@ == self@,
    {
        KeyValue { key: self.key.clone(), value: self.value.clone() }
    }
}

/// The view of a list of records: the sequence of (key, value) pairs.
pub open spec fn kvs_view(v: Seq<KeyValue>) -> Seq<(Seq<char>, Seq<char>)> {
    v.map_values(|kv: KeyValue| kv@)
}

/// An explicit element-wise copy of a list of strings.
pub fn clone_strings(v: &Vec<String>) -> (r: Vec<String>)
    ensures
        r.deep_view() == v.deep_view(),
{
    let mut r: Vec<String> = Vec::new();
    let mut i: usize = 0;
    while i < v.len()
        invariant
            i <= v@.len(),
            r@.len() == i,
            forall|j: int| 0 <= j < i ==> r@[j]@ == #[trigger] v@[j]@,
        decreases v@.len() - i,
    {
        r.push(v[i].clone());
        i += 1;
    }
    proof {
        assert(r.deep_view() =~= v.deep_view());
    }
    r
}

} // verus!
