//! Errors of the fallible insertions.
use vstd::prelude::*;
use vstd::std_specs::cmp::PartialEqSpec;

verus! {

/// Why an insertion was refused. The rejected key and value are handed back,
/// so the caller never loses them.
#[derive(Debug, Eq)]
pub enum InsertError<K, V> {
    /// The key is already present in the queue.
    DuplicateKey { key: K, value: V },
    /// The anchor key is not present in the queue, so there was nothing to
    /// splice next to.
    AnchorMissing { key: K, value: V },
}

impl<K, V> InsertError<K, V> {
    /// The rejected pair, whatever the error.
    pub open spec fn rejected(self) -> (K, V) {
        match self {
            InsertError::DuplicateKey { key, value } => (key, value),
            InsertError::AnchorMissing { key, value } => (key, value),
        }
    }

    /// Recovers the rejected `(key, value)` pair, discarding the error kind.
    pub fn into_inner(self) -> (pair: (K, V))
        ensures
            pair == self.rejected(),
    {
        match self {
            InsertError::DuplicateKey { key, value } => (key, value),
            InsertError::AnchorMissing { key, value } => (key, value),
        }
    }

    /// The text of the message that describes the error.
    pub open spec fn message_text(self) -> Seq<char> {
        match self {
            InsertError::DuplicateKey { .. } => "key is already present in the queue"@,
            InsertError::AnchorMissing { .. } => "anchor key is not present in the queue"@,
        }
    }

    /// A sentence that describes the error.
    pub fn message(&self) -> (text: &'static str)
        ensures
            text@ == self.message_text(),
    {
        match self {
            InsertError::DuplicateKey { .. } => "key is already present in the queue",
            InsertError::AnchorMissing { .. } => "anchor key is not present in the queue",
        }
    }
}

impl<K: Clone, V: Clone> Clone for InsertError<K, V> {
    /// The same error, with clones of key and value.
    fn clone(&self) -> (twin: Self)
        ensures
            twin is DuplicateKey == self is DuplicateKey,
            vstd::pervasive::strictly_cloned(self.rejected().0, twin.rejected().0),
            vstd::pervasive::strictly_cloned(self.rejected().1, twin.rejected().1),
    {
        match self {
            InsertError::DuplicateKey { key, value } => InsertError::DuplicateKey {
                key: key.clone(),
                value: value.clone(),
            },
            InsertError::AnchorMissing { key, value } => InsertError::AnchorMissing {
                key: key.clone(),
                value: value.clone(),
            },
        }
    }
}

impl<K: PartialEq, V: PartialEq> PartialEq for InsertError<K, V> {
    /// Errors of the same kind are equal when key and value are.
    fn eq(&self, other: &Self) -> (equal: bool) {
        match (self, other) {
            (
                InsertError::DuplicateKey { key: k1, value: v1 },
                InsertError::DuplicateKey { key: k2, value: v2 },
            ) => *k1 == *k2 && *v1 == *v2,
            (
                InsertError::AnchorMissing { key: k1, value: v1 },
                InsertError::AnchorMissing { key: k2, value: v2 },
            ) => *k1 == *k2 && *v1 == *v2,
            _ => false,
        }
    }
}

impl<K: PartialEq, V: PartialEq> vstd::std_specs::cmp::PartialEqSpecImpl for InsertError<K, V> {
    open spec fn obeys_eq_spec() -> bool {
        K::obeys_eq_spec() && V::obeys_eq_spec()
    }

    open spec fn eq_spec(&self, other: &Self) -> bool {
        &&& self is DuplicateKey == other is DuplicateKey
        &&& self.rejected().0.eq_spec(&other.rejected().0)
        &&& self.rejected().1.eq_spec(&other.rejected().1)
    }
}

} // verus!
