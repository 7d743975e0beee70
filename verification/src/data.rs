//! The plain values the rewriting engine works on: object ids, timestamps,
//! identities, and the source commits handed in by the caller.

use vstd::prelude::*;

verus! {

/// A fixed-size content hash naming one object in a store. The twenty bytes
/// of the hash are held as three machine integers so that ids compare
/// structurally and can serve as keys.
#[derive(Clone, Copy, PartialEq, Eq, Structural, Debug, Hash)]
pub struct Oid {
    pub hi: u64,
    pub mid: u64,
    pub lo: u32,
}

/// An instant together with its UTC offset, exactly as a commit records it.
/// Redaction never alters it.
#[derive(Clone, Copy, PartialEq, Eq, Structural, Debug)]
pub struct Timestamp {
    pub seconds: i64,
    pub offset_minutes: i32,
}

/// Who authored or committed a change: the raw name and email bytes as the
/// source store holds them, plus the instant of the change.
#[derive(Debug)]
pub struct Identity {
    pub name: Vec<u8>,
    pub email: Vec<u8>,
    pub when: Timestamp,
}

/// The mathematical value of an [`Identity`].
pub ghost struct IdentityView {
    pub name: Seq<u8>,
    pub email: Seq<u8>,
    pub when: Timestamp,
}

impl View for Identity {
    type V = IdentityView;

    open spec fn view(&self) -> IdentityView {
        IdentityView { name: self.name@, email: self.email@, when: self.when }
    }
}

/// One commit as read from the source store: its id, its parent ids in their
/// original order (the order is significant and is preserved), and the two
/// identities. Tree and message are not carried: the rewrite discards both.
#[derive(Debug)]
pub struct SourceCommit {
    pub id: Oid,
    pub parents: Vec<Oid>,
    pub author: Identity,
    pub committer: Identity,
}

/// An exact byte-for-byte copy of a byte vector.
pub fn copy_bytes(v: &Vec<u8>) -> (r: Vec<u8>)
    ensures
        r@ == v@,
{
    let mut r: Vec<u8> = Vec::new();
    let mut i: usize = 0;
    while i < v.len()
        invariant
            i <= v@.len(),
            r@ == v@.take(i as int),
        decreases v@.len() - i,
    {
        r.push(v[i]);
        proof {
            assert(v@.take(i as int).push(v@[i as int]) =~= v@.take(i as int + 1));
        }
        i = i + 1;
    }
    proof {
        assert(v@.take(v@.len() as int) =~= v@);
    }
    r
}

impl Identity {
    /// A copy holding the same name, email and instant.
    pub fn duplicate(&self) -> (r: Identity)
        ensures
            r@ == self@,
    {
        Identity { name: copy_bytes(&self.name), email: copy_bytes(&self.email), when: self.when }
    }
}

} // verus!
