//! The flat storage backend and the capability table, modelled as an injected
//! value so that the map engine is backend-agnostic and testable.
//!
//! The backend is a total mapping from 256-bit addresses to 32-byte cells:
//! every unwritten address reads as the all-zero cell.  A write must name a
//! capability; a write through a missing capability fails and changes nothing.

use vstd::prelude::*;

verus! {

use crate::bytes::Bytes32;
use crate::bytes::zero32;

/// A raw backend write failure.
#[derive(Debug)]
pub struct Error;

/// An authorization to write a storage region: a base location and a size in
/// bytes.
pub struct Capability {
    location: Bytes32,
    size: Bytes32,
}

impl Capability {
    pub closed spec fn wf(&self) -> bool {
        self.location.wf() && self.size.wf()
    }

    pub closed spec fn loc(&self) -> Seq<u8> {
        self.location@
    }

    pub closed spec fn size_view(&self) -> Seq<u8> {
        self.size@
    }

    pub fn new(location: Bytes32, size: Bytes32) -> (r: Capability)
        requires
            location.wf(),
            size.wf(),
        ensures
            r.wf(),
            r.loc() == location@,
            r.size_view() == size@,
    {
        Capability { location, size }
    }

    pub fn location(&self) -> (r: &Bytes32)
        ensures
            r@ == self.loc(),
    {
        &self.location
    }

    pub fn size(&self) -> (r: &Bytes32)
        ensures
            r@ == self.size_view(),
    {
        &self.size
    }
}

/// The content of the cell at address `a`: the last write to `a`, or the zero
/// cell if `a` was never written.
pub open spec fn lookup(cells: Seq<(Bytes32, Bytes32)>, a: Seq<u8>) -> Seq<u8>
    decreases cells.len(),
{
    if cells.len() == 0 {
        zero32()
    } else if cells.last().0@ == a {
        cells.last().1@
    } else {
        lookup(cells.drop_last(), a)
    }
}

pub proof fn lemma_lookup_wf(cells: Seq<(Bytes32, Bytes32)>, a: Seq<u8>)
    requires
        forall|i: int|
            0 <= i < cells.len() ==> (#[trigger] cells[i]).0.wf() && cells[i].1.wf(),
    ensures
        lookup(cells, a).len() == 32,
    decreases cells.len(),
{
    if cells.len() > 0 {
        if cells.last().0@ == a {
        } else {
            lemma_lookup_wf(cells.drop_last(), a);
        }
    }
}

/// The flat storage space together with the capability table of the calling
/// process.
pub struct Storage {
    cells: Vec<(Bytes32, Bytes32)>,
    caps: Vec<Capability>,
}

impl Storage {
    pub closed spec fn wf(&self) -> bool {
        &&& forall|i: int|
            0 <= i < self.cells@.len() ==> (#[trigger] self.cells@[i]).0.wf()
                && self.cells@[i].1.wf()
        &&& forall|i: int| 0 <= i < self.caps@.len() ==> (#[trigger] self.caps@[i]).wf()
    }

    /// The 32-byte content stored at address `a`.
    pub closed spec fn raw(&self, a: Seq<u8>) -> Seq<u8> {
        lookup(self.cells@, a)
    }

    pub closed spec fn caps_view(&self) -> Seq<Capability> {
        self.caps@
    }

    pub open spec fn has_cap(&self, i: int) -> bool {
        0 <= i < self.caps_view().len()
    }

    pub open spec fn cap_loc(&self, i: int) -> Seq<u8> {
        self.caps_view()[i].loc()
    }

    pub open spec fn cap_size(&self, i: int) -> Seq<u8> {
        self.caps_view()[i].size_view()
    }

    pub proof fn lemma_raw_wf(&self, a: Seq<u8>)
        requires
            self.wf(),
        ensures
            self.raw(a).len() == 32,
    {
        lemma_lookup_wf(self.cells@, a);
    }

    /// An empty backend: every address reads as zero, no capability exists.
    pub fn new() -> (r: Storage)
        ensures
            r.wf(),
            forall|a: Seq<u8>| #[trigger] r.raw(a) == zero32(),
            r.caps_view() == Seq::<Capability>::empty(),
    {
        let r = Storage { cells: Vec::new(), caps: Vec::new() };
        proof {
            assert(r.caps@ =~= Seq::<Capability>::empty());
        }
        r
    }

    /// Register one more capability; its index is returned.
    pub fn add_cap(&mut self, c: Capability) -> (r: u8)
        requires
            old(self).wf(),
            c.wf(),
            old(self).caps_view().len() < 256,
        ensures
            final(self).wf(),
            r as int == old(self).caps_view().len(),
            final(self).caps_view() == old(self).caps_view().push(c),
            forall|a: Seq<u8>| #[trigger] final(self).raw(a) == old(self).raw(a),
    {
        let r = self.caps.len() as u8;
        self.caps.push(c);
        r
    }

    /// Read the cell at `addr`.  Reads are total: no capability is needed and
    /// unwritten addresses read as zero.
    pub fn read(&self, addr: &Bytes32) -> (r: Bytes32)
        requires
            self.wf(),
            addr.wf(),
        ensures
            r.wf(),
            r@ == self.raw(addr@),
    {
        let mut i: usize = self.cells.len();
        proof {
            assert(self.cells@.take(i as int) =~= self.cells@);
        }
        while i > 0
            invariant
                i <= self.cells@.len(),
                self.wf(),
                addr.wf(),
                lookup(self.cells@, addr@) == lookup(self.cells@.take(i as int), addr@),
            decreases i,
        {
            i = i - 1;
            let hit = self.cells[i].0.eq_bytes(addr);
            proof {
                assert(self.cells@.take(i + 1).drop_last() =~= self.cells@.take(i as int));
                assert(self.cells@.take(i + 1).last() == self.cells@[i as int]);
            }
            if hit {
                let r = self.cells[i].1.clone();
                return r;
            }
        }
        proof {
            assert(self.cells@.take(0) =~= Seq::<(Bytes32, Bytes32)>::empty());
            self.lemma_raw_wf(addr@);
        }
        Bytes32::zero()
    }

    /// Write `value` at `addr` through capability `cap_index`.  The write
    /// fails, and the state is unchanged, iff no such capability exists.
    pub fn write(&mut self, cap_index: u8, addr: &Bytes32, value: &Bytes32) -> (r: Result<
        (),
        Error,
    >)
        requires
            old(self).wf(),
            addr.wf(),
            value.wf(),
        ensures
            final(self).wf(),
            final(self).caps_view() == old(self).caps_view(),
            match r {
                Ok(_) => {
                    &&& old(self).has_cap(cap_index as int)
                    &&& final(self).raw(addr@) == value@
                    &&& forall|a: Seq<u8>|
                        a != addr@ ==> #[trigger] final(self).raw(a) == old(self).raw(a)
                },
                Err(_) => {
                    &&& !old(self).has_cap(cap_index as int)
                    &&& forall|a: Seq<u8>| #[trigger] final(self).raw(a) == old(self).raw(a)
                },
            },
    {
        if (cap_index as usize) >= self.caps.len() {
            return Err(Error);
        }
        let entry = (addr.clone(), value.clone());
        self.cells.push(entry);
        proof {
            assert(self.cells@.drop_last() =~= old(self).cells@);
            assert(self.cells@.last() == entry);
        }
        Ok(())
    }

    /// Resolve a capability index to the authorized region, as a pair of the
    /// base location and the size.
    pub fn resolve_cap(&self, i: u8) -> (r: Option<(Bytes32, Bytes32)>)
        requires
            self.wf(),
        ensures
            match r {
                Some(ls) => {
                    &&& self.has_cap(i as int)
                    &&& ls.0.wf()
                    &&& ls.1.wf()
                    &&& ls.0@ == self.cap_loc(i as int)
                    &&& ls.1@ == self.cap_size(i as int)
                },
                None => !self.has_cap(i as int),
            },
    {
        if (i as usize) < self.caps.len() {
            let c = &self.caps[i as usize];
            Some((c.location().clone(), c.size().clone()))
        } else {
            None
        }
    }
}

} // verus!
