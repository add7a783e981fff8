//! Handle-based heap for VM-managed objects: every object lives in a
//! vector and is referred to by an opaque [`Handle`] index.

use vstd::prelude::*;

use crate::text::decimal_string;

verus! {

/// Opaque handle into a [`Heap`].
#[derive(Debug, Clone, Copy, PartialEq, Eq, Structural, Hash)]
pub struct Handle(u32);

/// The handle of the object at `i` (`i <= u32::MAX`).
pub closed spec fn handle_of(i: nat) -> Handle {
    Handle(i as u32)
}

/// Handles are determined by their index.
pub proof fn lemma_handle_index(h: Handle, i: nat)
    requires
        i <= u32::MAX,
    ensures
        handle_of(i).index() == i,
        h.index() == i ==> h == handle_of(i),
        h.index() <= u32::MAX,
{
}

impl Handle {
    /// The index of the object this handle refers to.
    pub closed spec fn index(&self) -> nat {
        self.0 as nat
    }

    /// The placeholder text `obj#N` used when a handle is shown without
    /// its heap.
    pub fn render(&self) -> (s: String)
        ensures
            s@ == "obj#"@ + crate::text::decimal(self.index()),
    {
        let mut s = String::from_str("obj#");
        let d = decimal_string(self.0 as usize);
        s.append(d.as_str());
        s
    }
}

/// A heap-allocated VM object. Strings are the only kind so far.
#[derive(Debug, PartialEq, Eq)]
pub enum Obj {
    Str(String),
}

/// Mathematical view of an [`Obj`].
pub enum ObjV {
    Str(Seq<char>),
}

impl View for Obj {
    type V = ObjV;

    open spec fn view(&self) -> ObjV {
        match self {
            Obj::Str(s) => ObjV::Str(s@),
        }
    }
}

impl Clone for Obj {
    fn clone(&self) -> (r: Obj)
        ensures
            r == *self,
    {
        match self {
            Obj::Str(s) => Obj::Str(s.clone()),
        }
    }
}

/// The VM heap. Owns every object; allocation appends and never frees.
#[derive(Debug)]
pub struct Heap {
    objs: Vec<Obj>,
}

impl View for Heap {
    type V = Seq<ObjV>;

    /// The allocated objects, in allocation order.
    closed spec fn view(&self) -> Seq<ObjV> {
        self.objs@.map_values(|o: Obj| o@)
    }
}

impl Heap {
    /// Create an empty heap.
    pub fn new() -> (h: Heap)
        ensures
            h@ == Seq::<ObjV>::empty(),
    {
        let h = Heap { objs: Vec::new() };
        assert(h@ =~= Seq::<ObjV>::empty());
        h
    }

    /// Allocate a string object holding `s` and return its handle. Equal
    /// strings allocated twice get distinct handles.
    pub fn alloc_string(&mut self, s: &str) -> (h: Handle)
        requires
            old(self)@.len() <= u32::MAX,
        ensures
            final(self)@ == old(self)@.push(ObjV::Str(s@)),
            h.index() == old(self)@.len(),
            extends(final(self)@, old(self)@),
    {
        let idx = self.objs.len() as u32;
        let ghost before = self.objs@;
        self.objs.push(Obj::Str(s.to_owned()));
        assert(self@ =~= before.map_values(|o: Obj| o@).push(ObjV::Str(s@)));
        proof {
            lemma_allocation_keeps_objects(old(self)@, old(self)@, old(self)@, ObjV::Str(s@), 0);
        }
        Handle(idx)
    }

    /// The object `h` refers to.
    pub fn get(&self, h: Handle) -> (o: &Obj)
        requires
            h.index() < self@.len(),
        ensures
            o@ == self@[h.index() as int],
    {
        &self.objs[h.0 as usize]
    }

    /// The contents of the string object `h` refers to.
    pub fn as_str(&self, h: Handle) -> (r: Option<&str>)
        requires
            h.index() < self@.len(),
        ensures
            r matches Some(s) && ObjV::Str(s@) == self@[h.index() as int],
    {
        match self.get(h) {
            Obj::Str(s) => Some(s.as_str()),
        }
    }

    /// Number of objects allocated.
    pub fn len(&self) -> (n: usize)
        ensures
            n == self@.len(),
    {
        self.objs.len()
    }

    /// `true` if no objects are allocated.
    pub fn is_empty(&self) -> (b: bool)
        ensures
            b == (self@.len() == 0),
    {
        self.objs.len() == 0
    }
}


/// `later` is `earlier` with more objects allocated after them.
pub open spec fn extends(later: Seq<ObjV>, earlier: Seq<ObjV>) -> bool {
    &&& earlier.len() <= later.len()
    &&& later.take(earlier.len() as int) == earlier
}

/// Allocation never moves or changes an object: one allocation extends
/// the heap, any number of them in turn extend it too, and every handle
/// valid before reads the same object afterwards.
pub proof fn lemma_allocation_keeps_objects(a: Seq<ObjV>, b: Seq<ObjV>, c: Seq<ObjV>, o: ObjV, i: int)
    ensures
        extends(a.push(o), a),
        extends(b, a) && extends(c, b) ==> extends(c, a),
        extends(b, a) && 0 <= i < a.len() ==> b[i] == a[i],
{
    assert(a.push(o).take(a.len() as int) =~= a);
    if extends(b, a) && extends(c, b) {
        assert(c.take(a.len() as int) =~= b.take(a.len() as int));
    }
    if extends(b, a) && 0 <= i < a.len() {
        assert(b.take(a.len() as int)[i] == b[i]);
    }
}

} // verus!
