use vstd::prelude::*;

verus! {

/// One entry of a property list. Keys and values are opaque to the tree.
#[derive(Clone, Copy, Debug, PartialEq, Eq, Structural)]
pub struct Property {
    pub key: u64,
    pub value: u64,
}

/// The properties attached to a span. The empty list is the default state.
#[derive(Debug)]
pub struct PropertyList {
    pub entries: Vec<Property>,
}

impl View for PropertyList {
    type V = Seq<Property>;

    /// The entries of the list, in order.
    open spec fn view(&self) -> Seq<Property> {
        self.entries@
    }
}

impl PropertyList {
    /// The default, empty property list.
    pub fn new() -> (p: PropertyList)
        ensures
            p@ == Seq::<Property>::empty(),
    {
        PropertyList { entries: Vec::new() }
    }

    /// Whether the list holds no property.
    pub fn is_empty(&self) -> (b: bool)
        ensures
            b == (self@.len() == 0),
    {
        self.entries.len() == 0
    }

    /// A property list with the same entries that shares nothing with this one.
    pub fn deep_copy(&self) -> (p: PropertyList)
        ensures
            p@ == self@,
    {
        let mut entries: Vec<Property> = Vec::new();
        let mut i: usize = 0;
        while i < self.entries.len()
            invariant
                i <= self.entries.len(),
                entries@ == self.entries@.subrange(0, i as int),
            decreases self.entries.len() - i,
        {
            entries.push(self.entries[i]);
            i = i + 1;
            assert(entries@ =~= self.entries@.subrange(0, i as int));
        }
        assert(entries@ =~= self.entries@);
        PropertyList { entries }
    }
}

} // verus!
