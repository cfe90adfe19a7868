//! A unit of debug information that is held in memory, entry by entry.

use vstd::prelude::*;

use crate::debug_unit::AttrValue;
use crate::debug_unit::DebugUnit;
use crate::debug_unit::DwarfError;
use crate::debug_unit::Fault;
use crate::debug_unit::Location;
use crate::debug_unit::LocationV;
use crate::debug_unit::Shape;
use crate::debug_unit::UnitModel;
use crate::location::readable;
use crate::location::DwarfOp;
use crate::meta::first_from;
use crate::meta::first_such;
use crate::meta::lemma_first_from;
use crate::text::clone_opt;
use crate::text::opt_text;

verus! {

/// A place where a value lies while the program is in a range of addresses.
pub struct ImageLocation {
    pub begin: u64,
    pub end: u64,
    pub ops: Vec<DwarfOp>,
}

/// An attribute, with all that can be asked of it.
pub struct ImageAttr {
    pub at: u16,
    pub value: AttrValue,
    pub text: Option<String>,
    pub address: Option<u64>,
    pub ops: Vec<DwarfOp>,
    pub locations: Option<Vec<ImageLocation>>,
}

/// What stands at an offset.
pub struct ImageEntry {
    pub off: usize,
    pub shape: Shape,
    pub sibling: Option<usize>,
    pub range_start: Option<u64>,
    pub attrs: Vec<ImageAttr>,
}

/// A unit of debug information that is held in memory.
pub struct UnitImage {
    limit: usize,
    entries: Vec<ImageEntry>,
    addresses: Vec<u64>,
}

/// Operations that can all be read.
pub open spec fn all_readable(ops: Seq<DwarfOp>) -> Seq<Option<DwarfOp>> {
    ops.map_values(|op: DwarfOp| Some(op))
}

/// Locations that can all be read.
pub open spec fn image_locations(list: Seq<ImageLocation>) -> Seq<Option<LocationV>> {
    list.map_values(
        |l: ImageLocation|
            Some(LocationV { begin: l.begin, end: l.end, ops: all_readable(l.ops@) }),
    )
}

/// The position of what stands at an offset.
pub open spec fn entry_position(entries: Seq<ImageEntry>, off: usize) -> Option<int> {
    first_such(entries.len(), |i: int| entries[i].off == off)
}

/// The position of an attribute.
pub open spec fn attr_position(attrs: Seq<ImageAttr>, at: u16) -> Option<int> {
    first_such(attrs.len(), |i: int| attrs[i].at == at)
}

/// An attribute of what stands at an offset.
pub open spec fn image_attr(entries: Seq<ImageEntry>, off: usize, at: u16) -> Result<Option<ImageAttr>, Fault> {
    match entry_position(entries, off) {
        None => Err(Fault::NoEntry),
        Some(i) => match attr_position(entries[i].attrs@, at) {
            None => Ok(None),
            Some(k) => Ok(Some(entries[i].attrs@[k])),
        },
    }
}

/// What entries that are held in memory say. Where nothing stands at an offset, there is no entry.
pub open spec fn image_model(limit: usize, entries: Seq<ImageEntry>, addresses: Seq<u64>) -> UnitModel {
    UnitModel {
        bound: limit as int,
        shapes: |off: usize|
            match entry_position(entries, off) {
                Some(i) => Ok(entries[i].shape),
                None => Err(Fault::NoEntry),
            },
        values: |off: usize, at: u16|
            match image_attr(entries, off, at) {
                Ok(Some(a)) => Ok(Some(a.value)),
                Ok(None) => Ok(None),
                Err(f) => Err(f),
            },
        texts: |off: usize, at: u16|
            match image_attr(entries, off, at) {
                Ok(Some(a)) => Ok(opt_text(a.text)),
                Ok(None) => Ok(None),
                Err(f) => Err(f),
            },
        addresses: |off: usize, at: u16|
            match image_attr(entries, off, at) {
                Ok(Some(a)) => Ok(a.address),
                Ok(None) => Ok(None),
                Err(f) => Err(f),
            },
        expressions: |off: usize, at: u16|
            match image_attr(entries, off, at) {
                Ok(Some(a)) => Ok(all_readable(a.ops@)),
                Ok(None) => Ok(Seq::empty()),
                Err(f) => Err(f),
            },
        location_lists: |off: usize, at: u16|
            match image_attr(entries, off, at) {
                Ok(Some(a)) => Ok(
                    match a.locations {
                        Some(list) => Some(image_locations(list@)),
                        None => None,
                    },
                ),
                Ok(None) => Ok(None),
                Err(f) => Err(f),
            },
        siblings: |off: usize|
            match entry_position(entries, off) {
                Some(i) => Ok(entries[i].sibling),
                None => Err(Fault::NoEntry),
            },
        range_starts: |off: usize|
            match entry_position(entries, off) {
                Some(i) => Ok(entries[i].range_start),
                None => Err(Fault::NoEntry),
            },
        address_table: |index: usize|
            if index < addresses.len() {
                Ok(addresses[index as int])
            } else {
                Err(Fault::NoEntry)
            },
    }
}

/// Whether entries lead forward only, and not beyond a limit.
pub open spec fn leads_forward(limit: usize, entries: Seq<ImageEntry>) -> bool {
    forall|i: int|
        0 <= i < entries.len() ==> {
            let e = #[trigger] entries[i];
            e.off < e.shape.next <= limit && (e.sibling matches Some(s) ==> e.off < s <= limit)
        }
}

impl UnitImage {
    #[verifier::type_invariant]
    spec fn inv(self) -> bool {
        leads_forward(self.limit, self.entries@)
    }

    /// The entries.
    pub closed spec fn contents(&self) -> Seq<ImageEntry> {
        self.entries@
    }

    /// The address table.
    pub closed spec fn table(&self) -> Seq<u64> {
        self.addresses@
    }

    /// No entry ends beyond this offset.
    pub closed spec fn bound(&self) -> usize {
        self.limit
    }

    /// The unit that is made of some entries; none where one leads backward or beyond the limit.
    pub fn new(limit: usize, entries: Vec<ImageEntry>, addresses: Vec<u64>) -> (r: Option<UnitImage>)
        ensures
            r is Some == leads_forward(limit, entries@),
            r matches Some(u) ==> u.bound() == limit && u.contents() == entries@ && u.table() == addresses@,
    {
        let mut i: usize = 0;
        while i < entries.len()
            invariant
                i <= entries.len(),
                forall|k: int|
                    0 <= k < i ==> {
                        let e = #[trigger] entries@[k];
                        e.off < e.shape.next <= limit && (e.sibling matches Some(s) ==> e.off < s <= limit)
                    },
            decreases entries.len() - i,
        {
            let e: &ImageEntry = &entries[i];
            let forward: bool = e.off < e.shape.next && e.shape.next <= limit && match e.sibling {
                Some(s) => e.off < s && s <= limit,
                None => true,
            };
            if !forward {
                return None;
            }
            i += 1;
        }
        Some(UnitImage { limit, entries, addresses })
    }

    /// What stands at an offset.
    fn find(&self, off: usize) -> (r: Result<usize, DwarfError>)
        ensures
            match r {
                Ok(i) => i < self.entries.len() && entry_position(self.entries@, off) == Some(i as int),
                Err(e) => e == DwarfError::NoEntry(off) && entry_position(self.entries@, off) is None,
            },
    {
        let ghost wanted = |i: int| self.entries@[i].off == off;
        let mut i: usize = 0;
        while i < self.entries.len()
            invariant
                i <= self.entries.len(),
                wanted == |i: int| self.entries@[i].off == off,
                entry_position(self.entries@, off) == first_from(self.entries.len() as int, wanted, i as int),
            decreases self.entries.len() - i,
        {
            if self.entries[i].off == off {
                return Ok(i);
            }
            i += 1;
        }
        Err(DwarfError::NoEntry(off))
    }

    /// An attribute of what stands at an offset.
    fn attr(&self, off: usize, at: u16) -> (r: Result<Option<&ImageAttr>, DwarfError>)
        ensures
            match r {
                Ok(Some(a)) => image_attr(self.entries@, off, at) == Ok::<Option<ImageAttr>, Fault>(Some(*a)),
                Ok(None) => image_attr(self.entries@, off, at) == Ok::<Option<ImageAttr>, Fault>(None),
                Err(e) => e == DwarfError::NoEntry(off) && image_attr(self.entries@, off, at) == Err::<
                    Option<ImageAttr>,
                    Fault,
                >(Fault::NoEntry),
            },
    {
        let n: usize = self.find(off)?;
        let e: &ImageEntry = &self.entries[n];
        let ghost wanted = |i: int| e.attrs@[i].at == at;
        let mut k: usize = 0;
        while k < e.attrs.len()
            invariant
                k <= e.attrs.len(),
                wanted == |i: int| e.attrs@[i].at == at,
                attr_position(e.attrs@, at) == first_from(e.attrs.len() as int, wanted, k as int),
                n < self.entries.len(),
                *e == self.entries@[n as int],
                entry_position(self.entries@, off) == Some(n as int),
            decreases e.attrs.len() - k,
        {
            if e.attrs[k].at == at {
                return Ok(Some(&e.attrs[k]));
            }
            k += 1;
        }
        Ok(None)
    }
}

/// Operations that were all read.
fn read_ops(ops: &Vec<DwarfOp>) -> (r: Vec<Result<DwarfOp, gimli::Error>>)
    ensures
        readable(r@) == all_readable(ops@),
{
    let mut r: Vec<Result<DwarfOp, gimli::Error>> = Vec::new();
    let mut i: usize = 0;
    while i < ops.len()
        invariant
            i <= ops.len(),
            r.len() == i,
            forall|k: int| 0 <= k < i ==> #[trigger] r@[k] == Ok::<DwarfOp, gimli::Error>(ops@[k]),
        decreases ops.len() - i,
    {
        r.push(Ok(ops[i]));
        i += 1;
    }
    assert(readable(r@) =~= all_readable(ops@));
    r
}

impl DebugUnit for UnitImage {
    open spec fn model(&self) -> UnitModel {
        image_model(self.bound(), self.contents(), self.table())
    }

    fn shape(&self, off: usize) -> (r: Result<Shape, DwarfError>) {
        proof {
            use_type_invariant(self);
            lemma_first_from(self.entries.len() as int, |i: int| self.entries@[i].off == off, 0);
        }
        let i: usize = self.find(off)?;
        Ok(self.entries[i].shape)
    }

    fn value(&self, off: usize, at: u16) -> (r: Result<Option<AttrValue>, DwarfError>) {
        match self.attr(off, at)? {
            Some(a) => Ok(Some(a.value)),
            None => Ok(None),
        }
    }

    fn text(&self, off: usize, at: u16) -> (r: Result<Option<String>, DwarfError>) {
        match self.attr(off, at)? {
            Some(a) => Ok(clone_opt(&a.text)),
            None => Ok(None),
        }
    }

    fn address(&self, off: usize, at: u16) -> (r: Result<Option<u64>, DwarfError>) {
        match self.attr(off, at)? {
            Some(a) => Ok(a.address),
            None => Ok(None),
        }
    }

    fn ops(&self, off: usize, at: u16) -> (r: Result<Vec<Result<DwarfOp, gimli::Error>>, DwarfError>) {
        match self.attr(off, at)? {
            Some(a) => Ok(read_ops(&a.ops)),
            None => {
                let none: Vec<Result<DwarfOp, gimli::Error>> = Vec::new();
                assert(readable(none@) =~= Seq::<Option<DwarfOp>>::empty());
                Ok(none)
            },
        }
    }

    fn locations(&self, off: usize, at: u16) -> (r: Result<
        Option<Vec<Result<Location, gimli::Error>>>,
        DwarfError,
    >) {
        let a: &ImageAttr = match self.attr(off, at)? {
            Some(a) => a,
            None => {
                return Ok(None);
            },
        };
        match &a.locations {
            Some(list) => {
                let mut r: Vec<Result<Location, gimli::Error>> = Vec::new();
                let ghost wanted = image_locations(list@);
                let mut i: usize = 0;
                while i < list.len()
                    invariant
                        i <= list.len(),
                        wanted == image_locations(list@),
                        crate::debug_unit::readable_locations(r@) == wanted.take(i as int),
                    decreases list.len() - i,
                {
                    let ghost done = crate::debug_unit::readable_locations(r@);
                    let l: &ImageLocation = &list[i];
                    r.push(Ok(Location { begin: l.begin, end: l.end, ops: read_ops(&l.ops) }));
                    assert(crate::debug_unit::readable_locations(r@) =~= done.push(wanted[i as int]));
                    assert(wanted.take(i + 1) =~= wanted.take(i as int).push(wanted[i as int]));
                    i += 1;
                }
                assert(wanted.take(i as int) =~= wanted);
                Ok(Some(r))
            },
            None => Ok(None),
        }
    }

    fn sibling(&self, off: usize) -> (r: Result<Option<usize>, DwarfError>) {
        proof {
            use_type_invariant(self);
            lemma_first_from(self.entries.len() as int, |i: int| self.entries@[i].off == off, 0);
        }
        let i: usize = self.find(off)?;
        Ok(self.entries[i].sibling)
    }

    fn range_start(&self, off: usize) -> (r: Result<Option<u64>, DwarfError>) {
        let i: usize = self.find(off)?;
        Ok(self.entries[i].range_start)
    }

    fn table_address(&self, index: usize) -> (r: Result<u64, DwarfError>) {
        if index < self.addresses.len() {
            Ok(self.addresses[index])
        } else {
            Err(DwarfError::NoEntry(index))
        }
    }
}

} // verus!
