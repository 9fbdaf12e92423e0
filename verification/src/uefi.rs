//! Plain-data model of the firmware-reported memory map.
//!
//! The firmware hands the boot program a buffer of memory descriptors,
//! each naming a physical region, its page count and its usage class.
//! Only the data is modelled here; the calls that obtain it from the
//! firmware live outside the verified library and feed descriptors in
//! through [`MemoryMapHolder::push`].

use vstd::prelude::*;

verus! {

/// Status code returned by firmware services.
#[derive(Clone, Copy, PartialEq, Eq, Structural, Debug)]
#[must_use]
pub enum EfiStatus {
    Success,
}

/// Usage class of a firmware-reported memory region. Only
/// `CONVENTIONAL_MEMORY` regions may be turned into heap space.
#[derive(Clone, Copy, PartialEq, Eq, Structural, Debug)]
#[allow(non_camel_case_types)]
pub enum EfiMemoryType {
    RESERVED,
    LOADER_CODE,
    LOADER_DATA,
    BOOT_SERVICES_CODE,
    BOOT_SERVICES_DATA,
    RUNTIME_SERVICES_CODE,
    RUNTIME_SERVICES_DATA,
    CONVENTIONAL_MEMORY,
    UNUSABLE_MEMORY,
    ACPI_RECLAIM_MEMORY,
    ACPI_NVS_MEMORY,
    MEMORY_MAPPED_IO,
    MEMORY_MAPPED_IO_PORT_SPACE,
    PAL_CODE,
    PERSISTENT_MEMORY,
}

/// One firmware-reported memory region.
#[derive(Clone, Copy, PartialEq, Eq, Structural, Debug)]
pub struct MemoryDescriptor {
    pub memory_type: EfiMemoryType,
    pub physical_start: u64,
    pub virtual_start: u64,
    pub number_of_pages: u64,
    pub attribute: u64,
}

impl MemoryDescriptor {
    /// Builds a descriptor from its raw fields, as decoded from the
    /// firmware buffer.
    pub fn new(
        memory_type: EfiMemoryType,
        physical_start: u64,
        virtual_start: u64,
        number_of_pages: u64,
        attribute: u64,
    ) -> (r: MemoryDescriptor)
        ensures
            r == (MemoryDescriptor {
                memory_type,
                physical_start,
                virtual_start,
                number_of_pages,
                attribute,
            }),
    {
        MemoryDescriptor { memory_type, physical_start, virtual_start, number_of_pages, attribute }
    }

    pub fn memory_type(&self) -> (r: EfiMemoryType)
        ensures
            r == self.memory_type,
    {
        self.memory_type
    }

    pub fn number_of_pages(&self) -> (r: u64)
        ensures
            r == self.number_of_pages,
    {
        self.number_of_pages
    }

    pub fn physical_start(&self) -> (r: u64)
        ensures
            r == self.physical_start,
    {
        self.physical_start
    }
}

/// The memory map: the sequence of descriptors reported by the
/// firmware, in report order.
pub struct MemoryMapHolder {
    entries: Vec<MemoryDescriptor>,
}

impl MemoryMapHolder {
    /// The descriptors held, as a mathematical sequence.
    pub closed spec fn descriptors(&self) -> Seq<MemoryDescriptor> {
        self.entries@
    }

    /// An empty map, to be filled one descriptor at a time.
    pub fn new() -> (r: MemoryMapHolder)
        ensures
            r.descriptors() == Seq::<MemoryDescriptor>::empty(),
    {
        MemoryMapHolder { entries: Vec::new() }
    }

    /// Appends one decoded descriptor.
    pub fn push(&mut self, descriptor: MemoryDescriptor)
        ensures
            final(self).descriptors() == old(self).descriptors().push(descriptor),
    {
        self.entries.push(descriptor);
    }

    /// How many descriptors the map holds.
    pub fn len(&self) -> (r: usize)
        ensures
            r == self.descriptors().len(),
    {
        self.entries.len()
    }

    /// The descriptor at `index`.
    pub fn get(&self, index: usize) -> (r: MemoryDescriptor)
        requires
            index < self.descriptors().len(),
        ensures
            r == self.descriptors()[index as int],
    {
        self.entries[index]
    }

    /// A cursor over the descriptors, starting at the first.
    pub fn iter<'a>(&'a self) -> (r: MemoryMapIterator<'a>)
        ensures
            r.map() == self.descriptors(),
            r.offset() == 0,
    {
        MemoryMapIterator { map: self, ofs: 0 }
    }
}

impl Default for MemoryMapHolder {
    fn default() -> (r: MemoryMapHolder)
        ensures
            r.descriptors() == Seq::<MemoryDescriptor>::empty(),
    {
        MemoryMapHolder::new()
    }
}

/// A cursor over a [`MemoryMapHolder`].
pub struct MemoryMapIterator<'a> {
    map: &'a MemoryMapHolder,
    ofs: usize,
}

impl<'a> MemoryMapIterator<'a> {
    /// The sequence being walked.
    pub closed spec fn map(&self) -> Seq<MemoryDescriptor> {
        self.map.descriptors()
    }

    /// How many descriptors have been handed out already.
    pub closed spec fn offset(&self) -> int {
        self.ofs as int
    }

    /// Hands out the next descriptor, or `None` once the map is
    /// exhausted.
    pub fn next(&mut self) -> (r: Option<MemoryDescriptor>)
        requires
            old(self).offset() <= old(self).map().len(),
        ensures
            final(self).map() == old(self).map(),
            old(self).offset() < old(self).map().len() ==> {
                &&& r == Some(old(self).map()[old(self).offset()])
                &&& final(self).offset() == old(self).offset() + 1
            },
            old(self).offset() == old(self).map().len() ==> {
                &&& r is None
                &&& final(self).offset() == old(self).offset()
            },
    {
        if self.ofs >= self.map.entries.len() {
            None
        } else {
            let e = self.map.entries[self.ofs];
            self.ofs = self.ofs + 1;
            Some(e)
        }
    }
}

} // verus!
