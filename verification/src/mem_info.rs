//! Summary of the boot-time memory layout: loaded kernel sections and
//! physical areas, as plain values handed over by the boot code.

use vstd::prelude::*;

verus! {

/// One loaded section as boot code reports it: name, physical offset,
/// virtual start, size and permission flags.
#[derive(Debug)]
pub struct Section {
    /// The section's name.
    pub name: String,
    /// Virtual address the section is loaded at.
    pub start_address: u64,
    /// Physical offset of the section's bytes.
    pub offset: u64,
    /// Size of the section in bytes.
    pub size: u64,
    /// The section occupies memory.
    pub allocated: bool,
    /// The section is writable.
    pub writable: bool,
    /// The section holds executable code.
    pub executable: bool,
}

/// A section becomes a mapping when it occupies memory, is not the boot
/// stub, and has a size.
pub open spec fn section_kept(s: Section) -> bool {
    s.name@ != "boot"@ && s.allocated && s.size > 0
}

/// The sections that become mappings, in order.
pub open spec fn kept_sections(ss: Seq<Section>) -> Seq<Section>
    decreases ss.len(),
{
    if ss.len() == 0 {
        Seq::empty()
    } else {
        kept_sections(ss.drop_last()) + if section_kept(ss.last()) {
            seq![ss.last()]
        } else {
            Seq::empty()
        }
    }
}

/// One virtual-to-physical mapping of a loaded section.
#[derive(Debug)]
pub struct Mapping {
    virt_addr: u64,
    phys_addr: u64,
    size: u64,
    name: String,
}

/// The mapping records exactly the section's addresses, size and name.
pub open spec fn mapping_matches(m: Mapping, s: Section) -> bool {
    m.virt_spec() == s.start_address && m.phys_spec() == s.offset && m.size_spec() == s.size
        && m.name_spec() == s.name@
}

impl Mapping {
    /// The mapping's virtual start address.
    pub closed spec fn virt_spec(&self) -> u64 {
        self.virt_addr
    }

    /// The mapping's physical start address.
    pub closed spec fn phys_spec(&self) -> u64 {
        self.phys_addr
    }

    /// The mapping's size in bytes.
    pub closed spec fn size_spec(&self) -> u64 {
        self.size
    }

    /// The mapping's name.
    pub closed spec fn name_spec(&self) -> Seq<char> {
        self.name@
    }

    /// First virtual address of the mapping.
    pub fn virt_start(&self) -> (r: u64)
        ensures
            r == self.virt_spec(),
    {
        self.virt_addr
    }

    /// First virtual address past the mapping.
    pub fn virt_end(&self) -> (r: u64)
        requires
            self.virt_spec() + self.size_spec() <= u64::MAX,
        ensures
            r == self.virt_spec() + self.size_spec(),
    {
        self.virt_addr + self.size
    }

    /// First physical address of the mapping.
    pub fn phys_start(&self) -> (r: u64)
        ensures
            r == self.phys_spec(),
    {
        self.phys_addr
    }

    /// Last physical address of the mapping.
    pub fn phys_end(&self) -> (r: u64)
        requires
            self.size_spec() > 0,
            self.phys_spec() + self.size_spec() <= u64::MAX,
        ensures
            r == self.phys_spec() + self.size_spec() - 1,
    {
        self.phys_addr + self.size - 1
    }

    /// Size of the mapping in bytes.
    pub fn size(&self) -> (r: u64)
        ensures
            r == self.size_spec(),
    {
        self.size
    }

    /// Name of the mapped section.
    pub fn name(&self) -> (r: &str)
        ensures
            r@ == self.name_spec(),
    {
        self.name.as_str()
    }

    /// The section is identity mapped: virtual and physical addresses
    /// coincide.
    pub fn identity_mapped(&self) -> (r: bool)
        ensures
            r == (self.virt_spec() == self.phys_spec()),
    {
        self.virt_addr == self.phys_addr
    }
}

/// One physical area of memory.
#[derive(Debug, Clone, Copy, PartialEq, Eq, Structural)]
pub struct PhysicalArea {
    addr: u64,
    size: u64,
}

impl PhysicalArea {
    /// An area of `size` bytes starting at `addr`.
    pub fn new(addr: u64, size: u64) -> (r: PhysicalArea)
        ensures
            r.addr_spec() == addr,
            r.size_spec() == size,
    {
        PhysicalArea { addr, size }
    }

    /// The area's start address.
    pub closed spec fn addr_spec(&self) -> u64 {
        self.addr
    }

    /// The area's size.
    pub closed spec fn size_spec(&self) -> u64 {
        self.size
    }

    /// Size of the area in bytes.
    pub fn size(&self) -> (r: u64)
        ensures
            r == self.size_spec(),
    {
        self.size
    }

    /// First address of the area.
    pub fn start(&self) -> (r: u64)
        ensures
            r == self.addr_spec(),
    {
        self.addr
    }

    /// Last address of the area.
    pub fn end(&self) -> (r: u64)
        requires
            self.size_spec() > 0,
            self.addr_spec() + self.size_spec() <= u64::MAX,
        ensures
            r == self.addr_spec() + self.size_spec() - 1,
    {
        self.addr + self.size - 1
    }
}

/// The boot-time memory layout: physical areas and section mappings.
#[derive(Debug)]
pub struct MemoryInfo {
    areas: Vec<PhysicalArea>,
    mappings: Vec<Mapping>,
}

impl MemoryInfo {
    /// The mappings held.
    pub closed spec fn mappings_seq(&self) -> Seq<Mapping> {
        self.mappings@
    }

    /// The areas held.
    pub closed spec fn areas_seq(&self) -> Seq<PhysicalArea> {
        self.areas@
    }

    /// Build the layout from the boot code's section list and area list:
    /// sections that occupy memory, are not the boot stub, and have a size
    /// become mappings, in order.
    pub fn from_sections(sections: Vec<Section>, areas: Vec<PhysicalArea>) -> (r: MemoryInfo)
        ensures
            r.areas_seq() == areas@,
            r.mappings_seq().len() == kept_sections(sections@).len(),
            forall|i: int|
                0 <= i < r.mappings_seq().len() ==> mapping_matches(
                    #[trigger] r.mappings_seq()[i],
                    kept_sections(sections@)[i],
                ),
    {
        let boot_name: String = "boot".to_owned();
        let mut mappings: Vec<Mapping> = Vec::new();
        let mut i: usize = 0;
        while i < sections.len()
            invariant
                i <= sections@.len(),
                boot_name@ == "boot"@,
                mappings@.len() == kept_sections(sections@.take(i as int)).len(),
                forall|k: int|
                    0 <= k < mappings@.len() ==> mapping_matches(
                        #[trigger] mappings@[k],
                        kept_sections(sections@.take(i as int))[k],
                    ),
            decreases sections@.len() - i,
        {
            let s = &sections[i];
            let ghost prefix = sections@.take(i as int);
            proof {
                assert(sections@.take(i + 1).drop_last() =~= prefix);
                assert(sections@.take(i + 1).last() == sections@[i as int]);
            }
            let keep = s.allocated && s.size > 0 && !s.name.eq(&boot_name);
            if keep {
                let m = Mapping {
                    virt_addr: s.start_address,
                    phys_addr: s.offset,
                    size: s.size,
                    name: s.name.clone(),
                };
                mappings.push(m);
            }
            i = i + 1;
        }
        proof {
            assert(sections@.take(sections@.len() as int) =~= sections@);
        }
        MemoryInfo { areas, mappings }
    }

    /// The section mappings, in section order.
    pub fn mappings(&self) -> (r: &Vec<Mapping>)
        ensures
            r@ == self.mappings_seq(),
    {
        &self.mappings
    }

    /// The physical areas, in the order the boot code reported them.
    pub fn physical_areas(&self) -> (r: &Vec<PhysicalArea>)
        ensures
            r@ == self.areas_seq(),
    {
        &self.areas
    }
}

} // verus!
