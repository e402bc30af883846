//! A process and the table of its memory regions.

pub mod address;
pub mod memory_region;

use crate::process::memory_region::{region_of, MemoryRegion, RegionView};
use crate::text::{chars_of, contains, contains_text, pieces, split_at, texts};
use vstd::prelude::*;

verus! {

/// A process, named by its identifier.
#[derive(Debug, Clone, Copy, PartialEq, Eq, Structural)]
pub struct Process {
    pub pid: u32,
}

/// A process and its name as the system gave it; `None` where the name could
/// not be had.
#[derive(Debug)]
pub struct Listing {
    pub process: Process,
    pub name: Option<String>,
}

/// The regions that the lines `lines` stand for, in the order of the lines.
/// A line that stands for none is passed over.
pub open spec fn regions_of_lines(lines: Seq<Seq<char>>) -> Seq<RegionView> {
    lines.filter_map(
        |line: Seq<char>|
            match region_of(line) {
                Ok(region) => Some(region),
                Err(_) => None,
            },
    )
}

/// The regions that the mapping table `table` stands for: those of its
/// lines, which `\n` parts.
pub open spec fn regions_of(table: Seq<char>) -> Seq<RegionView> {
    regions_of_lines(pieces(table, '\n'))
}

/// The views of `regions`, in order.
pub open spec fn views(regions: Seq<MemoryRegion>) -> Seq<RegionView> {
    regions.map_values(|region: MemoryRegion| region@)
}

impl Listing {
    /// Whether the name is known and `needle` stands in it.
    pub open spec fn named(&self, needle: Seq<char>) -> bool {
        self.name matches Some(name) && contains_text(name@, needle)
    }
}

impl Process {
    /// No process has the identifier zero.
    pub open spec fn wf(&self) -> bool {
        self.pid != 0
    }

    /// The process `pid`; `alive` says whether the system knows of such a
    /// process. `None` for the identifier zero and for a process that the
    /// system does not know of.
    pub fn new(pid: u32, alive: bool) -> (process: Option<Process>)
        ensures
            process == if pid != 0 && alive {
                Some(Process { pid })
            } else {
                None
            },
            process matches Some(p) ==> p.wf(),
    {
        if pid == 0 {
            return None;
        }
        if alive {
            Some(Process { pid })
        } else {
            None
        }
    }

    /// The regions that the mapping table `maps` of the process describes,
    /// in the order of its lines. A line that describes no region is passed
    /// over.
    pub fn get_all_memory_regions(&self, maps: &str) -> (regions: Vec<MemoryRegion>)
        ensures
            views(regions@) == regions_of(maps@),
            forall|i: int| 0 <= i < regions@.len() ==> (#[trigger] regions@[i])@.wf(),
    {
        let chars = chars_of(maps);
        let table = chars.as_slice();
        let lines = split_at(table, '\n');
        let mut regions: Vec<MemoryRegion> = Vec::new();
        let mut i: usize = 0;
        while i < lines.len()
            invariant
                i <= lines@.len(),
                table@ == maps@,
                crate::text::all_within(lines@, table@.len()),
                texts(lines@, table@) == pieces(table@, '\n'),
                views(regions@) == regions_of_lines(texts(lines@, table@).take(i as int)),
                forall|k: int| 0 <= k < regions@.len() ==> (#[trigger] regions@[k])@.wf(),
            decreases lines@.len() - i,
        {
            let line = lines[i].slice(table);
            let ghost before = regions@;
            let ghost all = texts(lines@, table@);
            proof {
                assert(all.take(i + 1).drop_last() == all.take(i as int));
                assert(all.take(i + 1).last() == line@);
            }
            match MemoryRegion::parse_chars(line) {
                Ok(region) => {
                    regions.push(region);
                    assert(views(regions@) == views(before) + seq![region@]);
                },
                Err(_) => {},
            }
            i = i + 1;
        }
        assert(texts(lines@, table@).take(i as int) == texts(lines@, table@));
        regions
    }
}

/// The first process of `listing` in whose name `name` stands. `None` where
/// there is none; a process whose name is not known is passed over.
pub fn get_proc_by_name(listing: &Vec<Listing>, name: &str) -> (found: Option<Process>)
    ensures
        match found {
            Some(process) => exists|i: int|
                0 <= i < listing@.len() && (#[trigger] listing@[i]).named(name@) && process
                    == listing@[i].process && forall|j: int|
                    0 <= j < i ==> !(#[trigger] listing@[j]).named(name@),
            None => forall|i: int| 0 <= i < listing@.len() ==> !(#[trigger] listing@[i]).named(name@),
        },
{
    let needle = chars_of(name);
    let mut i: usize = 0;
    while i < listing.len()
        invariant
            i <= listing@.len(),
            needle@ == name@,
            forall|j: int| 0 <= j < i ==> !(#[trigger] listing@[j]).named(name@),
        decreases listing@.len() - i,
    {
        match &listing[i].name {
            Some(known) => {
                let hay = chars_of(known.as_str());
                if contains(hay.as_slice(), needle.as_slice()) {
                    return Some(listing[i].process);
                }
            },
            None => {},
        }
        i = i + 1;
    }
    None
}

} // verus!
