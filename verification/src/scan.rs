//! The scans: the first one over all the memory that may be read, and the
//! later ones that narrow its result down.

use crate::filtered::{lemma_filter_member, lemma_filter_no_duplicates, lemma_filter_step};
use crate::process::address::Address;
use crate::process::memory_region::{
    lemma_complete_on_grid, lemma_matches_exact, lemma_matches_rise, MemoryRegion,
};
use vstd::prelude::*;

verus! {

/// A region together with the bytes that were read from it, from its start
/// on.
#[derive(Debug)]
pub struct RegionImage {
    pub region: MemoryRegion,
    pub bytes: Vec<u8>,
}

/// Why a scan gave no result.
#[derive(Debug, Clone, Copy, PartialEq, Eq, Structural)]
pub enum ScanError {
    /// No region of the process may be read.
    NoReadableRegion,
    /// Fewer than four bytes were there to read at an address where a
    /// region gives a word.
    TruncatedRead,
}

impl RegionImage {
    /// Whether the image gives a word at `a` and that word is `target`.
    pub open spec fn holds(&self, a: Address, target: u32) -> bool {
        self.region.holding(self.bytes@, target)(a)
    }

    /// Whether a scan of the image finds `a`: the scan tries `a`, and `a`
    /// holds `target`.
    pub open spec fn finds(&self, a: Address, target: u32) -> bool {
        self.region.on_grid(a.addr) && self.holds(a, target)
    }

    /// The addresses that a scan of the image finds, in rising order.
    pub open spec fn matches(&self, target: u32) -> Seq<Address> {
        self.region.matches(self.bytes@, target)
    }

    /// Whether the image holds every word that a scan of its region tries.
    pub open spec fn complete(&self) -> bool {
        self.region.complete(self.bytes@)
    }

    /// Whether a read of the word at `a` in this image would be cut short.
    pub open spec fn cut_short_at(&self, a: Address) -> bool {
        self.region.truncated_at(self.bytes@, a.addr)
    }
}

/// Whether one of the regions may be read.
pub open spec fn any_readable(images: Seq<RegionImage>) -> bool {
    exists|i: int| 0 <= i < images.len() && (#[trigger] images[i]).region.perms.read
}

/// Whether a first scan would be cut short: one of the images does not hold
/// every word that a scan of its region tries.
pub open spec fn incomplete(images: Seq<RegionImage>) -> bool {
    exists|i: int| 0 <= i < images.len() && !(#[trigger] images[i]).complete()
}

/// Whether a read of the word at `a` would be cut short in one of the
/// images.
pub open spec fn cut_short_at(images: Seq<RegionImage>, a: Address) -> bool {
    exists|i: int| 0 <= i < images.len() && (#[trigger] images[i]).cut_short_at(a)
}

/// Whether a narrowing scan of `list` would be cut short: a read at one of
/// its addresses would be.
pub open spec fn cut_short(images: Seq<RegionImage>, list: Seq<Address>) -> bool {
    exists|k: int| 0 <= k < list.len() && cut_short_at(images, #[trigger] list[k])
}

/// Why one more scan fails, where `before` holds the candidates before it,
/// or nothing where no scan was made yet; `None` where it does not fail. A
/// scan fails where no region may be read, and else where one of its reads
/// would be cut short.
pub open spec fn failure(before: Option<Seq<Address>>, images: Seq<RegionImage>) -> Option<
    ScanError,
> {
    if !any_readable(images) {
        Some(ScanError::NoReadableRegion)
    } else if match before {
        None => incomplete(images),
        Some(list) => cut_short(images, list),
    } {
        Some(ScanError::TruncatedRead)
    } else {
        None
    }
}

/// Whether an address is not among `found`.
pub open spec fn fresh(found: Seq<Address>) -> spec_fn(Address) -> bool {
    |a: Address| !found.contains(a)
}

/// The addresses of the words that hold `target`: those that a scan of the
/// first region finds, then those of the second, and so on, each in rising
/// order. A region that may not be read gives none, and an address that an
/// earlier region gave is not given again.
pub open spec fn found_in(images: Seq<RegionImage>, target: u32) -> Seq<Address>
    decreases images.len(),
{
    if images.len() == 0 {
        Seq::empty()
    } else {
        let before = found_in(images.drop_last(), target);
        before + images.last().matches(target).filter(fresh(before))
    }
}

/// Whether an address holds `target` in one of the images.
pub open spec fn kept(images: Seq<RegionImage>, target: u32) -> spec_fn(Address) -> bool {
    |a: Address| exists|i: int| 0 <= i < images.len() && (#[trigger] images[i]).holds(a, target)
}

/// Those of the addresses `list` that hold `target` in one of the images,
/// in the order of `list`.
pub open spec fn narrowed(list: Seq<Address>, images: Seq<RegionImage>, target: u32) -> Seq<
    Address,
> {
    list.filter(kept(images, target))
}

/// The first scan finds an address if and only if a scan of one of the
/// images finds it.
pub proof fn lemma_found_in_exact(images: Seq<RegionImage>, target: u32, a: Address)
    ensures
        found_in(images, target).contains(a) <==> exists|i: int|
            0 <= i < images.len() && (#[trigger] images[i]).finds(a, target),
    decreases images.len(),
{
    if images.len() > 0 {
        let init = images.drop_last();
        let last = images.last();
        let before = found_in(init, target);
        let part = last.matches(target).filter(fresh(before));
        lemma_found_in_exact(init, target, a);
        lemma_filter_member(last.matches(target), fresh(before), a);
        lemma_matches_exact(&last.region, last.bytes@, target, a);
        if found_in(images, target).contains(a) {
            let k = choose|k: int| 0 <= k < (before + part).len() && (before + part)[k] == a;
            if k < before.len() {
                assert(before[k] == a);
                let i = choose|i: int| 0 <= i < init.len() && (#[trigger] init[i]).finds(a, target);
                assert(images[i].finds(a, target));
            } else {
                assert(part[k - before.len()] == a);
                assert(images[images.len() - 1].finds(a, target));
            }
        }
        if exists|i: int| 0 <= i < images.len() && (#[trigger] images[i]).finds(a, target) {
            let i = choose|i: int| 0 <= i < images.len() && (#[trigger] images[i]).finds(a, target);
            if i < init.len() {
                assert(init[i].finds(a, target));
            }
            if before.contains(a) {
                let k = choose|k: int| 0 <= k < before.len() && before[k] == a;
                assert((before + part)[k] == a);
            } else {
                assert(last.finds(a, target));
                let k = choose|k: int| 0 <= k < part.len() && part[k] == a;
                assert((before + part)[before.len() + k] == a);
            }
        }
    }
}

/// The first scan finds no address twice.
pub proof fn lemma_found_in_distinct(images: Seq<RegionImage>, target: u32)
    ensures
        found_in(images, target).no_duplicates(),
    decreases images.len(),
{
    if images.len() > 0 {
        let last = images.last();
        let before = found_in(images.drop_last(), target);
        let part = last.matches(target).filter(fresh(before));
        lemma_found_in_distinct(images.drop_last(), target);
        lemma_matches_rise(&last.region, last.bytes@, target);
        lemma_filter_no_duplicates(last.matches(target), fresh(before));
        assert forall|i: int, j: int| 0 <= i < before.len() && 0 <= j < part.len() implies before[i]
            != part[j] by {
            assert(part.contains(part[j]));
            lemma_filter_member(last.matches(target), fresh(before), part[j]);
        }
        vstd::seq_lib::lemma_no_dup_in_concat(before, part);
    }
}

/// Every address that the first scan finds holds the target, so a
/// narrowing scan for the same target over the same images drops none.
pub proof fn lemma_found_in_holds(images: Seq<RegionImage>, target: u32)
    ensures
        forall|a: Address| found_in(images, target).contains(a) ==> kept(images, target)(a),
{
    assert forall|a: Address| found_in(images, target).contains(a) implies kept(images, target)(
        a,
    ) by {
        lemma_found_in_exact(images, target, a);
        let i = choose|i: int| 0 <= i < images.len() && (#[trigger] images[i]).finds(a, target);
        assert(images[i].holds(a, target));
    }
}

/// Where no scan of an image finds an address, the first scan finds none:
/// its result is empty.
pub proof fn lemma_nothing_found(images: Seq<RegionImage>, target: u32)
    requires
        forall|i: int, a: Address| 0 <= i < images.len() ==> !(#[trigger] images[i].finds(a, target)),
    ensures
        found_in(images, target) == Seq::<Address>::empty(),
{
    let found = found_in(images, target);
    if found.len() > 0 {
        assert(found.contains(found[0]));
        lemma_found_in_exact(images, target, found[0]);
    }
}

/// An image whose region may not be read gives nothing to any scan,
/// whatever its bytes hold: a scan of it finds no address, no address
/// holds a value in it, and no read is made of it that could be cut short.
pub proof fn lemma_unreadable_gives_nothing(image: RegionImage, target: u32)
    requires
        !image.region.perms.read,
    ensures
        image.matches(target) == Seq::<Address>::empty(),
        forall|a: Address| !image.holds(a, target) && !image.finds(a, target),
        image.complete(),
        forall|a: Address| !image.cut_short_at(a),
{
    let found = image.matches(target);
    if found.len() > 0 {
        assert(found.contains(found[0]));
        lemma_matches_exact(&image.region, image.bytes@, target, found[0]);
    }
}

/// Narrowing adds nothing: what is left was there before, it is no longer
/// than what was there, and it holds nothing twice that was there once.
pub proof fn lemma_narrowed_within(list: Seq<Address>, images: Seq<RegionImage>, target: u32)
    ensures
        narrowed(list, images, target).len() <= list.len(),
        forall|a: Address| narrowed(list, images, target).contains(a) ==> list.contains(a),
        list.no_duplicates() ==> narrowed(list, images, target).no_duplicates(),
{
    let keep = kept(images, target);
    list.lemma_filter_len(keep);
    assert forall|a: Address| list.filter(keep).contains(a) implies list.contains(a) by {
        lemma_filter_member(list, keep, a);
    }
    if list.no_duplicates() {
        lemma_filter_no_duplicates(list, keep);
    }
}

/// Whether one of `images` may be read.
pub fn has_readable(images: &Vec<RegionImage>) -> (b: bool)
    ensures
        b == any_readable(images@),
{
    let mut i: usize = 0;
    while i < images.len()
        invariant
            i <= images@.len(),
            forall|j: int| 0 <= j < i ==> !(#[trigger] images@[j]).region.perms.read,
        decreases images@.len() - i,
    {
        if images[i].region.perms.read {
            return true;
        }
        i = i + 1;
    }
    false
}

/// Whether `addr` holds `target` in one of `images`. Fails where a read of
/// the word at `addr` would be cut short in one of them.
pub fn holds_target(images: &Vec<RegionImage>, addr: &Address, target: u32) -> (held: Result<
    bool,
    ScanError,
>)
    ensures
        held is Err <==> cut_short_at(images@, *addr),
        held matches Ok(b) ==> b == kept(images@, target)(*addr),
        held matches Err(e) ==> e == ScanError::TruncatedRead,
{
    let mut found = false;
    let mut i: usize = 0;
    while i < images.len()
        invariant
            i <= images@.len(),
            forall|j: int| 0 <= j < i ==> !(#[trigger] images@[j]).cut_short_at(*addr),
            found <==> exists|j: int| 0 <= j < i && (#[trigger] images@[j]).holds(*addr, target),
        decreases images@.len() - i,
    {
        let image = &images[i];
        if image.region.in_region(addr) {
            if image.region.is_truncated_at(image.bytes.as_slice(), addr) {
                return Err(ScanError::TruncatedRead);
            }
            match image.region.read_addr(image.bytes.as_slice(), addr) {
                Some(word) => {
                    if word == target {
                        found = true;
                    }
                },
                None => {},
            }
        }
        assert(found <==> exists|j: int|
            0 <= j < i + 1 && (#[trigger] images@[j]).holds(*addr, target)) by {
            if exists|j: int| 0 <= j < i + 1 && (#[trigger] images@[j]).holds(*addr, target) {
                let j = choose|j: int|
                    0 <= j < i + 1 && (#[trigger] images@[j]).holds(*addr, target);
                if j < i {
                    assert(images@[j].holds(*addr, target));
                }
            }
        }
        i = i + 1;
    }
    Ok(found)
}

/// Whether a scan of one of the first `count` of `images` finds `addr`.
fn found_before(images: &Vec<RegionImage>, count: usize, addr: &Address, target: u32) -> (b: bool)
    requires
        count <= images@.len(),
        forall|j: int| 0 <= j < count ==> (#[trigger] images@[j]).complete(),
    ensures
        b == found_in(images@.take(count as int), target).contains(*addr),
{
    let mut i: usize = 0;
    while i < count
        invariant
            i <= count <= images@.len(),
            forall|j: int| 0 <= j < count ==> (#[trigger] images@[j]).complete(),
            forall|j: int| 0 <= j < i ==> !(#[trigger] images@[j]).finds(*addr, target),
        decreases count - i,
    {
        let image = &images[i];
        let start = image.region.addr_range.start.addr;
        if start <= addr.addr && (addr.addr - start) % 4 == 0 {
            proof {
                assert(images@[i as int].complete());
                lemma_complete_on_grid(&image.region, image.bytes@, addr.addr);
            }
            match image.region.read_addr(image.bytes.as_slice(), addr) {
                Some(word) => {
                    if word == target {
                        proof {
                            lemma_found_in_exact(images@.take(count as int), target, *addr);
                            assert(images@.take(count as int)[i as int].finds(*addr, target));
                        }
                        return true;
                    }
                },
                None => {},
            }
        }
        i = i + 1;
    }
    proof {
        lemma_found_in_exact(images@.take(count as int), target, *addr);
        assert forall|j: int| 0 <= j < count implies !(#[trigger] images@.take(count as int)[j]).finds(
            *addr,
            target,
        ) by {
            assert(!images@[j].finds(*addr, target));
        }
    }
    false
}

/// The first scan: the addresses of all the words that hold `target`,
/// region by region and in rising order within each, none twice. A region
/// that may not be read is passed over. The scan fails where no region may
/// be read, and else where an image does not hold every word that the scan
/// of its region tries; that no word holds `target` is no failure.
pub fn get_target(images: &Vec<RegionImage>, target: u32) -> (found: Result<Vec<Address>, ScanError>)
    ensures
        match failure(None, images@) {
            Some(e) => found == Err::<Vec<Address>, ScanError>(e),
            None => found matches Ok(list) && list@ == found_in(images@, target)
                && list@.no_duplicates(),
        },
{
    if !has_readable(images) {
        return Err(ScanError::NoReadableRegion);
    }
    let mut list: Vec<Address> = Vec::new();
    let mut i: usize = 0;
    while i < images.len()
        invariant
            i <= images@.len(),
            any_readable(images@),
            forall|j: int| 0 <= j < i ==> (#[trigger] images@[j]).complete(),
            list@ == found_in(images@.take(i as int), target),
        decreases images@.len() - i,
    {
        let image = &images[i];
        let ghost before = list@;
        proof {
            assert(images@.take(i + 1).drop_last() == images@.take(i as int));
            assert(images@.take(i + 1).last() == images@[i as int]);
        }
        if !image.region.is_complete(image.bytes.as_slice()) {
            assert(!images@[i as int].complete());
            return Err(ScanError::TruncatedRead);
        }
        match image.region.read_mem(image.bytes.as_slice(), target) {
            Some(part) => {
                let mut k: usize = 0;
                while k < part.len()
                    invariant
                        k <= part@.len(),
                        i < images@.len(),
                        forall|j: int| 0 <= j < i ==> (#[trigger] images@[j]).complete(),
                        before == found_in(images@.take(i as int), target),
                        list@ == before + part@.take(k as int).filter(fresh(before)),
                    decreases part@.len() - k,
                {
                    let addr = part[k];
                    proof {
                        lemma_filter_step(part@, k as int, fresh(before));
                    }
                    if !found_before(images, i, &addr, target) {
                        list.push(addr);
                    }
                    k = k + 1;
                }
                assert(part@.take(k as int) == part@);
            },
            None => {
                assert(image.matches(target) == Seq::<Address>::empty());
                assert(image.matches(target).filter(fresh(before)) == Seq::<Address>::empty()) by {
                    reveal(Seq::filter);
                }
            },
        }
        i = i + 1;
    }
    proof {
        assert(images@.take(i as int) == images@);
        lemma_found_in_distinct(images@, target);
    }
    Ok(list)
}

/// A later scan: those of the addresses `list` that hold `target` now, in
/// the order of `list`. An address stays where one of the regions that may
/// be read gives a word at it and that word is `target`; an address that
/// lies in no such region any more is dropped. The scan fails where no
/// region may be read, and else where a region gives a word at one of the
/// addresses and its image holds fewer than the four bytes.
pub fn get_target_from_list(images: &Vec<RegionImage>, list: &Vec<Address>, target: u32) -> (found:
    Result<Vec<Address>, ScanError>)
    ensures
        match failure(Some(list@), images@) {
            Some(e) => found == Err::<Vec<Address>, ScanError>(e),
            None => found matches Ok(rest) && {
                &&& rest@ == narrowed(list@, images@, target)
                &&& rest@.len() <= list@.len()
                &&& forall|a: Address| rest@.contains(a) ==> list@.contains(a)
                &&& list@.no_duplicates() ==> rest@.no_duplicates()
            },
        },
{
    if !has_readable(images) {
        return Err(ScanError::NoReadableRegion);
    }
    let mut rest: Vec<Address> = Vec::new();
    let mut i: usize = 0;
    while i < list.len()
        invariant
            i <= list@.len(),
            any_readable(images@),
            forall|k: int| 0 <= k < i ==> !cut_short_at(images@, #[trigger] list@[k]),
            rest@ == narrowed(list@.take(i as int), images@, target),
        decreases list@.len() - i,
    {
        let addr = list[i];
        proof {
            lemma_filter_step(list@, i as int, kept(images@, target));
        }
        match holds_target(images, &addr, target) {
            Ok(held) => {
                if held {
                    rest.push(addr);
                }
            },
            Err(e) => {
                assert(cut_short_at(images@, list@[i as int]));
                return Err(e);
            },
        }
        i = i + 1;
    }
    proof {
        assert(list@.take(i as int) == list@);
        lemma_narrowed_within(list@, images@, target);
    }
    Ok(rest)
}

/// Where a series of scans stands: before the first scan there are no
/// candidates yet; after it the candidates are the addresses that held the
/// value at every scan so far, none of them twice.
#[derive(Debug)]
pub struct ScanState {
    candidates: Option<Vec<Address>>,
}

impl View for ScanState {
    type V = Option<Seq<Address>>;

    /// The candidates; `None` before the first scan.
    closed spec fn view(&self) -> Option<Seq<Address>> {
        match self.candidates {
            None => None,
            Some(list) => Some(list@),
        }
    }
}

/// The candidates after one more scan for `target`, where `before` holds
/// those before it, or nothing where no scan was made yet. The first scan
/// finds the candidates, every later one narrows them. A scan that fails
/// leaves everything as it was.
pub open spec fn step(before: Option<Seq<Address>>, images: Seq<RegionImage>, target: u32)
    -> Option<Seq<Address>> {
    if failure(before, images) is Some {
        before
    } else {
        match before {
            None => Some(found_in(images, target)),
            Some(candidates) => Some(narrowed(candidates, images, target)),
        }
    }
}

/// One scan of a series: the images that were read for it, and the value
/// that was looked for.
pub struct Pass {
    pub images: Seq<RegionImage>,
    pub target: u32,
}

/// The candidates after the scans `passes`, made one after the other from
/// the start.
pub open spec fn after(passes: Seq<Pass>) -> Option<Seq<Address>>
    decreases passes.len(),
{
    if passes.len() == 0 {
        None
    } else {
        step(after(passes.drop_last()), passes.last().images, passes.last().target)
    }
}

impl ScanState {
    #[verifier::type_invariant]
    spec fn distinct(self) -> bool {
        self.candidates matches Some(list) ==> list@.no_duplicates()
    }

    /// The state before the first scan.
    pub fn new() -> (state: ScanState)
        ensures
            state@ is None,
    {
        ScanState { candidates: None }
    }

    /// The candidates as they stand; `None` before the first scan.
    pub fn candidates(&self) -> (list: Option<&Vec<Address>>)
        ensures
            match list {
                Some(candidates) => self@ == Some(candidates@) && candidates@.no_duplicates(),
                None => self@ is None,
            },
    {
        proof {
            use_type_invariant(self);
        }
        match &self.candidates {
            None => None,
            Some(list) => Some(list),
        }
    }

    /// Makes one scan for `target` over `images`: the first scan where none
    /// was made yet, a narrowing one after that. Where the scan fails, the
    /// state stays as it was.
    pub fn scan(&mut self, images: &Vec<RegionImage>, target: u32) -> (done: Result<(), ScanError>)
        ensures
            match failure(old(self)@, images@) {
                Some(e) => done == Err::<(), ScanError>(e),
                None => done is Ok,
            },
            final(self)@ == step(old(self)@, images@, target),
            done is Ok ==> final(self)@ is Some,
            final(self)@ matches Some(now) ==> now.no_duplicates(),
            old(self)@ matches Some(before) ==> final(self)@ matches Some(now) && now.len()
                <= before.len() && forall|a: Address| now.contains(a) ==> before.contains(a),
    {
        proof {
            use_type_invariant(&*self);
        }
        let found = match &self.candidates {
            None => get_target(images, target),
            Some(list) => get_target_from_list(images, list, target),
        };
        match found {
            Ok(list) => {
                self.candidates = Some(list);
                Ok(())
            },
            Err(e) => Err(e),
        }
    }
}

/// A scan after the first one adds no candidate.
pub proof fn lemma_step_narrows(before: Seq<Address>, images: Seq<RegionImage>, target: u32)
    ensures
        step(Some(before), images, target) matches Some(now) && now.len() <= before.len()
            && forall|a: Address| now.contains(a) ==> before.contains(a),
{
    lemma_narrowed_within(before, images, target);
}

/// In a series of scans, whatever their targets and whatever was read for
/// them, the candidates after a scan are among the candidates after every
/// scan before it: where there are candidates after `j` scans, those after
/// `k` scans, `k` not below `j`, are among them.
pub proof fn lemma_candidates_only_shrink(passes: Seq<Pass>, j: int, k: int)
    requires
        0 <= j <= k <= passes.len(),
        after(passes.take(j)) is Some,
    ensures
        after(passes.take(k)) matches Some(later) && forall|a: Address|
            later.contains(a) ==> after(passes.take(j))->Some_0.contains(a),
    decreases k - j,
{
    if j < k {
        lemma_candidates_only_shrink(passes, j, k - 1);
        let before = after(passes.take(k - 1))->Some_0;
        assert(passes.take(k).drop_last() == passes.take(k - 1));
        lemma_step_narrows(before, passes.take(k).last().images, passes.take(k).last().target);
    }
}

/// In a series of scans no candidate occurs twice.
pub proof fn lemma_candidates_distinct(passes: Seq<Pass>)
    ensures
        after(passes) matches Some(candidates) ==> candidates.no_duplicates(),
    decreases passes.len(),
{
    if passes.len() > 0 {
        let last = passes.last();
        lemma_candidates_distinct(passes.drop_last());
        lemma_found_in_distinct(last.images, last.target);
        match after(passes.drop_last()) {
            Some(before) => lemma_narrowed_within(before, last.images, last.target),
            None => {},
        }
    }
}

} // verus!
