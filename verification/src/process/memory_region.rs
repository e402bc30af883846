//! One region of a process's memory: where it lies, what may be done with
//! it, and the words that an image of it holds.

use crate::filtered::{lemma_filter_member, lemma_filter_step};
use crate::process::address::{
    address_of, hex_digits, is_hex_digit, lemma_address_text_round_trip, lemma_hex_digits_value,
    lemma_range_text_round_trip, push_hex, range_of, Address, Range,
};
use crate::text::{
    chars_of, is_space, lemma_find_unique, lemma_next_word, push_chars, split_words, texts, words,
    words_from, Stop,
};
use vstd::prelude::*;

verus! {

/// What a process may do with a region, and how the region is shared.
#[derive(Debug, Clone, Copy, PartialEq, Eq, Structural)]
pub struct Perms {
    pub read: bool,
    pub write: bool,
    pub execute: bool,
    pub shared: bool,
    /// Copy on write.
    pub private: bool,
}

/// The permissions that the token `s` stands for. A token has four
/// characters. Each of `r`, `w`, `x`, `s` and `p` sets its flag wherever it
/// occurs; any other character sets none.
pub open spec fn perms_of(s: Seq<char>) -> Option<Perms> {
    if s.len() == 4 {
        Some(
            Perms {
                read: s.contains('r'),
                write: s.contains('w'),
                execute: s.contains('x'),
                shared: s.contains('s'),
                private: s.contains('p'),
            },
        )
    } else {
        None
    }
}

/// The first `i + 1` characters of a text hold `d` where the first `i` do,
/// or where the next one is `d`.
proof fn lemma_take_contains(s: Seq<char>, i: int, d: char)
    requires
        0 <= i < s.len(),
    ensures
        s.take(i + 1).contains(d) == (s.take(i).contains(d) || s[i] == d),
{
    let shorter = s.take(i);
    let longer = s.take(i + 1);
    if shorter.contains(d) {
        let k = choose|k: int| 0 <= k < shorter.len() && shorter[k] == d;
        assert(longer[k] == d);
    }
    if s[i] == d {
        assert(longer[i] == d);
    }
    if longer.contains(d) {
        let k = choose|k: int| 0 <= k < longer.len() && longer[k] == d;
        if k < i {
            assert(shorter[k] == d);
        }
    }
}

impl Perms {
    /// The token of the permissions: `r`, `w` and `x` or `-` in their
    /// places, then `p` where the region is private, else `s` where it is
    /// shared, else `-`.
    pub open spec fn text(self) -> Seq<char> {
        seq![
            if self.read { 'r' } else { '-' },
            if self.write { 'w' } else { '-' },
            if self.execute { 'x' } else { '-' },
            if self.private { 'p' } else if self.shared { 's' } else { '-' },
        ]
    }

    /// The permissions that the characters `s` stand for, if there are four.
    pub fn parse_chars(s: &[char]) -> (r: Option<Perms>)
        ensures
            r == perms_of(s@),
    {
        if s.len() != 4 {
            return None;
        }
        let mut perms = Perms {
            read: false,
            write: false,
            execute: false,
            shared: false,
            private: false,
        };
        let mut i: usize = 0;
        while i < s.len()
            invariant
                i <= s@.len(),
                perms.read == s@.take(i as int).contains('r'),
                perms.write == s@.take(i as int).contains('w'),
                perms.execute == s@.take(i as int).contains('x'),
                perms.shared == s@.take(i as int).contains('s'),
                perms.private == s@.take(i as int).contains('p'),
            decreases s@.len() - i,
        {
            let c = s[i];
            proof {
                lemma_take_contains(s@, i as int, 'r');
                lemma_take_contains(s@, i as int, 'w');
                lemma_take_contains(s@, i as int, 'x');
                lemma_take_contains(s@, i as int, 's');
                lemma_take_contains(s@, i as int, 'p');
            }
            if c == 'r' {
                perms.read = true;
            }
            if c == 'w' {
                perms.write = true;
            }
            if c == 'x' {
                perms.execute = true;
            }
            if c == 'p' {
                perms.private = true;
            }
            if c == 's' {
                perms.shared = true;
            }
            i = i + 1;
        }
        assert(s@.take(i as int) == s@);
        Some(perms)
    }

    /// Reads permissions from a token. `None` where the token does not have
    /// exactly four characters.
    pub fn parse(token: &str) -> (r: Option<Perms>)
        ensures
            r == perms_of(token@),
            r is Some <==> token@.len() == 4,
    {
        let chars = chars_of(token);
        Perms::parse_chars(chars.as_slice())
    }

    /// Reads permissions from a token of four characters.
    pub fn new_from_str(perms: &str) -> (r: Perms)
        requires
            perms@.len() == 4,
        ensures
            Some(r) == perms_of(perms@),
    {
        match Perms::parse(perms) {
            Some(r) => r,
            None => vstd::pervasive::unreached(),
        }
    }

    /// Appends the token of the permissions to `out`.
    pub fn push_to(&self, out: &mut String)
        ensures
            final(out)@ == old(out)@ + self.text(),
    {
        out.push(if self.read { 'r' } else { '-' });
        out.push(if self.write { 'w' } else { '-' });
        out.push(if self.execute { 'x' } else { '-' });
        out.push(if self.private { 'p' } else if self.shared { 's' } else { '-' });
        assert(out@ == old(out)@ + self.text());
    }

    /// Writes the permissions as `text` describes.
    pub fn to_string(&self) -> (out: String)
        ensures
            out@ == self.text(),
    {
        let mut out = String::new();
        self.push_to(&mut out);
        out
    }
}

/// Reading the token written for permissions gives them back, but for
/// `shared` where `private` is set too: the token has one place for both,
/// and `private` takes it.
pub proof fn lemma_perms_text_round_trip(p: Perms)
    ensures
        perms_of(p.text()) == Some(Perms { shared: p.shared && !p.private, ..p }),
{
    let s = p.text();
    assert(s[0] == if p.read { 'r' } else { '-' });
    assert(s[1] == if p.write { 'w' } else { '-' });
    assert(s[2] == if p.execute { 'x' } else { '-' });
    assert(s[3] == if p.private { 'p' } else if p.shared { 's' } else { '-' });
}

/// One region of a process's memory, as one line of the mapping table
/// describes it.
#[derive(Debug)]
pub struct MemoryRegion {
    /// From the first address of the region to the first one after it.
    pub addr_range: Range,
    pub perms: Perms,
    /// Where in the file behind the region it begins.
    pub offset: Address,
    /// The file behind the region; empty where there is none.
    pub pathname: String,
}

/// What a region holds, with its pathname as a sequence of characters.
pub struct RegionView {
    pub addr_range: Range,
    pub perms: Perms,
    pub offset: Address,
    pub pathname: Seq<char>,
}

impl View for MemoryRegion {
    type V = RegionView;

    open spec fn view(&self) -> RegionView {
        RegionView {
            addr_range: self.addr_range,
            perms: self.perms,
            offset: self.offset,
            pathname: self.pathname@,
        }
    }
}

/// Why a line of a mapping table stands for no region.
#[derive(Debug, Clone, Copy, PartialEq, Eq, Structural)]
pub enum RegionError {
    /// The line has fewer than three words; so an empty line.
    MissingField,
    /// The first word is no address range.
    BadRange,
    /// The second word is no permission token.
    BadPermissionToken,
    /// The third word is no address.
    BadOffset,
}

/// The region that the line `line` of a mapping table stands for. The line
/// is split at white space; its words are the address range, the
/// permissions, the offset, the device, the inode and the pathname. The
/// first three must be there and well formed; a missing pathname is empty.
/// Where several things are wrong, the error names the first of: too few
/// words, the range, the permissions, the offset.
pub open spec fn region_of(line: Seq<char>) -> Result<RegionView, RegionError> {
    let fields = words(line);
    if fields.len() < 3 {
        Err(RegionError::MissingField)
    } else {
        match (range_of(fields[0]), perms_of(fields[1]), address_of(fields[2])) {
            (None, _, _) => Err(RegionError::BadRange),
            (Some(_), None, _) => Err(RegionError::BadPermissionToken),
            (Some(_), Some(_), Err(_)) => Err(RegionError::BadOffset),
            (Some(addr_range), Some(perms), Ok(offset)) => Ok(
                RegionView {
                    addr_range,
                    perms,
                    offset,
                    pathname: if fields.len() > 5 {
                        fields[5]
                    } else {
                        Seq::empty()
                    },
                },
            ),
        }
    }
}

impl RegionView {
    /// The range of the region is well formed.
    pub open spec fn wf(self) -> bool {
        self.addr_range.wf()
    }

    /// The text of the region: its range, its permissions, its offset and
    /// its pathname, with one space between them.
    pub open spec fn text(self) -> Seq<char> {
        self.addr_range.text().push(' ') + self.perms.text().push(' ')
            + self.offset.text().push(' ') + self.pathname
    }
}

impl MemoryRegion {
    /// The region that the characters `line` stand for, or why they stand
    /// for none.
    pub fn parse_chars(line: &[char]) -> (r: Result<MemoryRegion, RegionError>)
        ensures
            match region_of(line@) {
                Ok(view) => r matches Ok(region) && region@ == view && view.wf(),
                Err(e) => r matches Err(f) && f == e,
            },
    {
        let fields = split_words(line);
        assert(texts(fields@, line@).len() == fields@.len());
        if fields.len() < 3 {
            return Err(RegionError::MissingField);
        }
        assert(texts(fields@, line@)[0] == fields@[0].of(line@));
        assert(texts(fields@, line@)[1] == fields@[1].of(line@));
        assert(texts(fields@, line@)[2] == fields@[2].of(line@));
        let addr_range = match Range::parse_chars(fields[0].slice(line)) {
            Some(range) => range,
            None => {
                return Err(RegionError::BadRange);
            },
        };
        let perms = match Perms::parse_chars(fields[1].slice(line)) {
            Some(perms) => perms,
            None => {
                return Err(RegionError::BadPermissionToken);
            },
        };
        let offset = match Address::parse_chars(fields[2].slice(line)) {
            Ok(offset) => offset,
            Err(_) => {
                return Err(RegionError::BadOffset);
            },
        };
        let mut pathname = String::new();
        if fields.len() > 5 {
            assert(texts(fields@, line@)[5] == fields@[5].of(line@));
            push_chars(&mut pathname, fields[5].slice(line));
        }
        Ok(MemoryRegion { addr_range, perms, offset, pathname })
    }

    /// Reads a region from one line of a mapping table, and says why where
    /// the line holds none.
    pub fn parse(line: &str) -> (r: Result<MemoryRegion, RegionError>)
        ensures
            match region_of(line@) {
                Ok(view) => r matches Ok(region) && region@ == view && view.wf(),
                Err(e) => r matches Err(f) && f == e,
            },
    {
        let chars = chars_of(line);
        MemoryRegion::parse_chars(chars.as_slice())
    }

    /// Reads a region from one line of a mapping table. `None` where the
    /// range, the permissions or the offset is missing or malformed; so for
    /// an empty line.
    pub fn new_from_str(line: &str) -> (r: Option<MemoryRegion>)
        ensures
            match region_of(line@) {
                Ok(view) => r matches Some(region) && region@ == view && view.wf(),
                Err(_) => r is None,
            },
    {
        match MemoryRegion::parse(line) {
            Ok(region) => Some(region),
            Err(_) => None,
        }
    }

    /// Writes the region as `RegionView::text` describes.
    pub fn to_string(&self) -> (out: String)
        ensures
            out@ == self@.text(),
    {
        let mut out = String::new();
        push_hex(&mut out, self.addr_range.start.addr);
        out.push('-');
        push_hex(&mut out, self.addr_range.end.addr);
        out.push(' ');
        self.perms.push_to(&mut out);
        out.push(' ');
        self.offset.push_to(&mut out);
        out.push(' ');
        out.append(self.pathname.as_str());
        assert(out@ == self@.text());
        out
    }

    /// Whether `addr` lies in the region, both ends counted in.
    pub fn in_region(&self, addr: &Address) -> (inside: bool)
        ensures
            inside == (self.addr_range.start.addr <= addr.addr <= self.addr_range.end.addr),
    {
        self.addr_range.start.addr <= addr.addr && addr.addr <= self.addr_range.end.addr
    }
}

/// The number that four bytes stand for, the first byte weighing most.
pub open spec fn be_value(b: Seq<u8>) -> nat
    recommends
        b.len() == 4,
{
    (b[3] + b[2] * 0x100 + b[1] * 0x1_0000 + b[0] * 0x100_0000) as nat
}

/// The number that four bytes stand for, the first byte weighing least.
pub open spec fn le_value(b: Seq<u8>) -> nat
    recommends
        b.len() == 4,
{
    (b[0] + b[1] * 0x100 + b[2] * 0x1_0000 + b[3] * 0x100_0000) as nat
}

/// Four bytes in one order stand for what their reverse stands for in the
/// other.
pub proof fn lemma_be_is_reversed_le(b: Seq<u8>)
    requires
        b.len() == 4,
    ensures
        be_value(b) == le_value(b.reverse()),
        le_value(b) <= u32::MAX,
{
}

/// The four bytes of `image` from `offset` on.
pub fn read_4_bytes(image: &[u8], offset: usize) -> (buffer: [u8; 4])
    requires
        offset + 4 <= image@.len(),
    ensures
        buffer@ == image@.subrange(offset as int, offset + 4),
{
    let buffer = [image[offset], image[offset + 1], image[offset + 2], image[offset + 3]];
    assert(buffer@ =~= image@.subrange(offset as int, offset + 4));
    buffer
}

impl MemoryRegion {
    /// Reads four bytes as a number, the first byte weighing most.
    pub fn as_u32_be(array: &[u8; 4]) -> (word: u32)
        ensures
            word == be_value(array@),
    {
        let b0: u32 = array[0] as u32;
        let b1: u32 = array[1] as u32;
        let b2: u32 = array[2] as u32;
        let b3: u32 = array[3] as u32;
        assert((b0 << 24) + (b1 << 16) + (b2 << 8) + b3 == b3 + b2 * 0x100 + b1 * 0x1_0000 + b0
            * 0x100_0000 && (b0 << 24) + (b1 << 16) <= 0xffff_0000 && (b0 << 24) + (b1 << 16) + (b2
            << 8) <= 0xffff_ff00) by (bit_vector)
            requires
                b0 < 0x100,
                b1 < 0x100,
                b2 < 0x100,
                b3 < 0x100,
        ;
        (b0 << 24) + (b1 << 16) + (b2 << 8) + b3
    }

    /// Reads four bytes as a number, the first byte weighing least.
    pub fn as_u32_le(array: &[u8; 4]) -> (word: u32)
        ensures
            word == le_value(array@),
    {
        let b0: u32 = array[0] as u32;
        let b1: u32 = array[1] as u32;
        let b2: u32 = array[2] as u32;
        let b3: u32 = array[3] as u32;
        assert(b0 + (b1 << 8) + (b2 << 16) + (b3 << 24) == b0 + b1 * 0x100 + b2 * 0x1_0000 + b3
            * 0x100_0000 && b0 + (b1 << 8) <= 0xffff && b0 + (b1 << 8) + (b2 << 16) <= 0xff_ffff)
            by (bit_vector)
            requires
                b0 < 0x100,
                b1 < 0x100,
                b2 < 0x100,
                b3 < 0x100,
        ;
        b0 + (b1 << 8) + (b2 << 16) + (b3 << 24)
    }

    /// Reads four bytes of a process's memory as the word they hold. Words
    /// are read with the first byte weighing least, on every host.
    pub fn as_u32(array: &[u8; 4]) -> (word: u32)
        ensures
            word == le_value(array@),
    {
        MemoryRegion::as_u32_le(array)
    }

    /// Whether the region gives a word at the address `a`: the region may
    /// be read, and the four bytes from `a` on lie in it, before its end.
    pub open spec fn covers(&self, a: u64) -> bool {
        &&& self.perms.read
        &&& self.addr_range.start.addr <= a
        &&& a + 4 <= self.addr_range.end.addr
    }

    /// Whether `image`, which holds the bytes of the region from its start
    /// on, holds the four bytes from the address `a` on.
    pub open spec fn in_image(&self, image: Seq<u8>, a: u64) -> bool {
        self.addr_range.start.addr <= a && a - self.addr_range.start.addr + 4 <= image.len()
    }

    /// Whether a read of the word at `a` would be cut short: the region
    /// gives a word there, and the image holds fewer than its four bytes.
    pub open spec fn truncated_at(&self, image: Seq<u8>, a: u64) -> bool {
        self.covers(a) && !self.in_image(image, a)
    }

    /// Whether the word at `a` can be read: the region gives a word there
    /// and the image holds it.
    pub open spec fn has_word(&self, image: Seq<u8>, a: u64) -> bool {
        self.covers(a) && self.in_image(image, a)
    }

    /// The word at the address `a`.
    pub open spec fn word_at(&self, image: Seq<u8>, a: u64) -> u32
        recommends
            self.has_word(image, a),
    {
        let offset = a - self.addr_range.start.addr;
        le_value(image.subrange(offset, offset + 4)) as u32
    }

    /// Whether an address holds the word `target`.
    pub open spec fn holding(&self, image: Seq<u8>, target: u32) -> spec_fn(Address) -> bool {
        |a: Address| self.has_word(image, a.addr) && self.word_at(image, a.addr) == target
    }

    /// Whether `a` is one of the addresses that a scan of the region tries:
    /// the start of the region or a multiple of four above it.
    pub open spec fn on_grid(&self, a: u64) -> bool {
        self.addr_range.start.addr <= a && (a - self.addr_range.start.addr) % 4 == 0
    }

    /// The number of words that a scan of the region tries: the whole words
    /// between its start and its end; none where it may not be read.
    pub open spec fn word_count(&self) -> nat {
        let start = self.addr_range.start.addr;
        let end = self.addr_range.end.addr;
        if self.perms.read && start <= end {
            ((end - start) / 4) as nat
        } else {
            0
        }
    }

    /// Whether `image` holds every word that a scan of the region tries, so
    /// that no read of the scan is cut short.
    pub open spec fn complete(&self, image: Seq<u8>) -> bool {
        4 * self.word_count() <= image.len()
    }

    /// The addresses that a scan of the region tries: every fourth address
    /// from its start on whose word lies before its end, in rising order.
    pub open spec fn word_addresses(&self) -> Seq<Address> {
        Seq::new(
            self.word_count(),
            |k: int| Address { addr: (self.addr_range.start.addr + 4 * k) as u64 },
        )
    }

    /// The addresses of the words of the region that hold `target`, in
    /// rising order.
    pub open spec fn matches(&self, image: Seq<u8>, target: u32) -> Seq<Address> {
        self.word_addresses().filter(self.holding(image, target))
    }

    /// Decides `truncated_at`.
    pub fn is_truncated_at(&self, image: &[u8], addr: &Address) -> (b: bool)
        ensures
            b == self.truncated_at(image@, addr.addr),
    {
        let start = self.addr_range.start.addr;
        let end = self.addr_range.end.addr;
        if !self.perms.read || addr.addr < start || end < 4 || addr.addr > end - 4 {
            return false;
        }
        let len: u64 = image.len() as u64;
        len < 4 || addr.addr - start > len - 4
    }

    /// Decides `complete`.
    pub fn is_complete(&self, image: &[u8]) -> (b: bool)
        ensures
            b == self.complete(image@),
    {
        let start = self.addr_range.start.addr;
        let end = self.addr_range.end.addr;
        if !self.perms.read || start > end {
            return true;
        }
        (end - start) / 4 <= image.len() as u64 / 4
    }

    /// The word at `addr`; `image` holds the bytes of the region from its
    /// start on. `None` where the region gives no word at `addr`: where it
    /// may not be read, and where the four bytes do not lie in it. A read
    /// that would be cut short is left out: where the region gives a word,
    /// the image must hold it.
    pub fn read_addr(&self, image: &[u8], addr: &Address) -> (word: Option<u32>)
        requires
            !self.truncated_at(image@, addr.addr),
        ensures
            word == if self.covers(addr.addr) {
                Some(self.word_at(image@, addr.addr))
            } else {
                None
            },
            !self.perms.read ==> word is None,
    {
        let start = self.addr_range.start.addr;
        let end = self.addr_range.end.addr;
        if !self.perms.read || addr.addr < start || end < 4 || addr.addr > end - 4 {
            return None;
        }
        let offset: u64 = addr.addr - start;
        assert(offset + 4 <= image.len());
        let buffer = read_4_bytes(image, offset as usize);
        proof {
            lemma_be_is_reversed_le(buffer@);
        }
        Some(MemoryRegion::as_u32(&buffer))
    }

    /// The addresses of the words of the region that hold `target`; `image`
    /// holds the bytes of the region from its start on. Every fourth
    /// address from the start is tried whose word lies before the end of
    /// the region. `None` where the region may not be read. A scan with a
    /// read cut short is left out: the image must hold every word that is
    /// tried.
    pub fn read_mem(&self, image: &[u8], target: u32) -> (found: Option<Vec<Address>>)
        requires
            self.complete(image@),
        ensures
            found is Some <==> self.perms.read,
            found matches Some(list) ==> list@ == self.matches(image@, target),
    {
        if !self.perms.read {
            return None;
        }
        let start = self.addr_range.start.addr;
        let end = self.addr_range.end.addr;
        let count: u64 = if start > end {
            0
        } else {
            (end - start) / 4
        };
        let mut list: Vec<Address> = Vec::new();
        let mut k: u64 = 0;
        while k < count
            invariant
                k <= count,
                count == self.word_count(),
                start == self.addr_range.start.addr,
                count > 0 ==> start + 4 * count <= self.addr_range.end.addr,
                self.complete(image@),
                self.perms.read,
                list@ == self.word_addresses().take(k as int).filter(self.holding(image@, target)),
            decreases count - k,
        {
            let addr = Address { addr: start + 4 * k };
            let word = self.read_addr(image, &addr);
            proof {
                lemma_filter_step(self.word_addresses(), k as int, self.holding(image@, target));
            }
            if word == Some(target) {
                list.push(addr);
            }
            k = k + 1;
        }
        assert(self.word_addresses().take(k as int) == self.word_addresses());
        Some(list)
    }

    /// Those of the addresses `addrs` at which the region gives a word that
    /// holds `target`, in the order of `addrs`; `image` holds the bytes of
    /// the region from its start on. `None` where the region may not be
    /// read. A read cut short is left out: the image must hold the word at
    /// every address of `addrs` at which the region gives one.
    pub fn read_mem_from_addr_list(&self, image: &[u8], addrs: &Vec<Address>, target: u32) -> (found:
        Option<Vec<Address>>)
        requires
            forall|i: int| 0 <= i < addrs@.len() ==> !self.truncated_at(image@, (#[trigger] addrs@[i]).addr),
        ensures
            found is Some <==> self.perms.read,
            found matches Some(list) ==> list@ == addrs@.filter(self.holding(image@, target)),
    {
        if !self.perms.read {
            return None;
        }
        let mut list: Vec<Address> = Vec::new();
        let mut i: usize = 0;
        while i < addrs.len()
            invariant
                i <= addrs@.len(),
                forall|i: int|
                    0 <= i < addrs@.len() ==> !self.truncated_at(image@, (#[trigger] addrs@[i]).addr),
                list@ == addrs@.take(i as int).filter(self.holding(image@, target)),
            decreases addrs@.len() - i,
        {
            let addr = addrs[i];
            let word = self.read_addr(image, &addr);
            proof {
                lemma_filter_step(addrs@, i as int, self.holding(image@, target));
            }
            if word == Some(target) {
                list.push(addr);
            }
            i = i + 1;
        }
        assert(addrs@.take(i as int) == addrs@);
        Some(list)
    }
}

/// Where the image holds every word that a scan of the region tries, no read
/// at an address that the scan tries is cut short.
pub proof fn lemma_complete_on_grid(region: &MemoryRegion, image: Seq<u8>, a: u64)
    requires
        region.complete(image),
        region.on_grid(a),
    ensures
        !region.truncated_at(image, a),
{
    if region.covers(a) {
        let k = (a - region.addr_range.start.addr) / 4;
        assert(k < region.word_count());
    }
}


/// A scan of a region finds an address if and only if the address is one
/// that the scan tries, the region gives a word there, and the word is the
/// target.
pub proof fn lemma_matches_exact(region: &MemoryRegion, image: Seq<u8>, target: u32, a: Address)
    ensures
        region.matches(image, target).contains(a) <==> region.on_grid(a.addr) && region.holding(
            image,
            target,
        )(a),
{
    let all = region.word_addresses();
    let start = region.addr_range.start.addr;
    lemma_filter_member(all, region.holding(image, target), a);
    if all.contains(a) {
        let k = choose|k: int| 0 <= k < all.len() && all[k] == a;
        assert(a.addr == start + 4 * k);
    }
    if region.on_grid(a.addr) && region.has_word(image, a.addr) {
        let k = (a.addr - start) / 4;
        assert(0 <= k < region.word_count());
        assert(all[k] == a);
    }
}

/// A scan of a region finds its addresses in rising order, so none twice.
pub proof fn lemma_matches_rise(region: &MemoryRegion, image: Seq<u8>, target: u32)
    ensures
        forall|i: int, j: int|
            0 <= i < j < region.matches(image, target).len() ==> region.matches(image, target)[i].addr
                < region.matches(image, target)[j].addr,
        region.matches(image, target).no_duplicates(),
{
    let all = region.word_addresses();
    lemma_filter_rises(all, region.holding(image, target));
}

/// Whether the addresses of `s` rise from each to the next.
pub open spec fn rising(s: Seq<Address>) -> bool {
    forall|i: int, j: int| 0 <= i < j < s.len() ==> s[i].addr < s[j].addr
}

/// Of addresses that rise, a filter keeps addresses that rise.
proof fn lemma_filter_rises(s: Seq<Address>, keep: spec_fn(Address) -> bool)
    requires
        rising(s),
    ensures
        rising(s.filter(keep)),
        s.filter(keep).no_duplicates(),
        forall|i: int|
            0 <= i < s.filter(keep).len() && s.len() > 0 ==> (#[trigger] s.filter(keep)[i]).addr
                <= s.last().addr,
    decreases s.len(),
{
    reveal(Seq::filter);
    if s.len() > 0 {
        let init = s.drop_last();
        assert(rising(init)) by {
            assert forall|i: int, j: int| 0 <= i < j < init.len() implies init[i].addr
                < init[j].addr by {
                assert(s[i].addr < s[j].addr);
            }
        }
        lemma_filter_rises(init, keep);
        let kept = init.filter(keep);
        assert forall|i: int| 0 <= i < kept.len() implies (#[trigger] kept[i]).addr
            < s.last().addr by {
            assert(init.len() > 0);
            assert(init.last() == s[s.len() - 2]);
            assert(s[s.len() - 2].addr < s[s.len() - 1].addr);
        }
    }
}

/// The permissions that the token written for `p` stands for: `p`, but for
/// `shared` where `private` is set too.
pub open spec fn as_written(p: Perms) -> Perms {
    Perms { shared: p.shared && !p.private, ..p }
}

/// Whether `s` is one word: it is not empty and holds no white space.
pub open spec fn is_word(s: Seq<char>) -> bool {
    s.len() > 0 && forall|i: int| 0 <= i < s.len() ==> !is_space(#[trigger] s[i])
}

/// The words of the text written for a region: the text of its range, the
/// token of its permissions and the text of its offset, and then the words
/// of its pathname. So for a pathname of one word the words are these four,
/// and for an empty pathname the first three.
pub proof fn lemma_region_text_words(v: RegionView)
    ensures
        words(v.text()).len() >= 3,
        words(v.text())[0] == v.addr_range.text(),
        words(v.text())[1] == v.perms.text(),
        words(v.text())[2] == v.offset.text(),
        is_word(v.pathname) ==> words(v.text()) == seq![
            v.addr_range.text(),
            v.perms.text(),
            v.offset.text(),
            v.pathname,
        ],
        v.pathname.len() == 0 ==> words(v.text()) == seq![
            v.addr_range.text(),
            v.perms.text(),
            v.offset.text(),
        ],
{
    let range = v.addr_range.text();
    let perms = v.perms.text();
    let offset = v.offset.text();
    let s = v.text();
    let a = range.len() as int;
    let b = a + 1 + perms.len();
    let c = b + 1 + offset.len();
    let end = s.len() as int;
    lemma_address_text_round_trip(v.offset);
    lemma_hex_digits_value(v.addr_range.start.addr as nat);
    lemma_hex_digits_value(v.addr_range.end.addr as nat);
    let first = hex_digits(v.addr_range.start.addr as nat);
    let second = hex_digits(v.addr_range.end.addr as nat);
    assert forall|k: int| 0 <= k < a implies !is_space(#[trigger] s[k]) by {
        assert(s[k] == range[k]);
        if k < first.len() {
            assert(range[k] == first[k]);
            assert(is_hex_digit(first[k]));
        } else if k > first.len() {
            assert(range[k] == second[k - first.len() - 1]);
            assert(is_hex_digit(second[k - first.len() - 1]));
        }
    }
    assert(s[a] == ' ');
    assert forall|k: int| a + 1 <= k < b implies !is_space(#[trigger] s[k]) by {
        assert(s[k] == perms[k - a - 1]);
    }
    assert(s[b] == ' ');
    assert(address_of(offset) is Ok);
    assert forall|k: int| b + 1 <= k < c implies !is_space(#[trigger] s[k]) by {
        assert(s[k] == offset[k - b - 1]);
        assert(is_hex_digit(offset[k - b - 1]));
    }
    assert(s[c] == ' ');
    lemma_next_word(s, 0, 0, a);
    lemma_next_word(s, a, a + 1, b);
    lemma_next_word(s, b, b + 1, c);
    assert(s.subrange(0, a) == range);
    assert(s.subrange(a + 1, b) == perms);
    assert(s.subrange(b + 1, c) == offset);
    let fields = words(s);
    assert(fields == seq![range] + (seq![perms] + (seq![offset] + words_from(s, c))));
    assert(fields[0] == range);
    assert(fields[1] == perms);
    assert(fields[2] == offset);
    if is_word(v.pathname) {
        assert forall|k: int| c + 1 <= k < end implies !is_space(#[trigger] s[k]) by {
            assert(s[k] == v.pathname[k - c - 1]);
        }
        lemma_next_word(s, c, c + 1, end);
        assert(s.subrange(c + 1, end) == v.pathname);
        lemma_find_unique(s, end, Stop::NonSpace, end);
        assert(words_from(s, end) == Seq::<Seq<char>>::empty());
        assert(fields == seq![range, perms, offset, v.pathname]);
    }
    if v.pathname.len() == 0 {
        lemma_find_unique(s, c, Stop::NonSpace, end);
        assert(words_from(s, c) == Seq::<Seq<char>>::empty());
        assert(fields == seq![range, perms, offset]);
    }
}

/// Reading the text written for a well-formed region gives a region with
/// the same range, the same offset, and the permissions as they are
/// written. The pathname stands where a line has its device, and is not
/// read back: the region read has an empty pathname, where the pathname
/// written is empty or one word.
pub proof fn lemma_region_text_round_trip(v: RegionView)
    requires
        v.wf(),
    ensures
        region_of(v.text()) matches Ok(w) && w.addr_range == v.addr_range && w.offset == v.offset
            && w.perms == as_written(v.perms),
        is_word(v.pathname) || v.pathname.len() == 0 ==> region_of(v.text())->Ok_0.pathname
            == Seq::<char>::empty(),
{
    lemma_region_text_words(v);
    lemma_range_text_round_trip(v.addr_range);
    lemma_perms_text_round_trip(v.perms);
    lemma_address_text_round_trip(v.offset);
}

} // verus!
