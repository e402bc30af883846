//! Text as sequences of characters: classes of characters, scanning,
//! splitting into words and fields, and conversion from and to strings.

use vstd::prelude::*;

verus! {

/// `String::push` appends one character to the end of the string.
pub assume_specification[ String::push ](s: &mut String, ch: char)
    ensures
        final(s)@ == old(s)@.push(ch),
;

/// White space as Unicode defines it (the property `White_Space`).
pub open spec fn is_space(c: char) -> bool {
    let n = c as u32;
    ||| 0x09 <= n <= 0x0d
    ||| n == 0x20
    ||| n == 0x85
    ||| n == 0xa0
    ||| n == 0x1680
    ||| 0x2000 <= n <= 0x200a
    ||| n == 0x2028
    ||| n == 0x2029
    ||| n == 0x202f
    ||| n == 0x205f
    ||| n == 0x3000
}

/// A class of characters at which a scan stops.
#[derive(Clone, Copy, Debug)]
pub enum Stop {
    /// Any white space character.
    Space,
    /// Any character that is not white space.
    NonSpace,
    /// The given character.
    Char(char),
}

impl Stop {
    /// Whether `c` belongs to the class.
    pub open spec fn holds(self, c: char) -> bool {
        match self {
            Stop::Space => is_space(c),
            Stop::NonSpace => !is_space(c),
            Stop::Char(d) => c == d,
        }
    }

    /// Decides `holds`.
    pub fn test(self, c: char) -> (b: bool)
        ensures
            b == self.holds(c),
    {
        match self {
            Stop::Space => space(c),
            Stop::NonSpace => !space(c),
            Stop::Char(d) => c == d,
        }
    }
}

/// Decides `is_space`.
pub fn space(c: char) -> (b: bool)
    ensures
        b == is_space(c),
{
    let n: u32 = c as u32;
    (0x09 <= n && n <= 0x0d) || n == 0x20 || n == 0x85 || n == 0xa0 || n == 0x1680 || (0x2000 <= n
        && n <= 0x200a) || n == 0x2028 || n == 0x2029 || n == 0x202f || n == 0x205f || n == 0x3000
}

/// The first position at or after `i` whose character is in `stop`, or the
/// length of `s` where there is none.
pub open spec fn find(s: Seq<char>, i: int, stop: Stop) -> int
    decreases s.len() - i,
{
    if 0 <= i < s.len() && !stop.holds(s[i]) {
        find(s, i + 1, stop)
    } else {
        i
    }
}

/// `find` stays inside the text, stops only at a character of the class,
/// and passes over no such character.
pub proof fn lemma_find(s: Seq<char>, i: int, stop: Stop)
    requires
        0 <= i <= s.len(),
    ensures
        i <= find(s, i, stop) <= s.len(),
        find(s, i, stop) < s.len() ==> stop.holds(s[find(s, i, stop)]),
        forall|k: int| i <= k < find(s, i, stop) ==> !stop.holds(#[trigger] s[k]),
    decreases s.len() - i,
{
    if i < s.len() && !stop.holds(s[i]) {
        lemma_find(s, i + 1, stop);
    }
}

/// A position that satisfies what `lemma_find` states is the one `find` gives.
pub proof fn lemma_find_unique(s: Seq<char>, i: int, stop: Stop, j: int)
    requires
        0 <= i <= j <= s.len(),
        j < s.len() ==> stop.holds(s[j]),
        forall|k: int| i <= k < j ==> !stop.holds(#[trigger] s[k]),
    ensures
        find(s, i, stop) == j,
    decreases j - i,
{
    if i < j {
        assert(!stop.holds(s[i]));
        lemma_find_unique(s, i + 1, stop, j);
    }
}

/// Computes `find`.
pub fn seek(s: &[char], i: usize, stop: Stop) -> (j: usize)
    requires
        i <= s@.len(),
    ensures
        j == find(s@, i as int, stop),
        i <= j <= s@.len(),
{
    let mut j: usize = i;
    while j < s.len() && !stop.test(s[j])
        invariant
            i <= j <= s@.len(),
            forall|k: int| i <= k < j ==> !stop.holds(#[trigger] s@[k]),
        decreases s@.len() - j,
    {
        j = j + 1;
    }
    proof {
        lemma_find_unique(s@, i as int, stop, j as int);
    }
    j
}

/// The words of `s` from position `i` on: the maximal runs of characters that
/// are not white space, in order.
pub open spec fn words_from(s: Seq<char>, i: int) -> Seq<Seq<char>>
    decreases s.len() - i,
    via words_from_decreases
{
    let a = find(s, i, Stop::NonSpace);
    if 0 <= i <= a < s.len() {
        let b = find(s, a, Stop::Space);
        seq![s.subrange(a, b)] + words_from(s, b)
    } else {
        Seq::empty()
    }
}

#[via_fn]
proof fn words_from_decreases(s: Seq<char>, i: int) {
    let a = find(s, i, Stop::NonSpace);
    if 0 <= i <= a < s.len() {
        lemma_find(s, i, Stop::NonSpace);
        lemma_find(s, a, Stop::Space);
    }
}

/// Where white space and then a word stand in `s` from `i` on, the word
/// ending at `b`, the words from `i` on are that word and those from `b` on.
pub proof fn lemma_next_word(s: Seq<char>, i: int, a: int, b: int)
    requires
        0 <= i <= a < b <= s.len(),
        forall|k: int| i <= k < a ==> is_space(#[trigger] s[k]),
        forall|k: int| a <= k < b ==> !is_space(#[trigger] s[k]),
        b < s.len() ==> is_space(s[b]),
    ensures
        words_from(s, i) == seq![s.subrange(a, b)] + words_from(s, b),
{
    assert(!is_space(s[a]));
    lemma_find_unique(s, i, Stop::NonSpace, a);
    lemma_find_unique(s, a, Stop::Space, b);
}

/// The words of `s`: what splitting it at white space leaves.
pub open spec fn words(s: Seq<char>) -> Seq<Seq<char>> {
    words_from(s, 0)
}

/// The pieces of `s` from position `i` on that the separator `sep` parts.
/// There is one piece more than there are separators.
pub open spec fn pieces_from(s: Seq<char>, i: int, sep: char) -> Seq<Seq<char>>
    decreases s.len() - i,
    via pieces_from_decreases
{
    let e = find(s, i, Stop::Char(sep));
    if 0 <= i <= e < s.len() {
        seq![s.subrange(i, e)] + pieces_from(s, e + 1, sep)
    } else if 0 <= i <= s.len() {
        seq![s.subrange(i, s.len() as int)]
    } else {
        Seq::empty()
    }
}

#[via_fn]
proof fn pieces_from_decreases(s: Seq<char>, i: int, sep: char) {
    let e = find(s, i, Stop::Char(sep));
    if 0 <= i <= e < s.len() {
        lemma_find(s, i, Stop::Char(sep));
    }
}

/// The pieces of `s` between the occurrences of `sep`.
pub open spec fn pieces(s: Seq<char>, sep: char) -> Seq<Seq<char>> {
    pieces_from(s, 0, sep)
}

/// A stretch of a text: the positions from `from` up to `to`, which is left out.
#[derive(Clone, Copy, Debug)]
pub struct Span {
    pub from: usize,
    pub to: usize,
}

impl Span {
    /// The characters of `s` that the span covers.
    pub open spec fn of(self, s: Seq<char>) -> Seq<char> {
        s.subrange(self.from as int, self.to as int)
    }

    /// The span lies inside a text of length `len`.
    pub open spec fn within(self, len: nat) -> bool {
        self.from <= self.to <= len
    }

    /// The part of `s` that the span covers.
    pub fn slice<'a>(&self, s: &'a [char]) -> (r: &'a [char])
        requires
            self.within(s@.len()),
        ensures
            r@ == self.of(s@),
    {
        vstd::slice::slice_subrange(s, self.from, self.to)
    }
}

/// The texts that `spans` cover in `s`, in order.
pub open spec fn texts(spans: Seq<Span>, s: Seq<char>) -> Seq<Seq<char>> {
    Seq::new(spans.len(), |k: int| spans[k].of(s))
}

/// Every span of `spans` lies inside a text of length `len`.
pub open spec fn all_within(spans: Seq<Span>, len: nat) -> bool {
    forall|k: int| 0 <= k < spans.len() ==> (#[trigger] spans[k]).within(len)
}

/// Splits `s` at white space. The result holds where each word stands.
pub fn split_words(s: &[char]) -> (spans: Vec<Span>)
    ensures
        texts(spans@, s@) == words(s@),
        all_within(spans@, s@.len()),
{
    let mut spans: Vec<Span> = Vec::new();
    let mut i: usize = 0;
    loop
        invariant
            i <= s@.len(),
            all_within(spans@, s@.len()),
            words(s@) == texts(spans@, s@) + words_from(s@, i as int),
        ensures
            texts(spans@, s@) == words(s@),
            all_within(spans@, s@.len()),
        decreases s@.len() - i,
    {
        let a = seek(s, i, Stop::NonSpace);
        if a >= s.len() {
            break ;
        }
        let b = seek(s, a, Stop::Space);
        proof {
            lemma_find(s@, a as int, Stop::Space);
            let ghost before = texts(spans@, s@);
            let ghost after = texts(spans@.push(Span { from: a, to: b }), s@);
            assert(after == before + seq![s@.subrange(a as int, b as int)]);
        }
        spans.push(Span { from: a, to: b });
        i = b;
    }
    spans
}

/// Splits `s` at each occurrence of `sep`. The result holds where each piece
/// stands.
pub fn split_at(s: &[char], sep: char) -> (spans: Vec<Span>)
    ensures
        texts(spans@, s@) == pieces(s@, sep),
        all_within(spans@, s@.len()),
{
    let mut spans: Vec<Span> = Vec::new();
    let mut i: usize = 0;
    loop
        invariant_except_break
            pieces(s@, sep) == texts(spans@, s@) + pieces_from(s@, i as int, sep),
        invariant
            i <= s@.len(),
            all_within(spans@, s@.len()),
        ensures
            texts(spans@, s@) == pieces(s@, sep),
            all_within(spans@, s@.len()),
        decreases s@.len() - i,
    {
        let e = seek(s, i, Stop::Char(sep));
        proof {
            let ghost before = texts(spans@, s@);
            let ghost after = texts(spans@.push(Span { from: i, to: e }), s@);
            assert(after == before + seq![s@.subrange(i as int, e as int)]);
        }
        spans.push(Span { from: i, to: e });
        if e >= s.len() {
            break ;
        }
        i = e + 1;
    }
    spans
}

/// The characters of `s`, in order.
pub fn chars_of(s: &str) -> (v: Vec<char>)
    ensures
        v@ == s@,
{
    let mut v: Vec<char> = Vec::new();
    let it = s.chars();
    for c in iter: it
        invariant
            v@ == iter.seq().take(iter.index()),
            iter.seq() == s@,
    {
        v.push(c);
    }
    v
}

/// Appends the characters of `s` to `out`.
pub fn push_chars(out: &mut String, s: &[char])
    ensures
        final(out)@ == old(out)@ + s@,
{
    let mut i: usize = 0;
    while i < s.len()
        invariant
            i <= s@.len(),
            out@ == old(out)@ + s@.take(i as int),
        decreases s@.len() - i,
    {
        out.push(s[i]);
        i = i + 1;
    }
}

/// Whether `needle` stands in `hay` from position `k` on.
pub open spec fn occurs_at(hay: Seq<char>, needle: Seq<char>, k: int) -> bool {
    0 <= k && k + needle.len() <= hay.len() && hay.subrange(k, k + needle.len()) == needle
}

/// Whether `needle` stands somewhere in `hay`. The empty text stands in
/// every text.
pub open spec fn contains_text(hay: Seq<char>, needle: Seq<char>) -> bool {
    exists|k: int| occurs_at(hay, needle, k)
}

/// Decides `occurs_at`.
pub fn matches_at(hay: &[char], needle: &[char], k: usize) -> (b: bool)
    requires
        k + needle@.len() <= hay@.len(),
    ensures
        b == occurs_at(hay@, needle@, k as int),
{
    let mut i: usize = 0;
    while i < needle.len()
        invariant
            i <= needle@.len(),
            k + needle@.len() <= hay.len() == hay@.len(),
            forall|j: int| 0 <= j < i ==> hay@[k + j] == needle@[j],
        decreases needle@.len() - i,
    {
        if hay[k + i] != needle[i] {
            assert(hay@.subrange(k as int, k + needle@.len())[i as int] != needle@[i as int]);
            return false;
        }
        i = i + 1;
    }
    assert(hay@.subrange(k as int, k + needle@.len()) =~= needle@);
    true
}

/// Decides `contains_text`.
pub fn contains(hay: &[char], needle: &[char]) -> (b: bool)
    ensures
        b == contains_text(hay@, needle@),
{
    if needle.len() > hay.len() {
        return false;
    }
    let last: usize = hay.len() - needle.len();
    let mut k: usize = 0;
    loop
        invariant
            k <= last,
            last == hay@.len() - needle@.len(),
            forall|j: int| 0 <= j < k ==> !occurs_at(hay@, needle@, j),
        decreases last - k,
    {
        if matches_at(hay, needle, k) {
            return true;
        }
        if k == last {
            return false;
        }
        k = k + 1;
    }
}

} // verus!
