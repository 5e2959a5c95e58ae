//! Text positions: converting a character index into a byte or UTF-16 offset
//! and back, and the small handles of the text layout cache.

use vstd::prelude::*;

verus! {

/// The number of UTF-8 bytes that encode `c`.
pub open spec fn utf8_width(c: char) -> nat {
    if (c as u32) < 0x80 {
        1
    } else if (c as u32) < 0x800 {
        2
    } else if (c as u32) < 0x10000 {
        3
    } else {
        4
    }
}

/// The number of UTF-16 code units that encode `c`.
pub open spec fn utf16_width(c: char) -> nat {
    if (c as u32) < 0x10000 {
        1
    } else {
        2
    }
}

/// The UTF-8 length of a character sequence.
pub open spec fn utf8_len(s: Seq<char>) -> nat
    decreases s.len(),
{
    if s.len() == 0 {
        0
    } else {
        utf8_len(s.drop_last()) + utf8_width(s.last())
    }
}

/// The UTF-16 length of a character sequence.
pub open spec fn utf16_len(s: Seq<char>) -> nat
    decreases s.len(),
{
    if s.len() == 0 {
        0
    } else {
        utf16_len(s.drop_last()) + utf16_width(s.last())
    }
}

/// Prefixes are no longer than the whole, in either encoding, and the UTF-16
/// length is at most the UTF-8 length.
pub proof fn lemma_prefix_lengths(s: Seq<char>, i: int)
    requires
        0 <= i <= s.len(),
    ensures
        utf8_len(s.take(i)) <= utf8_len(s),
        utf16_len(s.take(i)) <= utf16_len(s),
        utf16_len(s) <= utf8_len(s),
    decreases s.len(),
{
    if s.len() > 0 {
        if i == s.len() {
            assert(s.take(i) =~= s);
            lemma_prefix_lengths(s.drop_last(), 0);
        } else {
            assert(s.take(i) =~= s.drop_last().take(i));
            lemma_prefix_lengths(s.drop_last(), i);
        }
    }
}

/// Every character takes at least one byte.
proof fn lemma_len_le_utf8(s: Seq<char>)
    ensures
        s.len() <= utf8_len(s),
    decreases s.len(),
{
    if s.len() > 0 {
        lemma_len_le_utf8(s.drop_last());
    }
}

/// One more character of a prefix adds its width.
proof fn lemma_take_step(s: Seq<char>, i: int)
    requires
        0 <= i < s.len(),
    ensures
        utf8_len(s.take(i + 1)) == utf8_len(s.take(i)) + utf8_width(s[i]),
        utf16_len(s.take(i + 1)) == utf16_len(s.take(i)) + utf16_width(s[i]),
{
    assert(s.take(i + 1).drop_last() =~= s.take(i));
}

fn char_utf8_width(c: char) -> (r: usize)
    ensures
        r == utf8_width(c),
{
    let v = c as u32;
    if v < 0x80 {
        1
    } else if v < 0x800 {
        2
    } else if v < 0x10000 {
        3
    } else {
        4
    }
}

fn char_utf16_width(c: char) -> (r: usize)
    ensures
        r == utf16_width(c),
{
    if (c as u32) < 0x10000 {
        1
    } else {
        2
    }
}

/// The byte offset at which character `char_index` starts; the byte length
/// of the text for an index at or past its end.
pub fn char_to_byte_offset(text: &str, char_index: usize) -> (r: usize)
    requires
        utf8_len(text@) <= usize::MAX,
    ensures
        r == utf8_len(text@.take(if char_index < text@.len() { char_index as int } else { text@.len() as int })),
{
    let ghost s = text@;
    let mut pos: usize = 0;
    let mut i: usize = 0;
    for c in it: text.chars()
        invariant
            s == text@,
            it.seq() == s,
            i == it.index(),
            i <= char_index,
            pos == utf8_len(s.take(i as int)),
            utf8_len(s) <= usize::MAX,
    {
        if i == char_index {
            return pos;
        }
        proof {
            lemma_take_step(s, i as int);
            lemma_prefix_lengths(s, i + 1);
        }
        pos = pos + char_utf8_width(c);
        i = i + 1;
    }
    proof {
        assert(s.take(s.len() as int) =~= s);
    }
    pos
}

/// The UTF-16 offset at which character `char_index` starts; the UTF-16
/// length of the text for an index at or past its end.
pub fn char_to_utf16_offset(text: &str, char_index: usize) -> (r: usize)
    requires
        utf8_len(text@) <= usize::MAX,
    ensures
        r == utf16_len(text@.take(if char_index < text@.len() { char_index as int } else { text@.len() as int })),
{
    let ghost s = text@;
    let mut units: usize = 0;
    let mut i: usize = 0;
    for c in it: text.chars()
        invariant
            s == text@,
            it.seq() == s,
            i == it.index(),
            i <= char_index,
            units == utf16_len(s.take(i as int)),
            utf8_len(s) <= usize::MAX,
    {
        if i == char_index {
            return units;
        }
        proof {
            lemma_take_step(s, i as int);
            lemma_prefix_lengths(s, i + 1);
        }
        units = units + char_utf16_width(c);
        i = i + 1;
    }
    proof {
        assert(s.take(s.len() as int) =~= s);
    }
    units
}

/// The index of the first character that starts at or after `byte_offset`
/// (the character count if none does): the number of characters that start
/// before it.
pub fn byte_to_char_index(text: &str, byte_offset: usize) -> (r: usize)
    requires
        utf8_len(text@) <= usize::MAX,
    ensures
        r <= text@.len(),
        r == text@.len() || utf8_len(text@.take(r as int)) >= byte_offset,
        forall|j: int| 0 <= j < r ==> #[trigger] utf8_len(text@.take(j)) < byte_offset,
{
    let ghost s = text@;
    proof {
        lemma_len_le_utf8(s);
    }
    let mut pos: usize = 0;
    let mut i: usize = 0;
    for c in it: text.chars()
        invariant
            s == text@,
            it.seq() == s,
            i == it.index(),
            pos == utf8_len(s.take(i as int)),
            utf8_len(s) <= usize::MAX,
            forall|j: int| 0 <= j < i ==> #[trigger] utf8_len(s.take(j)) < byte_offset,
            s.len() <= usize::MAX,
    {
        if pos >= byte_offset {
            return i;
        }
        proof {
            lemma_take_step(s, i as int);
            lemma_prefix_lengths(s, i + 1);
        }
        pos = pos + char_utf8_width(c);
        i = i + 1;
    }
    i
}

/// The index of the first character that starts at or after UTF-16 offset
/// `utf16_offset` (the character count if none does).
pub fn utf16_to_char_index(text: &str, utf16_offset: usize) -> (r: usize)
    requires
        utf8_len(text@) <= usize::MAX,
    ensures
        r <= text@.len(),
        r == text@.len() || utf16_len(text@.take(r as int)) >= utf16_offset,
        forall|j: int| 0 <= j < r ==> #[trigger] utf16_len(text@.take(j)) < utf16_offset,
{
    let ghost s = text@;
    proof {
        lemma_len_le_utf8(s);
    }
    let mut units: usize = 0;
    let mut i: usize = 0;
    for c in it: text.chars()
        invariant
            s == text@,
            it.seq() == s,
            i == it.index(),
            units == utf16_len(s.take(i as int)),
            utf8_len(s) <= usize::MAX,
            forall|j: int| 0 <= j < i ==> #[trigger] utf16_len(s.take(j)) < utf16_offset,
            s.len() <= usize::MAX,
    {
        if units >= utf16_offset {
            return i;
        }
        proof {
            lemma_take_step(s, i as int);
            lemma_prefix_lengths(s, i + 1);
        }
        units = units + char_utf16_width(c);
        i = i + 1;
    }
    i
}


/// The number of characters of a text.
pub fn char_count(text: &str) -> (r: usize)
    requires
        utf8_len(text@) <= usize::MAX,
    ensures
        r == text@.len(),
{
    let ghost s = text@;
    proof {
        lemma_len_le_utf8(s);
    }
    let mut n: usize = 0;
    for _c in it: text.chars()
        invariant
            s == text@,
            it.seq() == s,
            n == it.index(),
            s.len() <= usize::MAX,
    {
        n = n + 1;
    }
    n
}

/// `r` is the first character index whose start is at or past byte `b`
/// (the character count if there is none).
pub open spec fn is_first_at_byte(s: Seq<char>, b: int, r: int) -> bool {
    &&& 0 <= r <= s.len()
    &&& r == s.len() || utf8_len(s.take(r)) >= b
    &&& forall|j: int| 0 <= j < r ==> #[trigger] utf8_len(s.take(j)) < b
}

/// `r` is the first character index whose start is at or past UTF-16 unit `u`.
pub open spec fn is_first_at_utf16(s: Seq<char>, u: int, r: int) -> bool {
    &&& 0 <= r <= s.len()
    &&& r == s.len() || utf16_len(s.take(r)) >= u
    &&& forall|j: int| 0 <= j < r ==> #[trigger] utf16_len(s.take(j)) < u
}

/// Character starts strictly increase, in either encoding.
proof fn lemma_starts_increase(s: Seq<char>, j: int, i: int)
    requires
        0 <= j < i <= s.len(),
    ensures
        utf8_len(s.take(j)) < utf8_len(s.take(i)),
        utf16_len(s.take(j)) < utf16_len(s.take(i)),
    decreases i - j,
{
    lemma_take_step(s, i - 1);
    if j < i - 1 {
        lemma_starts_increase(s, j, i - 1);
    }
}

/// At most one index is the first at a byte offset, and at most one at a
/// UTF-16 offset.
pub proof fn law_first_index_unique(s: Seq<char>, b: int, r1: int, r2: int)
    ensures
        is_first_at_byte(s, b, r1) && is_first_at_byte(s, b, r2) ==> r1 == r2,
        is_first_at_utf16(s, b, r1) && is_first_at_utf16(s, b, r2) ==> r1 == r2,
{
    if r1 < r2 {
        assert(utf8_len(s.take(r1)) < b ==> !(utf8_len(s.take(r1)) >= b));
    }
}

/// Converting a character index to a byte or UTF-16 offset and back gives
/// the index again (clamped to the text's length).
pub proof fn law_offset_round_trip(s: Seq<char>, k: int)
    requires
        0 <= k <= s.len(),
    ensures
        is_first_at_byte(s, utf8_len(s.take(k)) as int, k),
        is_first_at_utf16(s, utf16_len(s.take(k)) as int, k),
{
    assert forall|j: int| 0 <= j < k implies #[trigger] utf8_len(s.take(j)) < utf8_len(s.take(k)) by {
        lemma_starts_increase(s, j, k);
    }
    assert forall|j: int| 0 <= j < k implies #[trigger] utf16_len(s.take(j)) < utf16_len(s.take(k)) by {
        lemma_starts_increase(s, j, k);
    }
}

/// Converting a character index to an offset and back gives the index,
/// clamped to the character count: the first index at the byte (or UTF-16)
/// offset of index `i` is `min(i, n)`.
pub proof fn law_index_round_trip(s: Seq<char>, i: int, rb: int, ru: int)
    requires
        0 <= i,
    ensures
        ({
            let k = if i < s.len() { i } else { s.len() as int };
            &&& is_first_at_byte(s, utf8_len(s.take(k)) as int, rb) ==> rb == k
            &&& is_first_at_utf16(s, utf16_len(s.take(k)) as int, ru) ==> ru == k
        }),
{
    let k = if i < s.len() { i } else { s.len() as int };
    law_offset_round_trip(s, k);
    law_first_index_unique(s, utf8_len(s.take(k)) as int, rb, k);
    law_first_index_unique(s, utf16_len(s.take(k)) as int, ru, k);
}

/// An offset at or past the end of the text maps to the character count.
pub proof fn law_offset_past_end(s: Seq<char>, b: int, r: int)
    ensures
        b >= utf8_len(s) && is_first_at_byte(s, b, r) ==> r == s.len(),
        b >= utf16_len(s) && is_first_at_utf16(s, b, r) ==> r == s.len(),
{
    if 0 <= r < s.len() {
        lemma_starts_increase(s, r, s.len() as int);
        assert(s.take(s.len() as int) =~= s);
    }
}

/// The unit a text offset counts in.
#[derive(Debug, Clone, Copy, PartialEq, Eq, Structural)]
pub enum TextOffsetUnit {
    Char,
    Utf8Byte,
    Utf16CodeUnit,
}

/// An offset into a text, in some unit.
#[derive(Debug, Clone, Copy, PartialEq, Eq, Structural)]
pub struct TextOffset {
    pub raw: usize,
    pub unit: TextOffsetUnit,
}

/// The clamped character index.
pub open spec fn clamp_index(s: Seq<char>, k: int) -> int {
    if k < s.len() {
        k
    } else {
        s.len() as int
    }
}

/// The offset of character `k` (clamped) in `unit`.
pub open spec fn spec_char_to_layout_offset(s: Seq<char>, k: int, unit: TextOffsetUnit) -> TextOffset {
    let c = clamp_index(s, k);
    match unit {
        TextOffsetUnit::Char => TextOffset { raw: c as usize, unit },
        TextOffsetUnit::Utf8Byte => TextOffset { raw: utf8_len(s.take(c)) as usize, unit },
        TextOffsetUnit::Utf16CodeUnit => TextOffset { raw: utf16_len(s.take(c)) as usize, unit },
    }
}

/// The offset of character `char_index` (clamped to the text) in `unit`.
pub fn char_to_layout_offset(text: &str, char_index: usize, unit: TextOffsetUnit) -> (r: TextOffset)
    requires
        utf8_len(text@) <= usize::MAX,
    ensures
        r == spec_char_to_layout_offset(text@, char_index as int, unit),
{
    let n = char_count(text);
    let c = if char_index < n { char_index } else { n };
    match unit {
        TextOffsetUnit::Char => TextOffset { raw: c, unit },
        TextOffsetUnit::Utf8Byte => TextOffset { raw: char_to_byte_offset(text, c), unit },
        TextOffsetUnit::Utf16CodeUnit => TextOffset { raw: char_to_utf16_offset(text, c), unit },
    }
}

/// The character index of an offset: clamped for a character offset, the
/// first character at or past it for a byte or UTF-16 offset.
pub fn text_offset_to_char(text: &str, offset: TextOffset) -> (r: usize)
    requires
        utf8_len(text@) <= usize::MAX,
    ensures
        offset.unit == TextOffsetUnit::Char ==> r == clamp_index(text@, offset.raw as int),
        offset.unit == TextOffsetUnit::Utf8Byte ==> is_first_at_byte(text@, offset.raw as int, r as int),
        offset.unit == TextOffsetUnit::Utf16CodeUnit ==> is_first_at_utf16(
            text@,
            offset.raw as int,
            r as int,
        ),
{
    match offset.unit {
        TextOffsetUnit::Char => {
            let n = char_count(text);
            if offset.raw < n {
                offset.raw
            } else {
                n
            }
        },
        TextOffsetUnit::Utf8Byte => byte_to_char_index(text, offset.raw),
        TextOffsetUnit::Utf16CodeUnit => utf16_to_char_index(text, offset.raw),
    }
}

/// A direct, owner-local text slot.
#[derive(Debug, Clone, Copy, PartialEq, Eq, Hash, Structural)]
pub struct TextLayoutSlot(u32);

impl TextLayoutSlot {
    pub closed spec fn spec_get(self) -> u32 {
        self.0
    }

    /// The first slot of an owner.
    pub fn primary() -> (r: TextLayoutSlot)
        ensures
            r.spec_get() == 0,
    {
        TextLayoutSlot(0)
    }

    pub fn new(value: u32) -> (r: TextLayoutSlot)
        ensures
            r.spec_get() == value,
    {
        TextLayoutSlot(value)
    }

    pub fn get(self) -> (r: u32)
        ensures
            r == self.spec_get(),
    {
        self.0
    }

    /// Two slots are the same slot exactly when they hold the same value.
    pub proof fn lemma_slot_identity(a: TextLayoutSlot, b: TextLayoutSlot)
        ensures
            a == b <==> a.spec_get() == b.spec_get(),
    {
    }
}

/// How a cached layout is held: its handle, its memory cost, and how many
/// users pin it in the cache.
#[derive(Debug, Clone, Copy, PartialEq, Eq, Structural)]
pub struct LayoutResidency {
    pub handle: u64,
    pub memory_cost: u64,
    pub pin_count: u32,
}

impl LayoutResidency {
    /// A pinned layout may not be evicted.
    pub fn is_pinned(self) -> (r: bool)
        ensures
            r == (self.pin_count > 0),
    {
        self.pin_count > 0
    }
}

/// Counts describing the text cache.
#[derive(Debug, Clone, Copy, PartialEq, Eq, Structural)]
pub struct TextCacheStats {
    pub owners: usize,
    pub documents: usize,
    pub paragraphs: usize,
    pub units: usize,
    pub layouts: usize,
    pub resident_layouts: usize,
    pub resident_bytes: u64,
    pub capacity_bytes: u64,
}

} // verus!
