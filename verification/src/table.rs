//! The value table itself: fixed-size entry slots over one backing byte
//! store, slot 0 reserved for the header, a LIFO free-list threaded through
//! tombstone entries, and chains of multipart entries for values that span
//! slots.  Mutations are staged into the write-ahead-log overlay by the
//! `write_*_plan` calls and applied to the store by `enact_plan`;
//! `complete_plan` persists the header counters.
use vstd::prelude::*;
use crate::bytes::le16_of;
use crate::bytes::le64_of;
use crate::bytes::read_le64_at;
use crate::bytes::push_le64;
use crate::bytes::push_le16;
use crate::bytes::copy_range;
use crate::bytes::append_range;
use crate::bytes::write_range;
use crate::wal::LogRecord;
use crate::wal::LogOverlays;
use crate::wal::LogWriter;
use crate::wal::LogReader;
use crate::wal::staged;
use crate::wal::lemma_staged_push;
use crate::wal::lemma_staged_grow;
use crate::wal::lemma_staged_run;

verus! {

broadcast use vstd::array::group_array_axioms, vstd::seq_lib::lemma_seq_skip_len, vstd::seq_lib::lemma_seq_skip_index;

/// Column identifier: the high byte of a `TableId`.
pub type ColId = u8;

/// A logical value held by the table.
pub type Value = Vec<u8>;

/// A key fingerprint.  Only bytes `[2..32]` are stored inside entries.
pub type Key = [u8; 32];

/// Length of a key fingerprint in bytes.
pub const KEY_LEN: usize = 32;

/// Largest entry size a table can be opened with.
pub const MAX_ENTRY_SIZE: usize = 65534;

/// Smallest entry size a table can be opened with.
pub const MIN_ENTRY_SIZE: usize = 64;

/// Entry size used by multipart tables.
pub const MULTIPART_ENTRY_SIZE: u16 = 4096;

/// The backing store grows in increments of this many bytes, rounded down
/// to whole entries.
pub const GROWTH_BYTES: u64 = 256 * 1024;

/// What can go wrong at this layer.  Reads of slots lying beyond the store
/// fail with `OutOfBounds`; a replay stream too short for the entry it
/// promises fails with `LogEof`; growing the store past what a `usize` can
/// address fails with `TooLarge`.
#[derive(Clone, Copy, PartialEq, Eq, Structural, Debug)]
pub enum Error {
    OutOfBounds,
    LogEof,
    TooLarge,
}

/// 16-bit table identifier packing a column id (high byte) and a size tier
/// (low byte).
#[derive(Clone, Copy, PartialEq, Eq, Hash, Structural, Debug)]
pub struct TableId(pub u16);

impl TableId {
    /// Packs a column id and a size tier.
    pub fn new(col: ColId, size_tier: u8) -> (r: TableId)
        ensures
            r.0 == col * 0x100 + size_tier,
    {
        TableId((col as u16) * 0x100 + size_tier as u16)
    }

    /// The identifier with exactly the given 16-bit representation.
    pub fn from_u16(id: u16) -> (r: TableId)
        ensures
            r.0 == id,
    {
        TableId(id)
    }

    /// The column id: the high byte.
    pub fn col(&self) -> (r: ColId)
        ensures
            r == self.0 / 0x100,
    {
        (self.0 / 0x100) as ColId
    }

    /// The size tier: the low byte.
    pub fn size_tier(&self) -> (r: u8)
        ensures
            r == self.0 % 0x100,
    {
        (self.0 % 0x100) as u8
    }

    /// The 16-bit representation.
    pub fn as_u16(&self) -> (r: u16)
        ensures
            r == self.0,
    {
        self.0
    }

    /// The name of the backing file: `table_{col:02}_{tier}`.
    pub fn file_name(&self) -> (r: String)
        ensures
            r@ == file_name_chars(self.0 as int / 0x100, self.0 as int % 0x100),
    {
        let mut s = String::from_str("table_");
        proof {
            reveal_strlit("table_");
            assert(s@ =~= seq!['t', 'a', 'b', 'l', 'e', '_']);
        }
        let col = (self.0 / 0x100) as u8;
        let tier = (self.0 % 0x100) as u8;
        if col < 10 {
            s.append("0");
            proof {
                reveal_strlit("0");
                assert(seq!['t', 'a', 'b', 'l', 'e', '_'] + "0"@ + dec_chars(col as int) =~= seq![
                    't',
                    'a',
                    'b',
                    'l',
                    'e',
                    '_',
                ] + pad2_chars(col as int));
            }
        }
        push_dec(&mut s, col);
        s.append("_");
        proof {
            reveal_strlit("_");
        }
        push_dec(&mut s, tier);
        proof {
            assert(s@ =~= file_name_chars(self.0 as int / 0x100, self.0 as int % 0x100));
        }
        s
    }
}

/// The character for one decimal digit.
pub open spec fn digit_char(d: int) -> char {
    if d == 0 {
        '0'
    } else if d == 1 {
        '1'
    } else if d == 2 {
        '2'
    } else if d == 3 {
        '3'
    } else if d == 4 {
        '4'
    } else if d == 5 {
        '5'
    } else if d == 6 {
        '6'
    } else if d == 7 {
        '7'
    } else if d == 8 {
        '8'
    } else {
        '9'
    }
}

/// The decimal digits of `v`, most significant first.
pub open spec fn dec_chars(v: int) -> Seq<char>
    decreases v,
{
    if v < 10 {
        seq![digit_char(v)]
    } else {
        dec_chars(v / 10) + seq![digit_char(v % 10)]
    }
}

/// The decimal digits of `v`, zero-padded on the left to at least two.
pub open spec fn pad2_chars(v: int) -> Seq<char> {
    if v < 10 {
        seq!['0'] + seq![digit_char(v)]
    } else {
        dec_chars(v)
    }
}

/// The characters of a table's file name.
pub open spec fn file_name_chars(col: int, tier: int) -> Seq<char> {
    seq!['t', 'a', 'b', 'l', 'e', '_'] + pad2_chars(col) + seq!['_'] + dec_chars(tier)
}

/// The string for one decimal digit.
fn digit_str(d: u8) -> (r: &'static str)
    requires
        d < 10,
    ensures
        r@ == seq![digit_char(d as int)],
{
    if d == 0 {
        let r = "0";
        proof {
            reveal_strlit("0");
            assert(r@ =~= seq![digit_char(d as int)]);
        }
        r
    } else if d == 1 {
        let r = "1";
        proof {
            reveal_strlit("1");
            assert(r@ =~= seq![digit_char(d as int)]);
        }
        r
    } else if d == 2 {
        let r = "2";
        proof {
            reveal_strlit("2");
            assert(r@ =~= seq![digit_char(d as int)]);
        }
        r
    } else if d == 3 {
        let r = "3";
        proof {
            reveal_strlit("3");
            assert(r@ =~= seq![digit_char(d as int)]);
        }
        r
    } else if d == 4 {
        let r = "4";
        proof {
            reveal_strlit("4");
            assert(r@ =~= seq![digit_char(d as int)]);
        }
        r
    } else if d == 5 {
        let r = "5";
        proof {
            reveal_strlit("5");
            assert(r@ =~= seq![digit_char(d as int)]);
        }
        r
    } else if d == 6 {
        let r = "6";
        proof {
            reveal_strlit("6");
            assert(r@ =~= seq![digit_char(d as int)]);
        }
        r
    } else if d == 7 {
        let r = "7";
        proof {
            reveal_strlit("7");
            assert(r@ =~= seq![digit_char(d as int)]);
        }
        r
    } else if d == 8 {
        let r = "8";
        proof {
            reveal_strlit("8");
            assert(r@ =~= seq![digit_char(d as int)]);
        }
        r
    } else {
        let r = "9";
        proof {
            reveal_strlit("9");
            assert(r@ =~= seq![digit_char(d as int)]);
        }
        r
    }
}

/// Appends the decimal digits of `v` to `s`.
fn push_dec(s: &mut String, v: u8)
    ensures
        final(s)@ == old(s)@ + dec_chars(v as int),
    decreases v,
{
    if v >= 10 {
        push_dec(s, v / 10);
        s.append(digit_str(v % 10));
        proof {
            assert(final(s)@ =~= old(s)@ + dec_chars(v as int));
        }
    } else {
        s.append(digit_str(v));
        proof {
            assert(final(s)@ =~= old(s)@ + dec_chars(v as int));
        }
    }
}

/// 64-bit opaque location packing a size tier (bits 32..40) and a 32-bit
/// slot offset (bits 0..32).
#[derive(Clone, Copy, PartialEq, Eq, Hash, Structural, Debug)]
pub struct Address(pub u64);

impl Address {
    /// Packs an offset and a size tier.
    pub fn new(offset: u64, size_tier: u8) -> (r: Address)
        requires
            offset < 0x1_0000_0000,
        ensures
            r.0 == size_tier * 0x1_0000_0000 + offset,
    {
        Address((size_tier as u64) * 0x1_0000_0000 + offset)
    }

    /// The address with exactly the given 64-bit representation.
    pub fn from_u64(a: u64) -> (r: Address)
        ensures
            r.0 == a,
    {
        Address(a)
    }

    /// The slot offset: the low 32 bits.
    pub fn offset(&self) -> (r: u64)
        ensures
            r == self.0 % 0x1_0000_0000,
    {
        self.0 % 0x1_0000_0000
    }

    /// The size tier: bits 32..40.
    pub fn size_tier(&self) -> (r: u8)
        ensures
            r == (self.0 / 0x1_0000_0000) % 0x100,
    {
        ((self.0 / 0x1_0000_0000) % 0x100) as u8
    }

    /// The 64-bit representation.
    pub fn as_u64(&self) -> (r: u64)
        ensures
            r == self.0,
    {
        self.0
    }
}

/// True of entry bytes that carry the tombstone tag `0xff 0xff`.
pub open spec fn is_tombstone(e: Seq<u8>) -> bool {
    e.len() >= 2 && e[0] == 0xff && e[1] == 0xff
}

/// True of entry bytes that carry the multipart tag `0xff 0xfe`.
pub open spec fn is_multipart(e: Seq<u8>) -> bool {
    e.len() >= 2 && e[0] == 0xff && e[1] == 0xfe
}

/// The declared content size of a single entry: its first two bytes as a
/// little-endian word.
pub open spec fn single_size(e: Seq<u8>) -> int
    recommends
        e.len() >= 2,
{
    le16_of(e[0], e[1])
}

/// A value table over one backing byte store.  `filled` is the
/// high-watermark slot index, `last_removed` the head of the free-list;
/// both are persisted only by `complete_plan`.
pub struct ValueTable {
    pub id: TableId,
    pub entry_size: u16,
    pub multipart: bool,
    pub file: Vec<u8>,
    pub capacity: u64,
    pub filled: u64,
    pub last_removed: u64,
}

impl ValueTable {
    /// The entry size as a mathematical integer.
    pub open spec fn es(self) -> int {
        self.entry_size as int
    }

    /// Well-formedness: entry size in range, at least the header slot
    /// present, and the store an exact number of entries.
    pub open spec fn wf(self) -> bool {
        &&& MIN_ENTRY_SIZE <= self.entry_size <= MAX_ENTRY_SIZE
        &&& self.capacity >= 1
        &&& self.file@.len() == self.capacity * self.es()
        &&& self.filled >= 1
    }

    /// Everything but the store bytes and the counters: the identity of the
    /// table.
    pub open spec fn same_shape(self, other: ValueTable) -> bool {
        &&& other.id == self.id
        &&& other.entry_size == self.entry_size
        &&& other.multipart == self.multipart
    }

    /// True when slot `i` lies wholly inside the backing store.
    pub open spec fn slot_in_file(self, i: u64) -> bool {
        (i + 1) * self.es() <= self.file@.len()
    }

    /// The stored bytes of slot `i`.
    pub open spec fn file_entry(self, i: u64) -> Seq<u8>
        recommends
            self.slot_in_file(i),
    {
        self.file@.subrange(i * self.es(), i * self.es() + self.es())
    }

    /// The bytes an entry read of slot `i` sees: the overlay first, the
    /// store second.  `None` when the slot is staged nowhere and lies
    /// beyond the store.
    pub open spec fn entry_at(self, ov: Seq<LogRecord>, i: u64) -> Option<Seq<u8>> {
        match staged(ov, self.id, i) {
            Some(b) => Some(b),
            None => if self.slot_in_file(i) {
                Some(self.file_entry(i))
            } else {
                None
            },
        }
    }

    /// The entry size the table will use when opened with this parameter.
    pub open spec fn open_entry_size(entry_size: Option<u16>) -> int {
        match entry_size {
            Some(s) => s as int,
            None => MULTIPART_ENTRY_SIZE as int,
        }
    }

    /// The header bytes an opened table reads: the given store, or a single
    /// zeroed entry when the store is empty.
    pub open spec fn open_store(entry_size: Option<u16>, data: Seq<u8>) -> Seq<u8> {
        if data.len() == 0 {
            Seq::new(Self::open_entry_size(entry_size) as nat, |i: int| 0u8)
        } else {
            data
        }
    }

    /// Opens a table over the given store bytes.  `Some(s)` selects
    /// single-slot mode with entry size `s`; `None` selects multipart mode
    /// with entry size 4096.  An empty store is preallocated as one zeroed
    /// entry.  The header slot yields the persisted counters; a zero
    /// `filled` is raised to 1 so that slot 0 stays reserved.
    pub fn open(id: TableId, entry_size: Option<u16>, data: Vec<u8>) -> (r: ValueTable)
        requires
            match entry_size {
                Some(s) => MIN_ENTRY_SIZE <= s <= MAX_ENTRY_SIZE,
                None => true,
            },
            data@.len() as int % Self::open_entry_size(entry_size) == 0,
        ensures
            r.wf(),
            r.id == id,
            r.entry_size == Self::open_entry_size(entry_size),
            r.multipart == entry_size.is_none(),
            r.file@ == Self::open_store(entry_size, data@),
            r.capacity * r.es() == r.file@.len(),
            r.last_removed == le64_of(Self::open_store(entry_size, data@).subrange(0, 8)),
            r.filled == if le64_of(Self::open_store(entry_size, data@).subrange(8, 16)) == 0 {
                1int
            } else {
                le64_of(Self::open_store(entry_size, data@).subrange(8, 16))
            },
    {
        let (multipart, es): (bool, u16) = match entry_size {
            Some(s) => (false, s),
            None => (true, MULTIPART_ENTRY_SIZE),
        };
        let mut file = data;
        if file.len() == 0 {
            let mut i: usize = 0;
            while i < es as usize
                invariant
                    0 <= i <= es,
                    file@ =~= Seq::new(i as nat, |j: int| 0u8),
                decreases es - i,
            {
                file.push(0u8);
                proof {
                    assert(file@ =~= Seq::new((i + 1) as nat, |j: int| 0u8));
                }
                i = i + 1;
            }
        }
        let n: usize = file.len();
        proof {
            if data@.len() == 0 {
                assert(n as int % (es as int) == 0) by (nonlinear_arith)
                    requires
                        n == es,
                        es >= 64,
                ;
            }
            assert(n >= es) by (nonlinear_arith)
                requires
                    n as int % (es as int) == 0,
                    n > 0,
                    es >= 64,
            ;
        }
        let capacity: u64 = (n as u64) / (es as u64);
        proof {
            assert(n as int == capacity * es as int && capacity >= 1) by (nonlinear_arith)
                requires
                    n as int % (es as int) == 0,
                    capacity == (n as int) / (es as int),
                    n >= es,
                    es >= 64,
            ;
        }
        let last_removed = read_le64_at(&file, 0);
        let stored_filled = read_le64_at(&file, 8);
        let filled: u64 = if stored_filled == 0 {
            1
        } else {
            stored_filled
        };
        ValueTable { id, entry_size: es, multipart, file, capacity, filled, last_removed }
    }

    /// The largest value a single entry can carry beside the stored key
    /// suffix.
    pub fn value_size(&self) -> (r: u16)
        requires
            self.wf(),
        ensures
            r == self.es() - KEY_LEN,
    {
        self.entry_size - KEY_LEN as u16
    }

    /// The byte offset of slot `i`, when the slot lies inside the store.
    fn slot_off(&self, i: u64) -> (r: Option<usize>)
        requires
            self.wf(),
        ensures
            r.is_some() == (i < self.capacity),
            match r {
                Some(o) => self.slot_in_file(i) && o == i * self.es() && o + self.es()
                    <= self.file@.len(),
                None => !self.slot_in_file(i),
            },
    {
        let fl: usize = self.file.len();
        if i < self.capacity {
            proof {
                assert(i * self.es() + self.es() <= fl && (i + 1) * self.es() <= fl && i <= fl) by (nonlinear_arith)
                    requires
                        i + 1 <= self.capacity,
                        self.es() >= 64,
                        self.capacity * self.es() == fl,
                ;
            }
            let o = (i as usize) * (self.entry_size as usize);
            Some(o)
        } else {
            proof {
                assert((i + 1) * self.es() > self.capacity * self.es()) by (nonlinear_arith)
                    requires
                        i + 1 > self.capacity,
                        self.es() >= 64,
                ;
            }
            None
        }
    }

    /// Reads the effective entry bytes for slot `i`: the overlay bytes when
    /// staged, else the whole stored slot.  Fails exactly when neither is
    /// there.
    fn entry_bytes(&self, ov: &LogOverlays, i: u64) -> (r: Result<Vec<u8>, Error>)
        requires
            self.wf(),
        ensures
            match r {
                Ok(b) => self.entry_at(ov.records@, i) == Some(b@) && (staged(
                    ov.records@,
                    self.id,
                    i,
                ) == Some(b@) || b@.len() == self.es()),
                Err(e) => self.entry_at(ov.records@, i).is_none() && e == Error::OutOfBounds,
            },
    {
        match ov.value(self.id, i) {
            Some(b) => Ok(b),
            None => match self.slot_off(i) {
                Some(o) => {
                    let fl: usize = self.file.len();
                    Ok(copy_range(&self.file, o, o + self.entry_size as usize))
                },
                None => Err(Error::OutOfBounds),
            },
        }
    }

    /// Writes the 16-byte header: `last_removed` then `filled`, both
    /// little-endian.  This is the only durability point for the allocator
    /// counters.
    pub fn complete_plan(&mut self) -> (r: Result<(), Error>)
        requires
            old(self).wf(),
        ensures
            r.is_ok(),
            final(self).wf(),
            old(self).same_shape(*final(self)),
            final(self).capacity == old(self).capacity,
            final(self).filled == old(self).filled,
            final(self).last_removed == old(self).last_removed,
            final(self).file@.len() == old(self).file@.len(),
            le64_of(final(self).file@.subrange(0, 8)) == old(self).last_removed,
            le64_of(final(self).file@.subrange(8, 16)) == old(self).filled,
            forall|i: int| 16 <= i < old(self).file@.len() ==> final(self).file@[i] == old(
                self,
            ).file@[i],
    {
        let mut buf: Vec<u8> = Vec::new();
        push_le64(&mut buf, self.last_removed);
        push_le64(&mut buf, self.filled);
        proof {
            assert(self.capacity * self.es() >= 1 * self.es()) by (nonlinear_arith)
                requires
                    self.capacity >= 1,
                    self.es() >= 64,
            ;
            assert(buf@.subrange(0, 8) =~= buf@.subrange(0, 16).subrange(0, 8));
            assert(buf@.subrange(8, 16) =~= buf@.subrange(0, 16).subrange(8, 16));
        }
        write_range(&mut self.file, 0, &buf);
        proof {
            assert(final(self).file@.subrange(0, 8) =~= buf@.subrange(0, 8));
            assert(final(self).file@.subrange(8, 16) =~= buf@.subrange(8, 16));
        }
        Ok(())
    }
}


/// The bytes an entry contributes to its chain: everything after the
/// header fields, including the 30-byte key suffix of a head entry.
pub open spec fn entry_content(es: int, e: Seq<u8>) -> Seq<u8> {
    if is_multipart(e) {
        e.subrange(10, es)
    } else {
        e.subrange(2, 2 + single_size(e))
    }
}

/// The slot index a multipart entry links to.
pub open spec fn entry_next(e: Seq<u8>) -> int
    recommends
        e.len() >= 10,
{
    le64_of(e.subrange(2, 10))
}

/// The outcome of reading a whole chain: a slot that could not be read at
/// all, a chain cut short by a tombstone, or the complete content bytes.
pub enum Parsed {
    Unreadable,
    Dead,
    Complete(Seq<u8>),
}

/// Prefixes `pre` onto a completed parse; passes the other outcomes
/// through.
pub open spec fn append_parsed(pre: Seq<u8>, p: Parsed) -> Parsed {
    match p {
        Parsed::Complete(rest) => Parsed::Complete(pre + rest),
        _ => p,
    }
}

impl ValueTable {
    /// One entry is safe to decode: long enough for its own header, and a
    /// head single entry carries at least the stored key suffix.
    pub open spec fn entry_safe(self, e: Seq<u8>, first: bool) -> bool {
        &&& e.len() >= 2
        &&& (is_tombstone(e) || (if is_multipart(e) {
            e.len() == self.es()
        } else {
            &&& 2 + single_size(e) <= e.len()
            &&& (first ==> single_size(e) >= 30)
        }))
    }

    /// The chain from slot `i` can be walked within `fuel` steps without
    /// tripping over a malformed entry.  A slot that is readable nowhere is
    /// allowed: reading it fails cleanly.
    pub open spec fn chain_safe(self, ov: Seq<LogRecord>, i: u64, first: bool, fuel: nat) -> bool
        decreases fuel,
    {
        &&& fuel > 0
        &&& match self.entry_at(ov, i) {
            None => true,
            Some(e) => {
                &&& self.entry_safe(e, first)
                &&& (is_multipart(e) && entry_next(e) != 0 ==> self.chain_safe(
                    ov,
                    entry_next(e) as u64,
                    false,
                    (fuel - 1) as nat,
                ))
            },
        }
    }

    /// The chain from slot `i` terminates.
    pub open spec fn chain_terminates(self, ov: Seq<LogRecord>, i: u64, first: bool) -> bool {
        exists|f: nat| self.chain_safe(ov, i, first, f)
    }

    /// Walks the chain from slot `i` and concatenates the content bytes of
    /// its entries, within `fuel` steps.
    pub open spec fn parse_chain(self, ov: Seq<LogRecord>, i: u64, fuel: nat) -> Parsed
        decreases fuel,
    {
        if fuel == 0 {
            Parsed::Unreadable
        } else {
            match self.entry_at(ov, i) {
                None => Parsed::Unreadable,
                Some(e) => if is_tombstone(e) {
                    Parsed::Dead
                } else if is_multipart(e) && entry_next(e) != 0 {
                    append_parsed(
                        entry_content(self.es(), e),
                        self.parse_chain(ov, entry_next(e) as u64, (fuel - 1) as nat),
                    )
                } else {
                    Parsed::Complete(entry_content(self.es(), e))
                },
            }
        }
    }

    /// Chain safety only gets easier with more fuel.
    pub proof fn lemma_chain_safe_mono(
        self,
        ov: Seq<LogRecord>,
        i: u64,
        first: bool,
        f: nat,
        g: nat,
    )
        requires
            self.chain_safe(ov, i, first, f),
            f <= g,
        ensures
            self.chain_safe(ov, i, first, g),
        decreases f,
    {
        match self.entry_at(ov, i) {
            None => {},
            Some(e) => {
                if is_multipart(e) && entry_next(e) != 0 {
                    self.lemma_chain_safe_mono(
                        ov,
                        entry_next(e) as u64,
                        false,
                        (f - 1) as nat,
                        (g - 1) as nat,
                    );
                }
            },
        }
    }

    /// Once the chain is known to terminate within `f` steps, the parse no
    /// longer depends on the fuel.
    pub proof fn lemma_parse_fuel(
        self,
        ov: Seq<LogRecord>,
        i: u64,
        first: bool,
        f: nat,
        g: nat,
    )
        requires
            self.chain_safe(ov, i, first, f),
            f <= g,
        ensures
            self.parse_chain(ov, i, g) == self.parse_chain(ov, i, f),
        decreases f,
    {
        match self.entry_at(ov, i) {
            None => {},
            Some(e) => {
                if !is_tombstone(e) && is_multipart(e) && entry_next(e) != 0 {
                    self.lemma_parse_fuel(
                        ov,
                        entry_next(e) as u64,
                        false,
                        (f - 1) as nat,
                        (g - 1) as nat,
                    );
                }
            },
        }
    }

    /// The parse of a terminating chain, under any sufficient fuel.
    pub open spec fn parsed_at(self, ov: Seq<LogRecord>, i: u64) -> Parsed {
        self.parse_chain(ov, i, choose|f: nat| self.chain_safe(ov, i, true, f))
    }

    /// Any fuel that makes the chain safe parses it to `parsed_at`.
    pub proof fn lemma_parsed_at(self, ov: Seq<LogRecord>, i: u64, f: nat)
        requires
            self.chain_safe(ov, i, true, f),
        ensures
            self.parse_chain(ov, i, f) == self.parsed_at(ov, i),
    {
        let f0 = choose|f0: nat| self.chain_safe(ov, i, true, f0);
        if f <= f0 {
            self.lemma_parse_fuel(ov, i, true, f, f0);
        } else {
            self.lemma_parse_fuel(ov, i, true, f0, f);
        }
    }

    /// The head entry at `i` stores exactly the suffix of `key`.
    pub open spec fn head_matches(self, ov: Seq<LogRecord>, i: u64, key: Seq<u8>) -> bool {
        match self.entry_at(ov, i) {
            Some(e) => entry_content(self.es(), e).take(30) == key.skip(2),
            None => false,
        }
    }

    /// Reads the value stored under `key` in the chain headed at `index`,
    /// consulting the overlay before the store.  A tombstone anywhere in
    /// the chain yields `None`; so does a stored key suffix that differs
    /// from `key`'s (the index-collision hazard).  Fails exactly when a
    /// slot of the chain is readable neither from the overlay nor from the
    /// store.
    #[verifier::loop_isolation(false)]
    pub fn get(&self, key: &Key, index: u64, log: &LogOverlays) -> (r: Result<
        Option<Value>,
        Error,
    >)
        requires
            self.wf(),
            self.chain_terminates(log.records@, index, true),
        ensures
            ({
                let ov = log.records@;
                match self.entry_at(ov, index) {
                    None => r == Err::<Option<Value>, Error>(Error::OutOfBounds),
                    Some(e) => if is_tombstone(e) {
                        r == Ok::<Option<Value>, Error>(None)
                    } else if !self.head_matches(ov, index, key@) {
                        r == Ok::<Option<Value>, Error>(None)
                    } else {
                        match self.parsed_at(ov, index) {
                            Parsed::Complete(c) => match r {
                                Ok(Some(v)) => key@.skip(2) + v@ == c,
                                _ => false,
                            },
                            Parsed::Dead => r == Ok::<Option<Value>, Error>(None),
                            Parsed::Unreadable => r == Err::<Option<Value>, Error>(
                                Error::OutOfBounds,
                            ),
                        }
                    },
                }
            }),
    {
        let ghost ov = log.records@;
        let ghost f0 = choose|f: nat| self.chain_safe(ov, index, true, f);
        let ghost mut fuel: nat = f0;
        proof {
            self.lemma_parsed_at(ov, index, f0);
        }
        let mut result: Vec<u8> = Vec::new();
        let mut idx: u64 = index;
        let mut first: bool = true;
        loop
            invariant
                self.chain_safe(ov, idx, first, fuel),
                first ==> idx == index && result@.len() == 0 && fuel == f0,
                !first ==> {
                    &&& self.entry_at(ov, index).is_some()
                    &&& !is_tombstone(self.entry_at(ov, index).unwrap())
                    &&& self.head_matches(ov, index, key@)
                    &&& self.parse_chain(ov, index, f0) == append_parsed(
                        key@.skip(2) + result@,
                        self.parse_chain(ov, idx, fuel),
                    )
                },
            decreases fuel,
        {
            let e = match self.entry_bytes(log, idx) {
                Ok(b) => b,
                Err(err) => {
                    return Err(err);
                },
            };
            let ghost ee = e@;
            if e[0] == 0xff && e[1] == 0xff {
                return Ok(None);
            }
            let en: usize = e.len();
            let (content_offset, content_len, next): (usize, usize, u64) = if e[0] == 0xff && e[1]
                == 0xfe {
                let nxt = read_le64_at(&e, 2);
                (10, self.entry_size as usize - 10, nxt)
            } else {
                let size = (e[0] as usize) + 0x100 * (e[1] as usize);
                (2, size, 0)
            };
            proof {
                if is_multipart(ee) {
                    assert(next == entry_next(ee));
                }
                assert(entry_content(self.es(), ee) =~= ee.subrange(
                    content_offset as int,
                    content_offset + content_len,
                ));
            }
            let ghost before = result@;
            if first {
                if !eq_range_key(&e, content_offset, key) {
                    proof {
                        assert(ee.subrange(content_offset as int, content_offset + 30)
                            =~= entry_content(self.es(), ee).take(30));
                    }
                    return Ok(None);
                }
                proof {
                    assert(ee.subrange(content_offset as int, content_offset + 30)
                        =~= entry_content(self.es(), ee).take(30));
                }
                append_range(&mut result, &e, content_offset + 30, content_offset + content_len);
                proof {
                    assert(key@.skip(2) + result@ =~= entry_content(self.es(), ee));
                }
            } else {
                append_range(&mut result, &e, content_offset, content_offset + content_len);
                proof {
                    assert(key@.skip(2) + result@ =~= (key@.skip(2) + before) + entry_content(
                        self.es(),
                        ee,
                    ));
                }
            }
            if next == 0 {
                proof {
                    assert(self.parse_chain(ov, idx, fuel) == Parsed::Complete(
                        entry_content(self.es(), ee),
                    ));
                }
                break;
            }
            proof {
                assert(self.parse_chain(ov, idx, fuel) == append_parsed(
                    entry_content(self.es(), ee),
                    self.parse_chain(ov, next, (fuel - 1) as nat),
                ));
                if !first {
                    assert(self.parse_chain(ov, index, f0) == append_parsed(
                        key@.skip(2) + result@,
                        self.parse_chain(ov, next, (fuel - 1) as nat),
                    )) by {
                        lemma_append_parsed_assoc(
                            key@.skip(2) + before,
                            entry_content(self.es(), ee),
                            self.parse_chain(ov, next, (fuel - 1) as nat),
                        );
                    }
                }
                fuel = (fuel - 1) as nat;
            }
            idx = next;
            first = false;
        }
        Ok(Some(result))
    }
}


/// One staged tombstone record: for `slot` of table `id`, 10 bytes long,
/// carrying `link` as the stored free-list link.
pub open spec fn is_tomb_record(id: TableId, rec: LogRecord, slot: u64, link: int) -> bool {
    &&& rec.table == id
    &&& rec.slot == slot
    &&& rec.bytes@.len() == 10
    &&& is_tombstone(rec.bytes@)
    &&& le64_of(rec.bytes@.subrange(2, 10)) == link
}

/// Peeling the head off a chain suffix: if `seq![x] + rest` is `s.skip(n)`,
/// then `rest` is `s.skip(n + 1)` and `x` is `s[n]`.
proof fn lemma_cons_skip(x: u64, rest: Seq<u64>, s: Seq<u64>, n: int)
    requires
        0 <= n < s.len(),
        seq![x] + rest == s.skip(n),
    ensures
        rest == s.skip(n + 1),
        x == s[n],
{
    vstd::seq_lib::lemma_seq_skip_len::<u64>(s, n);
    vstd::seq_lib::lemma_seq_skip_len::<u64>(s, n + 1);
    assert((seq![x] + rest).len() == s.skip(n).len());
    assert(rest.len() == s.len() - n - 1);
    assert forall|k: int| 0 <= k < rest.len() implies rest[k] == s.skip(n + 1)[k] by {
        vstd::seq_lib::lemma_seq_skip_index::<u64>(s, n, k + 1);
        vstd::seq_lib::lemma_seq_skip_index::<u64>(s, n + 1, k);
        assert(rest[k] == (seq![x] + rest)[k + 1]);
        assert((seq![x] + rest)[k + 1] == s.skip(n)[k + 1]);
    }
    assert(rest =~= s.skip(n + 1));
    vstd::seq_lib::lemma_seq_skip_index::<u64>(s, n, 0);
    assert((seq![x] + rest)[0] == x);
}

/// Prefixing in two steps or in one comes to the same parse.
proof fn lemma_append_parsed_assoc(a: Seq<u8>, b: Seq<u8>, p: Parsed)
    ensures
        append_parsed(a, append_parsed(b, p)) == append_parsed(a + b, p),
{
    match p {
        Parsed::Complete(rest) => {
            assert(a + (b + rest) =~= (a + b) + rest);
        },
        _ => {},
    }
}

/// Compares `e[off..off+30]` with `key[2..32]`.
#[verifier::loop_isolation(false)]
fn eq_range_key(e: &Vec<u8>, off: usize, key: &Key) -> (r: bool)
    requires
        off + 30 <= e@.len(),
    ensures
        r == (e@.subrange(off as int, off + 30) == key@.skip(2)),
{
    let n: usize = e.len();
    let mut i: usize = 0;
    while i < 30
        invariant
            0 <= i <= 30,
            forall|j: int| 0 <= j < i ==> #[trigger] e@[off + j] == key@[2 + j],
        decreases 30 - i,
    {
        if e[off + i] != key[2 + i] {
            proof {
                assert(e@.subrange(off as int, off + 30)[i as int] != key@.skip(2)[i as int]);
            }
            return false;
        }
        i = i + 1;
    }
    proof {
        assert forall|k: int| 0 <= k < 30 implies #[trigger] e@.subrange(off as int, off + 30)[k]
            == key@.skip(2)[k] by {
            assert(e@[off + k] == key@[2 + k]);
        }
        assert(e@.subrange(off as int, off + 30) =~= key@.skip(2));
    }
    true
}


/// The stored key suffix a probe of one entry reports: the 30 bytes after
/// the multipart header, or the 30 bytes after the size word.
pub open spec fn stored_key_suffix(e: Seq<u8>) -> Seq<u8> {
    if is_multipart(e) {
        e.subrange(10, 40)
    } else {
        e.subrange(2, 32)
    }
}

impl ValueTable {
    /// The staged bytes for slot `i`, if any, are long enough for a
    /// 30-byte key probe.
    pub open spec fn probe_safe(self, ov: Seq<LogRecord>, i: u64) -> bool {
        match staged(ov, self.id, i) {
            Some(b) => b.len() >= 2 && (is_tombstone(b) || (is_multipart(b) && b.len() >= 40) || (
            !is_multipart(b) && !is_tombstone(b) && b.len() >= 32)),
            None => true,
        }
    }

    /// The staged bytes for slot `i`, if any, are long enough for an
    /// 8-byte link read.
    pub open spec fn link_safe(self, ov: Seq<LogRecord>, i: u64) -> bool {
        match staged(ov, self.id, i) {
            Some(b) => b.len() >= 10,
            None => true,
        }
    }

    /// The stored 30-byte key suffix at `index`, widened to a `Key` whose
    /// first two bytes are zero; `None` for a tombstone.  Used to
    /// disambiguate index collisions without materializing the value.
    #[verifier::loop_isolation(false)]
    pub fn partial_key_at(&self, index: u64, log: &LogWriter) -> (r: Result<Option<Key>, Error>)
        requires
            self.wf(),
            self.probe_safe(log.overlay.records@, index),
        ensures
            ({
                let ov = log.overlay.records@;
                match self.entry_at(ov, index) {
                    None => r == Err::<Option<Key>, Error>(Error::OutOfBounds),
                    Some(e) => if is_tombstone(e) {
                        r == Ok::<Option<Key>, Error>(None)
                    } else {
                        match r {
                            Ok(Some(k)) => k@[0] == 0 && k@[1] == 0 && k@.skip(2)
                                == stored_key_suffix(e),
                            _ => false,
                        }
                    },
                }
            }),
    {
        let e = match self.entry_bytes(&log.overlay, index) {
            Ok(b) => b,
            Err(err) => {
                return Err(err);
            },
        };
        proof {
            assert(e@.len() >= 2);
            assert(!is_tombstone(e@) ==> (is_multipart(e@) ==> e@.len() >= 40) && (!is_multipart(
                e@,
            ) ==> e@.len() >= 32));
        }
        if e[0] == 0xff && e[1] == 0xff {
            return Ok(None);
        }
        let src: usize = if e[0] == 0xff && e[1] == 0xfe {
            10
        } else {
            2
        };
        let mut out: Key = [0u8; 32];
        let mut i: usize = 0;
        while i < 30
            invariant
                0 <= i <= 30,
                out@.len() == 32,
                out@[0] == 0 && out@[1] == 0,
                forall|j: int| 0 <= j < i ==> out@[2 + j] == #[trigger] e@[src + j],
            decreases 30 - i,
        {
            out[2 + i] = e[src + i];
            i = i + 1;
        }
        proof {
            assert forall|k: int| 0 <= k < 30 implies out@.skip(2)[k] == #[trigger] stored_key_suffix(
                e@,
            )[k] by {
                assert(out@[2 + k] == e@[src + k]);
            }
            assert(out@.skip(2) =~= stored_key_suffix(e@));
        }
        Ok(Some(out))
    }

    /// Whether the entry at `index` is live and stores exactly the suffix
    /// of `key`.
    #[verifier::loop_isolation(false)]
    pub fn has_key_at(&self, index: u64, key: &Key, log: &LogWriter) -> (r: Result<bool, Error>)
        requires
            self.wf(),
            self.probe_safe(log.overlay.records@, index),
        ensures
            ({
                let ov = log.overlay.records@;
                match self.entry_at(ov, index) {
                    None => r == Err::<bool, Error>(Error::OutOfBounds),
                    Some(e) => r == Ok::<bool, Error>(
                        !is_tombstone(e) && stored_key_suffix(e) == key@.skip(2),
                    ),
                }
            }),
    {
        match self.partial_key_at(index, log) {
            Ok(Some(existing)) => {
                proof {
                    assert(existing@.len() == 32);
                    assert(key@.len() == 32);
                }
                let mut i: usize = 2;
                while i < 32
                    invariant
                        2 <= i <= 32,
                        forall|j: int| 2 <= j < i ==> #[trigger] existing@[j] == key@[j],
                    decreases 32 - i,
                {
                    if existing[i] != key[i] {
                        proof {
                            assert(existing@.skip(2)[i - 2] != key@.skip(2)[i - 2]);
                            assert(existing@.skip(2) != key@.skip(2));
                            assert(stored_key_suffix(self.entry_at(log.overlay.records@, index).unwrap()) != key@.skip(2));
                        }
                        return Ok(false);
                    }
                    i = i + 1;
                }
                proof {
                    assert forall|k: int| 0 <= k < 30 implies existing@.skip(2)[k] == #[trigger] key@.skip(
                        2,
                    )[k] by {
                        assert(existing@[2 + k] == key@[2 + k]);
                    }
                    assert(existing@.skip(2) =~= key@.skip(2));
                }
                Ok(true)
            },
            Ok(None) => {
                proof {
                    assert(self.entry_at(log.overlay.records@, index).is_some());
                    assert(is_tombstone(self.entry_at(log.overlay.records@, index).unwrap()));
                }
                Ok(false)
            },
            Err(err) => Err(err),
        }
    }

    /// The `next_free` link stored in the entry at `index` (bytes 2..10),
    /// read from the overlay first and the store second.
    pub fn read_next_free(&self, index: u64, log: &LogWriter) -> (r: Result<u64, Error>)
        requires
            self.wf(),
            self.link_safe(log.overlay.records@, index),
        ensures
            ({
                let ov = log.overlay.records@;
                match self.entry_at(ov, index) {
                    None => r == Err::<u64, Error>(Error::OutOfBounds),
                    Some(e) => match r {
                        Ok(n) => n == le64_of(e.subrange(2, 10)),
                        _ => false,
                    },
                }
            }),
    {
        match log.value_overlay_at(self.id, index) {
            Some(b) => Ok(read_le64_at(&b, 2)),
            None => match self.slot_off(index) {
                Some(o) => {
                    let fl: usize = self.file.len();
                    let n = read_le64_at(&self.file, o + 2);
                    proof {
                        assert(self.file@.subrange(o + 2, o + 10) =~= self.file_entry(
                            index,
                        ).subrange(2, 10));
                    }
                    Ok(n)
                },
                None => Err(Error::OutOfBounds),
            },
        }
    }

    /// The link to the next part of a chain: `Some` exactly when the entry
    /// at `index` is a multipart entry.
    pub fn read_next_part(&self, index: u64, log: &LogWriter) -> (r: Result<Option<u64>, Error>)
        requires
            self.wf(),
            match staged(log.overlay.records@, self.id, index) {
                Some(b) => b.len() >= 2 && (is_multipart(b) ==> b.len() >= 10),
                None => true,
            },
        ensures
            ({
                let ov = log.overlay.records@;
                match self.entry_at(ov, index) {
                    None => r == Err::<Option<u64>, Error>(Error::OutOfBounds),
                    Some(e) => match r {
                        Ok(Some(n)) => is_multipart(e) && n == entry_next(e),
                        Ok(None) => !is_multipart(e),
                        _ => false,
                    },
                }
            }),
    {
        match log.value_overlay_at(self.id, index) {
            Some(b) => {
                if b[0] == 0xff && b[1] == 0xfe {
                    Ok(Some(read_le64_at(&b, 2)))
                } else {
                    Ok(None)
                }
            },
            None => match self.slot_off(index) {
                Some(o) => {
                    let fl: usize = self.file.len();
                    if self.file[o] == 0xff && self.file[o + 1] == 0xfe {
                        let n = read_le64_at(&self.file, o + 2);
                        proof {
                            assert(self.file@.subrange(o + 2, o + 10) =~= self.file_entry(
                                index,
                            ).subrange(2, 10));
                        }
                        Ok(Some(n))
                    } else {
                        Ok(None)
                    }
                },
                None => Err(Error::OutOfBounds),
            },
        }
    }

    /// Produces the next free slot index: the head of the free-list when
    /// one is there (popping it by following its stored link), else the
    /// slot just past the high watermark, which is bumped.  Never returns
    /// 0, and never touches the log.
    pub fn next_free(&mut self, log: &mut LogWriter) -> (r: Result<u64, Error>)
        requires
            old(self).wf(),
            old(self).filled < u64::MAX,
            old(self).last_removed != 0 ==> old(self).link_safe(
                old(log).overlay.records@,
                old(self).last_removed,
            ),
        ensures
            *final(log) == *old(log),
            final(self).wf(),
            old(self).same_shape(*final(self)),
            final(self).file@ == old(self).file@,
            final(self).capacity == old(self).capacity,
            ({
                let ov = old(log).overlay.records@;
                if old(self).last_removed == 0 {
                    &&& r == Ok::<u64, Error>(old(self).filled)
                    &&& final(self).filled == old(self).filled + 1
                    &&& final(self).last_removed == 0
                } else {
                    match old(self).entry_at(ov, old(self).last_removed) {
                        Some(e) => {
                            &&& r == Ok::<u64, Error>(old(self).last_removed)
                            &&& final(self).filled == old(self).filled
                            &&& final(self).last_removed == le64_of(e.subrange(2, 10))
                        },
                        None => {
                            &&& r == Err::<u64, Error>(Error::OutOfBounds)
                            &&& final(self).filled == old(self).filled
                            &&& final(self).last_removed == old(self).last_removed
                        },
                    }
                }
            }),
    {
        let filled = self.filled;
        let last_removed = self.last_removed;
        if last_removed != 0 {
            let next_removed = match self.read_next_free(last_removed, log) {
                Ok(n) => n,
                Err(err) => {
                    return Err(err);
                },
            };
            self.last_removed = next_removed;
            Ok(last_removed)
        } else {
            self.filled = filled + 1;
            Ok(filled)
        }
    }

    /// Pushes `index` onto the free-list: stages a tombstone entry whose
    /// link is the previous list head, then makes `index` the head.
    pub fn clear_slot(&mut self, index: u64, log: &mut LogWriter) -> (r: Result<(), Error>)
        requires
            old(self).wf(),
        ensures
            r.is_ok(),
            final(self).wf(),
            old(self).same_shape(*final(self)),
            final(self).file@ == old(self).file@,
            final(self).capacity == old(self).capacity,
            final(self).filled == old(self).filled,
            final(self).last_removed == index,
            final(log).overlay.records@.len() == old(log).overlay.records@.len() + 1,
            final(log).overlay.records@.drop_last() == old(log).overlay.records@,
            ({
                let rec = final(log).overlay.records@.last();
                &&& rec.table == old(self).id
                &&& rec.slot == index
                &&& rec.bytes@.len() == 10
                &&& is_tombstone(rec.bytes@)
                &&& le64_of(rec.bytes@.subrange(2, 10)) == old(self).last_removed
            }),
            staged(final(log).overlay.records@, old(self).id, index) == Some(
                final(log).overlay.records@.last().bytes@,
            ),
            forall|t: TableId, j: u64|
                !(t == old(self).id && j == index) ==> staged(final(log).overlay.records@, t, j)
                    == staged(old(log).overlay.records@, t, j),
    {
        let mut buf: Vec<u8> = Vec::new();
        buf.push(0xff);
        buf.push(0xff);
        push_le64(&mut buf, self.last_removed);
        proof {
            assert(buf@.len() == 10);
            assert(buf@[0] == 0xff && buf@[1] == 0xff) by {
                assert(buf@.subrange(0, 2)[0] == buf@[0]);
                assert(buf@.subrange(0, 2)[1] == buf@[1]);
            }
        }
        let ghost rec = LogRecord { table: self.id, slot: index, bytes: buf };
        log.insert_value(self.id, index, buf);
        proof {
            assert(log.overlay.records@.drop_last() =~= old(log).overlay.records@);
            assert forall|t: TableId, j: u64| !(t == old(self).id && j == index) implies staged(
                log.overlay.records@,
                t,
                j,
            ) == staged(old(log).overlay.records@, t, j) by {
                lemma_staged_push(old(log).overlay.records@, rec, t, j);
            }
            lemma_staged_push(old(log).overlay.records@, rec, old(self).id, index);
        }
        self.last_removed = index;
        Ok(())
    }

    /// Entries the store gains per growth step: the growth quantum in
    /// bytes, rounded up to whole entries.
    pub open spec fn growth_increment(self) -> int {
        (GROWTH_BYTES + self.es() - 1) as int / self.es()
    }

    /// The capacity reached by growing in increments of `inc` entries
    /// until slot `index` fits.
    pub open spec fn grown_capacity(cap: int, inc: int, index: int) -> int
        decreases (if cap <= index {
            index + 1 - cap
        } else {
            0
        }),
    {
        if inc < 1 {
            cap
        } else if cap <= index {
            Self::grown_capacity(cap + inc, inc, index)
        } else {
            cap
        }
    }

    /// The growth increment of a well-formed table is between 4 and 4096
    /// entries.
    pub proof fn lemma_growth_increment(self)
        requires
            self.wf(),
        ensures
            4 <= self.growth_increment() <= 4096,
    {
        assert(4 <= (GROWTH_BYTES + self.es() - 1) as int / self.es() <= 4096) by (nonlinear_arith)
            requires
                64 <= self.es() <= 65534,
        ;
    }

    /// Growing never shrinks the capacity.
    pub proof fn lemma_grown_capacity_lb(cap: int, inc: int, index: int)
        ensures
            Self::grown_capacity(cap, inc, index) >= cap,
        decreases (if cap <= index {
            index + 1 - cap
        } else {
            0
        }),
    {
        if inc >= 1 && cap <= index {
            Self::lemma_grown_capacity_lb(cap + inc, inc, index);
        }
    }

    /// Extends the store by one growth increment of zeroed bytes.  Fails,
    /// changing nothing, exactly when the grown store would no longer be
    /// addressable.
    fn grow(&mut self) -> (r: Result<(), Error>)
        requires
            old(self).wf(),
        ensures
            old(self).same_shape(*final(self)),
            final(self).filled == old(self).filled,
            final(self).last_removed == old(self).last_removed,
            match r {
                Ok(()) => {
                    &&& final(self).wf()
                    &&& final(self).capacity == old(self).capacity + old(self).growth_increment()
                    &&& final(self).file@.len() == final(self).capacity * final(self).es()
                    &&& old(self).file@.is_prefix_of(final(self).file@)
                    &&& forall|i: int|
                        old(self).file@.len() <= i < final(self).file@.len() ==> final(self).file@[i] == 0
                },
                Err(e) => {
                    &&& e == Error::TooLarge
                    &&& *final(self) == *old(self)
                    &&& (old(self).capacity + old(self).growth_increment()) * old(self).es()
                        > usize::MAX
                },
            },
    {
        let inc: u64 = (GROWTH_BYTES + self.entry_size as u64 - 1) / (self.entry_size as u64);
        if self.capacity > u64::MAX - inc {
            proof {
                assert((self.capacity + inc) * self.es() > usize::MAX) by (nonlinear_arith)
                    requires
                        self.capacity + inc > u64::MAX,
                        self.es() >= 64,
                        usize::MAX <= u64::MAX,
                ;
            }
            return Err(Error::TooLarge);
        }
        let new_cap: u64 = self.capacity + inc;
        if new_cap > u64::MAX / (self.entry_size as u64) {
            proof {
                assert(new_cap * self.es() > u64::MAX) by (nonlinear_arith)
                    requires
                        new_cap > u64::MAX as int / self.es(),
                        self.es() >= 64,
                ;
            }
            return Err(Error::TooLarge);
        }
        proof {
            assert(new_cap * self.es() <= u64::MAX) by (nonlinear_arith)
                requires
                    new_cap <= u64::MAX as int / self.es(),
                    self.es() >= 64,
            ;
        }
        let new_len_wide: u64 = new_cap * (self.entry_size as u64);
        if new_len_wide > usize::MAX as u64 {
            return Err(Error::TooLarge);
        }
        let new_len: usize = new_len_wide as usize;
        proof {
            assert(self.file@.len() <= new_len) by (nonlinear_arith)
                requires
                    self.file@.len() == self.capacity * self.es(),
                    new_len == new_cap * self.es(),
                    self.capacity <= new_cap,
                    self.es() >= 64,
            ;
        }
        while self.file.len() < new_len
            invariant
                old(self).file@.is_prefix_of(self.file@),
                self.file@.len() <= new_len,
                forall|i: int|
                    old(self).file@.len() <= i < self.file@.len() ==> self.file@[i] == 0,
                self.capacity == old(self).capacity,
                self.entry_size == old(self).entry_size,
                self.multipart == old(self).multipart,
                self.id == old(self).id,
                self.filled == old(self).filled,
                self.last_removed == old(self).last_removed,
            decreases new_len - self.file@.len(),
        {
            self.file.push(0u8);
        }
        self.capacity = new_cap;
        Ok(())
    }

    /// The number of stream bytes one enacted entry consumes, tag
    /// included.
    pub open spec fn record_len(es: int, d: Seq<u8>, p: int) -> int
        recommends
            p + 2 <= d.len(),
    {
        if d[p] == 0xff && d[p + 1] == 0xff {
            10
        } else if d[p] == 0xff && d[p + 1] == 0xfe {
            es
        } else {
            2 + le16_of(d[p], d[p + 1])
        }
    }

    /// Applies one staged entry to the store: grows the store in whole
    /// increments until slot `index` fits, streams the entry bytes for that
    /// slot from the log, and writes them at the slot's offset.  Consumes
    /// exactly the entry's used prefix from the stream.
    #[verifier::loop_isolation(false)]
    pub fn enact_plan(&mut self, index: u64, log: &mut LogReader) -> (r: Result<(), Error>)
        requires
            old(self).wf(),
            index >= 1,
            old(log).pos + 2 <= old(log).data@.len() ==> Self::record_len(
                old(self).es(),
                old(log).data@,
                old(log).pos as int,
            ) <= old(self).es(),
        ensures
            final(log).data@ == old(log).data@,
            final(self).wf(),
            old(self).same_shape(*final(self)),
            final(self).filled == old(self).filled,
            final(self).last_removed == old(self).last_removed,
            ({
                let d = old(log).data@;
                let p = old(log).pos as int;
                let tcap = Self::grown_capacity(
                    old(self).capacity as int,
                    old(self).growth_increment(),
                    index as int,
                );
                match r {
                    Ok(()) => {
                        &&& p + 2 <= d.len()
                        &&& p + Self::record_len(old(self).es(), d, p) <= d.len()
                        &&& final(log).pos == p + Self::record_len(old(self).es(), d, p)
                        &&& final(self).capacity == tcap
                        &&& final(self).file@.len() == tcap * old(self).es()
                        &&& final(self).file@.subrange(
                            index * old(self).es(),
                            index * old(self).es() + Self::record_len(old(self).es(), d, p),
                        ) == d.subrange(p, p + Self::record_len(old(self).es(), d, p))
                        &&& forall|i: int|
                            0 <= i < final(self).file@.len() && !(index * old(self).es() <= i
                                < index * old(self).es() + Self::record_len(old(self).es(), d, p))
                                ==> final(self).file@[i] == (if i < old(self).file@.len() {
                                old(self).file@[i]
                            } else {
                                0
                            })
                    },
                    Err(Error::LogEof) => {
                        &&& (p + 2 > d.len() || p + Self::record_len(old(self).es(), d, p)
                            > d.len())
                        &&& final(log).pos == (if p + 2 > d.len() {
                            p
                        } else {
                            p + 2
                        })
                        &&& final(self).capacity == tcap
                        &&& old(self).file@.is_prefix_of(final(self).file@)
                        &&& forall|i: int|
                            old(self).file@.len() <= i < final(self).file@.len() ==> final(self).file@[i] == 0
                    },
                    Err(Error::TooLarge) => {
                        &&& tcap * old(self).es() > usize::MAX
                        &&& final(log).pos == p
                        &&& old(self).file@.is_prefix_of(final(self).file@)
                        &&& forall|i: int|
                            old(self).file@.len() <= i < final(self).file@.len() ==> final(self).file@[i] == 0
                    },
                    Err(Error::OutOfBounds) => false,
                }
            }),
    {
        let ghost inc = self.growth_increment();
        let ghost tcap = Self::grown_capacity(self.capacity as int, inc, index as int);
        proof {
            self.lemma_growth_increment();
        }
        while self.capacity <= index
            invariant
                self.wf(),
                old(self).same_shape(*self),
                self.filled == old(self).filled,
                self.last_removed == old(self).last_removed,
                old(self).file@.is_prefix_of(self.file@),
                forall|i: int|
                    old(self).file@.len() <= i < self.file@.len() ==> self.file@[i] == 0,
                tcap == Self::grown_capacity(self.capacity as int, inc, index as int),
            decreases (if self.capacity <= index {
                index + 1 - self.capacity as int
            } else {
                0int
            }),
        {
            let ghost cap_before = self.capacity as int;
            let ghost file_before = self.file@;
            proof {
                assert(Self::grown_capacity(cap_before, inc, index as int)
                    == Self::grown_capacity(cap_before + inc, inc, index as int));
            }
            match self.grow() {
                Ok(()) => {
                    proof {
                        assert forall|i: int| 0 <= i < old(self).file@.len() implies self.file@[i]
                            == old(self).file@[i] by {
                            assert(self.file@[i] == file_before[i]);
                        }
                        assert(self.file@.subrange(0, old(self).file@.len() as int) =~= old(
                            self,
                        ).file@);
                        assert forall|i: int|
                            old(self).file@.len() <= i < self.file@.len() implies self.file@[i]
                            == 0 by {
                            if i < file_before.len() {
                                assert(self.file@[i] == file_before[i]);
                            }
                        }
                    }
                },
                Err(err) => {
                    proof {
                        Self::lemma_grown_capacity_lb(cap_before + inc, inc, index as int);
                        assert(tcap * self.es() >= (cap_before + inc) * self.es())
                            by (nonlinear_arith)
                            requires
                                tcap >= cap_before + inc,
                                self.es() >= 64,
                        ;
                    }
                    return Err(err);
                },
            }
        }
        proof {
            assert(tcap == self.capacity as int);
        }
        let ghost d = log.data@;
        let ghost p = old(log).pos as int;
        let tag = match log.read(2) {
            Ok(b) => b,
            Err(err) => {
                return Err(err);
            },
        };
        let mut buf = tag;
        proof {
            assert(buf@[0] == d[p] && buf@[1] == d[p + 1]);
        }
        let consumed: usize = if buf[0] == 0xff && buf[1] == 0xff {
            let rest = match log.read(8) {
                Ok(b) => b,
                Err(err) => {
                    return Err(err);
                },
            };
            let mut rest = rest;
            buf.append(&mut rest);
            10
        } else if buf[0] == 0xff && buf[1] == 0xfe {
            let rest = match log.read(self.entry_size as usize - 2) {
                Ok(b) => b,
                Err(err) => {
                    return Err(err);
                },
            };
            let mut rest = rest;
            buf.append(&mut rest);
            self.entry_size as usize
        } else {
            let size: usize = (buf[0] as usize) + 0x100 * (buf[1] as usize);
            let rest = match log.read(size) {
                Ok(b) => b,
                Err(err) => {
                    return Err(err);
                },
            };
            let mut rest = rest;
            buf.append(&mut rest);
            2 + size
        };
        proof {
            assert(buf@ =~= d.subrange(p, p + Self::record_len(old(self).es(), d, p)));
        }
        let o = match self.slot_off(index) {
            Some(o) => o,
            None => {
                proof {
                    assert(false);
                }
                return Err(Error::OutOfBounds);
            },
        };
        write_range(&mut self.file, o, &buf);
        proof {
            assert(self.file@.subrange(
                index * old(self).es(),
                index * old(self).es() + Self::record_len(old(self).es(), d, p),
            ) =~= buf@);
        }
        Ok(())
    }
}


impl ValueTable {
    /// The slots of the chain headed at `i`, following multipart links
    /// until the first entry that is not a multipart entry.  `None` when an
    /// entry is unreadable, too short for its link, linked to slot 0, or
    /// when the walk does not finish within `fuel` steps.
    pub open spec fn walk_chain(self, ov: Seq<LogRecord>, i: u64, fuel: nat) -> Option<Seq<u64>>
        decreases fuel,
    {
        if fuel == 0 {
            None
        } else {
            match self.entry_at(ov, i) {
                None => None,
                Some(e) => if e.len() < 2 {
                    None
                } else if is_multipart(e) {
                    if e.len() < 10 || entry_next(e) == 0 {
                        None
                    } else {
                        match self.walk_chain(ov, entry_next(e) as u64, (fuel - 1) as nat) {
                            Some(rest) => Some(seq![i] + rest),
                            None => None,
                        }
                    }
                } else {
                    Some(seq![i])
                },
            }
        }
    }

    /// The chain headed at `i` can be walked to its end.
    pub open spec fn walkable(self, ov: Seq<LogRecord>, i: u64) -> bool {
        exists|f: nat| self.walk_chain(ov, i, f).is_some()
    }

    /// The slots of a walkable chain.
    pub open spec fn chain_slots(self, ov: Seq<LogRecord>, i: u64) -> Seq<u64> {
        self.walk_chain(ov, i, choose|f: nat| self.walk_chain(ov, i, f).is_some()).unwrap()
    }

    /// A successful walk yields at least its head slot.
    pub proof fn lemma_walk_head(self, ov: Seq<LogRecord>, i: u64, f: nat)
        requires
            self.walk_chain(ov, i, f).is_some(),
        ensures
            self.walk_chain(ov, i, f).unwrap().len() >= 1,
            self.walk_chain(ov, i, f).unwrap()[0] == i,
    {
    }

    /// A successful walk does not depend on the fuel.
    pub proof fn lemma_walk_fuel(self, ov: Seq<LogRecord>, i: u64, f: nat, g: nat)
        requires
            self.walk_chain(ov, i, f).is_some(),
            f <= g,
        ensures
            self.walk_chain(ov, i, g) == self.walk_chain(ov, i, f),
        decreases f,
    {
        match self.entry_at(ov, i) {
            None => {},
            Some(e) => {
                if e.len() >= 2 && is_multipart(e) && e.len() >= 10 && entry_next(e) != 0 {
                    self.lemma_walk_fuel(ov, entry_next(e) as u64, (f - 1) as nat, (g - 1) as nat);
                }
            },
        }
    }

    /// A walk that completes within `f` steps completes within as many
    /// steps as it has slots.
    pub proof fn lemma_walk_tight(self, ov: Seq<LogRecord>, i: u64, f: nat)
        requires
            self.walk_chain(ov, i, f).is_some(),
        ensures
            ({
                let sl = self.walk_chain(ov, i, f).unwrap();
                self.walk_chain(ov, i, sl.len() as nat) == Some(sl)
            }),
        decreases f,
    {
        let sl = self.walk_chain(ov, i, f).unwrap();
        let e = self.entry_at(ov, i).unwrap();
        if e.len() >= 2 && is_multipart(e) && e.len() >= 10 && entry_next(e) != 0 {
            let rest = self.walk_chain(ov, entry_next(e) as u64, (f - 1) as nat).unwrap();
            self.lemma_walk_tight(ov, entry_next(e) as u64, (f - 1) as nat);
            assert(sl =~= seq![i] + rest);
            assert(self.walk_chain(ov, i, sl.len() as nat) == Some(seq![i] + rest));
        }
    }

    /// Any fuel that completes the walk yields `chain_slots`.
    pub proof fn lemma_chain_slots(self, ov: Seq<LogRecord>, i: u64, f: nat)
        requires
            self.walk_chain(ov, i, f).is_some(),
        ensures
            self.walk_chain(ov, i, f) == Some(self.chain_slots(ov, i)),
            self.chain_slots(ov, i).len() >= 1,
            self.chain_slots(ov, i)[0] == i,
    {
        let f0 = choose|f0: nat| self.walk_chain(ov, i, f0).is_some();
        if f <= f0 {
            self.lemma_walk_fuel(ov, i, f, f0);
        } else {
            self.lemma_walk_fuel(ov, i, f0, f);
        }
    }

    /// A walk is unaffected by overlay changes that stage nothing at its
    /// own slots.
    pub proof fn lemma_walk_frame(
        self,
        other: ValueTable,
        ov1: Seq<LogRecord>,
        ov2: Seq<LogRecord>,
        i: u64,
        fuel: nat,
        sl: Seq<u64>,
    )
        requires
            self.walk_chain(ov1, i, fuel) == Some(sl),
            other.id == self.id,
            other.entry_size == self.entry_size,
            other.file@ == self.file@,
            forall|k: int|
                0 <= k < sl.len() ==> staged(ov2, self.id, #[trigger] sl[k]) == staged(
                    ov1,
                    self.id,
                    sl[k],
                ),
        ensures
            other.walk_chain(ov2, i, fuel) == Some(sl),
        decreases fuel,
    {
        let e = self.entry_at(ov1, i).unwrap();
        assert(sl[0] == i);
        assert(staged(ov2, self.id, sl[0]) == staged(ov1, self.id, sl[0]));
        if e.len() >= 2 && is_multipart(e) && e.len() >= 10 && entry_next(e) != 0 {
            let rest = self.walk_chain(ov1, entry_next(e) as u64, (fuel - 1) as nat).unwrap();
            assert(sl =~= seq![i] + rest);
            assert(forall|k: int| 0 <= k < rest.len() ==> rest[k] == sl[k + 1]);
            self.lemma_walk_frame(other, ov1, ov2, entry_next(e) as u64, (fuel - 1) as nat, rest);
            assert(other.walk_chain(ov2, i, fuel) == Some(seq![i] + rest));
        }
    }

    /// The free-list holds exactly the slots of `fs`, in order: `head` is
    /// its first slot, each slot holds a tombstone entry, and each
    /// tombstone's stored link leads to the rest, ending at 0.
    pub open spec fn is_free_chain(self, ov: Seq<LogRecord>, head: u64, fs: Seq<u64>) -> bool
        decreases fs.len(),
    {
        if fs.len() == 0 {
            head == 0
        } else {
            &&& head != 0
            &&& fs[0] == head
            &&& match self.entry_at(ov, head) {
                Some(e) => {
                    &&& is_tombstone(e)
                    &&& e.len() >= 10
                    &&& self.is_free_chain(ov, le64_of(e.subrange(2, 10)) as u64, fs.skip(1))
                },
                None => false,
            }
        }
    }

    /// The allocator's view of the world is sound: walking the free-list
    /// from `last_removed` visits distinct tombstoned slots, all allocated
    /// and none the reserved slot 0.
    pub open spec fn free_list_rep(self, ov: Seq<LogRecord>, fs: Seq<u64>) -> bool {
        &&& self.is_free_chain(ov, self.last_removed, fs)
        &&& fs.no_duplicates()
        &&& forall|k: int| 0 <= k < fs.len() ==> 0 < #[trigger] fs[k] < self.filled
    }

    /// A free chain is unaffected by overlay changes that stage nothing at
    /// its own slots, and by counter changes.
    pub proof fn lemma_free_chain_frame(
        self,
        other: ValueTable,
        ov1: Seq<LogRecord>,
        ov2: Seq<LogRecord>,
        head: u64,
        fs: Seq<u64>,
    )
        requires
            self.is_free_chain(ov1, head, fs),
            other.id == self.id,
            other.entry_size == self.entry_size,
            other.file@ == self.file@,
            forall|k: int|
                0 <= k < fs.len() ==> staged(ov2, self.id, #[trigger] fs[k]) == staged(
                    ov1,
                    self.id,
                    fs[k],
                ),
        ensures
            other.is_free_chain(ov2, head, fs),
        decreases fs.len(),
    {
        if fs.len() > 0 {
            let e = self.entry_at(ov1, head).unwrap();
            assert(staged(ov2, self.id, fs[0]) == staged(ov1, self.id, fs[0]));
            let rest = fs.skip(1);
            assert(forall|k: int| 0 <= k < rest.len() ==> rest[k] == fs[k + 1]);
            self.lemma_free_chain_frame(
                other,
                ov1,
                ov2,
                le64_of(e.subrange(2, 10)) as u64,
                rest,
            );
        }
    }

    /// The free-list walk determines its slots: two slot sequences that
    /// both describe the list from one head are the same sequence.
    pub proof fn lemma_free_chain_unique(
        self,
        ov: Seq<LogRecord>,
        head: u64,
        fs1: Seq<u64>,
        fs2: Seq<u64>,
    )
        requires
            self.is_free_chain(ov, head, fs1),
            self.is_free_chain(ov, head, fs2),
        ensures
            fs1 == fs2,
        decreases fs1.len(),
    {
        if head == 0 {
            assert(fs1 =~= fs2);
        } else {
            let e = self.entry_at(ov, head).unwrap();
            self.lemma_free_chain_unique(
                ov,
                le64_of(e.subrange(2, 10)) as u64,
                fs1.skip(1),
                fs2.skip(1),
            );
            assert forall|i: int| 0 <= i < fs1.len() implies fs1[i] == fs2[i] by {
                if i > 0 {
                    vstd::seq_lib::lemma_seq_skip_index::<u64>(fs1, 1, i - 1);
                    vstd::seq_lib::lemma_seq_skip_index::<u64>(fs2, 1, i - 1);
                    assert(fs1.skip(1)[i - 1] == fs2.skip(1)[i - 1]);
                }
            }
            assert(fs1 =~= fs2);
        }
    }

    /// Tombstones staged for a run of slots, each linking to the one staged
    /// before it and the first to `head0`, put the run, reversed, in front
    /// of the free-list that `head0` headed.
    #[verifier::rlimit(100)]
    #[verifier::spinoff_prover]
    pub proof fn lemma_free_extend(
        self,
        ov: Seq<LogRecord>,
        tail: Seq<u64>,
        tombs: Seq<Seq<u8>>,
        head0: u64,
        fs: Seq<u64>,
    )
        requires
            tail.len() >= 1,
            tombs.len() == tail.len(),
            forall|j: int|
                0 <= j < tail.len() ==> staged(ov, self.id, #[trigger] tail[j]) == Some(tombs[j]),
            forall|j: int|
                0 <= j < tail.len() ==> is_tombstone(#[trigger] tombs[j]) && tombs[j].len() >= 10
                    && le64_of(tombs[j].subrange(2, 10)) == (if j == 0 {
                    head0 as int
                } else {
                    tail[j - 1] as int
                }),
            forall|j: int| 0 <= j < tail.len() ==> #[trigger] tail[j] != 0,
            self.is_free_chain(ov, head0, fs),
        ensures
            self.is_free_chain(ov, tail.last(), rev_seq(tail) + fs),
        decreases tail.len(),
    {
        reveal_with_fuel(rev_seq, 3);
        let ext = rev_seq(tail) + fs;
        assert(self.entry_at(ov, tail.last()) == Some(tombs.last()));
        if tail.len() == 1 {
            assert(rev_seq(tail) =~= seq![tail[0]]);
            assert(ext[0] == tail[0]);
            assert(ext.skip(1) =~= fs);
        } else {
            let tl = tail.drop_last();
            let tb = tombs.drop_last();
            assert forall|j: int| 0 <= j < tl.len() implies staged(
                ov,
                self.id,
                #[trigger] tl[j],
            ) == Some(tb[j]) by {
                assert(tl[j] == tail[j] && tb[j] == tombs[j]);
            }
            assert forall|j: int| 0 <= j < tl.len() implies is_tombstone(#[trigger] tb[j])
                && tb[j].len() >= 10 && le64_of(tb[j].subrange(2, 10)) == (if j == 0 {
                head0 as int
            } else {
                tl[j - 1] as int
            }) by {
                assert(tb[j] == tombs[j]);
                if j > 0 {
                    assert(tl[j - 1] == tail[j - 1]);
                }
            }
            assert(forall|j: int| 0 <= j < tl.len() ==> #[trigger] tl[j] == tail[j]);
            self.lemma_free_extend(ov, tl, tb, head0, fs);
            assert(rev_seq(tail) == seq![tail.last()] + rev_seq(tl));
            assert(ext[0] == tail.last());
            assert(ext.skip(1) =~= rev_seq(tl) + fs);
            assert(le64_of(tombs.last().subrange(2, 10)) == tail[tail.len() - 2]);
            assert(tl.last() == tail[tail.len() - 2]);
        }
    }

    /// After the slots of a chain are tombstoned in walk order, as
    /// `clear_chain` leaves them, the reversed run heads the free-list in
    /// front of the list that was there.
    #[verifier::rlimit(100)]
    #[verifier::spinoff_prover]
    pub proof fn lemma_cleared_free_rep(
        self,
        pre: Seq<LogRecord>,
        post: Seq<LogRecord>,
        sl: Seq<u64>,
        head0: u64,
        fs: Seq<u64>,
    )
        requires
            post.len() == pre.len() + sl.len(),
            pre.is_prefix_of(post),
            sl.len() >= 1,
            forall|j: int|
                0 <= j < sl.len() ==> is_tomb_record(
                    self.id,
                    #[trigger] post[pre.len() + j],
                    sl[j],
                    if j == 0 {
                        head0 as int
                    } else {
                        sl[j - 1] as int
                    },
                ),
            sl.no_duplicates(),
            forall|j: int| 0 <= j < sl.len() ==> #[trigger] sl[j] != 0,
            forall|k: int, j: int|
                0 <= k < fs.len() && 0 <= j < sl.len() ==> #[trigger] fs[k] != #[trigger] sl[j],
            self.is_free_chain(pre, head0, fs),
        ensures
            self.is_free_chain(post, sl.last(), rev_seq(sl) + fs),
    {
        assert forall|k: int| 0 <= k < fs.len() implies staged(post, self.id, #[trigger] fs[k])
            == staged(pre, self.id, fs[k]) by {
            assert forall|n: int| pre.len() <= n < post.len() implies !(#[trigger] post[n].table
                == self.id && post[n].slot == fs[k]) by {
                let j = n - pre.len();
                assert(is_tomb_record(
                    self.id,
                    post[pre.len() + j],
                    sl[j],
                    if j == 0 {
                        head0 as int
                    } else {
                        sl[j - 1] as int
                    },
                ));
                assert(post[n].slot == sl[j] && fs[k] != sl[j]);
            }
            lemma_staged_grow(pre, post, self.id, fs[k]);
        }
        self.lemma_free_chain_frame(self, pre, post, head0, fs);
        assert forall|k: int| 0 <= k < sl.len() implies #[trigger] post[pre.len() + k].table
            == self.id && post[pre.len() + k].slot == sl[k] by {
            assert(is_tomb_record(
                self.id,
                post[pre.len() + k],
                sl[k],
                if k == 0 {
                    head0 as int
                } else {
                    sl[k - 1] as int
                },
            ));
        }
        lemma_staged_run(pre, post, self.id, sl);
        let tombs = Seq::new(sl.len(), |j: int| post[pre.len() + j].bytes@);
        assert forall|j: int| 0 <= j < sl.len() implies staged(post, self.id, #[trigger] sl[j])
            == Some(tombs[j]) by {
            assert(staged(post, self.id, sl[j]) == Some(post[pre.len() + j].bytes@));
        }
        self.lemma_free_extend(post, sl, tombs, head0, fs);
    }

    /// Staging one record at a slot a walk never visits leaves the walk
    /// unchanged.
    pub proof fn lemma_walk_after_stage(
        self,
        ov1: Seq<LogRecord>,
        ov2: Seq<LogRecord>,
        i: u64,
        fuel: nat,
        sl: Seq<u64>,
        slot: u64,
    )
        requires
            self.walk_chain(ov1, i, fuel) == Some(sl),
            ov1.is_prefix_of(ov2),
            ov2.len() == ov1.len() + 1,
            ov2.last().slot == slot,
            forall|k: int| 0 <= k < sl.len() ==> #[trigger] sl[k] != slot,
        ensures
            self.walk_chain(ov2, i, fuel) == Some(sl),
    {
        assert forall|k: int| 0 <= k < sl.len() implies staged(ov2, self.id, #[trigger] sl[k])
            == staged(ov1, self.id, sl[k]) by {
            assert forall|n: int| ov1.len() <= n < ov2.len() implies !(#[trigger] ov2[n].table
                == self.id && ov2[n].slot == sl[k]) by {
                assert(ov2[n] == ov2.last());
            }
            lemma_staged_grow(ov1, ov2, self.id, sl[k]);
        }
        self.lemma_walk_frame(self, ov1, ov2, i, fuel, sl);
    }

    /// After the unused tail of a replaced chain is tombstoned, the rest of
    /// the staged chain is untouched and the tail, reversed, heads the
    /// free-list.  Only the store bytes and identity of `self` matter here;
    /// `head0` is the free-list head from before the clear.
    #[verifier::rlimit(100)]
    #[verifier::spinoff_prover]
    pub proof fn lemma_tail_cleared(
        self,
        ov_mid: Seq<LogRecord>,
        ov_fin: Seq<LogRecord>,
        tail: Seq<u64>,
        head0: u64,
        fs0: Seq<u64>,
        slots_w: Seq<u64>,
        bytes_w: Seq<Seq<u8>>,
    )
        requires
            ov_mid.is_prefix_of(ov_fin),
            ov_fin.len() == ov_mid.len() + tail.len(),
            tail.len() >= 1,
            forall|j: int|
                0 <= j < tail.len() ==> is_tomb_record(
                    self.id,
                    #[trigger] ov_fin[ov_mid.len() + j],
                    tail[j],
                    if j == 0 {
                        head0 as int
                    } else {
                        tail[j - 1] as int
                    },
                ),
            tail.no_duplicates(),
            forall|j: int| 0 <= j < tail.len() ==> 0 < #[trigger] tail[j] < self.filled,
            forall|k: int, j: int|
                0 <= k < fs0.len() && 0 <= j < tail.len() ==> #[trigger] fs0[k]
                    != #[trigger] tail[j],
            self.is_free_chain(ov_mid, head0, fs0),
            fs0.no_duplicates(),
            forall|k: int| 0 <= k < fs0.len() ==> 0 < #[trigger] fs0[k] < self.filled,
            slots_w.len() == bytes_w.len(),
            forall|j: int|
                0 <= j < slots_w.len() ==> staged(ov_mid, self.id, #[trigger] slots_w[j]) == Some(
                    bytes_w[j],
                ),
            forall|k: int, j: int|
                0 <= k < tail.len() && 0 <= j < slots_w.len() ==> #[trigger] tail[k]
                    != #[trigger] slots_w[j],
            self.last_removed == tail.last(),
        ensures
            forall|j: int|
                0 <= j < slots_w.len() ==> staged(ov_fin, self.id, #[trigger] slots_w[j]) == Some(
                    bytes_w[j],
                ),
            self.free_list_rep(ov_fin, rev_seq(tail) + fs0),
    {
        assert forall|j: int| 0 <= j < slots_w.len() implies staged(
            ov_fin,
            self.id,
            #[trigger] slots_w[j],
        ) == Some(bytes_w[j]) by {
            assert forall|n: int| ov_mid.len() <= n < ov_fin.len() implies !(#[trigger] ov_fin[n].table
                == self.id && ov_fin[n].slot == slots_w[j]) by {
                let k = n - ov_mid.len();
                assert(is_tomb_record(
                    self.id,
                    ov_fin[ov_mid.len() + k],
                    tail[k],
                    if k == 0 {
                        head0 as int
                    } else {
                        tail[k - 1] as int
                    },
                ));
                assert(ov_fin[n].slot == tail[k] && tail[k] != slots_w[j]);
            }
            lemma_staged_grow(ov_mid, ov_fin, self.id, slots_w[j]);
        }
        assert(forall|j: int| 0 <= j < tail.len() ==> #[trigger] tail[j] != 0);
        self.lemma_cleared_free_rep(ov_mid, ov_fin, tail, head0, fs0);
        lemma_rev_index(tail);
        let ext = rev_seq(tail) + fs0;
        assert forall|a1: int, b1: int| 0 <= a1 < b1 < ext.len() implies ext[a1] != ext[b1] by {
            if a1 < tail.len() && b1 < tail.len() {
                assert(ext[a1] == tail[tail.len() - 1 - a1]);
                assert(ext[b1] == tail[tail.len() - 1 - b1]);
            } else if a1 < tail.len() {
                assert(ext[a1] == tail[tail.len() - 1 - a1]);
                assert(ext[b1] == fs0[b1 - tail.len()]);
            } else {
                assert(ext[a1] == fs0[a1 - tail.len()]);
                assert(ext[b1] == fs0[b1 - tail.len()]);
            }
        }
        assert(ext.no_duplicates());
        assert forall|k: int| 0 <= k < ext.len() implies 0 < #[trigger] ext[k] < self.filled by {
            if k < tail.len() {
                assert(ext[k] == tail[tail.len() - 1 - k]);
            } else {
                assert(ext[k] == fs0[k - tail.len()]);
            }
        }
    }

    /// Tombstones every slot of the chain headed at `index`, pushing each
    /// onto the free-list in walk order, so that the chain's last slot ends
    /// up as the list head.
    #[verifier::loop_isolation(false)]
    pub fn clear_chain(&mut self, index: u64, log: &mut LogWriter) -> (r: Result<(), Error>)
        requires
            old(self).wf(),
            old(self).walkable(old(log).overlay.records@, index),
            old(self).chain_slots(old(log).overlay.records@, index).no_duplicates(),
        ensures
            r.is_ok(),
            final(self).wf(),
            old(self).same_shape(*final(self)),
            final(self).file@ == old(self).file@,
            final(self).capacity == old(self).capacity,
            final(self).filled == old(self).filled,
            ({
                let sl = old(self).chain_slots(old(log).overlay.records@, index);
                let pre = old(log).overlay.records@;
                let post = final(log).overlay.records@;
                &&& final(self).last_removed == sl.last()
                &&& post.len() == pre.len() + sl.len()
                &&& pre.is_prefix_of(post)
                &&& forall|j: int|
                    0 <= j < sl.len() ==> is_tomb_record(
                        old(self).id,
                        #[trigger] post[pre.len() + j],
                        sl[j],
                        if j == 0 {
                            old(self).last_removed as int
                        } else {
                            sl[j - 1] as int
                        },
                    )
            }),
    {
        let ghost ov0 = old(log).overlay.records@;
        let ghost f0 = choose|f: nat| self.walk_chain(ov0, index, f).is_some();
        let ghost sl = self.chain_slots(ov0, index);
        proof {
            self.lemma_chain_slots(ov0, index, f0);
        }
        let ghost mut fuel: nat = f0;
        let mut index = index;
        let ghost mut cleared: int = 0;
        loop
            invariant
                self.wf(),
                old(self).same_shape(*self),
                self.file@ == old(self).file@,
                self.capacity == old(self).capacity,
                self.filled == old(self).filled,
                0 <= cleared < sl.len(),
                index == sl[cleared],
                self.last_removed == (if cleared == 0 {
                    old(self).last_removed as int
                } else {
                    sl[cleared - 1] as int
                }),
                log.overlay.records@.len() == ov0.len() + cleared,
                ov0.is_prefix_of(log.overlay.records@),
                forall|j: int|
                    0 <= j < cleared ==> is_tomb_record(
                        old(self).id,
                        #[trigger] log.overlay.records@[ov0.len() + j],
                        sl[j],
                        if j == 0 {
                            old(self).last_removed as int
                        } else {
                            sl[j - 1] as int
                        },
                    ),

                forall|j: int|
                    cleared <= j < sl.len() ==> staged(
                        log.overlay.records@,
                        old(self).id,
                        #[trigger] sl[j],
                    ) == staged(ov0, old(self).id, sl[j]),
                self.walk_chain(log.overlay.records@, index, (f0 - cleared) as nat) == Some(
                    sl.skip(cleared),
                ),
                fuel == f0 - cleared,
            decreases sl.len() - cleared,
        {
            let ghost ov_cur = log.overlay.records@;
            proof {
                assert(sl.skip(cleared)[0] == sl[cleared]);
            }
            let next = match self.read_next_part(index, log) {
                Ok(n) => n,
                Err(err) => {
                    proof {
                        assert(false);
                    }
                    return Err(err);
                },
            };
            match next {
                Some(next) => {
                    proof {
                        let e = self.entry_at(ov_cur, index).unwrap();
                        assert(next == entry_next(e));
                        let inner = self.walk_chain(ov_cur, next as u64, (f0 - cleared - 1) as nat);
                        assert(inner.is_some());
                        let rest = inner.unwrap();
                        assert(seq![index] + rest == sl.skip(cleared));
                        lemma_cons_skip(index, rest, sl, cleared);
                        assert(rest == sl.skip(cleared + 1));
                        self.lemma_walk_head(ov_cur, next as u64, (f0 - cleared - 1) as nat);
                        assert(rest.len() >= 1);
                        assert(cleared + 1 < sl.len());
                        assert(rest[0] == next);
                        vstd::seq_lib::lemma_seq_skip_index::<u64>(sl, cleared + 1, 0);
                        assert(sl[cleared + 1] == next);
                    }
                    let ghost self_before = *self;
                    let _ = self.clear_slot(index, log);
                    proof {
                        let ov_new = log.overlay.records@;
                        assert(ov0.is_prefix_of(ov_new)) by {
                            assert(ov_new.drop_last() == ov_cur);
                            assert(ov_new.subrange(0, ov0.len() as int) =~= ov_cur.subrange(
                                0,
                                ov0.len() as int,
                            ));
                        }
                        assert forall|j: int| cleared + 1 <= j < sl.len() implies staged(
                            ov_new,
                            old(self).id,
                            #[trigger] sl[j],
                        ) == staged(ov0, old(self).id, sl[j]) by {
                            assert(sl[j] != sl[cleared as int]);
                        }
                        assert(self.walk_chain(
                            ov_new,
                            next as u64,
                            (f0 - cleared - 1) as nat,
                        ) == Some(sl.skip(cleared + 1))) by {
                            assert(forall|k: int|
                                0 <= k < sl.skip(cleared + 1).len() ==> #[trigger] sl.skip(
                                    cleared + 1,
                                )[k] == sl[cleared + 1 + k]);
                            self_before.lemma_walk_frame(
                                *self,
                                ov_cur,
                                ov_new,
                                next as u64,
                                (f0 - cleared - 1) as nat,
                                sl.skip(cleared + 1),
                            );
                        }
                        assert forall|m: int| 0 <= m < ov_cur.len() implies log.overlay.records@[m]
                            == ov_cur[m] by {
                            assert(log.overlay.records@.drop_last()[m]
                                == log.overlay.records@[m]);
                        }
                        assert(log.overlay.records@[ov0.len() + cleared]
                            == log.overlay.records@.last());
                        assert(is_tomb_record(
                            old(self).id,
                            log.overlay.records@[ov0.len() + cleared],
                            sl[cleared as int],
                            if cleared == 0 {
                                old(self).last_removed as int
                            } else {
                                sl[cleared - 1] as int
                            },
                        ));
                        assert forall|j: int| 0 <= j < cleared + 1 implies is_tomb_record(
                            old(self).id,
                            #[trigger] log.overlay.records@[ov0.len() + j],
                            sl[j],
                            if j == 0 {
                                old(self).last_removed as int
                            } else {
                                sl[j - 1] as int
                            },
                        ) by {
                            if j < cleared {
                                assert(log.overlay.records@[ov0.len() + j] == ov_cur[ov0.len()
                                    + j]);
                            }
                        }
                        cleared = cleared + 1;
                        fuel = (fuel - 1) as nat;
                    }
                    index = next;
                },
                None => {
                    proof {
                        assert(self.walk_chain(ov_cur, index, (f0 - cleared) as nat) == Some(
                            sl.skip(cleared),
                        ));
                        let e = self.entry_at(ov_cur, index).unwrap();
                        assert(!is_multipart(e));
                        assert(self.walk_chain(ov_cur, index, (f0 - cleared) as nat) == Some(
                            seq![index],
                        ));
                        assert(sl.skip(cleared) =~= seq![index]);
                        vstd::seq_lib::lemma_seq_skip_len::<u64>(sl, cleared);
                        assert(cleared == sl.len() - 1);
                        assert(sl.last() == index);
                    }
                    let _ = self.clear_slot(index, log);
                    proof {
                        assert(ov0.is_prefix_of(log.overlay.records@)) by {
                            assert(log.overlay.records@.drop_last() == ov_cur);
                            assert(log.overlay.records@.subrange(0, ov0.len() as int)
                                =~= ov_cur.subrange(0, ov0.len() as int));
                        }
                        assert forall|m: int| 0 <= m < ov_cur.len() implies log.overlay.records@[m]
                            == ov_cur[m] by {
                            assert(log.overlay.records@.drop_last()[m]
                                == log.overlay.records@[m]);
                        }
                        assert(log.overlay.records@[ov0.len() + cleared]
                            == log.overlay.records@.last());
                        assert(is_tomb_record(
                            old(self).id,
                            log.overlay.records@[ov0.len() + cleared],
                            sl[cleared as int],
                            if cleared == 0 {
                                old(self).last_removed as int
                            } else {
                                sl[cleared - 1] as int
                            },
                        ));
                        assert forall|j: int| 0 <= j < sl.len() implies is_tomb_record(
                            old(self).id,
                            #[trigger] log.overlay.records@[ov0.len() + j],
                            sl[j],
                            if j == 0 {
                                old(self).last_removed as int
                            } else {
                                sl[j - 1] as int
                            },
                        ) by {
                            if j < cleared {
                                assert(log.overlay.records@[ov0.len() + j] == ov_cur[ov0.len()
                                    + j]);
                            }
                        }
                    }
                    return Ok(());
                },
            }
        }
    }

    /// Stages the removal of the value at `index`: tombstones the whole
    /// chain in a multipart table, or just the one slot otherwise.
    pub fn write_remove_plan(&mut self, index: u64, log: &mut LogWriter) -> (r: Result<(), Error>)
        requires
            old(self).wf(),
            old(self).multipart ==> old(self).walkable(old(log).overlay.records@, index)
                && old(self).chain_slots(old(log).overlay.records@, index).no_duplicates(),
        ensures
            r.is_ok(),
            final(self).wf(),
            old(self).same_shape(*final(self)),
            final(self).file@ == old(self).file@,
            final(self).capacity == old(self).capacity,
            final(self).filled == old(self).filled,
            ({
                let sl = if old(self).multipart {
                    old(self).chain_slots(old(log).overlay.records@, index)
                } else {
                    seq![index]
                };
                let pre = old(log).overlay.records@;
                let post = final(log).overlay.records@;
                &&& final(self).last_removed == sl.last()
                &&& post.len() == pre.len() + sl.len()
                &&& pre.is_prefix_of(post)
                &&& forall|j: int|
                    0 <= j < sl.len() ==> is_tomb_record(
                        old(self).id,
                        #[trigger] post[pre.len() + j],
                        sl[j],
                        if j == 0 {
                            old(self).last_removed as int
                        } else {
                            sl[j - 1] as int
                        },
                    )
            }),
    {
        if self.multipart {
            self.clear_chain(index, log)
        } else {
            let r = self.clear_slot(index, log);
            proof {
                assert(log.overlay.records@[old(log).overlay.records@.len() as int]
                    == log.overlay.records@.last());
                assert(seq![index].last() == index);
                assert(old(log).overlay.records@.is_prefix_of(log.overlay.records@)) by {
                    assert(log.overlay.records@.subrange(
                        0,
                        old(log).overlay.records@.len() as int,
                    ) =~= log.overlay.records@.drop_last());
                }
            }
            r
        }
    }
}


/// The slots of `s` in reverse order.
pub open spec fn rev_seq(s: Seq<u64>) -> Seq<u64>
    decreases s.len(),
{
    if s.len() == 0 {
        Seq::empty()
    } else {
        seq![s.last()] + rev_seq(s.drop_last())
    }
}

/// Reversal maps index `i` to index `len - 1 - i`.
pub proof fn lemma_rev_index(s: Seq<u64>)
    ensures
        rev_seq(s).len() == s.len(),
        forall|i: int| 0 <= i < s.len() ==> #[trigger] rev_seq(s)[i] == s[s.len() - 1 - i],
    decreases s.len(),
{
    if s.len() > 0 {
        lemma_rev_index(s.drop_last());
        assert forall|i: int| 0 <= i < s.len() implies #[trigger] rev_seq(s)[i] == s[s.len() - 1
            - i] by {
            if i > 0 {
                assert(rev_seq(s)[i] == rev_seq(s.drop_last())[i - 1]);
                assert(s.drop_last()[s.len() - 1 - i] == s[s.len() - 1 - i]);
            }
        }
    }
}

/// A staged multipart entry of a whole slot, linking to `nxt`.
pub open spec fn multipart_record(es: int, b: Seq<u8>, nxt: u64) -> bool {
    &&& is_multipart(b)
    &&& b.len() == es
    &&& entry_next(b) == nxt
}

/// A staged single entry: its used prefix is exactly its size word plus its
/// declared content.
pub open spec fn single_record(es: int, b: Seq<u8>) -> bool {
    &&& b.len() >= 2
    &&& !is_multipart(b)
    &&& !is_tombstone(b)
    &&& b.len() == 2 + single_size(b)
    &&& b.len() <= es
}

/// The concatenated content bytes of a run of entries.
pub open spec fn contents_cat(es: int, bytes: Seq<Seq<u8>>) -> Seq<u8>
    decreases bytes.len(),
{
    if bytes.len() == 0 {
        Seq::empty()
    } else {
        entry_content(es, bytes[0]) + contents_cat(es, bytes.skip(1))
    }
}

/// Appending one more entry appends its content.
proof fn lemma_cat_push(es: int, bytes: Seq<Seq<u8>>, b: Seq<u8>)
    ensures
        contents_cat(es, bytes.push(b)) == contents_cat(es, bytes) + entry_content(es, b),
    decreases bytes.len(),
{
    reveal_with_fuel(contents_cat, 3);
    if bytes.len() == 0 {
        assert(bytes.push(b).skip(1) =~= Seq::<Seq<u8>>::empty());
        assert(bytes.push(b)[0] == b);
        assert(contents_cat(es, bytes.push(b)) =~= contents_cat(es, bytes) + entry_content(es, b));
    } else {
        assert(bytes.push(b).skip(1) =~= bytes.skip(1).push(b));
        assert(bytes.push(b)[0] == bytes[0]);
        lemma_cat_push(es, bytes.skip(1), b);
        assert(entry_content(es, bytes[0]) + (contents_cat(es, bytes.skip(1)) + entry_content(
            es,
            b,
        )) =~= (entry_content(es, bytes[0]) + contents_cat(es, bytes.skip(1))) + entry_content(
            es,
            b,
        ));
    }
}

impl ValueTable {
    /// A whole chain stands staged in the overlay: slot `j` holds entry
    /// bytes `bytes[j]`, every entry but the last is a multipart entry
    /// linking to the next slot, and the last is a single entry.
    pub open spec fn staged_chain(
        self,
        ov: Seq<LogRecord>,
        slots: Seq<u64>,
        bytes: Seq<Seq<u8>>,
        first: bool,
    ) -> bool {
        &&& slots.len() == bytes.len()
        &&& slots.len() >= 1
        &&& (forall|j: int|
            0 <= j < slots.len() ==> staged(ov, self.id, #[trigger] slots[j]) == Some(bytes[j]))
        &&& (forall|j: int| 0 <= j < slots.len() ==> #[trigger] slots[j] != 0)
        &&& (forall|j: int|
            0 <= j < slots.len() - 1 ==> multipart_record(self.es(), #[trigger] bytes[j], slots[j
                + 1]))
        &&& single_record(self.es(), bytes.last())
        &&& (first && slots.len() == 1 ==> single_size(bytes.last()) >= 30)
    }

    /// A staged chain parses to the concatenation of its content bytes.
    pub proof fn lemma_parse_staged(
        self,
        ov: Seq<LogRecord>,
        slots: Seq<u64>,
        bytes: Seq<Seq<u8>>,
        first: bool,
    )
        requires
            self.wf(),
            self.staged_chain(ov, slots, bytes, first),
        ensures
            self.chain_safe(ov, slots[0], first, slots.len() as nat),
            self.parse_chain(ov, slots[0], slots.len() as nat) == Parsed::Complete(
                contents_cat(self.es(), bytes),
            ),
        decreases slots.len(),
    {
        reveal_with_fuel(contents_cat, 3);
        let e = bytes[0];
        assert(staged(ov, self.id, slots[0]) == Some(e));
        assert(self.entry_at(ov, slots[0]) == Some(e));
        if slots.len() == 1 {
            assert(bytes.last() == e);
            assert(bytes.skip(1) =~= Seq::<Seq<u8>>::empty());
            assert(contents_cat(self.es(), bytes) =~= entry_content(self.es(), e));
        } else {
            assert(multipart_record(self.es(), bytes[0], slots[1]));
            let ts = slots.skip(1);
            let tb = bytes.skip(1);
            assert(self.staged_chain(ov, ts, tb, false)) by {
                assert forall|j: int| 0 <= j < ts.len() implies staged(
                    ov,
                    self.id,
                    #[trigger] ts[j],
                ) == Some(tb[j]) by {
                    vstd::seq_lib::lemma_seq_skip_index::<u64>(slots, 1, j);
                    vstd::seq_lib::lemma_seq_skip_index::<Seq<u8>>(bytes, 1, j);
                    assert(staged(ov, self.id, slots[j + 1]) == Some(bytes[j + 1]));
                }
                assert forall|j: int| 0 <= j < ts.len() implies #[trigger] ts[j] != 0 by {
                    vstd::seq_lib::lemma_seq_skip_index::<u64>(slots, 1, j);
                }
                assert forall|j: int| 0 <= j < ts.len() - 1 implies multipart_record(
                    self.es(),
                    #[trigger] tb[j],
                    ts[j + 1],
                ) by {
                    vstd::seq_lib::lemma_seq_skip_index::<u64>(slots, 1, j + 1);
                    vstd::seq_lib::lemma_seq_skip_index::<Seq<u8>>(bytes, 1, j);
                    assert(multipart_record(self.es(), bytes[j + 1], slots[j + 2]));
                }
                assert(tb.last() == bytes.last());
            }
            self.lemma_parse_staged(ov, ts, tb, false);
            vstd::seq_lib::lemma_seq_skip_index::<u64>(slots, 1, 0);
            assert(ts[0] == slots[1]);
            assert(entry_next(e) == slots[1]);
            assert(self.parse_chain(ov, slots[0], slots.len() as nat) == append_parsed(
                entry_content(self.es(), e),
                self.parse_chain(ov, slots[1], (slots.len() - 1) as nat),
            ));
        }
    }

    /// The staged bytes at the head of a sound free-list, if any, are long
    /// enough for a link read.
    pub proof fn lemma_rep_link_safe(self, ov: Seq<LogRecord>, fs: Seq<u64>)
        requires
            self.free_list_rep(ov, fs),
        ensures
            self.last_removed != 0 ==> match staged(ov, self.id, self.last_removed) {
                Some(b) => b.len() >= 10,
                None => true,
            },
    {
        if self.last_removed != 0 {
            assert(fs.len() > 0);
        }
    }

    /// The plan-staging state is sound: the free-list walks to its end over
    /// distinct allocated tombstones, and, for a replacement, the chain
    /// being replaced walks to its end over distinct allocated slots that
    /// avoid the free-list.
    pub open spec fn plan_sound(self, ov: Seq<LogRecord>, at: Option<u64>) -> bool {
        exists|fs: Seq<u64>|
            {
                &&& self.free_list_rep(ov, fs)
                &&& match at {
                    None => true,
                    Some(i) => {
                        let oc = self.chain_slots(ov, i);
                        &&& self.walkable(ov, i)
                        &&& oc.no_duplicates()
                        &&& (forall|k: int| 0 <= k < oc.len() ==> 0 < #[trigger] oc[k] < self.filled)
                        &&& oc.disjoint(fs)
                    },
                }
            }
    }

    /// The number of entry slots a value of `remainder` content bytes
    /// occupies.
    pub open spec fn parts_needed(es: int, remainder: int) -> int
        decreases (if remainder > es - 2 && es >= 64 {
            remainder
        } else {
            0
        }),
    {
        if es < 64 {
            1
        } else if remainder <= es - 2 {
            1
        } else {
            1 + Self::parts_needed(es, remainder - (es - 10))
        }
    }

    /// The declared size of the final, single entry of a chain holding
    /// `remainder` content bytes.
    pub open spec fn last_part_size(es: int, remainder: int) -> int
        decreases (if remainder > es - 2 && es >= 64 {
            remainder
        } else {
            0
        }),
    {
        if es < 64 {
            remainder
        } else if remainder <= es - 2 {
            remainder
        } else {
            Self::last_part_size(es, remainder - (es - 10))
        }
    }

    /// A value always occupies at least one slot.
    pub proof fn lemma_parts_pos(es: int, remainder: int)
        ensures
            Self::parts_needed(es, remainder) >= 1,
        decreases (if remainder > es - 2 && es >= 64 {
            remainder
        } else {
            0
        }),
    {
        if es >= 64 && remainder > es - 2 {
            Self::lemma_parts_pos(es, remainder - (es - 10));
        }
    }

    /// A fully staged chain whose contents are `payload` parses back to
    /// `payload`, and its head entry stores the first 30 payload bytes.
    pub proof fn lemma_plan_parses(
        self,
        ov: Seq<LogRecord>,
        slots: Seq<u64>,
        bytes: Seq<Seq<u8>>,
        key: Seq<u8>,
        payload: Seq<u8>,
    )
        requires
            self.wf(),
            self.staged_chain(ov, slots, bytes, true),
            contents_cat(self.es(), bytes) == payload,
            key.len() == 32,
            payload.len() >= 30,
            payload.take(30) == key.skip(2),
        ensures
            self.chain_terminates(ov, slots[0], true),
            self.parsed_at(ov, slots[0]) == Parsed::Complete(payload),
            self.head_matches(ov, slots[0], key),
            self.entry_at(ov, slots[0]).is_some(),
            !is_tombstone(self.entry_at(ov, slots[0]).unwrap()),
    {
        reveal_with_fuel(contents_cat, 3);
        self.lemma_parse_staged(ov, slots, bytes, true);
        assert(self.chain_safe(ov, slots[0], true, slots.len() as nat));
        self.lemma_parsed_at(ov, slots[0], slots.len() as nat);
        let e0 = bytes[0];
        assert(staged(ov, self.id, slots[0]) == Some(e0));
        assert(self.entry_at(ov, slots[0]) == Some(e0));
        let c0 = entry_content(self.es(), e0);
        if slots.len() == 1 {
            assert(bytes.skip(1) =~= Seq::<Seq<u8>>::empty());
            assert(c0 =~= payload);
            assert(c0.len() >= 30);
        } else {
            assert(multipart_record(self.es(), bytes[0], slots[1]));
            assert(c0.len() == self.es() - 10 >= 30);
            assert(payload == c0 + contents_cat(self.es(), bytes.skip(1)));
        }
        assert(c0.take(30) =~= payload.take(30));
        assert(self.head_matches(ov, slots[0], key));
        assert(!is_tombstone(e0));
    }


    /// Builds one entry of the chain and stages it for slot `index`: a
    /// multipart entry linking to `next_index`, or a single entry, with the
    /// payload bytes `payload[poff..poff+value_len]` as its value content.
    #[verifier::loop_isolation(false)]
    fn stage_record(
        &self,
        log: &mut LogWriter,
        index: u64,
        kind_multi: bool,
        next_index: u64,
        payload: &Vec<u8>,
        poff: usize,
        value_len: usize,
    ) -> (gb: Ghost<Seq<u8>>)
        requires
            self.wf(),
            poff + value_len <= payload@.len(),
            kind_multi ==> value_len == self.es() - 10,
            !kind_multi ==> value_len <= self.es() - 2 && value_len != 0xfeff,
        ensures
            final(log).overlay.records@.len() == old(log).overlay.records@.len() + 1,
            final(log).overlay.records@.drop_last() == old(log).overlay.records@,
            final(log).overlay.records@.last().table == self.id,
            final(log).overlay.records@.last().slot == index,
            staged(final(log).overlay.records@, self.id, index) == Some(gb@),
            forall|t: TableId, j: u64|
                !(t == self.id && j == index) ==> staged(final(log).overlay.records@, t, j)
                    == staged(old(log).overlay.records@, t, j),
            kind_multi ==> multipart_record(self.es(), gb@, next_index),
            !kind_multi ==> single_record(self.es(), gb@) && single_size(gb@) == value_len,
            entry_content(self.es(), gb@) == payload@.subrange(poff as int, poff + value_len),
    {
        let pn: usize = payload.len();
        let mut buf: Vec<u8> = Vec::new();
        if kind_multi {
            buf.push(0xff);
            buf.push(0xfe);
            push_le64(&mut buf, next_index);
            let ghost hdr = buf@;
            proof {
                assert(hdr.len() == 10);
                assert(hdr[0] == 0xff && hdr[1] == 0xfe) by {
                    assert(hdr.subrange(0, 2)[0] == hdr[0]);
                    assert(hdr.subrange(0, 2)[1] == hdr[1]);
                }
                assert(le64_of(hdr.subrange(2, 10)) == next_index);
            }
            append_range(&mut buf, payload, poff, poff + value_len);
            proof {
                assert(buf@.len() == self.es());
                assert(buf@[0] == hdr[0] && buf@[1] == hdr[1]);
                assert(buf@.subrange(2, 10) =~= hdr.subrange(2, 10));
                assert(is_multipart(buf@));
                assert(entry_next(buf@) == next_index);
                assert(entry_content(self.es(), buf@) =~= payload@.subrange(
                    poff as int,
                    poff + value_len,
                ));
            }
        } else {
            push_le16(&mut buf, value_len as u16);
            let ghost hdr = buf@;
            proof {
                assert(hdr.len() == 2);
                assert(le16_of(hdr[0], hdr[1]) == value_len);
            }
            append_range(&mut buf, payload, poff, poff + value_len);
            proof {
                assert(buf@[0] == hdr[0] && buf@[1] == hdr[1]);
                assert(single_size(buf@) == value_len);
                assert(!is_multipart(buf@)) by {
                    if is_multipart(buf@) {
                        assert(le16_of(buf@[0], buf@[1]) == 0xfeff);
                    }
                }
                assert(!is_tombstone(buf@)) by {
                    if is_tombstone(buf@) {
                        assert(le16_of(buf@[0], buf@[1]) == 0xffff);
                    }
                }
                assert(single_record(self.es(), buf@));
                assert(entry_content(self.es(), buf@) =~= payload@.subrange(
                    poff as int,
                    poff + value_len,
                ));
            }
        }
        let ghost b = buf@;
        let ghost ov_pre = log.overlay.records@;
        log.insert_value(self.id, index, buf);
        proof {
            let ov_new = log.overlay.records@;
            lemma_staged_push(
                ov_pre,
                LogRecord { table: self.id, slot: index, bytes: ov_new.last().bytes },
                self.id,
                index,
            );
            assert(ov_new.drop_last() =~= ov_pre);
            assert forall|t: TableId, j: u64| !(t == self.id && j == index) implies staged(
                ov_new,
                t,
                j,
            ) == staged(ov_pre, t, j) by {
                lemma_staged_push(
                    ov_pre,
                    LogRecord { table: self.id, slot: index, bytes: ov_new.last().bytes },
                    t,
                    j,
                );
            }
        }
        Ghost(b)
    }

    /// Finishes a staged plan: with a leftover tail of a replaced chain
    /// still pending, tombstones it; establishes that the staged chain
    /// parses back to the given content and how the allocator state moved.
    /// `t0` is the table as it stood when the plan began, `ov0` the overlay
    /// records from then.
    #[verifier::rlimit(100)]
    #[verifier::spinoff_prover]
    fn finish_plan(
        &mut self,
        log: &mut LogWriter,
        start: u64,
        next_index: u64,
        follow: bool,
        at: Option<u64>,
        key: &Key,
        value: &Vec<u8>,
        Ghost(t0): Ghost<ValueTable>,
        Ghost(ov0): Ghost<Seq<LogRecord>>,
        Ghost(fs0): Ghost<Seq<u64>>,
        Ghost(oc): Ghost<Seq<u64>>,
        Ghost(slots_w): Ghost<Seq<u64>>,
        Ghost(bytes_w): Ghost<Seq<Seq<u8>>>,
        Ghost(consumed): Ghost<int>,
        Ghost(pops): Ghost<int>,
        Ghost(fresh_cnt): Ghost<int>,
    ) -> (r: u64)
        requires
            old(self).wf(),
            t0.wf(),
            t0.same_shape(*old(self)),
            old(self).file@ == t0.file@,
            old(self).capacity == t0.capacity,
            old(self).id == t0.id,
            ov0.is_prefix_of(old(log).overlay.records@),
            t0.free_list_rep(ov0, fs0),
            match at {
                Some(i) => i != 0 && oc == t0.chain_slots(ov0, i) && oc.len() >= 1
                    && oc.no_duplicates() && oc.disjoint(fs0) && (forall|k: int|
                    0 <= k < oc.len() ==> 0 < #[trigger] oc[k] < t0.filled),
                None => oc == Seq::<u64>::empty(),
            },
            slots_w.len() == bytes_w.len(),
            slots_w.len() == Self::parts_needed(t0.es(), value@.len() + 30int),
            forall|j: int|
                0 <= j < slots_w.len() ==> staged(
                    old(log).overlay.records@,
                    t0.id,
                    #[trigger] slots_w[j],
                ) == Some(bytes_w[j]),
            forall|j: int| 0 <= j < slots_w.len() ==> #[trigger] slots_w[j] != 0,
            forall|j: int|
                0 <= j < slots_w.len() ==> 0 < #[trigger] slots_w[j] < old(self).filled,
            forall|j: int|
                0 <= j < slots_w.len() - 1 ==> multipart_record(
                    t0.es(),
                    #[trigger] bytes_w[j],
                    slots_w[j + 1],
                ),
            single_record(t0.es(), bytes_w.last()),
            slots_w.len() == 1 ==> single_size(bytes_w.last()) >= 30,
            contents_cat(t0.es(), bytes_w) == key@.skip(2) + value@,
            value@.len() + 30 >= 30,
            slots_w.no_duplicates(),
            start == slots_w[0],
            at.is_some() ==> start == at.unwrap(),
            ({
                let ruse: int = if at.is_some() {
                    consumed + 1
                } else {
                    0
                };
                &&& ruse + pops + fresh_cnt == slots_w.len()
                &&& 0 <= pops <= fs0.len()
                &&& fresh_cnt >= 0
                &&& (fresh_cnt > 0 ==> pops == fs0.len())
                &&& (at.is_none() ==> consumed == 0)
                &&& (at.is_some() ==> 0 <= consumed < oc.len())
                &&& (follow ==> pops == 0 && fresh_cnt == 0 && consumed == slots_w.len() - 1)
                &&& (!follow && at.is_some() ==> consumed == oc.len() - 1)
                &&& slots_w == oc.take(ruse) + fs0.take(pops) + Seq::new(
                    fresh_cnt as nat,
                    |i: int| (t0.filled + i) as u64,
                )
            }),
            old(self).filled == t0.filled + fresh_cnt,
            old(self).free_list_rep(old(log).overlay.records@, fs0.skip(pops)),
            follow ==> consumed + 1 < oc.len() && next_index == oc[consumed + 1] && next_index
                != 0 && old(self).walk_chain(
                old(log).overlay.records@,
                next_index,
                (oc.len() - consumed - 1) as nat,
            ) == Some(oc.skip(consumed + 1)),
            !follow ==> next_index == 0,
        ensures
            final(self).wf(),
            t0.same_shape(*final(self)),
            final(self).file@ == t0.file@,
            final(self).capacity == t0.capacity,
            final(self).filled >= t0.filled,
            ov0.is_prefix_of(final(log).overlay.records@),
            r == start,
            ({
                let ov2 = final(log).overlay.records@;
                &&& start != 0
                &&& final(self).chain_terminates(ov2, start, true)
                &&& final(self).parsed_at(ov2, start) == Parsed::Complete(key@.skip(2) + value@)
                &&& final(self).head_matches(ov2, start, key@)
                &&& final(self).entry_at(ov2, start).is_some()
                &&& !is_tombstone(final(self).entry_at(ov2, start).unwrap())
            }),
            ({
                let ov2 = final(log).overlay.records@;
                let m = Self::parts_needed(t0.es(), value@.len() + 30int);
                let reuse = if m <= oc.len() {
                    m
                } else {
                    oc.len() as int
                };
                forall|fs: Seq<u64>|
                    t0.free_list_rep(ov0, fs) ==> {
                        let pops2 = if m - reuse <= fs.len() {
                            m - reuse
                        } else {
                            fs.len() as int
                        };
                        let fresh = m - reuse - pops2;
                        let slots = oc.take(reuse) + fs.take(pops2) + Seq::new(
                            fresh as nat,
                            |i: int| (t0.filled + i) as u64,
                        );
                        let tail = oc.skip(reuse);
                        &&& start == slots[0]
                        &&& final(self).filled == t0.filled + fresh
                        &&& slots.len() == m
                        &&& slots.no_duplicates()
                        &&& (exists|bytes: Seq<Seq<u8>>|
                            final(self).staged_chain(ov2, slots, bytes, true) && contents_cat(
                                t0.es(),
                                bytes,
                            ) == key@.skip(2) + value@)
                        &&& (if tail.len() == 0 {
                            final(self).free_list_rep(ov2, fs.skip(pops2))
                        } else {
                            final(self).free_list_rep(ov2, rev_seq(tail) + fs) && final(self).last_removed == tail.last()
                        })
                    }
            }),
    {
        let ghost ov_mid = log.overlay.records@;
        let ghost m = slots_w.len() as int;
        proof {
            Self::lemma_parts_pos(t0.es(), value@.len() + 30int);
            assert(slots_w.len() >= 1);
        }
        let ghost ruse: int = if at.is_some() {
            consumed + 1
        } else {
            0
        };
        if follow && next_index != 0 {
            proof {
                let tail = oc.skip(consumed + 1);
                assert forall|k: int| 0 <= k < tail.len() implies #[trigger] tail[k] == oc[consumed
                    + 1 + k] by {
                    vstd::seq_lib::lemma_seq_skip_index::<u64>(oc, consumed + 1, k);
                }
                self.lemma_chain_slots(ov_mid, next_index, (oc.len() - consumed - 1) as nat);
                assert(self.chain_slots(ov_mid, next_index) == tail);
                assert(tail.no_duplicates()) by {
                    assert(forall|a1: int, b1: int|
                        0 <= a1 < b1 < tail.len() ==> #[trigger] oc[consumed + 1 + a1]
                            != #[trigger] oc[consumed + 1 + b1]);
                }
            }
            let ghost self_mid = *self;
            match self.clear_chain(next_index, log) {
                Ok(()) => {},
                Err(err) => {
                    proof {
                        assert(false);
                    }
                },
            }
            proof {
                let tail = oc.skip(consumed + 1);
                let ov_fin = log.overlay.records@;
                assert(pops == 0 && fresh_cnt == 0);
                assert(fs0.skip(pops) =~= fs0);
                self_mid.lemma_free_chain_frame(
                    *self,
                    ov_mid,
                    ov_mid,
                    self_mid.last_removed,
                    fs0,
                );
                assert forall|k: int| 0 <= k < tail.len() implies 0 < #[trigger] tail[k]
                    < self.filled by {
                    assert(0 < oc[consumed + 1 + k] < t0.filled);
                }
                assert forall|k2: int, j2: int|
                    0 <= k2 < fs0.len() && 0 <= j2 < tail.len() implies #[trigger] fs0[k2]
                    != #[trigger] tail[j2] by {
                    assert(oc[consumed + 1 + j2] != fs0[k2]);
                }
                assert forall|k2: int, j2: int|
                    0 <= k2 < tail.len() && 0 <= j2 < slots_w.len() implies #[trigger] tail[k2]
                    != #[trigger] slots_w[j2] by {
                    assert(slots_w == oc.take(ruse) + fs0.take(pops) + Seq::new(
                        fresh_cnt as nat,
                        |i: int| (t0.filled + i) as u64,
                    ));
                    assert(slots_w[j2] == oc.take(ruse)[j2]);
                    assert(slots_w[j2] == oc[j2]);
                    assert(oc[consumed + 1 + k2] != oc[j2]);
                }
                assert(self.last_removed == tail.last());
                self.lemma_tail_cleared(
                    ov_mid,
                    ov_fin,
                    tail,
                    self_mid.last_removed,
                    fs0,
                    slots_w,
                    bytes_w,
                );
                assert(ov0.is_prefix_of(ov_fin)) by {
                    assert(ov_fin.subrange(0, ov0.len() as int) =~= ov_mid.subrange(
                        0,
                        ov0.len() as int,
                    ));
                }
            }
        }
        proof {
            let ov_fin = log.overlay.records@;
            assert(self.staged_chain(ov_fin, slots_w, bytes_w, true));
            assert((key@.skip(2) + value@).take(30) =~= key@.skip(2));
            self.lemma_plan_parses(ov_fin, slots_w, bytes_w, key@, key@.skip(2) + value@);
            let reuse_e: int = if m <= oc.len() {
                m
            } else {
                oc.len() as int
            };
            assert(ruse == reuse_e) by {
                if at.is_some() {
                    if follow {
                        assert(ruse <= oc.len());
                        assert(ruse == m);
                    } else {
                        assert(ruse == oc.len());
                    }
                }
            }
            let pops_e: int = if m - reuse_e <= fs0.len() {
                m - reuse_e
            } else {
                fs0.len() as int
            };
            assert(pops == pops_e) by {
                if fresh_cnt > 0 {
                    assert(pops == fs0.len());
                }
            }
            let tail = oc.skip(reuse_e);
            vstd::seq_lib::lemma_seq_skip_len::<u64>(oc, reuse_e);
            if follow && next_index != 0 {
                assert(tail.len() > 0);
                assert(self.free_list_rep(ov_fin, rev_seq(tail) + fs0));
                assert(self.last_removed == tail.last());
            } else {
                assert(tail.len() == 0);
                assert(self.free_list_rep(ov_fin, fs0.skip(pops_e)));
            }
            assert forall|fs: Seq<u64>| t0.free_list_rep(ov0, fs) implies fs == fs0 by {
                t0.lemma_free_chain_unique(ov0, t0.last_removed, fs, fs0);
            }
        }
        start
    }

    /// Encodes `key[2..32] || value` into a chain of entries staged in the
    /// overlay.  With `at` given, the existing chain there is walked and
    /// its slots reused in order, any excess tail tombstoned, and fresh
    /// slots allocated once it runs out; without, every slot comes from the
    /// allocator.  Returns the head slot.  Only the overlay changes: the
    /// backing store is untouched.
    #[verifier::rlimit(100)]
    #[verifier::spinoff_prover]
    fn overwrite_chain(
        &mut self,
        key: &Key,
        value: &Vec<u8>,
        log: &mut LogWriter,
        at: Option<u64>,
    ) -> (r: Result<u64, Error>)
        requires
            old(self).wf(),
            !old(self).multipart ==> value@.len() + KEY_LEN <= old(self).es(),
            value@.len() + 30 <= usize::MAX,
            old(self).filled + Self::parts_needed(old(self).es(), value@.len() + 30int)
                <= u64::MAX,
            Self::last_part_size(old(self).es(), value@.len() + 30int) != 0xfeff,
            old(self).plan_sound(old(log).overlay.records@, at),
            match at {
                Some(i) => i != 0,
                None => true,
            },
        ensures
            final(self).wf(),
            old(self).same_shape(*final(self)),
            final(self).file@ == old(self).file@,
            final(self).capacity == old(self).capacity,
            final(self).filled >= old(self).filled,
            old(log).overlay.records@.is_prefix_of(final(log).overlay.records@),
            ({
                let ov2 = final(log).overlay.records@;
                match r {
                    Ok(start) => {
                        &&& start != 0
                        &&& (at.is_some() ==> start == at.unwrap())
                        &&& final(self).chain_terminates(ov2, start, true)
                        &&& final(self).parsed_at(ov2, start) == Parsed::Complete(
                            key@.skip(2) + value@,
                        )
                        &&& final(self).head_matches(ov2, start, key@)
                        &&& final(self).entry_at(ov2, start).is_some()
                        &&& !is_tombstone(final(self).entry_at(ov2, start).unwrap())
                    },
                    Err(e) => false,
                }
            }),
            ({
                let ov1 = old(log).overlay.records@;
                let ov2 = final(log).overlay.records@;
                let m = Self::parts_needed(old(self).es(), value@.len() + 30int);
                let oc = match at {
                    Some(i) => old(self).chain_slots(ov1, i),
                    None => Seq::<u64>::empty(),
                };
                let reuse = if m <= oc.len() {
                    m
                } else {
                    oc.len() as int
                };
                r.is_ok() ==> forall|fs: Seq<u64>|
                    old(self).free_list_rep(ov1, fs) ==> {
                        let pops = if m - reuse <= fs.len() {
                            m - reuse
                        } else {
                            fs.len() as int
                        };
                        let fresh = m - reuse - pops;
                        let slots = oc.take(reuse) + fs.take(pops) + Seq::new(
                            fresh as nat,
                            |i: int| (old(self).filled + i) as u64,
                        );
                        let tail = oc.skip(reuse);
                        &&& r == Ok::<u64, Error>(slots[0])
                        &&& final(self).filled == old(self).filled + fresh
                        &&& slots.len() == m
                        &&& slots.no_duplicates()
                        &&& (exists|bytes: Seq<Seq<u8>>|
                            final(self).staged_chain(ov2, slots, bytes, true) && contents_cat(
                                old(self).es(),
                                bytes,
                            ) == key@.skip(2) + value@)
                        &&& (if tail.len() == 0 {
                            final(self).free_list_rep(ov2, fs.skip(pops))
                        } else {
                            final(self).free_list_rep(ov2, rev_seq(tail) + fs) && final(self).last_removed == tail.last()
                        })
                    }
            }),
    {
        let ghost ov0 = old(log).overlay.records@;
        let ghost fs0 = choose|fs: Seq<u64>|
            {
                &&& old(self).free_list_rep(ov0, fs)
                &&& match at {
                    None => true,
                    Some(i) => {
                        let oc = old(self).chain_slots(ov0, i);
                        &&& old(self).walkable(ov0, i)
                        &&& oc.no_duplicates()
                        &&& (forall|k: int|
                            0 <= k < oc.len() ==> 0 < #[trigger] oc[k] < old(self).filled)
                        &&& oc.disjoint(fs)
                    },
                }
            };
        let ghost oc: Seq<u64> = match at {
            Some(i) => old(self).chain_slots(ov0, i),
            None => Seq::empty(),
        };
        proof {
            if at.is_some() {
                let f = choose|f: nat| old(self).walk_chain(ov0, at.unwrap(), f).is_some();
                old(self).lemma_chain_slots(ov0, at.unwrap(), f);
            }
        }
        let payload = build_payload(key, value);
        let mut remainder: usize = payload.len();
        let mut poff: usize = 0;
        let mut start: u64 = 0;
        let ghost m = Self::parts_needed(self.es(), payload@.len() as int);
        let ghost mut fs_rem: Seq<u64> = fs0;
        let ghost mut slots_w: Seq<u64> = Seq::empty();
        let ghost mut bytes_w: Seq<Seq<u8>> = Seq::empty();
        let ghost mut consumed: int = 0;
        let ghost mut pops: int = 0;
        let ghost mut fresh_cnt: int = 0;
        let ghost mut src: int = 0;
        let (mut index, mut follow): (u64, bool) = match at {
            Some(i) => (i, true),
            None => {
                proof {
                    self.lemma_rep_link_safe(ov0, fs0);
                    Self::lemma_parts_pos(self.es(), remainder as int);
                }
                let idx = match self.next_free(log) {
                    Ok(i) => i,
                    Err(err) => {
                        proof {
                            assert(false);
                        }
                        return Err(err);
                    },
                };
                proof {
                    if fs0.len() > 0 {
                        assert(idx == fs0[0]);
                        old(self).lemma_free_chain_frame(
                            *self,
                            ov0,
                            ov0,
                            self.last_removed,
                            fs0.skip(1),
                        );
                        fs_rem = fs0.skip(1);
                        pops = 1;
                    } else {
                        assert(self.last_removed == 0);
                        fresh_cnt = 1;
                    }
                }
                (idx, false)
            },
        };
        proof {
            if at.is_some() {
                assert(index == oc[0]);
                assert forall|k: int| 0 <= k < fs_rem.len() implies fs_rem[k] != index by {
                    assert(oc[0] != fs0[k]);
                }
            } else if fs0.len() > 0 {
                assert forall|k: int| 0 <= k < fs_rem.len() implies fs_rem[k] != index by {
                    assert(fs_rem[k] == fs0[k + 1]);
                }
            }
            assert(!fs_rem.contains(index));
            if at.is_some() {
                let f = choose|f: nat| old(self).walk_chain(ov0, at.unwrap(), f).is_some();
                old(self).lemma_walk_tight(ov0, at.unwrap(), f);
                assert(oc.skip(0) =~= oc);
                assert(oc.skip(0).disjoint(slots_w));
            }
        }
        loop
            invariant
                self.wf(),
                old(self).wf(),
                old(self).same_shape(*self),
                self.file@ == old(self).file@,
                self.capacity == old(self).capacity,
                self.filled >= old(self).filled,
                ov0 == old(log).overlay.records@,
                old(self).free_list_rep(ov0, fs0),
                at.is_some() ==> at.unwrap() != 0 && oc == old(self).chain_slots(
                    ov0,
                    at.unwrap(),
                ) && oc.len() >= 1 && oc.no_duplicates() && oc.disjoint(fs0) && (forall|k: int|
                    0 <= k < oc.len() ==> 0 < #[trigger] oc[k] < old(self).filled),
                at.is_none() ==> oc == Seq::<u64>::empty(),
                m == Self::parts_needed(self.es(), payload@.len() as int),
                payload@.len() == value@.len() + 30,
                Self::last_part_size(self.es(), remainder as int) != 0xfeff,
                self.filled + Self::parts_needed(self.es(), remainder as int) - 1 <= u64::MAX,
                ov0.is_prefix_of(log.overlay.records@),
                payload@ == key@.skip(2) + value@,
                1 <= remainder,
                poff + remainder == payload@.len(),
                slots_w.len() == bytes_w.len(),
                slots_w.len() == 0 ==> start == 0 && poff == 0,
                slots_w.len() > 0 ==> start == slots_w[0] && start != 0,
                at.is_some() && slots_w.len() == 0 ==> index == at.unwrap(),
                at.is_some() && slots_w.len() > 0 ==> slots_w[0] == at.unwrap(),
                forall|j: int|
                    0 <= j < slots_w.len() ==> staged(
                        log.overlay.records@,
                        self.id,
                        #[trigger] slots_w[j],
                    ) == Some(bytes_w[j]),
                forall|j: int| 0 <= j < slots_w.len() ==> #[trigger] slots_w[j] != 0,
                forall|j: int|
                    0 <= j < slots_w.len() ==> 0 < #[trigger] slots_w[j] < self.filled,
                forall|j: int|
                    0 <= j < slots_w.len() - 1 ==> multipart_record(
                        self.es(),
                        #[trigger] bytes_w[j],
                        slots_w[j + 1],
                    ),
                slots_w.len() > 0 ==> multipart_record(self.es(), bytes_w.last(), index),
                contents_cat(self.es(), bytes_w) == payload@.take(poff as int),
                slots_w.no_duplicates(),
                !slots_w.contains(index),
                index != 0,
                index < self.filled,
                self.free_list_rep(log.overlay.records@, fs_rem),
                fs_rem.disjoint(slots_w),
                !fs_rem.contains(index),
                follow ==> at.is_some() && consumed == slots_w.len() && index == oc[consumed]
                    && self.walk_chain(
                    log.overlay.records@,
                    index,
                    (oc.len() - consumed) as nat,
                ) == Some(oc.skip(consumed)) && oc.no_duplicates() && oc.disjoint(fs_rem)
                    && (forall|k: int| 0 <= k < oc.len() ==> 0 < #[trigger] oc[k] < self.filled)
                    && oc.skip(consumed).disjoint(slots_w),
                follow ==> 0 <= consumed < oc.len(),
                follow ==> pops == 0 && fresh_cnt == 0,
                at.is_some() && !follow ==> consumed == oc.len() - 1,
                at.is_some() ==> oc.len() >= 1 && 0 <= consumed < oc.len(),
                at.is_none() ==> consumed == 0,
                0 <= pops <= fs0.len(),
                fresh_cnt >= 0,
                fresh_cnt > 0 ==> pops == fs0.len(),
                fs_rem == fs0.skip(pops),
                self.filled == old(self).filled + fresh_cnt,
                (if at.is_some() {
                    consumed + 1
                } else {
                    0int
                }) + pops + fresh_cnt == slots_w.len() + 1,
                m == slots_w.len() + Self::parts_needed(self.es(), remainder as int),
                slots_w.push(index) == oc.take(
                    if at.is_some() {
                        consumed + 1
                    } else {
                        0int
                    },
                ) + fs0.take(pops) + Seq::new(
                    fresh_cnt as nat,
                    |i: int| (old(self).filled + i) as u64,
                ),
            decreases remainder,
        {
            if start == 0 {
                start = index;
            }
            let pn: usize = payload.len();
            let ghost ov_iter = log.overlay.records@;
            let mut next_index: u64 = 0;
            if follow {
                match self.read_next_part(index, log) {
                    Ok(Some(n)) => {
                        next_index = n;
                        proof {
                            let e = self.entry_at(ov_iter, index).unwrap();
                            let inner = self.walk_chain(
                                ov_iter,
                                next_index,
                                (oc.len() - consumed - 1) as nat,
                            );
                            assert(inner.is_some());
                            let rest = inner.unwrap();
                            assert(seq![index] + rest == oc.skip(consumed));
                            lemma_cons_skip(index, rest, oc, consumed);
                            self.lemma_walk_head(
                                ov_iter,
                                next_index,
                                (oc.len() - consumed - 1) as nat,
                            );
                            vstd::seq_lib::lemma_seq_skip_index::<u64>(oc, consumed + 1, 0);
                            assert(next_index == oc[consumed + 1]);
                            src = 0;
                        }
                    },
                    Ok(None) => {
                        proof {
                            let e = self.entry_at(ov_iter, index).unwrap();
                            assert(self.walk_chain(ov_iter, index, (oc.len() - consumed) as nat)
                                == Some(seq![index]));
                            assert(oc.skip(consumed) =~= seq![index]);
                            vstd::seq_lib::lemma_seq_skip_len::<u64>(oc, consumed);
                            assert(consumed == oc.len() - 1);
                        }
                        follow = false;
                    },
                    Err(err) => {
                        proof {
                            assert(false);
                        }
                        return Err(err);
                    },
                }
            }
            let free_space: usize = self.entry_size as usize - 2;
            let value_len: usize;
            let kind_multi: bool;
            if remainder > free_space {
                if !follow {
                    proof {
                        self.lemma_rep_link_safe(log.overlay.records@, fs_rem);
                        assert(Self::parts_needed(self.es(), remainder as int) == 1
                            + Self::parts_needed(self.es(), remainder - (self.es() - 10)));
                        Self::lemma_parts_pos(self.es(), remainder - (self.es() - 10));
                    }
                    let ghost fs_before = fs_rem;
                    let ghost self_pre = *self;
                    next_index = match self.next_free(log) {
                        Ok(i) => i,
                        Err(err) => {
                            proof {
                                assert(false);
                            }
                            return Err(err);
                        },
                    };
                    proof {
                        if fs_before.len() > 0 {
                            assert(next_index == fs_before[0]);
                            self_pre.lemma_free_chain_frame(
                                *self,
                                log.overlay.records@,
                                log.overlay.records@,
                                self.last_removed,
                                fs_before.skip(1),
                            );
                            fs_rem = fs_before.skip(1);
                            assert(fs_rem.disjoint(slots_w)) by {
                                assert(forall|k: int|
                                    0 <= k < fs_rem.len() ==> #[trigger] fs_rem[k] == fs_before[k
                                        + 1]);
                            }
                            assert(!fs_rem.contains(index)) by {
                                assert(forall|k: int|
                                    0 <= k < fs_rem.len() ==> #[trigger] fs_rem[k] == fs_before[k
                                        + 1]);
                            }
                            assert(!slots_w.contains(next_index));
                            assert(!fs_rem.contains(next_index)) by {
                                assert(fs_before[0] == next_index);
                                assert(forall|k: int|
                                    0 <= k < fs_rem.len() ==> #[trigger] fs_rem[k] == fs_before[k
                                        + 1]);
                            }
                            pops = pops + 1;
                            src = 1;
                            assert(next_index == fs0[pops - 1]) by {
                                assert(fs_before == fs0.skip(pops - 1));
                                vstd::seq_lib::lemma_seq_skip_index::<u64>(fs0, pops - 1, 0);
                            }
                            assert(fs_rem =~= fs0.skip(pops)) by {
                                assert(forall|k: int|
                                    0 <= k < fs_rem.len() ==> #[trigger] fs_rem[k] == fs_before[k
                                        + 1]);
                                assert(forall|k: int|
                                    0 <= k < fs_rem.len() ==> #[trigger] fs_before[k + 1]
                                        == fs0[pops - 1 + k + 1]);
                            }
                        } else {
                            assert(next_index == self.filled - 1);
                            assert(!slots_w.contains(next_index));
                            assert(!fs_rem.contains(next_index));
                            fresh_cnt = fresh_cnt + 1;
                            src = 2;
                            assert(next_index == old(self).filled + fresh_cnt - 1);
                        }
                        assert(next_index != index);
                        assert(next_index != 0);
                    }
                }
                value_len = free_space - 8;
                kind_multi = true;
                proof {
                    assert(Self::last_part_size(self.es(), remainder as int)
                        == Self::last_part_size(self.es(), remainder - value_len));
                    assert(Self::parts_needed(self.es(), remainder as int) == 1
                        + Self::parts_needed(self.es(), remainder - value_len));
                }
            } else {
                value_len = remainder;
                kind_multi = false;
                proof {
                    assert(remainder <= 65532);
                    assert(remainder != 0xfeff);
                }
            }
            let ghost ov_pre = log.overlay.records@;
            let gb = self.stage_record(
                log,
                index,
                kind_multi,
                next_index,
                &payload,
                poff,
                value_len,
            );
            let ghost b = gb@;
            proof {
                let ov_new = log.overlay.records@;
                assert(ov0.is_prefix_of(ov_new)) by {
                    assert(ov_new.drop_last() == ov_pre);
                    assert(ov_new.subrange(0, ov0.len() as int) =~= ov_pre.subrange(
                        0,
                        ov0.len() as int,
                    ));
                }
                assert forall|j: int| 0 <= j < slots_w.len() implies staged(
                    ov_new,
                    self.id,
                    #[trigger] slots_w[j],
                ) == Some(bytes_w[j]) by {
                    assert(slots_w[j] != index);
                }
                self.lemma_free_chain_frame(*self, ov_pre, ov_new, self.last_removed, fs_rem);
                lemma_cat_push(self.es(), bytes_w, b);
                assert(payload@.take(poff as int) + payload@.subrange(
                    poff as int,
                    poff + value_len,
                ) =~= payload@.take(poff + value_len));
                if !kind_multi && slots_w.len() == 0 {
                    assert(value_len == payload@.len());
                    assert(single_size(b) >= 30);
                }
                slots_w = slots_w.push(index);
                bytes_w = bytes_w.push(b);
                assert(slots_w.last() == index);
                assert(bytes_w.last() == b);
                assert(slots_w.drop_last() =~= slots_w.subrange(0, slots_w.len() - 1));
                assert(forall|j: int|
                    0 <= j < slots_w.len() - 1 ==> #[trigger] slots_w[j] != index);
                assert(slots_w.no_duplicates());
            }
            poff = poff + value_len;
            remainder = remainder - value_len;
            if remainder == 0 {
                proof {
                    assert(m == slots_w.len());
                    assert(contents_cat(self.es(), bytes_w) == key@.skip(2) + value@) by {
                        assert(payload@.take(poff as int) =~= payload@);
                    }
                    if follow {
                        let tail = oc.skip(consumed + 1);
                        let ov_now = log.overlay.records@;
                        self.lemma_walk_head(
                            ov_iter,
                            next_index,
                            (oc.len() - consumed - 1) as nat,
                        );
                        assert forall|k: int| 0 <= k < tail.len() implies #[trigger] tail[k]
                            != index && tail[k] == oc[consumed + 1 + k] by {
                            vstd::seq_lib::lemma_seq_skip_index::<u64>(oc, consumed + 1, k);
                            assert(oc[consumed + 1 + k] != oc[consumed as int]);
                        }
                        assert(ov_iter.is_prefix_of(ov_now)) by {
                            assert(ov_now.subrange(0, ov_iter.len() as int) =~= ov_iter);
                        }
                        self.lemma_walk_after_stage(
                            ov_iter,
                            ov_now,
                            next_index,
                            (oc.len() - consumed - 1) as nat,
                            tail,
                            index,
                        );
                    }
                }
                let r2 = self.finish_plan(
                    log,
                    start,
                    next_index,
                    follow,
                    at,
                    key,
                    value,
                    Ghost(*old(self)),
                    Ghost(ov0),
                    Ghost(fs0),
                    Ghost(oc),
                    Ghost(slots_w),
                    Ghost(bytes_w),
                    Ghost(consumed),
                    Ghost(pops),
                    Ghost(fresh_cnt),
                );
                return Ok(r2);
            }
            proof {
                if follow {
                    let tail = oc.skip(consumed + 1);
                    let ov_now = log.overlay.records@;
                    assert forall|k: int| 0 <= k < tail.len() implies #[trigger] tail[k] != index
                        && tail[k] == oc[consumed + 1 + k] by {
                        vstd::seq_lib::lemma_seq_skip_index::<u64>(oc, consumed + 1, k);
                        assert(oc[consumed + 1 + k] != oc[consumed as int]);
                    }
                    assert(ov_iter.is_prefix_of(ov_now)) by {
                        assert(ov_now.subrange(0, ov_iter.len() as int) =~= ov_iter);
                    }
                    self.lemma_walk_after_stage(
                        ov_iter,
                        ov_now,
                        next_index,
                        (oc.len() - consumed - 1) as nat,
                        tail,
                        index,
                    );
                    assert forall|k: int, j: int|
                        0 <= k < tail.len() && 0 <= j < slots_w.len() implies tail[k]
                        != slots_w[j] by {
                        vstd::seq_lib::lemma_seq_skip_index::<u64>(oc, consumed + 1, k);
                        assert(oc.skip(consumed).contains(oc[consumed + 1 + k])) by {
                            vstd::seq_lib::lemma_seq_skip_index::<u64>(oc, consumed, 1 + k);
                        }
                        if j < slots_w.len() - 1 {
                        } else {
                            assert(slots_w[j] == index);
                        }
                    }
                    assert(slots_w.push(next_index) =~= oc.take(consumed + 2) + fs0.take(pops)
                        + Seq::new(fresh_cnt as nat, |i: int| (old(self).filled + i) as u64)) by {
                        assert(oc.take(consumed + 2) =~= oc.take(consumed + 1).push(
                            oc[consumed + 1],
                        ));
                    }
                    consumed = consumed + 1;
                } else {
                    let ruse: int = if at.is_some() {
                        consumed + 1
                    } else {
                        0
                    };
                    if src == 1 {
                        assert(slots_w.push(next_index) =~= oc.take(ruse) + fs0.take(pops)
                            + Seq::new(
                            fresh_cnt as nat,
                            |i: int| (old(self).filled + i) as u64,
                        )) by {
                            assert(fs0.take(pops) =~= fs0.take(pops - 1).push(fs0[pops - 1]));
                        }
                    } else {
                        assert(src == 2);
                        assert(slots_w.push(next_index) =~= oc.take(ruse) + fs0.take(pops)
                            + Seq::new(
                            fresh_cnt as nat,
                            |i: int| (old(self).filled + i) as u64,
                        )) by {
                            assert(Seq::new(
                                fresh_cnt as nat,
                                |i: int| (old(self).filled + i) as u64,
                            ) =~= Seq::new(
                                (fresh_cnt - 1) as nat,
                                |i: int| (old(self).filled + i) as u64,
                            ).push((old(self).filled + fresh_cnt - 1) as u64));
                        }
                    }
                }
            }
            index = next_index;
        }
    }

    /// Stages the insertion of `value` under `key` into a fresh chain and
    /// returns its head slot.
    pub fn write_insert_plan(&mut self, key: &Key, value: &Vec<u8>, log: &mut LogWriter) -> (r:
        Result<u64, Error>)
        requires
            old(self).wf(),
            !old(self).multipart ==> value@.len() + KEY_LEN <= old(self).es(),
            value@.len() + 30 <= usize::MAX,
            old(self).filled + Self::parts_needed(old(self).es(), value@.len() + 30int)
                <= u64::MAX,
            Self::last_part_size(old(self).es(), value@.len() + 30int) != 0xfeff,
            old(self).plan_sound(old(log).overlay.records@, None),
        ensures
            final(self).wf(),
            old(self).same_shape(*final(self)),
            final(self).file@ == old(self).file@,
            final(self).capacity == old(self).capacity,
            final(self).filled >= old(self).filled,
            old(log).overlay.records@.is_prefix_of(final(log).overlay.records@),
            ({
                let ov2 = final(log).overlay.records@;
                match r {
                    Ok(start) => {
                        &&& start != 0
                        &&& final(self).chain_terminates(ov2, start, true)
                        &&& final(self).parsed_at(ov2, start) == Parsed::Complete(
                            key@.skip(2) + value@,
                        )
                        &&& final(self).head_matches(ov2, start, key@)
                        &&& final(self).entry_at(ov2, start).is_some()
                        &&& !is_tombstone(final(self).entry_at(ov2, start).unwrap())
                    },
                    Err(e) => false,
                }
            }),
            ({
                let ov1 = old(log).overlay.records@;
                let ov2 = final(log).overlay.records@;
                let m = Self::parts_needed(old(self).es(), value@.len() + 30int);
                r.is_ok() ==> forall|fs: Seq<u64>|
                    old(self).free_list_rep(ov1, fs) ==> {
                        let pops = if m <= fs.len() {
                            m
                        } else {
                            fs.len() as int
                        };
                        let fresh = m - pops;
                        let slots = fs.take(pops) + Seq::new(
                            fresh as nat,
                            |i: int| (old(self).filled + i) as u64,
                        );
                        &&& r == Ok::<u64, Error>(slots[0])
                        &&& final(self).filled == old(self).filled + fresh
                        &&& slots.len() == m
                        &&& slots.no_duplicates()
                        &&& (exists|bytes: Seq<Seq<u8>>|
                            final(self).staged_chain(ov2, slots, bytes, true) && contents_cat(
                                old(self).es(),
                                bytes,
                            ) == key@.skip(2) + value@)
                        &&& final(self).free_list_rep(ov2, fs.skip(pops))
                    }
            }),
    {
        let r = self.overwrite_chain(key, value, log, None);
        proof {
            let m = Self::parts_needed(old(self).es(), value@.len() + 30int);
            Self::lemma_parts_pos(old(self).es(), value@.len() + 30int);
            assert forall|fs: Seq<u64>|
                old(self).free_list_rep(old(log).overlay.records@, fs) implies {
                let pops = if m <= fs.len() {
                    m
                } else {
                    fs.len() as int
                };
                fs.take(pops) + Seq::new(
                    (m - pops) as nat,
                    |i: int| (old(self).filled + i) as u64,
                ) == Seq::<u64>::empty().take(0) + fs.take(pops) + Seq::new(
                    (m - pops) as nat,
                    |i: int| (old(self).filled + i) as u64,
                )
            } by {
                let pops = if m <= fs.len() {
                    m
                } else {
                    fs.len() as int
                };
                assert(fs.take(pops) + Seq::new(
                    (m - pops) as nat,
                    |i: int| (old(self).filled + i) as u64,
                ) =~= Seq::<u64>::empty().take(0) + fs.take(pops) + Seq::new(
                    (m - pops) as nat,
                    |i: int| (old(self).filled + i) as u64,
                ));
            }
        }
        r
    }

    /// Stages the replacement of the chain at `index` with `value` under
    /// `key`, reusing its slots, tombstoning any excess tail, and
    /// allocating fresh slots when the value grew.
    pub fn write_replace_plan(
        &mut self,
        index: u64,
        key: &Key,
        value: &Vec<u8>,
        log: &mut LogWriter,
    ) -> (r: Result<(), Error>)
        requires
            old(self).wf(),
            index != 0,
            !old(self).multipart ==> value@.len() + KEY_LEN <= old(self).es(),
            value@.len() + 30 <= usize::MAX,
            old(self).filled + Self::parts_needed(old(self).es(), value@.len() + 30int)
                <= u64::MAX,
            Self::last_part_size(old(self).es(), value@.len() + 30int) != 0xfeff,
            old(self).plan_sound(old(log).overlay.records@, Some(index)),
        ensures
            final(self).wf(),
            old(self).same_shape(*final(self)),
            final(self).file@ == old(self).file@,
            final(self).capacity == old(self).capacity,
            final(self).filled >= old(self).filled,
            old(log).overlay.records@.is_prefix_of(final(log).overlay.records@),
            ({
                let ov2 = final(log).overlay.records@;
                match r {
                    Ok(()) => {
                        &&& final(self).chain_terminates(ov2, index, true)
                        &&& final(self).parsed_at(ov2, index) == Parsed::Complete(
                            key@.skip(2) + value@,
                        )
                        &&& final(self).head_matches(ov2, index, key@)
                    },
                    Err(e) => false,
                }
            }),
            ({
                let ov1 = old(log).overlay.records@;
                let ov2 = final(log).overlay.records@;
                let m = Self::parts_needed(old(self).es(), value@.len() + 30int);
                let oc = old(self).chain_slots(ov1, index);
                let reuse = if m <= oc.len() {
                    m
                } else {
                    oc.len() as int
                };
                r.is_ok() ==> forall|fs: Seq<u64>|
                    old(self).free_list_rep(ov1, fs) ==> {
                        let pops = if m - reuse <= fs.len() {
                            m - reuse
                        } else {
                            fs.len() as int
                        };
                        let fresh = m - reuse - pops;
                        let slots = oc.take(reuse) + fs.take(pops) + Seq::new(
                            fresh as nat,
                            |i: int| (old(self).filled + i) as u64,
                        );
                        let tail = oc.skip(reuse);
                        &&& slots[0] == index
                        &&& final(self).filled == old(self).filled + fresh
                        &&& slots.len() == m
                        &&& slots.no_duplicates()
                        &&& (exists|bytes: Seq<Seq<u8>>|
                            final(self).staged_chain(ov2, slots, bytes, true) && contents_cat(
                                old(self).es(),
                                bytes,
                            ) == key@.skip(2) + value@)
                        &&& (if tail.len() == 0 {
                            final(self).free_list_rep(ov2, fs.skip(pops))
                        } else {
                            final(self).free_list_rep(ov2, rev_seq(tail) + fs) && final(self).last_removed == tail.last()
                        })
                    }
            }),
    {
        match self.overwrite_chain(key, value, log, Some(index)) {
            Ok(_start) => Ok(()),
            Err(err) => Err(err),
        }
    }
}

/// Builds the stored form of a value: the 30-byte key suffix followed by
/// the value bytes.
#[verifier::loop_isolation(false)]
fn build_payload(key: &Key, value: &Vec<u8>) -> (r: Vec<u8>)
    requires
        value@.len() + 30 <= usize::MAX,
    ensures
        r@ == key@.skip(2) + value@,
        r@.len() == value@.len() + 30,
{
    let mut r: Vec<u8> = Vec::new();
    let mut i: usize = 2;
    while i < 32
        invariant
            2 <= i <= 32,
            r@.len() == i - 2,
            forall|j: int| 0 <= j < i - 2 ==> r@[j] == key@[2 + j],
        decreases 32 - i,
    {
        r.push(key[i]);
        i = i + 1;
    }
    append_range(&mut r, value, 0, value.len());
    proof {
        assert(r@ =~= key@.skip(2) + value@);
    }
    r
}

} // verus!




