//! Columnar storage held in memory.
//!
//! Values live in packed column buffers of a fixed number of rows. A text column is an array
//! of offsets and one slab of bytes. Tables are boxed once, when they are registered; queries
//! only borrow them.

use vstd::prelude::*;

verus! {

/// Rows of one vectorised batch.
pub const BATCH_ROWS: usize = 1024;

/// Columns a table can have.
pub const MAX_COLUMNS: usize = 8;

/// Rows a table held in memory can have.
pub const MAX_ROWS: usize = 4096;

/// Entries of an offsets array: one more than there are rows.
pub const OFFSETS_CAP: usize = 4097;

/// 64-bit limbs of a validity bitmap.
pub const VALIDITY_LIMBS: usize = 64;

/// Bytes in the slab of a text column.
pub const UTF8_SLAB_CAP: usize = 8192;

/// Bytes of a column or relation name.
pub const NAME_CAP: usize = 64;

/// Tables a catalog can hold.
pub const MAX_TABLES: usize = 8;

/// Physical type of a column.
#[derive(Copy, Clone, Debug, PartialEq, Eq, Structural)]
pub enum PhysType {
    Null,
    Int64,
    Utf8,
    Bool,
}

/// Whether two byte slices hold the same bytes.
pub fn bytes_eq(a: &[u8], b: &[u8]) -> (r: bool)
    ensures
        r == (a@ == b@),
{
    if a.len() != b.len() {
        return false;
    }
    let mut i: usize = 0;
    while i < a.len()
        invariant
            i <= a@.len() == b@.len(),
            forall|k: int| 0 <= k < i ==> a@[k] == b@[k],
        decreases a@.len() - i,
    {
        if a[i] != b[i] {
            return false;
        }
        i += 1;
    }
    assert(a@ =~= b@);
    true
}

/// `b` cut to [`NAME_CAP`] bytes.
pub open spec fn cut_name(b: Seq<u8>) -> Seq<u8> {
    if b.len() <= NAME_CAP {
        b
    } else {
        b.take(NAME_CAP as int)
    }
}

/// A name in its fixed buffer: cut to [`NAME_CAP`] bytes and filled up with zeros.
pub open spec fn padded_name(b: Seq<u8>) -> Seq<u8> {
    Seq::new(
        NAME_CAP as nat,
        |i: int|
            if i < b.len() {
                b[i]
            } else {
                0u8
            },
    )
}

/// A column or relation name stored inline.
#[derive(Copy, Clone, Debug)]
pub struct ColName {
    pub bytes: [u8; NAME_CAP],
    pub len: u16,
}

impl ColName {
    /// The length lies inside the buffer.
    pub open spec fn wf(&self) -> bool {
        self.len <= NAME_CAP
    }

    /// The bytes of the name.
    pub open spec fn view(&self) -> Seq<u8> {
        self.bytes@.take(self.len as int)
    }

    /// The length lies inside the buffer, and the buffer holds zeros behind the name.
    pub open spec fn is_padded(&self) -> bool {
        &&& self.wf()
        &&& self.bytes@ == padded_name(self@)
    }

    /// The name without bytes.
    pub fn empty() -> (r: Self)
        ensures
            r.wf(),
            r.is_padded(),
            r@ == Seq::<u8>::empty(),
            r.bytes@ == padded_name(Seq::empty()),
    {
        let r = ColName { bytes: [0u8; NAME_CAP], len: 0 };
        assert(r@ =~= Seq::<u8>::empty());
        assert(r.bytes@ =~= padded_name(Seq::empty()));
        r
    }

    /// A name of the first [`NAME_CAP`] bytes of `src`.
    pub fn from_bytes(src: &[u8]) -> (r: Self)
        ensures
            r.wf(),
            r.is_padded(),
            r@ == cut_name(src@),
            r.bytes@ == padded_name(src@),
    {
        let n: usize = if src.len() < NAME_CAP {
            src.len()
        } else {
            NAME_CAP
        };
        let mut out = Self::empty();
        let mut i: usize = 0;
        while i < n
            invariant
                i <= n <= NAME_CAP,
                n <= src@.len(),
                forall|k: int| 0 <= k < i ==> out.bytes@[k] == src@[k],
                forall|k: int| i <= k < NAME_CAP ==> out.bytes@[k] == 0,
            decreases n - i,
        {
            out.bytes[i] = src[i];
            i += 1;
        }
        out.len = n as u16;
        assert(out@ =~= cut_name(src@));
        assert(out.bytes@ =~= padded_name(src@));
        assert(out.bytes@ =~= padded_name(out@));
        out
    }

    /// The bytes of the name.
    pub fn as_bytes(&self) -> (r: &[u8])
        requires
            self.wf(),
        ensures
            r@ == self@,
    {
        vstd::slice::slice_subrange(&self.bytes, 0, self.len as usize)
    }

    /// Whether the name is `other`.
    pub fn eq_bytes(&self, other: &[u8]) -> (r: bool)
        requires
            self.wf(),
        ensures
            r == (self@ == other@),
    {
        bytes_eq(self.as_bytes(), other)
    }
}

/// Schema entry of one column.
#[derive(Copy, Clone, Debug)]
pub struct ColumnMeta {
    pub name: ColName,
    pub phys: PhysType,
    /// Byte offset of the column in the table's payload.
    pub data_off: u32,
    /// Offset of a text column's offsets array.
    pub offsets_off: u32,
}

/// What a schema entry says.
#[verifier::ext_equal]
pub struct MetaView {
    pub name: Seq<u8>,
    /// The whole buffer of the name.
    pub buffer: Seq<u8>,
    pub phys: PhysType,
    pub data_off: u32,
    pub offsets_off: u32,
}

impl ColumnMeta {
    pub open spec fn view(&self) -> MetaView {
        MetaView {
            name: self.name@,
            buffer: self.name.bytes@,
            phys: self.phys,
            data_off: self.data_off,
            offsets_off: self.offsets_off,
        }
    }

    /// The entry without a name or a type.
    pub fn empty() -> (r: Self)
        ensures
            r.name.wf(),
            r@ == meta_view(Seq::empty(), PhysType::Null),
    {
        ColumnMeta { name: ColName::empty(), phys: PhysType::Null, data_off: 0, offsets_off: 0 }
    }
}

/// The schema entry of a column `name` of type `phys` at offset zero, with zeros behind the name.
pub open spec fn meta_view(name: Seq<u8>, phys: PhysType) -> MetaView {
    MetaView { name, buffer: padded_name(name), phys, data_off: 0, offsets_off: 0 }
}

/// Whether bit `row` of a bitmap in 64-bit limbs is set.
pub open spec fn limb_bit(limbs: Seq<u64>, row: int) -> bool {
    ((limbs[row / 64] >> ((row % 64) as u64)) & 1u64) == 1u64
}

/// Validity of each row, one bit a row.
#[derive(Copy, Clone)]
pub struct ValidityBitmap {
    pub limbs: [u64; VALIDITY_LIMBS],
}

impl ValidityBitmap {
    /// Whether each row is valid.
    pub open spec fn view(&self) -> Seq<bool> {
        Seq::new(MAX_ROWS as nat, |i: int| limb_bit(self.limbs@, i))
    }

    /// Every row valid.
    pub fn all_valid() -> (r: Self)
        ensures
            r@ == Seq::new(MAX_ROWS as nat, |i: int| true),
    {
        let r = ValidityBitmap { limbs: [u64::MAX; VALIDITY_LIMBS] };
        assert forall|i: int| 0 <= i < MAX_ROWS implies limb_bit(r.limbs@, i) by {
            let b: u64 = (i % 64) as u64;
            assert(b < 64 ==> ((0xffff_ffff_ffff_ffffu64 >> b) & 1u64) == 1u64) by (bit_vector);
        }
        assert(r@ =~= Seq::new(MAX_ROWS as nat, |i: int| true));
        r
    }

    /// No row valid.
    pub fn none_valid() -> (r: Self)
        ensures
            r@ == Seq::new(MAX_ROWS as nat, |i: int| false),
    {
        let r = ValidityBitmap { limbs: [0u64; VALIDITY_LIMBS] };
        assert forall|i: int| 0 <= i < MAX_ROWS implies !limb_bit(r.limbs@, i) by {
            let b: u64 = (i % 64) as u64;
            assert(((0u64 >> b) & 1u64) == 0u64) by (bit_vector);
        }
        assert(r@ =~= Seq::new(MAX_ROWS as nat, |i: int| false));
        r
    }

    /// Marks `row` as valid or not.
    pub fn set(&mut self, row: usize, valid: bool)
        requires
            row < MAX_ROWS,
        ensures
            final(self)@ == old(self)@.update(row as int, valid),
    {
        let limb: usize = row / 64;
        let bit: u64 = (row % 64) as u64;
        let mask: u64 = 1u64 << bit;
        let cur: u64 = self.limbs[limb];
        let with: u64 = if valid {
            cur | mask
        } else {
            cur & !mask
        };
        self.limbs[limb] = with;
        proof {
            let before = old(self).limbs@;
            let after = self.limbs@;
            assert(after =~= before.update(limb as int, with));
            assert forall|i: int| 0 <= i < MAX_ROWS implies limb_bit(after, i) == if i == row {
                valid
            } else {
                limb_bit(before, i)
            } by {
                let b2: u64 = (i % 64) as u64;
                if i / 64 == limb {
                    assert(bit < 64 && b2 < 64 && mask == 1u64 << bit ==> {
                        &&& (((cur | mask) >> b2) & 1u64) == (if b2 == bit {
                            1u64
                        } else {
                            (cur >> b2) & 1u64
                        })
                        &&& (((cur & !mask) >> b2) & 1u64) == (if b2 == bit {
                            0u64
                        } else {
                            (cur >> b2) & 1u64
                        })
                    }) by (bit_vector);
                }
            }
            assert(self@ =~= old(self)@.update(row as int, valid));
        }
    }

    /// Whether `row` is valid.
    pub fn get(&self, row: usize) -> (r: bool)
        requires
            row < MAX_ROWS,
        ensures
            r == self@[row as int],
    {
        let limb: usize = row / 64;
        let bit: u64 = (row % 64) as u64;
        let cur: u64 = self.limbs[limb];
        assert(((cur >> bit) & 1u64) == 0u64 || ((cur >> bit) & 1u64) == 1u64) by (bit_vector);
        ((cur >> bit) & 1u64) != 0
    }
}

/// A column of 64-bit integers.
pub struct Int64Column {
    pub values: [i64; MAX_ROWS],
    pub validity: ValidityBitmap,
}

/// What an integer column holds.
#[verifier::ext_equal]
pub struct IntView {
    pub values: Seq<i64>,
    pub valid: Seq<bool>,
}

impl IntView {
    /// The column with a valid value written to `row`.
    pub open spec fn with(self, row: int, v: i64) -> IntView {
        IntView { values: self.values.update(row, v), valid: self.valid.update(row, true) }
    }
}

/// A column of zeros, every row valid.
pub open spec fn zero_ints() -> IntView {
    IntView {
        values: Seq::new(MAX_ROWS as nat, |i: int| 0i64),
        valid: Seq::new(MAX_ROWS as nat, |i: int| true),
    }
}

impl Int64Column {
    pub open spec fn view(&self) -> IntView {
        IntView { values: self.values@, valid: self.validity@ }
    }

    /// All zeros, all valid.
    pub fn new() -> (r: Self)
        ensures
            r@ == zero_ints(),
    {
        let r = Int64Column { values: [0i64; MAX_ROWS], validity: ValidityBitmap::all_valid() };
        assert(r.values@ =~= Seq::new(MAX_ROWS as nat, |i: int| 0i64));
        r
    }

    /// Writes a valid value to `row`.
    pub fn put(&mut self, row: usize, v: i64)
        requires
            row < MAX_ROWS,
        ensures
            final(self)@ == old(self)@.with(row as int, v),
    {
        self.values[row] = v;
        self.validity.set(row, true);
        assert(self@ =~= old(self)@.with(row as int, v));
    }
}

/// A column of booleans, one byte a row.
pub struct BoolColumn {
    pub values: [u8; MAX_ROWS],
    pub validity: ValidityBitmap,
}

impl BoolColumn {
    /// All false, all valid.
    pub fn new() -> (r: Self)
        ensures
            r.values@ == Seq::new(MAX_ROWS as nat, |i: int| 0u8),
            r.validity@ == Seq::new(MAX_ROWS as nat, |i: int| true),
    {
        let r = BoolColumn { values: [0u8; MAX_ROWS], validity: ValidityBitmap::all_valid() };
        assert(r.values@ =~= Seq::new(MAX_ROWS as nat, |i: int| 0u8));
        r
    }
}

/// A text column: `offsets[i]..offsets[i + 1]` is row `i` in `data`.
pub struct Utf8Column {
    pub offsets: [u32; OFFSETS_CAP],
    pub data: [u8; UTF8_SLAB_CAP],
    pub data_len: u32,
    pub validity: ValidityBitmap,
}

/// What a text column holds.
#[verifier::ext_equal]
pub struct Utf8View {
    pub offsets: Seq<u32>,
    pub data: Seq<u8>,
    pub data_len: nat,
    pub valid: Seq<bool>,
}

impl Utf8View {
    /// The shape every text column has, with its write position inside the slab.
    pub open spec fn wf(self) -> bool {
        &&& self.offsets.len() == OFFSETS_CAP
        &&& self.data.len() == UTF8_SLAB_CAP
        &&& self.data_len <= UTF8_SLAB_CAP
        &&& self.valid.len() == MAX_ROWS
    }

    /// The bytes of `row`, if the row is valid and its span lies in the written part.
    pub open spec fn row(self, row: int) -> Option<Seq<u8>> {
        if 0 <= row < MAX_ROWS && self.valid[row] && self.offsets[row] <= self.offsets[row + 1]
            <= self.data_len {
            Some(self.data.subrange(self.offsets[row] as int, self.offsets[row + 1] as int))
        } else {
            None
        }
    }

    /// Whether `bytes` can be appended for `row`.
    pub open spec fn fits(self, row: int, bytes: Seq<u8>) -> bool {
        row < MAX_ROWS && self.data_len + bytes.len() <= UTF8_SLAB_CAP
    }

    /// The column after `bytes` were appended to the slab as the value of `row`.
    pub open spec fn appended(self, row: int, bytes: Seq<u8>) -> Utf8View {
        Utf8View {
            offsets: self.offsets.update(row, self.data_len as u32).update(
                row + 1,
                (self.data_len + bytes.len()) as u32,
            ),
            data: self.data.take(self.data_len as int) + bytes + self.data.skip(
                (self.data_len + bytes.len()) as int,
            ),
            data_len: self.data_len + bytes.len(),
            valid: self.valid.update(row, true),
        }
    }

    /// The column after `bytes` were offered for `row`: appended where they fit.
    pub open spec fn offered(self, row: int, bytes: Seq<u8>) -> Utf8View {
        if self.fits(row, bytes) {
            self.appended(row, bytes)
        } else {
            self
        }
    }

    /// The column with no row valid and the slab free again.
    pub open spec fn cleared(self) -> Utf8View {
        Utf8View {
            offsets: self.offsets.update(0, 0u32),
            data: self.data,
            data_len: 0,
            valid: Seq::new(MAX_ROWS as nat, |i: int| false),
        }
    }

    /// Rows `0..n` were appended one after the other: their spans tile the written part.
    pub open spec fn dense(self, n: int) -> bool {
        &&& self.wf()
        &&& 0 <= n <= MAX_ROWS
        &&& self.offsets[n] == self.data_len
        &&& forall|i: int|
            0 <= i < n ==> #[trigger] self.offsets[i] <= self.offsets[i + 1] <= self.data_len
        &&& forall|i: int| 0 <= i < n ==> self.valid[i]
    }
}

/// A column of empty texts, every row valid.
pub open spec fn empty_texts() -> Utf8View {
    Utf8View {
        offsets: Seq::new(OFFSETS_CAP as nat, |i: int| 0u32),
        data: Seq::new(UTF8_SLAB_CAP as nat, |i: int| 0u8),
        data_len: 0,
        valid: Seq::new(MAX_ROWS as nat, |i: int| true),
    }
}

/// A value that was appended is the value the row then has.
pub proof fn law_appended_row_reads_back(c: Utf8View, row: int, bytes: Seq<u8>)
    requires
        c.wf(),
        0 <= row,
        c.fits(row, bytes),
    ensures
        c.appended(row, bytes).wf(),
        c.appended(row, bytes).row(row) == Some(bytes),
{
    let d = c.appended(row, bytes);
    assert(d.data.len() == UTF8_SLAB_CAP);
    assert(d.data.subrange(c.data_len as int, (c.data_len + bytes.len()) as int) =~= bytes);
}

/// Appending rows in order keeps every row that was appended before.
pub proof fn law_appending_in_order_keeps_rows(c: Utf8View, n: int, bytes: Seq<u8>, row: int)
    requires
        c.dense(n),
        c.fits(n, bytes),
        0 <= row < n,
    ensures
        c.appended(n, bytes).dense(n + 1),
        c.appended(n, bytes).row(row) == c.row(row),
{
    let d = c.appended(n, bytes);
    assert(d.data.len() == UTF8_SLAB_CAP);
    assert forall|i: int| 0 <= i < n + 1 implies #[trigger] d.offsets[i] <= d.offsets[i + 1]
        <= d.data_len by {
        if i < n {
            assert(c.offsets[i] <= c.offsets[i + 1]);
        }
    }
    assert(c.offsets[row] <= c.offsets[row + 1] <= c.data_len);
    let s = c.offsets[row] as int;
    let e = c.offsets[row + 1] as int;
    assert(d.offsets[row + 1] == e);
    assert(d.data.subrange(s, e) =~= c.data.subrange(s, e));
}

impl Utf8Column {
    /// The write position lies inside the slab.
    pub open spec fn wf(&self) -> bool {
        self.data_len <= UTF8_SLAB_CAP
    }

    pub open spec fn view(&self) -> Utf8View {
        Utf8View {
            offsets: self.offsets@,
            data: self.data@,
            data_len: self.data_len as nat,
            valid: self.validity@,
        }
    }

    /// An empty slab, every row valid and empty.
    pub fn new() -> (r: Self)
        ensures
            r.wf(),
            r@ == empty_texts(),
    {
        let r = Utf8Column {
            offsets: [0u32; OFFSETS_CAP],
            data: [0u8; UTF8_SLAB_CAP],
            data_len: 0,
            validity: ValidityBitmap::all_valid(),
        };
        assert(r.offsets@ =~= Seq::new(OFFSETS_CAP as nat, |i: int| 0u32));
        assert(r.data@ =~= Seq::new(UTF8_SLAB_CAP as nat, |i: int| 0u8));
        r
    }

    /// Frees the slab for writing and marks every row as not valid.
    pub fn clear(&mut self)
        ensures
            final(self).wf(),
            final(self)@ == old(self)@.cleared(),
    {
        self.data_len = 0;
        self.offsets[0] = 0;
        self.validity = ValidityBitmap::none_valid();
        assert(self@ =~= old(self)@.cleared());
    }

    /// Appends `bytes` as the value of `row`; `false`, with nothing changed, where there is
    /// no such row or the slab has no room.
    pub fn set_row(&mut self, row: usize, bytes: &[u8]) -> (r: bool)
        ensures
            r == old(self)@.fits(row as int, bytes@),
            final(self)@ == old(self)@.offered(row as int, bytes@),
            r ==> final(self).wf(),
            !r ==> *final(self) == *old(self),
    {
        if row >= MAX_ROWS {
            return false;
        }
        let start: usize = self.data_len as usize;
        if start > UTF8_SLAB_CAP || bytes.len() > UTF8_SLAB_CAP - start {
            return false;
        }
        let end: usize = start + bytes.len();
        let mut i: usize = 0;
        while i < bytes.len()
            invariant
                i <= bytes@.len(),
                start + bytes@.len() == end,
                end <= UTF8_SLAB_CAP,
                self.offsets@ == old(self).offsets@,
                self.validity@ == old(self).validity@,
                forall|k: int| 0 <= k < i ==> self.data@[start + k] == bytes@[k],
                forall|k: int|
                    0 <= k < UTF8_SLAB_CAP && !(start <= k < start + i) ==> self.data@[k]
                        == old(self).data@[k],
            decreases bytes@.len() - i,
        {
            self.data[start + i] = bytes[i];
            i += 1;
        }
        self.offsets[row] = start as u32;
        self.offsets[row + 1] = end as u32;
        self.data_len = end as u32;
        self.validity.set(row, true);
        proof {
            let want = old(self)@.appended(row as int, bytes@);
            assert forall|k: int| 0 <= k < UTF8_SLAB_CAP implies self.data@[k] == want.data[k] by {
                if start <= k < end {
                    assert(self.data@[start + (k - start)] == bytes@[k - start]);
                }
            }
            assert(self.data@ =~= want.data);
            assert(self@ =~= want);
        }
        true
    }

    /// The text of `row`: `None` for a row that is not valid, whose span does not lie in the
    /// written part of the slab, or whose bytes are no UTF-8.
    pub fn get_row(&self, row: usize) -> (r: Option<&str>)
        requires
            self.wf(),
        ensures
            match self@.row(row as int) {
                Some(b) => if vstd::utf8::valid_utf8(b) {
                    r is Some && vstd::utf8::encode_utf8((r->0)@) == b
                } else {
                    r is None
                },
                None => r is None,
            },
    {
        if row >= MAX_ROWS {
            return None;
        }
        if !self.validity.get(row) {
            return None;
        }
        let start: usize = self.offsets[row] as usize;
        let end: usize = self.offsets[row + 1] as usize;
        if end < start || end > self.data_len as usize {
            return None;
        }
        match core::str::from_utf8(vstd::slice::slice_subrange(&self.data, start, end)) {
            Ok(s) => Some(s),
            Err(_) => None,
        }
    }
}

/// The buffer of a column.
pub enum ColumnData {
    Int64(Box<Int64Column>),
    Utf8(Box<Utf8Column>),
    Bool(Box<BoolColumn>),
    Null,
}

impl ColumnData {
    /// The type of the buffer.
    pub open spec fn phys(&self) -> PhysType {
        match self {
            ColumnData::Int64(_) => PhysType::Int64,
            ColumnData::Utf8(_) => PhysType::Utf8,
            ColumnData::Bool(_) => PhysType::Bool,
            ColumnData::Null => PhysType::Null,
        }
    }

    /// The type of the buffer.
    pub fn phys_type(&self) -> (r: PhysType)
        ensures
            r == self.phys(),
    {
        match self {
            ColumnData::Int64(_) => PhysType::Int64,
            ColumnData::Utf8(_) => PhysType::Utf8,
            ColumnData::Bool(_) => PhysType::Bool,
            ColumnData::Null => PhysType::Null,
        }
    }
}

/// A table held in memory.
pub struct Table {
    pub name: ColName,
    pub col_meta: [ColumnMeta; MAX_COLUMNS],
    pub col_count: u16,
    pub row_count: u16,
    pub columns: [ColumnData; MAX_COLUMNS],
}

/// The first entry of `metas[from..n]` that is named `name`.
pub open spec fn meta_index(metas: Seq<ColumnMeta>, n: int, name: Seq<u8>, from: int) -> Option<int>
    decreases n - from,
{
    if from >= n {
        None
    } else if metas[from].name@ == name {
        Some(from)
    } else {
        meta_index(metas, n, name, from + 1)
    }
}

pub proof fn lemma_meta_index(metas: Seq<ColumnMeta>, n: int, name: Seq<u8>, from: int)
    requires
        0 <= from,
    ensures
        match meta_index(metas, n, name, from) {
            Some(i) => from <= i < n && metas[i].name@ == name && forall|j: int|
                from <= j < i ==> (#[trigger] metas[j]).name@ != name,
            None => forall|j: int| from <= j < n ==> (#[trigger] metas[j]).name@ != name,
        },
    decreases n - from,
{
    if from < n && metas[from].name@ != name {
        lemma_meta_index(metas, n, name, from + 1);
    }
}

impl Table {
    /// The columns in use lie in the fixed arrays, and their names and text buffers are well
    /// formed.
    pub open spec fn wf(&self) -> bool {
        &&& self.name.wf()
        &&& self.col_count <= MAX_COLUMNS
        &&& forall|i: int| 0 <= i < self.col_count ==> (#[trigger] self.col_meta@[i]).name.wf()
        &&& forall|i: int|
            0 <= i < MAX_COLUMNS ==> match #[trigger] self.columns@[i] {
                ColumnData::Utf8(c) => c.wf(),
                _ => true,
            }
    }

    /// The column named `name`: the first of that name.
    pub open spec fn column_index(&self, name: Seq<u8>) -> Option<int> {
        meta_index(self.col_meta@, self.col_count as int, name, 0)
    }

    /// The integer buffer of column `col`.
    pub open spec fn int_column(&self, col: int) -> Option<IntView> {
        match self.columns@[col] {
            ColumnData::Int64(c) => Some(c@),
            _ => None,
        }
    }

    /// The text buffer of column `col`.
    pub open spec fn text_column(&self, col: int) -> Option<Utf8View> {
        match self.columns@[col] {
            ColumnData::Utf8(c) => Some(c@),
            _ => None,
        }
    }

    /// The values of the column named `name`, if there is one and it holds integers.
    pub open spec fn int_values(&self, name: Seq<u8>) -> Option<Seq<i64>> {
        match self.column_index(name) {
            Some(c) => match self.int_column(c) {
                Some(v) => Some(v.values),
                None => None,
            },
            None => None,
        }
    }

    /// The number of rows a query sees.
    pub open spec fn live_rows(&self) -> nat {
        if self.row_count < MAX_ROWS {
            self.row_count as nat
        } else {
            MAX_ROWS as nat
        }
    }

    /// A table without columns or rows.
    pub fn new_boxed(name: &[u8]) -> (r: Box<Self>)
        ensures
            r.wf(),
            r.name@ == cut_name(name@),
            r.name.is_padded(),
            r.col_count == 0,
            r.row_count == 0,
            forall|i: int|
                0 <= i < MAX_COLUMNS ==> #[trigger] r.columns@[i] == ColumnData::Null,
            forall|i: int|
                0 <= i < MAX_COLUMNS ==> (#[trigger] r.col_meta@[i])@ == meta_view(
                    Seq::empty(),
                    PhysType::Null,
                ),
    {
        let meta = ColumnMeta::empty();
        Box::new(
            Table {
                name: ColName::from_bytes(name),
                col_meta: [meta; MAX_COLUMNS],
                col_count: 0,
                row_count: 0,
                columns: [
                    ColumnData::Null,
                    ColumnData::Null,
                    ColumnData::Null,
                    ColumnData::Null,
                    ColumnData::Null,
                    ColumnData::Null,
                    ColumnData::Null,
                    ColumnData::Null,
                ],
            },
        )
    }

    /// What adding a column does: `None` and no change when the table is full, else the next
    /// slot gets the name and the buffer.
    pub open spec fn column_added(
        before: Table,
        after: Table,
        r: Option<usize>,
        name: Seq<u8>,
        phys: PhysType,
    ) -> bool {
        let i = before.col_count as int;
        if i >= MAX_COLUMNS {
            r is None && after == before
        } else {
            &&& r == Some(before.col_count as usize)
            &&& after.col_count == i + 1
            &&& after.col_meta@.len() == MAX_COLUMNS
            &&& after.col_meta@[i]@ == meta_view(cut_name(name), phys)
            &&& after.col_meta@[i].name.wf()
            &&& after.columns@[i].phys() == phys
            &&& after.name == before.name
            &&& after.row_count == before.row_count
            &&& forall|j: int|
                0 <= j < MAX_COLUMNS && j != i ==> #[trigger] after.col_meta@[j]
                    == before.col_meta@[j]
            &&& forall|j: int|
                0 <= j < MAX_COLUMNS && j != i ==> #[trigger] after.columns@[j]
                    == before.columns@[j]
        }
    }

    /// Adds a column of zeros named `name`, unless the table is full.
    pub fn add_int64_column(&mut self, name: &[u8]) -> (r: Option<usize>)
        requires
            old(self).wf(),
        ensures
            final(self).wf(),
            Self::column_added(*old(self), *final(self), r, name@, PhysType::Int64),
            r matches Some(i) ==> final(self).int_column(i as int) == Some(
                IntView {
                    values: Seq::new(MAX_ROWS as nat, |k: int| 0i64),
                    valid: Seq::new(MAX_ROWS as nat, |k: int| true),
                },
            ),
    {
        let i: usize = self.col_count as usize;
        if i >= MAX_COLUMNS {
            return None;
        }
        self.col_meta[i] = ColumnMeta {
            name: ColName::from_bytes(name),
            phys: PhysType::Int64,
            data_off: 0,
            offsets_off: 0,
        };
        self.columns[i] = ColumnData::Int64(Box::new(Int64Column::new()));
        self.col_count = self.col_count + 1;
        Some(i)
    }

    /// Adds a column of empty texts named `name`, unless the table is full.
    pub fn add_utf8_column(&mut self, name: &[u8]) -> (r: Option<usize>)
        requires
            old(self).wf(),
        ensures
            final(self).wf(),
            Self::column_added(*old(self), *final(self), r, name@, PhysType::Utf8),
            r matches Some(i) ==> final(self).text_column(i as int) == Some(
                Utf8View {
                    offsets: Seq::new(OFFSETS_CAP as nat, |k: int| 0u32),
                    data: Seq::new(UTF8_SLAB_CAP as nat, |k: int| 0u8),
                    data_len: 0,
                    valid: Seq::new(MAX_ROWS as nat, |k: int| true),
                },
            ),
    {
        let i: usize = self.col_count as usize;
        if i >= MAX_COLUMNS {
            return None;
        }
        self.col_meta[i] = ColumnMeta {
            name: ColName::from_bytes(name),
            phys: PhysType::Utf8,
            data_off: 0,
            offsets_off: 0,
        };
        self.columns[i] = ColumnData::Utf8(Box::new(Utf8Column::new()));
        self.col_count = self.col_count + 1;
        Some(i)
    }

    /// The column named `name`.
    pub fn find_column(&self, name: &[u8]) -> (r: Option<usize>)
        requires
            self.wf(),
        ensures
            match self.column_index(name@) {
                Some(i) => r is Some && r->0 == i && 0 <= i < self.col_count,
                None => r is None,
            },
    {
        let n: usize = self.col_count as usize;
        let mut i: usize = 0;
        while i < n
            invariant
                i <= n == self.col_count,
                self.wf(),
                meta_index(self.col_meta@, n as int, name@, i as int) == self.column_index(name@),
            decreases n - i,
        {
            if self.col_meta[i].name.eq_bytes(name) {
                return Some(i);
            }
            i += 1;
        }
        None
    }

    /// Sets the number of rows, at most [`MAX_ROWS`].
    pub fn set_row_count(&mut self, rows: usize)
        ensures
            final(self).row_count == if rows < MAX_ROWS {
                rows
            } else {
                MAX_ROWS
            },
            final(self).name == old(self).name,
            final(self).col_meta == old(self).col_meta,
            final(self).col_count == old(self).col_count,
            final(self).columns == old(self).columns,
    {
        self.row_count = if rows < MAX_ROWS {
            rows as u16
        } else {
            MAX_ROWS as u16
        };
    }

    /// The integer column `col`, to be written to.
    pub fn int64_mut(&mut self, col: usize) -> (r: Option<&mut Int64Column>)
        requires
            col < MAX_COLUMNS,
        ensures
            match old(self).columns@[col as int] {
                ColumnData::Int64(c) => r is Some && *r->0 == *c && final(self).columns@
                    == old(self).columns@.update(col as int, ColumnData::Int64(Box::new(*final(r->0)))),
                _ => r is None && final(self).columns@ == old(self).columns@,
            },
            final(self).name == old(self).name,
            final(self).col_meta == old(self).col_meta,
            final(self).col_count == old(self).col_count,
            final(self).row_count == old(self).row_count,
    {
        match &mut self.columns[col] {
            ColumnData::Int64(c) => Some(c),
            _ => None,
        }
    }

    /// The integer column `col`.
    pub fn int64(&self, col: usize) -> (r: Option<&Int64Column>)
        requires
            col < MAX_COLUMNS,
        ensures
            match self.columns@[col as int] {
                ColumnData::Int64(c) => r is Some && *r->0 == *c,
                _ => r is None,
            },
    {
        match &self.columns[col] {
            ColumnData::Int64(c) => Some(c),
            _ => None,
        }
    }

    /// The text column `col`, to be written to.
    pub fn utf8_mut(&mut self, col: usize) -> (r: Option<&mut Utf8Column>)
        requires
            col < MAX_COLUMNS,
        ensures
            match old(self).columns@[col as int] {
                ColumnData::Utf8(c) => r is Some && *r->0 == *c && final(self).columns@
                    == old(self).columns@.update(col as int, ColumnData::Utf8(Box::new(*final(r->0)))),
                _ => r is None && final(self).columns@ == old(self).columns@,
            },
            final(self).name == old(self).name,
            final(self).col_meta == old(self).col_meta,
            final(self).col_count == old(self).col_count,
            final(self).row_count == old(self).row_count,
    {
        match &mut self.columns[col] {
            ColumnData::Utf8(c) => Some(c),
            _ => None,
        }
    }

    /// The text column `col`.
    pub fn utf8(&self, col: usize) -> (r: Option<&Utf8Column>)
        requires
            col < MAX_COLUMNS,
        ensures
            match self.columns@[col as int] {
                ColumnData::Utf8(c) => r is Some && *r->0 == *c,
                _ => r is None,
            },
    {
        match &self.columns[col] {
            ColumnData::Utf8(c) => Some(c),
            _ => None,
        }
    }
}

/// A view over a contiguous region of bytes that someone else owns.
pub struct MappedRegion<'a> {
    pub bytes: &'a [u8],
}

impl<'a> MappedRegion<'a> {
    /// The view over all of `slice`.
    pub fn from_slice(slice: &'a [u8]) -> (r: Self)
        ensures
            r.bytes@ == slice@,
    {
        MappedRegion { bytes: slice }
    }

    /// The bytes of the region.
    pub fn as_slice(&self) -> (r: &'a [u8])
        ensures
            r@ == self.bytes@,
    {
        self.bytes
    }

    /// The `len` bytes from `off` on, if the region has them.
    pub fn slice_at(&self, off: usize, len: usize) -> (r: Option<MappedRegion<'a>>)
        ensures
            r is Some <==> off + len <= self.bytes@.len(),
            r matches Some(m) ==> m.bytes@ == self.bytes@.subrange(off as int, off + len),
    {
        if off > self.bytes.len() || len > self.bytes.len() - off {
            None
        } else {
            Some(MappedRegion { bytes: vstd::slice::slice_subrange(self.bytes, off, off + len) })
        }
    }
}

/// Named tables in fixed slots.
pub struct Catalog {
    pub tables: [Option<Box<Table>>; MAX_TABLES],
    pub orders: Option<Box<FixedOrdersDatabase>>,
    pub len: u16,
}

/// The first table of `tables[from..n]` that is named `name`.
pub open spec fn table_index(
    tables: Seq<Option<Box<Table>>>,
    n: int,
    name: Seq<u8>,
    from: int,
) -> Option<int>
    decreases n - from,
{
    if from >= n {
        None
    } else if tables[from] is Some && (tables[from]->0).name@ == name {
        Some(from)
    } else {
        table_index(tables, n, name, from + 1)
    }
}

pub proof fn lemma_table_index(tables: Seq<Option<Box<Table>>>, n: int, name: Seq<u8>, from: int)
    requires
        0 <= from,
    ensures
        match table_index(tables, n, name, from) {
            Some(i) => from <= i < n && tables[i] is Some && (tables[i]->0).name@ == name
                && forall|j: int|
                from <= j < i ==> !(#[trigger] tables[j] is Some && (tables[j]->0).name@ == name),
            None => forall|j: int|
                from <= j < n ==> !(#[trigger] tables[j] is Some && (tables[j]->0).name@ == name),
        },
    decreases n - from,
{
    if from < n && !(tables[from] is Some && (tables[from]->0).name@ == name) {
        lemma_table_index(tables, n, name, from + 1);
    }
}

impl Catalog {
    /// The slots in use lie in the array, and each table in them is well formed.
    pub open spec fn wf(&self) -> bool {
        &&& self.len <= MAX_TABLES
        &&& forall|i: int|
            0 <= i < self.len ==> (#[trigger] self.tables@[i] matches Some(t) ==> t.wf())
    }

    /// The table named `name`: the first of that name.
    pub open spec fn lookup(&self, name: Seq<u8>) -> Option<Table> {
        match table_index(self.tables@, self.len as int, name, 0) {
            Some(i) => Some(*(self.tables@[i]->0)),
            None => None,
        }
    }

    /// A catalog without tables.
    pub fn new() -> (r: Self)
        ensures
            r.wf(),
            r.len == 0,
            r.orders is None,
            forall|i: int| 0 <= i < MAX_TABLES ==> #[trigger] r.tables@[i] is None,
    {
        Catalog {
            tables: [None, None, None, None, None, None, None, None],
            orders: None,
            len: 0,
        }
    }

    /// Puts `table` into the next slot; `None`, with nothing changed, when all are taken.
    pub fn register(&mut self, table: Box<Table>) -> (r: Option<usize>)
        requires
            old(self).wf(),
            table.wf(),
        ensures
            final(self).wf(),
            final(self).orders == old(self).orders,
            if old(self).len < MAX_TABLES {
                &&& r == Some(old(self).len as usize)
                &&& final(self).len == old(self).len + 1
                &&& final(self).tables@ == old(self).tables@.update(
                    old(self).len as int,
                    Some(table),
                )
            } else {
                &&& r is None
                &&& *final(self) == *old(self)
            },
    {
        self.register_box(table)
    }

    /// Puts `table` into the next slot; `None`, with nothing changed, when all are taken.
    pub fn register_box(&mut self, table: Box<Table>) -> (r: Option<usize>)
        requires
            old(self).wf(),
            table.wf(),
        ensures
            final(self).wf(),
            final(self).orders == old(self).orders,
            if old(self).len < MAX_TABLES {
                &&& r == Some(old(self).len as usize)
                &&& final(self).len == old(self).len + 1
                &&& final(self).tables@ == old(self).tables@.update(
                    old(self).len as int,
                    Some(table),
                )
            } else {
                &&& r is None
                &&& *final(self) == *old(self)
            },
    {
        let i: usize = self.len as usize;
        if i >= MAX_TABLES {
            return None;
        }
        self.tables[i] = Some(table);
        self.len = self.len + 1;
        Some(i)
    }

    /// Keeps the packed orders relation.
    pub fn set_orders(&mut self, orders: Box<FixedOrdersDatabase>)
        ensures
            final(self).orders == Some(orders),
            final(self).tables == old(self).tables,
            final(self).len == old(self).len,
    {
        self.orders = Some(orders);
    }

    /// The table named `name`.
    pub fn find(&self, name: &[u8]) -> (r: Option<&Table>)
        requires
            self.wf(),
        ensures
            match self.lookup(name@) {
                Some(t) => r is Some && *r->0 == t && t.wf() && t.name@ == name@,
                None => r is None,
            },
    {
        let n: usize = self.len as usize;
        let mut i: usize = 0;
        while i < n
            invariant
                i <= n == self.len,
                self.wf(),
                table_index(self.tables@, n as int, name@, i as int) == table_index(
                    self.tables@,
                    n as int,
                    name@,
                    0,
                ),
            decreases n - i,
        {
            if let Some(t) = &self.tables[i] {
                assert(self.tables@[i as int] is Some);
                if t.name.eq_bytes(name) {
                    return Some(t);
                }
            }
            i += 1;
        }
        None
    }

    /// The table named `name`, to be written to.
    pub fn find_mut(&mut self, name: &[u8]) -> (r: Option<&mut Table>)
        requires
            old(self).wf(),
        ensures
            match table_index(old(self).tables@, old(self).len as int, name@, 0) {
                Some(i) => r is Some && *r->0 == *(old(self).tables@[i]->0) && final(self).tables@
                    == old(self).tables@.update(i, Some(Box::new(*final(r->0)))),
                None => r is None && final(self).tables@ == old(self).tables@,
            },
            final(self).len == old(self).len,
            final(self).orders == old(self).orders,
    {
        let n: usize = self.len as usize;
        let mut i: usize = 0;
        while i < n
            invariant
                i <= n == self.len,
                self.wf(),
                *self == *old(self),
                table_index(self.tables@, n as int, name@, i as int) == table_index(
                    self.tables@,
                    n as int,
                    name@,
                    0,
                ),
            decreases n - i,
        {
            let hit = match &self.tables[i] {
                Some(t) => {
                    assert(self.tables@[i as int] is Some);
                    t.name.eq_bytes(name)
                },
                None => false,
            };
            if hit {
                return match &mut self.tables[i] {
                    Some(t) => Some(t),
                    None => None,
                };
            }
            i += 1;
        }
        None
    }
}

impl Default for Catalog {
    /// A catalog without tables.
    fn default() -> (r: Self)
        ensures
            r.wf(),
            r.len == 0,
            r.orders is None,
            forall|i: int| 0 <= i < MAX_TABLES ==> #[trigger] r.tables@[i] is None,
    {
        Self::new()
    }
}

/// A row selection: `1` keeps a row, `0` drops it.
pub struct SelectionVector {
    pub mask: [u8; MAX_ROWS],
    pub len: u16,
}

/// The sum of the first `n` bytes of `mask`.
pub open spec fn mask_sum(mask: Seq<u8>, n: int) -> int
    decreases n,
{
    if n <= 0 {
        0
    } else {
        mask_sum(mask, n - 1) + mask[n - 1]
    }
}

impl SelectionVector {
    /// The length lies inside the mask, and every byte of that part is `0` or `1`.
    pub open spec fn wf(&self) -> bool {
        &&& self.len <= MAX_ROWS
        &&& forall|i: int| 0 <= i < self.len ==> #[trigger] self.mask@[i] <= 1
    }

    /// Which of the first `len` rows are kept.
    pub open spec fn view(&self) -> Seq<bool> {
        Seq::new(self.len as nat, |i: int| self.mask@[i] != 0)
    }

    /// Keeps every one of `rows` rows.
    pub fn all(rows: usize) -> (r: Self)
        ensures
            r.mask@ == Seq::new(MAX_ROWS as nat, |i: int| 1u8),
            r.len == rows as u16,
            rows <= MAX_ROWS ==> r.wf() && r@ == Seq::new(rows as nat, |i: int| true),
    {
        let r = SelectionVector {
            mask: [1u8; MAX_ROWS],
            len: #[verifier::truncate]
            (rows as u16),
        };
        assert(r.mask@ =~= Seq::new(MAX_ROWS as nat, |i: int| 1u8));
        r
    }

    /// Drops every row and sets the length to zero.
    pub fn clear(&mut self)
        ensures
            final(self).mask@ == Seq::new(MAX_ROWS as nat, |i: int| 0u8),
            final(self).len == 0,
    {
        let mut i: usize = 0;
        while i < MAX_ROWS
            invariant
                i <= MAX_ROWS,
                forall|k: int| 0 <= k < i ==> self.mask@[k] == 0,
            decreases MAX_ROWS - i,
        {
            self.mask[i] = 0;
            i += 1;
        }
        self.len = 0;
        assert(self.mask@ =~= Seq::new(MAX_ROWS as nat, |i: int| 0u8));
    }

    /// The sum of the mask over the first `len` rows: the number of rows it keeps.
    pub fn count_selected(&self) -> (r: usize)
        requires
            self.len <= MAX_ROWS,
        ensures
            r == mask_sum(self.mask@, self.len as int),
    {
        let n: usize = self.len as usize;
        let mut c: usize = 0;
        let mut i: usize = 0;
        while i < n
            invariant
                i <= n == self.len,
                n <= MAX_ROWS,
                c == mask_sum(self.mask@, i as int),
                c <= 255 * i,
            decreases n - i,
        {
            c += self.mask[i] as usize;
            i += 1;
        }
        c
    }
}

/// Packed orders relation.
pub struct FixedOrdersDatabase {
    pub user_id_column: [i64; MAX_ROWS],
    pub price_column: [i64; MAX_ROWS],
    /// Slot for prices a query derives.
    pub derived_prices: [i64; MAX_ROWS],
    pub row_count: u16,
}

impl FixedOrdersDatabase {
    /// All zeros.
    pub open spec fn is_blank(&self) -> bool {
        &&& self.user_id_column@ == Seq::new(MAX_ROWS as nat, |i: int| 0i64)
        &&& self.price_column@ == Seq::new(MAX_ROWS as nat, |i: int| 0i64)
        &&& self.derived_prices@ == Seq::new(MAX_ROWS as nat, |i: int| 0i64)
        &&& self.row_count == 0
    }

    /// No orders.
    pub fn empty() -> (r: Self)
        ensures
            r.is_blank(),
    {
        let r = FixedOrdersDatabase {
            user_id_column: [0i64; MAX_ROWS],
            price_column: [0i64; MAX_ROWS],
            derived_prices: [0i64; MAX_ROWS],
            row_count: 0,
        };
        assert(r.user_id_column@ =~= Seq::new(MAX_ROWS as nat, |i: int| 0i64));
        assert(r.price_column@ =~= Seq::new(MAX_ROWS as nat, |i: int| 0i64));
        assert(r.derived_prices@ =~= Seq::new(MAX_ROWS as nat, |i: int| 0i64));
        r
    }

    /// No orders, on the heap.
    pub fn new_boxed() -> (r: Box<Self>)
        ensures
            r.is_blank(),
    {
        Box::new(Self::empty())
    }
}

/// Copies the first `len` bytes of `src` over those of `dst`.
pub fn memcpy_bytes(dst: &mut [u8], src: &[u8], len: usize)
    requires
        len <= old(dst)@.len(),
        len <= src@.len(),
    ensures
        final(dst)@ == src@.take(len as int) + old(dst)@.skip(len as int),
{
    let mut i: usize = 0;
    while i < len
        invariant
            i <= len <= src@.len(),
            dst@.len() == old(dst)@.len(),
            len <= dst@.len(),
            forall|k: int| 0 <= k < i ==> dst@[k] == src@[k],
            forall|k: int| i <= k < dst@.len() ==> dst@[k] == old(dst)@[k],
        decreases len - i,
    {
        dst[i] = src[i];
        i += 1;
    }
    assert(dst@ =~= src@.take(len as int) + old(dst)@.skip(len as int));
}

} // verus!
