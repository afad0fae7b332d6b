use vstd::prelude::*;
use crate::bytes::{byte_range, le_bytes, le_value, push_le, read_le, lemma_le_bytes_len, lemma_le_round_trip};

verus! {

/// Most fields a layout may have.
pub const MAX_FIELDS: usize = 0x1_0000;

/// Largest struct that can be embedded by value.
pub const MAX_EMBEDDED_SIZE: u64 = 0x1_0000_0000;

/// The native representation of one field.
#[derive(Debug, Clone, Copy, PartialEq, Eq, Structural)]
pub enum FieldKind {
    U8,
    U16,
    U32,
    U64,
    /// An address; a struct embedded by pointer is one of these.
    Pointer,
    /// A struct embedded by value, with its size and alignment.
    Embedded { size: u64, align: u64 },
}

pub open spec fn kind_width(k: FieldKind) -> nat {
    match k {
        FieldKind::U8 => 1,
        FieldKind::U16 => 2,
        FieldKind::U32 => 4,
        FieldKind::U64 => 8,
        FieldKind::Pointer => 8,
        FieldKind::Embedded { size, align } => size as nat,
    }
}

pub open spec fn kind_align(k: FieldKind) -> nat {
    match k {
        FieldKind::Embedded { size, align } => align as nat,
        _ => kind_width(k),
    }
}

pub open spec fn kind_ok(k: FieldKind) -> bool {
    match k {
        FieldKind::Embedded { size, align } => {
            &&& (align == 1 || align == 2 || align == 4 || align == 8)
            &&& size <= MAX_EMBEDDED_SIZE
        },
        _ => true,
    }
}

/// `x` rounded up to a multiple of `a`.
pub open spec fn align_up(x: nat, a: nat) -> nat {
    if x % a == 0 {
        x
    } else {
        (x + (a - x % a)) as nat
    }
}

/// Where the first `n` fields end, each placed at the next multiple of its alignment.
pub open spec fn end_of(fields: Seq<FieldKind>, n: nat) -> nat
    decreases n,
{
    if n == 0 {
        0
    } else {
        align_up(end_of(fields, (n - 1) as nat), kind_align(fields[n - 1])) + kind_width(
            fields[n - 1],
        )
    }
}

/// Byte offset of field `i`.
pub open spec fn field_offset(fields: Seq<FieldKind>, i: nat) -> nat {
    align_up(end_of(fields, i), kind_align(fields[i as int]))
}

/// The largest alignment among the first `n` fields (1 for none).
pub open spec fn max_align(fields: Seq<FieldKind>, n: nat) -> nat
    decreases n,
{
    if n == 0 {
        1
    } else {
        let a = kind_align(fields[n - 1]);
        let m = max_align(fields, (n - 1) as nat);
        if a > m {
            a
        } else {
            m
        }
    }
}

/// Size of the whole struct: the end of the last field, rounded up to the struct's alignment.
pub open spec fn layout_size(fields: Seq<FieldKind>) -> nat {
    align_up(end_of(fields, fields.len()), max_align(fields, fields.len()))
}

/// A value to store into one field when a struct is filled in.
#[derive(Debug, PartialEq, Eq)]
pub enum FieldValue {
    /// An integer or an address.
    Scalar(u64),
    /// The bytes of a struct embedded by value, itself filled in first.
    Bytes(Vec<u8>),
}

/// Whether a value may be stored into a field without loss.
pub open spec fn fits(k: FieldKind, v: FieldValue) -> bool {
    match v {
        FieldValue::Scalar(x) => match k {
            FieldKind::Embedded { .. } => false,
            _ => x < byte_range(kind_width(k)),
        },
        FieldValue::Bytes(b) => match k {
            FieldKind::Embedded { size, .. } => b@.len() == size,
            _ => false,
        },
    }
}

/// The bytes that a value occupies in a field.
pub open spec fn field_bytes(k: FieldKind, v: FieldValue) -> Seq<u8> {
    match v {
        FieldValue::Scalar(x) => le_bytes(x as nat, kind_width(k)),
        FieldValue::Bytes(b) => b@,
    }
}

#[derive(Debug, Clone, Copy, PartialEq, Eq, Structural)]
pub enum LayoutError {
    /// The number of values differs from the number of fields.
    FieldCountMismatch,
    /// The value for this field does not have the field's width.
    WidthMismatch { field: usize },
    /// A layout of this name was declared before with other fields.
    ConflictingLayout,
    /// Too many fields, or an embedded struct that is malformed or too large.
    Malformed,
}

/// A named native struct layout, built from an ordered list of field kinds.
#[derive(Debug)]
pub struct StructLayout {
    pub name: String,
    pub fields: Vec<FieldKind>,
}

pub open spec fn fields_ok(fields: Seq<FieldKind>) -> bool {
    &&& fields.len() <= MAX_FIELDS
    &&& forall|i: int| 0 <= i < fields.len() ==> kind_ok(#[trigger] fields[i])
}

/// The bytes of field `i` in a struct's memory.
pub open spec fn field_slice(mem: Seq<u8>, fields: Seq<FieldKind>, i: int) -> Seq<u8> {
    mem.subrange(
        field_offset(fields, i as nat) as int,
        (field_offset(fields, i as nat) + kind_width(fields[i])) as int,
    )
}

/// The field that byte `j` belongs to, if any, lies among the first `n` fields.
pub open spec fn in_some_field(fields: Seq<FieldKind>, n: nat, j: int) -> bool {
    exists|i: nat|
        i < n && field_offset(fields, i) <= j < field_offset(fields, i) + kind_width(
            #[trigger] fields[i as int],
        )
}

proof fn lemma_align_up(x: nat, a: nat)
    requires
        a == 1 || a == 2 || a == 4 || a == 8,
    ensures
        x <= align_up(x, a) < x + a,
{
}

proof fn lemma_kind_align(k: FieldKind)
    requires
        kind_ok(k),
    ensures
        kind_align(k) == 1 || kind_align(k) == 2 || kind_align(k) == 4 || kind_align(k) == 8,
        kind_width(k) <= MAX_EMBEDDED_SIZE,
{
}

proof fn lemma_end_bound(fields: Seq<FieldKind>, n: nat)
    requires
        fields_ok(fields),
        n <= fields.len(),
    ensures
        end_of(fields, n) <= n * (MAX_EMBEDDED_SIZE + 8),
    decreases n,
{
    if n > 0 {
        lemma_end_bound(fields, (n - 1) as nat);
        lemma_kind_align(fields[n - 1]);
        lemma_align_up(end_of(fields, (n - 1) as nat), kind_align(fields[n - 1]));
        assert(n * (MAX_EMBEDDED_SIZE + 8) == (n - 1) * (MAX_EMBEDDED_SIZE + 8) + (
        MAX_EMBEDDED_SIZE + 8)) by (nonlinear_arith);
    }
}

pub proof fn lemma_max_align(fields: Seq<FieldKind>, n: nat)
    requires
        fields_ok(fields),
        n <= fields.len(),
    ensures
        max_align(fields, n) == 1 || max_align(fields, n) == 2 || max_align(fields, n) == 4
            || max_align(fields, n) == 8,
    decreases n,
{
    if n > 0 {
        lemma_max_align(fields, (n - 1) as nat);
        lemma_kind_align(fields[n - 1]);
    }
}

proof fn lemma_end_monotonic(fields: Seq<FieldKind>, a: nat, b: nat)
    requires
        fields_ok(fields),
        a <= b <= fields.len(),
    ensures
        end_of(fields, a) <= end_of(fields, b),
    decreases b,
{
    if a < b {
        lemma_end_monotonic(fields, a, (b - 1) as nat);
        lemma_kind_align(fields[b - 1]);
        lemma_align_up(end_of(fields, (b - 1) as nat), kind_align(fields[b - 1]));
    }
}

/// Fields never overlap: each one starts at or after the end of every earlier one,
/// and all of them lie within the struct.
pub proof fn lemma_fields_disjoint(fields: Seq<FieldKind>, i: nat, j: nat)
    requires
        fields_ok(fields),
        i < j < fields.len(),
    ensures
        field_offset(fields, i) + kind_width(fields[i as int]) <= field_offset(fields, j),
{
    lemma_end_monotonic(fields, i + 1, j);
    lemma_kind_align(fields[j as int]);
    lemma_align_up(end_of(fields, j), kind_align(fields[j as int]));
}

pub proof fn lemma_field_within(fields: Seq<FieldKind>, i: nat)
    requires
        fields_ok(fields),
        i < fields.len(),
    ensures
        field_offset(fields, i) + kind_width(fields[i as int]) <= layout_size(fields),
{
    lemma_end_monotonic(fields, i + 1, fields.len());
    lemma_max_align(fields, fields.len());
    lemma_align_up(end_of(fields, fields.len()), max_align(fields, fields.len()));
}

fn align_up_exec(x: u64, a: u64) -> (r: u64)
    requires
        a == 1 || a == 2 || a == 4 || a == 8,
        x <= u64::MAX - 8,
    ensures
        r == align_up(x as nat, a as nat),
{
    let m = x % a;
    if m == 0 {
        x
    } else {
        x + (a - m)
    }
}

impl FieldKind {
    pub fn width(&self) -> (r: u64)
        ensures
            r == kind_width(*self),
    {
        match self {
            FieldKind::U8 => 1,
            FieldKind::U16 => 2,
            FieldKind::U32 => 4,
            FieldKind::U64 => 8,
            FieldKind::Pointer => 8,
            FieldKind::Embedded { size, .. } => *size,
        }
    }

    pub fn align(&self) -> (r: u64)
        ensures
            r == kind_align(*self),
    {
        match self {
            FieldKind::Embedded { align, .. } => *align,
            _ => self.width(),
        }
    }

    /// Whether a value computed while generating code, of `bits` bits, matches this field.
    pub fn accepts_bits(&self, bits: u64) -> (r: bool)
        ensures
            r == (bits == 8 * kind_width(*self)),
    {
        match self {
            FieldKind::Embedded { size, .. } => *size <= u64::MAX / 8 && bits == 8 * *size,
            _ => bits == 8 * self.width(),
        }
    }

    /// Whether a value may be stored into this field without loss.
    pub fn fits(&self, v: &FieldValue) -> (r: bool)
        ensures
            r == fits(*self, *v),
    {
        proof {
            crate::bytes::lemma_byte_range_widths();
        }
        match v {
            FieldValue::Scalar(x) => match self {
                FieldKind::U8 => *x < 0x100,
                FieldKind::U16 => *x < 0x1_0000,
                FieldKind::U32 => *x < 0x1_0000_0000,
                FieldKind::U64 => true,
                FieldKind::Pointer => true,
                FieldKind::Embedded { .. } => false,
            },
            FieldValue::Bytes(b) => match self {
                FieldKind::Embedded { size, .. } => b.len() as u64 == *size,
                _ => false,
            },
        }
    }
}

/// Copies `src` into `mem` at `offset`.
/// The bytes of one field's value.
fn encode_field(kind: FieldKind, v: &FieldValue) -> (r: Vec<u8>)
    requires
        fits(kind, *v),
    ensures
        r@ == field_bytes(kind, *v),
        r@.len() == kind_width(kind),
{
    match v {
        FieldValue::Scalar(x) => {
            let mut tmp: Vec<u8> = Vec::new();
            push_le(&mut tmp, *x, kind.width() as usize);
            proof {
                lemma_le_bytes_len(*x as nat, kind_width(kind));
                assert(tmp@ =~= le_bytes(*x as nat, kind_width(kind)));
            }
            tmp
        },
        FieldValue::Bytes(b) => {
            let mut tmp: Vec<u8> = Vec::new();
            let mut k: usize = 0;
            while k < b.len()
                invariant
                    k <= b@.len(),
                    tmp@ == b@.subrange(0, k as int),
                decreases b@.len() - k,
            {
                tmp.push(b[k]);
                k = k + 1;
                assert(tmp@ =~= b@.subrange(0, k as int));
            }
            assert(tmp@ =~= b@);
            tmp
        },
    }
}

/// One more field filled in keeps what the earlier ones hold and leaves padding zero.
proof fn lemma_fill_step(
    fields: Seq<FieldKind>,
    values: Seq<FieldValue>,
    before: Seq<u8>,
    after: Seq<u8>,
    i: nat,
)
    requires
        fields_ok(fields),
        i < fields.len() == values.len(),
        before.len() == after.len(),
        field_offset(fields, i) + kind_width(fields[i as int]) <= before.len(),
        field_bytes(fields[i as int], values[i as int]).len() == kind_width(fields[i as int]),
        forall|j: int|
            0 <= j < before.len() ==> #[trigger] after[j] == if field_offset(fields, i) <= j
                < field_offset(fields, i) + kind_width(fields[i as int]) {
                field_bytes(fields[i as int], values[i as int])[j - field_offset(fields, i)]
            } else {
                before[j]
            },
        forall|k: int|
            0 <= k < i ==> #[trigger] field_slice(before, fields, k) == field_bytes(
                fields[k],
                values[k],
            ),
        forall|j: int|
            0 <= j < before.len() && !in_some_field(fields, i, j) ==> #[trigger] before[j] == 0,
    ensures
        forall|k: int|
            0 <= k < i + 1 ==> #[trigger] field_slice(after, fields, k) == field_bytes(
                fields[k],
                values[k],
            ),
        forall|j: int|
            0 <= j < after.len() && !in_some_field(fields, i + 1, j) ==> #[trigger] after[j] == 0,
{
    let start = field_offset(fields, i) as int;
    let width = kind_width(fields[i as int]) as int;
    assert(field_slice(after, fields, i as int) =~= field_bytes(fields[i as int], values[i as int]));
    assert forall|k: int| 0 <= k < i + 1 implies #[trigger] field_slice(after, fields, k)
        == field_bytes(fields[k], values[k]) by {
        if k < i {
            lemma_fields_disjoint(fields, k as nat, i);
            assert(field_slice(after, fields, k) =~= field_slice(before, fields, k));
        }
    }
    assert forall|j: int| 0 <= j < after.len() && !in_some_field(fields, i + 1, j) implies #[trigger] after[j]
        == 0 by {
        if in_some_field(fields, i, j) {
            let k = choose|k: nat|
                k < i && field_offset(fields, k) <= j < field_offset(fields, k) + kind_width(
                    #[trigger] fields[k as int],
                );
            assert(k < i + 1);
        }
        if start <= j < start + width {
            assert(i < i + 1 && field_offset(fields, i) <= j < field_offset(fields, i) + kind_width(
                fields[i as int],
            ));
        }
    }
}

fn write_bytes(mem: &mut Vec<u8>, offset: usize, src: &Vec<u8>)
    requires
        offset + src@.len() <= old(mem)@.len(),
    ensures
        final(mem)@.len() == old(mem)@.len(),
        forall|j: int|
            0 <= j < old(mem)@.len() ==> #[trigger] final(mem)@[j] == if offset <= j < offset
                + src@.len() {
                src@[j - offset]
            } else {
                old(mem)@[j]
            },
{
    let len: usize = mem.len();
    let mut k: usize = 0;
    while k < src.len()
        invariant
            k <= src@.len(),
            offset + src@.len() <= mem@.len() == len,
            mem@.len() == old(mem)@.len(),
            forall|j: int|
                0 <= j < old(mem)@.len() ==> #[trigger] mem@[j] == if offset <= j < offset + k {
                    src@[j - offset]
                } else {
                    old(mem)@[j]
                },
        decreases src@.len() - k,
    {
        mem[offset + k] = src[k];
        k = k + 1;
    }
}

impl StructLayout {
    pub open spec fn wf(&self) -> bool {
        fields_ok(self.fields@)
    }

    /// A layout, if the fields are few enough and every embedded struct is well formed.
    pub fn new(name: String, fields: Vec<FieldKind>) -> (r: Option<StructLayout>)
        ensures
            r is Some <==> fields_ok(fields@),
            r matches Some(l) ==> l.name@ == name@ && l.fields@ == fields@,
    {
        if fields.len() > MAX_FIELDS {
            return None;
        }
        let mut i: usize = 0;
        while i < fields.len()
            invariant
                i <= fields@.len(),
                forall|k: int| 0 <= k < i ==> kind_ok(#[trigger] fields@[k]),
            decreases fields@.len() - i,
        {
            match fields[i] {
                FieldKind::Embedded { size, align } => {
                    if !((align == 1 || align == 2 || align == 4 || align == 8) && size
                        <= MAX_EMBEDDED_SIZE) {
                        return None;
                    }
                },
                _ => {},
            }
            i = i + 1;
        }
        Some(StructLayout { name, fields })
    }

    /// The byte offset of every field.
    pub fn offsets(&self) -> (r: Vec<u64>)
        requires
            self.wf(),
        ensures
            r@.len() == self.fields@.len(),
            forall|i: int|
                0 <= i < r@.len() ==> r@[i] == field_offset(self.fields@, i as nat),
    {
        let ghost fields = self.fields@;
        let mut r: Vec<u64> = Vec::new();
        let mut end: u64 = 0;
        let mut i: usize = 0;
        while i < self.fields.len()
            invariant
                fields == self.fields@,
                fields_ok(fields),
                i <= fields.len(),
                end == end_of(fields, i as nat),
                r@.len() == i,
                forall|k: int| 0 <= k < i ==> r@[k] == field_offset(fields, k as nat),
            decreases fields.len() - i,
        {
            proof {
                lemma_end_bound(fields, i as nat);
                lemma_kind_align(fields[i as int]);
                lemma_align_up(end as nat, kind_align(fields[i as int]));
                assert(i * (MAX_EMBEDDED_SIZE + 8) <= MAX_FIELDS * (MAX_EMBEDDED_SIZE + 8))
                    by (nonlinear_arith)
                    requires
                        i <= MAX_FIELDS,
                ;
            }
            let kind = self.fields[i];
            let offset = align_up_exec(end, kind.align());
            r.push(offset);
            end = offset + kind.width();
            i = i + 1;
        }
        r
    }

    /// The alignment of the whole struct.
    pub fn alignment(&self) -> (r: u64)
        requires
            self.wf(),
        ensures
            r == max_align(self.fields@, self.fields@.len()),
    {
        let ghost fields = self.fields@;
        let mut m: u64 = 1;
        let mut i: usize = 0;
        while i < self.fields.len()
            invariant
                fields == self.fields@,
                fields_ok(fields),
                i <= fields.len(),
                m == max_align(fields, i as nat),
            decreases fields.len() - i,
        {
            proof {
                lemma_kind_align(fields[i as int]);
            }
            let a = self.fields[i].align();
            if a > m {
                m = a;
            }
            i = i + 1;
        }
        m
    }

    /// The size of the whole struct, trailing padding included.
    pub fn size(&self) -> (r: u64)
        requires
            self.wf(),
        ensures
            r == layout_size(self.fields@),
    {
        let ghost fields = self.fields@;
        let n = self.fields.len();
        let mut end: u64 = 0;
        let mut i: usize = 0;
        while i < n
            invariant
                fields == self.fields@,
                n == fields.len(),
                fields_ok(fields),
                i <= n,
                end == end_of(fields, i as nat),
            decreases n - i,
        {
            proof {
                lemma_end_bound(fields, i as nat);
                lemma_kind_align(fields[i as int]);
                lemma_align_up(end as nat, kind_align(fields[i as int]));
                assert(i * (MAX_EMBEDDED_SIZE + 8) <= MAX_FIELDS * (MAX_EMBEDDED_SIZE + 8))
                    by (nonlinear_arith)
                    requires
                        i <= MAX_FIELDS,
                ;
            }
            let kind = self.fields[i];
            end = align_up_exec(end, kind.align()) + kind.width();
            i = i + 1;
        }
        proof {
            lemma_end_bound(fields, n as nat);
            lemma_max_align(fields, n as nat);
            assert(n * (MAX_EMBEDDED_SIZE + 8) <= MAX_FIELDS * (MAX_EMBEDDED_SIZE + 8))
                by (nonlinear_arith)
                requires
                    n <= MAX_FIELDS,
            ;
        }
        align_up_exec(end, self.alignment())
    }

    /// The field kind under which this struct is embedded by value in another,
    /// if it is small enough.
    pub fn as_embedded(&self) -> (r: Option<FieldKind>)
        requires
            self.wf(),
        ensures
            layout_size(self.fields@) <= MAX_EMBEDDED_SIZE ==> r == Some(
                FieldKind::Embedded {
                    size: layout_size(self.fields@) as u64,
                    align: max_align(self.fields@, self.fields@.len()) as u64,
                },
            ),
            layout_size(self.fields@) > MAX_EMBEDDED_SIZE ==> r is None,
            r matches Some(k) ==> kind_ok(k),
    {
        proof {
            lemma_max_align(self.fields@, self.fields@.len());
        }
        let size = self.size();
        if size <= MAX_EMBEDDED_SIZE {
            Some(FieldKind::Embedded { size, align: self.alignment() })
        } else {
            None
        }
    }

    /// Loads an integer or pointer field from a struct's memory, at the field's offset and
    /// of its width. Fails for an embedded struct, a missing field, or memory too short.
    pub fn load_field(&self, mem: &Vec<u8>, index: usize) -> (r: Option<u64>)
        requires
            self.wf(),
        ensures
            r is Some <==> (index < self.fields@.len() && !(self.fields@[index as int] is Embedded)
                && field_offset(self.fields@, index as nat) + kind_width(self.fields@[index as int])
                <= mem@.len()),
            r matches Some(x) ==> x as nat == le_value(
                field_slice(mem@, self.fields@, index as int),
            ),
    {
        if index >= self.fields.len() {
            return None;
        }
        let kind = self.fields[index];
        match kind {
            FieldKind::Embedded { .. } => {
                return None;
            },
            _ => {},
        }
        let offsets = self.offsets();
        let offset = offsets[index];
        let width = kind.width();
        if offset > mem.len() as u64 || width > mem.len() as u64 - offset {
            return None;
        }
        Some(read_le(mem, offset as usize, width as usize))
    }

    /// Materializes the struct: every field is stored from its value, padding is zero.
    /// A value that does not fit its field is refused, never truncated.
    pub fn fill_in(&self, values: &Vec<FieldValue>) -> (r: Result<Vec<u8>, LayoutError>)
        requires
            self.wf(),
        ensures
            values@.len() != self.fields@.len() ==> r == Err::<Vec<u8>, LayoutError>(
                LayoutError::FieldCountMismatch,
            ),
            values@.len() == self.fields@.len() ==> (r is Ok <==> forall|i: int|
                0 <= i < values@.len() ==> fits(self.fields@[i], #[trigger] values@[i])),
            r matches Err(LayoutError::WidthMismatch { field }) ==> {
                &&& field < values@.len()
                &&& !fits(self.fields@[field as int], values@[field as int])
                &&& forall|i: int|
                    0 <= i < field ==> fits(self.fields@[i], #[trigger] values@[i])
            },
            r is Err ==> (r == Err::<Vec<u8>, LayoutError>(LayoutError::FieldCountMismatch)
                || r matches Err(LayoutError::WidthMismatch { .. })),
            r matches Ok(mem) ==> {
                &&& mem@.len() == layout_size(self.fields@)
                &&& forall|i: int|
                    0 <= i < self.fields@.len() ==> #[trigger] field_slice(mem@, self.fields@, i) == field_bytes(self.fields@[i], values@[i])
                &&& forall|j: int|
                    0 <= j < mem@.len() && !in_some_field(self.fields@, self.fields@.len(), j)
                        ==> #[trigger] mem@[j] == 0
            },
    {
        let ghost fields = self.fields@;
        let n = self.fields.len();
        if values.len() != n {
            return Err(LayoutError::FieldCountMismatch);
        }
        let mut i: usize = 0;
        while i < n
            invariant
                fields == self.fields@,
                n == fields.len() == values@.len(),
                i <= n,
                forall|k: int| 0 <= k < i ==> fits(fields[k], #[trigger] values@[k]),
            decreases n - i,
        {
            if !self.fields[i].fits(&values[i]) {
                return Err(LayoutError::WidthMismatch { field: i });
            }
            i = i + 1;
        }
        let offsets = self.offsets();
        let size = self.size();
        proof {
            if n > 0 {
                lemma_field_within(fields, (n - 1) as nat);
            }
        }
        let mut mem: Vec<u8> = Vec::new();
        let mut z: u64 = 0;
        while z < size
            invariant
                z <= size,
                mem@.len() == z,
                forall|j: int| 0 <= j < z ==> #[trigger] mem@[j] == 0,
            decreases size - z,
        {
            mem.push(0);
            z = z + 1;
        }
        let total: usize = mem.len();
        let mut i: usize = 0;
        while i < n
            invariant
                fields == self.fields@,
                fields_ok(fields),
                n == fields.len() == values@.len() == offsets@.len(),
                forall|k: int| 0 <= k < n ==> offsets@[k] == field_offset(fields, k as nat),
                forall|k: int| 0 <= k < n ==> fits(fields[k], #[trigger] values@[k]),
                i <= n,
                mem@.len() == layout_size(fields) == total,
                forall|k: int|
                    0 <= k < i ==> #[trigger] field_slice(mem@, fields, k) == field_bytes(fields[k], values@[k]),
                forall|j: int|
                    0 <= j < mem@.len() && !in_some_field(fields, i as nat, j) ==> #[trigger] mem@[j]
                        == 0,
            decreases n - i,
        {
            let kind = self.fields[i];
            let off = offsets[i];
            let ghost before = mem@;
            proof {
                lemma_field_within(fields, i as nat);
            }
            let enc = encode_field(kind, &values[i]);
            write_bytes(&mut mem, off as usize, &enc);
            proof {
                lemma_fill_step(fields, values@, before, mem@, i as nat);
            }
            i = i + 1;
        }
        Ok(mem)
    }
}

/// Reading back a field of a filled-in struct gives the value stored into it.
pub proof fn lemma_fill_in_read_back(fields: Seq<FieldKind>, mem: Seq<u8>, i: int, x: u64)
    requires
        fields_ok(fields),
        0 <= i < fields.len(),
        fits(fields[i], FieldValue::Scalar(x)),
        field_slice(mem, fields, i) == field_bytes(fields[i], FieldValue::Scalar(x)),
    ensures
        le_value(
            field_slice(mem, fields, i),
        ) == x,
{
    lemma_le_round_trip(x as nat, kind_width(fields[i]));
    crate::bytes::lemma_byte_range_widths();
    vstd::arithmetic::div_mod::lemma_small_mod(x as nat, byte_range(kind_width(fields[i])));
}

/// Whether a layout of this name is among the declared ones.
pub open spec fn declares(layouts: Seq<StructLayout>, name: Seq<char>) -> bool {
    exists|k: int| 0 <= k < layouts.len() && (#[trigger] layouts[k]).name@ == name
}

/// Layout declarations, deduplicated by name: a name stands for one list of fields.
pub struct LayoutRegistry {
    pub layouts: Vec<StructLayout>,
}

impl LayoutRegistry {
    /// No two declarations share a name.
    pub open spec fn wf(&self) -> bool {
        forall|a: int, b: int|
            0 <= a < b < self.layouts@.len() ==> (#[trigger] self.layouts@[a]).name@
                != (#[trigger] self.layouts@[b]).name@
    }

    pub fn new() -> (r: Self)
        ensures
            r.wf(),
            r.layouts@.len() == 0,
    {
        LayoutRegistry { layouts: Vec::new() }
    }

    /// Declares a layout, or finds the declaration of the same name.
    /// Redeclaring a name with the same fields gives the earlier declaration;
    /// with other fields it is refused.
    pub fn declare(&mut self, layout: StructLayout) -> (r: Result<usize, LayoutError>)
        requires
            old(self).wf(),
        ensures
            final(self).wf(),
            declares(old(self).layouts@, layout.name@) ==> final(self).layouts@ == old(
                self,
            ).layouts@,
            !declares(old(self).layouts@, layout.name@) ==> final(self).layouts@ == old(
                self,
            ).layouts@.push(layout) && r == Ok::<usize, LayoutError>(
                old(self).layouts@.len() as usize,
            ),
            r matches Ok(k) ==> k < final(self).layouts@.len() && final(self).layouts@[k as int].name@
                == layout.name@ && final(self).layouts@[k as int].fields@ == layout.fields@,
            r is Err ==> r == Err::<usize, LayoutError>(LayoutError::ConflictingLayout),
            r is Err <==> exists|k: int|
                0 <= k < old(self).layouts@.len() && (#[trigger] old(self).layouts@[k]).name@
                    == layout.name@ && old(self).layouts@[k].fields@ != layout.fields@,
    {
        let n = self.layouts.len();
        let mut k: usize = 0;
        while k < n
            invariant
                n == self.layouts@.len(),
                self.layouts@ == old(self).layouts@,
                self.wf(),
                k <= n,
                forall|m: int| 0 <= m < k ==> (#[trigger] self.layouts@[m]).name@ != layout.name@,
            decreases n - k,
        {
            if self.layouts[k].name == layout.name {
                let same = same_fields(&self.layouts[k].fields, &layout.fields);
                proof {
                    assert forall|m: int|
                        0 <= m < n && (#[trigger] self.layouts@[m]).name@ == layout.name@ implies m
                        == k by {
                        if m > k {
                            assert(self.layouts@[k as int].name@ != self.layouts@[m].name@);
                        }
                    }
                }
                if same {
                    return Ok(k);
                } else {
                    return Err(LayoutError::ConflictingLayout);
                }
            }
            k = k + 1;
        }
        self.layouts.push(layout);
        Ok(n)
    }

    pub fn get(&self, index: usize) -> (r: Option<&StructLayout>)
        ensures
            index < self.layouts@.len() ==> r == Some(&self.layouts@[index as int]),
            index >= self.layouts@.len() ==> r is None,
    {
        if index < self.layouts.len() {
            Some(&self.layouts[index])
        } else {
            None
        }
    }
}

fn same_fields(a: &Vec<FieldKind>, b: &Vec<FieldKind>) -> (r: bool)
    ensures
        r == (a@ == b@),
{
    if a.len() != b.len() {
        return false;
    }
    let mut i: usize = 0;
    while i < a.len()
        invariant
            a@.len() == b@.len(),
            i <= a@.len(),
            forall|k: int| 0 <= k < i ==> a@[k] == b@[k],
        decreases a@.len() - i,
    {
        if a[i] != b[i] {
            return false;
        }
        i = i + 1;
    }
    assert(a@ =~= b@);
    true
}

} // verus!
