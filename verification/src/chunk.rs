//! The columnar data that enters and leaves the aggregator.

use vstd::prelude::*;

verus! {

/// Logical type of a column.
#[derive(Clone, Copy, Debug, PartialEq, Eq, Structural)]
pub enum DataType {
    Int32,
    Int64,
    UInt64,
    /// Opaque byte strings.
    String,
}

/// The mathematical value of one cell.
pub enum ScalarValue {
    Int32(i32),
    Int64(i64),
    UInt64(u64),
    String(Seq<u8>),
}

impl ScalarValue {
    pub open spec fn data_type(self) -> DataType {
        match self {
            ScalarValue::Int32(_) => DataType::Int32,
            ScalarValue::Int64(_) => DataType::Int64,
            ScalarValue::UInt64(_) => DataType::UInt64,
            ScalarValue::String(_) => DataType::String,
        }
    }
}

/// One cell, or a value that stands for every row of a column.
#[derive(Debug)]
pub enum Scalar {
    Int32(i32),
    Int64(i64),
    UInt64(u64),
    String(Vec<u8>),
}

impl View for Scalar {
    type V = ScalarValue;

    open spec fn view(&self) -> ScalarValue {
        match self {
            Scalar::Int32(v) => ScalarValue::Int32(*v),
            Scalar::Int64(v) => ScalarValue::Int64(*v),
            Scalar::UInt64(v) => ScalarValue::UInt64(*v),
            Scalar::String(v) => ScalarValue::String(v@),
        }
    }
}

/// A copy of `bytes`.
pub fn copy_bytes(bytes: &Vec<u8>) -> (r: Vec<u8>)
    ensures
        r@ == bytes@,
{
    let mut r: Vec<u8> = Vec::new();
    let mut i: usize = 0;
    while i < bytes.len()
        invariant
            i <= bytes.len(),
            r@ == bytes@.subrange(0, i as int),
        decreases bytes.len() - i,
    {
        r.push(bytes[i]);
        i += 1;
    }
    r
}

impl Scalar {
    /// The scalar's own type.
    pub fn data_type(&self) -> (t: DataType)
        ensures
            t == self@.data_type(),
    {
        match self {
            Scalar::Int32(_) => DataType::Int32,
            Scalar::Int64(_) => DataType::Int64,
            Scalar::UInt64(_) => DataType::UInt64,
            Scalar::String(_) => DataType::String,
        }
    }

    /// A scalar with the same value.
    pub fn duplicate(&self) -> (r: Scalar)
        ensures
            r@ == self@,
    {
        match self {
            Scalar::Int32(v) => Scalar::Int32(*v),
            Scalar::Int64(v) => Scalar::Int64(*v),
            Scalar::UInt64(v) => Scalar::UInt64(*v),
            Scalar::String(v) => Scalar::String(copy_bytes(v)),
        }
    }
}

/// A fully materialized column: one typed vector.
#[derive(Debug)]
pub enum Column {
    Int32(Vec<i32>),
    Int64(Vec<i64>),
    UInt64(Vec<u64>),
    String(Vec<Vec<u8>>),
}

impl View for Column {
    type V = Seq<ScalarValue>;

    open spec fn view(&self) -> Seq<ScalarValue> {
        match self {
            Column::Int32(v) => Seq::new(v@.len(), |i: int| ScalarValue::Int32(v@[i])),
            Column::Int64(v) => Seq::new(v@.len(), |i: int| ScalarValue::Int64(v@[i])),
            Column::UInt64(v) => Seq::new(v@.len(), |i: int| ScalarValue::UInt64(v@[i])),
            Column::String(v) => Seq::new(v@.len(), |i: int| ScalarValue::String(v@[i]@)),
        }
    }
}

impl Column {
    /// The type of the vector that holds the rows.
    pub open spec fn spec_data_type(&self) -> DataType {
        match self {
            Column::Int32(_) => DataType::Int32,
            Column::Int64(_) => DataType::Int64,
            Column::UInt64(_) => DataType::UInt64,
            Column::String(_) => DataType::String,
        }
    }

    /// Every row of a column has the column's type.
    pub proof fn lemma_rows_typed(&self)
        ensures
            forall|i: int|
                0 <= i < self@.len() ==> (#[trigger] self@[i]).data_type()
                    == self.spec_data_type(),
    {
    }

    pub fn data_type(&self) -> (t: DataType)
        ensures
            t == self.spec_data_type(),
    {
        match self {
            Column::Int32(_) => DataType::Int32,
            Column::Int64(_) => DataType::Int64,
            Column::UInt64(_) => DataType::UInt64,
            Column::String(_) => DataType::String,
        }
    }

    /// Number of rows.
    pub fn len(&self) -> (n: usize)
        ensures
            n == self@.len(),
    {
        match self {
            Column::Int32(v) => v.len(),
            Column::Int64(v) => v.len(),
            Column::UInt64(v) => v.len(),
            Column::String(v) => v.len(),
        }
    }

    /// An empty column of the given type.
    pub fn empty(data_type: DataType) -> (c: Column)
        ensures
            c@ == Seq::<ScalarValue>::empty(),
            c.spec_data_type() == data_type,
    {
        let c = match data_type {
            DataType::Int32 => Column::Int32(Vec::new()),
            DataType::Int64 => Column::Int64(Vec::new()),
            DataType::UInt64 => Column::UInt64(Vec::new()),
            DataType::String => Column::String(Vec::new()),
        };
        assert(c@ =~= Seq::<ScalarValue>::empty());
        c
    }

    /// The value in row `row`.
    pub fn get(&self, row: usize) -> (s: Scalar)
        requires
            row < self@.len(),
        ensures
            s@ == self@[row as int],
    {
        match self {
            Column::Int32(v) => Scalar::Int32(v[row]),
            Column::Int64(v) => Scalar::Int64(v[row]),
            Column::UInt64(v) => Scalar::UInt64(v[row]),
            Column::String(v) => Scalar::String(copy_bytes(&v[row])),
        }
    }

    /// Appends one row. A value of another type leaves the column as it is
    /// and is reported by `false`.
    pub fn push(&mut self, value: Scalar) -> (pushed: bool)
        ensures
            pushed == (value@.data_type() == old(self).spec_data_type()),
            final(self).spec_data_type() == old(self).spec_data_type(),
            pushed ==> final(self)@ == old(self)@.push(value@),
            !pushed ==> final(self)@ == old(self)@,
    {
        let pushed = match (self, value) {
            (Column::Int32(v), Scalar::Int32(x)) => {
                v.push(x);
                true
            },
            (Column::Int64(v), Scalar::Int64(x)) => {
                v.push(x);
                true
            },
            (Column::UInt64(v), Scalar::UInt64(x)) => {
                v.push(x);
                true
            },
            (Column::String(v), Scalar::String(x)) => {
                v.push(x);
                true
            },
            _ => false,
        };
        assert(pushed ==> final(self)@ =~= old(self)@.push(value@));
        pushed
    }

    /// The column that holds `scalar` in each of `rows` rows.
    pub fn repeat(scalar: &Scalar, rows: usize) -> (c: Column)
        ensures
            c@ == Seq::new(rows as nat, |i: int| scalar@),
            c.spec_data_type() == scalar@.data_type(),
    {
        let mut c = Column::empty(scalar.data_type());
        let mut i: usize = 0;
        while i < rows
            invariant
                i <= rows,
                c@ == Seq::new(i as nat, |k: int| scalar@),
                c.spec_data_type() == scalar@.data_type(),
            decreases rows - i,
        {
            let pushed = c.push(scalar.duplicate());
            assert(pushed);
            i += 1;
            assert(c@ =~= Seq::new(i as nat, |k: int| scalar@));
        }
        c
    }

    /// A column with the same rows.
    pub fn duplicate(&self) -> (c: Column)
        ensures
            c@ == self@,
            c.spec_data_type() == self.spec_data_type(),
    {
        let mut c = Column::empty(self.data_type());
        let mut i: usize = 0;
        let n = self.len();
        while i < n
            invariant
                i <= n,
                n == self@.len(),
                c@ == self@.subrange(0, i as int),
                c.spec_data_type() == self.spec_data_type(),
            decreases n - i,
        {
            proof {
                self.lemma_rows_typed();
            }
            let pushed = c.push(self.get(i));
            assert(pushed);
            i += 1;
            assert(c@ =~= self@.subrange(0, i as int));
        }
        assert(self@.subrange(0, n as int) =~= self@);
        c
    }

    /// The byte strings of a string column; `None` for any other column.
    pub fn as_string(&self) -> (r: Option<&Vec<Vec<u8>>>)
        ensures
            r is Some == (self.spec_data_type() == DataType::String),
            r matches Some(v) ==> *self == Column::String(*v),
    {
        match self {
            Column::String(v) => Some(v),
            _ => None,
        }
    }
}

/// What a chunk holds in one column position: a column, or one scalar that
/// stands for every row.
#[derive(Debug)]
pub enum Value {
    Scalar(Scalar),
    Column(Column),
}

impl Value {
    /// The rows that the value stands for in a chunk of `rows` rows.
    pub open spec fn rows(&self, rows: nat) -> Seq<ScalarValue> {
        match self {
            Value::Scalar(s) => Seq::new(rows, |i: int| s@),
            Value::Column(c) => c@,
        }
    }

    /// The type of the data that the value holds, whatever type the chunk
    /// declares for it.
    pub open spec fn storage_type(&self) -> DataType {
        match self {
            Value::Scalar(s) => s@.data_type(),
            Value::Column(c) => c.spec_data_type(),
        }
    }
}

/// One column position of a chunk: the data and its declared logical type.
#[derive(Debug)]
pub struct ChunkEntry {
    pub value: Value,
    pub data_type: DataType,
}

/// Metadata of a partially aggregated chunk.
#[derive(Clone, Copy, Debug, PartialEq, Eq, Structural)]
pub struct AggregateInfo {
    /// Partition that the chunk belongs to; `UNBUCKETED` disclaims any.
    pub bucket: isize,
}

/// The metadata object that a chunk may carry.
#[derive(Clone, Copy, Debug, PartialEq, Eq, Structural)]
pub enum ChunkMeta {
    Aggregate(AggregateInfo),
    /// Metadata of some other operator.
    Other,
}

/// Bucket id of chunks that belong to no partition.
pub const UNBUCKETED: isize = -1;

/// The bucket that a chunk with metadata `meta` is collected under.
pub open spec fn spec_bucket_of(meta: Option<ChunkMeta>) -> isize {
    match meta {
        Some(ChunkMeta::Aggregate(info)) => info.bucket,
        _ => UNBUCKETED,
    }
}

/// Whether every materialized column among `entries` has `rows` rows.
pub open spec fn entries_fit(entries: Seq<ChunkEntry>, rows: nat) -> bool {
    forall|i: int|
        0 <= i < entries.len() ==> ((#[trigger] entries[i]).value matches Value::Column(c)
            ==> c@.len() == rows)
}

/// Whether every entry among `entries` is a materialized column.
pub open spec fn entries_full(entries: Seq<ChunkEntry>) -> bool {
    forall|i: int| 0 <= i < entries.len() ==> (#[trigger] entries[i]).value is Column
}

/// A batch of rows in columnar form. Every materialized column has exactly
/// `num_rows` rows; a chunk is never changed once it is made.
#[derive(Debug)]
pub struct Chunk {
    columns: Vec<ChunkEntry>,
    num_rows: usize,
    meta: Option<ChunkMeta>,
}

impl Chunk {
    #[verifier::type_invariant]
    spec fn fits(&self) -> bool {
        entries_fit(self.columns@, self.num_rows as nat)
    }

    /// The column positions, in order.
    pub closed spec fn entries(&self) -> Seq<ChunkEntry> {
        self.columns@
    }

    /// The row count.
    pub closed spec fn rows(&self) -> nat {
        self.num_rows as nat
    }

    /// The metadata object, if any.
    pub closed spec fn meta(&self) -> Option<ChunkMeta> {
        self.meta
    }

    /// A chunk without metadata; `None` when a column has another length
    /// than `num_rows`.
    pub fn new(columns: Vec<ChunkEntry>, num_rows: usize) -> (r: Option<Chunk>)
        ensures
            r is Some == entries_fit(columns@, num_rows as nat),
            r matches Some(c) ==> c.entries() == columns@ && c.rows() == num_rows && c.meta()
                == None::<ChunkMeta>,
    {
        Chunk::new_with_meta(columns, num_rows, None)
    }

    /// A chunk that carries `meta`; `None` when a column has another length
    /// than `num_rows`.
    pub fn new_with_meta(columns: Vec<ChunkEntry>, num_rows: usize, meta: Option<ChunkMeta>) -> (r:
        Option<Chunk>)
        ensures
            r is Some == entries_fit(columns@, num_rows as nat),
            r matches Some(c) ==> c.entries() == columns@ && c.rows() == num_rows && c.meta()
                == meta,
    {
        let mut i: usize = 0;
        while i < columns.len()
            invariant
                i <= columns.len(),
                entries_fit(columns@.subrange(0, i as int), num_rows as nat),
            decreases columns.len() - i,
        {
            let fits = match &columns[i].value {
                Value::Scalar(_) => true,
                Value::Column(c) => c.len() == num_rows,
            };
            if !fits {
                return None;
            }
            i += 1;
            assert forall|k: int| 0 <= k < i implies ((#[trigger] columns@.subrange(
                0,
                i as int,
            )[k]).value matches Value::Column(c) ==> c@.len() == num_rows) by {
                if k < i - 1 {
                    assert(columns@.subrange(0, i - 1)[k] == columns@[k]);
                }
            }
        }
        assert(columns@.subrange(0, i as int) =~= columns@);
        Some(Chunk { columns, num_rows, meta })
    }

    pub fn num_rows(&self) -> (n: usize)
        ensures
            n == self.rows(),
    {
        self.num_rows
    }

    pub fn num_columns(&self) -> (n: usize)
        ensures
            n == self.entries().len(),
    {
        self.columns.len()
    }

    /// All column positions. Their materialized columns have `num_rows` rows.
    pub fn columns(&self) -> (entries: &Vec<ChunkEntry>)
        ensures
            entries@ == self.entries(),
            entries_fit(entries@, self.rows()),
    {
        proof {
            use_type_invariant(self);
        }
        &self.columns
    }

    /// The column position `index`.
    pub fn column(&self, index: usize) -> (entry: &ChunkEntry)
        requires
            index < self.entries().len(),
        ensures
            *entry == self.entries()[index as int],
            entry.value matches Value::Column(c) ==> c@.len() == self.rows(),
    {
        proof {
            use_type_invariant(self);
        }
        &self.columns[index]
    }

    pub fn get_meta(&self) -> (meta: Option<ChunkMeta>)
        ensures
            meta == self.meta(),
    {
        self.meta
    }

    /// The bucket that the chunk is collected under: the one its aggregate
    /// metadata names, `UNBUCKETED` without such metadata.
    pub fn bucket(&self) -> (bucket: isize)
        ensures
            bucket == spec_bucket_of(self.meta()),
    {
        match self.meta {
            Some(ChunkMeta::Aggregate(info)) => info.bucket,
            _ => UNBUCKETED,
        }
    }

    /// The same chunk with every scalar spread out into a column.
    pub fn convert_to_full(&self) -> (full: Chunk)
        ensures
            full@ == self@,
            full.entries().len() == self.entries().len(),
            entries_full(full.entries()),
    {
        proof {
            use_type_invariant(self);
        }
        let mut columns: Vec<ChunkEntry> = Vec::new();
        let mut i: usize = 0;
        while i < self.columns.len()
            invariant
                i <= self.columns.len(),
                columns@.len() == i,
                entries_fit(self.columns@, self.num_rows as nat),
                entries_fit(columns@, self.num_rows as nat),
                entries_full(columns@),
                forall|k: int|
                    0 <= k < i ==> {
                        &&& (#[trigger] columns@[k]).data_type == self.columns@[k].data_type
                        &&& columns@[k].value.storage_type() == self.columns@[k].value.storage_type()
                        &&& columns@[k].value.rows(self.num_rows as nat)
                            == self.columns@[k].value.rows(self.num_rows as nat)
                    },
            decreases self.columns.len() - i,
        {
            let entry = &self.columns[i];
            let column = match &entry.value {
                Value::Scalar(s) => Column::repeat(s, self.num_rows),
                Value::Column(c) => c.duplicate(),
            };
            columns.push(ChunkEntry { value: Value::Column(column), data_type: entry.data_type });
            i += 1;
        }
        let full = Chunk { columns, num_rows: self.num_rows, meta: self.meta };
        assert(full@.columns =~= self@.columns);
        full
    }

    /// A chunk without metadata, of columns that are known to have
    /// `num_rows` rows each.
    pub(crate) fn from_columns(columns: Vec<ChunkEntry>, num_rows: usize) -> (chunk: Chunk)
        requires
            entries_fit(columns@, num_rows as nat),
        ensures
            chunk.entries() == columns@,
            chunk.rows() == num_rows,
            chunk.meta() == None::<ChunkMeta>,
    {
        Chunk { columns, num_rows, meta: None }
    }
}

/// What one column position of a chunk holds, scalars spread out.
pub struct ColumnView {
    /// The type that the chunk declares.
    pub data_type: DataType,
    /// The type of the data itself.
    pub storage_type: DataType,
    pub rows: Seq<ScalarValue>,
}

/// What a chunk holds, scalars spread out.
pub struct ChunkView {
    pub columns: Seq<ColumnView>,
    pub rows: nat,
    pub meta: Option<ChunkMeta>,
}

impl ChunkEntry {
    /// The entry as one column of a chunk of `rows` rows.
    pub open spec fn column_view(&self, rows: nat) -> ColumnView {
        ColumnView {
            data_type: self.data_type,
            storage_type: self.value.storage_type(),
            rows: self.value.rows(rows),
        }
    }
}

impl View for Chunk {
    type V = ChunkView;

    open spec fn view(&self) -> ChunkView {
        ChunkView {
            columns: Seq::new(
                self.entries().len(),
                |i: int| self.entries()[i].column_view(self.rows()),
            ),
            rows: self.rows(),
            meta: self.meta(),
        }
    }
}

/// Whether every cell of `chunk` has the type of the data of its column.
pub open spec fn chunk_typed(chunk: ChunkView) -> bool {
    forall|c: int, r: int|
        0 <= c < chunk.columns.len() && 0 <= r < chunk.columns[c].rows.len() ==> (
        #[trigger] chunk.columns[c].rows[r]).data_type() == chunk.columns[c].storage_type
}

impl Chunk {
    /// The cells of a chunk have the types of its columns.
    pub proof fn lemma_view_typed(&self)
        ensures
            chunk_typed(self@),
    {
        assert forall|c: int, r: int|
            0 <= c < self@.columns.len() && 0 <= r < self@.columns[c].rows.len() implies (
        #[trigger] self@.columns[c].rows[r]).data_type() == self@.columns[c].storage_type by {
            match self.entries()[c].value {
                Value::Column(column) => {
                    column.lemma_rows_typed();
                },
                Value::Scalar(_) => {},
            }
        }
    }
}

/// The views of `chunks`, in order.
pub open spec fn chunk_views(chunks: Seq<Chunk>) -> Seq<ChunkView> {
    Seq::new(chunks.len(), |i: int| chunks[i]@)
}

} // verus!
