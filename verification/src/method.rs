//! Key encodings: how the rows of a key column become hash-table keys, and
//! how the group column is rebuilt from the keys that the table holds.

use crate::chunk::{copy_bytes, Column, DataType, ScalarValue};
use crate::error::{ErrorCode, BAD_KEY_COLUMN};
use crate::hashtable::key_views;
use vstd::bytes::{
    lemma_auto_spec_u64_to_from_le_bytes, spec_u64_from_le_bytes, spec_u64_to_le_bytes,
    u64_from_le_bytes, u64_to_le_bytes,
};
use vstd::prelude::*;

verus! {

/// The encodings of group keys that the aggregator knows.
#[derive(Clone, Copy, Debug, PartialEq, Eq, Structural)]
pub enum HashMethod {
    /// Fixed-width keys: the key column holds `UInt64`, and a key is the
    /// eight bytes of its number, least significant byte first.
    KeysU64,
    /// Serialized keys: the key column holds byte strings, and a key is the
    /// byte string itself.
    Serializer,
}

impl HashMethod {
    /// The type of the key column, and of the rebuilt group column.
    pub open spec fn spec_key_type(self) -> DataType {
        match self {
            HashMethod::KeysU64 => DataType::UInt64,
            HashMethod::Serializer => DataType::String,
        }
    }

    /// The key of a row whose key column holds `cell`.
    pub open spec fn spec_key(self, cell: ScalarValue) -> Seq<u8> {
        match cell {
            ScalarValue::UInt64(v) => spec_u64_to_le_bytes(v),
            ScalarValue::String(bytes) => bytes,
            _ => Seq::empty(),
        }
    }

    /// The keys of the rows of a key column, in row order.
    pub open spec fn spec_keys(self, rows: Seq<ScalarValue>) -> Seq<Seq<u8>> {
        Seq::new(rows.len(), |i: int| self.spec_key(rows[i]))
    }

    /// Whether `key` is a key of this encoding.
    pub open spec fn spec_valid_key(self, key: Seq<u8>) -> bool {
        match self {
            HashMethod::KeysU64 => key.len() == 8,
            HashMethod::Serializer => true,
        }
    }

    /// The cell of the group column that `key` stands for.
    pub open spec fn spec_group_value(self, key: Seq<u8>) -> ScalarValue {
        match self {
            HashMethod::KeysU64 => ScalarValue::UInt64(spec_u64_from_le_bytes(key)),
            HashMethod::Serializer => ScalarValue::String(key),
        }
    }

    /// The group column that `keys` stand for.
    pub open spec fn spec_group_values(self, keys: Seq<Seq<u8>>) -> Seq<ScalarValue> {
        Seq::new(keys.len(), |i: int| self.spec_group_value(keys[i]))
    }

    /// A cell of the key column makes a valid key, and the key stands for
    /// that very cell.
    pub proof fn lemma_key_round_trip(self, cell: ScalarValue)
        requires
            cell.data_type() == self.spec_key_type(),
        ensures
            self.spec_valid_key(self.spec_key(cell)),
            self.spec_group_value(self.spec_key(cell)) == cell,
    {
        lemma_auto_spec_u64_to_from_le_bytes();
    }

    /// Distinct keys of this encoding stand for distinct cells.
    pub proof fn lemma_group_value_injective(self, a: Seq<u8>, b: Seq<u8>)
        requires
            self.spec_valid_key(a),
            self.spec_valid_key(b),
            self.spec_group_value(a) == self.spec_group_value(b),
        ensures
            a == b,
    {
        lemma_auto_spec_u64_to_from_le_bytes();
        if self == HashMethod::KeysU64 {
            assert(spec_u64_to_le_bytes(spec_u64_from_le_bytes(a)) == a);
            assert(spec_u64_to_le_bytes(spec_u64_from_le_bytes(b)) == b);
        }
    }

    pub fn key_type(&self) -> (t: DataType)
        ensures
            t == self.spec_key_type(),
    {
        match self {
            HashMethod::KeysU64 => DataType::UInt64,
            HashMethod::Serializer => DataType::String,
        }
    }

    /// The keys of the rows of `column`, in row order. Fails exactly when
    /// the column is not of the encoding's key type.
    pub fn keys_iter_from_column(&self, column: &Column) -> (r: Result<Vec<Vec<u8>>, ErrorCode>)
        ensures
            r is Ok == (column.spec_data_type() == self.spec_key_type()),
            match r {
                Ok(keys) => {
                    &&& key_views(keys@) == self.spec_keys(column@)
                    &&& forall|i: int|
                        0 <= i < keys@.len() ==> self.spec_valid_key(#[trigger] keys@[i]@)
                },
                Err(e) => e == ErrorCode::FunctionError(BAD_KEY_COLUMN),
            },
    {
        let mut keys: Vec<Vec<u8>> = Vec::new();
        match (self, column) {
            (HashMethod::KeysU64, Column::UInt64(values)) => {
                let mut i: usize = 0;
                while i < values.len()
                    invariant
                        i <= values.len(),
                        keys@.len() == i,
                        forall|k: int|
                            0 <= k < i ==> (#[trigger] keys@[k])@ == spec_u64_to_le_bytes(
                                values@[k],
                            ) && keys@[k]@.len() == 8,
                    decreases values.len() - i,
                {
                    keys.push(u64_to_le_bytes(values[i]));
                    i += 1;
                }
                assert(key_views(keys@) =~= self.spec_keys(column@));
                Ok(keys)
            },
            (HashMethod::Serializer, Column::String(values)) => {
                let mut i: usize = 0;
                while i < values.len()
                    invariant
                        i <= values.len(),
                        keys@.len() == i,
                        forall|k: int| 0 <= k < i ==> (#[trigger] keys@[k])@ == values@[k]@,
                    decreases values.len() - i,
                {
                    keys.push(copy_bytes(&values[i]));
                    i += 1;
                }
                assert(key_views(keys@) =~= self.spec_keys(column@));
                Ok(keys)
            },
            _ => Err(ErrorCode::FunctionError(BAD_KEY_COLUMN)),
        }
    }

    /// A builder for the group column of this encoding.
    pub fn group_columns_builder(&self, capacity: usize) -> (builder: GroupColumnsBuilder)
        ensures
            builder.method() == *self,
            builder.rows() == Seq::<ScalarValue>::empty(),
    {
        let builder = match self {
            HashMethod::KeysU64 => GroupColumnsBuilder::KeysU64(Vec::with_capacity(capacity)),
            HashMethod::Serializer => GroupColumnsBuilder::Serializer(Vec::with_capacity(capacity)),
        };
        assert(builder.rows() =~= Seq::<ScalarValue>::empty());
        builder
    }
}

/// Rebuilds the group column from keys, one row per key, in the order in
/// which the keys are appended.
#[derive(Debug)]
pub enum GroupColumnsBuilder {
    KeysU64(Vec<u64>),
    Serializer(Vec<Vec<u8>>),
}

impl GroupColumnsBuilder {
    /// The encoding whose keys the builder takes.
    pub open spec fn method(&self) -> HashMethod {
        match self {
            GroupColumnsBuilder::KeysU64(_) => HashMethod::KeysU64,
            GroupColumnsBuilder::Serializer(_) => HashMethod::Serializer,
        }
    }

    /// The rows built so far.
    pub open spec fn rows(&self) -> Seq<ScalarValue> {
        match self {
            GroupColumnsBuilder::KeysU64(v) => Seq::new(v@.len(), |i: int| ScalarValue::UInt64(v@[i])),
            GroupColumnsBuilder::Serializer(v) => Seq::new(
                v@.len(),
                |i: int| ScalarValue::String(v@[i]@),
            ),
        }
    }

    /// Appends the row that `key` stands for.
    pub fn append_value(&mut self, key: &Vec<u8>)
        requires
            old(self).method().spec_valid_key(key@),
        ensures
            final(self).method() == old(self).method(),
            final(self).rows() == old(self).rows().push(old(self).method().spec_group_value(key@)),
    {
        match self {
            GroupColumnsBuilder::KeysU64(v) => {
                v.push(u64_from_le_bytes(key.as_slice()));
            },
            GroupColumnsBuilder::Serializer(v) => {
                v.push(copy_bytes(key));
            },
        }
        assert(final(self).rows() =~= old(self).rows().push(
            old(self).method().spec_group_value(key@),
        ));
    }

    /// The group columns: one column of the encoding's key type.
    pub fn finish(self) -> (columns: Vec<Column>)
        ensures
            columns@.len() == 1,
            columns@[0]@ == self.rows(),
            columns@[0].spec_data_type() == self.method().spec_key_type(),
    {
        let column = match self {
            GroupColumnsBuilder::KeysU64(v) => Column::UInt64(v),
            GroupColumnsBuilder::Serializer(v) => Column::String(v),
        };
        let mut columns: Vec<Column> = Vec::new();
        columns.push(column);
        columns
    }
}

} // verus!
