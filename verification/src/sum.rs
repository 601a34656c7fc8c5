//! The sum of 64-bit signed integers, as an aggregate function.

use crate::area::{spec_load, spec_store, Area, StateAddr};
use crate::chunk::{Column, DataType, Scalar, ScalarValue};
use crate::error::{ErrorCode, BAD_STATE_BYTES, STATE_OVERFLOW};
use crate::function::AggregateFunction;
use crate::layout::StateLayout;
use vstd::bytes::{spec_u64_from_le_bytes, spec_u64_to_le_bytes, u64_from_le_bytes, u64_to_le_bytes};
use vstd::prelude::*;

verus! {

/// Number of bytes of a sum state, and of a serialized one.
pub const SUM_STATE_BYTES: usize = 8;

/// The eight bytes that stand for `value`: its two's complement, least
/// significant byte first.
pub open spec fn spec_sum_bytes(value: i64) -> Seq<u8> {
    spec_u64_to_le_bytes(value as u64)
}

/// The value that eight bytes stand for.
pub open spec fn spec_sum_value(bytes: Seq<u8>) -> i64 {
    spec_u64_from_le_bytes(bytes) as i64
}

/// `SUM` over `Int64`. A state is the running sum; a sum that leaves the
/// range of `i64` is an error.
#[derive(Clone, Copy, Debug)]
pub struct AggregateSum {}

impl AggregateSum {
    /// The function. It has no settings: any two of its values are equal.
    pub fn new() -> (f: AggregateSum)
        ensures
            f == (AggregateSum {  }),
    {
        AggregateSum {  }
    }

    /// The serialized partial state for the sum `value`.
    pub fn serialize(value: i64) -> (bytes: Vec<u8>)
        ensures
            bytes@ == spec_sum_bytes(value),
            bytes@.len() == SUM_STATE_BYTES,
    {
        u64_to_le_bytes(#[verifier::truncate] (value as u64))
    }

    /// The sum that a state or a serialized partial state stands for.
    pub fn value_of(bytes: &Vec<u8>) -> (value: i64)
        requires
            bytes@.len() == SUM_STATE_BYTES,
        ensures
            value == spec_sum_value(bytes@),
    {
        #[verifier::truncate] (u64_from_le_bytes(bytes.as_slice()) as i64)
    }
}

impl AggregateFunction for AggregateSum {
    open spec fn spec_state_layout(&self) -> StateLayout {
        StateLayout { size: SUM_STATE_BYTES, align: SUM_STATE_BYTES }
    }

    open spec fn spec_init_state(&self) -> Seq<u8> {
        spec_sum_bytes(0)
    }

    open spec fn spec_deserialize(&self, bytes: Seq<u8>) -> Result<Seq<u8>, ErrorCode> {
        if bytes.len() == SUM_STATE_BYTES {
            Ok(bytes)
        } else {
            Err(ErrorCode::FunctionError(BAD_STATE_BYTES))
        }
    }

    open spec fn spec_merge(&self, state: Seq<u8>, other: Seq<u8>) -> Result<Seq<u8>, ErrorCode> {
        let sum = spec_sum_value(state) + spec_sum_value(other);
        if i64::MIN <= sum <= i64::MAX {
            Ok(spec_sum_bytes(sum as i64))
        } else {
            Err(ErrorCode::FunctionError(STATE_OVERFLOW))
        }
    }

    open spec fn spec_merge_result(&self, state: Seq<u8>) -> Result<ScalarValue, ErrorCode> {
        Ok(ScalarValue::Int64(spec_sum_value(state)))
    }

    open spec fn spec_return_type(&self) -> Result<DataType, ErrorCode> {
        Ok(DataType::Int64)
    }

    open spec fn spec_need_manual_drop_state(&self) -> bool {
        false
    }

    open spec fn spec_drop_state(&self, state: Seq<u8>) -> Seq<u8> {
        state
    }

    fn state_layout(&self) -> (layout: StateLayout) {
        StateLayout { size: SUM_STATE_BYTES, align: SUM_STATE_BYTES }
    }

    fn init_state(&self, area: &mut Area, place: StateAddr) {
        let bytes = AggregateSum::serialize(0);
        area.store(place, &bytes);
    }

    fn deserialize(&self, area: &mut Area, place: StateAddr, bytes: &Vec<u8>) -> (r: Result<
        (),
        ErrorCode,
    >) {
        if bytes.len() != SUM_STATE_BYTES {
            return Err(ErrorCode::FunctionError(BAD_STATE_BYTES));
        }
        area.store(place, bytes);
        Ok(())
    }

    fn merge(&self, area: &mut Area, place: StateAddr, rhs: StateAddr) -> (r: Result<
        (),
        ErrorCode,
    >) {
        let state = area.load(place, SUM_STATE_BYTES);
        let other = area.load(rhs, SUM_STATE_BYTES);
        let a = AggregateSum::value_of(&state);
        let b = AggregateSum::value_of(&other);
        match a.checked_add(b) {
            Some(sum) => {
                let bytes = AggregateSum::serialize(sum);
                area.store(place, &bytes);
                Ok(())
            },
            None => Err(ErrorCode::FunctionError(STATE_OVERFLOW)),
        }
    }

    fn merge_result(&self, area: &Area, place: StateAddr, builder: &mut Column) -> (r: Result<
        (),
        ErrorCode,
    >) {
        let state = area.load(place, SUM_STATE_BYTES);
        let value = AggregateSum::value_of(&state);
        let pushed = builder.push(Scalar::Int64(value));
        assert(pushed);
        Ok(())
    }

    fn return_type(&self) -> (r: Result<DataType, ErrorCode>) {
        Ok(DataType::Int64)
    }

    fn need_manual_drop_state(&self) -> (need: bool) {
        false
    }

    fn drop_state(&self, area: &mut Area, place: StateAddr) {
        proof {
            let mem = area@;
            let state = spec_load(mem, place@, SUM_STATE_BYTES as nat);
            assert(spec_store(mem, place@, state) =~= mem);
        }
    }
}

} // verus!
