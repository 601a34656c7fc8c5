//! What the aggregator asks of an aggregate function.
//!
//! A function owns the layout of its state; the aggregator only knows the
//! state's size and alignment, hands the function addresses inside the state
//! arena, and treats what lies there as bytes.

use crate::area::{spec_load, spec_store, Area, StateAddr};
use crate::chunk::{Column, DataType, ScalarValue};
use crate::error::ErrorCode;
use crate::layout::StateLayout;
use vstd::prelude::*;

verus! {

/// The capabilities of one aggregate function.
///
/// Each executable method comes with a specification function that says,
/// over plain bytes, what the method computes. An implementation promises
/// that its methods do what its specification functions say; everything the
/// aggregator proves about its output rests on that promise.
pub trait AggregateFunction {
    /// Size and alignment of one state.
    spec fn spec_state_layout(&self) -> StateLayout;

    /// The bytes of a fresh state.
    spec fn spec_init_state(&self) -> Seq<u8>;

    /// The state that the serialized partial state `bytes` stands for.
    spec fn spec_deserialize(&self, bytes: Seq<u8>) -> Result<Seq<u8>, ErrorCode>;

    /// The state `state` after the state `other` was folded into it.
    spec fn spec_merge(&self, state: Seq<u8>, other: Seq<u8>) -> Result<Seq<u8>, ErrorCode>;

    /// The final value of `state`.
    spec fn spec_merge_result(&self, state: Seq<u8>) -> Result<ScalarValue, ErrorCode>;

    /// The type of the final values.
    spec fn spec_return_type(&self) -> Result<DataType, ErrorCode>;

    /// Whether states must be released one by one.
    spec fn spec_need_manual_drop_state(&self) -> bool;

    /// What is left of `state` once it has been released.
    spec fn spec_drop_state(&self, state: Seq<u8>) -> Seq<u8>;

    fn state_layout(&self) -> (layout: StateLayout)
        ensures
            layout == self.spec_state_layout(),
            layout.align > 0,
    ;

    /// Makes the state at `place` a fresh one.
    fn init_state(&self, area: &mut Area, place: StateAddr)
        requires
            place@ + self.spec_state_layout().size <= old(area)@.len(),
        ensures
            self.spec_init_state().len() == self.spec_state_layout().size,
            final(area)@ == spec_store(old(area)@, place@, self.spec_init_state()),
            final(area).spec_limit() == old(area).spec_limit(),
    ;

    /// Reads one serialized partial state into the state at `place`,
    /// whatever that state held before. A failure leaves the arena as it
    /// was.
    fn deserialize(&self, area: &mut Area, place: StateAddr, bytes: &Vec<u8>) -> (r: Result<
        (),
        ErrorCode,
    >)
        requires
            place@ + self.spec_state_layout().size <= old(area)@.len(),
        ensures
            final(area).spec_limit() == old(area).spec_limit(),
            match self.spec_deserialize(bytes@) {
                Ok(state) => {
                    &&& r is Ok
                    &&& state.len() == self.spec_state_layout().size
                    &&& final(area)@ == spec_store(old(area)@, place@, state)
                },
                Err(e) => r == Err::<(), ErrorCode>(e) && final(area)@ == old(area)@,
            },
    ;

    /// Folds the state at `rhs` into the state at `place`. A failure leaves
    /// the arena as it was.
    fn merge(&self, area: &mut Area, place: StateAddr, rhs: StateAddr) -> (r: Result<
        (),
        ErrorCode,
    >)
        requires
            place@ + self.spec_state_layout().size <= old(area)@.len(),
            rhs@ + self.spec_state_layout().size <= old(area)@.len(),
            place@ + self.spec_state_layout().size <= rhs@ || rhs@
                + self.spec_state_layout().size <= place@,
        ensures
            final(area).spec_limit() == old(area).spec_limit(),
            match self.spec_merge(
                spec_load(old(area)@, place@, self.spec_state_layout().size as nat),
                spec_load(old(area)@, rhs@, self.spec_state_layout().size as nat),
            ) {
                Ok(state) => {
                    &&& r is Ok
                    &&& state.len() == self.spec_state_layout().size
                    &&& final(area)@ == spec_store(old(area)@, place@, state)
                },
                Err(e) => r == Err::<(), ErrorCode>(e) && final(area)@ == old(area)@,
            },
    ;

    /// Appends the final value of the state at `place` to `builder`, a
    /// column of the function's return type. A failure leaves the column as
    /// it was.
    fn merge_result(&self, area: &Area, place: StateAddr, builder: &mut Column) -> (r: Result<
        (),
        ErrorCode,
    >)
        requires
            place@ + self.spec_state_layout().size <= area@.len(),
            self.spec_return_type() == Ok::<DataType, ErrorCode>(old(builder).spec_data_type()),
        ensures
            final(builder).spec_data_type() == old(builder).spec_data_type(),
            match self.spec_merge_result(
                spec_load(area@, place@, self.spec_state_layout().size as nat),
            ) {
                Ok(value) => r is Ok && final(builder)@ == old(builder)@.push(value),
                Err(e) => r == Err::<(), ErrorCode>(e) && final(builder)@ == old(builder)@,
            },
    ;

    fn return_type(&self) -> (r: Result<DataType, ErrorCode>)
        ensures
            r == self.spec_return_type(),
    ;

    fn need_manual_drop_state(&self) -> (need: bool)
        ensures
            need == self.spec_need_manual_drop_state(),
    ;

    /// Releases the state at `place`. Never fails.
    fn drop_state(&self, area: &mut Area, place: StateAddr)
        requires
            place@ + self.spec_state_layout().size <= old(area)@.len(),
        ensures
            final(area).spec_limit() == old(area).spec_limit(),
            self.spec_drop_state(
                spec_load(old(area)@, place@, self.spec_state_layout().size as nat),
            ).len() == self.spec_state_layout().size,
            final(area)@ == spec_store(
                old(area)@,
                place@,
                self.spec_drop_state(
                    spec_load(old(area)@, place@, self.spec_state_layout().size as nat),
                ),
            ),
    ;
}

} // verus!
