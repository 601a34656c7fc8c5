//! An aggregate function whose states are wiped when they are released.

use crate::area::{Area, StateAddr};
use crate::chunk::{Column, DataType, ScalarValue};
use crate::error::ErrorCode;
use crate::function::AggregateFunction;
use crate::layout::StateLayout;
use vstd::prelude::*;

verus! {

/// `len` zero bytes.
pub open spec fn spec_zeros(len: nat) -> Seq<u8> {
    Seq::new(len, |i: int| 0u8)
}

/// A vector of `len` zero bytes.
pub fn zeros(len: usize) -> (bytes: Vec<u8>)
    ensures
        bytes@ == spec_zeros(len as nat),
{
    let mut bytes: Vec<u8> = Vec::new();
    while bytes.len() < len
        invariant
            bytes@.len() <= len,
            bytes@ == spec_zeros(bytes@.len()),
        decreases len - bytes@.len(),
    {
        bytes.push(0u8);
        assert(bytes@ =~= spec_zeros(bytes@.len()));
    }
    bytes
}

/// Wraps an aggregate function. The wrapped function computes what it
/// computed before; its states, though, have to be released one by one,
/// and releasing a state overwrites it with zeros.
#[derive(Debug)]
pub struct WipeOnDrop<F: AggregateFunction> {
    pub inner: F,
}

impl<F: AggregateFunction> WipeOnDrop<F> {
    pub fn new(inner: F) -> (f: Self)
        ensures
            f.inner == inner,
    {
        WipeOnDrop { inner }
    }
}

impl<F: AggregateFunction> AggregateFunction for WipeOnDrop<F> {
    open spec fn spec_state_layout(&self) -> StateLayout {
        self.inner.spec_state_layout()
    }

    open spec fn spec_init_state(&self) -> Seq<u8> {
        self.inner.spec_init_state()
    }

    open spec fn spec_deserialize(&self, bytes: Seq<u8>) -> Result<Seq<u8>, ErrorCode> {
        self.inner.spec_deserialize(bytes)
    }

    open spec fn spec_merge(&self, state: Seq<u8>, other: Seq<u8>) -> Result<Seq<u8>, ErrorCode> {
        self.inner.spec_merge(state, other)
    }

    open spec fn spec_merge_result(&self, state: Seq<u8>) -> Result<ScalarValue, ErrorCode> {
        self.inner.spec_merge_result(state)
    }

    open spec fn spec_return_type(&self) -> Result<DataType, ErrorCode> {
        self.inner.spec_return_type()
    }

    open spec fn spec_need_manual_drop_state(&self) -> bool {
        true
    }

    open spec fn spec_drop_state(&self, state: Seq<u8>) -> Seq<u8> {
        spec_zeros(state.len())
    }

    fn state_layout(&self) -> (layout: StateLayout) {
        self.inner.state_layout()
    }

    fn init_state(&self, area: &mut Area, place: StateAddr) {
        self.inner.init_state(area, place)
    }

    fn deserialize(&self, area: &mut Area, place: StateAddr, bytes: &Vec<u8>) -> (r: Result<
        (),
        ErrorCode,
    >) {
        self.inner.deserialize(area, place, bytes)
    }

    fn merge(&self, area: &mut Area, place: StateAddr, rhs: StateAddr) -> (r: Result<
        (),
        ErrorCode,
    >) {
        self.inner.merge(area, place, rhs)
    }

    fn merge_result(&self, area: &Area, place: StateAddr, builder: &mut Column) -> (r: Result<
        (),
        ErrorCode,
    >) {
        self.inner.merge_result(area, place, builder)
    }

    fn return_type(&self) -> (r: Result<DataType, ErrorCode>) {
        self.inner.return_type()
    }

    fn need_manual_drop_state(&self) -> (need: bool) {
        true
    }

    fn drop_state(&self, area: &mut Area, place: StateAddr) {
        let size = self.inner.state_layout().size;
        let bytes = zeros(size);
        area.store(place, &bytes);
    }
}

} // verus!
