//! What an aggregator is configured with.

use crate::area::{lemma_store, spec_load, Area, StateAddr, AREA_MAX_BYTES};
use crate::chunk::DataType;
use crate::error::ErrorCode;
use crate::function::AggregateFunction;
use crate::layout::{
    is_aligned, layout_states, offsets_fit, spec_align_up, spec_block_align, spec_block_size,
    spec_state_offset, StateLayout,
};
use vstd::prelude::*;

verus! {

/// One field of a schema.
#[derive(Debug)]
pub struct DataField {
    pub name: String,
    pub data_type: DataType,
}

/// The fields of the chunks that an aggregator emits: one per aggregate
/// function, in the order of the functions, then the group field.
#[derive(Debug)]
pub struct DataSchema {
    pub fields: Vec<DataField>,
}

/// The state layouts of `functions`, in order.
pub open spec fn function_layouts<F: AggregateFunction>(functions: Seq<F>) -> Seq<StateLayout> {
    Seq::new(functions.len(), |i: int| functions[i].spec_state_layout())
}

/// Number of functions among the first `upto` of `functions` whose states
/// must be released one by one.
pub open spec fn spec_manual_drop_count<F: AggregateFunction>(functions: Seq<F>, upto: int) -> nat
    decreases upto,
{
    if upto <= 0 {
        0
    } else {
        spec_manual_drop_count(functions, upto - 1) + if functions[upto
            - 1].spec_need_manual_drop_state() {
            1nat
        } else {
            0nat
        }
    }
}

/// No more functions need a manual drop than there are functions.
pub proof fn lemma_manual_drop_count<F: AggregateFunction>(functions: Seq<F>, upto: int)
    requires
        0 <= upto,
    ensures
        spec_manual_drop_count(functions, upto) <= upto,
    decreases upto,
{
    if upto > 0 {
        lemma_manual_drop_count(functions, upto - 1);
    }
}

/// Where the count is zero, no function needs a manual drop.
pub proof fn lemma_no_manual_drops<F: AggregateFunction>(functions: Seq<F>, upto: int)
    requires
        spec_manual_drop_count(functions, upto) == 0,
    ensures
        forall|k: int| 0 <= k < upto ==> !(#[trigger] functions[k]).spec_need_manual_drop_state(),
    decreases upto,
{
    if upto > 0 {
        lemma_no_manual_drops(functions, upto - 1);
    }
}

/// The configuration that the aggregators of one query share.
pub struct AggregatorParams<F: AggregateFunction> {
    aggregate_functions: Vec<F>,
    offsets_aggregate_states: Vec<usize>,
    layout: StateLayout,
    output_schema: DataSchema,
    area_limit: usize,
}

impl<F: AggregateFunction> AggregatorParams<F> {
    #[verifier::type_invariant]
    spec fn consistent(&self) -> bool {
        &&& offsets_fit(
            function_layouts(self.aggregate_functions@),
            self.offsets_aggregate_states@,
            self.layout,
        )
        &&& self.output_schema.fields@.len() == self.aggregate_functions@.len() + 1
        &&& self.area_limit <= AREA_MAX_BYTES
    }

    /// The aggregate functions, in the order of their output columns.
    pub closed spec fn functions(&self) -> Seq<F> {
        self.aggregate_functions@
    }

    /// The offset of each function's state inside a state block.
    pub closed spec fn offsets(&self) -> Seq<usize> {
        self.offsets_aggregate_states@
    }

    /// Size and alignment of a state block.
    pub closed spec fn block(&self) -> StateLayout {
        self.layout
    }

    /// The declared type of each output column.
    pub closed spec fn output_types(&self) -> Seq<DataType> {
        Seq::new(self.output_schema.fields@.len(), |i: int| self.output_schema.fields@[i].data_type)
    }

    /// The size that a state arena may not exceed.
    pub closed spec fn area_limit(&self) -> nat {
        self.area_limit as nat
    }

    /// What holds of every configuration: the offsets place the states of
    /// the functions inside the block, and the schema has one field per
    /// function and one for the group column.
    pub open spec fn wf(&self) -> bool {
        &&& offsets_fit(function_layouts(self.functions()), self.offsets(), self.block())
        &&& self.output_types().len() == self.functions().len() + 1
        &&& self.area_limit() <= AREA_MAX_BYTES
    }

    /// The state of function `idx` in the block at `base`, read from `mem`.
    pub open spec fn state_at(&self, mem: Seq<u8>, base: nat, idx: int) -> Seq<u8> {
        spec_load(
            mem,
            base + (self.offsets()[idx] as nat),
            self.functions()[idx].spec_state_layout().size as nat,
        )
    }

    /// The states of all functions in the block at `base`, read from `mem`.
    pub open spec fn states_at(&self, mem: Seq<u8>, base: nat) -> Seq<Seq<u8>> {
        Seq::new(self.functions().len(), |idx: int| self.state_at(mem, base, idx))
    }

    /// The state of function `idx` in state block number `block`, read
    /// from `mem`.
    pub open spec fn block_state(&self, mem: Seq<u8>, block: int, idx: int) -> Seq<u8> {
        self.state_at(mem, (block * self.block().size) as nat, idx)
    }

    /// What is left of the state `state` of function `idx` once the states
    /// that need it have been released.
    pub open spec fn released_state(&self, state: Seq<u8>, idx: int) -> Seq<u8> {
        if self.functions()[idx].spec_need_manual_drop_state() {
            self.functions()[idx].spec_drop_state(state)
        } else {
            state
        }
    }

    /// Number of functions whose states must be released one by one.
    pub open spec fn manual_drops(&self) -> nat {
        spec_manual_drop_count(self.functions(), self.functions().len() as int)
    }

    /// The fresh states of all functions.
    pub open spec fn init_states(&self) -> Seq<Seq<u8>> {
        Seq::new(self.functions().len(), |idx: int| self.functions()[idx].spec_init_state())
    }

    /// A configuration with the states placed one behind the other, each at
    /// the first offset that its alignment allows, and with arenas that may
    /// grow as far as memory can be addressed. `None` when the schema does
    /// not have one field per function and one more, or when a state block
    /// does not fit the address space.
    pub fn try_create(aggregate_functions: Vec<F>, output_schema: DataSchema) -> (r: Option<Self>)
        ensures
            r is Some <==> output_schema.fields@.len() == aggregate_functions@.len() + 1
                && spec_block_size(function_layouts(aggregate_functions@)) <= usize::MAX,
            r matches Some(params) ==> {
                &&& params.wf()
                &&& params.functions() == aggregate_functions@
                &&& params.offsets().len() == aggregate_functions@.len()
                &&& forall|i: int|
                    0 <= i < aggregate_functions@.len() ==> (#[trigger] params.offsets()[i])
                        == spec_state_offset(function_layouts(aggregate_functions@), i)
                &&& params.block().size == spec_block_size(function_layouts(aggregate_functions@))
                &&& params.block().align == spec_block_align(
                    function_layouts(aggregate_functions@),
                    aggregate_functions@.len() as int,
                )
                &&& params.area_limit() == AREA_MAX_BYTES
                &&& params.output_types() == Seq::new(
                    output_schema.fields@.len(),
                    |i: int| output_schema.fields@[i].data_type,
                )
            },
    {
        let mut layouts: Vec<StateLayout> = Vec::new();
        let mut i: usize = 0;
        while i < aggregate_functions.len()
            invariant
                i <= aggregate_functions@.len(),
                layouts@ == function_layouts(aggregate_functions@).subrange(0, i as int),
                forall|k: int| 0 <= k < i ==> (#[trigger] layouts@[k]).align > 0,
            decreases aggregate_functions@.len() - i,
        {
            let layout = aggregate_functions[i].state_layout();
            layouts.push(layout);
            i += 1;
            assert(layouts@ =~= function_layouts(aggregate_functions@).subrange(0, i as int));
        }
        assert(layouts@ =~= function_layouts(aggregate_functions@));
        let placed = layout_states(&layouts);
        let fields = output_schema.fields.len();
        if fields == 0 || fields - 1 != aggregate_functions.len() {
            return None;
        }
        match placed {
            Some((offsets, layout)) => Some(
                AggregatorParams {
                    aggregate_functions,
                    offsets_aggregate_states: offsets,
                    layout,
                    output_schema,
                    area_limit: AREA_MAX_BYTES,
                },
            ),
            None => None,
        }
    }

    /// The same configuration with state arenas of at most `limit` bytes.
    pub fn with_area_limit(self, limit: usize) -> (params: Self)
        ensures
            params.functions() == self.functions(),
            params.offsets() == self.offsets(),
            params.block() == self.block(),
            params.output_types() == self.output_types(),
            params.area_limit() == if limit <= AREA_MAX_BYTES {
                limit as nat
            } else {
                AREA_MAX_BYTES as nat
            },
            params.wf(),
    {
        proof {
            use_type_invariant(&self);
        }
        let area_limit = if limit <= AREA_MAX_BYTES {
            limit
        } else {
            AREA_MAX_BYTES
        };
        AggregatorParams {
            aggregate_functions: self.aggregate_functions,
            offsets_aggregate_states: self.offsets_aggregate_states,
            layout: self.layout,
            output_schema: self.output_schema,
            area_limit,
        }
    }

    pub fn aggregate_functions(&self) -> (functions: &Vec<F>)
        ensures
            functions@ == self.functions(),
            self.wf(),
    {
        proof {
            use_type_invariant(self);
        }
        &self.aggregate_functions
    }

    pub fn offsets_aggregate_states(&self) -> (offsets: &Vec<usize>)
        ensures
            offsets@ == self.offsets(),
            self.wf(),
    {
        proof {
            use_type_invariant(self);
        }
        &self.offsets_aggregate_states
    }

    pub fn state_block(&self) -> (block: StateLayout)
        ensures
            block == self.block(),
            self.wf(),
    {
        proof {
            use_type_invariant(self);
        }
        self.layout
    }

    pub fn output_schema(&self) -> (schema: &DataSchema)
        ensures
            self.output_types() == Seq::new(
                schema.fields@.len(),
                |i: int| schema.fields@[i].data_type,
            ),
            self.wf(),
    {
        proof {
            use_type_invariant(self);
        }
        &self.output_schema
    }

    /// Counts the functions whose states must be released one by one.
    pub fn manual_drop_count(&self) -> (count: usize)
        ensures
            count == self.manual_drops(),
            self.wf(),
    {
        proof {
            use_type_invariant(self);
        }
        let mut count: usize = 0;
        let mut idx: usize = 0;
        while idx < self.aggregate_functions.len()
            invariant
                idx <= self.aggregate_functions@.len(),
                count <= idx,
                count == spec_manual_drop_count(self.aggregate_functions@, idx as int),
            decreases self.aggregate_functions@.len() - idx,
        {
            if self.aggregate_functions[idx].need_manual_drop_state() {
                count += 1;
            }
            idx += 1;
        }
        count
    }

    pub fn max_area_bytes(&self) -> (limit: usize)
        ensures
            limit == self.area_limit(),
            self.wf(),
    {
        proof {
            use_type_invariant(self);
        }
        self.area_limit
    }

    /// Allocates one state block for the whole function list and makes each
    /// state in it a fresh one. Returns the block's base, or nothing when
    /// there is no function. Fails, and changes nothing, exactly when there
    /// are functions and the arena has no room for the block.
    pub fn alloc_layout(&self, area: &mut Area) -> (r: Result<Option<StateAddr>, ErrorCode>)
        ensures
            final(area).spec_limit() == old(area).spec_limit(),
            match r {
                Ok(None) => self.functions().len() == 0 && final(area)@ == old(area)@,
                Ok(Some(base)) => {
                    &&& self.functions().len() > 0
                    &&& base@ == spec_align_up(old(area)@.len(), self.block().align as nat)
                    &&& is_aligned(base@, self.block().align as nat)
                    &&& final(area)@.len() == base@ + self.block().size
                    &&& final(area)@.len() <= old(area).spec_limit()
                    &&& final(area)@.subrange(0, old(area)@.len() as int) == old(area)@
                    &&& self.states_at(final(area)@, base@) == self.init_states()
                },
                Err(e) => {
                    &&& e == ErrorCode::AllocationFailure
                    &&& self.functions().len() > 0
                    &&& spec_align_up(old(area)@.len(), self.block().align as nat)
                        + self.block().size > old(area).spec_limit()
                    &&& final(area)@ == old(area)@
                },
            },
    {
        proof {
            use_type_invariant(self);
        }
        let count = self.aggregate_functions.len();
        if count == 0 {
            return Ok(None);
        }
        let base = match area.allocate(self.layout.size, self.layout.align) {
            Some(base) => base,
            None => {
                return Err(ErrorCode::AllocationFailure);
            },
        };
        let ghost before = old(area)@;
        let total = area.len();
        let mut idx: usize = 0;
        while idx < count
            invariant
                idx <= count == self.functions().len(),
                area@.len() == total,
                self.wf(),
                self.aggregate_functions@ == self.functions(),
                self.offsets_aggregate_states@ == self.offsets(),
                area.spec_limit() == old(area).spec_limit(),
                before.len() <= base@,
                area@.len() == base@ + self.block().size,
                area@.subrange(0, before.len() as int) == before,
                forall|k: int|
                    0 <= k < idx ==> #[trigger] self.state_at(area@, base@, k)
                        == self.functions()[k].spec_init_state(),
            decreases count - idx,
        {
            let ghost mem = area@;
            let ghost layouts = function_layouts(self.functions());
            assert(layouts[idx as int].align > 0);
            let place = base.next(self.offsets_aggregate_states[idx]);
            self.aggregate_functions[idx].init_state(area, place);
            proof {
                let init = self.functions()[idx as int].spec_init_state();
                lemma_store(mem, place@, init);
                assert(area@.subrange(0, before.len() as int) == spec_load(
                    area@,
                    0,
                    before.len(),
                ));
                assert(mem.subrange(0, before.len() as int) == spec_load(mem, 0, before.len()));
                assert forall|k: int| 0 <= k < idx + 1 implies #[trigger] self.state_at(
                    area@,
                    base@,
                    k,
                ) == self.functions()[k].spec_init_state() by {
                    if k < idx {
                        assert(layouts[k].align > 0);
                        assert(self.offsets()[k] + layouts[k].size <= self.offsets()[idx as int]);
                        assert(self.state_at(mem, base@, k) == self.functions()[k].spec_init_state());
                    }
                }
            }
            idx += 1;
        }
        assert(self.states_at(area@, base@) =~= self.init_states());
        Ok(Some(base))
    }
}

} // verus!
