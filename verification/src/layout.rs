//! Placement of aggregate states inside one state block.
//!
//! Every group owns one block. The block hosts one state per aggregate
//! function, each at its own alignment, at an offset that is the same in
//! every block.

use vstd::arithmetic::div_mod::*;
use vstd::prelude::*;

verus! {

/// Size and alignment of one aggregate state, in bytes.
#[derive(Clone, Copy, Debug, PartialEq, Eq)]
pub struct StateLayout {
    pub size: usize,
    pub align: usize,
}

/// Whether `offset` is a multiple of `align`.
pub open spec fn is_aligned(offset: nat, align: nat) -> bool {
    offset % align == 0
}

/// The least multiple of `align` that is not below `offset`.
pub open spec fn spec_align_up(offset: nat, align: nat) -> nat {
    if offset % align == 0 {
        offset
    } else {
        (offset + (align - offset % align)) as nat
    }
}

/// `spec_align_up` yields an aligned offset, moves forward by less than one
/// alignment unit, and skips no aligned offset on the way.
pub proof fn lemma_align_up(offset: nat, align: nat)
    requires
        align > 0,
    ensures
        is_aligned(spec_align_up(offset, align), align),
        offset <= spec_align_up(offset, align) < offset + align,
        forall|m: nat|
            offset <= m && #[trigger] is_aligned(m, align) ==> spec_align_up(offset, align) <= m,
{
    let o = offset as int;
    let a = align as int;
    let r = o % a;
    let up = spec_align_up(offset, align) as int;
    lemma_fundamental_div_mod(o, a);
    if r != 0 {
        assert(up == a * (o / a + 1)) by (nonlinear_arith)
            requires
                up == o + (a - r),
                o == a * (o / a) + r,
        ;
        lemma_mod_multiples_basic(o / a + 1, a);
        assert((o / a + 1) * a == a * (o / a + 1)) by (nonlinear_arith);
    }
    assert forall|m: nat| offset <= m && #[trigger] is_aligned(m, align) implies spec_align_up(
        offset,
        align,
    ) <= m by {
        let mi = m as int;
        lemma_fundamental_div_mod(mi, a);
        if r != 0 && mi < up {
            // m = a * q lies strictly between a * (o / a) and a * (o / a + 1)
            assert(false) by (nonlinear_arith)
                requires
                    mi == a * (mi / a),
                    o == a * (o / a) + r,
                    0 < r < a,
                    o <= mi,
                    mi < o + (a - r),
            ;
        }
    }
}

/// Rounds `offset` up to a multiple of `align`; `None` when the result does
/// not fit the address space.
pub fn align_up(offset: usize, align: usize) -> (r: Option<usize>)
    requires
        align > 0,
    ensures
        match r {
            Some(a) => a == spec_align_up(offset as nat, align as nat),
            None => spec_align_up(offset as nat, align as nat) > usize::MAX,
        },
{
    let rem: usize = offset % align;
    if rem == 0 {
        Some(offset)
    } else {
        offset.checked_add(align - rem)
    }
}

/// Whether `offsets` places one state per layout inside a block of layout
/// `block`: each state at its own alignment, one behind the other, none
/// reaching beyond the block, whose size is a multiple of its alignment.
pub open spec fn offsets_fit(
    layouts: Seq<StateLayout>,
    offsets: Seq<usize>,
    block: StateLayout,
) -> bool {
    &&& offsets.len() == layouts.len()
    &&& block.align > 0
    &&& is_aligned(block.size as nat, block.align as nat)
    &&& forall|i: int|
        0 <= i < layouts.len() ==> {
            &&& (#[trigger] layouts[i]).align > 0
            &&& is_aligned(offsets[i] as nat, layouts[i].align as nat)
            &&& offsets[i] + layouts[i].size <= block.size
        }
    &&& forall|i: int, j: int|
        0 <= i < j < layouts.len() ==> (#[trigger] offsets[i]) + layouts[i].size
            <= #[trigger] offsets[j]
}

/// Where the first `n` states end when each is put at the first offset
/// behind its predecessor that its alignment allows.
pub open spec fn spec_states_end(layouts: Seq<StateLayout>, n: int) -> nat
    decreases n,
{
    if n <= 0 {
        0
    } else {
        spec_align_up(spec_states_end(layouts, n - 1), layouts[n - 1].align as nat) + (layouts[n
            - 1].size as nat)
    }
}

/// The offset of state `i` in that placement.
pub open spec fn spec_state_offset(layouts: Seq<StateLayout>, i: int) -> nat {
    spec_align_up(spec_states_end(layouts, i), layouts[i].align as nat)
}

/// The largest alignment among the first `n` states; one where there is
/// none.
pub open spec fn spec_block_align(layouts: Seq<StateLayout>, n: int) -> nat
    decreases n,
{
    if n <= 0 {
        1
    } else if spec_block_align(layouts, n - 1) >= layouts[n - 1].align {
        spec_block_align(layouts, n - 1)
    } else {
        layouts[n - 1].align as nat
    }
}

/// The size of a block for all the states: where the last state ends,
/// rounded up to the block's alignment.
pub open spec fn spec_block_size(layouts: Seq<StateLayout>) -> nat {
    spec_align_up(
        spec_states_end(layouts, layouts.len() as int),
        spec_block_align(layouts, layouts.len() as int),
    )
}

/// States are placed one behind the other.
pub proof fn lemma_states_end_monotonic(layouts: Seq<StateLayout>, i: int, j: int)
    requires
        0 <= i <= j <= layouts.len(),
        forall|k: int| 0 <= k < layouts.len() ==> (#[trigger] layouts[k]).align > 0,
    ensures
        spec_states_end(layouts, i) <= spec_states_end(layouts, j),
    decreases j - i,
{
    if i < j {
        lemma_states_end_monotonic(layouts, i, j - 1);
        lemma_align_up(spec_states_end(layouts, j - 1), layouts[j - 1].align as nat);
    }
}

/// The block alignment is positive.
pub proof fn lemma_block_align_positive(layouts: Seq<StateLayout>, n: int)
    ensures
        spec_block_align(layouts, n) >= 1,
    decreases n,
{
    if n > 0 {
        lemma_block_align_positive(layouts, n - 1);
    }
}

/// Computes the offsets of the states of `layouts` inside one block, and
/// the layout of the block; `None` when the block does not fit the address
/// space.
pub fn layout_states(layouts: &Vec<StateLayout>) -> (r: Option<(Vec<usize>, StateLayout)>)
    requires
        forall|i: int| 0 <= i < layouts@.len() ==> (#[trigger] layouts@[i]).align > 0,
    ensures
        match r {
            Some((offsets, block)) => {
                &&& offsets@.len() == layouts@.len()
                &&& forall|i: int|
                    0 <= i < layouts@.len() ==> (#[trigger] offsets@[i]) == spec_state_offset(
                        layouts@,
                        i,
                    )
                &&& block.align == spec_block_align(layouts@, layouts@.len() as int)
                &&& block.size == spec_block_size(layouts@)
                &&& offsets_fit(layouts@, offsets@, block)
            },
            None => spec_block_size(layouts@) > usize::MAX,
        },
{
    let mut offsets: Vec<usize> = Vec::new();
    let mut end: usize = 0;
    let mut align: usize = 1;
    let mut i: usize = 0;
    while i < layouts.len()
        invariant
            i <= layouts@.len(),
            offsets@.len() == i,
            forall|k: int| 0 <= k < layouts@.len() ==> (#[trigger] layouts@[k]).align > 0,
            end == spec_states_end(layouts@, i as int),
            align == spec_block_align(layouts@, i as int),
            align >= 1,
            forall|k: int| 0 <= k < i ==> (#[trigger] offsets@[k]) == spec_state_offset(layouts@, k),
        decreases layouts@.len() - i,
    {
        let layout = layouts[i];
        proof {
            lemma_states_end_monotonic(layouts@, i + 1, layouts@.len() as int);
            lemma_block_align_positive(layouts@, layouts@.len() as int);
            lemma_align_up(
                spec_states_end(layouts@, layouts@.len() as int),
                spec_block_align(layouts@, layouts@.len() as int),
            );
            lemma_align_up(end as nat, layout.align as nat);
        }
        let offset = match align_up(end, layout.align) {
            Some(offset) => offset,
            None => {
                return None;
            },
        };
        end = match offset.checked_add(layout.size) {
            Some(end) => end,
            None => {
                return None;
            },
        };
        if layout.align > align {
            align = layout.align;
        }
        offsets.push(offset);
        i += 1;
    }
    proof {
        lemma_align_up(end as nat, align as nat);
    }
    let size = match align_up(end, align) {
        Some(size) => size,
        None => {
            return None;
        },
    };
    let block = StateLayout { size, align };
    proof {
        let n = layouts@.len() as int;
        assert forall|k: int| 0 <= k < n implies {
            &&& (#[trigger] layouts@[k]).align > 0
            &&& is_aligned(offsets@[k] as nat, layouts@[k].align as nat)
            &&& offsets@[k] + layouts@[k].size <= block.size
        } by {
            lemma_align_up(spec_states_end(layouts@, k), layouts@[k].align as nat);
            lemma_states_end_monotonic(layouts@, k + 1, n);
        }
        assert forall|k: int, j: int| 0 <= k < j < n implies (#[trigger] offsets@[k])
            + layouts@[k].size <= #[trigger] offsets@[j] by {
            lemma_states_end_monotonic(layouts@, k + 1, j);
            lemma_align_up(spec_states_end(layouts@, j), layouts@[j].align as nat);
        }
    }
    Some((offsets, block))
}

} // verus!
