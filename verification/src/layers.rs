//! The cosine layer's bookkeeping: how many rows it fills and which gadgets
//! it draws on.

use vstd::prelude::*;

verus! {

/// The gadgets that a layer can draw on.
#[derive(Clone, Copy, Debug, PartialEq, Eq)]
pub enum GadgetType {
    Cos,
    InputLookup,
}

/// The layer that applies the cosine to every element of its input.
#[derive(Clone, Debug)]
pub struct CosChip {}

/// The number of rows that `inp_size` inputs fill at `num_cols / 2` inputs a
/// row.
pub open spec fn rows_needed(inp_size: int, num_cols: int) -> int {
    let per_row = num_cols / 2;
    (inp_size + per_row - 1) / per_row
}

/// The number of elements of a tensor of the given shape.
pub open spec fn shape_size(shape: Seq<usize>) -> int
    decreases shape.len(),
{
    if shape.len() == 0 {
        1
    } else {
        shape_size(shape.drop_last()) * shape.last()
    }
}

impl CosChip {
    /// The rows that the layer fills for an input of the given shape: each
    /// input takes two columns, and a row that is begun counts as a whole.
    pub fn num_rows(&self, inp_shape: &[usize], num_cols: i64) -> (r: i64)
        requires
            num_cols >= 2,
            forall|k: int|
                0 <= k <= inp_shape@.len() ==> #[trigger] shape_size(inp_shape@.take(k))
                    <= usize::MAX,
            shape_size(inp_shape@) <= i64::MAX,
        ensures
            r == rows_needed(shape_size(inp_shape@), num_cols as int),
    {
        let mut inp_size: usize = 1;
        let mut i: usize = 0;
        assert(inp_shape@.take(0).len() == 0);
        while i < inp_shape.len()
            invariant
                i <= inp_shape@.len(),
                inp_size == shape_size(inp_shape@.take(i as int)),
                forall|k: int|
                    0 <= k <= inp_shape@.len() ==> #[trigger] shape_size(inp_shape@.take(k))
                        <= usize::MAX,
            decreases inp_shape@.len() - i,
        {
            proof {
                let next = inp_shape@.take(i + 1);
                assert(next.drop_last() =~= inp_shape@.take(i as int));
                assert(next.last() == inp_shape@[i as int]);
                assert(shape_size(next) <= usize::MAX);
                assert(shape_size(next) == shape_size(next.drop_last()) * next.last());
            }
            inp_size = inp_size * inp_shape[i];
            i += 1;
        }
        assert(inp_shape@.take(inp_shape@.len() as int) =~= inp_shape@);
        let per_row: i64 = num_cols / 2;
        let size: i64 = inp_size as i64;
        let whole: i64 = size / per_row;
        proof {
            vstd::arithmetic::div_mod::lemma_fundamental_div_mod(size as int, per_row as int);
            vstd::arithmetic::div_mod::lemma_mod_bound(size as int, per_row as int);
            let q = whole as int;
            let m = (size % per_row) as int;
            let d = per_row as int;
            assert(size == d * q + m);
            if m == 0 {
                vstd::arithmetic::div_mod::lemma_fundamental_div_mod_converse(
                    size + d - 1,
                    d,
                    q,
                    d - 1,
                );
            } else {
                assert(size + d - 1 == d * (q + 1) + (m - 1)) by (nonlinear_arith)
                    requires
                        size == d * q + m,
                ;
                vstd::arithmetic::div_mod::lemma_fundamental_div_mod_converse(
                    size + d - 1,
                    d,
                    q + 1,
                    m - 1,
                );
                assert(q + 1 <= size) by (nonlinear_arith)
                    requires
                        size == d * q + m,
                        m >= 1,
                        d >= 1,
                        q >= 0,
                ;
            }
        }
        if size % per_row == 0 {
            whole
        } else {
            whole + 1
        }
    }

    /// The gadgets that the layer draws on: the cosine and the input lookup.
    pub fn used_gadgets(&self) -> (r: Vec<GadgetType>)
        ensures
            r@ == seq![GadgetType::Cos, GadgetType::InputLookup],
    {
        let mut r: Vec<GadgetType> = Vec::new();
        r.push(GadgetType::Cos);
        r.push(GadgetType::InputLookup);
        assert(r@ =~= seq![GadgetType::Cos, GadgetType::InputLookup]);
        r
    }
}

} // verus!
