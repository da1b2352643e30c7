//! Properties of the extraction kernel, stated and proved once over the
//! specification that both traversal strategies are held to.

use crate::encoding::enc_size;
use crate::value::Val;
use crate::path::PathStep;
use crate::variant_get::GetError;
use crate::variant_get::OutModel;
use crate::variant_get::TargetType;
use crate::variant_get::obj_get;
use crate::variant_get::opt_walk;
use crate::variant_get::prim_row;
use crate::variant_get::spec_get;
use crate::variant_get::step;
use vstd::prelude::*;

verus! {

/// The number of null rows in a column model.
pub open spec fn null_count<T>(s: Seq<Option<T>>) -> int
    decreases s.len(),
{
    if s.len() == 0 {
        0
    } else {
        null_count(s.drop_last()) + if s.last() is None {
            1int
        } else {
            0int
        }
    }
}

proof fn lemma_null_count_pointwise<A, B>(a: Seq<Option<A>>, b: Seq<Option<B>>)
    requires
        a.len() == b.len(),
        forall|i: int| 0 <= i < a.len() ==> ((#[trigger] a[i]) is None ==> b[i] is None),
    ensures
        null_count(b) >= null_count(a),
    decreases a.len(),
{
    if a.len() > 0 {
        let a2 = a.drop_last();
        let b2 = b.drop_last();
        assert forall|i: int| 0 <= i < a2.len() implies ((#[trigger] a2[i]) is None ==> b2[i]
            is None) by {
            assert(a2[i] == a[i]);
            assert(b2[i] == b[i]);
        }
        lemma_null_count_pointwise(a2, b2);
    }
}

/// Determinism: the extraction's result is a function of the input rows
/// and the options alone, so two runs over the same input agree.
pub proof fn lemma_determinism(
    r1: Result<OutModel, GetError>,
    r2: Result<OutModel, GetError>,
    rows: Seq<Option<Val>>,
    path: Seq<PathStep>,
    as_type: Option<TargetType>,
    safe: bool,
)
    requires
        r1 == spec_get(rows, path, as_type, safe),
        r2 == spec_get(rows, path, as_type, safe),
    ensures
        r1 == r2,
{
}

/// Null-count monotonicity: for a non-empty path, every row that is
/// null in the input is null in the output, so the output holds at
/// least as many nulls as the input.
pub proof fn lemma_null_count_monotonic(
    rows: Seq<Option<Val>>,
    path: Seq<PathStep>,
    as_type: Option<TargetType>,
    safe: bool,
)
    requires
        path.len() > 0,
    ensures
        match spec_get(rows, path, as_type, safe) {
            Result::Ok(OutModel::Prim(s)) => null_count(s) >= null_count(rows),
            Result::Ok(OutModel::Var(s)) => null_count(s) >= null_count(rows),
            Result::Err(_) => true,
        },
{
    match spec_get(rows, path, as_type, safe) {
        Result::Ok(OutModel::Prim(s)) => {
            assert forall|i: int| 0 <= i < rows.len() implies ((#[trigger] rows[i]) is None
                ==> s[i] is None) by {
                if rows[i] is None {
                    assert(opt_walk(rows[i], path) is None);
                }
            }
            lemma_null_count_pointwise(rows, s);
        },
        Result::Ok(OutModel::Var(s)) => {
            assert forall|i: int| 0 <= i < rows.len() implies ((#[trigger] rows[i]) is None
                ==> s[i] is None) by {
                if rows[i] is None {
                    assert(opt_walk(rows[i], path) is None);
                }
            }
            lemma_null_count_pointwise(rows, s);
        },
        Result::Err(_) => {},
    }
}

/// Empty-path identity: with an empty path and no target type the
/// output variant column holds, row for row, exactly the input's
/// values.  The one family of inputs left out is a row whose value
/// cannot be re-encoded inside 4-byte offsets.
pub proof fn lemma_empty_path_identity(rows: Seq<Option<Val>>, safe: bool)
    requires
        forall|i: int|
            0 <= i < rows.len() ==> ((#[trigger] rows[i]) is Some ==> enc_size(rows[i]->Some_0)
                <= 0xFFFF_FFFF),
    ensures
        spec_get(rows, Seq::empty(), Option::None, safe) == Result::<OutModel, GetError>::Ok(
            OutModel::Var(rows),
        ),
{
    let path = Seq::<PathStep>::empty();
    assert forall|i: int| 0 <= i < rows.len() implies #[trigger] opt_walk(rows[i], path)
        == rows[i] by {
        match rows[i] {
            None => {},
            Some(v) => {
                assert(crate::variant_get::walk(v, path, 0) == Some(v));
            },
        }
    }
    assert(Seq::new(rows.len(), |i: int| opt_walk(rows[i], path)) =~= rows);
}

/// Field-miss is a path miss: selecting a field of a value that is not
/// an object, or an object without that field, resolves to nothing.
pub proof fn lemma_field_miss(v: Val, name: Seq<char>)
    requires
        !(v is Object) || obj_get(v->Object_0, name, 0) is None,
    ensures
        step(v, PathStep::Field(name)) is None,
{
}

/// Index-miss is a path miss: indexing a value that is not a list, or
/// past the end of a list, resolves to nothing.
pub proof fn lemma_index_miss(v: Val, i: int)
    requires
        !(v is List) || i < 0 || i >= v->List_0.len(),
    ensures
        step(v, PathStep::Index(i)) is None,
{
}

/// A path miss in one row nulls that row and never aborts the call:
/// under the null-on-mismatch policy a primitive extraction returns a
/// column with a null there, and a variant extraction can only fail for
/// a value too large to re-encode, never for the miss.
pub proof fn lemma_path_miss_nulls_not_errors(
    rows: Seq<Option<Val>>,
    path: Seq<PathStep>,
    safe: bool,
    i: int,
)
    requires
        0 <= i < rows.len(),
        opt_walk(rows[i], path) is None,
    ensures
        match spec_get(rows, path, Option::Some(TargetType::UInt64), true) {
            Result::Ok(OutModel::Prim(s)) => s[i] is None,
            _ => false,
        },
        match spec_get(rows, path, Option::None, safe) {
            Result::Ok(OutModel::Var(s)) => s[i] is None,
            Result::Err(e) => e == GetError::TooLarge,
            _ => false,
        },
{
    assert(prim_row(opt_walk(rows[i], path)) is None);
}

} // verus!
