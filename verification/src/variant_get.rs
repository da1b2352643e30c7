//! The path-extraction kernel and the variant column it works on.
//!
//! A `VariantArray` holds one dictionary of field names, one encoded
//! value blob per row, and a validity mask.  `variant_get` resolves a
//! path against every row by advancing a byte offset per row and
//! decoding only the node type at each step; `variant_get_rowise` fully
//! decodes each row and walks the tree.  Both return, for a requested
//! target type, a primitive column, and otherwise a new variant column
//! of the sub-values, with a null for every row whose path does not
//! resolve.

use crate::arrow_u64::U64Array;
use crate::arrow_u64::U64Builder;
use crate::arrow_u64::u64_array_rows;
use crate::arrow_u64::u64_builder_rows;
use crate::encoding::dec_val;
use crate::encoding::enc_size;
use crate::encoding::encode_val;
use crate::encoding::names_in;
use crate::encoding::names_of;
use crate::encoding::lemma_dec_val_dict_extend;
use crate::path::PathStep;
use crate::path::VariantPath;
use crate::path::VariantPathElement;
use crate::value::Val;
use crate::value::obj_view;
use crate::value::list_view;
use crate::value::VariantValue;
use vstd::prelude::*;

verus! {

broadcast use vstd::std_specs::vec::axiom_vec_index_decreases, vstd::seq::group_seq_axioms;

/// The target type of a primitive extraction.  Only the 64-bit unsigned
/// integer conversion is implemented; asking for any other type is
/// rejected before any row is processed.
#[derive(Debug, Clone, Copy, PartialEq, Eq, Structural)]
pub enum TargetType {
    UInt64,
    Int64,
    Boolean,
    Utf8,
}

/// Controls what happens when a row's terminal value does not match the
/// requested target type: with `safe` the row becomes null, without it
/// the whole call fails.
#[derive(Debug, Clone, Copy, PartialEq, Eq, Structural)]
pub struct CastOptions {
    pub safe: bool,
}

impl Default for CastOptions {
    /// The default folds a mismatched row into a null.
    fn default() -> (r: CastOptions)
        ensures
            r.safe,
    {
        CastOptions { safe: true }
    }
}

/// Controls the action of the `variant_get` kernel.
#[derive(Debug, Clone)]
pub struct GetOptions {
    /// What path to extract.
    pub path: VariantPath,
    /// If `as_type` is none, the result is itself a variant column; if
    /// set, the result is a column of that primitive type.
    pub as_type: Option<TargetType>,
    /// Controls the casting behavior (error vs substituting null on
    /// cast failure).
    pub cast_options: CastOptions,
}

/// Why a call failed as a whole.  Per-row misses are nulls, never errors.
#[derive(Debug, Clone, Copy, PartialEq, Eq, Structural)]
pub enum GetError {
    /// The requested target type has no conversion yet.
    NotYetImplemented,
    /// A row's terminal value did not match the target type, under the
    /// error-on-mismatch policy.
    Cast,
    /// A row's bytes are not a well-formed encoding, or the column's
    /// parts are not aligned: the input is corrupt.
    Invalid,
    /// A re-encoded sub-value would overflow a 4-byte length or offset.
    TooLarge,
}

/// The output column: primitive or variant.
#[derive(Debug)]
pub enum GetOutput {
    Primitive(U64Array),
    Variant(VariantArray),
}

/// The model of an output column.
pub enum OutModel {
    Prim(Seq<Option<u64>>),
    Var(Seq<Option<Val>>),
}

/// The first value bound to `name` among the fields `k ..`.
pub open spec fn obj_get(es: Seq<(Seq<char>, Val)>, name: Seq<char>, k: int) -> Option<Val>
    decreases es.len() - k,
{
    if k < 0 || k >= es.len() {
        None
    } else if es[k].0 == name {
        Some(es[k].1)
    } else {
        obj_get(es, name, k + 1)
    }
}

/// One navigation step: a field accessor on an object selects the named
/// field, an index accessor on a list selects the element; everything
/// else is a path miss.
pub open spec fn step(v: Val, s: PathStep) -> Option<Val> {
    match s {
        PathStep::Field(name) => match v {
            Val::Object(es) => obj_get(es, name, 0),
            _ => None,
        },
        PathStep::Index(i) => match v {
            Val::List(items) => if 0 <= i < items.len() {
                Some(items[i])
            } else {
                None
            },
            _ => None,
        },
    }
}

/// The value reached from `v` by the accessors `i ..` of `path`, or
/// `None` at the first accessor that does not resolve.
pub open spec fn walk(v: Val, path: Seq<PathStep>, i: int) -> Option<Val>
    decreases path.len() - i,
{
    if i < 0 || i >= path.len() {
        Some(v)
    } else {
        match step(v, path[i]) {
            None => None,
            Some(v2) => walk(v2, path, i + 1),
        }
    }
}

/// `walk` lifted over a nullable row.
pub open spec fn opt_walk(x: Option<Val>, path: Seq<PathStep>) -> Option<Val> {
    match x {
        None => None,
        Some(v) => walk(v, path, 0),
    }
}

/// The same walk, accumulated front to back: the state of one row after
/// the first `j` accessors, as the vectorized traversal advances it.
pub open spec fn iter_walk(x: Option<Val>, path: Seq<PathStep>, j: int) -> Option<Val>
    decreases j,
{
    if j <= 0 {
        x
    } else {
        match iter_walk(x, path, j - 1) {
            None => None,
            Some(v) => step(v, path[j - 1]),
        }
    }
}

/// The outcome of casting a terminal value to the unsigned 64-bit type.
pub enum CastRes {
    /// A null in the output: missing row, path miss, or variant null.
    AsNull,
    /// A converted value.
    AsValue(u64),
    /// A value of an incompatible type, the policy decides.
    Mismatch,
}

/// Casting to the unsigned 64-bit target: a nonnegative integer
/// converts, a variant null or a missing value is a null, anything else
/// is a mismatch.  A negative integer does not reinterpret: it is a
/// mismatch like a wrong kind.
pub open spec fn cast_u64(x: Option<Val>) -> CastRes {
    match x {
        None => CastRes::AsNull,
        Some(v) => match v {
            Val::Null => CastRes::AsNull,
            Val::Int64(i) => if i >= 0 {
                CastRes::AsValue(i as u64)
            } else {
                CastRes::Mismatch
            },
            _ => CastRes::Mismatch,
        },
    }
}

/// The output cell for one row under the null-on-mismatch policy.
pub open spec fn prim_row(x: Option<Val>) -> Option<u64> {
    match cast_u64(x) {
        CastRes::AsValue(u) => Some(u),
        _ => None,
    }
}

/// What the kernel returns, as a function of the row models and the
/// options.  Both traversal strategies are held to this one function.
pub open spec fn spec_get(
    rows: Seq<Option<Val>>,
    path: Seq<PathStep>,
    as_type: Option<TargetType>,
    safe: bool,
) -> Result<OutModel, GetError> {
    match as_type {
        Option::Some(TargetType::UInt64) => if !safe && (exists|i: int|
            0 <= i < rows.len() && cast_u64(#[trigger] opt_walk(rows[i], path)) is Mismatch) {
            Result::Err(GetError::Cast)
        } else {
            Result::Ok(
                OutModel::Prim(Seq::new(rows.len(), |i: int| prim_row(opt_walk(rows[i], path)))),
            )
        },
        Option::Some(_) => Result::Err(GetError::NotYetImplemented),
        Option::None => if exists|i: int|
            0 <= i < rows.len() && (#[trigger] opt_walk(rows[i], path)) is Some && enc_size(
                opt_walk(rows[i], path)->Some_0,
            ) > 0xFFFF_FFFF {
            Result::Err(GetError::TooLarge)
        } else {
            Result::Ok(OutModel::Var(Seq::new(rows.len(), |i: int| opt_walk(rows[i], path)))
            )
        },
    }
}

/// Whether an output column matches its model.
pub open spec fn out_matches(out: GetOutput, m: OutModel) -> bool {
    match (out, m) {
        (GetOutput::Primitive(a), OutModel::Prim(s)) => u64_array_rows(a) == s,
        (GetOutput::Variant(va), OutModel::Var(s)) => va.wf() && va.rows() == s,
        _ => false,
    }
}

/// The accessors of a path element vector, as path steps.
pub open spec fn path_steps(p: Seq<VariantPathElement>) -> Seq<PathStep> {
    Seq::new(p.len(), |i: int| p[i]@)
}

/// A column of variant values: one shared dictionary of field names, one
/// value blob per row, and a validity mask.
#[derive(Debug)]
pub struct VariantArray {
    dict: Vec<String>,
    values: Vec<Vec<u8>>,
    validity: Vec<bool>,
}

impl VariantArray {
    /// The dictionary's field names.
    pub closed spec fn names(&self) -> Seq<Seq<char>> {
        names_of(self.dict@)
    }

    /// The number of rows.
    pub closed spec fn spec_len(&self) -> nat {
        self.validity@.len()
    }

    /// Whether row `i` is non-null in the mask.
    pub closed spec fn valid_at(&self, i: int) -> bool {
        self.validity@[i]
    }

    /// The value blob of row `i`.
    pub closed spec fn bytes_at(&self, i: int) -> Seq<u8> {
        self.values@[i]@
    }

    /// Alignment of the parts, and a dictionary small enough for 4-byte
    /// name indices.
    pub closed spec fn shape_ok(&self) -> bool {
        self.values@.len() == self.validity@.len() && self.dict@.len() <= 0xFFFF_FFFF
    }

    /// The model of row `i`: `None` for a null row, else what its bytes
    /// decode to.
    pub open spec fn row(&self, i: int) -> Option<Val> {
        if self.valid_at(i) {
            dec_val(self.names(), self.bytes_at(i), 0)
        } else {
            None
        }
    }

    /// The models of all rows.
    pub open spec fn rows(&self) -> Seq<Option<Val>> {
        Seq::new(self.spec_len(), |i: int| self.row(i))
    }

    /// Well-formed: parts aligned, and every non-null row's bytes decode.
    pub open spec fn wf(&self) -> bool {
        self.shape_ok() && forall|i: int|
            0 <= i < self.spec_len() && self.valid_at(i) ==> (#[trigger] self.row(i)) is Some
    }

    /// Assembles a column from raw parts, unchecked: the result is well
    /// formed only if the parts are.
    pub fn from_parts(dict: Vec<String>, values: Vec<Vec<u8>>, validity: Vec<bool>) -> (r:
        VariantArray)
        ensures
            r.names() == names_of(dict@),
            r.spec_len() == validity@.len(),
            forall|i: int| 0 <= i < validity@.len() ==> r.valid_at(i) == validity@[i],
            forall|i: int| 0 <= i < values@.len() ==> r.bytes_at(i) == values@[i]@,
            r.shape_ok() == (values@.len() == validity@.len() && dict@.len() <= 0xFFFF_FFFF),
    {
        VariantArray { dict, values, validity }
    }

    /// The number of rows.
    pub fn len(&self) -> (n: usize)
        ensures
            n == self.spec_len(),
    {
        self.validity.len()
    }

    /// Whether row `i` is null.
    pub fn is_null(&self, i: usize) -> (r: bool)
        requires
            i < self.spec_len(),
        ensures
            r == !self.valid_at(i as int),
    {
        !self.validity[i]
    }

    /// The decoded value of row `i`, or `None` for a null row.
    pub fn value(&self, i: usize) -> (r: Option<VariantValue>)
        requires
            self.wf(),
            i < self.spec_len(),
        ensures
            match r {
                Some(vv) => self.row(i as int) == Some(vv@),
                None => self.row(i as int) is None,
            },
    {
        if !self.validity[i] {
            None
        } else {
            crate::encoding::decode_at(&self.dict, &self.values[i], 0)
        }
    }
}

/// Builds a `VariantArray` row by row.
pub struct VariantArrayBuilder {
    dict: Vec<String>,
    values: Vec<Vec<u8>>,
    validity: Vec<bool>,
}

impl VariantArrayBuilder {
    /// The dictionary's field names so far.
    pub closed spec fn names(&self) -> Seq<Seq<char>> {
        names_of(self.dict@)
    }

    /// The models of the rows appended so far.
    pub closed spec fn rows(&self) -> Seq<Option<Val>> {
        Seq::new(
            self.validity@.len(),
            |i: int|
                if self.validity@[i] {
                    dec_val(names_of(self.dict@), self.values@[i]@, 0)
                } else {
                    None
                },
        )
    }

    /// Internal well-formedness, established by the constructors and
    /// preserved by every method.
    pub closed spec fn inv(&self) -> bool {
        &&& self.values@.len() == self.validity@.len()
        &&& self.dict@.len() <= 0xFFFF_FFFF
        &&& forall|i: int|
            0 <= i < self.validity@.len() && self.validity@[i] ==> (#[trigger] dec_val(
                names_of(self.dict@),
                self.values@[i]@,
                0,
            )) is Some
    }

    /// A builder with room for `capacity` rows.  The capacity is a
    /// sizing hint; it does not bound the rows.
    pub fn new(capacity: usize) -> (r: VariantArrayBuilder)
        ensures
            r.inv(),
            r.rows() == Seq::<Option<Val>>::empty(),
            r.names() == Seq::<Seq<char>>::empty(),
    {
        VariantArrayBuilder {
            dict: Vec::new(),
            values: Vec::with_capacity(capacity),
            validity: Vec::with_capacity(capacity),
        }
    }

    /// A builder with no rows that starts from an existing dictionary,
    /// so that a derived column shares the source's name layout.
    pub fn from_dictionary(dict: Vec<String>) -> (r: VariantArrayBuilder)
        requires
            dict@.len() <= 0xFFFF_FFFF,
        ensures
            r.inv(),
            r.rows() == Seq::<Option<Val>>::empty(),
            r.names() == names_of(dict@),
    {
        VariantArrayBuilder { dict, values: Vec::new(), validity: Vec::new() }
    }

    /// Appends one non-null row holding `value`.  Fails, leaving the
    /// rows unchanged, only where the encoding would overflow a 4-byte
    /// count, offset or name index.
    pub fn append_variant(&mut self, value: VariantValue) -> (ok: bool)
        requires
            old(self).inv(),
        ensures
            final(self).inv(),
            ok ==> final(self).rows() == old(self).rows().push(Some(value@)) && enc_size(value@)
                <= 0xFFFF_FFFF,
            !ok ==> final(self).rows() == old(self).rows() && enc_size(value@) + old(
                self,
            ).names().len() > 0xFFFF_FFFF,
            enc_size(value@) + old(self).names().len() <= 0xFFFF_FFFF ==> ok,
            (names_in(value@, old(self).names()) && enc_size(value@) <= 0xFFFF_FFFF) ==> (ok
                && final(self).names() == old(self).names()),
    {
        let ghost names0 = names_of(self.dict@);
        match encode_val(&value, &mut self.dict) {
            Some(bytes) => {
                self.values.push(bytes);
                self.validity.push(true);
                proof {
                    let names1 = names_of(self.dict@);
                    let oldn = old(self).validity@.len() as int;
                    assert forall|i: int|
                        0 <= i < oldn && self.validity@[i] implies (#[trigger] dec_val(
                        names1,
                        self.values@[i]@,
                        0,
                    )) is Some && dec_val(names1, self.values@[i]@, 0) == dec_val(
                        names0,
                        old(self).values@[i]@,
                        0,
                    ) by {
                        assert(self.values@[i] == old(self).values@[i]);
                        assert(self.validity@[i] == old(self).validity@[i]);
                        assert(dec_val(names0, old(self).values@[i]@, 0) is Some);
                        lemma_dec_val_dict_extend(names0, names1, self.values@[i]@, 0);
                    }
                    assert(dec_val(names1, self.values@[oldn]@, 0) == Some(value@));
                    assert(self.rows() =~= old(self).rows().push(Some(value@)));
                }
                true
            },
            None => {
                proof {
                    let names1 = names_of(self.dict@);
                    assert forall|i: int|
                        0 <= i < self.validity@.len() && self.validity@[i] implies (
                    #[trigger] dec_val(names1, self.values@[i]@, 0)) is Some && dec_val(
                        names1,
                        self.values@[i]@,
                        0,
                    ) == dec_val(names0, old(self).values@[i]@, 0) by {
                        assert(self.values@[i] == old(self).values@[i]);
                        assert(self.validity@[i] == old(self).validity@[i]);
                        assert(dec_val(names0, old(self).values@[i]@, 0) is Some);
                        lemma_dec_val_dict_extend(names0, names1, self.values@[i]@, 0);
                    }
                    assert(self.rows() =~= old(self).rows());
                }
                false
            },
        }
    }

    /// Appends one null row.
    pub fn append_null(&mut self)
        requires
            old(self).inv(),
        ensures
            final(self).inv(),
            final(self).rows() == old(self).rows().push(None),
            final(self).names() == old(self).names(),
    {
        self.values.push(Vec::new());
        self.validity.push(false);
        proof {
            assert(self.rows() =~= old(self).rows().push(None));
        }
    }

    /// Finishes the column.
    pub fn build(self) -> (r: VariantArray)
        requires
            self.inv(),
        ensures
            r.wf(),
            r.rows() == self.rows(),
            r.names() == self.names(),
    {
        let r = VariantArray { dict: self.dict, values: self.values, validity: self.validity };
        proof {
            assert(r.rows() =~= self.rows());
        }
        r
    }
}

/// Looking further into the fields changes nothing while no name below
/// matched.
pub proof fn lemma_obj_get_scan(es: Seq<(Seq<char>, Val)>, name: Seq<char>, k: int)
    requires
        0 <= k <= es.len(),
        forall|t: int| 0 <= t < k ==> (#[trigger] es[t]).0 != name,
    ensures
        obj_get(es, name, 0) == obj_get(es, name, k),
    decreases k,
{
    if k > 0 {
        lemma_obj_get_scan(es, name, k - 1);
    }
}

/// A value found under an object field keeps its names inside the
/// dictionary.
pub proof fn lemma_obj_get_names_in(
    es: Seq<(Seq<char>, Val)>,
    name: Seq<char>,
    k: int,
    names: Seq<Seq<char>>,
)
    requires
        crate::encoding::names_in_fields(es, names, 0),
        0 <= k,
    ensures
        obj_get(es, name, k) is Some ==> names_in(obj_get(es, name, k)->Some_0, names),
    decreases es.len() - k,
{
    if k < es.len() {
        if es[k].0 == name {
            crate::encoding::lemma_names_in_fields_index(es, names, 0, k);
        } else {
            lemma_obj_get_names_in(es, name, k + 1, names);
        }
    }
}

/// Walking a path never leaves the dictionary's names behind: every
/// value reached from a value whose names are in the dictionary has its
/// names there too.
pub proof fn lemma_walk_names_in(v: Val, path: Seq<PathStep>, i: int, names: Seq<Seq<char>>)
    requires
        names_in(v, names),
    ensures
        walk(v, path, i) is Some ==> names_in(walk(v, path, i)->Some_0, names),
    decreases path.len() - i,
{
    if 0 <= i < path.len() {
        match step(v, path[i]) {
            None => {},
            Some(w) => {
                match path[i] {
                    PathStep::Field(name) => {
                        lemma_obj_get_names_in(v->Object_0, name, 0, names);
                    },
                    PathStep::Index(ix) => {
                        crate::encoding::lemma_names_in_items_index(v->List_0, names, 0, ix);
                    },
                }
                lemma_walk_names_in(w, path, i + 1, names);
            },
        }
    }
}

/// Copies a dictionary, name for name.
fn copy_dict(d: &Vec<String>) -> (r: Vec<String>)
    ensures
        names_of(r@) == names_of(d@),
        r@.len() == d@.len(),
{
    let n = d.len();
    let mut r: Vec<String> = Vec::new();
    let mut i: usize = 0;
    while i < n
        invariant
            n == d@.len(),
            0 <= i <= n,
            r@.len() == i,
            forall|j: int| 0 <= j < i ==> #[trigger] r@[j]@ == d@[j]@,
        decreases n - i,
    {
        r.push(d[i].as_str().to_owned());
        i += 1;
    }
    proof {
        assert(names_of(r@) =~= names_of(d@));
    }
    r
}

/// Walks the accessors `from ..` of `path` against a decoded tree,
/// returning the sub-tree reached, or `None` at the first accessor that
/// does not resolve.
fn walk_tree(v: VariantValue, path: &Vec<VariantPathElement>, from: usize) -> (r: Option<
    VariantValue,
>)
    requires
        from <= path@.len(),
    ensures
        match r {
            Some(w) => walk(v@, path_steps(path@), from as int) == Some(w@),
            None => walk(v@, path_steps(path@), from as int) is None,
        },
    decreases path@.len() - from,
{
    let ghost ps = path_steps(path@);
    if from == path.len() {
        return Some(v);
    }
    let el = &path[from];
    proof {
        assert(ps[from as int] == path@[from as int]@);
    }
    match el {
        VariantPathElement::Field { name } => {
            match v {
                VariantValue::Object(mut fields) => {
                    let ghost fs = obj_view(&fields, 0);
                    let ghost v0 = v@;
                    let n = fields.len();
                    proof {
                        crate::value::lemma_obj_view(&fields, 0);
                        assert(v0 == Val::Object(fs));
                    }
                    let mut k: usize = 0;
                    while k < n
                        invariant
                            from < path@.len(),
                            path@.len() <= usize::MAX,
                            v0 == Val::Object(fs),
                            v@ == v0,
                            ps == path_steps(path@),
                            ps[from as int] == PathStep::Field(name@),
                            n == fields@.len(),
                            0 <= k <= n,
                            fs == obj_view(&fields, 0),
                            fs.len() == n,
                            forall|t: int| 0 <= t < n ==> #[trigger] fs[t] == (
                            fields@[t].0@,
                            fields@[t].1@,
                            ),
                            forall|t: int| 0 <= t < k ==> (#[trigger] fs[t]).0 != name@,
                        decreases n - k,
                    {
                        if crate::encoding::str_eq(fields[k].0.as_str(), name.as_str()) {
                            proof {
                                lemma_obj_get_scan(fs, name@, k as int);
                                assert(obj_get(fs, name@, 0) == Some(fs[k as int].1));
                            }
                            let pair = fields.swap_remove(k);
                            proof {
                                assert(pair.1@ == fs[k as int].1);
                                assert(step(v0, ps[from as int]) == Some(pair.1@));
                            }
                            let r2 = walk_tree(pair.1, path, from + 1);
                            proof {
                                assert(v@ == v0);
                                assert(walk(v0, ps, from as int) == walk(
                                    pair.1@,
                                    ps,
                                    from as int + 1,
                                ));
                                assert(match r2 {
                                    Some(w) => walk(v@, path_steps(path@), from as int) == Some(
                                        w@,
                                    ),
                                    None => walk(v@, path_steps(path@), from as int) is None,
                                });
                            }
                            return r2;
                        }
                        k += 1;
                    }
                    proof {
                        lemma_obj_get_scan(fs, name@, n as int);
                        assert(obj_get(fs, name@, 0) is None);
                    }
                    None
                },
                other => {
                    proof {
                        assert(step(other@, ps[from as int]) is None);
                    }
                    None
                },
            }
        },
        VariantPathElement::Index { index } => {
            match v {
                VariantValue::List(mut items) => {
                    let ghost ls = list_view(&items, 0);
                    let ghost v0 = v@;
                    proof {
                        crate::value::lemma_list_view(&items, 0);
                        assert(v0 == Val::List(ls));
                    }
                    if *index < items.len() {
                        proof {
                            assert(ls[*index as int] == items@[*index as int]@);
                        }
                        let child = items.swap_remove(*index);
                        proof {
                            assert(step(v0, ps[from as int]) == Some(child@));
                        }
                        walk_tree(child, path, from + 1)
                    } else {
                        None
                    }
                },
                other => {
                    proof {
                        assert(step(other@, ps[from as int]) is None);
                    }
                    None
                },
            }
        },
    }
}

/// Returns an array with the specified path extracted from the variant
/// values, resolving the path row by row against fully decoded trees.
/// This is the reference strategy: it must agree with `variant_get` on
/// every input.
pub fn variant_get_rowise(input: &VariantArray, options: GetOptions) -> (r: Result<
    GetOutput,
    GetError,
>)
    ensures
        input.wf() ==> match (
            r,
            spec_get(input.rows(), options.path@, options.as_type, options.cast_options.safe),
        ) {
            (Result::Ok(out), Result::Ok(m)) => out_matches(out, m),
            (Result::Err(e), Result::Err(me)) => e == me,
            _ => false,
        },
{
    let n = input.validity.len();
    if input.values.len() != input.validity.len() || input.dict.len() > 0xFFFF_FFFFusize {
        return Err(GetError::Invalid);
    }
    let pathvec = options.path.path();
    let ghost ps = options.path@;
    let ghost rows = input.rows();
    proof {
        assert(path_steps(pathvec@) =~= ps);
        assert(rows.len() == n);
    }
    match options.as_type {
        Option::Some(TargetType::UInt64) => {
            let safe = options.cast_options.safe;
            let mut b = U64Builder::new();
            let mut i: usize = 0;
            while i < n
                invariant
                    input.values@.len() == input.validity@.len(),
                    input.dict@.len() <= 0xFFFF_FFFF,
                    n == input.spec_len(),
                    rows == input.rows(),
                    ps == options.path@,
                    path_steps(pathvec@) == ps,
                    safe == options.cast_options.safe,
                    options.as_type == Option::Some(TargetType::UInt64),
                    0 <= i <= n,
                    u64_builder_rows(b) == Seq::new(
                        i as nat,
                        |t: int| prim_row(opt_walk(rows[t], ps)),
                    ),
                    !safe ==> forall|t: int|
                        0 <= t < i ==> !(cast_u64(#[trigger] opt_walk(rows[t], ps)) is Mismatch),
                decreases n - i,
            {
                let ghost rowi = rows[i as int];
                proof {
                    assert(rowi == input.row(i as int));
                }
                if !input.validity[i] {
                    b.append_null();
                } else {
                    match crate::encoding::decode_at(&input.dict, &input.values[i], 0) {
                        None => {
                            proof {
                                if input.wf() {
                                    assert(input.row(i as int) is Some);
                                    assert(false);
                                }
                            }
                            return Err(GetError::Invalid);
                        },
                        Some(tree) => {
                            proof {
                                assert(rowi == Some(tree@));
                            }
                            match walk_tree(tree, pathvec, 0) {
                                None => {
                                    proof {
                                        assert(opt_walk(rowi, ps) is None);
                                    }
                                    b.append_null();
                                },
                                Some(w) => {
                                    proof {
                                        assert(opt_walk(rowi, ps) == Some(w@));
                                    }
                                    match w {
                                        VariantValue::Null => {
                                            b.append_null();
                                        },
                                        VariantValue::Int64(x) => {
                                            if x >= 0 {
                                                b.append_value(x as u64);
                                            } else {
                                                if safe {
                                                    b.append_null();
                                                } else {
                                                    proof {
                                                        assert(cast_u64(
                                                            opt_walk(rows[i as int], ps),
                                                        ) is Mismatch);
                                                        assert(exists|t: int|
                                                            0 <= t < rows.len() && cast_u64(
                                                                #[trigger] opt_walk(rows[t], ps),
                                                            ) is Mismatch);
                                                    }
                                                    return Err(GetError::Cast);
                                                }
                                            }
                                        },
                                        _ => {
                                            if safe {
                                                b.append_null();
                                            } else {
                                                proof {
                                                    assert(cast_u64(
                                                        opt_walk(rows[i as int], ps),
                                                    ) is Mismatch);
                                                    assert(exists|t: int|
                                                        0 <= t < rows.len() && cast_u64(
                                                            #[trigger] opt_walk(rows[t], ps),
                                                        ) is Mismatch);
                                                }
                                                return Err(GetError::Cast);
                                            }
                                        },
                                    }
                                },
                            }
                        },
                    }
                }
                i += 1;
                proof {
                    assert(u64_builder_rows(b) =~= Seq::new(
                        i as nat,
                        |t: int| prim_row(opt_walk(rows[t], ps)),
                    ));
                }
            }
            let out = b.finish();
            proof {
                if !safe {
                    assert(!(exists|t: int|
                        0 <= t < rows.len() && cast_u64(
                            #[trigger] opt_walk(rows[t], ps),
                        ) is Mismatch));
                }
                assert(u64_array_rows(out) =~= Seq::new(
                    rows.len(),
                    |t: int| prim_row(opt_walk(rows[t], ps)),
                ));
            }
            Ok(GetOutput::Primitive(out))
        },
        Option::Some(_) => Err(GetError::NotYetImplemented),
        Option::None => {
            let dictcopy = copy_dict(&input.dict);
            let mut vb = VariantArrayBuilder::from_dictionary(dictcopy);
            let ghost names = names_of(input.dict@);
            let mut i: usize = 0;
            while i < n
                invariant
                    input.values@.len() == input.validity@.len(),
                    input.dict@.len() <= 0xFFFF_FFFF,
                    n == input.spec_len(),
                    rows == input.rows(),
                    ps == options.path@,
                    path_steps(pathvec@) == ps,
                    options.as_type is None,
                    names == input.names(),
                    0 <= i <= n,
                    vb.inv(),
                    vb.names() == names,
                    vb.rows() == Seq::new(i as nat, |t: int| opt_walk(rows[t], ps)),
                    forall|t: int|
                        0 <= t < i ==> ((#[trigger] opt_walk(rows[t], ps)) is Some ==> enc_size(
                            opt_walk(rows[t], ps)->Some_0,
                        ) <= 0xFFFF_FFFF),
                decreases n - i,
            {
                let ghost rowi = rows[i as int];
                proof {
                    assert(rowi == input.row(i as int));
                }
                if !input.validity[i] {
                    vb.append_null();
                } else {
                    match crate::encoding::decode_at(&input.dict, &input.values[i], 0) {
                        None => {
                            proof {
                                if input.wf() {
                                    assert(input.row(i as int) is Some);
                                    assert(false);
                                }
                            }
                            return Err(GetError::Invalid);
                        },
                        Some(tree) => {
                            proof {
                                assert(rowi == Some(tree@));
                                crate::encoding::lemma_dec_names_in(
                                    names,
                                    input.values@[i as int]@,
                                    0,
                                );
                                assert(names_in(tree@, names));
                            }
                            match walk_tree(tree, pathvec, 0) {
                                None => {
                                    proof {
                                        assert(opt_walk(rowi, ps) is None);
                                    }
                                    vb.append_null();
                                },
                                Some(w) => {
                                    proof {
                                        assert(opt_walk(rowi, ps) == Some(w@));
                                        lemma_walk_names_in(tree@, ps, 0, names);
                                        assert(names_in(w@, names));
                                    }
                                    if !vb.append_variant(w) {
                                        proof {
                                            assert(enc_size(w@) > 0xFFFF_FFFF);
                                            assert(opt_walk(rows[i as int], ps) is Some
                                                && enc_size(
                                                opt_walk(rows[i as int], ps)->Some_0,
                                            ) > 0xFFFF_FFFF);
                                            assert(exists|t: int|
                                                0 <= t < rows.len() && (#[trigger] opt_walk(
                                                    rows[t],
                                                    ps,
                                                )) is Some && enc_size(
                                                    opt_walk(rows[t], ps)->Some_0,
                                                ) > 0xFFFF_FFFF);
                                        }
                                        return Err(GetError::TooLarge);
                                    }
                                },
                            }
                        },
                    }
                }
                i += 1;
                proof {
                    assert(vb.rows() =~= Seq::new(i as nat, |t: int| opt_walk(rows[t], ps)));
                }
            }
            let arr = vb.build();
            proof {
                assert(!(exists|t: int|
                    0 <= t < rows.len() && (#[trigger] opt_walk(rows[t], ps)) is Some && enc_size(
                        opt_walk(rows[t], ps)->Some_0,
                    ) > 0xFFFF_FFFF));
                assert(arr.rows() =~= Seq::new(rows.len(), |t: int| opt_walk(rows[t], ps)));
            }
            Ok(GetOutput::Variant(arr))
        },
    }
}

/// `walk` continued from accessor `i`, lifted over a nullable value.
pub open spec fn opt_walk_from(x: Option<Val>, path: Seq<PathStep>, i: int) -> Option<Val> {
    match x {
        None => None,
        Some(v) => walk(v, path, i),
    }
}

proof fn lemma_iter_mid(x: Option<Val>, path: Seq<PathStep>, j: int)
    requires
        0 <= j <= path.len(),
    ensures
        opt_walk_from(iter_walk(x, path, j), path, j) == opt_walk_from(x, path, 0),
    decreases j,
{
    if j > 0 {
        lemma_iter_mid(x, path, j - 1);
        match iter_walk(x, path, j - 1) {
            None => {},
            Some(v) => {
                assert(walk(v, path, j - 1) == match step(v, path[j - 1]) {
                    None => None,
                    Some(w) => walk(w, path, j),
                });
            },
        }
    }
}

/// The two traversal strategies agree: advancing a row one accessor at
/// a time through the whole path, as the vectorized strategy does,
/// reaches exactly the value that the row-wise recursive walk reaches.
pub proof fn lemma_strategy_equivalence(x: Option<Val>, path: Seq<PathStep>)
    ensures
        iter_walk(x, path, path.len() as int) == opt_walk(x, path),
{
    lemma_iter_mid(x, path, path.len() as int);
}

/// A row once dead stays dead: later accessors cannot revive it.
pub proof fn lemma_iter_none_persists(x: Option<Val>, path: Seq<PathStep>, j1: int, j2: int)
    requires
        iter_walk(x, path, j1) is None,
        0 <= j1 <= j2,
    ensures
        iter_walk(x, path, j2) is None,
    decreases j2 - j1,
{
    if j2 > j1 {
        lemma_iter_none_persists(x, path, j1, j2 - 1);
    }
}

/// Applies one accessor to the node at byte offset `off` of one row,
/// decoding only the node type and the entry table: the new offset, or
/// `None` for a path miss, or an error on bytes that are not a
/// well-formed encoding where it reads them.
fn step_row(dict: &Vec<String>, b: &Vec<u8>, off: usize, elem: &VariantPathElement) -> (r: Result<
    Option<usize>,
    GetError,
>)
    ensures
        match dec_val(names_of(dict@), b@, off as int) {
            Some(v) => match r {
                Result::Ok(Some(o2)) => step(v, elem@) is Some && off < o2 < b@.len() && dec_val(
                    names_of(dict@),
                    b@,
                    o2 as int,
                ) == Some(step(v, elem@)->Some_0),
                Result::Ok(None) => step(v, elem@) is None,
                Result::Err(_) => false,
            },
            None => true,
        },
{
    let ghost names = names_of(dict@);
    let ghost decd = dec_val(names, b@, off as int);
    let blen = b.len();
    if off >= blen {
        return Err(GetError::Invalid);
    }
    let tag = b[off];
    if tag > crate::encoding::TAG_OBJECT {
        return Err(GetError::Invalid);
    }
    match elem {
        VariantPathElement::Field { name } => {
            if tag != crate::encoding::TAG_OBJECT {
                return Ok(None);
            }
            if blen - off < 5 {
                return Err(GetError::Invalid);
            }
            let n32 = crate::encoding::read_u32(b, off + 1);
            let n = n32 as usize;
            if n > (blen - off - 5) / 8 {
                proof {
                    vstd::arithmetic::div_mod::lemma_fundamental_div_mod(
                        (blen - off - 5) as int,
                        8,
                    );
                }
                return Err(GetError::Invalid);
            }
            proof {
                vstd::arithmetic::div_mod::lemma_fundamental_div_mod((blen - off - 5) as int, 8);
                vstd::arithmetic::div_mod::lemma_mod_pos_bound((blen - off - 5) as int, 8);
                if decd is Some {
                    crate::encoding::lemma_obj_items_char(names, b@, off as int, n as int, 0);
                }
            }
            let ghost es = decd->Some_0->Object_0;
            let mut k: usize = 0;
            while k < n
                invariant
                    names == names_of(dict@),
                    blen == b@.len(),
                    off < blen,
                    off + 5 + 8 * n <= blen,
                    b@[off as int] == crate::encoding::TAG_OBJECT,
                    n == crate::encoding::le_at(b@, off as int + 1, 4),
                    0 <= k <= n,
                    decd == dec_val(names, b@, off as int),
                    elem@ == PathStep::Field(name@),
                    decd is Some ==> decd->Some_0 == Val::Object(es) && es.len() == n && (forall|
                        t: int,
                    |
                        0 <= t < k ==> (#[trigger] es[t]).0 != name@),
                decreases n - k,
            {
                proof {
                    if decd is Some {
                        crate::encoding::lemma_obj_items_char(names, b@, off as int, n as int, 0);
                        assert(crate::encoding::obj_entry_ok(names, b@, off as int, k as int));
                    }
                }
                let id32 = crate::encoding::read_u32(b, off + 5 + 8 * k);
                let id = id32 as usize;
                if id >= dict.len() {
                    proof {
                        if decd is Some {
                            assert(false);
                        }
                    }
                    return Err(GetError::Invalid);
                }
                if crate::encoding::str_eq(dict[id].as_str(), name.as_str()) {
                    let rel32 = crate::encoding::read_u32(b, off + 5 + 8 * k + 4);
                    let rel = rel32 as usize;
                    if rel < 1 || rel >= blen - off {
                        proof {
                            if decd is Some {
                                assert(false);
                            }
                        }
                        return Err(GetError::Invalid);
                    }
                    proof {
                        if decd is Some {
                            assert(es[k as int] == (
                            names[id as int],
                            dec_val(names, b@, off as int + rel)->Some_0,
                            ));
                            assert(es[k as int].0 == name@);
                            lemma_obj_get_scan(es, name@, k as int);
                            assert(obj_get(es, name@, 0) == Some(es[k as int].1));
                            assert(step(decd->Some_0, elem@) == Some(es[k as int].1));
                        }
                    }
                    return Ok(Some(off + rel));
                }
                proof {
                    if decd is Some {
                        assert(es[k as int].0 == names[id as int]);
                        assert(names[id as int] == dict@[id as int]@);
                    }
                }
                k += 1;
            }
            proof {
                if decd is Some {
                    lemma_obj_get_scan(es, name@, n as int);
                    assert(obj_get(es, name@, 0) is None);
                }
            }
            Ok(None)
        },
        VariantPathElement::Index { index } => {
            if tag != crate::encoding::TAG_LIST {
                return Ok(None);
            }
            if blen - off < 5 {
                return Err(GetError::Invalid);
            }
            let n32 = crate::encoding::read_u32(b, off + 1);
            let n = n32 as usize;
            if n > (blen - off - 5) / 4 {
                proof {
                    vstd::arithmetic::div_mod::lemma_fundamental_div_mod(
                        (blen - off - 5) as int,
                        4,
                    );
                }
                return Err(GetError::Invalid);
            }
            proof {
                vstd::arithmetic::div_mod::lemma_fundamental_div_mod((blen - off - 5) as int, 4);
                vstd::arithmetic::div_mod::lemma_mod_pos_bound((blen - off - 5) as int, 4);
                if decd is Some {
                    crate::encoding::lemma_list_items_char(names, b@, off as int, n as int, 0);
                }
            }
            if *index >= n {
                return Ok(None);
            }
            proof {
                if decd is Some {
                    assert(crate::encoding::list_entry_ok(names, b@, off as int, *index as int));
                }
            }
            let rel32 = crate::encoding::read_u32(b, off + 5 + 4 * *index);
            let rel = rel32 as usize;
            if rel < 1 || rel >= blen - off {
                proof {
                    if decd is Some {
                        assert(false);
                    }
                }
                return Err(GetError::Invalid);
            }
            proof {
                if decd is Some {
                    let items = decd->Some_0->List_0;
                    assert(items[*index as int] == dec_val(
                        names,
                        b@,
                        off as int + rel,
                    )->Some_0);
                    assert(step(decd->Some_0, elem@) == Some(items[*index as int]));
                }
            }
            Ok(Some(off + rel))
        },
    }
}

/// Decodes and casts the terminal node at `off` to the unsigned 64-bit
/// target, reading only the node type and, for an integer, its payload.
fn cast_at(dict: &Vec<String>, b: &Vec<u8>, off: usize) -> (r: Result<CastRes, GetError>)
    ensures
        match dec_val(names_of(dict@), b@, off as int) {
            Some(v) => r == Result::<CastRes, GetError>::Ok(cast_u64(Some(v))),
            None => true,
        },
{
    let blen = b.len();
    if off >= blen {
        return Err(GetError::Invalid);
    }
    let tag = b[off];
    if tag == crate::encoding::TAG_NULL {
        Ok(CastRes::AsNull)
    } else if tag == crate::encoding::TAG_FALSE || tag == crate::encoding::TAG_TRUE {
        Ok(CastRes::Mismatch)
    } else if tag == crate::encoding::TAG_INT64 {
        if blen - off < 9 {
            return Err(GetError::Invalid);
        }
        let u = crate::encoding::read_u64(b, off + 1);
        let x = crate::encoding::le64_to_signed(u);
        if x >= 0 {
            Ok(CastRes::AsValue(x as u64))
        } else {
            Ok(CastRes::Mismatch)
        }
    } else if tag == crate::encoding::TAG_LIST || tag == crate::encoding::TAG_OBJECT {
        Ok(CastRes::Mismatch)
    } else {
        Err(GetError::Invalid)
    }
}

/// Per-row state of the vectorized traversal after `j` accessors: the
/// alive flag tracks whether the row still resolves, and for an alive
/// row the byte offset points at the encoding of the value reached.
pub open spec fn vec_state_ok(
    rows: Seq<Option<Val>>,
    ps: Seq<PathStep>,
    names: Seq<Seq<char>>,
    values: Seq<Vec<u8>>,
    offsets: Seq<usize>,
    alive: Seq<bool>,
    j: int,
    t: int,
) -> bool {
    &&& alive[t] == (iter_walk(rows[t], ps, j) is Some)
    &&& (alive[t] ==> dec_val(names, values[t]@, offsets[t] as int) == Some(
        iter_walk(rows[t], ps, j)->Some_0,
    ))
}

/// Returns an array with the specified path extracted from the variant
/// values.  This is the vectorized strategy: one pass over the column
/// per path segment, advancing a byte offset and an alive flag per row,
/// decoding no more of a row than the next step needs; the last
/// accessor is resolved together with the terminal decode or cast.
pub fn variant_get(input: &VariantArray, options: GetOptions) -> (r: Result<GetOutput, GetError>)
    ensures
        input.wf() ==> match (
            r,
            spec_get(input.rows(), options.path@, options.as_type, options.cast_options.safe),
        ) {
            (Result::Ok(out), Result::Ok(m)) => out_matches(out, m),
            (Result::Err(e), Result::Err(me)) => e == me,
            _ => false,
        },
{
    let n = input.validity.len();
    if input.values.len() != input.validity.len() || input.dict.len() > 0xFFFF_FFFFusize {
        return Err(GetError::Invalid);
    }
    let prim = match options.as_type {
        Option::Some(TargetType::UInt64) => true,
        Option::Some(_) => {
            return Err(GetError::NotYetImplemented);
        },
        Option::None => false,
    };
    let safe = options.cast_options.safe;
    let pathvec = options.path.path();
    let ghost ps = options.path@;
    let ghost rows = input.rows();
    let ghost names = names_of(input.dict@);
    proof {
        assert(path_steps(pathvec@) =~= ps);
        assert(rows.len() == n);
    }
    let k_total = pathvec.len();
    let steps = if k_total == 0 {
        0
    } else {
        k_total - 1
    };
    let mut offsets: Vec<usize> = Vec::new();
    let mut alive: Vec<bool> = Vec::new();
    let mut i0: usize = 0;
    while i0 < n
        invariant
            input.values@.len() == input.validity@.len(),
            n == input.spec_len(),
            0 <= i0 <= n,
            offsets@.len() == i0,
            alive@.len() == i0,
            forall|t: int| 0 <= t < i0 ==> #[trigger] (offsets@[t] as int) == 0,
            forall|t: int| 0 <= t < i0 ==> #[trigger] alive@[t] == input.valid_at(t),
        decreases n - i0,
    {
        offsets.push(0);
        alive.push(!input.is_null(i0));
        i0 += 1;
    }
    proof {
        if input.wf() {
            assert forall|t: int| 0 <= t < n implies vec_state_ok(
                rows,
                ps,
                names,
                input.values@,
                offsets@,
                alive@,
                0,
                t,
            ) by {
                assert(rows[t] == input.row(t));
                assert(iter_walk(rows[t], ps, 0) == rows[t]);
            }
        }
    }
    let mut j: usize = 0;
    while j < steps
        invariant
            input.values@.len() == input.validity@.len(),
            input.dict@.len() <= 0xFFFF_FFFF,
            n == input.spec_len(),
            rows == input.rows(),
            ps == options.path@,
            path_steps(pathvec@) == ps,
            names == names_of(input.dict@),
            k_total == pathvec@.len(),
            steps == if k_total == 0 { 0int } else { k_total - 1 },
            0 <= j <= steps,
            offsets@.len() == n,
            alive@.len() == n,
            input.wf() ==> forall|t: int|
                0 <= t < n ==> #[trigger] vec_state_ok(
                    rows,
                    ps,
                    names,
                    input.values@,
                    offsets@,
                    alive@,
                    j as int,
                    t,
                ),
        decreases steps - j,
    {
        let elem = &pathvec[j];
        let mut i: usize = 0;
        while i < n
            invariant
                input.values@.len() == input.validity@.len(),
                input.dict@.len() <= 0xFFFF_FFFF,
                n == input.spec_len(),
                rows == input.rows(),
                ps == options.path@,
                path_steps(pathvec@) == ps,
                names == names_of(input.dict@),
                k_total == pathvec@.len(),
                0 <= j < k_total,
                elem@ == ps[j as int],
                0 <= i <= n,
                offsets@.len() == n,
                alive@.len() == n,
                input.wf() ==> forall|t: int|
                    0 <= t < i ==> #[trigger] vec_state_ok(
                        rows,
                        ps,
                        names,
                        input.values@,
                        offsets@,
                        alive@,
                        j as int + 1,
                        t,
                    ),
                input.wf() ==> forall|t: int|
                    i <= t < n ==> #[trigger] vec_state_ok(
                        rows,
                        ps,
                        names,
                        input.values@,
                        offsets@,
                        alive@,
                        j as int,
                        t,
                    ),
            decreases n - i,
        {
            let ghost offs0 = offsets@;
            let ghost alive0 = alive@;
            let ghost cur = iter_walk(rows[i as int], ps, j as int);
            proof {
                if input.wf() {
                    assert(vec_state_ok(
                        rows,
                        ps,
                        names,
                        input.values@,
                        offs0,
                        alive0,
                        j as int,
                        i as int,
                    ));
                }
            }
            if alive[i] {
                match step_row(&input.dict, &input.values[i], offsets[i], elem) {
                    Result::Err(_) => {
                        proof {
                            if input.wf() {
                                assert(false);
                            }
                        }
                        return Err(GetError::Invalid);
                    },
                    Result::Ok(None) => {
                        alive[i] = false;
                        proof {
                            if input.wf() {
                                assert(iter_walk(rows[i as int], ps, j as int + 1) is None);
                                assert(vec_state_ok(
                                    rows,
                                    ps,
                                    names,
                                    input.values@,
                                    offsets@,
                                    alive@,
                                    j as int + 1,
                                    i as int,
                                ));
                            }
                        }
                    },
                    Result::Ok(Some(o2)) => {
                        offsets[i] = o2;
                        proof {
                            if input.wf() {
                                assert(iter_walk(rows[i as int], ps, j as int + 1) == step(
                                    cur->Some_0,
                                    ps[j as int],
                                ));
                                assert(vec_state_ok(
                                    rows,
                                    ps,
                                    names,
                                    input.values@,
                                    offsets@,
                                    alive@,
                                    j as int + 1,
                                    i as int,
                                ));
                            }
                        }
                    },
                }
            } else {
                proof {
                    if input.wf() {
                        lemma_iter_none_persists(rows[i as int], ps, j as int, j as int + 1);
                        assert(vec_state_ok(
                            rows,
                            ps,
                            names,
                            input.values@,
                            offsets@,
                            alive@,
                            j as int + 1,
                            i as int,
                        ));
                    }
                }
            }
            i += 1;
            proof {
                if input.wf() {
                    assert forall|t: int| 0 <= t < i implies #[trigger] vec_state_ok(
                        rows,
                        ps,
                        names,
                        input.values@,
                        offsets@,
                        alive@,
                        j as int + 1,
                        t,
                    ) by {
                        if t < i - 1 {
                            assert(vec_state_ok(
                                rows,
                                ps,
                                names,
                                input.values@,
                                offs0,
                                alive0,
                                j as int + 1,
                                t,
                            ));
                            assert(offsets@[t] == offs0[t]);
                            assert(alive@[t] == alive0[t]);
                        }
                    }
                    assert forall|t: int| i <= t < n implies #[trigger] vec_state_ok(
                        rows,
                        ps,
                        names,
                        input.values@,
                        offsets@,
                        alive@,
                        j as int,
                        t,
                    ) by {
                        assert(vec_state_ok(
                            rows,
                            ps,
                            names,
                            input.values@,
                            offs0,
                            alive0,
                            j as int,
                            t,
                        ));
                        assert(offsets@[t] == offs0[t]);
                        assert(alive@[t] == alive0[t]);
                    }
                }
            }
        }
        j += 1;
    }
    // terminal materialization: the last accessor, if any, is resolved
    // here, joined with the decode or cast of each surviving row.
    if prim {
        let mut b = U64Builder::new();
        let mut i: usize = 0;
        while i < n
            invariant
                input.values@.len() == input.validity@.len(),
                input.dict@.len() <= 0xFFFF_FFFF,
                n == input.spec_len(),
                rows == input.rows(),
                ps == options.path@,
                path_steps(pathvec@) == ps,
                names == names_of(input.dict@),
                k_total == pathvec@.len(),
                steps == if k_total == 0 { 0int } else { k_total - 1 },
                safe == options.cast_options.safe,
                options.as_type == Option::Some(TargetType::UInt64),
                0 <= i <= n,
                offsets@.len() == n,
                alive@.len() == n,
                input.wf() ==> forall|t: int|
                    0 <= t < n ==> #[trigger] vec_state_ok(
                        rows,
                        ps,
                        names,
                        input.values@,
                        offsets@,
                        alive@,
                        steps as int,
                        t,
                    ),
                u64_builder_rows(b) == Seq::new(
                    i as nat,
                    |t: int| prim_row(opt_walk(rows[t], ps)),
                ) || !input.wf(),
                input.wf() && !safe ==> forall|t: int|
                    0 <= t < i ==> !(cast_u64(#[trigger] opt_walk(rows[t], ps)) is Mismatch),
            decreases n - i,
        {
            let ghost cur = iter_walk(rows[i as int], ps, steps as int);
            let ghost fin = iter_walk(rows[i as int], ps, k_total as int);
            proof {
                lemma_strategy_equivalence(rows[i as int], ps);
                assert(fin == opt_walk(rows[i as int], ps));
            }
            if !alive[i] {
                proof {
                    if input.wf() {
                        assert(vec_state_ok(
                            rows,
                            ps,
                            names,
                            input.values@,
                            offsets@,
                            alive@,
                            steps as int,
                            i as int,
                        ));
                        lemma_iter_none_persists(
                            rows[i as int],
                            ps,
                            steps as int,
                            k_total as int,
                        );
                        assert(prim_row(opt_walk(rows[i as int], ps)) is None);
                    }
                }
                b.append_null();
            } else {
                proof {
                    if input.wf() {
                        assert(vec_state_ok(
                            rows,
                            ps,
                            names,
                            input.values@,
                            offsets@,
                            alive@,
                            steps as int,
                            i as int,
                        ));
                    }
                }
                let mut live = true;
                let mut coff = offsets[i];
                if k_total > 0 {
                    match step_row(
                        &input.dict,
                        &input.values[i],
                        coff,
                        &pathvec[k_total - 1],
                    ) {
                        Result::Err(_) => {
                            proof {
                                if input.wf() {
                                    assert(false);
                                }
                            }
                            return Err(GetError::Invalid);
                        },
                        Result::Ok(None) => {
                            live = false;
                            proof {
                                if input.wf() {
                                    assert(fin is None);
                                }
                            }
                        },
                        Result::Ok(Some(o2)) => {
                            coff = o2;
                            proof {
                                if input.wf() {
                                    assert(fin == Some(
                                        step(cur->Some_0, ps[k_total - 1])->Some_0,
                                    ));
                                    assert(dec_val(names, input.values@[i as int]@, o2 as int)
                                        == Some(fin->Some_0));
                                }
                            }
                        },
                    }
                }
                if !live {
                    b.append_null();
                } else {
                    match cast_at(&input.dict, &input.values[i], coff) {
                        Result::Err(_) => {
                            proof {
                                if input.wf() {
                                    assert(false);
                                }
                            }
                            return Err(GetError::Invalid);
                        },
                        Result::Ok(cr) => {
                            proof {
                                if input.wf() {
                                    assert(cr == cast_u64(fin));
                                }
                            }
                            match cr {
                                CastRes::AsNull => {
                                    b.append_null();
                                },
                                CastRes::AsValue(u) => {
                                    b.append_value(u);
                                },
                                CastRes::Mismatch => {
                                    if safe {
                                        b.append_null();
                                    } else {
                                        proof {
                                            if input.wf() {
                                                assert(cast_u64(
                                                    opt_walk(rows[i as int], ps),
                                                ) is Mismatch);
                                                assert(exists|t: int|
                                                    0 <= t < rows.len() && cast_u64(
                                                        #[trigger] opt_walk(rows[t], ps),
                                                    ) is Mismatch);
                                            }
                                        }
                                        return Err(GetError::Cast);
                                    }
                                },
                            }
                        },
                    }
                }
            }
            i += 1;
            proof {
                if input.wf() {
                    assert(u64_builder_rows(b) =~= Seq::new(
                        i as nat,
                        |t: int| prim_row(opt_walk(rows[t], ps)),
                    ));
                }
            }
        }
        let out = b.finish();
        proof {
            if input.wf() {
                if !safe {
                    assert(!(exists|t: int|
                        0 <= t < rows.len() && cast_u64(
                            #[trigger] opt_walk(rows[t], ps),
                        ) is Mismatch));
                }
                assert(u64_array_rows(out) =~= Seq::new(
                    rows.len(),
                    |t: int| prim_row(opt_walk(rows[t], ps)),
                ));
            }
        }
        Ok(GetOutput::Primitive(out))
    } else {
        let dictcopy = copy_dict(&input.dict);
        let mut vb = VariantArrayBuilder::from_dictionary(dictcopy);
        let mut i: usize = 0;
        while i < n
            invariant
                input.values@.len() == input.validity@.len(),
                input.dict@.len() <= 0xFFFF_FFFF,
                n == input.spec_len(),
                rows == input.rows(),
                ps == options.path@,
                path_steps(pathvec@) == ps,
                names == names_of(input.dict@),
                k_total == pathvec@.len(),
                steps == if k_total == 0 { 0int } else { k_total - 1 },
                options.as_type is None,
                0 <= i <= n,
                offsets@.len() == n,
                alive@.len() == n,
                vb.inv(),
                vb.names() == names,
                input.wf() ==> forall|t: int|
                    0 <= t < n ==> #[trigger] vec_state_ok(
                        rows,
                        ps,
                        names,
                        input.values@,
                        offsets@,
                        alive@,
                        steps as int,
                        t,
                    ),
                input.wf() ==> vb.rows() == Seq::new(
                    i as nat,
                    |t: int| opt_walk(rows[t], ps),
                ),
                input.wf() ==> forall|t: int|
                    0 <= t < i ==> ((#[trigger] opt_walk(rows[t], ps)) is Some ==> enc_size(
                        opt_walk(rows[t], ps)->Some_0,
                    ) <= 0xFFFF_FFFF),
            decreases n - i,
        {
            let ghost cur = iter_walk(rows[i as int], ps, steps as int);
            let ghost fin = iter_walk(rows[i as int], ps, k_total as int);
            proof {
                lemma_strategy_equivalence(rows[i as int], ps);
                assert(fin == opt_walk(rows[i as int], ps));
            }
            if !alive[i] {
                proof {
                    if input.wf() {
                        assert(vec_state_ok(
                            rows,
                            ps,
                            names,
                            input.values@,
                            offsets@,
                            alive@,
                            steps as int,
                            i as int,
                        ));
                        lemma_iter_none_persists(
                            rows[i as int],
                            ps,
                            steps as int,
                            k_total as int,
                        );
                    }
                }
                vb.append_null();
            } else {
                proof {
                    if input.wf() {
                        assert(vec_state_ok(
                            rows,
                            ps,
                            names,
                            input.values@,
                            offsets@,
                            alive@,
                            steps as int,
                            i as int,
                        ));
                    }
                }
                let mut live = true;
                let mut coff = offsets[i];
                if k_total > 0 {
                    match step_row(
                        &input.dict,
                        &input.values[i],
                        coff,
                        &pathvec[k_total - 1],
                    ) {
                        Result::Err(_) => {
                            proof {
                                if input.wf() {
                                    assert(false);
                                }
                            }
                            return Err(GetError::Invalid);
                        },
                        Result::Ok(None) => {
                            live = false;
                            proof {
                                if input.wf() {
                                    assert(fin is None);
                                }
                            }
                        },
                        Result::Ok(Some(o2)) => {
                            coff = o2;
                            proof {
                                if input.wf() {
                                    assert(dec_val(names, input.values@[i as int]@, o2 as int)
                                        == Some(fin->Some_0));
                                }
                            }
                        },
                    }
                }
                if !live {
                    vb.append_null();
                } else {
                    match crate::encoding::decode_at(&input.dict, &input.values[i], coff) {
                        None => {
                            proof {
                                if input.wf() {
                                    assert(false);
                                }
                            }
                            return Err(GetError::Invalid);
                        },
                        Some(tree) => {
                            proof {
                                if input.wf() {
                                    assert(fin == Some(tree@));
                                }
                                crate::encoding::lemma_dec_names_in(
                                    names,
                                    input.values@[i as int]@,
                                    coff as int,
                                );
                            }
                            if !vb.append_variant(tree) {
                                proof {
                                    if input.wf() {
                                        assert(enc_size(tree@) > 0xFFFF_FFFF);
                                        assert(opt_walk(rows[i as int], ps) is Some && enc_size(
                                            opt_walk(rows[i as int], ps)->Some_0,
                                        ) > 0xFFFF_FFFF);
                                        assert(exists|t: int|
                                            0 <= t < rows.len() && (#[trigger] opt_walk(
                                                rows[t],
                                                ps,
                                            )) is Some && enc_size(
                                                opt_walk(rows[t], ps)->Some_0,
                                            ) > 0xFFFF_FFFF);
                                    }
                                }
                                return Err(GetError::TooLarge);
                            }
                        },
                    }
                }
            }
            i += 1;
            proof {
                if input.wf() {
                    assert(vb.rows() =~= Seq::new(i as nat, |t: int| opt_walk(rows[t], ps)));
                }
            }
        }
        let arr = vb.build();
        proof {
            if input.wf() {
                assert(!(exists|t: int|
                    0 <= t < rows.len() && (#[trigger] opt_walk(rows[t], ps)) is Some && enc_size(
                        opt_walk(rows[t], ps)->Some_0,
                    ) > 0xFFFF_FFFF));
                assert(arr.rows() =~= Seq::new(rows.len(), |t: int| opt_walk(rows[t], ps)));
            }
        }
        Ok(GetOutput::Variant(arr))
    }
}

} // verus!
