//! The variant byte codec.
//!
//! A value blob encodes one variant value.  The first byte is a tag; lists
//! and objects carry a little-endian entry count and a table of byte
//! offsets, relative to the start of the node, at which each child node
//! begins.  Object entries also carry the index of the field name in the
//! column's dictionary.  Children are laid out after the table, so a child
//! node is itself a contiguous encoding inside the parent's bytes.
//!
//! Layout, with all counts and offsets as 4-byte little-endian integers:
//!   null              [0]
//!   false             [1]
//!   true              [2]
//!   int64             [3] [value: 8 bytes little endian, two's complement]
//!   list of n         [4] [n] [rel_0] .. [rel_n-1] children...
//!   object of n       [5] [n] [id_0] [rel_0] .. [id_n-1] [rel_n-1] children...

use crate::value::Val;
use crate::value::VariantValue;
use crate::value::list_view;
use crate::value::obj_view;
use crate::value::lemma_list_view;
use crate::value::lemma_obj_view;
use vstd::prelude::*;
use vstd::string::StringSliceAdditionalSpecFns;

verus! {

broadcast use vstd::std_specs::vec::axiom_vec_index_decreases, vstd::seq::group_seq_axioms;

pub const TAG_NULL: u8 = 0;

pub const TAG_FALSE: u8 = 1;

pub const TAG_TRUE: u8 = 2;

pub const TAG_INT64: u8 = 3;

pub const TAG_LIST: u8 = 4;

pub const TAG_OBJECT: u8 = 5;

/// The little-endian integer held by `n` bytes of `b` starting at `off`.
pub open spec fn le_at(b: Seq<u8>, off: int, n: nat) -> int
    decreases n,
{
    if n == 0 {
        0
    } else {
        b[off] + 0x100 * le_at(b, off + 1, (n - 1) as nat)
    }
}

/// The `n` little-endian bytes of the integer `x`.
pub open spec fn le_bytes(x: int, n: nat) -> Seq<u8>
    decreases n,
{
    if n == 0 {
        Seq::empty()
    } else {
        seq![(x % 0x100) as u8] + le_bytes(x / 0x100, (n - 1) as nat)
    }
}

/// The signed value of the 8-byte little-endian integer `u`.
pub open spec fn as_signed64(u: int) -> int {
    if u < 0x8000_0000_0000_0000 {
        u
    } else {
        u - 0x1_0000_0000_0000_0000
    }
}

pub proof fn lemma_le_bytes_len(x: int, n: nat)
    ensures
        le_bytes(x, n).len() == n,
    decreases n,
{
    if n > 0 {
        lemma_le_bytes_len(x / 0x100, (n - 1) as nat);
    }
}

/// Reading back `le_bytes` gives the integer written.
pub proof fn lemma_le_roundtrip(b: Seq<u8>, off: int, x: int, n: nat)
    requires
        0 <= x < vstd::arithmetic::power::pow(0x100, n as nat),
        0 <= off,
        off + n <= b.len(),
        forall|j: int| 0 <= j < n ==> #[trigger] b[off + j] == le_bytes(x, n)[j],
    ensures
        le_at(b, off, n) == x,
    decreases n,
{
    lemma_le_bytes_len(x, n);
    if n == 0 {
        vstd::arithmetic::power::lemma_pow0(0x100);
    } else {
        let m = (n - 1) as nat;
        lemma_le_bytes_len(x / 0x100, m);
        vstd::arithmetic::div_mod::lemma_fundamental_div_mod(x, 0x100);
        vstd::arithmetic::div_mod::lemma_mod_pos_bound(x, 0x100);
        vstd::arithmetic::div_mod::lemma_div_pos_is_pos(x, 0x100);
        assert(vstd::arithmetic::power::pow(0x100, n) == 0x100
            * vstd::arithmetic::power::pow(0x100, m)) by {
            vstd::arithmetic::power::lemma_pow_adds(0x100, 1, m);
            vstd::arithmetic::power::lemma_pow1(0x100);
        }
        assert(x / 0x100 < vstd::arithmetic::power::pow(0x100, m)) by {
            vstd::arithmetic::div_mod::lemma_multiply_divide_lt(
                x,
                0x100,
                vstd::arithmetic::power::pow(0x100, m),
            );
        }
        assert(b[off + 0] == le_bytes(x, n)[0]);
        assert(b[off] == (x % 0x100) as u8);
        assert forall|j: int| 0 <= j < m implies #[trigger] b[(off + 1) + j] == le_bytes(
            x / 0x100,
            m,
        )[j] by {
            let jj = 1 + j;
            assert(b[off + jj] == le_bytes(x, n)[jj]);
            assert(b[(off + 1) + j] == b[off + jj]);
            assert(le_bytes(x, n) == seq![(x % 0x100) as u8] + le_bytes(x / 0x100, m));
            assert((seq![(x % 0x100) as u8] + le_bytes(x / 0x100, m))[jj] == le_bytes(
                x / 0x100,
                m,
            )[j]);
        }
        lemma_le_roundtrip(b, off + 1, x / 0x100, m);
    }
}

/// The value decoded from `b` at byte offset `off`, given the dictionary
/// of field names, or `None` where the bytes there are not a well-formed
/// encoding.
pub open spec fn dec_val(dict: Seq<Seq<char>>, b: Seq<u8>, off: int) -> Option<Val>
    decreases b.len() - off, 1int, 0int,
{
    if off < 0 || off >= b.len() {
        None
    } else if b[off] == TAG_NULL {
        Some(Val::Null)
    } else if b[off] == TAG_FALSE {
        Some(Val::Bool(false))
    } else if b[off] == TAG_TRUE {
        Some(Val::Bool(true))
    } else if b[off] == TAG_INT64 {
        if off + 9 <= b.len() {
            Some(Val::Int64(as_signed64(le_at(b, off + 1, 8))))
        } else {
            None
        }
    } else if b[off] == TAG_LIST {
        if off + 5 <= b.len() && off + 5 + 4 * le_at(b, off + 1, 4) <= b.len() {
            match dec_list_items(dict, b, off, le_at(b, off + 1, 4), 0) {
                Some(items) => Some(Val::List(items)),
                None => None,
            }
        } else {
            None
        }
    } else if b[off] == TAG_OBJECT {
        if off + 5 <= b.len() && off + 5 + 8 * le_at(b, off + 1, 4) <= b.len() {
            match dec_obj_items(dict, b, off, le_at(b, off + 1, 4), 0) {
                Some(fields) => Some(Val::Object(fields)),
                None => None,
            }
        } else {
            None
        }
    } else {
        None
    }
}

/// The decoded elements `k ..` of the list node at `off`, which holds `n`
/// elements in all.
pub open spec fn dec_list_items(
    dict: Seq<Seq<char>>,
    b: Seq<u8>,
    off: int,
    n: int,
    k: int,
) -> Option<Seq<Val>>
    decreases b.len() - off, 0int, n - k,
{
    if k >= n {
        Some(Seq::empty())
    } else {
        let rel = le_at(b, off + 5 + 4 * k, 4);
        if rel < 1 || off + rel >= b.len() {
            None
        } else {
            match dec_val(dict, b, off + rel) {
                None => None,
                Some(v) => match dec_list_items(dict, b, off, n, k + 1) {
                    None => None,
                    Some(rest) => Some(seq![v] + rest),
                },
            }
        }
    }
}

/// The decoded fields `k ..` of the object node at `off`, which holds `n`
/// fields in all.
pub open spec fn dec_obj_items(
    dict: Seq<Seq<char>>,
    b: Seq<u8>,
    off: int,
    n: int,
    k: int,
) -> Option<Seq<(Seq<char>, Val)>>
    decreases b.len() - off, 0int, n - k,
{
    if k >= n {
        Some(Seq::empty())
    } else {
        let id = le_at(b, off + 5 + 8 * k, 4);
        let rel = le_at(b, off + 5 + 8 * k + 4, 4);
        if rel < 1 || off + rel >= b.len() || id < 0 || id >= dict.len() {
            None
        } else {
            match dec_val(dict, b, off + rel) {
                None => None,
                Some(v) => match dec_obj_items(dict, b, off, n, k + 1) {
                    None => None,
                    Some(rest) => Some(seq![(dict[id], v)] + rest),
                },
            }
        }
    }
}

/// `le_at` reads the same integer from two buffers that agree on the
/// window it reads.
pub proof fn lemma_le_at_agree(b1: Seq<u8>, b2: Seq<u8>, off1: int, off2: int, n: nat)
    requires
        forall|j: int| 0 <= j < n ==> #[trigger] b2[off2 + j] == b1[off1 + j],
    ensures
        le_at(b2, off2, n) == le_at(b1, off1, n),
    decreases n,
{
    if n > 0 {
        assert(b2[off2 + 0] == b1[off1 + 0]);
        assert forall|j: int| 0 <= j < n - 1 implies #[trigger] b2[(off2 + 1) + j] == b1[(off1 + 1)
            + j] by {
            let jj = j + 1;
            assert(b2[off2 + jj] == b1[off1 + jj]);
        }
        lemma_le_at_agree(b1, b2, off1 + 1, off2 + 1, (n - 1) as nat);
    }
}

/// Decoding is insensitive to the bytes outside the window it reads: a
/// well-formed node keeps its value when its bytes stand at another
/// position of another buffer.
pub proof fn lemma_dec_val_agree(dict: Seq<Seq<char>>, b1: Seq<u8>, b2: Seq<u8>, off1: int, off2: int)
    requires
        dec_val(dict, b1, off1) is Some,
        0 <= off1,
        0 <= off2,
        b2.len() - off2 >= b1.len() - off1,
        forall|j: int| 0 <= j < b1.len() - off1 ==> #[trigger] b2[off2 + j] == b1[off1 + j],
    ensures
        dec_val(dict, b2, off2) == dec_val(dict, b1, off1),
    decreases b1.len() - off1, 1int, 0int,
{
    assert(b2[off2 + 0] == b1[off1 + 0]);
    let tag = b1[off1];
    if tag == TAG_INT64 {
        assert forall|j: int| 0 <= j < 8 implies #[trigger] b2[(off2 + 1) + j] == b1[(off1 + 1)
            + j] by {
            let jj = j + 1;
            assert(b2[off2 + jj] == b1[off1 + jj]);
        }
        lemma_le_at_agree(b1, b2, off1 + 1, off2 + 1, 8);
    } else if tag == TAG_LIST || tag == TAG_OBJECT {
        assert forall|j: int| 0 <= j < 4 implies #[trigger] b2[(off2 + 1) + j] == b1[(off1 + 1)
            + j] by {
            let jj = j + 1;
            assert(b2[off2 + jj] == b1[off1 + jj]);
        }
        lemma_le_at_agree(b1, b2, off1 + 1, off2 + 1, 4);
        let n = le_at(b1, off1 + 1, 4);
        if tag == TAG_LIST {
            lemma_dec_list_items_agree(dict, b1, b2, off1, off2, n, 0);
        } else {
            lemma_dec_obj_items_agree(dict, b1, b2, off1, off2, n, 0);
        }
    }
}

pub proof fn lemma_dec_list_items_agree(
    dict: Seq<Seq<char>>,
    b1: Seq<u8>,
    b2: Seq<u8>,
    off1: int,
    off2: int,
    n: int,
    k: int,
)
    requires
        dec_list_items(dict, b1, off1, n, k) is Some,
        0 <= off1,
        0 <= off2,
        0 <= k,
        off1 + 5 + 4 * n <= b1.len(),
        b2.len() - off2 >= b1.len() - off1,
        forall|j: int| 0 <= j < b1.len() - off1 ==> #[trigger] b2[off2 + j] == b1[off1 + j],
    ensures
        dec_list_items(dict, b2, off2, n, k) == dec_list_items(dict, b1, off1, n, k),
    decreases b1.len() - off1, 0int, n - k,
{
    if k < n {
        assert forall|j: int| 0 <= j < 4 implies #[trigger] b2[(off2 + 5 + 4 * k) + j] == b1[(off1
            + 5 + 4 * k) + j] by {
            let jj = 5 + 4 * k + j;
            assert(b2[off2 + jj] == b1[off1 + jj]);
        }
        lemma_le_at_agree(b1, b2, off1 + 5 + 4 * k, off2 + 5 + 4 * k, 4);
        let rel = le_at(b1, off1 + 5 + 4 * k, 4);
        assert forall|j: int| 0 <= j < b1.len() - (off1 + rel) implies #[trigger] b2[(off2 + rel)
            + j] == b1[(off1 + rel) + j] by {
            let jj = rel + j;
            assert(b2[off2 + jj] == b1[off1 + jj]);
        }
        lemma_dec_val_agree(dict, b1, b2, off1 + rel, off2 + rel);
        lemma_dec_list_items_agree(dict, b1, b2, off1, off2, n, k + 1);
    }
}

pub proof fn lemma_dec_obj_items_agree(
    dict: Seq<Seq<char>>,
    b1: Seq<u8>,
    b2: Seq<u8>,
    off1: int,
    off2: int,
    n: int,
    k: int,
)
    requires
        dec_obj_items(dict, b1, off1, n, k) is Some,
        0 <= off1,
        0 <= off2,
        0 <= k,
        off1 + 5 + 8 * n <= b1.len(),
        b2.len() - off2 >= b1.len() - off1,
        forall|j: int| 0 <= j < b1.len() - off1 ==> #[trigger] b2[off2 + j] == b1[off1 + j],
    ensures
        dec_obj_items(dict, b2, off2, n, k) == dec_obj_items(dict, b1, off1, n, k),
    decreases b1.len() - off1, 0int, n - k,
{
    if k < n {
        assert forall|j: int| 0 <= j < 8 implies #[trigger] b2[(off2 + 5 + 8 * k) + j] == b1[(off1
            + 5 + 8 * k) + j] by {
            let jj = 5 + 8 * k + j;
            assert(b2[off2 + jj] == b1[off1 + jj]);
        }
        lemma_le_at_agree(b1, b2, off1 + 5 + 8 * k, off2 + 5 + 8 * k, 4);
        assert forall|j: int| 0 <= j < 4 implies #[trigger] b2[(off2 + 5 + 8 * k + 4) + j] == b1[(
        off1 + 5 + 8 * k + 4) + j] by {
            let jj = 5 + 8 * k + 4 + j;
            assert(b2[off2 + jj] == b1[off1 + jj]);
        }
        lemma_le_at_agree(b1, b2, off1 + 5 + 8 * k + 4, off2 + 5 + 8 * k + 4, 4);
        let rel = le_at(b1, off1 + 5 + 8 * k + 4, 4);
        assert forall|j: int| 0 <= j < b1.len() - (off1 + rel) implies #[trigger] b2[(off2 + rel)
            + j] == b1[(off1 + rel) + j] by {
            let jj = rel + j;
            assert(b2[off2 + jj] == b1[off1 + jj]);
        }
        lemma_dec_val_agree(dict, b1, b2, off1 + rel, off2 + rel);
        lemma_dec_obj_items_agree(dict, b1, b2, off1, off2, n, k + 1);
    }
}

/// The field names of a dictionary, as character sequences.
pub open spec fn names_of(dict: Seq<String>) -> Seq<Seq<char>> {
    Seq::new(dict.len(), |i: int| dict[i]@)
}

/// The byte length of the encoding of `v`.
pub open spec fn enc_size(v: Val) -> int
    decreases v, 0int, 0int,
{
    match v {
        Val::Null => 1,
        Val::Bool(_) => 1,
        Val::Int64(_) => 9,
        Val::List(items) => 5 + 4 * items.len() + enc_size_items(items, 0),
        Val::Object(fields) => 5 + 8 * fields.len() + enc_size_fields(fields, 0),
    }
}

pub open spec fn enc_size_items(items: Seq<Val>, k: int) -> int
    decreases items, 1int, items.len() - k,
{
    if k < 0 || k >= items.len() {
        0
    } else {
        enc_size(items[k]) + enc_size_items(items, k + 1)
    }
}

pub open spec fn enc_size_fields(fields: Seq<(Seq<char>, Val)>, k: int) -> int
    decreases fields, 1int, fields.len() - k,
{
    if k < 0 || k >= fields.len() {
        0
    } else {
        enc_size(fields[k].1) + enc_size_fields(fields, k + 1)
    }
}

/// Every encoding is at least one byte.
pub proof fn lemma_enc_size_pos(v: Val)
    ensures
        enc_size(v) >= 1,
    decreases v, 0int, 0int,
{
    match v {
        Val::List(items) => {
            lemma_enc_size_items_pos(items, 0);
        },
        Val::Object(fields) => {
            lemma_enc_size_fields_pos(fields, 0);
        },
        _ => {},
    }
}

pub proof fn lemma_enc_size_items_pos(items: Seq<Val>, k: int)
    requires
        0 <= k,
    ensures
        enc_size_items(items, k) >= 0,
        forall|j: int| k <= j ==> enc_size_items(items, k) >= #[trigger] enc_size_items(items, j),
    decreases items, 1int, items.len() - k,
{
    if 0 <= k < items.len() {
        lemma_enc_size_pos(items[k]);
        lemma_enc_size_items_pos(items, k + 1);
        assert forall|j: int| k <= j implies enc_size_items(items, k) >= #[trigger] enc_size_items(
            items,
            j,
        ) by {
            if j == k {
            } else if j > items.len() {
                assert(enc_size_items(items, j) == 0);
            }
        }
    } else {
        assert forall|j: int| k <= j implies enc_size_items(items, k) >= #[trigger] enc_size_items(
            items,
            j,
        ) by {
            assert(enc_size_items(items, j) == 0);
        }
    }
}

pub proof fn lemma_enc_size_fields_pos(fields: Seq<(Seq<char>, Val)>, k: int)
    requires
        0 <= k,
    ensures
        enc_size_fields(fields, k) >= 0,
        forall|j: int| k <= j ==> enc_size_fields(fields, k) >= #[trigger] enc_size_fields(
            fields,
            j,
        ),
    decreases fields, 1int, fields.len() - k,
{
    if 0 <= k < fields.len() {
        lemma_enc_size_pos(fields[k].1);
        lemma_enc_size_fields_pos(fields, k + 1);
        assert forall|j: int| k <= j implies enc_size_fields(fields, k)
            >= #[trigger] enc_size_fields(fields, j) by {
            if j == k {
            } else if j > fields.len() {
                assert(enc_size_fields(fields, j) == 0);
            }
        }
    } else {
        assert forall|j: int| k <= j implies enc_size_fields(fields, k)
            >= #[trigger] enc_size_fields(fields, j) by {
            assert(enc_size_fields(fields, j) == 0);
        }
    }
}

/// Whether every object field name in `v` occurs in `names`.
pub open spec fn names_in(v: Val, names: Seq<Seq<char>>) -> bool
    decreases v, 0int, 0int,
{
    match v {
        Val::List(items) => names_in_items(items, names, 0),
        Val::Object(fields) => names_in_fields(fields, names, 0),
        _ => true,
    }
}

pub open spec fn names_in_items(items: Seq<Val>, names: Seq<Seq<char>>, k: int) -> bool
    decreases items, 1int, items.len() - k,
{
    if k < 0 || k >= items.len() {
        true
    } else {
        names_in(items[k], names) && names_in_items(items, names, k + 1)
    }
}

pub open spec fn names_in_fields(
    fields: Seq<(Seq<char>, Val)>,
    names: Seq<Seq<char>>,
    k: int,
) -> bool
    decreases fields, 1int, fields.len() - k,
{
    if k < 0 || k >= fields.len() {
        true
    } else {
        names.contains(fields[k].0) && names_in(fields[k].1, names)
            && names_in_fields(fields, names, k + 1)
    }
}

/// Entry `j` of the list node at `off` is well formed: its offset is
/// forward and its child decodes.
pub open spec fn list_entry_ok(dict: Seq<Seq<char>>, b: Seq<u8>, off: int, j: int) -> bool {
    let rel = le_at(b, off + 5 + 4 * j, 4);
    rel >= 1 && off + rel < b.len() && dec_val(dict, b, off + rel) is Some
}

/// Entry `j` of the object node at `off` is well formed.
pub open spec fn obj_entry_ok(dict: Seq<Seq<char>>, b: Seq<u8>, off: int, j: int) -> bool {
    let id = le_at(b, off + 5 + 8 * j, 4);
    let rel = le_at(b, off + 5 + 8 * j + 4, 4);
    rel >= 1 && off + rel < b.len() && 0 <= id < dict.len() && dec_val(dict, b, off + rel) is Some
}

/// What `dec_list_items` returns, entry by entry.
pub proof fn lemma_list_items_char(dict: Seq<Seq<char>>, b: Seq<u8>, off: int, n: int, k: int)
    requires
        0 <= k <= n,
    ensures
        dec_list_items(dict, b, off, n, k) is Some <==> (forall|j: int|
            k <= j < n ==> #[trigger] list_entry_ok(dict, b, off, j)),
        dec_list_items(dict, b, off, n, k) is Some ==> dec_list_items(
            dict,
            b,
            off,
            n,
            k,
        )->Some_0.len() == n - k,
        dec_list_items(dict, b, off, n, k) is Some ==> forall|i: int|
            0 <= i < n - k ==> #[trigger] dec_list_items(dict, b, off, n, k)->Some_0[i] == dec_val(
                dict,
                b,
                off + le_at(b, off + 5 + 4 * (k + i), 4),
            )->Some_0,
    decreases n - k,
{
    if k < n {
        lemma_list_items_char(dict, b, off, n, k + 1);
        if dec_list_items(dict, b, off, n, k) is Some {
            let s = dec_list_items(dict, b, off, n, k)->Some_0;
            let rest = dec_list_items(dict, b, off, n, k + 1)->Some_0;
            assert forall|i: int| 0 <= i < n - k implies #[trigger] s[i] == dec_val(
                dict,
                b,
                off + le_at(b, off + 5 + 4 * (k + i), 4),
            )->Some_0 by {
                if i > 0 {
                    assert(s[i] == rest[i - 1]);
                    assert(rest[i - 1] == dec_val(
                        dict,
                        b,
                        off + le_at(b, off + 5 + 4 * ((k + 1) + (i - 1)), 4),
                    )->Some_0);
                }
            }
        } else {
            if forall|j: int| k <= j < n ==> #[trigger] list_entry_ok(dict, b, off, j) {
                assert(list_entry_ok(dict, b, off, k));
                assert(false);
            }
        }
    }
}

/// What `dec_obj_items` returns, entry by entry.
pub proof fn lemma_obj_items_char(dict: Seq<Seq<char>>, b: Seq<u8>, off: int, n: int, k: int)
    requires
        0 <= k <= n,
    ensures
        dec_obj_items(dict, b, off, n, k) is Some <==> (forall|j: int|
            k <= j < n ==> #[trigger] obj_entry_ok(dict, b, off, j)),
        dec_obj_items(dict, b, off, n, k) is Some ==> dec_obj_items(
            dict,
            b,
            off,
            n,
            k,
        )->Some_0.len() == n - k,
        dec_obj_items(dict, b, off, n, k) is Some ==> forall|i: int|
            0 <= i < n - k ==> #[trigger] dec_obj_items(dict, b, off, n, k)->Some_0[i] == (
            dict[le_at(b, off + 5 + 8 * (k + i), 4)],
            dec_val(dict, b, off + le_at(b, off + 5 + 8 * (k + i) + 4, 4))->Some_0,
            ),
    decreases n - k,
{
    if k < n {
        lemma_obj_items_char(dict, b, off, n, k + 1);
        if dec_obj_items(dict, b, off, n, k) is Some {
            let s = dec_obj_items(dict, b, off, n, k)->Some_0;
            let rest = dec_obj_items(dict, b, off, n, k + 1)->Some_0;
            assert forall|i: int| 0 <= i < n - k implies #[trigger] s[i] == (
            dict[le_at(b, off + 5 + 8 * (k + i), 4)],
            dec_val(dict, b, off + le_at(b, off + 5 + 8 * (k + i) + 4, 4))->Some_0,
            ) by {
                if i > 0 {
                    assert(s[i] == rest[i - 1]);
                    assert(rest[i - 1] == (
                    dict[le_at(b, off + 5 + 8 * ((k + 1) + (i - 1)), 4)],
                    dec_val(dict, b, off + le_at(b, off + 5 + 8 * ((k + 1) + (i - 1)) + 4, 4))->Some_0,
                    ));
                }
            }
        } else {
            if forall|j: int| k <= j < n ==> #[trigger] obj_entry_ok(dict, b, off, j) {
                assert(obj_entry_ok(dict, b, off, k));
                assert(false);
            }
        }
    }
}

/// A decoded value keeps its meaning under a dictionary that extends the
/// one it was decoded with.
pub proof fn lemma_dec_val_dict_extend(
    dict1: Seq<Seq<char>>,
    dict2: Seq<Seq<char>>,
    b: Seq<u8>,
    off: int,
)
    requires
        dec_val(dict1, b, off) is Some,
        dict1.is_prefix_of(dict2),
    ensures
        dec_val(dict2, b, off) == dec_val(dict1, b, off),
    decreases b.len() - off, 1int, 0int,
{
    if 0 <= off < b.len() {
        let tag = b[off];
        if tag == TAG_LIST {
            lemma_list_items_dict_extend(dict1, dict2, b, off, le_at(b, off + 1, 4), 0);
        } else if tag == TAG_OBJECT {
            lemma_obj_items_dict_extend(dict1, dict2, b, off, le_at(b, off + 1, 4), 0);
        }
    }
}

pub proof fn lemma_list_items_dict_extend(
    dict1: Seq<Seq<char>>,
    dict2: Seq<Seq<char>>,
    b: Seq<u8>,
    off: int,
    n: int,
    k: int,
)
    requires
        dec_list_items(dict1, b, off, n, k) is Some,
        dict1.is_prefix_of(dict2),
        0 <= off,
    ensures
        dec_list_items(dict2, b, off, n, k) == dec_list_items(dict1, b, off, n, k),
    decreases b.len() - off, 0int, n - k,
{
    if k < n {
        let rel = le_at(b, off + 5 + 4 * k, 4);
        lemma_dec_val_dict_extend(dict1, dict2, b, off + rel);
        lemma_list_items_dict_extend(dict1, dict2, b, off, n, k + 1);
    }
}

pub proof fn lemma_obj_items_dict_extend(
    dict1: Seq<Seq<char>>,
    dict2: Seq<Seq<char>>,
    b: Seq<u8>,
    off: int,
    n: int,
    k: int,
)
    requires
        dec_obj_items(dict1, b, off, n, k) is Some,
        dict1.is_prefix_of(dict2),
        0 <= off,
    ensures
        dec_obj_items(dict2, b, off, n, k) == dec_obj_items(dict1, b, off, n, k),
    decreases b.len() - off, 0int, n - k,
{
    if k < n {
        let id = le_at(b, off + 5 + 8 * k, 4);
        let rel = le_at(b, off + 5 + 8 * k + 4, 4);
        assert(dict2[id] == dict1[id]);
        lemma_dec_val_dict_extend(dict1, dict2, b, off + rel);
        lemma_obj_items_dict_extend(dict1, dict2, b, off, n, k + 1);
    }
}

/// Every field name of a decoded value occurs in the dictionary it was
/// decoded with.
pub proof fn lemma_dec_names_in(dict: Seq<Seq<char>>, b: Seq<u8>, off: int)
    requires
        dec_val(dict, b, off) is Some,
    ensures
        names_in(dec_val(dict, b, off)->Some_0, dict),
    decreases b.len() - off, 1int, 0int,
{
    if 0 <= off < b.len() {
        let tag = b[off];
        if tag == TAG_LIST {
            lemma_names_in_list_items(dict, b, off, le_at(b, off + 1, 4), 0);
        } else if tag == TAG_OBJECT {
            lemma_names_in_obj_items(dict, b, off, le_at(b, off + 1, 4), 0);
        }
    }
}

pub proof fn lemma_names_in_list_items(dict: Seq<Seq<char>>, b: Seq<u8>, off: int, n: int, k: int)
    requires
        dec_list_items(dict, b, off, n, k) is Some,
        0 <= off,
        0 <= k,
    ensures
        names_in_items(dec_list_items(dict, b, off, n, k)->Some_0, dict, 0),
    decreases b.len() - off, 0int, n - k,
{
    if k < n {
        let rel = le_at(b, off + 5 + 4 * k, 4);
        let v = dec_val(dict, b, off + rel)->Some_0;
        let rest = dec_list_items(dict, b, off, n, k + 1)->Some_0;
        let s = dec_list_items(dict, b, off, n, k)->Some_0;
        lemma_dec_names_in(dict, b, off + rel);
        lemma_names_in_list_items(dict, b, off, n, k + 1);
        lemma_names_in_items_shift(v, rest, dict);
    }
}

pub proof fn lemma_names_in_obj_items(dict: Seq<Seq<char>>, b: Seq<u8>, off: int, n: int, k: int)
    requires
        dec_obj_items(dict, b, off, n, k) is Some,
        0 <= off,
        0 <= k,
    ensures
        names_in_fields(dec_obj_items(dict, b, off, n, k)->Some_0, dict, 0),
    decreases b.len() - off, 0int, n - k,
{
    if k < n {
        let id = le_at(b, off + 5 + 8 * k, 4);
        let rel = le_at(b, off + 5 + 8 * k + 4, 4);
        let v = dec_val(dict, b, off + rel)->Some_0;
        let rest = dec_obj_items(dict, b, off, n, k + 1)->Some_0;
        lemma_dec_names_in(dict, b, off + rel);
        lemma_names_in_obj_items(dict, b, off, n, k + 1);
        assert(dict.contains(dict[id])) by {
            assert(dict[id] == dict[id]);
        }
        lemma_names_in_fields_shift((dict[id], v), rest, dict);
    }
}

/// `names_in_items` over a cons cell.
pub proof fn lemma_names_in_items_shift(v: Val, rest: Seq<Val>, names: Seq<Seq<char>>)
    requires
        names_in(v, names),
        names_in_items(rest, names, 0),
    ensures
        names_in_items(seq![v] + rest, names, 0),
{
    lemma_names_in_items_tail(seq![v] + rest, rest, names, 0);
}

proof fn lemma_names_in_items_tail(s: Seq<Val>, rest: Seq<Val>, names: Seq<Seq<char>>, k: int)
    requires
        0 <= k <= rest.len(),
        s =~= seq![s[0]] + rest,
        s.len() == rest.len() + 1,
        names_in(s[0], names),
        names_in_items(rest, names, k),
    ensures
        names_in_items(s, names, k + 1),
    decreases rest.len() - k,
{
    if k < rest.len() {
        assert(s[k + 1] == rest[k]);
        lemma_names_in_items_tail(s, rest, names, k + 1);
    }
}

/// `names_in_fields` over a cons cell.
pub proof fn lemma_names_in_fields_shift(
    f: (Seq<char>, Val),
    rest: Seq<(Seq<char>, Val)>,
    names: Seq<Seq<char>>,
)
    requires
        names.contains(f.0),
        names_in(f.1, names),
        names_in_fields(rest, names, 0),
    ensures
        names_in_fields(seq![f] + rest, names, 0),
{
    lemma_names_in_fields_tail(seq![f] + rest, rest, names, 0);
}

proof fn lemma_names_in_fields_tail(
    s: Seq<(Seq<char>, Val)>,
    rest: Seq<(Seq<char>, Val)>,
    names: Seq<Seq<char>>,
    k: int,
)
    requires
        0 <= k <= rest.len(),
        s =~= seq![s[0]] + rest,
        s.len() == rest.len() + 1,
        names.contains(s[0].0),
        names_in(s[0].1, names),
        names_in_fields(rest, names, k),
    ensures
        names_in_fields(s, names, k + 1),
    decreases rest.len() - k,
{
    if k < rest.len() {
        assert(s[k + 1] == rest[k]);
        lemma_names_in_fields_tail(s, rest, names, k + 1);
    }
}

/// Reads the 4-byte little-endian integer at `off`.
pub(crate) fn read_u32(b: &Vec<u8>, off: usize) -> (r: u32)
    requires
        off + 4 <= b@.len(),
    ensures
        r as int == le_at(b@, off as int, 4),
{
    let blen = b.len();
    let b0 = b[off] as u32;
    let b1 = b[off + 1] as u32;
    let b2 = b[off + 2] as u32;
    let b3 = b[off + 3] as u32;
    proof {
        reveal_with_fuel(le_at, 5);
    }
    b0 + 0x100 * b1 + 0x1_0000 * b2 + 0x100_0000 * b3
}

/// Reads the 8-byte little-endian integer at `off`.
pub(crate) fn read_u64(b: &Vec<u8>, off: usize) -> (r: u64)
    requires
        off + 8 <= b@.len(),
    ensures
        r as int == le_at(b@, off as int, 8),
{
    let blen = b.len();
    let b0 = b[off] as u64;
    let b1 = b[off + 1] as u64;
    let b2 = b[off + 2] as u64;
    let b3 = b[off + 3] as u64;
    let b4 = b[off + 4] as u64;
    let b5 = b[off + 5] as u64;
    let b6 = b[off + 6] as u64;
    let b7 = b[off + 7] as u64;
    proof {
        reveal_with_fuel(le_at, 9);
    }
    b0 + 0x100 * b1 + 0x1_0000 * b2 + 0x100_0000 * b3 + 0x1_0000_0000 * b4 + 0x100_0000_0000 * b5
        + 0x1_0000_0000_0000 * b6 + 0x100_0000_0000_0000 * b7
}

/// Appends the 4 little-endian bytes of `v`.
#[verifier::rlimit(50)]
pub(crate) fn push_u32(out: &mut Vec<u8>, v: u32)
    ensures
        final(out)@ == old(out)@ + le_bytes(v as int, 4),
{
    out.push((v % 0x100) as u8);
    out.push((v / 0x100 % 0x100) as u8);
    out.push((v / 0x1_0000 % 0x100) as u8);
    out.push((v / 0x100_0000 % 0x100) as u8);
    proof {
        reveal_with_fuel(le_bytes, 5);
        assert(out@ =~= old(out)@ + le_bytes(v as int, 4));
    }
}

/// Appends the 8 little-endian bytes of `v`.
#[verifier::rlimit(50)]
pub(crate) fn push_u64(out: &mut Vec<u8>, v: u64)
    ensures
        final(out)@ == old(out)@ + le_bytes(v as int, 8),
{
    out.push((v % 0x100) as u8);
    out.push((v / 0x100 % 0x100) as u8);
    out.push((v / 0x1_0000 % 0x100) as u8);
    out.push((v / 0x100_0000 % 0x100) as u8);
    out.push((v / 0x1_0000_0000 % 0x100) as u8);
    out.push((v / 0x100_0000_0000 % 0x100) as u8);
    out.push((v / 0x1_0000_0000_0000 % 0x100) as u8);
    out.push((v / 0x100_0000_0000_0000 % 0x100) as u8);
    proof {
        reveal_with_fuel(le_bytes, 9);
        assert(out@ =~= old(out)@ + le_bytes(v as int, 8));
    }
}

/// The concatenation of a sequence of buffers.
pub open spec fn flat(bs: Seq<Seq<u8>>) -> Seq<u8>
    decreases bs.len(),
{
    if bs.len() == 0 {
        Seq::empty()
    } else {
        flat(bs.drop_last()) + bs.last()
    }
}

pub proof fn lemma_flat_push(bs: Seq<Seq<u8>>, c: Seq<u8>)
    ensures
        flat(bs.push(c)) == flat(bs) + c,
{
    assert(bs.push(c).drop_last() =~= bs);
    assert(bs.push(c).last() == c);
}

/// Where buffer `k` stands inside the concatenation.
pub proof fn lemma_flat_index(bs: Seq<Seq<u8>>, k: int, j: int)
    requires
        0 <= k < bs.len(),
        0 <= j < bs[k].len(),
    ensures
        flat(bs.take(k)).len() + bs[k].len() <= flat(bs).len(),
        flat(bs)[flat(bs.take(k)).len() + j] == bs[k][j],
    decreases bs.len(),
{
    if k == bs.len() - 1 {
        assert(bs.take(k) =~= bs.drop_last());
    } else {
        let pre = bs.drop_last();
        assert(pre.take(k) =~= bs.take(k));
        lemma_flat_index(pre, k, j);
    }
}

/// The table region: the 4-byte words `0 .. k` laid end to end.
pub open spec fn table_bytes(ws: Seq<u32>, k: int) -> Seq<u8>
    decreases k,
{
    if k <= 0 {
        Seq::empty()
    } else {
        table_bytes(ws, k - 1) + le_bytes(ws[k - 1] as int, 4)
    }
}

pub proof fn lemma_table_bytes_len(ws: Seq<u32>, k: int)
    requires
        0 <= k,
    ensures
        table_bytes(ws, k).len() == 4 * k,
    decreases k,
{
    if k > 0 {
        lemma_table_bytes_len(ws, k - 1);
        lemma_le_bytes_len(ws[k - 1] as int, 4);
    }
}

pub proof fn lemma_table_bytes_index(ws: Seq<u32>, k: int, t: int, j: int)
    requires
        0 <= t < k,
        0 <= j < 4,
    ensures
        table_bytes(ws, k)[4 * t + j] == le_bytes(ws[t] as int, 4)[j],
    decreases k,
{
    lemma_table_bytes_len(ws, k - 1);
    lemma_le_bytes_len(ws[k - 1] as int, 4);
    if t == k - 1 {
    } else {
        lemma_table_bytes_index(ws, k - 1, t, j);
    }
}

/// The unsigned 8-byte form of a signed 64-bit integer.
pub(crate) fn signed_to_le64(i: i64) -> (u: u64)
    ensures
        as_signed64(u as int) == i as int,
{
    if i >= 0 {
        i as u64
    } else {
        0xFFFF_FFFF_FFFF_FFFFu64 - ((-(i + 1)) as u64)
    }
}

/// The signed value of an unsigned 8-byte integer.
pub(crate) fn le64_to_signed(u: u64) -> (i: i64)
    ensures
        i as int == as_signed64(u as int),
{
    if u < 0x8000_0000_0000_0000 {
        u as i64
    } else {
        -((0xFFFF_FFFF_FFFF_FFFFu64 - u) as i64) - 1
    }
}

/// Character-for-character string equality, decided through the UTF-8
/// bytes of the two strings.
pub fn str_eq(a: &str, b: &str) -> (r: bool)
    ensures
        r == (a@ == b@),
{
    let ab = a.as_bytes();
    let bb = b.as_bytes();
    if ab.len() != bb.len() {
        proof {
            if a@ == b@ {
                assert(a.spec_bytes() == b.spec_bytes());
            }
        }
        return false;
    }
    let mut i: usize = 0;
    while i < ab.len()
        invariant
            0 <= i <= ab@.len(),
            ab@.len() == bb@.len(),
            ab@ == a.spec_bytes(),
            bb@ == b.spec_bytes(),
            forall|j: int| 0 <= j < i ==> ab@[j] == bb@[j],
        decreases ab@.len() - i,
    {
        if ab[i] != bb[i] {
            proof {
                if a@ == b@ {
                    assert(a.spec_bytes() == b.spec_bytes());
                }
            }
            return false;
        }
        i += 1;
    }
    proof {
        assert(a.spec_bytes() =~= b.spec_bytes());
        vstd::utf8::encode_utf8_decode_utf8(a@);
        vstd::utf8::encode_utf8_decode_utf8(b@);
    }
    true
}

/// Finds `name` in the dictionary, appending it if absent and there is
/// room for one more 4-byte index.
pub(crate) fn lookup_or_insert(dict: &mut Vec<String>, name: &String) -> (r: Option<u32>)
    requires
        old(dict)@.len() <= 0xFFFF_FFFF,
    ensures
        names_of(old(dict)@).is_prefix_of(names_of(final(dict)@)),
        final(dict)@.len() <= old(dict)@.len() + 1,
        final(dict)@.len() <= 0xFFFF_FFFF,
        match r {
            Some(id) => (id as int) < final(dict)@.len() && names_of(final(dict)@)[id as int]
                == name@ && (names_of(old(dict)@).contains(name@) ==> final(dict)@ == old(dict)@),
            None => final(dict)@ == old(dict)@ && old(dict)@.len() == 0xFFFF_FFFF && !names_of(
                old(dict)@,
            ).contains(name@),
        },
{
    let n = dict.len();
    let mut i: usize = 0;
    while i < n
        invariant
            n == dict@.len(),
            0 <= i <= n,
            dict@ == old(dict)@,
            dict@.len() <= 0xFFFF_FFFF,
            forall|j: int| 0 <= j < i ==> names_of(dict@)[j] != name@,
        decreases n - i,
    {
        if str_eq(dict[i].as_str(), name.as_str()) {
            proof {
                assert(names_of(dict@)[i as int] == name@);
                assert(dict@.len() == old(dict)@.len());
                assert(i < 0x1_0000_0000);
            }
            return Some(i as u32);
        }
        proof {
            assert(names_of(dict@)[i as int] == dict@[i as int]@);
        }
        i += 1;
    }
    proof {
        assert forall|j: int| 0 <= j < dict@.len() implies names_of(dict@)[j] != name@ by {}
        if names_of(dict@).contains(name@) {
            let w = choose|w: int| 0 <= w < names_of(dict@).len() && names_of(dict@)[w] == name@;
            assert(false);
        }
    }
    if n >= 0xFFFF_FFFFusize {
        return None;
    }
    dict.push(name.as_str().to_owned());
    proof {
        assert(names_of(old(dict)@).is_prefix_of(names_of(dict@))) by {
            assert(names_of(old(dict)@) =~= names_of(dict@).subrange(
                0,
                old(dict)@.len() as int,
            ));
        }
    }
    Some(n as u32)
}

/// Lays out one list or object node: tag, count, table words, children.
pub(crate) fn build_node(tag: u8, n: u32, words: &Vec<u32>, tail: Vec<u8>) -> (out: Vec<u8>)
    ensures
        out@.len() == 5 + 4 * words@.len() + tail@.len(),
        out@[0] == tag,
        le_at(out@, 1, 4) == n as int,
        forall|t: int| 0 <= t < words@.len() ==> le_at(out@, 5 + 4 * t, 4) == #[trigger] (
        words@[t] as int),
        forall|j: int| 0 <= j < tail@.len() ==> #[trigger] out@[5 + 4 * words@.len() + j]
            == tail@[j],
{
    let mut out: Vec<u8> = Vec::new();
    out.push(tag);
    push_u32(&mut out, n);
    let w = words.len();
    let mut k: usize = 0;
    while k < w
        invariant
            w == words@.len(),
            0 <= k <= w,
            out@ == seq![tag] + le_bytes(n as int, 4) + table_bytes(words@, k as int),
        decreases w - k,
    {
        push_u32(&mut out, words[k]);
        k += 1;
        proof {
            assert(out@ =~= seq![tag] + le_bytes(n as int, 4) + table_bytes(words@, k as int));
        }
    }
    let mut tl = tail;
    out.append(&mut tl);
    proof {
        let hdr = seq![tag] + le_bytes(n as int, 4);
        let tb = table_bytes(words@, w as int);
        lemma_le_bytes_len(n as int, 4);
        lemma_table_bytes_len(words@, w as int);
        assert(out@ =~= hdr + tb + tail@);
        assert(out@.len() == 5 + 4 * words@.len() + tail@.len());
        assert(out@[0] == tag);
        assert(le_at(out@, 1, 4) == n as int) by {
            assert forall|j: int| 0 <= j < 4 implies #[trigger] out@[1 + j] == le_bytes(
                n as int,
                4,
            )[j] by {
                assert(out@[1 + j] == (hdr + tb + tail@)[1 + j]);
            }
            assert(vstd::arithmetic::power::pow(0x100, 4) == 0x1_0000_0000) by {
                reveal_with_fuel(vstd::arithmetic::power::pow, 5);
            }
            lemma_le_roundtrip(out@, 1, n as int, 4);
        }
        assert forall|t: int| 0 <= t < words@.len() implies le_at(out@, 5 + 4 * t, 4)
            == #[trigger] (words@[t] as int) by {
            assert forall|j: int| 0 <= j < 4 implies #[trigger] out@[(5 + 4 * t) + j] == le_bytes(
                words@[t] as int,
                4,
            )[j] by {
                lemma_table_bytes_index(words@, w as int, t, j);
                assert((hdr + tb + tail@)[5 + (4 * t + j)] == tb[4 * t + j]);
                assert(out@[(5 + 4 * t) + j] == (hdr + tb + tail@)[5 + (4 * t + j)]);
            }
            assert(vstd::arithmetic::power::pow(0x100, 4) == 0x1_0000_0000) by {
                reveal_with_fuel(vstd::arithmetic::power::pow, 5);
            }
            lemma_le_roundtrip(out@, 5 + 4 * t, words@[t] as int, 4);
        }
        assert forall|j: int| 0 <= j < tail@.len() implies #[trigger] out@[5 + 4 * words@.len()
            + j] == tail@[j] by {
            assert((hdr + tb + tail@)[(hdr + tb).len() + j] == tail@[j]);
            assert(out@[5 + 4 * words@.len() + j] == (hdr + tb + tail@)[(hdr + tb).len() + j]);
        }
    }
    out
}

pub proof fn lemma_prefix_trans(a: Seq<Seq<char>>, b: Seq<Seq<char>>, c: Seq<Seq<char>>)
    requires
        a.is_prefix_of(b),
        b.is_prefix_of(c),
    ensures
        a.is_prefix_of(c),
{
    assert(a =~= c.subrange(0, a.len() as int)) by {
        assert forall|i: int| 0 <= i < a.len() implies a[i] == c.subrange(0, a.len() as int)[i] by {
            assert(a[i] == b.subrange(0, a.len() as int)[i]);
            assert(b[i] == c.subrange(0, b.len() as int)[i]);
        }
    }
}

pub proof fn lemma_names_in_items_index(s: Seq<Val>, names: Seq<Seq<char>>, k: int, j: int)
    requires
        names_in_items(s, names, k),
        0 <= k <= j < s.len(),
    ensures
        names_in(s[j], names),
    decreases j - k,
{
    if j > k {
        lemma_names_in_items_index(s, names, k + 1, j);
    }
}

pub proof fn lemma_names_in_fields_index(
    s: Seq<(Seq<char>, Val)>,
    names: Seq<Seq<char>>,
    k: int,
    j: int,
)
    requires
        names_in_fields(s, names, k),
        0 <= k <= j < s.len(),
    ensures
        names.contains(s[j].0),
        names_in(s[j].1, names),
    decreases j - k,
{
    if j > k {
        lemma_names_in_fields_index(s, names, k + 1, j);
    }
}

/// Encodes `v` against the dictionary, appending any field names not yet
/// present.  Returns the value blob, or `None` where the encoding would
/// overflow a 4-byte count, offset or name index.
pub(crate) fn encode_val(v: &VariantValue, dict: &mut Vec<String>) -> (r: Option<Vec<u8>>)
    requires
        old(dict)@.len() <= 0xFFFF_FFFF,
    ensures
        names_of(old(dict)@).is_prefix_of(names_of(final(dict)@)),
        final(dict)@.len() <= 0xFFFF_FFFF,
        final(dict)@.len() <= old(dict)@.len() + enc_size(v@),
        match r {
            Some(bytes) => dec_val(names_of(final(dict)@), bytes@, 0) == Some(v@) && bytes@.len()
                == enc_size(v@) && enc_size(v@) <= 0xFFFF_FFFF,
            None => enc_size(v@) + old(dict)@.len() > 0xFFFF_FFFF,
        },
        (names_in(v@, names_of(old(dict)@)) && enc_size(v@) <= 0xFFFF_FFFF) ==> (r is Some
            && names_of(final(dict)@) == names_of(old(dict)@)),
    decreases *v,
{
    match v {
        VariantValue::Null => {
            let out: Vec<u8> = vec![TAG_NULL];
            Some(out)
        },
        VariantValue::Bool(bv) => {
            let out: Vec<u8> = if *bv {
                vec![TAG_TRUE]
            } else {
                vec![TAG_FALSE]
            };
            Some(out)
        },
        VariantValue::Int64(iv) => {
            let mut out: Vec<u8> = vec![TAG_INT64];
            let u = signed_to_le64(*iv);
            push_u64(&mut out, u);
            proof {
                lemma_le_bytes_len(u as int, 8);
                assert(out@ =~= seq![TAG_INT64] + le_bytes(u as int, 8));
                assert forall|j: int| 0 <= j < 8 implies #[trigger] out@[1 + j] == le_bytes(
                    u as int,
                    8,
                )[j] by {
                    assert(out@[1 + j] == (seq![TAG_INT64] + le_bytes(u as int, 8))[1 + j]);
                }
                assert(vstd::arithmetic::power::pow(0x100, 8) == 0x1_0000_0000_0000_0000) by {
                    reveal_with_fuel(vstd::arithmetic::power::pow, 9);
                }
                lemma_le_roundtrip(out@, 1, u as int, 8);
                assert(dec_val(names_of(dict@), out@, 0) == Some(v@));
            }
            Some(out)
        },
        VariantValue::List(items) => {
            let ghost old_names = names_of(old(dict)@);
            let ghost vs = v@->List_0;
            let n = items.len();
            proof {
                lemma_list_view(items, 0);
                assert(v@ == Val::List(list_view(items, 0)));
                assert(vs == list_view(items, 0));
                lemma_enc_size_items_pos(vs, 0);
                assert(vs.len() == n);
            }
            if n > 0x3FFF_FFFEusize {
                return None;
            }
            let mut tail: Vec<u8> = Vec::new();
            let mut words: Vec<u32> = Vec::new();
            let ghost mut cbufs: Seq<Seq<u8>> = Seq::empty();
            let mut k: usize = 0;
            while k < n
                invariant
                    old(dict)@.len() <= 0xFFFF_FFFF,
                    n == items@.len(),
                    *items == (*v)->List_0,
                    vs.len() == n,
                    v@ == Val::List(vs),
                    forall|t: int| 0 <= t < n ==> vs[t] == #[trigger] items@[t]@,
                    enc_size(v@) == 5 + 4 * (n as int) + enc_size_items(vs, 0),
                    n <= 0x3FFF_FFFE,
                    0 <= k <= n,
                    words@.len() == k,
                    cbufs.len() == k as int,
                    tail@ == flat(cbufs),
                    5 + 4 * (n as int) + tail@.len() <= 0xFFFF_FFFF,
                    dict@.len() <= 0xFFFF_FFFF,
                    old_names == names_of(old(dict)@),
                    old_names.is_prefix_of(names_of(dict@)),
                    tail@.len() + enc_size_items(vs, k as int) == enc_size_items(vs, 0),
                    dict@.len() <= old(dict)@.len() + (enc_size_items(vs, 0) - enc_size_items(
                        vs,
                        k as int,
                    )),
                    forall|t: int| 0 <= t < k ==> #[trigger] (words@[t] as int) == 5 + 4 * (
                    n as int) + flat(cbufs.take(t)).len(),
                    forall|t: int| 0 <= t < k ==> #[trigger] cbufs[t].len() >= 1,
                    forall|t: int| 0 <= t < k ==> #[trigger] dec_val(names_of(dict@), cbufs[t], 0)
                        == Some(vs[t]),
                    (names_in(v@, old_names) ==> names_of(dict@) == old_names),
                decreases n - k,
            {
                let ghost names_pre = names_of(dict@);
                let ghost dict_pre_len = dict@.len();
                proof {
                    lemma_enc_size_items_pos(vs, k as int);
                    lemma_enc_size_items_pos(vs, k as int + 1);
                    lemma_enc_size_pos(vs[k as int]);
                    assert(enc_size_items(vs, k as int) == enc_size(vs[k as int])
                        + enc_size_items(vs, k as int + 1));
                    if names_in(v@, old_names) {
                        lemma_names_in_items_index(vs, old_names, 0, k as int);
                    }
                }
                proof {
                    assert(decreases_to!(*v => v->List_0));
                    assert((*v)->List_0 == *items);
                    assert(decreases_to!(*items => (*items)[k as int]));
                    assert(decreases_to!(*v => (*items)[k as int]));
                }
                match encode_val(&items[k], dict) {
                    None => {
                        proof {
                            assert(enc_size(vs[k as int]) + dict_pre_len > 0xFFFF_FFFF);
                            assert(enc_size(v@) + old(dict)@.len() > 0xFFFF_FFFF);
                        }
                        return None;
                    },
                    Some(buf) => {
                        let total: u64 = 5 + 4 * (n as u64) + tail.len() as u64 + buf.len() as u64;
                        if total > 0xFFFF_FFFF {
                            proof {
                                assert(buf@.len() == enc_size(vs[k as int]));
                                assert(enc_size(v@) + old(dict)@.len() > 0xFFFF_FFFF);
                            }
                            return None;
                        }
                        let rel: u32 = (5 + 4 * (n as u64) + tail.len() as u64) as u32;
                        words.push(rel);
                        let mut b2 = buf;
                        let ghost cb_prev = cbufs;
                        let ghost bufv = b2@;
                        proof {
                            cbufs = cbufs.push(bufv);
                        }
                        tail.append(&mut b2);
                        k += 1;
                        proof {
                            lemma_flat_push(cb_prev, bufv);
                            assert(cbufs.drop_last() =~= cb_prev);
                            assert(cbufs.last() == bufv);
                            assert(tail@ == flat(cbufs));
                            lemma_prefix_trans(old_names, names_pre, names_of(dict@));
                            lemma_enc_size_pos(vs[k - 1]);
                            assert forall|t: int| 0 <= t < k implies #[trigger] dec_val(
                                names_of(dict@),
                                cbufs[t],
                                0,
                            ) == Some(vs[t]) by {
                                if t < k - 1 {
                                    assert(cbufs[t] == cbufs.drop_last()[t]);
                                    assert(dec_val(names_pre, cbufs[t], 0) == Some(vs[t]));
                                    lemma_dec_val_dict_extend(
                                        names_pre,
                                        names_of(dict@),
                                        cbufs[t],
                                        0,
                                    );
                                } else {
                                    assert(cbufs[t] == b2@ || cbufs[t] == cbufs.last());
                                }
                            }
                            assert forall|t: int| 0 <= t < k implies #[trigger] (words@[t] as int)
                                == 5 + 4 * (n as int) + flat(cbufs.take(t)).len() by {
                                if t < k - 1 {
                                    assert(cbufs.take(t) =~= cbufs.drop_last().take(t));
                                } else {
                                    assert(cbufs.take(t) =~= cbufs.drop_last());
                                }
                            }
                        }
                    },
                }
            }
            let out = build_node(TAG_LIST, n as u32, &words, tail);
            proof {
                let names = names_of(dict@);
                let b = out@;
                let ni = n as int;
                assert(enc_size_items(vs, ni) == 0);
                assert(b.len() == 5 + 4 * ni + enc_size_items(vs, 0));
                assert(b.len() == enc_size(v@));
                assert forall|j: int| 0 <= j < ni implies #[trigger] list_entry_ok(names, b, 0, j)
                    && dec_val(names, b, 0 + le_at(b, 0 + 5 + 4 * j, 4)) == Some(vs[j]) by {
                    assert(le_at(b, 5 + 4 * j, 4) == words@[j] as int);
                    let rel = le_at(b, 0 + 5 + 4 * j, 4);
                    assert(rel == words@[j] as int);
                    lemma_flat_index(cbufs, j, 0);
                    assert forall|jj: int| 0 <= jj < cbufs[j].len() implies #[trigger] b[rel + jj]
                        == cbufs[j][jj] by {
                        lemma_flat_index(cbufs, j, jj);
                        assert(b[5 + 4 * (words@.len() as int) + (flat(cbufs.take(j)).len() + jj)]
                            == flat(cbufs)[flat(cbufs.take(j)).len() + jj]);
                        assert(rel + jj == 5 + 4 * (words@.len() as int) + (flat(
                            cbufs.take(j),
                        ).len() + jj));
                    }
                    lemma_dec_val_agree(names, cbufs[j], b, 0, rel);
                }
                lemma_list_items_char(names, b, 0, ni, 0);
                assert(dec_list_items(names, b, 0, ni, 0) is Some);
                let s = dec_list_items(names, b, 0, ni, 0)->Some_0;
                assert(s =~= vs) by {
                    assert forall|i: int| 0 <= i < ni implies s[i] == vs[i] by {
                        assert(list_entry_ok(names, b, 0, i));
                        assert(s[i] == dec_val(names, b, 0 + le_at(b, 0 + 5 + 4 * (0 + i), 4))->Some_0);
                        assert(dec_val(names, b, 0 + le_at(b, 0 + 5 + 4 * i, 4)) == Some(vs[i]));
                    }
                }
                assert(le_at(b, 0int + 1, 4) == ni);
                assert(b[0] == TAG_LIST);
                assert(dec_val(names, b, 0) == Some(Val::List(s)));
                assert(Val::List(s) == v@);
            }
            Some(out)
        },
        VariantValue::Object(fields) => {
            let ghost old_names = names_of(old(dict)@);
            let ghost fs = v@->Object_0;
            let n = fields.len();
            proof {
                lemma_obj_view(fields, 0);
                assert(v@ == Val::Object(obj_view(fields, 0)));
                assert(fs == obj_view(fields, 0));
                lemma_enc_size_fields_pos(fs, 0);
                assert(fs.len() == n);
            }
            if n > 0x1FFF_FFFFusize {
                return None;
            }
            let mut tail: Vec<u8> = Vec::new();
            let mut words: Vec<u32> = Vec::new();
            let ghost mut cbufs: Seq<Seq<u8>> = Seq::empty();
            let mut k: usize = 0;
            while k < n
                invariant
                    old(dict)@.len() <= 0xFFFF_FFFF,
                    n == fields@.len(),
                    *fields == (*v)->Object_0,
                    fs.len() == n,
                    v@ == Val::Object(fs),
                    forall|t: int| 0 <= t < n ==> fs[t] == (#[trigger] fields@[t].0@, fields@[t].1@),
                    enc_size(v@) == 5 + 8 * (n as int) + enc_size_fields(fs, 0),
                    n <= 0x1FFF_FFFF,
                    0 <= k <= n,
                    words@.len() == 2 * k,
                    cbufs.len() == k as int,
                    tail@ == flat(cbufs),
                    5 + 8 * (n as int) + tail@.len() <= 0xFFFF_FFFF,
                    dict@.len() <= 0xFFFF_FFFF,
                    old_names == names_of(old(dict)@),
                    old_names.is_prefix_of(names_of(dict@)),
                    tail@.len() + enc_size_fields(fs, k as int) == enc_size_fields(fs, 0),
                    dict@.len() <= old(dict)@.len() + 8 * (k as int) + (enc_size_fields(fs, 0)
                        - enc_size_fields(fs, k as int)),
                    forall|t: int| 0 <= t < k ==> #[trigger] (words@[2 * t + 1] as int) == 5 + 8 * (
                    n as int) + flat(cbufs.take(t)).len(),
                    forall|t: int| 0 <= t < k ==> (#[trigger] (words@[2 * t] as int))
                        < names_of(dict@).len() && names_of(dict@)[words@[2 * t] as int] == fs[t].0,
                    forall|t: int| 0 <= t < k ==> #[trigger] cbufs[t].len() >= 1,
                    forall|t: int| 0 <= t < k ==> #[trigger] dec_val(names_of(dict@), cbufs[t], 0)
                        == Some(fs[t].1),
                    (names_in(v@, old_names) ==> names_of(dict@) == old_names),
                decreases n - k,
            {
                let ghost names_pre0 = names_of(dict@);
                let ghost dict_pre_len0 = dict@.len();
                proof {
                    lemma_enc_size_fields_pos(fs, k as int);
                    lemma_enc_size_fields_pos(fs, k as int + 1);
                    lemma_enc_size_pos(fs[k as int].1);
                    assert(enc_size_fields(fs, k as int) == enc_size(fs[k as int].1)
                        + enc_size_fields(fs, k as int + 1));
                    if names_in(v@, old_names) {
                        lemma_names_in_fields_index(fs, old_names, 0, k as int);
                    }
                }
                let id_opt = lookup_or_insert(dict, &fields[k].0);
                let id: u32;
                match id_opt {
                    Some(found) => {
                        id = found;
                    },
                    None => {
                        proof {
                            assert(dict_pre_len0 == 0xFFFF_FFFF);
                            assert(enc_size(v@) + old(dict)@.len() > 0xFFFF_FFFF);
                            if names_in(v@, old_names) && enc_size(v@) <= 0xFFFF_FFFF {
                                assert(old_names.contains(fs[k as int].0));
                                assert(names_of(dict@) == old_names);
                                assert(false);
                            }
                        }
                        return None;
                    },
                }
                let ghost names_pre = names_of(dict@);
                let ghost dict_pre_len = dict@.len();
                proof {
                    assert(decreases_to!(*v => v->Object_0));
                    assert((*v)->Object_0 == *fields);
                    assert(decreases_to!(*fields => (*fields)[k as int]));
                    assert(decreases_to!((*fields)[k as int] => (*fields)[k as int].1));
                    assert(decreases_to!(*v => (*fields)[k as int].1));
                }
                match encode_val(&fields[k].1, dict) {
                    None => {
                        proof {
                            assert(enc_size(fs[k as int].1) + dict_pre_len > 0xFFFF_FFFF);
                            assert(enc_size(v@) + old(dict)@.len() > 0xFFFF_FFFF);
                        }
                        return None;
                    },
                    Some(buf) => {
                        let total: u64 = 5 + 8 * (n as u64) + tail.len() as u64 + buf.len() as u64;
                        if total > 0xFFFF_FFFF {
                            proof {
                                assert(buf@.len() == enc_size(fs[k as int].1));
                                assert(enc_size(v@) + old(dict)@.len() > 0xFFFF_FFFF);
                            }
                            return None;
                        }
                        let rel: u32 = (5 + 8 * (n as u64) + tail.len() as u64) as u32;
                        words.push(id);
                        words.push(rel);
                        let mut b2 = buf;
                        let ghost cb_prev = cbufs;
                        let ghost bufv = b2@;
                        proof {
                            cbufs = cbufs.push(bufv);
                        }
                        tail.append(&mut b2);
                        k += 1;
                        proof {
                            lemma_flat_push(cb_prev, bufv);
                            assert(cbufs.drop_last() =~= cb_prev);
                            assert(cbufs.last() == bufv);
                            assert(tail@ == flat(cbufs));
                            lemma_prefix_trans(old_names, names_pre0, names_pre);
                            lemma_prefix_trans(old_names, names_pre, names_of(dict@));
                            lemma_enc_size_pos(fs[k - 1].1);
                            assert(names_pre.is_prefix_of(names_of(dict@)));
                            assert forall|t: int| 0 <= t < k implies #[trigger] dec_val(
                                names_of(dict@),
                                cbufs[t],
                                0,
                            ) == Some(fs[t].1) by {
                                if t < k - 1 {
                                    assert(cbufs[t] == cbufs.drop_last()[t]);
                                    assert(dec_val(names_pre0, cbufs[t], 0) == Some(fs[t].1));
                                    lemma_prefix_trans(names_pre0, names_pre, names_of(dict@));
                                    lemma_dec_val_dict_extend(
                                        names_pre0,
                                        names_of(dict@),
                                        cbufs[t],
                                        0,
                                    );
                                } else {
                                    assert(cbufs[t] == cbufs.last());
                                }
                            }
                            assert forall|t: int| 0 <= t < k implies #[trigger] (words@[2 * t
                                + 1] as int) == 5 + 8 * (n as int) + flat(cbufs.take(t)).len() by {
                                if t < k - 1 {
                                    assert(cbufs.take(t) =~= cbufs.drop_last().take(t));
                                } else {
                                    assert(cbufs.take(t) =~= cbufs.drop_last());
                                }
                            }
                        }
                    },
                }
            }
            let out = build_node(TAG_OBJECT, n as u32, &words, tail);
            proof {
                let names = names_of(dict@);
                let b = out@;
                let ni = n as int;
                assert(enc_size_fields(fs, ni) == 0);
                assert(b.len() == 5 + 8 * ni + enc_size_fields(fs, 0));
                assert(b.len() == enc_size(v@));
                assert(words@.len() == 2 * ni);
                assert forall|j: int| 0 <= j < ni implies #[trigger] obj_entry_ok(names, b, 0, j)
                    && dec_val(names, b, 0 + le_at(b, 0 + 5 + 8 * j + 4, 4)) == Some(fs[j].1)
                    && names[le_at(b, 0 + 5 + 8 * j, 4)] == fs[j].0 by {
                    assert(le_at(b, 5 + 4 * (2 * j), 4) == words@[2 * j] as int);
                    assert(le_at(b, 5 + 4 * (2 * j + 1), 4) == words@[2 * j + 1] as int);
                    assert(0 + 5 + 8 * j == 5 + 4 * (2 * j));
                    assert(0 + 5 + 8 * j + 4 == 5 + 4 * (2 * j + 1));
                    let rel = le_at(b, 0 + 5 + 8 * j + 4, 4);
                    assert(rel == words@[2 * j + 1] as int);
                    lemma_flat_index(cbufs, j, 0);
                    assert forall|jj: int| 0 <= jj < cbufs[j].len() implies #[trigger] b[rel + jj]
                        == cbufs[j][jj] by {
                        lemma_flat_index(cbufs, j, jj);
                        assert(b[5 + 4 * (words@.len() as int) + (flat(cbufs.take(j)).len() + jj)]
                            == flat(cbufs)[flat(cbufs.take(j)).len() + jj]);
                        assert(rel + jj == 5 + 4 * (words@.len() as int) + (flat(
                            cbufs.take(j),
                        ).len() + jj));
                    }
                    lemma_dec_val_agree(names, cbufs[j], b, 0, rel);
                }
                lemma_obj_items_char(names, b, 0, ni, 0);
                assert(dec_obj_items(names, b, 0, ni, 0) is Some);
                let s = dec_obj_items(names, b, 0, ni, 0)->Some_0;
                assert(s =~= fs) by {
                    assert forall|i: int| 0 <= i < ni implies s[i] == fs[i] by {
                        assert(obj_entry_ok(names, b, 0, i));
                        assert(s[i] == (
                        names[le_at(b, 0 + 5 + 8 * (0 + i), 4)],
                        dec_val(names, b, 0 + le_at(b, 0 + 5 + 8 * (0 + i) + 4, 4))->Some_0,
                        ));
                        assert(fs[i] == (fs[i].0, fs[i].1));
                    }
                }
                assert(le_at(b, 0int + 1, 4) == ni);
                assert(b[0] == TAG_OBJECT);
                assert(dec_val(names, b, 0) == Some(Val::Object(s)));
                assert(Val::Object(s) == v@);
            }
            Some(out)
        },
    }
}

/// Decodes the whole subtree at `off` into an owned tree, or `None`
/// where the bytes there are not a well-formed encoding.
pub(crate) fn decode_at(dict: &Vec<String>, b: &Vec<u8>, off: usize) -> (r: Option<VariantValue>)
    ensures
        match dec_val(names_of(dict@), b@, off as int) {
            Some(val) => r is Some && r->Some_0@ == val,
            None => r is None,
        },
    decreases b@.len() - off,
{
    let blen = b.len();
    if off >= blen {
        return None;
    }
    let tag = b[off];
    if tag == TAG_NULL {
        Some(VariantValue::Null)
    } else if tag == TAG_FALSE {
        Some(VariantValue::Bool(false))
    } else if tag == TAG_TRUE {
        Some(VariantValue::Bool(true))
    } else if tag == TAG_INT64 {
        if blen - off < 9 {
            return None;
        }
        let u = read_u64(b, off + 1);
        Some(VariantValue::Int64(le64_to_signed(u)))
    } else if tag == TAG_LIST {
        if blen - off < 5 {
            return None;
        }
        let n32 = read_u32(b, off + 1);
        let n = n32 as usize;
        if n > (blen - off - 5) / 4 {
            proof {
                vstd::arithmetic::div_mod::lemma_fundamental_div_mod((blen - off - 5) as int, 4);
            }
            return None;
        }
        proof {
            vstd::arithmetic::div_mod::lemma_fundamental_div_mod((blen - off - 5) as int, 4);
            vstd::arithmetic::div_mod::lemma_mod_pos_bound((blen - off - 5) as int, 4);
        }
        let ghost names = names_of(dict@);
        let mut items: Vec<VariantValue> = Vec::new();
        let mut k: usize = 0;
        while k < n
            invariant
                names == names_of(dict@),
                blen == b@.len(),
                off < blen,
                0 <= k <= n,
                off + 5 + 4 * n <= blen,
                b@[off as int] == TAG_LIST,
                n == le_at(b@, off as int + 1, 4),
                items@.len() == k,
                forall|t: int| 0 <= t < k ==> #[trigger] list_entry_ok(names, b@, off as int, t),
                forall|t: int| 0 <= t < k ==> #[trigger] items@[t]@ == dec_val(
                    names,
                    b@,
                    off + le_at(b@, off + 5 + 4 * t, 4),
                )->Some_0,
            decreases n - k,
        {
            let rel32 = read_u32(b, off + 5 + 4 * k);
            let rel = rel32 as usize;
            if rel < 1 || rel >= blen - off {
                proof {
                    assert(!list_entry_ok(names, b@, off as int, k as int));
                    lemma_list_items_char(names, b@, off as int, n as int, 0);
                }
                return None;
            }
            match decode_at(dict, b, off + rel) {
                None => {
                    proof {
                        assert(!list_entry_ok(names, b@, off as int, k as int));
                        lemma_list_items_char(names, b@, off as int, n as int, 0);
                    }
                    return None;
                },
                Some(child) => {
                    items.push(child);
                },
            }
            k += 1;
        }
        proof {
            lemma_list_items_char(names, b@, off as int, n as int, 0);
            assert(dec_list_items(names, b@, off as int, n as int, 0) is Some);
            let s = dec_list_items(names, b@, off as int, n as int, 0)->Some_0;
            lemma_list_view(&items, 0);
            assert(list_view(&items, 0) =~= s) by {
                assert forall|i: int| 0 <= i < n implies list_view(&items, 0)[i] == s[i] by {
                    assert(list_view(&items, 0)[i] == items@[0 + i]@);
                    assert(s[i] == dec_val(
                        names,
                        b@,
                        off + le_at(b@, off + 5 + 4 * (0 + i), 4),
                    )->Some_0);
                    assert(items@[i]@ == dec_val(
                        names,
                        b@,
                        off + le_at(b@, off + 5 + 4 * i, 4),
                    )->Some_0);
                }
            }
            assert(dec_val(names, b@, off as int) == Some(Val::List(s)));
        }
        Some(VariantValue::List(items))
    } else if tag == TAG_OBJECT {
        if blen - off < 5 {
            return None;
        }
        let n32 = read_u32(b, off + 1);
        let n = n32 as usize;
        if n > (blen - off - 5) / 8 {
            proof {
                vstd::arithmetic::div_mod::lemma_fundamental_div_mod((blen - off - 5) as int, 8);
            }
            return None;
        }
        proof {
            vstd::arithmetic::div_mod::lemma_fundamental_div_mod((blen - off - 5) as int, 8);
            vstd::arithmetic::div_mod::lemma_mod_pos_bound((blen - off - 5) as int, 8);
        }
        let ghost names = names_of(dict@);
        let mut fields: Vec<(String, VariantValue)> = Vec::new();
        let mut k: usize = 0;
        while k < n
            invariant
                names == names_of(dict@),
                blen == b@.len(),
                off < blen,
                0 <= k <= n,
                off + 5 + 8 * n <= blen,
                b@[off as int] == TAG_OBJECT,
                n == le_at(b@, off as int + 1, 4),
                fields@.len() == k,
                forall|t: int| 0 <= t < k ==> #[trigger] obj_entry_ok(names, b@, off as int, t),
                forall|t: int| 0 <= t < k ==> #[trigger] fields@[t].0@ == names[le_at(
                    b@,
                    off + 5 + 8 * t,
                    4,
                )],
                forall|t: int| 0 <= t < k ==> #[trigger] fields@[t].1@ == dec_val(
                    names,
                    b@,
                    off + le_at(b@, off + 5 + 8 * t + 4, 4),
                )->Some_0,
            decreases n - k,
        {
            let id32 = read_u32(b, off + 5 + 8 * k);
            let rel32 = read_u32(b, off + 5 + 8 * k + 4);
            let rel = rel32 as usize;
            let id = id32 as usize;
            if rel < 1 || rel >= blen - off || id >= dict.len() {
                proof {
                    assert(!obj_entry_ok(names, b@, off as int, k as int));
                    lemma_obj_items_char(names, b@, off as int, n as int, 0);
                }
                return None;
            }
            let name = dict[id].as_str().to_owned();
            match decode_at(dict, b, off + rel) {
                None => {
                    proof {
                        assert(!obj_entry_ok(names, b@, off as int, k as int));
                        lemma_obj_items_char(names, b@, off as int, n as int, 0);
                    }
                    return None;
                },
                Some(child) => {
                    fields.push((name, child));
                },
            }
            k += 1;
        }
        proof {
            lemma_obj_items_char(names, b@, off as int, n as int, 0);
            assert(dec_obj_items(names, b@, off as int, n as int, 0) is Some);
            let s = dec_obj_items(names, b@, off as int, n as int, 0)->Some_0;
            lemma_obj_view(&fields, 0);
            assert(obj_view(&fields, 0) =~= s) by {
                assert forall|i: int| 0 <= i < n implies obj_view(&fields, 0)[i] == s[i] by {
                    assert(obj_view(&fields, 0)[i] == (fields@[0 + i].0@, fields@[0 + i].1@));
                    assert(s[i] == (
                    names[le_at(b@, off + 5 + 8 * (0 + i), 4)],
                    dec_val(names, b@, off + le_at(b@, off + 5 + 8 * (0 + i) + 4, 4))->Some_0,
                    ));
                    assert(fields@[i].0@ == names[le_at(b@, off + 5 + 8 * i, 4)]);
                    assert(fields@[i].1@ == dec_val(
                        names,
                        b@,
                        off + le_at(b@, off + 5 + 8 * i + 4, 4),
                    )->Some_0);
                }
            }
            assert(dec_val(names, b@, off as int) == Some(Val::Object(s)));
        }
        Some(VariantValue::Object(fields))
    } else {
        None
    }
}

} // verus!
