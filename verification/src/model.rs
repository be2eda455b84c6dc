//! The mathematical model of the store and its operations.
//!
//! A store is a finite `Map<Seq<char>, Seq<char>>` from key text to value
//! text. Each operation is described here twice: a function giving the new
//! map (`spec_put`, `spec_remove`) and a function giving the outcome of the
//! call. The executable operations in [`crate::kvengine`] promise exactly
//! these in their contracts, and the laws at the end of this module are
//! proved from the model alone.

use vstd::prelude::*;
use vstd::utf8::encode_utf8;

use crate::errors::Outcome;
use crate::keys::has_nul;
use crate::keys::lex_lt;

verus! {

/// Both texts are free of the reserved terminator and may travel the
/// C-string-compatible path.
pub open spec fn valid_pair(k: Seq<char>, v: Seq<char>) -> bool {
    !has_nul(k) && !has_nul(v)
}

/// The store after `put(k, v)`: unchanged when validation rejects the
/// arguments, otherwise the map with `k` bound to `v`.
pub open spec fn spec_put(m: Map<Seq<char>, Seq<char>>, k: Seq<char>, v: Seq<char>) -> Map<
    Seq<char>,
    Seq<char>,
> {
    if valid_pair(k, v) {
        m.insert(k, v)
    } else {
        m
    }
}

/// The outcome of `put(k, v)`: validation is the only way it fails.
pub open spec fn put_outcome(k: Seq<char>, v: Seq<char>) -> Outcome {
    if valid_pair(k, v) {
        Outcome::Success
    } else {
        Outcome::InvalidArgument
    }
}

/// The store after `remove(k)`: the binding for `k` is gone; removing an
/// invalid or absent key leaves the store unchanged.
pub open spec fn spec_remove(m: Map<Seq<char>, Seq<char>>, k: Seq<char>) -> Map<
    Seq<char>,
    Seq<char>,
> {
    if !has_nul(k) && m.dom().contains(k) {
        m.remove(k)
    } else {
        m
    }
}

/// The outcome of `remove(k)`.
pub open spec fn remove_outcome(m: Map<Seq<char>, Seq<char>>, k: Seq<char>) -> Outcome {
    if has_nul(k) {
        Outcome::InvalidArgument
    } else if m.dom().contains(k) {
        Outcome::Success
    } else {
        Outcome::NotFound(k)
    }
}

/// The outcome of `exists(k)`: presence as a result, so that absence and
/// failure stay distinguishable.
pub open spec fn exists_outcome(m: Map<Seq<char>, Seq<char>>, k: Seq<char>) -> Outcome {
    if has_nul(k) {
        Outcome::InvalidArgument
    } else if m.dom().contains(k) {
        Outcome::Success
    } else {
        Outcome::NotFound(k)
    }
}

/// The outcome of an operation whose only failure is key validation.
pub open spec fn key_outcome(k: Seq<char>) -> Outcome {
    if has_nul(k) {
        Outcome::InvalidArgument
    } else {
        Outcome::Success
    }
}

/// The outcome of `get_copy(k, cap)`: the value must exist and its byte
/// encoding must fit the caller's ceiling of `cap` bytes.
pub open spec fn get_copy_outcome(m: Map<Seq<char>, Seq<char>>, k: Seq<char>, cap: int) -> Outcome {
    if has_nul(k) {
        Outcome::InvalidArgument
    } else if !m.dom().contains(k) {
        Outcome::NotFound(k)
    } else if encode_utf8(m[k]).len() <= cap {
        Outcome::Success
    } else {
        Outcome::Fail
    }
}

/// The view of an optional boundary key.
pub open spec fn opt_view(o: Option<&str>) -> Option<Seq<char>> {
    match o {
        Some(s) => Some(s@),
        None => None,
    }
}

/// A key window for range queries: strictly above `lo` (when given) and
/// strictly below `hi` (when given), in lexicographic order.
pub open spec fn in_window(lo: Option<Seq<char>>, hi: Option<Seq<char>>, k: Seq<char>) -> bool {
    (match lo {
        Some(b) => lex_lt(b, k),
        None => true,
    }) && (match hi {
        Some(b) => lex_lt(k, b),
        None => true,
    })
}

/// The number of keys of `m` inside the window.
pub open spec fn window_count(
    m: Map<Seq<char>, Seq<char>>,
    lo: Option<Seq<char>>,
    hi: Option<Seq<char>>,
) -> nat {
    m.dom().filter((|k: Seq<char>| in_window(lo, hi, k))).len()
}

/// A cardinality clamped to what an `i64` can report.
pub open spec fn count_clamped(n: nat) -> int {
    if n <= i64::MAX as nat {
        n as int
    } else {
        i64::MAX as int
    }
}

/// The caller's pair callback accepts every in-window binding of `m`,
/// delivered as text.
pub open spec fn accepts_pairs_str<F: Fn(&str, &str)>(
    f: F,
    m: Map<Seq<char>, Seq<char>>,
    lo: Option<Seq<char>>,
    hi: Option<Seq<char>>,
) -> bool {
    forall|k: &str, v: &str|
        (m.dom().contains(k@) && in_window(lo, hi, k@) && v@ == m[k@]) ==> #[trigger] call_requires(
            f,
            (k, v),
        )
}

/// Every in-window binding of `m` was delivered to the pair callback as
/// text: for each such binding, some invocation of the callback returned
/// on exactly that key and value.
pub open spec fn visited_pairs_str<F: Fn(&str, &str)>(
    f: F,
    m: Map<Seq<char>, Seq<char>>,
    lo: Option<Seq<char>>,
    hi: Option<Seq<char>>,
) -> bool {
    forall|kk: Seq<char>|
        (#[trigger] m.dom().contains(kk) && in_window(lo, hi, kk)) ==> exists|k: &str, v: &str|
            k@ == kk && v@ == m[kk] && call_ensures(f, (k, v), ())
}

/// The caller's pair callback accepts every in-window binding of `m`,
/// delivered as encoded bytes.
pub open spec fn accepts_pairs_bytes<F: Fn(&[u8], &[u8])>(
    f: F,
    m: Map<Seq<char>, Seq<char>>,
    lo: Option<Seq<char>>,
    hi: Option<Seq<char>>,
) -> bool {
    forall|k: &[u8], v: &[u8], kk: Seq<char>|
        #![trigger call_requires(f, (k, v)), m.dom().contains(kk)]
        (m.dom().contains(kk) && in_window(lo, hi, kk) && k@ == encode_utf8(kk) && v@
            == encode_utf8(m[kk])) ==> call_requires(f, (k, v))
}

/// Every in-window binding of `m` was delivered to the pair callback as
/// encoded bytes.
pub open spec fn visited_pairs_bytes<F: Fn(&[u8], &[u8])>(
    f: F,
    m: Map<Seq<char>, Seq<char>>,
    lo: Option<Seq<char>>,
    hi: Option<Seq<char>>,
) -> bool {
    forall|kk: Seq<char>|
        (#[trigger] m.dom().contains(kk) && in_window(lo, hi, kk)) ==> exists|k: &[u8], v: &[u8]|
            k@ == encode_utf8(kk) && v@ == encode_utf8(m[kk]) && call_ensures(f, (k, v), ())
}

/// The caller's key callback accepts every in-window key of `m`, delivered
/// as text.
pub open spec fn accepts_keys_str<F: Fn(&str)>(
    f: F,
    m: Map<Seq<char>, Seq<char>>,
    lo: Option<Seq<char>>,
    hi: Option<Seq<char>>,
) -> bool {
    forall|k: &str|
        (m.dom().contains(k@) && in_window(lo, hi, k@)) ==> #[trigger] call_requires(f, (k,))
}

/// Every in-window key of `m` was delivered to the key callback as text.
pub open spec fn visited_keys_str<F: Fn(&str)>(
    f: F,
    m: Map<Seq<char>, Seq<char>>,
    lo: Option<Seq<char>>,
    hi: Option<Seq<char>>,
) -> bool {
    forall|kk: Seq<char>|
        (#[trigger] m.dom().contains(kk) && in_window(lo, hi, kk)) ==> exists|k: &str|
            k@ == kk && call_ensures(f, (k,), ())
}

/// The caller's key callback accepts every in-window key of `m`, delivered
/// as encoded bytes.
pub open spec fn accepts_keys_bytes<F: Fn(&[u8])>(
    f: F,
    m: Map<Seq<char>, Seq<char>>,
    lo: Option<Seq<char>>,
    hi: Option<Seq<char>>,
) -> bool {
    forall|k: &[u8], kk: Seq<char>|
        #![trigger call_requires(f, (k,)), m.dom().contains(kk)]
        (m.dom().contains(kk) && in_window(lo, hi, kk) && k@ == encode_utf8(kk)) ==> call_requires(
            f,
            (k,),
        )
}

/// Every in-window key of `m` was delivered to the key callback as encoded
/// bytes.
pub open spec fn visited_keys_bytes<F: Fn(&[u8])>(
    f: F,
    m: Map<Seq<char>, Seq<char>>,
    lo: Option<Seq<char>>,
    hi: Option<Seq<char>>,
) -> bool {
    forall|kk: Seq<char>|
        (#[trigger] m.dom().contains(kk) && in_window(lo, hi, kk)) ==> exists|k: &[u8]|
            k@ == encode_utf8(kk) && call_ensures(f, (k,), ())
}

/// The caller's value callback accepts the value bound to `key` in `m`,
/// delivered as text.
pub open spec fn accepts_value_str<F: Fn(&str)>(
    f: F,
    m: Map<Seq<char>, Seq<char>>,
    key: Seq<char>,
) -> bool {
    forall|v: &str| (m.dom().contains(key) && v@ == m[key]) ==> #[trigger] call_requires(f, (v,))
}

/// The value bound to `key` in `m` was delivered to the value callback as
/// text.
pub open spec fn delivered_value_str<F: Fn(&str)>(
    f: F,
    m: Map<Seq<char>, Seq<char>>,
    key: Seq<char>,
) -> bool {
    exists|v: &str| v@ == m[key] && call_ensures(f, (v,), ())
}

/// The caller's value callback accepts the value bound to `key` in `m`,
/// delivered as encoded bytes.
pub open spec fn accepts_value_bytes<F: Fn(&[u8])>(
    f: F,
    m: Map<Seq<char>, Seq<char>>,
    key: Seq<char>,
) -> bool {
    forall|v: &[u8]|
        (m.dom().contains(key) && v@ == encode_utf8(m[key])) ==> #[trigger] call_requires(f, (v,))
}

/// The value bound to `key` in `m` was delivered to the value callback as
/// encoded bytes.
pub open spec fn delivered_value_bytes<F: Fn(&[u8])>(
    f: F,
    m: Map<Seq<char>, Seq<char>>,
    key: Seq<char>,
) -> bool {
    exists|v: &[u8]| v@ == encode_utf8(m[key]) && call_ensures(f, (v,), ())
}

/// Law: round-trip. For every valid key and value, `put(k, v)` followed by
/// `get_copy(k, cap)` with capacity at least the value's encoded length
/// succeeds and yields exactly `v`.
pub proof fn lemma_put_get_copy_round_trip(
    m: Map<Seq<char>, Seq<char>>,
    k: Seq<char>,
    v: Seq<char>,
    cap: int,
)
    requires
        !has_nul(k),
        !has_nul(v),
        encode_utf8(v).len() <= cap,
    ensures
        get_copy_outcome(spec_put(m, k, v), k, cap) == Outcome::Success,
        spec_put(m, k, v)[k] == v,
{
    broadcast use vstd::map::group_map_axioms;

}

/// Law: idempotent absence. Removing a key that is not bound reports
/// `NotFound(k)`, leaves the store unchanged, and removing it again
/// reports `NotFound(k)` again.
pub proof fn lemma_remove_absent_idempotent(m: Map<Seq<char>, Seq<char>>, k: Seq<char>)
    requires
        !has_nul(k),
        !m.dom().contains(k),
    ensures
        remove_outcome(m, k) == Outcome::NotFound(k),
        spec_remove(m, k) == m,
        remove_outcome(spec_remove(m, k), k) == Outcome::NotFound(k),
{
}

/// Law: exclusive overwrite. After `put(k, v1)` then `put(k, v2)`, reading
/// `k` back with enough capacity yields `v2`.
pub proof fn lemma_put_overwrites(
    m: Map<Seq<char>, Seq<char>>,
    k: Seq<char>,
    v1: Seq<char>,
    v2: Seq<char>,
    cap: int,
)
    requires
        !has_nul(k),
        !has_nul(v1),
        !has_nul(v2),
        encode_utf8(v2).len() <= cap,
    ensures
        spec_put(spec_put(m, k, v1), k, v2)[k] == v2,
        get_copy_outcome(spec_put(spec_put(m, k, v1), k, v2), k, cap) == Outcome::Success,
{
    broadcast use vstd::map::group_map_axioms;

}

/// Law: existence consistency, first half. After `put(k, v)`, `exists(k)`
/// reports success.
pub proof fn lemma_exists_after_put(m: Map<Seq<char>, Seq<char>>, k: Seq<char>, v: Seq<char>)
    requires
        !has_nul(k),
        !has_nul(v),
    ensures
        exists_outcome(spec_put(m, k, v), k) == Outcome::Success,
{
    broadcast use vstd::map::group_map_axioms;

}

/// Law: existence consistency, second half. After `remove(k)`, `exists(k)`
/// reports `NotFound(k)`.
pub proof fn lemma_exists_after_remove(m: Map<Seq<char>, Seq<char>>, k: Seq<char>)
    requires
        !has_nul(k),
    ensures
        exists_outcome(spec_remove(m, k), k) == Outcome::NotFound(k),
{
    broadcast use vstd::map::group_map_axioms;

}

/// Law: count consistency, first half. Binding a fresh valid key grows the
/// count by exactly one.
pub proof fn lemma_count_after_put_fresh(m: Map<Seq<char>, Seq<char>>, k: Seq<char>, v: Seq<char>)
    requires
        m.dom().finite(),
        !m.dom().contains(k),
        !has_nul(k),
        !has_nul(v),
    ensures
        spec_put(m, k, v).dom().finite(),
        spec_put(m, k, v).dom().len() == m.dom().len() + 1,
{
    broadcast use vstd::map::group_map_axioms;
    broadcast use vstd::set::group_set_axioms;

    assert(spec_put(m, k, v).dom() =~= m.dom().insert(k));
}

/// Law: count consistency, second half. Removing a bound key shrinks the
/// count by exactly one.
pub proof fn lemma_count_after_remove(m: Map<Seq<char>, Seq<char>>, k: Seq<char>)
    requires
        m.dom().finite(),
        m.dom().contains(k),
        !has_nul(k),
    ensures
        spec_remove(m, k).dom().finite(),
        spec_remove(m, k).dom().len() == m.dom().len() - 1,
{
    broadcast use vstd::map::group_map_axioms;
    broadcast use vstd::set::group_set_axioms;

    assert(spec_remove(m, k).dom() =~= m.dom().remove(k));
}

/// Law: validation. A `put` whose key holds the reserved terminator fails
/// with `InvalidArgument` and leaves the store — and so its count —
/// untouched.
pub proof fn lemma_put_invalid_key(m: Map<Seq<char>, Seq<char>>, k: Seq<char>, v: Seq<char>)
    requires
        has_nul(k),
    ensures
        put_outcome(k, v) == Outcome::InvalidArgument,
        spec_put(m, k, v) == m,
{
}

} // verus!
