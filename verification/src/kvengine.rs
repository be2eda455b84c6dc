//! The engine handle and its key-value operations.
//!
//! A [`KVEngine`] owns one running store instance. Its abstract state is the
//! finite map `self@` from key text to value text, and a lifecycle flag:
//! the handle is created running by [`KVEngine::start`] and is stopped, at
//! most once and irrevocably, by [`KVEngine::stop`]. Every operation
//! validates its arguments first, then acts on the store, and its contract
//! pins both the outcome and the new state against the model in
//! [`crate::model`].

use vstd::prelude::*;
use vstd::string::StrSliceExecFns;
use vstd::utf8::encode_utf8;

use crate::errors::ErrorKind;
use crate::errors::Outcome;
use crate::errors::outcome_of;
use crate::keys::contains_nul;
use crate::keys::has_nul;
use crate::keys::str_eq;
use crate::keys::str_lt;
use crate::model::put_outcome;
use crate::model::remove_outcome;
use crate::model::exists_outcome;
use crate::model::get_copy_outcome;
use crate::model::spec_put;
use crate::model::spec_remove;
use crate::model::count_clamped;
use crate::model::window_count;
use crate::model::in_window;
use crate::model::opt_view;
use crate::model::key_outcome;
use crate::model::accepts_pairs_str;
use crate::model::visited_pairs_str;
use crate::model::accepts_pairs_bytes;
use crate::model::visited_pairs_bytes;
use crate::model::accepts_keys_str;
use crate::model::visited_keys_str;
use crate::model::accepts_keys_bytes;
use crate::model::visited_keys_bytes;
use crate::model::accepts_value_str;
use crate::model::delivered_value_str;
use crate::model::accepts_value_bytes;
use crate::model::delivered_value_bytes;

verus! {

/// One stored binding: a key and its value.
struct Pair {
    key: String,
    value: String,
}

/// No two entries hold the same key.
spec fn distinct_keys(s: Seq<Pair>) -> bool {
    forall|i: int, j: int| 0 <= i < j < s.len() ==> s[i].key@ != s[j].key@
}

/// The map that a sequence of entries stands for.
spec fn map_of(s: Seq<Pair>) -> Map<Seq<char>, Seq<char>> {
    Map::new(
        |k: Seq<char>| exists|i: int| 0 <= i < s.len() && s[i].key@ == k,
        |k: Seq<char>|
            {
                let i = choose|i: int| 0 <= i < s.len() && s[i].key@ == k;
                s[i].value@
            },
    )
}

/// The entry at index `i` is visible in the map.
proof fn lemma_map_entry(s: Seq<Pair>, i: int)
    requires
        distinct_keys(s),
        0 <= i < s.len(),
    ensures
        map_of(s).dom().contains(s[i].key@),
        map_of(s)[s[i].key@] == s[i].value@,
{
    broadcast use vstd::set::group_set_axioms;

    let k = s[i].key@;
    assert(exists|j: int| 0 <= j < s.len() && s[j].key@ == k);
    let j = choose|j: int| 0 <= j < s.len() && s[j].key@ == k;
    if j != i {
        assert(s[i].key@ != s[j].key@);
    }
}

/// A key matching no entry is absent from the map.
proof fn lemma_map_absent(s: Seq<Pair>, k: Seq<char>)
    requires
        forall|i: int| 0 <= i < s.len() ==> s[i].key@ != k,
    ensures
        !map_of(s).dom().contains(k),
{
    broadcast use vstd::set::group_set_axioms;

}

/// Appending an entry whose key no other entry holds turns the map into
/// its insert.
proof fn lemma_push_fresh(pre: Seq<Pair>, post: Seq<Pair>, k: Seq<char>, v: Seq<char>)
    requires
        distinct_keys(pre),
        forall|i: int| 0 <= i < pre.len() ==> pre[i].key@ != k,
        post.len() == pre.len() + 1,
        forall|i: int| 0 <= i < pre.len() ==> post[i] == pre[i],
        post.last().key@ == k,
        post.last().value@ == v,
    ensures
        distinct_keys(post),
        map_of(post) == map_of(pre).insert(k, v),
{
    broadcast use vstd::set::group_set_axioms;

    let n = pre.len() as int;
    assert(distinct_keys(post));
    assert forall|kk: Seq<char>| #[trigger]
        map_of(post).dom().contains(kk) == map_of(pre).insert(k, v).dom().contains(kk) by {
        if kk == k {
            lemma_map_entry(post, n);
        } else if exists|i: int| 0 <= i < n && pre[i].key@ == kk {
            let i = choose|i: int| 0 <= i < n && pre[i].key@ == kk;
            lemma_map_entry(post, i);
            lemma_map_entry(pre, i);
        } else {
            lemma_map_absent(pre, kk);
            lemma_map_absent(post, kk);
        }
    }
    assert forall|kk: Seq<char>| #[trigger]
        map_of(post).dom().contains(kk) implies map_of(post)[kk] == map_of(pre).insert(
        k,
        v,
    )[kk] by {
        if kk == k {
            lemma_map_entry(post, n);
        } else {
            let i = choose|i: int| 0 <= i < post.len() && post[i].key@ == kk;
            assert(0 <= i < n);
            lemma_map_entry(post, i);
            lemma_map_entry(pre, i);
        }
    }
    assert(map_of(post) =~= map_of(pre).insert(k, v));
}

/// Removing the entry at one index turns the map into its remove at that
/// entry's key.
proof fn lemma_remove_at(s: Seq<Pair>, at: int)
    requires
        distinct_keys(s),
        0 <= at < s.len(),
    ensures
        distinct_keys(s.remove(at)),
        map_of(s.remove(at)) == map_of(s).remove(s[at].key@),
{
    broadcast use vstd::set::group_set_axioms;

    let post = s.remove(at);
    let n = s.len() as int;
    let k = s[at].key@;
    assert(forall|i: int| 0 <= i < at ==> post[i] == s[i]);
    assert(forall|i: int| at <= i < n - 1 ==> post[i] == s[i + 1]);
    assert(distinct_keys(post));
    assert forall|kk: Seq<char>| #[trigger]
        map_of(post).dom().contains(kk) == map_of(s).remove(k).dom().contains(kk) by {
        if kk == k {
            assert forall|i: int| 0 <= i < n - 1 implies post[i].key@ != kk by {
                if i < at {
                    assert(s[i].key@ != s[at].key@);
                } else {
                    assert(s[i + 1].key@ != s[at].key@);
                }
            }
            lemma_map_absent(post, kk);
        } else if exists|i: int| 0 <= i < n && s[i].key@ == kk {
            let i = choose|i: int| 0 <= i < n && s[i].key@ == kk;
            lemma_map_entry(s, i);
            if i < at {
                lemma_map_entry(post, i);
            } else {
                assert(i != at);
                lemma_map_entry(post, i - 1);
            }
        } else {
            lemma_map_absent(s, kk);
            assert forall|i: int| 0 <= i < n - 1 implies post[i].key@ != kk by {
                if i < at {
                    assert(s[i].key@ != kk);
                } else {
                    assert(s[i + 1].key@ != kk);
                }
            }
            lemma_map_absent(post, kk);
        }
    }
    assert forall|kk: Seq<char>| #[trigger]
        map_of(post).dom().contains(kk) implies map_of(post)[kk] == map_of(s).remove(k)[kk] by {
        let i = choose|i: int| 0 <= i < post.len() && post[i].key@ == kk;
        lemma_map_entry(post, i);
        if i < at {
            lemma_map_entry(s, i);
            assert(kk != k);
        } else {
            lemma_map_entry(s, i + 1);
            assert(kk != k);
        }
    }
    assert(map_of(post) =~= map_of(s).remove(k));
}

/// A filter of a duplicate-free sequence is duplicate-free.
proof fn lemma_filter_no_dup<A>(s: Seq<A>, p: spec_fn(A) -> bool)
    requires
        s.no_duplicates(),
    ensures
        s.filter(p).no_duplicates(),
    decreases s.len(),
{
    reveal(Seq::filter);
    if s.len() != 0 {
        let pre = s.drop_last();
        let last = s.last();
        assert(pre.no_duplicates());
        lemma_filter_no_dup(pre, p);
        if p(last) {
            let f = pre.filter(p);
            assert(!f.contains(last)) by {
                if f.contains(last) {
                    pre.lemma_filter_contains_rev(p, last);
                    let i = choose|i: int| 0 <= i < pre.len() && pre[i] == last;
                    assert(s[i] == s[s.len() - 1]);
                }
            }
            assert forall|i: int, j: int|
                0 <= i < j < f.push(last).len() implies f.push(last)[i] != f.push(last)[j] by {
                if j < f.len() {
                    assert(f[i] != f[j]);
                } else {
                    assert(f.push(last)[j] == last);
                    assert(f.contains(f[i]));
                }
            }
        }
    }
}

/// A duplicate-free key sequence has as many keys in a window as its key
/// set has.
proof fn lemma_filtered_count(s: Seq<Seq<char>>, p: spec_fn(Seq<char>) -> bool)
    requires
        s.no_duplicates(),
    ensures
        s.to_set().filter(p).finite(),
        s.to_set().filter(p).len() == s.filter(p).len(),
{
    broadcast use vstd::set::group_set_axioms;
    broadcast use vstd::seq_lib::seq_to_set_is_finite;

    lemma_filter_no_dup(s, p);
    let f = s.filter(p);
    assert forall|x: Seq<char>| f.to_set().contains(x) == s.to_set().filter(p).contains(x) by {
        if f.to_set().contains(x) {
            s.lemma_filter_contains_rev(p, x);
            let i = choose|i: int| 0 <= i < f.len() && f[i] == x;
            s.lemma_filter_pred(p, i);
        }
        if s.to_set().filter(p).contains(x) {
            let i = choose|i: int| 0 <= i < s.len() && s[i] == x;
            s.lemma_filter_contains(p, i);
        }
    }
    assert(f.to_set() =~= s.to_set().filter(p));
    f.unique_seq_to_set();
}

/// A handle to one running store instance.
///
/// The store is held in memory; the handle is the single owner. A handle is
/// either running or stopped, and a stopped handle stays stopped.
pub struct KVEngine {
    entries: Vec<Pair>,
    active: bool,
}

impl View for KVEngine {
    type V = Map<Seq<char>, Seq<char>>;

    /// The abstract store: each stored key bound to its value.
    closed spec fn view(&self) -> Map<Seq<char>, Seq<char>> {
        map_of(self.entries@)
    }
}

impl KVEngine {
    /// Whether the handle still owns a running instance.
    pub closed spec fn is_running(self) -> bool {
        self.active
    }

    /// The stored keys, in storage order.
    spec fn keys(self) -> Seq<Seq<char>> {
        self.entries@.map_values(|p: Pair| p.key@)
    }

    #[verifier::type_invariant]
    spec fn inv(self) -> bool {
        distinct_keys(self.entries@)
    }

    /// Finds the index of the entry holding `key`, if there is one.
    fn find_index(&self, key: &str) -> (r: Option<usize>)
        ensures
            (match r {
                Some(i) => i < self.entries@.len() && self.entries@[i as int].key@ == key@,
                None => forall|i: int|
                    0 <= i < self.entries@.len() ==> self.entries@[i].key@ != key@,
            }),
    {
        let n = self.entries.len();
        let mut i: usize = 0;
        while i < n
            invariant
                n == self.entries@.len(),
                0 <= i <= n,
                forall|j: int| 0 <= j < i ==> self.entries@[j].key@ != key@,
            decreases n - i,
        {
            if str_eq(self.entries[i].key.as_str(), key) {
                return Some(i);
            }
            i += 1;
        }
        None
    }

    /// Starts a fresh instance for the named engine and configuration.
    ///
    /// Both strings are serialized to a C-string-compatible form, so each is
    /// rejected with `InvalidArgument` when it holds an embedded terminator;
    /// on success the handle owns a running, empty store. The failure
    /// callback reports startup failures of the engine itself; validation
    /// failures are reported through the result instead, and a fresh
    /// in-memory instance has no other way to fail to start, so the
    /// callback is never invoked.
    pub fn start<F: Fn(&str, &str, &str)>(engine: &str, config: &str, callback: Option<F>) -> (r:
        Result<KVEngine, ErrorKind>)
        ensures
            (match r {
                Ok(kv) => !has_nul(engine@) && !has_nul(config@) && kv.is_running() && kv@ =~= Map::<
                    Seq<char>,
                    Seq<char>,
                >::empty(),
                Err(e) => (has_nul(engine@) || has_nul(config@)) && e@ == Outcome::InvalidArgument,
            }),
    {
        if contains_nul(engine) || contains_nul(config) {
            return Err(ErrorKind::InvalidArgument);
        }
        let kv = KVEngine { entries: Vec::new(), active: true };
        proof {
            broadcast use vstd::set::group_set_axioms;

            assert(kv@ =~= Map::<Seq<char>, Seq<char>>::empty());
        }
        Ok(kv)
    }

    /// Starts a fresh instance; the text-oriented twin of [`KVEngine::start`].
    pub fn start_string<F: Fn(&str, &str, &str)>(
        engine: &str,
        config: &str,
        callback: Option<F>,
    ) -> (r: Result<KVEngine, ErrorKind>)
        ensures
            (match r {
                Ok(kv) => !has_nul(engine@) && !has_nul(config@) && kv.is_running() && kv@ =~= Map::<
                    Seq<char>,
                    Seq<char>,
                >::empty(),
                Err(e) => (has_nul(engine@) || has_nul(config@)) && e@ == Outcome::InvalidArgument,
            }),
    {
        KVEngine::start(engine, config, callback)
    }

    /// Stops the instance. Idempotent: a stopped handle stays stopped, and
    /// the underlying release happens at most once. The stored data is kept
    /// by the (persistent) store itself.
    pub fn stop(&mut self)
        ensures
            !final(self).is_running(),
            final(self)@ == old(self)@,
    {
        proof {
            use_type_invariant(&*self);
        }
        self.active = false;
    }

    /// Whether this handle is still running; a caller must not use a
    /// stopped handle for store operations.
    pub fn running(&self) -> (r: bool)
        ensures
            r == self.is_running(),
    {
        self.active
    }

    /// Binds `key` to `value`, overwriting any existing binding.
    pub fn put(&mut self, key: &str, value: &str) -> (r: Result<(), ErrorKind>)
        requires
            old(self).is_running(),
        ensures
            final(self).is_running(),
            final(self)@ == spec_put(old(self)@, key@, value@),
            outcome_of(r) == put_outcome(key@, value@),
    {
        proof {
            use_type_invariant(&*self);
        }
        if contains_nul(key) || contains_nul(value) {
            return Err(ErrorKind::InvalidArgument);
        }
        let pos = self.find_index(key);
        let pair = Pair { key: key.to_owned(), value: value.to_owned() };
        let ghost pre = self.entries@;
        let mut entries: Vec<Pair> = Vec::new();
        core::mem::swap(&mut entries, &mut self.entries);
        match pos {
            Some(i) => {
                entries.remove(i);
                let ghost mid = entries@;
                entries.push(pair);
                proof {
                    lemma_remove_at(pre, i as int);
                    lemma_push_fresh(mid, entries@, key@, value@);
                    assert(map_of(entries@) =~= map_of(pre).insert(key@, value@));
                }
            },
            None => {
                entries.push(pair);
                proof {
                    lemma_push_fresh(pre, entries@, key@, value@);
                }
            },
        }
        core::mem::swap(&mut entries, &mut self.entries);
        Ok(())
    }

    /// Unbinds `key`; reports `NotFound` when it was absent.
    pub fn remove(&mut self, key: &str) -> (r: Result<(), ErrorKind>)
        requires
            old(self).is_running(),
        ensures
            final(self).is_running(),
            final(self)@ == spec_remove(old(self)@, key@),
            outcome_of(r) == remove_outcome(old(self)@, key@),
    {
        proof {
            use_type_invariant(&*self);
        }
        if contains_nul(key) {
            return Err(ErrorKind::InvalidArgument);
        }
        let pos = self.find_index(key);
        match pos {
            Some(i) => {
                let ghost pre = self.entries@;
                let mut entries: Vec<Pair> = Vec::new();
                core::mem::swap(&mut entries, &mut self.entries);
                entries.remove(i);
                proof {
                    lemma_remove_at(pre, i as int);
                    lemma_map_entry(pre, i as int);
                }
                core::mem::swap(&mut entries, &mut self.entries);
                Ok(())
            },
            None => {
                proof {
                    lemma_map_absent(self.entries@, key@);
                }
                Err(ErrorKind::NotFound(key.to_owned()))
            },
        }
    }

    /// Copies the value bound to `key` out of the store, into a buffer of
    /// at most `max_value_bytes` bytes: `NotFound` when the key is absent,
    /// `Fail` when the encoded value does not fit the ceiling.
    pub fn get_copy(&self, key: &str, max_value_bytes: i32) -> (r: Result<String, ErrorKind>)
        requires
            self.is_running(),
        ensures
            (match r {
                Ok(s) => get_copy_outcome(self@, key@, max_value_bytes as int) == Outcome::Success
                    && s@ == self@[key@],
                Err(e) => e@ == get_copy_outcome(self@, key@, max_value_bytes as int),
            }),
    {
        proof {
            use_type_invariant(self);
        }
        if contains_nul(key) {
            return Err(ErrorKind::InvalidArgument);
        }
        match self.find_index(key) {
            None => {
                proof {
                    lemma_map_absent(self.entries@, key@);
                }
                Err(ErrorKind::NotFound(key.to_owned()))
            },
            Some(i) => {
                proof {
                    lemma_map_entry(self.entries@, i as int);
                }
                let value = &self.entries[i].value;
                let byte_len = value.as_str().as_bytes().len();
                proof {
                    broadcast use vstd::slice::axiom_spec_len;

                }
                if max_value_bytes >= 0 && byte_len <= max_value_bytes as usize {
                    Ok(value.clone())
                } else {
                    Err(ErrorKind::Fail)
                }
            },
        }
    }

    /// The abstract store is finite, with one key per entry.
    proof fn lemma_dom_len(&self)
        requires
            self.inv(),
        ensures
            self@.dom() =~= self.keys().to_set(),
            self@.dom().finite(),
            self@.dom().len() == self.entries@.len(),
    {
        broadcast use vstd::set::group_set_axioms;
        broadcast use vstd::seq_lib::seq_to_set_is_finite;

        let ks = self.keys();
        assert(ks.no_duplicates());
        assert forall|k: Seq<char>|
            self@.dom().contains(k) == ks.to_set().contains(k) by {
            if self@.dom().contains(k) {
                let i = choose|i: int|
                    0 <= i < self.entries@.len() && self.entries@[i].key@ == k;
                assert(ks[i] == k);
            }
            if ks.to_set().contains(k) {
                let i = choose|i: int| 0 <= i < ks.len() && ks[i] == k;
                assert(self.entries@[i].key@ == k);
            }
        }
        assert(self@.dom() =~= ks.to_set());
        ks.unique_seq_to_set();
    }

    /// The number of stored keys, clamped to what an `i64` can report.
    pub fn count(&self) -> (r: i64)
        requires
            self.is_running(),
        ensures
            r as int == count_clamped(self@.dom().len()),
    {
        proof {
            use_type_invariant(self);
            self.lemma_dom_len();
        }
        let n = self.entries.len();
        if (n as u64) <= (i64::MAX as u64) {
            n as i64
        } else {
            i64::MAX
        }
    }

    /// Counts the keys inside the window, clamped to what an `i64` can
    /// report.
    fn count_window(&self, lo: Option<&str>, hi: Option<&str>) -> (r: i64)
        ensures
            r as int == count_clamped(window_count(self@, opt_view(lo), opt_view(hi))),
    {
        proof {
            use_type_invariant(self);
        }
        let ghost wp = |k: Seq<char>| in_window(opt_view(lo), opt_view(hi), k);
        let n = self.entries.len();
        let mut cnt: usize = 0;
        let mut i: usize = 0;
        proof {
            assert(self.keys().take(0int) =~= Seq::<Seq<char>>::empty());
            reveal(Seq::filter);
            assert(Seq::<Seq<char>>::empty().filter(wp).len() == 0);
        }
        while i < n
            invariant
                n == self.entries@.len(),
                0 <= i <= n,
                cnt <= i,
                distinct_keys(self.entries@),
                cnt as int == self.keys().take(i as int).filter(wp).len(),
                wp == (|k: Seq<char>| in_window(opt_view(lo), opt_view(hi), k)),
            decreases n - i,
        {
            let e = &self.entries[i];
            let in_lo = match lo {
                Some(b) => str_lt(b, e.key.as_str()),
                None => true,
            };
            let in_hi = match hi {
                Some(b) => str_lt(e.key.as_str(), b),
                None => true,
            };
            proof {
                let ks = self.keys();
                assert(ks[i as int] == self.entries@[i as int].key@);
                ks.lemma_take_succ_push(i as int);
                ks.take(i as int).lemma_filter_len_push(wp, ks[i as int]);
                assert(wp(ks[i as int]) == (in_lo && in_hi));
            }
            if in_lo && in_hi {
                cnt += 1;
            }
            i += 1;
        }
        proof {
            let ks = self.keys();
            assert(ks.take(n as int) =~= ks);
            self.lemma_dom_len();
            assert(ks.no_duplicates());
            lemma_filtered_count(ks, wp);
            assert forall|k: Seq<char>|
                ks.to_set().filter(wp).contains(k) == self@.dom().filter(
                    (|k: Seq<char>| in_window(opt_view(lo), opt_view(hi), k)),
                ).contains(k) by {
                broadcast use vstd::set::group_set_axioms;

            }
            assert(ks.to_set().filter(wp) =~= self@.dom().filter(
                (|k: Seq<char>| in_window(opt_view(lo), opt_view(hi), k)),
            ));
        }
        if (cnt as u64) <= (i64::MAX as u64) {
            cnt as i64
        } else {
            i64::MAX
        }
    }

    /// The number of keys strictly above `key`, in lexicographic order.
    pub fn count_above(&self, key: &str) -> (r: Result<i64, ErrorKind>)
        requires
            self.is_running(),
        ensures
            (match r {
                Ok(n) => !has_nul(key@) && n as int == count_clamped(
                    window_count(self@, Some(key@), None),
                ),
                Err(e) => has_nul(key@) && e@ == Outcome::InvalidArgument,
            }),
    {
        if contains_nul(key) {
            return Err(ErrorKind::InvalidArgument);
        }
        Ok(self.count_window(Some(key), None))
    }

    /// The number of keys strictly below `key`, in lexicographic order.
    pub fn count_below(&self, key: &str) -> (r: Result<i64, ErrorKind>)
        requires
            self.is_running(),
        ensures
            (match r {
                Ok(n) => !has_nul(key@) && n as int == count_clamped(
                    window_count(self@, None, Some(key@)),
                ),
                Err(e) => has_nul(key@) && e@ == Outcome::InvalidArgument,
            }),
    {
        if contains_nul(key) {
            return Err(ErrorKind::InvalidArgument);
        }
        Ok(self.count_window(None, Some(key)))
    }

    /// The number of keys strictly between `key1` and `key2`, in
    /// lexicographic order.
    pub fn count_between(&self, key1: &str, key2: &str) -> (r: Result<i64, ErrorKind>)
        requires
            self.is_running(),
        ensures
            (match r {
                Ok(n) => !has_nul(key1@) && !has_nul(key2@) && n as int == count_clamped(
                    window_count(self@, Some(key1@), Some(key2@)),
                ),
                Err(e) => (has_nul(key1@) || has_nul(key2@)) && e@ == Outcome::InvalidArgument,
            }),
    {
        if contains_nul(key1) || contains_nul(key2) {
            return Err(ErrorKind::InvalidArgument);
        }
        Ok(self.count_window(Some(key1), Some(key2)))
    }

    /// Walks the in-window entries, handing each key and value to `f` as
    /// text.
    fn scan_pairs_str<F: Fn(&str, &str)>(&self, lo: Option<&str>, hi: Option<&str>, f: F)
        requires
            accepts_pairs_str(f, self@, opt_view(lo), opt_view(hi)),
        ensures
            visited_pairs_str(f, self@, opt_view(lo), opt_view(hi)),
    {
        proof {
            use_type_invariant(self);
        }
        let n = self.entries.len();
        let mut i: usize = 0;
        while i < n
            invariant
                n == self.entries@.len(),
                0 <= i <= n,
                distinct_keys(self.entries@),
                accepts_pairs_str(f, self@, opt_view(lo), opt_view(hi)),
                forall|j: int|
                    0 <= j < i && in_window(opt_view(lo), opt_view(hi), self.entries@[j].key@)
                        ==> exists|k: &str, v: &str|
                        k@ == self.entries@[j].key@ && v@ == self.entries@[j].value@
                            && call_ensures(f, (k, v), ()),
            decreases n - i,
        {
            let e = &self.entries[i];
            let in_lo = match lo {
                Some(b) => str_lt(b, e.key.as_str()),
                None => true,
            };
            let in_hi = match hi {
                Some(b) => str_lt(e.key.as_str(), b),
                None => true,
            };
            if in_lo && in_hi {
                let ka = e.key.as_str();
                let va = e.value.as_str();
                proof {
                    lemma_map_entry(self.entries@, i as int);
                    assert(self@.dom().contains(ka@));
                    assert(in_window(opt_view(lo), opt_view(hi), ka@));
                    assert(va@ == self@[ka@]);
                }
                f(ka, va);
            }
            i += 1;
        }
        proof {
            broadcast use vstd::set::group_set_axioms;

            assert forall|kk: Seq<char>|
                self@.dom().contains(kk) && in_window(opt_view(lo), opt_view(hi), kk) implies (
            exists|k: &str, v: &str| k@ == kk && v@ == self@[kk] && call_ensures(
                f,
                (k, v),
                (),
            )) by {
                let j = choose|j: int|
                    0 <= j < self.entries@.len() && self.entries@[j].key@ == kk;
                lemma_map_entry(self.entries@, j);
            }
        }
    }

    /// Walks the in-window entries, handing each key and value to `f` as
    /// encoded bytes.
    fn scan_pairs_bytes<F: Fn(&[u8], &[u8])>(&self, lo: Option<&str>, hi: Option<&str>, f: F)
        requires
            accepts_pairs_bytes(f, self@, opt_view(lo), opt_view(hi)),
        ensures
            visited_pairs_bytes(f, self@, opt_view(lo), opt_view(hi)),
    {
        proof {
            use_type_invariant(self);
        }
        let n = self.entries.len();
        let mut i: usize = 0;
        while i < n
            invariant
                n == self.entries@.len(),
                0 <= i <= n,
                distinct_keys(self.entries@),
                accepts_pairs_bytes(f, self@, opt_view(lo), opt_view(hi)),
                forall|j: int|
                    0 <= j < i && in_window(opt_view(lo), opt_view(hi), self.entries@[j].key@)
                        ==> exists|k: &[u8], v: &[u8]|
                        k@ == encode_utf8(self.entries@[j].key@) && v@ == encode_utf8(
                            self.entries@[j].value@,
                        ) && call_ensures(f, (k, v), ()),
            decreases n - i,
        {
            let e = &self.entries[i];
            let in_lo = match lo {
                Some(b) => str_lt(b, e.key.as_str()),
                None => true,
            };
            let in_hi = match hi {
                Some(b) => str_lt(e.key.as_str(), b),
                None => true,
            };
            if in_lo && in_hi {
                let ka = e.key.as_str().as_bytes();
                let va = e.value.as_str().as_bytes();
                proof {
                    lemma_map_entry(self.entries@, i as int);
                    assert(self@.dom().contains(e.key@));
                    assert(in_window(opt_view(lo), opt_view(hi), e.key@));
                    assert(ka@ == encode_utf8(e.key@));
                    assert(va@ == encode_utf8(self@[e.key@]));
                }
                f(ka, va);
            }
            i += 1;
        }
        proof {
            broadcast use vstd::set::group_set_axioms;

            assert forall|kk: Seq<char>|
                self@.dom().contains(kk) && in_window(opt_view(lo), opt_view(hi), kk) implies (
            exists|k: &[u8], v: &[u8]| k@ == encode_utf8(kk) && v@ == encode_utf8(self@[kk])
                && call_ensures(f, (k, v), ())) by {
                let j = choose|j: int|
                    0 <= j < self.entries@.len() && self.entries@[j].key@ == kk;
                lemma_map_entry(self.entries@, j);
            }
        }
    }

    /// Walks the in-window entries, handing each key to `f` as text.
    fn scan_keys_str<F: Fn(&str)>(&self, lo: Option<&str>, hi: Option<&str>, f: F)
        requires
            accepts_keys_str(f, self@, opt_view(lo), opt_view(hi)),
        ensures
            visited_keys_str(f, self@, opt_view(lo), opt_view(hi)),
    {
        proof {
            use_type_invariant(self);
        }
        let n = self.entries.len();
        let mut i: usize = 0;
        while i < n
            invariant
                n == self.entries@.len(),
                0 <= i <= n,
                distinct_keys(self.entries@),
                accepts_keys_str(f, self@, opt_view(lo), opt_view(hi)),
                forall|j: int|
                    0 <= j < i && in_window(opt_view(lo), opt_view(hi), self.entries@[j].key@)
                        ==> exists|k: &str|
                        k@ == self.entries@[j].key@ && call_ensures(f, (k,), ()),
            decreases n - i,
        {
            let e = &self.entries[i];
            let in_lo = match lo {
                Some(b) => str_lt(b, e.key.as_str()),
                None => true,
            };
            let in_hi = match hi {
                Some(b) => str_lt(e.key.as_str(), b),
                None => true,
            };
            if in_lo && in_hi {
                let ka = e.key.as_str();
                proof {
                    lemma_map_entry(self.entries@, i as int);
                    assert(self@.dom().contains(ka@));
                    assert(in_window(opt_view(lo), opt_view(hi), ka@));
                }
                f(ka);
            }
            i += 1;
        }
        proof {
            broadcast use vstd::set::group_set_axioms;

            assert forall|kk: Seq<char>|
                self@.dom().contains(kk) && in_window(opt_view(lo), opt_view(hi), kk) implies (
            exists|k: &str| k@ == kk && call_ensures(f, (k,), ())) by {
                let j = choose|j: int|
                    0 <= j < self.entries@.len() && self.entries@[j].key@ == kk;
                lemma_map_entry(self.entries@, j);
            }
        }
    }

    /// Walks the in-window entries, handing each key to `f` as encoded
    /// bytes.
    fn scan_keys_bytes<F: Fn(&[u8])>(&self, lo: Option<&str>, hi: Option<&str>, f: F)
        requires
            accepts_keys_bytes(f, self@, opt_view(lo), opt_view(hi)),
        ensures
            visited_keys_bytes(f, self@, opt_view(lo), opt_view(hi)),
    {
        proof {
            use_type_invariant(self);
        }
        let n = self.entries.len();
        let mut i: usize = 0;
        while i < n
            invariant
                n == self.entries@.len(),
                0 <= i <= n,
                distinct_keys(self.entries@),
                accepts_keys_bytes(f, self@, opt_view(lo), opt_view(hi)),
                forall|j: int|
                    0 <= j < i && in_window(opt_view(lo), opt_view(hi), self.entries@[j].key@)
                        ==> exists|k: &[u8]|
                        k@ == encode_utf8(self.entries@[j].key@) && call_ensures(f, (k,), ()),
            decreases n - i,
        {
            let e = &self.entries[i];
            let in_lo = match lo {
                Some(b) => str_lt(b, e.key.as_str()),
                None => true,
            };
            let in_hi = match hi {
                Some(b) => str_lt(e.key.as_str(), b),
                None => true,
            };
            if in_lo && in_hi {
                let ka = e.key.as_str().as_bytes();
                proof {
                    lemma_map_entry(self.entries@, i as int);
                    assert(self@.dom().contains(e.key@));
                    assert(in_window(opt_view(lo), opt_view(hi), e.key@));
                    assert(ka@ == encode_utf8(e.key@));
                }
                f(ka);
            }
            i += 1;
        }
        proof {
            broadcast use vstd::set::group_set_axioms;

            assert forall|kk: Seq<char>|
                self@.dom().contains(kk) && in_window(opt_view(lo), opt_view(hi), kk) implies (
            exists|k: &[u8]| k@ == encode_utf8(kk) && call_ensures(f, (k,), ())) by {
                let j = choose|j: int|
                    0 <= j < self.entries@.len() && self.entries@[j].key@ == kk;
                lemma_map_entry(self.entries@, j);
            }
        }
    }

    /// Hands the value bound to `key`, if any, to the callback as encoded
    /// bytes, without copying it out of the store. Absence is not reported:
    /// the callback is simply not invoked.
    pub fn get<F: Fn(&[u8])>(&self, key: &str, callback: Option<F>) -> (r: Result<(), ErrorKind>)
        requires
            self.is_running(),
            (match callback {
                Some(f) => accepts_value_bytes(f, self@, key@),
                None => true,
            }),
        ensures
            outcome_of(r) == key_outcome(key@),
            (match callback {
                Some(f) => (!has_nul(key@) && self@.dom().contains(key@))
                    ==> delivered_value_bytes(f, self@, key@),
                None => true,
            }),
    {
        proof {
            use_type_invariant(self);
        }
        if contains_nul(key) {
            return Err(ErrorKind::InvalidArgument);
        }
        match callback {
            Some(f) => {
                match self.find_index(key) {
                    Some(i) => {
                        proof {
                            lemma_map_entry(self.entries@, i as int);
                        }
                        let vb = self.entries[i].value.as_str().as_bytes();
                        f(vb);
                    },
                    None => {
                        proof {
                            lemma_map_absent(self.entries@, key@);
                        }
                    },
                }
            },
            None => {},
        }
        Ok(())
    }

    /// Hands the value bound to `key`, if any, to the callback as text,
    /// without copying it out of the store. Absence is not reported: the
    /// callback is simply not invoked.
    pub fn get_string<F: Fn(&str)>(&self, key: &str, callback: Option<F>) -> (r: Result<
        (),
        ErrorKind,
    >)
        requires
            self.is_running(),
            (match callback {
                Some(f) => accepts_value_str(f, self@, key@),
                None => true,
            }),
        ensures
            outcome_of(r) == key_outcome(key@),
            (match callback {
                Some(f) => (!has_nul(key@) && self@.dom().contains(key@)) ==> delivered_value_str(
                    f,
                    self@,
                    key@,
                ),
                None => true,
            }),
    {
        proof {
            use_type_invariant(self);
        }
        if contains_nul(key) {
            return Err(ErrorKind::InvalidArgument);
        }
        match callback {
            Some(f) => {
                match self.find_index(key) {
                    Some(i) => {
                        proof {
                            lemma_map_entry(self.entries@, i as int);
                        }
                        let va = self.entries[i].value.as_str();
                        f(va);
                    },
                    None => {
                        proof {
                            lemma_map_absent(self.entries@, key@);
                        }
                    },
                }
            },
            None => {},
        }
        Ok(())
    }

    /// Hands every stored key and value to the callback as encoded bytes,
    /// one invocation per binding, in storage order.
    pub fn each<F: Fn(&[u8], &[u8])>(&self, callback: Option<F>)
        requires
            self.is_running(),
            (match callback {
                Some(f) => accepts_pairs_bytes(f, self@, None, None),
                None => true,
            }),
        ensures
            (match callback {
                Some(f) => visited_pairs_bytes(f, self@, None, None),
                None => true,
            }),
    {
        match callback {
            Some(f) => self.scan_pairs_bytes(None, None, f),
            None => (),
        }
    }

    /// Hands every stored key and value to the callback as text, one
    /// invocation per binding, in storage order.
    pub fn each_string<F: Fn(&str, &str)>(&self, callback: Option<F>)
        requires
            self.is_running(),
            (match callback {
                Some(f) => accepts_pairs_str(f, self@, None, None),
                None => true,
            }),
        ensures
            (match callback {
                Some(f) => visited_pairs_str(f, self@, None, None),
                None => true,
            }),
    {
        match callback {
            Some(f) => self.scan_pairs_str(None, None, f),
            None => (),
        }
    }

    /// Hands every binding whose key is strictly above `key` to the
    /// callback as encoded bytes.
    pub fn each_above<F: Fn(&[u8], &[u8])>(&self, key: &str, callback: Option<F>) -> (r: Result<
        (),
        ErrorKind,
    >)
        requires
            self.is_running(),
            (match callback {
                Some(f) => accepts_pairs_bytes(f, self@, Some(key@), None),
                None => true,
            }),
        ensures
            outcome_of(r) == key_outcome(key@),
            (match callback {
                Some(f) => !has_nul(key@) ==> visited_pairs_bytes(f, self@, Some(key@), None),
                None => true,
            }),
    {
        if contains_nul(key) {
            return Err(ErrorKind::InvalidArgument);
        }
        match callback {
            Some(f) => self.scan_pairs_bytes(Some(key), None, f),
            None => (),
        }
        Ok(())
    }

    /// Hands every binding whose key is strictly above `key` to the
    /// callback as text.
    pub fn each_above_string<F: Fn(&str, &str)>(&self, key: &str, callback: Option<F>) -> (r:
        Result<(), ErrorKind>)
        requires
            self.is_running(),
            (match callback {
                Some(f) => accepts_pairs_str(f, self@, Some(key@), None),
                None => true,
            }),
        ensures
            outcome_of(r) == key_outcome(key@),
            (match callback {
                Some(f) => !has_nul(key@) ==> visited_pairs_str(f, self@, Some(key@), None),
                None => true,
            }),
    {
        if contains_nul(key) {
            return Err(ErrorKind::InvalidArgument);
        }
        match callback {
            Some(f) => self.scan_pairs_str(Some(key), None, f),
            None => (),
        }
        Ok(())
    }

    /// Hands every binding whose key is strictly below `key` to the
    /// callback as encoded bytes.
    pub fn each_below<F: Fn(&[u8], &[u8])>(&self, key: &str, callback: Option<F>) -> (r: Result<
        (),
        ErrorKind,
    >)
        requires
            self.is_running(),
            (match callback {
                Some(f) => accepts_pairs_bytes(f, self@, None, Some(key@)),
                None => true,
            }),
        ensures
            outcome_of(r) == key_outcome(key@),
            (match callback {
                Some(f) => !has_nul(key@) ==> visited_pairs_bytes(f, self@, None, Some(key@)),
                None => true,
            }),
    {
        if contains_nul(key) {
            return Err(ErrorKind::InvalidArgument);
        }
        match callback {
            Some(f) => self.scan_pairs_bytes(None, Some(key), f),
            None => (),
        }
        Ok(())
    }

    /// Hands every binding whose key is strictly below `key` to the
    /// callback as text.
    pub fn each_below_string<F: Fn(&str, &str)>(&self, key: &str, callback: Option<F>) -> (r:
        Result<(), ErrorKind>)
        requires
            self.is_running(),
            (match callback {
                Some(f) => accepts_pairs_str(f, self@, None, Some(key@)),
                None => true,
            }),
        ensures
            outcome_of(r) == key_outcome(key@),
            (match callback {
                Some(f) => !has_nul(key@) ==> visited_pairs_str(f, self@, None, Some(key@)),
                None => true,
            }),
    {
        if contains_nul(key) {
            return Err(ErrorKind::InvalidArgument);
        }
        match callback {
            Some(f) => self.scan_pairs_str(None, Some(key), f),
            None => (),
        }
        Ok(())
    }

    /// Hands every binding whose key is strictly between `key1` and `key2`
    /// to the callback as encoded bytes.
    pub fn each_between<F: Fn(&[u8], &[u8])>(
        &self,
        key1: &str,
        key2: &str,
        callback: Option<F>,
    ) -> (r: Result<(), ErrorKind>)
        requires
            self.is_running(),
            (match callback {
                Some(f) => accepts_pairs_bytes(f, self@, Some(key1@), Some(key2@)),
                None => true,
            }),
        ensures
            outcome_of(r) == (if has_nul(key1@) || has_nul(key2@) {
                Outcome::InvalidArgument
            } else {
                Outcome::Success
            }),
            (match callback {
                Some(f) => (!has_nul(key1@) && !has_nul(key2@)) ==> visited_pairs_bytes(
                    f,
                    self@,
                    Some(key1@),
                    Some(key2@),
                ),
                None => true,
            }),
    {
        if contains_nul(key1) || contains_nul(key2) {
            return Err(ErrorKind::InvalidArgument);
        }
        match callback {
            Some(f) => self.scan_pairs_bytes(Some(key1), Some(key2), f),
            None => (),
        }
        Ok(())
    }

    /// Hands every binding whose key is strictly between `key1` and `key2`
    /// to the callback as text.
    pub fn each_between_string<F: Fn(&str, &str)>(
        &self,
        key1: &str,
        key2: &str,
        callback: Option<F>,
    ) -> (r: Result<(), ErrorKind>)
        requires
            self.is_running(),
            (match callback {
                Some(f) => accepts_pairs_str(f, self@, Some(key1@), Some(key2@)),
                None => true,
            }),
        ensures
            outcome_of(r) == (if has_nul(key1@) || has_nul(key2@) {
                Outcome::InvalidArgument
            } else {
                Outcome::Success
            }),
            (match callback {
                Some(f) => (!has_nul(key1@) && !has_nul(key2@)) ==> visited_pairs_str(
                    f,
                    self@,
                    Some(key1@),
                    Some(key2@),
                ),
                None => true,
            }),
    {
        if contains_nul(key1) || contains_nul(key2) {
            return Err(ErrorKind::InvalidArgument);
        }
        match callback {
            Some(f) => self.scan_pairs_str(Some(key1), Some(key2), f),
            None => (),
        }
        Ok(())
    }

    /// Hands every stored key to the callback as encoded bytes, one
    /// invocation per key, in storage order.
    pub fn all<F: Fn(&[u8])>(&mut self, callback: Option<F>)
        requires
            old(self).is_running(),
            (match callback {
                Some(f) => accepts_keys_bytes(f, old(self)@, None, None),
                None => true,
            }),
        ensures
            *final(self) == *old(self),
            (match callback {
                Some(f) => visited_keys_bytes(f, old(self)@, None, None),
                None => true,
            }),
    {
        match callback {
            Some(f) => self.scan_keys_bytes(None, None, f),
            None => (),
        }
    }

    /// Hands every stored key to the callback as text, one invocation per
    /// key, in storage order.
    pub fn all_string<F: Fn(&str)>(&mut self, callback: Option<F>)
        requires
            old(self).is_running(),
            (match callback {
                Some(f) => accepts_keys_str(f, old(self)@, None, None),
                None => true,
            }),
        ensures
            *final(self) == *old(self),
            (match callback {
                Some(f) => visited_keys_str(f, old(self)@, None, None),
                None => true,
            }),
    {
        match callback {
            Some(f) => self.scan_keys_str(None, None, f),
            None => (),
        }
    }

    /// Hands every key strictly above `key` to the callback as encoded
    /// bytes.
    pub fn all_above<F: Fn(&[u8])>(&mut self, key: &str, callback: Option<F>) -> (r: Result<
        (),
        ErrorKind,
    >)
        requires
            old(self).is_running(),
            (match callback {
                Some(f) => accepts_keys_bytes(f, old(self)@, Some(key@), None),
                None => true,
            }),
        ensures
            *final(self) == *old(self),
            outcome_of(r) == key_outcome(key@),
            (match callback {
                Some(f) => !has_nul(key@) ==> visited_keys_bytes(f, old(self)@, Some(key@), None),
                None => true,
            }),
    {
        if contains_nul(key) {
            return Err(ErrorKind::InvalidArgument);
        }
        match callback {
            Some(f) => self.scan_keys_bytes(Some(key), None, f),
            None => (),
        }
        Ok(())
    }

    /// Hands every key strictly above `key` to the callback as text.
    pub fn all_above_string<F: Fn(&str)>(&mut self, key: &str, callback: Option<F>) -> (r: Result<
        (),
        ErrorKind,
    >)
        requires
            old(self).is_running(),
            (match callback {
                Some(f) => accepts_keys_str(f, old(self)@, Some(key@), None),
                None => true,
            }),
        ensures
            *final(self) == *old(self),
            outcome_of(r) == key_outcome(key@),
            (match callback {
                Some(f) => !has_nul(key@) ==> visited_keys_str(f, old(self)@, Some(key@), None),
                None => true,
            }),
    {
        if contains_nul(key) {
            return Err(ErrorKind::InvalidArgument);
        }
        match callback {
            Some(f) => self.scan_keys_str(Some(key), None, f),
            None => (),
        }
        Ok(())
    }

    /// Hands every key strictly below `key` to the callback as encoded
    /// bytes.
    pub fn all_below<F: Fn(&[u8])>(&mut self, key: &str, callback: Option<F>) -> (r: Result<
        (),
        ErrorKind,
    >)
        requires
            old(self).is_running(),
            (match callback {
                Some(f) => accepts_keys_bytes(f, old(self)@, None, Some(key@)),
                None => true,
            }),
        ensures
            *final(self) == *old(self),
            outcome_of(r) == key_outcome(key@),
            (match callback {
                Some(f) => !has_nul(key@) ==> visited_keys_bytes(f, old(self)@, None, Some(key@)),
                None => true,
            }),
    {
        if contains_nul(key) {
            return Err(ErrorKind::InvalidArgument);
        }
        match callback {
            Some(f) => self.scan_keys_bytes(None, Some(key), f),
            None => (),
        }
        Ok(())
    }

    /// Hands every key strictly below `key` to the callback as text.
    pub fn all_below_string<F: Fn(&str)>(&mut self, key: &str, callback: Option<F>) -> (r: Result<
        (),
        ErrorKind,
    >)
        requires
            old(self).is_running(),
            (match callback {
                Some(f) => accepts_keys_str(f, old(self)@, None, Some(key@)),
                None => true,
            }),
        ensures
            *final(self) == *old(self),
            outcome_of(r) == key_outcome(key@),
            (match callback {
                Some(f) => !has_nul(key@) ==> visited_keys_str(f, old(self)@, None, Some(key@)),
                None => true,
            }),
    {
        if contains_nul(key) {
            return Err(ErrorKind::InvalidArgument);
        }
        match callback {
            Some(f) => self.scan_keys_str(None, Some(key), f),
            None => (),
        }
        Ok(())
    }

    /// Hands every key strictly between `key1` and `key2` to the callback
    /// as encoded bytes.
    pub fn all_between<F: Fn(&[u8])>(&mut self, key1: &str, key2: &str, callback: Option<F>) -> (r:
        Result<(), ErrorKind>)
        requires
            old(self).is_running(),
            (match callback {
                Some(f) => accepts_keys_bytes(f, old(self)@, Some(key1@), Some(key2@)),
                None => true,
            }),
        ensures
            *final(self) == *old(self),
            outcome_of(r) == (if has_nul(key1@) || has_nul(key2@) {
                Outcome::InvalidArgument
            } else {
                Outcome::Success
            }),
            (match callback {
                Some(f) => (!has_nul(key1@) && !has_nul(key2@)) ==> visited_keys_bytes(
                    f,
                    old(self)@,
                    Some(key1@),
                    Some(key2@),
                ),
                None => true,
            }),
    {
        if contains_nul(key1) || contains_nul(key2) {
            return Err(ErrorKind::InvalidArgument);
        }
        match callback {
            Some(f) => self.scan_keys_bytes(Some(key1), Some(key2), f),
            None => (),
        }
        Ok(())
    }

    /// Hands every key strictly between `key1` and `key2` to the callback
    /// as text.
    pub fn all_between_string<F: Fn(&str)>(
        &mut self,
        key1: &str,
        key2: &str,
        callback: Option<F>,
    ) -> (r: Result<(), ErrorKind>)
        requires
            old(self).is_running(),
            (match callback {
                Some(f) => accepts_keys_str(f, old(self)@, Some(key1@), Some(key2@)),
                None => true,
            }),
        ensures
            *final(self) == *old(self),
            outcome_of(r) == (if has_nul(key1@) || has_nul(key2@) {
                Outcome::InvalidArgument
            } else {
                Outcome::Success
            }),
            (match callback {
                Some(f) => (!has_nul(key1@) && !has_nul(key2@)) ==> visited_keys_str(
                    f,
                    old(self)@,
                    Some(key1@),
                    Some(key2@),
                ),
                None => true,
            }),
    {
        if contains_nul(key1) || contains_nul(key2) {
            return Err(ErrorKind::InvalidArgument);
        }
        match callback {
            Some(f) => self.scan_keys_str(Some(key1), Some(key2), f),
            None => (),
        }
        Ok(())
    }

    /// Reports whether `key` is present: `Ok` when it is, `NotFound` when
    /// it is not, so that absence stays distinguishable from failure.
    pub fn exists_key(&self, key: &str) -> (r: Result<(), ErrorKind>)
        requires
            self.is_running(),
        ensures
            outcome_of(r) == exists_outcome(self@, key@),
    {
        proof {
            use_type_invariant(self);
        }
        if contains_nul(key) {
            return Err(ErrorKind::InvalidArgument);
        }
        match self.find_index(key) {
            Some(i) => {
                proof {
                    lemma_map_entry(self.entries@, i as int);
                }
                Ok(())
            },
            None => {
                proof {
                    lemma_map_absent(self.entries@, key@);
                }
                Err(ErrorKind::NotFound(key.to_owned()))
            },
        }
    }
}

} // verus!
