//! Structural merge of one document into another.

use vstd::prelude::*;
use crate::json::{
    entries_view, entry_value, items_view, key_index, lemma_key_index, lemma_key_index_found,
    lemma_unique_key_index, entries_wf, items_wf, unique_keys, Entries, Json, JsonView,
};

verus! {

/// The document that results from merging `x` into `d`: objects unite their
/// keys, arrays merge by position, a null leaves `d` as it is, and anything
/// else replaces `d`.
pub open spec fn merged(d: JsonView, x: JsonView) -> JsonView
    decreases x, 0nat,
{
    match (d, x) {
        (JsonView::Object(a), JsonView::Object(b)) => JsonView::Object(merged_entries(a, b, b.len())),
        (JsonView::Array(a), JsonView::Array(b)) => JsonView::Array(merged_items(a, b, b.len())),
        (_, JsonView::Null) => d,
        _ => x,
    }
}

/// The entries `acc` after the entry `(k, v)` was merged in: merged into the
/// first entry with that key, or appended.
pub open spec fn entry_merged(acc: Entries, k: Seq<char>, v: JsonView) -> Entries
    decreases v, 1nat,
{
    let i = key_index(acc, k) as int;
    if i < acc.len() {
        acc.update(i, (acc[i].0, merged(acc[i].1, v)))
    } else {
        acc.push((k, v))
    }
}

/// The entries of `a` after the first `n` entries of `b` were merged in, in order.
pub open spec fn merged_entries(a: Entries, b: Entries, n: nat) -> Entries
    decreases b, n,
{
    if n == 0 || n > b.len() {
        a
    } else {
        entry_merged(merged_entries(a, b, (n - 1) as nat), b[n - 1].0, b[n - 1].1)
    }
}

/// The items `acc` after `v` was merged in at position `i`: merged into the
/// item there, or appended.
pub open spec fn item_merged(acc: Seq<JsonView>, i: int, v: JsonView) -> Seq<JsonView>
    decreases v, 1nat,
{
    if 0 <= i < acc.len() {
        acc.update(i, merged(acc[i], v))
    } else {
        acc.push(v)
    }
}

/// The items of `a` after the first `n` items of `b` were merged in by position.
pub open spec fn merged_items(a: Seq<JsonView>, b: Seq<JsonView>, n: nat) -> Seq<JsonView>
    decreases b, n,
{
    if n == 0 || n > b.len() {
        a
    } else {
        item_merged(merged_items(a, b, (n - 1) as nat), n - 1, b[n - 1])
    }
}

/// Merges `b` into `a` in place.
pub fn merge(a: &mut Json, b: Json)
    ensures
        final(a)@ == merged(old(a)@, b@),
    decreases b@,
{
    let ghost b0 = b@;
    match (a, b) {
        (Json::Object(entries), Json::Object(incoming)) => {
            let ghost a0 = entries_view(entries@);
            let ghost bv = entries_view(incoming@);
            for pair in it: incoming
                invariant
                    b0 == JsonView::Object(bv),
                    b0 == b@,
                    bv == entries_view(it.seq()),
                    entries_view(entries@) == merged_entries(a0, bv, it.index() as nat),
            {
                let (k, v) = pair;
                let mut i: usize = 0;
                while i < entries.len() && !(entries[i].0 == k)
                    invariant
                        i <= entries.len(),
                        forall|j: int| 0 <= j < i ==> (#[trigger] entries_view(entries@)[j]).0 != k@,
                    decreases entries.len() - i,
                {
                    i += 1;
                }
                proof {
                    lemma_key_index(entries_view(entries@), k@, i as nat);
                    assert(bv[it.index() as int] == (k@, v@));
                    assert(decreases_to!(b0 => b0->Object_0));
                    assert(decreases_to!(bv => bv[it.index() as int]));
                    assert(decreases_to!(bv[it.index() as int] => bv[it.index() as int].1));
                }
                let ghost before = entries_view(entries@);
                let ghost (kv, vv) = (k@, v@);
                if i < entries.len() {
                    merge(&mut entries[i].1, v);
                } else {
                    entries.push((k, v));
                }
                assert(entries_view(entries@) =~= entry_merged(before, kv, vv));
            }
        },
        (Json::Array(items), Json::Array(incoming)) => {
            let ghost a0 = items_view(items@);
            let ghost bv = items_view(incoming@);
            let count = incoming.len();
            let mut idx: usize = 0;
            for b_val in it: incoming
                invariant
                    b0 == JsonView::Array(bv),
                    b0 == b@,
                    bv == items_view(it.seq()),
                    idx == it.index(),
                    count == it.seq().len(),
                    items_view(items@) == merged_items(a0, bv, idx as nat),
            {
                proof {
                    assert(bv[idx as int] == b_val@);
                    assert(decreases_to!(b0 => b0->Array_0));
                    assert(decreases_to!(bv => bv[idx as int]));
                }
                let ghost before = items_view(items@);
                let ghost vv = b_val@;
                if idx < items.len() {
                    merge(&mut items[idx], b_val);
                } else {
                    items.push(b_val);
                }
                assert(items_view(items@) =~= item_merged(before, idx as int, vv));
                idx += 1;
            }
        },
        (_, Json::Null) => {},
        (a, b) => {
            *a = b;
        },
    }
}

/// Merging a null changes nothing.
pub proof fn lemma_merge_null(d: JsonView)
    ensures
        merged(d, JsonView::Null) == d,
{
}

proof fn lemma_entries_step(a: Entries, b: Entries, n: nat)
    requires
        0 < n <= b.len(),
    ensures
        merged_entries(a, b, n) == entry_merged(
            merged_entries(a, b, (n - 1) as nat),
            b[n - 1].0,
            b[n - 1].1,
        ),
{
}

proof fn lemma_items_step(a: Seq<JsonView>, b: Seq<JsonView>, n: nat)
    requires
        0 < n <= b.len(),
    ensures
        merged_items(a, b, n) == item_merged(merged_items(a, b, (n - 1) as nat), n - 1, b[n - 1]),
{
}

/// What one merged entry does to the entries: the keys that were there stay
/// where they are, one value at most changes, and a new key goes to the end.
proof fn lemma_entry_merged(acc: Entries, k: Seq<char>, v: JsonView)
    ensures
        ({
            let r = entry_merged(acc, k, v);
            let i = key_index(acc, k) as int;
            &&& i <= acc.len()
            &&& key_index(r, k) == i
            &&& i < acc.len() ==> r.len() == acc.len() && r[i] == (k, merged(acc[i].1, v))
            &&& i == acc.len() ==> r.len() == acc.len() + 1 && r[i] == (k, v)
            &&& forall|j: int| 0 <= j < acc.len() ==> (#[trigger] r[j]).0 == acc[j].0
            &&& forall|j: int| 0 <= j < acc.len() && j != i ==> #[trigger] r[j] == acc[j]
            &&& forall|k2: Seq<char>|
                k2 != k ==> #[trigger] key_index(r, k2) == (if key_index(acc, k2) < acc.len() {
                    key_index(acc, k2)
                } else {
                    r.len()
                })
        }),
{
    let r = entry_merged(acc, k, v);
    let i = key_index(acc, k) as int;
    lemma_key_index_found(acc, k);
    lemma_key_index(r, k, i as nat);
    assert forall|k2: Seq<char>| k2 != k implies #[trigger] key_index(r, k2) == (if key_index(
        acc,
        k2,
    ) < acc.len() {
        key_index(acc, k2)
    } else {
        r.len()
    }) by {
        lemma_key_index_found(acc, k2);
        if key_index(acc, k2) < acc.len() {
            lemma_key_index(r, k2, key_index(acc, k2));
        } else {
            lemma_key_index(r, k2, r.len());
        }
    }
}

/// Once the entry `n - 1` of `b` was merged in, the later entries of `b`
/// leave the entry with its key alone.
proof fn lemma_entry_settled(a: Entries, b: Entries, n: nat, m: nat)
    requires
        unique_keys(b),
        1 <= n <= m <= b.len(),
    ensures
        ({
            let k = b[n - 1].0;
            let at_n = merged_entries(a, b, n);
            let at_m = merged_entries(a, b, m);
            let i = key_index(at_n, k) as int;
            &&& i < at_n.len() <= at_m.len()
            &&& key_index(at_m, k) == i
            &&& at_m[i] == at_n[i]
        }),
    decreases m,
{
    let k = b[n - 1].0;
    lemma_entries_step(a, b, m);
    if m == n {
        lemma_entry_merged(merged_entries(a, b, (n - 1) as nat), k, b[n - 1].1);
    } else {
        let acc = merged_entries(a, b, (m - 1) as nat);
        lemma_entry_settled(a, b, n, (m - 1) as nat);
        assert(b[m - 1].0 != b[n - 1].0);
        lemma_entry_merged(acc, b[m - 1].0, b[m - 1].1);
        lemma_key_index_found(acc, k);
        lemma_key_index_found(acc, b[m - 1].0);
    }
}

/// Merging the entries of `b` into themselves changes nothing.
proof fn lemma_entries_self(b: Entries, n: nat)
    requires
        entries_wf(b),
        n <= b.len(),
    ensures
        merged_entries(b, b, n) == b,
    decreases b, n,
{
    if n > 0 {
        lemma_entries_self(b, (n - 1) as nat);
        lemma_entries_step(b, b, n);
        lemma_unique_key_index(b, n - 1);
        assert(b[n - 1].1.wf());
        lemma_merge_self(b[n - 1].1);
        assert(entry_merged(b, b[n - 1].0, b[n - 1].1) =~= b);
    }
}

/// Merging the items of `b` into themselves changes nothing.
proof fn lemma_items_self(b: Seq<JsonView>, n: nat)
    requires
        items_wf(b),
        n <= b.len(),
    ensures
        merged_items(b, b, n) == b,
    decreases b, n,
{
    if n > 0 {
        lemma_items_self(b, (n - 1) as nat);
        lemma_items_step(b, b, n);
        assert(b[n - 1].wf());
        lemma_merge_self(b[n - 1]);
        assert(item_merged(b, n - 1, b[n - 1]) =~= b);
    }
}

/// Merging a well-formed document into itself changes nothing.
pub proof fn lemma_merge_self(x: JsonView)
    requires
        x.wf(),
    ensures
        merged(x, x) == x,
    decreases x, 0nat,
{
    match x {
        JsonView::Object(b) => {
            assert(decreases_to!(x => x->Object_0));
            lemma_entries_self(b, b.len());
        },
        JsonView::Array(b) => {
            assert(decreases_to!(x => x->Array_0));
            lemma_items_self(b, b.len());
        },
        _ => {},
    }
}

/// The length of the merged items, and that a later item of `b` leaves
/// the earlier positions alone.
proof fn lemma_item_settled(a: Seq<JsonView>, b: Seq<JsonView>, n: nat, m: nat)
    requires
        1 <= n <= m <= b.len(),
    ensures
        merged_items(a, b, m).len() >= m,
        merged_items(a, b, m).len() >= merged_items(a, b, n).len() >= n,
        merged_items(a, b, m)[n - 1] == merged_items(a, b, n)[n - 1],
    decreases m,
{
    lemma_items_len(a, b, (m - 1) as nat);
    lemma_items_len(a, b, m);
    lemma_items_step(a, b, m);
    if m > n {
        lemma_item_settled(a, b, n, (m - 1) as nat);
    }
}

proof fn lemma_items_len(a: Seq<JsonView>, b: Seq<JsonView>, n: nat)
    requires
        n <= b.len(),
    ensures
        merged_items(a, b, n).len() >= n,
        merged_items(a, b, n).len() >= a.len(),
    decreases n,
{
    if n > 0 {
        lemma_items_len(a, b, (n - 1) as nat);
        lemma_items_step(a, b, n);
    }
}

/// Merging the first `n` entries of `b` once more into the merged entries
/// changes nothing.
proof fn lemma_entries_again(a: Entries, b: Entries, n: nat)
    requires
        entries_wf(b),
        n <= b.len(),
    ensures
        merged_entries(merged_entries(a, b, b.len()), b, n) == merged_entries(a, b, b.len()),
    decreases b, n,
{
    if n > 0 {
        let all = merged_entries(a, b, b.len());
        let k = b[n - 1].0;
        let v = b[n - 1].1;
        let prev = merged_entries(a, b, (n - 1) as nat);
        lemma_entries_again(a, b, (n - 1) as nat);
        lemma_entries_step(all, b, n);
        lemma_entries_step(a, b, n);
        lemma_entry_settled(a, b, n, b.len());
        lemma_entry_merged(prev, k, v);
        assert(v.wf());
        let i = key_index(prev, k) as int;
        if i < prev.len() {
            lemma_merge_again(prev[i].1, v);
        } else {
            lemma_merge_self(v);
        }
        assert(entry_merged(all, k, v) =~= all);
    }
}

/// Merging the first `n` items of `b` once more into the merged items
/// changes nothing.
proof fn lemma_items_again(a: Seq<JsonView>, b: Seq<JsonView>, n: nat)
    requires
        items_wf(b),
        n <= b.len(),
    ensures
        merged_items(merged_items(a, b, b.len()), b, n) == merged_items(a, b, b.len()),
    decreases b, n,
{
    if n > 0 {
        let all = merged_items(a, b, b.len());
        let v = b[n - 1];
        let prev = merged_items(a, b, (n - 1) as nat);
        lemma_items_again(a, b, (n - 1) as nat);
        lemma_items_step(all, b, n);
        lemma_items_step(a, b, n);
        lemma_item_settled(a, b, n, b.len());
        lemma_items_len(a, b, (n - 1) as nat);
        assert(v.wf());
        if n - 1 < prev.len() {
            lemma_merge_again(prev[n - 1], v);
        } else {
            lemma_merge_self(v);
        }
        assert(item_merged(all, n - 1, v) =~= all);
    }
}

/// Merging is idempotent: a second merge of the same well-formed document
/// changes nothing.
pub proof fn lemma_merge_again(d: JsonView, x: JsonView)
    requires
        x.wf(),
    ensures
        merged(merged(d, x), x) == merged(d, x),
    decreases x, 0nat,
{
    match (d, x) {
        (JsonView::Object(a), JsonView::Object(b)) => {
            assert(decreases_to!(x => x->Object_0));
            lemma_entries_again(a, b, b.len());
        },
        (JsonView::Array(a), JsonView::Array(b)) => {
            assert(decreases_to!(x => x->Array_0));
            lemma_items_again(a, b, b.len());
        },
        (_, JsonView::Null) => {},
        _ => {
            lemma_merge_self(x);
        },
    }
}

/// An incoming entry that holds null leaves the value that the
/// destination has under its key as it is, and where it is.
pub proof fn lemma_null_entry_keeps_value(a: Entries, b: Entries, k: Seq<char>)
    requires
        unique_keys(b),
        entry_value(a, k) is Some,
        entry_value(b, k) == Some(JsonView::Null),
    ensures
        merged(JsonView::Object(a), JsonView::Object(b)) is Object,
        entry_value(merged(JsonView::Object(a), JsonView::Object(b))->Object_0, k) == entry_value(
            a,
            k,
        ),
{
    lemma_null_entry_steps(a, b, k, b.len());
}

proof fn lemma_null_entry_steps(a: Entries, b: Entries, k: Seq<char>, n: nat)
    requires
        unique_keys(b),
        entry_value(a, k) is Some,
        entry_value(b, k) == Some(JsonView::Null),
        n <= b.len(),
    ensures
        key_index(merged_entries(a, b, n), k) == key_index(a, k),
        entry_value(merged_entries(a, b, n), k) == entry_value(a, k),
    decreases n,
{
    if n > 0 {
        let prev = merged_entries(a, b, (n - 1) as nat);
        lemma_null_entry_steps(a, b, k, (n - 1) as nat);
        lemma_entries_step(a, b, n);
        lemma_entry_merged(prev, b[n - 1].0, b[n - 1].1);
        lemma_key_index_found(b, k);
        lemma_key_index_found(prev, k);
        if b[n - 1].0 == k {
            lemma_unique_key_index(b, n - 1);
        }
    }
}

/// Merging well-formed documents gives a well-formed document.
pub proof fn lemma_merge_wf(d: JsonView, x: JsonView)
    requires
        d.wf(),
        x.wf(),
    ensures
        merged(d, x).wf(),
    decreases x, 0nat,
{
    match (d, x) {
        (JsonView::Object(a), JsonView::Object(b)) => {
            assert(decreases_to!(x => x->Object_0));
            lemma_entries_wf(a, b, b.len());
        },
        (JsonView::Array(a), JsonView::Array(b)) => {
            assert(decreases_to!(x => x->Array_0));
            lemma_items_wf(a, b, b.len());
        },
        _ => {},
    }
}

proof fn lemma_entries_wf(a: Entries, b: Entries, n: nat)
    requires
        entries_wf(a),
        entries_wf(b),
        n <= b.len(),
    ensures
        entries_wf(merged_entries(a, b, n)),
    decreases b, n,
{
    if n > 0 {
        let prev = merged_entries(a, b, (n - 1) as nat);
        let k = b[n - 1].0;
        let v = b[n - 1].1;
        let r = merged_entries(a, b, n);
        lemma_entries_wf(a, b, (n - 1) as nat);
        lemma_entries_step(a, b, n);
        lemma_entry_merged(prev, k, v);
        lemma_key_index_found(prev, k);
        assert(v.wf());
        let i = key_index(prev, k) as int;
        if i < prev.len() {
            assert(prev[i].1.wf());
            lemma_merge_wf(prev[i].1, v);
        }
        assert forall|j: int| 0 <= j < r.len() implies (#[trigger] r[j]).1.wf() by {
            if j != i {
                assert(r[j] == prev[j]);
                assert(prev[j].1.wf());
            }
        }
        assert forall|p: int, q: int| 0 <= p < q < r.len() implies (#[trigger] r[p]).0 != (
        #[trigger] r[q]).0 by {
            if q < prev.len() {
                assert(prev[p].0 != prev[q].0);
            } else {
                assert(prev[p].0 != k);
            }
        }
    }
}

proof fn lemma_items_wf(a: Seq<JsonView>, b: Seq<JsonView>, n: nat)
    requires
        items_wf(a),
        items_wf(b),
        n <= b.len(),
    ensures
        items_wf(merged_items(a, b, n)),
    decreases b, n,
{
    if n > 0 {
        let prev = merged_items(a, b, (n - 1) as nat);
        let v = b[n - 1];
        let r = merged_items(a, b, n);
        lemma_items_wf(a, b, (n - 1) as nat);
        lemma_items_step(a, b, n);
        lemma_items_len(a, b, (n - 1) as nat);
        assert(v.wf());
        if n - 1 < prev.len() {
            assert(prev[n - 1].wf());
            lemma_merge_wf(prev[n - 1], v);
        }
        assert forall|j: int| 0 <= j < r.len() implies (#[trigger] r[j]).wf() by {
            if j != n - 1 {
                assert(r[j] == prev[j]);
                assert(prev[j].wf());
            }
        }
    }
}

/// Merging an entry in leaves the values under the other keys as they are.
pub proof fn lemma_entry_merged_keeps_others(acc: Entries, k: Seq<char>, v: JsonView, other: Seq<char>)
    requires
        other != k,
    ensures
        entry_value(entry_merged(acc, k, v), other) == entry_value(acc, other),
{
    lemma_entry_merged(acc, k, v);
    lemma_key_index_found(acc, other);
    lemma_key_index_found(acc, k);
}

} // verus!
