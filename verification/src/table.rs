use vstd::prelude::*;

use crate::item::{string_attr, AttrV, Item};
use crate::text::{lemma_lex_transitive, lemma_lex_trichotomy, lex_lt, str_eq, str_lt};
use vstd::pervasive::unreached;

verus! {

/// One stored item together with its composite key.
pub struct TableEntry {
    pub partition: String,
    pub sort: String,
    pub item: Item,
}

/// Mathematical image of a stored entry.
pub struct EntryV {
    pub partition: Seq<char>,
    pub sort: Seq<char>,
    pub item: Seq<(Seq<char>, AttrV)>,
}

impl View for TableEntry {
    type V = EntryV;

    open spec fn view(&self) -> EntryV {
        EntryV { partition: self.partition@, sort: self.sort@, item: self.item@ }
    }
}

/// Strict order on composite keys: by partition component first, then by
/// sort key within a partition.
pub open spec fn key_lt(p1: Seq<char>, s1: Seq<char>, p2: Seq<char>, s2: Seq<char>) -> bool {
    lex_lt(p1, p2) || (p1 == p2 && lex_lt(s1, s2))
}

/// Of two composite keys, exactly one of: the first precedes, the second
/// precedes, they are the same key.
pub proof fn lemma_key_trichotomy(p1: Seq<char>, s1: Seq<char>, p2: Seq<char>, s2: Seq<char>)
    ensures
        key_lt(p1, s1, p2, s2) || key_lt(p2, s2, p1, s1) || (p1 == p2 && s1 == s2),
        key_lt(p1, s1, p2, s2) ==> !key_lt(p2, s2, p1, s1),
        key_lt(p1, s1, p2, s2) ==> !(p1 == p2 && s1 == s2),
{
    lemma_lex_trichotomy(p1, p2);
    lemma_lex_trichotomy(s1, s2);
}

/// The order on composite keys is transitive.
pub proof fn lemma_key_transitive(
    p1: Seq<char>,
    s1: Seq<char>,
    p2: Seq<char>,
    s2: Seq<char>,
    p3: Seq<char>,
    s3: Seq<char>,
)
    requires
        key_lt(p1, s1, p2, s2),
        key_lt(p2, s2, p3, s3),
    ensures
        key_lt(p1, s1, p3, s3),
{
    if lex_lt(p1, p2) && lex_lt(p2, p3) {
        lemma_lex_transitive(p1, p2, p3);
    } else if p1 == p2 && p2 == p3 {
        lemma_lex_transitive(s1, s2, s3);
    }
}

/// A table image is well formed when its entries stand in strictly
/// ascending composite-key order, so every key occurs at most once.
pub open spec fn entries_sorted(t: Seq<EntryV>) -> bool {
    forall|i: int, j: int|
        0 <= i < j < t.len() ==> key_lt(
            (#[trigger] t[i]).partition,
            t[i].sort,
            (#[trigger] t[j]).partition,
            t[j].sort,
        )
}

/// The item stored under a composite key, if any.
pub open spec fn spec_find(t: Seq<EntryV>, p: Seq<char>, s: Seq<char>) -> Option<
    Seq<(Seq<char>, AttrV)>,
>
    decreases t.len(),
{
    if t.len() == 0 {
        None
    } else if t[0].partition == p && t[0].sort == s {
        Some(t[0].item)
    } else {
        spec_find(t.skip(1), p, s)
    }
}

/// The table after an unconditional put: the entry replaces any entry with
/// the same composite key, and otherwise stands at its ordered position.
pub open spec fn spec_put(t: Seq<EntryV>, e: EntryV) -> Seq<EntryV>
    decreases t.len(),
{
    if t.len() == 0 {
        seq![e]
    } else if key_lt(e.partition, e.sort, t[0].partition, t[0].sort) {
        seq![e] + t
    } else if e.partition == t[0].partition && e.sort == t[0].sort {
        seq![e] + t.skip(1)
    } else {
        seq![t[0]] + spec_put(t.skip(1), e)
    }
}

/// The table after an unconditional delete of a composite key.
pub open spec fn spec_remove(t: Seq<EntryV>, p: Seq<char>, s: Seq<char>) -> Seq<EntryV>
    decreases t.len(),
{
    if t.len() == 0 {
        t
    } else if t[0].partition == p && t[0].sort == s {
        t.skip(1)
    } else {
        seq![t[0]] + spec_remove(t.skip(1), p, s)
    }
}

/// Whether a sort key lies strictly after an exclusive-start cursor; an
/// absent cursor lets every sort key through.
pub open spec fn cursor_lt(after: Option<Seq<char>>, s: Seq<char>) -> bool {
    match after {
        None => true,
        Some(a) => lex_lt(a, s),
    }
}

/// Whether a range query for a partition, resuming after a cursor, visits
/// an entry.
pub open spec fn match_pred(p: Seq<char>, after: Option<Seq<char>>) -> spec_fn(EntryV) -> bool {
    |e: EntryV| e.partition == p && cursor_lt(after, e.sort)
}

/// The entries a range query visits: those of the partition whose sort key
/// lies strictly after the cursor, in table order.
pub open spec fn spec_matching(t: Seq<EntryV>, p: Seq<char>, after: Option<Seq<char>>) -> Seq<
    EntryV,
> {
    t.filter(match_pred(p, after))
}

/// The leading page of the matching entries: all of them where they fit
/// the store's per-query limit, the first `limit` otherwise.
pub open spec fn spec_page(m: Seq<EntryV>, limit: nat) -> Seq<EntryV> {
    if m.len() <= limit {
        m
    } else {
        m.take(limit as int)
    }
}

/// The items of a sequence of entries, in order.
pub open spec fn entry_items(m: Seq<EntryV>) -> Seq<Seq<(Seq<char>, AttrV)>> {
    m.map_values(|e: EntryV| e.item)
}

/// The images of a sequence of items, in order.
pub open spec fn item_views(items: Seq<Item>) -> Seq<Seq<(Seq<char>, AttrV)>> {
    items.map_values(|it: Item| it@)
}

/// Filtering one more entry keeps it exactly when the query visits it.
proof fn lemma_filter_take_step(t: Seq<EntryV>, pred: spec_fn(EntryV) -> bool, i: int)
    requires
        0 <= i < t.len(),
    ensures
        t.take(i + 1).filter(pred) == if pred(t[i]) {
            t.take(i).filter(pred).push(t[i])
        } else {
            t.take(i).filter(pred)
        },
{
    reveal(Seq::filter);
    assert(t.take(i + 1).drop_last() =~= t.take(i));
    assert(t.take(i + 1).last() == t[i]);
}

/// Every entry a filter keeps stays below a bound that all entries obey.
proof fn lemma_filter_upper(
    t: Seq<EntryV>,
    pred: spec_fn(EntryV) -> bool,
    p: Seq<char>,
    s: Seq<char>,
)
    requires
        forall|j: int|
            0 <= j < t.len() ==> key_lt((#[trigger] t[j]).partition, t[j].sort, p, s),
    ensures
        forall|k: int|
            0 <= k < t.filter(pred).len() ==> key_lt(
                (#[trigger] t.filter(pred)[k]).partition,
                t.filter(pred)[k].sort,
                p,
                s,
            ),
    decreases t.len(),
{
    reveal(Seq::filter);
    if t.len() > 0 {
        let d = t.drop_last();
        assert forall|j: int| 0 <= j < d.len() implies key_lt(
            (#[trigger] d[j]).partition,
            d[j].sort,
            p,
            s,
        ) by {
            assert(d[j] == t[j]);
        }
        lemma_filter_upper(d, pred, p, s);
        let f = d.filter(pred);
        let r = t.filter(pred);
        if pred(t.last()) {
            assert(r == f.push(t.last()));
            assert forall|k: int| 0 <= k < r.len() implies key_lt(
                (#[trigger] r[k]).partition,
                r[k].sort,
                p,
                s,
            ) by {
                if k < f.len() {
                    assert(r[k] == f[k]);
                } else {
                    assert(r[k] == t.last());
                    assert(key_lt(t[t.len() - 1].partition, t[t.len() - 1].sort, p, s));
                }
            }
        } else {
            assert(r == f);
        }
    }
}

/// Filtering a table in ascending key order leaves the kept entries in
/// ascending key order.
pub proof fn lemma_filter_sorted(t: Seq<EntryV>, pred: spec_fn(EntryV) -> bool)
    requires
        entries_sorted(t),
    ensures
        entries_sorted(t.filter(pred)),
    decreases t.len(),
{
    reveal(Seq::filter);
    if t.len() > 0 {
        let d = t.drop_last();
        assert forall|a: int, b: int| 0 <= a < b < d.len() implies key_lt(
            (#[trigger] d[a]).partition,
            d[a].sort,
            (#[trigger] d[b]).partition,
            d[b].sort,
        ) by {
            assert(d[a] == t[a]);
            assert(d[b] == t[b]);
        }
        lemma_filter_sorted(d, pred);
        if pred(t.last()) {
            assert forall|j: int| 0 <= j < d.len() implies key_lt(
                (#[trigger] d[j]).partition,
                d[j].sort,
                t.last().partition,
                t.last().sort,
            ) by {
                assert(d[j] == t[j]);
                assert(key_lt(t[j].partition, t[j].sort, t[t.len() - 1].partition, t[t.len() - 1].sort));
            }
            lemma_filter_upper(d, pred, t.last().partition, t.last().sort);
            let f = d.filter(pred);
            let r = t.filter(pred);
            assert(r == f.push(t.last()));
            assert forall|a: int, b: int| 0 <= a < b < r.len() implies key_lt(
                (#[trigger] r[a]).partition,
                r[a].sort,
                (#[trigger] r[b]).partition,
                r[b].sort,
            ) by {
                if b < f.len() {
                    assert(r[a] == f[a]);
                    assert(r[b] == f[b]);
                } else {
                    assert(r[a] == f[a]);
                    assert(r[b] == t.last());
                }
            }
        }
    }
}

/// Where an entry's ordered position is known, a put is an update in place
/// on a key already present, and an insertion at that position otherwise.
pub proof fn lemma_spec_put_at(t: Seq<EntryV>, e: EntryV, i: int)
    requires
        0 <= i <= t.len(),
        forall|j: int|
            0 <= j < i ==> key_lt(
                (#[trigger] t[j]).partition,
                t[j].sort,
                e.partition,
                e.sort,
            ),
        i < t.len() ==> !key_lt(t[i].partition, t[i].sort, e.partition, e.sort),
    ensures
        spec_put(t, e) == if i < t.len() && t[i].partition == e.partition && t[i].sort == e.sort {
            t.update(i, e)
        } else {
            t.take(i) + seq![e] + t.skip(i)
        },
    decreases i,
{
    if i == 0 {
        if t.len() == 0 {
            assert(spec_put(t, e) =~= t.take(0) + seq![e] + t.skip(0));
        } else if t[0].partition == e.partition && t[0].sort == e.sort {
            assert(seq![e] + t.skip(1) =~= t.update(0, e));
        } else {
            lemma_key_trichotomy(e.partition, e.sort, t[0].partition, t[0].sort);
            assert(key_lt(e.partition, e.sort, t[0].partition, t[0].sort));
            assert(seq![e] + t =~= t.take(0) + seq![e] + t.skip(0));
        }
    } else {
        let rest = t.skip(1);
        assert(key_lt(t[0].partition, t[0].sort, e.partition, e.sort));
        lemma_key_trichotomy(e.partition, e.sort, t[0].partition, t[0].sort);
        assert forall|j: int| 0 <= j < i - 1 implies key_lt(
            (#[trigger] rest[j]).partition,
            rest[j].sort,
            e.partition,
            e.sort,
        ) by {
            assert(rest[j] == t[j + 1]);
        }
        lemma_spec_put_at(rest, e, i - 1);
        if i < t.len() && t[i].partition == e.partition && t[i].sort == e.sort {
            assert(rest[i - 1] == t[i]);
            assert(seq![t[0]] + rest.update(i - 1, e) =~= t.update(i, e));
        } else {
            assert(seq![t[0]] + (rest.take(i - 1) + seq![e] + rest.skip(i - 1)) =~= t.take(i)
                + seq![e] + t.skip(i));
        }
    }
}

/// Where the index of a key's entry is known, a delete removes exactly
/// that entry; where no entry has the key, it removes nothing.
pub proof fn lemma_spec_remove_at(t: Seq<EntryV>, p: Seq<char>, s: Seq<char>, i: int)
    requires
        0 <= i <= t.len(),
        forall|j: int|
            0 <= j < i ==> !((#[trigger] t[j]).partition == p && t[j].sort == s),
        i < t.len() ==> t[i].partition == p && t[i].sort == s,
    ensures
        spec_remove(t, p, s) == if i < t.len() {
            t.remove(i)
        } else {
            t
        },
    decreases i,
{
    if i == 0 {
        if t.len() == 0 {
        } else {
            assert(t.skip(1) =~= t.remove(0));
        }
    } else {
        let rest = t.skip(1);
        assert(!(t[0].partition == p && t[0].sort == s));
        assert forall|j: int| 0 <= j < i - 1 implies !((#[trigger] rest[j]).partition == p
            && rest[j].sort == s) by {
            assert(rest[j] == t[j + 1]);
        }
        lemma_spec_remove_at(rest, p, s, i - 1);
        if i < t.len() {
            assert(rest[i - 1] == t[i]);
            assert(seq![t[0]] + rest.remove(i - 1) =~= t.remove(i));
        } else {
            assert(seq![t[0]] + rest =~= t);
        }
    }
}

/// Where no entry has the key, nothing is found.
pub proof fn lemma_find_absent(t: Seq<EntryV>, p: Seq<char>, s: Seq<char>)
    requires
        forall|j: int| 0 <= j < t.len() ==> !((#[trigger] t[j]).partition == p && t[j].sort == s),
    ensures
        spec_find(t, p, s) is None,
    decreases t.len(),
{
    if t.len() > 0 {
        let rest = t.skip(1);
        assert forall|j: int| 0 <= j < rest.len() implies !((#[trigger] rest[j]).partition == p
            && rest[j].sort == s) by {
            assert(rest[j] == t[j + 1]);
        }
        lemma_find_absent(rest, p, s);
    }
}

/// What a put stores is found under its composite key.
pub proof fn lemma_find_put_same(t: Seq<EntryV>, e: EntryV)
    ensures
        spec_find(spec_put(t, e), e.partition, e.sort) == Some(e.item),
    decreases t.len(),
{
    lemma_key_trichotomy(e.partition, e.sort, t[0].partition, t[0].sort);
    if t.len() == 0 {
        assert(spec_put(t, e)[0] == e);
    } else if key_lt(e.partition, e.sort, t[0].partition, t[0].sort) {
        assert((seq![e] + t)[0] == e);
    } else if e.partition == t[0].partition && e.sort == t[0].sort {
        assert((seq![e] + t.skip(1))[0] == e);
    } else {
        let rec = spec_put(t.skip(1), e);
        assert((seq![t[0]] + rec)[0] == t[0]);
        assert((seq![t[0]] + rec).skip(1) =~= rec);
        lemma_find_put_same(t.skip(1), e);
    }
}

/// A put leaves every other composite key's entry as it was.
pub proof fn lemma_find_put_other(t: Seq<EntryV>, e: EntryV, p: Seq<char>, s: Seq<char>)
    requires
        !(p == e.partition && s == e.sort),
    ensures
        spec_find(spec_put(t, e), p, s) == spec_find(t, p, s),
    decreases t.len(),
{
    if t.len() == 0 {
        assert(spec_put(t, e).skip(1) =~= t);
    } else if key_lt(e.partition, e.sort, t[0].partition, t[0].sort) {
        assert((seq![e] + t)[0] == e);
        assert((seq![e] + t).skip(1) =~= t);
    } else if e.partition == t[0].partition && e.sort == t[0].sort {
        assert((seq![e] + t.skip(1))[0] == e);
        assert((seq![e] + t.skip(1)).skip(1) =~= t.skip(1));
    } else {
        let rec = spec_put(t.skip(1), e);
        assert((seq![t[0]] + rec)[0] == t[0]);
        assert((seq![t[0]] + rec).skip(1) =~= rec);
        lemma_find_put_other(t.skip(1), e, p, s);
    }
}

/// After a delete, the deleted composite key is absent.
pub proof fn lemma_find_remove_same(t: Seq<EntryV>, p: Seq<char>, s: Seq<char>)
    requires
        entries_sorted(t),
    ensures
        spec_find(spec_remove(t, p, s), p, s) is None,
    decreases t.len(),
{
    if t.len() == 0 {
    } else if t[0].partition == p && t[0].sort == s {
        let rest = t.skip(1);
        assert forall|j: int| 0 <= j < rest.len() implies !((#[trigger] rest[j]).partition == p
            && rest[j].sort == s) by {
            assert(rest[j] == t[j + 1]);
            assert(key_lt(t[0].partition, t[0].sort, t[j + 1].partition, t[j + 1].sort));
            lemma_key_trichotomy(t[0].partition, t[0].sort, t[j + 1].partition, t[j + 1].sort);
        }
        lemma_find_absent(rest, p, s);
    } else {
        let rest = t.skip(1);
        assert forall|a: int, b: int| 0 <= a < b < rest.len() implies key_lt(
            (#[trigger] rest[a]).partition,
            rest[a].sort,
            (#[trigger] rest[b]).partition,
            rest[b].sort,
        ) by {
            assert(rest[a] == t[a + 1]);
            assert(rest[b] == t[b + 1]);
        }
        lemma_find_remove_same(rest, p, s);
        let rec = spec_remove(rest, p, s);
        assert((seq![t[0]] + rec)[0] == t[0]);
        assert((seq![t[0]] + rec).skip(1) =~= rec);
    }
}

/// Deleting an absent composite key changes nothing.
pub proof fn lemma_remove_absent(t: Seq<EntryV>, p: Seq<char>, s: Seq<char>)
    requires
        spec_find(t, p, s) is None,
    ensures
        spec_remove(t, p, s) == t,
    decreases t.len(),
{
    if t.len() > 0 {
        lemma_remove_absent(t.skip(1), p, s);
        assert(seq![t[0]] + t.skip(1) =~= t);
    }
}

/// A put introduces no entry beyond the stored one and those already
/// there.
pub proof fn lemma_put_elements(t: Seq<EntryV>, e: EntryV)
    ensures
        forall|j: int|
            0 <= j < spec_put(t, e).len() ==> spec_put(t, e)[j] == e || t.contains(
                #[trigger] spec_put(t, e)[j],
            ),
    decreases t.len(),
{
    let r = spec_put(t, e);
    if t.len() == 0 {
    } else if key_lt(e.partition, e.sort, t[0].partition, t[0].sort) {
        assert forall|j: int| 0 <= j < r.len() implies r[j] == e || t.contains(#[trigger] r[j]) by {
            if j > 0 {
                assert(r[j] == t[j - 1]);
                assert(t.contains(t[j - 1]));
            }
        }
    } else if e.partition == t[0].partition && e.sort == t[0].sort {
        assert forall|j: int| 0 <= j < r.len() implies r[j] == e || t.contains(#[trigger] r[j]) by {
            if j > 0 {
                assert(r[j] == t[j]);
                assert(t.contains(t[j]));
            }
        }
    } else {
        lemma_put_elements(t.skip(1), e);
        let rec = spec_put(t.skip(1), e);
        assert forall|j: int| 0 <= j < r.len() implies r[j] == e || t.contains(#[trigger] r[j]) by {
            if j == 0 {
                assert(r[0] == t[0]);
                assert(t.contains(t[0]));
            } else {
                assert(r[j] == rec[j - 1]);
                if rec[j - 1] != e {
                    assert(t.skip(1).contains(rec[j - 1]));
                    let w = choose|w: int|
                        0 <= w < t.skip(1).len() && t.skip(1)[w] == rec[j - 1];
                    assert(t[w + 1] == rec[j - 1]);
                    assert(t.contains(t[w + 1]));
                }
            }
        }
    }
}

/// A delete introduces no entry that was not already there.
pub proof fn lemma_remove_elements(t: Seq<EntryV>, p: Seq<char>, s: Seq<char>)
    ensures
        forall|j: int|
            0 <= j < spec_remove(t, p, s).len() ==> t.contains(
                #[trigger] spec_remove(t, p, s)[j],
            ),
    decreases t.len(),
{
    let r = spec_remove(t, p, s);
    if t.len() == 0 {
    } else if t[0].partition == p && t[0].sort == s {
        assert forall|j: int| 0 <= j < r.len() implies t.contains(#[trigger] r[j]) by {
            assert(r[j] == t[j + 1]);
            assert(t.contains(t[j + 1]));
        }
    } else {
        lemma_remove_elements(t.skip(1), p, s);
        let rec = spec_remove(t.skip(1), p, s);
        assert forall|j: int| 0 <= j < r.len() implies t.contains(#[trigger] r[j]) by {
            if j == 0 {
                assert(r[0] == t[0]);
                assert(t.contains(t[0]));
            } else {
                assert(r[j] == rec[j - 1]);
                assert(t.skip(1).contains(rec[j - 1]));
                let w = choose|w: int| 0 <= w < t.skip(1).len() && t.skip(1)[w] == rec[j - 1];
                assert(t[w + 1] == rec[j - 1]);
                assert(t.contains(t[w + 1]));
            }
        }
    }
}

/// What a lookup finds is the item of some stored entry with that key.
pub proof fn lemma_find_is_element(t: Seq<EntryV>, p: Seq<char>, s: Seq<char>)
    ensures
        match spec_find(t, p, s) {
            Some(m) => exists|j: int| 0 <= j < t.len() && (#[trigger] t[j]).item == m,
            None => true,
        },
    decreases t.len(),
{
    if t.len() > 0 {
        if t[0].partition == p && t[0].sort == s {
            assert(t[0].item == spec_find(t, p, s).unwrap());
        } else {
            lemma_find_is_element(t.skip(1), p, s);
            match spec_find(t.skip(1), p, s) {
                Some(m) => {
                    let w = choose|w: int| 0 <= w < t.skip(1).len() && t.skip(1)[w].item == m;
                    assert(t[w + 1].item == m);
                },
                None => {},
            }
        }
    }
}

/// Every entry a filter keeps was already in the table.
pub proof fn lemma_filter_elements(t: Seq<EntryV>, pred: spec_fn(EntryV) -> bool)
    ensures
        forall|k: int|
            0 <= k < t.filter(pred).len() ==> t.contains(#[trigger] t.filter(pred)[k]),
    decreases t.len(),
{
    reveal(Seq::filter);
    if t.len() > 0 {
        let d = t.drop_last();
        lemma_filter_elements(d, pred);
        let f = d.filter(pred);
        let r = t.filter(pred);
        assert forall|k: int| 0 <= k < r.len() implies t.contains(#[trigger] r[k]) by {
            if pred(t.last()) && k == r.len() - 1 {
                assert(r[k] == t[t.len() - 1]);
                assert(t.contains(t[t.len() - 1]));
            } else {
                assert(r[k] == f[k]);
                assert(d.contains(f[k]));
                let w = choose|w: int| 0 <= w < d.len() && d[w] == f[k];
                assert(t[w] == d[w]);
                assert(t.contains(t[w]));
            }
        }
    }
}

/// Inserting an entry at its ordered position keeps the table sorted.
pub proof fn lemma_sorted_insert(t: Seq<EntryV>, e: EntryV, i: int)
    requires
        entries_sorted(t),
        0 <= i <= t.len(),
        forall|j: int|
            0 <= j < i ==> key_lt(
                (#[trigger] t[j]).partition,
                t[j].sort,
                e.partition,
                e.sort,
            ),
        forall|j: int|
            i <= j < t.len() ==> key_lt(
                e.partition,
                e.sort,
                (#[trigger] t[j]).partition,
                t[j].sort,
            ),
    ensures
        entries_sorted(t.take(i) + seq![e] + t.skip(i)),
{
    let r = t.take(i) + seq![e] + t.skip(i);
    assert forall|a: int, b: int| 0 <= a < b < r.len() implies key_lt(
        (#[trigger] r[a]).partition,
        r[a].sort,
        (#[trigger] r[b]).partition,
        r[b].sort,
    ) by {
        assert(a < i ==> r[a] == t[a]);
        assert(a == i ==> r[a] == e);
        assert(a > i ==> r[a] == t[a - 1]);
        assert(b < i ==> r[b] == t[b]);
        assert(b == i ==> r[b] == e);
        assert(b > i ==> r[b] == t[b - 1]);
    }
}

/// Replacing an entry with one of the same composite key keeps the table
/// sorted.
pub proof fn lemma_sorted_update(t: Seq<EntryV>, e: EntryV, i: int)
    requires
        entries_sorted(t),
        0 <= i < t.len(),
        e.partition == t[i].partition,
        e.sort == t[i].sort,
    ensures
        entries_sorted(t.update(i, e)),
{
    let r = t.update(i, e);
    assert forall|a: int, b: int| 0 <= a < b < r.len() implies key_lt(
        (#[trigger] r[a]).partition,
        r[a].sort,
        (#[trigger] r[b]).partition,
        r[b].sort,
    ) by {
        assert(a != i ==> r[a] == t[a]);
        assert(b != i ==> r[b] == t[b]);
    }
}

/// Removing an entry keeps the table sorted.
pub proof fn lemma_sorted_remove(t: Seq<EntryV>, i: int)
    requires
        entries_sorted(t),
        0 <= i < t.len(),
    ensures
        entries_sorted(t.remove(i)),
{
    let r = t.remove(i);
    assert forall|a: int, b: int| 0 <= a < b < r.len() implies key_lt(
        (#[trigger] r[a]).partition,
        r[a].sort,
        (#[trigger] r[b]).partition,
        r[b].sort,
    ) by {
        assert(a < i ==> r[a] == t[a]);
        assert(a >= i ==> r[a] == t[a + 1]);
        assert(b < i ==> r[b] == t[b]);
        assert(b >= i ==> r[b] == t[b + 1]);
    }
}

/// The key attributes alone, in the shape the store hands back to resume
/// an interrupted scan.
pub open spec fn spec_key_item(p: Seq<char>, s: Seq<char>) -> Seq<(Seq<char>, AttrV)> {
    Seq::<(Seq<char>, AttrV)>::empty().push(("customerAndVesselId"@, AttrV::S(p))).push(
        ("licenseKey"@, AttrV::S(s)),
    )
}

/// Builds the key-attribute item for a composite key.
pub fn key_item(partition: &str, sort: &str) -> (r: Item)
    ensures
        r@ == spec_key_item(partition@, sort@),
{
    let mut r = Item::new();
    r.push_string("customerAndVesselId", String::from_str(partition));
    r.push_string("licenseKey", String::from_str(sort));
    proof {
        assert(r@ =~= spec_key_item(partition@, sort@));
    }
    r
}

/// The entry a put request stores: the composite key is read off the
/// item's own key attributes.
pub open spec fn put_entry_of(m: Seq<(Seq<char>, AttrV)>) -> EntryV {
    EntryV {
        partition: string_attr(m, "customerAndVesselId"@).unwrap(),
        sort: string_attr(m, "licenseKey"@).unwrap(),
        item: m,
    }
}

/// An in-memory model of one table of the backing store: items under
/// composite keys, held in ascending key order, queried a bounded page at
/// a time.  It stands where the remote store client would; all ordering
/// and uniqueness guarantees of the store are captured by its contracts.
pub struct LicenseTable {
    entries: Vec<TableEntry>,
    page_limit: usize,
}

impl View for LicenseTable {
    type V = Seq<EntryV>;

    closed spec fn view(&self) -> Seq<EntryV> {
        self.entries@.map_values(|e: TableEntry| e@)
    }
}

/// Whether an entry's composite key precedes the given one.
fn entry_before(e: &TableEntry, p: &str, s: &str) -> (r: bool)
    ensures
        r == key_lt(e@.partition, e@.sort, p@, s@),
{
    if str_lt(e.partition.as_str(), p) {
        true
    } else if str_eq(e.partition.as_str(), p) {
        str_lt(e.sort.as_str(), s)
    } else {
        false
    }
}

/// Whether an entry sits exactly at the given composite key.
fn entry_at(e: &TableEntry, p: &str, s: &str) -> (r: bool)
    ensures
        r == (e@.partition == p@ && e@.sort == s@),
{
    str_eq(e.partition.as_str(), p) && str_eq(e.sort.as_str(), s)
}

impl LicenseTable {
    /// The store's own per-query limit on returned items.
    pub closed spec fn spec_page_limit(self) -> nat {
        self.page_limit as nat
    }

    /// Well-formedness: strictly ascending keys and a positive page limit.
    pub open spec fn wf(self) -> bool {
        &&& entries_sorted(self@)
        &&& self.spec_page_limit() >= 1
    }

    /// An empty table with the store's per-query limit.
    pub fn new(page_limit: usize) -> (r: LicenseTable)
        requires
            page_limit >= 1,
        ensures
            r.wf(),
            r@ =~= Seq::<EntryV>::empty(),
            r.spec_page_limit() == page_limit,
    {
        LicenseTable { entries: Vec::new(), page_limit }
    }

    /// Stores an item under the composite key its own attributes carry,
    /// replacing in full any item already under that key.
    pub fn put_item(&mut self, item: Item)
        requires
            old(self).wf(),
            string_attr(item@, "customerAndVesselId"@) is Some,
            string_attr(item@, "licenseKey"@) is Some,
        ensures
            final(self).wf(),
            final(self)@ == spec_put(old(self)@, put_entry_of(item@)),
            final(self).spec_page_limit() == old(self).spec_page_limit(),
    {
        let partition = match item.get_string("customerAndVesselId") {
            Some(s) => s,
            None => unreached(),
        };
        let sort = match item.get_string("licenseKey") {
            Some(s) => s,
            None => unreached(),
        };
        let ghost e = put_entry_of(item@);
        let ghost t = self@;
        let n = self.entries.len();
        let mut i: usize = 0;
        while i < n && entry_before(&self.entries[i], partition.as_str(), sort.as_str())
            invariant
                0 <= i <= n,
                n == self.entries.len(),
                t == self@,
                e.partition == partition@,
                e.sort == sort@,
                forall|j: int|
                    0 <= j < i ==> key_lt(
                        (#[trigger] t[j]).partition,
                        t[j].sort,
                        e.partition,
                        e.sort,
                    ),
            decreases n - i,
        {
            proof {
                assert(t[i as int] == self.entries@[i as int]@);
            }
            i += 1;
        }
        proof {
            assert(i < n ==> t[i as int] == self.entries@[i as int]@);
            lemma_spec_put_at(t, e, i as int);
        }
        let hit = if i < n {
            entry_at(&self.entries[i], partition.as_str(), sort.as_str())
        } else {
            false
        };
        let entry = TableEntry { partition, sort, item };
        proof {
            assert(entry@ == e);
        }
        if hit {
            self.entries.remove(i);
            self.entries.insert(i, entry);
            proof {
                assert(self@ =~= t.update(i as int, e));
                lemma_sorted_update(t, e, i as int);
            }
        } else {
            self.entries.insert(i, entry);
            proof {
                assert(self@ =~= t.take(i as int) + seq![e] + t.skip(i as int));
                lemma_key_trichotomy(e.partition, e.sort, t[i as int].partition, t[i as int].sort);
                assert forall|j: int| i <= j < t.len() implies key_lt(
                    e.partition,
                    e.sort,
                    (#[trigger] t[j]).partition,
                    t[j].sort,
                ) by {
                    if j > i {
                        lemma_key_transitive(
                            e.partition,
                            e.sort,
                            t[i as int].partition,
                            t[i as int].sort,
                            t[j].partition,
                            t[j].sort,
                        );
                    }
                }
                lemma_sorted_insert(t, e, i as int);
            }
        }
    }

    /// Point lookup by composite key; absence is `None`, never an error.
    pub fn get_item(&self, partition: &str, sort: &str) -> (r: Option<Item>)
        ensures
            match r {
                Some(it) => spec_find(self@, partition@, sort@) == Some(it@),
                None => spec_find(self@, partition@, sort@) is None,
            },
    {
        let n = self.entries.len();
        let mut i: usize = 0;
        proof {
            assert(self@.skip(0) =~= self@);
        }
        while i < n
            invariant
                0 <= i <= n,
                n == self.entries.len(),
                spec_find(self@, partition@, sort@) == spec_find(
                    self@.skip(i as int),
                    partition@,
                    sort@,
                ),
            decreases n - i,
        {
            proof {
                assert(self@.skip(i as int)[0] == self@[i as int]);
                assert(self@[i as int] == self.entries@[i as int]@);
            }
            if entry_at(&self.entries[i], partition, sort) {
                return Some(self.entries[i].item.duplicate());
            }
            proof {
                assert(self@.skip(i as int).skip(1) =~= self@.skip(i as int + 1));
            }
            i += 1;
        }
        proof {
            assert(self@.skip(n as int) =~= Seq::<EntryV>::empty());
        }
        None
    }

    /// Unconditional delete by composite key; succeeds identically whether
    /// or not an item was there.
    pub fn delete_item(&mut self, partition: &str, sort: &str)
        requires
            old(self).wf(),
        ensures
            final(self).wf(),
            final(self)@ == spec_remove(old(self)@, partition@, sort@),
            final(self).spec_page_limit() == old(self).spec_page_limit(),
    {
        let ghost t = self@;
        let n = self.entries.len();
        let mut i: usize = 0;
        while i < n
            invariant
                0 <= i <= n,
                n == self.entries.len(),
                t == self@,
                t == old(self)@,
                old(self).wf(),
                self.spec_page_limit() == old(self).spec_page_limit(),
                forall|j: int|
                    0 <= j < i ==> !((#[trigger] t[j]).partition == partition@ && t[j].sort
                        == sort@),
            decreases n - i,
        {
            proof {
                assert(t[i as int] == self.entries@[i as int]@);
            }
            if entry_at(&self.entries[i], partition, sort) {
                self.entries.remove(i);
                proof {
                    lemma_spec_remove_at(t, partition@, sort@, i as int);
                    assert(self@ =~= t.remove(i as int));
                    lemma_sorted_remove(t, i as int);
                }
                return ;
            }
            i += 1;
        }
        proof {
            lemma_spec_remove_at(t, partition@, sort@, n as int);
        }
    }

    /// Range query over one partition: the matching entries in ascending
    /// sort-key order, at most one page of them.  Where more matching
    /// entries remain beyond the page, the store hands back the key
    /// attributes of the last returned item as the place to resume.
    pub fn query(&self, partition: &str, after: Option<&str>) -> (r: QueryOutput)
        requires
            self.wf(),
        ensures
            ({
                let m = spec_matching(self@, partition@, spec_cursor(after));
                let limit = self.spec_page_limit();
                &&& item_views(r.items@) == entry_items(spec_page(m, limit))
                &&& match r.last_evaluated_key {
                    Some(k) => m.len() > limit && k@ == spec_key_item(
                        spec_page(m, limit).last().partition,
                        spec_page(m, limit).last().sort,
                    ),
                    None => m.len() <= limit,
                }
            }),
    {
        let ghost t = self@;
        let ghost av = spec_cursor(after);
        let ghost pred = match_pred(partition@, av);
        let n = self.entries.len();
        let limit = self.page_limit;
        let mut items: Vec<Item> = Vec::new();
        let mut last_keys: Option<(String, String)> = None;
        let mut matched: usize = 0;
        let mut i: usize = 0;
        proof {
            assert(t.take(0) =~= Seq::<EntryV>::empty());
            reveal(Seq::filter);
            assert(t.take(0).filter(pred) =~= Seq::<EntryV>::empty());
            assert(item_views(items@) =~= entry_items(t.take(0).filter(pred)));
        }
        while i < n
            invariant
                0 <= i <= n,
                n == self.entries.len(),
                t == self@,
                limit == self.page_limit,
                av == spec_cursor(after),
                pred == match_pred(partition@, av),
                matched <= i,
                matched as int == t.take(i as int).filter(pred).len(),
                items@.len() == if matched <= limit {
                    matched as int
                } else {
                    limit as int
                },
                item_views(items@) == entry_items(
                    t.take(i as int).filter(pred).take(items@.len() as int),
                ),
                match last_keys {
                    Some(ks) => {
                        &&& items@.len() > 0
                        &&& ks.0@ == t.take(i as int).filter(pred)[items@.len() - 1].partition
                        &&& ks.1@ == t.take(i as int).filter(pred)[items@.len() - 1].sort
                    },
                    None => items@.len() == 0,
                },
            decreases n - i,
        {
            let ghost mi = t.take(i as int).filter(pred);
            let entry = &self.entries[i];
            proof {
                assert(t[i as int] == self.entries@[i as int]@);
                lemma_filter_take_step(t, pred, i as int);
            }
            let is_match = if str_eq(entry.partition.as_str(), partition) {
                match after {
                    Some(a) => str_lt(a, entry.sort.as_str()),
                    None => true,
                }
            } else {
                false
            };
            proof {
                assert(is_match == pred(t[i as int]));
            }
            if is_match {
                if matched < limit {
                    let ghost items0 = items@;
                    items.push(entry.item.duplicate());
                    last_keys = Some((entry.partition.clone(), entry.sort.clone()));
                    proof {
                        let mi2 = t.take(i as int + 1).filter(pred);
                        assert(mi2 == mi.push(t[i as int]));
                        assert(mi.take(items0.len() as int) =~= mi);
                        assert(mi2.take(items@.len() as int) =~= mi2);
                        assert forall|k: int| 0 <= k < items@.len() implies (#[trigger] items@[k])@
                            == mi2[k].item by {
                            if k < items0.len() {
                                assert(items@[k] == items0[k]);
                                assert(item_views(items0)[k] == entry_items(mi)[k]);
                            }
                        }
                        assert(item_views(items@) =~= entry_items(mi2));
                    }
                } else {
                    proof {
                        let mi2 = t.take(i as int + 1).filter(pred);
                        assert(mi2 == mi.push(t[i as int]));
                        assert(mi2.take(items@.len() as int) =~= mi.take(items@.len() as int));
                    }
                }
                matched = matched + 1;
            }
            i += 1;
        }
        proof {
            assert(t.take(n as int) =~= t);
        }
        let last_evaluated_key = if matched > limit {
            match &last_keys {
                Some(ks) => Some(key_item(ks.0.as_str(), ks.1.as_str())),
                None => unreached(),
            }
        } else {
            None
        };
        proof {
            let m = t.filter(pred);
            if matched > limit {
                assert(spec_page(m, limit as nat) =~= m.take(limit as int));
                assert(spec_page(m, limit as nat).last() == m[limit - 1]);
            } else {
                assert(spec_page(m, limit as nat) =~= m);
            }
        }
        QueryOutput { items, last_evaluated_key }
    }
}

/// What one range-query call hands back: the page of items, and the key
/// attributes of the last returned item where the scan stopped at the page
/// limit with more matching items beyond it.
pub struct QueryOutput {
    pub items: Vec<Item>,
    pub last_evaluated_key: Option<Item>,
}

/// The image of an optional exclusive-start cursor.
pub open spec fn spec_cursor(after: Option<&str>) -> Option<Seq<char>> {
    match after {
        Some(a) => Some(a@),
        None => None,
    }
}

} // verus!
