use vstd::prelude::*;

use crate::composite_key::{lemma_partition_of_injective, partition_of};
use crate::item::lemma_item_roundtrip;
use crate::license_dao::{entry_of, spec_create, spec_delete, spec_get};
use crate::model::{id_chars_ok, LicenseView};
use crate::item::{spec_license_of, AttrV};
use crate::license_dao::{lemma_licenses_of_index, spec_licenses_of};
use crate::table::{
    cursor_lt, entries_sorted, entry_items, key_lt, lemma_filter_elements, lemma_filter_sorted,
    lemma_find_is_element, lemma_find_put_other, lemma_find_put_same, lemma_find_remove_same,
    lemma_put_elements, lemma_remove_absent, lemma_remove_elements, spec_find, spec_matching,
    spec_page, EntryV,
};
use crate::text::lex_lt;

verus! {

/// Round trip: after a create, a lookup under the same customer, vessel
/// and license key yields exactly the created license, with the expiry
/// text — offset included — preserved verbatim.
pub proof fn lemma_create_then_get(t: Seq<EntryV>, l: LicenseView)
    ensures
        spec_get(spec_create(t, l), l.customer_id, l.vessel_id, l.license_key) == Some(Some(l)),
{
    lemma_find_put_same(t, entry_of(l));
    lemma_item_roundtrip(l);
}

/// Idempotent delete: deleting a composite key that holds nothing leaves
/// the directory exactly as it was (and the operation itself always
/// returns success, as its contract states).
pub proof fn lemma_delete_absent(t: Seq<EntryV>, c: Seq<char>, v: Seq<char>, k: Seq<char>)
    requires
        spec_find(t, partition_of(c, v), k) is None,
    ensures
        spec_delete(t, c, v, k) == t,
{
    lemma_remove_absent(t, partition_of(c, v), k);
}

/// Absence is not failure: a lookup of a composite key that holds nothing
/// is a success carrying `None`, never an error.
pub proof fn lemma_get_absent(t: Seq<EntryV>, c: Seq<char>, v: Seq<char>, k: Seq<char>)
    requires
        spec_find(t, partition_of(c, v), k) is None,
    ensures
        spec_get(t, c, v, k) == Some(None::<LicenseView>),
{
}

/// Overwrite semantics: a second create under the same composite key
/// replaces the first in full — a later lookup sees only the second
/// license, whatever its count and expiry.
pub proof fn lemma_create_overwrites(t: Seq<EntryV>, l1: LicenseView, l2: LicenseView)
    requires
        l1.customer_id == l2.customer_id,
        l1.vessel_id == l2.vessel_id,
        l1.license_key == l2.license_key,
    ensures
        spec_get(
            spec_create(spec_create(t, l1), l2),
            l2.customer_id,
            l2.vessel_id,
            l2.license_key,
        ) == Some(Some(l2)),
{
    lemma_create_then_get(spec_create(t, l1), l2);
}

/// After a delete, the deleted composite key reads back as absent.
pub proof fn lemma_delete_then_get(t: Seq<EntryV>, c: Seq<char>, v: Seq<char>, k: Seq<char>)
    requires
        entries_sorted(t),
    ensures
        spec_get(spec_delete(t, c, v, k), c, v, k) == Some(None::<LicenseView>),
{
    lemma_find_remove_same(t, partition_of(c, v), k);
}

/// A create touches no other entry: a lookup under any other customer,
/// vessel and license key triple reads exactly what it read before.  This
/// rests on the central invariant of the key scheme: the derived partition
/// component is injective on separator-free identifier pairs.
pub proof fn lemma_create_preserves_others(
    t: Seq<EntryV>,
    l: LicenseView,
    c: Seq<char>,
    v: Seq<char>,
    k: Seq<char>,
)
    requires
        l.wf(),
        id_chars_ok(c),
        id_chars_ok(v),
        !(c == l.customer_id && v == l.vessel_id && k == l.license_key),
    ensures
        spec_get(spec_create(t, l), c, v, k) == spec_get(t, c, v, k),
{
    if partition_of(c, v) == partition_of(l.customer_id, l.vessel_id) {
        lemma_partition_of_injective(c, v, l.customer_id, l.vessel_id);
    }
    lemma_find_put_other(t, entry_of(l), partition_of(c, v), k);
}

/// A coherent directory image: every stored item decodes into a
/// well-formed license whose own key attributes are exactly the composite
/// key it stands under.  This is the state of any directory that only
/// `create` has written to, whatever was created and deleted.
pub open spec fn coherent(t: Seq<EntryV>) -> bool {
    forall|j: int|
        0 <= j < t.len() ==> match spec_license_of((#[trigger] t[j]).item) {
            Some(l) => {
                &&& l.wf()
                &&& l.license_key == t[j].sort
                &&& partition_of(l.customer_id, l.vessel_id) == t[j].partition
            },
            None => false,
        }
}

/// A create keeps the directory coherent: the one item it writes is its
/// own encoding of a well-formed license, which decodes by the round trip
/// and stands under its own derived key.
pub proof fn lemma_create_keeps_coherent(t: Seq<EntryV>, l: LicenseView)
    requires
        coherent(t),
        l.wf(),
    ensures
        coherent(spec_create(t, l)),
{
    lemma_put_elements(t, entry_of(l));
    lemma_item_roundtrip(l);
    let r = spec_create(t, l);
    assert forall|j: int| 0 <= j < r.len() implies match spec_license_of(
        (#[trigger] r[j]).item,
    ) {
        Some(d) => d.wf() && d.license_key == r[j].sort && partition_of(
            d.customer_id,
            d.vessel_id,
        ) == r[j].partition,
        None => false,
    } by {
        if r[j] != entry_of(l) {
            let w = choose|w: int| 0 <= w < t.len() && t[w] == r[j];
            assert(spec_license_of(t[w].item) is Some);
        }
    }
}

/// A delete keeps the directory coherent.
pub proof fn lemma_delete_keeps_coherent(t: Seq<EntryV>, c: Seq<char>, v: Seq<char>, k: Seq<char>)
    requires
        coherent(t),
    ensures
        coherent(spec_delete(t, c, v, k)),
{
    lemma_remove_elements(t, partition_of(c, v), k);
    let r = spec_delete(t, c, v, k);
    assert forall|j: int| 0 <= j < r.len() implies match spec_license_of(
        (#[trigger] r[j]).item,
    ) {
        Some(d) => d.wf() && d.license_key == r[j].sort && partition_of(
            d.customer_id,
            d.vessel_id,
        ) == r[j].partition,
        None => false,
    } by {
        let w = choose|w: int| 0 <= w < t.len() && t[w] == r[j];
        assert(spec_license_of(t[w].item) is Some);
    }
}

/// Success is owed: on a coherent directory a lookup never fails — it is
/// a success carrying the stored license or `None`.
pub proof fn lemma_get_succeeds(t: Seq<EntryV>, c: Seq<char>, v: Seq<char>, k: Seq<char>)
    requires
        coherent(t),
    ensures
        spec_get(t, c, v, k) is Some,
{
    lemma_find_is_element(t, partition_of(c, v), k);
}

/// Items that all decode make a page that decodes.
proof fn lemma_licenses_of_all_some(ms: Seq<Seq<(Seq<char>, AttrV)>>)
    requires
        forall|j: int| 0 <= j < ms.len() ==> spec_license_of(#[trigger] ms[j]) is Some,
    ensures
        spec_licenses_of(ms) is Some,
    decreases ms.len(),
{
    if ms.len() > 0 {
        assert forall|j: int| 0 <= j < ms.skip(1).len() implies spec_license_of(
            #[trigger] ms.skip(1)[j],
        ) is Some by {
            assert(ms.skip(1)[j] == ms[j + 1]);
        }
        lemma_licenses_of_all_some(ms.skip(1));
    }
}

/// Success is owed: on a coherent directory a list never fails — the
/// returned page decodes in full.
pub proof fn lemma_list_succeeds(
    t: Seq<EntryV>,
    p: Seq<char>,
    after: Option<Seq<char>>,
    limit: nat,
)
    requires
        coherent(t),
    ensures
        spec_licenses_of(entry_items(spec_page(spec_matching(t, p, after), limit))) is Some,
{
    let m = spec_matching(t, p, after);
    let pg = spec_page(m, limit);
    lemma_filter_elements(t, crate::table::match_pred(p, after));
    assert forall|j: int| 0 <= j < entry_items(pg).len() implies spec_license_of(
        #[trigger] entry_items(pg)[j],
    ) is Some by {
        assert(pg[j] == m[j]);
        assert(t.contains(m[j]));
        let w = choose|w: int| 0 <= w < t.len() && t[w] == m[j];
        assert(spec_license_of(t[w].item) is Some);
        assert(entry_items(pg)[j] == pg[j].item);
    }
    lemma_licenses_of_all_some(entry_items(pg));
}

/// Pagination ordering and resume: every entry a list visits belongs to
/// the queried partition and lies strictly after the cursor (exclusive
/// start — the cursor's own key is never re-returned), and the returned
/// page ascends strictly by license key.
pub proof fn lemma_page_ordered(
    t: Seq<EntryV>,
    p: Seq<char>,
    after: Option<Seq<char>>,
    limit: nat,
)
    requires
        entries_sorted(t),
    ensures
        ({
            let pg = spec_page(spec_matching(t, p, after), limit);
            &&& forall|a: int|
                0 <= a < pg.len() ==> (#[trigger] pg[a]).partition == p && cursor_lt(
                    after,
                    pg[a].sort,
                )
            &&& forall|a: int, b: int|
                0 <= a < b < pg.len() ==> lex_lt((#[trigger] pg[a]).sort, (#[trigger] pg[b]).sort)
        }),
{
    let m = spec_matching(t, p, after);
    let pg = spec_page(m, limit);
    lemma_filter_sorted(t, crate::table::match_pred(p, after));
    assert forall|a: int| 0 <= a < pg.len() implies (#[trigger] pg[a]).partition == p && cursor_lt(
        after,
        pg[a].sort,
    ) by {
        assert(pg[a] == m[a]);
        t.lemma_filter_pred(crate::table::match_pred(p, after), a);
    }
    assert forall|a: int, b: int| 0 <= a < b < pg.len() implies lex_lt(
        (#[trigger] pg[a]).sort,
        (#[trigger] pg[b]).sort,
    ) by {
        assert(pg[a] == m[a]);
        assert(pg[b] == m[b]);
        assert(key_lt(m[a].partition, m[a].sort, m[b].partition, m[b].sort));
        t.lemma_filter_pred(crate::table::match_pred(p, after), a);
        t.lemma_filter_pred(crate::table::match_pred(p, after), b);
        // both entries lie in the partition, and the partition order is
        // irreflexive, so the key order falls on the sort keys
        crate::text::lemma_lex_trichotomy(m[a].partition, m[b].partition);
    }
}

/// What a list hands the caller, on a coherent directory: every returned
/// license belongs to exactly the queried customer and vessel, lies
/// strictly after the cursor, and the page ascends strictly by license
/// key.
pub proof fn lemma_listed_licenses(
    t: Seq<EntryV>,
    c: Seq<char>,
    v: Seq<char>,
    after: Option<Seq<char>>,
    limit: nat,
)
    requires
        entries_sorted(t),
        coherent(t),
        id_chars_ok(c),
        id_chars_ok(v),
    ensures
        ({
            let pg = spec_page(spec_matching(t, partition_of(c, v), after), limit);
            match spec_licenses_of(entry_items(pg)) {
                Some(ls) => {
                    &&& forall|a: int|
                        0 <= a < ls.len() ==> {
                            &&& (#[trigger] ls[a]).customer_id == c
                            &&& ls[a].vessel_id == v
                            &&& cursor_lt(after, ls[a].license_key)
                        }
                    &&& forall|a: int, b: int|
                        0 <= a < b < ls.len() ==> lex_lt(
                            (#[trigger] ls[a]).license_key,
                            (#[trigger] ls[b]).license_key,
                        )
                },
                None => false,
            }
        }),
{
    let p = partition_of(c, v);
    let m = spec_matching(t, p, after);
    let pg = spec_page(m, limit);
    lemma_list_succeeds(t, p, after, limit);
    lemma_page_ordered(t, p, after, limit);
    lemma_licenses_of_index(entry_items(pg));
    lemma_filter_elements(t, crate::table::match_pred(p, after));
    let ls = spec_licenses_of(entry_items(pg)).unwrap();
    assert forall|a: int| 0 <= a < ls.len() implies {
        &&& (#[trigger] ls[a]).customer_id == c
        &&& ls[a].vessel_id == v
        &&& cursor_lt(after, ls[a].license_key)
        &&& ls[a].license_key == pg[a].sort
    } by {
        assert(entry_items(pg)[a] == pg[a].item);
        assert(spec_license_of(pg[a].item) == Some(ls[a]));
        assert(pg[a] == m[a]);
        assert(t.contains(m[a]));
        let w = choose|w: int| 0 <= w < t.len() && t[w] == m[a];
        assert(spec_license_of(t[w].item) is Some);
        // the decoded license carries its entry's keys, and the entry's
        // partition is the one derived for this customer and vessel, so
        // by injectivity the license names exactly this pair
        assert(partition_of(ls[a].customer_id, ls[a].vessel_id) == p);
        lemma_partition_of_injective(ls[a].customer_id, ls[a].vessel_id, c, v);
    }
    assert forall|a: int, b: int| 0 <= a < b < ls.len() implies lex_lt(
        (#[trigger] ls[a]).license_key,
        (#[trigger] ls[b]).license_key,
    ) by {
        assert(ls[a].license_key == pg[a].sort);
        assert(ls[b].license_key == pg[b].sort);
    }
}

} // verus!
