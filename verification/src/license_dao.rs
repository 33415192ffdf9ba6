use vstd::prelude::*;

use crate::composite_key::{key_of, partition_of};
use crate::item::{
    item_to_license, lemma_attr_of_push, lemma_item_of_attrs, spec_item_of, spec_license_of,
    string_attr, AttrV, license_to_item,
};
use crate::model::{DynamoResultsPage, License, LicenseView};
use crate::runtime_error::RuntimeError;
use crate::table::{
    spec_cursor, spec_find, spec_key_item, spec_matching, spec_page, spec_put, spec_remove,
    entry_items, item_views, put_entry_of, EntryV, LicenseTable, QueryOutput,
};

verus! {

/// The entry a create stores: the derived partition component, the license
/// key as sort key, and the encoded wire item.
pub open spec fn entry_of(l: LicenseView) -> EntryV {
    EntryV {
        partition: partition_of(l.customer_id, l.vessel_id),
        sort: l.license_key,
        item: spec_item_of(l),
    }
}

/// The table image after a create: an unconditional put of the encoded
/// license, replacing in full whatever stood under the same composite key.
pub open spec fn spec_create(t: Seq<EntryV>, l: LicenseView) -> Seq<EntryV> {
    spec_put(t, entry_of(l))
}

/// The table image after a delete of a composite key.
pub open spec fn spec_delete(t: Seq<EntryV>, c: Seq<char>, v: Seq<char>, k: Seq<char>) -> Seq<
    EntryV,
> {
    spec_remove(t, partition_of(c, v), k)
}

/// What a point lookup yields: `Some(None)` for an absent key (absence is
/// success), `Some(Some(l))` for a stored license, and `None` where the
/// stored item does not decode.
pub open spec fn spec_get(t: Seq<EntryV>, c: Seq<char>, v: Seq<char>, k: Seq<char>) -> Option<
    Option<LicenseView>,
> {
    match spec_find(t, partition_of(c, v), k) {
        None => Some(None),
        Some(m) => match spec_license_of(m) {
            Some(l) => Some(Some(l)),
            None => None,
        },
    }
}

/// The licenses a sequence of items decodes into, or `None` where any one
/// of them fails to decode.
pub open spec fn spec_licenses_of(ms: Seq<Seq<(Seq<char>, AttrV)>>) -> Option<Seq<LicenseView>>
    decreases ms.len(),
{
    if ms.len() == 0 {
        Some(Seq::<LicenseView>::empty())
    } else {
        match (spec_license_of(ms[0]), spec_licenses_of(ms.skip(1))) {
            (Some(l), Some(rest)) => Some(seq![l] + rest),
            _ => None,
        }
    }
}

/// Decoding one more item extends the decoded page, and fails exactly
/// where that item fails.
proof fn lemma_licenses_of_push(ms: Seq<Seq<(Seq<char>, AttrV)>>, x: Seq<(Seq<char>, AttrV)>)
    ensures
        spec_licenses_of(ms.push(x)) == (match (spec_licenses_of(ms), spec_license_of(x)) {
            (Some(ls), Some(l)) => Some(ls.push(l)),
            _ => None,
        }),
    decreases ms.len(),
{
    if ms.len() == 0 {
        assert(ms.push(x)[0] == x);
        assert(ms.push(x).skip(1) =~= Seq::<Seq<(Seq<char>, AttrV)>>::empty());
        assert(spec_licenses_of(Seq::<Seq<(Seq<char>, AttrV)>>::empty()) == Some(
            Seq::<LicenseView>::empty(),
        ));
        match spec_license_of(x) {
            Some(l) => {
                assert(seq![l] + Seq::<LicenseView>::empty() =~= Seq::<
                    LicenseView,
                >::empty().push(l));
            },
            None => {},
        }
    } else {
        assert(ms.push(x)[0] == ms[0]);
        assert(ms.push(x).skip(1) =~= ms.skip(1).push(x));
        lemma_licenses_of_push(ms.skip(1), x);
        match (spec_license_of(ms[0]), spec_licenses_of(ms.skip(1)), spec_license_of(x)) {
            (Some(l0), Some(rest), Some(l)) => {
                assert(seq![l0] + rest.push(l) =~= (seq![l0] + rest).push(l));
            },
            _ => {},
        }
    }
}

/// A decoded page lines up with its items: same length, each license the
/// decoding of the item at its position.
pub proof fn lemma_licenses_of_index(ms: Seq<Seq<(Seq<char>, AttrV)>>)
    ensures
        match spec_licenses_of(ms) {
            Some(ls) => {
                &&& ls.len() == ms.len()
                &&& forall|j: int|
                    0 <= j < ms.len() ==> spec_license_of(#[trigger] ms[j]) == Some(ls[j])
            },
            None => true,
        },
    decreases ms.len(),
{
    if ms.len() > 0 {
        lemma_licenses_of_index(ms.skip(1));
        match (spec_license_of(ms[0]), spec_licenses_of(ms.skip(1))) {
            (Some(l), Some(rest)) => {
                let ls = seq![l] + rest;
                assert forall|j: int| 0 <= j < ms.len() implies spec_license_of(#[trigger] ms[j])
                    == Some(ls[j]) by {
                    if j > 0 {
                        assert(ms[j] == ms.skip(1)[j - 1]);
                        assert(ls[j] == rest[j - 1]);
                    }
                }
            },
            _ => {},
        }
    }
}

/// One undecodable item poisons the whole page.
proof fn lemma_licenses_of_none(ms: Seq<Seq<(Seq<char>, AttrV)>>, i: int)
    requires
        0 <= i < ms.len(),
        spec_license_of(ms[i]) is None,
    ensures
        spec_licenses_of(ms) is None,
    decreases ms.len(),
{
    if i > 0 {
        assert(ms.skip(1)[i - 1] == ms[i]);
        lemma_licenses_of_none(ms.skip(1), i - 1);
    }
}

/// The key attributes the store hands back name exactly the composite key
/// they were built from.
pub proof fn lemma_key_item_attrs(p: Seq<char>, s: Seq<char>)
    ensures
        string_attr(spec_key_item(p, s), "customerAndVesselId"@) == Some(p),
        string_attr(spec_key_item(p, s), "licenseKey"@) == Some(s),
{
    reveal_strlit("customerAndVesselId");
    reveal_strlit("licenseKey");
    assert(("customerAndVesselId"@).len() == 19);
    assert(("licenseKey"@).len() == 10);
    let e = Seq::<(Seq<char>, AttrV)>::empty();
    let p1 = ("customerAndVesselId"@, AttrV::S(p));
    let p2 = ("licenseKey"@, AttrV::S(s));
    lemma_attr_of_push(e, p1, "customerAndVesselId"@);
    lemma_attr_of_push(e.push(p1), p2, "customerAndVesselId"@);
    lemma_attr_of_push(e, p1, "licenseKey"@);
    lemma_attr_of_push(e.push(p1), p2, "licenseKey"@);
}

/// Interprets one range-query response: decodes every returned item and
/// reads the continuation cursor off the store's resume key.  Fails
/// exactly where some returned item does not decode.
pub fn page_from_query(out: QueryOutput) -> (r: Result<
    DynamoResultsPage<License, String>,
    RuntimeError,
>)
    ensures
        match r {
            Ok(page) => {
                &&& spec_licenses_of(item_views(out.items@)) == Some(
                    page.items@.map_values(|l: License| l@),
                )
                &&& match (page.last_evaluated_key, out.last_evaluated_key) {
                    (Some(s), Some(k)) => string_attr(k@, "licenseKey"@) == Some(s@),
                    (None, Some(k)) => string_attr(k@, "licenseKey"@) is None,
                    (None, None) => true,
                    (Some(_), None) => false,
                }
            },
            Err(e) => {
                &&& spec_licenses_of(item_views(out.items@)) is None
                &&& e matches RuntimeError::SerializationError(_)
            },
        },
{
    let ghost ms = item_views(out.items@);
    let n = out.items.len();
    let mut licenses: Vec<License> = Vec::new();
    let mut i: usize = 0;
    proof {
        assert(ms.take(0) =~= Seq::<Seq<(Seq<char>, AttrV)>>::empty());
        assert(licenses@.map_values(|l: License| l@) =~= Seq::<LicenseView>::empty());
    }
    while i < n
        invariant
            0 <= i <= n,
            n == out.items.len(),
            ms == item_views(out.items@),
            licenses@.len() == i,
            spec_licenses_of(ms.take(i as int)) == Some(licenses@.map_values(|l: License| l@)),
        decreases n - i,
    {
        proof {
            assert(ms[i as int] == out.items@[i as int]@);
            assert(ms.take(i as int + 1) =~= ms.take(i as int).push(ms[i as int]));
            lemma_licenses_of_push(ms.take(i as int), ms[i as int]);
        }
        match item_to_license(&out.items[i]) {
            Ok(l) => {
                let ghost before = licenses@;
                licenses.push(l);
                proof {
                    assert(licenses@.map_values(|l: License| l@) =~= before.map_values(
                        |l: License| l@,
                    ).push(licenses@[i as int]@));
                }
            },
            Err(e) => {
                proof {
                    lemma_licenses_of_none(ms, i as int);
                }
                return Err(e);
            },
        }
        i += 1;
    }
    proof {
        assert(ms.take(n as int) =~= ms);
    }
    let last_evaluated_key = match &out.last_evaluated_key {
        Some(k) => k.get_string("licenseKey"),
        None => None,
    };
    Ok(DynamoResultsPage { items: licenses, last_evaluated_key })
}

/// The directory access layer: create, read, delete and paginated list
/// over the licenses table, every operation addressing the partition
/// derived from the customer and vessel identifiers.  Constructed with the
/// store handle and the table identifier; there is no ambient singleton,
/// no cache and no retry: each call reaches the store exactly once.
pub struct LicenseDao {
    client: LicenseTable,
    table_name: String,
}

impl View for LicenseDao {
    type V = Seq<EntryV>;

    closed spec fn view(&self) -> Seq<EntryV> {
        self.client@
    }
}

impl LicenseDao {
    /// The store's per-query page limit.
    pub closed spec fn spec_page_limit(self) -> nat {
        self.client.spec_page_limit()
    }

    /// The identifier of the backing table.
    pub closed spec fn spec_table_name(self) -> Seq<char> {
        self.table_name@
    }

    /// Well-formedness: the backing table is well formed.
    pub closed spec fn wf(self) -> bool {
        self.client.wf()
    }

    /// Builds the access layer from a store handle and a table identifier.
    pub fn new(client: LicenseTable, table_name: String) -> (r: LicenseDao)
        requires
            client.wf(),
        ensures
            r.wf(),
            r@ == client@,
            r.spec_page_limit() == client.spec_page_limit(),
            r.spec_table_name() == table_name@,
    {
        LicenseDao { client, table_name }
    }

    /// The identifier of the backing table.
    pub fn table_name(&self) -> (r: &String)
        ensures
            r@ == self.spec_table_name(),
    {
        &self.table_name
    }

    /// Serializes the license, adds the derived partition attribute, and
    /// performs an unconditional put: any prior entry under the same
    /// composite key is replaced in full.
    pub fn create_license(&mut self, license: License) -> (r: Result<(), RuntimeError>)
        requires
            old(self).wf(),
            license@.wf(),
        ensures
            final(self).wf(),
            final(self)@ == spec_create(old(self)@, license@),
            final(self).spec_page_limit() == old(self).spec_page_limit(),
            final(self).spec_table_name() == old(self).spec_table_name(),
            r is Ok,
    {
        let item = license_to_item(&license);
        proof {
            lemma_item_of_attrs(license@);
            assert(put_entry_of(item@) == entry_of(license@));
        }
        self.client.put_item(item);
        Ok(())
    }

    /// Point lookup by composite key.  Absence is success with `None`,
    /// never an error; the one failure is a stored item that does not
    /// decode.
    pub fn get_license(&self, customer_id: &str, vessel_id: &str, license_key: &str) -> (r: Result<
        Option<License>,
        RuntimeError,
    >)
        ensures
            match r {
                Ok(Some(l)) => spec_get(self@, customer_id@, vessel_id@, license_key@) == Some(
                    Some(l@),
                ),
                Ok(None) => spec_get(self@, customer_id@, vessel_id@, license_key@) == Some(
                    None::<LicenseView>,
                ),
                Err(e) => {
                    &&& spec_get(self@, customer_id@, vessel_id@, license_key@) is None
                    &&& e matches RuntimeError::SerializationError(_)
                },
            },
    {
        let key = key_of(customer_id, vessel_id);
        match self.client.get_item(key.as_str(), license_key) {
            None => Ok(None),
            Some(item) => match item_to_license(&item) {
                Ok(l) => Ok(Some(l)),
                Err(e) => Err(e),
            },
        }
    }

    /// Unconditional delete by composite key; idempotent, succeeding
    /// identically whether or not the item existed.
    pub fn delete_license(&mut self, customer_id: &str, vessel_id: &str, license_key: &str) -> (r:
        Result<(), RuntimeError>)
        requires
            old(self).wf(),
        ensures
            final(self).wf(),
            final(self)@ == spec_delete(old(self)@, customer_id@, vessel_id@, license_key@),
            final(self).spec_page_limit() == old(self).spec_page_limit(),
            final(self).spec_table_name() == old(self).spec_table_name(),
            r is Ok,
    {
        let key = key_of(customer_id, vessel_id);
        self.client.delete_item(key.as_str(), license_key);
        Ok(())
    }

    /// Range query over the partition derived for this customer and vessel
    /// pair, in ascending license-key order, one store page at a time.
    /// With a cursor, the scan resumes strictly after the license key
    /// equal to it (exclusive start); the partition is always the one
    /// freshly derived for this call, since the cursor carries the sort
    /// key alone.  A cursor obtained under a different customer and vessel
    /// pair therefore continues silently within this call's partition:
    /// there is no cross-partition validation.  The returned cursor is the
    /// license key of the last returned item where more results remain
    /// beyond the page, and `None` otherwise.
    pub fn list_licenses(
        &self,
        customer_id: &str,
        vessel_id: &str,
        page_token: Option<String>,
    ) -> (r: Result<DynamoResultsPage<License, String>, RuntimeError>)
        requires
            self.wf(),
        ensures
            ({
                let m = spec_matching(
                    self@,
                    partition_of(customer_id@, vessel_id@),
                    spec_token(page_token),
                );
                let pg = spec_page(m, self.spec_page_limit());
                match r {
                    Ok(page) => {
                        &&& spec_licenses_of(entry_items(pg)) == Some(
                            page.items@.map_values(|l: License| l@),
                        )
                        &&& match page.last_evaluated_key {
                            Some(s) => m.len() > self.spec_page_limit() && s@ == pg.last().sort,
                            None => m.len() <= self.spec_page_limit(),
                        }
                    },
                    Err(e) => {
                        &&& spec_licenses_of(entry_items(pg)) is None
                        &&& e matches RuntimeError::SerializationError(_)
                    },
                }
            }),
    {
        let key = key_of(customer_id, vessel_id);
        let after: Option<&str> = match &page_token {
            Some(s) => Some(s.as_str()),
            None => None,
        };
        let out = self.client.query(key.as_str(), after);
        proof {
            assert(spec_cursor(after) == spec_token(page_token));
            let m = spec_matching(
                self@,
                partition_of(customer_id@, vessel_id@),
                spec_token(page_token),
            );
            let pg = spec_page(m, self.spec_page_limit());
            assert(item_views(out.items@) == entry_items(pg));
            if out.last_evaluated_key is Some {
                lemma_key_item_attrs(pg.last().partition, pg.last().sort);
            }
        }
        page_from_query(out)
    }
}

/// The image of an optional pagination token.
pub open spec fn spec_token(page_token: Option<String>) -> Option<Seq<char>> {
    match page_token {
        Some(s) => Some(s@),
        None => None,
    }
}

} // verus!
