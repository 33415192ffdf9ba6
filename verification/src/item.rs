use vstd::prelude::*;

use crate::composite_key::{key_of, partition_of};
use crate::decimal::{all_digits, dec_of, dec_to_u8, dec_val, lemma_dec_of_val, u8_to_dec};
use crate::model::{License, LicenseView};
use crate::runtime_error::RuntimeError;
use crate::text::str_eq;

verus! {

/// A scalar attribute value in the store's wire representation.
#[derive(Debug)]
pub enum Attr {
    /// A string scalar.
    S(String),
    /// A numeric scalar, carried as decimal text.
    N(String),
}

/// Mathematical image of an [`Attr`].
pub enum AttrV {
    S(Seq<char>),
    N(Seq<char>),
}

impl View for Attr {
    type V = AttrV;

    open spec fn view(&self) -> AttrV {
        match self {
            Attr::S(s) => AttrV::S(s@),
            Attr::N(s) => AttrV::N(s@),
        }
    }
}

impl Attr {
    /// An exact copy.
    pub fn duplicate(&self) -> (r: Attr)
        ensures
            r == *self,
    {
        match self {
            Attr::S(s) => Attr::S(s.clone()),
            Attr::N(s) => Attr::N(s.clone()),
        }
    }
}

/// An item as the store carries it: an ordered mapping of attribute names
/// to scalar values.  The first binding of a name is the one that counts.
#[derive(Debug)]
pub struct Item {
    pub attrs: Vec<(String, Attr)>,
}

impl View for Item {
    type V = Seq<(Seq<char>, AttrV)>;

    open spec fn view(&self) -> Seq<(Seq<char>, AttrV)> {
        self.attrs@.map_values(|p: (String, Attr)| (p.0@, p.1@))
    }
}

/// The first value bound to a name, if any.
pub open spec fn attr_of(m: Seq<(Seq<char>, AttrV)>, name: Seq<char>) -> Option<AttrV>
    decreases m.len(),
{
    if m.len() == 0 {
        None
    } else if m[0].0 == name {
        Some(m[0].1)
    } else {
        attr_of(m.skip(1), name)
    }
}

/// The value bound to a name, provided it is a string scalar.
pub open spec fn string_attr(m: Seq<(Seq<char>, AttrV)>, name: Seq<char>) -> Option<Seq<char>> {
    match attr_of(m, name) {
        Some(AttrV::S(s)) => Some(s),
        _ => None,
    }
}

/// Appending a binding changes no name already bound and binds a fresh
/// name to the appended value.
pub proof fn lemma_attr_of_push(m: Seq<(Seq<char>, AttrV)>, p: (Seq<char>, AttrV), name: Seq<char>)
    ensures
        attr_of(m.push(p), name) == (match attr_of(m, name) {
            Some(a) => Some(a),
            None => if p.0 == name {
                Some(p.1)
            } else {
                None
            },
        }),
    decreases m.len(),
{
    if m.len() == 0 {
        assert(m.push(p).skip(1) =~= Seq::<(Seq<char>, AttrV)>::empty());
        assert(attr_of(Seq::<(Seq<char>, AttrV)>::empty(), name) is None);
    } else {
        assert(m.push(p).skip(1) =~= m.skip(1).push(p));
        lemma_attr_of_push(m.skip(1), p, name);
    }
}

impl Item {
    /// An item with no attributes yet.
    pub fn new() -> (r: Item)
        ensures
            r@ =~= Seq::<(Seq<char>, AttrV)>::empty(),
    {
        Item { attrs: Vec::new() }
    }

    /// Binds a name to a string scalar.
    pub fn push_string(&mut self, name: &str, value: String)
        ensures
            final(self)@ =~= old(self)@.push((name@, AttrV::S(value@))),
    {
        self.attrs.push((String::from_str(name), Attr::S(value)));
    }

    /// Binds a name to a numeric scalar given as decimal text.
    pub fn push_number(&mut self, name: &str, value: String)
        ensures
            final(self)@ =~= old(self)@.push((name@, AttrV::N(value@))),
    {
        self.attrs.push((String::from_str(name), Attr::N(value)));
    }

    /// Looks a name up, returning the first value bound to it.
    pub fn get<'a>(&'a self, name: &str) -> (r: Option<&'a Attr>)
        ensures
            match r {
                Some(a) => attr_of(self@, name@) == Some(a@),
                None => attr_of(self@, name@) is None,
            },
    {
        let n = self.attrs.len();
        let mut i: usize = 0;
        proof {
            assert(self@.skip(0) =~= self@);
        }
        while i < n
            invariant
                0 <= i <= n,
                n == self.attrs.len(),
                attr_of(self@, name@) == attr_of(self@.skip(i as int), name@),
            decreases n - i,
        {
            let pair = &self.attrs[i];
            proof {
                assert(self@.skip(i as int)[0] == self@[i as int]);
                assert(self@[i as int] == (self.attrs@[i as int].0@, self.attrs@[i as int].1@));
            }
            if str_eq(pair.0.as_str(), name) {
                return Some(&pair.1);
            }
            proof {
                assert(self@.skip(i as int).skip(1) =~= self@.skip(i as int + 1));
            }
            i += 1;
        }
        proof {
            assert(self@.skip(n as int) =~= Seq::<(Seq<char>, AttrV)>::empty());
        }
        None
    }

    /// Looks a name up, returning a copy of the string scalar bound to it.
    pub fn get_string(&self, name: &str) -> (r: Option<String>)
        ensures
            match r {
                Some(s) => string_attr(self@, name@) == Some(s@),
                None => string_attr(self@, name@) is None,
            },
    {
        match self.get(name) {
            Some(Attr::S(s)) => Some(s.clone()),
            _ => None,
        }
    }

    /// An exact copy.
    pub fn duplicate(&self) -> (r: Item)
        ensures
            r.attrs@ == self.attrs@,
            r@ == self@,
    {
        let n = self.attrs.len();
        let mut attrs: Vec<(String, Attr)> = Vec::new();
        let mut i: usize = 0;
        while i < n
            invariant
                0 <= i <= n,
                n == self.attrs.len(),
                attrs@ =~= self.attrs@.take(i as int),
            decreases n - i,
        {
            let pair = &self.attrs[i];
            attrs.push((pair.0.clone(), pair.1.duplicate()));
            i += 1;
        }
        proof {
            assert(attrs@ =~= self.attrs@);
        }
        Item { attrs }
    }
}

/// The store's image of a license: the wire attributes of the fixed
/// contract, with the derived partition attribute first and the optional
/// attributes omitted entirely when absent.
pub open spec fn spec_item_of(l: LicenseView) -> Seq<(Seq<char>, AttrV)> {
    let m = Seq::<(Seq<char>, AttrV)>::empty().push(
        ("customerAndVesselId"@, AttrV::S(partition_of(l.customer_id, l.vessel_id))),
    ).push(("customerId"@, AttrV::S(l.customer_id))).push(
        ("vesselId"@, AttrV::S(l.vessel_id)),
    ).push(("licenseKey"@, AttrV::S(l.license_key)));
    let m = match l.count {
        Some(n) => m.push(("count"@, AttrV::N(dec_of(n as nat)))),
        None => m,
    };
    match l.expires_at {
        Some(t) => m.push(("expiresAt"@, AttrV::S(t))),
        None => m,
    }
}

/// Serializes a license into its store item, deriving the partition
/// attribute from the customer and vessel identifiers.
pub fn license_to_item(license: &License) -> (r: Item)
    ensures
        r@ == spec_item_of(license@),
{
    let mut item = Item::new();
    item.push_string(
        "customerAndVesselId",
        key_of(license.customer_id.as_str(), license.vessel_id.as_str()),
    );
    item.push_string("customerId", license.customer_id.clone());
    item.push_string("vesselId", license.vessel_id.clone());
    item.push_string("licenseKey", license.license_key.clone());
    match &license.count {
        Some(n) => item.push_number("count", u8_to_dec(*n)),
        None => {},
    }
    match &license.expires_at {
        Some(t) => item.push_string("expiresAt", t.clone()),
        None => {},
    }
    proof {
        assert(item@ =~= spec_item_of(license@));
    }
    item
}

/// The decoded activation count of an item: `None` for an undecodable
/// attribute, `Some(count)` otherwise, where an absent attribute decodes
/// to an absent count.
pub open spec fn spec_count_of(m: Seq<(Seq<char>, AttrV)>) -> Option<Option<u8>> {
    match attr_of(m, "count"@) {
        None => Some(None),
        Some(AttrV::N(d)) => if d.len() > 0 && all_digits(d) && dec_val(d) <= 255 {
            Some(Some(dec_val(d) as u8))
        } else {
            None
        },
        Some(AttrV::S(_)) => None,
    }
}

/// The decoded expiry of an item, carried verbatim; `None` for an
/// undecodable attribute.
pub open spec fn spec_expiry_of(m: Seq<(Seq<char>, AttrV)>) -> Option<Option<Seq<char>>> {
    match attr_of(m, "expiresAt"@) {
        None => Some(None),
        Some(AttrV::S(t)) => Some(Some(t)),
        Some(AttrV::N(_)) => None,
    }
}

/// The license an item decodes into, or `None` where a required attribute
/// is missing or any attribute has the wrong shape.
pub open spec fn spec_license_of(m: Seq<(Seq<char>, AttrV)>) -> Option<LicenseView> {
    match (string_attr(m, "customerId"@), string_attr(m, "vesselId"@), string_attr(
        m,
        "licenseKey"@,
    ), spec_count_of(m), spec_expiry_of(m)) {
        (Some(c), Some(v), Some(k), Some(n), Some(t)) => Some(
            LicenseView {
                customer_id: c,
                vessel_id: v,
                license_key: k,
                count: n,
                expires_at: t,
            },
        ),
        _ => None,
    }
}

/// Deserializes a store item back into a license.  Fails exactly where the
/// item does not decode, and such a failure is a serialization error.
pub fn item_to_license(item: &Item) -> (r: Result<License, RuntimeError>)
    ensures
        match r {
            Ok(l) => spec_license_of(item@) == Some(l@),
            Err(e) => {
                &&& spec_license_of(item@) is None
                &&& e matches RuntimeError::SerializationError(_)
            },
        },
{
    let customer_id = match item.get_string("customerId") {
        Some(s) => s,
        None => {
            return Err(decode_failure());
        },
    };
    let vessel_id = match item.get_string("vesselId") {
        Some(s) => s,
        None => {
            return Err(decode_failure());
        },
    };
    let license_key = match item.get_string("licenseKey") {
        Some(s) => s,
        None => {
            return Err(decode_failure());
        },
    };
    let count = match item.get("count") {
        None => None,
        Some(Attr::N(d)) => match dec_to_u8(d.as_str()) {
            Some(n) => Some(n),
            None => {
                return Err(decode_failure());
            },
        },
        Some(Attr::S(_)) => {
            return Err(decode_failure());
        },
    };
    let expires_at = match item.get("expiresAt") {
        None => None,
        Some(Attr::S(t)) => Some(t.clone()),
        Some(Attr::N(_)) => {
            return Err(decode_failure());
        },
    };
    let license = License { customer_id, vessel_id, license_key, count, expires_at };
    proof {
        assert(spec_license_of(item@) == Some(license@));
    }
    Ok(license)
}

/// What each wire attribute of an encoded license holds.
pub proof fn lemma_item_of_attrs(l: LicenseView)
    ensures
        attr_of(spec_item_of(l), "customerAndVesselId"@) == Some(
            AttrV::S(partition_of(l.customer_id, l.vessel_id)),
        ),
        attr_of(spec_item_of(l), "customerId"@) == Some(AttrV::S(l.customer_id)),
        attr_of(spec_item_of(l), "vesselId"@) == Some(AttrV::S(l.vessel_id)),
        attr_of(spec_item_of(l), "licenseKey"@) == Some(AttrV::S(l.license_key)),
        attr_of(spec_item_of(l), "count"@) == (match l.count {
            Some(n) => Some(AttrV::N(dec_of(n as nat))),
            None => None,
        }),
        attr_of(spec_item_of(l), "expiresAt"@) == (match l.expires_at {
            Some(t) => Some(AttrV::S(t)),
            None => None,
        }),
{
    reveal_strlit("customerAndVesselId");
    reveal_strlit("customerId");
    reveal_strlit("vesselId");
    reveal_strlit("licenseKey");
    reveal_strlit("count");
    reveal_strlit("expiresAt");
    // the six attribute names are pairwise distinct
    assert(("customerAndVesselId"@).len() == 19);
    assert(("customerId"@).len() == 10);
    assert(("vesselId"@).len() == 8);
    assert(("licenseKey"@).len() == 10);
    assert(("count"@).len() == 5);
    assert(("expiresAt"@).len() == 9);
    assert(("customerId"@)[0] == 'c');
    assert(("licenseKey"@)[0] == 'l');
    let e = Seq::<(Seq<char>, AttrV)>::empty();
    let p1 = ("customerAndVesselId"@, AttrV::S(partition_of(l.customer_id, l.vessel_id)));
    let p2 = ("customerId"@, AttrV::S(l.customer_id));
    let p3 = ("vesselId"@, AttrV::S(l.vessel_id));
    let p4 = ("licenseKey"@, AttrV::S(l.license_key));
    let m1 = e.push(p1);
    let m2 = m1.push(p2);
    let m3 = m2.push(p3);
    let m4 = m3.push(p4);
    let m5 = match l.count {
        Some(n) => m4.push(("count"@, AttrV::N(dec_of(n as nat)))),
        None => m4,
    };
    let m6 = match l.expires_at {
        Some(t) => m5.push(("expiresAt"@, AttrV::S(t))),
        None => m5,
    };
    assert(spec_item_of(l) == m6);
    assert forall|name: Seq<char>| true implies #[trigger] attr_of(m6, name) == (
    if name == "customerAndVesselId"@ {
        Some(p1.1)
    } else if name == "customerId"@ {
        Some(p2.1)
    } else if name == "vesselId"@ {
        Some(p3.1)
    } else if name == "licenseKey"@ {
        Some(p4.1)
    } else if name == "count"@ && l.count is Some {
        Some(AttrV::N(dec_of(l.count.unwrap() as nat)))
    } else if name == "expiresAt"@ && l.expires_at is Some {
        Some(AttrV::S(l.expires_at.unwrap()))
    } else {
        None
    }) by {
        lemma_attr_of_push(e, p1, name);
        lemma_attr_of_push(m1, p2, name);
        lemma_attr_of_push(m2, p3, name);
        lemma_attr_of_push(m3, p4, name);
        match l.count {
            Some(n) => {
                lemma_attr_of_push(m4, ("count"@, AttrV::N(dec_of(n as nat))), name);
            },
            None => {},
        }
        match l.expires_at {
            Some(t) => {
                lemma_attr_of_push(m5, ("expiresAt"@, AttrV::S(t)), name);
            },
            None => {},
        }
    }
}

/// Round trip through the wire representation: every license decodes back
/// from its own encoding, count and expiry text (offset included) exact.
pub proof fn lemma_item_roundtrip(l: LicenseView)
    ensures
        spec_license_of(spec_item_of(l)) == Some(l),
{
    lemma_item_of_attrs(l);
    let m = spec_item_of(l);
    match l.count {
        Some(n) => {
            lemma_dec_of_val(n as nat);
            assert(spec_count_of(m) == Some(l.count));
        },
        None => {
            assert(spec_count_of(m) == Some(l.count));
        },
    }
    assert(spec_expiry_of(m) == Some(l.expires_at));
    assert(spec_license_of(m) == Some(l));
}

/// The uniform cause carried by a failed deserialization.
fn decode_failure() -> (r: RuntimeError)
    ensures
        r matches RuntimeError::SerializationError(_),
{
    RuntimeError::SerializationError(String::from_str("cannot decode item into a license"))
}

} // verus!
