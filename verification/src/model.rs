use vstd::prelude::*;

verus! {

/// A license entitlement: one entry per (customer, vessel, license key).
///
/// Customer and vessel identifiers are carried in their canonical text form
/// (the hyphenated form of a UUID); such text never contains the `':'` that
/// the composite key scheme uses as separator.  The expiry timestamp is
/// carried verbatim as ISO-8601 text with an explicit offset, so the offset
/// survives a round trip through the store exactly.
#[derive(Debug)]
pub struct License {
    /// Owner ID, canonical text form.
    pub customer_id: String,
    /// Vessel ID, canonical text form.
    pub vessel_id: String,
    /// License entry key; non-empty, unique within a customer and vessel pair.
    pub license_key: String,
    /// Number of license activations.
    pub count: Option<u8>,
    /// Date when the license ends, ISO-8601 text with an explicit offset.
    pub expires_at: Option<String>,
}

/// Mathematical image of a [`License`]: every text field as a sequence of
/// characters.
pub struct LicenseView {
    pub customer_id: Seq<char>,
    pub vessel_id: Seq<char>,
    pub license_key: Seq<char>,
    pub count: Option<u8>,
    pub expires_at: Option<Seq<char>>,
}

impl View for License {
    type V = LicenseView;

    open spec fn view(&self) -> LicenseView {
        LicenseView {
            customer_id: self.customer_id@,
            vessel_id: self.vessel_id@,
            license_key: self.license_key@,
            count: self.count,
            expires_at: match self.expires_at {
                Some(ref s) => Some(s@),
                None => None,
            },
        }
    }
}

/// An identifier is usable in a composite key when it is non-empty and free
/// of the separator character.
pub open spec fn id_chars_ok(s: Seq<char>) -> bool {
    &&& s.len() > 0
    &&& forall|i: int| 0 <= i < s.len() ==> s[i] != ':'
}

impl LicenseView {
    /// Well-formedness of a license: identifiers fit the composite key
    /// scheme and the license key is non-empty.
    pub open spec fn wf(self) -> bool {
        &&& id_chars_ok(self.customer_id)
        &&& id_chars_ok(self.vessel_id)
        &&& self.license_key.len() > 0
    }
}

/// One page of a range query: the returned items in ascending sort-key
/// order, and the key to resume from, if the store reported that more
/// results remain.
pub struct DynamoResultsPage<T, K> {
    pub items: Vec<T>,
    pub last_evaluated_key: Option<K>,
}

} // verus!
