use vstd::prelude::*;

use crate::model::id_chars_ok;

verus! {

/// The partition component of the composite key: customer and vessel
/// identifiers joined with a fixed separator.  It is always derived, never
/// accepted from a caller, so two calls with the same pair of identifiers
/// address the same partition.
pub open spec fn partition_of(customer_id: Seq<char>, vessel_id: Seq<char>) -> Seq<char> {
    customer_id + seq![':'] + vessel_id
}

/// Derives the partition component for a customer and vessel pair.
pub fn key_of(customer_id: &str, vessel_id: &str) -> (r: String)
    ensures
        r@ == partition_of(customer_id@, vessel_id@),
{
    let mut r = String::from_str(customer_id);
    r.append(":");
    r.append(vessel_id);
    proof {
        reveal_strlit(":");
        assert(r@ =~= partition_of(customer_id@, vessel_id@));
    }
    r
}

/// On separator-free identifiers the key derivation is injective: equal
/// partition components can only come from equal customer and vessel pairs.
pub proof fn lemma_partition_of_injective(
    c1: Seq<char>,
    v1: Seq<char>,
    c2: Seq<char>,
    v2: Seq<char>,
)
    requires
        id_chars_ok(c1),
        id_chars_ok(v1),
        id_chars_ok(c2),
        id_chars_ok(v2),
        partition_of(c1, v1) == partition_of(c2, v2),
    ensures
        c1 == c2,
        v1 == v2,
{
    let k1 = partition_of(c1, v1);
    let k2 = partition_of(c2, v2);
    let n1 = c1.len() as int;
    let n2 = c2.len() as int;
    // The separator stands at the end of each customer component ...
    assert(k1[n1] == ':');
    assert(k2[n2] == ':');
    // ... and nowhere inside either one, so both components end at the
    // same place.
    if n1 < n2 {
        assert(k2[n1] == c2[n1]);
        assert(false);
    }
    if n2 < n1 {
        assert(k1[n2] == c1[n2]);
        assert(false);
    }
    assert forall|i: int| 0 <= i < n1 implies c1[i] == c2[i] by {
        assert(k1[i] == c1[i]);
        assert(k2[i] == c2[i]);
    }
    assert(c1 =~= c2);
    assert(k1.len() == n1 + 1 + v1.len());
    assert(k2.len() == n2 + 1 + v2.len());
    assert(v1.len() == v2.len());
    assert forall|i: int| 0 <= i < v1.len() implies v1[i] == v2[i] by {
        assert(k1[n1 + 1 + i] == v1[i]);
        assert(k2[n2 + 1 + i] == v2[i]);
    }
    assert(v1 =~= v2);
}

} // verus!
