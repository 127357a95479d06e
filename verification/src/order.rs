//! What the order of `i32` keys gives to a walk through a `BTreeMap`.
use vstd::prelude::*;
use vstd::std_specs::btree::{increasing_seq, key_obeys_cmp_spec};
use vstd::std_specs::cmp::OrdSpec;

verus! {

/// The keys of a map of field numbers are ordered as the integers are, which
/// is what the specifications of `BTreeMap` ask of a key type.
pub proof fn lemma_int_keys()
    ensures
        key_obeys_cmp_spec::<i32>(),
        vstd::laws_cmp::obeys_cmp::<i32>(),
{
    broadcast use vstd::laws_cmp::group_laws_cmp;

}

/// A sequence of `i32` that a `BTreeMap` calls increasing is strictly
/// ascending.
pub proof fn lemma_increasing(s: Seq<i32>)
    requires
        increasing_seq(s),
    ensures
        forall|i: int, j: int| 0 <= i < j < s.len() ==> s[i] < s[j],
{
    broadcast use vstd::laws_cmp::group_laws_cmp;

    vstd::std_specs::btree::axiom_increasing_seq_meaning(s);
    assert forall|i: int, j: int| 0 <= i < j < s.len() implies s[i] < s[j] by {
        assert(s[i].cmp_spec(&s[j]) is Less);
    }
}

} // verus!
