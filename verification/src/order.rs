//! The canonical total order on properties, used to sort a normalized
//! property list into a deterministic form.

use vstd::prelude::*;
use vstd::relations::total_ordering;

use crate::property::Property;
use crate::property::PropertyModel;

verus! {

broadcast use {
    vstd::seq_lib::group_seq_properties,
    vstd::seq_lib::group_to_multiset_ensures,
    vstd::multiset::group_multiset_axioms,
};

/// Lexicographic order on character sequences, by code point.
pub open spec fn chars_le(a: Seq<char>, b: Seq<char>) -> bool
    decreases a.len(),
{
    if a.len() == 0 {
        true
    } else if b.len() == 0 {
        false
    } else if a[0] != b[0] {
        a[0] < b[0]
    } else {
        chars_le(a.skip(1), b.skip(1))
    }
}

proof fn lemma_chars_le_refl(a: Seq<char>)
    ensures
        chars_le(a, a),
    decreases a.len(),
{
    if a.len() > 0 {
        lemma_chars_le_refl(a.skip(1));
    }
}

proof fn lemma_chars_le_antisymmetric(a: Seq<char>, b: Seq<char>)
    requires
        chars_le(a, b),
        chars_le(b, a),
    ensures
        a == b,
    decreases a.len(),
{
    if a.len() == 0 {
        assert(b.len() == 0);
        assert(a =~= b);
    } else {
        assert(a[0] == b[0]);
        lemma_chars_le_antisymmetric(a.skip(1), b.skip(1));
        assert(a =~= b) by {
            assert forall|i: int| 0 <= i < a.len() implies a[i] == b[i] by {
                if i > 0 {
                    assert(a[i] == a.skip(1)[i - 1]);
                    assert(b[i] == b.skip(1)[i - 1]);
                }
            }
        }
    }
}

proof fn lemma_chars_le_transitive(a: Seq<char>, b: Seq<char>, c: Seq<char>)
    requires
        chars_le(a, b),
        chars_le(b, c),
    ensures
        chars_le(a, c),
    decreases a.len(),
{
    if a.len() == 0 {
    } else {
        if a[0] == b[0] && b[0] == c[0] {
            lemma_chars_le_transitive(a.skip(1), b.skip(1), c.skip(1));
        }
    }
}

proof fn lemma_chars_le_connected(a: Seq<char>, b: Seq<char>)
    ensures
        chars_le(a, b) || chars_le(b, a),
    decreases a.len(),
{
    if a.len() > 0 && b.len() > 0 && a[0] == b[0] {
        lemma_chars_le_connected(a.skip(1), b.skip(1));
    }
}

/// The rank of a property's variant in the canonical order.
pub open spec fn rank(p: PropertyModel) -> int {
    match p {
        PropertyModel::File(_) => 0,
        PropertyModel::N(_, _) => 1,
        PropertyModel::Heap => 2,
        PropertyModel::Stack => 3,
        PropertyModel::Huge => 4,
        PropertyModel::Anon(_) => 5,
        PropertyModel::Dirty(_) => 6,
        PropertyModel::Mapped(_) => 7,
        PropertyModel::MapMax(_) => 8,
        PropertyModel::SwapCache(_) => 9,
        PropertyModel::Active(_) => 10,
        PropertyModel::Writeback(_) => 11,
        PropertyModel::Kernelpagesize(_) => 12,
    }
}

/// The canonical total order on properties: by variant first, then by
/// payload — paths lexicographically, numeric payloads by value.
pub open spec fn prop_le(a: PropertyModel, b: PropertyModel) -> bool {
    if rank(a) != rank(b) {
        rank(a) < rank(b)
    } else {
        match (a, b) {
            (PropertyModel::File(x), PropertyModel::File(y)) => chars_le(x, y),
            (PropertyModel::N(n1, c1), PropertyModel::N(n2, c2)) => n1 < n2 || (n1 == n2 && c1
                <= c2),
            (PropertyModel::Anon(x), PropertyModel::Anon(y)) => x <= y,
            (PropertyModel::Dirty(x), PropertyModel::Dirty(y)) => x <= y,
            (PropertyModel::Mapped(x), PropertyModel::Mapped(y)) => x <= y,
            (PropertyModel::MapMax(x), PropertyModel::MapMax(y)) => x <= y,
            (PropertyModel::SwapCache(x), PropertyModel::SwapCache(y)) => x <= y,
            (PropertyModel::Active(x), PropertyModel::Active(y)) => x <= y,
            (PropertyModel::Writeback(x), PropertyModel::Writeback(y)) => x <= y,
            (PropertyModel::Kernelpagesize(x), PropertyModel::Kernelpagesize(y)) => x <= y,
            _ => true,
        }
    }
}

/// The canonical order as a relation value, for use with vstd's ordering
/// and sorting vocabulary.
pub open spec fn prop_leq() -> spec_fn(PropertyModel, PropertyModel) -> bool {
    |a: PropertyModel, b: PropertyModel| prop_le(a, b)
}

/// The canonical order relates every property to itself.
pub proof fn lemma_prop_le_refl(a: PropertyModel)
    ensures
        prop_le(a, a),
{
    if let PropertyModel::File(x) = a {
        lemma_chars_le_refl(x);
    }
}

/// Two properties each no later than the other are the same property.
pub proof fn lemma_prop_le_antisymmetric(a: PropertyModel, b: PropertyModel)
    requires
        prop_le(a, b),
        prop_le(b, a),
    ensures
        a == b,
{
    if let (PropertyModel::File(x), PropertyModel::File(y)) = (a, b) {
        lemma_chars_le_antisymmetric(x, y);
    }
}

/// The canonical order is transitive.
pub proof fn lemma_prop_le_transitive(a: PropertyModel, b: PropertyModel, c: PropertyModel)
    requires
        prop_le(a, b),
        prop_le(b, c),
    ensures
        prop_le(a, c),
{
    if let (PropertyModel::File(x), PropertyModel::File(y), PropertyModel::File(z)) = (a, b, c) {
        lemma_chars_le_transitive(x, y, z);
    }
}

/// Any two properties are comparable in the canonical order.
pub proof fn lemma_prop_le_connected(a: PropertyModel, b: PropertyModel)
    ensures
        prop_le(a, b) || prop_le(b, a),
{
    if let (PropertyModel::File(x), PropertyModel::File(y)) = (a, b) {
        lemma_chars_le_connected(x, y);
    }
}

/// The canonical order is a total order: reflexive, antisymmetric,
/// transitive, and any two properties are comparable.
pub proof fn lemma_prop_le_total_ordering()
    ensures
        total_ordering(prop_leq()),
{
    let leq = prop_leq();
    assert forall|a: PropertyModel| #[trigger] leq(a, a) by {
        lemma_prop_le_refl(a);
    }
    assert forall|a: PropertyModel, b: PropertyModel| #[trigger] leq(a, b) && #[trigger] leq(
        b,
        a,
    ) implies a == b by {
        lemma_prop_le_antisymmetric(a, b);
    }
    assert forall|a: PropertyModel, b: PropertyModel, c: PropertyModel|
        #[trigger] leq(a, b) && #[trigger] leq(b, c) implies leq(a, c) by {
        lemma_prop_le_transitive(a, b, c);
    }
    assert forall|a: PropertyModel, b: PropertyModel| #[trigger] leq(a, b) || #[trigger] leq(
        b,
        a,
    ) by {
        lemma_prop_le_connected(a, b);
    }
}

/// The canonical order is canonical: two property lists that hold the same
/// properties, as a multiset, are identical once both are sorted by it. So
/// two ranges with one property set in different insertion orders agree
/// after normalization.
pub proof fn lemma_canonical_order_deterministic(a: Seq<PropertyModel>, b: Seq<PropertyModel>)
    requires
        vstd::relations::sorted_by(a, prop_leq()),
        vstd::relations::sorted_by(b, prop_leq()),
        a.to_multiset() == b.to_multiset(),
    ensures
        a == b,
{
    lemma_prop_le_total_ordering();
    vstd::seq_lib::lemma_sorted_unique(a, b, prop_leq());
}

/// Lexicographic comparison of two strings, by code point.
fn str_le(a: &str, b: &str) -> (r: bool)
    ensures
        r == chars_le(a@, b@),
{
    let na = a.unicode_len();
    let nb = b.unicode_len();
    let mut i: usize = 0;
    proof {
        assert(a@.skip(0) =~= a@);
        assert(b@.skip(0) =~= b@);
    }
    while i < na && i < nb
        invariant
            i <= na == a@.len(),
            i <= nb == b@.len(),
            chars_le(a@, b@) == chars_le(a@.skip(i as int), b@.skip(i as int)),
            chars_le(b@, a@) == chars_le(b@.skip(i as int), a@.skip(i as int)),
        decreases na - i,
    {
        let ca = a.get_char(i);
        let cb = b.get_char(i);
        if ca != cb {
            return ca < cb;
        }
        proof {
            assert(a@.skip(i as int).skip(1) =~= a@.skip(i + 1));
            assert(b@.skip(i as int).skip(1) =~= b@.skip(i + 1));
        }
        i += 1;
    }
    na <= nb
}

/// The rank of a property's variant, executable side.
fn rank_of(p: &Property) -> (r: u32)
    ensures
        r as int == rank(p@),
{
    match p {
        Property::File(_) => 0,
        Property::N(_, _) => 1,
        Property::Heap => 2,
        Property::Stack => 3,
        Property::Huge => 4,
        Property::Anon(_) => 5,
        Property::Dirty(_) => 6,
        Property::Mapped(_) => 7,
        Property::MapMax(_) => 8,
        Property::SwapCache(_) => 9,
        Property::Active(_) => 10,
        Property::Writeback(_) => 11,
        Property::Kernelpagesize(_) => 12,
    }
}

/// Whether `a` comes no later than `b` in the canonical order.
pub fn property_le(a: &Property, b: &Property) -> (r: bool)
    ensures
        r == prop_le(a@, b@),
{
    let ra = rank_of(a);
    let rb = rank_of(b);
    if ra != rb {
        ra < rb
    } else {
        match (a, b) {
            (Property::File(x), Property::File(y)) => str_le(x.as_str(), y.as_str()),
            (Property::N(n1, c1), Property::N(n2, c2)) => *n1 < *n2 || (*n1 == *n2 && *c1 <= *c2),
            (Property::Anon(x), Property::Anon(y)) => *x <= *y,
            (Property::Dirty(x), Property::Dirty(y)) => *x <= *y,
            (Property::Mapped(x), Property::Mapped(y)) => *x <= *y,
            (Property::MapMax(x), Property::MapMax(y)) => *x <= *y,
            (Property::SwapCache(x), Property::SwapCache(y)) => *x <= *y,
            (Property::Active(x), Property::Active(y)) => *x <= *y,
            (Property::Writeback(x), Property::Writeback(y)) => *x <= *y,
            (Property::Kernelpagesize(x), Property::Kernelpagesize(y)) => *x <= *y,
            _ => true,
        }
    }
}

/// The views of the properties in a sequence.
pub open spec fn props_view(s: Seq<Property>) -> Seq<PropertyModel> {
    s.map_values(|p: Property| p@)
}

/// Sorts a property list into the canonical order. The result holds
/// exactly the properties of the input, as a multiset.
pub fn sort_properties(input: Vec<Property>) -> (r: Vec<Property>)
    ensures
        props_view(r@).to_multiset() == props_view(input@).to_multiset(),
        vstd::relations::sorted_by(props_view(r@), prop_leq()),
{
    let mut rest = input;
    let mut out: Vec<Property> = Vec::new();
    let ghost all = props_view(rest@).to_multiset();
    proof {
        assert(props_view(out@) =~= Seq::<PropertyModel>::empty());
        assert(props_view(out@).to_multiset().add(props_view(rest@).to_multiset()) =~= all);
    }
    while rest.len() > 0
        invariant
            props_view(out@).to_multiset().add(props_view(rest@).to_multiset()) == all,
            vstd::relations::sorted_by(props_view(out@), prop_leq()),
            forall|i: int, j: int|
                0 <= i < out@.len() && 0 <= j < rest@.len() ==> prop_le(
                    #[trigger] out@[i]@,
                    #[trigger] rest@[j]@,
                ),
        decreases rest.len(),
    {
        let mut m: usize = 0;
        let mut k: usize = 1;
        proof {
            lemma_prop_le_refl(rest@[0]@);
        }
        while k < rest.len()
            invariant
                m < k <= rest@.len(),
                forall|j: int| 0 <= j < k ==> prop_le(rest@[m as int]@, #[trigger] rest@[j]@),
            decreases rest.len() - k,
        {
            if property_le(&rest[k], &rest[m]) {
                proof {
                    assert forall|j: int| 0 <= j < k + 1 implies prop_le(
                        rest@[k as int]@,
                        #[trigger] rest@[j]@,
                    ) by {
                        if j < k {
                            lemma_prop_le_transitive(rest@[k as int]@, rest@[m as int]@, rest@[j]@);
                        } else {
                            lemma_prop_le_refl(rest@[k as int]@);
                        }
                    }
                }
                m = k;
            } else {
                proof {
                    lemma_prop_le_connected(rest@[m as int]@, rest@[k as int]@);
                }
            }
            k += 1;
        }
        let ghost rest_before = rest@;
        let picked = rest.remove(m);
        proof {
            assert(props_view(rest_before)[m as int] == picked@);
            assert(props_view(rest_before).contains(picked@));
            assert(props_view(rest_before).to_multiset().count(picked@) > 0);
            assert(props_view(rest_before.remove(m as int)) =~= props_view(rest_before).remove(
                m as int,
            ));
            assert(props_view(rest_before).remove(m as int).to_multiset() =~= props_view(
                rest_before,
            ).to_multiset().remove(picked@));
            assert(props_view(out@.push(picked)) =~= props_view(out@).push(picked@));
            assert(props_view(out@.push(picked)).to_multiset().add(
                props_view(rest@).to_multiset(),
            ) =~= all);
            assert forall|i: int, j: int|
                0 <= i < out@.len() + 1 && 0 <= j < rest@.len() implies prop_le(
                #[trigger] (out@.push(picked))[i]@,
                #[trigger] rest@[j]@,
            ) by {
                assert(rest@[j] == if j < m { rest_before[j] } else { rest_before[j + 1] });
                if i == out@.len() {
                    assert((out@.push(picked))[i] == picked);
                }
            }
            assert(vstd::relations::sorted_by(props_view(out@.push(picked)), prop_leq())) by {
                let s = props_view(out@.push(picked));
                let leq = prop_leq();
                assert forall|i: int, j: int| 0 <= i < j < s.len() implies #[trigger] leq(
                    s[i],
                    s[j],
                ) by {
                    if j < out@.len() {
                        assert(leq(props_view(out@)[i], props_view(out@)[j]));
                    } else {
                        assert(s[j] == picked@);
                        assert(prop_le(out@[i]@, rest_before[m as int]@));
                        assert(s[i] == out@[i]@);
                    }
                }
            }
        }
        out.push(picked);
    }
    proof {
        assert(props_view(rest@) =~= Seq::<PropertyModel>::empty());
        assert(props_view(out@).to_multiset().add(props_view(rest@).to_multiset()) =~= props_view(
            out@,
        ).to_multiset());
    }
    out
}

} // verus!
