//! One memory range of a `numa_maps` file: parsing a line and normalizing
//! a parsed range.

use vstd::prelude::*;
use vstd::relations::sorted_by;

use crate::order::prop_leq;
use crate::order::props_view;
use crate::order::sort_properties;
use crate::property::can_scale;
use crate::property::parse_property_spec;
use crate::property::spec_normalize;
use crate::property::spec_page_size;
use crate::property::ParseError;
use crate::property::ParseErrorModel;
use crate::property::Property;
use crate::property::PropertyModel;
use crate::text::all_hex_digits;
use crate::text::hex_value;
use crate::text::parse_hex_usize;
use crate::text::tokenize;
use crate::text::tokens_of;
use crate::text::views_of;

verus! {

broadcast use vstd::seq_lib::group_seq_properties;

/// One memory range: its base address, its memory policy, and the
/// properties found on its line, in encounter order.
#[derive(Debug, PartialEq, Eq)]
pub struct Range {
    /// The base address of the memory range.
    pub address: usize,
    /// The range's memory policy label.
    pub policy: String,
    /// Properties associated with the memory range.
    pub properties: Vec<Property>,
}

/// The mathematical value of a [`Range`].
pub struct RangeModel {
    /// The base address.
    pub address: nat,
    /// The policy label.
    pub policy: Seq<char>,
    /// The properties, in order.
    pub properties: Seq<PropertyModel>,
}

impl View for Range {
    type V = RangeModel;

    open spec fn view(&self) -> RangeModel {
        RangeModel {
            address: self.address as nat,
            policy: self.policy@,
            properties: props_view(self.properties@),
        }
    }
}

/// An address token read as a base-16 number that fits in `usize`, when it
/// is one.
pub open spec fn hex_usize(s: Seq<char>) -> Option<nat> {
    if s.len() > 0 && all_hex_digits(s) && hex_value(s) <= usize::MAX as nat {
        Some(hex_value(s))
    } else {
        None
    }
}

/// The property a token denotes, or nothing for a token that is no
/// property.
pub open spec fn prop_of_token(t: Seq<char>) -> Option<PropertyModel> {
    match parse_property_spec(t) {
        Ok(p) => Some(p),
        Err(_) => None,
    }
}

/// `prop_of_token` as a relation value.
pub open spec fn prop_token_fn() -> spec_fn(Seq<char>) -> Option<PropertyModel> {
    |t: Seq<char>| prop_of_token(t)
}

/// The diagnostic a token draws, or nothing for a token that parses.
pub open spec fn err_of_token(t: Seq<char>) -> Option<ParseErrorModel> {
    match parse_property_spec(t) {
        Ok(_) => None,
        Err(e) => Some(e),
    }
}

/// `err_of_token` as a relation value.
pub open spec fn err_token_fn() -> spec_fn(Seq<char>) -> Option<ParseErrorModel> {
    |t: Seq<char>| err_of_token(t)
}

/// The range a line denotes: the first token is the base-16 address, the
/// second the policy label, and each later token that parses contributes
/// one property, in order. A line without both an address and a policy
/// denotes no range.
pub open spec fn parse_line_spec(l: Seq<char>) -> Option<RangeModel> {
    let ts = tokens_of(l);
    if ts.len() == 0 {
        None
    } else {
        match hex_usize(ts[0]) {
            None => None,
            Some(address) => if ts.len() < 2 {
                None
            } else {
                Some(
                    RangeModel {
                        address,
                        policy: ts[1],
                        properties: ts.skip(2).filter_map(prop_token_fn()),
                    },
                )
            },
        }
    }
}

/// The diagnostics a line draws: one per property token that parses as no
/// property, in order. A line that denotes no range draws none, because
/// its property tokens are never examined.
pub open spec fn line_errors_spec(l: Seq<char>) -> Seq<ParseErrorModel> {
    if parse_line_spec(l) is Some {
        tokens_of(l).skip(2).filter_map(err_token_fn())
    } else {
        Seq::empty()
    }
}

/// An optional range, as a mathematical value.
pub open spec fn opt_range_view(o: Option<Range>) -> Option<RangeModel> {
    match o {
        Some(r) => Some(r@),
        None => None,
    }
}

/// The views of the diagnostics in a sequence.
pub open spec fn errors_view(s: Seq<ParseError>) -> Seq<ParseErrorModel> {
    s.map_values(|e: ParseError| e@)
}

/// The page size recorded by the first page-size property of the list,
/// when the list has one.
pub open spec fn first_page_size(props: Seq<PropertyModel>) -> Option<nat>
    decreases props.len(),
{
    if props.len() == 0 {
        None
    } else {
        match spec_page_size(props[0]) {
            Some(bytes) => Some(bytes),
            None => first_page_size(props.skip(1)),
        }
    }
}

/// `spec_normalize` at a fixed page size, as a relation value.
pub open spec fn norm_fn(page_size: nat) -> spec_fn(PropertyModel) -> Option<PropertyModel> {
    |p: PropertyModel| spec_normalize(p, page_size)
}

/// A property list rewritten for a page size of `page_size` bytes: page
/// counters scaled to byte counts, page-size properties dropped, the rest
/// unchanged, in order.
pub open spec fn scaled_props(props: Seq<PropertyModel>, page_size: nat) -> Seq<PropertyModel> {
    props.filter_map(norm_fn(page_size))
}

/// Whether every counter of the list can be scaled by `page_size` without
/// exceeding `usize`.
pub open spec fn can_scale_all(props: Seq<PropertyModel>, page_size: nat) -> bool {
    forall|i: int| 0 <= i < props.len() ==> can_scale(#[trigger] props[i], page_size)
}

/// A property list has no first page size exactly when it holds no
/// page-size property at all. So normalizing a range without a page-size
/// property is a no-op: property list unchanged, order and values.
pub proof fn lemma_no_page_size_no_change(props: Seq<PropertyModel>)
    ensures
        first_page_size(props) is None <==> (forall|i: int|
            0 <= i < props.len() ==> !(#[trigger] props[i] is Kernelpagesize)),
    decreases props.len(),
{
    if props.len() > 0 {
        lemma_no_page_size_no_change(props.skip(1));
        if first_page_size(props) is None {
            assert forall|i: int| 0 <= i < props.len() implies !(
            #[trigger] props[i] is Kernelpagesize) by {
                if i > 0 {
                    assert(props[i] == props.skip(1)[i - 1]);
                }
            }
        } else {
            if !(props[0] is Kernelpagesize) {
                let i = choose|i: int|
                    0 <= i < props.skip(1).len() && (#[trigger] props.skip(1)[i]
                        is Kernelpagesize);
                assert(props[i + 1] == props.skip(1)[i]);
            }
        }
    }
}

/// A line with an unparseable address token — empty, with a non-hex
/// character, or too large for `usize` — or without a policy token yields
/// no range.
pub proof fn lemma_bad_line_no_range(l: Seq<char>)
    requires
        tokens_of(l).len() == 0 || hex_usize(tokens_of(l)[0]) is None || tokens_of(l).len() < 2,
    ensures
        parse_line_spec(l) is None,
{
}

/// Whether a property is a `MapMax` entry, as a relation value.
pub open spec fn mapmax_fn() -> spec_fn(PropertyModel) -> bool {
    |p: PropertyModel| p is MapMax
}

/// `MapMax` entries are never scaled: rewriting a property list for any
/// page size keeps exactly the `MapMax` entries it had, values untouched,
/// in their original order.
pub proof fn lemma_mapmax_never_scaled(props: Seq<PropertyModel>, page_size: nat)
    ensures
        scaled_props(props, page_size).filter(mapmax_fn()) == props.filter(mapmax_fn()),
    decreases props.len(),
{
    reveal(Seq::filter);
    let f = norm_fn(page_size);
    let pred = mapmax_fn();
    if props.len() == 0 {
        assert(scaled_props(props, page_size) =~= Seq::<PropertyModel>::empty());
        assert(scaled_props(props, page_size).filter(pred) =~= props.filter(pred));
    } else {
        let rest = props.drop_last();
        let last = props.last();
        lemma_mapmax_never_scaled(rest, page_size);
        match f(last) {
            Some(rewritten) => {
                assert(scaled_props(props, page_size) == scaled_props(rest, page_size)
                    + seq![rewritten]);
                let s = scaled_props(rest, page_size) + seq![rewritten];
                assert(s.drop_last() =~= scaled_props(rest, page_size));
                assert(s.last() == rewritten);
                if pred(last) {
                    assert(rewritten == last);
                    assert(s.filter(pred) =~= rest.filter(pred).push(last));
                    assert(props.filter(pred) == rest.filter(pred).push(last));
                } else {
                    assert(!pred(rewritten));
                    assert(s.filter(pred) =~= rest.filter(pred));
                    assert(props.filter(pred) == rest.filter(pred));
                }
            },
            None => {
                assert(scaled_props(props, page_size) == scaled_props(rest, page_size));
                assert(!pred(last));
                assert(props.filter(pred) == rest.filter(pred));
            },
        }
    }
}

impl Range {
    /// Parses a `numa_maps` line into a range together with the
    /// diagnostics for its malformed property tokens. Yields no range when
    /// the line lacks a parseable address or a policy token; a malformed
    /// property token only draws a diagnostic and is skipped.
    pub fn parse_with_errors(line: &str) -> (r: (Option<Range>, Vec<ParseError>))
        ensures
            opt_range_view(r.0) == parse_line_spec(line@),
            errors_view(r.1@) == line_errors_spec(line@),
    {
        let tokens = tokenize(line);
        let ghost ts = tokens_of(line@);
        if tokens.len() == 0 {
            return (None, Vec::new());
        }
        let address = match parse_hex_usize(tokens[0].as_str()) {
            Some(address) => address,
            None => {
                return (None, Vec::new());
            },
        };
        if tokens.len() < 2 {
            return (None, Vec::new());
        }
        let policy = tokens[1].clone();
        let mut properties: Vec<Property> = Vec::new();
        let mut errors: Vec<ParseError> = Vec::new();
        let mut i: usize = 2;
        proof {
            assert(ts.skip(2).take(0) =~= Seq::<Seq<char>>::empty());
            assert(props_view(properties@) =~= ts.skip(2).take(0).filter_map(prop_token_fn()));
            assert(errors_view(errors@) =~= ts.skip(2).take(0).filter_map(err_token_fn()));
        }
        while i < tokens.len()
            invariant
                2 <= i <= tokens@.len(),
                views_of(tokens@) == ts,
                props_view(properties@) == ts.skip(2).take(i - 2).filter_map(prop_token_fn()),
                errors_view(errors@) == ts.skip(2).take(i - 2).filter_map(err_token_fn()),
            decreases tokens@.len() - i,
        {
            proof {
                assert(ts.skip(2)[i - 2] == ts[i as int]);
                ts.skip(2).lemma_filter_map_take_succ(prop_token_fn(), i - 2);
                ts.skip(2).lemma_filter_map_take_succ(err_token_fn(), i - 2);
            }
            match Property::parse(tokens[i].as_str()) {
                Ok(property) => {
                    proof {
                        assert(props_view(properties@.push(property)) =~= props_view(
                            properties@,
                        ).push(property@));
                        assert(props_view(properties@).push(property@) =~= ts.skip(2).take(
                            i - 1,
                        ).filter_map(prop_token_fn()));
                        assert(errors_view(errors@) =~= ts.skip(2).take(i - 1).filter_map(
                            err_token_fn(),
                        ));
                    }
                    properties.push(property);
                },
                Err(error) => {
                    proof {
                        assert(errors_view(errors@.push(error)) =~= errors_view(errors@).push(
                            error@,
                        ));
                        assert(errors_view(errors@).push(error@) =~= ts.skip(2).take(
                            i - 1,
                        ).filter_map(err_token_fn()));
                        assert(props_view(properties@) =~= ts.skip(2).take(i - 1).filter_map(
                            prop_token_fn(),
                        ));
                    }
                    errors.push(error);
                },
            }
            i += 1;
        }
        proof {
            assert(ts.skip(2).take(tokens@.len() - 2) =~= ts.skip(2));
        }
        let range = Range { address, policy, properties };
        (Some(range), errors)
    }

    /// Parses a `numa_maps` line, discarding the diagnostics for malformed
    /// property tokens.
    ///
    /// Yields no value when the line has no parseable address or no policy
    /// token.
    pub fn parse(line: &str) -> (r: Option<Range>)
        ensures
            opt_range_view(r) == parse_line_spec(line@),
    {
        let (range, _errors) = Self::parse_with_errors(line);
        range
    }

    /// Normalizes the range using its page-size property, when it has one:
    /// page counters become byte counts, every page-size property is
    /// dropped, and the resulting list is sorted into the canonical order.
    /// A range with no page-size property is left unchanged.
    pub fn normalize(&mut self)
        requires
            match first_page_size(old(self)@.properties) {
                Some(page_size) => can_scale_all(old(self)@.properties, page_size),
                None => true,
            },
        ensures
            final(self)@.address == old(self)@.address,
            final(self)@.policy == old(self)@.policy,
            match first_page_size(old(self)@.properties) {
                None => final(self)@.properties == old(self)@.properties,
                Some(page_size) => {
                    &&& final(self)@.properties == scaled_props(
                        old(self)@.properties,
                        page_size,
                    ).sort_by(prop_leq())
                    &&& final(self)@.properties.to_multiset() == scaled_props(
                        old(self)@.properties,
                        page_size,
                    ).to_multiset()
                    &&& sorted_by(final(self)@.properties, prop_leq())
                },
            },
    {
        let ghost pv = props_view(old(self).properties@);
        let n = self.properties.len();
        let mut i: usize = 0;
        let mut found: Option<usize> = None;
        proof {
            assert(pv.skip(0) =~= pv);
        }
        while i < n && found.is_none()
            invariant
                *self == *old(self),
                i <= n == self.properties@.len(),
                pv == props_view(self.properties@),
                found is None ==> first_page_size(pv) == first_page_size(pv.skip(i as int)),
                found matches Some(page_size) ==> first_page_size(pv) == Some(page_size as nat),
            decreases n - i + (if found is None { 1int } else { 0int }),
        {
            match self.properties[i].page_size() {
                Some(page_size) => {
                    proof {
                        assert(pv.skip(i as int)[0] == pv[i as int]);
                    }
                    found = Some(page_size);
                },
                None => {
                    proof {
                        assert(pv.skip(i as int)[0] == pv[i as int]);
                        assert(pv.skip(i as int).skip(1) =~= pv.skip(i + 1));
                    }
                    i += 1;
                },
            }
        }
        match found {
            None => {
                proof {
                    assert(pv.skip(n as int) =~= Seq::<PropertyModel>::empty());
                }
            },
            Some(page_size) => {
                let mut scaled: Vec<Property> = Vec::new();
                proof {
                    assert(pv.take(0) =~= Seq::<PropertyModel>::empty());
                    assert(props_view(scaled@) =~= pv.take(0).filter_map(norm_fn(
                        page_size as nat,
                    )));
                }
                let ghost consumed: int = 0;
                while self.properties.len() > 0
                    invariant
                        self.address == old(self).address,
                        self.policy == old(self).policy,
                        first_page_size(pv) == Some(page_size as nat),
                        can_scale_all(pv, page_size as nat),
                        0 <= consumed <= pv.len(),
                        consumed + self.properties@.len() == pv.len(),
                        props_view(self.properties@) == pv.skip(consumed),
                        props_view(scaled@) == pv.take(consumed).filter_map(norm_fn(
                            page_size as nat,
                        )),
                    decreases self.properties@.len(),
                {
                    let ghost before = self.properties@;
                    let property = self.properties.remove(0);
                    proof {
                        assert(property@ == pv[consumed]);
                        assert(props_view(before.remove(0)) =~= props_view(before).remove(0));
                        assert(props_view(before).remove(0) =~= pv.skip(consumed + 1));
                        pv.lemma_filter_map_take_succ(norm_fn(page_size as nat), consumed);
                    }
                    match property.normalize(page_size) {
                        Some(rewritten) => {
                            proof {
                                assert(props_view(scaled@.push(rewritten)) =~= props_view(
                                    scaled@,
                                ).push(rewritten@));
                                assert(props_view(scaled@).push(rewritten@) =~= pv.take(
                                    consumed + 1,
                                ).filter_map(norm_fn(page_size as nat)));
                            }
                            scaled.push(rewritten);
                        },
                        None => {
                            proof {
                                assert(props_view(scaled@) =~= pv.take(consumed + 1).filter_map(
                                    norm_fn(page_size as nat),
                                ));
                            }
                        },
                    }
                    proof {
                        consumed = consumed + 1;
                    }
                }
                proof {
                    assert(pv.take(consumed) =~= pv);
                }
                let sorted = sort_properties(scaled);
                self.properties = sorted;
                proof {
                    crate::order::lemma_prop_le_total_ordering();
                    let target = scaled_props(pv, page_size as nat);
                    target.lemma_sort_by_ensures(prop_leq());
                    vstd::seq_lib::lemma_sorted_unique(
                        props_view(self.properties@),
                        target.sort_by(prop_leq()),
                        prop_leq(),
                    );
                }
            },
        }
    }
}

} // verus!
