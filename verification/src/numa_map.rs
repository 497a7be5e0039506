//! The whole parsed content of a `numa_maps` file.

use vstd::prelude::*;

use crate::range::parse_line_spec;
use crate::range::Range;
use crate::range::RangeModel;
use crate::text::views_of;

verus! {

broadcast use vstd::seq_lib::group_seq_properties;

/// A whole `numa_maps` file: one range per line that carries an address
/// and a policy, in file order.
pub struct NumaMap {
    /// The individual memory ranges.
    pub ranges: Vec<Range>,
}

impl View for NumaMap {
    type V = Seq<RangeModel>;

    open spec fn view(&self) -> Seq<RangeModel> {
        self.ranges@.map_values(|r: Range| r@)
    }
}

/// `parse_line_spec` as a relation value.
pub open spec fn line_range_fn() -> spec_fn(Seq<char>) -> Option<RangeModel> {
    |l: Seq<char>| parse_line_spec(l)
}

/// Whether a line denotes a range: its first token parses as a base-16
/// address and a second token is present.
pub open spec fn line_has_range(l: Seq<char>) -> bool {
    parse_line_spec(l) is Some
}

/// `line_has_range` as a relation value.
pub open spec fn line_has_range_fn() -> spec_fn(Seq<char>) -> bool {
    |l: Seq<char>| line_has_range(l)
}

/// The ranges denoted by a sequence of lines: one per line that denotes a
/// range, in order; the other lines contribute nothing.
pub open spec fn ranges_of_lines(lines: Seq<Seq<char>>) -> Seq<RangeModel> {
    lines.filter_map(line_range_fn())
}

impl NumaMap {
    /// Builds the map from the lines of a `numa_maps` file: each line that
    /// denotes a range contributes it, in file order; the other lines are
    /// skipped.
    pub fn from_lines(lines: &Vec<String>) -> (r: NumaMap)
        ensures
            r@ == ranges_of_lines(views_of(lines@)),
    {
        let ghost ls = views_of(lines@);
        let mut ranges: Vec<Range> = Vec::new();
        let mut i: usize = 0;
        proof {
            assert(ls.take(0) =~= Seq::<Seq<char>>::empty());
            assert(ranges@.map_values(|r: Range| r@) =~= ls.take(0).filter_map(line_range_fn()));
        }
        while i < lines.len()
            invariant
                i <= lines@.len(),
                ls == views_of(lines@),
                ranges@.map_values(|r: Range| r@) == ls.take(i as int).filter_map(
                    line_range_fn(),
                ),
            decreases lines@.len() - i,
        {
            proof {
                assert(ls[i as int] == lines@[i as int]@);
                ls.lemma_filter_map_take_succ(line_range_fn(), i as int);
            }
            match Range::parse(lines[i].as_str()) {
                Some(range) => {
                    proof {
                        assert(ranges@.push(range).map_values(|r: Range| r@) =~= ranges@.map_values(
                            |r: Range| r@,
                        ).push(range@));
                        assert(ranges@.map_values(|r: Range| r@).push(range@) =~= ls.take(
                            i + 1,
                        ).filter_map(line_range_fn()));
                    }
                    ranges.push(range);
                },
                None => {
                    proof {
                        assert(ranges@.map_values(|r: Range| r@) =~= ls.take(i + 1).filter_map(
                            line_range_fn(),
                        ));
                    }
                },
            }
            i += 1;
        }
        proof {
            assert(ls.take(lines@.len() as int) =~= ls);
        }
        NumaMap { ranges }
    }
}

impl Default for NumaMap {
    /// The empty map, with no ranges.
    fn default() -> (r: Self)
        ensures
            r@ == Seq::<RangeModel>::empty(),
    {
        let r = NumaMap { ranges: Vec::new() };
        proof {
            assert(r@ =~= Seq::<RangeModel>::empty());
        }
        r
    }
}

/// Loading N lines of which exactly K denote a range yields a map of
/// exactly K ranges: the ranges of the lines that denote one, in the
/// original line order.
pub proof fn lemma_ranges_in_file_order(lines: Seq<Seq<char>>)
    ensures
        ranges_of_lines(lines) == lines.filter(line_has_range_fn()).map_values(
            |l: Seq<char>| parse_line_spec(l)->Some_0,
        ),
        ranges_of_lines(lines).len() == lines.filter(line_has_range_fn()).len(),
    decreases lines.len(),
{
    reveal(Seq::filter);
    let extract = |l: Seq<char>| parse_line_spec(l)->Some_0;
    if lines.len() == 0 {
        assert(ranges_of_lines(lines) =~= Seq::<RangeModel>::empty());
        assert(lines.filter(line_has_range_fn()).map_values(extract) =~= Seq::<
            RangeModel,
        >::empty());
    } else {
        let rest = lines.drop_last();
        let last = lines.last();
        lemma_ranges_in_file_order(rest);
        if line_has_range(last) {
            assert(ranges_of_lines(lines) =~= ranges_of_lines(rest) + seq![
                parse_line_spec(last)->Some_0,
            ]);
            assert(lines.filter(line_has_range_fn()) == rest.filter(line_has_range_fn()).push(
                last,
            ));
            assert(rest.filter(line_has_range_fn()).push(last).map_values(extract) =~= rest.filter(
                line_has_range_fn(),
            ).map_values(extract).push(extract(last)));
            assert(ranges_of_lines(lines) =~= lines.filter(line_has_range_fn()).map_values(
                extract,
            ));
        } else {
            assert(ranges_of_lines(lines) =~= ranges_of_lines(rest));
            assert(lines.filter(line_has_range_fn()) == rest.filter(line_has_range_fn()));
            assert(ranges_of_lines(lines) =~= lines.filter(line_has_range_fn()).map_values(
                extract,
            ));
        }
    }
}

} // verus!
