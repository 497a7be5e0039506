//! Typed properties of a memory range and the parser for single tokens.

use vstd::prelude::*;

use crate::text::all_dec_digits;
use crate::text::dec_digit_val;
use crate::text::dec_value;
use crate::text::is_dec_digit;
use crate::text::parse_dec_usize;
use crate::text::str_eq;

verus! {

/// One attribute of a memory range, as reported by a `numa_maps` line.
///
/// Counter variants hold page counts as parsed; after normalization they
/// hold byte counts instead. Consult `man 7 numa` for the meaning of each
/// key.
#[derive(Debug, Clone, PartialEq, Eq, PartialOrd, Ord)]
pub enum Property {
    /// File backing the memory range.
    File(String),
    /// Pages resident on one NUMA node, as `(node, count)`.
    N(usize, usize),
    /// The range holds the heap.
    Heap,
    /// The range holds the stack.
    Stack,
    /// The range is backed by huge pages.
    Huge,
    /// Number of anonymous pages in the range.
    Anon(usize),
    /// Number of dirty pages in the range.
    Dirty(usize),
    /// Number of mapped pages in the range.
    Mapped(usize),
    /// Largest number of processes mapping a single page of the range.
    MapMax(usize),
    /// Number of pages that have an entry on a swap device.
    SwapCache(usize),
    /// Number of pages on the active list.
    Active(usize),
    /// Number of pages currently being written out.
    Writeback(usize),
    /// The page size of the range in bytes.
    Kernelpagesize(usize),
}

/// The mathematical value of a [`Property`]: paths as character sequences,
/// counters as unbounded naturals.
pub enum PropertyModel {
    /// File backing the memory range.
    File(Seq<char>),
    /// Pages resident on one NUMA node, as `(node, count)`.
    N(nat, nat),
    /// The range holds the heap.
    Heap,
    /// The range holds the stack.
    Stack,
    /// The range is backed by huge pages.
    Huge,
    /// Number of anonymous pages.
    Anon(nat),
    /// Number of dirty pages.
    Dirty(nat),
    /// Number of mapped pages.
    Mapped(nat),
    /// Largest number of processes mapping a single page.
    MapMax(nat),
    /// Number of pages with an entry on a swap device.
    SwapCache(nat),
    /// Number of pages on the active list.
    Active(nat),
    /// Number of pages being written out.
    Writeback(nat),
    /// The page size in bytes.
    Kernelpagesize(nat),
}

impl View for Property {
    type V = PropertyModel;

    open spec fn view(&self) -> PropertyModel {
        match self {
            Property::File(p) => PropertyModel::File(p@),
            Property::N(node, count) => PropertyModel::N(*node as nat, *count as nat),
            Property::Heap => PropertyModel::Heap,
            Property::Stack => PropertyModel::Stack,
            Property::Huge => PropertyModel::Huge,
            Property::Anon(c) => PropertyModel::Anon(*c as nat),
            Property::Dirty(c) => PropertyModel::Dirty(*c as nat),
            Property::Mapped(c) => PropertyModel::Mapped(*c as nat),
            Property::MapMax(c) => PropertyModel::MapMax(*c as nat),
            Property::SwapCache(c) => PropertyModel::SwapCache(*c as nat),
            Property::Active(c) => PropertyModel::Active(*c as nat),
            Property::Writeback(c) => PropertyModel::Writeback(*c as nat),
            Property::Kernelpagesize(b) => PropertyModel::Kernelpagesize(*b as nat),
        }
    }
}

/// Why a single token failed to parse. Each variant carries the raw text
/// of the offending token, split into key and (where present) value.
#[derive(Debug, PartialEq, Eq)]
pub enum ParseError {
    /// A bare key that is not part of the recognized vocabulary.
    UnknownKey(String),
    /// A `key=value` pair whose key is not part of the recognized vocabulary.
    UnknownPair(String, String),
    /// An `N<node>=<count>` token whose node index is not a decimal number.
    BadNode(String, String),
    /// A recognized key whose value is not a decimal number.
    BadValue(String, String),
}

/// The mathematical value of a [`ParseError`].
pub enum ParseErrorModel {
    /// A bare key that is not recognized.
    UnknownKey(Seq<char>),
    /// A `key=value` pair whose key is not recognized.
    UnknownPair(Seq<char>, Seq<char>),
    /// An `N<node>=<count>` token whose node index is not a decimal number.
    BadNode(Seq<char>, Seq<char>),
    /// A recognized key whose value is not a decimal number.
    BadValue(Seq<char>, Seq<char>),
}

impl View for ParseError {
    type V = ParseErrorModel;

    open spec fn view(&self) -> ParseErrorModel {
        match self {
            ParseError::UnknownKey(k) => ParseErrorModel::UnknownKey(k@),
            ParseError::UnknownPair(k, v) => ParseErrorModel::UnknownPair(k@, v@),
            ParseError::BadNode(k, v) => ParseErrorModel::BadNode(k@, v@),
            ParseError::BadValue(k, v) => ParseErrorModel::BadValue(k@, v@),
        }
    }
}

/// Length of the prefix of `s` before its first `=`, or of all of `s` when
/// it has none.
pub open spec fn eq_len(s: Seq<char>) -> nat
    decreases s.len(),
{
    if s.len() == 0 || s[0] == '=' {
        0
    } else {
        1 + eq_len(s.skip(1))
    }
}

/// A position with no `=` before it, and an `=` at it unless it is the
/// whole length, is `eq_len(s)`.
proof fn lemma_eq_len_is(s: Seq<char>, k: int)
    requires
        0 <= k <= s.len(),
        forall|i: int| 0 <= i < k ==> #[trigger] s[i] != '=',
        k < s.len() ==> s[k] == '=',
    ensures
        eq_len(s) == k,
    decreases s.len(),
{
    if s.len() == 0 {
    } else if s[0] == '=' {
        assert(k == 0);
    } else {
        assert(k >= 1);
        assert forall|i: int| 0 <= i < k - 1 implies #[trigger] s.skip(1)[i] != '=' by {
            assert(s.skip(1)[i] == s[i + 1]);
        }
        if k - 1 < s.skip(1).len() {
            assert(s.skip(1)[k - 1] == s[k]);
        }
        lemma_eq_len_is(s.skip(1), k - 1);
    }
}

/// The key of a token: everything before the first `=`.
pub open spec fn key_of(t: Seq<char>) -> Seq<char> {
    t.take(eq_len(t) as int)
}

/// The value of a token: everything after the first `=`, absent when the
/// token has none.
pub open spec fn value_of(t: Seq<char>) -> Option<Seq<char>> {
    if eq_len(t) < t.len() {
        Some(t.skip(eq_len(t) as int + 1))
    } else {
        None
    }
}

/// `s` read as an unsigned decimal number that fits in `usize`, when it is
/// one.
pub open spec fn dec_usize(s: Seq<char>) -> Option<nat> {
    if s.len() > 0 && all_dec_digits(s) && dec_value(s) <= usize::MAX as nat {
        Some(dec_value(s))
    } else {
        None
    }
}

/// The byte count stored for a page size given in kibibytes. The
/// multiplication wraps at the width of `usize`, as the kernel's own
/// counters do.
pub open spec fn kps_bytes(kb: nat) -> nat {
    (kb * 1024) % (usize::MAX as nat + 1)
}

/// The property denoted by a bare token (one with no `=`).
pub open spec fn parse_bare_spec(key: Seq<char>) -> Result<PropertyModel, ParseErrorModel> {
    if key == "heap"@ {
        Ok(PropertyModel::Heap)
    } else if key == "stack"@ {
        Ok(PropertyModel::Stack)
    } else if key == "huge"@ {
        Ok(PropertyModel::Huge)
    } else {
        Err(ParseErrorModel::UnknownKey(key))
    }
}

/// The property denoted by a `key=value` token.
pub open spec fn parse_pair_spec(key: Seq<char>, val: Seq<char>) -> Result<
    PropertyModel,
    ParseErrorModel,
> {
    if key.len() > 0 && key[0] == 'N' {
        match dec_usize(key.skip(1)) {
            Some(node) => match dec_usize(val) {
                Some(count) => Ok(PropertyModel::N(node, count)),
                None => Err(ParseErrorModel::BadValue(key, val)),
            },
            None => Err(ParseErrorModel::BadNode(key, val)),
        }
    } else if key == "file"@ {
        Ok(PropertyModel::File(val))
    } else if key == "heap"@ {
        Ok(PropertyModel::Heap)
    } else if key == "stack"@ {
        Ok(PropertyModel::Stack)
    } else if key == "huge"@ {
        Ok(PropertyModel::Huge)
    } else if key == "anon"@ {
        match dec_usize(val) {
            Some(count) => Ok(PropertyModel::Anon(count)),
            None => Err(ParseErrorModel::BadValue(key, val)),
        }
    } else if key == "dirty"@ {
        match dec_usize(val) {
            Some(count) => Ok(PropertyModel::Dirty(count)),
            None => Err(ParseErrorModel::BadValue(key, val)),
        }
    } else if key == "mapped"@ {
        match dec_usize(val) {
            Some(count) => Ok(PropertyModel::Mapped(count)),
            None => Err(ParseErrorModel::BadValue(key, val)),
        }
    } else if key == "mapmax"@ {
        match dec_usize(val) {
            Some(count) => Ok(PropertyModel::MapMax(count)),
            None => Err(ParseErrorModel::BadValue(key, val)),
        }
    } else if key == "swapcache"@ {
        match dec_usize(val) {
            Some(count) => Ok(PropertyModel::SwapCache(count)),
            None => Err(ParseErrorModel::BadValue(key, val)),
        }
    } else if key == "active"@ {
        match dec_usize(val) {
            Some(count) => Ok(PropertyModel::Active(count)),
            None => Err(ParseErrorModel::BadValue(key, val)),
        }
    } else if key == "writeback"@ {
        match dec_usize(val) {
            Some(count) => Ok(PropertyModel::Writeback(count)),
            None => Err(ParseErrorModel::BadValue(key, val)),
        }
    } else if key == "kernelpagesize_kB"@ {
        match dec_usize(val) {
            Some(kb) => Ok(PropertyModel::Kernelpagesize(kps_bytes(kb))),
            None => Err(ParseErrorModel::BadValue(key, val)),
        }
    } else {
        Err(ParseErrorModel::UnknownPair(key, val))
    }
}

/// The property denoted by a whole token, or the reason it has none.
pub open spec fn parse_property_spec(t: Seq<char>) -> Result<PropertyModel, ParseErrorModel> {
    match value_of(t) {
        Some(val) => parse_pair_spec(key_of(t), val),
        None => parse_bare_spec(key_of(t)),
    }
}

/// The views of a parse result's two sides.
pub open spec fn parse_result_view(r: Result<Property, ParseError>) -> Result<
    PropertyModel,
    ParseErrorModel,
> {
    match r {
        Ok(p) => Ok(p@),
        Err(e) => Err(e@),
    }
}

/// The page size recorded in a property, present only for the page-size
/// variant.
pub open spec fn spec_page_size(p: PropertyModel) -> Option<nat> {
    match p {
        PropertyModel::Kernelpagesize(bytes) => Some(bytes),
        _ => None,
    }
}

/// An optional byte count, as a mathematical value.
pub open spec fn opt_nat_view(o: Option<usize>) -> Option<nat> {
    match o {
        Some(v) => Some(v as nat),
        None => None,
    }
}

/// An optional property, as a mathematical value.
pub open spec fn opt_property_view(o: Option<Property>) -> Option<PropertyModel> {
    match o {
        Some(p) => Some(p@),
        None => None,
    }
}

/// A property after scaling page counts by `page_size` bytes: counters
/// become byte counts, `MapMax` and the non-numeric variants pass through
/// unchanged, and the page-size property itself disappears.
pub open spec fn spec_normalize(p: PropertyModel, page_size: nat) -> Option<PropertyModel> {
    match p {
        PropertyModel::File(path) => Some(PropertyModel::File(path)),
        PropertyModel::N(node, pages) => Some(PropertyModel::N(node, pages * page_size)),
        PropertyModel::Heap => Some(PropertyModel::Heap),
        PropertyModel::Stack => Some(PropertyModel::Stack),
        PropertyModel::Huge => Some(PropertyModel::Huge),
        PropertyModel::Anon(pages) => Some(PropertyModel::Anon(pages * page_size)),
        PropertyModel::Dirty(pages) => Some(PropertyModel::Dirty(pages * page_size)),
        PropertyModel::Mapped(pages) => Some(PropertyModel::Mapped(pages * page_size)),
        PropertyModel::MapMax(procs) => Some(PropertyModel::MapMax(procs)),
        PropertyModel::SwapCache(pages) => Some(PropertyModel::SwapCache(pages * page_size)),
        PropertyModel::Active(pages) => Some(PropertyModel::Active(pages * page_size)),
        PropertyModel::Writeback(pages) => Some(PropertyModel::Writeback(pages * page_size)),
        PropertyModel::Kernelpagesize(_) => None,
    }
}

/// Whether scaling the counter of `p` by `page_size` stays within `usize`.
pub open spec fn can_scale(p: PropertyModel, page_size: nat) -> bool {
    match p {
        PropertyModel::N(_, pages) => pages * page_size <= usize::MAX as nat,
        PropertyModel::Anon(pages) => pages * page_size <= usize::MAX as nat,
        PropertyModel::Dirty(pages) => pages * page_size <= usize::MAX as nat,
        PropertyModel::Mapped(pages) => pages * page_size <= usize::MAX as nat,
        PropertyModel::SwapCache(pages) => pages * page_size <= usize::MAX as nat,
        PropertyModel::Active(pages) => pages * page_size <= usize::MAX as nat,
        PropertyModel::Writeback(pages) => pages * page_size <= usize::MAX as nat,
        _ => true,
    }
}

/// The character of a single decimal digit.
pub open spec fn digit_char(d: nat) -> char
    recommends
        d < 10,
{
    ((d as int) + ('0' as int)) as char
}

/// The canonical decimal numeral of `n`, without leading zeros.
pub open spec fn dec_chars(n: nat) -> Seq<char>
    decreases n,
{
    if n < 10 {
        seq![digit_char(n)]
    } else {
        dec_chars(n / 10).push(digit_char(n % 10))
    }
}

/// A canonical numeral is a non-empty digit string denoting its number.
pub proof fn lemma_dec_chars(n: nat)
    ensures
        dec_chars(n).len() >= 1,
        all_dec_digits(dec_chars(n)),
        dec_value(dec_chars(n)) == n,
    decreases n,
{
    if n < 10 {
        let s = dec_chars(n);
        assert(s =~= seq![digit_char(n)]);
        assert(is_dec_digit(digit_char(n)));
        assert(s.drop_last() =~= Seq::<char>::empty());
        assert(dec_value(Seq::<char>::empty()) == 0);
        assert(s.last() == digit_char(n));
        assert(dec_value(s) == dec_digit_val(digit_char(n)));
    } else {
        lemma_dec_chars(n / 10);
        let s = dec_chars(n / 10);
        let c = digit_char(n % 10);
        assert(is_dec_digit(c));
        assert(dec_chars(n) == s.push(c));
        assert(s.push(c).drop_last() =~= s);
        assert(s.push(c).last() == c);
        assert(dec_value(s.push(c)) == dec_value(s) * 10 + dec_digit_val(c));
        assert(n / 10 * 10 + n % 10 == n) by (nonlinear_arith);
        assert forall|i: int| 0 <= i < s.push(c).len() implies is_dec_digit(
            #[trigger] s.push(c)[i],
        ) by {
            if i < s.len() {
                assert(s.push(c)[i] == s[i]);
            }
        }
    }
}

/// A digit is neither `=` nor a token separator.
proof fn lemma_digits_not_special(s: Seq<char>)
    requires
        all_dec_digits(s),
    ensures
        forall|i: int| 0 <= i < s.len() ==> #[trigger] s[i] != '=',
{
    assert forall|i: int| 0 <= i < s.len() implies #[trigger] s[i] != '=' by {
        assert(is_dec_digit(s[i]));
    }
}

/// How a `key=value` token splits: at the first `=`, which ends the key.
proof fn lemma_keyed_token(key: Seq<char>, val: Seq<char>)
    requires
        forall|i: int| 0 <= i < key.len() ==> #[trigger] key[i] != '=',
    ensures
        key_of(key + seq!['='] + val) == key,
        value_of(key + seq!['='] + val) == Some(val),
{
    let t = key + seq!['='] + val;
    assert forall|i: int| 0 <= i < key.len() implies #[trigger] t[i] != '=' by {
        assert(t[i] == key[i]);
    }
    assert(t[key.len() as int] == '=');
    lemma_eq_len_is(t, key.len() as int);
    assert(key_of(t) =~= key);
    assert(t.skip(key.len() as int + 1) =~= val);
}

/// A token without `=` is all key.
proof fn lemma_bare_token(key: Seq<char>)
    requires
        forall|i: int| 0 <= i < key.len() ==> #[trigger] key[i] != '=',
    ensures
        key_of(key) == key,
        value_of(key) == None::<Seq<char>>,
{
    lemma_eq_len_is(key, key.len() as int);
    assert(key_of(key) =~= key);
}

/// The canonical token of a property: the `key` or `key=value` text that
/// parses back to it.
pub open spec fn token_of(p: PropertyModel) -> Seq<char> {
    match p {
        PropertyModel::File(path) => "file="@ + path,
        PropertyModel::N(node, count) => seq!['N'] + dec_chars(node) + seq!['='] + dec_chars(
            count,
        ),
        PropertyModel::Heap => "heap"@,
        PropertyModel::Stack => "stack"@,
        PropertyModel::Huge => "huge"@,
        PropertyModel::Anon(c) => "anon="@ + dec_chars(c),
        PropertyModel::Dirty(c) => "dirty="@ + dec_chars(c),
        PropertyModel::Mapped(c) => "mapped="@ + dec_chars(c),
        PropertyModel::MapMax(c) => "mapmax="@ + dec_chars(c),
        PropertyModel::SwapCache(c) => "swapcache="@ + dec_chars(c),
        PropertyModel::Active(c) => "active="@ + dec_chars(c),
        PropertyModel::Writeback(c) => "writeback="@ + dec_chars(c),
        PropertyModel::Kernelpagesize(b) => "kernelpagesize_kB="@ + dec_chars(b / 1024),
    }
}

/// A property value that a parsed token can denote: numeric payloads fit
/// in `usize`, and a page size is a whole number of kibibytes.
pub open spec fn wf_model(p: PropertyModel) -> bool {
    match p {
        PropertyModel::File(_) => true,
        PropertyModel::N(node, count) => node <= usize::MAX as nat && count <= usize::MAX as nat,
        PropertyModel::Heap => true,
        PropertyModel::Stack => true,
        PropertyModel::Huge => true,
        PropertyModel::Anon(c) => c <= usize::MAX as nat,
        PropertyModel::Dirty(c) => c <= usize::MAX as nat,
        PropertyModel::Mapped(c) => c <= usize::MAX as nat,
        PropertyModel::MapMax(c) => c <= usize::MAX as nat,
        PropertyModel::SwapCache(c) => c <= usize::MAX as nat,
        PropertyModel::Active(c) => c <= usize::MAX as nat,
        PropertyModel::Writeback(c) => c <= usize::MAX as nat,
        PropertyModel::Kernelpagesize(b) => b <= usize::MAX as nat && b % 1024 == 0,
    }
}

/// Round trip for well-formed tokens: deriving the key and value of a
/// property and reading them back yields the same property. Every
/// property a token can denote is well-formed in the sense of
/// [`wf_model`], so the canonical token of a parsed property always
/// parses back to it.
#[verifier::rlimit(50)]
pub proof fn lemma_token_round_trip(p: PropertyModel)
    requires
        wf_model(p),
    ensures
        parse_property_spec(token_of(p)) is Ok,
        parse_property_spec(token_of(p))->Ok_0 == p,
{
    reveal_strlit("file");
    reveal_strlit("file=");
    reveal_strlit("heap");
    reveal_strlit("stack");
    reveal_strlit("huge");
    reveal_strlit("anon");
    reveal_strlit("anon=");
    reveal_strlit("dirty");
    reveal_strlit("dirty=");
    reveal_strlit("mapped");
    reveal_strlit("mapped=");
    reveal_strlit("mapmax");
    reveal_strlit("mapmax=");
    reveal_strlit("swapcache");
    reveal_strlit("swapcache=");
    reveal_strlit("active");
    reveal_strlit("active=");
    reveal_strlit("writeback");
    reveal_strlit("writeback=");
    reveal_strlit("kernelpagesize_kB");
    reveal_strlit("kernelpagesize_kB=");
    match p {
        PropertyModel::File(path) => {
            assert("file="@ + path =~= "file"@ + seq!['='] + path);
            assert forall|i: int| 0 <= i < "file"@.len() implies #[trigger] "file"@[i] != '=' by {
                assert("file"@[0] == 'f');
                assert("file"@[1] == 'i');
                assert("file"@[2] == 'l');
                assert("file"@[3] == 'e');
            }
            lemma_keyed_token("file"@, path);
            assert(key_of(token_of(p)) == "file"@);
            assert(value_of(token_of(p)) == Some(path));
            assert(parse_pair_spec("file"@, path) == Ok::<PropertyModel, ParseErrorModel>(p));
            assert(parse_property_spec(token_of(p)) is Ok);
            assert(parse_property_spec(token_of(p))->Ok_0 == p);
        },
        PropertyModel::N(node, count) => {
            lemma_dec_chars(node);
            lemma_dec_chars(count);
            let key = seq!['N'] + dec_chars(node);
            assert forall|i: int| 0 <= i < key.len() implies #[trigger] key[i] != '=' by {
                if i > 0 {
                    assert(key[i] == dec_chars(node)[i - 1]);
                    assert(is_dec_digit(dec_chars(node)[i - 1]));
                }
            }
            assert(token_of(p) =~= key + seq!['='] + dec_chars(count));
            lemma_keyed_token(key, dec_chars(count));
            assert(key[0] == 'N');
            assert(key.skip(1) =~= dec_chars(node));
            assert(dec_usize(key.skip(1)) == Some(node));
            assert(dec_usize(dec_chars(count)) == Some(count));
            assert(parse_property_spec(token_of(p)) is Ok);
            assert(parse_property_spec(token_of(p))->Ok_0 == p);
        },
        PropertyModel::Heap => {
            lemma_bare_token("heap"@);
            assert(parse_property_spec(token_of(p)) is Ok);
            assert(parse_property_spec(token_of(p))->Ok_0 == p);
        },
        PropertyModel::Stack => {
            lemma_bare_token("stack"@);
            assert(parse_property_spec(token_of(p)) is Ok);
            assert(parse_property_spec(token_of(p))->Ok_0 == p);
        },
        PropertyModel::Huge => {
            lemma_bare_token("huge"@);
            assert(parse_property_spec(token_of(p)) is Ok);
            assert(parse_property_spec(token_of(p))->Ok_0 == p);
        },
        PropertyModel::Anon(c) => {
            lemma_counter_round_trip(p, "anon"@, "anon="@, c);
            assert(parse_property_spec(token_of(p)) is Ok);
            assert(parse_property_spec(token_of(p))->Ok_0 == p);
        },
        PropertyModel::Dirty(c) => {
            lemma_counter_round_trip(p, "dirty"@, "dirty="@, c);
            assert(parse_property_spec(token_of(p)) is Ok);
            assert(parse_property_spec(token_of(p))->Ok_0 == p);
        },
        PropertyModel::Mapped(c) => {
            lemma_counter_round_trip(p, "mapped"@, "mapped="@, c);
            assert(parse_property_spec(token_of(p)) is Ok);
            assert(parse_property_spec(token_of(p))->Ok_0 == p);
        },
        PropertyModel::MapMax(c) => {
            lemma_counter_round_trip(p, "mapmax"@, "mapmax="@, c);
            assert(parse_property_spec(token_of(p)) is Ok);
            assert(parse_property_spec(token_of(p))->Ok_0 == p);
        },
        PropertyModel::SwapCache(c) => {
            lemma_counter_round_trip(p, "swapcache"@, "swapcache="@, c);
            assert(parse_property_spec(token_of(p)) is Ok);
            assert(parse_property_spec(token_of(p))->Ok_0 == p);
        },
        PropertyModel::Active(c) => {
            lemma_counter_round_trip(p, "active"@, "active="@, c);
            assert(parse_property_spec(token_of(p)) is Ok);
            assert(parse_property_spec(token_of(p))->Ok_0 == p);
        },
        PropertyModel::Writeback(c) => {
            lemma_counter_round_trip(p, "writeback"@, "writeback="@, c);
            assert(parse_property_spec(token_of(p)) is Ok);
            assert(parse_property_spec(token_of(p))->Ok_0 == p);
        },
        PropertyModel::Kernelpagesize(b) => {
            lemma_dec_chars(b / 1024);
            lemma_digits_not_special(dec_chars(b / 1024));
            assert("kernelpagesize_kB="@ + dec_chars(b / 1024) =~= "kernelpagesize_kB"@
                + seq!['='] + dec_chars(b / 1024));
            lemma_keyed_token("kernelpagesize_kB"@, dec_chars(b / 1024));
            assert(dec_usize(dec_chars(b / 1024)) == Some(b / 1024));
            assert(b / 1024 * 1024 == b) by (nonlinear_arith)
                requires
                    b % 1024 == 0,
            ;
            vstd::arithmetic::div_mod::lemma_small_mod(b, usize::MAX as nat + 1);
            assert(kps_bytes(b / 1024) == b);
            assert(parse_property_spec(token_of(p)) is Ok);
            assert(parse_property_spec(token_of(p))->Ok_0 == p);
        },
    }
}

/// A stored page size is a whole number of kibibytes that fits in `usize`.
proof fn lemma_kps_bytes_wf(kb: nat)
    ensures
        kps_bytes(kb) <= usize::MAX as nat,
        kps_bytes(kb) % 1024 == 0,
{
    let m = usize::MAX as nat + 1;
    assert(m == 1024 * (m / 1024));
    vstd::arithmetic::div_mod::lemma_mod_mod(kb as int * 1024, 1024, m as int / 1024);
    vstd::arithmetic::div_mod::lemma_mod_multiples_basic(kb as int, 1024);
}

/// The property a token denotes is always well-formed: its numeric
/// payloads fit in `usize` and a stored page size is a whole number of
/// kibibytes.
pub proof fn lemma_parse_gives_wf(t: Seq<char>)
    requires
        parse_property_spec(t) is Ok,
    ensures
        wf_model(parse_property_spec(t)->Ok_0),
{
    if let Some(val) = value_of(t) {
        let key = key_of(t);
        if !(key.len() > 0 && key[0] == 'N') && key == "kernelpagesize_kB"@ && dec_usize(val)
            is Some {
            lemma_kps_bytes_wf(dec_usize(val)->Some_0);
        }
    }
}

/// Round trip for every valid token: parsing it and re-deriving the
/// key and value from the resulting property reconstructs an equivalent
/// token — one that parses to the same property.
pub proof fn lemma_valid_token_round_trip(t: Seq<char>)
    requires
        parse_property_spec(t) is Ok,
    ensures
        parse_property_spec(token_of(parse_property_spec(t)->Ok_0)) is Ok,
        parse_property_spec(token_of(parse_property_spec(t)->Ok_0))->Ok_0 == parse_property_spec(
            t,
        )->Ok_0,
{
    lemma_parse_gives_wf(t);
    lemma_token_round_trip(parse_property_spec(t)->Ok_0);
}

/// The round trip of one counter key, shared by the counter variants.
proof fn lemma_counter_round_trip(p: PropertyModel, key: Seq<char>, keyed: Seq<char>, c: nat)
    requires
        c <= usize::MAX as nat,
        keyed =~= key + seq!['='],
        forall|i: int| 0 <= i < key.len() ==> #[trigger] key[i] != '=',
        token_of(p) == keyed + dec_chars(c),
    ensures
        key_of(token_of(p)) == key,
        value_of(token_of(p)) == Some(dec_chars(c)),
        dec_usize(dec_chars(c)) == Some(c),
{
    lemma_dec_chars(c);
    assert(token_of(p) =~= key + seq!['='] + dec_chars(c));
    lemma_keyed_token(key, dec_chars(c));
}

/// Appends the character of one decimal digit to `out`.
fn push_digit(out: &mut String, d: usize)
    requires
        d < 10,
    ensures
        final(out)@ == old(out)@ + seq![digit_char(d as nat)],
{
    let digits = "0123456789";
    proof {
        reveal_strlit("0123456789");
    }
    let s = digits.substring_char(d, d + 1);
    proof {
        assert(s@ =~= seq![digit_char(d as nat)]);
    }
    out.append(s);
}

/// The canonical decimal numeral of `n`, as text.
fn dec_string(n: usize) -> (r: String)
    ensures
        r@ == dec_chars(n as nat),
    decreases n,
{
    if n < 10 {
        let mut s = String::new();
        push_digit(&mut s, n);
        proof {
            assert(s@ =~= dec_chars(n as nat));
        }
        s
    } else {
        let mut s = dec_string(n / 10);
        push_digit(&mut s, n % 10);
        proof {
            assert(s@ =~= dec_chars(n as nat));
        }
        s
    }
}

/// Whether the character of `s` at position `i` is `=`.
fn eq_at(s: &str, i: usize) -> (b: bool)
    requires
        i < s@.len(),
    ensures
        b == (s@[i as int] == '='),
{
    s.get_char(i) == '='
}

impl Property {
    /// Returns the kernel page size in bytes when the property is the
    /// page-size property, and nothing otherwise.
    #[must_use]
    pub fn page_size(&self) -> (r: Option<usize>)
        ensures
            opt_nat_view(r) == spec_page_size(self@),
    {
        match self {
            Property::Kernelpagesize(page_size) => Some(*page_size),
            _ => None,
        }
    }

    /// Rewrites the property for a range whose pages are `page_size` bytes:
    /// page counters become byte counts, `MapMax` and the non-numeric
    /// variants are returned unchanged, and the page-size property itself
    /// yields nothing.
    #[must_use]
    pub fn normalize(self, page_size: usize) -> (r: Option<Self>)
        requires
            can_scale(self@, page_size as nat),
        ensures
            opt_property_view(r) == spec_normalize(self@, page_size as nat),
    {
        match self {
            Property::File(path) => Some(Property::File(path)),
            Property::N(node, pages) => Some(Property::N(node, pages * page_size)),
            Property::Heap => Some(Property::Heap),
            Property::Stack => Some(Property::Stack),
            Property::Huge => Some(Property::Huge),
            Property::Anon(pages) => Some(Property::Anon(pages * page_size)),
            Property::Dirty(pages) => Some(Property::Dirty(pages * page_size)),
            Property::Mapped(pages) => Some(Property::Mapped(pages * page_size)),
            Property::MapMax(procs) => Some(Property::MapMax(procs)),
            Property::SwapCache(pages) => Some(Property::SwapCache(pages * page_size)),
            Property::Active(pages) => Some(Property::Active(pages * page_size)),
            Property::Writeback(pages) => Some(Property::Writeback(pages * page_size)),
            Property::Kernelpagesize(_) => None,
        }
    }

    /// Parses one whitespace-delimited token into a property, or reports
    /// why the token is not one.
    pub fn parse(token: &str) -> (r: Result<Property, ParseError>)
        ensures
            parse_result_view(r) == parse_property_spec(token@),
    {
        let n = token.unicode_len();
        let mut e: usize = 0;
        while e < n && !eq_at(token, e)
            invariant
                e <= n == token@.len(),
                forall|m: int| 0 <= m < e ==> #[trigger] token@[m] != '=',
            decreases n - e,
        {
            e += 1;
        }
        proof {
            lemma_eq_len_is(token@, e as int);
        }
        let key = token.substring_char(0, e);
        proof {
            assert(key@ =~= key_of(token@));
        }
        if e < n {
            let val = token.substring_char(e + 1, n);
            proof {
                assert(val@ =~= token@.skip(e + 1));
            }
            Self::parse_pair(key, val)
        } else {
            Self::parse_bare(key)
        }
    }

    /// Parses a bare token (one with no `=`).
    fn parse_bare(key: &str) -> (r: Result<Property, ParseError>)
        ensures
            parse_result_view(r) == parse_bare_spec(key@),
    {
        if str_eq(key, "heap") {
            Ok(Property::Heap)
        } else if str_eq(key, "stack") {
            Ok(Property::Stack)
        } else if str_eq(key, "huge") {
            Ok(Property::Huge)
        } else {
            Err(ParseError::UnknownKey(key.to_owned()))
        }
    }

    /// Parses a `key=value` token, already split at its first `=`.
    fn parse_pair(key: &str, val: &str) -> (r: Result<Property, ParseError>)
        ensures
            parse_result_view(r) == parse_pair_spec(key@, val@),
    {
        let nk = key.unicode_len();
        if nk > 0 && key.get_char(0) == 'N' {
            let node_text = key.substring_char(1, nk);
            proof {
                assert(node_text@ =~= key@.skip(1));
            }
            match parse_dec_usize(node_text) {
                Some(node) => match parse_dec_usize(val) {
                    Some(count) => Ok(Property::N(node, count)),
                    None => Err(ParseError::BadValue(key.to_owned(), val.to_owned())),
                },
                None => Err(ParseError::BadNode(key.to_owned(), val.to_owned())),
            }
        } else if str_eq(key, "file") {
            Ok(Property::File(val.to_owned()))
        } else if str_eq(key, "heap") {
            Ok(Property::Heap)
        } else if str_eq(key, "stack") {
            Ok(Property::Stack)
        } else if str_eq(key, "huge") {
            Ok(Property::Huge)
        } else if str_eq(key, "anon") {
            match parse_dec_usize(val) {
                Some(count) => Ok(Property::Anon(count)),
                None => Err(ParseError::BadValue(key.to_owned(), val.to_owned())),
            }
        } else if str_eq(key, "dirty") {
            match parse_dec_usize(val) {
                Some(count) => Ok(Property::Dirty(count)),
                None => Err(ParseError::BadValue(key.to_owned(), val.to_owned())),
            }
        } else if str_eq(key, "mapped") {
            match parse_dec_usize(val) {
                Some(count) => Ok(Property::Mapped(count)),
                None => Err(ParseError::BadValue(key.to_owned(), val.to_owned())),
            }
        } else if str_eq(key, "mapmax") {
            match parse_dec_usize(val) {
                Some(count) => Ok(Property::MapMax(count)),
                None => Err(ParseError::BadValue(key.to_owned(), val.to_owned())),
            }
        } else if str_eq(key, "swapcache") {
            match parse_dec_usize(val) {
                Some(count) => Ok(Property::SwapCache(count)),
                None => Err(ParseError::BadValue(key.to_owned(), val.to_owned())),
            }
        } else if str_eq(key, "active") {
            match parse_dec_usize(val) {
                Some(count) => Ok(Property::Active(count)),
                None => Err(ParseError::BadValue(key.to_owned(), val.to_owned())),
            }
        } else if str_eq(key, "writeback") {
            match parse_dec_usize(val) {
                Some(count) => Ok(Property::Writeback(count)),
                None => Err(ParseError::BadValue(key.to_owned(), val.to_owned())),
            }
        } else if str_eq(key, "kernelpagesize_kB") {
            match parse_dec_usize(val) {
                Some(kb) => {
                    let bytes = kb.wrapping_mul(1024);
                    proof {
                        assert(bytes as nat == kps_bytes(kb as nat));
                    }
                    Ok(Property::Kernelpagesize(bytes))
                },
                None => Err(ParseError::BadValue(key.to_owned(), val.to_owned())),
            }
        } else {
            Err(ParseError::UnknownPair(key.to_owned(), val.to_owned()))
        }
    }

    /// The canonical token of the property: the `key` or `key=value` text
    /// that parses back to it.
    pub fn to_token(&self) -> (r: String)
        ensures
            r@ == token_of(self@),
    {
        match self {
            Property::File(path) => {
                let mut s = "file=".to_owned();
                s.append(path.as_str());
                s
            },
            Property::N(node, count) => {
                let mut s = "N".to_owned();
                let node_text = dec_string(*node);
                s.append(node_text.as_str());
                s.append("=");
                let count_text = dec_string(*count);
                s.append(count_text.as_str());
                proof {
                    reveal_strlit("N");
                    reveal_strlit("=");
                    assert(s@ =~= seq!['N'] + dec_chars(*node as nat) + seq!['='] + dec_chars(
                        *count as nat,
                    ));
                }
                s
            },
            Property::Heap => "heap".to_owned(),
            Property::Stack => "stack".to_owned(),
            Property::Huge => "huge".to_owned(),
            Property::Anon(c) => counter_token("anon=", *c),
            Property::Dirty(c) => counter_token("dirty=", *c),
            Property::Mapped(c) => counter_token("mapped=", *c),
            Property::MapMax(c) => counter_token("mapmax=", *c),
            Property::SwapCache(c) => counter_token("swapcache=", *c),
            Property::Active(c) => counter_token("active=", *c),
            Property::Writeback(c) => counter_token("writeback=", *c),
            Property::Kernelpagesize(b) => counter_token("kernelpagesize_kB=", *b / 1024),
        }
    }
}

/// A `key=` prefix followed by the canonical numeral of `count`.
fn counter_token(prefix: &str, count: usize) -> (r: String)
    ensures
        r@ == prefix@ + dec_chars(count as nat),
{
    let mut s = prefix.to_owned();
    let text = dec_string(count);
    s.append(text.as_str());
    s
}

impl ParseError {
    /// A descriptive message naming the offending key and value.
    pub fn message(&self) -> (r: String)
        ensures
            r@ == message_of(self@),
    {
        match self {
            ParseError::UnknownKey(key) => {
                let mut s = "unrecognized key: ".to_owned();
                s.append(key.as_str());
                s
            },
            ParseError::UnknownPair(key, val) => {
                let mut s = "unrecognized key/value: ".to_owned();
                s.append(key.as_str());
                s.append("=");
                s.append(val.as_str());
                proof {
                    reveal_strlit("=");
                    assert(s@ =~= "unrecognized key/value: "@ + key@ + seq!['='] + val@);
                }
                s
            },
            ParseError::BadNode(key, val) => {
                let mut s = "malformed node index: ".to_owned();
                s.append(key.as_str());
                s.append("=");
                s.append(val.as_str());
                proof {
                    reveal_strlit("=");
                    assert(s@ =~= "malformed node index: "@ + key@ + seq!['='] + val@);
                }
                s
            },
            ParseError::BadValue(key, val) => {
                let mut s = "malformed value: ".to_owned();
                s.append(key.as_str());
                s.append("=");
                s.append(val.as_str());
                proof {
                    reveal_strlit("=");
                    assert(s@ =~= "malformed value: "@ + key@ + seq!['='] + val@);
                }
                s
            },
        }
    }
}

/// The text of a diagnostic: what kind of fault, then the raw key and
/// value.
pub open spec fn message_of(e: ParseErrorModel) -> Seq<char> {
    match e {
        ParseErrorModel::UnknownKey(key) => "unrecognized key: "@ + key,
        ParseErrorModel::UnknownPair(key, val) => "unrecognized key/value: "@ + key + seq!['=']
            + val,
        ParseErrorModel::BadNode(key, val) => "malformed node index: "@ + key + seq!['='] + val,
        ParseErrorModel::BadValue(key, val) => "malformed value: "@ + key + seq!['='] + val,
    }
}

} // verus!
