//! The live version index: every stable `platforms;android-<level>` package
//! named in Google's SDK repository index, newest first.

use vstd::prelude::*;
use crate::numbers::{decimal, is_digit, lemma_decimal_digits, lemma_parse_decimal, chars_less, chars_lt, lemma_chars_lt_asym_total, lemma_chars_lt_trans, parse_u64, parse_unsigned};
use crate::text::{lemma_find_from_first, lemma_find_from_shift, lemma_split_char_append, occurs_at, chars_eq, chars_of, find_chars, find_from, lemma_find_from, slice_chars, split_char, split_on_char, string_of};

verus! {

broadcast use vstd::seq_lib::group_to_multiset_ensures;

/// The numbers a version string stands for: exactly `len` dot-separated
/// decimal numbers, missing trailing ones taken as 0; `None` when there are
/// more parts than `len` or a part is not a number.
pub open spec fn spec_nums(s: Seq<char>, len: nat) -> Option<Seq<u64>> {
    let parts = split_char(s, '.');
    if parts.len() <= len && forall|i: int|
        0 <= i < parts.len() ==> #[trigger] parse_unsigned(parts[i], u64::MAX as nat) is Some {
        Some(
            Seq::new(
                len,
                |i: int|
                    if i < parts.len() {
                        parse_unsigned(parts[i], u64::MAX as nat).unwrap() as u64
                    } else {
                        0u64
                    },
            ),
        )
    } else {
        None
    }
}

/// `nums` on a character sequence.
pub fn nums_of(s: &[char], len: usize) -> (r: Option<Vec<u64>>)
    ensures
        match spec_nums(s@, len as nat) {
            Some(v) => r matches Some(x) && x@ == v,
            None => r is None,
        },
{
    let parts = split_on_char(s, '.');
    let ghost pv = parts.deep_view();
    let mut out: Vec<u64> = Vec::new();
    let mut i: usize = 0;
    while i < parts.len()
        invariant
            pv == parts.deep_view(),
            pv == split_char(s@, '.'),
            i <= parts.len(),
            out@.len() == i,
            forall|k: int| 0 <= k < i ==> #[trigger] parse_unsigned(pv[k], u64::MAX as nat) is Some,
            forall|k: int|
                0 <= k < i ==> out@[k] == #[trigger] parse_unsigned(pv[k], u64::MAX as nat).unwrap() as u64,
        decreases parts.len() - i,
    {
        assert(parts@[i as int].deep_view() =~= parts@[i as int]@);
        match parse_u64(parts[i].as_slice()) {
            Some(v) => {
                out.push(v);
            },
            None => {
                assert(parse_unsigned(pv[i as int], u64::MAX as nat) is None);
                return None;
            },
        }
        i += 1;
    }
    if parts.len() > len {
        return None;
    }
    while out.len() < len
        invariant
            parts.len() <= out@.len() <= len,
            pv.len() == parts.len(),
            forall|k: int|
                0 <= k < parts.len() ==> out@[k] == #[trigger] parse_unsigned(pv[k], u64::MAX as nat).unwrap() as u64,
            forall|k: int| parts.len() <= k < out@.len() ==> out@[k] == 0u64,
        decreases len - out.len(),
    {
        out.push(0);
    }
    assert(out@ =~= spec_nums(s@, len as nat).unwrap());
    Some(out)
}

/// `s` as exactly `len` dot-separated numbers (missing trailing parts are 0);
/// `None` for more parts or anything non-numeric (`CANARY`, `37.2-beta3`, ...).
pub fn nums(s: &str, len: usize) -> (r: Option<Vec<u64>>)
    ensures
        match spec_nums(s@, len as nat) {
            Some(v) => r matches Some(x) && x@ == v,
            None => r is None,
        },
{
    let cs = chars_of(s);
    nums_of(cs.as_slice(), len)
}

/// A stable API level: `raw` is the id as the index spells it (`36`,
/// `37.0`, ...), `major.minor` its numbers.
#[derive(Debug)]
pub struct ApiLevel {
    pub major: u64,
    pub minor: u64,
    pub raw: String,
}

/// An API level as a value: `(major, minor, raw)`.
pub type LevelView = (u64, u64, Seq<char>);

impl View for ApiLevel {
    type V = LevelView;

    open spec fn view(&self) -> LevelView {
        (self.major, self.minor, self.raw@)
    }
}

pub open spec fn level_views(levels: Seq<ApiLevel>) -> Seq<LevelView> {
    levels.map_values(|l: ApiLevel| l@)
}

/// The order of API levels: by major, then minor, then the raw id.
pub open spec fn level_lt(a: LevelView, b: LevelView) -> bool {
    ||| a.0 < b.0
    ||| (a.0 == b.0 && a.1 < b.1)
    ||| (a.0 == b.0 && a.1 == b.1 && chars_lt(a.2, b.2))
}

/// Newest first: no level comes before a newer one.
pub open spec fn newest_first(ls: Seq<LevelView>) -> bool {
    forall|i: int, j: int| 0 <= i < j < ls.len() ==> !level_lt(#[trigger] ls[i], #[trigger] ls[j])
}

/// The marker that names a platform package in the repository index.
pub open spec fn platform_marker() -> Seq<char> {
    "platforms;android-"@
}

/// The ids that follow each occurrence of `marker` in `x` from position
/// `pos` on, each running up to the next `"`; the scan stops at the first
/// occurrence with no `"` after it.
pub open spec fn ids_from(x: Seq<char>, marker: Seq<char>, pos: int) -> Seq<Seq<char>>
    decreases x.len() + 1 - pos,
{
    if marker.len() == 0 || pos < 0 || pos > x.len() {
        Seq::empty()
    } else {
        match find_from(x, marker, pos) {
            None => Seq::empty(),
            Some(idx) => {
                let a = idx + marker.len();
                match find_from(x, seq!['"'], a) {
                    None => Seq::empty(),
                    Some(end) => {
                        proof {
                            lemma_find_from(x, marker, pos);
                            lemma_find_from(x, seq!['"'], a);
                        }
                        seq![x.subrange(a, end)] + ids_from(x, marker, end)
                    },
                }
            },
        }
    }
}

/// The levels for the ids, in order: an id seen before is skipped, and so
/// is one that is not `major[.minor]` (previews such as `CANARY`).
pub open spec fn stable_levels(ids: Seq<Seq<char>>) -> Seq<LevelView>
    decreases ids.len(),
{
    if ids.len() == 0 {
        Seq::empty()
    } else {
        let prev = stable_levels(ids.drop_last());
        let r = ids.last();
        if ids.drop_last().contains(r) {
            prev
        } else {
            match spec_nums(r, 2) {
                Some(n) => prev.push((n[0], n[1], r)),
                None => prev,
            }
        }
    }
}

/// The stable platform levels named in the index `xml`, in index order.
pub open spec fn spec_platform_levels(xml: Seq<char>) -> Seq<LevelView> {
    stable_levels(ids_from(xml, platform_marker(), 0))
}

/// Whether `r` is one of `list`.
fn contains_chars(list: &Vec<Vec<char>>, r: &[char]) -> (b: bool)
    ensures
        b == list.deep_view().contains(r@),
{
    let mut i: usize = 0;
    while i < list.len()
        invariant
            i <= list.len(),
            forall|k: int| 0 <= k < i ==> list.deep_view()[k] != r@,
        decreases list.len() - i,
    {
        assert(list@[i as int].deep_view() =~= list@[i as int]@);
        if chars_eq(list[i].as_slice(), r) {
            assert(list.deep_view()[i as int] == r@);
            return true;
        }
        i += 1;
    }
    false
}

impl ApiLevel {
    /// The label shown for this level: `API <raw>`.
    pub fn label(&self) -> (s: String)
        ensures
            s@ == "API "@ + self.raw@,
    {
        let mut s = String::from_str("API ");
        s.append(self.raw.as_str());
        s
    }
}

/// Every stable `platforms;android-<level>` package path in Google's SDK
/// repository index, each id once, in index order. A substring scan, not an
/// XML parser: each marker is followed by the id up to the next `"`.
pub fn platform_levels(xml: &str) -> (levels: Vec<ApiLevel>)
    ensures
        level_views(levels@) == spec_platform_levels(xml@),
{
    let x = chars_of(xml);
    let marker = chars_of("platforms;android-");
    let quote: Vec<char> = vec!['"'];
    assert(quote@ =~= seq!['"']);
    let mut seen: Vec<Vec<char>> = Vec::new();
    let mut levels: Vec<ApiLevel> = Vec::new();
    if marker.len() == 0 {
        return levels;
    }
    let mut pos: usize = 0;
    loop
        invariant
            x@ == xml@,
            marker@ == platform_marker(),
            marker@.len() > 0,
            quote@ == seq!['"'],
            pos <= x@.len(),
            ids_from(x@, marker@, 0) == seen.deep_view() + ids_from(x@, marker@, pos as int),
            level_views(levels@) == stable_levels(seen.deep_view()),
        decreases x@.len() + 1 - pos,
    {
        let idx = match find_chars(x.as_slice(), marker.as_slice(), pos) {
            Some(idx) => idx,
            None => {
                assert(seen.deep_view() + ids_from(x@, marker@, pos as int) =~= seen.deep_view());
                return levels;
            },
        };
        proof {
            lemma_find_from(x@, marker@, pos as int);
            assert(find_from(x@, marker@, pos as int) == Some(idx as int));
            assert(idx + marker@.len() <= x@.len());
            assert(idx + marker.len() <= x.len());
        }
        let a = idx + marker.len();
        let end = match find_chars(x.as_slice(), quote.as_slice(), a) {
            Some(end) => end,
            None => {
                assert(seen.deep_view() + ids_from(x@, marker@, pos as int) =~= seen.deep_view());
                return levels;
            },
        };
        proof {
            lemma_find_from(x@, quote@, a as int);
        }
        let raw = slice_chars(x.as_slice(), a, end);
        let ghost old_seen = seen.deep_view();
        let ghost r = raw@;
        assert(ids_from(x@, marker@, pos as int) == seq![r] + ids_from(x@, marker@, end as int));
        let dup = contains_chars(&seen, raw.as_slice());
        let parsed = nums_of(raw.as_slice(), 2);
        let raw_string = string_of(raw.as_slice());
        assert(raw.deep_view() =~= raw@);
        seen.push(raw);
        assert(seen.deep_view() =~= old_seen.push(r));
        assert(seen.deep_view().drop_last() =~= old_seen);
        assert(old_seen + ids_from(x@, marker@, pos as int) =~= seen.deep_view() + ids_from(
            x@,
            marker@,
            end as int,
        ));
        if !dup {
            match parsed {
                Some(n) => {
                    let ghost old_levels = level_views(levels@);
                    levels.push(ApiLevel { major: n[0], minor: n[1], raw: raw_string });
                    assert(level_views(levels@) =~= old_levels.push((n@[0], n@[1], r)));
                },
                None => {},
            }
        }
        pos = end;
    }
}

/// `level_lt` is a strict total order on levels.
pub proof fn lemma_level_lt_order(a: LevelView, b: LevelView, c: LevelView)
    ensures
        !level_lt(a, a),
        level_lt(a, b) ==> !level_lt(b, a),
        level_lt(a, b) && level_lt(b, c) ==> level_lt(a, c),
        a != b ==> level_lt(a, b) || level_lt(b, a),
{
    lemma_chars_lt_asym_total(a.2, b.2);
    if chars_lt(a.2, b.2) && chars_lt(b.2, c.2) {
        lemma_chars_lt_trans(a.2, b.2, c.2);
    }
}

/// `level_lt` on two levels.
pub fn level_less(a: &ApiLevel, b: &ApiLevel) -> (r: bool)
    ensures
        r == level_lt(a@, b@),
{
    if a.major != b.major {
        return a.major < b.major;
    }
    if a.minor != b.minor {
        return a.minor < b.minor;
    }
    let ac = chars_of(a.raw.as_str());
    let bc = chars_of(b.raw.as_str());
    chars_less(ac.as_slice(), bc.as_slice())
}

/// The levels reordered newest first (highest major, then minor, then raw
/// id), as `sort_unstable_by(|a, b| b.cmp(a))` orders them.
pub fn sort_newest_first(levels: Vec<ApiLevel>) -> (sorted: Vec<ApiLevel>)
    ensures
        level_views(sorted@).to_multiset() == level_views(levels@).to_multiset(),
        newest_first(level_views(sorted@)),
{
    let ghost orig = level_views(levels@).to_multiset();
    let mut rest = levels;
    let mut out: Vec<ApiLevel> = Vec::new();
    while rest.len() > 0
        invariant
            level_views(out@).to_multiset().add(level_views(rest@).to_multiset()) == orig,
            newest_first(level_views(out@)),
        decreases rest.len(),
    {
        let ghost old_rest = level_views(rest@);
        let x = rest.pop().unwrap();
        assert(old_rest =~= level_views(rest@).push(x@));
        let ghost s = level_views(out@);
        let mut k: usize = 0;
        while k < out.len() && !level_less(&out[k], &x)
            invariant
                k <= out.len(),
                s == level_views(out@),
                forall|i: int| 0 <= i < k ==> !level_lt(s[i], x@),
            decreases out.len() - k,
        {
            k += 1;
        }
        let ghost xv = x@;
        out.insert(k, x);
        proof {
            let t = level_views(out@);
            assert(t =~= s.insert(k as int, xv));
            assert forall|i: int, j: int| 0 <= i < j < t.len() implies !level_lt(
                #[trigger] t[i],
                #[trigger] t[j],
            ) by {
                if i < k && j == k {
                } else if i == k && j > k {
                    lemma_level_lt_order(s[k as int], xv, s[j - 1]);
                    if j - 1 > k {
                        assert(!level_lt(s[k as int], s[j - 1]));
                    }
                } else if i < k && j > k {
                    assert(t[j] == s[j - 1]);
                    assert(t[i] == s[i]);
                } else if j < k {
                } else {
                    assert(t[i] == s[i - 1]);
                    assert(t[j] == s[j - 1]);
                }
            }
            vstd::seq_lib::to_multiset_insert(s, k as int, xv);
            assert(orig == s.to_multiset().add(level_views(rest@).to_multiset().insert(xv)));
        }
    }
    assert(level_views(rest@).to_multiset() =~= vstd::multiset::Multiset::empty());
    out
}

/// The stable platform levels of the index `xml`, newest first.
pub fn newest_platform_levels(xml: &str) -> (levels: Vec<ApiLevel>)
    ensures
        level_views(levels@).to_multiset() == spec_platform_levels(xml@).to_multiset(),
        newest_first(level_views(levels@)),
{
    sort_newest_first(platform_levels(xml))
}

/// What `stable_levels` keeps of `ids`: each level is an id that parses to
/// its numbers, no id twice, and every id that parses is kept.
proof fn lemma_stable_levels(ids: Seq<Seq<char>>)
    ensures
        ({
            let ls = stable_levels(ids);
            &&& forall|i: int|
                0 <= i < ls.len() ==> ids.contains(#[trigger] ls[i].2) && spec_nums(ls[i].2, 2)
                    == Some(seq![ls[i].0, ls[i].1])
            &&& forall|i: int, j: int| 0 <= i < j < ls.len() ==> #[trigger] ls[i].2 != #[trigger] ls[j].2
            &&& forall|k: int|
                0 <= k < ids.len() && spec_nums(#[trigger] ids[k], 2) is Some ==> exists|i: int|
                    0 <= i < ls.len() && #[trigger] ls[i].2 == ids[k]
        }),
    decreases ids.len(),
{
    if ids.len() > 0 {
        let prev_ids = ids.drop_last();
        lemma_stable_levels(prev_ids);
        let prev = stable_levels(prev_ids);
        let ls = stable_levels(ids);
        let r = ids.last();
        assert forall|i: int| 0 <= i < prev.len() implies ids.contains(#[trigger] prev[i].2) by {
            let k = choose|k: int| 0 <= k < prev_ids.len() && prev_ids[k] == prev[i].2;
            assert(ids[k] == prev[i].2);
        }
        if !prev_ids.contains(r) {
            if let Some(n) = spec_nums(r, 2) {
                assert(ls == prev.push((n[0], n[1], r)));
                assert(n =~= seq![n[0], n[1]]);
                assert(ids[ids.len() - 1] == r);
                assert forall|i: int, j: int| 0 <= i < j < ls.len() implies #[trigger] ls[i].2
                    != #[trigger] ls[j].2 by {
                    if j == ls.len() - 1 {
                        if ls[i].2 == r {
                            let k = choose|k: int| 0 <= k < prev_ids.len() && prev_ids[k] == prev[i].2;
                            assert(prev_ids[k] == r);
                        }
                    }
                }
                assert forall|k: int|
                    0 <= k < ids.len() && spec_nums(#[trigger] ids[k], 2) is Some implies exists|i: int|
                        0 <= i < ls.len() && #[trigger] ls[i].2 == ids[k] by {
                    if k == ids.len() - 1 {
                        assert(ls[ls.len() - 1].2 == ids[k]);
                    } else {
                        assert(prev_ids[k] == ids[k]);
                        let i = choose|i: int| 0 <= i < prev.len() && #[trigger] prev[i].2 == prev_ids[k];
                        assert(ls[i] == prev[i]);
                    }
                }
            } else {
                assert forall|k: int|
                    0 <= k < ids.len() && spec_nums(#[trigger] ids[k], 2) is Some implies exists|i: int|
                        0 <= i < ls.len() && #[trigger] ls[i].2 == ids[k] by {
                    assert(k != ids.len() - 1);
                    assert(prev_ids[k] == ids[k]);
                }
            }
        } else {
            assert forall|k: int|
                0 <= k < ids.len() && spec_nums(#[trigger] ids[k], 2) is Some implies exists|i: int|
                    0 <= i < ls.len() && #[trigger] ls[i].2 == ids[k] by {
                if k == ids.len() - 1 {
                    let k2 = choose|k2: int| 0 <= k2 < prev_ids.len() && prev_ids[k2] == r;
                    assert(spec_nums(prev_ids[k2], 2) is Some);
                } else {
                    assert(prev_ids[k] == ids[k]);
                }
            }
        }
    }
}

/// The index ids the scan reads: what follows each platform marker.
pub open spec fn platform_ids(xml: Seq<char>) -> Seq<Seq<char>> {
    ids_from(xml, platform_marker(), 0)
}

/// Only stable levels, each once: every level listed is an id of the
/// index that reads as `major[.minor]` with exactly its numbers, and no id
/// is listed twice.
pub proof fn law_platform_levels_stable_and_distinct(xml: Seq<char>)
    ensures
        forall|i: int|
            0 <= i < spec_platform_levels(xml).len() ==> platform_ids(xml).contains(
                #[trigger] spec_platform_levels(xml)[i].2,
            ) && spec_nums(spec_platform_levels(xml)[i].2, 2) == Some(
                seq![spec_platform_levels(xml)[i].0, spec_platform_levels(xml)[i].1],
            ),
        forall|i: int, j: int|
            0 <= i < j < spec_platform_levels(xml).len() ==> #[trigger] spec_platform_levels(xml)[i].2
                != #[trigger] spec_platform_levels(xml)[j].2,
{
    lemma_stable_levels(platform_ids(xml));
}

/// Every stable level is listed: an id of the index that reads as
/// `major[.minor]` appears among the levels.
pub proof fn law_every_stable_platform_is_listed(xml: Seq<char>, id: Seq<char>)
    requires
        platform_ids(xml).contains(id),
        spec_nums(id, 2) is Some,
    ensures
        exists|i: int|
            0 <= i < spec_platform_levels(xml).len() && #[trigger] spec_platform_levels(xml)[i].2 == id,
{
    lemma_stable_levels(platform_ids(xml));
    let ids = platform_ids(xml);
    let ls = stable_levels(ids);
    let k = choose|k: int| 0 <= k < ids.len() && ids[k] == id;
    assert(spec_nums(ids[k], 2) is Some);
    let i = choose|i: int| 0 <= i < ls.len() && #[trigger] ls[i].2 == ids[k];
    assert(spec_platform_levels(xml)[i].2 == id);
}

/// Strictly newest first: once levels with distinct ids are put newest
/// first, each is strictly newer than every level after it.
pub proof fn law_newest_first_is_strict(levels: Seq<LevelView>, sorted: Seq<LevelView>)
    requires
        forall|i: int, j: int| 0 <= i < j < levels.len() ==> #[trigger] levels[i].2 != #[trigger] levels[j].2,
        sorted.to_multiset() == levels.to_multiset(),
        newest_first(sorted),
    ensures
        forall|i: int, j: int| 0 <= i < j < sorted.len() ==> level_lt(#[trigger] sorted[j], #[trigger] sorted[i]),
{
    assert forall|i: int, j: int|
        0 <= i < levels.len() && 0 <= j < levels.len() && i != j implies levels[i] != levels[j] by {
        if i < j {
            assert(levels[i].2 != levels[j].2);
        } else {
            assert(levels[j].2 != levels[i].2);
        }
    }
    assert(levels.no_duplicates());
    levels.lemma_multiset_has_no_duplicates();
    sorted.lemma_multiset_has_no_duplicates_conv();
    assert forall|i: int, j: int| 0 <= i < j < sorted.len() implies level_lt(
        #[trigger] sorted[j],
        #[trigger] sorted[i],
    ) by {
        lemma_level_lt_order(sorted[i], sorted[j], sorted[i]);
    }
}

/// The version listing (what `newest_platform_levels` returns): strictly
/// newest first, only stable index ids with their numbers, and every
/// stable index id.
pub proof fn law_version_listing(xml: Seq<char>, listed: Seq<LevelView>)
    requires
        listed.to_multiset() == spec_platform_levels(xml).to_multiset(),
        newest_first(listed),
    ensures
        forall|i: int, j: int| 0 <= i < j < listed.len() ==> level_lt(#[trigger] listed[j], #[trigger] listed[i]),
        forall|i: int|
            0 <= i < listed.len() ==> platform_ids(xml).contains(#[trigger] listed[i].2) && spec_nums(
                listed[i].2,
                2,
            ) == Some(seq![listed[i].0, listed[i].1]),
        forall|id: Seq<char>|
            platform_ids(xml).contains(id) && spec_nums(id, 2) is Some ==> exists|i: int|
                0 <= i < listed.len() && #[trigger] listed[i].2 == id,
{
    let ls = spec_platform_levels(xml);
    law_platform_levels_stable_and_distinct(xml);
    law_newest_first_is_strict(ls, listed);
    assert forall|i: int| 0 <= i < listed.len() implies platform_ids(xml).contains(#[trigger] listed[i].2)
        && spec_nums(listed[i].2, 2) == Some(seq![listed[i].0, listed[i].1]) by {
        vstd::seq_lib::to_multiset_contains(listed, listed[i]);
        vstd::seq_lib::to_multiset_contains(ls, listed[i]);
        assert(listed.contains(listed[i]));
        let k = choose|k: int| 0 <= k < ls.len() && ls[k] == listed[i];
        assert(platform_ids(xml).contains(ls[k].2));
    }
    assert forall|id: Seq<char>| platform_ids(xml).contains(id) && spec_nums(id, 2) is Some implies exists|i: int|
        0 <= i < listed.len() && #[trigger] listed[i].2 == id by {
        law_every_stable_platform_is_listed(xml, id);
        let k = choose|k: int| 0 <= k < ls.len() && #[trigger] ls[k].2 == id;
        vstd::seq_lib::to_multiset_contains(ls, ls[k]);
        vstd::seq_lib::to_multiset_contains(listed, ls[k]);
        assert(ls.contains(ls[k]));
        let i = choose|i: int| 0 <= i < listed.len() && listed[i] == ls[k];
        assert(listed[i].2 == id);
    }
}

/// Numbers written in decimal and joined with `.`.
pub open spec fn joined_decimals(v: Seq<u64>) -> Seq<char>
    decreases v.len(),
{
    if v.len() == 0 {
        Seq::empty()
    } else if v.len() == 1 {
        decimal(v[0] as nat)
    } else {
        joined_decimals(v.drop_last()) + seq!['.'] + decimal(v.last() as nat)
    }
}

proof fn lemma_decimal_without_dot(n: nat)
    ensures
        !decimal(n).contains('.'),
{
    lemma_decimal_digits(n);
    if decimal(n).contains('.') {
        let k = choose|k: int| 0 <= k < decimal(n).len() && decimal(n)[k] == '.';
        assert(is_digit(decimal(n)[k]));
    }
}

proof fn lemma_split_joined_decimals(v: Seq<u64>)
    requires
        v.len() >= 1,
    ensures
        split_char(joined_decimals(v), '.') == v.map_values(|x: u64| decimal(x as nat)),
    decreases v.len(),
{
    let e = Seq::<char>::empty();
    if v.len() == 1 {
        let d = decimal(v[0] as nat);
        lemma_decimal_without_dot(v[0] as nat);
        lemma_split_char_append(e, d, '.');
        assert(e + d =~= d);
        assert(split_char(e, '.') =~= seq![e]);
        assert(e + d =~= d);
        assert(split_char(d, '.') =~= v.map_values(|x: u64| decimal(x as nat)));
    } else {
        let p = v.drop_last();
        let x = joined_decimals(p);
        let d = decimal(v.last() as nat);
        lemma_split_joined_decimals(p);
        lemma_decimal_without_dot(v.last() as nat);
        let dot = seq!['.'];
        assert((x + dot).drop_last() =~= x);
        assert((x + dot).last() == '.');
        let sx = split_char(x, '.');
        assert(split_char(x + dot, '.') == sx.push(e));
        lemma_split_char_append(x + dot, d, '.');
        assert(e + d =~= d);
        assert(split_char(x + dot + d, '.') =~= sx.push(d));
        assert(joined_decimals(v) == x + dot + d);
        assert(sx.push(d) =~= v.map_values(|y: u64| decimal(y as nat)));
    }
}

/// `nums` undoes joining numbers with `.`, up to the zero padding: for one
/// to `len` numbers, their decimals joined with `.` read back as the
/// numbers followed by zeros up to `len`.
pub proof fn law_nums_reads_joined_decimals(v: Seq<u64>, len: nat)
    requires
        1 <= v.len() <= len,
    ensures
        spec_nums(joined_decimals(v), len) == Some(v + Seq::new((len - v.len()) as nat, |i: int| 0u64)),
{
    lemma_split_joined_decimals(v);
    let parts = split_char(joined_decimals(v), '.');
    assert forall|i: int| 0 <= i < parts.len() implies #[trigger] parse_unsigned(parts[i], u64::MAX as nat)
        == Some(v[i] as nat) by {
        lemma_parse_decimal(v[i] as nat, u64::MAX as nat);
    }
    assert(spec_nums(joined_decimals(v), len).unwrap() =~= v + Seq::new(
        (len - v.len()) as nat,
        |i: int| 0u64,
    ));
}

/// Scanning `x` behind a prefix `y` is scanning `x`.
proof fn lemma_ids_from_shift(y: Seq<char>, x: Seq<char>, m: Seq<char>, k: int)
    requires
        0 <= k <= x.len(),
    ensures
        ids_from(y + x, m, y.len() + k) == ids_from(x, m, k),
    decreases x.len() + 1 - k,
{
    let h = y + x;
    if m.len() > 0 {
        lemma_find_from_shift(y, x, m, k);
        lemma_find_from(x, m, k);
        match find_from(x, m, k) {
            None => {},
            Some(idx) => {
                let a = idx + m.len();
                lemma_find_from_shift(y, x, seq!['"'], a);
                lemma_find_from(x, seq!['"'], a);
                match find_from(x, seq!['"'], a) {
                    None => {},
                    Some(end) => {
                        assert(h.subrange(y.len() + a, y.len() + end) =~= x.subrange(a, end));
                        lemma_ids_from_shift(y, x, m, end);
                        assert(y.len() + idx + m.len() == y.len() + a);
                    },
                }
            },
        }
    }
}

/// A marker that does not begin with a quote is not found at a quote: the
/// scan resumed at the closing quote of an id goes on just after it.
proof fn lemma_ids_from_at_quote(h: Seq<char>, m: Seq<char>, q: int)
    requires
        0 <= q < h.len(),
        h[q] == '"',
        m.len() > 0,
        m[0] != '"',
    ensures
        ids_from(h, m, q) == ids_from(h, m, q + 1),
{
    if occurs_at(h, m, q) {
        assert(h.subrange(q, q + m.len())[0] == h[q]);
    }
    assert(find_from(h, m, q) == find_from(h, m, q + 1));
}

/// Each entry `platforms;android-<id>"` is scanned, whatever the id, and
/// the scan goes on behind it: the ids of an index that starts with such an
/// entry are its id followed by the ids of the rest.
pub proof fn law_entry_then_rest(id: Seq<char>, rest: Seq<char>)
    requires
        !id.contains('"'),
    ensures
        platform_ids(platform_marker() + id + seq!['"'] + rest) == seq![id] + platform_ids(rest),
{
    let m = platform_marker();
    let q = seq!['"'];
    let y = m + id + q;
    let h = y + rest;
    reveal_strlit("platforms;android-");
    assert(m[0] == 'p');
    assert(h.subrange(0, m.len() as int) =~= m);
    lemma_find_from_first(h, m, 0, 0);
    let a = m.len() as int;
    let end = (m.len() + id.len()) as int;
    assert(h.subrange(end, end + 1) =~= q);
    assert forall|j: int| a <= j < end implies !occurs_at(h, q, j) by {
        if occurs_at(h, q, j) {
            assert(h.subrange(j, j + 1)[0] == h[j]);
            assert(h[j] == id[j - a]);
            assert(id.contains('"'));
        }
    }
    lemma_find_from_first(h, q, a, end);
    assert(h.subrange(a, end) =~= id);
    assert(ids_from(h, m, 0) == seq![id] + ids_from(h, m, end));
    assert(h[end] == '"');
    lemma_ids_from_at_quote(h, m, end);
    lemma_ids_from_shift(y, rest, m, 0);
    assert(y.len() + 0 == end + 1);
}

/// An id that does not read as a level changes nothing in front of others.
proof fn lemma_stable_levels_skip_front(r: Seq<char>, ids: Seq<Seq<char>>)
    requires
        spec_nums(r, 2) is None,
    ensures
        stable_levels(seq![r] + ids) == stable_levels(ids),
    decreases ids.len(),
{
    if ids.len() == 0 {
        assert(seq![r] + ids =~= seq![r]);
        assert(seq![r].drop_last() =~= Seq::<Seq<char>>::empty());
        assert(seq![r].last() == r);
        assert(stable_levels(seq![r]) == stable_levels(Seq::<Seq<char>>::empty()));
    } else {
        let all = seq![r] + ids;
        let p = ids.drop_last();
        lemma_stable_levels_skip_front(r, p);
        assert(all.drop_last() =~= seq![r] + p);
        assert(all.last() == ids.last());
        let x = ids.last();
        if spec_nums(x, 2) is Some {
            assert((seq![r] + p).contains(x) == p.contains(x)) by {
                if (seq![r] + p).contains(x) {
                    let k = choose|k: int| 0 <= k < (seq![r] + p).len() && (seq![r] + p)[k] == x;
                    if k == 0 {
                        assert(x == r);
                    } else {
                        assert(p[k - 1] == x);
                    }
                }
                if p.contains(x) {
                    let k = choose|k: int| 0 <= k < p.len() && p[k] == x;
                    assert((seq![r] + p)[k + 1] == x);
                }
            }
        }
    }
}

/// A preview entry in front of an index takes no stable level away: the
/// levels of `platforms;android-<id>"` followed by `rest`, for an id that
/// is not `major[.minor]`, are the levels of `rest`.
pub proof fn law_preview_in_front_changes_nothing(id: Seq<char>, rest: Seq<char>)
    requires
        !id.contains('"'),
        spec_nums(id, 2) is None,
    ensures
        spec_platform_levels(platform_marker() + id + seq!['"'] + rest) == spec_platform_levels(rest),
{
    law_entry_then_rest(id, rest);
    lemma_stable_levels_skip_front(id, platform_ids(rest));
}

} // verus!
