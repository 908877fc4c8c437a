//! The text forms in which a raylet is handed its resources and labels on
//! the command line: a JSON object of string labels, comma-separated
//! `key:value` pairs, and the flat `key,value,key,value` resource list.
//!
//! Resource quantities are floating-point text; turning that text into
//! numbers is left to the caller, so this module hands out the fields as
//! strings.

use vstd::prelude::*;
use vstd::string::StrSliceExecFns;
use vstd::string::StringExecFns;

use crate::str_map::map_of;
use crate::str_map::LabelMap;
use crate::str_map::StrMap;

verus! {

/// Whether `c` has the Unicode `White_Space` property, which is what
/// `str::trim` strips.
pub open spec fn is_white_space(c: char) -> bool {
    let n = c as u32;
    ||| 0x9 <= n <= 0xd
    ||| n == 0x20
    ||| n == 0x85
    ||| n == 0xa0
    ||| n == 0x1680
    ||| 0x2000 <= n <= 0x200a
    ||| n == 0x2028
    ||| n == 0x2029
    ||| n == 0x202f
    ||| n == 0x205f
    ||| n == 0x3000
}

/// `s` without its leading white space.
pub open spec fn trim_start_spec(s: Seq<char>) -> Seq<char>
    decreases s.len(),
{
    if s.len() > 0 && is_white_space(s[0]) {
        trim_start_spec(s.drop_first())
    } else {
        s
    }
}

/// `s` without its trailing white space.
pub open spec fn trim_end_spec(s: Seq<char>) -> Seq<char>
    decreases s.len(),
{
    if s.len() > 0 && is_white_space(s.last()) {
        trim_end_spec(s.drop_last())
    } else {
        s
    }
}

/// `s` without leading or trailing white space.
pub open spec fn trim_spec(s: Seq<char>) -> Seq<char> {
    trim_end_spec(trim_start_spec(s))
}

/// The pieces of `s` between commas, in order; `s` without a comma is one
/// piece, and the empty text is one empty piece.
pub open spec fn split_commas(s: Seq<char>) -> Seq<Seq<char>>
    decreases s.len(),
{
    if s.len() == 0 {
        seq![Seq::empty()]
    } else {
        let rest = split_commas(s.drop_last());
        if s.last() == ',' {
            rest.push(Seq::empty())
        } else {
            rest.update(rest.len() - 1, rest.last().push(s.last()))
        }
    }
}

/// The position of the first `c` in `s`, or -1.
pub open spec fn first_index_of(s: Seq<char>, c: char) -> int
    decreases s.len(),
{
    if s.len() == 0 {
        -1
    } else if s[0] == c {
        0
    } else {
        let r = first_index_of(s.drop_first(), c);
        if r < 0 {
            -1
        } else {
            r + 1
        }
    }
}

/// A `key:value` piece split at its first colon, both halves trimmed; a
/// piece without a colon gives nothing.
pub open spec fn colon_pair(p: Seq<char>) -> Option<(Seq<char>, Seq<char>)> {
    let k = first_index_of(p, ':');
    if k < 0 {
        None
    } else {
        Some((trim_spec(p.subrange(0, k)), trim_spec(p.subrange(k + 1, p.len() as int))))
    }
}

/// The pairs of the pieces that hold a colon, in order.
pub open spec fn colon_pairs_of(ps: Seq<Seq<char>>) -> Seq<(Seq<char>, Seq<char>)>
    decreases ps.len(),
{
    if ps.len() == 0 {
        Seq::empty()
    } else {
        let front = colon_pairs_of(ps.drop_last());
        match colon_pair(ps.last()) {
            Some(kv) => front.push(kv),
            None => front,
        }
    }
}

/// The `key:value` pairs of comma-separated text, in order.
pub open spec fn colon_pairs_spec(s: Seq<char>) -> Seq<(Seq<char>, Seq<char>)> {
    colon_pairs_of(split_commas(s))
}

/// The trimmed pieces that are not empty, in order.
pub open spec fn nonempty_trimmed(ps: Seq<Seq<char>>) -> Seq<Seq<char>>
    decreases ps.len(),
{
    if ps.len() == 0 {
        Seq::empty()
    } else {
        let front = nonempty_trimmed(ps.drop_last());
        let t = trim_spec(ps.last());
        if t.len() == 0 {
            front
        } else {
            front.push(t)
        }
    }
}

/// The fields of a comma-separated list: each piece trimmed, empty ones
/// dropped.
pub open spec fn fields_spec(s: Seq<char>) -> Seq<Seq<char>> {
    nonempty_trimmed(split_commas(s))
}

/// Whether a `char` has the Unicode `White_Space` property.
pub fn white_space(c: char) -> (b: bool)
    ensures
        b == is_white_space(c),
{
    let n = c as u32;
    (0x9 <= n && n <= 0xd) || n == 0x20 || n == 0x85 || n == 0xa0 || n == 0x1680 || (0x2000 <= n
        && n <= 0x200a) || n == 0x2028 || n == 0x2029 || n == 0x202f || n == 0x205f || n == 0x3000
}

proof fn lemma_trim_start_step(s: Seq<char>, a: int)
    requires
        0 <= a < s.len(),
        is_white_space(s[a]),
    ensures
        trim_start_spec(s.subrange(a, s.len() as int)) == trim_start_spec(
            s.subrange(a + 1, s.len() as int),
        ),
{
    assert(s.subrange(a, s.len() as int).drop_first() =~= s.subrange(a + 1, s.len() as int));
}

proof fn lemma_trim_end_step(s: Seq<char>, a: int, b: int)
    requires
        0 <= a < b <= s.len(),
        is_white_space(s[b - 1]),
    ensures
        trim_end_spec(s.subrange(a, b)) == trim_end_spec(s.subrange(a, b - 1)),
{
    assert(s.subrange(a, b).drop_last() =~= s.subrange(a, b - 1));
}

/// `s` without leading or trailing white space.
pub fn trim(s: &str) -> (r: &str)
    ensures
        r@ == trim_spec(s@),
{
    let n = s.unicode_len();
    let mut a: usize = 0;
    assert(s@.subrange(0, n as int) =~= s@);
    while a < n && white_space(s.get_char(a))
        invariant
            n == s@.len(),
            a <= n,
            trim_start_spec(s@) == trim_start_spec(s@.subrange(a as int, n as int)),
        decreases n - a,
    {
        proof {
            lemma_trim_start_step(s@, a as int);
        }
        a = a + 1;
    }
    assert(trim_start_spec(s@.subrange(a as int, n as int)) == s@.subrange(a as int, n as int));
    let mut b: usize = n;
    while b > a && white_space(s.get_char(b - 1))
        invariant
            n == s@.len(),
            a <= b <= n,
            trim_spec(s@) == trim_end_spec(s@.subrange(a as int, b as int)),
        decreases b - a,
    {
        proof {
            lemma_trim_end_step(s@, a as int, b as int);
        }
        b = b - 1;
    }
    s.substring_char(a, b)
}

proof fn lemma_split_step(s: Seq<char>, i: int)
    requires
        0 <= i < s.len(),
    ensures
        split_commas(s.subrange(0, i + 1)) == (if s[i] == ',' {
            split_commas(s.subrange(0, i)).push(Seq::empty())
        } else {
            split_commas(s.subrange(0, i)).update(
                split_commas(s.subrange(0, i)).len() - 1,
                split_commas(s.subrange(0, i)).last().push(s[i]),
            )
        }),
{
    assert(s.subrange(0, i + 1).drop_last() =~= s.subrange(0, i));
}

/// The pieces of `s` between commas, in order.
pub fn split_at_commas(s: &str) -> (r: Vec<String>)
    ensures
        r.deep_view() == split_commas(s@),
{
    let n = s.unicode_len();
    let mut pieces: Vec<String> = Vec::new();
    let mut start: usize = 0;
    let mut i: usize = 0;
    assert(pieces.deep_view() =~= Seq::<Seq<char>>::empty());
    assert(s@.subrange(0, 0) =~= Seq::<char>::empty());
    assert(pieces.deep_view().push(s@.subrange(0, 0)) =~= split_commas(s@.subrange(0, 0)));
    while i < n
        invariant
            n == s@.len(),
            start <= i <= n,
            pieces.deep_view().push(s@.subrange(start as int, i as int)) == split_commas(
                s@.subrange(0, i as int),
            ),
        decreases n - i,
    {
        proof {
            lemma_split_step(s@, i as int);
        }
        let ghost before = pieces.deep_view();
        if s.get_char(i) == ',' {
            let piece = String::from_str(s.substring_char(start, i));
            pieces.push(piece);
            assert(pieces.deep_view() =~= before.push(s@.subrange(start as int, i as int)));
            assert(s@.subrange(i + 1, i + 1) =~= Seq::<char>::empty());
            start = i + 1;
        } else {
            assert(s@.subrange(start as int, i + 1) =~= s@.subrange(start as int, i as int).push(
                s@[i as int],
            ));
            assert(before.push(s@.subrange(start as int, i + 1)) =~= before.push(
                s@.subrange(start as int, i as int),
            ).update(before.len() as int, s@.subrange(start as int, i as int).push(s@[i as int])));
        }
        i = i + 1;
    }
    let last = String::from_str(s.substring_char(start, n));
    let ghost before = pieces.deep_view();
    pieces.push(last);
    assert(pieces.deep_view() =~= before.push(s@.subrange(start as int, n as int)));
    assert(s@.subrange(0, n as int) =~= s@);
    pieces
}

proof fn lemma_first_index_at(s: Seq<char>, c: char, k: int)
    requires
        0 <= k < s.len(),
        s[k] == c,
        forall|j: int| 0 <= j < k ==> s[j] != c,
    ensures
        first_index_of(s, c) == k,
    decreases k,
{
    if k > 0 {
        lemma_first_index_at(s.drop_first(), c, k - 1);
    }
}

proof fn lemma_first_index_none(s: Seq<char>, c: char)
    requires
        forall|j: int| 0 <= j < s.len() ==> s[j] != c,
    ensures
        first_index_of(s, c) == -1,
    decreases s.len(),
{
    if s.len() > 0 {
        lemma_first_index_none(s.drop_first(), c);
    }
}

/// A `key:value` piece split at its first colon, both halves trimmed.
pub fn split_colon_pair(piece: &str) -> (r: Option<(String, String)>)
    ensures
        r.deep_view() == colon_pair(piece@),
{
    let n = piece.unicode_len();
    let mut k: usize = 0;
    while k < n && piece.get_char(k) != ':'
        invariant
            n == piece@.len(),
            k <= n,
            forall|j: int| 0 <= j < k ==> piece@[j] != ':',
        decreases n - k,
    {
        k = k + 1;
    }
    if k == n {
        proof {
            lemma_first_index_none(piece@, ':');
        }
        None
    } else {
        proof {
            lemma_first_index_at(piece@, ':', k as int);
        }
        let key = String::from_str(trim(piece.substring_char(0, k)));
        let value = String::from_str(trim(piece.substring_char(k + 1, n)));
        Some((key, value))
    }
}

/// The `key:value` pairs of comma-separated text, in order: each piece
/// is split at its first colon and both halves are trimmed; a piece
/// without a colon is skipped.
pub fn colon_pairs(s: &str) -> (r: Vec<(String, String)>)
    ensures
        r.deep_view() == colon_pairs_spec(s@),
{
    let pieces = split_at_commas(s);
    let ghost ps = pieces.deep_view();
    let mut out: Vec<(String, String)> = Vec::new();
    let mut j: usize = 0;
    assert(ps.subrange(0, 0) =~= Seq::<Seq<char>>::empty());
    while j < pieces.len()
        invariant
            ps == pieces.deep_view(),
            j <= pieces.len(),
            out.deep_view() == colon_pairs_of(ps.subrange(0, j as int)),
        decreases pieces.len() - j,
    {
        assert(ps.subrange(0, j + 1).drop_last() =~= ps.subrange(0, j as int));
        let ghost before = out.deep_view();
        match split_colon_pair(pieces[j].as_str()) {
            Some(kv) => {
                out.push(kv);
                assert(out.deep_view() =~= before.push(colon_pair(ps[j as int])->0));
            },
            None => {},
        }
        j = j + 1;
    }
    assert(ps.subrange(0, pieces.len() as int) =~= ps);
    out
}

/// The fields of a comma-separated list: each piece trimmed, empty ones
/// dropped.
pub fn resource_fields(s: &str) -> (r: Vec<String>)
    ensures
        r.deep_view() == fields_spec(s@),
{
    let pieces = split_at_commas(s);
    let ghost ps = pieces.deep_view();
    let mut out: Vec<String> = Vec::new();
    let mut j: usize = 0;
    assert(ps.subrange(0, 0) =~= Seq::<Seq<char>>::empty());
    while j < pieces.len()
        invariant
            ps == pieces.deep_view(),
            j <= pieces.len(),
            out.deep_view() == nonempty_trimmed(ps.subrange(0, j as int)),
        decreases pieces.len() - j,
    {
        assert(ps.subrange(0, j + 1).drop_last() =~= ps.subrange(0, j as int));
        let ghost before = out.deep_view();
        let t = trim(pieces[j].as_str());
        if t.unicode_len() > 0 {
            out.push(String::from_str(t));
            assert(out.deep_view() =~= before.push(trim_spec(ps[j as int])));
        }
        j = j + 1;
    }
    assert(ps.subrange(0, pieces.len() as int) =~= ps);
    out
}

/// The fields of a flat list taken two at a time as `(key, value)`, where
/// there are at least two fields and an even number of them.
pub open spec fn field_pairs_spec(f: Seq<Seq<char>>) -> Option<Seq<(Seq<char>, Seq<char>)>> {
    if f.len() >= 2 && f.len() % 2 == 0 {
        Some(Seq::new(f.len() / 2, |i: int| (f[2 * i], f[2 * i + 1])))
    } else {
        None
    }
}

/// The fields of a flat `key,value,key,value` list taken two at a time,
/// where the list has at least two fields and an even number of them.
pub fn resource_field_pairs(s: &str) -> (r: Option<Vec<(String, String)>>)
    ensures
        r.deep_view() == field_pairs_spec(fields_spec(s@)),
{
    let fields = resource_fields(s);
    let ghost f = fields.deep_view();
    let n = fields.len();
    if n < 2 || n % 2 != 0 {
        return None;
    }
    let half = n / 2;
    let mut out: Vec<(String, String)> = Vec::new();
    let mut i: usize = 0;
    while i < half
        invariant
            f == fields.deep_view(),
            n == fields.len(),
            half == n / 2,
            n % 2 == 0,
            i <= half,
            out.deep_view() =~= Seq::new(i as nat, |j: int| (f[2 * j], f[2 * j + 1])),
        decreases half - i,
    {
        let ghost before = out.deep_view();
        let key = String::from_str(fields[2 * i].as_str());
        let value = String::from_str(fields[2 * i + 1].as_str());
        out.push((key, value));
        assert(out.deep_view() =~= before.push((f[2 * i as int], f[2 * i + 1])));
        i = i + 1;
    }
    Some(out)
}

/// The label map of a sequence of pairs, a later pair for a key replacing
/// an earlier one.
pub fn label_map_of(pairs: &Vec<(String, String)>) -> (r: LabelMap)
    ensures
        r@ == map_of(pairs.deep_view()),
{
    let ghost ps = pairs.deep_view();
    let mut m: LabelMap = StrMap::new();
    let mut j: usize = 0;
    assert(ps.subrange(0, 0) =~= Seq::<(Seq<char>, Seq<char>)>::empty());
    while j < pairs.len()
        invariant
            ps == pairs.deep_view(),
            j <= pairs.len(),
            m@ == map_of(ps.subrange(0, j as int)),
        decreases pairs.len() - j,
    {
        assert(ps.subrange(0, j + 1).drop_last() =~= ps.subrange(0, j as int));
        let key = String::from_str(pairs[j].0.as_str());
        let value = String::from_str(pairs[j].1.as_str());
        m.insert(key, value);
        j = j + 1;
    }
    assert(ps.subrange(0, pairs.len() as int) =~= ps);
    m
}

/// The labels of `s` given the entries that a JSON parse of `s` gave, if
/// any: those entries where there are some; otherwise the `key:value`
/// pairs of `s`. Either way a later entry for a key replaces an earlier one.
pub open spec fn labels_spec(
    s: Seq<char>,
    json: Option<Seq<(Seq<char>, Seq<char>)>>,
) -> Map<Seq<char>, Seq<char>> {
    match json {
        Some(entries) => map_of(entries),
        None => map_of(colon_pairs_spec(s)),
    }
}

/// The labels of `s`, given the entries of `s` read as a JSON object of
/// strings where it is one (`None` where it is not).
pub fn labels_from_json_outcome(s: &str, json: Option<Vec<(String, String)>>) -> (r: LabelMap)
    ensures
        r@ == labels_spec(s@, json.deep_view()),
{
    match json {
        Some(entries) => label_map_of(&entries),
        None => label_map_of(&colon_pairs(s)),
    }
}

#[verifier::external_type_specification]
#[verifier::external_body]
pub struct ExJsonError(serde_json::Error);

/// The entries of `text` read as a JSON object whose values are all
/// strings, in key order; `None` where `text` is not such an object.
pub uninterp spec fn json_string_entries(text: Seq<char>) -> Option<Seq<(Seq<char>, Seq<char>)>>;

/// Reads `text` with `serde_json::from_str` into a
/// `BTreeMap<String, String>` and hands out its entries, which a `BTreeMap`
/// yields in key order. The contract claims only that the outcome is a
/// function of `text`: the entries on success, an error otherwise.
#[verifier::external_body]
fn parse_json_string_object(text: &str) -> (r: Result<Vec<(String, String)>, serde_json::Error>)
    ensures
        match r {
            Ok(v) => json_string_entries(text@) == Some(v.deep_view()),
            Err(_) => json_string_entries(text@) is None,
        },
{
    match serde_json::from_str::<std::collections::BTreeMap<String, String>>(text) {
        Ok(map) => Ok(map.into_iter().collect()),
        Err(e) => Err(e),
    }
}

/// The labels given on the command line: nothing for empty text; the
/// entries of a JSON object of strings; otherwise comma-separated
/// `key:value` pairs.
pub fn parse_label_pairs(s: &str) -> (r: LabelMap)
    ensures
        s@.len() == 0 ==> r@ == Map::<Seq<char>, Seq<char>>::empty(),
        s@.len() > 0 ==> r@ == labels_spec(s@, json_string_entries(s@)),
{
    if s.is_empty() {
        return StrMap::new();
    }
    let outcome = match parse_json_string_object(s) {
        Ok(entries) => Some(entries),
        Err(_) => None,
    };
    labels_from_json_outcome(s, outcome)
}

} // verus!
