//! Host and port addresses written as `host:port`, with IPv6 hosts in
//! brackets, and the names of the files that record a node's ports.

use vstd::prelude::*;
use vstd::string::StrSliceExecFns;
use vstd::string::StringExecFns;

use crate::str_map::LabelMap;

verus! {

/// Whether the characters of `s` include `c`.
pub open spec fn has_char(s: Seq<char>, c: char) -> bool {
    exists|i: int| 0 <= i < s.len() && s[i] == c
}

/// Whether `s` begins with `c`.
pub open spec fn starts_with_char(s: Seq<char>, c: char) -> bool {
    s.len() > 0 && s[0] == c
}

/// The address of a host and port: a host that holds a colon and is not in
/// brackets yet is put in brackets.
pub open spec fn build_address_spec(host: Seq<char>, port: Seq<char>) -> Seq<char> {
    if has_char(host, ':') && !starts_with_char(host, '[') {
        seq!['['] + host + seq![']', ':'] + port
    } else {
        host + seq![':'] + port
    }
}

/// The first position from `i` on where `a` is directly followed by `b`, or
/// -1.
pub open spec fn first_pair_from(s: Seq<char>, a: char, b: char, i: int) -> int
    decreases s.len() - i,
{
    if i < 0 || i + 1 >= s.len() {
        -1
    } else if s[i] == a && s[i + 1] == b {
        i
    } else {
        first_pair_from(s, a, b, i + 1)
    }
}

/// The last position of `c`, or -1.
pub open spec fn last_index_of(s: Seq<char>, c: char) -> int
    decreases s.len(),
{
    if s.len() == 0 {
        -1
    } else if s.last() == c {
        s.len() - 1
    } else {
        last_index_of(s.drop_last(), c)
    }
}

/// The host and port of an address. A bracketed address splits at the first
/// `]:` after the bracket; any other splits at its last colon, and is refused
/// where the host would still hold a colon.
pub open spec fn parse_address_spec(a: Seq<char>) -> Option<(Seq<char>, Seq<char>)> {
    if starts_with_char(a, '[') {
        let rest = a.drop_first();
        let i = first_pair_from(rest, ']', ':', 0);
        if i < 0 {
            None
        } else {
            Some((rest.subrange(0, i), rest.subrange(i + 2, rest.len() as int)))
        }
    } else {
        let j = last_index_of(a, ':');
        if j < 0 {
            None
        } else if has_char(a.subrange(0, j), ':') {
            None
        } else {
            Some((a.subrange(0, j), a.subrange(j + 1, a.len() as int)))
        }
    }
}

/// Whether `s` holds the character `c`.
fn contains_char(s: &str, c: char) -> (b: bool)
    ensures
        b == has_char(s@, c),
{
    let n = s.unicode_len();
    let mut i: usize = 0;
    while i < n
        invariant
            n == s@.len(),
            i <= n,
            forall|j: int| 0 <= j < i ==> s@[j] != c,
        decreases n - i,
    {
        if s.get_char(i) == c {
            return true;
        }
        i = i + 1;
    }
    false
}

/// The address of a host and port.
pub fn build_address(host: &str, port: &str) -> (r: String)
    ensures
        r@ == build_address_spec(host@, port@),
{
    let bracketed = contains_char(host, ':') && !(host.unicode_len() > 0 && host.get_char(0) == '[');
    proof {
        reveal_strlit("[");
        reveal_strlit("]:");
        reveal_strlit(":");
    }
    if bracketed {
        let mut r = String::from_str("[");
        r.append(host);
        r.append("]:");
        r.append(port);
        assert(r@ =~= build_address_spec(host@, port@));
        r
    } else {
        let mut r = String::from_str(host);
        r.append(":");
        r.append(port);
        assert(r@ =~= build_address_spec(host@, port@));
        r
    }
}

/// The host and port of an address, or none where it has no port or its
/// host holds a colon outside brackets.
pub fn parse_address(address: &str) -> (r: Option<(String, String)>)
    ensures
        match r {
            Some((h, p)) => parse_address_spec(address@) == Some((h@, p@)),
            None => parse_address_spec(address@) is None,
        },
{
    let n = address.unicode_len();
    let ghost a = address@;
    let bracketed = n > 0 && address.get_char(0) == '[';
    assert(bracketed == starts_with_char(a, '['));
    if bracketed {
        let rest = address.substring_char(1, n);
        let m = n - 1;
        assert(rest@ =~= a.drop_first());
        let mut i: usize = 0;
        while i < m
            invariant
                m == rest@.len(),
                i <= m,
                starts_with_char(a, '['),
                a == address@,
                rest@ == a.drop_first(),
                first_pair_from(rest@, ']', ':', 0) == first_pair_from(rest@, ']', ':', i as int),
            decreases m - i,
        {
            if i + 1 < m && rest.get_char(i) == ']' && rest.get_char(i + 1) == ':' {
                let host = rest.substring_char(0, i).to_owned();
                let port = rest.substring_char(i + 2, m).to_owned();
                assert(first_pair_from(rest@, ']', ':', i as int) == i);
                assert(starts_with_char(a, '['));
                assert(host@ == rest@.subrange(0, i as int));
                return Some((host, port));
            }
            i = i + 1;
        }
        assert(first_pair_from(rest@, ']', ':', m as int) == -1);
        None
    } else {
        let mut j = n;
        assert(a.subrange(0, n as int) =~= a);
        while j > 0
            invariant
                n == a.len(),
                a == address@,
                !starts_with_char(a, '['),
                j <= n,
                last_index_of(a, ':') == last_index_of(a.subrange(0, j as int), ':'),
            decreases j,
        {
            let ghost pre = a.subrange(0, j as int);
            assert(pre.drop_last() =~= a.subrange(0, j - 1));
            if address.get_char(j - 1) == ':' {
                assert(pre.last() == ':');
                assert(last_index_of(a, ':') == j - 1);
                assert(!starts_with_char(a, '['));
                let host = address.substring_char(0, j - 1);
                if contains_char(host, ':') {
                    return None;
                }
                let port = address.substring_char(j, n);
                return Some((host.to_owned(), port.to_owned()));
            }
            j = j - 1;
        }
        None
    }
}

/// The name of the file that records a node's port of the given name:
/// `{port_name}_{node_id}`.
pub fn get_port_filename(node_id: &str, port_name: &str) -> (r: String)
    ensures
        r@ == port_name@ + seq!['_'] + node_id@,
{
    proof {
        reveal_strlit("_");
    }
    let mut r = String::from_str(port_name);
    r.append("_");
    r.append(node_id);
    r
}

/// Whether the node's labels hold every label of the selector with the same
/// value.
pub fn node_labels_match_selector(node_labels: &LabelMap, selector: &LabelMap) -> (b: bool)
    ensures
        b == forall|k: Seq<char>| #[trigger] selector@.contains_key(k) ==> node_labels@.contains_key(k)
            && node_labels@[k] == selector@[k],
{
    let n = selector.len();
    proof {
        selector.lemma_keys();
    }
    let mut i: usize = 0;
    while i < n
        invariant
            n == selector.key_seq().len(),
            i <= n,
            forall|j: int| 0 <= j < n ==> selector@.contains_key(#[trigger] selector.key_seq()[j]),
            forall|j: int| 0 <= j < i ==> node_labels@.contains_key(#[trigger] selector.key_seq()[j])
                && node_labels@[selector.key_seq()[j]] == selector@[selector.key_seq()[j]],
        decreases n - i,
    {
        let key = selector.key_at(i);
        let want = selector.value_at(i);
        match node_labels.get(key.as_str()) {
            Some(have) => {
                if *have != *want {
                    return false;
                }
            },
            None => {
                return false;
            },
        }
        i = i + 1;
    }
    proof {
        selector.lemma_keys();
        assert forall|k: Seq<char>| #[trigger] selector@.contains_key(k) implies node_labels@.contains_key(k)
            && node_labels@[k] == selector@[k] by {
            let j = choose|j: int| 0 <= j < selector.key_seq().len() && selector.key_seq()[j] == k;
            assert(selector@.contains_key(selector.key_seq()[j]));
        }
    }
    true
}

/// Without a pair in `[i, k)`, the search from `i` finds what the search
/// from `k` finds.
proof fn lemma_first_pair_skip(s: Seq<char>, a: char, b: char, i: int, k: int)
    requires
        0 <= i <= k,
        forall|j: int| i <= j < k && j + 1 < s.len() ==> !(#[trigger] s[j] == a && s[j + 1] == b),
    ensures
        first_pair_from(s, a, b, i) == first_pair_from(s, a, b, k) || (first_pair_from(s, a, b, i) == -1
            && k + 1 >= s.len()),
    decreases k - i,
{
    if i < k && i + 1 < s.len() {
        lemma_first_pair_skip(s, a, b, i + 1, k);
    }
    if i < k && i + 1 >= s.len() {
        assert(first_pair_from(s, a, b, i) == -1);
        lemma_first_pair_tail(s, a, b, k);
    }
}

/// Past the end there is no pair.
proof fn lemma_first_pair_tail(s: Seq<char>, a: char, b: char, k: int)
    requires
        k + 1 >= s.len(),
    ensures
        first_pair_from(s, a, b, k) == -1,
{
}

/// With no pair found from `i`, no position from `i` on holds one.
proof fn lemma_first_pair_none(s: Seq<char>, a: char, b: char, i: int, j: int)
    requires
        0 <= i <= j,
        j + 1 < s.len(),
        first_pair_from(s, a, b, i) < 0,
    ensures
        !(s[j] == a && s[j + 1] == b),
    decreases j - i,
{
    if i < j {
        lemma_first_pair_none(s, a, b, i + 1, j);
    }
}

/// A suffix without `c` leaves the last position of `c` where it was.
proof fn lemma_last_index_suffix(x: Seq<char>, t: Seq<char>, c: char)
    requires
        !has_char(t, c),
    ensures
        last_index_of(x + t, c) == last_index_of(x, c),
    decreases t.len(),
{
    if t.len() > 0 {
        let u = t.drop_last();
        assert((x + t).drop_last() =~= x + u);
        assert((x + t).last() == t[t.len() - 1]);
        assert(!has_char(u, c)) by {
            if has_char(u, c) {
                let i = choose|i: int| 0 <= i < u.len() && u[i] == c;
                assert(t[i] == c);
            }
        }
        lemma_last_index_suffix(x, u, c);
    } else {
        assert(x + t =~= x);
    }
}

/// Reading back a built address gives its host and port, where the port
/// holds no colon, the host does not begin with a bracket, and the host holds
/// no `]:`.
pub proof fn law_parse_address_undoes_build_address(host: Seq<char>, port: Seq<char>)
    requires
        !has_char(port, ':'),
        !starts_with_char(host, '['),
        first_pair_from(host, ']', ':', 0) < 0,
    ensures
        parse_address_spec(build_address_spec(host, port)) == Some((host, port)),
{
    let built = build_address_spec(host, port);
    if has_char(host, ':') {
        let rest = host + seq![']', ':'] + port;
        assert(built.drop_first() =~= rest);
        let n = host.len() as int;
        assert forall|j: int| 0 <= j < n && j + 1 < rest.len() implies !(#[trigger] rest[j] == ']' && rest[j + 1] == ':') by {
            if j + 1 < n {
                lemma_first_pair_none(host, ']', ':', 0, j);
            } else {
                assert(rest[j + 1] == ']');
            }
        }
        lemma_first_pair_skip(rest, ']', ':', 0, n);
        assert(rest[n] == ']' && rest[n + 1] == ':');
        assert(first_pair_from(rest, ']', ':', n) == n);
        assert(rest.subrange(0, n) =~= host);
        assert(rest.subrange(n + 2, rest.len() as int) =~= port);
    } else {
        let x = host + seq![':'];
        assert(built =~= x + port);
        lemma_last_index_suffix(x, port, ':');
        assert(x.last() == ':');
        assert(last_index_of(x, ':') == host.len());
        assert(built.subrange(0, host.len() as int) =~= host);
        assert(built.subrange(host.len() as int + 1, built.len() as int) =~= port);
        if host.len() == 0 {
            assert(built[0] == ':');
        } else {
            assert(built[0] == host[0]);
        }
    }
}

} // verus!
