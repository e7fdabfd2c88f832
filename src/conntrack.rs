use crate::address::{decode, decode_chars, print_ip};
use crate::text::{chars_of, parse_unsigned, parse_unsigned_chars, pieces, split_pieces, Separator};
use std::collections::HashSet;
use vstd::prelude::*;

verus! {

broadcast use vstd::std_specs::hash::group_hash_axioms;

/// Smallest client-to-server byte count that the heuristic flags.
pub const MIN_CLIENT_BYTES: u64 = 500;

/// Largest server-to-client byte count that the heuristic flags.
pub const MAX_SERVER_BYTES: u64 = 200;

/// Whether `pat` occurs in `s` as a run of consecutive characters.
pub open spec fn contains(s: Seq<char>, pat: Seq<char>) -> bool {
    exists|i: int| 0 <= i <= s.len() - pat.len() && #[trigger] s.subrange(i, i + pat.len()) == pat
}

/// The marker of a destination port of 443.
pub open spec fn port_marker() -> Seq<char> {
    seq!['d', 'p', 'o', 'r', 't', '=', '4', '4', '3']
}

/// The marker of the TCP protocol.
pub open spec fn tcp_marker() -> Seq<char> {
    seq!['t', 'c', 'p']
}

/// The key of a destination address token.
pub open spec fn dst_key() -> Seq<char> {
    seq!['d', 's', 't']
}

/// The key of a byte count token.
pub open spec fn bytes_key() -> Seq<char> {
    seq!['b', 'y', 't', 'e', 's']
}

/// The textual markers: the line holds both `dport=443` and `tcp`, anywhere.
pub open spec fn has_markers(line: Seq<char>) -> bool {
    contains(line, port_marker()) && contains(line, tcp_marker())
}

/// The tokens of a line: the pieces between white-space characters. Empty
/// pieces hold no `=` and so never count as a key and a value.
pub open spec fn tokens(line: Seq<char>) -> Seq<Seq<char>> {
    pieces(line, Separator::WhiteSpace)
}

/// `i` is the position of the first `=` in `t`.
pub open spec fn is_first_eq(t: Seq<char>, i: int) -> bool {
    0 <= i < t.len() && t[i] == '=' && forall|j: int| 0 <= j < i ==> t[j] != '='
}

/// A token split at its first `=` into key and value; none without an `=`.
pub open spec fn key_value(t: Seq<char>) -> Option<(Seq<char>, Seq<char>)> {
    if exists|i: int| is_first_eq(t, i) {
        let i = choose|i: int| is_first_eq(t, i);
        Some((t.subrange(0, i), t.subrange(i + 1, t.len() as int)))
    } else {
        None
    }
}

/// Whether the token `t` has the key `key`.
pub open spec fn has_key(t: Seq<char>, key: Seq<char>) -> bool {
    key_value(t) is Some && (key_value(t)->0).0 == key
}

/// The value of the first token of `ts` with the key `key`.
pub open spec fn first_value(ts: Seq<Seq<char>>, key: Seq<char>) -> Option<Seq<char>>
    decreases ts.len(),
{
    if ts.len() == 0 {
        None
    } else if first_value(ts.drop_last(), key) is Some {
        first_value(ts.drop_last(), key)
    } else if has_key(ts.last(), key) {
        Some((key_value(ts.last())->0).1)
    } else {
        None
    }
}

/// The byte counts of `ts` in token order: the values of the `bytes` tokens
/// that read as a `u64`; the others are passed over.
pub open spec fn byte_counts(ts: Seq<Seq<char>>) -> Seq<nat>
    decreases ts.len(),
{
    if ts.len() == 0 {
        seq![]
    } else {
        let c = byte_counts(ts.drop_last());
        let t = ts.last();
        let v = (key_value(t)->0).1;
        if has_key(t, bytes_key()) && parse_unsigned(v, u64::MAX as nat) is Some {
            c.push(parse_unsigned(v, u64::MAX as nat)->0)
        } else {
            c
        }
    }
}

/// The record of a connection-tracking line: the decoded first `dst` value,
/// the first byte count and the last one; none where the line lacks a marker,
/// has no decodable first `dst` value, or has no byte count.
pub open spec fn parse_record(line: Seq<char>) -> Option<(u32, u64, u64)> {
    let ts = tokens(line);
    let dst = first_value(ts, dst_key());
    let counts = byte_counts(ts);
    if has_markers(line) && dst is Some && decode(dst->0) is Some && counts.len() > 0 {
        Some((decode(dst->0)->0, counts[0] as u64, counts.last() as u64))
    } else {
        None
    }
}

/// The heuristic: a large client payload answered by a small reply, both
/// bounds inclusive.
pub open spec fn flagged(c2s: u64, s2c: u64) -> bool {
    c2s >= MIN_CLIENT_BYTES && s2c <= MAX_SERVER_BYTES
}

/// The record of a line, where it parses and the heuristic flags it.
pub open spec fn flagged_record(line: Seq<char>) -> Option<(u32, u64, u64)> {
    match parse_record(line) {
        Some(r) => if flagged(r.1, r.2) {
            Some(r)
        } else {
            None
        },
        None => None,
    }
}

/// Whether `pat` occurs in `s` at position `i`.
fn occurs_at(s: &Vec<char>, pat: &Vec<char>, i: usize) -> (r: bool)
    requires
        i + pat.len() <= s.len(),
    ensures
        r == (s@.subrange(i as int, i + pat.len()) == pat@),
{
    let mut k: usize = 0;
    while k < pat.len()
        invariant
            k <= pat.len(),
            i + pat.len() <= s.len(),
            forall|j: int| 0 <= j < k ==> s@[i + j] == pat@[j],
        decreases pat.len() - k,
    {
        if s[i + k] != pat[k] {
            assert(s@.subrange(i as int, i + pat.len())[k as int] != pat@[k as int]);
            return false;
        }
        k = k + 1;
    }
    assert(s@.subrange(i as int, i + pat.len()) =~= pat@);
    true
}

/// Whether `pat` occurs in `s`.
pub fn contains_chars(s: &Vec<char>, pat: &Vec<char>) -> (r: bool)
    ensures
        r == contains(s@, pat@),
{
    if pat.len() > s.len() {
        return false;
    }
    let last: usize = s.len() - pat.len();
    let mut i: usize = 0;
    while i < last
        invariant
            pat.len() <= s.len(),
            last == s.len() - pat.len(),
            i <= last,
            forall|j: int| 0 <= j < i ==> #[trigger] s@.subrange(j, j + pat.len()) != pat@,
        decreases last - i,
    {
        if occurs_at(s, pat, i) {
            return true;
        }
        i = i + 1;
    }
    occurs_at(s, pat, last)
}

/// Whether two runs of characters are equal.
fn same_chars(a: &Vec<char>, b: &Vec<char>) -> (r: bool)
    ensures
        r == (a@ == b@),
{
    if a.len() != b.len() {
        return false;
    }
    let r = occurs_at(a, b, 0);
    assert(a@.subrange(0, b.len() as int) =~= a@);
    r
}

/// Splits a token at its first `=`.
pub fn split_key_value(t: &Vec<char>) -> (r: Option<(Vec<char>, Vec<char>)>)
    ensures
        match key_value(t@) {
            Some(kv) => r is Some && (r->0).0@ == kv.0 && (r->0).1@ == kv.1,
            None => r is None,
        },
{
    let mut i: usize = 0;
    while i < t.len()
        invariant
            i <= t.len(),
            forall|j: int| 0 <= j < i ==> t@[j] != '=',
        decreases t.len() - i,
    {
        if t[i] == '=' {
            assert(is_first_eq(t@, i as int));
            let ghost w = choose|w: int| is_first_eq(t@, w);
            assert(w == i) by {
                if w < i {
                    assert(t@[w] != '=');
                } else if w > i {
                    assert(t@[i as int] != '=');
                }
            }
            let mut key: Vec<char> = Vec::new();
            let mut value: Vec<char> = Vec::new();
            let mut k: usize = 0;
            while k < i
                invariant
                    k <= i < t.len(),
                    key@ == t@.subrange(0, k as int),
                decreases i - k,
            {
                key.push(t[k]);
                k = k + 1;
                assert(key@ =~= t@.subrange(0, k as int));
            }
            k = i + 1;
            assert(value@ =~= t@.subrange(i + 1, k as int));
            while k < t.len()
                invariant
                    i < k <= t.len(),
                    value@ == t@.subrange(i + 1, k as int),
                decreases t.len() - k,
            {
                value.push(t[k]);
                k = k + 1;
                assert(value@ =~= t@.subrange(i + 1, k as int));
            }
            return Some((key, value));
        }
        i = i + 1;
    }
    assert(!exists|w: int| is_first_eq(t@, w));
    None
}

/// The record that a line reports for the first time, given the addresses
/// already reported: its flagged record, unless that address is among them.
pub open spec fn admitted(line: Seq<char>, reported: Set<u32>) -> Option<(u32, u64, u64)> {
    match flagged_record(line) {
        Some(r) => if reported.contains(r.0) {
            None
        } else {
            Some(r)
        },
        None => None,
    }
}

/// The reported addresses after a line has been processed.
pub open spec fn reported_after(line: Seq<char>, reported: Set<u32>) -> Set<u32> {
    match flagged_record(line) {
        Some(r) => reported.insert(r.0),
        None => reported,
    }
}

/// Parses a connection-tracking line held as characters.
pub fn parse_record_chars(v: &Vec<char>) -> (r: Option<(u32, u64, u64)>)
    ensures
        r == parse_record(v@),
{
    let port = vec!['d', 'p', 'o', 'r', 't', '=', '4', '4', '3'];
    let tcp = vec!['t', 'c', 'p'];
    assert(port@ =~= port_marker());
    assert(tcp@ =~= tcp_marker());
    if !contains_chars(v, &port) || !contains_chars(v, &tcp) {
        return None;
    }
    let dst_k = vec!['d', 's', 't'];
    let bytes_k = vec!['b', 'y', 't', 'e', 's'];
    assert(dst_k@ =~= dst_key());
    assert(bytes_k@ =~= bytes_key());
    let ts = split_pieces(v, Separator::WhiteSpace);
    let ghost toks = tokens(v@);
    let mut dst: Option<Vec<char>> = None;
    let mut first: Option<u64> = None;
    let mut last: Option<u64> = None;
    let mut k: usize = 0;
    assert(toks.subrange(0, 0) =~= Seq::<Seq<char>>::empty());
    while k < ts.len()
        invariant
            toks == tokens(v@),
            ts.len() == toks.len(),
            forall|j: int| 0 <= j < ts.len() ==> #[trigger] ts[j]@ == toks[j],
            dst_k@ == dst_key(),
            bytes_k@ == bytes_key(),
            k <= ts.len(),
            match dst {
                Some(d) => first_value(toks.subrange(0, k as int), dst_key()) == Some(d@),
                None => first_value(toks.subrange(0, k as int), dst_key()) is None,
            },
            first is None <==> byte_counts(toks.subrange(0, k as int)).len() == 0,
            last is None <==> byte_counts(toks.subrange(0, k as int)).len() == 0,
            first matches Some(f) ==> byte_counts(toks.subrange(0, k as int))[0] == f,
            last matches Some(l) ==> byte_counts(toks.subrange(0, k as int)).last() == l,
        decreases ts.len() - k,
    {
        let ghost pre = toks.subrange(0, k + 1);
        assert(pre.drop_last() =~= toks.subrange(0, k as int));
        assert(pre.last() == ts[k as int]@);
        match split_key_value(&ts[k]) {
            Some((key, value)) => {
                if dst.is_none() && same_chars(&key, &dst_k) {
                    dst = Some(value);
                } else if same_chars(&key, &bytes_k) {
                    match parse_unsigned_chars(&value, u64::MAX) {
                        Some(b) => {
                            if first.is_none() {
                                first = Some(b);
                            }
                            last = Some(b);
                        },
                        None => {},
                    }
                }
            },
            None => {},
        }
        k = k + 1;
    }
    assert(toks.subrange(0, ts.len() as int) =~= toks);
    match dst {
        Some(d) => match decode_chars(&d) {
            Some(ip) => match (first, last) {
                (Some(f), Some(l)) => Some((ip, f, l)),
                _ => None,
            },
            None => None,
        },
        None => None,
    }
}

/// Parses one connection-tracking line into its destination address, its
/// first byte count (client to server) and its last (server to client).
pub fn parse_conntrack_output(line: &str) -> (r: Option<(u32, u64, u64)>)
    ensures
        r == parse_record(line@),
        !contains(line@, port_marker()) || !contains(line@, tcp_marker()) ==> r is None,
        ({
            let ts = tokens(line@);
            let counts = byte_counts(ts);
            has_markers(line@) && first_value(ts, dst_key()) is Some && decode(
                first_value(ts, dst_key())->0,
            ) is Some && counts.len() > 0 ==> r == Some(
                (decode(first_value(ts, dst_key())->0)->0, counts[0] as u64, counts.last() as u64),
            )
        }),
{
    let v = chars_of(line);
    parse_record_chars(&v)
}

/// The heuristic on a record's byte counts.
pub fn classify(c2s: u64, s2c: u64) -> (r: bool)
    ensures
        r == flagged(c2s, s2c),
        r == (c2s >= 500 && s2c <= 200),
{
    c2s >= MIN_CLIENT_BYTES && s2c <= MAX_SERVER_BYTES
}

/// Marks `address` as reported; true where it was not reported before.
pub fn admit_address(address: u32, reported: &mut HashSet<u32>) -> (r: bool)
    ensures
        r == !old(reported)@.contains(address),
        final(reported)@ == old(reported)@.insert(address),
{
    reported.insert(address)
}

/// Parses, classifies and deduplicates one line: the address text and the two
/// byte counts where the line reports an address for the first time.
pub fn process_conntrack_line(line_str: &str, reported_ips: &mut HashSet<u32>) -> (r: Option<
    (String, u64, u64),
>)
    ensures
        final(reported_ips)@ == reported_after(line_str@, old(reported_ips)@),
        match admitted(line_str@, old(reported_ips)@) {
            Some(rec) => r is Some && (r->0).0@ == crate::address::dotted(rec.0) && (r->0).1
                == rec.1 && (r->0).2 == rec.2,
            None => r is None,
        },
{
    let (dst_ip, bytes_c2s, bytes_s2c) = match parse_conntrack_output(line_str) {
        Some(rec) => rec,
        None => {
            return None;
        },
    };
    if !classify(bytes_c2s, bytes_s2c) {
        return None;
    }
    if !admit_address(dst_ip, reported_ips) {
        assert(final(reported_ips)@ =~= old(reported_ips)@);
        return None;
    }
    Some((print_ip(dst_ip), bytes_c2s, bytes_s2c))
}

} // verus!
