use crate::address::dotted;
use crate::conntrack::{
    admitted, flagged_record, process_conntrack_line, reported_after,
};
use crate::text::{chars_of, decimal, push_decimal, string_from_chars};
use std::collections::HashSet;
use vstd::prelude::*;

verus! {

/// Milliseconds to sleep between two poll cycles.
pub const POLL_INTERVAL_MS: u64 = 10_000;

/// The records that one cycle reports for the first time, in line order, and
/// the reported addresses after it.
pub open spec fn cycle(lines: Seq<Seq<char>>, reported: Set<u32>) -> (
    Seq<(u32, u64, u64)>,
    Set<u32>,
)
    decreases lines.len(),
{
    if lines.len() == 0 {
        (seq![], reported)
    } else {
        let before = cycle(lines.drop_last(), reported);
        let line = lines.last();
        let out = match admitted(line, before.1) {
            Some(r) => before.0.push(r),
            None => before.0,
        };
        (out, reported_after(line, before.1))
    }
}

/// The records reported over a sequence of cycles, in order, and the reported
/// addresses after the last.
pub open spec fn cycles(tables: Seq<Seq<Seq<char>>>, reported: Set<u32>) -> (
    Seq<(u32, u64, u64)>,
    Set<u32>,
)
    decreases tables.len(),
{
    if tables.len() == 0 {
        (seq![], reported)
    } else {
        let before = cycles(tables.drop_last(), reported);
        let last = cycle(tables.last(), before.1);
        (before.0 + last.0, last.1)
    }
}

/// The addresses of a batch, as dotted-decimal text.
pub open spec fn batch_texts(batch: Seq<(u32, u64, u64)>) -> Seq<Seq<char>> {
    Seq::new(batch.len(), |i: int| dotted(batch[i].0))
}

/// Texts separated by `, `.
pub open spec fn joined(items: Seq<Seq<char>>) -> Seq<char>
    decreases items.len(),
{
    if items.len() == 0 {
        seq![]
    } else if items.len() == 1 {
        items[0]
    } else {
        joined(items.drop_last()) + seq![',', ' '] + items.last()
    }
}

/// The literal set syntax `{ a, b }` that asks the firewall to add the items.
pub open spec fn element_literal(items: Seq<Seq<char>>) -> Seq<char> {
    seq!['{', ' '] + joined(items) + seq![' ', '}']
}

/// The line that announces a newly reported match.
pub open spec fn report_text(ip: Seq<char>, c2s: u64, s2c: u64, set_name: Seq<char>) -> Seq<
    char,
> {
    ip + " (c2s="@ + decimal(c2s as nat) + "B s2c="@ + decimal(s2c as nat)
        + "B) -> queued for nft set "@ + set_name
}

/// The addresses of `items` separated by `, `.
pub fn join_addresses(items: &Vec<String>) -> (r: String)
    ensures
        r@ == joined(items.deep_view()),
{
    let ghost all = items.deep_view();
    let mut out: Vec<char> = Vec::new();
    let mut i: usize = 0;
    while i < items.len()
        invariant
            i <= items.len(),
            all == items.deep_view(),
            out@ == joined(all.subrange(0, i as int)),
        decreases items.len() - i,
    {
        let ghost pre = all.subrange(0, i + 1);
        assert(pre.drop_last() =~= all.subrange(0, i as int));
        if i > 0 {
            out.push(',');
            out.push(' ');
        }
        let mut item = chars_of(items[i].as_str());
        out.append(&mut item);
        i = i + 1;
        assert(out@ =~= joined(all.subrange(0, i as int)));
    }
    assert(all.subrange(0, i as int) =~= all);
    string_from_chars(&out)
}

/// The set-update request for a batch of addresses: none for an empty batch,
/// so that a cycle without new matches asks nothing of the firewall.
pub fn publish_request(items: &Vec<String>) -> (r: Option<String>)
    ensures
        r is None <==> items.len() == 0,
        r matches Some(t) ==> t@ == element_literal(items.deep_view()),
{
    if items.len() == 0 {
        return None;
    }
    let mut out: Vec<char> = Vec::new();
    out.push('{');
    out.push(' ');
    let mut body = chars_of(join_addresses(items).as_str());
    out.append(&mut body);
    out.push(' ');
    out.push('}');
    assert(out@ =~= element_literal(items.deep_view()));
    Some(string_from_chars(&out))
}

/// The line that announces a newly reported match.
pub fn report_line(ip: &str, c2s: u64, s2c: u64, set_name: &str) -> (r: String)
    ensures
        r@ == report_text(ip@, c2s, s2c, set_name@),
{
    let mut out = chars_of(ip);
    let mut part = chars_of(" (c2s=");
    out.append(&mut part);
    push_decimal(&mut out, c2s);
    let mut part = chars_of("B s2c=");
    out.append(&mut part);
    push_decimal(&mut out, s2c);
    let mut part = chars_of("B) -> queued for nft set ");
    out.append(&mut part);
    let mut part = chars_of(set_name);
    out.append(&mut part);
    assert(out@ =~= report_text(ip@, c2s, s2c, set_name@));
    string_from_chars(&out)
}

/// What one poll cycle yields: the new matches in line order, and the
/// set-update request for their addresses where there are any.
pub struct CycleOutcome {
    pub matches: Vec<(String, u64, u64)>,
    pub request: Option<String>,
}

/// One poll cycle over the lines of a connection-tracking table: parses,
/// classifies and deduplicates each line in order, and batches the addresses
/// reported for the first time into one set-update request.
pub fn poll_cycle(lines: &Vec<String>, reported_ips: &mut HashSet<u32>) -> (o: CycleOutcome)
    ensures
        final(reported_ips)@ == cycle(lines.deep_view(), old(reported_ips)@).1,
        o.matches.len() == cycle(lines.deep_view(), old(reported_ips)@).0.len(),
        forall|i: int|
            0 <= i < o.matches.len() ==> {
                let rec = #[trigger] cycle(lines.deep_view(), old(reported_ips)@).0[i];
                &&& o.matches[i].0@ == dotted(rec.0)
                &&& o.matches[i].1 == rec.1
                &&& o.matches[i].2 == rec.2
            },
        o.request is None <==> cycle(lines.deep_view(), old(reported_ips)@).0.len() == 0,
        o.request matches Some(t) ==> t@ == element_literal(
            batch_texts(cycle(lines.deep_view(), old(reported_ips)@).0),
        ),
{
    let ghost all = lines.deep_view();
    let ghost start = reported_ips@;
    let mut matches: Vec<(String, u64, u64)> = Vec::new();
    let mut addresses: Vec<String> = Vec::new();
    let mut i: usize = 0;
    assert(all.subrange(0, 0) =~= Seq::<Seq<char>>::empty());
    while i < lines.len()
        invariant
            i <= lines.len(),
            all == lines.deep_view(),
            reported_ips@ == cycle(all.subrange(0, i as int), start).1,
            matches.len() == cycle(all.subrange(0, i as int), start).0.len(),
            addresses.len() == matches.len(),
            forall|k: int|
                0 <= k < matches.len() ==> {
                    let rec = #[trigger] cycle(all.subrange(0, i as int), start).0[k];
                    &&& matches[k].0@ == dotted(rec.0)
                    &&& matches[k].1 == rec.1
                    &&& matches[k].2 == rec.2
                    &&& addresses[k]@ == dotted(rec.0)
                },
        decreases lines.len() - i,
    {
        let ghost pre = all.subrange(0, i + 1);
        assert(pre.drop_last() =~= all.subrange(0, i as int));
        assert(pre.last() == lines[i as int]@);
        match process_conntrack_line(lines[i].as_str(), reported_ips) {
            Some(m) => {
                addresses.push(m.0.clone());
                matches.push(m);
            },
            None => {},
        }
        i = i + 1;
    }
    assert(all.subrange(0, i as int) =~= all);
    let ghost batch = cycle(all, start).0;
    assert(addresses.deep_view() =~= batch_texts(batch));
    let request = publish_request(&addresses);
    CycleOutcome { matches, request }
}

/// Within one cycle: every reported address was not reported before, is
/// reported after, and no address is reported twice; no address is forgotten.
pub proof fn lemma_cycle_reports_new_addresses(lines: Seq<Seq<char>>, reported: Set<u32>)
    ensures
        reported.subset_of(cycle(lines, reported).1),
        forall|i: int|
            0 <= i < cycle(lines, reported).0.len() ==> {
                &&& !reported.contains(#[trigger] cycle(lines, reported).0[i].0)
                &&& cycle(lines, reported).1.contains(cycle(lines, reported).0[i].0)
            },
        forall|i: int, j: int|
            0 <= i < j < cycle(lines, reported).0.len() ==> #[trigger] cycle(lines, reported).0[i].0
                != #[trigger] cycle(lines, reported).0[j].0,
    decreases lines.len(),
{
    if lines.len() > 0 {
        lemma_cycle_reports_new_addresses(lines.drop_last(), reported);
    }
}

/// Over any sequence of cycles, an address is reported at most once, and never
/// one that was reported before the first.
pub proof fn lemma_reported_at_most_once(tables: Seq<Seq<Seq<char>>>, reported: Set<u32>)
    ensures
        reported.subset_of(cycles(tables, reported).1),
        forall|i: int|
            0 <= i < cycles(tables, reported).0.len() ==> {
                &&& !reported.contains(#[trigger] cycles(tables, reported).0[i].0)
                &&& cycles(tables, reported).1.contains(cycles(tables, reported).0[i].0)
            },
        forall|i: int, j: int|
            0 <= i < j < cycles(tables, reported).0.len() ==> #[trigger] cycles(
                tables,
                reported,
            ).0[i].0 != #[trigger] cycles(tables, reported).0[j].0,
    decreases tables.len(),
{
    if tables.len() > 0 {
        let before = cycles(tables.drop_last(), reported);
        lemma_reported_at_most_once(tables.drop_last(), reported);
        lemma_cycle_reports_new_addresses(tables.last(), before.1);
        let last = cycle(tables.last(), before.1);
        let all = before.0 + last.0;
        assert forall|i: int| 0 <= i < all.len() implies {
            &&& !reported.contains(#[trigger] all[i].0)
            &&& last.1.contains(all[i].0)
        } by {
            if i >= before.0.len() {
                assert(all[i] == last.0[i - before.0.len()]);
            }
        }
        assert forall|i: int, j: int| 0 <= i < j < all.len() implies #[trigger] all[i].0
            != #[trigger] all[j].0 by {
            if j >= before.0.len() {
                assert(all[j] == last.0[j - before.0.len()]);
                if i >= before.0.len() {
                    assert(all[i] == last.0[i - before.0.len()]);
                } else {
                    assert(before.1.contains(all[i].0));
                }
            }
        }
    }
}

/// A cycle in which no line parses into a flagged record reports nothing, and
/// so yields no set-update request.
pub proof fn lemma_quiet_cycle(lines: Seq<Seq<char>>, reported: Set<u32>)
    requires
        forall|i: int| 0 <= i < lines.len() ==> #[trigger] flagged_record(lines[i]) is None,
    ensures
        cycle(lines, reported).0.len() == 0,
        cycle(lines, reported).1 == reported,
    decreases lines.len(),
{
    if lines.len() > 0 {
        let init = lines.drop_last();
        assert forall|i: int| 0 <= i < init.len() implies #[trigger] flagged_record(
            init[i],
        ) is None by {
            assert(init[i] == lines[i]);
        }
        assert(flagged_record(lines[lines.len() - 1]) is None);
        lemma_quiet_cycle(init, reported);
    }
}

} // verus!
