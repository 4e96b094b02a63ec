//! Names from the leases of a DHCP server.

use vstd::prelude::*;
use crate::dns::record::{fold_record, ip_data, RData, Record, RecordView};
use crate::dns::rr::RDataView;
use crate::dns::set::{
    holds, law_append_is_union, no_records, set_wf, with_records, RecordSet,
};
use crate::ip::IpAddr;
use crate::name::{fold, host_from_text, name_from_text, name_len, Fqdn};
use crate::text::{
    chars_of, free_of, is_word, join, lemma_join_split, lemma_words_join, split, split_on, split_words, texts, words,
};

verus! {

/// A file of leases, and the zone that the names in it belong to.
#[derive(Debug)]
pub struct DhcpConfig {
    pub lease_file: String,
    pub zone: Fqdn,
}

/// The data that a text stands for: an address where it is one, a local alias otherwise.
pub open spec fn lease_data(s: Seq<char>) -> Option<RDataView> {
    match crate::ip::ip_from_text(s) {
        Some(ip) => Some(ip_data(ip)),
        None => match name_from_text(s) {
            Some(name) => Some(RDataView::Aname(name)),
            None => None,
        },
    }
}

/// The record for a lease: a line of five words, of which the third is an address and the fourth
/// a name in the zone. A star stands for no name.
pub open spec fn lease_record(zone: Seq<Seq<u8>>, line: Seq<char>) -> Option<RecordView> {
    let parts = words(line);
    if parts.len() != 5 || parts[3] == seq!['*'] {
        None
    } else {
        match (host_from_text(parts[3]), lease_data(parts[2])) {
            (Some(host), Some(rdata)) => if name_len(host) + name_len(zone) <= 255 {
                Some(RecordView { name: host + zone, ttl: None, rdata })
            } else {
                None
            },
            _ => None,
        }
    }
}

/// The records for the lines of a file of leases.
pub open spec fn lease_records(zone: Seq<Seq<u8>>, lines: Seq<Seq<char>>) -> Seq<RecordView>
    decreases lines.len(),
{
    if lines.len() == 0 {
        Seq::empty()
    } else {
        let rest = lease_records(zone, lines.drop_last());
        match lease_record(zone, lines.last()) {
            Some(record) => rest.push(record),
            None => rest,
        }
    }
}

/// Whether a line is a lease that gives a record: it has five words, the fourth is a host in the
/// zone and the third an address, or else the name of another host.
pub open spec fn is_lease_of(zone: Seq<Seq<u8>>, line: Seq<char>, record: RecordView) -> bool {
    let parts = words(line);
    &&& parts.len() == 5
    &&& parts[3] != seq!['*']
    &&& host_from_text(parts[3]) matches Some(host) && name_len(host) + name_len(zone) <= 255
        && fold(record.name) == fold(host + zone)
    &&& record.ttl is None
    &&& match crate::ip::ip_from_text(parts[2]) {
        Some(IpAddr::V4(ip)) => record.rdata == RDataView::A(ip),
        Some(IpAddr::V6(ip)) => record.rdata == RDataView::Aaaa(ip),
        None => name_from_text(parts[2]) matches Some(other) && (record.rdata matches RDataView::Aname(
            alias,
        ) && fold(alias) == fold(other)),
    }
}

/// Whether some line of a file, wherever it stands, is a lease that gives a record.
pub open spec fn has_lease_of(
    zone: Seq<Seq<u8>>,
    lines: Seq<Seq<char>>,
    record: RecordView,
) -> bool {
    exists|i: int| 0 <= i < lines.len() && is_lease_of(zone, #[trigger] lines[i], record)
}

/// A lease gives the one record that it is a lease of.
proof fn lemma_lease(zone: Seq<Seq<u8>>, line: Seq<char>, record: RecordView)
    ensures
        is_lease_of(zone, line, record) <==> lease_record(zone, line) is Some && fold_record(
            lease_record(zone, line)->0,
        ) == fold_record(record),
{
    if let Some(given) = lease_record(zone, line) {
        if fold_record(given) == fold_record(record) {
            assert(fold_record(given).name == fold_record(record).name);
            assert(fold_record(given).ttl == fold_record(record).ttl);
            assert(fold_record(given).rdata == fold_record(record).rdata);
        }
    }
}

/// The records of a file are those that its lines give.
proof fn lemma_leases(zone: Seq<Seq<u8>>, lines: Seq<Seq<char>>, record: RecordView)
    ensures
        holds(lease_records(zone, lines), record) <==> has_lease_of(zone, lines, record),
    decreases lines.len(),
{
    let all = lease_records(zone, lines);
    if lines.len() > 0 {
        let front = lines.drop_last();
        let rest = lease_records(zone, front);
        lemma_leases(zone, front, record);
        lemma_lease(zone, lines.last(), record);
        assert(lines[lines.len() - 1] == lines.last());
        if has_lease_of(zone, lines, record) {
            let i = choose|i: int|
                0 <= i < lines.len() && is_lease_of(zone, #[trigger] lines[i], record);
            if i < front.len() {
                assert(front[i] == lines[i]);
            }
        }
        if has_lease_of(zone, front, record) {
            let i = choose|i: int|
                0 <= i < front.len() && is_lease_of(zone, #[trigger] front[i], record);
            assert(lines[i] == front[i]);
        }
        if holds(all, record) {
            let i = choose|i: int|
                0 <= i < all.len() && fold_record(#[trigger] all[i]) == fold_record(record);
            if i < rest.len() {
                assert(rest[i] == all[i]);
            }
        }
        if holds(rest, record) {
            let i = choose|i: int|
                0 <= i < rest.len() && fold_record(#[trigger] rest[i]) == fold_record(record);
            assert(all[i] == rest[i]);
        }
        if let Some(given) = lease_record(zone, lines.last()) {
            assert(all[rest.len() as int] == given);
        }
    }
}

/// A record is held by what is read from a file exactly when some line of it, from the first to the
/// last, is a lease that gives the record.
pub proof fn law_every_lease_is_read(
    zone: Seq<Seq<u8>>,
    lines: Seq<Seq<char>>,
    record: RecordView,
)
    requires
        lines.len() >= 1,
        forall|i: int| 0 <= i < lines.len() ==> free_of(#[trigger] lines[i], '\n'),
    ensures
        holds(
            with_records(
                no_records(),
                lease_records(zone, split_on(join(lines, seq!['\n']), '\n')),
            ).records,
            record,
        ) <==> exists|i: int|
            0 <= i < lines.len() && is_lease_of(zone, #[trigger] lines[i], record),
{
    lemma_join_split(lines, '\n');
    law_append_is_union(no_records(), lease_records(zone, lines), record);
    lemma_leases(zone, lines, record);
}

/// Reads a lease.
fn parse_line(zone: &Fqdn, line: &str) -> (r: Option<Record>)
    ensures
        match r {
            Some(record) => lease_record(zone@, line@) == Some(record@),
            None => lease_record(zone@, line@) is None,
        },
{
    let chars = chars_of(line);
    let parts = split_words(chars.as_slice());
    assert(texts(parts@).len() == parts.len());
    if parts.len() != 5 {
        return None;
    }
    assert(texts(parts@)[3] == parts@[3]@);
    assert(texts(parts@)[2] == parts@[2]@);
    let word = chars_of(parts[3].as_str());
    if word.len() == 1 && word[0] == '*' {
        assert(word@ =~= seq!['*']);
        return None;
    }
    assert(parts@[3]@ != seq!['*']) by {
        if parts@[3]@ == seq!['*'] {
            assert(word@[0] == '*');
        }
    }
    let name = match zone.child(parts[3].as_str()) {
        Ok(name) => name,
        Err(_) => {
            return None;
        },
    };
    match RData::from_text(parts[2].as_str()) {
        Ok(rdata) => Some(Record::new(name, rdata)),
        Err(_) => None,
    }
}

/// The records for the leases in a file of `dnsmasq`. Lines that are no leases are passed over.
pub fn parse_dnsmasq(zone: &Fqdn, data: &str) -> (r: RecordSet)
    ensures
        r@ == with_records(no_records(), lease_records(zone@, split_on(data@, '\n'))),
        set_wf(r@),
        forall|record: RecordView|
            #[trigger] holds(r@.records, record) <==> has_lease_of(
                zone@,
                split_on(data@, '\n'),
                record,
            ),
{
    let chars = chars_of(data);
    let lines = split(chars.as_slice(), '\n');
    let ghost all = texts(lines@);
    let mut records = RecordSet::new();
    let mut i: usize = 0;
    assert(all.take(0) =~= Seq::empty());
    while i < lines.len()
        invariant
            i <= lines.len(),
            all == texts(lines@),
            records@ == with_records(no_records(), lease_records(zone@, all.take(i as int))),
            set_wf(records@),
        decreases lines.len() - i,
    {
        assert(all.take(i + 1).drop_last() =~= all.take(i as int));
        assert(all.take(i + 1).last() == lines@[i as int]@);
        let ghost before = lease_records(zone@, all.take(i as int));
        if let Some(record) = parse_line(zone, lines[i].as_str()) {
            let ghost view = record@;
            records.insert(record);
            assert(before.push(view).drop_last() =~= before);
        }
        i += 1;
    }
    assert(all.take(i as int) =~= all);
    proof {
        assert forall|record: RecordView|
            #[trigger] holds(records@.records, record) <==> has_lease_of(zone@, all, record) by {
            law_append_is_union(no_records(), lease_records(zone@, all), record);
            lemma_leases(zone@, all, record);
        }
    }
    records
}

/// The records for a file of leases. A file that could not be read has none.
pub fn parse_file(zone: &Fqdn, data: Option<String>) -> (r: RecordSet)
    ensures
        r@ == match data {
            Some(data) => with_records(
                no_records(),
                lease_records(zone@, split_on(data@, '\n')),
            ),
            None => no_records(),
        },
        forall|record: RecordView| #[trigger]
            holds(r@.records, record) <==> (data matches Some(data) && has_lease_of(
                zone@,
                split_on(data@, '\n'),
                record,
            )),
{
    match data {
        Some(data) => parse_dnsmasq(zone, data.as_str()),
        None => RecordSet::new(),
    }
}

/// A line of five words with spaces between them, with an address and a name that fits in the zone,
/// is a lease: it gives a record under that name.
pub proof fn law_leases_are_read(
    zone: Seq<Seq<u8>>,
    parts: Seq<Seq<char>>,
    host: Seq<Seq<u8>>,
    ip: IpAddr,
)
    requires
        parts.len() == 5,
        forall|i: int| 0 <= i < parts.len() ==> is_word(#[trigger] parts[i]),
        parts[3] != seq!['*'],
        host_from_text(parts[3]) == Some(host),
        crate::ip::ip_from_text(parts[2]) == Some(ip),
        name_len(host) + name_len(zone) <= 255,
    ensures
        lease_record(zone, join(parts, seq![' '])) == Some(
            RecordView {
                name: host + zone,
                ttl: None,
                rdata: match ip {
                    IpAddr::V4(ip) => RDataView::A(ip),
                    IpAddr::V6(ip) => RDataView::Aaaa(ip),
                },
            },
        ),
{
    lemma_words_join(parts);
}

} // verus!
