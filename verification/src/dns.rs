//! DNS enumeration: the candidate subdomains of a domain, and what the
//! answers of a resolver and of a zone transfer hold.
//!
//! The queries themselves are made by the caller, through whatever
//! resolver it has; the functions here take the text that came back.

use vstd::prelude::*;
use crate::address::{address_of, parse_address_chars, IpAddress};
use crate::text::{lines_of, push_all, split_lines, texts, to_chars, to_text, trim, trimmed, views};

verus! {

/// The prefixes under which hosts of a domain are commonly found.
pub open spec fn common_prefixes() -> Seq<Seq<char>> {
    seq![
        "www"@,
        "mail"@,
        "remote"@,
        "blog"@,
        "webmail"@,
        "server"@,
        "ns"@,
        "ns1"@,
        "ns2"@,
        "smtp"@,
        "secure"@,
        "vpn"@,
        "m"@,
        "shop"@,
        "ftp"@,
        "mail2"@,
        "test"@,
        "portal"@,
        "admin"@,
        "host"@,
        "dns"@,
        "mx"@,
        "pop"@,
        "pop3"@,
        "imap"@,
        "forum"@,
        "stage"@,
        "dev"@,
        "demo"@,
    ]
}

/// The candidate subdomains of `domain`: each common prefix, a dot and the
/// domain.
pub open spec fn subdomains_of(domain: Seq<char>) -> Seq<Seq<char>> {
    Seq::new(common_prefixes().len(), |i: int| common_prefixes()[i] + seq!['.'] + domain)
}

/// The candidate subdomains of `domain`, one for each common prefix, in
/// the order of the prefixes.
pub fn discover_subdomains(domain: &str) -> (subdomains: Vec<String>)
    ensures
        texts(subdomains@) == subdomains_of(domain@),
        subdomains@.len() == 29,
{
    let prefixes: Vec<&str> = vec![
        "www",
        "mail",
        "remote",
        "blog",
        "webmail",
        "server",
        "ns",
        "ns1",
        "ns2",
        "smtp",
        "secure",
        "vpn",
        "m",
        "shop",
        "ftp",
        "mail2",
        "test",
        "portal",
        "admin",
        "host",
        "dns",
        "mx",
        "pop",
        "pop3",
        "imap",
        "forum",
        "stage",
        "dev",
        "demo",
    ];
    assert(prefixes@.len() == 29);
    assert(common_prefixes().len() == 29);
    assert(forall|k: int| 0 <= k < 29 ==> (#[trigger] prefixes@[k])@ == common_prefixes()[k]);
    let name = to_chars(domain);
    let mut subdomains: Vec<String> = Vec::new();
    let mut i: usize = 0;
    while i < prefixes.len()
        invariant
            i <= prefixes@.len(),
            prefixes@.len() == 29,
            common_prefixes().len() == 29,
            forall|k: int| 0 <= k < 29 ==> (#[trigger] prefixes@[k])@ == common_prefixes()[k],
            name@ == domain@,
            texts(subdomains@) == Seq::new(
                i as nat,
                |k: int| common_prefixes()[k] + seq!['.'] + domain@,
            ),
        decreases prefixes@.len() - i,
    {
        let mut subdomain = to_chars(prefixes[i]);
        subdomain.push('.');
        push_all(&mut subdomain, &name);
        let text = to_text(&subdomain);
        proof {
            assert(prefixes@[i as int]@ == common_prefixes()[i as int]);
            assert(text@ =~= common_prefixes()[i as int] + seq!['.'] + domain@);
            assert(texts(subdomains@.push(text)) =~= texts(subdomains@).push(text@));
        }
        subdomains.push(text);
        i += 1;
    }
    subdomains
}

/// Whether a line of a zone transfer holds a record: it is not empty and
/// is no comment, which would start with a semicolon.
pub open spec fn is_record(line: Seq<char>) -> bool {
    line.len() > 0 && line[0] != ';'
}

/// The lines among `lines` that hold a record, in order.
pub open spec fn records_among(lines: Seq<Seq<char>>) -> Seq<Seq<char>>
    decreases lines.len(),
{
    if lines.len() == 0 {
        Seq::empty()
    } else if is_record(lines.last()) {
        records_among(lines.drop_last()).push(lines.last())
    } else {
        records_among(lines.drop_last())
    }
}

/// The records that a zone transfer gave.
pub open spec fn zone_records_of(output: Option<Seq<char>>) -> Seq<Seq<char>> {
    match output {
        Some(text) => records_among(lines_of(text)),
        None => Seq::empty(),
    }
}

/// The records of a zone transfer.  `output` is what the transfer printed,
/// or `None` where it failed or could not be attempted; then there are no
/// records.  Empty lines and comment lines are passed over.
pub fn attempt_zone_transfer(output: Option<&str>) -> (records: Vec<String>)
    ensures
        texts(records@) == zone_records_of(
            match output {
                Some(text) => Some(text@),
                None => None,
            },
        ),
{
    let mut records: Vec<String> = Vec::new();
    let text = match output {
        Some(text) => text,
        None => {
            assert(texts(records@) == Seq::<Seq<char>>::empty());
            return records;
        },
    };
    let chars = to_chars(text);
    let lines = split_lines(&chars);
    let mut i: usize = 0;
    assert(views(lines@).take(0) == Seq::<Seq<char>>::empty());
    assert(texts(records@) == Seq::<Seq<char>>::empty());
    while i < lines.len()
        invariant
            i <= lines@.len(),
            texts(records@) == records_among(views(lines@).take(i as int)),
        decreases lines@.len() - i,
    {
        let line = &lines[i];
        proof {
            let seen = views(lines@).take(i + 1);
            assert(seen.drop_last() == views(lines@).take(i as int));
            assert(seen.last() == line@);
        }
        if line.len() > 0 && line[0] != ';' {
            let record = to_text(line);
            proof {
                assert(texts(records@.push(record)) =~= texts(records@).push(record@));
            }
            records.push(record);
        }
        i += 1;
    }
    assert(views(lines@).take(lines@.len() as int) == views(lines@));
    records
}

/// The address that a resolver printed for a host: its output without the
/// white space around it, read as an IP address of either family.  Output
/// that is no single address gives `None`: the host did not resolve.
pub fn resolve_host(output: &str) -> (address: Option<IpAddress>)
    ensures
        address == address_of(trimmed(output@)),
{
    let chars = to_chars(output);
    let answer = trim(&chars);
    parse_address_chars(&answer)
}

} // verus!
