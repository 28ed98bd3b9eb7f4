//! Port specifications and the names of well-known services.

use vstd::prelude::*;
use crate::error::ScanError;
use crate::text::{
    decimal_text, fields_of, lemma_decimal_text_reads_back, lemma_fields_of_prepend,
    lemma_fields_of_single, parse_unsigned, split, to_chars, unsigned_of, views,
};

verus! {

/// The largest port number.
pub const MAX_PORT: u32 = 65535;

/// The ports that are scanned where none are named.
pub const DEFAULT_PORT_RANGE: &'static str = "1-1000";

/// How long a port probe waits for its connection, in milliseconds.  A
/// port that has not answered by then counts as closed.
pub const PROBE_TIMEOUT_MS: u64 = 500;

/// The range that a port specification denotes.  A single number stands for
/// the range from that port to itself; two numbers with a hyphen between
/// them stand for the range from the first to the second, which must not be
/// the smaller one.  A number is an optional plus sign and decimal digits,
/// and no larger than 65535.
pub open spec fn port_range_of(spec: Seq<char>) -> Result<(u16, u16), ScanError> {
    let tokens = fields_of(spec, '-');
    if tokens.len() == 1 {
        match unsigned_of(tokens[0], 65535) {
            Some(port) => Ok((port as u16, port as u16)),
            None => Err(ScanError::InvalidFormat),
        }
    } else if tokens.len() == 2 {
        match (unsigned_of(tokens[0], 65535), unsigned_of(tokens[1], 65535)) {
            (Some(start), Some(end)) => if start > end {
                Err(ScanError::InvalidRange)
            } else {
                Ok((start as u16, end as u16))
            },
            _ => Err(ScanError::InvalidFormat),
        }
    } else {
        Err(ScanError::InvalidFormat)
    }
}

/// Reads a port specification: `"22"` or `"1-1000"`.  Both ends of the
/// range belong to it.
pub fn parse_port_range(range: &str) -> (parsed: Result<(u16, u16), ScanError>)
    ensures
        parsed == port_range_of(range@),
        parsed matches Ok(ports) ==> ports.0 <= ports.1,
{
    let chars = to_chars(range);
    let tokens = split(&chars, '-');
    assert(views(tokens@)[0] == tokens@[0]@);
    if tokens.len() == 1 {
        match parse_unsigned(&tokens[0], MAX_PORT) {
            Some(port) => Ok((port as u16, port as u16)),
            None => Err(ScanError::InvalidFormat),
        }
    } else if tokens.len() == 2 {
        assert(views(tokens@)[1] == tokens@[1]@);
        let start = match parse_unsigned(&tokens[0], MAX_PORT) {
            Some(port) => port as u16,
            None => {
                return Err(ScanError::InvalidFormat);
            },
        };
        let end = match parse_unsigned(&tokens[1], MAX_PORT) {
            Some(port) => port as u16,
            None => {
                return Err(ScanError::InvalidFormat);
            },
        };
        if start > end {
            Err(ScanError::InvalidRange)
        } else {
            Ok((start, end))
        }
    } else {
        Err(ScanError::InvalidFormat)
    }
}

/// A port written in decimal is read as the range from that port to
/// itself.  Two ports written in decimal with a hyphen between them are
/// read as the range from the first to the second, and refused as
/// `InvalidRange` where the first is the larger one.
pub proof fn lemma_port_range_text(start: u16, end: u16)
    ensures
        port_range_of(decimal_text(start as nat)) == Ok::<(u16, u16), ScanError>((start, start)),
        port_range_of(decimal_text(start as nat) + seq!['-'] + decimal_text(end as nat)) == if start
            <= end {
            Ok::<(u16, u16), ScanError>((start, end))
        } else {
            Err::<(u16, u16), ScanError>(ScanError::InvalidRange)
        },
{
    let first = decimal_text(start as nat);
    let second = decimal_text(end as nat);
    lemma_decimal_text_reads_back(start as nat, 65535, '-');
    lemma_decimal_text_reads_back(end as nat, 65535, '-');
    lemma_fields_of_single(first, '-');
    lemma_fields_of_single(second, '-');
    lemma_fields_of_prepend(first, '-', second);
    assert(fields_of(first + seq!['-'] + second, '-') =~= seq![first, second]);
}

/// The ports from `start` to `end`, both included, in ascending order.
pub open spec fn ports_between(start: u16, end: u16) -> Seq<u16> {
    Seq::new(
        if start <= end {
            (end - start + 1) as nat
        } else {
            0
        },
        |i: int| (start + i) as u16,
    )
}

/// The ports of a range, in ascending order: the units of a port sweep.
/// A range whose start lies above its end holds no port.
pub fn expand_port_range(start: u16, end: u16) -> (ports: Vec<u16>)
    ensures
        ports@ == ports_between(start, end),
{
    let mut ports: Vec<u16> = Vec::new();
    if start > end {
        return ports;
    }
    let mut port: u16 = start;
    loop
        invariant_except_break
            start <= port <= end,
            ports@ == Seq::new((port - start) as nat, |i: int| (start + i) as u16),
        ensures
            ports@ == ports_between(start, end),
        decreases end - port,
    {
        ports.push(port);
        if port == end {
            break ;
        }
        port = port + 1;
    }
    ports
}

/// The label of the service that is usually found at `port`.
pub open spec fn service_label(port: u16) -> Seq<char> {
    match port {
        21 => "FTP"@,
        22 => "SSH"@,
        23 => "Telnet"@,
        25 => "SMTP"@,
        53 => "DNS"@,
        80 => "HTTP"@,
        110 => "POP3"@,
        111 => "RPC"@,
        135 => "RPC"@,
        139 => "NetBIOS"@,
        143 => "IMAP"@,
        161 => "SNMP"@,
        443 => "HTTPS"@,
        445 => "SMB"@,
        993 => "IMAPS"@,
        995 => "POP3S"@,
        1723 => "PPTP"@,
        3306 => "MySQL"@,
        3389 => "RDP"@,
        5900 => "VNC"@,
        8080 => "HTTP-Proxy"@,
        _ => "Unknown"@,
    }
}

/// Names the service that is usually found at `port`, from a fixed table
/// of well-known ports.  Every other port is `"Unknown"`.
pub fn identify_service(port: u16) -> (label: String)
    ensures
        label@ == service_label(port),
{
    let name = match port {
        21 => "FTP",
        22 => "SSH",
        23 => "Telnet",
        25 => "SMTP",
        53 => "DNS",
        80 => "HTTP",
        110 => "POP3",
        111 => "RPC",
        135 => "RPC",
        139 => "NetBIOS",
        143 => "IMAP",
        161 => "SNMP",
        443 => "HTTPS",
        445 => "SMB",
        993 => "IMAPS",
        995 => "POP3S",
        1723 => "PPTP",
        3306 => "MySQL",
        3389 => "RDP",
        5900 => "VNC",
        8080 => "HTTP-Proxy",
        _ => "Unknown",
    };
    name.to_owned()
}

} // verus!
