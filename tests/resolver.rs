use diaw::header::DNSHeader;
use diaw::packet::DNSPacket;
use diaw::query::build_query;
use diaw::record::{DNSRecord, DNSRecordResult, IpAddress};
use diaw::resolve::{ResolveError, Resolver, Step, MAX_HOPS};
use diaw::{CLASS_IN, TYPE_A, TYPE_NS};

fn a(name: &str, ip: [u8; 4]) -> DNSRecord {
    DNSRecord::new(name.to_string(), TYPE_A, CLASS_IN, 60, DNSRecordResult::Address(IpAddress::V4(ip)))
}

fn ns(zone: &str, host: &str) -> DNSRecord {
    DNSRecord::new(
        zone.to_string(),
        TYPE_NS,
        CLASS_IN,
        60,
        DNSRecordResult::NameServer(host.to_string()),
    )
}

fn reply(answers: &[DNSRecord], authorities: &[DNSRecord], additionals: &[DNSRecord]) -> Vec<u8> {
    let mut h = DNSHeader::new(1, 0x8000);
    h.num_answers = answers.len() as u16;
    h.num_authorities = authorities.len() as u16;
    h.num_additionals = additionals.len() as u16;
    let mut out = h.to_be_bytes();
    for r in answers.iter().chain(authorities).chain(additionals) {
        out.extend(r.to_record().unwrap());
    }
    out
}

/// Runs a resolution against `transport`, recording each query as
/// (nameserver, name).
fn run(
    target: &str,
    transport: impl Fn(IpAddress, &str) -> Vec<u8>,
) -> (Step, Vec<(IpAddress, String)>) {
    let mut r = Resolver::new(target.to_string(), TYPE_A);
    let mut log = Vec::new();
    loop {
        let name = r.current_name().clone();
        let query = build_query(7, &name, r.record_type).unwrap();
        assert!(query.len() > 12);
        log.push((r.nameserver, name.clone()));
        let bytes = transport(r.nameserver, &name);
        let packet = DNSPacket::parse_dns_packet(&bytes).unwrap();
        match r.step(&packet) {
            Step::Continue => {}
            other => return (other, log),
        }
    }
}

const ROOT: IpAddress = IpAddress::V4([198, 41, 0, 4]);
const TLD: IpAddress = IpAddress::V4([192, 5, 6, 30]);
const AUTH: IpAddress = IpAddress::V4([199, 43, 135, 53]);
const TARGET: [u8; 4] = [93, 184, 216, 34];

#[test]
fn resolves_through_root_tld_and_authority() {
    let (step, log) = run("www.example.com", |server, name| {
        assert_eq!(name, "www.example.com");
        if server == ROOT {
            reply(&[], &[ns("com", "a.gtld-servers.net")], &[a("a.gtld-servers.net", [192, 5, 6, 30])])
        } else if server == TLD {
            reply(
                &[],
                &[ns("example.com", "a.iana-servers.net")],
                &[a("a.iana-servers.net", [199, 43, 135, 53])],
            )
        } else if server == AUTH {
            reply(&[a("www.example.com", TARGET)], &[], &[])
        } else {
            panic!("unexpected nameserver {:?}", server)
        }
    });
    assert_eq!(step, Step::Done(IpAddress::V4(TARGET)));
    assert_eq!(
        log.iter().map(|(s, _)| *s).collect::<Vec<_>>(),
        vec![ROOT, TLD, AUTH]
    );
}

#[test]
fn empty_reply_fails_with_no_progress() {
    let (step, log) = run("www.example.com", |_, _| reply(&[], &[], &[]));
    assert_eq!(step, Step::Failed(ResolveError::NoProgress));
    assert_eq!(log.len(), 1);
}

#[test]
fn referral_without_glue_resolves_the_nameserver_first() {
    let ns_addr = IpAddress::V4([10, 1, 1, 1]);
    let (step, log) = run("www.example.com", |server, name| {
        if server == ROOT {
            reply(&[], &[ns("com", "a.gtld-servers.net")], &[a("a.gtld-servers.net", [192, 5, 6, 30])])
        } else if server == TLD && name == "www.example.com" {
            reply(&[], &[ns("example.com", "ns1.example.net")], &[])
        } else if server == TLD && name == "ns1.example.net" {
            reply(&[a("ns1.example.net", [10, 1, 1, 1])], &[], &[])
        } else if server == ns_addr {
            reply(&[a("www.example.com", TARGET)], &[], &[])
        } else {
            panic!("unexpected query {:?} {}", server, name)
        }
    });
    assert_eq!(step, Step::Done(IpAddress::V4(TARGET)));
    assert_eq!(
        log,
        vec![
            (ROOT, "www.example.com".to_string()),
            (TLD, "www.example.com".to_string()),
            (TLD, "ns1.example.net".to_string()),
            (ns_addr, "www.example.com".to_string()),
        ]
    );
}

#[test]
fn answer_wins_over_glue_and_nameserver() {
    let (step, log) = run("example.org", |_, _| {
        reply(&[a("example.org", [1, 2, 3, 4])], &[ns("org", "x.org")], &[a("x.org", [5, 6, 7, 8])])
    });
    assert_eq!(step, Step::Done(IpAddress::V4([1, 2, 3, 4])));
    assert_eq!(log.len(), 1);
}

#[test]
fn endless_referrals_stop_at_the_hop_limit() {
    let (step, log) = run("loop.example", |_, _| {
        reply(&[], &[ns("example", "ns.example")], &[a("ns.example", [198, 41, 0, 4])])
    });
    assert_eq!(step, Step::Failed(ResolveError::TooManyHops));
    assert_eq!(log.len(), MAX_HOPS as usize);
}

#[test]
fn new_resolver_starts_at_the_root() {
    let r = Resolver::new("www.example.com".to_string(), TYPE_A);
    assert_eq!(r.nameserver, ROOT);
    assert_eq!(r.current_name(), "www.example.com");
    assert_eq!(r.pending.len(), 1);
    assert_eq!(r.hops, 0);
}

#[test]
fn step_pushes_then_pops() {
    let mut r = Resolver::new("www.example.com".to_string(), TYPE_A);
    let referral = DNSPacket::parse_dns_packet(&reply(&[], &[ns("com", "ns.other")], &[])).unwrap();
    assert_eq!(r.step(&referral), Step::Continue);
    assert_eq!(r.current_name(), "ns.other");
    assert_eq!(r.nameserver, ROOT);
    let answer = DNSPacket::parse_dns_packet(&reply(&[a("ns.other", [9, 9, 9, 9])], &[], &[])).unwrap();
    assert_eq!(r.step(&answer), Step::Continue);
    assert_eq!(r.current_name(), "www.example.com");
    assert_eq!(r.nameserver, IpAddress::V4([9, 9, 9, 9]));
    assert_eq!(r.hops, 2);
}
