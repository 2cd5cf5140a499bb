//! Ethernet/IPv4 header parsing and per-connection traffic statistics.
//!
//! Addresses are IPv4 addresses held as the big-endian `u32` of their four
//! octets (the value `Ipv4Addr::from` takes).

use vstd::prelude::*;
use vstd::std_specs::hash::spec_hash_map_iter;
use vstd::std_specs::iter::IteratorSpec;
use std::collections::HashMap;
use vstd::string::*;
use crate::text::{decimal, owned, push_char, push_decimal};

verus! {

/// Transport protocol of a connection.
#[derive(Clone, Copy, PartialEq, Eq, Debug)]
pub enum Protocol {
    Tcp,
    Udp,
}

/// The 5-tuple that identifies a connection.
#[derive(Clone, Copy, PartialEq, Eq, Debug)]
pub struct Connection {
    pub src_ip: u32,
    pub dst_ip: u32,
    pub src_port: u16,
    pub dst_port: u16,
    pub protocol: Protocol,
}

/// Ethertype of an 802.1Q VLAN tag.
pub const ETHERTYPE_VLAN: u16 = 0x8100;

/// Ethertype of an 802.1ad (QinQ) VLAN tag.
pub const ETHERTYPE_QINQ: u16 = 0x88a8;

/// Ethertype of IPv4.
pub const ETHERTYPE_IPV4: u16 = 0x0800;

/// A big-endian 16-bit number.
pub open spec fn be16(hi: u8, lo: u8) -> nat {
    hi as nat * 256 + lo as nat
}

/// A big-endian 32-bit number.
pub open spec fn be32(b0: u8, b1: u8, b2: u8, b3: u8) -> nat {
    b0 as nat * 0x100_0000 + b1 as nat * 0x1_0000 + b2 as nat * 0x100 + b3 as nat
}

/// Follows the VLAN tags that start at `offset` while `ethertype` names one:
/// the ethertype after them and the offset of the payload, or `None` when a
/// tag is cut short.
pub open spec fn skip_vlan_tags(data: Seq<u8>, ethertype: nat, offset: nat) -> Option<(nat, nat)>
    decreases data.len() - offset,
{
    if ethertype == ETHERTYPE_VLAN || ethertype == ETHERTYPE_QINQ {
        if data.len() < offset + 4 {
            None
        } else {
            skip_vlan_tags(data, be16(data[offset + 2 as int], data[offset + 3 as int]), offset + 4)
        }
    } else {
        Some((ethertype, offset))
    }
}

/// The transport protocol numbered `n` in the IPv4 header, if TCP or UDP.
pub open spec fn protocol_of(n: u8) -> Option<Protocol> {
    if n == 6 {
        Some(Protocol::Tcp)
    } else if n == 17 {
        Some(Protocol::Udp)
    } else {
        None
    }
}

/// The connection and byte count of an Ethernet frame carrying IPv4 with a
/// TCP or UDP header, or `None` for any other or truncated frame.
///
/// The byte count is the IPv4 total length, or the captured length when the
/// total length is smaller than the headers it must cover.
pub open spec fn packet_summary(data: Seq<u8>) -> Option<(Connection, u64)> {
    if data.len() < 14 {
        None
    } else {
        match skip_vlan_tags(data, be16(data[12], data[13]), 14) {
            None => None,
            Some((ethertype, offset)) => {
                let ip = data.skip(offset as int);
                let ihl = ip[0] % 16;
                let header_len = ihl * 4;
                if ethertype != ETHERTYPE_IPV4 || ip.len() < 20 || ip[0] / 16 != 4 || ihl < 5
                    || ip.len() < header_len + 4 || protocol_of(ip[9]) is None {
                    None
                } else {
                    let l4 = ip.skip(header_len as int);
                    let total_len = be16(ip[2], ip[3]);
                    Some(
                        (
                            Connection {
                                src_ip: be32(ip[12], ip[13], ip[14], ip[15]) as u32,
                                dst_ip: be32(ip[16], ip[17], ip[18], ip[19]) as u32,
                                src_port: be16(l4[0], l4[1]) as u16,
                                dst_port: be16(l4[2], l4[3]) as u16,
                                protocol: protocol_of(ip[9])->0,
                            },
                            if total_len >= header_len + 4 {
                                total_len as u64
                            } else {
                                data.len() as u64
                            },
                        ),
                    )
                }
            },
        }
    }
}

/// The frame with a VLAN tag (tag protocol `tpid`, control bytes `tci0`,
/// `tci1`) inserted after the addresses.
pub open spec fn with_vlan_tag(data: Seq<u8>, tpid: u16, tci0: u8, tci1: u8) -> Seq<u8> {
    data.take(12) + seq![(tpid / 256) as u8, (tpid % 256) as u8, tci0, tci1] + data.skip(12)
}

/// Tag-following reads the same ethertypes four bytes later in a frame with
/// one more tag inserted before `offset`.
proof fn lemma_skip_vlan_shifted(data: Seq<u8>, tagged: Seq<u8>, ethertype: nat, offset: nat)
    requires
        offset >= 12,
        tagged.len() == data.len() + 4,
        forall|i: int| offset <= i < data.len() ==> tagged[i + 4] == data[i],
    ensures
        skip_vlan_tags(tagged, ethertype, offset + 4) == match skip_vlan_tags(data, ethertype, offset) {
            Some((e, o)) => Some((e, o + 4)),
            None => None::<(nat, nat)>,
        },
    decreases data.len() - offset,
{
    if (ethertype == ETHERTYPE_VLAN || ethertype == ETHERTYPE_QINQ) && data.len() >= offset + 4 {
        assert(tagged[offset + 6 as int] == data[offset + 2 as int]);
        assert(tagged[offset + 7 as int] == data[offset + 3 as int]);
        lemma_skip_vlan_shifted(data, tagged, be16(data[offset + 2 as int], data[offset + 3 as int]), offset + 4);
    }
}

/// VLAN tags are skipped: a frame reads as the same connection, or as
/// nothing, with or without a tag.
pub proof fn lemma_vlan_tag_transparent(data: Seq<u8>, tpid: u16, tci0: u8, tci1: u8)
    requires
        data.len() >= 14,
        tpid == ETHERTYPE_VLAN || tpid == ETHERTYPE_QINQ,
    ensures
        ({
            let tagged = with_vlan_tag(data, tpid, tci0, tci1);
            match (packet_summary(data), packet_summary(tagged)) {
                (Some((c, _)), Some((d, _))) => c == d,
                (None, None) => true,
                _ => false,
            }
        }),
{
    let tagged = with_vlan_tag(data, tpid, tci0, tci1);
    assert(tagged[12] == (tpid / 256) as u8 && tagged[13] == (tpid % 256) as u8);
    assert(be16(tagged[12], tagged[13]) == tpid);
    assert(tagged[16] == data[12] && tagged[17] == data[13]);
    assert forall|i: int| 14 <= i < data.len() implies tagged[i + 4] == data[i] by {
        assert(tagged[i + 4] == data.skip(12)[i - 12]);
    }
    lemma_skip_vlan_shifted(data, tagged, be16(data[12], data[13]), 14);
    assert(skip_vlan_tags(tagged, tpid as nat, 14) == skip_vlan_tags(
        tagged,
        be16(data[12], data[13]),
        18,
    ));
    if let Some((e, o)) = skip_vlan_tags(data, be16(data[12], data[13]), 14) {
        lemma_skip_vlan_bounds(data, be16(data[12], data[13]), 14);
        assert(tagged.skip(o + 4 as int) =~= data.skip(o as int));
    }
}

/// The payload offset found after the tags lies within the frame.
proof fn lemma_skip_vlan_bounds(data: Seq<u8>, ethertype: nat, offset: nat)
    requires
        offset <= data.len(),
    ensures
        skip_vlan_tags(data, ethertype, offset) matches Some((e, o)) ==> offset <= o <= data.len(),
    decreases data.len() - offset,
{
    if (ethertype == ETHERTYPE_VLAN || ethertype == ETHERTYPE_QINQ) && data.len() >= offset + 4 {
        lemma_skip_vlan_bounds(data, be16(data[offset + 2 as int], data[offset + 3 as int]), offset + 4);
    }
}

/// Reads a big-endian 16-bit number.
pub fn read_be16(hi: u8, lo: u8) -> (r: u16)
    ensures
        r as nat == be16(hi, lo),
{
    hi as u16 * 256 + lo as u16
}

/// Reads a big-endian 32-bit number.
pub fn read_be32(b0: u8, b1: u8, b2: u8, b3: u8) -> (r: u32)
    ensures
        r as nat == be32(b0, b1, b2, b3),
{
    b0 as u32 * 0x100_0000 + b1 as u32 * 0x1_0000 + b2 as u32 * 0x100 + b3 as u32
}

/// Reads the connection and byte count of a captured frame.
pub fn parse_packet(data: &[u8]) -> (r: Option<(Connection, u64)>)
    ensures
        r == packet_summary(data@),
{
    // Ethernet frame: 14-byte header, ethertype at offset 12.
    if data.len() < 14 {
        return None;
    }
    let mut ethertype = read_be16(data[12], data[13]);
    let mut offset: usize = 14;
    // Skip 802.1Q / 802.1ad VLAN tags.
    while ethertype == ETHERTYPE_VLAN || ethertype == ETHERTYPE_QINQ
        invariant
            14 <= offset <= data@.len(),
            skip_vlan_tags(data@, be16(data@[12], data@[13]), 14) == skip_vlan_tags(
                data@,
                ethertype as nat,
                offset as nat,
            ),
        decreases data@.len() - offset,
    {
        if data.len() - offset < 4 {
            return None;
        }
        ethertype = read_be16(data[offset + 2], data[offset + 3]);
        offset = offset + 4;
    }
    if ethertype != ETHERTYPE_IPV4 {
        return None;
    }
    // IPv4 header.
    let ip = vstd::slice::slice_subrange(data, offset, data.len());
    assert(ip@ =~= data@.skip(offset as int));
    if ip.len() < 20 {
        return None;
    }
    let version_ihl = ip[0];
    if version_ihl / 16 != 4 {
        return None;
    }
    let ihl = (version_ihl % 16) as usize;
    if ihl < 5 {
        return None;
    }
    let ip_hdr_len = ihl * 4;
    if ip.len() < ip_hdr_len {
        return None;
    }
    let total_len = read_be16(ip[2], ip[3]) as usize;
    let src_ip = read_be32(ip[12], ip[13], ip[14], ip[15]);
    let dst_ip = read_be32(ip[16], ip[17], ip[18], ip[19]);
    // Transport header: source and destination ports open both TCP and UDP.
    let l4 = vstd::slice::slice_subrange(ip, ip_hdr_len, ip.len());
    assert(l4@ =~= ip@.skip(ip_hdr_len as int));
    if l4.len() < 4 {
        return None;
    }
    let src_port = read_be16(l4[0], l4[1]);
    let dst_port = read_be16(l4[2], l4[3]);
    let protocol = if ip[9] == 6 {
        Protocol::Tcp
    } else if ip[9] == 17 {
        Protocol::Udp
    } else {
        return None;
    };
    // The capture keeps headers only, so count the IPv4 total length, unless
    // it is too small to be true.
    let bytes = if total_len >= ip_hdr_len + 4 {
        total_len as u64
    } else {
        data.len() as u64
    };
    Some((Connection { src_ip, dst_ip, src_port, dst_port, protocol }, bytes))
}

/// The number of a protocol inside a connection key.
pub open spec fn protocol_number(p: Protocol) -> nat {
    match p {
        Protocol::Tcp => 6,
        Protocol::Udp => 17,
    }
}

/// A connection packed into one integer: source and destination address,
/// source and destination port, protocol number, from the most significant
/// bits down.
pub open spec fn connection_key_of(c: Connection) -> u128 {
    (c.src_ip as nat * 0x1_0000_0000_0000_0000_0000_0000 + c.dst_ip as nat
        * 0x1_0000_0000_0000_0000 + c.src_port as nat * 0x1_0000_0000_0000 + c.dst_port as nat
        * 0x1_0000_0000 + protocol_number(c.protocol)) as u128
}

/// A number written in base `base` has one last digit and one rest.
proof fn lemma_split_digit(xa: int, ra: int, xb: int, rb: int, base: int)
    requires
        base > 0,
        0 <= ra < base,
        0 <= rb < base,
        xa * base + ra == xb * base + rb,
    ensures
        xa == xb,
        ra == rb,
{
    vstd::arithmetic::div_mod::lemma_fundamental_div_mod_converse(xa * base + ra, base, xa, ra);
    vstd::arithmetic::div_mod::lemma_fundamental_div_mod_converse(xb * base + rb, base, xb, rb);
}

/// Distinct connections have distinct keys, so each is counted on its own.
pub proof fn lemma_connection_key_injective(a: Connection, b: Connection)
    ensures
        connection_key_of(a) == connection_key_of(b) ==> a == b,
{
    let pa = protocol_number(a.protocol) as int;
    let pb = protocol_number(b.protocol) as int;
    let wa = a.src_ip as int * 0x1_0000_0000 + a.dst_ip as int;
    let wb = b.src_ip as int * 0x1_0000_0000 + b.dst_ip as int;
    let va = wa * 0x1_0000 + a.src_port as int;
    let vb = wb * 0x1_0000 + b.src_port as int;
    let ua = va * 0x1_0000 + a.dst_port as int;
    let ub = vb * 0x1_0000 + b.dst_port as int;
    assert(connection_key_of(a) as int == ua * 0x1_0000_0000 + pa);
    assert(connection_key_of(b) as int == ub * 0x1_0000_0000 + pb);
    if connection_key_of(a) == connection_key_of(b) {
        lemma_split_digit(ua, pa, ub, pb, 0x1_0000_0000);
        lemma_split_digit(va, a.dst_port as int, vb, b.dst_port as int, 0x1_0000);
        lemma_split_digit(wa, a.src_port as int, wb, b.src_port as int, 0x1_0000);
        lemma_split_digit(a.src_ip as int, a.dst_ip as int, b.src_ip as int, b.dst_ip as int, 0x1_0000_0000);
        assert(a.protocol == b.protocol);
    }
}

/// The key under which a connection is counted.
pub fn connection_key(c: &Connection) -> (k: u128)
    ensures
        k == connection_key_of(*c),
{
    let p: u128 = match c.protocol {
        Protocol::Tcp => 6,
        Protocol::Udp => 17,
    };
    c.src_ip as u128 * 0x1_0000_0000_0000_0000_0000_0000 + c.dst_ip as u128
        * 0x1_0000_0000_0000_0000 + c.src_port as u128 * 0x1_0000_0000_0000 + c.dst_port as u128
        * 0x1_0000_0000 + p
}

/// What a map counts for `k`: its entry, or zero.
pub open spec fn count_of<K>(m: Map<K, u64>, k: K) -> nat {
    if m.contains_key(k) {
        m[k] as nat
    } else {
        0
    }
}

/// The map with `n` added to what it counts for `k`.
pub open spec fn add_count<K>(m: Map<K, u64>, k: K, n: nat) -> Map<K, u64> {
    m.insert(k, (count_of(m, k) + n) as u64)
}

/// The hosts of a list of (host, bytes) pairs.
pub open spec fn hosts_of(s: Seq<(u32, u64)>) -> Seq<u32> {
    s.map_values(|p: (u32, u64)| p.0)
}

/// Recording a packet adds its bytes to its own connection only: every other
/// connection keeps its count.
pub proof fn lemma_record_connection_count(
    before: Stats,
    after: Stats,
    conn: Connection,
    bytes: u64,
    other: Connection,
)
    requires
        after.is_record_of(before, conn, bytes),
        before.can_record(conn, bytes),
    ensures
        count_of(after.connection_counts(), connection_key_of(other)) == if other == conn {
            count_of(before.connection_counts(), connection_key_of(conn)) + bytes as nat
        } else {
            count_of(before.connection_counts(), connection_key_of(other))
        },
{
    lemma_connection_key_injective(conn, other);
}

/// Recording a packet adds its bytes to a host once for each end of the
/// connection it is, and leaves every other host as it was.
pub proof fn lemma_record_host_count(before: Stats, after: Stats, conn: Connection, bytes: u64, host: u32)
    requires
        after.is_record_of(before, conn, bytes),
        before.can_record(conn, bytes),
    ensures
        count_of(after.host_counts(), host) == count_of(before.host_counts(), host) + (if host
            == conn.src_ip {
            bytes as nat
        } else {
            0
        }) + (if host == conn.dst_ip {
            bytes as nat
        } else {
            0
        }),
{
}

/// The sum of the counts of a map with finitely many keys.
pub open spec fn map_total<K>(m: Map<K, u64>) -> nat
    decreases m.dom().len(),
    when m.dom().finite()
{
    if m.dom().len() == 0 {
        0
    } else {
        let k = m.dom().choose();
        m[k] as nat + map_total(m.remove(k))
    }
}

/// Any key may be taken out of the total first.
pub proof fn lemma_map_total_remove<K>(m: Map<K, u64>, k: K)
    requires
        m.dom().finite(),
        m.dom().contains(k),
    ensures
        map_total(m) == m[k] as nat + map_total(m.remove(k)),
    decreases m.dom().len(),
{
    let j = m.dom().choose();
    assert(m.dom().len() > 0);
    if j != k {
        assert(m.remove(j).dom().len() < m.dom().len());
        assert(m.remove(k).dom().len() < m.dom().len());
        lemma_map_total_remove(m.remove(j), k);
        lemma_map_total_remove(m.remove(k), j);
        assert(m.remove(j).remove(k) =~= m.remove(k).remove(j));
    }
}

/// Setting the count of `k` to `v` moves the total by the difference.
pub proof fn lemma_map_total_insert<K>(m: Map<K, u64>, k: K, v: u64)
    requires
        m.dom().finite(),
    ensures
        map_total(m.insert(k, v)) + count_of(m, k) == map_total(m) + v,
{
    let n = m.insert(k, v);
    lemma_map_total_remove(n, k);
    if m.dom().contains(k) {
        lemma_map_total_remove(m, k);
        assert(n.remove(k) =~= m.remove(k));
    } else {
        assert(n.remove(k) =~= m);
    }
}

/// The counters agree with the totals: the connection counts add up to the
/// bytes, the host counts to twice the bytes (each packet counts for both
/// ends), there are no more connections than packets, and every counted host
/// is an end of some counted connection.
pub open spec fn totals_agree(s: Stats) -> bool {
    &&& s.connection_counts().dom().finite()
    &&& s.host_counts().dom().finite()
    &&& map_total(s.connection_counts()) == s.bytes()
    &&& map_total(s.host_counts()) == 2 * s.bytes()
    &&& s.connection_counts().len() <= s.packets()
    &&& forall|h: u32|
        #[trigger] s.host_counts().contains_key(h) ==> exists|c: Connection|
            s.connection_counts().contains_key(connection_key_of(c)) && (c.src_ip == h || c.dst_ip
                == h)
}

/// Recording a packet counts one more packet and its bytes, and one more
/// connection exactly when its connection had not been recorded before; so
/// the totals line of the summary after the record reads the packet count
/// plus one and the connection count grown only by a new connection.
pub proof fn lemma_record_totals(before: Stats, after: Stats, conn: Connection, bytes: u64)
    requires
        after.is_record_of(before, conn, bytes),
    ensures
        after.packets() == before.packets() + 1,
        after.bytes() == before.bytes() + bytes,
        after.connection_counts().len() == before.connection_counts().len() + if before.connection_counts().contains_key(
            connection_key_of(conn),
        ) {
            0nat
        } else {
            1nat
        },
        totals_line(after.packets(), after.bytes(), after.connection_counts().len())
            == "packets "@ + decimal(before.packets() + 1) + "  bytes "@ + decimal(
            before.bytes() + bytes as nat,
        ) + "  connections "@ + decimal(
            before.connection_counts().len() + if before.connection_counts().contains_key(
                connection_key_of(conn),
            ) {
                0nat
            } else {
                1nat
            },
        ),
{
    before.lemma_counts_finite();
    let conns = before.connection_counts();
    let key = connection_key_of(conn);
    assert(after.connection_counts().dom() == conns.dom().insert(key));
    if conns.contains_key(key) {
        assert(conns.dom().insert(key) =~= conns.dom());
    }
}

/// Empty statistics agree with their totals.
pub proof fn lemma_empty_totals_agree(s: Stats)
    requires
        s.connection_counts() == Map::<u128, u64>::empty(),
        s.host_counts() == Map::<u32, u64>::empty(),
        s.bytes() == 0,
    ensures
        totals_agree(s),
{
    assert(s.connection_counts().dom() =~= Set::<u128>::empty());
    assert(s.host_counts().dom() =~= Set::<u32>::empty());
}

/// Recording a packet keeps the counters in agreement with the totals.
pub proof fn lemma_record_keeps_totals(before: Stats, after: Stats, conn: Connection, bytes: u64)
    requires
        totals_agree(before),
        before.can_record(conn, bytes),
        after.is_record_of(before, conn, bytes),
    ensures
        totals_agree(after),
{
    let hosts = before.host_counts();
    let mid = add_count(hosts, conn.src_ip, bytes as nat);
    lemma_map_total_insert(hosts, conn.src_ip, (count_of(hosts, conn.src_ip) + bytes) as u64);
    lemma_map_total_insert(mid, conn.dst_ip, (count_of(mid, conn.dst_ip) + bytes) as u64);
    let conns = before.connection_counts();
    let key = connection_key_of(conn);
    lemma_map_total_insert(conns, key, (count_of(conns, key) + bytes) as u64);
    assert(after.connection_counts().dom() == conns.dom().insert(key));
    assert forall|h: u32| #[trigger] after.host_counts().contains_key(h) implies exists|c: Connection|
        after.connection_counts().contains_key(connection_key_of(c)) && (c.src_ip == h || c.dst_ip
            == h) by {
        if h == conn.src_ip || h == conn.dst_ip {
            assert(after.connection_counts().contains_key(connection_key_of(conn)));
        } else {
            assert(hosts.contains_key(h));
            let c = choose|c: Connection|
                conns.contains_key(connection_key_of(c)) && (c.src_ip == h || c.dst_ip == h);
            assert(after.connection_counts().contains_key(connection_key_of(c)));
        }
    }
}

/// A summary is due once ten seconds have passed since the last one.
pub fn summary_due(elapsed_secs: u64) -> (r: bool)
    ensures
        r == (elapsed_secs >= 10),
{
    elapsed_secs >= 10
}

/// An IPv4 address in dotted decimal notation, as `Ipv4Addr` prints it.
pub open spec fn dotted_quad(ip: u32) -> Seq<char> {
    decimal((ip / 0x100_0000) as nat) + seq!['.'] + decimal(((ip / 0x1_0000) % 0x100) as nat)
        + seq!['.'] + decimal(((ip / 0x100) % 0x100) as nat) + seq!['.'] + decimal(
        (ip % 0x100) as nat,
    )
}

/// Appends an address in dotted decimal notation.
pub fn push_dotted_quad(s: &mut String, ip: u32)
    ensures
        final(s)@ == old(s)@ + dotted_quad(ip),
{
    push_decimal(s, (ip / 0x100_0000) as u64);
    push_char(s, '.');
    push_decimal(s, ((ip / 0x1_0000) % 0x100) as u64);
    push_char(s, '.');
    push_decimal(s, ((ip / 0x100) % 0x100) as u64);
    push_char(s, '.');
    push_decimal(s, (ip % 0x100) as u64);
    assert(final(s)@ =~= old(s)@ + dotted_quad(ip));
}

/// The totals line of the summary.
pub open spec fn totals_line(packets: nat, bytes: nat, connections: nat) -> Seq<char> {
    "packets "@ + decimal(packets) + "  bytes "@ + decimal(bytes) + "  connections "@ + decimal(
        connections,
    )
}

/// The totals line reads, in this order, the number of packets, the number
/// of bytes and the number of connections it is given.
pub proof fn lemma_totals_line_order(packets: nat, bytes: nat, connections: nat)
    ensures
        totals_line(packets, bytes, connections) == "packets "@ + decimal(packets) + "  bytes "@
            + decimal(bytes) + "  connections "@ + decimal(connections),
{
}

/// The summary line of one host.
pub open spec fn host_line(entry: (u32, u64)) -> Seq<char> {
    "  "@ + dotted_quad(entry.0) + ": "@ + decimal(entry.1 as nat) + " bytes"@
}

/// Traffic statistics: bytes per connection, bytes per host, and totals.
pub struct Stats {
    connections: HashMap<u128, u64>,
    bytes_per_host: HashMap<u32, u64>,
    total_packets: u64,
    total_bytes: u64,
}

impl Default for Stats {
    /// Statistics with nothing recorded.
    fn default() -> (s: Self)
        ensures
            s.connection_counts() == Map::<u128, u64>::empty(),
            s.host_counts() == Map::<u32, u64>::empty(),
            s.packets() == 0,
            s.bytes() == 0,
            totals_agree(s),
    {
        Stats::new()
    }
}

impl Stats {
    /// Bytes per connection, by connection key.
    pub closed spec fn connection_counts(&self) -> Map<u128, u64> {
        self.connections@
    }

    /// Bytes sent or received per host address.
    pub closed spec fn host_counts(&self) -> Map<u32, u64> {
        self.bytes_per_host@
    }

    /// Packets recorded.
    pub closed spec fn packets(&self) -> nat {
        self.total_packets as nat
    }

    /// Bytes recorded.
    pub closed spec fn bytes(&self) -> nat {
        self.total_bytes as nat
    }

    /// The counters of statistics hold finitely many keys.
    pub proof fn lemma_counts_finite(&self)
        ensures
            self.connection_counts().dom().finite(),
            self.host_counts().dom().finite(),
    {
        vstd::std_specs::hash::axiom_hashmap_view_finite_dom(self.connections);
        vstd::std_specs::hash::axiom_hashmap_view_finite_dom(self.bytes_per_host);
    }

    /// Statistics with nothing recorded.
    pub fn new() -> (s: Self)
        ensures
            s.connection_counts() == Map::<u128, u64>::empty(),
            s.host_counts() == Map::<u32, u64>::empty(),
            s.packets() == 0,
            s.bytes() == 0,
            totals_agree(s),
    {
        broadcast use vstd::std_specs::hash::group_hash_axioms;

        let s = Stats {
            connections: HashMap::new(),
            bytes_per_host: HashMap::new(),
            total_packets: 0,
            total_bytes: 0,
        };
        proof {
            lemma_empty_totals_agree(s);
        }
        s
    }

    /// Recording the packet keeps every counter within `u64`.
    pub open spec fn can_record(&self, conn: Connection, bytes: u64) -> bool {
        let hosts = self.host_counts();
        &&& self.packets() + 1 <= u64::MAX
        &&& self.bytes() + bytes <= u64::MAX
        &&& count_of(hosts, conn.src_ip) + bytes <= u64::MAX
        &&& count_of(add_count(hosts, conn.src_ip, bytes as nat), conn.dst_ip) + bytes <= u64::MAX
        &&& count_of(self.connection_counts(), connection_key_of(conn)) + bytes <= u64::MAX
    }

    /// These statistics are `before` with one packet of `bytes` bytes on
    /// `conn` counted: for the connection, for its source host and for its
    /// destination host (twice for a host talking to itself), and in the
    /// totals.
    pub open spec fn is_record_of(self, before: Self, conn: Connection, bytes: u64) -> bool {
        &&& self.host_counts() == add_count(
            add_count(before.host_counts(), conn.src_ip, bytes as nat),
            conn.dst_ip,
            bytes as nat,
        )
        &&& self.connection_counts() == add_count(
            before.connection_counts(),
            connection_key_of(conn),
            bytes as nat,
        )
        &&& self.packets() == before.packets() + 1
        &&& self.bytes() == before.bytes() + bytes
    }

    /// The same counts as `other`.
    pub open spec fn same_counts(self, other: Self) -> bool {
        &&& self.host_counts() == other.host_counts()
        &&& self.connection_counts() == other.connection_counts()
        &&& self.packets() == other.packets()
        &&& self.bytes() == other.bytes()
    }

    /// Counting the frame, if it is one that is counted, keeps every counter
    /// within `u64`.
    pub open spec fn can_observe(&self, data: Seq<u8>) -> bool {
        packet_summary(data) matches Some((conn, bytes)) ==> self.can_record(conn, bytes)
    }

    /// Counts a captured frame when it carries IPv4 TCP or UDP; any other
    /// frame leaves the statistics as they are.
    pub fn observe(&mut self, data: &[u8])
        requires
            old(self).can_observe(data@),
        ensures
            match packet_summary(data@) {
                Some((conn, bytes)) => final(self).is_record_of(*old(self), conn, bytes),
                None => final(self).same_counts(*old(self)),
            },
            totals_agree(*old(self)) ==> totals_agree(*final(self)),
    {
        if let Some((conn, bytes)) = parse_packet(data) {
            self.record(conn, bytes);
        }
    }

    /// Whether `observe(data)` keeps every counter within `u64`.
    pub fn observe_fits(&self, data: &[u8]) -> (r: bool)
        ensures
            r == self.can_observe(data@),
    {
        match parse_packet(data) {
            Some((conn, bytes)) => self.record_fits(&conn, bytes),
            None => true,
        }
    }

    /// Whether `record(conn, bytes)` keeps every counter within `u64`.
    pub fn record_fits(&self, conn: &Connection, bytes: u64) -> (r: bool)
        ensures
            r == self.can_record(*conn, bytes),
    {
        broadcast use vstd::std_specs::hash::group_hash_axioms;

        if self.total_packets == u64::MAX || bytes > u64::MAX - self.total_bytes {
            return false;
        }
        let src = match self.bytes_per_host.get(&conn.src_ip) {
            Some(v) => *v,
            None => 0,
        };
        if bytes > u64::MAX - src {
            return false;
        }
        let dst_before = match self.bytes_per_host.get(&conn.dst_ip) {
            Some(v) => *v,
            None => 0,
        };
        let dst = if conn.dst_ip == conn.src_ip {
            src + bytes
        } else {
            dst_before
        };
        if bytes > u64::MAX - dst {
            return false;
        }
        let key = connection_key(conn);
        let c = match self.connections.get(&key) {
            Some(v) => *v,
            None => 0,
        };
        bytes <= u64::MAX - c
    }

    /// Adds `n` to the count of `k`.
    fn bump<K: std::hash::Hash + Eq + Copy>(m: &mut HashMap<K, u64>, k: K, n: u64)
        requires
            vstd::std_specs::hash::obeys_key_model::<K>(),
            count_of(old(m)@, k) + n <= u64::MAX,
        ensures
            final(m)@ == add_count(old(m)@, k, n as nat),
    {
        broadcast use vstd::std_specs::hash::group_hash_axioms;

        let current = match m.get(&k) {
            Some(v) => *v,
            None => 0,
        };
        m.insert(k, current + n);
    }

    /// Counts one packet of `bytes` bytes on the connection: for the
    /// connection, for its source host and for its destination host (twice
    /// for a host talking to itself), and in the totals.
    pub fn record(&mut self, conn: Connection, bytes: u64)
        requires
            old(self).can_record(conn, bytes),
        ensures
            final(self).is_record_of(*old(self), conn, bytes),
            totals_agree(*old(self)) ==> totals_agree(*final(self)),
    {
        broadcast use vstd::std_specs::hash::group_hash_axioms;

        Self::bump(&mut self.bytes_per_host, conn.src_ip, bytes);
        Self::bump(&mut self.bytes_per_host, conn.dst_ip, bytes);
        Self::bump(&mut self.connections, connection_key(&conn), bytes);
        self.total_packets = self.total_packets + 1;
        self.total_bytes = self.total_bytes + bytes;
        proof {
            if totals_agree(*old(self)) {
                lemma_record_keeps_totals(*old(self), *self, conn, bytes);
            }
        }
    }

    /// `t` lists the hosts with the most bytes, with their counts: `limit` of
    /// them (or every host, if fewer), each once, most bytes first, and no
    /// host left out has more bytes than one listed.
    pub open spec fn is_top_hosts(self, limit: nat, t: Seq<(u32, u64)>) -> bool {
        let hosts = self.host_counts();
        &&& t.len() == if limit < hosts.len() {
            limit
        } else {
            hosts.len()
        }
        &&& forall|i: int|
            0 <= i < t.len() ==> hosts.contains_key(#[trigger] t[i].0) && hosts[t[i].0] == t[i].1
        &&& forall|i: int, j: int| 0 <= i < j < t.len() ==> t[i].0 != t[j].0
        &&& forall|i: int, j: int| 0 <= i < j < t.len() ==> t[i].1 >= t[j].1
        &&& forall|k: u32, i: int|
            hosts.contains_key(k) && 0 <= i < t.len() && !hosts_of(t).contains(k)
                ==> #[trigger] hosts[k] <= #[trigger] t[i].1
    }

    /// The hosts with the most bytes, at most `limit` of them, most bytes
    /// first; hosts with equal counts come in no particular order.
    pub fn top_hosts(&self, limit: usize) -> (r: Vec<(u32, u64)>)
        ensures
            self.is_top_hosts(limit as nat, r@),
    {
        broadcast use vstd::std_specs::hash::group_hash_axioms;

        let ghost hosts = self.host_counts();
        let mut rest: Vec<(u32, u64)> = Vec::new();
        for entry in it: self.bytes_per_host.iter()
            invariant
                hosts == self.bytes_per_host@,
                it.seq() == spec_hash_map_iter(&self.bytes_per_host).remaining(),
                rest@.len() == it.index(),
                forall|i: int|
                    0 <= i < it.index() ==> #[trigger] rest@[i] == (*it.seq()[i].0, *it.seq()[i].1),
        {
            rest.push((*entry.0, *entry.1));
        }
        proof {
            let seq = spec_hash_map_iter(&self.bytes_per_host).remaining();
            assert(rest@.len() == hosts.dom().len());
            assert forall|i: int| 0 <= i < rest@.len() implies hosts.contains_key(
                #[trigger] rest@[i].0,
            ) && hosts[rest@[i].0] == rest@[i].1 by {
                assert(rest@[i] == (*seq[i].0, *seq[i].1));
            }
            assert forall|k: u32| hosts.contains_key(k) implies hosts_of(rest@).contains(k) by {
                assert(seq.contains((&k, &hosts[k])));
                let i = choose|i: int| 0 <= i < seq.len() && seq[i] == (&k, &hosts[k]);
                assert(hosts_of(rest@)[i] == k);
            }
            assert forall|i: int, j: int| 0 <= i < j < rest@.len() implies rest@[i].0
                != rest@[j].0 by {
                if rest@[i].0 == rest@[j].0 {
                    assert(seq[i] == seq[j]);
                }
            }
        }
        let mut top: Vec<(u32, u64)> = Vec::new();
        while top.len() < limit && rest.len() > 0
            invariant
                top@.len() <= limit,
                top@.len() + rest@.len() == hosts.dom().len(),
                hosts == self.host_counts(),
                forall|i: int|
                    0 <= i < rest@.len() ==> hosts.contains_key(#[trigger] rest@[i].0)
                        && hosts[rest@[i].0] == rest@[i].1,
                forall|i: int|
                    0 <= i < top@.len() ==> hosts.contains_key(#[trigger] top@[i].0)
                        && hosts[top@[i].0] == top@[i].1,
                forall|k: u32|
                    hosts.contains_key(k) ==> hosts_of(top@).contains(k) || hosts_of(
                        rest@,
                    ).contains(k),
                forall|i: int, j: int| 0 <= i < j < rest@.len() ==> rest@[i].0 != rest@[j].0,
                forall|i: int, j: int| 0 <= i < j < top@.len() ==> top@[i].0 != top@[j].0,
                forall|i: int, j: int|
                    0 <= i < top@.len() && 0 <= j < rest@.len() ==> top@[i].0 != rest@[j].0,
                forall|i: int, j: int| 0 <= i < j < top@.len() ==> top@[i].1 >= top@[j].1,
                forall|i: int, j: int|
                    0 <= i < top@.len() && 0 <= j < rest@.len() ==> top@[i].1 >= rest@[j].1,
            decreases rest@.len(),
        {
            let mut best: usize = 0;
            let mut i: usize = 1;
            while i < rest.len()
                invariant
                    best < rest@.len(),
                    1 <= i <= rest@.len(),
                    forall|j: int| 0 <= j < i ==> rest@[j].1 <= rest@[best as int].1,
                decreases rest@.len() - i,
            {
                if rest[i].1 > rest[best].1 {
                    best = i;
                }
                i = i + 1;
            }
            let ghost old_top = top@;
            let ghost old_rest = rest@;
            let chosen = rest.remove(best);
            top.push(chosen);
            proof {
                assert(top@ == old_top.push(chosen));
                assert(rest@ == old_rest.remove(best as int));
                assert forall|k: u32| hosts.contains_key(k) implies hosts_of(top@).contains(k)
                    || hosts_of(rest@).contains(k) by {
                    if hosts_of(old_top).contains(k) {
                        let i = choose|i: int| 0 <= i < old_top.len() && hosts_of(old_top)[i] == k;
                        assert(hosts_of(top@)[i] == k);
                    } else {
                        let i = choose|i: int| 0 <= i < old_rest.len() && hosts_of(old_rest)[i] == k;
                        if i == best {
                            assert(hosts_of(top@)[old_top.len() as int] == k);
                        } else if i < best {
                            assert(hosts_of(rest@)[i] == k);
                        } else {
                            assert(hosts_of(rest@)[i - 1] == k);
                        }
                    }
                }
            }
        }
        proof {
            assert forall|k: u32, i: int|
                hosts.contains_key(k) && 0 <= i < top@.len() && !hosts_of(top@).contains(k)
                implies #[trigger] hosts[k] <= #[trigger] top@[i].1 by {
                assert(hosts_of(rest@).contains(k));
                let j = choose|j: int| 0 <= j < rest@.len() && hosts_of(rest@)[j] == k;
                assert(rest@[j].1 <= top@[i].1);
            }
        }
        top
    }

    /// The traffic summary, line by line: a heading after a blank line, the
    /// totals, then the ten hosts with the most bytes.
    pub fn summary_lines(&self) -> (r: Vec<String>)
        ensures
            exists|t: Seq<(u32, u64)>|
                {
                    &&& self.is_top_hosts(10, t)
                    &&& r@.len() == t.len() + 2
                    &&& r@[0]@ == "\n--- traffic summary ---"@
                    &&& r@[1]@ == totals_line(self.packets(), self.bytes(), self.connection_counts().len())
                    &&& forall|i: int| 0 <= i < t.len() ==> #[trigger] r@[i + 2]@ == host_line(t[i])
                },
            r@.len() >= 2,
            r@[1]@ == "packets "@ + decimal(self.packets()) + "  bytes "@ + decimal(self.bytes())
                + "  connections "@ + decimal(self.connection_counts().len()),
    {
        broadcast use vstd::std_specs::hash::group_hash_axioms;

        let mut lines: Vec<String> = Vec::new();
        lines.push(owned("\n--- traffic summary ---"));
        let mut totals = owned("packets ");
        push_decimal(&mut totals, self.total_packets);
        totals.append("  bytes ");
        push_decimal(&mut totals, self.total_bytes);
        totals.append("  connections ");
        push_decimal(&mut totals, self.connections.len() as u64);
        lines.push(totals);
        let top = self.top_hosts(10);
        for i in 0..top.len()
            invariant
                lines@.len() == i + 2,
                lines@[0]@ == "\n--- traffic summary ---"@,
                lines@[1]@ == totals_line(self.packets(), self.bytes(), self.connection_counts().len()),
                forall|j: int| 0 <= j < i ==> #[trigger] lines@[j + 2]@ == host_line(top@[j]),
        {
            let mut line = owned("  ");
            push_dotted_quad(&mut line, top[i].0);
            line.append(": ");
            push_decimal(&mut line, top[i].1);
            line.append(" bytes");
            lines.push(line);
        }
        lines
    }

    /// Packets recorded.
    pub fn total_packets(&self) -> (r: u64)
        ensures
            r == self.packets(),
    {
        self.total_packets
    }

    /// Bytes recorded.
    pub fn total_bytes(&self) -> (r: u64)
        ensures
            r == self.bytes(),
    {
        self.total_bytes
    }

    /// Number of distinct connections seen.
    pub fn connection_count(&self) -> (r: usize)
        ensures
            r == self.connection_counts().len(),
    {
        broadcast use vstd::std_specs::hash::group_hash_axioms;

        self.connections.len()
    }

    /// Bytes counted for a host.
    pub fn host_bytes(&self, host: u32) -> (r: u64)
        ensures
            r == count_of(self.host_counts(), host),
    {
        broadcast use vstd::std_specs::hash::group_hash_axioms;

        match self.bytes_per_host.get(&host) {
            Some(v) => *v,
            None => 0,
        }
    }

    /// Bytes counted for a connection.
    pub fn connection_bytes(&self, conn: &Connection) -> (r: u64)
        ensures
            r == count_of(self.connection_counts(), connection_key_of(*conn)),
    {
        broadcast use vstd::std_specs::hash::group_hash_axioms;

        let key = connection_key(conn);
        match self.connections.get(&key) {
            Some(v) => *v,
            None => 0,
        }
    }
}

} // verus!
