use zero_copy_log_parser::packet::{
    connection_key, parse_packet, summary_due, Connection, Protocol, Stats,
};

/// An Ethernet frame carrying an IPv4 header and the first transport bytes.
fn frame(vlan_tags: &[[u8; 4]], protocol: u8, total_len: u16, ihl: u8) -> Vec<u8> {
    let mut data = vec![0u8; 12];
    for tag in vlan_tags {
        data.extend_from_slice(tag);
    }
    data.extend_from_slice(&[0x08, 0x00]);
    let mut ip = vec![0u8; ((ihl as usize) * 4).max(20)];
    ip[0] = 0x40 | ihl;
    ip[2] = (total_len >> 8) as u8;
    ip[3] = total_len as u8;
    ip[9] = protocol;
    ip[12..16].copy_from_slice(&[192, 168, 1, 42]);
    ip[16..20].copy_from_slice(&[142, 250, 185, 78]);
    data.extend_from_slice(&ip);
    data.extend_from_slice(&[0x1f, 0x90, 0x00, 0x50]);
    data
}

fn web_connection(protocol: Protocol) -> Connection {
    Connection {
        src_ip: u32::from_be_bytes([192, 168, 1, 42]),
        dst_ip: u32::from_be_bytes([142, 250, 185, 78]),
        src_port: 8080,
        dst_port: 80,
        protocol,
    }
}

#[test]
fn parses_a_tcp_frame() {
    let data = frame(&[], 6, 1500, 5);
    assert_eq!(parse_packet(&data), Some((web_connection(Protocol::Tcp), 1500)));
}

#[test]
fn parses_udp_behind_vlan_tags_and_ip_options() {
    let data = frame(&[[0x81, 0x00, 0, 5], [0x88, 0xa8, 0, 7]], 17, 300, 6);
    assert_eq!(parse_packet(&data), Some((web_connection(Protocol::Udp), 300)));
}

#[test]
fn falls_back_to_the_captured_length() {
    let data = frame(&[], 6, 10, 5);
    assert_eq!(parse_packet(&data), Some((web_connection(Protocol::Tcp), data.len() as u64)));
}

#[test]
fn skips_frames_that_are_not_counted() {
    assert_eq!(parse_packet(&[0u8; 13]), None);
    let mut not_ipv4 = frame(&[], 6, 100, 5);
    not_ipv4[12] = 0x86;
    not_ipv4[13] = 0xdd;
    assert_eq!(parse_packet(&not_ipv4), None);
    assert_eq!(parse_packet(&frame(&[], 1, 100, 5)), None);
    assert_eq!(parse_packet(&frame(&[], 6, 100, 4)), None);
    let mut version6 = frame(&[], 6, 100, 5);
    version6[14] = 0x65;
    assert_eq!(parse_packet(&version6), None);
    let data = frame(&[], 6, 100, 5);
    assert_eq!(parse_packet(&data[..data.len() - 1]), None);
    let cut_tag = [0u8, 0, 0, 0, 0, 0, 0, 0, 0, 0, 0, 0, 0x81, 0x00, 0, 1];
    assert_eq!(parse_packet(&cut_tag), None);
}

#[test]
fn records_connections_and_hosts() {
    let mut stats = Stats::new();
    let web = web_connection(Protocol::Tcp);
    let dns = Connection {
        src_ip: u32::from_be_bytes([192, 168, 1, 42]),
        dst_ip: u32::from_be_bytes([8, 8, 8, 8]),
        src_port: 5353,
        dst_port: 53,
        protocol: Protocol::Udp,
    };
    stats.record(web, 1000);
    stats.record(web, 500);
    stats.record(dns, 80);
    assert_eq!(stats.total_packets(), 3);
    assert_eq!(stats.total_bytes(), 1580);
    assert_eq!(stats.connection_count(), 2);
    assert_eq!(stats.connection_bytes(&web), 1500);
    assert_eq!(stats.connection_bytes(&dns), 80);
    assert_eq!(stats.host_bytes(u32::from_be_bytes([192, 168, 1, 42])), 1580);
    assert_eq!(stats.host_bytes(u32::from_be_bytes([8, 8, 8, 8])), 80);
    assert_eq!(stats.host_bytes(1), 0);
    assert_ne!(connection_key(&web), connection_key(&dns));
}

#[test]
fn a_host_talking_to_itself_counts_twice() {
    let mut stats = Stats::new();
    let local = Connection { src_ip: 0x7f00_0001, dst_ip: 0x7f00_0001, src_port: 1, dst_port: 2, protocol: Protocol::Tcp };
    stats.record(local, 10);
    assert_eq!(stats.host_bytes(0x7f00_0001), 20);
    assert!(!stats.record_fits(&local, u64::MAX / 2));
    assert!(stats.record_fits(&local, 100));
}

#[test]
fn observes_only_counted_frames() {
    let mut stats = Stats::new();
    stats.observe(&[0u8; 20]);
    assert_eq!(stats.total_packets(), 0);
    let data = frame(&[], 6, 1500, 5);
    assert!(stats.observe_fits(&data));
    stats.observe(&data);
    assert_eq!(stats.total_packets(), 1);
    assert_eq!(stats.connection_bytes(&web_connection(Protocol::Tcp)), 1500);
}

#[test]
fn ranks_the_top_hosts() {
    let mut stats = Stats::new();
    for i in 0..12u32 {
        let conn = Connection { src_ip: 100 + i, dst_ip: 200 + i, src_port: 1, dst_port: 2, protocol: Protocol::Udp };
        stats.record(conn, (i as u64 + 1) * 10);
    }
    let top = stats.top_hosts(3);
    assert_eq!(top.len(), 3);
    assert_eq!(top[0].1, 120);
    assert_eq!(top[1].1, 120);
    assert_eq!(top[2].1, 110);
    assert!(top[0].0 == 111 || top[0].0 == 211);
    assert_eq!(stats.top_hosts(100).len(), 24);
}

#[test]
fn composes_the_summary() {
    let mut stats = Stats::new();
    stats.record(web_connection(Protocol::Tcp), 1500);
    let lines = stats.summary_lines();
    assert_eq!(lines.len(), 4);
    assert_eq!(lines[0], "\n--- traffic summary ---");
    assert_eq!(lines[1], "packets 1  bytes 1500  connections 1");
    let mut hosts = vec![lines[2].clone(), lines[3].clone()];
    hosts.sort();
    assert_eq!(hosts, vec!["  142.250.185.78: 1500 bytes", "  192.168.1.42: 1500 bytes"]);
}

#[test]
fn summaries_come_every_ten_seconds() {
    assert!(!summary_due(9));
    assert!(summary_due(10));
}

#[test]
fn a_vlan_tag_does_not_change_the_connection() {
    let plain = frame(&[], 17, 200, 5);
    let tagged = frame(&[[0x81, 0x00, 0x00, 0x2a]], 17, 200, 5);
    assert_eq!(parse_packet(&plain), parse_packet(&tagged));
}

#[test]
fn counters_add_up_to_the_totals() {
    let mut stats = Stats::new();
    let web = web_connection(Protocol::Tcp);
    let dns = Connection {
        src_ip: u32::from_be_bytes([192, 168, 1, 42]),
        dst_ip: u32::from_be_bytes([8, 8, 8, 8]),
        src_port: 5353,
        dst_port: 53,
        protocol: Protocol::Udp,
    };
    let local = Connection { src_ip: 0x7f00_0001, dst_ip: 0x7f00_0001, src_port: 1, dst_port: 2, protocol: Protocol::Tcp };
    let connections = [web, dns, local];
    let hosts = [
        u32::from_be_bytes([192, 168, 1, 42]),
        u32::from_be_bytes([142, 250, 185, 78]),
        u32::from_be_bytes([8, 8, 8, 8]),
        0x7f00_0001,
    ];
    for (conn, bytes) in [(web, 1000u64), (dns, 80), (web, 500), (local, 7), (dns, 13)] {
        stats.record(conn, bytes);
        let by_connection: u64 = connections.iter().map(|c| stats.connection_bytes(c)).sum();
        let by_host: u64 = hosts.iter().map(|h| stats.host_bytes(*h)).sum();
        assert_eq!(by_connection, stats.total_bytes());
        assert_eq!(by_host, 2 * stats.total_bytes());
        assert!(stats.connection_count() as u64 <= stats.total_packets());
    }
    assert_eq!(stats.total_bytes(), 1600);
}
