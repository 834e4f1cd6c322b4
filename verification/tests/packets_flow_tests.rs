use projecta::packets::{Packet, PacketAnalyzer};

fn syn_packet() -> Packet {
    let mut d = vec![0u8; 54];
    d[12] = 0x08;
    d[13] = 0x00;
    d[14] = 0x45;
    d[17] = 40;
    d[22] = 64;
    d[23] = 6;
    d[26] = 10;
    d[29] = 1;
    d[30] = 10;
    d[33] = 2;
    d[34] = 0x30;
    d[35] = 0x39;
    d[37] = 80;
    d[46] = 0x50;
    d[47] = 0x02;
    match Packet::parse(&d) {
        Ok(p) => p,
        Err(_) => panic!("the test frame does not parse"),
    }
}

#[test]
fn active_among_follows_the_flags() {
    let mut a = PacketAnalyzer::new();
    a.process_packet(&syn_packet());
    assert_eq!(a.active_among(&vec![true]).len(), 1);
    assert_eq!(a.active_among(&vec![false]).len(), 0);
    assert_eq!(a.get_active_connections().len(), 1);
}

#[test]
fn retain_flows_keeps_open_flows() {
    let mut a = PacketAnalyzer::new();
    a.process_packet(&syn_packet());
    a.retain_flows(&vec![false]);
    assert_eq!(a.active_among(&vec![true]).len(), 1);
    a.cleanup_old_connections(std::time::Duration::from_secs(0));
    assert_eq!(a.active_among(&vec![true]).len(), 1);
}
