use art::{art_bindex, art_findex, ArtRoot, ArtTable};
use ipnet::Ipv4Net;

#[test]
fn test_art_bindex() {
    let ar = ArtRoot::<Ipv4Net, u32>::new(8, [4u8; 8].to_vec(), 32);
    let at = ArtTable::new(&ar, None, 0);

    let net0: Ipv4Net = "0.0.0.0/0".parse().unwrap();
    let bindex = art_bindex(&at, &net0, net0.prefix_len()).unwrap();
    assert_eq!(bindex, 1);

    let net0: Ipv4Net = "0.0.0.0/1".parse().unwrap();
    let bindex = art_bindex(&at, &net0, net0.prefix_len()).unwrap();
    assert_eq!(bindex, 2);

    let net128: Ipv4Net = "128.0.0.0/1".parse().unwrap();
    let bindex = art_bindex(&at, &net128, net128.prefix_len()).unwrap();
    assert_eq!(bindex, 3);

    let net128: Ipv4Net = "128.0.0.0/4".parse().unwrap();
    let bindex = art_bindex(&at, &net128, net128.prefix_len()).unwrap();
    assert_eq!(bindex, 24);

    let net224: Ipv4Net = "224.0.0.0/3".parse().unwrap();
    let bindex = art_bindex(&at, &net224, net224.prefix_len()).unwrap();
    assert_eq!(bindex, 15);

    let net240: Ipv4Net = "240.0.0.0/4".parse().unwrap();
    let bindex = art_bindex(&at, &net240, net240.prefix_len()).unwrap();
    assert_eq!(bindex, 31);
}

#[test]
fn bindex_is_undefined_outside_the_stride() {
    let ar = ArtRoot::<Ipv4Net, u32>::new(8, [4u8; 8].to_vec(), 32);
    let at = ArtTable::new(&ar, None, 0);
    let net: Ipv4Net = "10.0.0.0/5".parse().unwrap();
    assert_eq!(art_bindex(&at, &net, 5), None);
    assert_eq!(art_bindex(&at, &net, 32), None);
    assert_eq!(art_bindex(&at, &net, 4), Some(16));
}

#[test]
fn bindex_ignores_bits_after_the_prefix_length() {
    let ar = ArtRoot::<Ipv4Net, u32>::new_ipv4_table();
    let at = ar.root();
    let net: Ipv4Net = "10.255.255.255/3".parse().unwrap();
    // 10 = 0000 1010: the first three bits are 000.
    assert_eq!(art_bindex(at, &net, 3), Some(8));
    let net: Ipv4Net = "255.0.0.0/7".parse().unwrap();
    assert_eq!(art_bindex(at, &net, 7), Some(128 + 127));
}

#[test]
fn findex_is_the_fringe_slot_of_the_stride() {
    let ar = ArtRoot::<Ipv4Net, u32>::new_ipv4_table();
    let net: Ipv4Net = "10.1.2.3/32".parse().unwrap();
    assert_eq!(art_findex(ar.root(), &net), Some(256 + 10));
    assert_eq!(ar.root().minfringe(), 256);
    assert_eq!(ar.root().slots(), 512);
}

#[test]
fn field_that_straddles_octets() {
    // Strides of 6 bits and one of 2: the tables start at bits 0, 6, 12,
    // 18, 24 and 30.
    let ar = ArtRoot::<Ipv4Net, u32>::new(6, vec![6, 6, 6, 6, 6, 2], 32);
    let net: Ipv4Net = "171.205.239.18/32".parse().unwrap();
    // 171.205.239.18 = 10101011 11001101 11101111 00010010
    let mut ar = ar;
    ar.route_ipv4_add(net, 7);
    let root = ar.root();
    assert_eq!(art_findex(root, &net), Some(64 + 0b101010));
    let t1 = match root.get_entry(64 + 0b101010) {
        art::ArtEntry::Table(t) => t,
        other => panic!("no table: {:?}", other),
    };
    assert_eq!(art_findex(ar.table(t1), &net), Some(64 + 0b111100));
    let t2 = match ar.table(t1).get_entry(64 + 0b111100) {
        art::ArtEntry::Table(t) => t,
        other => panic!("no table: {:?}", other),
    };
    assert_eq!(art_findex(ar.table(t2), &net), Some(64 + 0b110111));
    let t3 = match ar.table(t2).get_entry(64 + 0b110111) {
        art::ArtEntry::Table(t) => t,
        other => panic!("no table: {:?}", other),
    };
    assert_eq!(art_findex(ar.table(t3), &net), Some(64 + 0b101111));
    let t4 = match ar.table(t3).get_entry(64 + 0b101111) {
        art::ArtEntry::Table(t) => t,
        other => panic!("no table: {:?}", other),
    };
    assert_eq!(art_findex(ar.table(t4), &net), Some(64 + 0b000100));
    let t5 = match ar.table(t4).get_entry(64 + 0b000100) {
        art::ArtEntry::Table(t) => t,
        other => panic!("no table: {:?}", other),
    };
    assert_eq!(ar.table(t5).offset(), 30);
    assert_eq!(ar.table(t5).bits(), 2);
    assert_eq!(ar.table(t5).level(), 5);
    assert_eq!(art_bindex(ar.table(t5), &net, 32), Some(4 + 0b10));
    assert_eq!(ar.table(t5).get_entry(6), art::ArtEntry::Node(0));
}

#[test]
fn field_of_four_octets() {
    // A stride of 26 bits that starts at bit 4 ends at bit 30.
    let ar = ArtRoot::<Ipv4Net, u32>::new(3, vec![4, 26, 2], 32);
    let mut ar = ar;
    let net: Ipv4Net = "171.205.239.18/30".parse().unwrap();
    ar.route_ipv4_add(net, 1);
    let t1 = match ar.root().get_entry(16 + 0b1010) {
        art::ArtEntry::Table(t) => t,
        other => panic!("no table: {:?}", other),
    };
    // Bits 4 to 29: 1011 11001101 11101111 000100
    let field: u32 = 0b1011_11001101_11101111_000100;
    assert_eq!(art_bindex(ar.table(t1), &net, 30), Some((1 << 26) + field));
    assert_eq!(art_bindex(ar.table(t1), &net, 5), Some(2 + 1));
    assert_eq!(art_bindex(ar.table(t1), &net, 17), Some((1 << 13) + (field >> 13)));
}
