use art::{ArtEntry, ArtNode, ArtRoot, Prefix, RawPrefix};
use ipnet::Ipv4Net;
use std::collections::{BTreeMap, BTreeSet};

fn net(s: &str) -> Ipv4Net {
    s.parse().unwrap()
}

fn data(found: Option<std::rc::Rc<ArtNode<Ipv4Net, u32>>>) -> Option<u32> {
    found.map(|n| n.data.unwrap())
}

#[test]
fn lpm_hierarchy() {
    let mut top = ArtRoot::<Ipv4Net, u32>::new_ipv4_table();
    top.route_ipv4_add(net("10.0.0.0/8"), 1);
    top.route_ipv4_add(net("10.1.0.0/16"), 2);
    top.route_ipv4_add(net("10.1.2.0/24"), 3);
    assert_eq!(data(top.route_ipv4_lookup(net("10.1.2.3/32"))), Some(3));
    assert_eq!(data(top.route_ipv4_lookup(net("10.1.3.4/32"))), Some(2));
    assert_eq!(data(top.route_ipv4_lookup(net("10.2.0.1/32"))), Some(1));
    assert_eq!(data(top.route_ipv4_lookup(net("11.0.0.1/32"))), None);
    let found = top.route_ipv4_lookup(net("10.1.2.3/32")).unwrap();
    assert_eq!(found.prefix, net("10.1.2.0/24"));
}

#[test]
fn lpm_hierarchy_inserted_longest_first() {
    let mut top = ArtRoot::<Ipv4Net, u32>::new_ipv4_table();
    top.route_ipv4_add(net("10.1.2.0/24"), 3);
    top.route_ipv4_add(net("10.1.0.0/16"), 2);
    top.route_ipv4_add(net("10.0.0.0/8"), 1);
    top.route_ipv4_add(net("10.0.0.0/7"), 0);
    assert_eq!(data(top.route_ipv4_lookup(net("10.1.2.3/32"))), Some(3));
    assert_eq!(data(top.route_ipv4_lookup(net("10.1.3.4/32"))), Some(2));
    assert_eq!(data(top.route_ipv4_lookup(net("10.2.0.1/32"))), Some(1));
    assert_eq!(data(top.route_ipv4_lookup(net("11.0.0.1/32"))), Some(0));
    assert_eq!(data(top.route_ipv4_lookup(net("12.0.0.1/32"))), None);
}

#[test]
fn default_route() {
    let mut top = ArtRoot::<Ipv4Net, u32>::new_ipv4_table();
    top.route_ipv4_add(net("0.0.0.0/0"), 9);
    top.route_ipv4_add(net("10.0.0.0/8"), 1);
    assert_eq!(data(top.route_ipv4_lookup(net("10.0.0.1/32"))), Some(1));
    assert_eq!(data(top.route_ipv4_lookup(net("8.8.8.8/32"))), Some(9));
    assert_eq!(data(top.route_ipv4_lookup_exact(net("0.0.0.0/0"))), Some(9));
    assert_eq!(top.iter().count(), 2);
}

#[test]
fn default_route_under_deep_tables() {
    let mut top = ArtRoot::<Ipv4Net, u32>::new_ipv4_table();
    top.route_ipv4_add(net("10.1.2.0/24"), 3);
    top.route_ipv4_add(net("0.0.0.0/0"), 9);
    assert_eq!(data(top.route_ipv4_lookup(net("10.1.2.3/32"))), Some(3));
    assert_eq!(data(top.route_ipv4_lookup(net("10.1.3.3/32"))), Some(9));
    assert_eq!(data(top.route_ipv4_lookup(net("10.200.3.3/32"))), Some(9));
    assert_eq!(data(top.route_ipv4_lookup(net("200.1.2.3/32"))), Some(9));
}

#[test]
fn overwrite_semantics() {
    let mut top = ArtRoot::<Ipv4Net, u32>::new_ipv4_table();
    top.route_ipv4_add(net("10.0.0.0/8"), 1);
    top.route_ipv4_add(net("10.0.0.0/8"), 11);
    assert_eq!(data(top.route_ipv4_lookup_exact(net("10.0.0.0/8"))), Some(11));
    assert_eq!(top.iter().count(), 1);
}

#[test]
fn overwrite_of_an_allotted_route() {
    let mut top = ArtRoot::<Ipv4Net, u32>::new_ipv4_table();
    top.route_ipv4_add(net("10.0.0.0/6"), 1);
    top.route_ipv4_add(net("10.1.0.0/16"), 2);
    top.route_ipv4_add(net("10.0.0.0/6"), 11);
    assert_eq!(data(top.route_ipv4_lookup_exact(net("8.0.0.0/6"))), Some(11));
    assert_eq!(data(top.route_ipv4_lookup(net("10.2.0.0/32"))), Some(11));
    assert_eq!(data(top.route_ipv4_lookup(net("11.2.0.0/32"))), Some(11));
    assert_eq!(data(top.route_ipv4_lookup(net("10.1.0.9/32"))), Some(2));
    assert_eq!(top.iter().count(), 2);
}

#[test]
fn delete_restores_shadowing() {
    let mut top = ArtRoot::<Ipv4Net, u32>::new_ipv4_table();
    top.route_ipv4_add(net("10.0.0.0/8"), 1);
    top.route_ipv4_add(net("10.1.0.0/16"), 2);
    top.route_ipv4_delete(net("10.1.0.0/16"));
    assert_eq!(data(top.route_ipv4_lookup(net("10.1.2.3/32"))), Some(1));
    assert_eq!(data(top.route_ipv4_lookup_exact(net("10.1.0.0/16"))), None);
    assert_eq!(top.iter().count(), 1);
}

#[test]
fn delete_above_the_fringe_restores_the_slot_above() {
    let mut top = ArtRoot::<Ipv4Net, u32>::new_ipv4_table();
    top.route_ipv4_add(net("8.0.0.0/5"), 5);
    top.route_ipv4_add(net("10.0.0.0/7"), 7);
    assert_eq!(data(top.route_ipv4_lookup(net("10.9.9.9/32"))), Some(7));
    top.route_ipv4_delete(net("10.0.0.0/7"));
    assert_eq!(data(top.route_ipv4_lookup(net("10.9.9.9/32"))), Some(5));
    assert_eq!(data(top.route_ipv4_lookup_exact(net("10.0.0.0/7"))), None);
    assert_eq!(top.iter().count(), 1);
}

#[test]
fn delete_of_an_absent_prefix() {
    let mut top = ArtRoot::<Ipv4Net, u32>::new_ipv4_table();
    top.route_ipv4_add(net("10.1.0.0/16"), 2);
    top.route_ipv4_delete(net("10.2.0.0/16"));
    top.route_ipv4_delete(net("10.1.2.0/24"));
    top.route_ipv4_delete(net("192.168.0.0/16"));
    assert_eq!(data(top.route_ipv4_lookup_exact(net("10.1.0.0/16"))), Some(2));
    assert_eq!(top.iter().count(), 1);
}

#[test]
fn fringe_and_internal() {
    let mut top = ArtRoot::<Ipv4Net, u32>::new(8, [4u8; 8].to_vec(), 32);
    top.route_ipv4_add(net("128.0.0.0/4"), 10);
    top.route_ipv4_add(net("128.0.0.0/1"), 20);
    assert_eq!(data(top.route_ipv4_lookup(net("128.0.0.1/32"))), Some(10));
    assert_eq!(data(top.route_ipv4_lookup(net("144.0.0.1/32"))), Some(20));
    assert_eq!(top.root().get_entry(24), ArtEntry::Node(0));
    assert_eq!(top.root().get_entry(3), ArtEntry::Node(1));
    assert_eq!(top.root().get_entry(25), ArtEntry::Node(1));
    assert_eq!(top.root().get_entry(31), ArtEntry::Node(1));
    assert_eq!(top.root().get_entry(2), ArtEntry::Empty);
    assert_eq!(top.root().get_entry(23), ArtEntry::Empty);
}

#[test]
fn insert_then_exact_lookup() {
    let mut top = ArtRoot::<Ipv4Net, u32>::new_ipv4_table();
    let nets = ["10.0.0.0/8", "10.0.0.0/9", "10.128.0.0/9", "10.1.0.0/16", "10.1.2.0/24",
        "10.1.2.3/32", "0.0.0.0/0", "0.0.0.0/1", "128.0.0.0/1", "192.168.1.0/25"];
    for (k, s) in nets.iter().enumerate() {
        top.route_ipv4_add(net(s), k as u32);
    }
    for (k, s) in nets.iter().enumerate() {
        let found = top.route_ipv4_lookup_exact(net(s)).unwrap();
        assert_eq!(found.prefix, net(s));
        assert_eq!(found.data, Some(k as u32));
    }
    assert_eq!(data(top.route_ipv4_lookup_exact(net("10.0.0.0/10"))), None);
    assert_eq!(data(top.route_ipv4_lookup_exact(net("10.1.2.2/31"))), None);
    assert_eq!(top.iter().count(), nets.len());
}

#[test]
fn iteration_yields_each_route_once() {
    let mut top = ArtRoot::<Ipv4Net, u32>::new_ipv4_table();
    let nets = ["10.0.0.0/8", "10.0.0.0/7", "10.1.0.0/16", "10.1.2.0/24", "0.0.0.0/0",
        "128.0.0.0/1", "10.1.2.3/32"];
    for (k, s) in nets.iter().enumerate() {
        top.route_ipv4_add(net(s), k as u32);
    }
    let mut it = top.iter();
    let mut seen = BTreeSet::new();
    while let Some(node) = it.next() {
        assert!(seen.insert(node.prefix));
    }
    let want: BTreeSet<Ipv4Net> = nets.iter().map(|s| net(s)).collect();
    assert_eq!(seen, want);
}

#[test]
fn iteration_order_follows_the_heap() {
    let mut top = ArtRoot::<Ipv4Net, u32>::new_ipv4_table();
    top.route_ipv4_add(net("128.0.0.0/1"), 3);
    top.route_ipv4_add(net("10.1.0.0/16"), 2);
    top.route_ipv4_add(net("10.0.0.0/8"), 1);
    top.route_ipv4_add(net("0.0.0.0/0"), 0);
    let mut it = top.iter();
    let mut order = Vec::new();
    while let Some(node) = it.next() {
        order.push(node.data.unwrap());
    }
    // Slot 1, slot 3, then slot 266 with the table that hangs there.
    assert_eq!(order, vec![0, 3, 1, 2]);
}

#[test]
fn insert_delete_round_trip() {
    let mut top = ArtRoot::<Ipv4Net, u32>::new_ipv4_table();
    let nets = ["10.0.0.0/8", "10.0.0.0/7", "10.1.0.0/16", "10.1.2.0/24", "0.0.0.0/0",
        "128.0.0.0/1", "10.1.2.3/32", "8.0.0.0/5"];
    for s in nets.iter() {
        top.route_ipv4_add(net(s), 0);
    }
    assert_eq!(top.iter().count(), nets.len());
    for s in nets.iter() {
        top.route_ipv4_delete(net(s));
    }
    assert_eq!(top.iter().count(), 0);
    for s in nets.iter() {
        assert!(top.route_ipv4_lookup_exact(net(s)).is_none());
    }
}

#[test]
fn inserting_the_same_entry_twice() {
    let mut top = ArtRoot::<Ipv4Net, u32>::new_ipv4_table();
    let p = net("10.0.0.0/6");
    let n = top.add_node(ArtNode::new(&p, Some(4)));
    let an = ArtEntry::from_node(n);
    top.insert(&an, &p);
    top.insert(&an, &p);
    assert_eq!(top.iter().count(), 1);
    assert_eq!(data(top.lookup_exact(&p)), Some(4));
    assert_eq!(data(top.lookup(&net("9.1.1.1/32"))), Some(4));
    assert_eq!(top.root().get_entry(64 + 2), ArtEntry::Node(n));
}

#[test]
fn entries_are_compared_by_what_they_name() {
    let a = ArtEntry::from_node(3);
    assert!(ArtEntry::check_duplicate(&a, &ArtEntry::Node(3)));
    assert!(!ArtEntry::check_duplicate(&a, &ArtEntry::Node(4)));
    assert!(!ArtEntry::check_duplicate(&a, &ArtEntry::from_table(3)));
    assert!(ArtEntry::check_duplicate(&ArtEntry::none(), &ArtEntry::Empty));
}

#[test]
fn a_demoted_route_follows_its_replacement() {
    let mut top = ArtRoot::<Ipv4Net, u32>::new_ipv4_table();
    top.route_ipv4_add(net("10.0.0.0/7"), 7);
    top.route_ipv4_add(net("10.1.0.0/16"), 16);
    // The /7 now stands in the default of the table below slot 266.
    let below = match top.root().get_entry(266) {
        ArtEntry::Table(t) => t,
        other => panic!("no table: {:?}", other),
    };
    assert_eq!(top.table(below).get_default(), ArtEntry::Node(0));
    assert!(top.table(below).has_default());
    assert_eq!(top.table(below).parent(), Some(0));
    assert_eq!(top.table(below).index(), 266);
    top.route_ipv4_delete(net("10.0.0.0/7"));
    assert_eq!(top.table(below).get_default(), ArtEntry::Empty);
    assert_eq!(data(top.route_ipv4_lookup(net("10.2.0.0/32"))), None);
    assert_eq!(data(top.route_ipv4_lookup(net("10.1.0.1/32"))), Some(16));
}

fn raw(octets: &[u8], len: u8) -> RawPrefix {
    RawPrefix::new(&octets.to_vec(), len)
}

#[test]
fn ipv6_shaped_table() {
    let mut top = ArtRoot::<RawPrefix, u32>::new_ipv6_table();
    let wide = raw(&[0x20, 0x01, 0x0d, 0xb8], 32);
    let mut b = vec![0x20, 0x01, 0x0d, 0xb8, 0x12];
    b.resize(16, 0);
    b[15] = 1;
    let narrow = raw(&b, 48);
    let host = raw(&b, 128);
    let other = raw(&[0x20, 0x01, 0x0d, 0xb8, 0x13], 128);
    top.route_ipv4_add(wide, 32);
    top.route_ipv4_add(narrow, 48);
    assert_eq!(top.route_ipv4_lookup(host).unwrap().data, Some(48));
    assert_eq!(top.route_ipv4_lookup(other).unwrap().data, Some(32));
    assert!(top.route_ipv4_lookup_exact(host).is_none());
    assert_eq!(top.route_ipv4_lookup_exact(narrow).unwrap().prefix, narrow);
    assert_eq!(top.iter().count(), 2);
}

#[test]
fn a_prefix_longer_than_the_address_is_ignored() {
    let mut top = ArtRoot::<RawPrefix, u32>::new_ipv6_table();
    let b = [0x20, 0x01, 0x0d, 0xb8, 0x12];
    top.route_ipv4_add(raw(&b, 48), 48);
    let long = raw(&b, 129);
    top.route_ipv4_add(long, 129);
    assert_eq!(top.iter().count(), 1);
    top.route_ipv4_delete(long);
    assert_eq!(top.iter().count(), 1);
    assert!(top.route_ipv4_lookup_exact(long).is_none());
    assert_eq!(top.route_ipv4_lookup(long).unwrap().data, Some(48));
}

#[test]
fn raw_prefix_keeps_its_octets() {
    let p = RawPrefix::new(&vec![1, 2, 3], 17);
    assert_eq!(p.prefix_len(), 17);
    assert_eq!(p.to_octets(), vec![1, 2, 3, 0, 0, 0, 0, 0, 0, 0, 0, 0, 0, 0, 0, 0]);
    let q = RawPrefix::new(&(0u8..20).collect(), 128);
    assert_eq!(q.to_octets(), (0u8..16).collect::<Vec<u8>>());
    assert_eq!(RawPrefix::new(&vec![], 0).to_octets(), vec![0u8; 16]);
}

#[test]
fn raw_prefix_in_an_ipv4_table() {
    let mut top = ArtRoot::<RawPrefix, u32>::new_ipv4_table();
    top.route_ipv4_add(RawPrefix::new(&vec![10, 1], 16), 16);
    top.route_ipv4_add(RawPrefix::new(&vec![10], 8), 8);
    assert_eq!(top.route_ipv4_lookup(RawPrefix::new(&vec![10, 1, 2, 3], 32)).unwrap().data, Some(16));
    assert_eq!(top.route_ipv4_lookup(RawPrefix::new(&vec![10, 2, 2, 3], 32)).unwrap().data, Some(8));
    assert!(top.route_ipv4_lookup(RawPrefix::new(&vec![11, 2, 2, 3], 32)).is_none());
}

fn from_bits(addr: u32, len: u8) -> Ipv4Net {
    let o = addr.to_be_bytes();
    format!("{}.{}.{}.{}/{}", o[0], o[1], o[2], o[3], len).parse().unwrap()
}

fn corpus(n: usize) -> Vec<Ipv4Net> {
    let mut state: u64 = 0x2545_f491_4f6c_dd1d;
    let mut seen = BTreeSet::new();
    let mut out = Vec::new();
    while out.len() < n {
        state ^= state << 13;
        state ^= state >> 7;
        state ^= state << 17;
        let len = (8 + (state >> 40) % 25) as u8;
        let addr = (state & 0xffff_ffff) as u32;
        let p = from_bits(addr, len).trunc();
        if seen.insert(p) {
            out.push(p);
        }
    }
    out
}

#[test]
fn bulk_insert_and_delete() {
    let nets = corpus(20000);
    let mut top = ArtRoot::<Ipv4Net, u32>::new_ipv4_table();
    for (k, p) in nets.iter().enumerate() {
        top.route_ipv4_add(*p, k as u32);
    }
    assert_eq!(top.iter().count(), nets.len());
    for (k, p) in nets.iter().enumerate() {
        let found = top.route_ipv4_lookup_exact(*p).unwrap();
        assert_eq!(found.prefix, *p);
        assert_eq!(found.data, Some(k as u32));
    }
    for p in nets.iter() {
        top.route_ipv4_delete(*p);
    }
    assert_eq!(top.iter().count(), 0);
}

#[test]
fn bulk_longest_prefix_match() {
    let nets = corpus(3000);
    let mut top = ArtRoot::<Ipv4Net, u32>::new_ipv4_table();
    for (k, p) in nets.iter().enumerate() {
        top.route_ipv4_add(*p, k as u32);
    }
    let mut state: u64 = 88172645463325252;
    for _ in 0..3000 {
        state ^= state << 13;
        state ^= state >> 7;
        state ^= state << 17;
        // Half of the queries fall under a stored prefix.
        let addr = if state & 1 == 0 {
            u32::from(nets[(state >> 20) as usize % nets.len()].addr()) | ((state >> 33) as u32 & 0xff)
        } else {
            (state >> 16) as u32
        };
        let host = from_bits(addr, 32);
        let mut best: Option<(u8, u32)> = None;
        for (k, p) in nets.iter().enumerate() {
            if p.contains(&host) && best.map_or(true, |(l, _)| p.prefix_len() > l) {
                best = Some((p.prefix_len(), k as u32));
            }
        }
        let found = top.route_ipv4_lookup(host);
        assert_eq!(data(found), best.map(|(_, k)| k));
    }
}

#[test]
fn delete_at_the_fringe_restores_nothing() {
    let mut top = ArtRoot::<Ipv4Net, u32>::new_ipv4_table();
    top.route_ipv4_add(net("10.0.0.0/7"), 7);
    top.route_ipv4_add(net("10.0.0.0/8"), 8);
    assert_eq!(data(top.route_ipv4_lookup(net("10.0.0.1/32"))), Some(8));
    assert_eq!(data(top.route_ipv4_lookup(net("11.0.0.1/32"))), Some(7));
    top.route_ipv4_delete(net("10.0.0.0/8"));
    // The fringe slot is cleared; the /7 is not handed down again.
    assert_eq!(top.root().get_entry(266), ArtEntry::Empty);
    assert_eq!(data(top.route_ipv4_lookup(net("10.0.0.1/32"))), None);
    assert_eq!(data(top.route_ipv4_lookup(net("11.0.0.1/32"))), Some(7));
    assert_eq!(data(top.route_ipv4_lookup_exact(net("10.0.0.0/7"))), Some(7));
    assert_eq!(top.iter().count(), 1);
}

#[test]
fn exact_lookup_passes_over_allotted_copies() {
    let mut top = ArtRoot::<Ipv4Net, u32>::new_ipv4_table();
    top.route_ipv4_add(net("10.0.0.0/7"), 7);
    assert_eq!(top.root().get_entry(266), ArtEntry::Node(0));
    assert_eq!(data(top.route_ipv4_lookup_exact(net("10.0.0.0/8"))), None);
    assert_eq!(data(top.route_ipv4_lookup_exact(net("11.0.0.0/8"))), None);
    assert_eq!(data(top.route_ipv4_lookup_exact(net("10.0.0.0/7"))), Some(7));
    // The same prefix, written with other bits after its length.
    assert_eq!(data(top.route_ipv4_lookup_exact(net("11.255.0.1/7"))), Some(7));
    assert_eq!(data(top.route_ipv4_lookup(net("10.0.0.0/8"))), Some(7));
}

#[test]
fn lookup_of_a_prefix_that_is_no_host() {
    let mut top = ArtRoot::<Ipv4Net, u32>::new_ipv4_table();
    top.route_ipv4_add(net("10.0.0.0/8"), 8);
    top.route_ipv4_add(net("10.16.0.0/12"), 12);
    top.route_ipv4_add(net("10.16.16.0/24"), 24);
    assert_eq!(data(top.route_ipv4_lookup(net("10.16.0.0/12"))), Some(12));
    assert_eq!(data(top.route_ipv4_lookup(net("10.16.0.0/11"))), Some(8));
    assert_eq!(data(top.route_ipv4_lookup(net("10.16.16.0/20"))), Some(12));
    assert_eq!(data(top.route_ipv4_lookup(net("10.16.16.0/8"))), Some(8));
    assert_eq!(data(top.route_ipv4_lookup(net("10.16.16.0/7"))), None);
    assert_eq!(data(top.route_ipv4_lookup(net("0.0.0.0/0"))), None);
}

#[test]
fn routes_are_named_in_the_order_of_their_arrival() {
    let mut top = ArtRoot::<Ipv4Net, u32>::new_ipv4_table();
    let p = net("192.168.0.0/16");
    let q = net("192.168.1.0/24");
    let a = top.add_node(ArtNode::new(&p, Some(1)));
    let b = top.add_node(ArtNode::new(&q, None));
    assert_eq!((a, b), (0, 1));
    // A route in the arena is in no slot until it is inserted.
    assert_eq!(top.iter().count(), 0);
    assert!(top.lookup(&q).is_none());
    top.insert(&ArtEntry::from_node(b), &q);
    top.insert(&ArtEntry::from_node(a), &p);
    assert_eq!(top.lookup(&net("192.168.1.9/32")).unwrap().data, None);
    assert_eq!(top.lookup(&net("192.168.1.9/32")).unwrap().prefix, q);
    assert_eq!(data(top.lookup(&net("192.168.2.9/32"))), Some(1));
    assert_eq!(top.iter().count(), 2);
}

#[test]
fn a_new_table_takes_its_place_below_its_parent() {
    let mut top = ArtRoot::<Ipv4Net, u32>::new_ipv4_table();
    top.route_ipv4_add(net("10.1.0.0/16"), 2);
    let t = art::ArtTable::new(&top, Some(0), 300);
    assert_eq!(t.level(), 1);
    assert_eq!(t.offset(), 8);
    assert_eq!(t.bits(), 4);
    assert_eq!(t.minfringe(), 16);
    assert_eq!(t.slots(), 32);
    assert_eq!(t.index(), 300);
    assert_eq!(t.parent(), Some(0));
    assert!(!t.has_default());
    for i in 0..32 {
        assert_eq!(t.get_entry(i), ArtEntry::Empty);
    }
    let mut t = t;
    t.set_entry(5, ArtEntry::Node(0));
    t.set_default(ArtEntry::Node(0));
    assert_eq!(t.get_entry(5), ArtEntry::Node(0));
    assert_eq!(t.get_default(), ArtEntry::Node(0));
    assert!(t.has_default());
}

#[test]
fn allotment_spares_longer_routes_and_enters_no_table() {
    let mut top = ArtRoot::<Ipv4Net, u32>::new_ipv4_table();
    top.route_ipv4_add(net("10.0.0.0/8"), 8);
    top.route_ipv4_add(net("11.1.0.0/16"), 16);
    let below = match top.root().get_entry(267) {
        ArtEntry::Table(t) => t,
        other => panic!("no table: {:?}", other),
    };
    let p = net("8.0.0.0/6");
    let n = top.add_node(ArtNode::new(&p, Some(6)));
    art::art_allot(&mut top, 0, 66, ArtEntry::Empty, &ArtEntry::Node(n));
    assert_eq!(top.root().get_entry(66), ArtEntry::Node(n));
    assert_eq!(top.root().get_entry(132), ArtEntry::Node(n));
    assert_eq!(top.root().get_entry(133), ArtEntry::Node(n));
    assert_eq!(top.root().get_entry(264), ArtEntry::Node(n));
    assert_eq!(top.root().get_entry(265), ArtEntry::Node(n));
    assert_eq!(top.root().get_entry(266), ArtEntry::Node(0));
    assert_eq!(top.root().get_entry(267), ArtEntry::Table(below));
    assert_eq!(top.table(below).get_default(), ArtEntry::Node(n));
    assert_eq!(top.table(below).get_entry(2), ArtEntry::Empty);
    assert_eq!(top.table(below).get_entry(17), ArtEntry::Empty);
    assert!(matches!(top.table(below).get_entry(16), ArtEntry::Table(_)));
    assert_eq!(top.root().get_entry(67), ArtEntry::Empty);
    assert_eq!(top.root().get_entry(33), ArtEntry::Empty);
}

#[test]
fn traversal_can_be_taken_up_where_it_stands() {
    let mut top = ArtRoot::<Ipv4Net, u32>::new_ipv4_table();
    for (k, s) in ["10.0.0.0/8", "20.0.0.0/8", "30.0.0.0/8", "40.0.0.0/8"].iter().enumerate() {
        top.route_ipv4_add(net(s), k as u32);
    }
    let mut it = top.iter();
    assert_eq!(it.next().unwrap().data, Some(0));
    assert_eq!(it.count(), 3);
    let mut it = top.iter();
    for _ in 0..4 {
        assert!(it.next().is_some());
    }
    assert!(it.next().is_none());
    assert!(it.next().is_none());
}

#[test]
fn a_table_accepts_prefixes_with_a_whole_address() {
    let v4 = ArtRoot::<Ipv4Net, u32>::new_ipv4_table();
    assert!(v4.accepts(&net("10.0.0.0/8")));
    let v6 = ArtRoot::<Ipv4Net, u32>::new_ipv6_table();
    assert!(!v6.accepts(&net("10.0.0.0/8")));
    let odd = ArtRoot::<Ipv4Net, u32>::new(3, vec![12, 12, 9], 33);
    assert!(!odd.accepts(&net("10.0.0.0/8")));
    let raw = ArtRoot::<RawPrefix, u32>::new(3, vec![12, 12, 9], 33);
    assert!(raw.accepts(&RawPrefix::new(&vec![10], 8)));
}

#[test]
fn a_table_takes_the_first_strides_of_its_levels() {
    // More levels than strides: all strides count.
    let mut top = ArtRoot::<Ipv4Net, u32>::new(9, [4u8; 8].to_vec(), 32);
    top.route_ipv4_add(net("10.1.2.3/32"), 1);
    assert_eq!(data(top.route_ipv4_lookup(net("10.1.2.3/32"))), Some(1));
    assert_eq!(top.iter().count(), 1);
    // Fewer levels than strides: the first two strides make the address.
    let mut top = ArtRoot::<Ipv4Net, u32>::new(2, vec![8, 8, 8, 8], 16);
    top.route_ipv4_add(net("10.1.0.0/16"), 16);
    top.route_ipv4_add(net("10.1.2.0/24"), 24);
    assert_eq!(top.iter().count(), 1);
    assert_eq!(data(top.route_ipv4_lookup(net("10.1.9.9/16"))), Some(16));
    assert_eq!(data(top.route_ipv4_lookup_exact(net("10.1.2.0/24"))), None);
}

#[test]
fn exact_content_behaves_as_a_map() {
    let mut top = ArtRoot::<Ipv4Net, u32>::new_ipv4_table();
    let mut model: BTreeMap<Ipv4Net, u32> = BTreeMap::new();
    let mut state: u64 = 0x9e37_79b9_7f4a_7c15;
    for step in 0..6000u32 {
        state ^= state << 13;
        state ^= state >> 7;
        state ^= state << 17;
        // Few distinct prefixes, so that insertions, overwrites and
        // deletions of present and absent prefixes all occur.
        let len = ((state >> 8) % 33) as u8;
        let addr = ((state >> 16) as u32) & 0xf0c0_3003 | 0x0a00_0000;
        let p = from_bits(addr, len).trunc();
        if (state >> 50) % 3 == 0 {
            top.route_ipv4_delete(p);
            model.remove(&p);
        } else {
            top.route_ipv4_add(p, step);
            model.insert(p, step);
        }
        if step % 97 == 0 {
            assert_eq!(top.iter().count(), model.len());
            for (q, d) in model.iter() {
                let found = top.route_ipv4_lookup_exact(*q).unwrap();
                assert_eq!(found.prefix, *q);
                assert_eq!(found.data, Some(*d));
            }
        }
        assert_eq!(data(top.route_ipv4_lookup_exact(p)), model.get(&p).copied());
    }
    let mut it = top.iter();
    let mut seen = BTreeSet::new();
    while let Some(node) = it.next() {
        assert!(seen.insert(node.prefix));
        assert_eq!(model.get(&node.prefix).copied(), node.data);
    }
    assert_eq!(seen.len(), model.len());
}

#[test]
fn a_lookup_finds_only_stored_routes_that_cover_the_query() {
    let mut top = ArtRoot::<Ipv4Net, u32>::new_ipv4_table();
    let mut model: BTreeMap<Ipv4Net, u32> = BTreeMap::new();
    let mut state: u64 = 0x2545_f491_4f6c_dd1d;
    for step in 0..4000u32 {
        state ^= state << 13;
        state ^= state >> 7;
        state ^= state << 17;
        let len = ((state >> 8) % 33) as u8;
        let addr = ((state >> 16) as u32) & 0xf0c0_3003 | 0x0a00_0000;
        let p = from_bits(addr, len).trunc();
        if (state >> 50) % 4 == 0 {
            top.route_ipv4_delete(p);
            model.remove(&p);
        } else {
            top.route_ipv4_add(p, step);
            model.insert(p, step);
        }
        let host = from_bits(((state >> 20) as u32) & 0xf0c0_3003 | 0x0a00_0000, 32);
        if let Some(found) = top.route_ipv4_lookup(host) {
            assert!(found.prefix.contains(&host));
            assert_eq!(model.get(&found.prefix).copied(), found.data);
        }
    }
}
