use turnout::address::{Address, Place};
use turnout::error::TurnoutError;
use turnout::node::Node;
use turnout::rules::borda::points_at;
use turnout::rules::majority::favorite;
use turnout::address_map::AddressMap;
use turnout::simple::node::SimpleNode;

fn addr(n: u8) -> Address {
    let mut bytes = [0u8; 32];
    bytes[31] = n;
    Address::from_bytes(bytes)
}

#[test]
fn as_bytes_gives_the_bytes() {
    let mut bytes = [0u8; 32];
    for (i, b) in bytes.iter_mut().enumerate() {
        *b = i as u8;
    }
    let a = Address::from_bytes(bytes);
    assert_eq!(a.as_bytes(), &bytes[..]);
    assert_eq!(a.as_bytes().len(), 32);
    assert_eq!(Address::default().as_bytes(), &[0u8; 32][..]);
}

#[test]
fn place_orders_by_the_first_byte_that_differs() {
    let mut low = [0u8; 32];
    let mut high = [0u8; 32];
    low[3] = 1;
    low[4] = 200;
    high[3] = 2;
    let (low, high) = (Address::from_bytes(low), Address::from_bytes(high));
    assert!(matches!(low.place(&high), Place::Before));
    assert!(matches!(high.place(&low), Place::After));
    assert!(matches!(low.place(&low), Place::Same));
    assert!(low.same(&low));
    assert!(!low.same(&high));
    assert!(low < high);
}

#[test]
fn hash_word_reads_the_first_eight_bytes() {
    let mut bytes = [0u8; 32];
    bytes[6] = 1;
    bytes[7] = 2;
    bytes[8] = 9;
    assert_eq!(Address::from_bytes(bytes).hash_word(), 258);
    let mut bytes = [0xffu8; 32];
    bytes[0] = 0x80;
    assert_eq!(Address::from_bytes(bytes).hash_word(), 0x80ff_ffff_ffff_ffff);
    assert_eq!(
        Address::from_bytes(bytes).hash_word(),
        u64::from_be_bytes([0x80, 0xff, 0xff, 0xff, 0xff, 0xff, 0xff, 0xff])
    );
}

#[test]
fn from_hex_reads_sixty_four_digits() {
    let text = format!("{}{}", "0".repeat(60), "0aFf");
    let a = Address::from_hex(text).unwrap();
    let mut bytes = [0u8; 32];
    bytes[30] = 0x0a;
    bytes[31] = 0xff;
    assert_eq!(a.as_bytes(), &bytes[..]);
}

#[test]
fn from_hex_refuses_other_texts() {
    let refused = [
        String::new(),
        "0".repeat(63),
        "0".repeat(62),
        "0".repeat(66),
        format!("{}g", "0".repeat(63)),
        format!("{} ", "0".repeat(63)),
        format!("{}\u{e9}", "0".repeat(62)),
    ];
    for text in refused {
        assert!(matches!(
            Address::from_hex(text),
            Err(TurnoutError::AddressConversion)
        ));
    }
}

#[test]
fn to_hex_writes_lower_case_digits() {
    let mut bytes = [0u8; 32];
    bytes[0] = 0xab;
    bytes[31] = 0x0f;
    let text = Address::from_bytes(bytes).to_hex();
    assert_eq!(text, format!("ab{}0f", "0".repeat(60)));
    assert_eq!(Address::from_hex(text).unwrap(), Address::from_bytes(bytes));
}

#[test]
fn hex_form_comes_back_as_the_same_address() {
    for n in [0u8, 1, 15, 16, 127, 128, 255] {
        let mut bytes = [n; 32];
        bytes[5] = n.wrapping_mul(7);
        let a = Address::from_bytes(bytes);
        assert_eq!(Address::from_hex(a.to_hex()).unwrap(), a);
    }
}

#[test]
fn error_has_its_messages() {
    let e = TurnoutError::AddressConversion;
    assert_eq!(e.message(), "could not convert string to sha256 hex");
    assert_eq!(e.description(), "could not convert string to sha 256 hex");
    assert!(e.cause().is_none());
}

#[test]
fn simple_node_has_the_digest_of_its_name() {
    let node = SimpleNode::new(String::from("abc"));
    assert_eq!(
        node.address().to_hex(),
        "ba7816bf8f01cfea414140de5dae2223b00361a396177a9cb410ff61f20015ad"
    );
    assert!(node.targets().is_none());
    let empty = SimpleNode::new(String::new());
    assert_eq!(
        empty.address().to_hex(),
        "e3b0c44298fc1c149afbf4c8996fb92427ae41e4649b934ca495991b7852b855"
    );
}

#[test]
fn favorite_is_the_first_greatest_weight() {
    let mut row: AddressMap<u64> = AddressMap::new();
    assert_eq!(favorite(&row), None);
    row.insert(addr(1), 3);
    row.insert(addr(2), 9);
    row.insert(addr(3), 9);
    row.insert(addr(4), 1);
    assert_eq!(favorite(&row), Some(1));
}

#[test]
fn points_at_gives_the_points_of_a_rank() {
    let weights = vec![10u64, 30, 20, 20];
    assert_eq!(points_at(&weights, 0), Some(1_000_000));
    assert_eq!(points_at(&weights, 1), Some(4_000_000));
    assert_eq!(points_at(&weights, 2), Some(2_500_000));
    assert_eq!(points_at(&weights, 3), Some(2_500_000));
}
