use dns_codec::query_type::QueryType;

#[test]
fn named_types_have_their_numbers() {
    assert_eq!(QueryType::A.to_num(), 1);
    assert_eq!(QueryType::NS.to_num(), 2);
    assert_eq!(QueryType::CNAME.to_num(), 5);
    assert_eq!(QueryType::MX.to_num(), 15);
    assert_eq!(QueryType::AAAA.to_num(), 28);
}

#[test]
fn unknown_type_keeps_its_number() {
    assert_eq!(QueryType::UNKNOWN(0).to_num(), 0);
    assert_eq!(QueryType::UNKNOWN(255).to_num(), 255);
    assert_eq!(QueryType::UNKNOWN(u16::MAX).to_num(), u16::MAX);
}

#[test]
fn from_num_recognises_the_address_type() {
    assert_eq!(QueryType::from_num(1), QueryType::A);
}

#[test]
fn from_num_keeps_every_other_number() {
    assert_eq!(QueryType::from_num(0), QueryType::UNKNOWN(0));
    assert_eq!(QueryType::from_num(2), QueryType::UNKNOWN(2));
    assert_eq!(QueryType::from_num(28), QueryType::UNKNOWN(28));
    assert_eq!(QueryType::from_num(u16::MAX), QueryType::UNKNOWN(u16::MAX));
}

#[test]
fn number_survives_from_num_then_to_num() {
    for n in [0u16, 1, 2, 5, 15, 28, 29, 1000, u16::MAX] {
        assert_eq!(QueryType::from_num(n).to_num(), n);
    }
}
