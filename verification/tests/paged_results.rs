use paged_results::{DecodeError, PagedResults, PAGED_RESULTS_OID};

fn enc(size: i32, cookie: &[u8]) -> Vec<u8> {
    PagedResults { size, cookie: cookie.to_vec() }.encode_value()
}

#[test]
fn round_trip_representative_sizes_and_cookies() {
    let long_cookie: Vec<u8> = (0..300u32).map(|i| (i % 256) as u8).collect();
    let sizes = [0i32, 1, 100, i32::MAX];
    let cookies: [&[u8]; 5] = [
        &[],
        &[0x01],
        &[0x41, 0x42],
        &[0x00, 0xff, 0x00],
        long_cookie.as_slice(),
    ];
    for &size in sizes.iter() {
        for cookie in cookies.iter() {
            let bytes = enc(size, cookie);
            let pr = PagedResults::parse(&bytes).expect("a fresh encoding must decode");
            assert_eq!(pr.size, size);
            assert_eq!(pr.cookie.as_slice(), *cookie);
        }
    }
}

#[test]
fn empty_cookie_fixed_point() {
    let bytes = enc(0, &[]);
    assert_eq!(bytes, vec![0x30, 0x05, 0x02, 0x01, 0x00, 0x04, 0x00]);
}

#[test]
fn example_size_ten_cookie_ab() {
    let bytes = enc(10, &[0x41, 0x42]);
    assert_eq!(bytes, vec![0x30, 0x07, 0x02, 0x01, 0x0a, 0x04, 0x02, 0x41, 0x42]);
    let pr = PagedResults::parse(&bytes).unwrap();
    assert_eq!(pr.size, 10);
    assert_eq!(pr.cookie, vec![0x41, 0x42]);
}

#[test]
fn oid_is_the_fixed_dotted_string() {
    assert_eq!(PAGED_RESULTS_OID, "1.2.840.113556.1.4.319");
    let pr = PagedResults { size: 7, cookie: vec![1, 2, 3] };
    assert_eq!(pr.oid(), "1.2.840.113556.1.4.319");
    assert_eq!(pr.into_control(false).oid, "1.2.840.113556.1.4.319");
}

#[test]
fn criticality_is_carried_and_value_is_independent_of_it() {
    let pr = PagedResults { size: 50, cookie: vec![0xaa, 0xbb] };
    let critical = pr.clone().into_control(true);
    let lax = pr.clone().into_control(false);
    assert!(critical.criticality);
    assert!(!lax.criticality);
    let v1 = critical.value.expect("encoding always yields value octets");
    let v2 = lax.value.expect("encoding always yields value octets");
    assert_eq!(v1, v2);
    assert_eq!(v1, pr.encode_value());
    let d1 = PagedResults::parse(&v1).unwrap();
    let d2 = PagedResults::parse(&v2).unwrap();
    assert_eq!((d1.size, d1.cookie), (d2.size, d2.cookie));
}

#[test]
fn multi_octet_sizes_use_shortest_twos_complement() {
    assert_eq!(enc(128, &[]), vec![0x30, 0x06, 0x02, 0x02, 0x00, 0x80, 0x04, 0x00]);
    assert_eq!(enc(255, &[]), vec![0x30, 0x06, 0x02, 0x02, 0x00, 0xff, 0x04, 0x00]);
    assert_eq!(
        enc(i32::MAX, &[]),
        vec![0x30, 0x08, 0x02, 0x04, 0x7f, 0xff, 0xff, 0xff, 0x04, 0x00]
    );
}

#[test]
fn long_cookie_uses_long_form_lengths() {
    let cookie: Vec<u8> = (0..200u32).map(|i| (i % 256) as u8).collect();
    let bytes = enc(0, &cookie);
    // outer: 0x30, length 0x81 0xce (3 octets of INTEGER unit + 203 of cookie unit)
    assert_eq!(&bytes[..7], &[0x30, 0x81, 0xce, 0x02, 0x01, 0x00, 0x04]);
    // cookie unit length field: 0x81 0xc8 (200)
    assert_eq!(&bytes[7..9], &[0x81, 0xc8]);
    let pr = PagedResults::parse(&bytes).unwrap();
    assert_eq!(pr.size, 0);
    assert_eq!(pr.cookie, cookie);
}

#[test]
fn negative_sizes_encode_but_read_back_unsigned() {
    // The decoder reads the INTEGER content as unsigned and narrows: -1 is
    // encoded minimally as one octet 0xff and comes back as 255.
    let bytes = enc(-1, &[]);
    assert_eq!(bytes, vec![0x30, 0x05, 0x02, 0x01, 0xff, 0x04, 0x00]);
    assert_eq!(PagedResults::parse(&bytes).unwrap().size, 255);
    // A full four-octet value occupies the whole 32-bit range, so the
    // narrowing brings the sign back.
    let bytes = enc(i32::MIN, &[]);
    assert_eq!(bytes, vec![0x30, 0x08, 0x02, 0x04, 0x80, 0x00, 0x00, 0x00, 0x04, 0x00]);
    assert_eq!(PagedResults::parse(&bytes).unwrap().size, i32::MIN);
}

#[test]
fn rejects_single_integer_without_second_element() {
    // A bare INTEGER unit is primitive: no SEQUENCE, no second element.
    let err = PagedResults::parse(&[0x02, 0x01, 0x00]).unwrap_err();
    assert_eq!(err, DecodeError::NotConstructed);
}

#[test]
fn rejects_sequence_whose_first_element_is_an_octet_string() {
    let err = PagedResults::parse(&[0x30, 0x05, 0x04, 0x01, 0x00, 0x04, 0x00]).unwrap_err();
    assert_eq!(err, DecodeError::NotInteger);
}

#[test]
fn rejects_truncated_and_garbage_input() {
    assert_eq!(PagedResults::parse(&[]).unwrap_err(), DecodeError::BadTlv);
    assert_eq!(PagedResults::parse(&[0x30]).unwrap_err(), DecodeError::BadTlv);
    // Outer length says five octets follow, but only one does.
    assert_eq!(PagedResults::parse(&[0x30, 0x05, 0x02]).unwrap_err(), DecodeError::BadTlv);
    // 0xff has the multi-octet identifier form, which is not accepted.
    assert_eq!(PagedResults::parse(&[0xff, 0xff, 0xff]).unwrap_err(), DecodeError::BadTlv);
    // An indefinite length (0x80) is not accepted.
    assert_eq!(
        PagedResults::parse(&[0x30, 0x80, 0x02, 0x01, 0x00, 0x04, 0x00, 0x00, 0x00]).unwrap_err(),
        DecodeError::BadTlv
    );
}

#[test]
fn rejects_sequence_with_one_element_only() {
    let err = PagedResults::parse(&[0x30, 0x03, 0x02, 0x01, 0x00]).unwrap_err();
    assert_eq!(err, DecodeError::MissingElement);
}

#[test]
fn rejects_second_element_reaching_past_the_sequence() {
    // The second unit claims two content octets, but the sequence ends after
    // one of them; the trailing octet belongs to nobody.
    let err =
        PagedResults::parse(&[0x30, 0x06, 0x02, 0x01, 0x00, 0x04, 0x02, 0x41, 0x42]).unwrap_err();
    assert_eq!(err, DecodeError::MissingElement);
}

#[test]
fn rejects_empty_or_oversized_integer_content() {
    let err = PagedResults::parse(&[0x30, 0x04, 0x02, 0x00, 0x04, 0x00]).unwrap_err();
    assert_eq!(err, DecodeError::BadInteger);
    let err = PagedResults::parse(&[
        0x30, 0x0d, 0x02, 0x09, 0x01, 0x02, 0x03, 0x04, 0x05, 0x06, 0x07, 0x08, 0x09, 0x04, 0x00,
    ])
    .unwrap_err();
    assert_eq!(err, DecodeError::BadInteger);
}

#[test]
fn rejects_constructed_second_element() {
    let err = PagedResults::parse(&[0x30, 0x05, 0x02, 0x01, 0x00, 0x30, 0x00]).unwrap_err();
    assert_eq!(err, DecodeError::NotPrimitive);
}

#[test]
fn accepts_trailing_octets_after_the_outer_sequence() {
    let mut bytes = enc(1, &[0x99]);
    bytes.push(0xde);
    let pr = PagedResults::parse(&bytes).unwrap();
    assert_eq!(pr.size, 1);
    assert_eq!(pr.cookie, vec![0x99]);
}

#[test]
fn accepts_any_primitive_tag_for_the_cookie() {
    // The second element is read permissively: 0x13 (PrintableString) is not
    // an OCTET STRING, but it is primitive, so its content is the cookie.
    let pr = PagedResults::parse(&[0x30, 0x06, 0x02, 0x01, 0x05, 0x13, 0x01, 0x41]).unwrap();
    assert_eq!(pr.size, 5);
    assert_eq!(pr.cookie, vec![0x41]);
}

#[test]
fn accepts_non_minimal_long_form_length() {
    // A length of five written in two octets (0x82 0x00 0x05) is not minimal,
    // but BER allows it.
    let pr = PagedResults::parse(&[0x30, 0x82, 0x00, 0x05, 0x02, 0x01, 0x07, 0x04, 0x00]).unwrap();
    assert_eq!(pr.size, 7);
    assert_eq!(pr.cookie, Vec::<u8>::new());
}
