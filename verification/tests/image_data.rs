use daw::image::{base64_payload, decode_image};

#[test]
fn payload_follows_data_uri_marker() {
    assert_eq!(base64_payload("data:image/png;base64,aGk="), "aGk=");
    assert_eq!(base64_payload("aGk="), "aGk=");
}

#[test]
fn image_bytes_are_decoded() {
    assert_eq!(decode_image("data:image/png;base64,aGk="), Ok(b"hi".to_vec()));
    assert_eq!(decode_image("aGk="), Ok(b"hi".to_vec()));
}

#[test]
fn invalid_base64_is_reported() {
    let e = decode_image("data:image/png;base64,@@@").unwrap_err();
    assert!(e.starts_with("Failed to decode base64 data: "));
}

#[test]
fn logo_data_uri_decodes_back_to_its_bytes() {
    let bytes: Vec<u8> = (0u8..=255).collect();
    let uri = daw::brand::logo_data_uri("logo.png", &bytes);
    assert_eq!(decode_image(&uri), Ok(bytes.clone()));
    for n in 0..5 {
        let part = &bytes[..n];
        assert_eq!(decode_image(&daw::brand::logo_data_uri("l.jpg", part)), Ok(part.to_vec()));
    }
}
