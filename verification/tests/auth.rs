use lanflow::auth::{
    begin_client_login, begin_server_login, derive_local_key, deserialize_server_setup,
    local_key_for, mac, new_server_setup, obscure_password, obscure_password_with,
    register_password, reveal_password, serialize_server_setup, verify_mac,
};
use lanflow::error::LanFlowError;

#[test]
fn opaque_registration_and_login_match_session_keys() {
    let setup = new_server_setup();
    let record = register_password(&setup, "share", "correct horse").unwrap();
    let (request, client) = begin_client_login("correct horse".into()).unwrap();
    let (response, server) = begin_server_login(&setup, "share", &record, &request).unwrap();
    let (finish, client_key) = client.finish(&response).unwrap();
    let server_key = server.finish(&finish).unwrap();
    assert_eq!(client_key, server_key);
}

#[test]
fn local_obfuscation_roundtrip() {
    let key = derive_local_key(b"01234567890123456789012345678901");
    let (nonce, ciphertext) = obscure_password(&key, "secret").unwrap();
    assert_eq!(
        reveal_password(&key, &nonce, &ciphertext).unwrap(),
        "secret"
    );
}

#[test]
fn wrong_password_is_refused() {
    let setup = new_server_setup();
    let record = register_password(&setup, "share", "right").unwrap();
    let (request, client) = begin_client_login("wrong".into()).unwrap();
    let (response, _) = begin_server_login(&setup, "share", &record, &request).unwrap();
    match client.finish(&response) {
        Err(LanFlowError::Auth(text)) => assert_eq!(text, "密码不正确"),
        _ => panic!(),
    }
}

#[test]
fn setup_survives_storage() {
    let setup = new_server_setup();
    let bytes = serialize_server_setup(&setup);
    let again = deserialize_server_setup(&bytes).unwrap();
    assert_eq!(serialize_server_setup(&again), bytes);
    let record = register_password(&setup, "share", "pw").unwrap();
    let (request, client) = begin_client_login("pw".into()).unwrap();
    let (response, server) = begin_server_login(&again, "share", &record, &request).unwrap();
    let (finish, key) = client.finish(&response).unwrap();
    assert_eq!(server.finish(&finish).unwrap(), key);
    assert!(matches!(deserialize_server_setup(&bytes[1..]), Err(LanFlowError::Auth(_))));
}

#[test]
fn every_password_begins_a_login() {
    let setup = new_server_setup();
    for password in ["".to_owned(), "p".repeat(65_535), "p".repeat(70_000)] {
        let (request, _) = begin_client_login(password).unwrap();
        let record = register_password(&setup, "share", "pw").unwrap();
        assert!(begin_server_login(&setup, "share", &record, &request).is_ok());
    }
}

#[test]
fn a_password_beyond_the_limit_is_not_registered() {
    let setup = new_server_setup();
    let longest = "p".repeat(65_535);
    let record = register_password(&setup, "share", &longest).unwrap();
    let (request, client) = begin_client_login(longest).unwrap();
    let (response, server) = begin_server_login(&setup, "share", &record, &request).unwrap();
    let (finish, key) = client.finish(&response).unwrap();
    assert_eq!(server.finish(&finish).unwrap(), key);
    match register_password(&setup, "share", &"p".repeat(65_536)) {
        Err(LanFlowError::Auth(text)) => assert!(!text.is_empty()),
        _ => panic!(),
    }
}

#[test]
fn a_refused_login_is_refused_alike_again() {
    let setup = new_server_setup();
    let record = register_password(&setup, "share", "pw").unwrap();
    let texts: Vec<String> = (0..2)
        .map(|_| match begin_server_login(&setup, "share", &record, b"junk") {
            Err(LanFlowError::Auth(text)) => text,
            _ => panic!(),
        })
        .collect();
    assert_eq!(texts[0], texts[1]);
    assert!(!texts[0].is_empty());
}

#[test]
fn unreadable_messages_are_refused() {
    let setup = new_server_setup();
    let record = register_password(&setup, "share", "pw").unwrap();
    assert!(matches!(
        begin_server_login(&setup, "share", &record, b"junk"),
        Err(LanFlowError::Auth(_))
    ));
    let (request, client) = begin_client_login("pw".into()).unwrap();
    assert!(matches!(
        begin_server_login(&setup, "share", b"junk", &request),
        Err(LanFlowError::Auth(_))
    ));
    let (_, server) = begin_server_login(&setup, "share", &record, &request).unwrap();
    assert!(matches!(client.finish(b"junk"), Err(LanFlowError::Auth(_))));
    match server.finish(&[0; 64]) {
        Err(LanFlowError::Auth(text)) => assert_eq!(text, "密码不正确"),
        _ => panic!(),
    }
}

#[test]
fn macs_are_over_the_parts_in_order() {
    let tag = mac(b"key", &[b"The quick brown fox ", b"jumps over the lazy dog"]).unwrap();
    assert_eq!(tag.len(), 32);
    let text: String = tag.iter().map(|byte| format!("{:02x}", byte)).collect();
    assert_eq!(text, "f7bc83f430538424b13298e6aa6fb143ef4d59a14946175997479dbc2d1a3cd8");
    assert_ne!(mac(b"key", &[b"a", b"b"]).unwrap(), mac(b"key", &[b"b", b"a"]).unwrap());
    assert_ne!(mac(b"key", &[b"ab"]).unwrap(), mac(b"kex", &[b"ab"]).unwrap());
}

#[test]
fn only_the_whole_tag_is_accepted() {
    let tag = mac(b"k", &[b"m"]).unwrap();
    assert!(verify_mac(b"k", &[b"m"], &tag).is_ok());
    let mut wrong = tag.clone();
    wrong[31] ^= 1;
    for bad in [&wrong[..], &tag[..31], &[]] {
        match verify_mac(b"k", &[b"m"], bad) {
            Err(LanFlowError::Auth(text)) => assert_eq!(text, "消息认证码无效"),
            _ => panic!(),
        }
    }
    assert!(verify_mac(b"k", &[b"n"], &tag).is_err());
}

#[test]
fn local_keys_depend_on_machine_and_salt() {
    let a = local_key_for(Some("one".into()), b"salt");
    assert_eq!(a.len(), 32);
    assert_eq!(
        a,
        blake3::derive_key("LanFlow local credential obfuscation v1", b"onesalt")
    );
    assert_ne!(a, local_key_for(Some("two".into()), b"salt"));
    assert_ne!(a, local_key_for(Some("one".into()), b"salz"));
    assert_eq!(
        local_key_for(None, b"s"),
        local_key_for(Some("lanflow-unknown-machine".into()), b"s")
    );
}

#[test]
fn kept_passwords_need_key_nonce_and_text() {
    let key = [7u8; 32];
    let (nonce, sealed) = obscure_password_with(&key, vec![1; 24], "pässword").unwrap();
    assert_eq!(nonce, vec![1; 24]);
    assert_ne!(sealed, "pässword".as_bytes().to_vec());
    assert_eq!(sealed.len(), "pässword".len() + 16);
    assert_eq!(reveal_password(&key, &nonce, &sealed).unwrap(), "pässword");
    let errors = [
        (reveal_password(&key, &nonce[1..], &sealed), "认证失败: 本地凭据 nonce 无效"),
        (reveal_password(&[8u8; 32], &nonce, &sealed), "认证失败: 本地凭据已失效"),
        (reveal_password(&key, &nonce, &sealed[1..]), "认证失败: 本地凭据已失效"),
    ];
    for (result, text) in errors {
        assert_eq!(result.unwrap_err().message(), text);
    }
}

#[test]
fn nonces_are_drawn() {
    let key = [7u8; 32];
    let (a, x) = obscure_password(&key, "p").unwrap();
    let (b, y) = obscure_password(&key, "p").unwrap();
    assert_eq!(a.len(), 24);
    assert_ne!(a, b);
    assert_ne!(x, y);
}

#[test]
fn kept_bytes_that_are_no_text() {
    let key = [3u8; 32];
    let cipher = <chacha20poly1305::XChaCha20Poly1305 as chacha20poly1305::aead::KeyInit>::new_from_slice(&key).unwrap();
    let nonce = chacha20poly1305::XNonce::try_from(&[2u8; 24][..]).unwrap();
    let plain: &[u8] = &[0xff, 0xfe];
    let sealed = chacha20poly1305::aead::Aead::encrypt(&cipher, &nonce, plain).unwrap();
    assert_eq!(
        reveal_password(&key, &[2; 24], &sealed).unwrap_err().message(),
        "认证失败: 本地凭据编码无效"
    );
}
