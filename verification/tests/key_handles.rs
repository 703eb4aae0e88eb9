use fractal_gateway::keys::{Privkey, Pubkey, Secret};

#[test]
fn valid_renderings_parse() {
    let mut k = vec![b'A'; 43];
    k.push(b'=');
    assert!(Pubkey::parse(k.clone()).is_ok());
    assert!(Privkey::parse(k.clone()).is_ok());
    assert!(Secret::parse(k).is_ok());
    // 64 hex digits are a valid rendering too
    let hex = vec![b'a'; 64];
    assert!(Pubkey::parse(hex).is_ok());
}

#[test]
fn invalid_renderings_are_refused() {
    assert!(Pubkey::parse(b"".to_vec()).is_err());
    assert!(Pubkey::parse(b"short".to_vec()).is_err());
    // right length, wrong alphabet
    let bad = vec![b'!'; 44];
    assert!(Pubkey::parse(bad).is_err());
}
