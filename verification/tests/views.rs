use wallet::ClientState;
use wallet::CompactBlock;
use wallet::Note;
use wallet::StateFragment;
use wallet::Wallet;

#[test]
fn unspent_notes_carry_address_and_denomination() {
    let mut state = ClientState::new(Wallet::new(
        vec![1u8; 32],
        vec![2u8; 32],
        vec![3u8; 32],
        vec![4u8; 32],
    ));
    state.add_asset_to_registry(vec![9u8; 32], "X".to_string());
    let note = Note::new(vec![9u8; 32], 41, 6);
    let ct = note.encrypt(state.wallet().incoming_viewing_key());
    let fragment = StateFragment {
        note_commitment: vec![5u8; 32],
        ephemeral_key: vec![8u8; 32],
        encrypted_note: ct,
    };
    let block = CompactBlock { height: 0, fragments: vec![fragment], nullifiers: Vec::new() };
    state.scan_block(block).unwrap();
    let triples = state.unspent_notes();
    assert_eq!(triples.len(), 1);
    assert_eq!(triples[0].0, 6);
    assert_eq!(triples[0].1, "X".to_string());
    assert_eq!(triples[0].2.amount(), 41);
}
