use wallet::Address;
use wallet::ClientState;
use wallet::ClientStateHelper;
use wallet::CompactBlock;
use wallet::Note;
use wallet::StateFragment;
use wallet::Wallet;
use wallet::WalletError;
use wallet::derive_nullifier;
use wallet::to_hex;

fn test_wallet() -> Wallet {
    Wallet::new(vec![1u8; 32], vec![2u8; 32], vec![3u8; 32], vec![4u8; 32])
}

fn empty_block(height: u32) -> CompactBlock {
    CompactBlock { height, fragments: Vec::new(), nullifiers: Vec::new() }
}

fn own_fragment(state: &ClientState, commitment: Vec<u8>, note: &Note) -> StateFragment {
    let ct = note.encrypt(state.wallet().incoming_viewing_key());
    StateFragment { note_commitment: commitment, ephemeral_key: vec![8u8; 32], encrypted_note: ct }
}

#[test]
fn empty_scan_at_genesis() {
    let mut state = ClientState::new(test_wallet());
    assert_eq!(state.last_block_height(), None);
    let r = state.scan_block(empty_block(0));
    assert!(r.is_ok());
    assert_eq!(state.last_block_height(), Some(0));
    assert_eq!(state.unspent_len(), 0);
    assert_eq!(state.spent_len(), 0);
    assert_eq!(state.nullifier_map_len(), 0);
    let fresh = ClientState::new(test_wallet());
    assert_eq!(state.tree_root(), fresh.tree_root());
}

#[test]
fn nonzero_height_from_fresh_state_fails() {
    let mut state = ClientState::new(test_wallet());
    let r = state.scan_block(empty_block(3));
    assert_eq!(r, Err(WalletError::UnexpectedBlockHeight));
    assert_eq!(state.last_block_height(), None);
}

#[test]
fn skipping_a_height_fails_and_leaves_state() {
    let mut state = ClientState::new(test_wallet());
    state.scan_block(empty_block(0)).unwrap();
    let root = state.tree_root();
    let r = state.scan_block(empty_block(2));
    assert_eq!(r, Err(WalletError::UnexpectedBlockHeight));
    assert_eq!(state.last_block_height(), Some(0));
    assert_eq!(state.tree_root(), root);
}

#[test]
fn empty_blocks_only_advance_height() {
    let mut state = ClientState::new(test_wallet());
    state.scan_block(empty_block(0)).unwrap();
    state.scan_block(empty_block(1)).unwrap();
    state.scan_block(empty_block(2)).unwrap();
    assert_eq!(state.last_block_height(), Some(2));
    assert_eq!(state.unspent_len(), 0);
    assert_eq!(state.tree_size(), 0);
}

#[test]
fn receive_one_note() {
    let mut state = ClientState::new(test_wallet());
    let note = Note::new(vec![9u8; 32], 100, 7);
    let fragment = own_fragment(&state, vec![5u8; 32], &note);
    let block = CompactBlock { height: 0, fragments: vec![fragment], nullifiers: Vec::new() };
    state.scan_block(block).unwrap();
    assert_eq!(state.unspent_len(), 1);
    assert_eq!(state.nullifier_map_len(), 1);
    assert_eq!(state.tree_size(), 1);
}

#[test]
fn foreign_fragment_only_advances_tree() {
    let mut state = ClientState::new(test_wallet());
    let fragment = StateFragment {
        note_commitment: vec![6u8; 32],
        ephemeral_key: vec![8u8; 32],
        encrypted_note: vec![0u8; 80],
    };
    let block = CompactBlock { height: 0, fragments: vec![fragment], nullifiers: Vec::new() };
    state.scan_block(block).unwrap();
    assert_eq!(state.tree_size(), 1);
    assert_eq!(state.unspent_len(), 0);
    assert_eq!(state.nullifier_map_len(), 0);
}

#[test]
fn duplicate_commitment_in_one_block_is_refused() {
    let mut state = ClientState::new(test_wallet());
    let note = Note::new(vec![9u8; 32], 1, 0);
    let f1 = own_fragment(&state, vec![5u8; 32], &note);
    let f2 = own_fragment(&state, vec![5u8; 32], &note);
    let block = CompactBlock { height: 0, fragments: vec![f1, f2], nullifiers: Vec::new() };
    assert_eq!(state.scan_block(block), Err(WalletError::DuplicateCommitment));
    assert_eq!(state.tree_size(), 0);
}

#[test]
fn bad_commitment_is_refused() {
    let mut state = ClientState::new(test_wallet());
    let note = Note::new(vec![9u8; 32], 1, 0);
    let f1 = own_fragment(&state, vec![5u8; 31], &note);
    let block = CompactBlock { height: 0, fragments: vec![f1], nullifiers: Vec::new() };
    assert_eq!(state.scan_block(block), Err(WalletError::InvalidNoteCommitment));
}

#[test]
fn bad_ephemeral_key_is_refused() {
    let mut state = ClientState::new(test_wallet());
    let note = Note::new(vec![9u8; 32], 1, 0);
    let mut f1 = own_fragment(&state, vec![5u8; 32], &note);
    f1.ephemeral_key = vec![8u8; 3];
    let block = CompactBlock { height: 0, fragments: vec![f1], nullifiers: Vec::new() };
    assert_eq!(state.scan_block(block), Err(WalletError::InvalidEphemeralKey));
}

#[test]
fn spend_detection_moves_the_note() {
    let mut state = ClientState::new(test_wallet());
    let note = Note::new(vec![9u8; 32], 100, 7);
    let commitment = vec![5u8; 32];
    let fragment = own_fragment(&state, commitment.clone(), &note);
    let block0 = CompactBlock { height: 0, fragments: vec![fragment], nullifiers: Vec::new() };
    state.scan_block(block0).unwrap();
    let nullifier = derive_nullifier(state.wallet().full_viewing_key(), 0, &commitment);
    let block1 = CompactBlock { height: 1, fragments: Vec::new(), nullifiers: vec![nullifier] };
    state.scan_block(block1).unwrap();
    assert_eq!(state.unspent_len(), 0);
    assert_eq!(state.spent_len(), 1);
    assert_eq!(state.nullifier_map_len(), 1);
}

#[test]
fn malformed_nullifier_is_skipped() {
    let mut state = ClientState::new(test_wallet());
    state.scan_block(empty_block(0)).unwrap();
    let block1 = CompactBlock { height: 1, fragments: Vec::new(), nullifiers: vec![vec![1u8; 5]] };
    assert!(state.scan_block(block1).is_ok());
    assert_eq!(state.last_block_height(), Some(1));
}

fn dest_string() -> String {
    let a = Address::new(5, vec![7u8; 32]);
    to_hex(&a.to_bytes())
}

#[test]
fn insufficient_balance() {
    let mut state = ClientState::new(test_wallet());
    state.add_asset_to_registry(vec![9u8; 32], "X".to_string());
    let note = Note::new(vec![9u8; 32], 100, 7);
    let fragment = own_fragment(&state, vec![5u8; 32], &note);
    let block = CompactBlock { height: 0, fragments: vec![fragment], nullifiers: Vec::new() };
    state.scan_block(block).unwrap();
    let r = state.new_transaction(90, &"X".to_string(), &dest_string(), 20, None, None);
    assert_eq!(
        r.err(),
        Some(WalletError::InsufficientBalance { need: 110, have: 100 })
    );
}

#[test]
fn transaction_balances_amount_fee_and_change() {
    let mut state = ClientState::new(test_wallet());
    state.add_asset_to_registry(vec![9u8; 32], "X".to_string());
    let note = Note::new(vec![9u8; 32], 100, 7);
    let fragment = own_fragment(&state, vec![5u8; 32], &note);
    let block = CompactBlock { height: 0, fragments: vec![fragment], nullifiers: Vec::new() };
    state.scan_block(block).unwrap();
    let tx = state
        .new_transaction(30, &"X".to_string(), &dest_string(), 10, None, None)
        .unwrap();
    assert_eq!(tx.fee, 10);
    assert_eq!(tx.spends.len(), 1);
    assert_eq!(tx.outputs.len(), 2);
    assert_eq!(tx.outputs[0].value.amount, 30);
    assert_eq!(tx.outputs[1].value.amount, 60);
    assert_eq!(tx.outputs[0].value.asset_id, vec![9u8; 32]);
    assert_eq!(tx.chain_id, wallet::current_chain_id());
    assert_eq!(tx.anchor, state.tree_root());
    // change returns to the address of the last note drawn by default
    assert_eq!(tx.outputs[1].destination.diversifier_index(), 7);
}

#[test]
fn missing_denomination_is_refused() {
    let mut state = ClientState::new(test_wallet());
    state.scan_block(empty_block(0)).unwrap();
    let r = state.new_transaction(1, &"Y".to_string(), &dest_string(), 0, None, None);
    assert_eq!(r.err(), Some(WalletError::NoNotesOfDenomination));
}

#[test]
fn wrong_source_address_is_refused() {
    let mut state = ClientState::new(test_wallet());
    state.add_asset_to_registry(vec![9u8; 32], "X".to_string());
    let note = Note::new(vec![9u8; 32], 100, 7);
    let fragment = own_fragment(&state, vec![5u8; 32], &note);
    let block = CompactBlock { height: 0, fragments: vec![fragment], nullifiers: Vec::new() };
    state.scan_block(block).unwrap();
    let r = state.new_transaction(1, &"X".to_string(), &dest_string(), 0, None, Some(8));
    assert_eq!(r.err(), Some(WalletError::NoNotesAtAddress));
}

#[test]
fn bad_destination_is_refused() {
    let mut state = ClientState::new(test_wallet());
    state.add_asset_to_registry(vec![9u8; 32], "X".to_string());
    let note = Note::new(vec![9u8; 32], 100, 7);
    let fragment = own_fragment(&state, vec![5u8; 32], &note);
    let block = CompactBlock { height: 0, fragments: vec![fragment], nullifiers: Vec::new() };
    state.scan_block(block).unwrap();
    let r = state.new_transaction(1, &"X".to_string(), &"zz".to_string(), 0, None, None);
    assert_eq!(r.err(), Some(WalletError::InvalidAddress));
}

#[test]
fn round_trip_keeps_the_state() {
    let mut state = ClientState::new(test_wallet());
    state.add_asset_to_registry(vec![9u8; 32], "X".to_string());
    let note = Note::new(vec![9u8; 32], 100, 7);
    let c1 = vec![5u8; 32];
    let f1 = own_fragment(&state, c1.clone(), &note);
    let foreign = StateFragment {
        note_commitment: vec![6u8; 32],
        ephemeral_key: vec![8u8; 32],
        encrypted_note: vec![0u8; 80],
    };
    let note2 = Note::new(vec![9u8; 32], 50, 2);
    let f2 = own_fragment(&state, vec![7u8; 32], &note2);
    let block0 = CompactBlock { height: 0, fragments: vec![f1, foreign, f2], nullifiers: Vec::new() };
    state.scan_block(block0).unwrap();
    let nullifier = derive_nullifier(state.wallet().full_viewing_key(), 0, &c1);
    let block1 = CompactBlock { height: 1, fragments: Vec::new(), nullifiers: vec![nullifier] };
    state.scan_block(block1).unwrap();

    let root = state.tree_root();
    let unspent = state.unspent_len();
    let spent = state.spent_len();
    let nulls = state.nullifier_map_len();
    let height = state.last_block_height();

    let helper = ClientStateHelper::from_state(state);
    let restored = ClientState::from_helper(helper).unwrap();
    assert_eq!(restored.tree_root(), root);
    assert_eq!(restored.unspent_len(), unspent);
    assert_eq!(restored.spent_len(), spent);
    assert_eq!(restored.nullifier_map_len(), nulls);
    assert_eq!(restored.last_block_height(), height);

    // the round trip is exact: re-serializing gives the same helper fields
    let helper2 = ClientStateHelper::from_state(restored);
    let again = ClientState::from_helper(helper2).unwrap();
    assert_eq!(again.tree_root(), root);
}
