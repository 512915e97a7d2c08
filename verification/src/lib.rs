//! A prefix tree (trie) over the lowercase alphabet `'a'..='z'`.
//!
//! Keys are strings of lowercase letters. The trie supports insertion,
//! exact-match lookup and deletion, and keeps two structural invariants:
//! a node is terminal exactly when its path spells a stored key, and no
//! childless non-terminal node survives a deletion (dead branches are
//! pruned immediately).

mod laws;
mod trie;

pub use laws::law_delete_round_trip;
pub use laws::law_insert_idempotent;
pub use laws::law_insert_then_find;
pub use laws::law_no_cross_contamination;
pub use laws::law_nonempty_until_all_deleted;
pub use laws::law_prefix_distinction;
pub use laws::law_unstored_prefix_node_is_bare;
pub use trie::is_symbol;
pub use trie::law_filled_slot_heads_stored_key;
pub use trie::law_no_dead_branches;
pub use trie::law_node_values;
pub use trie::law_stored_key_is_terminal_node;
pub use trie::law_stored_key_path_exists;
pub use trie::sym_char;
pub use trie::sym_index;
pub use trie::valid_key;
pub use trie::Trie;
pub use trie::TrieError;
pub use trie::TrieNode;
pub use trie::ALPHABET_LEN;
