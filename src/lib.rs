//! Maps and sets whose keys compare without regard to case, while each entry
//! keeps the text its key was first inserted with.

pub mod key;
pub mod seq_lemmas;
pub mod sorted_keys;
pub mod unicase_btree_set;
pub mod unicase_btree_map;
pub mod index_engine;
pub mod unicase_index_set;
pub mod unicase_index_map;
pub mod laws;
