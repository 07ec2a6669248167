//! The page-based engine: pages, write-ahead log, transactions and B+trees.

pub mod btree;
pub mod catalog;
pub mod catalog_laws;
pub mod codec;
pub mod comparison_laws;
pub mod entry_laws;
pub mod index_laws;
pub mod index_store;
pub mod lock_laws;
pub mod locks;
pub mod page;
pub mod page_steps;
pub mod pager;
pub mod pager_laws;
pub mod pager_model;
pub mod planning;
pub mod purge_laws;
pub mod purged_rows;
pub mod reopening;
pub mod row_changes;
pub mod schema_store;
pub mod settling;
pub mod storage;
pub mod storage_model;
pub mod table_laws;
pub mod tables;
pub mod transactions;
pub mod tree;
pub mod tree_node;
pub mod tree_shape;
pub mod tx_types;
pub mod txn_history;
pub mod txn_laws;
pub mod txn_manager;
pub mod txn_model;
pub mod undo_laws;
pub mod values_json;
pub mod wait_graph;
pub mod waiting;
pub mod wal;
