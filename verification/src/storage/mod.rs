pub mod block_store;
