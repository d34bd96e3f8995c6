pub mod primitive;
pub mod rd_scanner;
pub mod wr_scanner;
pub mod joiner;
pub mod repeat;
pub mod stkn_dropper;
pub mod val_dropper;
pub mod crd_manager;
pub mod ramulator;
pub mod accumulator;
pub mod sorted_acc;
pub mod array;
pub mod crd_masker;
pub mod locate;
pub mod shape_operator;
pub mod token_text;
pub mod binary;
pub mod unary;
pub mod new_alu;
pub mod ramulator_context;
pub mod utils;
pub mod memory_logger;
