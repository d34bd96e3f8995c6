pub mod joiner;
