pub mod souffle;
