pub mod unix;
