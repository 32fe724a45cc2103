pub mod ansi_fsm;
pub mod tokenizer;
