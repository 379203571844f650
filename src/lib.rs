pub mod boat_instructions;
pub mod boat_program;
pub mod bytecode_reader;
pub mod generated_code;
pub mod expr_translator;
pub mod interpreter;
pub mod program_optimizer;
pub mod program_parser;
pub mod program_translator;
