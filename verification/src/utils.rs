pub mod arg_parser;
pub mod value_map;
