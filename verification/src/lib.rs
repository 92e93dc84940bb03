pub mod machine;
pub mod parse;
pub mod rules;
pub mod tape;
