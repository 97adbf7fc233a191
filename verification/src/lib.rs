//! Conversion of infix regular-expression patterns to postfix (reverse-Polish)
//! token sequences: implicit concatenation is made explicit, then a
//! shunting-yard pass reorders the tokens by operator precedence.

pub mod chains;
pub mod expand;
pub mod shunt;
pub mod token;
pub mod wellformed;

pub use expand::insert_concat_ops;
pub use shunt::{to_postfix, to_postfix_tokens};
pub use token::Token;
