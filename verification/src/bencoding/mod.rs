pub mod spec;
pub mod number;
pub mod format;
pub mod data_kind;
pub mod encoder;
pub mod number_exec;
pub mod parser;

pub use data_kind::{
    assert_well_formed, get_as, missing_key_error, ConvertError, Data, DataKind, Dictionary,
    FromDataKind, List,
};
pub use encoder::Encode;
pub use format::ParseErrorKind;
pub use parser::{parse, parse_into_dictionary, DictionaryError, ParseError, Parser};
