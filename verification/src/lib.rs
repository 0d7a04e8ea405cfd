pub mod classify;
pub mod config;
pub mod convert;
pub mod dict;
pub mod table;
pub mod text;

pub use classify::{is_chi, is_kor_or_chi};
pub use config::{get_config, Config};
pub use convert::convert_str;
pub use dict::{load_arc_dictionary, load_dictionary, Dictionary};
pub use table::{CharTable, WordTable};
