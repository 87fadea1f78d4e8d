//! The emitter: writes YAML text for a value.
pub mod model;
pub mod serializer;

use vstd::prelude::*;
use crate::ast::YamlValue;
use crate::error::YamlError;
use model::{height, value_text};
use serializer::serialize;

verus! {

/// The YAML text of `value`, starting at the first column.
pub fn stringify(value: &YamlValue) -> (res: Result<String, YamlError>)
    requires
        2 * height(value@) <= usize::MAX,
    ensures
        res matches Ok(s) && s@ == value_text(value@, 0),
{
    let output = match serialize(value, 0) {
        Ok(s) => s,
        Err(e) => {
            return Err(e);
        },
    };
    Ok(output)
}

} // verus!
