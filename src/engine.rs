use vstd::prelude::*;

verus! {

#[verifier::external_type_specification]
#[verifier::external_body]
pub struct ExLua(mlua::Lua);

/// Relies on mlua::Lua::new: a fresh interpreter with the safe standard
/// libraries and no state shared with any other.
#[verifier::external_body]
pub(crate) fn new_engine() -> (r: mlua::Lua) {
    mlua::Lua::new()
}

/// Relies on mlua::Lua::load and mlua::Chunk::exec: compiles `source` as a Lua
/// chunk and runs it; the error carries the engine's diagnostic.
#[verifier::external_body]
pub(crate) fn run_chunk(lua: &mlua::Lua, source: &[u8]) -> (r: Result<(), String>) {
    lua.load(source).exec().map_err(|e| e.to_string())
}

/// Relies on mlua::Table::set on the globals table: binds the global `name` to
/// a Lua string holding the bytes of `value`.
#[verifier::external_body]
pub(crate) fn set_global_bytes(lua: &mlua::Lua, name: &str, value: &[u8]) -> (r: Result<
    (),
    String,
>) {
    lua.globals().set(name, mlua::BString::from(value)).map_err(|e| e.to_string())
}

/// Relies on mlua::Table::get on the globals table: reads the global `name` as
/// the bytes of a Lua string (a number is converted); any other value is an error.
#[verifier::external_body]
pub(crate) fn get_global_bytes(lua: &mlua::Lua, name: &str) -> (r: Result<Vec<u8>, String>) {
    lua.globals().get::<mlua::BString>(name).map(|b| b.into()).map_err(|e| e.to_string())
}

/// Relies on std's String::from_utf8: it succeeds exactly when the bytes are
/// UTF-8, and the string then holds those bytes.
#[verifier::external_body]
pub(crate) fn text_of_bytes(b: Vec<u8>) -> (r: Option<String>)
    ensures
        r is Some <==> vstd::utf8::valid_utf8(b@),
        r matches Some(s) ==> s@ == vstd::utf8::decode_utf8(b@),
{
    String::from_utf8(b).ok()
}

} // verus!
