use vstd::prelude::*;

verus! {

/// What `tinyjson` finds under `key` in the JSON text `text`: the string
/// value of that member when `text` parses as a JSON object that has a
/// member `key` whose value is a string, and `None` otherwise.
pub uninterp spec fn json_string_member(text: Seq<char>, key: Seq<char>) -> Option<Seq<char>>;

/// Parses `text` with `tinyjson` (`str::parse::<JsonValue>`, which is
/// `JsonValue::from_str`), takes the object's map with
/// `JsonValue::get::<HashMap<String, JsonValue>>`, looks `key` up in it with
/// `HashMap::get`, and takes the member's string with `JsonValue::get::<String>`.
/// The contract claims only that the result is a function of `text` and
/// `key` (the parser keeps the last of repeated keys, so the lookup does not
/// depend on the map's order). Not claimed: the parser recurses once per
/// nested array or object, so text nested deeper than the thread's stack
/// allows does not return.
#[verifier::external_body]
fn string_member(text: &str, key: &str) -> (member: Option<String>)
    ensures
        member matches Some(d) ==> json_string_member(text@, key@) == Some(d@),
        member is None <==> json_string_member(text@, key@) is None,
{
    let value = text.parse::<tinyjson::JsonValue>().ok()?;
    let object = value.get::<std::collections::HashMap<String, tinyjson::JsonValue>>()?;
    object.get(key)?.get::<String>().cloned()
}

/// The target directory that `cargo metadata` reports, from whether the
/// command succeeded and what it wrote to its standard output: `None` when
/// it failed, else the string member `target_directory` of the JSON object
/// it wrote, or `None` when there is none.
pub fn metadata_target_directory(success: bool, stdout: &str) -> (dir: Option<String>)
    ensures
        !success ==> dir is None,
        success ==> (dir is None <==> json_string_member(stdout@, "target_directory"@) is None),
        success && dir is Some ==> json_string_member(stdout@, "target_directory"@) == Some(
            dir->0@,
        ),
{
    if !success {
        return None;
    }
    string_member(stdout, "target_directory")
}

} // verus!
