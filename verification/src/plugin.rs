//! What the plugin tells the host of itself.
use vstd::prelude::*;
use vstd::string::*;

verus! {

/// The name of the plugin and of its window.
pub fn plugin_name() -> (r: String)
    ensures
        r@ == "anarchy_time_control_editor.aux2"@,
{
    "anarchy_time_control_editor.aux2".to_owned()
}

/// The line that describes the plugin in the given version.
pub fn plugin_information(version: &str) -> (r: String)
    ensures
        r@ == "Anarchy Time Control Editor / v"@ + version@
            + " / https://github.com/sevenc-nanashi/anarchy_time_control_editor.aux2"@,
{
    "Anarchy Time Control Editor / v".to_owned().concat(version).concat(
        " / https://github.com/sevenc-nanashi/anarchy_time_control_editor.aux2",
    )
}

} // verus!
