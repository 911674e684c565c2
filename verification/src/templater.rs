//! Project templates.

use vstd::prelude::*;
use vstd::string::*;

verus! {

/// The name of the template of a language: the language, a hyphen, and
/// `lib` for a library or `bin` for a program.
pub open spec fn template_name(language: Seq<char>, is_lib: bool) -> Seq<char> {
    language + "-"@ + if is_lib {
        "lib"@
    } else {
        "bin"@
    }
}

/// The name of the directory that holds the template.
pub fn get_template_name(language: &str, is_lib: bool) -> (r: String)
    ensures
        r@ == template_name(language@, is_lib),
{
    let mut r = language.to_owned();
    r.append("-");
    r.append(if is_lib {
        "lib"
    } else {
        "bin"
    });
    r
}

} // verus!
