//! How a link's destination is classified.

use vstd::prelude::*;
use vstd::string::*;

verus! {

/// The kind of destination a link points to.
#[derive(Clone, Copy, Debug, PartialEq, Eq, Structural)]
pub enum Target {
    /// A reference into the same document: the URL starts with `#`.
    Fragment,
    /// Anything that is neither a fragment nor absolute; taken to name another local file.
    Relative,
    /// A network address: the URL starts with the four characters `http`.
    Absolute,
}

/// The classification of a URL given as a sequence of characters.
///
/// The fragment test comes first, so `#http` is a fragment. The absolute test is a
/// case-sensitive prefix test on the four characters `http` and nothing more.
pub open spec fn classify_spec(url: Seq<char>) -> Target {
    if url.len() >= 1 && url[0] == '#' {
        Target::Fragment
    } else if url.len() >= 4 && url[0] == 'h' && url[1] == 't' && url[2] == 't' && url[3] == 'p' {
        Target::Absolute
    } else {
        Target::Relative
    }
}

/// The lower-case name under which a target kind is reported.
pub open spec fn target_name(target: Target) -> Seq<char> {
    match target {
        Target::Fragment => seq!['f', 'r', 'a', 'g', 'm', 'e', 'n', 't'],
        Target::Relative => seq!['r', 'e', 'l', 'a', 't', 'i', 'v', 'e'],
        Target::Absolute => seq!['a', 'b', 's', 'o', 'l', 'u', 't', 'e'],
    }
}

/// Classifies a URL by its first characters.
pub fn classify(url: &str) -> (target: Target)
    ensures
        target == classify_spec(url@),
{
    let n: usize = url.unicode_len();
    if n >= 1 && url.get_char(0) == '#' {
        Target::Fragment
    } else if n >= 4 && url.get_char(0) == 'h' && url.get_char(1) == 't' && url.get_char(2) == 't'
        && url.get_char(3) == 'p' {
        Target::Absolute
    } else {
        Target::Relative
    }
}

impl Target {
    /// The name of this kind: `fragment`, `relative` or `absolute`.
    pub fn name(&self) -> (name: &'static str)
        ensures
            name@ == target_name(*self),
    {
        match self {
            Target::Fragment => {
                proof {
                    reveal_strlit("fragment");
                }
                assert("fragment"@ =~= target_name(Target::Fragment));
                "fragment"
            },
            Target::Relative => {
                proof {
                    reveal_strlit("relative");
                }
                assert("relative"@ =~= target_name(Target::Relative));
                "relative"
            },
            Target::Absolute => {
                proof {
                    reveal_strlit("absolute");
                }
                assert("absolute"@ =~= target_name(Target::Absolute));
                "absolute"
            },
        }
    }
}

} // verus!
