//! Which names a dataset or an array may have.

use crate::error::{Error, Result};
use crate::text::{characters, same_text};
use vstd::prelude::*;

verus! {

/// A name that is safe and unambiguous as a path component.
pub open spec fn valid_name(name: Seq<char>) -> bool {
    &&& name.len() > 0
    &&& name[0] != '_'
    &&& !name.contains('/')
    &&& name != ".."@
    &&& name != "."@
}

/// Rejects names that would be ambiguous or unsafe as path components.
pub fn validate_name(name: &str) -> (verdict: Result<()>)
    ensures
        valid_name(name@) ==> verdict is Ok,
        !valid_name(name@) ==> (verdict matches Err(e) && e@ == Error::InvalidName(name@)),
{
    let chars: Vec<char> = characters(name);
    if chars.len() == 0 || chars[0] == '_' || same_text(name, "..") || same_text(name, ".") {
        return Err(Error::InvalidName(name.to_owned()));
    }
    let mut i: usize = 0;
    while i < chars.len()
        invariant
            chars@ == name@,
            i <= chars@.len(),
            forall|j: int| 0 <= j < i ==> name@[j] != '/',
        decreases chars@.len() - i,
    {
        if chars[i] == '/' {
            return Err(Error::InvalidName(name.to_owned()));
        }
        i += 1;
    }
    Ok(())
}

/// A valid name stays inside the directory it is put in: it has a character,
/// none of them is a slash, it is neither the directory itself nor the one
/// above it, and it does not look like a reserved name. Every name like that
/// is valid.
pub proof fn law_valid_names_stay_in_their_directory(name: Seq<char>)
    ensures
        valid_name(name) <==> {
            &&& name.len() > 0
            &&& name[0] != '_'
            &&& forall|i: int| 0 <= i < name.len() ==> #[trigger] name[i] != '/'
            &&& !(name.len() <= 2 && forall|i: int| 0 <= i < name.len() ==> #[trigger] name[i]
                == '.')
        },
{
    reveal_strlit(".");
    reveal_strlit("..");
    if name.len() == 1 && name[0] == '.' {
        assert(name =~= "."@);
    }
    if name.len() == 2 && name[0] == '.' && name[1] == '.' {
        assert(name =~= ".."@);
    }
    if name.contains('/') {
        let i = choose|i: int| 0 <= i < name.len() && name[i] == '/';
        assert(name[i] == '/');
    } else {
        assert forall|i: int| 0 <= i < name.len() implies #[trigger] name[i] != '/' by {
            assert(name.contains(name[i]));
        }
    }
}

} // verus!
