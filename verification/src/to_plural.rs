//! Naive pluralisation of English nouns.

use vstd::prelude::*;
use vstd::string::StrSliceExecFns;
use vstd::string::StringExecFns;

verus! {

/// The plural of a word: `es` is appended after a trailing `s`, a plain `s`
/// otherwise.
pub open spec fn spec_plural(s: Seq<char>) -> Seq<char> {
    if s.len() > 0 && s[s.len() - 1] == 's' {
        s + "es"@
    } else {
        s + "s"@
    }
}

/// A value that can name its own plural form.
pub trait ToPlural {
    fn to_plural(&self) -> String;
}

impl ToPlural for String {
    fn to_plural(&self) -> (r: String)
        ensures
            r@ == spec_plural(self@),
    {
        let n: usize = self.as_str().unicode_len();
        let mut plural = self.clone();
        if n > 0 && self.as_str().get_char(n - 1) == 's' {
            plural.append("es");
        } else {
            plural.append("s");
        }
        plural
    }
}

} // verus!
