//! Qualified names: local-only lookups and the content models of HTML elements.

use vstd::prelude::*;
use crate::dom::QualName;
use crate::text::same_chars;

verus! {

/// The local name of a qualified name that has neither prefix nor namespace.
pub open spec fn only_local_name_of(q: QualName) -> Option<Seq<char>> {
    if q.prefix is None && q.ns@.len() == 0 {
        Some(q.local@)
    } else {
        None
    }
}

/// Whether `name` occurs among `names`.
pub open spec fn contains_name(names: Seq<String>, name: Seq<char>) -> bool {
    exists|i: int| 0 <= i < names.len() && #[trigger] names[i]@ == name
}

/// Lookups by local name on something that may carry a qualified name.
pub trait QualNameExt {
    /// The local name, where there is a qualified name without prefix or namespace.
    spec fn only_local_name(&self) -> Option<Seq<char>>;

    /// Is this qualified name this local-only name (no prefix, no namespace)?
    fn is_only_local(&self, local_name: &str) -> (r: bool)
        ensures
            r == (self.only_local_name() == Some(local_name@)),
    ;

    /// Is this qualified name one of these local-only names (no prefix, no namespace)?
    fn is_only_local_of(&self, local_names: &Vec<String>) -> (r: bool)
        ensures
            r == (self.only_local_name() is Some && contains_name(
                local_names@,
                self.only_local_name()->0,
            )),
    ;
}

impl QualNameExt for QualName {
    open spec fn only_local_name(&self) -> Option<Seq<char>> {
        only_local_name_of(*self)
    }

    fn is_only_local(&self, local_name: &str) -> (r: bool) {
        if self.prefix.is_none() && self.ns.unicode_len() == 0 {
            same_chars(self.local.as_str(), local_name)
        } else {
            false
        }
    }

    fn is_only_local_of(&self, local_names: &Vec<String>) -> (r: bool) {
        if self.prefix.is_none() && self.ns.unicode_len() == 0 {
            let mut i: usize = 0;
            while i < local_names.len()
                invariant
                    i <= local_names.len(),
                    self.only_local_name() == Some(self.local@),
                    forall|j: int| 0 <= j < i ==> local_names@[j]@ != self.local@,
                decreases local_names.len() - i,
            {
                if same_chars(self.local.as_str(), local_names[i].as_str()) {
                    assert(local_names@[i as int]@ == self.local@);
                    return true;
                }
                i = i + 1;
            }
            false
        } else {
            false
        }
    }
}

/// Elements whose content model never permits children; their end tag is never written.
pub open spec fn is_void_element_name(local: Seq<char>) -> bool {
    local == "area"@ || local == "base"@ || local == "basefont"@ || local == "bgsound"@
        || local == "br"@ || local == "col"@ || local == "embed"@ || local == "frame"@
        || local == "hr"@ || local == "img"@ || local == "input"@ || local == "keygen"@
        || local == "link"@ || local == "meta"@ || local == "param"@ || local == "source"@
        || local == "track"@ || local == "wbr"@
}

/// Elements whose text content is written verbatim.
pub open spec fn is_raw_text_element_name(local: Seq<char>) -> bool {
    local == "style"@ || local == "script"@ || local == "xmp"@ || local == "iframe"@
        || local == "noembed"@ || local == "noframes"@ || local == "plaintext"@
        || local == "noscript"@
}

/// Whether an element of this name may have children.
pub open spec fn can_have_children_spec(name: QualName) -> bool {
    !is_void_element_name(name.local@)
}

/// Whether text inside an element of this name is escaped.
pub open spec fn text_content_should_be_escaped_spec(name: QualName) -> bool {
    !is_raw_text_element_name(name.local@)
}

pub fn can_have_children(name: &QualName) -> (r: bool)
    ensures
        r == can_have_children_spec(*name),
{
    let l = name.local.as_str();
    !(same_chars(l, "area") || same_chars(l, "base") || same_chars(l, "basefont") || same_chars(
        l,
        "bgsound",
    ) || same_chars(l, "br") || same_chars(l, "col") || same_chars(l, "embed") || same_chars(
        l,
        "frame",
    ) || same_chars(l, "hr") || same_chars(l, "img") || same_chars(l, "input") || same_chars(
        l,
        "keygen",
    ) || same_chars(l, "link") || same_chars(l, "meta") || same_chars(l, "param") || same_chars(
        l,
        "source",
    ) || same_chars(l, "track") || same_chars(l, "wbr"))
}

pub fn text_content_should_be_escaped(name: &QualName) -> (r: bool)
    ensures
        r == text_content_should_be_escaped_spec(*name),
{
    let l = name.local.as_str();
    !(same_chars(l, "style") || same_chars(l, "script") || same_chars(l, "xmp") || same_chars(
        l,
        "iframe",
    ) || same_chars(l, "noembed") || same_chars(l, "noframes") || same_chars(l, "plaintext")
        || same_chars(l, "noscript"))
}

} // verus!
