//! The decision core of the template front-end's close-tag handling: given
//! the stack of currently open tags, judge an incoming closing tag. The
//! front-end that reads markup tokens and reports diagnostics sits outside
//! this crate; it acts on the verdict returned here.

use vstd::prelude::*;
use crate::node::{is_void, is_void_tag, str_eq};

verus! {

/// The judgement on one closing tag.
#[derive(Debug, PartialEq, Eq)]
pub enum CloseTagVerdict {
    /// The closing tag matches the innermost open tag, which is now closed.
    Matched,
    /// The tag belongs to the void-element set; a void tag may not be
    /// written as a closing tag at all. The open-tag stack is untouched.
    SelfClosing,
    /// The closing tag does not match the innermost open tag, which is
    /// still popped, as the front-end keeps parsing after the diagnostic.
    Mismatched,
}

/// Judge a closing tag against the stack of open tags. A void tag is
/// rejected outright; otherwise the innermost open tag is popped and the
/// names are compared. A non-void closing tag with no open tag left is a
/// front-end bug and is ruled out by precondition.
pub fn parse_close_tag(parent_stack: &mut Vec<String>, close_tag: &str) -> (v: CloseTagVerdict)
    requires
        old(parent_stack)@.len() > 0 || is_void_tag(close_tag@),
    ensures
        is_void_tag(close_tag@) ==> v == CloseTagVerdict::SelfClosing && final(parent_stack)@
            == old(parent_stack)@,
        !is_void_tag(close_tag@) ==> {
            &&& final(parent_stack)@ == old(parent_stack)@.drop_last()
            &&& (v == CloseTagVerdict::Matched <==> old(parent_stack)@.last()@ == close_tag@)
            &&& (v == CloseTagVerdict::Mismatched <==> old(parent_stack)@.last()@ != close_tag@)
        },
{
    if is_void(close_tag) {
        return CloseTagVerdict::SelfClosing;
    }
    let last_open_tag = parent_stack.pop().unwrap();
    if str_eq(last_open_tag.as_str(), close_tag) {
        CloseTagVerdict::Matched
    } else {
        CloseTagVerdict::Mismatched
    }
}

} // verus!
