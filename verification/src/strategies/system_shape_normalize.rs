//! Lifts a stray leading system message to where a request has its system text.

use super::has_role;
use crate::json::{lemma_views, views, Json, JsonView};
use vstd::prelude::*;

verus! {

/// Whether a body has the stray system message that is lifted: it comes first, is not alone, has
/// content, and the body has no system text yet.
pub open spec fn stray(root: JsonView) -> bool {
    &&& root.get_array("messages"@) matches Some(messages) && messages.len() >= 2 && has_role(
        messages[0],
        "system"@,
    ) && (messages[0].get("content"@) matches Some(content) && content != JsonView::Null)
    &&& !(root.get("system"@) matches Some(system) && system != JsonView::Null)
}

/// The body with the stray message lifted.
pub open spec fn lifted(root: JsonView) -> JsonView {
    let messages = root.get_array("messages"@)->0;
    root.with("messages"@, JsonView::Array(messages.drop_first())).with(
        "system"@,
        messages[0].get("content"@)->0,
    )
}

/// The body, repaired where it needs to be.
pub open spec fn normalized(root: JsonView) -> JsonView {
    if stray(root) {
        lifted(root)
    } else {
        root
    }
}

/// Lifts a stray system message and says whether there was one.
pub fn normalize(root: &mut Json) -> (r: bool)
    ensures
        r == stray(old(root)@),
        final(root)@ == normalized(old(root)@),
{
    let content = match root.get_array("messages") {
        Some(messages) => {
            proof {
                lemma_views(messages@);
            }
            if messages.len() < 2 || !messages[0].member_is("role", "system") {
                return false;
            }
            match messages[0].get("content") {
                Some(content) => if content.is_null() {
                    return false;
                } else {
                    content.copy()
                },
                None => return false,
            }
        },
        None => return false,
    };
    let taken = match root.get("system") {
        Some(system) => !system.is_null(),
        None => false,
    };
    if taken {
        return false;
    }
    drop_first_message(root);
    root.set("system", content);
    true
}

/// Drops the first message of a body.
fn drop_first_message(root: &mut Json)
    requires
        old(root)@.get_array("messages"@) matches Some(messages) && messages.len() >= 1,
    ensures
        final(root)@ == old(root)@.with(
            "messages"@,
            JsonView::Array(old(root)@.get_array("messages"@)->0.drop_first()),
        ),
{
    let ghost before = root@.get_array("messages"@)->0;
    match root {
        Json::Object(m) => match m.get_mut("messages") {
            Some(messages) => match messages {
                Json::Array(items) => {
                    let ghost old_items = items@;
                    proof {
                        lemma_views(old_items);
                    }
                    items.remove(0);
                    proof {
                        lemma_views(items@);
                        assert(views(items@) =~= before.drop_first());
                    }
                },
                _ => {},
            },
            None => {},
        },
        _ => {},
    }
}

} // verus!
