//! The one-line JSON object that a waybar custom module prints.

use vstd::prelude::*;
use crate::text::lemma_concat_lacks;

verus! {

/// `{ "text": "<text>", "tooltip": "", "class": "" } `, with `text` put in as it is
/// and a space after the closing brace.
pub open spec fn waybar_line(text: Seq<char>) -> Seq<char> {
    "{ \"text\": \""@ + text + "\", \"tooltip\": \"\", \"class\": \"\" } "@
}

/// The waybar line that shows `text`.
pub fn waybar_json(text: &str) -> (r: String)
    ensures
        r@ == waybar_line(text@),
{
    let mut out = "{ \"text\": \"".to_owned();
    out.append(text);
    out.append("\", \"tooltip\": \"\", \"class\": \"\" } ");
    out
}


/// A text without a line feed makes a waybar line without one, so the line that
/// a widget writes is read back as one object.
pub proof fn lemma_waybar_line_is_one_line(text: Seq<char>)
    requires
        !text.contains('\n'),
    ensures
        !waybar_line(text).contains('\n'),
{
    reveal_strlit("{ \"text\": \"");
    reveal_strlit("\", \"tooltip\": \"\", \"class\": \"\" } ");
    let head = "{ \"text\": \""@;
    let tail = "\", \"tooltip\": \"\", \"class\": \"\" } "@;
    assert(!head.contains('\n')) by {
        assert forall|i: int| 0 <= i < head.len() implies head[i] != '\n' by {}
    }
    assert(!tail.contains('\n')) by {
        assert forall|i: int| 0 <= i < tail.len() implies tail[i] != '\n' by {}
    }
    lemma_concat_lacks(head, text, '\n');
    lemma_concat_lacks(head + text, tail, '\n');
}

} // verus!
