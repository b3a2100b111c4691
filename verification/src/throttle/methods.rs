//! The methods that are throttled.

use crate::payload::table;
use crate::text::same_text;
use vstd::prelude::*;

verus! {

/// Whether a method is throttled: the message sends. This is a list of its
/// own and does not follow the request classes.
pub open spec fn throttled(name: Seq<char>) -> bool {
    ||| name == "send_message"@
    ||| name == "send_rich_message"@
    ||| name == "forward_message"@
    ||| name == "forward_messages"@
    ||| name == "copy_message"@
    ||| name == "copy_messages"@
    ||| name == "send_photo"@
    ||| name == "send_live_photo"@
    ||| name == "send_audio"@
    ||| name == "send_document"@
    ||| name == "send_video"@
    ||| name == "send_animation"@
    ||| name == "send_voice"@
    ||| name == "send_video_note"@
    ||| name == "send_paid_media"@
    ||| name == "send_media_group"@
    ||| name == "send_location"@
    ||| name == "send_venue"@
    ||| name == "send_contact"@
    ||| name == "send_poll"@
    ||| name == "send_checklist"@
    ||| name == "send_dice"@
    ||| name == "send_sticker"@
    ||| name == "send_invoice"@
    ||| name == "send_game"@
}

/// Whether a method is throttled. Everything else passes through untouched.
pub fn is_throttled(name: &str) -> (r: bool)
    ensures
        r == throttled(name@),
{
    same_text(name, "send_message")
        || same_text(name, "send_rich_message")
        || same_text(name, "forward_message")
        || same_text(name, "forward_messages")
        || same_text(name, "copy_message")
        || same_text(name, "copy_messages")
        || same_text(name, "send_photo")
        || same_text(name, "send_live_photo")
        || same_text(name, "send_audio")
        || same_text(name, "send_document")
        || same_text(name, "send_video")
        || same_text(name, "send_animation")
        || same_text(name, "send_voice")
        || same_text(name, "send_video_note")
        || same_text(name, "send_paid_media")
        || same_text(name, "send_media_group")
        || same_text(name, "send_location")
        || same_text(name, "send_venue")
        || same_text(name, "send_contact")
        || same_text(name, "send_poll")
        || same_text(name, "send_checklist")
        || same_text(name, "send_dice")
        || same_text(name, "send_sticker")
        || same_text(name, "send_invoice")
        || same_text(name, "send_game")
}

/// Every throttled method is classified, so its scope and class are known.
pub proof fn law_throttled_methods_are_classified(name: Seq<char>)
    requires
        throttled(name),
    ensures
        table::policy_of(name) is Some,
{
}

} // verus!
