//! What the classification says of every method, told by its name.
//!
//! A method's name begins with a verb. The verb decides the class, and for
//! most verbs whether the request is addressed to a chat.

use super::hint;
use super::hint::{Field, FieldValue};
use super::policy::ScopePolicy;
use super::table;
use crate::classify;
use crate::classify::{ChatId, IdentityView, Recipient, ScopeView, TargetMessage, UserId};
use crate::text;
use crate::throttle::methods;
use vstd::prelude::*;

verus! {

// ---------- names ----------

/// Whether a name begins with `get_`.
pub open spec fn verb_get(name: Seq<char>) -> bool {
    &&& name.len() > 4
    &&& name[0] == 'g'
    &&& name[1] == 'e'
    &&& name[2] == 't'
    &&& name[3] == '_'
}

/// Whether a name begins with `send_`.
pub open spec fn verb_send(name: Seq<char>) -> bool {
    &&& name.len() > 5
    &&& name[0] == 's'
    &&& name[1] == 'e'
    &&& name[2] == 'n'
    &&& name[3] == 'd'
    &&& name[4] == '_'
}

/// Whether a name begins with `edit_`.
pub open spec fn verb_edit(name: Seq<char>) -> bool {
    &&& name.len() > 5
    &&& name[0] == 'e'
    &&& name[1] == 'd'
    &&& name[2] == 'i'
    &&& name[3] == 't'
    &&& name[4] == '_'
}

/// Whether a name begins with `delete_`.
pub open spec fn verb_delete(name: Seq<char>) -> bool {
    &&& name.len() > 7
    &&& name[0] == 'd'
    &&& name[1] == 'e'
    &&& name[2] == 'l'
    &&& name[3] == 'e'
    &&& name[4] == 't'
    &&& name[5] == 'e'
    &&& name[6] == '_'
}

/// Whether a name begins with `pin_`.
pub open spec fn verb_pin(name: Seq<char>) -> bool {
    &&& name.len() > 4
    &&& name[0] == 'p'
    &&& name[1] == 'i'
    &&& name[2] == 'n'
    &&& name[3] == '_'
}

/// Whether a name begins with `unpin_`.
pub open spec fn verb_unpin(name: Seq<char>) -> bool {
    &&& name.len() > 6
    &&& name[0] == 'u'
    &&& name[1] == 'n'
    &&& name[2] == 'p'
    &&& name[3] == 'i'
    &&& name[4] == 'n'
    &&& name[5] == '_'
}

/// Whether a name begins with `forward_`.
pub open spec fn verb_forward(name: Seq<char>) -> bool {
    &&& name.len() > 8
    &&& name[0] == 'f'
    &&& name[1] == 'o'
    &&& name[2] == 'r'
    &&& name[3] == 'w'
    &&& name[4] == 'a'
    &&& name[5] == 'r'
    &&& name[6] == 'd'
    &&& name[7] == '_'
}

/// Whether a name begins with `copy_`.
pub open spec fn verb_copy(name: Seq<char>) -> bool {
    &&& name.len() > 5
    &&& name[0] == 'c'
    &&& name[1] == 'o'
    &&& name[2] == 'p'
    &&& name[3] == 'y'
    &&& name[4] == '_'
}

// Has the letters of a name looked up.
spec fn letter(c: char) -> bool {
    true
}

spec fn spelled(name: Seq<char>) -> bool {
    &&& name.len() >= 0
    &&& letter(name[0])
    &&& letter(name[1])
    &&& letter(name[2])
    &&& letter(name[3])
    &&& letter(name[4])
    &&& letter(name[5])
    &&& letter(name[6])
    &&& letter(name[7])
    &&& letter(name[8])
    &&& letter(name[9])
    &&& letter(name[17])
    &&& letter(name[21])
}

// The names of one class: the verbs they begin with, and that none is listed
// twice.
#[verifier::rlimit(60)]
proof fn lemma_others(name: Seq<char>)
    requires
        table::global_other(name)
            || table::recipient_other(name)
            || table::recipient_other_batch(name)
            || table::chat_other(name)
            || table::optional_chat_other(name)
            || table::user_other(name)
            || table::game_other(name)
            || table::new_owner_other(name),
    ensures
        !verb_get(name) && !verb_send(name) && !verb_edit(name) && !verb_delete(name),
        !verb_pin(name) && !verb_unpin(name),
        name != "stop_poll"@ && name != "set_message_reaction"@,
        verb_copy(name) ==> name == "copy_message"@ || name == "copy_messages"@,
        verb_forward(name) ==> name == "forward_message"@ || name == "forward_messages"@,
        table::global_other(name) ==> !table::recipient_other(name) && !table::recipient_other_batch(name) && !table::chat_other(name) && !table::optional_chat_other(name) && !table::user_other(name) && !table::game_other(name) && !table::new_owner_other(name),
        table::recipient_other(name) ==> !table::recipient_other_batch(name) && !table::chat_other(name) && !table::optional_chat_other(name) && !table::user_other(name) && !table::game_other(name) && !table::new_owner_other(name),
        table::recipient_other_batch(name) ==> !table::chat_other(name) && !table::optional_chat_other(name) && !table::user_other(name) && !table::game_other(name) && !table::new_owner_other(name),
        table::chat_other(name) ==> !table::optional_chat_other(name) && !table::user_other(name) && !table::game_other(name) && !table::new_owner_other(name),
        table::optional_chat_other(name) ==> !table::user_other(name) && !table::game_other(name) && !table::new_owner_other(name),
        table::user_other(name) ==> !table::game_other(name) && !table::new_owner_other(name),
        table::game_other(name) ==> !table::new_owner_other(name),
{
    assert(spelled(name));
    reveal_strlit("answer_callback_query");
    reveal_strlit("answer_chat_join_request_query");
    reveal_strlit("answer_guest_query");
    reveal_strlit("answer_inline_query");
    reveal_strlit("answer_pre_checkout_query");
    reveal_strlit("answer_shipping_query");
    reveal_strlit("answer_web_app_query");
    reveal_strlit("close");
    reveal_strlit("convert_gift_to_stars");
    reveal_strlit("create_invoice_link");
    reveal_strlit("log_out");
    reveal_strlit("post_story");
    reveal_strlit("remove_business_account_profile_photo");
    reveal_strlit("remove_my_profile_photo");
    reveal_strlit("set_business_account_bio");
    reveal_strlit("set_business_account_gift_settings");
    reveal_strlit("set_business_account_name");
    reveal_strlit("set_business_account_profile_photo");
    reveal_strlit("set_business_account_username");
    reveal_strlit("set_custom_emoji_sticker_set_thumbnail");
    reveal_strlit("set_my_commands");
    reveal_strlit("set_my_default_administrator_rights");
    reveal_strlit("set_my_description");
    reveal_strlit("set_my_name");
    reveal_strlit("set_my_profile_photo");
    reveal_strlit("set_my_short_description");
    reveal_strlit("set_sticker_emoji_list");
    reveal_strlit("set_sticker_keywords");
    reveal_strlit("set_sticker_mask_position");
    reveal_strlit("set_sticker_position_in_set");
    reveal_strlit("set_sticker_set_title");
    reveal_strlit("set_webhook");
    reveal_strlit("stop_message_live_location_inline");
    reveal_strlit("transfer_business_account_stars");
    reveal_strlit("upgrade_gift");
    reveal_strlit("set_game_score_inline");
    reveal_strlit("repost_story");
    reveal_strlit("approve_chat_join_request");
    reveal_strlit("ban_chat_member");
    reveal_strlit("ban_chat_sender_chat");
    reveal_strlit("close_forum_topic");
    reveal_strlit("close_general_forum_topic");
    reveal_strlit("copy_message");
    reveal_strlit("create_chat_invite_link");
    reveal_strlit("create_chat_subscription_invite_link");
    reveal_strlit("create_forum_topic");
    reveal_strlit("decline_chat_join_request");
    reveal_strlit("export_chat_invite_link");
    reveal_strlit("forward_message");
    reveal_strlit("hide_general_forum_topic");
    reveal_strlit("kick_chat_member");
    reveal_strlit("leave_chat");
    reveal_strlit("promote_chat_member");
    reveal_strlit("remove_chat_verification");
    reveal_strlit("reopen_forum_topic");
    reveal_strlit("reopen_general_forum_topic");
    reveal_strlit("restrict_chat_member");
    reveal_strlit("revoke_chat_invite_link");
    reveal_strlit("set_chat_administrator_custom_title");
    reveal_strlit("set_chat_description");
    reveal_strlit("set_chat_member_tag");
    reveal_strlit("set_chat_permissions");
    reveal_strlit("set_chat_photo");
    reveal_strlit("set_chat_sticker_set");
    reveal_strlit("set_chat_title");
    reveal_strlit("stop_message_live_location");
    reveal_strlit("unban_chat_member");
    reveal_strlit("unban_chat_sender_chat");
    reveal_strlit("unhide_general_forum_topic");
    reveal_strlit("verify_chat");
    reveal_strlit("copy_messages");
    reveal_strlit("forward_messages");
    reveal_strlit("approve_suggested_post");
    reveal_strlit("decline_suggested_post");
    reveal_strlit("read_business_message");
    reveal_strlit("set_chat_menu_button");
    reveal_strlit("add_sticker_to_set");
    reveal_strlit("create_new_sticker_set");
    reveal_strlit("gift_premium_subscription");
    reveal_strlit("refund_star_payment");
    reveal_strlit("remove_user_verification");
    reveal_strlit("replace_managed_bot_token");
    reveal_strlit("replace_sticker_in_set");
    reveal_strlit("save_prepared_inline_message");
    reveal_strlit("save_prepared_keyboard_button");
    reveal_strlit("set_managed_bot_access_settings");
    reveal_strlit("set_passport_data_errors");
    reveal_strlit("set_sticker_set_thumbnail");
    reveal_strlit("set_user_emoji_status");
    reveal_strlit("upload_sticker_file");
    reveal_strlit("verify_user");
    reveal_strlit("set_game_score");
    reveal_strlit("transfer_gift");
    reveal_strlit("stop_poll");
    reveal_strlit("set_message_reaction");
}

// The names of one class: the verbs they begin with, and that none is listed
// twice.
#[verifier::rlimit(60)]
proof fn lemma_mutations(name: Seq<char>)
    requires
        table::global_mutation(name)
            || table::recipient_mutation(name)
            || table::chat_mutation(name)
            || table::user_mutation(name),
    ensures
        verb_edit(name) || verb_delete(name) || verb_pin(name) || verb_unpin(name) || name
            == "stop_poll"@ || name == "set_message_reaction"@,
        !verb_get(name) && !verb_send(name) && !verb_forward(name) && !verb_copy(name),
        table::global_mutation(name) ==> !table::recipient_mutation(name) && !table::chat_mutation(name) && !table::user_mutation(name),
        table::recipient_mutation(name) ==> !table::chat_mutation(name) && !table::user_mutation(name),
        table::chat_mutation(name) ==> !table::user_mutation(name),
{
    assert(spelled(name));
    reveal_strlit("delete_business_messages");
    reveal_strlit("delete_my_commands");
    reveal_strlit("delete_sticker_from_set");
    reveal_strlit("delete_sticker_set");
    reveal_strlit("delete_story");
    reveal_strlit("delete_webhook");
    reveal_strlit("edit_message_caption_inline");
    reveal_strlit("edit_message_live_location_inline");
    reveal_strlit("edit_message_media_inline");
    reveal_strlit("edit_message_reply_markup_inline");
    reveal_strlit("edit_message_text_inline");
    reveal_strlit("edit_story");
    reveal_strlit("delete_all_message_reactions");
    reveal_strlit("delete_chat_photo");
    reveal_strlit("delete_chat_sticker_set");
    reveal_strlit("delete_ephemeral_message");
    reveal_strlit("delete_forum_topic");
    reveal_strlit("delete_message");
    reveal_strlit("delete_message_reaction");
    reveal_strlit("delete_messages");
    reveal_strlit("edit_chat_invite_link");
    reveal_strlit("edit_chat_subscription_invite_link");
    reveal_strlit("edit_ephemeral_message_caption");
    reveal_strlit("edit_ephemeral_message_media");
    reveal_strlit("edit_ephemeral_message_reply_markup");
    reveal_strlit("edit_ephemeral_message_text");
    reveal_strlit("edit_forum_topic");
    reveal_strlit("edit_general_forum_topic");
    reveal_strlit("edit_message_caption");
    reveal_strlit("edit_message_live_location");
    reveal_strlit("edit_message_media");
    reveal_strlit("edit_message_reply_markup");
    reveal_strlit("edit_message_text");
    reveal_strlit("pin_chat_message");
    reveal_strlit("set_message_reaction");
    reveal_strlit("stop_poll");
    reveal_strlit("unpin_all_chat_messages");
    reveal_strlit("unpin_all_forum_topic_messages");
    reveal_strlit("unpin_all_general_forum_topic_messages");
    reveal_strlit("unpin_chat_message");
    reveal_strlit("edit_message_checklist");
    reveal_strlit("edit_user_star_subscription");
}

// The names of one class: the verbs they begin with, and that none is listed
// twice.
#[verifier::rlimit(60)]
proof fn lemma_reads(name: Seq<char>)
    requires
        table::global_read(name)
            || table::recipient_read(name)
            || table::optional_chat_read(name)
            || table::target_read(name)
            || table::user_read(name),
    ensures
        verb_get(name),
        table::global_read(name) ==> !table::recipient_read(name) && !table::optional_chat_read(name) && !table::target_read(name) && !table::user_read(name),
        table::recipient_read(name) ==> !table::optional_chat_read(name) && !table::target_read(name) && !table::user_read(name),
        table::optional_chat_read(name) ==> !table::target_read(name) && !table::user_read(name),
        table::target_read(name) ==> !table::user_read(name),
{
    assert(spelled(name));
    reveal_strlit("get_available_gifts");
    reveal_strlit("get_business_account_gifts");
    reveal_strlit("get_business_account_star_balance");
    reveal_strlit("get_business_connection");
    reveal_strlit("get_custom_emoji_stickers");
    reveal_strlit("get_file");
    reveal_strlit("get_forum_topic_icon_stickers");
    reveal_strlit("get_me");
    reveal_strlit("get_my_commands");
    reveal_strlit("get_my_default_administrator_rights");
    reveal_strlit("get_my_description");
    reveal_strlit("get_my_name");
    reveal_strlit("get_my_short_description");
    reveal_strlit("get_my_star_balance");
    reveal_strlit("get_star_transactions");
    reveal_strlit("get_sticker_set");
    reveal_strlit("get_updates");
    reveal_strlit("get_webhook_info");
    reveal_strlit("get_chat");
    reveal_strlit("get_chat_administrators");
    reveal_strlit("get_chat_gifts");
    reveal_strlit("get_chat_member");
    reveal_strlit("get_chat_member_count");
    reveal_strlit("get_chat_members_count");
    reveal_strlit("get_user_chat_boosts");
    reveal_strlit("get_chat_menu_button");
    reveal_strlit("get_game_high_scores");
    reveal_strlit("get_managed_bot_access_settings");
    reveal_strlit("get_managed_bot_token");
    reveal_strlit("get_user_gifts");
    reveal_strlit("get_user_personal_chat_messages");
    reveal_strlit("get_user_profile_audios");
    reveal_strlit("get_user_profile_photos");
}

// The names of one class: the verbs they begin with, and that none is listed
// twice.
#[verifier::rlimit(60)]
proof fn lemma_sends(name: Seq<char>)
    requires
        table::global_send(name)
            || table::recipient_send(name)
            || table::recipient_send_group(name)
            || table::chat_send(name)
            || table::user_send(name)
            || table::draft_send(name)
            || table::recipient_action(name),
    ensures
        verb_send(name),
        table::global_send(name) ==> !table::recipient_send(name) && !table::recipient_send_group(name) && !table::chat_send(name) && !table::user_send(name) && !table::draft_send(name) && !table::recipient_action(name),
        table::recipient_send(name) ==> !table::recipient_send_group(name) && !table::chat_send(name) && !table::user_send(name) && !table::draft_send(name) && !table::recipient_action(name),
        table::recipient_send_group(name) ==> !table::chat_send(name) && !table::user_send(name) && !table::draft_send(name) && !table::recipient_action(name),
        table::chat_send(name) ==> !table::user_send(name) && !table::draft_send(name) && !table::recipient_action(name),
        table::user_send(name) ==> !table::draft_send(name) && !table::recipient_action(name),
        table::draft_send(name) ==> !table::recipient_action(name),
{
    assert(spelled(name));
    reveal_strlit("send_chat_join_request_web_app");
    reveal_strlit("send_animation");
    reveal_strlit("send_audio");
    reveal_strlit("send_contact");
    reveal_strlit("send_dice");
    reveal_strlit("send_document");
    reveal_strlit("send_gift_chat");
    reveal_strlit("send_invoice");
    reveal_strlit("send_live_photo");
    reveal_strlit("send_location");
    reveal_strlit("send_message");
    reveal_strlit("send_paid_media");
    reveal_strlit("send_photo");
    reveal_strlit("send_poll");
    reveal_strlit("send_rich_message");
    reveal_strlit("send_sticker");
    reveal_strlit("send_venue");
    reveal_strlit("send_video");
    reveal_strlit("send_video_note");
    reveal_strlit("send_voice");
    reveal_strlit("send_media_group");
    reveal_strlit("send_checklist");
    reveal_strlit("send_game");
    reveal_strlit("send_gift");
    reveal_strlit("send_message_draft");
    reveal_strlit("send_rich_message_draft");
    reveal_strlit("send_chat_action");
}

// Every name is listed once: the policy of a list is the policy of its names.
proof fn lemma_apart(name: Seq<char>)
    ensures
        table::global_other(name) ==> !table::global_mutation(name) && !table::global_read(name) && !table::global_send(name) && !table::recipient_other(name) && !table::recipient_other_batch(name) && !table::recipient_mutation(name) && !table::recipient_read(name) && !table::recipient_send(name) && !table::recipient_action(name) && !table::recipient_send_group(name) && !table::chat_other(name) && !table::chat_mutation(name) && !table::chat_send(name) && !table::optional_chat_read(name) && !table::optional_chat_other(name) && !table::user_other(name) && !table::user_mutation(name) && !table::target_read(name) && !table::user_read(name) && !table::user_send(name) && !table::game_other(name) && !table::draft_send(name) && !table::new_owner_other(name),
        table::global_mutation(name) ==> !table::global_read(name) && !table::global_send(name) && !table::recipient_other(name) && !table::recipient_other_batch(name) && !table::recipient_mutation(name) && !table::recipient_read(name) && !table::recipient_send(name) && !table::recipient_action(name) && !table::recipient_send_group(name) && !table::chat_other(name) && !table::chat_mutation(name) && !table::chat_send(name) && !table::optional_chat_read(name) && !table::optional_chat_other(name) && !table::user_other(name) && !table::user_mutation(name) && !table::target_read(name) && !table::user_read(name) && !table::user_send(name) && !table::game_other(name) && !table::draft_send(name) && !table::new_owner_other(name),
        table::global_read(name) ==> !table::global_send(name) && !table::recipient_other(name) && !table::recipient_other_batch(name) && !table::recipient_mutation(name) && !table::recipient_read(name) && !table::recipient_send(name) && !table::recipient_action(name) && !table::recipient_send_group(name) && !table::chat_other(name) && !table::chat_mutation(name) && !table::chat_send(name) && !table::optional_chat_read(name) && !table::optional_chat_other(name) && !table::user_other(name) && !table::user_mutation(name) && !table::target_read(name) && !table::user_read(name) && !table::user_send(name) && !table::game_other(name) && !table::draft_send(name) && !table::new_owner_other(name),
        table::global_send(name) ==> !table::recipient_other(name) && !table::recipient_other_batch(name) && !table::recipient_mutation(name) && !table::recipient_read(name) && !table::recipient_send(name) && !table::recipient_action(name) && !table::recipient_send_group(name) && !table::chat_other(name) && !table::chat_mutation(name) && !table::chat_send(name) && !table::optional_chat_read(name) && !table::optional_chat_other(name) && !table::user_other(name) && !table::user_mutation(name) && !table::target_read(name) && !table::user_read(name) && !table::user_send(name) && !table::game_other(name) && !table::draft_send(name) && !table::new_owner_other(name),
        table::recipient_other(name) ==> !table::recipient_other_batch(name) && !table::recipient_mutation(name) && !table::recipient_read(name) && !table::recipient_send(name) && !table::recipient_action(name) && !table::recipient_send_group(name) && !table::chat_other(name) && !table::chat_mutation(name) && !table::chat_send(name) && !table::optional_chat_read(name) && !table::optional_chat_other(name) && !table::user_other(name) && !table::user_mutation(name) && !table::target_read(name) && !table::user_read(name) && !table::user_send(name) && !table::game_other(name) && !table::draft_send(name) && !table::new_owner_other(name),
        table::recipient_other_batch(name) ==> !table::recipient_mutation(name) && !table::recipient_read(name) && !table::recipient_send(name) && !table::recipient_action(name) && !table::recipient_send_group(name) && !table::chat_other(name) && !table::chat_mutation(name) && !table::chat_send(name) && !table::optional_chat_read(name) && !table::optional_chat_other(name) && !table::user_other(name) && !table::user_mutation(name) && !table::target_read(name) && !table::user_read(name) && !table::user_send(name) && !table::game_other(name) && !table::draft_send(name) && !table::new_owner_other(name),
        table::recipient_mutation(name) ==> !table::recipient_read(name) && !table::recipient_send(name) && !table::recipient_action(name) && !table::recipient_send_group(name) && !table::chat_other(name) && !table::chat_mutation(name) && !table::chat_send(name) && !table::optional_chat_read(name) && !table::optional_chat_other(name) && !table::user_other(name) && !table::user_mutation(name) && !table::target_read(name) && !table::user_read(name) && !table::user_send(name) && !table::game_other(name) && !table::draft_send(name) && !table::new_owner_other(name),
        table::recipient_read(name) ==> !table::recipient_send(name) && !table::recipient_action(name) && !table::recipient_send_group(name) && !table::chat_other(name) && !table::chat_mutation(name) && !table::chat_send(name) && !table::optional_chat_read(name) && !table::optional_chat_other(name) && !table::user_other(name) && !table::user_mutation(name) && !table::target_read(name) && !table::user_read(name) && !table::user_send(name) && !table::game_other(name) && !table::draft_send(name) && !table::new_owner_other(name),
        table::recipient_send(name) ==> !table::recipient_action(name) && !table::recipient_send_group(name) && !table::chat_other(name) && !table::chat_mutation(name) && !table::chat_send(name) && !table::optional_chat_read(name) && !table::optional_chat_other(name) && !table::user_other(name) && !table::user_mutation(name) && !table::target_read(name) && !table::user_read(name) && !table::user_send(name) && !table::game_other(name) && !table::draft_send(name) && !table::new_owner_other(name),
        table::recipient_action(name) ==> !table::recipient_send_group(name) && !table::chat_other(name) && !table::chat_mutation(name) && !table::chat_send(name) && !table::optional_chat_read(name) && !table::optional_chat_other(name) && !table::user_other(name) && !table::user_mutation(name) && !table::target_read(name) && !table::user_read(name) && !table::user_send(name) && !table::game_other(name) && !table::draft_send(name) && !table::new_owner_other(name),
        table::recipient_send_group(name) ==> !table::chat_other(name) && !table::chat_mutation(name) && !table::chat_send(name) && !table::optional_chat_read(name) && !table::optional_chat_other(name) && !table::user_other(name) && !table::user_mutation(name) && !table::target_read(name) && !table::user_read(name) && !table::user_send(name) && !table::game_other(name) && !table::draft_send(name) && !table::new_owner_other(name),
        table::chat_other(name) ==> !table::chat_mutation(name) && !table::chat_send(name) && !table::optional_chat_read(name) && !table::optional_chat_other(name) && !table::user_other(name) && !table::user_mutation(name) && !table::target_read(name) && !table::user_read(name) && !table::user_send(name) && !table::game_other(name) && !table::draft_send(name) && !table::new_owner_other(name),
        table::chat_mutation(name) ==> !table::chat_send(name) && !table::optional_chat_read(name) && !table::optional_chat_other(name) && !table::user_other(name) && !table::user_mutation(name) && !table::target_read(name) && !table::user_read(name) && !table::user_send(name) && !table::game_other(name) && !table::draft_send(name) && !table::new_owner_other(name),
        table::chat_send(name) ==> !table::optional_chat_read(name) && !table::optional_chat_other(name) && !table::user_other(name) && !table::user_mutation(name) && !table::target_read(name) && !table::user_read(name) && !table::user_send(name) && !table::game_other(name) && !table::draft_send(name) && !table::new_owner_other(name),
        table::optional_chat_read(name) ==> !table::optional_chat_other(name) && !table::user_other(name) && !table::user_mutation(name) && !table::target_read(name) && !table::user_read(name) && !table::user_send(name) && !table::game_other(name) && !table::draft_send(name) && !table::new_owner_other(name),
        table::optional_chat_other(name) ==> !table::user_other(name) && !table::user_mutation(name) && !table::target_read(name) && !table::user_read(name) && !table::user_send(name) && !table::game_other(name) && !table::draft_send(name) && !table::new_owner_other(name),
        table::user_other(name) ==> !table::user_mutation(name) && !table::target_read(name) && !table::user_read(name) && !table::user_send(name) && !table::game_other(name) && !table::draft_send(name) && !table::new_owner_other(name),
        table::user_mutation(name) ==> !table::target_read(name) && !table::user_read(name) && !table::user_send(name) && !table::game_other(name) && !table::draft_send(name) && !table::new_owner_other(name),
        table::target_read(name) ==> !table::user_read(name) && !table::user_send(name) && !table::game_other(name) && !table::draft_send(name) && !table::new_owner_other(name),
        table::user_read(name) ==> !table::user_send(name) && !table::game_other(name) && !table::draft_send(name) && !table::new_owner_other(name),
        table::user_send(name) ==> !table::game_other(name) && !table::draft_send(name) && !table::new_owner_other(name),
        table::game_other(name) ==> !table::draft_send(name) && !table::new_owner_other(name),
        table::draft_send(name) ==> !table::new_owner_other(name),
{
    if table::global_other(name)
        || table::recipient_other(name)
        || table::recipient_other_batch(name)
        || table::chat_other(name)
        || table::optional_chat_other(name)
        || table::user_other(name)
        || table::game_other(name)
        || table::new_owner_other(name) {
        lemma_others(name);
    }
    if table::global_mutation(name)
        || table::recipient_mutation(name)
        || table::chat_mutation(name)
        || table::user_mutation(name) {
        lemma_mutations(name);
    }
    if table::global_read(name)
        || table::recipient_read(name)
        || table::optional_chat_read(name)
        || table::target_read(name)
        || table::user_read(name) {
        lemma_reads(name);
    }
    if table::global_send(name)
        || table::recipient_send(name)
        || table::recipient_send_group(name)
        || table::chat_send(name)
        || table::user_send(name)
        || table::draft_send(name)
        || table::recipient_action(name) {
        lemma_sends(name);
    }
}

// ---------- classes ----------

/// The verb decides the class: what begins with `get_` reads, and nothing else
/// does; what begins with `send_` sends a message, but for the chat action;
/// what edits, deletes, pins or unpins changes messages, and so do stopping a
/// poll and setting a reaction. Everything else is of the class of its own.
/// Only the chat action has a priority below the usual one.
pub proof fn law_the_verb_decides_the_class(name: Seq<char>, fields: Seq<Field>)
    requires
        table::policy_of(name) is Some,
    ensures
        hint::hint_under(table::policy_of(name)->0, fields) matches Some(told) ==> {
            let action = name == "send_chat_action"@;
            let changes = verb_edit(name) || verb_delete(name) || verb_pin(name) || verb_unpin(name)
                || name == "stop_poll"@ || name == "set_message_reaction"@;
            &&& told.class == 1 <==> verb_get(name)
            &&& told.class == 2 <==> verb_send(name) && !action
            &&& told.class == 3 <==> changes
            &&& told.class == 4 <==> action
            &&& told.class == 5 <==> !verb_get(name) && !verb_send(name) && !changes
            &&& action ==> told.priority == 32
            &&& !action ==> told.priority == 128
        },
{
    lemma_apart(name);
    lemma_class_texts();
    if table::global_other(name)
        || table::recipient_other(name)
        || table::recipient_other_batch(name)
        || table::chat_other(name)
        || table::optional_chat_other(name)
        || table::user_other(name)
        || table::game_other(name)
        || table::new_owner_other(name) {
        lemma_others(name);
    }
    if table::global_mutation(name)
        || table::recipient_mutation(name)
        || table::chat_mutation(name)
        || table::user_mutation(name) {
        lemma_mutations(name);
    }
    if table::global_read(name)
        || table::recipient_read(name)
        || table::optional_chat_read(name)
        || table::target_read(name)
        || table::user_read(name) {
        lemma_reads(name);
    }
    if table::global_send(name)
        || table::recipient_send(name)
        || table::recipient_send_group(name)
        || table::chat_send(name)
        || table::user_send(name)
        || table::draft_send(name)
        || table::recipient_action(name) {
        lemma_sends(name);
    }
    assert(spelled(name));
    reveal_strlit("send_chat_action");
    reveal_strlit("stop_poll");
    reveal_strlit("set_message_reaction");
}

proof fn lemma_class_texts()
    ensures
        hint::class_number("READ"@) == Some(1u64),
        hint::class_number("MESSAGE_SEND"@) == Some(2u64),
        hint::class_number("MESSAGE_MUTATION"@) == Some(3u64),
        hint::class_number("CHAT_ACTION"@) == Some(4u64),
        hint::class_number("OTHER"@) == Some(5u64),
        hint::priority_level("BACKGROUND"@) == Some(32u8),
        hint::priority_level("NORMAL"@) == Some(128u8),
{
    reveal_strlit("READ");
    reveal_strlit("MESSAGE_SEND");
    reveal_strlit("MESSAGE_MUTATION");
    reveal_strlit("CHAT_ACTION");
    reveal_strlit("OTHER");
    reveal_strlit("BACKGROUND");
    reveal_strlit("NORMAL");
    assert("READ"@.len() == 4);
    assert("MESSAGE_SEND"@.len() == 12);
    assert("MESSAGE_MUTATION"@.len() == 16);
    assert("CHAT_ACTION"@.len() == 11);
    assert("OTHER"@.len() == 5);
    assert("BACKGROUND"@.len() == 10);
    assert("NORMAL"@.len() == 6);
}

// ---------- scopes ----------

/// The methods that are addressed to a recipient: the chat or channel of their `chat_id`, and no
/// others.
pub proof fn law_methods_to_a_recipient(name: Seq<char>)
    ensures
        (table::policy_of(name) matches Some(policy) && policy.scope == ScopePolicy::RecipientField("chat_id")) <==> (name == "approve_chat_join_request"@
            || name == "ban_chat_member"@
            || name == "ban_chat_sender_chat"@
            || name == "close_forum_topic"@
            || name == "close_general_forum_topic"@
            || name == "copy_message"@
            || name == "copy_messages"@
            || name == "create_chat_invite_link"@
            || name == "create_chat_subscription_invite_link"@
            || name == "create_forum_topic"@
            || name == "decline_chat_join_request"@
            || name == "delete_all_message_reactions"@
            || name == "delete_chat_photo"@
            || name == "delete_chat_sticker_set"@
            || name == "delete_ephemeral_message"@
            || name == "delete_forum_topic"@
            || name == "delete_message"@
            || name == "delete_message_reaction"@
            || name == "delete_messages"@
            || name == "edit_chat_invite_link"@
            || name == "edit_chat_subscription_invite_link"@
            || name == "edit_ephemeral_message_caption"@
            || name == "edit_ephemeral_message_media"@
            || name == "edit_ephemeral_message_reply_markup"@
            || name == "edit_ephemeral_message_text"@
            || name == "edit_forum_topic"@
            || name == "edit_general_forum_topic"@
            || name == "edit_message_caption"@
            || name == "edit_message_live_location"@
            || name == "edit_message_media"@
            || name == "edit_message_reply_markup"@
            || name == "edit_message_text"@
            || name == "export_chat_invite_link"@
            || name == "forward_message"@
            || name == "forward_messages"@
            || name == "get_chat"@
            || name == "get_chat_administrators"@
            || name == "get_chat_gifts"@
            || name == "get_chat_member"@
            || name == "get_chat_member_count"@
            || name == "get_chat_members_count"@
            || name == "get_user_chat_boosts"@
            || name == "hide_general_forum_topic"@
            || name == "kick_chat_member"@
            || name == "leave_chat"@
            || name == "pin_chat_message"@
            || name == "promote_chat_member"@
            || name == "remove_chat_verification"@
            || name == "reopen_forum_topic"@
            || name == "reopen_general_forum_topic"@
            || name == "restrict_chat_member"@
            || name == "revoke_chat_invite_link"@
            || name == "send_animation"@
            || name == "send_audio"@
            || name == "send_chat_action"@
            || name == "send_contact"@
            || name == "send_dice"@
            || name == "send_document"@
            || name == "send_gift_chat"@
            || name == "send_invoice"@
            || name == "send_live_photo"@
            || name == "send_location"@
            || name == "send_media_group"@
            || name == "send_message"@
            || name == "send_paid_media"@
            || name == "send_photo"@
            || name == "send_poll"@
            || name == "send_rich_message"@
            || name == "send_sticker"@
            || name == "send_venue"@
            || name == "send_video"@
            || name == "send_video_note"@
            || name == "send_voice"@
            || name == "set_chat_administrator_custom_title"@
            || name == "set_chat_description"@
            || name == "set_chat_member_tag"@
            || name == "set_chat_permissions"@
            || name == "set_chat_photo"@
            || name == "set_chat_sticker_set"@
            || name == "set_chat_title"@
            || name == "set_message_reaction"@
            || name == "stop_message_live_location"@
            || name == "stop_poll"@
            || name == "unban_chat_member"@
            || name == "unban_chat_sender_chat"@
            || name == "unhide_general_forum_topic"@
            || name == "unpin_all_chat_messages"@
            || name == "unpin_all_forum_topic_messages"@
            || name == "unpin_all_general_forum_topic_messages"@
            || name == "unpin_chat_message"@
            || name == "verify_chat"@),
{
    lemma_apart(name);
}

/// The methods that are addressed to the numeric chat of their `chat_id`, and no
/// others.
pub proof fn law_methods_to_a_chat(name: Seq<char>)
    ensures
        (table::policy_of(name) matches Some(policy) && policy.scope == ScopePolicy::ChatIdField("chat_id")) <==> (name == "approve_suggested_post"@
            || name == "decline_suggested_post"@
            || name == "edit_message_checklist"@
            || name == "read_business_message"@
            || name == "send_checklist"@
            || name == "send_game"@),
{
    lemma_apart(name);
}

/// The methods that are addressed to the numeric chat of their `chat_id`, if there is one, and no
/// others.
pub proof fn law_methods_to_a_chat_or_nobody(name: Seq<char>)
    ensures
        (table::policy_of(name) matches Some(policy) && policy.scope == ScopePolicy::OptionalChatIdField("chat_id")) <==> (name == "get_chat_menu_button"@
            || name == "set_chat_menu_button"@),
{
    lemma_apart(name);
}

/// The methods that are addressed to the user of their `user_id`, and no
/// others.
pub proof fn law_methods_to_a_user(name: Seq<char>)
    ensures
        (table::policy_of(name) matches Some(policy) && policy.scope == ScopePolicy::UserIdField("user_id")) <==> (name == "add_sticker_to_set"@
            || name == "create_new_sticker_set"@
            || name == "edit_user_star_subscription"@
            || name == "get_managed_bot_access_settings"@
            || name == "get_managed_bot_token"@
            || name == "get_user_gifts"@
            || name == "get_user_personal_chat_messages"@
            || name == "get_user_profile_audios"@
            || name == "get_user_profile_photos"@
            || name == "gift_premium_subscription"@
            || name == "refund_star_payment"@
            || name == "remove_user_verification"@
            || name == "replace_managed_bot_token"@
            || name == "replace_sticker_in_set"@
            || name == "save_prepared_inline_message"@
            || name == "save_prepared_keyboard_button"@
            || name == "send_gift"@
            || name == "set_managed_bot_access_settings"@
            || name == "set_passport_data_errors"@
            || name == "set_sticker_set_thumbnail"@
            || name == "set_user_emoji_status"@
            || name == "upload_sticker_file"@
            || name == "verify_user"@),
{
    lemma_apart(name);
}

/// The methods that are addressed to nobody, and no
/// others.
pub proof fn law_methods_to_nobody(name: Seq<char>)
    ensures
        (table::policy_of(name) matches Some(policy) && policy.scope is Global) <==> (name == "answer_callback_query"@
            || name == "answer_chat_join_request_query"@
            || name == "answer_guest_query"@
            || name == "answer_inline_query"@
            || name == "answer_pre_checkout_query"@
            || name == "answer_shipping_query"@
            || name == "answer_web_app_query"@
            || name == "close"@
            || name == "convert_gift_to_stars"@
            || name == "create_invoice_link"@
            || name == "delete_business_messages"@
            || name == "delete_my_commands"@
            || name == "delete_sticker_from_set"@
            || name == "delete_sticker_set"@
            || name == "delete_story"@
            || name == "delete_webhook"@
            || name == "edit_message_caption_inline"@
            || name == "edit_message_live_location_inline"@
            || name == "edit_message_media_inline"@
            || name == "edit_message_reply_markup_inline"@
            || name == "edit_message_text_inline"@
            || name == "edit_story"@
            || name == "get_available_gifts"@
            || name == "get_business_account_gifts"@
            || name == "get_business_account_star_balance"@
            || name == "get_business_connection"@
            || name == "get_custom_emoji_stickers"@
            || name == "get_file"@
            || name == "get_forum_topic_icon_stickers"@
            || name == "get_me"@
            || name == "get_my_commands"@
            || name == "get_my_default_administrator_rights"@
            || name == "get_my_description"@
            || name == "get_my_name"@
            || name == "get_my_short_description"@
            || name == "get_my_star_balance"@
            || name == "get_star_transactions"@
            || name == "get_sticker_set"@
            || name == "get_updates"@
            || name == "get_webhook_info"@
            || name == "log_out"@
            || name == "post_story"@
            || name == "remove_business_account_profile_photo"@
            || name == "remove_my_profile_photo"@
            || name == "repost_story"@
            || name == "send_chat_join_request_web_app"@
            || name == "set_business_account_bio"@
            || name == "set_business_account_gift_settings"@
            || name == "set_business_account_name"@
            || name == "set_business_account_profile_photo"@
            || name == "set_business_account_username"@
            || name == "set_custom_emoji_sticker_set_thumbnail"@
            || name == "set_game_score_inline"@
            || name == "set_my_commands"@
            || name == "set_my_default_administrator_rights"@
            || name == "set_my_description"@
            || name == "set_my_name"@
            || name == "set_my_profile_photo"@
            || name == "set_my_short_description"@
            || name == "set_sticker_emoji_list"@
            || name == "set_sticker_keywords"@
            || name == "set_sticker_mask_position"@
            || name == "set_sticker_position_in_set"@
            || name == "set_sticker_set_title"@
            || name == "set_webhook"@
            || name == "stop_message_live_location_inline"@
            || name == "transfer_business_account_stars"@
            || name == "upgrade_gift"@),
{
    lemma_apart(name);
}

/// The few methods with a rule of their own: the score of a game is of the
/// chat of its number, high scores of the chat of their target, drafts of
/// their owner, and a gift that changes hands of its new owner.
pub proof fn law_methods_with_a_rule_of_their_own(name: Seq<char>)
    ensures
        (table::policy_of(name) matches Some(policy) && policy.scope == ScopePolicy::CustomValue(
            "game_chat_id_scope",
            "chat_id",
        )) <==> name == "set_game_score"@,
        (table::policy_of(name) matches Some(policy) && policy.scope == ScopePolicy::Custom(
            "target_message_scope",
            "target",
        )) <==> name == "get_game_high_scores"@,
        (table::policy_of(name) matches Some(policy) && policy.scope == ScopePolicy::Custom(
            "draft_chat_id_scope",
            "chat_id",
        )) <==> name == "send_message_draft"@ || name == "send_rich_message_draft"@,
        (table::policy_of(name) matches Some(policy) && policy.scope == ScopePolicy::Custom(
            "new_owner_chat_id_scope",
            "new_owner_chat_id",
        )) <==> name == "transfer_gift"@,
{
    lemma_apart(name);
    reveal_strlit("target_message_scope");
    reveal_strlit("draft_chat_id_scope");
    reveal_strlit("new_owner_chat_id_scope");
    assert("target_message_scope"@.len() == 20);
    assert("draft_chat_id_scope"@.len() == 19);
    assert("new_owner_chat_id_scope"@.len() == 23);
}

/// Whether a scope is that of a recipient: the chat of the id, or the channel
/// of the username, without one leading `@` and with its ASCII letters in
/// lower case.
pub open spec fn of_recipient(scope: ScopeView, recipient: Recipient) -> bool {
    match recipient {
        Recipient::Id(chat_id) => scope == ScopeView::Chat(IdentityView::Id(chat_id.value)),
        Recipient::ChannelUsername(username) => {
            let skipped: int = if username@.len() > 0 && username@[0] == '@' {
                1
            } else {
                0
            };
            &&& scope matches ScopeView::Chat(IdentityView::Username(known))
            &&& known.len() == username@.len() - skipped
            &&& forall|i: int|
                0 <= i < known.len() ==> (if 'A' <= username@[i + skipped] && username@[i + skipped]
                    <= 'Z' {
                    #[trigger] known[i] as u32 == username@[i + skipped] as u32 + 32
                } else {
                    known[i] == username@[i + skipped]
                })
        },
    }
}

proof fn lemma_of_recipient(recipient: Recipient)
    ensures
        of_recipient(classify::recipient_scope(recipient), recipient),
{
    if let Recipient::ChannelUsername(username) = recipient {
        let rest = if username@.len() > 0 && username@[0] == '@' {
            username@.skip(1)
        } else {
            username@
        };
        assert(classify::canonical(username@) =~= text::ascii_lowercase(rest));
        assert forall|i: int| 0 <= i < rest.len() && 'A' <= rest[i] && rest[i] <= 'Z' implies (
        #[trigger] text::ascii_lower(rest[i])) as u32 == rest[i] as u32 + 32 by {}
    }
}

/// What a method reads of its payload decides the scope, whatever else the
/// payload holds: a recipient field the chat or channel of the recipient, a
/// chat or user id the chat of that number, an optional one nobody's scope if
/// it is empty, and the target of a message the chat it stands in, if it is
/// not an inline message. A method addressed to nobody reads nothing.
pub proof fn law_the_field_decides_the_scope(
    fields: Seq<Field>,
    recipient: Recipient,
    chat_id: ChatId,
    user_id: UserId,
    target: TargetMessage,
    number: u32,
)
    ensures
        hint::scope_under(ScopePolicy::Global, fields) == Some(ScopeView::Global),
        hint::field(fields, "chat_id"@) == Some(FieldValue::Recipient(recipient)) ==> (
        hint::scope_under(ScopePolicy::RecipientField("chat_id"), fields) matches Some(scope)
            && of_recipient(scope, recipient)),
        hint::field(fields, "chat_id"@) == Some(FieldValue::ChatId(chat_id)) ==> hint::scope_under(
            ScopePolicy::ChatIdField("chat_id"),
            fields,
        ) == Some(ScopeView::Chat(IdentityView::Id(chat_id.value))),
        hint::field(fields, "chat_id"@) == Some(FieldValue::OptionalChatId(Some(chat_id)))
            ==> hint::scope_under(ScopePolicy::OptionalChatIdField("chat_id"), fields) == Some(
            ScopeView::Chat(IdentityView::Id(chat_id.value)),
        ),
        hint::field(fields, "chat_id"@) == Some(FieldValue::OptionalChatId(None))
            ==> hint::scope_under(ScopePolicy::OptionalChatIdField("chat_id"), fields) == Some(
            ScopeView::Global,
        ),
        hint::field(fields, "user_id"@) == Some(FieldValue::UserId(user_id)) && user_id.value
            <= i64::MAX ==> (hint::scope_under(ScopePolicy::UserIdField("user_id"), fields) matches
            Some(ScopeView::Chat(IdentityView::Id(id))) && id == user_id.value),
        hint::field(fields, "chat_id"@) == Some(FieldValue::UserId(user_id)) && user_id.value
            <= i64::MAX ==> (hint::scope_under(
            ScopePolicy::Custom("draft_chat_id_scope", "chat_id"),
            fields,
        ) matches Some(ScopeView::Chat(IdentityView::Id(id))) && id == user_id.value),
        hint::field(fields, "new_owner_chat_id"@) == Some(FieldValue::ChatId(chat_id))
            ==> hint::scope_under(
            ScopePolicy::Custom("new_owner_chat_id_scope", "new_owner_chat_id"),
            fields,
        ) == Some(ScopeView::Chat(IdentityView::Id(chat_id.value))),
        hint::field(fields, "target"@) == Some(FieldValue::Target(target)) ==> (hint::scope_under(
            ScopePolicy::Custom("target_message_scope", "target"),
            fields,
        ) matches Some(scope) && match target {
            TargetMessage::Common { chat_id, message_id } => of_recipient(scope, chat_id),
            TargetMessage::Inline { inline_message_id } => scope is Global,
        }),
        hint::field(fields, "chat_id"@) == Some(FieldValue::Number(number)) ==> (hint::scope_under(
            ScopePolicy::CustomValue("game_chat_id_scope", "chat_id"),
            fields,
        ) matches Some(ScopeView::Chat(IdentityView::Id(id))) && id == number),
{
    lemma_of_recipient(recipient);
    if let TargetMessage::Common { chat_id, message_id } = target {
        lemma_of_recipient(chat_id);
    }
}

/// The value of a field is that of the first field of the name.
pub proof fn law_the_first_field_of_a_name_counts(fields: Seq<Field>, name: Seq<char>, i: int)
    requires
        0 <= i < fields.len(),
        fields[i].name@ == name,
        forall|j: int| 0 <= j < i ==> (#[trigger] fields[j]).name@ != name,
    ensures
        hint::field(fields, name) == Some(fields[i].value),
{
    lemma_position(fields, name, i);
}

/// A field that a payload lacks has no value.
pub proof fn law_a_missing_field_has_no_value(fields: Seq<Field>, name: Seq<char>)
    requires
        forall|j: int| 0 <= j < fields.len() ==> (#[trigger] fields[j]).name@ != name,
    ensures
        hint::field(fields, name) is None,
{
    lemma_position(fields, name, fields.len() as int);
}

proof fn lemma_position(fields: Seq<Field>, name: Seq<char>, i: int)
    requires
        0 <= i <= fields.len(),
        i < fields.len() ==> fields[i].name@ == name,
        forall|j: int| 0 <= j < i ==> (#[trigger] fields[j]).name@ != name,
    ensures
        hint::position(fields, name) == i,
    decreases fields.len(),
{
    if i > 0 {
        assert(fields[0].name@ != name);
        let rest = fields.drop_first();
        assert forall|j: int| 0 <= j < i - 1 implies (#[trigger] rest[j]).name@ != name by {
            assert(rest[j] == fields[j + 1]);
        }
        lemma_position(rest, name, i - 1);
    }
}

/// Nothing that is sent escapes its chat: what begins with `send_`, `forward_`
/// or `copy_` is always in the scope of a chat, whatever the payload holds,
/// but for the web app that answers a join request.
pub proof fn law_no_send_escapes_its_chat(name: Seq<char>, fields: Seq<Field>)
    requires
        table::policy_of(name) is Some,
        verb_send(name) || verb_forward(name) || verb_copy(name),
        name != "send_chat_join_request_web_app"@,
    ensures
        hint::scope_under(table::policy_of(name)->0.scope, fields) matches Some(scope) ==> scope
            is Chat,
{
    lemma_apart(name);
    if table::global_other(name) {
        lemma_others(name);
    }
    if table::optional_chat_other(name) {
        lemma_others(name);
    }
    if table::global_mutation(name) {
        lemma_mutations(name);
    }
    if table::global_read(name) || table::optional_chat_read(name) || table::target_read(name) {
        lemma_reads(name);
    }
    reveal_strlit("copy_message");
    reveal_strlit("copy_messages");
    reveal_strlit("forward_message");
    reveal_strlit("forward_messages");
    reveal_strlit("draft_chat_id_scope");
    reveal_strlit("new_owner_chat_id_scope");
    reveal_strlit("target_message_scope");
    assert("target_message_scope"@.len() == 20);
    assert("draft_chat_id_scope"@.len() == 19);
    assert("new_owner_chat_id_scope"@.len() == 23);
    assert(spelled(name));
}

// ---------- weights ----------

/// Every message of a batch counts: copying or forwarding several messages
/// weighs as many units as there are ids, and a media group as many as there
/// are media, at least one. Every other request weighs one unit.
pub proof fn law_a_batch_weighs_its_messages(name: Seq<char>, fields: Seq<Field>, len: usize)
    requires
        table::policy_of(name) is Some,
        len <= u32::MAX,
    ensures
        ({
            let weight = hint::weight_under(table::policy_of(name)->0.weight, fields);
            let units: u32 = if len == 0 {
                1
            } else {
                len as u32
            };
            let several = name == "copy_messages"@ || name == "forward_messages"@;
            let group = name == "send_media_group"@;
            &&& !several && !group ==> weight == Some(1u32)
            &&& several && hint::field(fields, "message_ids"@) == Some(FieldValue::List(len))
                ==> weight == Some(units)
            &&& group && hint::field(fields, "media"@) == Some(FieldValue::List(len)) ==> weight
                == Some(units)
        }),
{
    lemma_apart(name);
}

// ---------- the throttle ----------

/// What the throttle holds back: every method that sends a message to a chat
/// or channel, gifts excepted, and every method that forwards or copies
/// messages. Nothing else is throttled.
pub proof fn law_message_sends_are_throttled(name: Seq<char>)
    ensures
        methods::throttled(name) <==> (table::policy_of(name) matches Some(policy) && {
            ||| verb_forward(name) || verb_copy(name)
            ||| {
                &&& verb_send(name)
                &&& policy.class@ == "MESSAGE_SEND"@
                &&& policy.scope is RecipientField || policy.scope is ChatIdField
                &&& name != "send_gift_chat"@
            }
        }),
{
    lemma_apart(name);
    if table::recipient_send(name) || table::recipient_send_group(name) || table::chat_send(name)
        || table::global_send(name) || table::user_send(name) || table::draft_send(name)
        || table::recipient_action(name) {
        lemma_sends(name);
    }
    if table::recipient_other(name) || table::recipient_other_batch(name) || table::global_other(
        name,
    ) || table::chat_other(name) || table::optional_chat_other(name) || table::user_other(name)
        || table::game_other(name) || table::new_owner_other(name) {
        lemma_others(name);
    }
    if table::recipient_mutation(name) || table::global_mutation(name) || table::chat_mutation(name)
        || table::user_mutation(name) {
        lemma_mutations(name);
    }
    if table::recipient_read(name) || table::global_read(name) || table::optional_chat_read(name)
        || table::target_read(name) || table::user_read(name) {
        lemma_reads(name);
    }
    lemma_class_texts();
    reveal_strlit("send_gift_chat");
    reveal_strlit("send_message");
    reveal_strlit("send_rich_message");
    reveal_strlit("forward_message");
    reveal_strlit("forward_messages");
    reveal_strlit("copy_message");
    reveal_strlit("copy_messages");
    reveal_strlit("send_photo");
    reveal_strlit("send_live_photo");
    reveal_strlit("send_audio");
    reveal_strlit("send_document");
    reveal_strlit("send_video");
    reveal_strlit("send_animation");
    reveal_strlit("send_voice");
    reveal_strlit("send_video_note");
    reveal_strlit("send_paid_media");
    reveal_strlit("send_media_group");
    reveal_strlit("send_location");
    reveal_strlit("send_venue");
    reveal_strlit("send_contact");
    reveal_strlit("send_poll");
    reveal_strlit("send_checklist");
    reveal_strlit("send_dice");
    reveal_strlit("send_sticker");
    reveal_strlit("send_invoice");
    reveal_strlit("send_game");
    assert(spelled(name));
}

/// What is throttled is in the scope of a chat, so that the windows of the
/// chat hold it back too.
pub proof fn law_throttled_requests_have_a_chat(name: Seq<char>, fields: Seq<Field>)
    requires
        methods::throttled(name),
    ensures
        table::policy_of(name) is Some,
        hint::scope_under(table::policy_of(name)->0.scope, fields) matches Some(scope) ==> scope
            is Chat,
{
    law_message_sends_are_throttled(name);
    reveal_strlit("send_chat_join_request_web_app");
    assert(spelled(name));
    law_methods_to_nobody(name);
    law_no_send_escapes_its_chat(name, fields);
}

} // verus!
