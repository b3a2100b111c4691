//! The strict outbound classification of every Bot API method.
//!
//! A method that is missing here has no classification at all: an
//! unclassified send that bypasses the windows of its chat would be worse
//! than a broken build.

use super::policy::{MethodPolicy, ScopePolicy, WeightPolicy};
use crate::text::same_text;
use vstd::prelude::*;

verus! {

/// Other methods addressing no chat.
pub open spec fn global_other(name: Seq<char>) -> bool {
    ||| name == "answer_callback_query"@
    ||| name == "answer_chat_join_request_query"@
    ||| name == "answer_guest_query"@
    ||| name == "answer_inline_query"@
    ||| name == "answer_pre_checkout_query"@
    ||| name == "answer_shipping_query"@
    ||| name == "answer_web_app_query"@
    ||| name == "close"@
    ||| name == "convert_gift_to_stars"@
    ||| name == "create_invoice_link"@
    ||| name == "log_out"@
    ||| name == "post_story"@
    ||| name == "remove_business_account_profile_photo"@
    ||| name == "remove_my_profile_photo"@
    ||| name == "set_business_account_bio"@
    ||| name == "set_business_account_gift_settings"@
    ||| name == "set_business_account_name"@
    ||| name == "set_business_account_profile_photo"@
    ||| name == "set_business_account_username"@
    ||| name == "set_custom_emoji_sticker_set_thumbnail"@
    ||| name == "set_my_commands"@
    ||| name == "set_my_default_administrator_rights"@
    ||| name == "set_my_description"@
    ||| name == "set_my_name"@
    ||| name == "set_my_profile_photo"@
    ||| name == "set_my_short_description"@
    ||| name == "set_sticker_emoji_list"@
    ||| name == "set_sticker_keywords"@
    ||| name == "set_sticker_mask_position"@
    ||| name == "set_sticker_position_in_set"@
    ||| name == "set_sticker_set_title"@
    ||| name == "set_webhook"@
    ||| name == "stop_message_live_location_inline"@
    ||| name == "transfer_business_account_stars"@
    ||| name == "upgrade_gift"@
    ||| name == "set_game_score_inline"@
    ||| name == "repost_story"@
}

fn is_global_other(name: &str) -> (r: bool)
    ensures
        r == global_other(name@),
{
    same_text(name, "answer_callback_query")
        || same_text(name, "answer_chat_join_request_query")
        || same_text(name, "answer_guest_query")
        || same_text(name, "answer_inline_query")
        || same_text(name, "answer_pre_checkout_query")
        || same_text(name, "answer_shipping_query")
        || same_text(name, "answer_web_app_query")
        || same_text(name, "close")
        || same_text(name, "convert_gift_to_stars")
        || same_text(name, "create_invoice_link")
        || same_text(name, "log_out")
        || same_text(name, "post_story")
        || same_text(name, "remove_business_account_profile_photo")
        || same_text(name, "remove_my_profile_photo")
        || same_text(name, "set_business_account_bio")
        || same_text(name, "set_business_account_gift_settings")
        || same_text(name, "set_business_account_name")
        || same_text(name, "set_business_account_profile_photo")
        || same_text(name, "set_business_account_username")
        || same_text(name, "set_custom_emoji_sticker_set_thumbnail")
        || same_text(name, "set_my_commands")
        || same_text(name, "set_my_default_administrator_rights")
        || same_text(name, "set_my_description")
        || same_text(name, "set_my_name")
        || same_text(name, "set_my_profile_photo")
        || same_text(name, "set_my_short_description")
        || same_text(name, "set_sticker_emoji_list")
        || same_text(name, "set_sticker_keywords")
        || same_text(name, "set_sticker_mask_position")
        || same_text(name, "set_sticker_position_in_set")
        || same_text(name, "set_sticker_set_title")
        || same_text(name, "set_webhook")
        || same_text(name, "stop_message_live_location_inline")
        || same_text(name, "transfer_business_account_stars")
        || same_text(name, "upgrade_gift")
        || same_text(name, "set_game_score_inline")
        || same_text(name, "repost_story")
}

/// Mutations addressing no chat.
pub open spec fn global_mutation(name: Seq<char>) -> bool {
    ||| name == "delete_business_messages"@
    ||| name == "delete_my_commands"@
    ||| name == "delete_sticker_from_set"@
    ||| name == "delete_sticker_set"@
    ||| name == "delete_story"@
    ||| name == "delete_webhook"@
    ||| name == "edit_message_caption_inline"@
    ||| name == "edit_message_live_location_inline"@
    ||| name == "edit_message_media_inline"@
    ||| name == "edit_message_reply_markup_inline"@
    ||| name == "edit_message_text_inline"@
    ||| name == "edit_story"@
}

fn is_global_mutation(name: &str) -> (r: bool)
    ensures
        r == global_mutation(name@),
{
    same_text(name, "delete_business_messages")
        || same_text(name, "delete_my_commands")
        || same_text(name, "delete_sticker_from_set")
        || same_text(name, "delete_sticker_set")
        || same_text(name, "delete_story")
        || same_text(name, "delete_webhook")
        || same_text(name, "edit_message_caption_inline")
        || same_text(name, "edit_message_live_location_inline")
        || same_text(name, "edit_message_media_inline")
        || same_text(name, "edit_message_reply_markup_inline")
        || same_text(name, "edit_message_text_inline")
        || same_text(name, "edit_story")
}

/// Reads addressing no chat.
pub open spec fn global_read(name: Seq<char>) -> bool {
    ||| name == "get_available_gifts"@
    ||| name == "get_business_account_gifts"@
    ||| name == "get_business_account_star_balance"@
    ||| name == "get_business_connection"@
    ||| name == "get_custom_emoji_stickers"@
    ||| name == "get_file"@
    ||| name == "get_forum_topic_icon_stickers"@
    ||| name == "get_me"@
    ||| name == "get_my_commands"@
    ||| name == "get_my_default_administrator_rights"@
    ||| name == "get_my_description"@
    ||| name == "get_my_name"@
    ||| name == "get_my_short_description"@
    ||| name == "get_my_star_balance"@
    ||| name == "get_star_transactions"@
    ||| name == "get_sticker_set"@
    ||| name == "get_updates"@
    ||| name == "get_webhook_info"@
}

fn is_global_read(name: &str) -> (r: bool)
    ensures
        r == global_read(name@),
{
    same_text(name, "get_available_gifts")
        || same_text(name, "get_business_account_gifts")
        || same_text(name, "get_business_account_star_balance")
        || same_text(name, "get_business_connection")
        || same_text(name, "get_custom_emoji_stickers")
        || same_text(name, "get_file")
        || same_text(name, "get_forum_topic_icon_stickers")
        || same_text(name, "get_me")
        || same_text(name, "get_my_commands")
        || same_text(name, "get_my_default_administrator_rights")
        || same_text(name, "get_my_description")
        || same_text(name, "get_my_name")
        || same_text(name, "get_my_short_description")
        || same_text(name, "get_my_star_balance")
        || same_text(name, "get_star_transactions")
        || same_text(name, "get_sticker_set")
        || same_text(name, "get_updates")
        || same_text(name, "get_webhook_info")
}

/// Sends addressing no chat.
pub open spec fn global_send(name: Seq<char>) -> bool {
    ||| name == "send_chat_join_request_web_app"@
}

fn is_global_send(name: &str) -> (r: bool)
    ensures
        r == global_send(name@),
{
    same_text(name, "send_chat_join_request_web_app")
}

/// Other methods addressing a recipient.
pub open spec fn recipient_other(name: Seq<char>) -> bool {
    ||| name == "approve_chat_join_request"@
    ||| name == "ban_chat_member"@
    ||| name == "ban_chat_sender_chat"@
    ||| name == "close_forum_topic"@
    ||| name == "close_general_forum_topic"@
    ||| name == "copy_message"@
    ||| name == "create_chat_invite_link"@
    ||| name == "create_chat_subscription_invite_link"@
    ||| name == "create_forum_topic"@
    ||| name == "decline_chat_join_request"@
    ||| name == "export_chat_invite_link"@
    ||| name == "forward_message"@
    ||| name == "hide_general_forum_topic"@
    ||| name == "kick_chat_member"@
    ||| name == "leave_chat"@
    ||| name == "promote_chat_member"@
    ||| name == "remove_chat_verification"@
    ||| name == "reopen_forum_topic"@
    ||| name == "reopen_general_forum_topic"@
    ||| name == "restrict_chat_member"@
    ||| name == "revoke_chat_invite_link"@
    ||| name == "set_chat_administrator_custom_title"@
    ||| name == "set_chat_description"@
    ||| name == "set_chat_member_tag"@
    ||| name == "set_chat_permissions"@
    ||| name == "set_chat_photo"@
    ||| name == "set_chat_sticker_set"@
    ||| name == "set_chat_title"@
    ||| name == "stop_message_live_location"@
    ||| name == "unban_chat_member"@
    ||| name == "unban_chat_sender_chat"@
    ||| name == "unhide_general_forum_topic"@
    ||| name == "verify_chat"@
}

fn is_recipient_other(name: &str) -> (r: bool)
    ensures
        r == recipient_other(name@),
{
    same_text(name, "approve_chat_join_request")
        || same_text(name, "ban_chat_member")
        || same_text(name, "ban_chat_sender_chat")
        || same_text(name, "close_forum_topic")
        || same_text(name, "close_general_forum_topic")
        || same_text(name, "copy_message")
        || same_text(name, "create_chat_invite_link")
        || same_text(name, "create_chat_subscription_invite_link")
        || same_text(name, "create_forum_topic")
        || same_text(name, "decline_chat_join_request")
        || same_text(name, "export_chat_invite_link")
        || same_text(name, "forward_message")
        || same_text(name, "hide_general_forum_topic")
        || same_text(name, "kick_chat_member")
        || same_text(name, "leave_chat")
        || same_text(name, "promote_chat_member")
        || same_text(name, "remove_chat_verification")
        || same_text(name, "reopen_forum_topic")
        || same_text(name, "reopen_general_forum_topic")
        || same_text(name, "restrict_chat_member")
        || same_text(name, "revoke_chat_invite_link")
        || same_text(name, "set_chat_administrator_custom_title")
        || same_text(name, "set_chat_description")
        || same_text(name, "set_chat_member_tag")
        || same_text(name, "set_chat_permissions")
        || same_text(name, "set_chat_photo")
        || same_text(name, "set_chat_sticker_set")
        || same_text(name, "set_chat_title")
        || same_text(name, "stop_message_live_location")
        || same_text(name, "unban_chat_member")
        || same_text(name, "unban_chat_sender_chat")
        || same_text(name, "unhide_general_forum_topic")
        || same_text(name, "verify_chat")
}

/// Other methods addressing a recipient, one unit per message.
pub open spec fn recipient_other_batch(name: Seq<char>) -> bool {
    ||| name == "copy_messages"@
    ||| name == "forward_messages"@
}

fn is_recipient_other_batch(name: &str) -> (r: bool)
    ensures
        r == recipient_other_batch(name@),
{
    same_text(name, "copy_messages")
        || same_text(name, "forward_messages")
}

/// Mutations addressing a recipient.
pub open spec fn recipient_mutation(name: Seq<char>) -> bool {
    ||| name == "delete_all_message_reactions"@
    ||| name == "delete_chat_photo"@
    ||| name == "delete_chat_sticker_set"@
    ||| name == "delete_ephemeral_message"@
    ||| name == "delete_forum_topic"@
    ||| name == "delete_message"@
    ||| name == "delete_message_reaction"@
    ||| name == "delete_messages"@
    ||| name == "edit_chat_invite_link"@
    ||| name == "edit_chat_subscription_invite_link"@
    ||| name == "edit_ephemeral_message_caption"@
    ||| name == "edit_ephemeral_message_media"@
    ||| name == "edit_ephemeral_message_reply_markup"@
    ||| name == "edit_ephemeral_message_text"@
    ||| name == "edit_forum_topic"@
    ||| name == "edit_general_forum_topic"@
    ||| name == "edit_message_caption"@
    ||| name == "edit_message_live_location"@
    ||| name == "edit_message_media"@
    ||| name == "edit_message_reply_markup"@
    ||| name == "edit_message_text"@
    ||| name == "pin_chat_message"@
    ||| name == "set_message_reaction"@
    ||| name == "stop_poll"@
    ||| name == "unpin_all_chat_messages"@
    ||| name == "unpin_all_forum_topic_messages"@
    ||| name == "unpin_all_general_forum_topic_messages"@
    ||| name == "unpin_chat_message"@
}

fn is_recipient_mutation(name: &str) -> (r: bool)
    ensures
        r == recipient_mutation(name@),
{
    same_text(name, "delete_all_message_reactions")
        || same_text(name, "delete_chat_photo")
        || same_text(name, "delete_chat_sticker_set")
        || same_text(name, "delete_ephemeral_message")
        || same_text(name, "delete_forum_topic")
        || same_text(name, "delete_message")
        || same_text(name, "delete_message_reaction")
        || same_text(name, "delete_messages")
        || same_text(name, "edit_chat_invite_link")
        || same_text(name, "edit_chat_subscription_invite_link")
        || same_text(name, "edit_ephemeral_message_caption")
        || same_text(name, "edit_ephemeral_message_media")
        || same_text(name, "edit_ephemeral_message_reply_markup")
        || same_text(name, "edit_ephemeral_message_text")
        || same_text(name, "edit_forum_topic")
        || same_text(name, "edit_general_forum_topic")
        || same_text(name, "edit_message_caption")
        || same_text(name, "edit_message_live_location")
        || same_text(name, "edit_message_media")
        || same_text(name, "edit_message_reply_markup")
        || same_text(name, "edit_message_text")
        || same_text(name, "pin_chat_message")
        || same_text(name, "set_message_reaction")
        || same_text(name, "stop_poll")
        || same_text(name, "unpin_all_chat_messages")
        || same_text(name, "unpin_all_forum_topic_messages")
        || same_text(name, "unpin_all_general_forum_topic_messages")
        || same_text(name, "unpin_chat_message")
}

/// Reads addressing a recipient.
pub open spec fn recipient_read(name: Seq<char>) -> bool {
    ||| name == "get_chat"@
    ||| name == "get_chat_administrators"@
    ||| name == "get_chat_gifts"@
    ||| name == "get_chat_member"@
    ||| name == "get_chat_member_count"@
    ||| name == "get_chat_members_count"@
    ||| name == "get_user_chat_boosts"@
}

fn is_recipient_read(name: &str) -> (r: bool)
    ensures
        r == recipient_read(name@),
{
    same_text(name, "get_chat")
        || same_text(name, "get_chat_administrators")
        || same_text(name, "get_chat_gifts")
        || same_text(name, "get_chat_member")
        || same_text(name, "get_chat_member_count")
        || same_text(name, "get_chat_members_count")
        || same_text(name, "get_user_chat_boosts")
}

/// Sends addressing a recipient.
pub open spec fn recipient_send(name: Seq<char>) -> bool {
    ||| name == "send_animation"@
    ||| name == "send_audio"@
    ||| name == "send_contact"@
    ||| name == "send_dice"@
    ||| name == "send_document"@
    ||| name == "send_gift_chat"@
    ||| name == "send_invoice"@
    ||| name == "send_live_photo"@
    ||| name == "send_location"@
    ||| name == "send_message"@
    ||| name == "send_paid_media"@
    ||| name == "send_photo"@
    ||| name == "send_poll"@
    ||| name == "send_rich_message"@
    ||| name == "send_sticker"@
    ||| name == "send_venue"@
    ||| name == "send_video"@
    ||| name == "send_video_note"@
    ||| name == "send_voice"@
}

fn is_recipient_send(name: &str) -> (r: bool)
    ensures
        r == recipient_send(name@),
{
    same_text(name, "send_animation")
        || same_text(name, "send_audio")
        || same_text(name, "send_contact")
        || same_text(name, "send_dice")
        || same_text(name, "send_document")
        || same_text(name, "send_gift_chat")
        || same_text(name, "send_invoice")
        || same_text(name, "send_live_photo")
        || same_text(name, "send_location")
        || same_text(name, "send_message")
        || same_text(name, "send_paid_media")
        || same_text(name, "send_photo")
        || same_text(name, "send_poll")
        || same_text(name, "send_rich_message")
        || same_text(name, "send_sticker")
        || same_text(name, "send_venue")
        || same_text(name, "send_video")
        || same_text(name, "send_video_note")
        || same_text(name, "send_voice")
}

/// Chat actions addressing a recipient.
pub open spec fn recipient_action(name: Seq<char>) -> bool {
    ||| name == "send_chat_action"@
}

fn is_recipient_action(name: &str) -> (r: bool)
    ensures
        r == recipient_action(name@),
{
    same_text(name, "send_chat_action")
}

/// Sends addressing a recipient, one unit per medium.
pub open spec fn recipient_send_group(name: Seq<char>) -> bool {
    ||| name == "send_media_group"@
}

fn is_recipient_send_group(name: &str) -> (r: bool)
    ensures
        r == recipient_send_group(name@),
{
    same_text(name, "send_media_group")
}

/// Other methods addressing a numeric chat.
pub open spec fn chat_other(name: Seq<char>) -> bool {
    ||| name == "approve_suggested_post"@
    ||| name == "decline_suggested_post"@
    ||| name == "read_business_message"@
}

fn is_chat_other(name: &str) -> (r: bool)
    ensures
        r == chat_other(name@),
{
    same_text(name, "approve_suggested_post")
        || same_text(name, "decline_suggested_post")
        || same_text(name, "read_business_message")
}

/// Mutations addressing a numeric chat.
pub open spec fn chat_mutation(name: Seq<char>) -> bool {
    ||| name == "edit_message_checklist"@
}

fn is_chat_mutation(name: &str) -> (r: bool)
    ensures
        r == chat_mutation(name@),
{
    same_text(name, "edit_message_checklist")
}

/// Sends addressing a numeric chat.
pub open spec fn chat_send(name: Seq<char>) -> bool {
    ||| name == "send_checklist"@
    ||| name == "send_game"@
}

fn is_chat_send(name: &str) -> (r: bool)
    ensures
        r == chat_send(name@),
{
    same_text(name, "send_checklist")
        || same_text(name, "send_game")
}

/// Reads addressing a numeric chat, if any.
pub open spec fn optional_chat_read(name: Seq<char>) -> bool {
    ||| name == "get_chat_menu_button"@
}

fn is_optional_chat_read(name: &str) -> (r: bool)
    ensures
        r == optional_chat_read(name@),
{
    same_text(name, "get_chat_menu_button")
}

/// Other methods addressing a numeric chat, if any.
pub open spec fn optional_chat_other(name: Seq<char>) -> bool {
    ||| name == "set_chat_menu_button"@
}

fn is_optional_chat_other(name: &str) -> (r: bool)
    ensures
        r == optional_chat_other(name@),
{
    same_text(name, "set_chat_menu_button")
}

/// Other methods addressing a user.
pub open spec fn user_other(name: Seq<char>) -> bool {
    ||| name == "add_sticker_to_set"@
    ||| name == "create_new_sticker_set"@
    ||| name == "gift_premium_subscription"@
    ||| name == "refund_star_payment"@
    ||| name == "remove_user_verification"@
    ||| name == "replace_managed_bot_token"@
    ||| name == "replace_sticker_in_set"@
    ||| name == "save_prepared_inline_message"@
    ||| name == "save_prepared_keyboard_button"@
    ||| name == "set_managed_bot_access_settings"@
    ||| name == "set_passport_data_errors"@
    ||| name == "set_sticker_set_thumbnail"@
    ||| name == "set_user_emoji_status"@
    ||| name == "upload_sticker_file"@
    ||| name == "verify_user"@
}

fn is_user_other(name: &str) -> (r: bool)
    ensures
        r == user_other(name@),
{
    same_text(name, "add_sticker_to_set")
        || same_text(name, "create_new_sticker_set")
        || same_text(name, "gift_premium_subscription")
        || same_text(name, "refund_star_payment")
        || same_text(name, "remove_user_verification")
        || same_text(name, "replace_managed_bot_token")
        || same_text(name, "replace_sticker_in_set")
        || same_text(name, "save_prepared_inline_message")
        || same_text(name, "save_prepared_keyboard_button")
        || same_text(name, "set_managed_bot_access_settings")
        || same_text(name, "set_passport_data_errors")
        || same_text(name, "set_sticker_set_thumbnail")
        || same_text(name, "set_user_emoji_status")
        || same_text(name, "upload_sticker_file")
        || same_text(name, "verify_user")
}

/// Mutations addressing a user.
pub open spec fn user_mutation(name: Seq<char>) -> bool {
    ||| name == "edit_user_star_subscription"@
}

fn is_user_mutation(name: &str) -> (r: bool)
    ensures
        r == user_mutation(name@),
{
    same_text(name, "edit_user_star_subscription")
}

/// Reads addressing the chat of a target message.
pub open spec fn target_read(name: Seq<char>) -> bool {
    ||| name == "get_game_high_scores"@
}

fn is_target_read(name: &str) -> (r: bool)
    ensures
        r == target_read(name@),
{
    same_text(name, "get_game_high_scores")
}

/// Reads addressing a user.
pub open spec fn user_read(name: Seq<char>) -> bool {
    ||| name == "get_managed_bot_access_settings"@
    ||| name == "get_managed_bot_token"@
    ||| name == "get_user_gifts"@
    ||| name == "get_user_personal_chat_messages"@
    ||| name == "get_user_profile_audios"@
    ||| name == "get_user_profile_photos"@
}

fn is_user_read(name: &str) -> (r: bool)
    ensures
        r == user_read(name@),
{
    same_text(name, "get_managed_bot_access_settings")
        || same_text(name, "get_managed_bot_token")
        || same_text(name, "get_user_gifts")
        || same_text(name, "get_user_personal_chat_messages")
        || same_text(name, "get_user_profile_audios")
        || same_text(name, "get_user_profile_photos")
}

/// Sends addressing a user.
pub open spec fn user_send(name: Seq<char>) -> bool {
    ||| name == "send_gift"@
}

fn is_user_send(name: &str) -> (r: bool)
    ensures
        r == user_send(name@),
{
    same_text(name, "send_gift")
}

/// Other methods addressing the chat of a game.
pub open spec fn game_other(name: Seq<char>) -> bool {
    ||| name == "set_game_score"@
}

fn is_game_other(name: &str) -> (r: bool)
    ensures
        r == game_other(name@),
{
    same_text(name, "set_game_score")
}

/// Sends addressing the owner of a draft.
pub open spec fn draft_send(name: Seq<char>) -> bool {
    ||| name == "send_message_draft"@
    ||| name == "send_rich_message_draft"@
}

fn is_draft_send(name: &str) -> (r: bool)
    ensures
        r == draft_send(name@),
{
    same_text(name, "send_message_draft")
        || same_text(name, "send_rich_message_draft")
}

/// Other methods addressing a new owner.
pub open spec fn new_owner_other(name: Seq<char>) -> bool {
    ||| name == "transfer_gift"@
}

fn is_new_owner_other(name: &str) -> (r: bool)
    ensures
        r == new_owner_other(name@),
{
    same_text(name, "transfer_gift")
}

/// The classification of a method.
pub open spec fn policy_of(name: Seq<char>) -> Option<MethodPolicy> {
    if global_other(name) {
        Some(
            MethodPolicy {
                scope: ScopePolicy::Global,
                class: "OTHER",
                priority: "NORMAL",
                weight: WeightPolicy::One,
            },
        )
    } else if global_mutation(name) {
        Some(
            MethodPolicy {
                scope: ScopePolicy::Global,
                class: "MESSAGE_MUTATION",
                priority: "NORMAL",
                weight: WeightPolicy::One,
            },
        )
    } else if global_read(name) {
        Some(
            MethodPolicy {
                scope: ScopePolicy::Global,
                class: "READ",
                priority: "NORMAL",
                weight: WeightPolicy::One,
            },
        )
    } else if global_send(name) {
        Some(
            MethodPolicy {
                scope: ScopePolicy::Global,
                class: "MESSAGE_SEND",
                priority: "NORMAL",
                weight: WeightPolicy::One,
            },
        )
    } else if recipient_other(name) {
        Some(
            MethodPolicy {
                scope: ScopePolicy::RecipientField("chat_id"),
                class: "OTHER",
                priority: "NORMAL",
                weight: WeightPolicy::One,
            },
        )
    } else if recipient_other_batch(name) {
        Some(
            MethodPolicy {
                scope: ScopePolicy::RecipientField("chat_id"),
                class: "OTHER",
                priority: "NORMAL",
                weight: WeightPolicy::Len("message_ids"),
            },
        )
    } else if recipient_mutation(name) {
        Some(
            MethodPolicy {
                scope: ScopePolicy::RecipientField("chat_id"),
                class: "MESSAGE_MUTATION",
                priority: "NORMAL",
                weight: WeightPolicy::One,
            },
        )
    } else if recipient_read(name) {
        Some(
            MethodPolicy {
                scope: ScopePolicy::RecipientField("chat_id"),
                class: "READ",
                priority: "NORMAL",
                weight: WeightPolicy::One,
            },
        )
    } else if recipient_send(name) {
        Some(
            MethodPolicy {
                scope: ScopePolicy::RecipientField("chat_id"),
                class: "MESSAGE_SEND",
                priority: "NORMAL",
                weight: WeightPolicy::One,
            },
        )
    } else if recipient_action(name) {
        Some(
            MethodPolicy {
                scope: ScopePolicy::RecipientField("chat_id"),
                class: "CHAT_ACTION",
                priority: "BACKGROUND",
                weight: WeightPolicy::One,
            },
        )
    } else if recipient_send_group(name) {
        Some(
            MethodPolicy {
                scope: ScopePolicy::RecipientField("chat_id"),
                class: "MESSAGE_SEND",
                priority: "NORMAL",
                weight: WeightPolicy::Len("media"),
            },
        )
    } else if chat_other(name) {
        Some(
            MethodPolicy {
                scope: ScopePolicy::ChatIdField("chat_id"),
                class: "OTHER",
                priority: "NORMAL",
                weight: WeightPolicy::One,
            },
        )
    } else if chat_mutation(name) {
        Some(
            MethodPolicy {
                scope: ScopePolicy::ChatIdField("chat_id"),
                class: "MESSAGE_MUTATION",
                priority: "NORMAL",
                weight: WeightPolicy::One,
            },
        )
    } else if chat_send(name) {
        Some(
            MethodPolicy {
                scope: ScopePolicy::ChatIdField("chat_id"),
                class: "MESSAGE_SEND",
                priority: "NORMAL",
                weight: WeightPolicy::One,
            },
        )
    } else if optional_chat_read(name) {
        Some(
            MethodPolicy {
                scope: ScopePolicy::OptionalChatIdField("chat_id"),
                class: "READ",
                priority: "NORMAL",
                weight: WeightPolicy::One,
            },
        )
    } else if optional_chat_other(name) {
        Some(
            MethodPolicy {
                scope: ScopePolicy::OptionalChatIdField("chat_id"),
                class: "OTHER",
                priority: "NORMAL",
                weight: WeightPolicy::One,
            },
        )
    } else if user_other(name) {
        Some(
            MethodPolicy {
                scope: ScopePolicy::UserIdField("user_id"),
                class: "OTHER",
                priority: "NORMAL",
                weight: WeightPolicy::One,
            },
        )
    } else if user_mutation(name) {
        Some(
            MethodPolicy {
                scope: ScopePolicy::UserIdField("user_id"),
                class: "MESSAGE_MUTATION",
                priority: "NORMAL",
                weight: WeightPolicy::One,
            },
        )
    } else if target_read(name) {
        Some(
            MethodPolicy {
                scope: ScopePolicy::Custom("target_message_scope", "target"),
                class: "READ",
                priority: "NORMAL",
                weight: WeightPolicy::One,
            },
        )
    } else if user_read(name) {
        Some(
            MethodPolicy {
                scope: ScopePolicy::UserIdField("user_id"),
                class: "READ",
                priority: "NORMAL",
                weight: WeightPolicy::One,
            },
        )
    } else if user_send(name) {
        Some(
            MethodPolicy {
                scope: ScopePolicy::UserIdField("user_id"),
                class: "MESSAGE_SEND",
                priority: "NORMAL",
                weight: WeightPolicy::One,
            },
        )
    } else if game_other(name) {
        Some(
            MethodPolicy {
                scope: ScopePolicy::CustomValue("game_chat_id_scope", "chat_id"),
                class: "OTHER",
                priority: "NORMAL",
                weight: WeightPolicy::One,
            },
        )
    } else if draft_send(name) {
        Some(
            MethodPolicy {
                scope: ScopePolicy::Custom("draft_chat_id_scope", "chat_id"),
                class: "MESSAGE_SEND",
                priority: "NORMAL",
                weight: WeightPolicy::One,
            },
        )
    } else if new_owner_other(name) {
        Some(
            MethodPolicy {
                scope: ScopePolicy::Custom("new_owner_chat_id_scope", "new_owner_chat_id"),
                class: "OTHER",
                priority: "NORMAL",
                weight: WeightPolicy::One,
            },
        )
    } else {
        None
    }
}

/// The classification of a method, if it has one.
pub fn find_policy(name: &str) -> (r: Option<MethodPolicy>)
    ensures
        r == policy_of(name@),
{
    if is_global_other(name) {
        Some(
            MethodPolicy {
                scope: ScopePolicy::Global,
                class: "OTHER",
                priority: "NORMAL",
                weight: WeightPolicy::One,
            },
        )
    } else if is_global_mutation(name) {
        Some(
            MethodPolicy {
                scope: ScopePolicy::Global,
                class: "MESSAGE_MUTATION",
                priority: "NORMAL",
                weight: WeightPolicy::One,
            },
        )
    } else if is_global_read(name) {
        Some(
            MethodPolicy {
                scope: ScopePolicy::Global,
                class: "READ",
                priority: "NORMAL",
                weight: WeightPolicy::One,
            },
        )
    } else if is_global_send(name) {
        Some(
            MethodPolicy {
                scope: ScopePolicy::Global,
                class: "MESSAGE_SEND",
                priority: "NORMAL",
                weight: WeightPolicy::One,
            },
        )
    } else if is_recipient_other(name) {
        Some(
            MethodPolicy {
                scope: ScopePolicy::RecipientField("chat_id"),
                class: "OTHER",
                priority: "NORMAL",
                weight: WeightPolicy::One,
            },
        )
    } else if is_recipient_other_batch(name) {
        Some(
            MethodPolicy {
                scope: ScopePolicy::RecipientField("chat_id"),
                class: "OTHER",
                priority: "NORMAL",
                weight: WeightPolicy::Len("message_ids"),
            },
        )
    } else if is_recipient_mutation(name) {
        Some(
            MethodPolicy {
                scope: ScopePolicy::RecipientField("chat_id"),
                class: "MESSAGE_MUTATION",
                priority: "NORMAL",
                weight: WeightPolicy::One,
            },
        )
    } else if is_recipient_read(name) {
        Some(
            MethodPolicy {
                scope: ScopePolicy::RecipientField("chat_id"),
                class: "READ",
                priority: "NORMAL",
                weight: WeightPolicy::One,
            },
        )
    } else if is_recipient_send(name) {
        Some(
            MethodPolicy {
                scope: ScopePolicy::RecipientField("chat_id"),
                class: "MESSAGE_SEND",
                priority: "NORMAL",
                weight: WeightPolicy::One,
            },
        )
    } else if is_recipient_action(name) {
        Some(
            MethodPolicy {
                scope: ScopePolicy::RecipientField("chat_id"),
                class: "CHAT_ACTION",
                priority: "BACKGROUND",
                weight: WeightPolicy::One,
            },
        )
    } else if is_recipient_send_group(name) {
        Some(
            MethodPolicy {
                scope: ScopePolicy::RecipientField("chat_id"),
                class: "MESSAGE_SEND",
                priority: "NORMAL",
                weight: WeightPolicy::Len("media"),
            },
        )
    } else if is_chat_other(name) {
        Some(
            MethodPolicy {
                scope: ScopePolicy::ChatIdField("chat_id"),
                class: "OTHER",
                priority: "NORMAL",
                weight: WeightPolicy::One,
            },
        )
    } else if is_chat_mutation(name) {
        Some(
            MethodPolicy {
                scope: ScopePolicy::ChatIdField("chat_id"),
                class: "MESSAGE_MUTATION",
                priority: "NORMAL",
                weight: WeightPolicy::One,
            },
        )
    } else if is_chat_send(name) {
        Some(
            MethodPolicy {
                scope: ScopePolicy::ChatIdField("chat_id"),
                class: "MESSAGE_SEND",
                priority: "NORMAL",
                weight: WeightPolicy::One,
            },
        )
    } else if is_optional_chat_read(name) {
        Some(
            MethodPolicy {
                scope: ScopePolicy::OptionalChatIdField("chat_id"),
                class: "READ",
                priority: "NORMAL",
                weight: WeightPolicy::One,
            },
        )
    } else if is_optional_chat_other(name) {
        Some(
            MethodPolicy {
                scope: ScopePolicy::OptionalChatIdField("chat_id"),
                class: "OTHER",
                priority: "NORMAL",
                weight: WeightPolicy::One,
            },
        )
    } else if is_user_other(name) {
        Some(
            MethodPolicy {
                scope: ScopePolicy::UserIdField("user_id"),
                class: "OTHER",
                priority: "NORMAL",
                weight: WeightPolicy::One,
            },
        )
    } else if is_user_mutation(name) {
        Some(
            MethodPolicy {
                scope: ScopePolicy::UserIdField("user_id"),
                class: "MESSAGE_MUTATION",
                priority: "NORMAL",
                weight: WeightPolicy::One,
            },
        )
    } else if is_target_read(name) {
        Some(
            MethodPolicy {
                scope: ScopePolicy::Custom("target_message_scope", "target"),
                class: "READ",
                priority: "NORMAL",
                weight: WeightPolicy::One,
            },
        )
    } else if is_user_read(name) {
        Some(
            MethodPolicy {
                scope: ScopePolicy::UserIdField("user_id"),
                class: "READ",
                priority: "NORMAL",
                weight: WeightPolicy::One,
            },
        )
    } else if is_user_send(name) {
        Some(
            MethodPolicy {
                scope: ScopePolicy::UserIdField("user_id"),
                class: "MESSAGE_SEND",
                priority: "NORMAL",
                weight: WeightPolicy::One,
            },
        )
    } else if is_game_other(name) {
        Some(
            MethodPolicy {
                scope: ScopePolicy::CustomValue("game_chat_id_scope", "chat_id"),
                class: "OTHER",
                priority: "NORMAL",
                weight: WeightPolicy::One,
            },
        )
    } else if is_draft_send(name) {
        Some(
            MethodPolicy {
                scope: ScopePolicy::Custom("draft_chat_id_scope", "chat_id"),
                class: "MESSAGE_SEND",
                priority: "NORMAL",
                weight: WeightPolicy::One,
            },
        )
    } else if is_new_owner_other(name) {
        Some(
            MethodPolicy {
                scope: ScopePolicy::Custom("new_owner_chat_id_scope", "new_owner_chat_id"),
                class: "OTHER",
                priority: "NORMAL",
                weight: WeightPolicy::One,
            },
        )
    } else {
        None
    }
}

/// The classification of a method that is classified.
pub fn method_policy(name: &str) -> (r: MethodPolicy)
    requires
        policy_of(name@) is Some,
    ensures
        policy_of(name@) == Some(r),
{
    find_policy(name).unwrap()
}

/// Whether a method is classified.
pub fn is_classified(name: &str) -> (r: bool)
    ensures
        r == policy_of(name@) is Some,
{
    find_policy(name).is_some()
}

} // verus!
