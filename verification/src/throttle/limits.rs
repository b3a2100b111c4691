//! The limits of a bot account and the windows they stand for.

use crate::time::Duration;
use crate::types;
use crate::types::{OutboundLimits, WindowChatKind, WindowLimit};
use crate::window;
use vstd::prelude::*;

verus! {

/// Telegram request limits.
#[derive(Clone, Copy, Debug, PartialEq, Eq, Structural)]
pub struct Limits {
    /// Allowed messages in one chat per second.
    pub messages_per_sec_chat: u32,
    /// Allowed messages in one chat per minute.
    pub messages_per_min_chat: u32,
    /// Allowed messages in one channel or supergroup per minute.
    pub messages_per_min_channel_or_supergroup: u32,
    /// Allowed messages per second.
    pub messages_per_sec_overall: u32,
}

/// One second in nanoseconds.
pub const SECOND_NANOS: u64 = 1_000_000_000;

/// One minute in nanoseconds.
pub const MINUTE_NANOS: u64 = 60_000_000_000;

pub open spec fn window_of(capacity: u32, nanos: u64, kind: WindowChatKind) -> WindowLimit {
    WindowLimit { capacity, window: Duration { nanos }, kind }
}

/// The windows the limits stand for.
pub open spec fn global_windows(limits: Limits) -> Seq<WindowLimit> {
    seq![window_of(limits.messages_per_sec_overall, SECOND_NANOS, WindowChatKind::Any)]
}

/// The windows the limits stand for.
pub open spec fn chat_windows(limits: Limits) -> Seq<WindowLimit> {
    seq![
        window_of(limits.messages_per_sec_chat, SECOND_NANOS, WindowChatKind::Any),
        window_of(limits.messages_per_min_chat, MINUTE_NANOS, WindowChatKind::NonChannel),
        window_of(
            limits.messages_per_min_channel_or_supergroup,
            MINUTE_NANOS,
            WindowChatKind::ChannelOrSupergroup,
        ),
    ]
}

/// Maps the limits to windows. The per-chat minute limit is split by chat
/// kind; the per-second limits become one-second windows.
pub fn to_outbound_limits(limits: Limits) -> (r: OutboundLimits)
    ensures
        r.global@ == global_windows(limits),
        r.chat@ == chat_windows(limits),
{
    let mut global: Vec<WindowLimit> = Vec::new();
    global.push(WindowLimit::new(limits.messages_per_sec_overall, Duration::from_secs(1)));
    let mut chat: Vec<WindowLimit> = Vec::new();
    chat.push(WindowLimit::new(limits.messages_per_sec_chat, Duration::from_secs(1)));
    chat.push(
        WindowLimit::for_chat_kind(
            limits.messages_per_min_chat,
            Duration::from_secs(60),
            WindowChatKind::NonChannel,
        ),
    );
    chat.push(
        WindowLimit::for_chat_kind(
            limits.messages_per_min_channel_or_supergroup,
            Duration::from_secs(60),
            WindowChatKind::ChannelOrSupergroup,
        ),
    );
    assert(global@ =~= global_windows(limits));
    assert(chat@ =~= chat_windows(limits));
    OutboundLimits { global, chat }
}

/// What a list of global windows says about the limits; windows of other
/// shapes say nothing.
pub open spec fn read_global(windows: Seq<WindowLimit>, base: Limits) -> Limits
    decreases windows.len(),
{
    if windows.len() == 0 {
        base
    } else {
        let before = read_global(windows.drop_last(), base);
        if windows.last().window.nanos == SECOND_NANOS {
            Limits { messages_per_sec_overall: windows.last().capacity, ..before }
        } else {
            before
        }
    }
}

/// What a list of chat windows says about the limits; windows of other
/// shapes say nothing.
pub open spec fn read_chat(windows: Seq<WindowLimit>, base: Limits) -> Limits
    decreases windows.len(),
{
    if windows.len() == 0 {
        base
    } else {
        let before = read_chat(windows.drop_last(), base);
        let last = windows.last();
        if last.window.nanos == SECOND_NANOS {
            Limits { messages_per_sec_chat: last.capacity, ..before }
        } else if last.window.nanos == MINUTE_NANOS && last.kind is NonChannel {
            Limits { messages_per_min_chat: last.capacity, ..before }
        } else if last.window.nanos == MINUTE_NANOS && last.kind is ChannelOrSupergroup {
            Limits { messages_per_min_channel_or_supergroup: last.capacity, ..before }
        } else {
            before
        }
    }
}

/// Maps windows back to limits: the one-second global window, the one-second
/// chat window and the two minute windows by kind. Windows of other shapes
/// are ignored, and what no window says stays as in `base`.
pub fn to_legacy_limits(outbound: &OutboundLimits, base: Limits) -> (r: Limits)
    ensures
        r == read_chat(outbound.chat@, read_global(outbound.global@, base)),
{
    let mut limits = base;
    let mut i: usize = 0;
    while i < outbound.global.len()
        invariant
            i <= outbound.global.len(),
            limits == read_global(outbound.global@.take(i as int), base),
        decreases outbound.global.len() - i,
    {
        proof {
            assert(outbound.global@.take(i + 1).drop_last() =~= outbound.global@.take(i as int));
        }
        if outbound.global[i].window.nanos == SECOND_NANOS {
            limits.messages_per_sec_overall = outbound.global[i].capacity;
        }
        i = i + 1;
    }
    assert(outbound.global@.take(i as int) =~= outbound.global@);
    let ghost start = limits;
    let mut j: usize = 0;
    while j < outbound.chat.len()
        invariant
            j <= outbound.chat.len(),
            limits == read_chat(outbound.chat@.take(j as int), start),
        decreases outbound.chat.len() - j,
    {
        proof {
            assert(outbound.chat@.take(j + 1).drop_last() =~= outbound.chat@.take(j as int));
        }
        let window = outbound.chat[j];
        if window.window.nanos == SECOND_NANOS {
            limits.messages_per_sec_chat = window.capacity;
        } else if window.window.nanos == MINUTE_NANOS {
            match window.kind {
                WindowChatKind::NonChannel => {
                    limits.messages_per_min_chat = window.capacity;
                },
                WindowChatKind::ChannelOrSupergroup => {
                    limits.messages_per_min_channel_or_supergroup = window.capacity;
                },
                WindowChatKind::Any => {},
            }
        }
        j = j + 1;
    }
    assert(outbound.chat@.take(j as int) =~= outbound.chat@);
    limits
}

/// Reading the limits back gives the limits that were set, whatever was
/// there before.
pub proof fn law_limits_survive_the_mapping(limits: Limits, base: Limits)
    ensures
        read_chat(chat_windows(limits), read_global(global_windows(limits), base)) == limits,
{
    let g = global_windows(limits);
    let c = chat_windows(limits);
    assert(g.drop_last() =~= Seq::empty());
    assert(c.drop_last().drop_last().drop_last() =~= Seq::empty());
    assert(c.drop_last().last() == c[1]);
    assert(c.drop_last().drop_last().last() == c[0]);
    reveal_with_fuel(read_chat, 4);
    reveal_with_fuel(read_global, 2);
}

/// One queue holds both kinds of chats to their own minute limit: besides the
/// limit per second, a channel or supergroup is held to its limit per minute
/// and every other chat to the other one.
pub proof fn law_each_kind_has_its_minute_limit(limits: Limits, chat: u64)
    ensures
        window::applicable(chat_windows(limits), chat) == seq![
            window_of(limits.messages_per_sec_chat, SECOND_NANOS, WindowChatKind::Any),
            if types::chat_kind(chat) is ChannelOrSupergroup {
                window_of(
                    limits.messages_per_min_channel_or_supergroup,
                    MINUTE_NANOS,
                    WindowChatKind::ChannelOrSupergroup,
                )
            } else {
                window_of(limits.messages_per_min_chat, MINUTE_NANOS, WindowChatKind::NonChannel)
            },
        ],
{
    let all = chat_windows(limits);
    reveal_with_fuel(window::applicable, 4);
    assert(all.drop_last().drop_last().drop_last() =~= Seq::empty());
    assert(all.drop_last().last() == all[1]);
    assert(all.drop_last().drop_last().last() == all[0]);
}

} // verus!
