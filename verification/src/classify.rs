//! Which chat a payload addresses.
//!
//! These functions are the single source of truth for how a payload maps to
//! a chat identity. A directory gives every identity its own chat key, the
//! name under which the scheduler accounts for it.

use crate::text;
use crate::types;
use crate::types::{OutboundChatKey, OutboundScope, WindowChatKind};
use vstd::prelude::*;
use vstd::string::*;

verus! {

/// A numeric chat id.
#[derive(Clone, Copy, Debug, PartialEq, Eq, Hash, Structural)]
pub struct ChatId {
    pub value: i64,
}

/// A numeric user id.
#[derive(Clone, Copy, Debug, PartialEq, Eq, Hash, Structural)]
pub struct UserId {
    pub value: u64,
}

/// Whom a payload is sent to.
#[derive(Clone, Debug, PartialEq, Eq)]
pub enum Recipient {
    Id(ChatId),
    /// A channel username, with or without its leading `@`.
    ChannelUsername(String),
}

/// The message a game request is about.
#[derive(Clone, Debug, PartialEq, Eq)]
pub enum TargetMessage {
    Common { chat_id: Recipient, message_id: u32 },
    Inline { inline_message_id: String },
}

/// Who a chat is: its id, or its username in canonical form.
#[derive(Clone, Debug, PartialEq, Eq)]
pub enum ChatIdentity {
    Id(i64),
    Username(String),
}

/// What a chat identity says.
pub enum IdentityView {
    Id(i64),
    Username(Seq<char>),
}

impl ChatIdentity {
    pub open spec fn view(&self) -> IdentityView {
        match self {
            ChatIdentity::Id(id) => IdentityView::Id(*id),
            ChatIdentity::Username(name) => IdentityView::Username(name@),
        }
    }

    /// Whether both are the same chat.
    pub fn same(&self, other: &ChatIdentity) -> (r: bool)
        ensures
            r == (self@ == other@),
    {
        match (self, other) {
            (ChatIdentity::Id(a), ChatIdentity::Id(b)) => *a == *b,
            (ChatIdentity::Username(a), ChatIdentity::Username(b)) => *a == *b,
            _ => false,
        }
    }

    /// A copy.
    pub fn duplicate(&self) -> (r: ChatIdentity)
        ensures
            r@ == self@,
    {
        match self {
            ChatIdentity::Id(id) => ChatIdentity::Id(*id),
            ChatIdentity::Username(name) => ChatIdentity::Username(name.clone()),
        }
    }
}

/// Where a payload applies.
#[derive(Clone, Debug, PartialEq, Eq)]
pub enum PayloadScope {
    Global,
    Chat(ChatIdentity),
}

/// What a payload scope says.
pub enum ScopeView {
    Global,
    Chat(IdentityView),
}

impl PayloadScope {
    pub open spec fn view(&self) -> ScopeView {
        match self {
            PayloadScope::Global => ScopeView::Global,
            PayloadScope::Chat(identity) => ScopeView::Chat(identity@),
        }
    }

    /// The scope of a numeric id.
    pub fn id(id: i64) -> (r: Self)
        ensures
            r@ == ScopeView::Chat(IdentityView::Id(id)),
    {
        PayloadScope::Chat(ChatIdentity::Id(id))
    }

    /// The scope of a channel username.
    pub fn username(username: &str) -> (r: Self)
        ensures
            r@ == ScopeView::Chat(IdentityView::Username(canonical(username@))),
    {
        PayloadScope::Chat(ChatIdentity::Username(canonical_username(username)))
    }

    /// Whether both apply to the same.
    pub fn same(&self, other: &PayloadScope) -> (r: bool)
        ensures
            r == (self@ == other@),
    {
        match (self, other) {
            (PayloadScope::Global, PayloadScope::Global) => true,
            (PayloadScope::Chat(a), PayloadScope::Chat(b)) => a.same(b),
            _ => false,
        }
    }
}

/// The identity form of a username: without the single optional leading `@`
/// and in lower case, so that `@Foo`, `foo` and `@FOO` are one chat.
pub open spec fn canonical(username: Seq<char>) -> Seq<char> {
    if username.len() > 0 && username[0] == '@' {
        text::ascii_lowercase(username.skip(1))
    } else {
        text::ascii_lowercase(username)
    }
}

/// The scope of a recipient.
pub open spec fn recipient_scope(recipient: Recipient) -> ScopeView {
    match recipient {
        Recipient::Id(chat_id) => ScopeView::Chat(IdentityView::Id(chat_id.value)),
        Recipient::ChannelUsername(username) => ScopeView::Chat(
            IdentityView::Username(canonical(username@)),
        ),
    }
}

/// The scope of a target message.
pub open spec fn target_scope(target: TargetMessage) -> ScopeView {
    match target {
        TargetMessage::Common { chat_id, message_id } => recipient_scope(chat_id),
        TargetMessage::Inline { inline_message_id } => ScopeView::Global,
    }
}

/// Canonicalizes a channel username into the identity form.
pub fn canonical_username(username: &str) -> (r: String)
    ensures
        r@ == canonical(username@),
{
    let n: usize = username.unicode_len();
    if n > 0 && username.get_char(0) == '@' {
        let rest = username.substring_char(1, n);
        assert(rest@ =~= username@.skip(1));
        text::to_ascii_lowercase(rest)
    } else {
        text::to_ascii_lowercase(username)
    }
}

/// Scope of a recipient field: numeric ids keep their signed id, channel
/// usernames become a textual canonical identity.
pub fn scope_of_recipient(recipient: &Recipient) -> (r: PayloadScope)
    ensures
        r@ == recipient_scope(*recipient),
{
    match recipient {
        Recipient::Id(chat_id) => PayloadScope::id(chat_id.value),
        Recipient::ChannelUsername(username) => PayloadScope::username(username.as_str()),
    }
}

/// Scope of a numeric chat id field.
pub fn chat_id_scope(chat_id: ChatId) -> (r: PayloadScope)
    ensures
        r@ == ScopeView::Chat(IdentityView::Id(chat_id.value)),
{
    PayloadScope::id(chat_id.value)
}

/// Scope of a numeric user id field. Users get their own scope, so per-user
/// windows and penalties apply to exactly one user.
pub fn user_id_scope(user_id: UserId) -> (r: PayloadScope)
    ensures
        r@ == ScopeView::Chat(IdentityView::Id(user_id.value as i64)),
{
    PayloadScope::id(user_id.value as i64)
}

/// Scope of a draft payload: it addresses the draft owner, not a chat.
pub fn draft_chat_id_scope(chat_id: &UserId) -> (r: PayloadScope)
    ensures
        r@ == ScopeView::Chat(IdentityView::Id(chat_id.value as i64)),
{
    user_id_scope(*chat_id)
}

/// Scope of a game target: a common chat addresses the chat, an inline
/// message has no chat identity and falls back to global.
pub fn target_message_scope(target: &TargetMessage) -> (r: PayloadScope)
    ensures
        r@ == target_scope(*target),
{
    match target {
        TargetMessage::Common { chat_id, .. } => scope_of_recipient(chat_id),
        TargetMessage::Inline { .. } => PayloadScope::Global,
    }
}

/// Scope of the chat id of a game score, a plain number.
pub fn game_chat_id_scope(chat_id: u32) -> (r: PayloadScope)
    ensures
        r@ == ScopeView::Chat(IdentityView::Id(chat_id as i64)),
{
    PayloadScope::id(chat_id as i64)
}

/// Scope of the new owner of a transferred gift.
pub fn new_owner_chat_id_scope(chat_id: &ChatId) -> (r: PayloadScope)
    ensures
        r@ == ScopeView::Chat(IdentityView::Id(chat_id.value)),
{
    chat_id_scope(*chat_id)
}

// ---------- chat keys ----------

/// The greatest numeric id of a channel or supergroup: Telegram marks them by
/// ids from here down.
pub const MAX_CHANNEL_ID: i64 = -1_000_000_000_000;

/// How many chats have keys: a key also says the kind of its chat.
pub const CHAT_KEYS: u64 = 0x8000_0000_0000_0000;

/// What kind of chat an identity is: only channels and supergroups are
/// addressed by a username.
pub open spec fn identity_kind(identity: IdentityView) -> WindowChatKind {
    match identity {
        IdentityView::Id(id) => if id <= MAX_CHANNEL_ID {
            WindowChatKind::ChannelOrSupergroup
        } else {
            WindowChatKind::NonChannel
        },
        IdentityView::Username(_) => WindowChatKind::ChannelOrSupergroup,
    }
}

impl ChatIdentity {
    /// What kind of chat the identity is.
    pub fn kind(&self) -> (r: WindowChatKind)
        ensures
            r == identity_kind(self@),
    {
        match self {
            ChatIdentity::Id(id) => if *id <= MAX_CHANNEL_ID {
                WindowChatKind::ChannelOrSupergroup
            } else {
                WindowChatKind::NonChannel
            },
            ChatIdentity::Username(_) => WindowChatKind::ChannelOrSupergroup,
        }
    }
}

/// The chat key of the identity at a position of the directory.
pub open spec fn key_at(position: int, identity: IdentityView) -> u64 {
    if identity_kind(identity) is ChannelOrSupergroup {
        (2 * position + 1) as u64
    } else {
        (2 * position) as u64
    }
}

fn key_from(position: usize, identity: &ChatIdentity) -> (r: OutboundChatKey)
    requires
        position < CHAT_KEYS,
    ensures
        r.value == key_at(position as int, identity@),
        types::chat_kind(r.value) == identity_kind(identity@),
{
    let even: u64 = 2 * (position as u64);
    let value: u64 = match identity.kind() {
        WindowChatKind::ChannelOrSupergroup => even + 1,
        _ => even,
    };
    OutboundChatKey { value }
}

/// What every known identity says, in the order in which they became known.
pub open spec fn identity_views(known: Seq<ChatIdentity>) -> Seq<IdentityView> {
    Seq::new(known.len(), |i: int| known[i]@)
}

/// Whether no identity is listed twice.
pub open spec fn all_differ(known: Seq<IdentityView>) -> bool {
    forall|i: int, j: int| 0 <= i < j < known.len() ==> #[trigger] known[i] != #[trigger] known[j]
}

/// The directory after an identity has been looked up.
pub open spec fn with_identity(known: Seq<IdentityView>, identity: IdentityView) -> Seq<
    IdentityView,
> {
    if known.contains(identity) {
        known
    } else {
        known.push(identity)
    }
}

/// The scope the scheduler accounts for.
pub open spec fn scheduler_scope(known: Seq<IdentityView>, scope: ScopeView) -> OutboundScope {
    match scope {
        ScopeView::Global => OutboundScope::Global,
        ScopeView::Chat(identity) => OutboundScope::Chat(
            OutboundChatKey {
                value: key_at(with_identity(known, identity).index_of(identity), identity),
            },
        ),
    }
}

/// Gives every chat identity its own chat key.
pub struct ChatDirectory {
    pub known: Vec<ChatIdentity>,
}

impl ChatDirectory {
    pub open spec fn view(&self) -> Seq<IdentityView> {
        identity_views(self.known@)
    }

    pub open spec fn wf(&self) -> bool {
        all_differ(self@)
    }

    pub fn new() -> (r: Self)
        ensures
            r@ == Seq::<IdentityView>::empty(),
            r.wf(),
    {
        let r = ChatDirectory { known: Vec::new() };
        assert(r@ =~= Seq::empty());
        r
    }

    /// The key of an identity: the one it was given, or a new one.
    pub fn key_of(&mut self, identity: &ChatIdentity) -> (r: OutboundChatKey)
        requires
            old(self).wf(),
            old(self)@.len() < CHAT_KEYS,
        ensures
            final(self).wf(),
            final(self)@ == with_identity(old(self)@, identity@),
            r.value == key_at(final(self)@.index_of(identity@), identity@),
            types::chat_kind(r.value) == identity_kind(identity@),
    {
        let ghost before = self@;
        let mut i: usize = 0;
        while i < self.known.len()
            invariant
                i <= self.known.len(),
                self@ == before,
                before.len() < CHAT_KEYS,
                all_differ(before),
                forall|j: int| 0 <= j < i ==> #[trigger] before[j] != identity@,
            decreases self.known.len() - i,
        {
            assert(before[i as int] == self.known@[i as int]@);
            if self.known[i].same(identity) {
                proof {
                    assert(before.contains(identity@));
                    lemma_index_is(before, i as int);
                }
                return key_from(i, identity);
            }
            i = i + 1;
        }
        assert(!before.contains(identity@));
        let n: usize = self.known.len();
        self.known.push(identity.duplicate());
        proof {
            assert(self@ =~= before.push(identity@));
            lemma_index_is(self@, n as int);
        }
        key_from(n, identity)
    }

    /// The scope the scheduler accounts for.
    pub fn scope_of(&mut self, scope: &PayloadScope) -> (r: OutboundScope)
        requires
            old(self).wf(),
            old(self)@.len() < CHAT_KEYS,
        ensures
            final(self).wf(),
            r == scheduler_scope(old(self)@, scope@),
            match scope@ {
                ScopeView::Global => final(self)@ == old(self)@,
                ScopeView::Chat(identity) => final(self)@ == with_identity(old(self)@, identity),
            },
    {
        match scope {
            PayloadScope::Global => OutboundScope::Global,
            PayloadScope::Chat(identity) => OutboundScope::Chat(self.key_of(identity)),
        }
    }
}

proof fn lemma_index_is(known: Seq<IdentityView>, i: int)
    requires
        all_differ(known),
        0 <= i < known.len(),
    ensures
        known.index_of(known[i]) == i,
{
    let j = known.index_of(known[i]);
    assert(known.contains(known[i]));
    assert(0 <= j < known.len() && known[j] == known[i]);
    if i < j {
        assert(known[i] != known[j]);
    } else if j < i {
        assert(known[j] != known[i]);
    }
}

// ---------- laws ----------

/// The spelling of a username does not matter: case and one leading `@` make
/// no new identity.
pub proof fn law_spelling_makes_no_new_chat(name: Seq<char>)
    requires
        name.len() > 0 ==> name[0] != '@',
    ensures
        canonical(seq!['@'] + name) == canonical(name),
        canonical(text::ascii_lowercase(name)) == canonical(name),
{
    assert((seq!['@'] + name).skip(1) =~= name);
    let lower = text::ascii_lowercase(name);
    if name.len() > 0 {
        assert(lower[0] == text::ascii_lower(name[0]));
        assert(lower[0] != '@');
    }
    assert(text::ascii_lowercase(lower) =~= lower) by {
        assert forall|i: int| 0 <= i < lower.len() implies text::ascii_lower(lower[i])
            == lower[i] by {
            assert(lower[i] == text::ascii_lower(name[i]));
        }
    }
}

/// Different identities never share a chat key, an identity keeps its key
/// whatever is looked up later, and the key says what kind of chat it is.
pub proof fn law_chats_keep_their_own_keys(
    known: Seq<IdentityView>,
    first: IdentityView,
    second: IdentityView,
)
    requires
        all_differ(known),
        known.len() + 1 < CHAT_KEYS,
    ensures
        ({
            let one = with_identity(known, first);
            let two = with_identity(one, second);
            let early = key_at(one.index_of(first), first);
            let late = key_at(two.index_of(first), first);
            let other = key_at(two.index_of(second), second);
            &&& all_differ(two)
            &&& late == early
            &&& late == other <==> first == second
            &&& types::chat_kind(early) == identity_kind(first)
        }),
{
    let one = with_identity(known, first);
    let two = with_identity(one, second);
    assert(one.contains(first)) by {
        if !known.contains(first) {
            assert(one[known.len() as int] == first);
        }
    }
    let i = one.index_of(first);
    assert(0 <= i < one.len() && one[i] == first);
    assert(all_differ(one));
    assert(two[i] == first);
    assert(all_differ(two));
    lemma_index_is(one, i);
    lemma_index_is(two, i);
    assert(two.contains(second)) by {
        if !one.contains(second) {
            assert(two[one.len() as int] == second);
        }
    }
    let j = two.index_of(second);
    assert(two[j] == second);
}

/// What the key of a chat tells of it: a username, or an id from one thousand
/// billion below zero down, is a channel or supergroup and has an odd key;
/// every other id has an even one.
pub proof fn law_the_key_tells_channels_apart(known: Seq<IdentityView>, identity: IdentityView)
    requires
        all_differ(known),
        known.len() + 1 < CHAT_KEYS,
    ensures
        scheduler_scope(known, ScopeView::Global) is Global,
        scheduler_scope(known, ScopeView::Chat(identity)) matches OutboundScope::Chat(key)
            && match identity {
            IdentityView::Username(_) => key.value % 2 == 1,
            IdentityView::Id(id) => key.value % 2 == 1 <==> id <= -1_000_000_000_000,
        },
{
    law_chats_keep_their_own_keys(known, identity, identity);
}

/// The spelling of a username that counts: without one leading `@`, letter by
/// letter, ASCII capitals in lower case and everything else as it is.
pub proof fn law_usernames_are_spelled_in_lower_case(name: Seq<char>, i: int)
    ensures
        ({
            let skipped: int = if name.len() > 0 && name[0] == '@' {
                1
            } else {
                0
            };
            &&& canonical(name).len() == name.len() - skipped
            &&& 0 <= i < name.len() - skipped ==> {
                let c = name[i + skipped];
                let told = canonical(name)[i];
                &&& 'A' <= c && c <= 'Z' ==> told as u32 == c as u32 + 32
                &&& !('A' <= c && c <= 'Z') ==> told == c
            }
        }),
{
}

} // verus!
