use vstd::prelude::*;

use crate::maze::{Maze, TilePos};

verus! {

/// The protocol version that clients and the server must share.
pub const PROTOCOL_VERSION: u16 = 1;

/// The most players that the server keeps at once.
pub const MAX_CLIENTS: usize = 64;

/// The longest name, in chars, that a player keeps.
pub const NAME_LIMIT: usize = 20;

/// Whether `c` has the Unicode general category Cc (control).
pub uninterp spec fn is_control_char(c: char) -> bool;

/// The text that `str::trim` leaves of `s`.
pub uninterp spec fn trimmed(s: Seq<char>) -> Seq<char>;

/// Whether `c` has the Unicode White_Space property.
pub uninterp spec fn is_white_space(c: char) -> bool;

/// `char::is_control` from std: whether `c` is in the Unicode category Cc.
#[verifier::external_body]
fn char_is_control(c: char) -> (r: bool)
    ensures
        r == is_control_char(c),
{
    c.is_control()
}

/// `str::trim` from std: `s` without leading and trailing white space (the
/// Unicode White_Space property), so empty exactly when every char of `s` is
/// white space.
#[verifier::external_body]
fn trim_text(s: &str) -> (r: &str)
    ensures
        r@ == trimmed(s@),
        r@.len() == 0 <==> forall|i: int| 0 <= i < s@.len() ==> is_white_space(#[trigger] s@[i]),
{
    s.trim()
}

/// `FromIterator<char>` for `String` from std: the chars in order.
#[verifier::external_body]
fn text_of(chars: &Vec<char>) -> (s: String)
    ensures
        s@ == chars@,
{
    chars.iter().collect()
}

/// The chars of `s` that are not control chars, in order.
pub open spec fn printable(s: Seq<char>) -> Seq<char>
    decreases s.len(),
{
    if s.len() == 0 {
        Seq::empty()
    } else {
        let p = printable(s.drop_last());
        if is_control_char(s.last()) {
            p
        } else {
            p.push(s.last())
        }
    }
}

/// At most the first `NAME_LIMIT` chars of `s`.
pub open spec fn capped(s: Seq<char>) -> Seq<char> {
    if s.len() <= NAME_LIMIT {
        s
    } else {
        s.take(NAME_LIMIT as int)
    }
}

/// The name that a player gets for the requested `name`: its first twenty
/// chars that are not control chars, or `Player` where these are all white space.
pub open spec fn cleaned_name(name: Seq<char>) -> Seq<char> {
    let kept = capped(printable(name));
    if forall|i: int| 0 <= i < kept.len() ==> is_white_space(#[trigger] kept[i]) {
        "Player"@
    } else {
        kept
    }
}

/// The name shown for a player who asked for `name`.
pub fn clean_name(name: &str) -> (r: String)
    ensures
        r@ == cleaned_name(name@),
{
    let count: usize = name.unicode_len();
    let mut kept: Vec<char> = Vec::new();
    let mut i: usize = 0;
    while i < count
        invariant
            count == name@.len(),
            0 <= i <= count,
            kept@ == capped(printable(name@.take(i as int))),
        decreases count - i,
    {
        let c = name.get_char(i);
        proof {
            assert(name@.take(i + 1).drop_last() == name@.take(i as int));
            assert(name@.take(i + 1).last() == c);
        }
        if !char_is_control(c) && kept.len() < NAME_LIMIT {
            kept.push(c);
        }
        proof {
            let p = printable(name@.take(i as int));
            if !is_control_char(c) && p.len() >= NAME_LIMIT {
                assert(p.push(c).take(NAME_LIMIT as int) =~= capped(p));
            }
        }
        i = i + 1;
    }
    proof {
        assert(name@.take(count as int) == name@);
    }
    let text = text_of(&kept);
    if trim_text(text.as_str()).is_empty() {
        String::from_str("Player")
    } else {
        text
    }
}

/// A blank or control-only request still yields a name with some visible char,
/// and a kept name holds at most twenty chars.
pub proof fn lemma_clean_name_not_blank(name: Seq<char>)
    ensures
        cleaned_name(name) == "Player"@ || exists|i: int|
            0 <= i < cleaned_name(name).len() && !is_white_space(#[trigger] cleaned_name(name)[i]),
        cleaned_name(name) == "Player"@ || cleaned_name(name).len() <= NAME_LIMIT,
        NAME_LIMIT == 20,
{
}

/// What `printable` keeps holds no control char.
proof fn lemma_printable_clean(s: Seq<char>)
    ensures
        forall|i: int| 0 <= i < printable(s).len() ==> !is_control_char(#[trigger] printable(s)[i]),
    decreases s.len(),
{
    if s.len() > 0 {
        let p = printable(s.drop_last());
        lemma_printable_clean(s.drop_last());
        assert forall|i: int| 0 <= i < printable(s).len() implies !is_control_char(
            #[trigger] printable(s)[i],
        ) by {
            if i < p.len() {
                assert(printable(s)[i] == p[i]);
            }
        }
    }
}

/// Text without control chars keeps every char.
proof fn lemma_printable_keeps(s: Seq<char>)
    requires
        forall|i: int| 0 <= i < s.len() ==> !is_control_char(#[trigger] s[i]),
    ensures
        printable(s) == s,
    decreases s.len(),
{
    if s.len() > 0 {
        lemma_printable_keeps(s.drop_last());
        assert(s.drop_last().push(s.last()) =~= s);
    }
}

/// Cleaning a name that did not fall back on `Player` leaves it as it is.
pub proof fn lemma_clean_name_idempotent(name: Seq<char>)
    requires
        cleaned_name(name) != "Player"@,
    ensures
        cleaned_name(cleaned_name(name)) == cleaned_name(name),
{
    let kept = capped(printable(name));
    lemma_printable_clean(name);
    assert(cleaned_name(name) == kept);
    assert forall|i: int| 0 <= i < kept.len() implies !is_control_char(#[trigger] kept[i]) by {
        assert(kept[i] == printable(name)[i]);
    }
    lemma_printable_keeps(kept);
    assert(capped(kept) == kept);
}

/// What came back for one request to join.
#[derive(Debug, Clone, Copy, PartialEq, Eq, Structural)]
pub enum HandshakeReply {
    /// Nothing arrived before the wait ran out.
    Silence,
    /// The server welcomed the client.
    Welcome,
    /// The server refused the client, with a reason.
    Refused,
    /// Some other message arrived.
    Other,
}

/// What the client does after a request to join.
#[derive(Debug, Clone, Copy, PartialEq, Eq, Structural)]
pub enum HandshakeAction {
    /// Keep the connection: the server welcomed the client.
    Accept,
    /// Fail with the server's reason.
    Fail,
    /// Send the request again.
    Retry,
    /// Fail: the server did not answer any of the requests.
    GiveUp,
}

/// How many requests to join a client sends before it gives up.
pub const JOIN_ATTEMPTS: u32 = 5;

/// The client's next move after the request numbered `attempt` (from 0) got
/// `reply`: a welcome or a refusal ends the handshake, anything else sends
/// the request again until `JOIN_ATTEMPTS` requests have gone out.
pub open spec fn handshake_answer(attempt: u32, reply: HandshakeReply) -> HandshakeAction {
    match reply {
        HandshakeReply::Welcome => HandshakeAction::Accept,
        HandshakeReply::Refused => HandshakeAction::Fail,
        _ => if attempt + 1 < JOIN_ATTEMPTS {
            HandshakeAction::Retry
        } else {
            HandshakeAction::GiveUp
        },
    }
}

/// A client sends five requests to join before it gives up: after request
/// `attempt` (from 0) a silence or an unexpected message is answered alike,
/// with another request while fewer than five have gone out and with giving
/// up after the fifth; a welcome is always accepted and a refusal always ends
/// the handshake.
pub proof fn lemma_five_join_requests(attempt: u32)
    ensures
        JOIN_ATTEMPTS == 5,
        handshake_answer(attempt, HandshakeReply::Silence) == handshake_answer(
            attempt,
            HandshakeReply::Other,
        ),
        handshake_answer(attempt, HandshakeReply::Silence) == HandshakeAction::Retry <==> attempt < 4,
        handshake_answer(attempt, HandshakeReply::Silence) == HandshakeAction::GiveUp <==> attempt
            >= 4,
        handshake_answer(attempt, HandshakeReply::Welcome) == HandshakeAction::Accept,
        handshake_answer(attempt, HandshakeReply::Refused) == HandshakeAction::Fail,
{
}

/// Decides the client's next move in the join handshake.
pub fn handshake_step(attempt: u32, reply: HandshakeReply) -> (r: HandshakeAction)
    ensures
        r == handshake_answer(attempt, reply),
        reply == HandshakeReply::Welcome ==> r == HandshakeAction::Accept,
        reply == HandshakeReply::Refused ==> r == HandshakeAction::Fail,
        reply == HandshakeReply::Silence || reply == HandshakeReply::Other ==> (r
            == HandshakeAction::Retry <==> attempt < 4) && (r == HandshakeAction::GiveUp <==> attempt
            >= 4),
{
    match reply {
        HandshakeReply::Welcome => HandshakeAction::Accept,
        HandshakeReply::Refused => HandshakeAction::Fail,
        _ => if attempt < JOIN_ATTEMPTS - 1 {
            HandshakeAction::Retry
        } else {
            HandshakeAction::GiveUp
        },
    }
}

/// How the server answers a request to join.
#[derive(Debug, Clone, Copy, PartialEq, Eq, Structural)]
pub enum Admission {
    /// The client speaks another protocol version.
    VersionMismatch,
    /// The server already keeps `MAX_CLIENTS` players and this client is new.
    ServerFull,
    /// The client joins, or is welcomed again if it had joined.
    Admit,
}

impl Admission {
    /// The error text sent back for a refusal.
    pub open spec fn refusal(self) -> Option<Seq<char>> {
        match self {
            Admission::VersionMismatch => Some("client/server version mismatch"@),
            Admission::ServerFull => Some("server is full"@),
            Admission::Admit => None,
        }
    }

    /// The error text sent back for a refusal, none for an admission.
    pub fn refusal_text(&self) -> (r: Option<String>)
        ensures
            r matches Some(t) ==> self.refusal() == Some(t@),
            r is None <==> self.refusal() is None,
    {
        match self {
            Admission::VersionMismatch => Some(String::from_str("client/server version mismatch")),
            Admission::ServerFull => Some(String::from_str("server is full")),
            Admission::Admit => None,
        }
    }
}

/// The server's answer to a join request with protocol `version`, from a
/// client that has or has not `joined` before, while `players` are kept.
pub open spec fn admission_for(version: u16, joined: bool, players: usize) -> Admission {
    if version != PROTOCOL_VERSION {
        Admission::VersionMismatch
    } else if !joined && players >= MAX_CLIENTS {
        Admission::ServerFull
    } else {
        Admission::Admit
    }
}

/// Decides how the server answers a join request.
pub fn decide_admission(version: u16, joined: bool, players: usize) -> (r: Admission)
    ensures
        r == admission_for(version, joined, players),
{
    if version != PROTOCOL_VERSION {
        Admission::VersionMismatch
    } else if !joined && players >= MAX_CLIENTS {
        Admission::ServerFull
    } else {
        Admission::Admit
    }
}

/// A client that already joined is never turned away for a full server, a
/// server below its limit of 64 players admits every client of the right
/// version (version 1), a client of another version is always refused for
/// it, and a new client of the right version is refused exactly when the
/// server is full.
pub proof fn lemma_admission_rules(version: u16, joined: bool, players: usize)
    ensures
        version == PROTOCOL_VERSION && joined ==> admission_for(version, joined, players)
            == Admission::Admit,
        version == PROTOCOL_VERSION && players < MAX_CLIENTS ==> admission_for(
            version,
            joined,
            players,
        ) == Admission::Admit,
        admission_for(version, joined, players) == Admission::ServerFull ==> players >= MAX_CLIENTS,
        version != PROTOCOL_VERSION ==> admission_for(version, joined, players)
            == Admission::VersionMismatch,
        version == PROTOCOL_VERSION && !joined && players >= MAX_CLIENTS ==> admission_for(
            version,
            joined,
            players,
        ) == Admission::ServerFull,
        PROTOCOL_VERSION == 1,
        MAX_CLIENTS == 64,
{
}

impl Maze {
    /// The spawn of the player numbered `player_id` (from 1) on joining: the
    /// spawns are handed out in turn.
    pub fn spawn_tile(&self, player_id: u64) -> (p: TilePos)
        requires
            1 <= player_id <= usize::MAX,
            self.spawns@.len() > 0,
        ensures
            p == self.spawns@[(player_id - 1) % (self.spawns@.len() as int)],
    {
        let index: usize = (player_id as usize - 1) % self.spawns.len();
        self.spawns[index]
    }

    /// The spawn of the player numbered `player_id` after being hit: the one
    /// after its joining spawn, in turn.
    pub fn respawn_tile(&self, player_id: u64) -> (p: TilePos)
        requires
            player_id <= usize::MAX,
            self.spawns@.len() > 0,
        ensures
            p == self.spawns@[(player_id as int) % (self.spawns@.len() as int)],
    {
        let index: usize = (player_id as usize) % self.spawns.len();
        self.spawns[index]
    }
}

} // verus!
