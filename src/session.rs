use vstd::prelude::*;
use vstd::string::*;
use crate::json::{
    document_text, echo_frame, echo_frame_text, encode_room, error_frame, error_frame_text,
    snapshot_frame, snapshot_text,
};
use crate::presence::{disconnect_payload, event_text, Instruction};
use crate::room::QuizRoom;
use crate::text::{trim_of, trimmed};
use crate::ROOM_TTL_SECONDS;

verus! {

/// The channel on which disconnect events travel between processes.
pub open spec fn disconnect_channel() -> Seq<char> {
    "disconnect"@
}

/// The store key of a room's document.
pub open spec fn room_key_text(room_code: Seq<char>) -> Seq<char> {
    "quiz_room:"@ + room_code
}

pub open spec fn not_found_notice() -> Seq<char> {
    "Not found."@
}

pub open spec fn internal_error_notice() -> Seq<char> {
    "Internal server error."@
}

/// Whether a key written at each of the times `writes`, each time to expire
/// `ttl` seconds later, is still kept at time `now`.
pub open spec fn kept_at(writes: Seq<int>, ttl: int, now: int) -> bool {
    exists|i: int| 0 <= i < writes.len() && #[trigger] writes[i] <= now < writes[i] + ttl
}

/// A room document whose membership is written again, with the full time to
/// live, less than that time after each earlier write is kept without a gap
/// from its first write until the time to live has run out after its last.
pub proof fn lemma_refreshed_room_never_expires(writes: Seq<int>, now: int)
    requires
        writes.len() > 0,
        forall|i: int|
            0 <= i < writes.len() - 1 ==> writes[i] <= #[trigger] writes[i + 1] < writes[i]
                + ROOM_TTL_SECONDS,
        writes[0] <= now < writes.last() + ROOM_TTL_SECONDS,
    ensures
        kept_at(writes, ROOM_TTL_SECONDS as int, now),
    decreases writes.len(),
{
    let n = writes.len() - 1;
    if now >= writes[n] {
        assert(writes[n] <= now < writes[n] + ROOM_TTL_SECONDS);
    } else {
        let p = writes.drop_last();
        let j = n - 1;
        assert(j >= 0);
        assert(writes[j] <= writes[j + 1] < writes[j] + ROOM_TTL_SECONDS);
        assert(p.last() == writes[j]);
        assert forall|i: int| 0 <= i < p.len() - 1 implies p[i] <= #[trigger] p[i + 1] < p[i]
            + ROOM_TTL_SECONDS by {
            assert(writes[i] <= writes[i + 1] < writes[i] + ROOM_TTL_SECONDS);
        }
        lemma_refreshed_room_never_expires(p, now);
        let i = choose|i: int| 0 <= i < p.len() && #[trigger] p[i] <= now < p[i] + ROOM_TTL_SECONDS;
        assert(writes[i] == p[i]);
    }
}

/// `quiz_room:<code>`.
pub fn room_key(room_code: &str) -> (r: String)
    ensures
        r@ == room_key_text(room_code@),
{
    let mut out = String::new();
    out.append("quiz_room:");
    out.append(room_code);
    out
}

/// Where a join stands while it waits on outside work.
#[derive(Debug, PartialEq, Eq)]
pub enum JoinStage {
    /// The room's document has been asked for.
    FetchingRoom,
    /// The quiz that the document names is being looked up.
    CheckingQuiz,
    /// The updated document is being written.
    Committing,
}

/// The life of one connection.
#[derive(Debug, PartialEq, Eq)]
pub enum Phase {
    Connecting,
    Joining(JoinStage),
    Active,
    Closing,
    Closed,
}

/// What reading a room's document from the store gave.
pub enum RoomLookup {
    /// The store could not be reached, or refused the command.
    Unavailable,
    /// No document is kept under the key.
    Missing,
    /// A document is kept, but it does not read as a room.
    Corrupt,
    Found(QuizRoom),
}

/// A frame received from the client.
pub enum Inbound {
    Text(String),
    Ping(Vec<u8>),
    Close,
    /// The transport failed.
    Failed,
    /// Any other frame; it is ignored.
    Other,
}

/// Work that a session asks of the code that runs it.
#[derive(Debug, PartialEq, Eq)]
pub enum Action {
    /// Read the document kept under this key.
    FetchRoom(String),
    /// Find out whether this quiz exists and is not deleted.
    CheckQuiz(String),
    /// Publish a payload on a channel.
    Publish(String, String),
    /// Write a document under a key, in one transaction, to expire after this many seconds.
    Persist(String, String, u64),
    /// Register this session's handle for a room code and client id.
    Register(String, String, u64),
    /// Send a text frame to the client.
    Send(String),
    /// Answer a ping.
    Pong(Vec<u8>),
    /// Close the socket.
    Close,
    /// Drop the registry entry of a room code and client id if it still holds this handle.
    Release(String, String, u64),
}

/// An action with its texts as character sequences.
pub enum ActionView {
    FetchRoom(Seq<char>),
    CheckQuiz(Seq<char>),
    Publish(Seq<char>, Seq<char>),
    Persist(Seq<char>, Seq<char>, u64),
    Register(Seq<char>, Seq<char>, u64),
    Send(Seq<char>),
    Pong(Seq<u8>),
    Close,
    Release(Seq<char>, Seq<char>, u64),
}

impl View for Action {
    type V = ActionView;

    open spec fn view(&self) -> ActionView {
        match self {
            Action::FetchRoom(k) => ActionView::FetchRoom(k@),
            Action::CheckQuiz(q) => ActionView::CheckQuiz(q@),
            Action::Publish(c, p) => ActionView::Publish(c@, p@),
            Action::Persist(k, d, t) => ActionView::Persist(k@, d@, *t),
            Action::Register(r, c, h) => ActionView::Register(r@, c@, *h),
            Action::Send(t) => ActionView::Send(t@),
            Action::Pong(b) => ActionView::Pong(b@),
            Action::Close => ActionView::Close,
            Action::Release(r, c, h) => ActionView::Release(r@, c@, *h),
        }
    }
}

pub open spec fn views(v: Seq<Action>) -> Seq<ActionView> {
    v.map_values(|a: Action| a@)
}

/// One error frame, then the close instruction.
pub open spec fn rejection(message: Seq<char>) -> Seq<ActionView> {
    seq![ActionView::Send(error_frame_text(message)), ActionView::Close]
}

fn reject(message: &str) -> (r: Vec<Action>)
    ensures
        views(r@) == rejection(message@),
{
    let mut out = Vec::new();
    out.push(Action::Send(error_frame(message)));
    out.push(Action::Close);
    proof {
        assert(views(out@) =~= rejection(message@));
    }
    out
}

fn one(a: Action) -> (r: Vec<Action>)
    ensures
        views(r@) == seq![a@],
{
    let mut out = Vec::new();
    out.push(a);
    proof {
        assert(views(out@) =~= seq![a@]);
    }
    out
}

/// The state machine of one connection to a room.
pub struct Session {
    pub room_code: String,
    /// The fingerprint of the connecting client.
    pub client: String,
    pub nickname: String,
    /// The handle under which the registry knows this session.
    pub handle: u64,
    pub phase: Phase,
    /// The room's document, from when it was read until the join completes.
    pub room: Option<QuizRoom>,
    /// Whether the registry closed this session because a newer connection
    /// of the same client replaced it.
    pub superseded: bool,
}

impl Session {
    /// While a join looks up the quiz or writes the document, the document is held and well formed.
    pub open spec fn wf(&self) -> bool {
        match self.phase {
            Phase::Joining(JoinStage::CheckingQuiz) | Phase::Joining(JoinStage::Committing) => {
                self.room is Some && self.room->Some_0.wf()
            },
            _ => true,
        }
    }

    /// The fields that no event changes.
    pub open spec fn same_identity(&self, other: &Session) -> bool {
        self.room_code@ == other.room_code@ && self.client@ == other.client@ && self.nickname@
            == other.nickname@ && self.handle == other.handle
    }

    /// A session whose socket is up, and whose caller and fingerprint are known.
    pub fn new(room_code: String, client: String, nickname: String, handle: u64) -> (r: Self)
        ensures
            r.wf(),
            r.room_code@ == room_code@,
            r.client@ == client@,
            r.nickname@ == nickname@,
            r.handle == handle,
            r.phase == Phase::Connecting,
            r.room is None,
            !r.superseded,
    {
        Session {
            room_code,
            client,
            nickname,
            handle,
            phase: Phase::Connecting,
            room: None,
            superseded: false,
        }
    }

    /// Begins the join by asking for the room's document.
    pub fn start(&mut self) -> (r: Vec<Action>)
        requires
            old(self).wf(),
        ensures
            final(self).wf(),
            final(self).same_identity(old(self)),
            old(self).phase is Connecting ==> {
                &&& final(self).phase == Phase::Joining(JoinStage::FetchingRoom)
                &&& views(r@) == seq![ActionView::FetchRoom(room_key_text(old(self).room_code@))]
            },
            !(old(self).phase is Connecting) ==> final(self).phase == old(self).phase && r@.len()
                == 0,
    {
        match self.phase {
            Phase::Connecting => {
                self.phase = Phase::Joining(JoinStage::FetchingRoom);
                one(Action::FetchRoom(room_key(self.room_code.as_str())))
            },
            _ => Vec::new(),
        }
    }

    /// Goes on with the join once the room's document has been read: a
    /// missing or unreadable document rejects the join as not found, an
    /// unreachable store as an internal error; otherwise the quiz that the
    /// document names is looked up.
    pub fn on_room_fetched(&mut self, lookup: RoomLookup) -> (r: Vec<Action>)
        requires
            old(self).wf(),
        ensures
            final(self).wf(),
            final(self).same_identity(old(self)),
            old(self).phase == Phase::Joining(JoinStage::FetchingRoom) ==> match lookup {
                RoomLookup::Found(doc) => if doc.wf() {
                    &&& final(self).phase == Phase::Joining(JoinStage::CheckingQuiz)
                    &&& final(self).room == Some(doc)
                    &&& views(r@) == seq![ActionView::CheckQuiz(doc.quiz_id@)]
                } else {
                    &&& final(self).phase == Phase::Closing
                    &&& views(r@) == rejection(not_found_notice())
                },
                RoomLookup::Unavailable => {
                    &&& final(self).phase == Phase::Closing
                    &&& views(r@) == rejection(internal_error_notice())
                },
                _ => {
                    &&& final(self).phase == Phase::Closing
                    &&& views(r@) == rejection(not_found_notice())
                },
            },
            old(self).phase != Phase::Joining(JoinStage::FetchingRoom) ==> final(self).phase
                == old(self).phase && final(self).room == old(self).room && r@.len() == 0,
    {
        match self.phase {
            Phase::Joining(JoinStage::FetchingRoom) => {},
            _ => {
                return Vec::new();
            },
        }
        match lookup {
            RoomLookup::Found(doc) => {
                if doc.tables_unique() {
                    let quiz = doc.quiz_id.clone();
                    self.room = Some(doc);
                    self.phase = Phase::Joining(JoinStage::CheckingQuiz);
                    one(Action::CheckQuiz(quiz))
                } else {
                    self.phase = Phase::Closing;
                    reject("Not found.")
                }
            },
            RoomLookup::Unavailable => {
                self.phase = Phase::Closing;
                reject("Internal server error.")
            },
            _ => {
                self.phase = Phase::Closing;
                reject("Not found.")
            },
        }
    }

    /// Goes on with the join once the quiz has been looked up. A quiz that is
    /// missing or deleted rejects the join as not found. Otherwise this client
    /// becomes a member under its nickname with a score of zero; if it was a
    /// member already, a disconnect event for it is published first, so that
    /// other processes drop the session they hold for it; then the document is
    /// written with a full time to live.
    pub fn on_quiz_checked(&mut self, quiz_exists: bool) -> (r: Vec<Action>)
        requires
            old(self).wf(),
        ensures
            final(self).wf(),
            final(self).same_identity(old(self)),
            old(self).phase == Phase::Joining(JoinStage::CheckingQuiz) ==> if quiz_exists {
                let before = old(self).room->Some_0;
                let after = final(self).room->Some_0;
                let write = ActionView::Persist(
                    room_key_text(old(self).room_code@),
                    document_text(after),
                    ROOM_TTL_SECONDS,
                );
                &&& final(self).phase == Phase::Joining(JoinStage::Committing)
                &&& final(self).room is Some
                &&& after.same_header(&before)
                &&& after.player_map() == before.player_map().insert(
                    old(self).client@,
                    old(self).nickname@,
                )
                &&& after.score_map() == before.score_map().insert(old(self).client@, 0)
                &&& views(r@) == if before.player_map().contains_key(old(self).client@) {
                    seq![
                        ActionView::Publish(
                            disconnect_channel(),
                            event_text(old(self).room_code@, old(self).client@),
                        ),
                        write,
                    ]
                } else {
                    seq![write]
                }
            } else {
                &&& final(self).phase == Phase::Closing
                &&& final(self).room == old(self).room
                &&& views(r@) == rejection(not_found_notice())
            },
            old(self).phase != Phase::Joining(JoinStage::CheckingQuiz) ==> final(self).phase
                == old(self).phase && final(self).room == old(self).room && r@.len() == 0,
    {
        match self.phase {
            Phase::Joining(JoinStage::CheckingQuiz) => {},
            _ => {
                return Vec::new();
            },
        }
        if !quiz_exists {
            self.phase = Phase::Closing;
            return reject("Not found.");
        }
        let mut doc = self.room.take().unwrap();
        let mut out = Vec::new();
        if doc.has_player(self.client.as_str()) {
            let payload = disconnect_payload(self.room_code.as_str(), self.client.as_str());
            out.push(Action::Publish("disconnect".to_owned(), payload));
        }
        doc.enroll(self.client.as_str(), self.nickname.as_str());
        let text = encode_room(&doc);
        out.push(Action::Persist(room_key(self.room_code.as_str()), text, ROOM_TTL_SECONDS));
        self.room = Some(doc);
        self.phase = Phase::Joining(JoinStage::Committing);
        proof {
            let before = old(self).room->Some_0;
            let write = ActionView::Persist(
                room_key_text(old(self).room_code@),
                document_text(self.room->Some_0),
                ROOM_TTL_SECONDS,
            );
            if before.player_map().contains_key(old(self).client@) {
                assert(views(out@) =~= seq![
                    ActionView::Publish(
                        disconnect_channel(),
                        event_text(old(self).room_code@, old(self).client@),
                    ),
                    write,
                ]);
            } else {
                assert(views(out@) =~= seq![write]);
            }
        }
        out
    }

    /// Ends the join once the document has been written: on success the
    /// session is registered and sent the whole room state; a failed write
    /// closes it with an internal error.
    pub fn on_persisted(&mut self, written: bool) -> (r: Vec<Action>)
        requires
            old(self).wf(),
        ensures
            final(self).wf(),
            final(self).same_identity(old(self)),
            old(self).phase == Phase::Joining(JoinStage::Committing) ==> if written {
                &&& final(self).phase == Phase::Active
                &&& final(self).room is None
                &&& views(r@) == seq![
                    ActionView::Register(old(self).room_code@, old(self).client@, old(self).handle),
                    ActionView::Send(snapshot_text(old(self).room->Some_0)),
                ]
            } else {
                &&& final(self).phase == Phase::Closing
                &&& final(self).room is None
                &&& views(r@) == rejection(internal_error_notice())
            },
            old(self).phase != Phase::Joining(JoinStage::Committing) ==> final(self).phase
                == old(self).phase && final(self).room == old(self).room && r@.len() == 0,
    {
        match self.phase {
            Phase::Joining(JoinStage::Committing) => {},
            _ => {
                return Vec::new();
            },
        }
        let doc = self.room.take().unwrap();
        if !written {
            self.phase = Phase::Closing;
            return reject("Internal server error.");
        }
        let mut out = Vec::new();
        out.push(Action::Register(self.room_code.clone(), self.client.clone(), self.handle));
        out.push(Action::Send(snapshot_frame(&doc)));
        self.phase = Phase::Active;
        proof {
            assert(views(out@) =~= seq![
                ActionView::Register(old(self).room_code@, old(self).client@, old(self).handle),
                ActionView::Send(snapshot_text(doc)),
            ]);
        }
        out
    }

    /// Answers a frame from the client while active: text is echoed back,
    /// a ping is answered with a pong, a close or a transport failure closes
    /// the session, anything else is ignored.
    pub fn on_inbound(&mut self, frame: Inbound) -> (r: Vec<Action>)
        requires
            old(self).wf(),
        ensures
            final(self).wf(),
            final(self).same_identity(old(self)),
            final(self).room == old(self).room,
            old(self).phase is Active ==> match frame {
                Inbound::Text(t) => final(self).phase is Active && views(r@) == seq![
                    ActionView::Send(echo_frame_text(trim_of(t@))),
                ],
                Inbound::Ping(b) => final(self).phase is Active && views(r@) == seq![
                    ActionView::Pong(b@),
                ],
                Inbound::Close | Inbound::Failed => final(self).phase is Closing && views(r@)
                    == seq![ActionView::Close],
                Inbound::Other => final(self).phase is Active && r@.len() == 0,
            },
            !(old(self).phase is Active) ==> final(self).phase == old(self).phase && r@.len() == 0,
    {
        match self.phase {
            Phase::Active => {},
            _ => {
                return Vec::new();
            },
        }
        match frame {
            Inbound::Text(t) => {
                let body = trimmed(t.as_str());
                one(Action::Send(echo_frame(body.as_str())))
            },
            Inbound::Ping(b) => one(Action::Pong(b)),
            Inbound::Close | Inbound::Failed => {
                self.phase = Phase::Closing;
                one(Action::Close)
            },
            Inbound::Other => Vec::new(),
        }
    }

    /// Carries out what the registry tells this session: a frame is passed
    /// on to the client; a close instruction, which the registry gives only to
    /// a session that a newer connection replaced, closes it at once.
    pub fn on_instruction(&mut self, instruction: Instruction) -> (r: Vec<Action>)
        requires
            old(self).wf(),
        ensures
            final(self).wf(),
            final(self).same_identity(old(self)),
            final(self).room == old(self).room,
            old(self).phase is Closed ==> final(self).phase == old(self).phase && r@.len() == 0
                && final(self).superseded == old(self).superseded,
            !(old(self).phase is Closed) ==> match instruction {
                Instruction::Send(_, t) => final(self).phase == old(self).phase && views(r@)
                    == seq![ActionView::Send(t@)] && final(self).superseded == old(
                    self,
                ).superseded,
                Instruction::Close(_) => final(self).phase is Closing && final(self).superseded
                    && views(r@) == seq![ActionView::Close],
            },
    {
        match self.phase {
            Phase::Closed => {
                return Vec::new();
            },
            _ => {},
        }
        match instruction {
            Instruction::Send(_, t) => one(Action::Send(t)),
            Instruction::Close(_) => {
                self.phase = Phase::Closing;
                self.superseded = true;
                one(Action::Close)
            },
        }
    }

    /// The socket is gone: the session reads the room's document once more
    /// to drop this client from it. A superseded session leaves the document
    /// to its successor and only releases its registry entry.
    pub fn on_stopped(&mut self) -> (r: Vec<Action>)
        requires
            old(self).wf(),
        ensures
            final(self).wf(),
            final(self).same_identity(old(self)),
            old(self).phase is Closed ==> final(self).phase == old(self).phase && r@.len() == 0,
            !(old(self).phase is Closed) && !old(self).superseded ==> {
                &&& final(self).phase is Closing
                &&& final(self).room is None
                &&& views(r@) == seq![ActionView::FetchRoom(room_key_text(old(self).room_code@))]
            },
            !(old(self).phase is Closed) && old(self).superseded ==> {
                &&& final(self).phase is Closed
                &&& final(self).room is None
                &&& views(r@) == seq![
                    ActionView::Release(old(self).room_code@, old(self).client@, old(self).handle),
                ]
            },
    {
        match self.phase {
            Phase::Closed => Vec::new(),
            _ => {
                self.room = None;
                if self.superseded {
                    self.phase = Phase::Closed;
                    one(Action::Release(self.room_code.clone(), self.client.clone(), self.handle))
                } else {
                    self.phase = Phase::Closing;
                    one(Action::FetchRoom(room_key(self.room_code.as_str())))
                }
            },
        }
    }

    /// Ends the session once the document has been read for clean up: a
    /// readable document that holds this client is written back without it,
    /// with a full time to live; one that does not is left alone; in every
    /// case the registry entry is released.
    pub fn on_cleanup_fetched(&mut self, lookup: RoomLookup) -> (r: Vec<Action>)
        requires
            old(self).wf(),
        ensures
            final(self).wf(),
            final(self).same_identity(old(self)),
            old(self).phase is Closing ==> {
                let release = ActionView::Release(
                    old(self).room_code@,
                    old(self).client@,
                    old(self).handle,
                );
                &&& final(self).phase is Closed
                &&& match lookup {
                    RoomLookup::Found(doc) => if doc.wf() && (doc.player_map().contains_key(
                        old(self).client@,
                    ) || doc.score_map().contains_key(old(self).client@)) {
                        exists|after: QuizRoom|
                            {
                                &&& after.wf()
                                &&& after.same_header(&doc)
                                &&& after.player_map() == doc.player_map().remove(
                                    old(self).client@,
                                )
                                &&& after.score_map() == doc.score_map().remove(old(self).client@)
                                &&& views(r@) == seq![
                                    ActionView::Persist(
                                        room_key_text(old(self).room_code@),
                                        document_text(after),
                                        ROOM_TTL_SECONDS,
                                    ),
                                    release,
                                ]
                            }
                    } else {
                        views(r@) == seq![release]
                    },
                    _ => views(r@) == seq![release],
                }
            },
            !(old(self).phase is Closing) ==> final(self).phase == old(self).phase && r@.len()
                == 0,
    {
        match self.phase {
            Phase::Closing => {},
            _ => {
                return Vec::new();
            },
        }
        self.phase = Phase::Closed;
        let release = Action::Release(self.room_code.clone(), self.client.clone(), self.handle);
        match lookup {
            RoomLookup::Found(doc) => {
                if doc.tables_unique() && doc.has_entry(self.client.as_str()) {
                    let mut after = doc;
                    after.dismiss(self.client.as_str());
                    let text = encode_room(&after);
                    let mut out = Vec::new();
                    out.push(
                        Action::Persist(room_key(self.room_code.as_str()), text, ROOM_TTL_SECONDS),
                    );
                    out.push(release);
                    proof {
                        assert(views(out@) =~= seq![
                            ActionView::Persist(
                                room_key_text(old(self).room_code@),
                                document_text(after),
                                ROOM_TTL_SECONDS,
                            ),
                            ActionView::Release(
                                old(self).room_code@,
                                old(self).client@,
                                old(self).handle,
                            ),
                        ]);
                    }
                    out
                } else {
                    one(release)
                }
            },
            _ => one(release),
        }
    }
}

} // verus!
