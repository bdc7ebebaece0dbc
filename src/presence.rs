use vstd::prelude::*;
use crate::json::{error_frame, error_frame_text};
use crate::room::{as_map, keys_unique, lemma_as_map_absent, lemma_as_map_entries, lemma_as_map_remove};
use crate::text::{chars_of, text_eq};

verus! {

/// What a live session is told to do by the registry that holds it.
#[derive(Debug, PartialEq, Eq)]
pub enum Instruction {
    /// Send this text frame to the client.
    Send(u64, String),
    /// Close the socket.
    Close(u64),
}

/// The error notice given to a session that a newer connection of the same client replaces.
pub open spec fn replaced_notice() -> Seq<char> {
    "Disconnected due to new connection."@
}

/// `out` is one error frame carrying `message` to `handle`, then one close instruction to it.
pub open spec fn is_eviction(out: Seq<Instruction>, handle: u64, message: Seq<char>) -> bool {
    out.len() == 2 && (match out[0] {
        Instruction::Send(h, t) => h == handle && t@ == error_frame_text(message),
        Instruction::Close(_) => false,
    }) && out[1] == Instruction::Close(handle)
}

/// The error frame and close instruction that evict `handle` as replaced.
pub fn eviction(handle: u64) -> (r: Vec<Instruction>)
    ensures
        is_eviction(r@, handle, replaced_notice()),
{
    let frame = error_frame("Disconnected due to new connection.");
    let mut out = Vec::new();
    out.push(Instruction::Send(handle, frame));
    out.push(Instruction::Close(handle));
    out
}

/// The sessions of this process, by room code and client id. Each pair holds
/// at most one session handle.
pub struct PresenceRegistry {
    entries: Vec<((String, String), u64)>,
}

impl PresenceRegistry {
    pub closed spec fn wf(&self) -> bool {
        keys_unique(self.entries@)
    }

    /// The handle held for each (room code, client id) pair.
    pub closed spec fn handles(&self) -> Map<(Seq<char>, Seq<char>), u64> {
        as_map(self.entries@)
    }

    /// How many entries hold the pair `key`.
    pub closed spec fn holders(&self, key: (Seq<char>, Seq<char>)) -> int {
        self.entries@.filter(pair_is(key)).len() as int
    }

    pub fn new() -> (r: Self)
        ensures
            r.wf(),
            r.handles() == Map::<(Seq<char>, Seq<char>), u64>::empty(),
    {
        PresenceRegistry { entries: Vec::new() }
    }

    fn find(&self, room: &str, client: &str) -> (r: Option<usize>)
        ensures
            match r {
                Some(i) => i < self.entries@.len() && self.entries@[i as int].0@ == (room@, client@),
                None => forall|i: int|
                    0 <= i < self.entries@.len() ==> self.entries@[i].0@ != (room@, client@),
            },
    {
        let mut i: usize = 0;
        while i < self.entries.len()
            invariant
                i <= self.entries@.len(),
                forall|j: int| 0 <= j < i ==> self.entries@[j].0@ != (room@, client@),
            decreases self.entries@.len() - i,
        {
            let e = &self.entries[i];
            if text_eq(e.0.0.as_str(), room) && text_eq(e.0.1.as_str(), client) {
                return Some(i);
            }
            i = i + 1;
        }
        None
    }

    /// The handle held for `room` and `client`, if any.
    pub fn lookup(&self, room: &str, client: &str) -> (r: Option<u64>)
        requires
            self.wf(),
        ensures
            r == (if self.handles().contains_key((room@, client@)) {
                Some(self.handles()[(room@, client@)])
            } else {
                None::<u64>
            }),
    {
        proof {
            lemma_as_map_entries(self.entries@);
        }
        match self.find(room, client) {
            Some(i) => Some(self.entries[i].1),
            None => None,
        }
    }

    /// Removes the entry of `room` and `client`, if any, and returns its handle.
    pub fn unregister(&mut self, room: &str, client: &str) -> (r: Option<u64>)
        requires
            old(self).wf(),
        ensures
            final(self).wf(),
            final(self).handles() == old(self).handles().remove((room@, client@)),
            r == (if old(self).handles().contains_key((room@, client@)) {
                Some(old(self).handles()[(room@, client@)])
            } else {
                None::<u64>
            }),
    {
        proof {
            lemma_as_map_entries(self.entries@);
        }
        match self.find(room, client) {
            Some(i) => {
                proof {
                    lemma_as_map_remove(self.entries@, i as int, (room@, client@));
                }
                let e = self.entries.remove(i);
                Some(e.1)
            },
            None => {
                proof {
                    lemma_as_map_absent(self.entries@, (room@, client@));
                }
                None
            },
        }
    }

    /// Holds `handle` for `room` and `client`. A session already held for the
    /// pair is evicted first: it is sent one error frame, then one close
    /// instruction, and is removed before `handle` goes in.
    pub fn register(&mut self, room: &str, client: &str, handle: u64) -> (r: Vec<Instruction>)
        requires
            old(self).wf(),
        ensures
            final(self).wf(),
            registered(*old(self), *final(self), (room@, client@), handle, r@),
    {
        let out = match self.unregister(room, client) {
            Some(previous) => eviction(previous),
            None => Vec::new(),
        };
        let ghost mid = self.entries@;
        proof {
            lemma_as_map_entries(mid);
        }
        let key = (room.to_owned(), client.to_owned());
        self.entries.push((key, handle));
        proof {
            assert(self.entries@.drop_last() == mid);
            assert forall|a: int, b: int| 0 <= a < b < self.entries@.len() implies self.entries@[a].0@
                != self.entries@[b].0@ by {
                assert(self.entries@[a] == mid[a]);
                if b == self.entries@.len() - 1 {
                    assert(as_map(mid).contains_key(mid[a].0@));
                } else {
                    assert(self.entries@[b] == mid[b]);
                }
            }
            assert(as_map(mid).insert((room@, client@), handle) =~= as_map(old(self).entries@).insert(
                (room@, client@),
                handle,
            ));
        }
        out
    }

    /// Drops the entry of `room` and `client` only where it still holds
    /// `handle`: a session that was replaced does not remove its successor.
    pub fn release(&mut self, room: &str, client: &str, handle: u64) -> (r: bool)
        requires
            old(self).wf(),
        ensures
            final(self).wf(),
            r == (old(self).handles().contains_key((room@, client@)) && old(self).handles()[(
                room@,
                client@,
            )] == handle),
            r ==> final(self).handles() == old(self).handles().remove((room@, client@)),
            !r ==> final(self).handles() == old(self).handles(),
    {
        match self.lookup(room, client) {
            Some(h) => {
                if h == handle {
                    let _ = self.unregister(room, client);
                    true
                } else {
                    false
                }
            },
            None => false,
        }
    }

    /// Acts on a disconnect event received from the shared channel: the
    /// session held here for the pair it names, if any, is sent one error
    /// frame and one close instruction, and removed.
    pub fn on_disconnect_event(&mut self, payload: &str) -> (r: Vec<Instruction>)
        requires
            old(self).wf(),
        ensures
            final(self).wf(),
            match split_event(payload@) {
                None => final(self).handles() == old(self).handles() && r@.len() == 0,
                Some(key) => {
                    &&& final(self).handles() == old(self).handles().remove(key)
                    &&& old(self).handles().contains_key(key) ==> is_eviction(
                        r@,
                        old(self).handles()[key],
                        replaced_notice(),
                    )
                    &&& !old(self).handles().contains_key(key) ==> r@.len() == 0
                },
            },
    {
        match parse_event(payload) {
            None => Vec::new(),
            Some((room, client)) => match self.unregister(room.as_str(), client.as_str()) {
                Some(h) => eviction(h),
                None => Vec::new(),
            },
        }
    }
}

/// `after` and `out` are what registering `handle` for `key` in `before`
/// gives: a session held before is evicted, by one error frame and one close
/// instruction, and removed; then `handle` goes in.
pub open spec fn registered(
    before: PresenceRegistry,
    after: PresenceRegistry,
    key: (Seq<char>, Seq<char>),
    handle: u64,
    out: Seq<Instruction>,
) -> bool {
    &&& after.handles() == before.handles().remove(key).insert(key, handle)
    &&& before.handles().contains_key(key) ==> is_eviction(
        out,
        before.handles()[key],
        replaced_notice(),
    )
    &&& !before.handles().contains_key(key) ==> out.len() == 0
}

/// A reconnect of a client to a room while its previous session is still
/// registered: the previous session gets exactly one error frame, then one
/// close instruction, and is no longer held; the new one is the only holder.
pub proof fn lemma_reconnect_evicts_previous(
    before: PresenceRegistry,
    after: PresenceRegistry,
    key: (Seq<char>, Seq<char>),
    previous: u64,
    next: u64,
    out: Seq<Instruction>,
)
    requires
        before.wf(),
        after.wf(),
        before.handles().contains_key(key),
        before.handles()[key] == previous,
        registered(before, after, key, next, out),
    ensures
        out.len() == 2,
        out[0] matches Instruction::Send(h, t) && h == previous && t@ == error_frame_text(
            replaced_notice(),
        ),
        out[1] == Instruction::Close(previous),
        !before.handles().remove(key).contains_key(key),
        after.handles()[key] == next,
        after.holders(key) == 1,
{
    lemma_one_handle_per_pair(after, key);
    lemma_as_map_entries(after.entries@);
    let i = choose|i: int| 0 <= i < after.entries@.len() && after.entries@[i].0@ == key;
    lemma_holder_counted(after.entries@, key, i);
}

/// An entry that holds `key` is counted among its holders.
proof fn lemma_holder_counted(s: Seq<((String, String), u64)>, key: (Seq<char>, Seq<char>), i: int)
    requires
        0 <= i < s.len(),
        s[i].0@ == key,
    ensures
        s.filter(pair_is(key)).len() >= 1,
    decreases s.len(),
{
    reveal(Seq::filter);
    if i < s.len() - 1 {
        lemma_holder_counted(s.drop_last(), key, i);
    }
}

/// Whether an entry holds the pair `key`.
pub open spec fn pair_is(key: (Seq<char>, Seq<char>)) -> spec_fn(((String, String), u64)) -> bool {
    |e: ((String, String), u64)| e.0@ == key
}

/// The position of the first `:` in `s`, if any.
pub open spec fn first_colon(s: Seq<char>) -> Option<int> {
    if exists|i: int| 0 <= i < s.len() && s[i] == ':' {
        Some(
            choose|i: int|
                0 <= i < s.len() && s[i] == ':' && forall|j: int| 0 <= j < i ==> s[j] != ':',
        )
    } else {
        None
    }
}

/// The room code and client id that a disconnect event names: the text
/// before and after its first `:`.
pub open spec fn split_event(s: Seq<char>) -> Option<(Seq<char>, Seq<char>)> {
    match first_colon(s) {
        Some(i) => Some((s.take(i), s.skip(i + 1))),
        None => None,
    }
}

/// The payload of a disconnect event for `room` and `client`.
pub open spec fn event_text(room: Seq<char>, client: Seq<char>) -> Seq<char> {
    room + seq![':'] + client
}

/// `room:client`, the payload that asks every process to drop its session of that pair.
pub fn disconnect_payload(room: &str, client: &str) -> (r: String)
    ensures
        r@ == event_text(room@, client@),
{
    let mut out = room.to_owned();
    out.append(":");
    out.append(client);
    proof {
        reveal_strlit(":");
        assert(out@ =~= event_text(room@, client@));
    }
    out
}

/// Splits a disconnect event's payload at its first `:`.
pub fn parse_event(payload: &str) -> (r: Option<(String, String)>)
    ensures
        match r {
            Some((room, client)) => split_event(payload@) == Some((room@, client@)),
            None => split_event(payload@) is None,
        },
{
    let cs = chars_of(payload);
    let mut i: usize = 0;
    while i < cs.len()
        invariant
            i <= cs@.len(),
            cs@ == payload@,
            forall|j: int| 0 <= j < i ==> cs@[j] != ':',
        decreases cs@.len() - i,
    {
        if cs[i] == ':' {
            let ghost s = payload@;
            proof {
                assert(0 <= i < s.len() && s[i as int] == ':');
                let k = first_colon(s)->Some_0;
                assert(k == i as int) by {
                    if k < i {
                        assert(s[k] != ':');
                    } else if k > i {
                        assert(s[i as int] != ':');
                    }
                }
            }
            let room = payload.substring_char(0, i).to_owned();
            let client = payload.substring_char(i + 1, cs.len()).to_owned();
            proof {
                assert(client@ =~= s.skip(i + 1));
            }
            return Some((room, client));
        }
        i = i + 1;
    }
    None
}

/// A disconnect event names the pair it was made for, as long as the room
/// code holds no `:`.
pub proof fn lemma_event_round_trip(room: Seq<char>, client: Seq<char>)
    requires
        forall|i: int| 0 <= i < room.len() ==> room[i] != ':',
    ensures
        split_event(event_text(room, client)) == Some((room, client)),
{
    let s = event_text(room, client);
    assert(s[room.len() as int] == ':');
    let k = first_colon(s)->Some_0;
    assert(k == room.len()) by {
        if k < room.len() {
            assert(s[k] == room[k]);
        } else if k > room.len() {
            assert(s[room.len() as int] != ':');
        }
    }
    assert(s.take(k) =~= room);
    assert(s.skip(k + 1) =~= client);
}

/// However `register` and `unregister` have been called, a registry holds
/// at most one entry for each (room code, client id) pair.
pub proof fn lemma_one_handle_per_pair(reg: PresenceRegistry, key: (Seq<char>, Seq<char>))
    requires
        reg.wf(),
    ensures
        reg.holders(key) <= 1,
{
    let s = reg.entries@;
    let f = pair_is(key);
    let t = s.filter(f);
    if t.len() > 1 {
        lemma_filter_origin(s, f, 0);
        lemma_filter_origin(s, f, 1);
        let a = choose|a: int| 0 <= a < s.len() && s[a] == t[0] && count_before(s, f, a) == 0;
        let b = choose|b: int| 0 <= b < s.len() && s[b] == t[1] && count_before(s, f, b) == 1;
        assert(a != b);
        if a < b {
            assert(s[a].0@ != s[b].0@);
        } else {
            assert(s[b].0@ != s[a].0@);
        }
    }
}

/// How many of the first `n` entries satisfy `f`.
pub open spec fn count_before<A>(s: Seq<A>, f: spec_fn(A) -> bool, n: int) -> int {
    s.take(n).filter(f).len() as int
}

/// The `k`-th entry kept by a filter stands in the original at a position
/// before which `k` entries were kept.
pub proof fn lemma_filter_origin<A>(s: Seq<A>, f: spec_fn(A) -> bool, k: int)
    requires
        0 <= k < s.filter(f).len(),
    ensures
        exists|a: int|
            0 <= a < s.len() && s[a] == s.filter(f)[k] && f(s[a]) && count_before(s, f, a) == k,
    decreases s.len(),
{
    let p = s.drop_last();
    reveal(Seq::filter);
    assert(s.take(s.len() as int) == s);
    if k < p.filter(f).len() {
        lemma_filter_origin(p, f, k);
        let a = choose|a: int|
            0 <= a < p.len() && p[a] == p.filter(f)[k] && f(p[a]) && count_before(p, f, a) == k;
        assert(p.take(a) == s.take(a));
        assert(s.filter(f)[k] == p.filter(f)[k]);
        assert(s[a] == p[a]);
    } else {
        let a = s.len() - 1;
        assert(p.take(a) == p);
        assert(s.take(a) == p);
        assert(s.filter(f)[k] == s[a]);
    }
}

} // verus!
