use vstd::prelude::*;
use crate::text::text_eq;

verus! {

/// No two entries of a membership table share a client id.
pub open spec fn keys_unique<K: View, V>(s: Seq<(K, V)>) -> bool {
    forall|i: int, j: int| 0 <= i < j < s.len() ==> s[i].0@ != s[j].0@
}

/// The mapping that a membership table stands for: client id to value,
/// a later entry overriding an earlier one with the same id.
pub open spec fn as_map<K: View, V>(s: Seq<(K, V)>) -> Map<K::V, V>
    decreases s.len(),
{
    if s.len() == 0 {
        Map::empty()
    } else {
        as_map(s.drop_last()).insert(s.last().0@, s.last().1)
    }
}

/// With unique ids, the map holds exactly the table's entries.
pub proof fn lemma_as_map_entries<K: View, V>(s: Seq<(K, V)>)
    requires
        keys_unique(s),
    ensures
        forall|i: int|
            0 <= i < s.len() ==> as_map(s).contains_key(#[trigger] s[i].0@) && as_map(s)[s[i].0@]
                == s[i].1,
        forall|k: K::V|
            #[trigger] as_map(s).contains_key(k) ==> exists|i: int| 0 <= i < s.len() && s[i].0@ == k,
    decreases s.len(),
{
    if s.len() > 0 {
        let p = s.drop_last();
        assert(keys_unique(p));
        lemma_as_map_entries(p);
        assert forall|i: int| 0 <= i < s.len() implies as_map(s).contains_key(#[trigger] s[i].0@)
            && as_map(s)[s[i].0@] == s[i].1 by {
            if i < s.len() - 1 {
                assert(s[i] == p[i]);
                assert(s[i].0@ != s.last().0@);
            }
        }
        assert forall|k: K::V| #[trigger] as_map(s).contains_key(k) implies exists|i: int|
            0 <= i < s.len() && s[i].0@ == k by {
            if k == s.last().0@ {
                assert(s[s.len() - 1].0@ == k);
            } else {
                assert(as_map(p).contains_key(k));
                let i = choose|i: int| 0 <= i < p.len() && p[i].0@ == k;
                assert(s[i] == p[i]);
            }
        }
    }
}

/// Removing the one entry with id `k` from a table with unique ids removes `k` from its map.
pub proof fn lemma_as_map_remove<K: View, V>(s: Seq<(K, V)>, i: int, k: K::V)
    requires
        keys_unique(s),
        0 <= i < s.len(),
        s[i].0@ == k,
    ensures
        keys_unique(s.remove(i)),
        as_map(s.remove(i)) == as_map(s).remove(k),
{
    let r = s.remove(i);
    assert(keys_unique(r)) by {
        assert forall|a: int, b: int| 0 <= a < b < r.len() implies r[a].0@ != r[b].0@ by {
            let a2 = if a < i { a } else { a + 1 };
            let b2 = if b < i { b } else { b + 1 };
            assert(r[a] == s[a2]);
            assert(r[b] == s[b2]);
        }
    }
    lemma_as_map_entries(s);
    lemma_as_map_entries(r);
    assert forall|key: K::V| #[trigger] as_map(r).contains_key(key) implies as_map(
        s,
    ).remove(k).contains_key(key) && as_map(r)[key] == as_map(s).remove(k)[key] by {
        let j = choose|j: int| 0 <= j < r.len() && r[j].0@ == key;
        let j2 = if j < i { j } else { j + 1 };
        assert(r[j] == s[j2]);
        assert(j2 != i);
    }
    assert forall|key: K::V| #[trigger] as_map(s).remove(k).contains_key(key) implies as_map(
        r,
    ).contains_key(key) by {
        let j = choose|j: int| 0 <= j < s.len() && s[j].0@ == key;
        assert(j != i);
        let j2 = if j < i { j } else { j - 1 };
        assert(r[j2] == s[j]);
    }
    assert(as_map(r) =~= as_map(s).remove(k));
}

/// Where no entry has id `k`, the map has no key `k`.
pub proof fn lemma_as_map_absent<K: View, V>(s: Seq<(K, V)>, k: K::V)
    requires
        keys_unique(s),
        forall|i: int| 0 <= i < s.len() ==> s[i].0@ != k,
    ensures
        !as_map(s).contains_key(k),
        as_map(s).remove(k) == as_map(s),
{
    lemma_as_map_entries(s);
    assert(as_map(s).remove(k) =~= as_map(s));
}

/// Position of the entry with id `k`, if any.
pub fn find_entry<V>(table: &Vec<(String, V)>, k: &str) -> (r: Option<usize>)
    ensures
        match r {
            Some(i) => i < table@.len() && table@[i as int].0@ == k@,
            None => forall|i: int| 0 <= i < table@.len() ==> table@[i].0@ != k@,
        },
{
    let mut i: usize = 0;
    while i < table.len()
        invariant
            i <= table@.len(),
            forall|j: int| 0 <= j < i ==> table@[j].0@ != k@,
        decreases table@.len() - i,
    {
        if text_eq(table[i].0.as_str(), k) {
            return Some(i);
        }
        i = i + 1;
    }
    None
}

/// Removes the entry with id `k`, if any; returns its value.
pub fn remove_entry<V>(table: &mut Vec<(String, V)>, k: &str) -> (r: Option<V>)
    requires
        keys_unique(old(table)@),
    ensures
        keys_unique(final(table)@),
        as_map(final(table)@) == as_map(old(table)@).remove(k@),
        r == (if as_map(old(table)@).contains_key(k@) {
            Some(as_map(old(table)@)[k@])
        } else {
            None::<V>
        }),
{
    proof {
        lemma_as_map_entries(table@);
    }
    match find_entry(table, k) {
        Some(i) => {
            proof {
                lemma_as_map_remove(table@, i as int, k@);
            }
            let e = table.remove(i);
            Some(e.1)
        },
        None => {
            proof {
                lemma_as_map_absent(table@, k@);
            }
            None
        },
    }
}

/// Sets the value of id `k`, replacing an earlier entry with that id.
pub fn put_entry<V>(table: &mut Vec<(String, V)>, k: String, v: V)
    requires
        keys_unique(old(table)@),
    ensures
        keys_unique(final(table)@),
        as_map(final(table)@) == as_map(old(table)@).insert(k@, v),
{
    let _ = remove_entry(table, k.as_str());
    let ghost mid = table@;
    proof {
        lemma_as_map_entries(mid);
    }
    table.push((k, v));
    proof {
        assert(table@.drop_last() == mid);
        assert forall|a: int, b: int| 0 <= a < b < table@.len() implies table@[a].0@
            != table@[b].0@ by {
            if b == table@.len() - 1 {
                assert(table@[a] == mid[a]);
                assert(as_map(mid).contains_key(mid[a].0@));
            } else {
                assert(table@[a] == mid[a]);
                assert(table@[b] == mid[b]);
            }
        }
        assert(as_map(mid).insert(k@, v) =~= as_map(old(table)@).insert(k@, v));
    }
}

/// Whether no two entries of `table` share an id.
pub fn unique_keys<V>(table: &Vec<(String, V)>) -> (r: bool)
    ensures
        r == keys_unique(table@),
{
    let mut i: usize = 0;
    while i < table.len()
        invariant
            i <= table@.len(),
            keys_unique(table@.take(i as int)),
        decreases table@.len() - i,
    {
        let mut j: usize = 0;
        while j < i
            invariant
                j <= i < table@.len(),
                forall|a: int| 0 <= a < j ==> table@[a].0@ != table@[i as int].0@,
            decreases i - j,
        {
            if text_eq(table[j].0.as_str(), table[i].0.as_str()) {
                return false;
            }
            j = j + 1;
        }
        proof {
            let ghost t = table@.take(i + 1);
            assert forall|a: int, b: int| 0 <= a < b < i + 1 implies #[trigger] t[a].0@
                != #[trigger] t[b].0@ by {
                if b < i {
                    assert(table@.take(i as int)[a] == table@[a]);
                    assert(table@.take(i as int)[b] == table@[b]);
                }
            }
        }
        i = i + 1;
    }
    proof {
        assert(table@.take(table@.len() as int) == table@);
    }
    true
}

/// The shared state of one live room, as kept in the store.
#[derive(Clone, Debug, PartialEq, Eq)]
pub struct QuizRoom {
    pub quiz_id: String,
    pub owner_id: String,
    pub room_code: String,
    pub created_at: i64,
    /// Client id and nickname of each member.
    pub players: Vec<(String, String)>,
    /// Client id and score of each member.
    pub scores: Vec<(String, i64)>,
    pub current_slide: i32,
    pub started: bool,
}

impl QuizRoom {
    /// Both membership tables hold each client id at most once.
    pub open spec fn wf(&self) -> bool {
        keys_unique(self.players@) && keys_unique(self.scores@)
    }

    pub open spec fn player_map(&self) -> Map<Seq<char>, Seq<char>> {
        as_map(self.players@).map_values(|v: String| v@)
    }

    pub open spec fn score_map(&self) -> Map<Seq<char>, i64> {
        as_map(self.scores@)
    }

    /// Every field but the two membership tables.
    pub open spec fn same_header(&self, other: &QuizRoom) -> bool {
        self.quiz_id@ == other.quiz_id@ && self.owner_id@ == other.owner_id@
            && self.room_code@ == other.room_code@ && self.created_at == other.created_at
            && self.current_slide == other.current_slide && self.started == other.started
    }

    /// A room that nobody has joined yet, on its first slide and not started.
    pub fn new(quiz_id: String, owner_id: String, room_code: String, created_at: i64) -> (r: Self)
        ensures
            r.wf(),
            r.quiz_id@ == quiz_id@,
            r.owner_id@ == owner_id@,
            r.room_code@ == room_code@,
            r.created_at == created_at,
            r.player_map() == Map::<Seq<char>, Seq<char>>::empty(),
            r.score_map() == Map::<Seq<char>, i64>::empty(),
            r.current_slide == 0,
            !r.started,
    {
        QuizRoom {
            quiz_id,
            owner_id,
            room_code,
            created_at,
            players: Vec::new(),
            scores: Vec::new(),
            current_slide: 0,
            started: false,
        }
    }

    /// Whether both membership tables hold each client id at most once.
    pub fn tables_unique(&self) -> (r: bool)
        ensures
            r == self.wf(),
    {
        unique_keys(&self.players) && unique_keys(&self.scores)
    }

    /// Whether `client` is a member.
    pub fn has_player(&self, client: &str) -> (r: bool)
        requires
            self.wf(),
        ensures
            r == self.player_map().contains_key(client@),
    {
        proof {
            lemma_as_map_entries(self.players@);
        }
        find_entry(&self.players, client).is_some()
    }

    /// Whether either membership table holds `client`.
    pub fn has_entry(&self, client: &str) -> (r: bool)
        requires
            self.wf(),
        ensures
            r == (self.player_map().contains_key(client@) || self.score_map().contains_key(
                client@,
            )),
    {
        proof {
            lemma_as_map_entries(self.players@);
            lemma_as_map_entries(self.scores@);
        }
        find_entry(&self.players, client).is_some() || find_entry(&self.scores, client).is_some()
    }

    /// Makes `client` a member under `nickname` with a score of zero,
    /// replacing what an earlier join of the same client left.
    pub fn enroll(&mut self, client: &str, nickname: &str)
        requires
            old(self).wf(),
        ensures
            final(self).wf(),
            final(self).same_header(old(self)),
            final(self).player_map() == old(self).player_map().insert(client@, nickname@),
            final(self).score_map() == old(self).score_map().insert(client@, 0),
    {
        put_entry(&mut self.players, client.to_owned(), nickname.to_owned());
        put_entry(&mut self.scores, client.to_owned(), 0);
        proof {
            assert(self.player_map() =~= old(self).player_map().insert(client@, nickname@));
        }
    }

    /// Drops `client` from both membership tables.
    pub fn dismiss(&mut self, client: &str)
        requires
            old(self).wf(),
        ensures
            final(self).wf(),
            final(self).same_header(old(self)),
            final(self).player_map() == old(self).player_map().remove(client@),
            final(self).score_map() == old(self).score_map().remove(client@),
    {
        let _ = remove_entry(&mut self.players, client);
        let _ = remove_entry(&mut self.scores, client);
        proof {
            assert(self.player_map() =~= old(self).player_map().remove(client@));
        }
    }
}

} // verus!
