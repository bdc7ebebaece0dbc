use vstd::prelude::*;
use vstd::string::*;
use crate::room::QuizRoom;
use crate::text::{chars_of, decimal, digit_char, i64_text, push_char};

verus! {

pub open spec fn hex_digit(d: int) -> char {
    if d < 10 {
        digit_char(d)
    } else {
        ((d - 10 + 'a' as int) as u32) as char
    }
}

/// How one character stands inside a JSON string: quote, backslash and the
/// control characters escaped, the short forms where JSON has them.
pub open spec fn escape_char(c: char) -> Seq<char> {
    if c == '"' {
        seq!['\\', '"']
    } else if c == '\\' {
        seq!['\\', '\\']
    } else if c == '\n' {
        seq!['\\', 'n']
    } else if c == '\r' {
        seq!['\\', 'r']
    } else if c == '\t' {
        seq!['\\', 't']
    } else if c == '\x08' {
        seq!['\\', 'b']
    } else if c == '\x0c' {
        seq!['\\', 'f']
    } else if (c as u32) < 0x20 {
        seq!['\\', 'u', '0', '0', hex_digit(((c as u32) / 16) as int), hex_digit(((c as u32) % 16) as int)]
    } else {
        seq![c]
    }
}

pub open spec fn escaped(s: Seq<char>) -> Seq<char>
    decreases s.len(),
{
    if s.len() == 0 {
        Seq::empty()
    } else {
        escaped(s.drop_last()) + escape_char(s.last())
    }
}

/// A JSON string literal holding `s`.
pub open spec fn quoted(s: Seq<char>) -> Seq<char> {
    seq!['"'] + escaped(s) + seq!['"']
}

pub open spec fn bool_text(b: bool) -> Seq<char> {
    if b {
        "true"@
    } else {
        "false"@
    }
}

/// `[id,nickname]` pairs of a membership table, comma separated.
pub open spec fn name_pairs(s: Seq<(String, String)>) -> Seq<char>
    decreases s.len(),
{
    if s.len() == 0 {
        Seq::empty()
    } else {
        let item = seq!['['] + quoted(s.last().0@) + seq![','] + quoted(s.last().1@) + seq![']'];
        if s.len() == 1 {
            item
        } else {
            name_pairs(s.drop_last()) + seq![','] + item
        }
    }
}

/// `[id,score]` pairs of a score table, comma separated.
pub open spec fn score_pairs(s: Seq<(String, i64)>) -> Seq<char>
    decreases s.len(),
{
    if s.len() == 0 {
        Seq::empty()
    } else {
        let item = seq!['['] + quoted(s.last().0@) + seq![','] + decimal(s.last().1 as int) + seq![
            ']',
        ];
        if s.len() == 1 {
            item
        } else {
            score_pairs(s.drop_last()) + seq![','] + item
        }
    }
}

/// `"id":"nickname"` members of a JSON object, comma separated.
pub open spec fn name_members(s: Seq<(String, String)>) -> Seq<char>
    decreases s.len(),
{
    if s.len() == 0 {
        Seq::empty()
    } else {
        let item = quoted(s.last().0@) + seq![':'] + quoted(s.last().1@);
        if s.len() == 1 {
            item
        } else {
            name_members(s.drop_last()) + seq![','] + item
        }
    }
}

/// `"id":score` members of a JSON object, comma separated.
pub open spec fn score_members(s: Seq<(String, i64)>) -> Seq<char>
    decreases s.len(),
{
    if s.len() == 0 {
        Seq::empty()
    } else {
        let item = quoted(s.last().0@) + seq![':'] + decimal(s.last().1 as int);
        if s.len() == 1 {
            item
        } else {
            score_members(s.drop_last()) + seq![','] + item
        }
    }
}

/// The frame that tells a client why its session ends.
pub open spec fn error_frame_text(message: Seq<char>) -> Seq<char> {
    "{\"error\":"@ + quoted(message) + "}"@
}

/// The reply to an inbound text frame, already trimmed.
pub open spec fn echo_frame_text(trimmed: Seq<char>) -> Seq<char> {
    "{\"message\":"@ + quoted("Echo: "@ + trimmed) + "}"@
}

/// The full room state sent to a client that has just joined.
pub open spec fn snapshot_text(room: QuizRoom) -> Seq<char> {
    "{\"action\":\"update_data\",\"room_code\":"@ + quoted(room.room_code@)
        + ",\"current_slide\":"@ + decimal(room.current_slide as int) + ",\"players\":["@
        + name_pairs(room.players@) + "],\"scores\":["@ + score_pairs(room.scores@)
        + "],\"started\":"@ + bool_text(room.started) + "}"@
}

/// The stored form of a room document.
pub open spec fn document_text(room: QuizRoom) -> Seq<char> {
    "{\"quiz_id\":"@ + quoted(room.quiz_id@) + ",\"owner_id\":"@ + quoted(room.owner_id@)
        + ",\"room_code\":"@ + quoted(room.room_code@) + ",\"created_at\":"@ + decimal(
        room.created_at as int,
    ) + ",\"players\":{"@ + name_members(room.players@) + "},\"scores\":{"@ + score_members(
        room.scores@,
    ) + "},\"current_slide\":"@ + decimal(room.current_slide as int) + ",\"started\":"@
        + bool_text(room.started) + "}"@
}

fn hex_char(d: u32) -> (c: char)
    requires
        d < 16,
    ensures
        c == hex_digit(d as int),
{
    if d < 10 {
        ((d + 48) as u8) as char
    } else {
        ((d + 87) as u8) as char
    }
}

/// Appends `c` as it stands inside a JSON string.
fn push_escaped_char(out: &mut String, c: char)
    ensures
        final(out)@ == old(out)@ + escape_char(c),
{
    let ghost start = out@;
    if c == '"' {
        push_char(out, '\\');
        push_char(out, '"');
    } else if c == '\\' {
        push_char(out, '\\');
        push_char(out, '\\');
    } else if c == '\n' {
        push_char(out, '\\');
        push_char(out, 'n');
    } else if c == '\r' {
        push_char(out, '\\');
        push_char(out, 'r');
    } else if c == '\t' {
        push_char(out, '\\');
        push_char(out, 't');
    } else if c == '\x08' {
        push_char(out, '\\');
        push_char(out, 'b');
    } else if c == '\x0c' {
        push_char(out, '\\');
        push_char(out, 'f');
    } else if (c as u32) < 0x20 {
        let v = c as u32;
        push_char(out, '\\');
        push_char(out, 'u');
        push_char(out, '0');
        push_char(out, '0');
        push_char(out, hex_char(v / 16));
        push_char(out, hex_char(v % 16));
    } else {
        push_char(out, c);
    }
    proof {
        assert(out@ =~= start + escape_char(c));
    }
}

/// Appends `s` as a JSON string literal.
pub fn push_quoted(out: &mut String, s: &str)
    ensures
        final(out)@ == old(out)@ + quoted(s@),
{
    let ghost start = out@;
    let cs = chars_of(s);
    push_char(out, '"');
    let mut i: usize = 0;
    while i < cs.len()
        invariant
            i <= cs@.len(),
            cs@ == s@,
            out@ == start + seq!['"'] + escaped(cs@.take(i as int)),
        decreases cs@.len() - i,
    {
        proof {
            assert(cs@.take(i + 1).drop_last() == cs@.take(i as int));
        }
        push_escaped_char(out, cs[i]);
        i = i + 1;
    }
    push_char(out, '"');
    proof {
        assert(cs@.take(cs@.len() as int) == s@);
        assert(out@ =~= start + quoted(s@));
    }
}

fn push_bool(out: &mut String, b: bool)
    ensures
        final(out)@ == old(out)@ + bool_text(b),
{
    if b {
        out.append("true");
    } else {
        out.append("false");
    }
}

fn push_name_pairs(out: &mut String, table: &Vec<(String, String)>)
    ensures
        final(out)@ == old(out)@ + name_pairs(table@),
{
    let ghost start = out@;
    let mut i: usize = 0;
    while i < table.len()
        invariant
            i <= table@.len(),
            out@ == start + name_pairs(table@.take(i as int)),
        decreases table@.len() - i,
    {
        proof {
            assert(table@.take(i + 1).drop_last() == table@.take(i as int));
            assert(table@.take(i + 1).last() == table@[i as int]);
        }
        if i > 0 {
            push_char(out, ',');
        }
        push_char(out, '[');
        push_quoted(out, table[i].0.as_str());
        push_char(out, ',');
        push_quoted(out, table[i].1.as_str());
        push_char(out, ']');
        proof {
            assert(out@ =~= start + name_pairs(table@.take(i + 1)));
        }
        i = i + 1;
    }
    proof {
        assert(table@.take(table@.len() as int) == table@);
    }
}

fn push_score_pairs(out: &mut String, table: &Vec<(String, i64)>)
    ensures
        final(out)@ == old(out)@ + score_pairs(table@),
{
    let ghost start = out@;
    let mut i: usize = 0;
    while i < table.len()
        invariant
            i <= table@.len(),
            out@ == start + score_pairs(table@.take(i as int)),
        decreases table@.len() - i,
    {
        proof {
            assert(table@.take(i + 1).drop_last() == table@.take(i as int));
            assert(table@.take(i + 1).last() == table@[i as int]);
        }
        if i > 0 {
            push_char(out, ',');
        }
        push_char(out, '[');
        push_quoted(out, table[i].0.as_str());
        push_char(out, ',');
        let n = i64_text(table[i].1);
        out.append(n.as_str());
        push_char(out, ']');
        proof {
            assert(out@ =~= start + score_pairs(table@.take(i + 1)));
        }
        i = i + 1;
    }
    proof {
        assert(table@.take(table@.len() as int) == table@);
    }
}

fn push_name_members(out: &mut String, table: &Vec<(String, String)>)
    ensures
        final(out)@ == old(out)@ + name_members(table@),
{
    let ghost start = out@;
    let mut i: usize = 0;
    while i < table.len()
        invariant
            i <= table@.len(),
            out@ == start + name_members(table@.take(i as int)),
        decreases table@.len() - i,
    {
        proof {
            assert(table@.take(i + 1).drop_last() == table@.take(i as int));
            assert(table@.take(i + 1).last() == table@[i as int]);
        }
        if i > 0 {
            push_char(out, ',');
        }
        push_quoted(out, table[i].0.as_str());
        push_char(out, ':');
        push_quoted(out, table[i].1.as_str());
        proof {
            assert(out@ =~= start + name_members(table@.take(i + 1)));
        }
        i = i + 1;
    }
    proof {
        assert(table@.take(table@.len() as int) == table@);
    }
}

fn push_score_members(out: &mut String, table: &Vec<(String, i64)>)
    ensures
        final(out)@ == old(out)@ + score_members(table@),
{
    let ghost start = out@;
    let mut i: usize = 0;
    while i < table.len()
        invariant
            i <= table@.len(),
            out@ == start + score_members(table@.take(i as int)),
        decreases table@.len() - i,
    {
        proof {
            assert(table@.take(i + 1).drop_last() == table@.take(i as int));
            assert(table@.take(i + 1).last() == table@[i as int]);
        }
        if i > 0 {
            push_char(out, ',');
        }
        push_quoted(out, table[i].0.as_str());
        push_char(out, ':');
        let n = i64_text(table[i].1);
        out.append(n.as_str());
        proof {
            assert(out@ =~= start + score_members(table@.take(i + 1)));
        }
        i = i + 1;
    }
    proof {
        assert(table@.take(table@.len() as int) == table@);
    }
}

/// `{"error":<message>}`.
pub fn error_frame(message: &str) -> (r: String)
    ensures
        r@ == error_frame_text(message@),
{
    let mut out = String::new();
    out.append("{\"error\":");
    push_quoted(&mut out, message);
    out.append("}");
    proof {
        assert(out@ =~= error_frame_text(message@));
    }
    out
}

/// `{"message":"Echo: <text>"}` for a text that is already trimmed.
pub fn echo_frame(trimmed: &str) -> (r: String)
    ensures
        r@ == echo_frame_text(trimmed@),
{
    let mut body = String::new();
    body.append("Echo: ");
    body.append(trimmed);
    let mut out = String::new();
    out.append("{\"message\":");
    push_quoted(&mut out, body.as_str());
    out.append("}");
    proof {
        assert(out@ =~= echo_frame_text(trimmed@));
    }
    out
}

/// The frame that carries the whole state of `room` to a client.
pub fn snapshot_frame(room: &QuizRoom) -> (r: String)
    ensures
        r@ == snapshot_text(*room),
{
    let mut out = String::new();
    out.append("{\"action\":\"update_data\",\"room_code\":");
    push_quoted(&mut out, room.room_code.as_str());
    out.append(",\"current_slide\":");
    let slide = i64_text(room.current_slide as i64);
    out.append(slide.as_str());
    out.append(",\"players\":[");
    push_name_pairs(&mut out, &room.players);
    out.append("],\"scores\":[");
    push_score_pairs(&mut out, &room.scores);
    out.append("],\"started\":");
    push_bool(&mut out, room.started);
    out.append("}");
    proof {
        assert(out@ =~= snapshot_text(*room));
    }
    out
}

/// The text under which `room` is kept in the store.
pub fn encode_room(room: &QuizRoom) -> (r: String)
    ensures
        r@ == document_text(*room),
{
    let mut out = String::new();
    out.append("{\"quiz_id\":");
    push_quoted(&mut out, room.quiz_id.as_str());
    out.append(",\"owner_id\":");
    push_quoted(&mut out, room.owner_id.as_str());
    out.append(",\"room_code\":");
    push_quoted(&mut out, room.room_code.as_str());
    out.append(",\"created_at\":");
    let created = i64_text(room.created_at);
    out.append(created.as_str());
    out.append(",\"players\":{");
    push_name_members(&mut out, &room.players);
    out.append("},\"scores\":{");
    push_score_members(&mut out, &room.scores);
    out.append("},\"current_slide\":");
    let slide = i64_text(room.current_slide as i64);
    out.append(slide.as_str());
    out.append(",\"started\":");
    push_bool(&mut out, room.started);
    out.append("}");
    proof {
        assert(out@ =~= document_text(*room));
    }
    out
}

} // verus!
