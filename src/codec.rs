use vstd::prelude::*;
use vstd::seq_lib::lemma_concat_associative;
use crate::config::{all_digits, digits_value, lemma_prefix_value_below};
use crate::json::{
    bool_text, document_text, encode_room, escape_char, escaped, hex_digit, name_members, quoted,
    score_members,
};
use crate::room::{as_map, keys_unique, QuizRoom};
use crate::text::{chars_of, decimal, digit_char, push_char, text_eq};

verus! {

proof fn lemma_skip_concat(cs: Seq<char>, pos: int, a: Seq<char>, b: Seq<char>)
    requires
        0 <= pos <= cs.len(),
        cs.skip(pos) == a + b,
    ensures
        pos + a.len() <= cs.len(),
        cs.skip(pos + a.len()) == b,
        forall|i: int| 0 <= i < a.len() ==> cs[pos + i] == #[trigger] a[i],
{
    assert(cs.skip(pos).len() == a.len() + b.len());
    assert forall|i: int| 0 <= i < a.len() implies cs[pos + i] == #[trigger] a[i] by {
        assert(cs.skip(pos)[i] == cs[pos + i]);
        assert((a + b)[i] == a[i]);
    }
    assert(cs.skip(pos + a.len()) =~= b) by {
        assert forall|i: int| 0 <= i < b.len() implies cs.skip(pos + a.len())[i] == b[i] by {
            assert(cs.skip(pos)[a.len() + i] == cs[pos + a.len() + i]);
            assert((a + b)[a.len() + i] == b[i]);
        }
    }
}

pub open spec fn is_digit(c: char) -> bool {
    '0' <= c <= '9'
}

/// Reads the literal `lit` at `pos`; returns the position after it.
fn expect_lit(cs: &Vec<char>, pos: usize, lit: &str, Ghost(tail): Ghost<Option<Seq<char>>>) -> (r:
    Option<usize>)
    requires
        pos <= cs@.len(),
        tail matches Some(t) ==> cs@.skip(pos as int) == lit@ + t,
    ensures
        r matches Some(p) ==> pos <= p <= cs@.len(),
        tail matches Some(t) ==> (r matches Some(p) && p == pos + lit@.len() && cs@.skip(p as int)
            == t),
{
    let lc = chars_of(lit);
    proof {
        if let Some(t) = tail {
            lemma_skip_concat(cs@, pos as int, lit@, t);
        }
    }
    if lc.len() > cs.len() - pos {
        return None;
    }
    let mut j: usize = 0;
    while j < lc.len()
        invariant
            lc@ == lit@,
            pos <= cs@.len(),
            pos + lc@.len() <= cs@.len(),
            cs@.len() <= usize::MAX,
            j <= lc@.len(),
            tail matches Some(t) ==> forall|i: int| 0 <= i < lit@.len() ==> cs@[pos + i] == lit@[i],
        decreases lc@.len() - j,
    {
        if cs[pos + j] != lc[j] {
            return None;
        }
        j = j + 1;
    }
    Some(pos + lc.len())
}

proof fn lemma_escaped_append(a: Seq<char>, b: Seq<char>)
    ensures
        escaped(a + b) == escaped(a) + escaped(b),
    decreases b.len(),
{
    if b.len() == 0 {
        assert(a + b =~= a);
        assert(escaped(a) + escaped(b) =~= escaped(a));
    } else {
        assert((a + b).drop_last() =~= a + b.drop_last());
        assert((a + b).last() == b.last());
        lemma_escaped_append(a, b.drop_last());
        assert(escaped(a + b) =~= escaped(a) + escaped(b));
    }
}

/// The escaped form of the characters of `e` from `k` on starts with that of `e[k]`.
proof fn lemma_escaped_step(e: Seq<char>, k: int)
    requires
        0 <= k < e.len(),
    ensures
        escaped(e.skip(k)) == escape_char(e[k]) + escaped(e.skip(k + 1)),
{
    assert(e.skip(k) =~= seq![e[k]] + e.skip(k + 1));
    lemma_escaped_append(seq![e[k]], e.skip(k + 1));
    assert(seq![e[k]].drop_last() =~= Seq::<char>::empty());
    assert(escaped(Seq::<char>::empty()) == Seq::<char>::empty());
    assert(escaped(seq![e[k]]) == escaped(seq![e[k]].drop_last()) + escape_char(seq![e[k]].last()));
    assert(escaped(seq![e[k]]) =~= escape_char(e[k]));
}

proof fn lemma_same_code(a: char, b: char)
    requires
        a as u32 == b as u32,
    ensures
        a == b,
{
}

fn hex_val(c: char) -> (r: Option<u32>)
    ensures
        r matches Some(v) ==> v < 16,
        forall|d: int| 0 <= d < 16 && c == hex_digit(d) ==> r == Some(d as u32),
{
    let v = c as u32;
    if '0' <= c && c <= '9' {
        Some(v - 48)
    } else if 'a' <= c && c <= 'f' {
        Some(v - 87)
    } else if 'A' <= c && c <= 'F' {
        Some(v - 55)
    } else {
        None
    }
}

/// Reads a JSON string literal at `pos`; returns its contents and the
/// position after its closing quote.
fn parse_string(cs: &Vec<char>, pos: usize, Ghost(expect): Ghost<Option<(Seq<char>, Seq<char>)>>) -> (r:
    Option<(String, usize)>)
    requires
        pos <= cs@.len(),
        expect matches Some((e, t)) ==> cs@.skip(pos as int) == quoted(e) + t,
    ensures
        r matches Some((_, p)) ==> pos < p <= cs@.len(),
        expect matches Some((e, t)) ==> (r matches Some((s, p)) && s@ == e && cs@.skip(p as int)
            == t),
{
    if pos >= cs.len() || cs[pos] != '"' {
        proof {
            if let Some((e, t)) = expect {
                lemma_skip_concat(cs@, pos as int, quoted(e), t);
                assert(quoted(e)[0] == '"');
            }
        }
        return None;
    }
    let mut out = String::new();
    let mut i: usize = pos + 1;
    let ghost mut k: int = 0;
    proof {
        if let Some((e, t)) = expect {
            assert(cs@.skip(pos as int) == seq!['"'] + (escaped(e) + seq!['"'] + t)) by {
                assert(quoted(e) + t =~= seq!['"'] + (escaped(e) + seq!['"'] + t));
            }
            lemma_skip_concat(cs@, pos as int, seq!['"'], escaped(e) + seq!['"'] + t);
            assert(e.skip(0) =~= e);
            assert(out@ =~= e.take(0));
        }
    }
    loop
        invariant
            pos < i <= cs@.len(),
            expect matches Some((e, t)) ==> {
                &&& 0 <= k <= e.len()
                &&& out@ == e.take(k)
                &&& cs@.skip(i as int) == escaped(e.skip(k)) + seq!['"'] + t
            },
        decreases cs@.len() - i,
    {
        proof {
            if let Some((e, t)) = expect {
                if k < e.len() {
                    lemma_escaped_step(e, k);
                    assert(cs@.skip(i as int) == escape_char(e[k]) + (escaped(e.skip(k + 1))
                        + seq!['"'] + t));
                    lemma_skip_concat(
                        cs@,
                        i as int,
                        escape_char(e[k]),
                        escaped(e.skip(k + 1)) + seq!['"'] + t,
                    );
                    assert(cs@[i as int] == escape_char(e[k])[0]);
                    assert(forall|j: int|
                        0 <= j < escape_char(e[k]).len() ==> cs@[i + j] == escape_char(e[k])[j]);
                } else {
                    assert(e.skip(k) =~= Seq::<char>::empty());
                    assert(cs@.skip(i as int) == seq!['"'] + t) by {
                        assert(escaped(e.skip(k)) + seq!['"'] + t =~= seq!['"'] + t);
                    }
                    lemma_skip_concat(cs@, i as int, seq!['"'], t);
                    assert(cs@[i as int] == seq!['"'][0]);
                    assert(cs@[i as int] == '"');
                }
            }
        }
        if i >= cs.len() {
            return None;
        }
        let c = cs[i];
        if c == '"' {
            proof {
                if let Some((e, t)) = expect {
                    if k < e.len() {
                        assert(escape_char(e[k])[0] == cs@[i as int]);
                    }
                    assert(e.take(k) =~= e);
                }
            }
            return Some((out, i + 1));
        }
        if c == '\\' {
            if i + 1 >= cs.len() {
                return None;
            }
            let n = cs[i + 1];
            let decoded: char;
            let width: usize;
            if n == '"' {
                decoded = '"';
                width = 2;
            } else if n == '\\' {
                decoded = '\\';
                width = 2;
            } else if n == '/' {
                decoded = '/';
                width = 2;
            } else if n == 'b' {
                decoded = '\x08';
                width = 2;
            } else if n == 'f' {
                decoded = '\x0c';
                width = 2;
            } else if n == 'n' {
                decoded = '\n';
                width = 2;
            } else if n == 'r' {
                decoded = '\r';
                width = 2;
            } else if n == 't' {
                decoded = '\t';
                width = 2;
            } else if n == 'u' {
                if cs.len() - i <= 5 {
                    return None;
                }
                let h0 = hex_val(cs[i + 2]);
                let h1 = hex_val(cs[i + 3]);
                let h2 = hex_val(cs[i + 4]);
                let h3 = hex_val(cs[i + 5]);
                proof {
                    if let Some((e, t)) = expect {
                        let x = e[k];
                        if (x as u32) < 0x20 && x != '\n' && x != '\r' && x != '\t' && x != '\x08'
                            && x != '\x0c' {
                            assert(k < e.len());
                            assert(escape_char(x).len() == 6);
                            assert(cs@[i + 1] == escape_char(x)[1]);
                            assert(escape_char(x)[2] == cs@[i + 2]);
                            assert(escape_char(x)[3] == cs@[i + 3]);
                            assert(escape_char(x)[4] == cs@[i + 4]);
                            assert(escape_char(x)[5] == cs@[i + 5]);
                            assert(hex_digit(0) == '0');
                            let hi = (x as u32) / 16;
                            let lo = (x as u32) % 16;
                            assert(0 <= hi < 2) by (nonlinear_arith)
                                requires
                                    hi == (x as u32) / 16,
                                    (x as u32) < 32;
                            assert(x as u32 == hi * 16 + lo) by (nonlinear_arith)
                                requires
                                    hi == (x as u32) / 16,
                                    lo == (x as u32) % 16;
                            assert(cs@[i + 2] == hex_digit(0));
                            assert(cs@[i + 4] == hex_digit(hi as int));
                            assert(h0 == Some(0u32));
                            assert(h1 == Some(0u32));
                            assert(h2 == Some(hi as u32));
                            assert(h3 == Some(lo as u32));
                            assert(h0.unwrap() * 4096 + h1.unwrap() * 256 + h2.unwrap() * 16 + h3.unwrap() == x as u32);
                        }
                    }
                }
                if h0.is_none() || h1.is_none() || h2.is_none() || h3.is_none() {
                    return None;
                }
                let v = h0.unwrap() * 4096 + h1.unwrap() * 256 + h2.unwrap() * 16 + h3.unwrap();
                if v >= 0x80 {
                    return None;
                }
                decoded = (v as u8) as char;
                proof {
                    assert(decoded as u32 == v);
                }
                width = 6;
            } else {
                return None;
            }
            proof {
                if let Some((e, t)) = expect {
                    let x = e[k];
                    assert(k < e.len());
                    assert(escape_char(x)[0] == '\\');
                    assert(escape_char(x)[1] == n);
                    assert(escape_char(x).len() == width);
                    if n == 'u' {
                        assert((x as u32) < 0x20 && x != '\n' && x != '\r' && x != '\t' && x
                            != '\x08' && x != '\x0c');
                        assert(decoded as u32 == x as u32);
                        lemma_same_code(decoded, x);
                    } else if n == '/' {
                        assert(false);
                    } else if n == '"' {
                        assert(x == '"');
                    } else if n == '\\' {
                        assert(x == '\\');
                    } else if n == 'n' {
                        assert(x == '\n');
                    } else if n == 'r' {
                        assert(x == '\r');
                    } else if n == 't' {
                        assert(x == '\t');
                    } else if n == 'b' {
                        assert(x == '\x08');
                    } else {
                        assert(x == '\x0c');
                    }
                    assert(decoded == x);
                }
            }
            push_char(&mut out, decoded);
            i = i + width;
        } else {
            if (c as u32) < 0x20 {
                proof {
                    if let Some((e, t)) = expect {
                        assert(escape_char(e[k])[0] == c);
                    }
                }
                return None;
            }
            proof {
                if let Some((e, t)) = expect {
                    assert(escape_char(e[k])[0] == c);
                    assert(escape_char(e[k]) == seq![c]);
                }
            }
            push_char(&mut out, c);
            i = i + 1;
        }
        proof {
            if let Some((e, t)) = expect {
                assert(e.take(k + 1) =~= e.take(k).push(e[k]));
                k = k + 1;
            }
        }
    }
}

proof fn lemma_decimal_digits(m: int)
    requires
        m >= 0,
    ensures
        all_digits(decimal(m)),
        decimal(m).len() >= 1,
        digits_value(decimal(m)) == m,
    decreases m,
{
    let s = decimal(m);
    if m < 10 {
        assert(s.drop_last() =~= Seq::<char>::empty());
        assert(s.last() == digit_char(m));
        assert(digit_char(m) as int == m + 48);
        assert(digits_value(s) == digits_value(s.drop_last()) * 10 + (s.last() as int - '0' as int));
        assert(digits_value(s.drop_last()) == 0);
    } else {
        lemma_decimal_digits(m / 10);
        assert(s.drop_last() =~= decimal(m / 10));
        assert(s.last() == digit_char(m % 10));
        assert(digit_char(m % 10) as int == m % 10 + 48);
        assert(digits_value(s) == digits_value(s.drop_last()) * 10 + (s.last() as int - '0' as int));
        assert(m == (m / 10) * 10 + m % 10);
        assert forall|i: int| 0 <= i < s.len() implies '0' <= #[trigger] s[i] <= '9' by {
            if i < s.len() - 1 {
                assert(s[i] == decimal(m / 10)[i]);
            }
        }
    }
}

/// Reads a decimal integer, `-` before a negative one, at `pos`; returns it
/// and the position after its last digit.
fn parse_int(cs: &Vec<char>, pos: usize, Ghost(expect): Ghost<Option<(int, Seq<char>)>>) -> (r:
    Option<(i64, usize)>)
    requires
        pos <= cs@.len(),
        expect matches Some((n, t)) ==> {
            &&& i64::MIN <= n <= i64::MAX
            &&& cs@.skip(pos as int) == decimal(n) + t
            &&& (t.len() == 0 || !is_digit(t[0]))
        },
    ensures
        r matches Some((_, p)) ==> pos < p <= cs@.len(),
        expect matches Some((n, t)) ==> (r matches Some((v, p)) && v as int == n && cs@.skip(
            p as int,
        ) == t),
{
    let ghost m: int = match expect {
        Some((n, _)) => if n < 0 {
            -n
        } else {
            n
        },
        None => 0,
    };
    let ghost dm = decimal(m);
    let mut i: usize = pos;
    let neg = i < cs.len() && cs[i] == '-';
    proof {
        if let Some((n, t)) = expect {
            lemma_decimal_digits(m);
            if n < 0 {
                assert(decimal(n) == seq!['-'] + dm);
                assert(decimal(n) + t == seq!['-'] + (dm + t));
                lemma_skip_concat(cs@, pos as int, seq!['-'], dm + t);
                assert(cs@[pos as int] == seq!['-'][0]);
            } else {
                lemma_skip_concat(cs@, pos as int, dm, t);
                assert(cs@[pos as int] == dm[0]);
            }
        }
    }
    if neg {
        i = i + 1;
    }
    let start = i;
    proof {
        if let Some((n, t)) = expect {
            lemma_skip_concat(cs@, start as int, dm, t);
            assert(n < 0 <==> neg);
        }
    }
    let mut mag: u64 = 0;
    while i < cs.len() && '0' <= cs[i] && cs[i] <= '9'
        invariant
            pos <= start <= i <= cs@.len(),
            expect matches Some((n, t)) ==> {
                &&& i - start <= dm.len()
                &&& mag as int == digits_value(dm.take(i - start))
                &&& cs@.skip(start as int) == dm + t
                &&& forall|j: int| 0 <= j < dm.len() ==> cs@[start + j] == #[trigger] dm[j]
                &&& start + dm.len() <= cs@.len()
                &&& cs@.skip(start + dm.len()) == t
                &&& all_digits(dm)
                &&& digits_value(dm) == m
                &&& 0 <= m <= 0x8000_0000_0000_0000
                &&& (t.len() == 0 || !is_digit(t[0]))
            },
        decreases cs@.len() - i,
    {
        let d = (cs[i] as u32 - 48) as u64;
        proof {
            if let Some((n, t)) = expect {
                let j = i - start;
                if j == dm.len() {
                    assert(cs@.skip(start + dm.len()).len() > 0);
                    assert(cs@.skip(start + dm.len())[0] == cs@[i as int]);
                    assert(t.len() > 0);
                    assert(t[0] == cs@[i as int]);
                    assert(is_digit(cs@[i as int]));
                    assert(t.len() == 0 || !is_digit(t[0]));
                }
                assert(j < dm.len());
                assert(dm.take(j + 1).drop_last() =~= dm.take(j));
                assert(dm.take(j + 1).last() == cs@[i as int]);
                lemma_prefix_value_below(dm, j + 1);
                assert(digits_value(dm.take(j + 1)) == mag * 10 + d);
            }
        }
        let next = match mag.checked_mul(10) {
            Some(x) => x.checked_add(d),
            None => None,
        };
        match next {
            Some(v) => {
                mag = v;
            },
            None => {
                return None;
            },
        }
        i = i + 1;
    }
    if i == start {
        proof {
            if let Some((n, t)) = expect {
                assert(cs@[start as int] == dm[0]);
                assert(all_digits(dm));
            }
        }
        return None;
    }
    proof {
        if let Some((n, t)) = expect {
            let j = i - start;
            if j < dm.len() {
                assert(cs@[start + j] == dm[j]);
            }
            assert(j == dm.len());
            assert(dm.take(j) =~= dm);
        }
    }
    let value: i64;
    if neg {
        if mag > 0x8000_0000_0000_0000 {
            return None;
        }
        if mag == 0x8000_0000_0000_0000 {
            value = i64::MIN;
        } else {
            value = -(mag as i64);
        }
    } else {
        if mag > 0x7fff_ffff_ffff_ffff {
            return None;
        }
        value = mag as i64;
    }
    Some((value, i))
}

pub open spec fn name_item(p: (String, String)) -> Seq<char> {
    quoted(p.0@) + seq![':'] + quoted(p.1@)
}

pub open spec fn score_item(p: (String, i64)) -> Seq<char> {
    quoted(p.0@) + seq![':'] + decimal(p.1 as int)
}

pub open spec fn name_item_fn() -> spec_fn((String, String)) -> Seq<char> {
    |p: (String, String)| name_item(p)
}

pub open spec fn score_item_fn() -> spec_fn((String, i64)) -> Seq<char> {
    |p: (String, i64)| score_item(p)
}

/// The members of a table from position `k` on, each after a comma.
pub open spec fn members_from<V>(s: Seq<(String, V)>, item: spec_fn((String, V)) -> Seq<char>, k: int) -> Seq<
    char,
>
    decreases s.len() - k,
{
    if k < 0 || k >= s.len() {
        Seq::empty()
    } else {
        seq![','] + item(s[k]) + members_from(s, item, k + 1)
    }
}

proof fn lemma_members_from_last<V>(s: Seq<(String, V)>, item: spec_fn((String, V)) -> Seq<char>, k: int)
    requires
        1 <= k <= s.len() - 1,
    ensures
        members_from(s, item, k) == members_from(s.drop_last(), item, k) + seq![','] + item(
            s.last(),
        ),
    decreases s.len() - k,
{
    let p = s.drop_last();
    if k == s.len() - 1 {
        assert(members_from(s, item, k + 1) =~= Seq::<char>::empty());
        assert(members_from(p, item, k) =~= Seq::<char>::empty());
        assert(members_from(s, item, k) =~= members_from(p, item, k) + seq![','] + item(s.last()));
    } else {
        lemma_members_from_last(s, item, k + 1);
        assert(s[k] == p[k]);
        assert(members_from(s, item, k) =~= members_from(p, item, k) + seq![','] + item(s.last()));
    }
}

proof fn lemma_name_members_forward(s: Seq<(String, String)>)
    requires
        s.len() >= 1,
    ensures
        name_members(s) == name_item(s[0]) + members_from(s, name_item_fn(), 1),
    decreases s.len(),
{
    let f = name_item_fn();
    if s.len() == 1 {
        assert(members_from(s, f, 1) =~= Seq::<char>::empty());
        assert(name_members(s) =~= name_item(s[0]) + members_from(s, f, 1));
    } else {
        let p = s.drop_last();
        lemma_name_members_forward(p);
        lemma_members_from_last(s, f, 1);
        assert(p[0] == s[0]);
        assert(name_members(s) =~= name_item(s[0]) + members_from(s, f, 1));
    }
}

proof fn lemma_score_members_forward(s: Seq<(String, i64)>)
    requires
        s.len() >= 1,
    ensures
        score_members(s) == score_item(s[0]) + members_from(s, score_item_fn(), 1),
    decreases s.len(),
{
    let f = score_item_fn();
    if s.len() == 1 {
        assert(members_from(s, f, 1) =~= Seq::<char>::empty());
        assert(score_members(s) =~= score_item(s[0]) + members_from(s, f, 1));
    } else {
        let p = s.drop_last();
        lemma_score_members_forward(p);
        lemma_members_from_last(s, f, 1);
        assert(p[0] == s[0]);
        assert(score_members(s) =~= score_item(s[0]) + members_from(s, f, 1));
    }
}

pub open spec fn name_views(s: Seq<(String, String)>) -> Seq<(Seq<char>, Seq<char>)> {
    s.map_values(|p: (String, String)| (p.0@, p.1@))
}

pub open spec fn score_views(s: Seq<(String, i64)>) -> Seq<(Seq<char>, i64)> {
    s.map_values(|p: (String, i64)| (p.0@, p.1))
}

/// Reads the `"id":"nickname"` members of an object, up to its closing brace.
fn parse_names(cs: &Vec<char>, pos: usize, Ghost(expect): Ghost<
    Option<(Seq<(String, String)>, Seq<char>)>,
>) -> (r: Option<(Vec<(String, String)>, usize)>)
    requires
        pos <= cs@.len(),
        expect matches Some((s, t)) ==> cs@.skip(pos as int) == name_members(s) + t && t.len() > 0
            && t[0] == '}',
    ensures
        r matches Some((_, p)) ==> pos <= p <= cs@.len(),
        expect matches Some((s, t)) ==> (r matches Some((v, p)) && name_views(v@) == name_views(s)
            && cs@.skip(p as int) == t),
{

    let mut out: Vec<(String, String)> = Vec::new();
    proof {
        if let Some((s, t)) = expect {
            if s.len() == 0 {
                assert(name_members(s) + t =~= t);
                assert(cs@.skip(pos as int).len() > 0);
                assert(cs@.skip(pos as int)[0] == cs@[pos as int]);
            } else {
                lemma_name_members_forward(s);
                assert(cs@.skip(pos as int).len() > 0);
                assert(cs@.skip(pos as int)[0] == cs@[pos as int]);
                assert((name_members(s) + t)[0] == quoted(s[0].0@)[0]);
            }
        }
    }
    if pos < cs.len() && cs[pos] == '}' {
        proof {
            if let Some((s, t)) = expect {
                assert(s.len() == 0);
                assert(name_views(out@) =~= name_views(s));
                assert(name_members(s) + t =~= t);
            }
        }
        return Some((out, pos));
    }
    let mut i: usize = pos;
    let ghost mut k: int = 0;
    proof {
        if let Some((s, t)) = expect {
            assert(s.len() > 0);
            assert(name_members(s) + t =~= name_item(s[0]) + members_from(s, name_item_fn(), 1) + t);
            assert(name_views(out@) =~= name_views(s.take(0)));
        }
    }
    loop
        invariant
            pos <= i <= cs@.len(),
            expect matches Some((s, t)) ==> {
                &&& 0 <= k < s.len()
                &&& name_views(out@) == name_views(s.take(k))
                &&& cs@.skip(i as int) == name_item(s[k]) + members_from(s, name_item_fn(), k + 1) + t
                &&& t.len() > 0
                &&& t[0] == '}'
            },
        decreases cs@.len() - i,
    {
        let ghost rest: Seq<char> = match expect {
            Some((s, t)) => members_from(s, name_item_fn(), k + 1) + t,
            None => Seq::empty(),
        };
        let ghost key_exp = match expect {
            Some((s, t)) => Some((s[k].0@, seq![':'] + (quoted(s[k].1@) + rest))),
            None => None,
        };
        proof {
            if let Some((s, t)) = expect {
                assert(name_item(s[k]) + members_from(s, name_item_fn(), k + 1) + t =~= quoted(s[k].0@) + (seq![
                    ':',
                ] + (quoted(s[k].1@) + rest)));
            }
        }
        let (key, i1) = match parse_string(cs, i, Ghost(key_exp)) {
            Some(x) => x,
            None => {
                return None;
            },
        };
        let ghost lit_exp = match expect {
            Some((s, t)) => Some(quoted(s[k].1@) + rest),
            None => None,
        };
        proof {
            reveal_strlit(":");
            assert(":"@ =~= seq![':']);
        }
        let i2 = match expect_lit(cs, i1, ":", Ghost(lit_exp)) {
            Some(x) => x,
            None => {
                return None;
            },
        };
        let ghost val_exp = match expect {
            Some((s, t)) => Some((s[k].1@, rest)),
            None => None,
        };
        let (val, i3) = match parse_string(cs, i2, Ghost(val_exp)) {
            Some(x) => x,
            None => {
                return None;
            },
        };
        let ghost prev = out@;
        out.push((key, val));
        i = i3;
        proof {
            if let Some((s, t)) = expect {
                assert(s.take(k + 1) =~= s.take(k).push(s[k]));
                assert(name_views(s.take(k + 1)) =~= name_views(s.take(k)).push(name_views(s.take(k + 1))[k]));
                assert(name_views(out@) =~= name_views(prev).push(name_views(out@)[k]));
                assert(name_views(out@)[k] == name_views(s.take(k + 1))[k]);
                assert(name_views(out@) =~= name_views(s.take(k + 1)));
                if k + 1 < s.len() {
                    assert(members_from(s, name_item_fn(), k + 1) == seq![','] + name_item_fn()(s[k + 1]) + members_from(
                        s,
                        name_item_fn(),
                        k + 2,
                    ));
                    assert(name_item_fn()(s[k + 1]) == name_item(s[k + 1]));
                    assert(rest =~= seq![','] + (name_item(s[k + 1]) + members_from(s, name_item_fn(), k + 2)
                        + t));
                } else {
                    assert(members_from(s, name_item_fn(), k + 1) =~= Seq::<char>::empty());
                    assert(rest =~= t);
                }
                assert(rest.len() > 0);
                assert(cs@.skip(i as int).len() > 0);
                assert(cs@.skip(i as int)[0] == cs@[i as int]);
            }
        }
        if i < cs.len() && cs[i] == ',' {
            proof {
                if let Some((s, t)) = expect {
                    assert(k + 1 < s.len());
                    lemma_skip_concat(
                        cs@,
                        i as int,
                        seq![','],
                        name_item(s[k + 1]) + members_from(s, name_item_fn(), k + 2) + t,
                    );
                    k = k + 1;
                }
            }
            i = i + 1;
        } else if i < cs.len() && cs[i] == '}' {
            proof {
                if let Some((s, t)) = expect {
                    assert(k + 1 == s.len());
                    assert(s.take(k + 1) =~= s);
                }
            }
            return Some((out, i));
        } else {
            return None;
        }
    }
}

/// Reads the `"id":score` members of an object, up to its closing brace.
fn parse_scores(cs: &Vec<char>, pos: usize, Ghost(expect): Ghost<
    Option<(Seq<(String, i64)>, Seq<char>)>,
>) -> (r: Option<(Vec<(String, i64)>, usize)>)
    requires
        pos <= cs@.len(),
        expect matches Some((s, t)) ==> cs@.skip(pos as int) == score_members(s) + t && t.len() > 0
            && t[0] == '}',
    ensures
        r matches Some((_, p)) ==> pos <= p <= cs@.len(),
        expect matches Some((s, t)) ==> (r matches Some((v, p)) && score_views(v@) == score_views(s)
            && cs@.skip(p as int) == t),
{

    let mut out: Vec<(String, i64)> = Vec::new();
    proof {
        if let Some((s, t)) = expect {
            if s.len() == 0 {
                assert(score_members(s) + t =~= t);
                assert(cs@.skip(pos as int).len() > 0);
                assert(cs@.skip(pos as int)[0] == cs@[pos as int]);
            } else {
                lemma_score_members_forward(s);
                assert(cs@.skip(pos as int).len() > 0);
                assert(cs@.skip(pos as int)[0] == cs@[pos as int]);
                assert((score_members(s) + t)[0] == quoted(s[0].0@)[0]);
            }
        }
    }
    if pos < cs.len() && cs[pos] == '}' {
        proof {
            if let Some((s, t)) = expect {
                assert(s.len() == 0);
                assert(score_views(out@) =~= score_views(s));
                assert(score_members(s) + t =~= t);
            }
        }
        return Some((out, pos));
    }
    let mut i: usize = pos;
    let ghost mut k: int = 0;
    proof {
        if let Some((s, t)) = expect {
            assert(s.len() > 0);
            assert(score_members(s) + t =~= score_item(s[0]) + members_from(s, score_item_fn(), 1) + t);
            assert(score_views(out@) =~= score_views(s.take(0)));
        }
    }
    loop
        invariant
            pos <= i <= cs@.len(),
            expect matches Some((s, t)) ==> {
                &&& 0 <= k < s.len()
                &&& score_views(out@) == score_views(s.take(k))
                &&& cs@.skip(i as int) == score_item(s[k]) + members_from(s, score_item_fn(), k + 1) + t
                &&& t.len() > 0
                &&& t[0] == '}'
            },
        decreases cs@.len() - i,
    {
        let ghost rest: Seq<char> = match expect {
            Some((s, t)) => members_from(s, score_item_fn(), k + 1) + t,
            None => Seq::empty(),
        };
        let ghost key_exp = match expect {
            Some((s, t)) => Some((s[k].0@, seq![':'] + (decimal(s[k].1 as int) + rest))),
            None => None,
        };
        proof {
            if let Some((s, t)) = expect {
                assert(score_item(s[k]) + members_from(s, score_item_fn(), k + 1) + t =~= quoted(s[k].0@) + (seq![
                    ':',
                ] + (decimal(s[k].1 as int) + rest)));
            }
        }
        let (key, i1) = match parse_string(cs, i, Ghost(key_exp)) {
            Some(x) => x,
            None => {
                return None;
            },
        };
        let ghost lit_exp = match expect {
            Some((s, t)) => Some(decimal(s[k].1 as int) + rest),
            None => None,
        };
        proof {
            reveal_strlit(":");
            assert(":"@ =~= seq![':']);
        }
        let i2 = match expect_lit(cs, i1, ":", Ghost(lit_exp)) {
            Some(x) => x,
            None => {
                return None;
            },
        };
        let ghost val_exp = match expect {
            Some((s, t)) => Some((s[k].1 as int, rest)),
            None => None,
        };
        proof {
            if let Some((s, t)) = expect {
                if k + 1 < s.len() {
                    assert(members_from(s, score_item_fn(), k + 1) == seq![','] + score_item_fn()(s[k + 1]) + members_from(
                        s,
                        score_item_fn(),
                        k + 2,
                    ));
                    assert(score_item_fn()(s[k + 1]) == score_item(s[k + 1]));
                    assert(rest =~= seq![','] + (score_item(s[k + 1]) + members_from(s, score_item_fn(), k + 2)
                        + t));
                } else {
                    assert(members_from(s, score_item_fn(), k + 1) =~= Seq::<char>::empty());
                    assert(rest =~= t);
                }
                assert(rest.len() > 0);
                assert(rest[0] == ',' || rest[0] == '}');
            }
        }
        let (val, i3) = match parse_int(cs, i2, Ghost(val_exp)) {
            Some(x) => x,
            None => {
                return None;
            },
        };
        let ghost prev = out@;
        out.push((key, val));
        i = i3;
        proof {
            if let Some((s, t)) = expect {
                assert(s.take(k + 1) =~= s.take(k).push(s[k]));
                assert(score_views(s.take(k + 1)) =~= score_views(s.take(k)).push(score_views(s.take(k + 1))[k]));
                assert(score_views(out@) =~= score_views(prev).push(score_views(out@)[k]));
                assert(score_views(out@)[k] == score_views(s.take(k + 1))[k]);
                assert(score_views(out@) =~= score_views(s.take(k + 1)));
                assert(cs@.skip(i as int).len() > 0);
                assert(cs@.skip(i as int)[0] == cs@[i as int]);
            }
        }
        if i < cs.len() && cs[i] == ',' {
            proof {
                if let Some((s, t)) = expect {
                    assert(k + 1 < s.len());
                    lemma_skip_concat(
                        cs@,
                        i as int,
                        seq![','],
                        score_item(s[k + 1]) + members_from(s, score_item_fn(), k + 2) + t,
                    );
                    k = k + 1;
                }
            }
            i = i + 1;
        } else if i < cs.len() && cs[i] == '}' {
            proof {
                if let Some((s, t)) = expect {
                    assert(k + 1 == s.len());
                    assert(s.take(k + 1) =~= s);
                }
            }
            return Some((out, i));
        } else {
            return None;
        }
    }
}

proof fn lemma_name_views_text(a: Seq<(String, String)>, b: Seq<(String, String)>)
    requires
        name_views(a) == name_views(b),
    ensures
        name_members(a) == name_members(b),
        keys_unique(a) ==> keys_unique(b),
    decreases a.len(),
{
    assert(a.len() == name_views(a).len());
    assert(b.len() == name_views(b).len());
    assert forall|i: int| 0 <= i < a.len() implies a[i].0@ == b[i].0@ && a[i].1@ == b[i].1@ by {
        assert(name_views(a)[i] == name_views(b)[i]);
    }
    if a.len() > 0 {
        assert(name_views(a.drop_last()) =~= name_views(b.drop_last()));
        lemma_name_views_text(a.drop_last(), b.drop_last());
        assert(a.last().0@ == b.last().0@);
        assert(a.last().1@ == b.last().1@);
    }
}

proof fn lemma_score_views_text(a: Seq<(String, i64)>, b: Seq<(String, i64)>)
    requires
        score_views(a) == score_views(b),
    ensures
        score_members(a) == score_members(b),
        keys_unique(a) ==> keys_unique(b),
    decreases a.len(),
{
    assert(a.len() == score_views(a).len());
    assert(b.len() == score_views(b).len());
    assert forall|i: int| 0 <= i < a.len() implies a[i].0@ == b[i].0@ && a[i].1 == b[i].1 by {
        assert(score_views(a)[i] == score_views(b)[i]);
    }
    if a.len() > 0 {
        assert(score_views(a.drop_last()) =~= score_views(b.drop_last()));
        lemma_score_views_text(a.drop_last(), b.drop_last());
        assert(a.last().0@ == b.last().0@);
        assert(a.last().1 == b.last().1);
    }
}

/// Two documents hold the same texts and numbers, entry for entry.
pub open spec fn same_document(a: QuizRoom, b: QuizRoom) -> bool {
    &&& a.same_header(&b)
    &&& name_views(a.players@) == name_views(b.players@)
    &&& score_views(a.scores@) == score_views(b.scores@)
}

/// Reads `true` or `false` at `pos`.
fn parse_bool(cs: &Vec<char>, pos: usize, Ghost(expect): Ghost<Option<(bool, Seq<char>)>>) -> (r:
    Option<(bool, usize)>)
    requires
        pos <= cs@.len(),
        expect matches Some((b, t)) ==> cs@.skip(pos as int) == bool_text(b) + t,
    ensures
        r matches Some((_, p)) ==> pos <= p <= cs@.len(),
        expect matches Some((b, t)) ==> (r matches Some((v, p)) && v == b && cs@.skip(p as int)
            == t),
{
    proof {
        reveal_strlit("true");
        reveal_strlit("false");
        if let Some((b, t)) = expect {
            assert(cs@.skip(pos as int).len() > 0);
            assert(cs@.skip(pos as int)[0] == cs@[pos as int]);
        }
    }
    if pos < cs.len() && cs[pos] == 't' {
        let ghost tail = match expect {
            Some((b, t)) => Some(t),
            None => None,
        };
        match expect_lit(cs, pos, "true", Ghost(tail)) {
            Some(p) => Some((true, p)),
            None => None,
        }
    } else {
        let ghost tail = match expect {
            Some((b, t)) => Some(t),
            None => None,
        };
        match expect_lit(cs, pos, "false", Ghost(tail)) {
            Some(p) => Some((false, p)),
            None => None,
        }
    }
}

/// The stored text of a document from its member tables on.
pub open spec fn body_text(d: QuizRoom) -> Seq<char> {
    ",\"players\":{"@ + (name_members(d.players@) + ("},\"scores\":{"@ + (score_members(d.scores@)
        + ("},\"current_slide\":"@ + (decimal(d.current_slide as int) + (",\"started\":"@ + (
    bool_text(d.started) + "}"@)))))))
}

/// The stored text of a document, parted at each field.
pub open spec fn parted_text(d: QuizRoom) -> Seq<char> {
    "{\"quiz_id\":"@ + (quoted(d.quiz_id@) + (",\"owner_id\":"@ + (quoted(d.owner_id@) + (
    ",\"room_code\":"@ + (quoted(d.room_code@) + (",\"created_at\":"@ + (decimal(
        d.created_at as int,
    ) + body_text(d))))))))
}

#[verifier::rlimit(40)]
proof fn lemma_parted_text(d: QuizRoom)
    ensures
        document_text(d) == parted_text(d),
{
    let part0 = "{\"quiz_id\":"@;
    let part1 = quoted(d.quiz_id@);
    let part2 = ",\"owner_id\":"@;
    let part3 = quoted(d.owner_id@);
    let part4 = ",\"room_code\":"@;
    let part5 = quoted(d.room_code@);
    let part6 = ",\"created_at\":"@;
    let part7 = decimal(d.created_at as int);
    let part8 = ",\"players\":{"@;
    let part9 = name_members(d.players@);
    let part10 = "},\"scores\":{"@;
    let part11 = score_members(d.scores@);
    let part12 = "},\"current_slide\":"@;
    let part13 = decimal(d.current_slide as int);
    let part14 = ",\"started\":"@;
    let part15 = bool_text(d.started);
    let part16 = "}"@;
    let left0 = part0;
    let left1 = left0 + part1;
    let left2 = left1 + part2;
    let left3 = left2 + part3;
    let left4 = left3 + part4;
    let left5 = left4 + part5;
    let left6 = left5 + part6;
    let left7 = left6 + part7;
    let left8 = left7 + part8;
    let left9 = left8 + part9;
    let left10 = left9 + part10;
    let left11 = left10 + part11;
    let left12 = left11 + part12;
    let left13 = left12 + part13;
    let left14 = left13 + part14;
    let left15 = left14 + part15;
    let left16 = left15 + part16;
    let right16 = part16;
    let right15 = part15 + right16;
    let right14 = part14 + right15;
    let right13 = part13 + right14;
    let right12 = part12 + right13;
    let right11 = part11 + right12;
    let right10 = part10 + right11;
    let right9 = part9 + right10;
    let right8 = part8 + right9;
    let right7 = part7 + right8;
    let right6 = part6 + right7;
    let right5 = part5 + right6;
    let right4 = part4 + right5;
    let right3 = part3 + right4;
    let right2 = part2 + right3;
    let right1 = part1 + right2;
    let right0 = part0 + right1;
    assert(document_text(d) == left16);
    assert(parted_text(d) == right0);
    assert(left16 == left15 + right16);
    lemma_concat_associative(left14, part15, right16);
    assert(left16 == left14 + right15);
    lemma_concat_associative(left13, part14, right15);
    assert(left16 == left13 + right14);
    lemma_concat_associative(left12, part13, right14);
    assert(left16 == left12 + right13);
    lemma_concat_associative(left11, part12, right13);
    assert(left16 == left11 + right12);
    lemma_concat_associative(left10, part11, right12);
    assert(left16 == left10 + right11);
    lemma_concat_associative(left9, part10, right11);
    assert(left16 == left9 + right10);
    lemma_concat_associative(left8, part9, right10);
    assert(left16 == left8 + right9);
    lemma_concat_associative(left7, part8, right9);
    assert(left16 == left7 + right8);
    lemma_concat_associative(left6, part7, right8);
    assert(left16 == left6 + right7);
    lemma_concat_associative(left5, part6, right7);
    assert(left16 == left5 + right6);
    lemma_concat_associative(left4, part5, right6);
    assert(left16 == left4 + right5);
    lemma_concat_associative(left3, part4, right5);
    assert(left16 == left3 + right4);
    lemma_concat_associative(left2, part3, right4);
    assert(left16 == left2 + right3);
    lemma_concat_associative(left1, part2, right3);
    assert(left16 == left1 + right2);
    lemma_concat_associative(left0, part1, right2);
    assert(left16 == left0 + right1);
}

/// Reads the fields before the member tables.
fn parse_head(cs: &Vec<char>, Ghost(expect): Ghost<Option<QuizRoom>>) -> (r: Option<
    (String, String, String, i64, usize),
>)
    requires
        expect matches Some(d) ==> cs@ == parted_text(d),
    ensures
        r matches Some((_, _, _, _, p)) ==> p <= cs@.len(),
        expect matches Some(d) ==> (r matches Some((q, o, c, t, p)) && q@ == d.quiz_id@ && o@
            == d.owner_id@ && c@ == d.room_code@ && t == d.created_at && cs@.skip(p as int)
            == body_text(d)),
{
    proof {
        assert(cs@.skip(0) =~= cs@);
    }
    let ghost t1 = match expect {
        Some(d) => Some(quoted(d.quiz_id@) + (",\"owner_id\":"@ + (quoted(d.owner_id@) + (
        ",\"room_code\":"@ + (quoted(d.room_code@) + (",\"created_at\":"@ + (decimal(
            d.created_at as int,
        ) + body_text(d)))))))),
        None => None,
    };
    let p = match expect_lit(cs, 0, "{\"quiz_id\":", Ghost(t1)) {
        Some(p) => p,
        None => {
            return None;
        },
    };
    let ghost e1 = match expect {
        Some(d) => Some((d.quiz_id@, ",\"owner_id\":"@ + (quoted(d.owner_id@) + (",\"room_code\":"@
            + (quoted(d.room_code@) + (",\"created_at\":"@ + (decimal(d.created_at as int)
            + body_text(d)))))))),
        None => None,
    };
    let (quiz_id, p) = match parse_string(cs, p, Ghost(e1)) {
        Some(x) => x,
        None => {
            return None;
        },
    };
    let ghost t2 = match expect {
        Some(d) => Some(quoted(d.owner_id@) + (",\"room_code\":"@ + (quoted(d.room_code@) + (
        ",\"created_at\":"@ + (decimal(d.created_at as int) + body_text(d)))))),
        None => None,
    };
    let p = match expect_lit(cs, p, ",\"owner_id\":", Ghost(t2)) {
        Some(p) => p,
        None => {
            return None;
        },
    };
    let ghost e2 = match expect {
        Some(d) => Some((d.owner_id@, ",\"room_code\":"@ + (quoted(d.room_code@) + (
        ",\"created_at\":"@ + (decimal(d.created_at as int) + body_text(d)))))),
        None => None,
    };
    let (owner_id, p) = match parse_string(cs, p, Ghost(e2)) {
        Some(x) => x,
        None => {
            return None;
        },
    };
    let ghost t3 = match expect {
        Some(d) => Some(quoted(d.room_code@) + (",\"created_at\":"@ + (decimal(d.created_at as int)
            + body_text(d)))),
        None => None,
    };
    let p = match expect_lit(cs, p, ",\"room_code\":", Ghost(t3)) {
        Some(p) => p,
        None => {
            return None;
        },
    };
    let ghost e3 = match expect {
        Some(d) => Some((d.room_code@, ",\"created_at\":"@ + (decimal(d.created_at as int)
            + body_text(d)))),
        None => None,
    };
    let (room_code, p) = match parse_string(cs, p, Ghost(e3)) {
        Some(x) => x,
        None => {
            return None;
        },
    };
    let ghost t4 = match expect {
        Some(d) => Some(decimal(d.created_at as int) + body_text(d)),
        None => None,
    };
    let p = match expect_lit(cs, p, ",\"created_at\":", Ghost(t4)) {
        Some(p) => p,
        None => {
            return None;
        },
    };
    let ghost e4 = match expect {
        Some(d) => Some((d.created_at as int, body_text(d))),
        None => None,
    };
    proof {
        reveal_strlit(",\"players\":{");
        if let Some(d) = expect {
            assert(body_text(d)[0] == ',');
        }
    }
    let (created_at, p) = match parse_int(cs, p, Ghost(e4)) {
        Some(x) => x,
        None => {
            return None;
        },
    };
    Some((quiz_id, owner_id, room_code, created_at, p))
}

/// Reads the member tables and the fields after them, to the end of the text.
fn parse_body(cs: &Vec<char>, pos: usize, Ghost(expect): Ghost<Option<QuizRoom>>) -> (r: Option<
    (Vec<(String, String)>, Vec<(String, i64)>, i32, bool),
>)
    requires
        pos <= cs@.len(),
        expect matches Some(d) ==> cs@.skip(pos as int) == body_text(d),
    ensures
        expect matches Some(d) ==> (r matches Some((pl, sc, sl, st)) && name_views(pl@)
            == name_views(d.players@) && score_views(sc@) == score_views(d.scores@) && sl
            == d.current_slide && st == d.started),
{
    proof {
        reveal_strlit("},\"scores\":{");
        reveal_strlit("},\"current_slide\":");
        reveal_strlit(",\"started\":");
        reveal_strlit("}");
    }
    let ghost t5 = match expect {
        Some(d) => Some(name_members(d.players@) + ("},\"scores\":{"@ + (score_members(d.scores@)
            + ("},\"current_slide\":"@ + (decimal(d.current_slide as int) + (",\"started\":"@ + (
        bool_text(d.started) + "}"@))))))),
        None => None,
    };
    let p = match expect_lit(cs, pos, ",\"players\":{", Ghost(t5)) {
        Some(p) => p,
        None => {
            return None;
        },
    };
    let ghost e5 = match expect {
        Some(d) => Some((d.players@, "},\"scores\":{"@ + (score_members(d.scores@) + (
        "},\"current_slide\":"@ + (decimal(d.current_slide as int) + (",\"started\":"@ + (
        bool_text(d.started) + "}"@))))))),
        None => None,
    };
    let (players, p) = match parse_names(cs, p, Ghost(e5)) {
        Some(x) => x,
        None => {
            return None;
        },
    };
    let ghost t6 = match expect {
        Some(d) => Some(score_members(d.scores@) + ("},\"current_slide\":"@ + (decimal(
            d.current_slide as int,
        ) + (",\"started\":"@ + (bool_text(d.started) + "}"@))))),
        None => None,
    };
    let p = match expect_lit(cs, p, "},\"scores\":{", Ghost(t6)) {
        Some(p) => p,
        None => {
            return None;
        },
    };
    let ghost e6 = match expect {
        Some(d) => Some((d.scores@, "},\"current_slide\":"@ + (decimal(d.current_slide as int) + (
        ",\"started\":"@ + (bool_text(d.started) + "}"@))))),
        None => None,
    };
    let (scores, p) = match parse_scores(cs, p, Ghost(e6)) {
        Some(x) => x,
        None => {
            return None;
        },
    };
    let ghost t7 = match expect {
        Some(d) => Some(decimal(d.current_slide as int) + (",\"started\":"@ + (bool_text(d.started)
            + "}"@))),
        None => None,
    };
    let p = match expect_lit(cs, p, "},\"current_slide\":", Ghost(t7)) {
        Some(p) => p,
        None => {
            return None;
        },
    };
    let ghost e7 = match expect {
        Some(d) => Some((d.current_slide as int, ",\"started\":"@ + (bool_text(d.started) + "}"@))),
        None => None,
    };
    let (slide, p) = match parse_int(cs, p, Ghost(e7)) {
        Some(x) => x,
        None => {
            return None;
        },
    };
    if slide < -2147483648 || slide > 2147483647 {
        return None;
    }
    let ghost t8 = match expect {
        Some(d) => Some(bool_text(d.started) + "}"@),
        None => None,
    };
    let p = match expect_lit(cs, p, ",\"started\":", Ghost(t8)) {
        Some(p) => p,
        None => {
            return None;
        },
    };
    let ghost e8 = match expect {
        Some(d) => Some((d.started, "}"@)),
        None => None,
    };
    let (started, p) = match parse_bool(cs, p, Ghost(e8)) {
        Some(x) => x,
        None => {
            return None;
        },
    };
    proof {
        assert("}"@ =~= "}"@ + Seq::<char>::empty());
    }
    let ghost t9 = match expect {
        Some(d) => Some(Seq::<char>::empty()),
        None => None,
    };
    let p = match expect_lit(cs, p, "}", Ghost(t9)) {
        Some(p) => p,
        None => {
            return None;
        },
    };
    if p != cs.len() {
        return None;
    }
    Some((players, scores, slide as i32, started))
}

/// `r` is what reading `text` as a stored room document gives: a document
/// only where the text is the stored form of one, and then one with the same
/// fields and entries as every well-formed document stored as that text.
pub open spec fn decodes(text: Seq<char>, r: Option<QuizRoom>) -> bool {
    &&& r matches Some(e) ==> e.wf() && document_text(e) == text
    &&& forall|d: QuizRoom|
        d.wf() && #[trigger] document_text(d) == text ==> (r matches Some(e) && same_document(e, d))
}

/// Reads a room document from the text under which it is stored. Exactly the
/// texts that `encode_room` writes for well-formed documents are read, each
/// to a document that is written back to the same text.
pub fn decode_room(text: &str) -> (r: Option<QuizRoom>)
    ensures
        decodes(text@, r),
{
    let cs = chars_of(text);
    let ghost ex = exists|d: QuizRoom| d.wf() && #[trigger] document_text(d) == text@;
    let ghost d = choose|d: QuizRoom| d.wf() && #[trigger] document_text(d) == text@;
    proof {
        if ex {
            lemma_parted_text(d);
        }
    }
    let (quiz_id, owner_id, room_code, created_at, p) = match parse_head(
        &cs,
        Ghost(if ex { Some(d) } else { None }),
    ) {
        Some(x) => x,
        None => {
            return None;
        },
    };
    let (players, scores, current_slide, started) = match parse_body(
        &cs,
        p,
        Ghost(if ex { Some(d) } else { None }),
    ) {
        Some(x) => x,
        None => {
            return None;
        },
    };
    let room = QuizRoom {
        quiz_id,
        owner_id,
        room_code,
        created_at,
        players,
        scores,
        current_slide,
        started,
    };
    proof {
        if ex {
            lemma_name_views_text(d.players@, room.players@);
            lemma_score_views_text(d.scores@, room.scores@);
            assert(document_text(room) == document_text(d));
        }
    }
    if !room.tables_unique() {
        return None;
    }
    let written = encode_room(&room);
    if !text_eq(written.as_str(), text) {
        return None;
    }
    proof {
        assert forall|e: QuizRoom| e.wf() && #[trigger] document_text(e) == text@ implies same_document(
            room,
            e,
        ) by {
            lemma_document_text_injective(room, e);
        }
    }
    Some(room)
}

proof fn lemma_strip(l: Seq<char>, x: Seq<char>, y: Seq<char>)
    requires
        l + x == l + y,
    ensures
        x == y,
{
    assert(x =~= (l + x).skip(l.len() as int));
    assert(y =~= (l + y).skip(l.len() as int));
}

proof fn lemma_hex_digit_inj(x: int, y: int)
    requires
        0 <= x < 16,
        0 <= y < 16,
        hex_digit(x) == hex_digit(y),
    ensures
        x == y,
{
    assert(hex_digit(x) as u32 == hex_digit(y) as u32);
}

proof fn lemma_escape_char_unique(a: char, b: char, s1: Seq<char>, s2: Seq<char>)
    requires
        escape_char(a) + s1 == escape_char(b) + s2,
    ensures
        a == b,
        s1 == s2,
{
    let x = escape_char(a) + s1;
    let ea = escape_char(a);
    let eb = escape_char(b);
    assert(x[0] == ea[0]);
    assert(x[0] == eb[0]);
    if ea.len() >= 2 && eb.len() >= 2 {
        assert(x[1] == ea[1]);
        assert(x[1] == eb[1]);
    }
    if ea.len() == 6 && eb.len() == 6 {
        assert(x[4] == ea[4]);
        assert(x[4] == eb[4]);
        assert(x[5] == ea[5]);
        assert(x[5] == eb[5]);
        let ha = ((a as u32) / 16) as int;
        let hb = ((b as u32) / 16) as int;
        let la = ((a as u32) % 16) as int;
        let lb = ((b as u32) % 16) as int;
        lemma_hex_digit_inj(ha, hb);
        lemma_hex_digit_inj(la, lb);
        assert(a as u32 == b as u32);
        lemma_same_code(a, b);
    }
    assert(a == b);
    assert(s1 =~= x.skip(ea.len() as int));
    assert(s2 =~= x.skip(eb.len() as int));
}

proof fn lemma_escape_not_quote(c: char)
    ensures
        escape_char(c)[0] != '"',
        escape_char(c).len() >= 1,
{
}

proof fn lemma_quoted_unique(x: Seq<char>, y: Seq<char>, r1: Seq<char>, r2: Seq<char>)
    requires
        escaped(x) + (seq!['"'] + r1) == escaped(y) + (seq!['"'] + r2),
    ensures
        x == y,
        r1 == r2,
    decreases x.len(),
{
    let lhs = escaped(x) + (seq!['"'] + r1);
    if x.len() == 0 {
        assert(escaped(x) =~= Seq::<char>::empty());
        assert(lhs[0] == '"');
        if y.len() > 0 {
            lemma_escaped_step(y, 0);
            assert(y.skip(0) =~= y);
            lemma_escape_not_quote(y[0]);
            assert(lhs[0] == escape_char(y[0])[0]);
        }
        assert(escaped(y) =~= Seq::<char>::empty());
        lemma_strip(seq!['"'], r1, r2);
        assert(x =~= y);
    } else if y.len() == 0 {
        assert(escaped(y) =~= Seq::<char>::empty());
        lemma_escaped_step(x, 0);
        assert(x.skip(0) =~= x);
        lemma_escape_not_quote(x[0]);
        assert(lhs[0] == escape_char(x[0])[0]);
    } else {
        lemma_escaped_step(x, 0);
        lemma_escaped_step(y, 0);
        assert(x.skip(0) =~= x);
        assert(y.skip(0) =~= y);
        assert(lhs =~= escape_char(x[0]) + (escaped(x.skip(1)) + (seq!['"'] + r1)));
        assert(escaped(y) + (seq!['"'] + r2) =~= escape_char(y[0]) + (escaped(y.skip(1)) + (seq![
            '"',
        ] + r2)));
        lemma_escape_char_unique(
            x[0],
            y[0],
            escaped(x.skip(1)) + (seq!['"'] + r1),
            escaped(y.skip(1)) + (seq!['"'] + r2),
        );
        lemma_quoted_unique(x.skip(1), y.skip(1), r1, r2);
        assert(x =~= seq![x[0]] + x.skip(1));
        assert(y =~= seq![y[0]] + y.skip(1));
    }
}

/// A quoted text followed by more text parts only one way.
proof fn lemma_quoted_prefix(x: Seq<char>, y: Seq<char>, r1: Seq<char>, r2: Seq<char>)
    requires
        quoted(x) + r1 == quoted(y) + r2,
    ensures
        x == y,
        r1 == r2,
{
    assert(quoted(x) + r1 =~= seq!['"'] + (escaped(x) + (seq!['"'] + r1)));
    assert(quoted(y) + r2 =~= seq!['"'] + (escaped(y) + (seq!['"'] + r2)));
    lemma_strip(seq!['"'], escaped(x) + (seq!['"'] + r1), escaped(y) + (seq!['"'] + r2));
    lemma_quoted_unique(x, y, r1, r2);
}

proof fn lemma_decimal_first(m: int)
    ensures
        decimal(m).len() >= 1,
        m < 0 ==> decimal(m)[0] == '-' && decimal(m) == seq!['-'] + decimal(-m),
        m >= 0 ==> all_digits(decimal(m)),
{
    if m < 0 {
        lemma_decimal_digits(-m);
    } else {
        lemma_decimal_digits(m);
    }
}

proof fn lemma_decimal_unique(m: int, n: int, r1: Seq<char>, r2: Seq<char>)
    requires
        decimal(m) + r1 == decimal(n) + r2,
        r1.len() == 0 || !is_digit(r1[0]),
        r2.len() == 0 || !is_digit(r2[0]),
    ensures
        m == n,
        r1 == r2,
    decreases (if m < 0 { 1int } else { 0int }),
{
    let x = decimal(m) + r1;
    lemma_decimal_first(m);
    lemma_decimal_first(n);
    assert(x[0] == decimal(m)[0]);
    assert(x[0] == decimal(n)[0]);
    if m < 0 {
        assert(n < 0);
        assert(x =~= seq!['-'] + (decimal(-m) + r1));
        assert(decimal(n) + r2 =~= seq!['-'] + (decimal(-n) + r2));
        lemma_strip(seq!['-'], decimal(-m) + r1, decimal(-n) + r2);
        lemma_decimal_unique(-m, -n, r1, r2);
    } else {
        assert(n >= 0);
        let a = decimal(m);
        let b = decimal(n);
        if a.len() < b.len() {
            assert(x[a.len() as int] == b[a.len() as int]);
            assert(x[a.len() as int] == r1[0]);
        } else if b.len() < a.len() {
            assert(x[b.len() as int] == a[b.len() as int]);
            assert((decimal(n) + r2)[b.len() as int] == r2[0]);
        }
        assert(a.len() == b.len());
        assert(a =~= x.take(a.len() as int));
        assert(b =~= (decimal(n) + r2).take(b.len() as int));
        lemma_decimal_digits(m);
        lemma_decimal_digits(n);
        assert(r1 =~= x.skip(a.len() as int));
        assert(r2 =~= (decimal(n) + r2).skip(b.len() as int));
    }
}

#[verifier::rlimit(40)]
proof fn lemma_names_from_unique(
    s1: Seq<(String, String)>,
    s2: Seq<(String, String)>,
    i: int,
    r1: Seq<char>,
    r2: Seq<char>,
)
    requires
        1 <= i,
        members_from(s1, name_item_fn(), i) + r1 == members_from(s2, name_item_fn(), i) + r2,
        r1.len() > 0 && r1[0] == '}',
        r2.len() > 0 && r2[0] == '}',
    ensures
        r1 == r2,
        (i < s1.len()) == (i < s2.len()),
        i < s1.len() ==> s1.len() == s2.len(),
        forall|t: int| i <= t < s1.len() ==> s1[t].0@ == s2[t].0@ && s1[t].1@ == s2[t].1@,
    decreases s1.len() - i,
{
    let f = name_item_fn();
    let x = members_from(s1, f, i) + r1;
    if i >= s1.len() {
        assert(members_from(s1, f, i) =~= Seq::<char>::empty());
        assert(x =~= r1);
        if i < s2.len() {
            assert((members_from(s2, f, i) + r2)[0] == ',');
        }
        assert(members_from(s2, f, i) =~= Seq::<char>::empty());
        assert(members_from(s2, f, i) + r2 =~= r2);
    } else {
        assert(x[0] == ',');
        if i >= s2.len() {
            assert(members_from(s2, f, i) =~= Seq::<char>::empty());
            assert((members_from(s2, f, i) + r2)[0] == '}');
        }
        assert(i < s2.len());
        let m1 = members_from(s1, f, i + 1) + r1;
        let m2 = members_from(s2, f, i + 1) + r2;
        assert(f(s1[i]) == name_item(s1[i]));
        assert(f(s2[i]) == name_item(s2[i]));
        assert(x =~= seq![','] + (quoted(s1[i].0@) + (seq![':'] + (quoted(s1[i].1@) + m1))));
        assert(members_from(s2, f, i) + r2 =~= seq![','] + (quoted(s2[i].0@) + (seq![':'] + (quoted(
            s2[i].1@,
        ) + m2))));
        lemma_strip(
            seq![','],
            quoted(s1[i].0@) + (seq![':'] + (quoted(s1[i].1@) + m1)),
            quoted(s2[i].0@) + (seq![':'] + (quoted(s2[i].1@) + m2)),
        );
        lemma_quoted_prefix(
            s1[i].0@,
            s2[i].0@,
            seq![':'] + (quoted(s1[i].1@) + m1),
            seq![':'] + (quoted(s2[i].1@) + m2),
        );
        lemma_strip(seq![':'], quoted(s1[i].1@) + m1, quoted(s2[i].1@) + m2);
        lemma_quoted_prefix(s1[i].1@, s2[i].1@, m1, m2);
        lemma_names_from_unique(s1, s2, i + 1, r1, r2);
    }
}

/// Member lists followed by a closing brace part only one way.
#[verifier::rlimit(100)]
proof fn lemma_names_unique(s1: Seq<(String, String)>, s2: Seq<(String, String)>, r1: Seq<char>, r2: Seq<char>)
    requires
        name_members(s1) + r1 == name_members(s2) + r2,
        r1.len() > 0 && r1[0] == '}',
        r2.len() > 0 && r2[0] == '}',
    ensures
        r1 == r2,
        name_views(s1) == name_views(s2),
{
    let x = name_members(s1) + r1;
    if s1.len() == 0 {
        assert(x =~= r1);
        if s2.len() > 0 {
            lemma_name_members_forward(s2);
            assert((name_members(s2) + r2)[0] == quoted(s2[0].0@)[0]);
        }
        assert(name_members(s2) + r2 =~= r2);
        assert(name_views(s1) =~= name_views(s2));
    } else {
        lemma_name_members_forward(s1);
        if s2.len() == 0 {
            assert(x[0] == quoted(s1[0].0@)[0]);
            assert(name_members(s2) + r2 =~= r2);
        }
        assert(s2.len() > 0);
        lemma_name_members_forward(s2);
        let m1 = members_from(s1, name_item_fn(), 1) + r1;
        let m2 = members_from(s2, name_item_fn(), 1) + r2;
        assert(x =~= quoted(s1[0].0@) + (seq![':'] + (quoted(s1[0].1@) + m1)));
        assert(name_members(s2) + r2 =~= quoted(s2[0].0@) + (seq![':'] + (quoted(s2[0].1@) + m2)));
        lemma_quoted_prefix(
            s1[0].0@,
            s2[0].0@,
            seq![':'] + (quoted(s1[0].1@) + m1),
            seq![':'] + (quoted(s2[0].1@) + m2),
        );
        lemma_strip(seq![':'], quoted(s1[0].1@) + m1, quoted(s2[0].1@) + m2);
        lemma_quoted_prefix(s1[0].1@, s2[0].1@, m1, m2);
        lemma_names_from_unique(s1, s2, 1, r1, r2);
        assert(s1.len() == s2.len());
        assert(name_views(s1) =~= name_views(s2));
    }
}

#[verifier::rlimit(40)]
proof fn lemma_scores_from_unique(
    s1: Seq<(String, i64)>,
    s2: Seq<(String, i64)>,
    i: int,
    r1: Seq<char>,
    r2: Seq<char>,
)
    requires
        1 <= i,
        members_from(s1, score_item_fn(), i) + r1 == members_from(s2, score_item_fn(), i) + r2,
        r1.len() > 0 && r1[0] == '}',
        r2.len() > 0 && r2[0] == '}',
    ensures
        r1 == r2,
        (i < s1.len()) == (i < s2.len()),
        i < s1.len() ==> s1.len() == s2.len(),
        forall|t: int| i <= t < s1.len() ==> s1[t].0@ == s2[t].0@ && s1[t].1 == s2[t].1,
    decreases s1.len() - i,
{
    let f = score_item_fn();
    let x = members_from(s1, f, i) + r1;
    if i >= s1.len() {
        assert(members_from(s1, f, i) =~= Seq::<char>::empty());
        assert(x =~= r1);
        if i < s2.len() {
            assert((members_from(s2, f, i) + r2)[0] == ',');
        }
        assert(members_from(s2, f, i) =~= Seq::<char>::empty());
        assert(members_from(s2, f, i) + r2 =~= r2);
    } else {
        assert(x[0] == ',');
        if i >= s2.len() {
            assert(members_from(s2, f, i) =~= Seq::<char>::empty());
            assert((members_from(s2, f, i) + r2)[0] == '}');
        }
        assert(i < s2.len());
        let m1 = members_from(s1, f, i + 1) + r1;
        let m2 = members_from(s2, f, i + 1) + r2;
        assert(f(s1[i]) == score_item(s1[i]));
        assert(f(s2[i]) == score_item(s2[i]));
        assert(x =~= seq![','] + (quoted(s1[i].0@) + (seq![':'] + (decimal(s1[i].1 as int) + m1))));
        assert(members_from(s2, f, i) + r2 =~= seq![','] + (quoted(s2[i].0@) + (seq![':'] + (decimal(
            s2[i].1 as int,
        ) + m2))));
        lemma_strip(
            seq![','],
            quoted(s1[i].0@) + (seq![':'] + (decimal(s1[i].1 as int) + m1)),
            quoted(s2[i].0@) + (seq![':'] + (decimal(s2[i].1 as int) + m2)),
        );
        lemma_quoted_prefix(
            s1[i].0@,
            s2[i].0@,
            seq![':'] + (decimal(s1[i].1 as int) + m1),
            seq![':'] + (decimal(s2[i].1 as int) + m2),
        );
        lemma_strip(seq![':'], decimal(s1[i].1 as int) + m1, decimal(s2[i].1 as int) + m2);
        assert(m1.len() > 0 && (m1[0] == ',' || m1[0] == '}')) by {
            if i + 1 < s1.len() {
                assert(m1[0] == ',');
            } else {
                assert(members_from(s1, score_item_fn(), i + 1) =~= Seq::<char>::empty());
                assert(m1 =~= r1);
            }
        }
        assert(m2.len() > 0 && (m2[0] == ',' || m2[0] == '}')) by {
            if i + 1 < s2.len() {
                assert(m2[0] == ',');
            } else {
                assert(members_from(s2, score_item_fn(), i + 1) =~= Seq::<char>::empty());
                assert(m2 =~= r2);
            }
        }
        lemma_decimal_unique(s1[i].1 as int, s2[i].1 as int, m1, m2);
        lemma_scores_from_unique(s1, s2, i + 1, r1, r2);
    }
}

/// Member lists followed by a closing brace part only one way.
#[verifier::rlimit(100)]
proof fn lemma_scores_unique(s1: Seq<(String, i64)>, s2: Seq<(String, i64)>, r1: Seq<char>, r2: Seq<char>)
    requires
        score_members(s1) + r1 == score_members(s2) + r2,
        r1.len() > 0 && r1[0] == '}',
        r2.len() > 0 && r2[0] == '}',
    ensures
        r1 == r2,
        score_views(s1) == score_views(s2),
{
    let x = score_members(s1) + r1;
    if s1.len() == 0 {
        assert(x =~= r1);
        if s2.len() > 0 {
            lemma_score_members_forward(s2);
            assert((score_members(s2) + r2)[0] == quoted(s2[0].0@)[0]);
        }
        assert(score_members(s2) + r2 =~= r2);
        assert(score_views(s1) =~= score_views(s2));
    } else {
        lemma_score_members_forward(s1);
        if s2.len() == 0 {
            assert(x[0] == quoted(s1[0].0@)[0]);
            assert(score_members(s2) + r2 =~= r2);
        }
        assert(s2.len() > 0);
        lemma_score_members_forward(s2);
        let m1 = members_from(s1, score_item_fn(), 1) + r1;
        let m2 = members_from(s2, score_item_fn(), 1) + r2;
        assert(x =~= quoted(s1[0].0@) + (seq![':'] + (decimal(s1[0].1 as int) + m1)));
        assert(score_members(s2) + r2 =~= quoted(s2[0].0@) + (seq![':'] + (decimal(s2[0].1 as int) + m2)));
        lemma_quoted_prefix(
            s1[0].0@,
            s2[0].0@,
            seq![':'] + (decimal(s1[0].1 as int) + m1),
            seq![':'] + (decimal(s2[0].1 as int) + m2),
        );
        lemma_strip(seq![':'], decimal(s1[0].1 as int) + m1, decimal(s2[0].1 as int) + m2);
        assert(m1.len() > 0 && (m1[0] == ',' || m1[0] == '}')) by {
            if 1 < s1.len() {
                assert(m1[0] == ',');
            } else {
                assert(members_from(s1, score_item_fn(), 1) =~= Seq::<char>::empty());
                assert(m1 =~= r1);
            }
        }
        assert(m2.len() > 0 && (m2[0] == ',' || m2[0] == '}')) by {
            if 1 < s2.len() {
                assert(m2[0] == ',');
            } else {
                assert(members_from(s2, score_item_fn(), 1) =~= Seq::<char>::empty());
                assert(m2 =~= r2);
            }
        }
        lemma_decimal_unique(s1[0].1 as int, s2[0].1 as int, m1, m2);
        lemma_scores_from_unique(s1, s2, 1, r1, r2);
        assert(s1.len() == s2.len());
        assert(score_views(s1) =~= score_views(s2));
    }
}

/// Different documents are stored as different texts: a stored text names
/// its document's fields and entries exactly.
#[verifier::rlimit(40)]
pub proof fn lemma_document_text_injective(a: QuizRoom, b: QuizRoom)
    requires
        document_text(a) == document_text(b),
    ensures
        same_document(a, b),
{
    reveal_strlit(",\"players\":{");
    reveal_strlit("},\"scores\":{");
    reveal_strlit("},\"current_slide\":");
    reveal_strlit(",\"started\":");
    reveal_strlit("true");
    reveal_strlit("false");
    lemma_parted_text(a);
    lemma_parted_text(b);
    let l1 = "{\"quiz_id\":"@;
    let l2 = ",\"owner_id\":"@;
    let l3 = ",\"room_code\":"@;
    let l4 = ",\"created_at\":"@;
    let ta1 = quoted(a.quiz_id@) + (l2 + (quoted(a.owner_id@) + (l3 + (quoted(a.room_code@) + (l4 + (
    decimal(a.created_at as int) + body_text(a)))))));
    let tb1 = quoted(b.quiz_id@) + (l2 + (quoted(b.owner_id@) + (l3 + (quoted(b.room_code@) + (l4 + (
    decimal(b.created_at as int) + body_text(b)))))));
    lemma_strip(l1, ta1, tb1);
    let ta2 = quoted(a.owner_id@) + (l3 + (quoted(a.room_code@) + (l4 + (decimal(a.created_at as int)
        + body_text(a)))));
    let tb2 = quoted(b.owner_id@) + (l3 + (quoted(b.room_code@) + (l4 + (decimal(b.created_at as int)
        + body_text(b)))));
    lemma_quoted_prefix(a.quiz_id@, b.quiz_id@, l2 + ta2, l2 + tb2);
    lemma_strip(l2, ta2, tb2);
    let ta3 = quoted(a.room_code@) + (l4 + (decimal(a.created_at as int) + body_text(a)));
    let tb3 = quoted(b.room_code@) + (l4 + (decimal(b.created_at as int) + body_text(b)));
    lemma_quoted_prefix(a.owner_id@, b.owner_id@, l3 + ta3, l3 + tb3);
    lemma_strip(l3, ta3, tb3);
    let ta4 = decimal(a.created_at as int) + body_text(a);
    let tb4 = decimal(b.created_at as int) + body_text(b);
    lemma_quoted_prefix(a.room_code@, b.room_code@, l4 + ta4, l4 + tb4);
    lemma_strip(l4, ta4, tb4);
    assert(body_text(a)[0] == ',');
    assert(body_text(b)[0] == ',');
    lemma_decimal_unique(a.created_at as int, b.created_at as int, body_text(a), body_text(b));
    let l5 = ",\"players\":{"@;
    let l6 = "},\"scores\":{"@;
    let l7 = "},\"current_slide\":"@;
    let l8 = ",\"started\":"@;
    let l9 = "}"@;
    let ra8 = bool_text(a.started) + l9;
    let rb8 = bool_text(b.started) + l9;
    let ra7 = decimal(a.current_slide as int) + (l8 + ra8);
    let rb7 = decimal(b.current_slide as int) + (l8 + rb8);
    let ra6 = score_members(a.scores@) + (l7 + ra7);
    let rb6 = score_members(b.scores@) + (l7 + rb7);
    let ra5 = name_members(a.players@) + (l6 + ra6);
    let rb5 = name_members(b.players@) + (l6 + rb6);
    lemma_strip(l5, ra5, rb5);
    lemma_names_unique(a.players@, b.players@, l6 + ra6, l6 + rb6);
    lemma_strip(l6, ra6, rb6);
    lemma_scores_unique(a.scores@, b.scores@, l7 + ra7, l7 + rb7);
    lemma_strip(l7, ra7, rb7);
    assert((l8 + ra8)[0] == ',');
    assert((l8 + rb8)[0] == ',');
    lemma_decimal_unique(a.current_slide as int, b.current_slide as int, l8 + ra8, l8 + rb8);
    lemma_strip(l8, ra8, rb8);
    assert(ra8[0] == bool_text(a.started)[0]);
    assert(rb8[0] == bool_text(b.started)[0]);
}

proof fn lemma_name_views_maps(a: Seq<(String, String)>, b: Seq<(String, String)>)
    requires
        name_views(a) == name_views(b),
    ensures
        forall|k: Seq<char>| #[trigger] as_map(a).contains_key(k) == as_map(b).contains_key(k),
        forall|k: Seq<char>| #[trigger] as_map(a).contains_key(k) ==> as_map(a)[k]@ == as_map(b)[k]@,
    decreases a.len(),
{
    assert(a.len() == name_views(a).len());
    assert(b.len() == name_views(b).len());
    assert forall|i: int| 0 <= i < a.len() implies a[i].0@ == b[i].0@ && a[i].1@ == b[i].1@ by {
        assert(name_views(a)[i] == name_views(b)[i]);
    }
    if a.len() > 0 {
        assert(name_views(a.drop_last()) =~= name_views(b.drop_last()));
        lemma_name_views_maps(a.drop_last(), b.drop_last());
        assert(a.last().0@ == b.last().0@);
        assert(a.last().1@ == b.last().1@);
        let ma = as_map(a.drop_last());
        let mb = as_map(b.drop_last());
        assert(as_map(a) == ma.insert(a.last().0@, a.last().1));
        assert(as_map(b) == mb.insert(b.last().0@, b.last().1));
        assert forall|k: Seq<char>| #[trigger] as_map(a).contains_key(k) == as_map(b).contains_key(
            k,
        ) by {
            assert(ma.contains_key(k) == mb.contains_key(k));
        }
        assert forall|k: Seq<char>| #[trigger] as_map(a).contains_key(k) implies as_map(a)[k]@
            == as_map(b)[k]@ by {
            if k != a.last().0@ {
                assert(ma.contains_key(k));
            }
        }
    }
}

proof fn lemma_score_views_maps(a: Seq<(String, i64)>, b: Seq<(String, i64)>)
    requires
        score_views(a) == score_views(b),
    ensures
        as_map(a) == as_map(b),
    decreases a.len(),
{
    assert(a.len() == score_views(a).len());
    assert(b.len() == score_views(b).len());
    assert forall|i: int| 0 <= i < a.len() implies a[i].0@ == b[i].0@ && a[i].1 == b[i].1 by {
        assert(score_views(a)[i] == score_views(b)[i]);
    }
    if a.len() > 0 {
        assert(score_views(a.drop_last()) =~= score_views(b.drop_last()));
        lemma_score_views_maps(a.drop_last(), b.drop_last());
        assert(a.last().0@ == b.last().0@);
        assert(a.last().1 == b.last().1);
        assert(as_map(a) =~= as_map(b));
    }
}

/// Writing a well-formed room document and reading the text back gives a
/// document with the same fields, the same nickname of every client and the
/// same score of every client, whatever the order of the entries.
pub proof fn lemma_round_trip(d: QuizRoom, r: Option<QuizRoom>)
    requires
        d.wf(),
        decodes(document_text(d), r),
    ensures
        r matches Some(e) && e.wf() && e.same_header(&d) && e.player_map() == d.player_map()
            && e.score_map() == d.score_map(),
{
    let e = r->Some_0;
    lemma_name_views_maps(e.players@, d.players@);
    lemma_score_views_maps(e.scores@, d.scores@);
    assert(e.player_map() =~= d.player_map());
}

} // verus!
