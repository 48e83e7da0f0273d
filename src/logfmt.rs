//! The tokenizer: a severity, a logger name, a residual message and
//! `key=value` pairs, recovered from a free-text message.
use vstd::prelude::*;
use crate::record::{Log, opt_view};
use crate::value::{coerce, DataValue, DataView};
use crate::text::{chars_of, string_of};
use crate::humantime::same_word;

verus! {

/// Where the tokenizer stands.
#[derive(Clone, Copy, PartialEq, Eq, Structural)]
pub enum Mode {
    /// Reading the leading tokens: severity and logger name.
    Header,
    /// Reading the message and the keys.
    Body,
    /// Just after `=`.
    ValueStart,
    /// Inside a value without quotes.
    Value,
    /// Inside a value in double quotes.
    Quoted,
    /// Just after a backslash inside quotes.
    Escape,
}

/// A `key=value` pair as index ranges into the characters of the line.
#[derive(Clone, Copy)]
pub struct Pair {
    pub key_start: usize,
    pub key_end: usize,
    pub val_start: usize,
    pub val_end: usize,
}

/// The state of the tokenizer between two characters.
#[derive(Clone, Copy)]
pub struct Cursor {
    pub mode: Mode,
    /// Where the current token starts.
    pub tok: usize,
    /// Where the residual message starts.
    pub msg_start: usize,
    /// Where the residual message ends, once a key was seen.
    pub msg_end: Option<usize>,
    pub level: Option<(usize, usize)>,
    pub name: Option<(usize, usize)>,
    /// The key of the value being read.
    pub key: (usize, usize),
    /// Where the value being read starts.
    pub val: usize,
}

pub open spec fn start() -> Cursor {
    Cursor {
        mode: Mode::Header,
        tok: 0,
        msg_start: 0,
        msg_end: None,
        level: None,
        name: None,
        key: (0, 0),
        val: 0,
    }
}

/// One of the severity words, case-exact.
pub open spec fn is_level_word(t: Seq<char>) -> bool {
    t =~= seq!['I', 'N', 'F', 'O'] || t =~= seq!['W', 'A', 'R', 'N']
        || t =~= seq!['W', 'A', 'R', 'N', 'I', 'N', 'G'] || t =~= seq!['E', 'R', 'R', 'O', 'R']
        || t =~= seq!['D', 'E', 'B', 'U', 'G'] || t =~= seq!['T', 'R', 'A', 'C', 'E']
        || t =~= seq!['L', 'O', 'G']
}

pub open spec fn has_dot_or_colon(t: Seq<char>) -> bool {
    exists|j: int| 0 <= j < t.len() && (t[j] == '.' || t[j] == ':')
}

/// `s[i]` is a colon followed by a space.
pub open spec fn at_colon(s: Seq<char>, i: int) -> bool {
    s[i] == ':' && i + 1 < s.len() && s[i + 1] == ' '
}

/// The token `s[st.tok..i]` of the header, classified. Only a token that
/// starts where the message starts moves the message start past it.
pub open spec fn classify(s: Seq<char>, st: Cursor, i: int) -> Cursor {
    let t = s.subrange(st.tok as int, i);
    if is_level_word(t) {
        Cursor {
            level: if st.level is None { Some((st.tok, i as usize)) } else { st.level },
            msg_start: if st.tok == st.msg_start { (i + 1) as usize } else { st.msg_start },
            ..st
        }
    } else if has_dot_or_colon(t) && st.tok == st.msg_start {
        Cursor {
            msg_start: (i + 1) as usize,
            name: if st.name is None { Some((st.tok, i as usize)) } else { st.name },
            ..st
        }
    } else {
        st
    }
}

/// One character of the message and key section.
pub open spec fn body_step(s: Seq<char>, i: int, st: Cursor) -> Cursor {
    let c = s[i];
    if c == ' ' {
        Cursor { msg_end: None, tok: (i + 1) as usize, ..st }
    } else if c == '=' {
        Cursor {
            mode: Mode::ValueStart,
            msg_end: if st.msg_end is None && st.tok > 0 { Some((st.tok - 1) as usize) } else { st.msg_end },
            key: (st.tok, i as usize),
            tok: (i + 1) as usize,
            val: (i + 1) as usize,
            ..st
        }
    } else {
        st
    }
}

/// The pair whose value ends at `end`.
pub open spec fn pair_at(st: Cursor, end: int) -> Pair {
    Pair { key_start: st.key.0, key_end: st.key.1, val_start: st.val, val_end: end as usize }
}

/// One character `s[i]` read in state `st`, with the pair it completes.
pub open spec fn step(s: Seq<char>, i: int, st: Cursor) -> (Cursor, Option<Pair>) {
    let c = s[i];
    match st.mode {
        Mode::Header => {
            if c == '=' {
                (body_step(s, i, Cursor { mode: Mode::Body, ..st }), None)
            } else if c == ' ' || at_colon(s, i) {
                let t = Cursor { tok: (i + 1) as usize, ..classify(s, st, i) };
                if at_colon(s, i) {
                    let m = if t.msg_start > 0 { (t.msg_start + 1) as usize } else { t.msg_start };
                    (Cursor { mode: Mode::Body, msg_start: m, ..t }, None)
                } else {
                    (t, None)
                }
            } else {
                (st, None)
            }
        },
        Mode::Body => (body_step(s, i, st), None),
        Mode::ValueStart => {
            if c == '"' {
                (Cursor { mode: Mode::Quoted, val: (i + 1) as usize, ..st }, None)
            } else if c == ' ' {
                (Cursor { mode: Mode::Body, tok: (i + 1) as usize, ..st }, Some(pair_at(st, i)))
            } else {
                (Cursor { mode: Mode::Value, ..st }, None)
            }
        },
        Mode::Value => {
            if c == ' ' {
                (Cursor { mode: Mode::Body, tok: (i + 1) as usize, ..st }, Some(pair_at(st, i)))
            } else {
                (st, None)
            }
        },
        Mode::Quoted => {
            if c == '\\' {
                (Cursor { mode: Mode::Escape, ..st }, None)
            } else if c == '"' {
                (Cursor { mode: Mode::Body, tok: (i + 1) as usize, ..st }, Some(pair_at(st, i)))
            } else {
                (st, None)
            }
        },
        Mode::Escape => (Cursor { mode: Mode::Quoted, ..st }, None),
    }
}

/// The state and the completed pairs after the first `k` characters.
pub open spec fn run(s: Seq<char>, k: nat) -> (Cursor, Seq<Pair>)
    decreases k,
{
    if k == 0 {
        (start(), Seq::empty())
    } else {
        let (st, ps) = run(s, (k - 1) as nat);
        let (next, p) = step(s, k - 1, st);
        (next, match p {
            Some(x) => ps.push(x),
            None => ps,
        })
    }
}

pub open spec fn in_value(m: Mode) -> bool {
    m == Mode::ValueStart || m == Mode::Value || m == Mode::Quoted || m == Mode::Escape
}

/// All pairs of `s`, the one still open at the end included.
pub open spec fn all_pairs(s: Seq<char>) -> Seq<Pair> {
    let (st, ps) = run(s, s.len());
    if in_value(st.mode) { ps.push(pair_at(st, s.len() as int)) } else { ps }
}

/// The text of a range.
pub open spec fn span_text(s: Seq<char>, r: Option<(usize, usize)>) -> Option<Seq<char>> {
    match r {
        Some((a, b)) => Some(s.subrange(a as int, b as int)),
        None => None,
    }
}

/// The severity found in `s`.
pub open spec fn level_of(s: Seq<char>) -> Option<Seq<char>> {
    span_text(s, run(s, s.len()).0.level)
}

/// The logger name found in `s`.
pub open spec fn name_of(s: Seq<char>) -> Option<Seq<char>> {
    span_text(s, run(s, s.len()).0.name)
}

/// The residual message of `s`: from the message start to the message end
/// (the end of `s` where no key ended it); empty where they cross.
pub open spec fn message_of(s: Seq<char>) -> Seq<char> {
    let st = run(s, s.len()).0;
    let end: int = match st.msg_end {
        Some(e) => e as int,
        None => s.len() as int,
    };
    if st.msg_start <= end { s.subrange(st.msg_start as int, end) } else { Seq::empty() }
}

/// The pairs of `s` as text, in order.
pub open spec fn pairs_of(s: Seq<char>) -> Seq<(Seq<char>, Seq<char>)> {
    all_pairs(s).map_values(|p: Pair| (
        s.subrange(p.key_start as int, p.key_end as int),
        s.subrange(p.val_start as int, p.val_end as int),
    ))
}

/// Each key with the coerced value of its last occurrence.
pub open spec fn pairs_data(ps: Seq<(Seq<char>, Seq<char>)>) -> Map<Seq<char>, DataView>
    decreases ps.len(),
{
    if ps.len() == 0 {
        Map::empty()
    } else {
        pairs_data(ps.drop_last()).insert(ps.last().0, coerce(ps.last().1))
    }
}


/// The ranges that a state holds lie within the first `k` characters.
pub open spec fn cursor_ok(s: Seq<char>, st: Cursor, k: int) -> bool {
    &&& st.tok <= k
    &&& st.msg_start <= k + 1
    &&& st.msg_start <= s.len()
    &&& (st.msg_end matches Some(e) ==> e < k)
    &&& (st.level matches Some((a, b)) ==> a <= b <= k)
    &&& (st.name matches Some((a, b)) ==> a <= b <= k)
    &&& (in_value(st.mode) ==> st.key.0 <= st.key.1 < st.val <= k)
}

pub open spec fn pair_ok(p: Pair, n: int) -> bool {
    p.key_start <= p.key_end <= n && p.val_start <= p.val_end <= n
}

proof fn lemma_step_ok(s: Seq<char>, i: int, st: Cursor)
    requires
        0 <= i < s.len(),
        s.len() <= usize::MAX,
        cursor_ok(s, st, i),
    ensures
        cursor_ok(s, step(s, i, st).0, i + 1),
        step(s, i, st).1 matches Some(p) ==> pair_ok(p, i + 1),
{
    let c = s[i];
    match st.mode {
        Mode::Header => {
            if c == '=' {
            } else if c == ' ' || at_colon(s, i) {
                let t = classify(s, st, i);
                assert(cursor_ok(s, t, i + 1));
            }
        },
        _ => {},
    }
}

proof fn lemma_run_ok(s: Seq<char>, k: nat)
    requires
        k <= s.len(),
        s.len() <= usize::MAX,
    ensures
        cursor_ok(s, run(s, k).0, k as int),
        forall|j: int| 0 <= j < run(s, k).1.len() ==> pair_ok(#[trigger] run(s, k).1[j], k as int),
    decreases k,
{
    if k > 0 {
        lemma_run_ok(s, (k - 1) as nat);
        let (st, ps) = run(s, (k - 1) as nat);
        let (next, p) = step(s, k - 1, st);
        lemma_step_ok(s, k - 1, st);
        let qs = run(s, k).1;
        assert forall|j: int| 0 <= j < qs.len() implies pair_ok(#[trigger] qs[j], k as int) by {
            if j < ps.len() {
                assert(pair_ok(ps[j], k - 1));
            }
        }
    }
}

fn is_level_exec(v: &Vec<char>, a: usize, b: usize) -> (r: bool)
    requires
        a <= b <= v@.len(),
    ensures
        r == is_level_word(v@.subrange(a as int, b as int)),
{
    same_word(v, a, b, &['I', 'N', 'F', 'O']) || same_word(v, a, b, &['W', 'A', 'R', 'N'])
        || same_word(v, a, b, &['W', 'A', 'R', 'N', 'I', 'N', 'G'])
        || same_word(v, a, b, &['E', 'R', 'R', 'O', 'R'])
        || same_word(v, a, b, &['D', 'E', 'B', 'U', 'G'])
        || same_word(v, a, b, &['T', 'R', 'A', 'C', 'E'])
        || same_word(v, a, b, &['L', 'O', 'G'])
}

fn has_dot_or_colon_exec(v: &Vec<char>, a: usize, b: usize) -> (r: bool)
    requires
        a <= b <= v@.len(),
    ensures
        r == has_dot_or_colon(v@.subrange(a as int, b as int)),
{
    let ghost t = v@.subrange(a as int, b as int);
    let mut j = a;
    while j < b
        invariant
            a <= j <= b <= v@.len(),
            t == v@.subrange(a as int, b as int),
            forall|k: int| 0 <= k < j - a ==> !(t[k] == '.' || t[k] == ':'),
        decreases b - j,
    {
        if v[j] == '.' || v[j] == ':' {
            assert(t[j - a] == v@[j as int]);
            return true;
        }
        assert(t[j - a] == v@[j as int]);
        j += 1;
    }
    false
}

fn classify_exec(v: &Vec<char>, st: Cursor, i: usize) -> (r: Cursor)
    requires
        i < v@.len() <= usize::MAX,
        cursor_ok(v@, st, i as int),
    ensures
        r == classify(v@, st, i as int),
{
    if is_level_exec(v, st.tok, i) {
        Cursor {
            level: if st.level.is_none() { Some((st.tok, i)) } else { st.level },
            msg_start: if st.tok == st.msg_start { i + 1 } else { st.msg_start },
            ..st
        }
    } else if has_dot_or_colon_exec(v, st.tok, i) && st.tok == st.msg_start {
        Cursor {
            msg_start: i + 1,
            name: if st.name.is_none() { Some((st.tok, i)) } else { st.name },
            ..st
        }
    } else {
        st
    }
}

fn body_step_exec(v: &Vec<char>, i: usize, st: Cursor) -> (r: Cursor)
    requires
        i < v@.len() <= usize::MAX,
        st.tok <= i,
    ensures
        r == body_step(v@, i as int, st),
{
    let c = v[i];
    if c == ' ' {
        Cursor { msg_end: None, tok: i + 1, ..st }
    } else if c == '=' {
        Cursor {
            mode: Mode::ValueStart,
            msg_end: if st.msg_end.is_none() && st.tok > 0 { Some(st.tok - 1) } else { st.msg_end },
            key: (st.tok, i),
            tok: i + 1,
            val: i + 1,
            ..st
        }
    } else {
        st
    }
}

fn step_exec(v: &Vec<char>, i: usize, st: Cursor) -> (r: (Cursor, Option<Pair>))
    requires
        i < v@.len() <= usize::MAX,
        cursor_ok(v@, st, i as int),
    ensures
        r == step(v@, i as int, st),
{
    let c = v[i];
    match st.mode {
        Mode::Header => {
            let colon = c == ':' && i + 1 < v.len() && v[i + 1] == ' ';
            if c == '=' {
                (body_step_exec(v, i, Cursor { mode: Mode::Body, ..st }), None)
            } else if c == ' ' || colon {
                let t = Cursor { tok: i + 1, ..classify_exec(v, st, i) };
                if colon {
                    let m = if t.msg_start > 0 { t.msg_start + 1 } else { t.msg_start };
                    (Cursor { mode: Mode::Body, msg_start: m, ..t }, None)
                } else {
                    (t, None)
                }
            } else {
                (st, None)
            }
        },
        Mode::Body => (body_step_exec(v, i, st), None),
        Mode::ValueStart => {
            if c == '"' {
                (Cursor { mode: Mode::Quoted, val: i + 1, ..st }, None)
            } else if c == ' ' {
                (Cursor { mode: Mode::Body, tok: i + 1, ..st }, Some(Pair { key_start: st.key.0, key_end: st.key.1, val_start: st.val, val_end: i }))
            } else {
                (Cursor { mode: Mode::Value, ..st }, None)
            }
        },
        Mode::Value => {
            if c == ' ' {
                (Cursor { mode: Mode::Body, tok: i + 1, ..st }, Some(Pair { key_start: st.key.0, key_end: st.key.1, val_start: st.val, val_end: i }))
            } else {
                (st, None)
            }
        },
        Mode::Quoted => {
            if c == '\\' {
                (Cursor { mode: Mode::Escape, ..st }, None)
            } else if c == '"' {
                (Cursor { mode: Mode::Body, tok: i + 1, ..st }, Some(Pair { key_start: st.key.0, key_end: st.key.1, val_start: st.val, val_end: i }))
            } else {
                (st, None)
            }
        },
        Mode::Escape => (Cursor { mode: Mode::Quoted, ..st }, None),
    }
}


fn span_string(v: &Vec<char>, r: Option<(usize, usize)>) -> (o: Option<String>)
    requires
        r matches Some((a, b)) ==> a <= b <= v@.len(),
    ensures
        opt_view(o) == span_text(v@, r),
{
    match r {
        Some((a, b)) => Some(string_of(v, a, b)),
        None => None,
    }
}

/// Splits a free-text message into a severity, a logger name, a residual
/// message and `key=value` pairs, each value coerced to its most specific
/// type. Never fails: at worst the whole input is the message.
pub fn parse_logfmt(log: String) -> (r: Log)
    ensures
        r.wf(),
        r.spec_level() == level_of(log@),
        r.spec_name() == name_of(log@),
        r.spec_message() == message_of(log@),
        r.spec_data() == pairs_data(pairs_of(log@)),
        r.spec_dt() is None,
        r.spec_platform() is None,
        r.spec_extension() is None,
{
    let v = chars_of(log.as_str());
    let n = v.len();
    let ghost s = log@;
    let mut st = Cursor {
        mode: Mode::Header,
        tok: 0,
        msg_start: 0,
        msg_end: None,
        level: None,
        name: None,
        key: (0, 0),
        val: 0,
    };
    let mut pairs: Vec<Pair> = Vec::new();
    let mut i: usize = 0;
    while i < n
        invariant
            v@ == s,
            n == s.len(),
            i <= n,
            run(s, i as nat) == (st, pairs@),
        decreases n - i,
    {
        proof {
            lemma_run_ok(s, i as nat);
        }
        let (next, p) = step_exec(&v, i, st);
        st = next;
        match p {
            Some(x) => pairs.push(x),
            None => {},
        }
        i += 1;
    }
    proof {
        lemma_run_ok(s, n as nat);
    }
    if st.mode == Mode::ValueStart || st.mode == Mode::Value || st.mode == Mode::Quoted
        || st.mode == Mode::Escape {
        pairs.push(Pair { key_start: st.key.0, key_end: st.key.1, val_start: st.val, val_end: n });
    }
    assert(pairs@ == all_pairs(s));
    let end = match st.msg_end {
        Some(e) => e,
        None => n,
    };
    let message = if st.msg_start <= end {
        string_of(&v, st.msg_start, end)
    } else {
        String::new()
    };
    let level = span_string(&v, st.level);
    let name = span_string(&v, st.name);
    let mut out = Log::new(None, level, name, message, None, None);
    let ghost texts = pairs_of(s);
    let mut j: usize = 0;
    while j < pairs.len()
        invariant
            v@ == s,
            n == s.len(),
            pairs@ == all_pairs(s),
            texts == pairs_of(s),
            texts.len() == pairs@.len(),
            j <= pairs@.len(),
            forall|q: int| 0 <= q < pairs@.len() ==> pair_ok(#[trigger] pairs@[q], n as int),
            out.wf(),
            out.spec_data() == pairs_data(texts.take(j as int)),
            out.spec_level() == level_of(s),
            out.spec_name() == name_of(s),
            out.spec_message() == message_of(s),
            out.spec_dt() is None,
            out.spec_platform() is None,
            out.spec_extension() is None,
        decreases pairs@.len() - j,
    {
        let p = pairs[j];
        let key = string_of(&v, p.key_start, p.key_end);
        let raw = string_of(&v, p.val_start, p.val_end);
        let value = DataValue::from_token(raw.as_str());
        assert(texts.take(j + 1).drop_last() =~= texts.take(j as int));
        out.insert(key, value);
        j += 1;
    }
    assert(texts.take(j as int) =~= texts);
    out
}


/// `m[i]` ends a header token: a space, or a colon before a space.
pub open spec fn ends_token(m: Seq<char>, i: int) -> bool {
    m[i] == ' ' || at_colon(m, i)
}

/// The first token of `m` that a space or a colon-space ends, if any, is
/// neither a severity word nor holds `.` or `:`.
pub open spec fn first_token_plain(m: Seq<char>) -> bool {
    forall|i: int|
        0 <= i < m.len() && #[trigger] ends_token(m, i) && (forall|j: int| 0 <= j < i ==> !ends_token(m, j))
            ==> !is_level_word(m.take(i)) && !has_dot_or_colon(m.take(i))
}

pub open spec fn no_equals(m: Seq<char>) -> bool {
    forall|i: int| 0 <= i < m.len() ==> m[i] != '='
}

proof fn lemma_plain_run(m: Seq<char>, k: nat)
    requires
        k <= m.len() <= usize::MAX,
        no_equals(m),
        first_token_plain(m),
    ensures
        run(m, k).0.msg_start == 0,
        run(m, k).0.msg_end is None,
        run(m, k).1.len() == 0,
        run(m, k).0.mode == Mode::Header || run(m, k).0.mode == Mode::Body,
        (forall|j: int| 0 <= j < k ==> !ends_token(m, j)) ==> run(m, k).0.tok == 0 && run(m, k).0.mode == Mode::Header,
        !(forall|j: int| 0 <= j < k ==> !ends_token(m, j)) ==> run(m, k).0.tok > 0,
    decreases k,
{
    if k > 0 {
        let i = k - 1;
        lemma_plain_run(m, i as nat);
        let st = run(m, i as nat).0;
        assert(m[i] != '=');
        if st.mode == Mode::Header && ends_token(m, i) {
            if forall|j: int| 0 <= j < i ==> !ends_token(m, j) {
                assert(m.subrange(0, i) =~= m.take(i));
                assert(!is_level_word(m.take(i)) && !has_dot_or_colon(m.take(i)));
                assert(classify(m, st, i) == st);
            }
        }
        if !(forall|j: int| 0 <= j < k ==> !ends_token(m, j)) {
            if forall|j: int| 0 <= j < i ==> !ends_token(m, j) {
                assert(ends_token(m, i));
            }
        }
    }
}

/// Tokenizing again a message without `=` whose first token is plain
/// changes nothing: the message comes back whole and no pair is found.
pub proof fn lemma_retokenize_plain(m: Seq<char>)
    requires
        m.len() <= usize::MAX,
        no_equals(m),
        first_token_plain(m),
    ensures
        message_of(m) == m,
        pairs_of(m).len() == 0,
        pairs_data(pairs_of(m)) == Map::<Seq<char>, DataView>::empty(),
{
    lemma_plain_run(m, m.len());
    assert(m.subrange(0, m.len() as int) =~= m);
    assert(pairs_of(m) =~= Seq::<(Seq<char>, Seq<char>)>::empty());
}

} // verus!
