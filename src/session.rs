//! The session log: one record per completed work/break cycle, kept in the
//! order in which the cycles completed.

use vstd::prelude::*;
use crate::codec::{
    chars_of, decimal, expect, integer_at, integer_text, lemma_integer_at_unique,
    lemma_natural_at_unique, lemma_starts_at_join, lemma_starts_at_split, natural_at, parse_integer,
    parse_natural, push_char, push_decimal, push_integer, starts_at,
};
use crate::json::JsonSerializable;

verus! {

/// One completed cycle.
#[derive(Debug, Clone, Copy, PartialEq, Eq, Structural)]
pub struct Session {
    /// When the cycle completed, in whole seconds since the Unix epoch (UTC).
    pub timestamp: i64,
    /// Minutes worked in the cycle.
    pub work_time: u32,
    /// Minutes of break in the cycle.
    pub break_time: u32,
}

/// The completed cycles, oldest first.
#[derive(Debug, Clone, PartialEq)]
pub struct SessionList {
    sessions: Vec<Session>,
}

impl View for SessionList {
    type V = Seq<Session>;

    closed spec fn view(&self) -> Seq<Session> {
        self.sessions@
    }
}

/// The minutes worked over all of `s`.
pub open spec fn total_minutes(s: Seq<Session>) -> nat
    decreases s.len(),
{
    if s.len() == 0 {
        0
    } else {
        total_minutes(s.drop_last()) + s.last().work_time as nat
    }
}

/// The JSON text of one session.
pub open spec fn session_text(s: Session) -> Seq<char> {
    "{\"timestamp\":"@ + (integer_text(s.timestamp as int) + (",\"work_time\":"@ + (decimal(
        s.work_time as nat,
    ) + (",\"break_time\":"@ + (decimal(s.break_time as nat) + "}"@)))))
}

/// The sessions after the first, each after a comma.
pub open spec fn tail_text(l: Seq<Session>) -> Seq<char>
    decreases l.len(),
{
    if l.len() == 0 {
        Seq::empty()
    } else {
        seq![','] + (session_text(l[0]) + tail_text(l.drop_first()))
    }
}

/// The sessions, separated by commas.
pub open spec fn items_text(l: Seq<Session>) -> Seq<char> {
    if l.len() == 0 {
        Seq::empty()
    } else {
        session_text(l[0]) + tail_text(l.drop_first())
    }
}

/// The JSON text of a session list.
pub open spec fn list_text(l: Seq<Session>) -> Seq<char> {
    "{\"sessions\":["@ + (items_text(l) + "]}"@)
}

/// Each field's text of `s` stands at its place after `pos` in `t`.
pub open spec fn session_layout(t: Seq<char>, pos: int, s: Session) -> bool {
    let p1 = pos + "{\"timestamp\":"@.len();
    let p2 = p1 + integer_text(s.timestamp as int).len();
    let p3 = p2 + ",\"work_time\":"@.len();
    let p4 = p3 + decimal(s.work_time as nat).len();
    let p5 = p4 + ",\"break_time\":"@.len();
    let p6 = p5 + decimal(s.break_time as nat).len();
    &&& starts_at(t, pos, "{\"timestamp\":"@)
    &&& integer_at(t, p1, s.timestamp as int, p2)
    &&& starts_at(t, p2, ",\"work_time\":"@)
    &&& natural_at(t, p3, s.work_time as nat, p4)
    &&& starts_at(t, p4, ",\"break_time\":"@)
    &&& natural_at(t, p5, s.break_time as nat, p6)
    &&& starts_at(t, p6, "}"@)
    &&& p6 + 1 == pos + session_text(s).len()
}

proof fn lemma_session_layout(t: Seq<char>, pos: int, s: Session)
    requires
        starts_at(t, pos, session_text(s)),
    ensures
        session_layout(t, pos, s),
{
    reveal_strlit(",\"work_time\":");
    reveal_strlit(",\"break_time\":");
    reveal_strlit("}");
    let l1 = "{\"timestamp\":"@;
    let i1 = integer_text(s.timestamp as int);
    let l2 = ",\"work_time\":"@;
    let d1 = decimal(s.work_time as nat);
    let l3 = ",\"break_time\":"@;
    let d2 = decimal(s.break_time as nat);
    let l4 = "}"@;
    let r6 = d2 + l4;
    let r5 = l3 + r6;
    let r4 = d1 + r5;
    let r3 = l2 + r4;
    let r2 = i1 + r3;
    lemma_starts_at_split(t, pos, l1, r2);
    let p1 = pos + l1.len() as int;
    lemma_starts_at_split(t, p1, i1, r3);
    let p2 = p1 + i1.len() as int;
    lemma_starts_at_split(t, p2, l2, r4);
    let p3 = p2 + l2.len() as int;
    lemma_starts_at_split(t, p3, d1, r5);
    let p4 = p3 + d1.len() as int;
    lemma_starts_at_split(t, p4, l3, r6);
    let p5 = p4 + l3.len() as int;
    lemma_starts_at_split(t, p5, d2, l4);
    let p6 = p5 + d2.len() as int;
    assert(t[p2] == t.subrange(p2, p2 + l2.len())[0]);
    assert(t[p4] == t.subrange(p4, p4 + l3.len())[0]);
    assert(t[p6] == t.subrange(p6, p6 + 1)[0]);
}

proof fn lemma_session_from_layout(t: Seq<char>, pos: int, s: Session)
    requires
        session_layout(t, pos, s),
    ensures
        starts_at(t, pos, session_text(s)),
{
    reveal_strlit("}");
    let l1 = "{\"timestamp\":"@;
    let i1 = integer_text(s.timestamp as int);
    let l2 = ",\"work_time\":"@;
    let d1 = decimal(s.work_time as nat);
    let l3 = ",\"break_time\":"@;
    let d2 = decimal(s.break_time as nat);
    let l4 = "}"@;
    let p1 = pos + l1.len() as int;
    let p2 = p1 + i1.len() as int;
    let p3 = p2 + l2.len() as int;
    let p4 = p3 + d1.len() as int;
    let p5 = p4 + l3.len() as int;
    let p6 = p5 + d2.len() as int;
    lemma_starts_at_join(t, p5, d2, l4);
    let r6 = d2 + l4;
    lemma_starts_at_join(t, p4, l3, r6);
    let r5 = l3 + r6;
    lemma_starts_at_join(t, p3, d1, r5);
    let r4 = d1 + r5;
    lemma_starts_at_join(t, p2, l2, r4);
    let r3 = l2 + r4;
    lemma_starts_at_join(t, p1, i1, r3);
    let r2 = i1 + r3;
    lemma_starts_at_join(t, pos, l1, r2);
}

/// Two sessions read at the same place are the same.
proof fn lemma_session_at_unique(t: Seq<char>, pos: int, a: Session, b: Session)
    requires
        starts_at(t, pos, session_text(a)),
        starts_at(t, pos, session_text(b)),
    ensures
        a == b,
{
    lemma_session_layout(t, pos, a);
    lemma_session_layout(t, pos, b);
    let p1 = pos + "{\"timestamp\":"@.len();
    lemma_integer_at_unique(
        t,
        p1,
        a.timestamp as int,
        p1 + integer_text(a.timestamp as int).len(),
        b.timestamp as int,
        p1 + integer_text(b.timestamp as int).len(),
    );
    let p3 = p1 + integer_text(a.timestamp as int).len() + ",\"work_time\":"@.len();
    lemma_natural_at_unique(
        t,
        p3,
        a.work_time as nat,
        p3 + decimal(a.work_time as nat).len(),
        b.work_time as nat,
        p3 + decimal(b.work_time as nat).len(),
    );
    let p5 = p3 + decimal(a.work_time as nat).len() + ",\"break_time\":"@.len();
    lemma_natural_at_unique(
        t,
        p5,
        a.break_time as nat,
        p5 + decimal(a.break_time as nat).len(),
        b.break_time as nat,
        p5 + decimal(b.break_time as nat).len(),
    );
}

proof fn lemma_session_text_shape(s: Session)
    ensures
        session_text(s).len() > 1,
        session_text(s)[0] == '{',
{
    reveal_strlit("{\"timestamp\":");
}

proof fn lemma_tail_text_push(l: Seq<Session>, s: Session)
    ensures
        tail_text(l.push(s)) == tail_text(l) + (seq![','] + session_text(s)),
    decreases l.len(),
{
    if l.len() == 0 {
        assert(l.push(s).drop_first() =~= Seq::<Session>::empty());
        assert(tail_text(Seq::<Session>::empty()) == Seq::<char>::empty());
        assert(tail_text(l.push(s)) =~= tail_text(l) + (seq![','] + session_text(s)));
    } else {
        assert(l.push(s).drop_first() =~= l.drop_first().push(s));
        lemma_tail_text_push(l.drop_first(), s);
        assert(tail_text(l.push(s)) =~= tail_text(l) + (seq![','] + session_text(s)));
    }
}

proof fn lemma_items_text_push(l: Seq<Session>, s: Session)
    ensures
        items_text(l.push(s)) == items_text(l) + (if l.len() == 0 {
            Seq::empty()
        } else {
            seq![',']
        }) + session_text(s),
{
    if l.len() == 0 {
        assert(l.push(s).drop_first() =~= Seq::<Session>::empty());
        assert(tail_text(Seq::<Session>::empty()) == Seq::<char>::empty());
        assert(items_text(l.push(s)) =~= session_text(s));
        assert(items_text(l) =~= Seq::<char>::empty());
        assert(items_text(l.push(s)) =~= items_text(l) + Seq::<char>::empty() + session_text(s));
    } else {
        assert(l.push(s).drop_first() =~= l.drop_first().push(s));
        lemma_tail_text_push(l.drop_first(), s);
        assert(items_text(l.push(s)) =~= items_text(l) + seq![','] + session_text(s));
    }
}

/// Two runs of comma-led sessions, each followed by `]`, read at the same
/// place are the same.
proof fn lemma_tail_at_unique(t: Seq<char>, pos: int, a: Seq<Session>, b: Seq<Session>)
    requires
        starts_at(t, pos, tail_text(a) + seq![']']),
        starts_at(t, pos, tail_text(b) + seq![']']),
    ensures
        a == b,
    decreases a.len(),
{
    let ta = tail_text(a) + seq![']'];
    let tb = tail_text(b) + seq![']'];
    assert(t.subrange(pos, pos + ta.len())[0] == t[pos]);
    assert(t.subrange(pos, pos + tb.len())[0] == t[pos]);
    if a.len() == 0 {
        assert(tail_text(a) == Seq::<char>::empty());
        assert(ta[0] == ']');
        if b.len() > 0 {
            assert(tb[0] == ',');
        }
        assert(b =~= a);
    } else {
        assert(ta[0] == ',');
        if b.len() == 0 {
            assert(tail_text(b) == Seq::<char>::empty());
            assert(tb[0] == ']');
        } else {
            let sa = session_text(a[0]);
            let sb = session_text(b[0]);
            assert(ta =~= seq![','] + (sa + (tail_text(a.drop_first()) + seq![']'])));
            assert(tb =~= seq![','] + (sb + (tail_text(b.drop_first()) + seq![']'])));
            lemma_starts_at_split(t, pos, seq![','], sa + (tail_text(a.drop_first()) + seq![']']));
            lemma_starts_at_split(t, pos, seq![','], sb + (tail_text(b.drop_first()) + seq![']']));
            lemma_starts_at_split(t, pos + 1, sa, tail_text(a.drop_first()) + seq![']']);
            lemma_starts_at_split(t, pos + 1, sb, tail_text(b.drop_first()) + seq![']']);
            lemma_session_at_unique(t, pos + 1, a[0], b[0]);
            lemma_tail_at_unique(t, pos + 1 + sa.len(), a.drop_first(), b.drop_first());
            assert(a =~= seq![a[0]] + a.drop_first());
            assert(b =~= seq![b[0]] + b.drop_first());
        }
    }
}

// ---------------------------------------------------------------- laws

/// Reading back the JSON text of a session gives that session: no other
/// session has the same text.
pub proof fn lemma_session_round_trip(s: Session)
    ensures
        forall|d: Session| #[trigger] session_text(d) == session_text(s) ==> d == s,
{
    assert forall|d: Session| #[trigger] session_text(d) == session_text(s) implies d == s by {
        let t = session_text(s);
        assert(t.subrange(0, t.len() as int) =~= t);
        lemma_session_at_unique(t, 0, d, s);
    }
}

/// Reading back the JSON text of a session list gives the same sessions in
/// the same order: no other list has the same text.
pub proof fn lemma_session_list_round_trip(l: Seq<Session>)
    ensures
        forall|d: Seq<Session>| #[trigger] list_text(d) == list_text(l) ==> d == l,
{
    assert forall|d: Seq<Session>| #[trigger] list_text(d) == list_text(l) implies d == l by {
        let t = list_text(l);
        let head = "{\"sessions\":["@;
        reveal_strlit("]}");
        let p = head.len() as int;
        assert(t.subrange(0, t.len() as int) =~= t);
        lemma_starts_at_split(t, 0, head, items_text(l) + "]}"@);
        lemma_starts_at_split(t, 0, head, items_text(d) + "]}"@);
        assert(t[p] == t.subrange(p, p + items_text(l).len() + 2)[0]);
        if l.len() == 0 || d.len() == 0 {
            if l.len() > 0 {
                lemma_session_text_shape(l[0]);
                assert((items_text(l) + "]}"@)[0] == '{');
                assert((items_text(d) + "]}"@)[0] == ']');
                assert(t.subrange(p, p + items_text(d).len() + 2)[0] == t[p]);
            } else if d.len() > 0 {
                lemma_session_text_shape(d[0]);
                assert((items_text(d) + "]}"@)[0] == '{');
                assert((items_text(l) + "]}"@)[0] == ']');
                assert(t.subrange(p, p + items_text(d).len() + 2)[0] == t[p]);
            } else {
                assert(d =~= l);
            }
        } else {
            let rl = tail_text(l.drop_first()) + "]}"@;
            let rd = tail_text(d.drop_first()) + "]}"@;
            assert(items_text(l) + "]}"@ =~= session_text(l[0]) + rl);
            assert(items_text(d) + "]}"@ =~= session_text(d[0]) + rd);
            lemma_starts_at_split(t, p, session_text(l[0]), rl);
            lemma_starts_at_split(t, p, session_text(d[0]), rd);
            lemma_session_at_unique(t, p, l[0], d[0]);
            let q = p + session_text(l[0]).len();
            assert(rl =~= (tail_text(l.drop_first()) + seq![']']) + seq!['}']);
            assert(rd =~= (tail_text(d.drop_first()) + seq![']']) + seq!['}']);
            lemma_starts_at_split(t, q, tail_text(l.drop_first()) + seq![']'], seq!['}']);
            lemma_starts_at_split(t, q, tail_text(d.drop_first()) + seq![']'], seq!['}']);
            lemma_tail_at_unique(t, q, l.drop_first(), d.drop_first());
            assert(l =~= seq![l[0]] + l.drop_first());
            assert(d =~= seq![d[0]] + d.drop_first());
        }
    }
}

// ---------------------------------------------------------------- text

fn push_session(out: &mut String, s: &Session)
    ensures
        final(out)@ == old(out)@ + session_text(*s),
{
    out.append("{\"timestamp\":");
    push_integer(out, s.timestamp);
    out.append(",\"work_time\":");
    push_decimal(out, s.work_time as u64);
    out.append(",\"break_time\":");
    push_decimal(out, s.break_time as u64);
    out.append("}");
    assert(out@ =~= old(out)@ + session_text(*s));
}

/// Reads the text of one session at `pos`: the session and the position after it.
fn parse_session(t: &Vec<char>, pos: usize) -> (r: Option<(Session, usize)>)
    ensures
        r matches Some((s, end)) ==> starts_at(t@, pos as int, session_text(s)) && end == pos
            + session_text(s).len(),
        forall|x: Session|
            #![trigger session_text(x)]
            starts_at(t@, pos as int, session_text(x)) ==> r == Some(
                (x, (pos + session_text(x).len()) as usize),
            ),
{
    let ghost w: Option<Session> = if exists|x: Session| starts_at(t@, pos as int, session_text(x)) {
        Some(choose|x: Session| starts_at(t@, pos as int, session_text(x)))
    } else {
        None
    };
    assert(w matches Some(x) ==> session_layout(t@, pos as int, x)) by {
        if w is Some {
            lemma_session_layout(t@, pos as int, w.unwrap());
        }
    }
    assert forall|x: Session| #![trigger session_text(x)] starts_at(t@, pos as int, session_text(x)) implies w
        == Some(x) by {
        lemma_session_at_unique(t@, pos as int, x, w.unwrap());
    }
    let p1 = match expect(t, pos, "{\"timestamp\":") {
        Some(p) => p,
        None => return None,
    };
    let (timestamp, p2) = match parse_integer(t, p1) {
        Some(v) => v,
        None => return None,
    };
    let p3 = match expect(t, p2, ",\"work_time\":") {
        Some(p) => p,
        None => return None,
    };
    let (work_time, p4) = match parse_natural(t, p3) {
        Some(v) => v,
        None => return None,
    };
    if work_time > u32::MAX as u64 {
        return None;
    }
    let p5 = match expect(t, p4, ",\"break_time\":") {
        Some(p) => p,
        None => return None,
    };
    let (break_time, p6) = match parse_natural(t, p5) {
        Some(v) => v,
        None => return None,
    };
    if break_time > u32::MAX as u64 {
        return None;
    }
    let p7 = match expect(t, p6, "}") {
        Some(p) => p,
        None => return None,
    };
    let s = Session { timestamp, work_time: work_time as u32, break_time: break_time as u32 };
    proof {
        reveal_strlit("}");
        lemma_session_from_layout(t@, pos as int, s);
    }
    Some((s, p7))
}

impl JsonSerializable for Session {
    open spec fn json_text(&self) -> Seq<char> {
        session_text(*self)
    }

    fn to_json(&self) -> (r: String) {
        let mut out = String::new();
        push_session(&mut out, self);
        assert(out@ =~= session_text(*self));
        out
    }

    fn from_json(text: &str) -> (r: Option<Session>) {
        let t = chars_of(text);
        proof {
            assert forall|x: Session| #[trigger] session_text(x) == text@ implies starts_at(
                t@,
                0,
                session_text(x),
            ) by {
                assert(t@.subrange(0, t@.len() as int) =~= t@);
            }
        }
        match parse_session(&t, 0) {
            Some((s, end)) => {
                if end != t.len() {
                    return None;
                }
                assert(t@ =~= t@.subrange(0, end as int));
                Some(s)
            },
            None => None,
        }
    }
}

impl Session {
    /// A session record; without a timestamp it is stamped with the Unix epoch.
    pub fn new(timestamp: Option<i64>, work_time: u32, break_time: u32) -> (r: Session)
        ensures
            r.timestamp == (match timestamp {
                Some(t) => t,
                None => 0,
            }),
            r.work_time == work_time,
            r.break_time == break_time,
    {
        match timestamp {
            Some(t) => Session { timestamp: t, work_time, break_time },
            None => Session { timestamp: 0, work_time, break_time },
        }
    }
}

impl SessionList {
    /// A list holding the given sessions, or no session.
    pub fn new(sessions: Option<Vec<Session>>) -> (r: SessionList)
        ensures
            r@ == (match sessions {
                Some(v) => v@,
                None => Seq::empty(),
            }),
    {
        match sessions {
            Some(v) => SessionList { sessions: v },
            None => SessionList { sessions: Vec::new() },
        }
    }

    /// The sessions, oldest first.
    pub fn sessions(&self) -> (r: &Vec<Session>)
        ensures
            r@ == self@,
    {
        &self.sessions
    }

    /// Adds a session after all the others.
    pub fn append(&mut self, session: Session)
        ensures
            final(self)@ == old(self)@.push(session),
    {
        self.sessions.push(session);
    }

    /// The minutes worked over all sessions, or `u64::MAX` where that sum
    /// does not fit.
    pub fn total_work_minutes(&self) -> (r: u64)
        ensures
            r == if total_minutes(self@) <= u64::MAX {
                total_minutes(self@)
            } else {
                u64::MAX as nat
            },
    {
        let mut total: u64 = 0;
        let mut i: usize = 0;
        while i < self.sessions.len()
            invariant
                i <= self.sessions@.len(),
                total == if total_minutes(self.sessions@.take(i as int)) <= u64::MAX {
                    total_minutes(self.sessions@.take(i as int))
                } else {
                    u64::MAX as nat
                },
            decreases self.sessions@.len() - i,
        {
            let w = self.sessions[i].work_time as u64;
            proof {
                let next = self.sessions@.take(i + 1);
                assert(next.drop_last() =~= self.sessions@.take(i as int));
            }
            total = total.saturating_add(w);
            i = i + 1;
        }
        assert(self.sessions@.take(i as int) =~= self.sessions@);
        total
    }

    /// The session log as read from its stored text: the sessions the text
    /// holds, or an empty log where there is no text or it holds no session
    /// list.
    pub fn load_sessions(contents: Option<String>) -> (r: SessionList)
        ensures
            contents is None ==> r@ == Seq::<Session>::empty(),
            contents matches Some(c) ==> (if exists|l: Seq<Session>| list_text(l) == c@ {
                list_text(r@) == c@
            } else {
                r@ == Seq::<Session>::empty()
            }),
    {
        match contents {
            Some(c) => match parse_session_list(c.as_str()) {
                Some(l) => l,
                None => SessionList::new(None),
            },
            None => SessionList::new(None),
        }
    }
}

impl JsonSerializable for SessionList {
    open spec fn json_text(&self) -> Seq<char> {
        list_text(self@)
    }

    fn to_json(&self) -> (r: String) {
        let mut out = String::new();
        out.append("{\"sessions\":[");
        let mut i: usize = 0;
        while i < self.sessions.len()
            invariant
                i <= self.sessions@.len(),
                out@ == "{\"sessions\":["@ + items_text(self.sessions@.take(i as int)),
            decreases self.sessions@.len() - i,
        {
            proof {
                lemma_items_text_push(self.sessions@.take(i as int), self.sessions@[i as int]);
                assert(self.sessions@.take(i as int).push(self.sessions@[i as int])
                    =~= self.sessions@.take(i + 1));
            }
            if i > 0 {
                push_char(&mut out, ',');
            }
            push_session(&mut out, &self.sessions[i]);
            i = i + 1;
            assert(out@ =~= "{\"sessions\":["@ + items_text(self.sessions@.take(i as int)));
        }
        out.append("]}");
        assert(self.sessions@.take(i as int) =~= self.sessions@);
        assert(out@ =~= list_text(self@));
        out
    }

    fn from_json(text: &str) -> (r: Option<SessionList>) {
        parse_session_list(text)
    }
}

/// Reads a session list from its JSON text: `None` exactly when the text is
/// the text of no session list.
#[verifier::rlimit(60)]
fn parse_session_list(text: &str) -> (r: Option<SessionList>)
    ensures
        r matches Some(l) ==> list_text(l@) == text@,
        r is None ==> forall|x: Seq<Session>| #[trigger] list_text(x) != text@,
{
    let t = chars_of(text);
    let head = "{\"sessions\":[";
    let ghost w: Option<Seq<Session>> = if exists|x: Seq<Session>| list_text(x) == t@ {
        Some(choose|x: Seq<Session>| list_text(x) == t@)
    } else {
        None
    };
    proof {
        reveal_strlit("]}");
        if w is Some {
            let x = w.unwrap();
            assert(t@.subrange(0, t@.len() as int) =~= t@);
            lemma_starts_at_split(t@, 0, head@, items_text(x) + "]}"@);
        }
    }
    let start = match expect(&t, 0, head) {
        Some(p) => p,
        None => return None,
    };
    let mut list: Vec<Session> = Vec::new();
    let mut pos: usize = start;
    assert(t@.subrange(start as int, start as int) =~= Seq::<char>::empty());
    loop
        invariant
            start <= pos <= t@.len(),
            t@ == text@,
            start == head@.len(),
            starts_at(t@, 0, head@),
            starts_at(t@, start as int, items_text(list@)),
            pos == start + items_text(list@).len(),
            w matches Some(x) ==> list@.len() <= x.len() && list@ == x.take(list@.len() as int)
                && starts_at(
                t@,
                pos as int,
                (if list@.len() == 0 {
                    items_text(x)
                } else {
                    tail_text(x.skip(list@.len() as int))
                }) + "]}"@,
            ),
            w is None ==> forall|x: Seq<Session>| #[trigger] list_text(x) != t@,
        ensures
            pos < t@.len(),
            t@[pos as int] == ']',
            w matches Some(x) ==> list@ == x,
        decreases t@.len() - pos,
    {
        let k = list.len();
        let ghost rest: Seq<char> = if w is Some {
            let x = w.unwrap();
            if k == 0 {
                items_text(x)
            } else {
                tail_text(x.skip(k as int))
            }
        } else {
            Seq::empty()
        };
        assert(w matches Some(x) ==> pos < t@.len() && (k < x.len() ==> t@[pos as int] == (if k
            == 0 {
            '{'
        } else {
            ','
        })) && (k == x.len() ==> t@[pos as int] == ']')) by {
            reveal_strlit("]}");
            if w is Some {
                let x = w.unwrap();
                assert(t@.subrange(pos as int, pos + rest.len() + 2)[0] == t@[pos as int]);
                if k < x.len() {
                    lemma_session_text_shape(x[k as int]);
                    if k == 0 {
                        assert(rest[0] == '{');
                    } else {
                        assert(x.skip(k as int)[0] == x[k as int]);
                        assert(rest[0] == ',');
                    }
                    assert((rest + "]}"@)[0] == rest[0]);
                } else {
                    assert(x.take(k as int) =~= x);
                    if k == 0 {
                        assert(rest =~= Seq::<char>::empty());
                    } else {
                        assert(x.skip(k as int) =~= Seq::<Session>::empty());
                        assert(rest =~= Seq::<char>::empty());
                    }
                    assert((rest + "]}"@)[0] == ']');
                }
            }
        }
        if pos >= t.len() {
            return None;
        }
        if t[pos] == ']' {
            break;
        }
        let mut at = pos;
        if k > 0 {
            if t[pos] != ',' {
                return None;
            }
            at = pos + 1;
        }
        proof {
            if w is Some {
                let x = w.unwrap();
                let after = if k == 0 {
                    tail_text(x.drop_first())
                } else {
                    tail_text(x.skip(k + 1))
                } + "]}"@;
                if k == 0 {
                    assert(rest + "]}"@ =~= session_text(x[0]) + after);
                    lemma_starts_at_split(t@, pos as int, session_text(x[0]), after);
                } else {
                    assert(x.skip(k as int).drop_first() =~= x.skip(k + 1));
                    assert(x.skip(k as int)[0] == x[k as int]);
                    assert(rest + "]}"@ =~= seq![','] + (session_text(x[k as int]) + after));
                    lemma_starts_at_split(t@, pos as int, seq![','], session_text(x[k as int]) + after);
                    lemma_starts_at_split(t@, at as int, session_text(x[k as int]), after);
                }
            }
        }
        let (s, next) = match parse_session(&t, at) {
            Some(v) => v,
            None => return None,
        };
        proof {
            lemma_items_text_push(list@, s);
            if k > 0 {
                assert(t@.subrange(pos as int, pos + 1) =~= seq![',']);
                lemma_starts_at_join(t@, start as int, items_text(list@), seq![',']);
                lemma_starts_at_join(t@, start as int, items_text(list@) + seq![','], session_text(s));
            } else {
                assert(items_text(list@) =~= Seq::<char>::empty());
                lemma_starts_at_join(t@, start as int, items_text(list@), session_text(s));
                assert(items_text(list@) + Seq::<char>::empty() =~= items_text(list@));
            }
            if w is Some {
                let x = w.unwrap();
                assert(x.take(k + 1) =~= x.take(k as int).push(x[k as int]));
                if k == 0 {
                    assert(x.drop_first() =~= x.skip(1));
                }
            }
        }
        list.push(s);
        pos = next;
    }
    let end = match expect(&t, pos, "]}") {
        Some(p) => p,
        None => return None,
    };
    if end != t.len() {
        return None;
    }
    let l = SessionList { sessions: list };
    proof {
        lemma_starts_at_join(t@, 0, head@, items_text(l@));
        lemma_starts_at_join(t@, 0, head@ + items_text(l@), "]}"@);
        assert(t@ =~= t@.subrange(0, t@.len() as int));
        assert(list_text(l@) =~= head@ + items_text(l@) + "]}"@);
    }
    Some(l)
}

} // verus!
