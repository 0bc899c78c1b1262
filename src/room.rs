use tokio::sync::mpsc::Sender;
use vstd::prelude::*;

use crate::lines::{
    chat_line, chat_text, contents_line, contents_text, entered_line, entered_text, left_line,
    left_text, names_of,
};
use crate::names::{
    is_valid_name, lemma_name_lt_irreflexive, lemma_name_lt_total, lemma_name_lt_transitive,
    name_less, name_lt, names_equal, validate_username,
};

verus! {

#[verifier::external_type_specification]
#[verifier::external_body]
#[verifier::reject_recursive_types(T)]
pub struct ExSender<T>(Sender<T>);

/// What the room sends to one client session.
#[derive(Clone, Debug, PartialEq, Eq)]
pub enum ClientCommand {
    /// A line to write to the peer verbatim.
    Message(String),
    /// The session is to close.
    Disconnect,
}

/// What a client session asks of the room.
pub enum RoomCommand {
    Join(String, Sender<ClientCommand>),
    Message(String, String),
    Disconnect(String),
}

/// Relies on tokio's `mpsc::Sender::try_send`: the message is queued when the
/// channel has room, and the call returns at once either way (it never waits);
/// `false` means the channel was full or closed.
#[verifier::external_body]
fn try_deliver(channel: &Sender<ClientCommand>, message: ClientCommand) -> (r: bool) {
    channel.try_send(message).is_ok()
}

/// Every name comes strictly before every later one.
pub open spec fn ascending(s: Seq<Seq<char>>) -> bool {
    forall|i: int, j: int| 0 <= i < j < s.len() ==> name_lt(#[trigger] s[i], #[trigger] s[j])
}

pub open spec fn all_valid(s: Seq<Seq<char>>) -> bool {
    forall|i: int| 0 <= i < s.len() ==> is_valid_name(#[trigger] s[i])
}

/// The room's membership as a listing: valid names in ascending order.
pub open spec fn well_formed(s: Seq<Seq<char>>) -> bool {
    ascending(s) && all_valid(s)
}

/// A join under `name` is admitted by a room listing `s`.
pub open spec fn join_accepted(s: Seq<Seq<char>>, name: Seq<char>) -> bool {
    is_valid_name(name) && !s.contains(name)
}

pub proof fn lemma_ascending_distinct(s: Seq<Seq<char>>)
    requires
        ascending(s),
    ensures
        forall|i: int, j: int| 0 <= i < s.len() && 0 <= j < s.len() && i != j ==> s[i] != s[j],
{
    assert forall|i: int, j: int| 0 <= i < s.len() && 0 <= j < s.len() && i != j implies s[i]
        != s[j] by {
        lemma_name_lt_irreflexive(s[i]);
        if i < j {
            assert(name_lt(s[i], s[j]));
        } else {
            assert(name_lt(s[j], s[i]));
        }
    }
}

/// No two members of a well-formed room share a name, whatever joins,
/// messages and departures led to it.
pub proof fn lemma_member_names_unique(room: &Room)
    requires
        room.wf(),
    ensures
        forall|i: int, j: int| 0 <= i < j < room@.len() ==> room@[i] != room@[j],
{
    lemma_ascending_distinct(room@);
}

/// Every member of a well-formed room has a non-empty name of ASCII letters
/// and digits.
pub proof fn lemma_member_names_valid(room: &Room)
    requires
        room.wf(),
    ensures
        forall|i: int| 0 <= i < room@.len() ==> is_valid_name(#[trigger] room@[i]),
{
}

proof fn lemma_contains_push<A>(s: Seq<A>, x: A)
    ensures
        forall|m: A| #[trigger] s.push(x).contains(m) <==> (s.contains(m) || m == x),
{
    assert forall|m: A| #[trigger] s.push(x).contains(m) <==> (s.contains(m) || m == x) by {
        if s.contains(m) {
            let i = choose|i: int| 0 <= i < s.len() && s[i] == m;
            assert(s.push(x)[i] == m);
        }
        if m == x {
            assert(s.push(x)[s.len() as int] == m);
        }
        if s.push(x).contains(m) {
            let i = choose|i: int| 0 <= i < s.len() + 1 && s.push(x)[i] == m;
            if i < s.len() {
                assert(s[i] == m);
            }
        }
    }
}

proof fn lemma_names_push(v: Seq<String>, x: String)
    ensures
        names_of(v.push(x)) == names_of(v).push(x@),
{
    assert(names_of(v.push(x)) =~= names_of(v).push(x@));
}

proof fn lemma_contains_insert<A>(s: Seq<A>, i: int, x: A)
    requires
        0 <= i <= s.len(),
    ensures
        forall|m: A| #[trigger] s.insert(i, x).contains(m) <==> (s.contains(m) || m == x),
{
    let t = s.insert(i, x);
    assert forall|m: A| #[trigger] t.contains(m) <==> (s.contains(m) || m == x) by {
        if s.contains(m) {
            let j = choose|j: int| 0 <= j < s.len() && s[j] == m;
            if j < i {
                assert(t[j] == m);
            } else {
                assert(t[j + 1] == m);
            }
        }
        if m == x {
            assert(t[i] == m);
        }
        if t.contains(m) {
            let j = choose|j: int| 0 <= j < t.len() && t[j] == m;
            if j < i {
                assert(s[j] == m);
            } else if j > i {
                assert(s[j - 1] == m);
            }
        }
    }
}

proof fn lemma_contains_remove<A>(s: Seq<A>, i: int)
    requires
        0 <= i < s.len(),
        forall|j: int| 0 <= j < s.len() && j != i ==> s[j] != s[i],
    ensures
        forall|m: A| #[trigger] s.remove(i).contains(m) <==> (s.contains(m) && m != s[i]),
{
    let t = s.remove(i);
    assert forall|m: A| #[trigger] t.contains(m) <==> (s.contains(m) && m != s[i]) by {
        if s.contains(m) && m != s[i] {
            let j = choose|j: int| 0 <= j < s.len() && s[j] == m;
            if j < i {
                assert(t[j] == m);
            } else {
                assert(t[j - 1] == m);
            }
        }
        if t.contains(m) {
            let j = choose|j: int| 0 <= j < t.len() && t[j] == m;
            if j < i {
                assert(s[j] == m);
            } else {
                assert(s[j + 1] == m);
            }
        }
    }
}

proof fn lemma_refused_from_refusal(r: Seq<Seq<char>>, ok: Seq<bool>, m: Seq<char>)
    requires
        ok.len() == r.len(),
        refused(r, ok).contains(m),
    ensures
        exists|i: int| 0 <= i < r.len() && r[i] == m && !ok[i],
    decreases r.len(),
{
    let rest = refused(r.drop_last(), ok.drop_last());
    if rest.contains(m) {
        lemma_refused_from_refusal(r.drop_last(), ok.drop_last(), m);
        let i = choose|i: int| 0 <= i < r.len() - 1 && r.drop_last()[i] == m && !ok.drop_last()[i];
        assert(r[i] == m && !ok[i]);
    } else {
        lemma_contains_push(rest, r.last());
        assert(r[r.len() - 1] == m && !ok[r.len() - 1]);
    }
}

/// A fan-out never costs a member its place when that member's own channel
/// took the line: one slow or closed peer is dropped alone.
pub proof fn lemma_delivered_member_stays(
    d: Delivery,
    text: Seq<char>,
    audience: Set<Seq<char>>,
    stay: Set<Seq<char>>,
    after: Seq<Seq<char>>,
    i: int,
)
    requires
        relayed(d, text, audience, stay, after),
        0 <= i < d.recipients@.len(),
        d.delivered@[i],
        stay.contains(d.recipients@[i]@),
    ensures
        after.contains(d.recipients@[i]@),
{
    let r = names_of(d.recipients@);
    let m = d.recipients@[i]@;
    assert(r[i] == m);
    if names_of(d.dropped@).contains(m) {
        lemma_refused_from_refusal(r, d.delivered@, m);
        let j = choose|j: int| 0 <= j < r.len() && r[j] == m && !d.delivered@[j];
        lemma_ascending_distinct(r);
        assert(j != i);
    }
}

proof fn lemma_refused_push(r: Seq<Seq<char>>, ok: Seq<bool>, x: Seq<char>, b: bool)
    ensures
        refused(r.push(x), ok.push(b)) == if b {
            refused(r, ok)
        } else {
            refused(r, ok).push(x)
        },
{
    assert(r.push(x).drop_last() =~= r);
    assert(ok.push(b).drop_last() =~= ok);
}

proof fn lemma_user_names_push(v: Seq<User>, x: User)
    ensures
        user_names(v.push(x)) == user_names(v).push(x.name@),
{
    assert(user_names(v.push(x)) =~= user_names(v).push(x.name@));
}

struct User {
    name: String,
    channel: Sender<ClientCommand>,
}

spec fn user_names(v: Seq<User>) -> Seq<Seq<char>> {
    v.map_values(|u: User| u.name@)
}

/// The members of the room and the channels that reach their sessions.
pub struct Room {
    users: Vec<User>,
}

/// The outcome of one fan-out: the line sent, the members it was offered to,
/// whether each one's channel took it, and those that could not take it and
/// were dropped from the room.
pub struct Delivery {
    pub text: String,
    pub recipients: Vec<String>,
    pub delivered: Vec<bool>,
    pub dropped: Vec<String>,
}

/// What the room did with one command.
pub enum Handled {
    Join(JoinOutcome),
    Relay(Delivery),
}

/// The names of `r` whose delivery was refused, by the answers `ok` given in
/// the same order, kept in order.
pub open spec fn refused(r: Seq<Seq<char>>, ok: Seq<bool>) -> Seq<Seq<char>>
    decreases r.len(),
{
    if r.len() == 0 {
        Seq::empty()
    } else {
        let rest = refused(r.drop_last(), ok.drop_last());
        if ok.last() {
            rest
        } else {
            rest.push(r.last())
        }
    }
}

/// `d` reports that `text` was offered, in ascending order of name, to exactly
/// the members in `audience`; a member is dropped exactly when its channel
/// refused the line, and `after` holds `stay` less the dropped members.
pub open spec fn relayed(
    d: Delivery,
    text: Seq<char>,
    audience: Set<Seq<char>>,
    stay: Set<Seq<char>>,
    after: Seq<Seq<char>>,
) -> bool {
    &&& d.text@ == text
    &&& ascending(names_of(d.recipients@))
    &&& forall|m: Seq<char>| #[trigger]
        names_of(d.recipients@).contains(m) <==> audience.contains(m)
    &&& d.delivered@.len() == d.recipients@.len()
    &&& names_of(d.dropped@) == refused(names_of(d.recipients@), d.delivered@)
    &&& forall|m: Seq<char>| #[trigger]
        after.contains(m) <==> (stay.contains(m) && !names_of(d.dropped@).contains(m))
}

/// `o` reports a join under `name` with `channel` on the room `before` that
/// left the room `after`: refused exactly when the name is invalid or taken;
/// when refused or unreachable the room, channels included, is unchanged;
/// when admitted, the joiner got the listing of `before`, every member of
/// `before` was offered the arrival, and the members are those of `before`
/// and the joiner with its channel, less those that refused the arrival.
pub open spec fn join_reported(
    o: JoinOutcome,
    before: Room,
    name: Seq<char>,
    channel: Sender<ClientCommand>,
    after: Room,
) -> bool {
    &&& (o is Rejected <==> !join_accepted(before@, name))
    &&& (o is Rejected || o is Unreachable ==> after == before)
    &&& match o {
        JoinOutcome::Joined { contents, announcement } => {
            &&& contents@ == contents_text(before@)
            &&& relayed(
                announcement,
                entered_text(name),
                before@.to_set(),
                before@.to_set().insert(name),
                after@,
            )
            &&& forall|p: (Seq<char>, Sender<ClientCommand>)|
                #[trigger] after.members().contains(p) <==> ((before.members().contains(p) || p
                    == (name, channel)) && !names_of(announcement.dropped@).contains(p.0))
        },
        JoinOutcome::Unreachable { contents } => contents@ == contents_text(before@),
        _ => true,
    }
}

/// `d` reports relaying `text` from `from` on the room `before` that left the
/// room `after`: offered to every member but `from`, and every member that took
/// it stays with its own channel.
pub open spec fn message_reported(
    d: Delivery,
    before: Room,
    from: Seq<char>,
    text: Seq<char>,
    after: Room,
) -> bool {
    &&& relayed(d, chat_text(from, text), before@.to_set().remove(from), before@.to_set(), after@)
    &&& forall|p: (Seq<char>, Sender<ClientCommand>)|
        #[trigger] after.members().contains(p) <==> (before.members().contains(p)
            && !names_of(d.dropped@).contains(p.0))
}

/// `d` reports the departure of `name` from the room `before` that left the
/// room `after`: `name` is gone, those who remain were offered the news, and
/// every member that took it stays with its own channel.
pub open spec fn departure_reported(d: Delivery, before: Room, name: Seq<char>, after: Room) -> bool {
    &&& relayed(
        d,
        left_text(name),
        before@.to_set().remove(name),
        before@.to_set().remove(name),
        after@,
    )
    &&& forall|p: (Seq<char>, Sender<ClientCommand>)|
        #[trigger] after.members().contains(p) <==> (before.members().contains(p) && p.0 != name
            && !names_of(d.dropped@).contains(p.0))
}

/// The outcome of a join.
pub enum JoinOutcome {
    /// The name was invalid or taken; the session was told to close.
    Rejected,
    /// The name was admissible but the joiner's own channel could not take the
    /// room listing `contents`, so it was not admitted.
    Unreachable { contents: String },
    /// The joiner was admitted, was sent `contents`, and the others were told.
    Joined { contents: String, announcement: Delivery },
}

spec fn user_pairs(v: Seq<User>) -> Seq<(Seq<char>, Sender<ClientCommand>)> {
    v.map_values(|u: User| (u.name@, u.channel))
}

proof fn lemma_user_pairs_push(v: Seq<User>, x: User)
    ensures
        user_pairs(v.push(x)) == user_pairs(v).push((x.name@, x.channel)),
{
    assert(user_pairs(v.push(x)) =~= user_pairs(v).push((x.name@, x.channel)));
}

impl View for Room {
    type V = Seq<Seq<char>>;

    closed spec fn view(&self) -> Seq<Seq<char>> {
        user_names(self.users@)
    }
}

impl Room {
    pub open spec fn wf(&self) -> bool {
        well_formed(self@)
    }

    /// Each member's name with the channel that reaches its session, in the
    /// order of the listing.
    pub closed spec fn members(&self) -> Seq<(Seq<char>, Sender<ClientCommand>)> {
        user_pairs(self.users@)
    }

    /// The listing is the members' names.
    pub proof fn lemma_listing_is_member_names(&self)
        ensures
            self.members().len() == self@.len(),
            forall|i: int| 0 <= i < self@.len() ==> #[trigger] self.members()[i].0 == self@[i],
    {
    }

    pub fn new() -> (r: Room)
        ensures
            r@ == Seq::<Seq<char>>::empty(),
            r.members() == Seq::<(Seq<char>, Sender<ClientCommand>)>::empty(),
            r.wf(),
    {
        let r = Room { users: Vec::new() };
        assert(r@ =~= Seq::<Seq<char>>::empty());
        assert(r.members() =~= Seq::<(Seq<char>, Sender<ClientCommand>)>::empty());
        r
    }

    /// The number of members.
    pub fn len(&self) -> (r: usize)
        ensures
            r == self@.len(),
    {
        self.users.len()
    }

    /// Where `name` stands in the listing, if it is a member.
    fn position(&self, name: &str) -> (r: Option<usize>)
        ensures
            match r {
                Some(i) => i < self@.len() && self@[i as int] == name@,
                None => !self@.contains(name@),
            },
    {
        let mut i: usize = 0;
        while i < self.users.len()
            invariant
                i <= self.users.len(),
                forall|j: int| 0 <= j < i ==> self@[j] != name@,
            decreases self.users.len() - i,
        {
            if names_equal(self.users[i].name.as_str(), name) {
                return Some(i);
            }
            i += 1;
        }
        None
    }

    /// Whether `name` is a member.
    pub fn contains(&self, name: &str) -> (r: bool)
        ensures
            r == self@.contains(name@),
    {
        match self.position(name) {
            Some(_) => true,
            None => false,
        }
    }

    /// The members' names, in ascending order.
    pub fn names(&self) -> (r: Vec<String>)
        ensures
            names_of(r@) == self@,
    {
        let mut r: Vec<String> = Vec::new();
        let mut i: usize = 0;
        while i < self.users.len()
            invariant
                i <= self.users.len(),
                names_of(r@) == self@.subrange(0, i as int),
            decreases self.users.len() - i,
        {
            let nm = self.users[i].name.clone();
            assert(nm@ == self@[i as int]);
            let ghost before = r@;
            assert(names_of(before).len() == before.len());
            r.push(nm);
            assert(r@ == before.push(nm));
            assert(names_of(r@).len() == r@.len());
            assert(self@.len() == self.users@.len());
            assert forall|k: int| 0 <= k < i + 1 implies names_of(r@)[k] == self@[k] by {
                if k < i {
                    assert(names_of(before)[k] == self@.subrange(0, i as int)[k]);
                }
            }
            assert(names_of(r@) =~= self@.subrange(0, i + 1));
            i += 1;
        }
        assert(self@.subrange(0, self.users.len() as int) =~= self@);
        r
    }

    /// Puts `user` at its place in the ascending listing.
    fn insert_user(&mut self, user: User)
        requires
            old(self).wf(),
            is_valid_name(user.name@),
            !old(self)@.contains(user.name@),
        ensures
            final(self).wf(),
            forall|m: Seq<char>|
                #[trigger] final(self)@.contains(m) <==> (old(self)@.contains(m) || m
                    == user.name@),
            forall|p: (Seq<char>, Sender<ClientCommand>)|
                #[trigger] final(self).members().contains(p) <==> (old(self).members().contains(p)
                    || p == (user.name@, user.channel)),
    {
        let ghost s = self@;
        let ghost nm = user.name@;
        let mut p: usize = 0;
        while p < self.users.len() && name_less(self.users[p].name.as_str(), user.name.as_str())
            invariant
                s == self@,
                nm == user.name@,
                p <= self.users.len(),
                forall|q: int| 0 <= q < p ==> name_lt(#[trigger] s[q], nm),
            decreases self.users.len() - p,
        {
            p += 1;
        }
        proof {
            assert forall|q: int| p <= q < s.len() implies name_lt(nm, #[trigger] s[q]) by {
                lemma_name_lt_total(s[p as int], nm);
                assert(s[p as int] != nm) by {
                    if s[p as int] == nm {
                        assert(s.contains(nm));
                    }
                }
                if q > p {
                    lemma_name_lt_transitive(nm, s[p as int], s[q]);
                }
            }
        }
        let ghost us = self.users@;
        let ghost pair = (user.name@, user.channel);
        self.users.insert(p, user);
        proof {
            assert(self.members() =~= user_pairs(us).insert(p as int, pair));
            lemma_contains_insert(user_pairs(us), p as int, pair);
            let t = s.insert(p as int, nm);
            assert(self@ =~= t) by {
                assert(self.users@ == us.insert(p as int, user));
            }
            assert forall|i: int, j: int| 0 <= i < j < t.len() implies name_lt(
                #[trigger] t[i],
                #[trigger] t[j],
            ) by {
                if j < p {
                } else if j == p {
                } else if i < p {
                    lemma_name_lt_transitive(t[i], nm, t[j]);
                } else if i == p {
                } else {
                }
            }
            assert forall|m: Seq<char>| #[trigger] t.contains(m) <==> (s.contains(m) || m == nm) by {
                if s.contains(m) {
                    let i = choose|i: int| 0 <= i < s.len() && s[i] == m;
                    if i < p {
                        assert(t[i] == m);
                    } else {
                        assert(t[i + 1] == m);
                    }
                }
                if m == nm {
                    assert(t[p as int] == m);
                }
                if t.contains(m) {
                    let i = choose|i: int| 0 <= i < t.len() && t[i] == m;
                    if i < p {
                        assert(s[i] == m);
                    } else if i > p {
                        assert(s[i - 1] == m);
                    }
                }
            }
        }
    }

    /// Takes `name` out of the room if it is there.
    fn remove_name(&mut self, name: &str)
        requires
            old(self).wf(),
        ensures
            final(self).wf(),
            forall|m: Seq<char>|
                #[trigger] final(self)@.contains(m) <==> (old(self)@.contains(m) && m != name@),
            forall|p: (Seq<char>, Sender<ClientCommand>)|
                #[trigger] final(self).members().contains(p) <==> (old(self).members().contains(p)
                    && p.0 != name@),
    {
        let ghost s = self@;
        let ghost ms = self.members();
        let i = match self.position(name) {
            Some(i) => i,
            None => {
                proof {
                    assert forall|p: (Seq<char>, Sender<ClientCommand>)| #[trigger]
                        ms.contains(p) implies p.0 != name@ by {
                        let j = choose|j: int| 0 <= j < ms.len() && ms[j] == p;
                        assert(ms[j].0 == s[j]);
                    }
                }
                return;
            },
        };
        proof {
            lemma_ascending_distinct(s);
        }
        let ghost us = self.users@;
        self.users.remove(i);
        proof {
            assert(self.members() =~= ms.remove(i as int));
            assert forall|j: int| 0 <= j < ms.len() && j != i implies ms[j] != ms[i as int] by {
                assert(ms[j].0 == s[j]);
                assert(ms[i as int].0 == s[i as int]);
            }
            lemma_contains_remove(ms, i as int);
            assert forall|p: (Seq<char>, Sender<ClientCommand>)| #[trigger] ms.contains(p) implies (
            p != ms[i as int] <==> p.0 != name@) by {
                let j = choose|j: int| 0 <= j < ms.len() && ms[j] == p;
                assert(ms[j].0 == s[j]);
                assert(ms[i as int].0 == s[i as int]);
            }
            let t = s.remove(i as int);
            assert(self@ =~= t) by {
                assert(self.users@ == us.remove(i as int));
            }
            assert forall|a: int, b: int| 0 <= a < b < t.len() implies name_lt(
                #[trigger] t[a],
                #[trigger] t[b],
            ) by {
                if a < i && b >= i {
                    assert(t[b] == s[b + 1]);
                }
            }
            assert forall|m: Seq<char>| #[trigger] t.contains(m) <==> (s.contains(m) && m != name@) by {
                if s.contains(m) && m != name@ {
                    let j = choose|j: int| 0 <= j < s.len() && s[j] == m;
                    if j < i {
                        assert(t[j] == m);
                    } else {
                        assert(t[j - 1] == m);
                    }
                }
                if t.contains(m) {
                    let j = choose|j: int| 0 <= j < t.len() && t[j] == m;
                    if j < i {
                        assert(s[j] == m);
                    } else {
                        assert(s[j + 1] == m);
                    }
                }
            }
        }
    }

    /// Admits `name` when it is valid and free: the joiner is sent the listing
    /// of those already present, then the others are told of the arrival.
    /// An invalid or taken name gets the session told to close, and the room
    /// stays as it was.
    pub fn join(&mut self, name: String, channel: Sender<ClientCommand>) -> (r: JoinOutcome)
        requires
            old(self).wf(),
        ensures
            final(self).wf(),
            join_reported(r, *old(self), name@, channel, *final(self)),
    {
        if !validate_username(name.as_str()) || self.contains(name.as_str()) {
            let _ = try_deliver(&channel, ClientCommand::Disconnect);
            return JoinOutcome::Rejected;
        }
        let present = self.names();
        let contents = contents_line(&present);
        let taken = try_deliver(&channel, ClientCommand::Message(contents.clone()));
        self.complete_join(name, channel, contents, taken)
    }

    /// Completes an admissible join once the joiner's channel has answered the
    /// listing `contents`: when it took it, the joiner enters with `channel` and
    /// the others are offered the arrival; when it did not, nothing changes.
    pub fn complete_join(
        &mut self,
        name: String,
        channel: Sender<ClientCommand>,
        contents: String,
        listing_taken: bool,
    ) -> (r: JoinOutcome)
        requires
            old(self).wf(),
            join_accepted(old(self)@, name@),
            contents@ == contents_text(old(self)@),
        ensures
            final(self).wf(),
            listing_taken ==> r is Joined,
            !listing_taken ==> r is Unreachable,
            join_reported(r, *old(self), name@, channel, *final(self)),
    {
        if !listing_taken {
            return JoinOutcome::Unreachable { contents };
        }
        let ghost before = self@;
        let text = entered_line(name.as_str());
        self.insert_user(User { name: name.clone(), channel });
        let announcement = self.send_to_others(name.as_str(), text);
        proof {
            assert(before.to_set().insert(name@).remove(name@) =~= before.to_set());
        }
        JoinOutcome::Joined { contents, announcement }
    }

    /// Relays a chat line from `from` to every other member. A sender that is
    /// no longer a member is still used as the label.
    pub fn message(&mut self, from: String, text: String) -> (d: Delivery)
        requires
            old(self).wf(),
        ensures
            final(self).wf(),
            !names_of(d.recipients@).contains(from@),
            message_reported(d, *old(self), from@, text@, *final(self)),
    {
        let line = chat_line(from.as_str(), text.as_str());
        self.send_to_others(from.as_str(), line)
    }

    /// Takes `name` out of the room, if present, and tells those who remain.
    pub fn disconnect(&mut self, name: String) -> (d: Delivery)
        requires
            old(self).wf(),
        ensures
            final(self).wf(),
            !names_of(d.recipients@).contains(name@),
            !final(self)@.contains(name@),
            departure_reported(d, *old(self), name@, *final(self)),
    {
        let ghost before = self@;
        self.remove_name(name.as_str());
        let ghost mid = self@;
        let line = left_line(name.as_str());
        let d = self.send_to_others(name.as_str(), line);
        proof {
            assert(mid.to_set() =~= before.to_set().remove(name@));
            assert(mid.to_set().remove(name@) =~= before.to_set().remove(name@));
        }
        d
    }

    /// Carries out one command from a session, and reports what it did.
    pub fn handle(&mut self, command: RoomCommand) -> (r: Handled)
        requires
            old(self).wf(),
        ensures
            final(self).wf(),
            match command {
                RoomCommand::Join(name, channel) => r matches Handled::Join(o) && join_reported(
                    o,
                    *old(self),
                    name@,
                    channel,
                    *final(self),
                ),
                RoomCommand::Message(from, text) => r matches Handled::Relay(d)
                    && message_reported(d, *old(self), from@, text@, *final(self)),
                RoomCommand::Disconnect(name) => r matches Handled::Relay(d)
                    && departure_reported(d, *old(self), name@, *final(self)),
            },
    {
        match command {
            RoomCommand::Join(name, channel) => Handled::Join(self.join(name, channel)),
            RoomCommand::Message(from, text) => Handled::Relay(self.message(from, text)),
            RoomCommand::Disconnect(name) => Handled::Relay(self.disconnect(name)),
        }
    }

    /// Records the answer of `user`'s channel to a fan-out: the member is named
    /// among the recipients with its answer, and is kept in the room when its
    /// channel took the line, else dropped.
    fn settle(
        &mut self,
        user: User,
        delivered: bool,
        recipients: &mut Vec<String>,
        answers: &mut Vec<bool>,
        dropped: &mut Vec<String>,
    )
        ensures
            final(recipients)@ == old(recipients)@.push(user.name),
            final(answers)@ == old(answers)@.push(delivered),
            delivered ==> final(self)@ == old(self)@.push(user.name@) && final(dropped)@ == old(
                dropped,
            )@ && final(self).members() == old(self).members().push((user.name@, user.channel)),
            !delivered ==> final(self)@ == old(self)@ && final(dropped)@ == old(dropped)@.push(
                user.name,
            ) && final(self).members() == old(self).members(),
    {
        recipients.push(user.name.clone());
        answers.push(delivered);
        if delivered {
            proof {
                lemma_user_names_push(self.users@, user);
                lemma_user_pairs_push(self.users@, user);
            }
            self.users.push(user);
        } else {
            dropped.push(user.name);
        }
    }

    /// Offers `text` to every member but `from`, without waiting on any of
    /// them; the members whose channel cannot take it are dropped from the room.
    pub fn send_to_others(&mut self, from: &str, text: String) -> (d: Delivery)
        requires
            old(self).wf(),
        ensures
            final(self).wf(),
            !names_of(d.recipients@).contains(from@),
            forall|m: Seq<char>| #[trigger]
                names_of(d.dropped@).contains(m) ==> names_of(d.recipients@).contains(m),
            relayed(d, text@, old(self)@.to_set().remove(from@), old(self)@.to_set(), final(self)@),
            forall|p: (Seq<char>, Sender<ClientCommand>)|
                #[trigger] final(self).members().contains(p) <==> (old(self).members().contains(p)
                    && !names_of(d.dropped@).contains(p.0)),
    {
        let ghost orig = self@;
        let ghost ou = self.users@;
        let ghost om = self.members();
        let mut rest: Vec<User> = Vec::new();
        std::mem::swap(&mut rest, &mut self.users);
        let mut recipients: Vec<String> = Vec::new();
        let mut delivered: Vec<bool> = Vec::new();
        let mut dropped: Vec<String> = Vec::new();
        let ghost mut k: int = 0;
        proof {
            lemma_ascending_distinct(orig);
            assert(self@ =~= Seq::<Seq<char>>::empty());
            assert(names_of(recipients@) =~= Seq::<Seq<char>>::empty());
            assert(names_of(dropped@) =~= Seq::<Seq<char>>::empty());
            assert(refused(names_of(recipients@), delivered@) =~= Seq::<Seq<char>>::empty());
            assert(orig.subrange(0, 0) =~= Seq::<Seq<char>>::empty());
            assert(user_names(rest@) =~= orig.subrange(0, orig.len() as int));
            assert(rest@ =~= ou.subrange(0, ou.len() as int));
            assert(om.subrange(0, 0) =~= Seq::<(Seq<char>, Sender<ClientCommand>)>::empty());
            assert(self.members() =~= Seq::<(Seq<char>, Sender<ClientCommand>)>::empty());
        }
        while rest.len() > 0
            invariant
                well_formed(orig),
                forall|i: int, j: int|
                    0 <= i < orig.len() && 0 <= j < orig.len() && i != j ==> orig[i] != orig[j],
                0 <= k <= orig.len(),
                user_names(rest@) == orig.subrange(k, orig.len() as int),
                ou.len() == orig.len(),
                om == user_pairs(ou),
                orig == user_names(ou),
                rest@ == ou.subrange(k, ou.len() as int),
                forall|p: (Seq<char>, Sender<ClientCommand>)|
                    #[trigger] self.members().contains(p) <==> (om.subrange(0, k).contains(p)
                        && !names_of(dropped@).contains(p.0)),
                ascending(self@),
                forall|x: int, q: int|
                    0 <= x < self@.len() && k <= q < orig.len() ==> name_lt(
                        #[trigger] self@[x],
                        #[trigger] orig[q],
                    ),
                ascending(names_of(recipients@)),
                forall|x: int, q: int|
                    0 <= x < names_of(recipients@).len() && k <= q < orig.len() ==> name_lt(
                        #[trigger] names_of(recipients@)[x],
                        #[trigger] orig[q],
                    ),
                forall|m: Seq<char>|
                    #[trigger] names_of(recipients@).contains(m) <==> (orig.subrange(
                        0,
                        k,
                    ).contains(m) && m != from@),
                forall|m: Seq<char>| #[trigger]
                    names_of(dropped@).contains(m) ==> names_of(recipients@).contains(m),
                delivered@.len() == recipients@.len(),
                names_of(dropped@) == refused(names_of(recipients@), delivered@),
                forall|m: Seq<char>|
                    #[trigger] self@.contains(m) <==> (orig.subrange(0, k).contains(m)
                        && !names_of(dropped@).contains(m)),
            decreases rest.len(),
        {
            let ghost kept0 = self@;
            let ghost rec0 = recipients@;
            let ghost drop0 = dropped@;
            let ghost ok0 = delivered@;
            let ghost mem0 = self.members();
            let ghost rest0 = rest@;
            assert(user_names(rest0).len() == rest0.len());
            assert(user_names(rest0)[0] == orig[k]);
            let u = rest.remove(0);
            proof {
                assert(rest@ == rest0.remove(0));
                assert(user_names(rest@).len() == rest@.len());
                assert forall|i: int| 0 <= i < rest@.len() implies user_names(rest@)[i]
                    == user_names(rest0)[i + 1] by {
                    assert(rest@[i] == rest0[i + 1]);
                }
                assert(user_names(rest@) =~= orig.subrange(k + 1, orig.len() as int));
                assert(u.name@ == orig[k]);
                assert(rest0[0] == ou[k]);
                assert(u == ou[k]);
                assert(rest@ =~= ou.subrange(k + 1, ou.len() as int));
                assert(om[k] == (u.name@, u.channel));
                assert(om.subrange(0, k + 1) =~= om.subrange(0, k).push(om[k]));
                lemma_contains_push(om.subrange(0, k), om[k]);
                assert forall|p: (Seq<char>, Sender<ClientCommand>)| #[trigger]
                    om.subrange(0, k).contains(p) implies p.0 != orig[k] by {
                    let j = choose|j: int| 0 <= j < k && om.subrange(0, k)[j] == p;
                    assert(om[j].0 == orig[j]);
                }
                assert(orig.subrange(0, k + 1) =~= orig.subrange(0, k).push(orig[k]));
                lemma_contains_push(orig.subrange(0, k), orig[k]);
                assert(!orig.subrange(0, k).contains(orig[k])) by {
                    if orig.subrange(0, k).contains(orig[k]) {
                        let i = choose|i: int| 0 <= i < k && orig.subrange(0, k)[i] == orig[k];
                        assert(orig[i] == orig[k]);
                    }
                }
            }
            if names_equal(u.name.as_str(), from) {
                proof {
                    lemma_user_names_push(self.users@, u);
                    lemma_user_pairs_push(self.users@, u);
                    lemma_contains_push(kept0, orig[k]);
                    lemma_contains_push(mem0, om[k]);
                }
                self.users.push(u);
            } else {
                let ok = try_deliver(&u.channel, ClientCommand::Message(text.clone()));
                let ghost un = u.name;
                self.settle(u, ok, &mut recipients, &mut delivered, &mut dropped);
                proof {
                    lemma_names_push(rec0, un);
                    lemma_contains_push(names_of(rec0), orig[k]);
                    lemma_refused_push(names_of(rec0), ok0, un@, ok);
                    if ok {
                        lemma_contains_push(kept0, orig[k]);
                        lemma_contains_push(mem0, om[k]);
                    } else {
                        lemma_names_push(drop0, un);
                        lemma_contains_push(names_of(drop0), orig[k]);
                    }
                }
            }
            proof {
                k = k + 1;
            }
        }
        proof {
            assert(orig.subrange(0, k) =~= orig);
            assert(om.subrange(0, k) =~= om);
            assert forall|x: int| 0 <= x < self@.len() implies is_valid_name(#[trigger] self@[x]) by {
                assert(self@.contains(self@[x]));
                let j = choose|j: int| 0 <= j < orig.len() && orig[j] == self@[x];
            }
        }
        Delivery { text, recipients, delivered, dropped }
    }
}

} // verus!
