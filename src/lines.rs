use vstd::prelude::*;
use vstd::string::StringExecFns;

verus! {

/// The plain text of each name in `v`.
pub open spec fn names_of(v: Seq<String>) -> Seq<Seq<char>> {
    v.map_values(|s: String| s@)
}

/// The names of `s`, in order, separated by a comma and a space.
pub open spec fn joined(s: Seq<Seq<char>>) -> Seq<char>
    decreases s.len(),
{
    if s.len() == 0 {
        Seq::empty()
    } else if s.len() == 1 {
        s[0]
    } else {
        joined(s.drop_last()) + seq![',', ' '] + s.last()
    }
}

/// The greeting sent on connect.
pub open spec fn welcome_text() -> Seq<char> {
    "Welcome to budgetchat! What shall I call you?"@
}

/// The line a newly joined user receives, listing who was already there.
pub open spec fn contents_text(s: Seq<Seq<char>>) -> Seq<char> {
    "* The room contains: "@ + joined(s)
}

/// The announcement of an arrival.
pub open spec fn entered_text(name: Seq<char>) -> Seq<char> {
    "* "@ + name + " has entered the room"@
}

/// The announcement of a departure.
pub open spec fn left_text(name: Seq<char>) -> Seq<char> {
    "* "@ + name + " has left the room"@
}

/// A chat line as the other members see it.
pub open spec fn chat_text(from: Seq<char>, text: Seq<char>) -> Seq<char> {
    "["@ + from + "] "@ + text
}

pub fn welcome_line() -> (r: String)
    ensures
        r@ == welcome_text(),
{
    String::from_str("Welcome to budgetchat! What shall I call you?")
}

/// Lists `names` in the given order after the room-contents prefix.
pub fn contents_line(names: &Vec<String>) -> (r: String)
    ensures
        r@ == contents_text(names_of(names@)),
{
    let ghost s = names_of(names@);
    let mut out = String::from_str("* The room contains: ");
    let mut i: usize = 0;
    while i < names.len()
        invariant
            s == names_of(names@),
            i <= names.len(),
            out@ == "* The room contains: "@ + joined(s.subrange(0, i as int)),
        decreases names.len() - i,
    {
        proof {
            reveal_strlit(", ");
            let t = s.subrange(0, i + 1);
            assert(t.drop_last() =~= s.subrange(0, i as int));
            assert(t.last() == names@[i as int]@);
            if i == 0 {
                assert(joined(s.subrange(0, 0)) =~= Seq::<char>::empty());
            }
        }
        if i > 0 {
            out.append(", ");
        }
        out.append(names[i].as_str());
        i += 1;
    }
    assert(s.subrange(0, names.len() as int) =~= s);
    out
}

pub fn entered_line(name: &str) -> (r: String)
    ensures
        r@ == entered_text(name@),
{
    let out = String::from_str("* ");
    let out = out.concat(name);
    out.concat(" has entered the room")
}

pub fn left_line(name: &str) -> (r: String)
    ensures
        r@ == left_text(name@),
{
    let out = String::from_str("* ");
    let out = out.concat(name);
    out.concat(" has left the room")
}

pub fn chat_line(from: &str, text: &str) -> (r: String)
    ensures
        r@ == chat_text(from@, text@),
{
    let out = String::from_str("[");
    let out = out.concat(from);
    let out = out.concat("] ");
    out.concat(text)
}

} // verus!
