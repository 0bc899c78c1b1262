use vstd::prelude::*;

verus! {

/// A character allowed in a user name: an ASCII letter or digit.
pub open spec fn is_name_char(c: char) -> bool {
    ('a' <= c && c <= 'z') || ('A' <= c && c <= 'Z') || ('0' <= c && c <= '9')
}

/// A valid user name is non-empty and made of ASCII letters and digits only.
pub open spec fn is_valid_name(s: Seq<char>) -> bool {
    &&& s.len() > 0
    &&& forall|i: int| 0 <= i < s.len() ==> is_name_char(#[trigger] s[i])
}

/// Strict lexicographic order on names, character by character by code point;
/// a proper prefix comes first.
pub open spec fn name_lt(a: Seq<char>, b: Seq<char>) -> bool
    decreases a.len(),
{
    if a.len() == 0 {
        b.len() > 0
    } else if b.len() == 0 {
        false
    } else if a[0] != b[0] {
        a[0] < b[0]
    } else {
        name_lt(a.drop_first(), b.drop_first())
    }
}

pub proof fn lemma_name_lt_irreflexive(a: Seq<char>)
    ensures
        !name_lt(a, a),
    decreases a.len(),
{
    if a.len() > 0 {
        lemma_name_lt_irreflexive(a.drop_first());
    }
}

pub proof fn lemma_name_lt_transitive(a: Seq<char>, b: Seq<char>, c: Seq<char>)
    requires
        name_lt(a, b),
        name_lt(b, c),
    ensures
        name_lt(a, c),
    decreases a.len(),
{
    if a.len() > 0 && b.len() > 0 && c.len() > 0 && a[0] == b[0] && b[0] == c[0] {
        lemma_name_lt_transitive(a.drop_first(), b.drop_first(), c.drop_first());
    }
}

pub proof fn lemma_name_lt_total(a: Seq<char>, b: Seq<char>)
    ensures
        name_lt(a, b) || name_lt(b, a) || a == b,
    decreases a.len(),
{
    if a.len() > 0 && b.len() > 0 && a[0] == b[0] {
        lemma_name_lt_total(a.drop_first(), b.drop_first());
        if a.drop_first() == b.drop_first() {
            assert(a =~= seq![a[0]] + a.drop_first());
            assert(b =~= seq![b[0]] + b.drop_first());
        }
    } else if a.len() == 0 && b.len() == 0 {
        assert(a =~= b);
    }
}

fn is_name_character(c: char) -> (r: bool)
    ensures
        r == is_name_char(c),
{
    ('a' <= c && c <= 'z') || ('A' <= c && c <= 'Z') || ('0' <= c && c <= '9')
}

/// Decides whether `name` may be used to join the room.
pub fn validate_username(name: &str) -> (r: bool)
    ensures
        r == is_valid_name(name@),
{
    let n = name.unicode_len();
    if n == 0 {
        return false;
    }
    let mut i: usize = 0;
    while i < n
        invariant
            n == name@.len(),
            i <= n,
            forall|j: int| 0 <= j < i ==> is_name_char(#[trigger] name@[j]),
        decreases n - i,
    {
        let c = name.get_char(i);
        if !is_name_character(c) {
            return false;
        }
        i += 1;
    }
    true
}

/// Compares two names in the order used for the room's listing.
pub fn name_less(a: &str, b: &str) -> (r: bool)
    ensures
        r == name_lt(a@, b@),
{
    let na = a.unicode_len();
    let nb = b.unicode_len();
    let mut i: usize = 0;
    assert(a@.skip(0) =~= a@);
    assert(b@.skip(0) =~= b@);
    while i < na && i < nb
        invariant
            na == a@.len(),
            nb == b@.len(),
            i <= na,
            i <= nb,
            name_lt(a@, b@) == name_lt(a@.skip(i as int), b@.skip(i as int)),
        decreases na - i,
    {
        let ca = a.get_char(i);
        let cb = b.get_char(i);
        if ca != cb {
            assert(a@.skip(i as int)[0] == ca);
            assert(b@.skip(i as int)[0] == cb);
            return ca < cb;
        }
        assert(a@.skip(i as int).drop_first() =~= a@.skip(i + 1));
        assert(b@.skip(i as int).drop_first() =~= b@.skip(i + 1));
        i += 1;
    }
    i == na && i < nb
}

/// Decides whether two names are the same.
pub fn names_equal(a: &str, b: &str) -> (r: bool)
    ensures
        r == (a@ == b@),
{
    proof {
        lemma_name_lt_total(a@, b@);
        lemma_name_lt_irreflexive(a@);
    }
    !name_less(a, b) && !name_less(b, a)
}

} // verus!
