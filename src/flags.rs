//! Message flags and the per-mailbox flag table.

use vstd::prelude::*;

verus! {

/// A message flag: one of the system flags, or a keyword.
///
/// Keywords compare ASCII-case-insensitively; the case they were first seen
/// in is kept for reporting.
#[derive(Clone, Debug)]
pub enum Flag {
    Answered,
    Deleted,
    Draft,
    Flagged,
    Seen,
    Keyword(String),
}

/// Whether two characters are equal once ASCII letters are lower-cased.
pub open spec fn ascii_ci_char_eq(a: char, b: char) -> bool {
    a == b || ('A' <= a <= 'Z' && b as u32 == a as u32 + 32) || ('A' <= b <= 'Z' && a as u32
        == b as u32 + 32)
}

/// Whether two strings are equal once ASCII letters are lower-cased.
pub open spec fn ascii_ci_eq(a: Seq<char>, b: Seq<char>) -> bool {
    a.len() == b.len() && forall|i: int| 0 <= i < a.len() ==> ascii_ci_char_eq(#[trigger] a[i], b[i])
}

/// Relies on str::eq_ignore_ascii_case: an ASCII case-insensitive match of
/// the two strings.
#[verifier::external_body]
fn eq_ignore_ascii_case(a: &str, b: &str) -> (r: bool)
    ensures
        r == ascii_ci_eq(a@, b@),
{
    a.eq_ignore_ascii_case(b)
}

/// Whether `a` and `b` name the same flag.
pub open spec fn flag_same(a: Flag, b: Flag) -> bool {
    match (a, b) {
        (Flag::Keyword(x), Flag::Keyword(y)) => ascii_ci_eq(x@, y@),
        (Flag::Keyword(_), _) => false,
        (_, Flag::Keyword(_)) => false,
        _ => a == b,
    }
}

/// Whether a flag of `fs` names the same flag as `f`.
pub open spec fn has_flag(fs: Seq<Flag>, f: Flag) -> bool {
    exists|j: int| 0 <= j < fs.len() && flag_same(#[trigger] fs[j], f)
}

/// `t` with `f` added at the end, unless a flag of `t` already names it.
pub open spec fn intern(t: Seq<Flag>, f: Flag) -> Seq<Flag> {
    if has_flag(t, f) {
        t
    } else {
        t.push(f)
    }
}

/// `t` with each flag of `fs` interned, in order.
pub open spec fn intern_all(t: Seq<Flag>, fs: Seq<Flag>) -> Seq<Flag>
    decreases fs.len(),
{
    if fs.len() == 0 {
        t
    } else {
        intern(intern_all(t, fs.drop_last()), fs.last())
    }
}

/// No two flags of the table name the same flag.
pub open spec fn distinct_flags(t: Seq<Flag>) -> bool {
    forall|a: int, b: int| 0 <= a < b < t.len() ==> !flag_same(#[trigger] t[a], #[trigger] t[b])
}

/// Whether bit `i` is set; bits past the end are clear.
pub open spec fn bit(s: Seq<bool>, i: int) -> bool {
    0 <= i < s.len() && s[i]
}

/// The bits, over table `t`, of the flags `fs`.
pub open spec fn bits_of(t: Seq<Flag>, fs: Seq<Flag>) -> Seq<bool> {
    Seq::new(t.len(), |i: int| has_flag(fs, t[i]))
}

/// The bits, over table `t`, of `old` with the flags `add` set and then the
/// flags `remove` cleared.
pub open spec fn stored_bits(old: Seq<bool>, t: Seq<Flag>, add: Seq<Flag>, remove: Seq<Flag>) -> Seq<bool> {
    Seq::new(t.len(), |i: int| (bit(old, i) || has_flag(add, t[i])) && !has_flag(remove, t[i]))
}

impl Flag {
    /// A copy of this flag.
    pub fn duplicate(&self) -> (r: Flag)
        ensures
            r == *self,
    {
        match self {
            Flag::Answered => Flag::Answered,
            Flag::Deleted => Flag::Deleted,
            Flag::Draft => Flag::Draft,
            Flag::Flagged => Flag::Flagged,
            Flag::Seen => Flag::Seen,
            Flag::Keyword(k) => Flag::Keyword(k.clone()),
        }
    }

    /// Whether `self` and `other` name the same flag.
    pub fn same_as(&self, other: &Flag) -> (r: bool)
        ensures
            r == flag_same(*self, *other),
    {
        match (self, other) {
            (Flag::Keyword(x), Flag::Keyword(y)) => eq_ignore_ascii_case(x.as_str(), y.as_str()),
            (Flag::Answered, Flag::Answered) => true,
            (Flag::Deleted, Flag::Deleted) => true,
            (Flag::Draft, Flag::Draft) => true,
            (Flag::Flagged, Flag::Flagged) => true,
            (Flag::Seen, Flag::Seen) => true,
            _ => false,
        }
    }
}

/// The position of the flag of `t` that names `f`, if any.
pub fn find_flag(t: &Vec<Flag>, f: &Flag) -> (r: Option<usize>)
    ensures
        r.is_none() == !has_flag(t@, *f),
        r.is_some() ==> r.unwrap() < t@.len() && flag_same(t@[r.unwrap() as int], *f),
{
    let mut i: usize = 0;
    while i < t.len()
        invariant
            0 <= i <= t@.len(),
            forall|j: int| 0 <= j < i ==> !flag_same(#[trigger] t@[j], *f),
        decreases t@.len() - i,
    {
        if t[i].same_as(f) {
            return Some(i);
        }
        i = i + 1;
    }
    None
}

/// Whether a flag of `fs` names `f`.
pub fn contains_flag(fs: &Vec<Flag>, f: &Flag) -> (r: bool)
    ensures
        r == has_flag(fs@, *f),
{
    let mut i: usize = 0;
    while i < fs.len()
        invariant
            0 <= i <= fs@.len(),
            forall|j: int| 0 <= j < i ==> !flag_same(#[trigger] fs@[j], *f),
        decreases fs@.len() - i,
    {
        if fs[i].same_as(f) {
            return true;
        }
        i = i + 1;
    }
    false
}

/// Adds `f` to the table unless it is there already.
pub fn intern_flag(t: &mut Vec<Flag>, f: &Flag)
    ensures
        final(t)@ == intern(old(t)@, *f),
{
    if find_flag(t, f).is_none() {
        t.push(f.duplicate());
    }
}

/// Interns each flag of `fs`, in order.
pub fn intern_flags(t: &mut Vec<Flag>, fs: &Vec<Flag>)
    ensures
        final(t)@ == intern_all(old(t)@, fs@),
{
    let mut i: usize = 0;
    while i < fs.len()
        invariant
            0 <= i <= fs@.len(),
            t@ == intern_all(old(t)@, fs@.subrange(0, i as int)),
        decreases fs@.len() - i,
    {
        assert(fs@.subrange(0, i + 1).drop_last() == fs@.subrange(0, i as int));
        intern_flag(t, &fs[i]);
        i = i + 1;
    }
    assert(fs@.subrange(0, fs@.len() as int) == fs@);
}

/// Interning keeps every flag at its position.
pub proof fn lemma_intern_all_prefix(t: Seq<Flag>, fs: Seq<Flag>)
    ensures
        t.is_prefix_of(intern_all(t, fs)),
        distinct_flags(t) ==> distinct_flags(intern_all(t, fs)),
        forall|j: int| 0 <= j < fs.len() ==> has_flag(intern_all(t, fs), #[trigger] fs[j]),
    decreases fs.len(),
{
    if fs.len() > 0 {
        let prev = intern_all(t, fs.drop_last());
        lemma_intern_all_prefix(t, fs.drop_last());
        let f = fs.last();
        if !has_flag(prev, f) {
            assert(prev.push(f)[prev.len() as int] == f);
        }
        assert forall|j: int| 0 <= j < fs.len() implies has_flag(intern_all(t, fs), #[trigger] fs[j]) by {
            if j < fs.len() - 1 {
                assert(fs.drop_last()[j] == fs[j]);
                let w = choose|w: int| 0 <= w < prev.len() && flag_same(#[trigger] prev[w], fs[j]);
                assert(intern_all(t, fs)[w] == prev[w]);
            } else {
                if has_flag(prev, f) {
                } else {
                    assert(flag_same(f, f));
                    assert(intern_all(t, fs)[prev.len() as int] == f);
                }
            }
        }
    }
}

} // verus!
