//! The people you record with, so a name is typed once rather than once per
//! recording.
//!
//! This is a list of names and nothing else. It deliberately stores no
//! voiceprints. The roster removes the retyping, not the choosing — assignment
//! stays a human decision.

use crate::json;
use crate::text;
use crate::text::{chars_of, eq_ignore_ascii_case, string_before, string_lower, string_of, trimmed};
use vstd::prelude::*;

verus! {

/// What became of reading the roster's file.
#[derive(Debug)]
pub enum Stored {
    Missing,
    Unreadable(String),
    Contents(String),
}

/// What `serde_json` reads as a list of strings, or what it says is wrong.
pub uninterp spec fn listed(s: Seq<char>) -> Result<Seq<Seq<char>>, Seq<char>>;

/// `serde_json::from_str` into a `Vec<String>`. The outcome, an error's words
/// included, is named [`listed`].
#[verifier::external_body]
pub(crate) fn read_names(s: &str) -> (r: Result<Vec<String>, String>)
    ensures
        r is Ok <==> listed(s@) is Ok,
        r is Ok ==> text::views(r->Ok_0@) == listed(s@)->Ok_0,
        r is Err ==> r->Err_0@ == listed(s@)->Err_0,
{
    serde_json::from_str::<Vec<String>>(s).map_err(|e| e.to_string())
}

/// A list of names as it stands in the file: one to a line, indented by two.
pub open spec fn pretty(names: Seq<Seq<char>>) -> Seq<char> {
    if names.len() == 0 {
        "[]"@
    } else {
        "[\n  "@ + text::joined(names.map_values(|s: Seq<char>| json::quoted(s)), ",\n  "@) + "\n]"@
    }
}

/// `serde_json::to_string_pretty` of a list of strings: it never fails, lays the
/// list out as [`pretty`] says, and what it writes reads back as the same list.
#[verifier::external_body]
pub(crate) fn write_names(names: &[String]) -> (r: Result<String, serde_json::Error>)
    ensures
        r is Ok,
        r->Ok_0@ == pretty(text::views(names@)),
        listed(r->Ok_0@) is Ok,
        listed(r->Ok_0@)->Ok_0 == text::views(names@),
{
    serde_json::to_string_pretty(names)
}

/// The names a stored roster holds: none where there is no file, or where it
/// cannot be read or understood.
pub open spec fn names_in(s: Stored) -> Seq<Seq<char>> {
    match s {
        Stored::Contents(t) => match listed(t@) {
            Ok(names) => names,
            Err(_) => Seq::empty(),
        },
        _ => Seq::empty(),
    }
}

/// What is said of a stored roster that could not be used.
pub open spec fn complaint(s: Stored, path: Seq<char>) -> Option<Seq<char>> {
    match s {
        Stored::Missing => None,
        Stored::Unreadable(e) => Some(
            "  WARNING: "@ + path + " could not be read ("@ + e@ + ")"@,
        ),
        Stored::Contents(t) => match listed(t@) {
            Ok(_) => None,
            Err(e) => Some(
                "  WARNING: "@ + path + " is not a valid roster ("@ + e
                    + ") \u{2014} treating it as empty"@,
            ),
        },
    }
}

/// Never fails: a malformed list of names must not be able to stop a recording.
/// The second value is what to warn of.
pub fn load(stored: &Stored, path: &str) -> (r: (Vec<String>, Option<String>))
    ensures
        text::views(r.0@) == names_in(*stored),
        text::opt(r.1) == complaint(*stored, path@),
{
    let none: Vec<String> = Vec::new();
    proof {
        assert(text::views(none@) == Seq::<Seq<char>>::empty());
    }
    match stored {
        Stored::Missing => (none, None),
        Stored::Unreadable(e) => {
            let mut w: String = "  WARNING: ".to_owned();
            w.append(path);
            w.append(" could not be read (");
            w.append(e.as_str());
            w.append(")");
            (none, Some(w))
        },
        Stored::Contents(t) => {
            match read_names(t.as_str()) {
                Ok(names) => (names, None),
                Err(e) => {
                    let mut w: String = "  WARNING: ".to_owned();
                    w.append(path);
                    w.append(" is not a valid roster (");
                    w.append(e.as_str());
                    w.append(") \u{2014} treating it as empty");
                    (none, Some(w))
                },
            }
        },
    }
}

/// What to write to keep a roster.
pub fn save(names: &[String]) -> (r: String)
    ensures
        r@ == pretty(text::views(names@)),
        listed(r@) is Ok,
        listed(r@)->Ok_0 == text::views(names@),
{
    match write_names(names) {
        Ok(t) => t,
        Err(_) => String::new(),
    }
}

/// What a roster is kept as reads back as the same names, with nothing to warn
/// of.
pub proof fn a_roster_round_trips(names: Seq<Seq<char>>, kept: Stored, path: Seq<char>)
    requires
        kept matches Stored::Contents(t) && listed(t@) is Ok && listed(t@)->Ok_0 == names,
    ensures
        names_in(kept) == names,
        complaint(kept, path) is None,
{
}

/// Whether a roster already has a name, however it is capitalised.
pub open spec fn knows(names: Seq<Seq<char>>, who: Seq<char>) -> bool {
    exists|i: int| 0 <= i < names.len() && text::same_ignoring_case(#[trigger] names[i], who)
}

/// `x` put where it belongs by its lowercase form, after every name that does not
/// come after it.
pub open spec fn placed(list: Seq<Seq<char>>, x: Seq<char>) -> Seq<Seq<char>>
    decreases list.len(),
{
    if list.len() > 0 && text::before(text::lowercased(x), text::lowercased(list.last())) {
        placed(list.drop_last(), x).push(list.last())
    } else {
        list.push(x)
    }
}

/// A list in the order of its names' lowercase forms; names whose forms are the
/// same stay in the order they were in.
pub open spec fn settled(list: Seq<Seq<char>>) -> Seq<Seq<char>>
    decreases list.len(),
{
    if list.len() == 0 {
        list
    } else {
        placed(settled(list.drop_last()), list.last())
    }
}

/// In the order of the lowercase forms.
pub open spec fn alphabetical(list: Seq<Seq<char>>) -> bool {
    forall|i: int, j: int|
        0 <= i < j < list.len() ==> !text::before(
            text::lowercased(#[trigger] list[j]),
            text::lowercased(#[trigger] list[i]),
        )
}

/// The names after adding one.
pub open spec fn added(names: Seq<Seq<char>>, who: Seq<char>) -> Seq<Seq<char>> {
    let name = text::trim(who);
    if name.len() == 0 || knows(names, name) {
        names
    } else {
        settled(names.push(name))
    }
}

fn place(list: &mut Vec<String>, x: String)
    ensures
        text::views(final(list)@) == placed(text::views(old(list)@), x@),
{
    let ghost all = text::views(list@);
    let key: String = string_lower(x.as_str());
    let mut i: usize = list.len();
    proof {
        assert(all.take(all.len() as int) == all);
        assert(all.skip(all.len() as int) == Seq::<Seq<char>>::empty());
        assert(placed(all, x@) == placed(all.take(i as int), x@) + all.skip(i as int));
    }
    let mut found: bool = false;
    while i > 0 && !found
        invariant
            i <= list@.len(),
            all == text::views(list@),
            key@ == text::lowercased(x@),
            placed(all, x@) == placed(all.take(i as int), x@) + all.skip(i as int),
            found ==> i > 0 && !text::before(text::lowercased(x@), text::lowercased(all[i - 1])),
        decreases
            i,
            (if found {
                0int
            } else {
                1int
            }),
    {
        let other: String = string_lower(list[i - 1].as_str());
        proof {
            assert(all.take(i as int).drop_last() == all.take(i - 1));
            assert(all.take(i as int).last() == all[i - 1]);
        }
        if string_before(key.as_str(), other.as_str()) {
            proof {
                assert(placed(all.take(i as int), x@) == placed(all.take(i - 1), x@).push(
                    all[i - 1],
                ));
                assert(placed(all.take(i - 1), x@).push(all[i - 1]) + all.skip(i as int) == placed(
                    all.take(i - 1),
                    x@,
                ) + all.skip(i - 1));
            }
            i = i - 1;
        } else {
            found = true;
        }
    }
    let ghost name = x@;
    proof {
        assert(i > 0 ==> all.take(i as int).last() == all[i - 1]);
        assert(placed(all.take(i as int), name) == all.take(i as int).push(name));
    }
    list.insert(i, x);
    proof {
        assert(text::views(list@) == all.take(i as int).push(name) + all.skip(i as int));
    }
}

fn settle(list: &Vec<String>) -> (r: Vec<String>)
    ensures
        text::views(r@) == settled(text::views(list@)),
{
    let ghost all = text::views(list@);
    let mut out: Vec<String> = Vec::new();
    let mut i: usize = 0;
    proof {
        assert(all.take(0) == Seq::<Seq<char>>::empty());
        assert(text::views(out@) == Seq::<Seq<char>>::empty());
    }
    while i < list.len()
        invariant
            i <= list@.len(),
            all == text::views(list@),
            text::views(out@) == settled(all.take(i as int)),
        decreases list@.len() - i,
    {
        proof {
            assert(all.take(i + 1).drop_last() == all.take(i as int));
            assert(all.take(i + 1).last() == list@[i as int]@);
        }
        place(&mut out, list[i].clone());
        i = i + 1;
    }
    proof {
        assert(all.take(list@.len() as int) == all);
    }
    out
}

fn holds(names: &Vec<String>, who: &[char]) -> (r: bool)
    ensures
        r == knows(text::views(names@), who@),
{
    let ghost all = text::views(names@);
    let mut i: usize = 0;
    while i < names.len()
        invariant
            i <= names@.len(),
            all == text::views(names@),
            forall|j: int| 0 <= j < i ==> !text::same_ignoring_case(#[trigger] all[j], who@),
        decreases names@.len() - i,
    {
        let n: Vec<char> = chars_of(names[i].as_str());
        proof {
            assert(all[i as int] == n@);
        }
        if eq_ignore_ascii_case(n.as_slice(), who) {
            return true;
        }
        i = i + 1;
    }
    false
}

/// Adding a name already present is a no-op rather than an error: the caller is
/// usually a person typing, and refusing them a name they already have would be
/// pedantry. Returns whether the list changed.
pub fn add(names: &mut Vec<String>, who: &str) -> (r: bool)
    ensures
        text::views(final(names)@) == added(text::views(old(names)@), who@),
        r == (text::trim(who@).len() > 0 && !knows(text::views(old(names)@), text::trim(who@))),
{
    let c: Vec<char> = chars_of(who);
    let t: Vec<char> = trimmed(c.as_slice());
    if t.len() == 0 || holds(names, t.as_slice()) {
        return false;
    }
    let ghost was = text::views(names@);
    let name: String = string_of(t.as_slice());
    proof {
        assert(text::views(names@.push(name)) == was.push(name@));
    }
    names.push(name);
    let sorted: Vec<String> = settle(names);
    *names = sorted;
    true
}

/// The names that are not `who`, however it is capitalised.
pub open spec fn without(names: Seq<Seq<char>>, who: Seq<char>) -> Seq<Seq<char>>
    decreases names.len(),
{
    if names.len() == 0 {
        names
    } else {
        let rest = without(names.drop_last(), who);
        if text::same_ignoring_case(names.last(), who) {
            rest
        } else {
            rest.push(names.last())
        }
    }
}

/// Removing someone from the roster does not unname them in past recordings. This
/// only stops offering them next time. Returns whether the list changed.
pub fn remove(names: &mut Vec<String>, who: &str) -> (r: bool)
    ensures
        text::views(final(names)@) == without(text::views(old(names)@), text::trim(who@)),
        r == knows(text::views(old(names)@), text::trim(who@)),
{
    let c: Vec<char> = chars_of(who);
    let t: Vec<char> = trimmed(c.as_slice());
    let had: bool = holds(names, t.as_slice());
    let ghost all = text::views(names@);
    let mut out: Vec<String> = Vec::new();
    let mut i: usize = 0;
    proof {
        assert(all.take(0) == Seq::<Seq<char>>::empty());
        assert(text::views(out@) == Seq::<Seq<char>>::empty());
    }
    while i < names.len()
        invariant
            i <= names@.len(),
            all == text::views(names@),
            text::views(out@) == without(all.take(i as int), t@),
        decreases names@.len() - i,
    {
        let n: Vec<char> = chars_of(names[i].as_str());
        proof {
            assert(all.take(i + 1).drop_last() == all.take(i as int));
            assert(all.take(i + 1).last() == n@);
        }
        if !eq_ignore_ascii_case(n.as_slice(), t.as_slice()) {
            let kept: String = names[i].clone();
            proof {
                assert(text::views(out@.push(kept)) == text::views(out@).push(kept@));
            }
            out.push(kept);
        }
        i = i + 1;
    }
    proof {
        assert(all.take(names@.len() as int) == all);
    }
    *names = out;
    had
}

proof fn lemma_placed(list: Seq<Seq<char>>, x: Seq<char>)
    requires
        alphabetical(list),
    ensures
        alphabetical(placed(list, x)),
        placed(list, x).to_multiset() == list.push(x).to_multiset(),
        placed(list, x).len() == list.len() + 1,
        forall|y: Seq<char>| #[trigger]
            placed(list, x).contains(y) ==> list.contains(y) || y == x,
        placed(list, x).contains(x),
    decreases list.len(),
{
    broadcast use vstd::seq_lib::group_to_multiset_ensures;

    let kx = text::lowercased(x);
    if list.len() > 0 && text::before(kx, text::lowercased(list.last())) {
        let rest = list.drop_last();
        let front = placed(rest, x);
        let out = placed(list, x);
        assert(alphabetical(rest)) by {
            assert forall|i: int, j: int| 0 <= i < j < rest.len() implies !text::before(
                text::lowercased(#[trigger] rest[j]),
                text::lowercased(#[trigger] rest[i]),
            ) by {
                assert(!text::before(text::lowercased(list[j]), text::lowercased(list[i])));
            }
        }
        lemma_placed(rest, x);
        assert forall|i: int, j: int| 0 <= i < j < out.len() implies !text::before(
            text::lowercased(#[trigger] out[j]),
            text::lowercased(#[trigger] out[i]),
        ) by {
            if j == out.len() - 1 {
                assert(front.contains(front[i]));
                let kl = text::lowercased(list.last());
                if front[i] == x {
                    text::lemma_before_total(kx, kl);
                } else {
                    let m = choose|m: int| 0 <= m < rest.len() && rest[m] == front[i];
                    assert(!text::before(
                        text::lowercased(list[list.len() - 1]),
                        text::lowercased(list[m]),
                    ));
                }
            } else {
                assert(!text::before(text::lowercased(front[j]), text::lowercased(front[i])));
            }
        }
        assert(list == rest.push(list.last()));
        assert(out.to_multiset() == front.to_multiset().insert(list.last()));
        assert(list.push(x).to_multiset() == list.to_multiset().insert(x));
        assert(rest.push(x).to_multiset() == rest.to_multiset().insert(x));
        assert(list.to_multiset() == rest.to_multiset().insert(list.last()));
        assert(out.to_multiset() =~= list.push(x).to_multiset());
        assert forall|y: Seq<char>| out.contains(y) implies list.contains(y) || y == x by {
            let m = choose|m: int| 0 <= m < out.len() && out[m] == y;
            if m < front.len() {
                assert(front.contains(front[m]));
                if y != x {
                    let q = choose|q: int| 0 <= q < rest.len() && rest[q] == y;
                    assert(list[q] == y);
                }
            } else {
                assert(list[list.len() - 1] == y);
            }
        }
        let m = choose|m: int| 0 <= m < front.len() && front[m] == x;
        assert(out[m] == x);
    } else {
        let out = placed(list, x);
        assert forall|i: int, j: int| 0 <= i < j < out.len() implies !text::before(
            text::lowercased(#[trigger] out[j]),
            text::lowercased(#[trigger] out[i]),
        ) by {
            if j == list.len() {
                let ki = text::lowercased(list[i]);
                let kl = text::lowercased(list.last());
                if i < list.len() - 1 {
                    assert(!text::before(
                        text::lowercased(list[list.len() - 1]),
                        text::lowercased(list[i]),
                    ));
                }
                if text::before(kx, ki) {
                    text::lemma_before_total(kl, ki);
                    text::lemma_before_total(ki, kl);
                    if text::before(ki, kl) {
                        text::lemma_before_trans(kx, ki, kl);
                    }
                }
            } else {
                assert(!text::before(text::lowercased(list[j]), text::lowercased(list[i])));
            }
        }
        assert(out[list.len() as int] == x);
        assert forall|y: Seq<char>| out.contains(y) implies list.contains(y) || y == x by {
            let m = choose|m: int| 0 <= m < out.len() && out[m] == y;
            if m < list.len() {
                assert(list[m] == y);
            }
        }
    }
}

/// A roster that was added to is in alphabetical order and holds exactly the
/// names it held and the new one.
pub proof fn adding_keeps_order(list: Seq<Seq<char>>)
    ensures
        alphabetical(settled(list)),
        settled(list).to_multiset() == list.to_multiset(),
    decreases list.len(),
{
    broadcast use vstd::seq_lib::group_to_multiset_ensures;

    if list.len() > 0 {
        adding_keeps_order(list.drop_last());
        lemma_placed(settled(list.drop_last()), list.last());
        assert(list == list.drop_last().push(list.last()));
        assert(settled(list).to_multiset() =~= list.to_multiset());
    }
}

proof fn lemma_settled_has(list: Seq<Seq<char>>, x: Seq<char>)
    requires
        list.contains(x),
    ensures
        settled(list).contains(x),
{
    broadcast use vstd::seq_lib::group_to_multiset_ensures;

    adding_keeps_order(list);
    assert(list.to_multiset().count(x) > 0);
    assert(settled(list).to_multiset().count(x) > 0);
}

/// Adding somebody twice is adding them once, however the second is spelled.
pub proof fn the_same_person_is_added_once(
    names: Seq<Seq<char>>,
    who: Seq<char>,
    again: Seq<char>,
)
    requires
        text::same_ignoring_case(text::trim(who), text::trim(again)),
    ensures
        added(added(names, who), again) == added(names, who),
{
    let name = text::trim(who);
    let list = added(names, who);
    if name.len() > 0 {
        if knows(names, name) {
            let i = choose|i: int|
                0 <= i < names.len() && text::same_ignoring_case(#[trigger] names[i], name);
            lemma_same_trans(names[i], name, text::trim(again));
            assert(knows(list, text::trim(again)));
        } else {
            let all = names.push(name);
            assert(all[names.len() as int] == name);
            assert(all.contains(name));
            lemma_settled_has(all, name);
            let i = choose|i: int| 0 <= i < list.len() && list[i] == name;
            assert(text::same_ignoring_case(list[i], text::trim(again)));
            assert(knows(list, text::trim(again)));
        }
    }
}

proof fn lemma_same_trans(a: Seq<char>, b: Seq<char>, c: Seq<char>)
    requires
        text::same_ignoring_case(a, b),
        text::same_ignoring_case(b, c),
    ensures
        text::same_ignoring_case(a, c),
{
    assert forall|i: int| 0 <= i < a.len() implies text::ascii_lower(#[trigger] a[i])
        == text::ascii_lower(c[i]) by {
        assert(text::ascii_lower(a[i]) == text::ascii_lower(b[i]));
        assert(text::ascii_lower(b[i]) == text::ascii_lower(c[i]));
    }
}

/// Nobody who was removed is on the roster any more, and removing them again
/// changes nothing.
pub proof fn removing_removes(names: Seq<Seq<char>>, who: Seq<char>)
    ensures
        !knows(without(names, who), who),
        without(without(names, who), who) == without(names, who),
    decreases names.len(),
{
    if names.len() > 0 {
        let front = names.drop_last();
        removing_removes(front, who);
        let rest = without(front, who);
        let out = without(names, who);
        if knows(out, who) {
            let i = choose|i: int|
                0 <= i < out.len() && text::same_ignoring_case(#[trigger] out[i], who);
            if i < rest.len() {
                assert(text::same_ignoring_case(rest[i], who));
            }
        }
        if !text::same_ignoring_case(names.last(), who) {
            assert(out.drop_last() == rest);
        }
    }
}

/// Adding somebody puts their name on the roster without the white space around it,
/// and nothing else changes; a blank name, or one the roster has, adds nothing.
pub proof fn adding_adds_one_name(names: Seq<Seq<char>>, who: Seq<char>)
    ensures
        text::trim(who).len() == 0 || knows(names, text::trim(who)) ==> added(names, who) == names,
        text::trim(who).len() > 0 && !knows(names, text::trim(who)) ==> {
            &&& added(names, who).to_multiset() == names.to_multiset().insert(text::trim(who))
            &&& added(names, who).len() == names.len() + 1
            &&& alphabetical(added(names, who))
        },
{
    broadcast use vstd::seq_lib::group_to_multiset_ensures;

    let name = text::trim(who);
    adding_keeps_order(names.push(name));
    assert(settled(names.push(name)).to_multiset().len() == settled(names.push(name)).len());
    assert(names.push(name).to_multiset().len() == names.push(name).len());
}

/// Removing somebody takes every name that is theirs however it is capitalised; all
/// others stay, in order.
pub proof fn only_their_name_is_taken(names: Seq<Seq<char>>, who: Seq<char>)
    ensures
        without(names, who) == names.filter(
            |n: Seq<char>|
                !(n.len() == who.len() && forall|i: int|
                    0 <= i < n.len() ==> text::ascii_lower(#[trigger] n[i]) == text::ascii_lower(
                        who[i],
                    )),
        ),
    decreases names.len(),
{
    reveal(Seq::filter);
    if names.len() > 0 {
        only_their_name_is_taken(names.drop_last(), who);
    }
}

proof fn lemma_placed_alike(list: Seq<Seq<char>>, x: Seq<char>, t: Seq<char>)
    requires
        alphabetical(list),
    ensures
        placed(list, x).filter(|n: Seq<char>| text::lowercased(n) == t) == (if text::lowercased(x)
            == t {
            list.filter(|n: Seq<char>| text::lowercased(n) == t).push(x)
        } else {
            list.filter(|n: Seq<char>| text::lowercased(n) == t)
        }),
    decreases list.len(),
{
    reveal(Seq::filter);
    let all = placed(list, x);
    if list.len() > 0 && text::before(text::lowercased(x), text::lowercased(list.last())) {
        let front = list.drop_last();
        assert forall|i: int, j: int| 0 <= i < j < front.len() implies !text::before(
            text::lowercased(#[trigger] front[j]),
            text::lowercased(#[trigger] front[i]),
        ) by {
            assert(front[i] == list[i] && front[j] == list[j]);
        }
        lemma_placed_alike(front, x, t);
        assert(all.drop_last() == placed(front, x));
        text::lemma_before_total(text::lowercased(x), text::lowercased(x));
    } else {
        assert(all.drop_last() == list);
    }
}

/// Names that differ only in case stay in the order they were added.
pub proof fn names_alike_stay_in_order(list: Seq<Seq<char>>, t: Seq<char>)
    ensures
        settled(list).filter(|n: Seq<char>| text::lowercased(n) == t) == list.filter(
            |n: Seq<char>| text::lowercased(n) == t,
        ),
    decreases list.len(),
{
    reveal(Seq::filter);
    if list.len() > 0 {
        names_alike_stay_in_order(list.drop_last(), t);
        adding_keeps_order(list.drop_last());
        lemma_placed_alike(settled(list.drop_last()), list.last(), t);
    }
}

} // verus!
