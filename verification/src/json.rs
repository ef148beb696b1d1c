//! JSON text, read and written through `serde_json`.

use crate::text;
use crate::text::{chars_of, join, parse_u64, same_str};
use serde_json::Value;
use vstd::prelude::*;

verus! {

/// A hexadecimal digit in lower case.
pub open spec fn hex_digit(d: nat) -> char {
    if d < 10 {
        text::digit(d)
    } else {
        ((('a' as u32) + d - 10) as u32) as char
    }
}

/// One character inside a JSON string: quotes, backslashes and control
/// characters are escaped, everything else stands as it is.
pub open spec fn escaped(c: char) -> Seq<char> {
    let n = c as u32 as nat;
    if c == '"' {
        seq!['\\', '"']
    } else if c == '\\' {
        seq!['\\', '\\']
    } else if n == 8 {
        seq!['\\', 'b']
    } else if n == 9 {
        seq!['\\', 't']
    } else if n == 10 {
        seq!['\\', 'n']
    } else if n == 12 {
        seq!['\\', 'f']
    } else if n == 13 {
        seq!['\\', 'r']
    } else if n < 32 {
        seq!['\\', 'u', '0', '0', hex_digit(n / 16), hex_digit(n % 16)]
    } else {
        seq![c]
    }
}

pub open spec fn escaped_all(s: Seq<char>) -> Seq<char>
    decreases s.len(),
{
    if s.len() == 0 {
        Seq::empty()
    } else {
        escaped_all(s.drop_last()) + escaped(s.last())
    }
}

/// A string as JSON text.
pub open spec fn quoted(s: Seq<char>) -> Seq<char> {
    seq!['"'] + escaped_all(s) + seq!['"']
}

/// A string as JSON text is on one line, whatever it holds.
pub proof fn quoted_is_one_line(s: Seq<char>)
    ensures
        text::one_line(quoted(s)),
{
    broadcast use text::lemma_one_line_glued;

    lemma_escaped_all_one_line(s);
    assert(text::one_line(seq!['"']));
}

proof fn lemma_escaped_all_one_line(s: Seq<char>)
    ensures
        text::one_line(escaped_all(s)),
    decreases s.len(),
{
    broadcast use text::lemma_one_line_glued;

    if s.len() > 0 {
        lemma_escaped_all_one_line(s.drop_last());
        assert(text::one_line(escaped(s.last())));
    }
}

/// `serde_json::to_string` of a string: it never fails, and gives the string in
/// double quotes with each character written as [`escaped`] says.
#[verifier::external_body]
pub(crate) fn string_to_json(s: &str) -> (r: Result<String, serde_json::Error>)
    ensures
        r is Ok,
        r->Ok_0@ == quoted(s@),
{
    serde_json::to_string(s)
}

/// The error type of `serde_json`, carried but never looked into.
#[verifier::external_type_specification]
#[verifier::external_body]
pub struct ExSerdeJsonError(serde_json::Error);

/// A string in double quotes, escaped as JSON. JSON string escaping is valid
/// YAML double-quoted scalar escaping, so it also survives a session named with
/// a colon or a quote.
pub fn quote(s: &str) -> (r: String)
    ensures
        r@ == quoted(s@),
{
    match string_to_json(s) {
        Ok(t) => t,
        Err(_) => "\"\"".to_owned(),
    }
}

/// One level of a JSON value; what is nested in it stays JSON text.
#[derive(Debug)]
pub enum Layer {
    Null,
    Bool(bool),
    Number(String),
    Text(String),
    Array(Vec<String>),
    Object(Vec<Member>),
}

/// A name in a JSON object, with its value as JSON text.
#[derive(Debug)]
pub struct Member {
    pub name: String,
    pub value: String,
}

/// One level of a JSON value, as plain characters.
pub enum LayerText {
    Null,
    Bool(bool),
    Number(Seq<char>),
    Text(Seq<char>),
    Array(Seq<Seq<char>>),
    Object(Seq<(Seq<char>, Seq<char>)>),
}

pub open spec fn member_texts(v: Seq<Member>) -> Seq<(Seq<char>, Seq<char>)> {
    v.map_values(|m: Member| (m.name@, m.value@))
}

impl View for Layer {
    type V = LayerText;

    open spec fn view(&self) -> LayerText {
        match *self {
            Layer::Null => LayerText::Null,
            Layer::Bool(b) => LayerText::Bool(b),
            Layer::Number(n) => LayerText::Number(n@),
            Layer::Text(s) => LayerText::Text(s@),
            Layer::Array(v) => LayerText::Array(text::views(v@)),
            Layer::Object(m) => LayerText::Object(member_texts(m@)),
        }
    }
}

/// The values of an object are each on one line.
pub open spec fn values_on_one_line(l: LayerText) -> bool {
    match l {
        LayerText::Object(m) => forall|i: int|
            0 <= i < m.len() ==> text::one_line((#[trigger] m[i]).1),
        _ => true,
    }
}

/// What `serde_json` reads in a text, one level deep, or what it says is wrong
/// with it.
pub uninterp spec fn opened(s: Seq<char>) -> Result<LayerText, Seq<char>>;

/// `serde_json::from_str` into a `serde_json::Value`, taken one level apart: the
/// values nested in it, and its numbers, are the text that the value prints as.
/// The outcome, an error's words included, is named [`opened`]. A value prints
/// without a newline: nothing stands between its parts, and the newlines in its
/// strings are escaped.
#[verifier::external_body]
pub(crate) fn open(s: &str) -> (r: Result<Layer, String>)
    ensures
        r is Ok <==> opened(s@) is Ok,
        r is Ok ==> r->Ok_0@ == opened(s@)->Ok_0,
        r is Err ==> r->Err_0@ == opened(s@)->Err_0,
        r is Ok ==> values_on_one_line(r->Ok_0@),
{
    match serde_json::from_str::<Value>(s) {
        Err(e) => Err(e.to_string()),
        Ok(Value::Null) => Ok(Layer::Null),
        Ok(Value::Bool(b)) => Ok(Layer::Bool(b)),
        Ok(Value::Number(n)) => Ok(Layer::Number(n.to_string())),
        Ok(Value::String(t)) => Ok(Layer::Text(t)),
        Ok(Value::Array(a)) => Ok(Layer::Array(a.iter().map(Value::to_string).collect())),
        Ok(Value::Object(m)) => Ok(
            Layer::Object(
                m.into_iter().map(|(name, v)| Member { name, value: v.to_string() }).collect(),
            ),
        ),
    }
}

/// What a name stands for in an object: the text of its value, if it is there.
pub open spec fn member(l: LayerText, name: Seq<char>) -> Option<Seq<char>> {
    match l {
        LayerText::Object(m) => lookup(m, name),
        _ => None,
    }
}

pub open spec fn lookup(m: Seq<(Seq<char>, Seq<char>)>, name: Seq<char>) -> Option<Seq<char>>
    decreases m.len(),
{
    if m.len() == 0 {
        None
    } else if m.last().0 == name {
        Some(m.last().1)
    } else {
        lookup(m.drop_last(), name)
    }
}

pub proof fn lemma_member_one_line(l: LayerText, name: Seq<char>)
    requires
        values_on_one_line(l),
    ensures
        member(l, name) matches Some(v) ==> text::one_line(v),
{
    if let LayerText::Object(m) = l {
        lemma_lookup_one_line(m, name);
    }
}

proof fn lemma_lookup_one_line(m: Seq<(Seq<char>, Seq<char>)>, name: Seq<char>)
    requires
        forall|i: int| 0 <= i < m.len() ==> text::one_line((#[trigger] m[i]).1),
    ensures
        lookup(m, name) matches Some(v) ==> text::one_line(v),
    decreases m.len(),
{
    if m.len() > 0 {
        let front = m.drop_last();
        assert forall|i: int| 0 <= i < front.len() implies text::one_line((#[trigger] front[i]).1) by {
            assert(front[i] == m[i]);
        }
        lemma_lookup_one_line(front, name);
        assert(text::one_line(m[m.len() - 1].1));
    }
}

/// The string a JSON text is, if it is one.
pub open spec fn as_text(s: Seq<char>) -> Option<Seq<char>> {
    match opened(s) {
        Ok(LayerText::Text(t)) => Some(t),
        _ => None,
    }
}

/// The truth value a JSON text is, if it is one.
pub open spec fn as_flag(s: Seq<char>) -> Option<bool> {
    match opened(s) {
        Ok(LayerText::Bool(b)) => Some(b),
        _ => None,
    }
}

/// The whole number a JSON text is, if it is one.
pub open spec fn as_count(s: Seq<char>) -> Option<u64> {
    match opened(s) {
        Ok(LayerText::Number(n)) => text::u64_value(n),
        _ => None,
    }
}

/// A string under a name, if there is one.
pub open spec fn text_at(l: LayerText, name: Seq<char>) -> Option<Seq<char>> {
    match member(l, name) {
        Some(v) => as_text(v),
        None => None,
    }
}

impl Layer {
    /// Whether this is an object.
    pub fn is_object(&self) -> (r: bool)
        ensures
            r == (self@ is Object),
    {
        match self {
            Layer::Object(_) => true,
            _ => false,
        }
    }

    /// The text of the value under a name.
    pub fn get(&self, name: &str) -> (r: Option<String>)
        ensures
            text::opt(r) == member(self@, name@),
    {
        match self {
            Layer::Object(m) => {
                let ghost all = member_texts(m@);
                let mut i: usize = m.len();
                proof {
                    assert(all.take(all.len() as int) == all);
                }
                while i > 0
                    invariant
                        i <= m@.len(),
                        all == member_texts(m@),
                        self@ == LayerText::Object(all),
                        lookup(all, name@) == lookup(all.take(i as int), name@),
                    decreases i,
                {
                    proof {
                        assert(all.take(i as int).drop_last() == all.take(i - 1));
                        assert(all.take(i as int).last() == (m@[i - 1].name@, m@[i - 1].value@));
                    }
                    if same_str(m[i - 1].name.as_str(), name) {
                        return Some(m[i - 1].value.clone());
                    }
                    i = i - 1;
                }
                None
            },
            _ => None,
        }
    }

    /// The string under a name.
    pub fn text(&self, name: &str) -> (r: Option<String>)
        ensures
            text::opt(r) == text_at(self@, name@),
    {
        match self.get(name) {
            Some(v) => read_text(v.as_str()),
            None => None,
        }
    }
}

/// The string a JSON text is.
pub fn read_text(s: &str) -> (r: Option<String>)
    ensures
        text::opt(r) == as_text(s@),
{
    match open(s) {
        Ok(Layer::Text(t)) => Some(t),
        _ => None,
    }
}

/// The truth value a JSON text is.
pub fn read_flag(s: &str) -> (r: Option<bool>)
    ensures
        r == as_flag(s@),
{
    match open(s) {
        Ok(Layer::Bool(b)) => Some(b),
        _ => None,
    }
}

/// The whole number a JSON text is.
pub fn read_count(s: &str) -> (r: Option<u64>)
    ensures
        r == as_count(s@),
{
    match open(s) {
        Ok(Layer::Number(n)) => {
            let c: Vec<char> = chars_of(n.as_str());
            parse_u64(c.as_slice())
        },
        _ => None,
    }
}

/// A string, or nothing, as JSON text.
pub open spec fn nullable(s: Option<Seq<char>>) -> Seq<char> {
    match s {
        Some(t) => quoted(t),
        None => "null"@,
    }
}

pub fn quote_or_null(s: Option<&str>) -> (r: String)
    ensures
        r@ == nullable(
            match s {
                Some(t) => Some(t@),
                None => None,
            },
        ),
{
    match s {
        Some(t) => quote(t),
        None => "null".to_owned(),
    }
}

/// A truth value as JSON text.
pub open spec fn flag(b: bool) -> Seq<char> {
    if b {
        "true"@
    } else {
        "false"@
    }
}

pub fn flag_str(b: bool) -> (r: &'static str)
    ensures
        r@ == flag(b),
{
    if b {
        "true"
    } else {
        "false"
    }
}

/// Values that are JSON text already, as an array.
pub open spec fn array(items: Seq<Seq<char>>) -> Seq<char> {
    "["@ + text::joined(items, ","@) + "]"@
}

pub fn array_of(items: &[String]) -> (r: String)
    ensures
        r@ == array(text::views(items@)),
{
    let mut out: String = "[".to_owned();
    out.append(join(items, ",").as_str());
    out.append("]");
    out
}

/// Strings as a JSON array.
pub open spec fn strings(items: Seq<Seq<char>>) -> Seq<char> {
    array(items.map_values(|s: Seq<char>| quoted(s)))
}

pub fn array_of_strings(items: &[String]) -> (r: String)
    ensures
        r@ == strings(text::views(items@)),
{
    let ghost all = text::views(items@);
    let mut out: Vec<String> = Vec::new();
    let mut i: usize = 0;
    while i < items.len()
        invariant
            i <= items@.len(),
            all == text::views(items@),
            out@.len() == i,
            forall|j: int| 0 <= j < i ==> (#[trigger] out@[j])@ == quoted(all[j]),
        decreases items@.len() - i,
    {
        out.push(quote(items[i].as_str()));
        i = i + 1;
    }
    proof {
        assert(text::views(out@) == all.map_values(|s: Seq<char>| quoted(s)));
    }
    array_of(out.as_slice())
}

proof fn lemma_escaped_front(s: Seq<char>)
    requires
        s.len() > 0,
    ensures
        escaped_all(s) == escaped(s[0]) + escaped_all(s.drop_first()),
    decreases s.len(),
{
    if s.len() == 1 {
        assert(escaped_all(s.drop_last()) == Seq::<char>::empty());
        assert(escaped_all(s.drop_first()) == Seq::<char>::empty());
    } else {
        lemma_escaped_front(s.drop_last());
        assert(s.drop_last().drop_first() == s.drop_first().drop_last());
        assert(escaped(s[0]) + escaped_all(s.drop_first().drop_last()) + escaped(s.last())
            == escaped(s[0]) + (escaped_all(s.drop_first().drop_last()) + escaped(s.last())));
    }
}

proof fn lemma_escape_apart(c: char, d: char, x: Seq<char>, y: Seq<char>)
    requires
        escaped(c) + x == escaped(d) + y,
    ensures
        c == d,
        x == y,
{
    let s = escaped(c) + x;
    let t = escaped(d) + y;
    assert(s[0] == escaped(c)[0] && t[0] == escaped(d)[0]);
    if escaped(c).len() > 1 {
        assert(s[1] == escaped(c)[1]);
    }
    if escaped(d).len() > 1 {
        assert(t[1] == escaped(d)[1]);
    }
    if escaped(c).len() == 6 && escaped(d).len() == 6 {
        assert(s[4] == escaped(c)[4] && t[4] == escaped(d)[4]);
        assert(s[5] == escaped(c)[5] && t[5] == escaped(d)[5]);
    }
    assert(c == d);
    assert(x == s.skip(escaped(c).len() as int));
    assert(y == t.skip(escaped(d).len() as int));
}

proof fn lemma_escaping_loses_nothing(a: Seq<char>, b: Seq<char>)
    requires
        escaped_all(a) == escaped_all(b),
    ensures
        a == b,
    decreases a.len(),
{
    if a.len() > 0 {
        lemma_escaped_front(a);
    }
    if b.len() > 0 {
        lemma_escaped_front(b);
    }
    if a.len() > 0 && b.len() > 0 {
        lemma_escape_apart(a[0], b[0], escaped_all(a.drop_first()), escaped_all(b.drop_first()));
        lemma_escaping_loses_nothing(a.drop_first(), b.drop_first());
        assert(a == seq![a[0]] + a.drop_first());
        assert(b == seq![b[0]] + b.drop_first());
    } else {
        assert(a.len() > 0 ==> escaped_all(a).len() > 0);
        assert(b.len() > 0 ==> escaped_all(b).len() > 0);
        assert(a == b);
    }
}

/// Different strings are different JSON text.
pub proof fn quoting_loses_nothing(a: Seq<char>, b: Seq<char>)
    requires
        quoted(a) == quoted(b),
    ensures
        a == b,
{
    text::lemma_middle(seq!['"'], escaped_all(a), escaped_all(b), seq!['"']);
    lemma_escaping_loses_nothing(a, b);
}

/// Something is told from nothing, and from anything else.
pub proof fn null_is_no_string(a: Option<Seq<char>>, b: Option<Seq<char>>)
    requires
        nullable(a) == nullable(b),
    ensures
        a == b,
{
    reveal_strlit("null");
    if a is Some && b is Some {
        quoting_loses_nothing(a->0, b->0);
    } else if a is Some {
        assert(quoted(a->0)[0] == '"');
        assert("null"@[0] == 'n');
    } else if b is Some {
        assert(quoted(b->0)[0] == '"');
        assert("null"@[0] == 'n');
    }
}

/// A name stands for what was said of it last; what is said of another changes
/// nothing.
pub proof fn the_last_value_counts(
    m: Seq<(Seq<char>, Seq<char>)>,
    name: Seq<char>,
    value: Seq<char>,
    other: Seq<char>,
)
    ensures
        member(LayerText::Object(m.push((name, value))), name) == Some(value),
        other != name ==> member(LayerText::Object(m.push((name, value))), other) == member(
            LayerText::Object(m),
            other,
        ),
        member(LayerText::Object(Seq::<(Seq<char>, Seq<char>)>::empty()), name) is None,
        member(LayerText::Null, name) is None,
{
    assert(m.push((name, value)).drop_last() == m);
}

/// Somewhere in a text `label` stands with `value` right behind it, and the value
/// ends there.
pub open spec fn says(s: Seq<char>, label: Seq<char>, value: Seq<char>) -> bool {
    exists|front: Seq<char>, back: Seq<char>|
        s == #[trigger] (front + label + value + back) && back.len() > 0 && (back[0] == ','
            || back[0] == '}')
}

pub proof fn lemma_says(
    s: Seq<char>,
    front: Seq<char>,
    label: Seq<char>,
    value: Seq<char>,
    back: Seq<char>,
)
    requires
        s == front + label + value + back,
        back.len() > 0,
        back[0] == ',' || back[0] == '}',
    ensures
        says(s, label, value),
{
}

pub proof fn lemma_says_last(
    s: Seq<char>,
    front: Seq<char>,
    label: Seq<char>,
    value: Seq<char>,
    back: Seq<char>,
)
    requires
        s == (front + label + value) + back,
        back.len() > 0,
        back[0] == ',' || back[0] == '}',
    ensures
        says(s, label, value),
        s == front + (label + value + back),
{
    assert(s == front + (label + value + back));
}

/// The items of an array stand in order with a comma between any two.
pub proof fn items_stand_in_order(a: Seq<Seq<char>>, b: Seq<Seq<char>>)
    requires
        a.len() > 0,
        b.len() > 0,
    ensures
        array(Seq::<Seq<char>>::empty()) == seq!['[', ']'],
        array(a + b) == array(a).drop_last() + seq![','] + array(b).drop_first(),
        strings(a + b) == strings(a).drop_last() + seq![','] + strings(b).drop_first(),
        strings(seq![a[0]]) == seq!['['] + quoted(a[0]) + seq![']'],
{
    reveal_strlit("[");
    reveal_strlit("]");
    reveal_strlit(",");
    assert("["@ == seq!['[']);
    assert("]"@ == seq![']']);
    assert(","@ == seq![',']);
    assert(array(Seq::<Seq<char>>::empty()) == seq!['[', ']']);
    let f = |s: Seq<char>| quoted(s);
    lemma_arrays_glued(a, b);
    lemma_arrays_glued(a.map_values(f), b.map_values(f));
    assert((a + b).map_values(f) == a.map_values(f) + b.map_values(f));
    assert(seq![a[0]].map_values(f) == seq![quoted(a[0])]);
}

proof fn lemma_arrays_glued(a: Seq<Seq<char>>, b: Seq<Seq<char>>)
    requires
        a.len() > 0,
        b.len() > 0,
    ensures
        array(a + b) == array(a).drop_last() + seq![','] + array(b).drop_first(),
{
    reveal_strlit("[");
    reveal_strlit("]");
    reveal_strlit(",");
    assert(","@ == seq![',']);
    text::the_separator_stands_between(a, b, a[0], ","@);
    assert(array(a).drop_last() == "["@ + text::joined(a, ","@));
    assert(array(b).drop_first() == text::joined(b, ","@) + "]"@);
    assert("["@ + (text::joined(a, ","@) + ","@ + text::joined(b, ","@)) + "]"@ == "["@
        + text::joined(a, ","@) + ","@ + (text::joined(b, ","@) + "]"@));
}

} // verus!
