//! The JSON codec for the backing file.
//!
//! The store is persisted as a JSON document with two top-level fields,
//! `last_id` and `todos`; `todos` is an object keyed by the stringified id of
//! each item. `render` says, character by character, what `to_json` writes;
//! `parse_store` says which documents `from_json` accepts and what store they
//! denote. A document is accepted when it follows that grammar (whitespace
//! between tokens is allowed), its entry keys are the ids of their items, and
//! the ids are strictly increasing and within `1..=last_id`; the round-trip
//! lemma shows every rendered store is accepted and denotes itself.

use vstd::prelude::*;

use crate::digits::dec_of;
use crate::digits::digit_char;
use crate::digits::digit_val;
use crate::digits::is_digit;
use crate::digits::lemma_dec_of_digits;
use crate::digits::lemma_digit_char_val;
use crate::digits::u8_to_dec;
use crate::store::Todo;
use crate::store::TodoApp;
use crate::store::TodoView;
use crate::strutil::append_chars;
use crate::strutil::chars_to_string;
use crate::strutil::str_chars;

verus! {

/// The text of a todo, with the two JSON metacharacters quote and backslash
/// escaped by a backslash; every other character stands for itself.
pub open spec fn escape(s: Seq<char>) -> Seq<char>
    decreases s.len(),
{
    if s.len() == 0 {
        Seq::empty()
    } else {
        let c = s.first();
        (if c == '"' || c == '\\' {
            seq!['\\', c]
        } else {
            seq![c]
        }) + escape(s.drop_first())
    }
}

/// The JSON notation of a boolean.
pub open spec fn bool_text(b: bool) -> Seq<char> {
    if b {
        "true"@
    } else {
        "false"@
    }
}

/// One entry of the `todos` object: the id as a quoted key, and the item
/// object with its three fields.
pub open spec fn render_item(t: TodoView) -> Seq<char> {
    "\""@ + dec_of(t.id) + "\""@ + ":"@ + "{"@ + "\"id\""@ + ":"@ + dec_of(t.id) + ","@
        + "\"todo\""@ + ":"@ + "\""@ + escape(t.text) + "\""@ + ","@ + "\"is_complete\""@ + ":"@
        + bool_text(t.is_complete) + "}"@
}

/// The entries of the `todos` object, separated by commas.
pub open spec fn render_items(s: Seq<TodoView>) -> Seq<char>
    decreases s.len(),
{
    if s.len() == 0 {
        Seq::empty()
    } else if s.len() == 1 {
        render_item(s.first())
    } else {
        render_item(s.first()) + ","@ + render_items(s.drop_first())
    }
}

/// The whole document: `last_id`, and the `todos` object.
pub open spec fn render(last_id: int, s: Seq<TodoView>) -> Seq<char> {
    "{"@ + "\"last_id\""@ + ":"@ + dec_of(last_id) + ","@ + "\"todos\""@ + ":"@ + "{"@
        + render_items(s) + "}"@ + "}"@
}

/// How `escape` grows when one character is appended.
proof fn lemma_escape_push(s: Seq<char>, c: char)
    ensures
        escape(s.push(c)) == escape(s) + (if c == '"' || c == '\\' {
            seq!['\\', c]
        } else {
            seq![c]
        }),
    decreases s.len(),
{
    let piece = if c == '"' || c == '\\' {
        seq!['\\', c]
    } else {
        seq![c]
    };
    if s.len() == 0 {
        assert(s.push(c).drop_first() =~= s);
        assert(s.push(c).first() == c);
        assert(escape(s) == Seq::<char>::empty());
        assert(escape(s.push(c)) == piece + escape(s));
        assert(piece + escape(s) =~= escape(s) + piece);
    } else {
        assert(s.push(c).drop_first() =~= s.drop_first().push(c));
        assert(s.push(c).first() == s.first());
        lemma_escape_push(s.drop_first(), c);
        let head = if s.first() == '"' || s.first() == '\\' {
            seq!['\\', s.first()]
        } else {
            seq![s.first()]
        };
        assert(head + (escape(s.drop_first()) + piece) =~= (head + escape(s.drop_first()))
            + piece);
    }
}

/// How `render_items` grows when one item is appended: the first entry comes
/// bare, every later one behind a comma.
proof fn lemma_render_items_push(s: Seq<TodoView>, t: TodoView)
    ensures
        render_items(s.push(t)) == if s.len() == 0 {
            render_item(t)
        } else {
            render_items(s) + ","@ + render_item(t)
        },
    decreases s.len(),
{
    if s.len() == 0 {
        assert(s.push(t).first() == t);
    } else if s.len() == 1 {
        assert(s.push(t).first() == s.first());
        assert(s.push(t).drop_first() =~= seq![t]);
        assert(render_items(seq![t]) == render_item(t));
    } else {
        assert(s.push(t).first() == s.first());
        assert(s.push(t).drop_first() =~= s.drop_first().push(t));
        lemma_render_items_push(s.drop_first(), t);
        assert(render_item(s.first()) + ","@ + (render_items(s.drop_first()) + ","@
            + render_item(t)) =~= (render_item(s.first()) + ","@ + render_items(s.drop_first()))
            + ","@ + render_item(t));
    }
}

/// The escaped text of a todo, as characters.
fn escape_chars(text: &str) -> (r: Vec<char>)
    ensures
        r@ == escape(text@),
{
    let cs = str_chars(text);
    let mut r: Vec<char> = Vec::new();
    let n = cs.len();
    proof {
        assert(cs@.take(0) =~= Seq::<char>::empty());
    }
    for i in 0..n
        invariant
            n == cs@.len(),
            cs@ == text@,
            r@ == escape(cs@.take(i as int)),
    {
        proof {
            assert(cs@.take(i + 1) =~= cs@.take(i as int).push(cs@[i as int]));
            lemma_escape_push(cs@.take(i as int), cs@[i as int]);
        }
        let c = cs[i];
        if c == '"' || c == '\\' {
            r.push('\\');
        }
        r.push(c);
        proof {
            assert(r@ =~= escape(cs@.take(i + 1)));
        }
    }
    proof {
        assert(cs@.take(n as int) =~= text@);
    }
    r
}

impl Todo {
    /// One entry of the `todos` object, as characters.
    fn render_entry_chars(&self) -> (r: Vec<char>)
        ensures
            r@ == render_item(self@),
    {
        let mut v: Vec<char> = Vec::new();
        proof {
            assert(v@ + "\""@ =~= "\""@);
        }
        append_chars(&mut v, "\"");
        let mut d = u8_to_dec(self.id);
        v.append(&mut d);
        append_chars(&mut v, "\"");
        append_chars(&mut v, ":");
        append_chars(&mut v, "{");
        append_chars(&mut v, "\"id\"");
        append_chars(&mut v, ":");
        let mut d2 = u8_to_dec(self.id);
        v.append(&mut d2);
        append_chars(&mut v, ",");
        append_chars(&mut v, "\"todo\"");
        append_chars(&mut v, ":");
        append_chars(&mut v, "\"");
        let mut e = escape_chars(self.text.as_str());
        v.append(&mut e);
        append_chars(&mut v, "\"");
        append_chars(&mut v, ",");
        append_chars(&mut v, "\"is_complete\"");
        append_chars(&mut v, ":");
        if self.is_complete {
            append_chars(&mut v, "true");
        } else {
            append_chars(&mut v, "false");
        }
        append_chars(&mut v, "}");
        proof {
            assert(v@ =~= render_item(self@));
        }
        v
    }
}

impl TodoApp {
    /// The JSON document for this store, exactly as `render` states it.
    pub fn to_json(&self) -> (r: String)
        ensures
            r@ == render(self.last_id as int, self.seq()),
    {
        let mut v: Vec<char> = Vec::new();
        proof {
            assert(v@ + "{"@ =~= "{"@);
        }
        append_chars(&mut v, "{");
        append_chars(&mut v, "\"last_id\"");
        append_chars(&mut v, ":");
        let mut d = u8_to_dec(self.last_id);
        v.append(&mut d);
        append_chars(&mut v, ",");
        append_chars(&mut v, "\"todos\"");
        append_chars(&mut v, ":");
        append_chars(&mut v, "{");
        let ghost header = v@;
        let n = self.todos.len();
        proof {
            assert(v@ =~= header + render_items(self.seq().take(0)));
        }
        for i in 0..n
            invariant
                n == self.todos.len(),
                v@ == header + render_items(self.seq().take(i as int)),
        {
            proof {
                assert(self.seq().take(i + 1) =~= self.seq().take(i as int).push(
                    self.seq()[i as int],
                ));
                lemma_render_items_push(self.seq().take(i as int), self.seq()[i as int]);
            }
            if i > 0 {
                append_chars(&mut v, ",");
            }
            let mut e = self.todos[i].render_entry_chars();
            v.append(&mut e);
            proof {
                assert(v@ =~= header + render_items(self.seq().take(i + 1)));
            }
        }
        append_chars(&mut v, "}");
        append_chars(&mut v, "}");
        proof {
            assert(self.seq().take(n as int) =~= self.seq());
            assert(v@ =~= render(self.last_id as int, self.seq()));
        }
        chars_to_string(&v)
    }
}

/// JSON whitespace.
pub open spec fn is_ws(c: char) -> bool {
    c == ' ' || c == '\n' || c == '\t' || c == '\r'
}

/// The input with its leading whitespace dropped.
pub open spec fn skip_ws(s: Seq<char>) -> Seq<char>
    decreases s.len(),
{
    if s.len() > 0 && is_ws(s.first()) {
        skip_ws(s.drop_first())
    } else {
        s
    }
}

/// Consume the single character `c`, after whitespace.
pub open spec fn parse_char(s: Seq<char>, c: char) -> Option<Seq<char>> {
    let s1 = skip_ws(s);
    if s1.len() > 0 && s1.first() == c {
        Option::Some(s1.drop_first())
    } else {
        Option::None
    }
}

/// Consume the exact text `lit`, after whitespace.
pub open spec fn parse_lit(s: Seq<char>, lit: Seq<char>) -> Option<Seq<char>> {
    let s1 = skip_ws(s);
    if s1.len() >= lit.len() && s1.subrange(0, lit.len() as int) == lit {
        Option::Some(s1.skip(lit.len() as int))
    } else {
        Option::None
    }
}

/// Consume further digits onto the value `acc`; the store's numbers must fit
/// in a `u8`, so a value beyond 255 is refused.
pub open spec fn parse_digits(s: Seq<char>, acc: int) -> Option<(int, Seq<char>)>
    decreases s.len(),
{
    if s.len() > 0 && is_digit(s.first()) {
        let acc2 = acc * 10 + digit_val(s.first());
        if acc2 > 255 {
            Option::None
        } else {
            parse_digits(s.drop_first(), acc2)
        }
    } else {
        Option::Some((acc, s))
    }
}

/// Consume a non-negative number of at most 255, after whitespace.
pub open spec fn parse_nat(s: Seq<char>) -> Option<(int, Seq<char>)> {
    let s1 = skip_ws(s);
    if s1.len() > 0 && is_digit(s1.first()) {
        parse_digits(s1, 0)
    } else {
        Option::None
    }
}

/// Consume the remainder of a string body up to its closing quote,
/// accumulating the unescaped characters onto `acc`. A backslash must be
/// followed by a quote or a backslash; any other character stands for itself.
pub open spec fn parse_string_rest(s: Seq<char>, acc: Seq<char>) -> Option<(Seq<char>, Seq<char>)>
    decreases s.len(),
{
    if s.len() == 0 {
        Option::None
    } else if s.first() == '"' {
        Option::Some((acc, s.drop_first()))
    } else if s.first() == '\\' {
        if s.len() >= 2 && (s[1] == '"' || s[1] == '\\') {
            parse_string_rest(s.skip(2), acc.push(s[1]))
        } else {
            Option::None
        }
    } else {
        parse_string_rest(s.drop_first(), acc.push(s.first()))
    }
}

/// Consume a quoted string, after whitespace.
pub open spec fn parse_string(s: Seq<char>) -> Option<(Seq<char>, Seq<char>)> {
    let s1 = skip_ws(s);
    if s1.len() > 0 && s1.first() == '"' {
        parse_string_rest(s1.drop_first(), Seq::empty())
    } else {
        Option::None
    }
}

/// Consume a boolean, after whitespace.
pub open spec fn parse_bool(s: Seq<char>) -> Option<(bool, Seq<char>)> {
    match parse_lit(s, "true"@) {
        Option::Some(s1) => Option::Some((true, s1)),
        Option::None => match parse_lit(s, "false"@) {
            Option::Some(s1) => Option::Some((false, s1)),
            Option::None => Option::None,
        },
    }
}

/// Consume an entry key: a number wrapped in quotes, with no whitespace
/// inside the quotes.
pub open spec fn parse_key(s: Seq<char>) -> Option<(int, Seq<char>)> {
    match parse_char(s, '"') {
        Option::None => Option::None,
        Option::Some(s1) => if s1.len() > 0 && is_digit(s1.first()) {
            match parse_digits(s1, 0) {
                Option::None => Option::None,
                Option::Some((n, s2)) => if s2.len() > 0 && s2.first() == '"' {
                    Option::Some((n, s2.drop_first()))
                } else {
                    Option::None
                },
            }
        } else {
            Option::None
        },
    }
}

/// Consume one entry of the `todos` object: key, colon, and the item object,
/// whose `id` field must repeat the key.
pub open spec fn parse_entry(s: Seq<char>) -> Option<(TodoView, Seq<char>)> {
    match parse_key(s) {
        Option::None => Option::None,
        Option::Some((key, s1)) => match parse_char(s1, ':') {
            Option::None => Option::None,
            Option::Some(s2) => match parse_char(s2, '{') {
                Option::None => Option::None,
                Option::Some(s3) => match parse_lit(s3, "\"id\""@) {
                    Option::None => Option::None,
                    Option::Some(s4) => match parse_char(s4, ':') {
                        Option::None => Option::None,
                        Option::Some(s5) => match parse_nat(s5) {
                            Option::None => Option::None,
                            Option::Some((id, s6)) => if id != key {
                                Option::None
                            } else {
                                parse_entry_fields(key, s6)
                            },
                        },
                    },
                },
            },
        },
    }
}

/// The tail of an entry after its `id` field: the `todo` text and the
/// `is_complete` flag, and the closing brace.
pub open spec fn parse_entry_fields(key: int, s: Seq<char>) -> Option<(TodoView, Seq<char>)> {
    match parse_char(s, ',') {
        Option::None => Option::None,
        Option::Some(s1) => match parse_lit(s1, "\"todo\""@) {
            Option::None => Option::None,
            Option::Some(s2) => match parse_char(s2, ':') {
                Option::None => Option::None,
                Option::Some(s3) => match parse_string(s3) {
                    Option::None => Option::None,
                    Option::Some((text, s4)) => match parse_char(s4, ',') {
                        Option::None => Option::None,
                        Option::Some(s5) => match parse_lit(s5, "\"is_complete\""@) {
                            Option::None => Option::None,
                            Option::Some(s6) => match parse_char(s6, ':') {
                                Option::None => Option::None,
                                Option::Some(s7) => match parse_bool(s7) {
                                    Option::None => Option::None,
                                    Option::Some((b, s8)) => match parse_char(s8, '}') {
                                        Option::None => Option::None,
                                        Option::Some(s9) => Option::Some(
                                            (
                                                TodoView { id: key, text: text, is_complete: b },
                                                s9,
                                            ),
                                        ),
                                    },
                                },
                            },
                        },
                    },
                },
            },
        },
    }
}

/// Consume the entries of a non-empty `todos` object and its closing brace.
/// Ids must strictly increase, stay above `prev`, and stay within `last_id`;
/// that makes the keys unique and the counter an upper bound of every id.
/// The length comparison before the recursive call only justifies
/// termination: an accepted entry always consumes part of the input.
pub open spec fn parse_entries(s: Seq<char>, prev: int, last_id: int) -> Option<
    (Seq<TodoView>, Seq<char>),
>
    decreases s.len(),
{
    match parse_entry(s) {
        Option::None => Option::None,
        Option::Some((t, s1)) => if !(prev < t.id && 1 <= t.id && t.id <= last_id) {
            Option::None
        } else {
            let s2 = skip_ws(s1);
            if s2.len() > s.len() {
                Option::None
            } else if s2.len() > 0 && s2.first() == ',' {
                match parse_entries(s2.drop_first(), t.id, last_id) {
                    Option::None => Option::None,
                    Option::Some((rest, s3)) => Option::Some((seq![t] + rest, s3)),
                }
            } else if s2.len() > 0 && s2.first() == '}' {
                Option::Some((seq![t], s2.drop_first()))
            } else {
                Option::None
            }
        },
    }
}

/// What `parse_entries` guarantees of its result: at least one entry, ids
/// strictly increasing, and every id above `prev` and within `last_id`.
proof fn lemma_parse_entries_wf(s: Seq<char>, prev: int, last_id: int)
    requires
        parse_entries(s, prev, last_id) is Some,
    ensures
        ({
            let items = parse_entries(s, prev, last_id)->Some_0.0;
            &&& items.len() >= 1
            &&& forall|a: int, b: int|
                0 <= a < b < items.len() ==> (#[trigger] items[a]).id < (#[trigger] items[b]).id
            &&& forall|a: int|
                0 <= a < items.len() ==> prev < (#[trigger] items[a]).id <= last_id
        }),
    decreases s.len(),
{
    let (t, s1) = parse_entry(s)->Some_0;
    let s2 = skip_ws(s1);
    if s2.len() > 0 && s2.first() == ',' {
        lemma_parse_entries_wf(s2.drop_first(), t.id, last_id);
        let rest = parse_entries(s2.drop_first(), t.id, last_id)->Some_0.0;
        let items = parse_entries(s, prev, last_id)->Some_0.0;
        assert(items == seq![t] + rest);
        assert(forall|a: int| 0 <= a < rest.len() ==> #[trigger] items[a + 1] == rest[a]);
        assert(items[0] == t);
    }
}

/// Which documents denote a store, and which store: the two top-level
/// fields in order, a well-formed `todos` object, and nothing but whitespace
/// after the closing brace.
pub open spec fn parse_store(s: Seq<char>) -> Option<(int, Seq<TodoView>)> {
    match parse_char(s, '{') {
        Option::None => Option::None,
        Option::Some(s1) => match parse_lit(s1, "\"last_id\""@) {
            Option::None => Option::None,
            Option::Some(s2) => match parse_char(s2, ':') {
                Option::None => Option::None,
                Option::Some(s3) => match parse_nat(s3) {
                    Option::None => Option::None,
                    Option::Some((last_id, s4)) => match parse_char(s4, ',') {
                        Option::None => Option::None,
                        Option::Some(s5) => match parse_lit(s5, "\"todos\""@) {
                            Option::None => Option::None,
                            Option::Some(s6) => match parse_char(s6, ':') {
                                Option::None => Option::None,
                                Option::Some(s7) => match parse_char(s7, '{') {
                                    Option::None => Option::None,
                                    Option::Some(s8) => parse_store_items(last_id, s8),
                                },
                            },
                        },
                    },
                },
            },
        },
    }
}

/// Is `c` a decimal digit?
fn is_digit_exec(c: char) -> (r: bool)
    ensures
        r == is_digit(c),
{
    let u = c as u32;
    48 <= u && u <= 57
}

/// The numeric value of the digit `c`.
fn digit_val_exec(c: char) -> (r: u8)
    requires
        is_digit(c),
    ensures
        r as int == digit_val(c),
{
    (c as u32 - 48) as u8
}

/// Is `c` JSON whitespace?
fn is_ws_exec(c: char) -> (r: bool)
    ensures
        r == is_ws(c),
{
    c == ' ' || c == '\n' || c == '\t' || c == '\r'
}

/// The position after the whitespace that starts at `i`.
fn skip_ws_at(v: &Vec<char>, i: usize) -> (j: usize)
    requires
        i <= v@.len(),
    ensures
        i <= j <= v@.len(),
        v@.skip(j as int) == skip_ws(v@.skip(i as int)),
    decreases v@.len() - i,
{
    if i < v.len() && is_ws_exec(v[i]) {
        proof {
            assert(v@.skip(i as int).first() == v@[i as int]);
            assert(v@.skip(i as int).drop_first() =~= v@.skip(i + 1));
        }
        skip_ws_at(v, i + 1)
    } else {
        proof {
            if i < v@.len() {
                assert(v@.skip(i as int).first() == v@[i as int]);
            } else {
                assert(v@.skip(i as int).len() == 0);
            }
        }
        i
    }
}

/// Consume the single character `c` at `i`, after whitespace.
fn parse_char_at(v: &Vec<char>, i: usize, c: char) -> (r: Option<usize>)
    requires
        i <= v@.len(),
    ensures
        match r {
            Option::Some(j) => i <= j <= v@.len() && parse_char(v@.skip(i as int), c)
                == Option::Some(v@.skip(j as int)),
            Option::None => parse_char(v@.skip(i as int), c) is None,
        },
{
    let j = skip_ws_at(v, i);
    if j < v.len() && v[j] == c {
        proof {
            assert(v@.skip(j as int).first() == v@[j as int]);
            assert(v@.skip(j as int).drop_first() =~= v@.skip(j + 1));
        }
        Option::Some(j + 1)
    } else {
        proof {
            if j < v@.len() {
                assert(v@.skip(j as int).first() == v@[j as int]);
            } else {
                assert(v@.skip(j as int).len() == 0);
            }
        }
        Option::None
    }
}

/// Consume the exact text `lit` at `i`, after whitespace.
fn parse_lit_at(v: &Vec<char>, i: usize, lit: &str) -> (r: Option<usize>)
    requires
        i <= v@.len(),
    ensures
        match r {
            Option::Some(j) => i <= j <= v@.len() && parse_lit(v@.skip(i as int), lit@)
                == Option::Some(v@.skip(j as int)),
            Option::None => parse_lit(v@.skip(i as int), lit@) is None,
        },
{
    let j = skip_ws_at(v, i);
    let m = lit.unicode_len();
    if v.len() - j < m {
        proof {
            assert(v@.skip(j as int).len() < lit@.len());
        }
        return Option::None;
    }
    for k in 0..m
        invariant
            m == lit@.len(),
            i <= j,
            j + m <= v@.len(),
            v@.len() <= usize::MAX,
            v@.skip(j as int) == skip_ws(v@.skip(i as int)),
            forall|q: int| 0 <= q < k ==> v@[j + q] == lit@[q],
    {
        proof {
            assert(j + k < v@.len());
        }
        if v[j + k] != lit.get_char(k) {
            proof {
                assert(v@.skip(j as int).subrange(0, lit@.len() as int)[k as int] == v@[j + k]);
                assert(v@.skip(j as int).subrange(0, lit@.len() as int) != lit@);
            }
            return Option::None;
        }
    }
    proof {
        assert(v@.skip(j as int).subrange(0, lit@.len() as int) =~= lit@);
        assert(v@.skip(j as int).skip(lit@.len() as int) =~= v@.skip(j + m));
    }
    Option::Some(j + m)
}

/// Consume further digits at `i` onto the value `acc`.
fn parse_digits_at(v: &Vec<char>, i: usize, acc: u8) -> (r: Option<(u8, usize)>)
    requires
        i <= v@.len(),
    ensures
        match r {
            Option::Some(p) => i <= p.1 <= v@.len() && parse_digits(v@.skip(i as int), acc as int)
                == Option::Some((p.0 as int, v@.skip(p.1 as int))),
            Option::None => parse_digits(v@.skip(i as int), acc as int) is None,
        },
    decreases v@.len() - i,
{
    if i < v.len() && is_digit_exec(v[i]) {
        proof {
            assert(v@.skip(i as int).first() == v@[i as int]);
            assert(v@.skip(i as int).drop_first() =~= v@.skip(i + 1));
        }
        let d = digit_val_exec(v[i]);
        let acc2: u16 = acc as u16 * 10 + d as u16;
        if acc2 > 255 {
            Option::None
        } else {
            parse_digits_at(v, i + 1, acc2 as u8)
        }
    } else {
        proof {
            if i < v@.len() {
                assert(v@.skip(i as int).first() == v@[i as int]);
            } else {
                assert(v@.skip(i as int).len() == 0);
            }
        }
        Option::Some((acc, i))
    }
}

/// Consume a number at `i`, after whitespace.
fn parse_nat_at(v: &Vec<char>, i: usize) -> (r: Option<(u8, usize)>)
    requires
        i <= v@.len(),
    ensures
        match r {
            Option::Some(p) => i <= p.1 <= v@.len() && parse_nat(v@.skip(i as int))
                == Option::Some((p.0 as int, v@.skip(p.1 as int))),
            Option::None => parse_nat(v@.skip(i as int)) is None,
        },
{
    let j = skip_ws_at(v, i);
    if j < v.len() && is_digit_exec(v[j]) {
        proof {
            assert(v@.skip(j as int).first() == v@[j as int]);
        }
        parse_digits_at(v, j, 0)
    } else {
        proof {
            if j < v@.len() {
                assert(v@.skip(j as int).first() == v@[j as int]);
            } else {
                assert(v@.skip(j as int).len() == 0);
            }
        }
        Option::None
    }
}

/// Consume a string body at `i` up to its closing quote.
fn parse_string_rest_at(v: &Vec<char>, i: usize, acc: Vec<char>) -> (r: Option<(Vec<char>, usize)>)
    requires
        i <= v@.len(),
    ensures
        match r {
            Option::Some(p) => i <= p.1 <= v@.len() && parse_string_rest(v@.skip(i as int), acc@)
                == Option::Some((p.0@, v@.skip(p.1 as int))),
            Option::None => parse_string_rest(v@.skip(i as int), acc@) is None,
        },
    decreases v@.len() - i,
{
    if i >= v.len() {
        proof {
            assert(v@.skip(i as int).len() == 0);
        }
        return Option::None;
    }
    proof {
        assert(v@.skip(i as int).first() == v@[i as int]);
        assert(v@.skip(i as int).drop_first() =~= v@.skip(i + 1));
    }
    let c = v[i];
    if c == '"' {
        Option::Some((acc, i + 1))
    } else if c == '\\' {
        if i + 1 < v.len() && (v[i + 1] == '"' || v[i + 1] == '\\') {
            proof {
                assert(v@.skip(i as int)[1] == v@[i + 1]);
                assert(v@.skip(i as int).skip(2) =~= v@.skip(i + 2));
            }
            let mut acc2 = acc;
            acc2.push(v[i + 1]);
            parse_string_rest_at(v, i + 2, acc2)
        } else {
            proof {
                if i + 1 < v@.len() {
                    assert(v@.skip(i as int)[1] == v@[i + 1]);
                }
            }
            Option::None
        }
    } else {
        let mut acc2 = acc;
        acc2.push(c);
        parse_string_rest_at(v, i + 1, acc2)
    }
}

/// Consume a quoted string at `i`, after whitespace.
fn parse_string_at(v: &Vec<char>, i: usize) -> (r: Option<(Vec<char>, usize)>)
    requires
        i <= v@.len(),
    ensures
        match r {
            Option::Some(p) => i <= p.1 <= v@.len() && parse_string(v@.skip(i as int))
                == Option::Some((p.0@, v@.skip(p.1 as int))),
            Option::None => parse_string(v@.skip(i as int)) is None,
        },
{
    match parse_char_at(v, i, '"') {
        Option::Some(j) => {
            proof {
                assert(skip_ws(v@.skip(i as int)).first() == '"');
                assert(!is_ws('"'));
            }
            let acc: Vec<char> = Vec::new();
            parse_string_rest_at(v, j, acc)
        },
        Option::None => {
            proof {
                let s1 = skip_ws(v@.skip(i as int));
                if s1.len() > 0 && s1.first() == '"' {
                    assert(parse_char(v@.skip(i as int), '"') is Some);
                }
            }
            Option::None
        },
    }
}

/// Consume a boolean at `i`, after whitespace.
fn parse_bool_at(v: &Vec<char>, i: usize) -> (r: Option<(bool, usize)>)
    requires
        i <= v@.len(),
    ensures
        match r {
            Option::Some(p) => i <= p.1 <= v@.len() && parse_bool(v@.skip(i as int))
                == Option::Some((p.0, v@.skip(p.1 as int))),
            Option::None => parse_bool(v@.skip(i as int)) is None,
        },
{
    match parse_lit_at(v, i, "true") {
        Option::Some(j) => Option::Some((true, j)),
        Option::None => match parse_lit_at(v, i, "false") {
            Option::Some(j) => Option::Some((false, j)),
            Option::None => Option::None,
        },
    }
}

/// Consume an entry key at `i`: a number wrapped in quotes.
fn parse_key_at(v: &Vec<char>, i: usize) -> (r: Option<(u8, usize)>)
    requires
        i <= v@.len(),
    ensures
        match r {
            Option::Some(p) => i <= p.1 <= v@.len() && parse_key(v@.skip(i as int))
                == Option::Some((p.0 as int, v@.skip(p.1 as int))),
            Option::None => parse_key(v@.skip(i as int)) is None,
        },
{
    match parse_char_at(v, i, '"') {
        Option::None => Option::None,
        Option::Some(j) => {
            if j < v.len() && is_digit_exec(v[j]) {
                proof {
                    assert(v@.skip(j as int).first() == v@[j as int]);
                }
                match parse_digits_at(v, j, 0) {
                    Option::None => Option::None,
                    Option::Some((n, j2)) => {
                        if j2 < v.len() && v[j2] == '"' {
                            proof {
                                assert(v@.skip(j2 as int).first() == v@[j2 as int]);
                                assert(v@.skip(j2 as int).drop_first() =~= v@.skip(j2 + 1));
                            }
                            Option::Some((n, j2 + 1))
                        } else {
                            proof {
                                if j2 < v@.len() {
                                    assert(v@.skip(j2 as int).first() == v@[j2 as int]);
                                } else {
                                    assert(v@.skip(j2 as int).len() == 0);
                                }
                            }
                            Option::None
                        }
                    },
                }
            } else {
                proof {
                    if j < v@.len() {
                        assert(v@.skip(j as int).first() == v@[j as int]);
                    } else {
                        assert(v@.skip(j as int).len() == 0);
                    }
                }
                Option::None
            }
        },
    }
}

/// Consume one entry of the `todos` object at `i`.
fn parse_entry_at(v: &Vec<char>, i: usize) -> (r: Option<(Todo, usize)>)
    requires
        i <= v@.len(),
    ensures
        match r {
            Option::Some(p) => i <= p.1 <= v@.len() && parse_entry(v@.skip(i as int))
                == Option::Some((p.0@, v@.skip(p.1 as int))),
            Option::None => parse_entry(v@.skip(i as int)) is None,
        },
{
    let key = match parse_key_at(v, i) {
        Option::None => {
            return Option::None;
        },
        Option::Some(p) => p,
    };
    let j1 = match parse_char_at(v, key.1, ':') {
        Option::None => {
            return Option::None;
        },
        Option::Some(j) => j,
    };
    let j2 = match parse_char_at(v, j1, '{') {
        Option::None => {
            return Option::None;
        },
        Option::Some(j) => j,
    };
    let j3 = match parse_lit_at(v, j2, "\"id\"") {
        Option::None => {
            return Option::None;
        },
        Option::Some(j) => j,
    };
    let j4 = match parse_char_at(v, j3, ':') {
        Option::None => {
            return Option::None;
        },
        Option::Some(j) => j,
    };
    let idp = match parse_nat_at(v, j4) {
        Option::None => {
            return Option::None;
        },
        Option::Some(p) => p,
    };
    if idp.0 != key.0 {
        return Option::None;
    }
    let j5 = match parse_char_at(v, idp.1, ',') {
        Option::None => {
            return Option::None;
        },
        Option::Some(j) => j,
    };
    let j6 = match parse_lit_at(v, j5, "\"todo\"") {
        Option::None => {
            return Option::None;
        },
        Option::Some(j) => j,
    };
    let j7 = match parse_char_at(v, j6, ':') {
        Option::None => {
            return Option::None;
        },
        Option::Some(j) => j,
    };
    let textp = match parse_string_at(v, j7) {
        Option::None => {
            return Option::None;
        },
        Option::Some(p) => p,
    };
    let j8 = match parse_char_at(v, textp.1, ',') {
        Option::None => {
            return Option::None;
        },
        Option::Some(j) => j,
    };
    let j9 = match parse_lit_at(v, j8, "\"is_complete\"") {
        Option::None => {
            return Option::None;
        },
        Option::Some(j) => j,
    };
    let j10 = match parse_char_at(v, j9, ':') {
        Option::None => {
            return Option::None;
        },
        Option::Some(j) => j,
    };
    let bp = match parse_bool_at(v, j10) {
        Option::None => {
            return Option::None;
        },
        Option::Some(p) => p,
    };
    let j11 = match parse_char_at(v, bp.1, '}') {
        Option::None => {
            return Option::None;
        },
        Option::Some(j) => j,
    };
    let text = chars_to_string(&textp.0);
    let todo = Todo { id: key.0, text: text, is_complete: bp.0 };
    proof {
        assert(todo@ == TodoView { id: key.0 as int, text: textp.0@, is_complete: bp.0 });
        assert(parse_entry_fields(key.0 as int, v@.skip(idp.1 as int)) == Option::Some(
            (todo@, v@.skip(j11 as int)),
        ));
        assert(parse_entry(v@.skip(i as int)) == Option::Some((todo@, v@.skip(j11 as int))));
    }
    Option::Some((todo, j11))
}

/// Consume the entries of a non-empty `todos` object at `i` and its closing
/// brace.
fn parse_entries_at(v: &Vec<char>, i: usize, prev: u8, last_id: u8) -> (r: Option<
    (Vec<Todo>, usize),
>)
    requires
        i <= v@.len(),
    ensures
        match r {
            Option::Some(p) => p.1 <= v@.len() && parse_entries(
                v@.skip(i as int),
                prev as int,
                last_id as int,
            ) == Option::Some((crate::store::views_of(p.0@), v@.skip(p.1 as int))),
            Option::None => parse_entries(v@.skip(i as int), prev as int, last_id as int) is None,
        },
    decreases v@.len() - i,
{
    let tp = match parse_entry_at(v, i) {
        Option::None => {
            return Option::None;
        },
        Option::Some(p) => p,
    };
    let (t, j1) = tp;
    let ghost tv = t@;
    if !(prev < t.id && 1 <= t.id && t.id <= last_id) {
        return Option::None;
    }
    let j2 = skip_ws_at(v, j1);
    proof {
        assert(v@.skip(j2 as int).len() <= v@.skip(i as int).len());
    }
    if j2 < v.len() {
        proof {
            assert(v@.skip(j2 as int).first() == v@[j2 as int]);
            assert(v@.skip(j2 as int).drop_first() =~= v@.skip(j2 + 1));
        }
        let c = v[j2];
        if c == ',' {
            match parse_entries_at(v, j2 + 1, t.id, last_id) {
                Option::None => Option::None,
                Option::Some((mut rest, j3)) => {
                    let ghost rest0 = rest@;
                    rest.insert(0, t);
                    proof {
                        assert(crate::store::views_of(rest@) =~= seq![tv]
                            + crate::store::views_of(rest0));
                    }
                    Option::Some((rest, j3))
                },
            }
        } else if c == '}' {
            let mut one: Vec<Todo> = Vec::new();
            one.push(t);
            proof {
                assert(crate::store::views_of(one@) =~= seq![tv]);
            }
            Option::Some((one, j2 + 1))
        } else {
            Option::None
        }
    } else {
        proof {
            assert(v@.skip(j2 as int).len() == 0);
        }
        Option::None
    }
}

/// The inside of the `todos` object and the end of the document: either an
/// immediate closing brace, or entries; in both cases the outer closing brace
/// and only whitespace beyond it.
pub open spec fn parse_store_items(last_id: int, s: Seq<char>) -> Option<(int, Seq<TodoView>)> {
    let s1 = skip_ws(s);
    if s1.len() > 0 && s1.first() == '}' {
        match parse_char(s1.drop_first(), '}') {
            Option::None => Option::None,
            Option::Some(s2) => if skip_ws(s2).len() == 0 {
                Option::Some((last_id, Seq::empty()))
            } else {
                Option::None
            },
        }
    } else {
        match parse_entries(s, 0, last_id) {
            Option::None => Option::None,
            Option::Some((items, s2)) => match parse_char(s2, '}') {
                Option::None => Option::None,
                Option::Some(s3) => if skip_ws(s3).len() == 0 {
                    Option::Some((last_id, items))
                } else {
                    Option::None
                },
            },
        }
    }
}

impl TodoApp {
    /// The store a JSON document denotes, or `None` for a document the
    /// grammar refuses; an accepted document always yields a well-formed
    /// store.
    pub fn from_json(text: &str) -> (r: Option<TodoApp>)
        ensures
            match r {
                Option::Some(app) => app.wf() && parse_store(text@) == Option::Some(
                    (app.last_id as int, app.seq()),
                ),
                Option::None => parse_store(text@) is None,
            },
    {
        let v = str_chars(text);
        proof {
            assert(v@.skip(0) =~= text@);
        }
        let j1 = match parse_char_at(&v, 0, '{') {
            Option::None => {
                return Option::None;
            },
            Option::Some(j) => j,
        };
        let j2 = match parse_lit_at(&v, j1, "\"last_id\"") {
            Option::None => {
                return Option::None;
            },
            Option::Some(j) => j,
        };
        let j3 = match parse_char_at(&v, j2, ':') {
            Option::None => {
                return Option::None;
            },
            Option::Some(j) => j,
        };
        let lp = match parse_nat_at(&v, j3) {
            Option::None => {
                return Option::None;
            },
            Option::Some(p) => p,
        };
        let j4 = match parse_char_at(&v, lp.1, ',') {
            Option::None => {
                return Option::None;
            },
            Option::Some(j) => j,
        };
        let j5 = match parse_lit_at(&v, j4, "\"todos\"") {
            Option::None => {
                return Option::None;
            },
            Option::Some(j) => j,
        };
        let j6 = match parse_char_at(&v, j5, ':') {
            Option::None => {
                return Option::None;
            },
            Option::Some(j) => j,
        };
        let j7 = match parse_char_at(&v, j6, '{') {
            Option::None => {
                return Option::None;
            },
            Option::Some(j) => j,
        };
        let j8 = skip_ws_at(&v, j7);
        if j8 < v.len() && v[j8] == '}' {
            proof {
                assert(v@.skip(j8 as int).first() == v@[j8 as int]);
                assert(v@.skip(j8 as int).drop_first() =~= v@.skip(j8 + 1));
            }
            let j9 = match parse_char_at(&v, j8 + 1, '}') {
                Option::None => {
                    return Option::None;
                },
                Option::Some(j) => j,
            };
            let j10 = skip_ws_at(&v, j9);
            if j10 < v.len() {
                proof {
                    assert(v@.skip(j10 as int).len() > 0);
                }
                return Option::None;
            }
            proof {
                assert(v@.skip(j10 as int).len() == 0);
            }
            let app = TodoApp { last_id: lp.0, todos: Vec::new() };
            proof {
                assert(app.seq() =~= Seq::<TodoView>::empty());
            }
            Option::Some(app)
        } else {
            proof {
                if j8 < v@.len() {
                    assert(v@.skip(j8 as int).first() == v@[j8 as int]);
                } else {
                    assert(v@.skip(j8 as int).len() == 0);
                }
            }
            let ep = match parse_entries_at(&v, j7, 0, lp.0) {
                Option::None => {
                    return Option::None;
                },
                Option::Some(p) => p,
            };
            let j9 = match parse_char_at(&v, ep.1, '}') {
                Option::None => {
                    return Option::None;
                },
                Option::Some(j) => j,
            };
            let j10 = skip_ws_at(&v, j9);
            if j10 < v.len() {
                proof {
                    assert(v@.skip(j10 as int).len() > 0);
                }
                return Option::None;
            }
            proof {
                assert(v@.skip(j10 as int).len() == 0);
            }
            let app = TodoApp { last_id: lp.0, todos: ep.0 };
            proof {
                lemma_parse_entries_wf(v@.skip(j7 as int), 0, lp.0 as int);
            }
            Option::Some(app)
        }
    }

    /// The store to start from given the backing file's text: the store the
    /// text denotes when the grammar accepts it, and a fresh store otherwise.
    /// The flag says whether the text was accepted, so a caller can warn
    /// before items from an unreadable file are forgotten.
    pub fn load_text(text: &str) -> (r: (TodoApp, bool))
        ensures
            r.0.wf(),
            match parse_store(text@) {
                Option::Some(doc) => r.1 && r.0.last_id == doc.0 && r.0.seq() == doc.1,
                Option::None => !r.1 && r.0.last_id == 0 && r.0.seq() == Seq::<TodoView>::empty(),
            },
    {
        match TodoApp::from_json(text) {
            Option::Some(app) => (app, true),
            Option::None => (TodoApp::new(), false),
        }
    }
}

/// Leading whitespace is nothing when the input is empty or starts with a
/// non-whitespace character.
proof fn lemma_skip_ws_no_ws(s: Seq<char>)
    requires
        s.len() == 0 || !is_ws(s.first()),
    ensures
        skip_ws(s) == s,
{
}

/// `parse_char` consumes exactly its character off the front.
proof fn lemma_parse_char_prefix(c: char, rest: Seq<char>)
    requires
        !is_ws(c),
    ensures
        parse_char(seq![c] + rest, c) == Option::Some(rest),
{
    let s = seq![c] + rest;
    assert(s.first() == c);
    lemma_skip_ws_no_ws(s);
    assert(s.drop_first() =~= rest);
}

/// `parse_lit` consumes exactly its text off the front.
proof fn lemma_parse_lit_prefix(lit: Seq<char>, rest: Seq<char>)
    requires
        lit.len() > 0,
        !is_ws(lit.first()),
    ensures
        parse_lit(lit + rest, lit) == Option::Some(rest),
{
    let s = lit + rest;
    assert(s.first() == lit.first());
    lemma_skip_ws_no_ws(s);
    assert(s.subrange(0, lit.len() as int) =~= lit);
    assert(s.skip(lit.len() as int) =~= rest);
}

/// `parse_digits` reads a decimal notation back as the number it renders,
/// when what follows does not begin with a digit.
proof fn lemma_parse_digits_dec(n: int, rest: Seq<char>)
    requires
        0 <= n <= 255,
        rest.len() == 0 || !is_digit(rest.first()),
    ensures
        parse_digits(dec_of(n) + rest, 0) == Option::Some((n, rest)),
{
    reveal_with_fuel(parse_digits, 5);
    vstd::arithmetic::div_mod::lemma_fundamental_div_mod(n, 10);
    if n < 10 {
        let s = dec_of(n) + rest;
        assert(s.first() == digit_char(n));
        lemma_digit_char_val(n);
        assert(s.drop_first() =~= rest);
        if rest.len() > 0 {
            assert(!is_digit(rest.first()));
        }
    } else if n < 100 {
        reveal_with_fuel(dec_of, 3);
        let d1 = digit_char(n / 10);
        let d2 = digit_char(n % 10);
        lemma_digit_char_val(n / 10);
        lemma_digit_char_val(n % 10);
        assert(dec_of(n) =~= seq![d1, d2]);
        let s = dec_of(n) + rest;
        assert(s.first() == d1);
        assert(s.drop_first() =~= seq![d2] + rest);
        assert((seq![d2] + rest).first() == d2);
        assert((seq![d2] + rest).drop_first() =~= rest);
        assert(0 * 10 + digit_val(d1) == n / 10);
        assert((n / 10) * 10 + digit_val(d2) == n);
    } else {
        reveal_with_fuel(dec_of, 4);
        vstd::arithmetic::div_mod::lemma_fundamental_div_mod(n / 10, 10);
        let d1 = digit_char(n / 10 / 10);
        let d2 = digit_char((n / 10) % 10);
        let d3 = digit_char(n % 10);
        lemma_digit_char_val(n / 10 / 10);
        lemma_digit_char_val((n / 10) % 10);
        lemma_digit_char_val(n % 10);
        assert(dec_of(n) =~= seq![d1, d2, d3]);
        let s = dec_of(n) + rest;
        assert(s.first() == d1);
        assert(s.drop_first() =~= seq![d2, d3] + rest);
        assert((seq![d2, d3] + rest).first() == d2);
        assert((seq![d2, d3] + rest).drop_first() =~= seq![d3] + rest);
        assert((seq![d3] + rest).first() == d3);
        assert((seq![d3] + rest).drop_first() =~= rest);
        assert(0 * 10 + digit_val(d1) == n / 10 / 10);
        assert((n / 10 / 10) * 10 + digit_val(d2) == n / 10);
        assert((n / 10) * 10 + digit_val(d3) == n);
        assert(n / 10 <= 255);
    }
}

/// `parse_nat` reads a decimal notation back as the number it renders.
proof fn lemma_parse_nat_dec(n: int, rest: Seq<char>)
    requires
        0 <= n <= 255,
        rest.len() == 0 || !is_digit(rest.first()),
    ensures
        parse_nat(dec_of(n) + rest) == Option::Some((n, rest)),
{
    let s = dec_of(n) + rest;
    lemma_dec_of_digits(n);
    assert(s.first() == dec_of(n).first());
    assert(is_digit(s.first()));
    lemma_skip_ws_no_ws(s);
    lemma_parse_digits_dec(n, rest);
}

/// A string body escaped by `escape` reads back as the original text.
proof fn lemma_parse_string_escape(text: Seq<char>, acc: Seq<char>, rest: Seq<char>)
    ensures
        parse_string_rest(escape(text) + seq!['"'] + rest, acc) == Option::Some(
            (acc + text, rest),
        ),
    decreases text.len(),
{
    let s = escape(text) + seq!['"'] + rest;
    if text.len() == 0 {
        assert(escape(text) == Seq::<char>::empty());
        assert(s =~= seq!['"'] + rest);
        assert(s.first() == '"');
        assert(s.drop_first() =~= rest);
        assert(acc + text =~= acc);
    } else {
        let c = text.first();
        let tail = text.drop_first();
        lemma_parse_string_escape(tail, acc.push(c), rest);
        if c == '"' || c == '\\' {
            assert(s =~= seq!['\\', c] + (escape(tail) + seq!['"'] + rest));
            assert(s.first() == '\\');
            assert(s[1] == c);
            assert(s.len() >= 2);
            assert(s.skip(2) =~= escape(tail) + seq!['"'] + rest);
            assert(acc.push(c) + tail =~= acc + text);
        } else {
            assert(s =~= seq![c] + (escape(tail) + seq!['"'] + rest));
            assert(s.first() == c);
            assert(s.drop_first() =~= escape(tail) + seq!['"'] + rest);
            assert(acc.push(c) + tail =~= acc + text);
        }
    }
}

/// A rendered boolean reads back as itself.
proof fn lemma_parse_bool_text(b: bool, rest: Seq<char>)
    ensures
        parse_bool(bool_text(b) + rest) == Option::Some((b, rest)),
{
    reveal_strlit("true");
    reveal_strlit("false");
    if b {
        lemma_parse_lit_prefix("true"@, rest);
    } else {
        let s = "false"@ + rest;
        lemma_skip_ws_no_ws(s);
        assert(s.subrange(0, 4)[0] == 'f');
        assert(s.subrange(0, 4) != "true"@);
        assert(parse_lit(s, "true"@) is None);
        lemma_parse_lit_prefix("false"@, rest);
    }
}

/// A rendered entry key reads back as its id.
proof fn lemma_parse_key_dec(id: int, rest: Seq<char>)
    requires
        0 <= id <= 255,
    ensures
        parse_key(seq!['"'] + dec_of(id) + seq!['"'] + rest) == Option::Some((id, rest)),
{
    let s = seq!['"'] + dec_of(id) + seq!['"'] + rest;
    let s1 = dec_of(id) + (seq!['"'] + rest);
    assert(s =~= seq!['"'] + s1);
    lemma_parse_char_prefix('"', s1);
    lemma_dec_of_digits(id);
    assert(s1.first() == dec_of(id).first());
    assert(is_digit(s1.first()));
    assert((seq!['"'] + rest).first() == '"');
    assert(!is_digit('"'));
    lemma_parse_digits_dec(id, seq!['"'] + rest);
    assert((seq!['"'] + rest).drop_first() =~= rest);
}

/// A rendered entry reads back as its item.
#[verifier::rlimit(100)]
proof fn lemma_parse_entry_render(t: TodoView, rest: Seq<char>)
    requires
        0 <= t.id <= 255,
    ensures
        parse_entry(render_item(t) + rest) == Option::Some((t, rest)),
{
    reveal_strlit("\"");
    reveal_strlit(":");
    reveal_strlit("{");
    reveal_strlit("}");
    reveal_strlit(",");
    reveal_strlit("\"id\"");
    reveal_strlit("\"todo\"");
    reveal_strlit("\"is_complete\"");
    let a9 = seq!['}'] + rest;
    let a8 = bool_text(t.is_complete) + a9;
    let a7 = seq![':'] + a8;
    let a6 = "\"is_complete\""@ + a7;
    let a5 = seq![','] + a6;
    let a4 = seq!['"'] + (escape(t.text) + seq!['"'] + a5);
    let a3 = seq![':'] + a4;
    let a2x = "\"todo\""@ + a3;
    let a2 = seq![','] + a2x;
    let a1 = dec_of(t.id) + a2;
    let a0x = seq![':'] + a1;
    let a0y = "\"id\""@ + a0x;
    let a0z = seq!['{'] + a0y;
    let a0w = seq![':'] + a0z;
    let s0 = seq!['"'] + dec_of(t.id) + seq!['"'] + a0w;
    assert(render_item(t) + rest =~= s0);
    lemma_parse_key_dec(t.id, a0w);
    lemma_parse_char_prefix(':', a0z);
    lemma_parse_char_prefix('{', a0y);
    lemma_parse_lit_prefix("\"id\""@, a0x);
    lemma_parse_char_prefix(':', a1);
    assert(a2.first() == ',');
    assert(!is_digit(','));
    lemma_parse_nat_dec(t.id, a2);
    lemma_parse_char_prefix(',', a2x);
    lemma_parse_lit_prefix("\"todo\""@, a3);
    lemma_parse_char_prefix(':', a4);
    assert(a4.first() == '"');
    lemma_skip_ws_no_ws(a4);
    assert(a4.drop_first() =~= escape(t.text) + seq!['"'] + a5);
    lemma_parse_string_escape(t.text, Seq::<char>::empty(), a5);
    assert(Seq::<char>::empty() + t.text =~= t.text);
    lemma_parse_char_prefix(',', a6);
    lemma_parse_lit_prefix("\"is_complete\""@, a7);
    lemma_parse_char_prefix(':', a8);
    lemma_parse_bool_text(t.is_complete, a9);
    lemma_parse_char_prefix('}', rest);
    assert(TodoView { id: t.id, text: t.text, is_complete: t.is_complete } == t);
}

/// Rendered entries read back as the item sequence, consuming the closing
/// brace of the `todos` object, for a sorted sequence whose ids fit the
/// bounds the parser checks.
proof fn lemma_parse_entries_render(items: Seq<TodoView>, prev: int, last_id: int, rest: Seq<char>)
    requires
        items.len() >= 1,
        0 <= last_id <= 255,
        forall|a: int, b: int|
            0 <= a < b < items.len() ==> (#[trigger] items[a]).id < (#[trigger] items[b]).id,
        forall|a: int| 0 <= a < items.len() ==> prev < (#[trigger] items[a]).id <= last_id,
        0 <= prev,
    ensures
        parse_entries(render_items(items) + seq!['}'] + rest, prev, last_id) == Option::Some(
            (items, rest),
        ),
    decreases items.len(),
{
    let t = items.first();
    assert(items[0] == t);
    assert(prev < t.id <= last_id);
    if items.len() == 1 {
        let s = render_items(items) + seq!['}'] + rest;
        assert(s =~= render_item(t) + (seq!['}'] + rest));
        lemma_parse_entry_render(t, seq!['}'] + rest);
        let s1 = seq!['}'] + rest;
        assert(s1.first() == '}');
        assert(!is_ws('}'));
        lemma_skip_ws_no_ws(s1);
        assert(s1.len() <= s.len());
        assert(s1.drop_first() =~= rest);
        assert(seq![t] =~= items);
    } else {
        let tail = items.drop_first();
        let s = render_items(items) + seq!['}'] + rest;
        let tail_input = render_items(tail) + seq!['}'] + rest;
        assert(render_items(items) == render_item(t) + ","@ + render_items(tail));
        reveal_strlit(",");
        let s1 = seq![','] + tail_input;
        assert(s =~= render_item(t) + s1);
        lemma_parse_entry_render(t, s1);
        assert(s1.first() == ',');
        assert(!is_ws(','));
        lemma_skip_ws_no_ws(s1);
        assert(s1.len() <= s.len());
        assert(s1.drop_first() =~= tail_input);
        assert(forall|a: int, b: int|
            0 <= a < b < tail.len() ==> (#[trigger] tail[a]).id < (#[trigger] tail[b]).id);
        assert forall|a: int| 0 <= a < tail.len() implies t.id < (#[trigger] tail[a]).id
            <= last_id by {
            assert(tail[a] == items[a + 1]);
            assert(items[0].id < items[a + 1].id);
        }
        lemma_parse_entries_render(tail, t.id, last_id, rest);
        assert(seq![t] + tail =~= items);
    }
}

/// The round trip: the document `render` produces for any well-formed store
/// is accepted by `parse_store` and denotes exactly that store, ids, texts,
/// completion flags and `last_id` alike.
pub proof fn lemma_render_parse_round_trip(last_id: int, items: Seq<TodoView>)
    requires
        0 <= last_id <= 255,
        forall|a: int, b: int|
            0 <= a < b < items.len() ==> (#[trigger] items[a]).id < (#[trigger] items[b]).id,
        forall|a: int| 0 <= a < items.len() ==> 1 <= (#[trigger] items[a]).id <= last_id,
    ensures
        parse_store(render(last_id, items)) == Option::Some((last_id, items)),
{
    reveal_strlit("\"");
    reveal_strlit(":");
    reveal_strlit("{");
    reveal_strlit("}");
    reveal_strlit(",");
    reveal_strlit("\"last_id\"");
    reveal_strlit("\"todos\"");
    let b2 = seq!['}'] + Seq::<char>::empty();
    let b1 = render_items(items) + seq!['}'] + b2;
    let a6 = seq!['{'] + b1;
    let a5 = seq![':'] + a6;
    let a4 = "\"todos\""@ + a5;
    let a3 = seq![','] + a4;
    let a2 = dec_of(last_id) + a3;
    let a1 = seq![':'] + a2;
    let a0 = "\"last_id\""@ + a1;
    let s0 = seq!['{'] + a0;
    assert(render(last_id, items) =~= s0);
    lemma_parse_char_prefix('{', a0);
    lemma_parse_lit_prefix("\"last_id\""@, a1);
    lemma_parse_char_prefix(':', a2);
    assert(a3.first() == ',');
    assert(!is_digit(','));
    lemma_parse_nat_dec(last_id, a3);
    lemma_parse_char_prefix(',', a4);
    lemma_parse_lit_prefix("\"todos\""@, a5);
    lemma_parse_char_prefix(':', a6);
    lemma_parse_char_prefix('{', b1);
    if items.len() == 0 {
        assert(render_items(items) == Seq::<char>::empty());
        assert(b1 =~= seq!['}'] + b2);
        assert(b1.first() == '}');
        lemma_skip_ws_no_ws(b1);
        assert(b1.drop_first() =~= b2);
        assert(b2 =~= seq!['}'] + Seq::<char>::empty());
        lemma_parse_char_prefix('}', Seq::<char>::empty());
        assert(skip_ws(Seq::<char>::empty()).len() == 0);
    } else {
        lemma_dec_of_digits(items[0].id);
        assert(render_items(items).first() == '"') by {
            if items.len() == 1 {
                assert(render_items(items) == render_item(items.first()));
            }
            assert(render_item(items.first()).first() == '"');
        }
        assert(b1.first() == '"');
        lemma_skip_ws_no_ws(b1);
        assert(skip_ws(b1) == b1 && b1.first() != '}');
        lemma_parse_entries_render(items, 0, last_id, b2);
        assert(b2 =~= seq!['}'] + Seq::<char>::empty());
        lemma_parse_char_prefix('}', Seq::<char>::empty());
        assert(skip_ws(Seq::<char>::empty()).len() == 0);
    }
}

/// The round trip for a well-formed store value: what `to_json` writes,
/// `from_json` reads back as an equal store.
pub proof fn lemma_store_round_trip(app: &TodoApp)
    requires
        app.wf(),
    ensures
        parse_store(render(app.last_id as int, app.seq())) == Option::Some(
            (app.last_id as int, app.seq()),
        ),
{
    lemma_render_parse_round_trip(app.last_id as int, app.seq());
}

} // verus!
