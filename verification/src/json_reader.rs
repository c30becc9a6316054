//! What a JSON text says, for objects whose values are strings, natural numbers and lists of
//! strings, written without white space.

use crate::hexadecimal;
use crate::json;
use crate::text;
use vstd::prelude::*;

verus! {

/// A JSON value.
#[verifier::ext_equal]
pub enum JsonValue {
    Text(Seq<char>),
    Number(nat),
    List(Seq<Seq<char>>),
}

/// A member of a JSON object: its name and its value.
pub type Member = (Seq<char>, JsonValue);

/// The value of a hexadecimal digit.
pub open spec fn digit_value(c: char) -> Option<int> {
    if '0' <= c <= '9' {
        Some(c as int - '0' as int)
    } else if 'a' <= c <= 'f' {
        Some(c as int - 'a' as int + 10)
    } else if 'A' <= c <= 'F' {
        Some(c as int - 'A' as int + 10)
    } else {
        None
    }
}

/// The character that four hexadecimal digits stand for.
pub open spec fn code_point(s: Seq<char>) -> Option<char> {
    match (digit_value(s[0]), digit_value(s[1]), digit_value(s[2]), digit_value(s[3])) {
        (Some(a), Some(b), Some(c), Some(d)) => Some(
            (4096 * a + 256 * b + 16 * c + d) as char,
        ),
        _ => None,
    }
}

/// The character that a backslash and this one stand for.
pub open spec fn unescaped(c: char) -> Option<char> {
    if c == '"' || c == '\\' || c == '/' {
        Some(c)
    } else if c == 'b' {
        Some('\u{8}')
    } else if c == 'f' {
        Some('\u{c}')
    } else if c == 'n' {
        Some('\u{a}')
    } else if c == 'r' {
        Some('\u{d}')
    } else if c == 't' {
        Some('\u{9}')
    } else {
        None
    }
}

/// A text with a character before it.
pub open spec fn preceded(c: char, read: Option<(Seq<char>, Seq<char>)>) -> Option<
    (Seq<char>, Seq<char>),
> {
    match read {
        Some((t, rest)) => Some((seq![c] + t, rest)),
        None => None,
    }
}

/// The text up to the closing quote, and what follows the quote.
pub open spec fn read_chars(s: Seq<char>) -> Option<(Seq<char>, Seq<char>)>
    decreases s.len(),
{
    if s.len() == 0 {
        None
    } else if s[0] == '"' {
        Some((Seq::empty(), s.skip(1)))
    } else if s[0] == '\\' {
        if s.len() < 2 {
            None
        } else if s[1] == 'u' {
            if s.len() < 6 {
                None
            } else {
                match code_point(s.subrange(2, 6)) {
                    Some(c) => preceded(c, read_chars(s.skip(6))),
                    None => None,
                }
            }
        } else {
            match unescaped(s[1]) {
                Some(c) => preceded(c, read_chars(s.skip(2))),
                None => None,
            }
        }
    } else if s[0] as int <= 0x1f {
        None
    } else {
        preceded(s[0], read_chars(s.skip(1)))
    }
}

/// The string that a text begins with, and what follows it.
pub open spec fn read_text(s: Seq<char>) -> Option<(Seq<char>, Seq<char>)> {
    if s.len() > 0 && s[0] == '"' {
        read_chars(s.skip(1))
    } else {
        None
    }
}

/// The strings up to the closing bracket, with commas between them, and what follows it.
pub open spec fn read_items(s: Seq<char>) -> Option<(Seq<Seq<char>>, Seq<char>)>
    decreases s.len(),
{
    match read_text(s) {
        Some((t, rest)) => if rest.len() == 0 || rest.len() >= s.len() {
            None
        } else if rest[0] == ']' {
            Some((seq![t], rest.skip(1)))
        } else if rest[0] == ',' {
            match read_items(rest.skip(1)) {
                Some((more, end)) => Some((seq![t] + more, end)),
                None => None,
            }
        } else {
            None
        },
        None => None,
    }
}

/// The list of strings that a text begins with, and what follows it.
pub open spec fn read_list(s: Seq<char>) -> Option<(Seq<Seq<char>>, Seq<char>)> {
    if s.len() < 2 || s[0] != '[' {
        None
    } else if s[1] == ']' {
        Some((Seq::empty(), s.skip(2)))
    } else {
        read_items(s.skip(1))
    }
}

/// How many decimal digits a text begins with.
pub open spec fn leading_digits(s: Seq<char>) -> nat
    decreases s.len(),
{
    if s.len() > 0 && '0' <= s[0] <= '9' {
        1 + leading_digits(s.skip(1))
    } else {
        0
    }
}

/// The value that a text begins with, and what follows it.
pub open spec fn read_value(s: Seq<char>) -> Option<(JsonValue, Seq<char>)> {
    let digits = leading_digits(s) as int;
    if digits > 0 {
        Some((JsonValue::Number(text::digits_value(s.take(digits))), s.skip(digits)))
    } else if s.len() > 0 && s[0] == '[' {
        match read_list(s) {
            Some((list, rest)) => Some((JsonValue::List(list), rest)),
            None => None,
        }
    } else {
        match read_text(s) {
            Some((t, rest)) => Some((JsonValue::Text(t), rest)),
            None => None,
        }
    }
}

/// The members up to the closing brace, which ends the text.
pub open spec fn read_members(s: Seq<char>) -> Option<Seq<Member>>
    decreases s.len(),
{
    match read_text(s) {
        Some((name, rest)) => if rest.len() == 0 || rest[0] != ':' {
            None
        } else {
            match read_value(rest.skip(1)) {
                Some((value, end)) => if end.len() == 0 || end.len() >= s.len() {
                    None
                } else if end == seq!['}'] {
                    Some(seq![(name, value)])
                } else if end[0] == ',' {
                    match read_members(end.skip(1)) {
                        Some(more) => Some(seq![(name, value)] + more),
                        None => None,
                    }
                } else {
                    None
                },
                None => None,
            }
        },
        None => None,
    }
}

/// The members of the object that a text is, in their order.
pub open spec fn read_object(s: Seq<char>) -> Option<Seq<Member>> {
    if s.len() > 0 && s[0] == '{' {
        read_members(s.skip(1))
    } else {
        None
    }
}

/// A string is read back from what it is written as.
pub proof fn law_text_is_read_back(x: Seq<char>, rest: Seq<char>)
    ensures
        read_text(json::json_text(x) + rest) == Some((x, rest)),
        read_value(json::json_text(x) + rest) == Some((JsonValue::Text(x), rest)),
        (json::json_text(x) + rest).len() >= rest.len() + 2,
{
    let s = json::json_text(x) + rest;
    lemma_chars_read_back(x, rest);
    assert(s.skip(1) =~= json::json_escaped(x) + (seq!['"'] + rest));
    assert(s[0] == '"');
    assert(leading_digits(s) == 0);
}

proof fn lemma_chars_read_back(x: Seq<char>, rest: Seq<char>)
    ensures
        read_chars(json::json_escaped(x) + (seq!['"'] + rest)) == Some((x, rest)),
    decreases x.len(),
{
    let tail = seq!['"'] + rest;
    let s = json::json_escaped(x) + tail;
    if x.len() == 0 {
        assert(s =~= tail);
        assert(s[0] == '"');
        assert(s.skip(1) =~= rest);
        assert(x =~= Seq::empty());
    } else {
        let c = x[0];
        let e = json::json_escape(c);
        let y = x.drop_first();
        let after = json::json_escaped(y) + tail;
        lemma_chars_read_back(y, rest);
        assert(s =~= e + after);
        assert(seq![c] + y =~= x);
        assert(s[0] == e[0]);
        if e.len() == 1 {
            assert(s.skip(1) =~= after);
        } else if e.len() == 2 {
            assert(s[1] == e[1]);
            assert(s.skip(2) =~= after);
        } else {
            assert(s[1] == e[1]);
            assert(s.skip(6) =~= after);
            let code = s.subrange(2, 6);
            assert(code[0] == e[2] && code[1] == e[3] && code[2] == e[4] && code[3] == e[5]);
            lemma_code_point(c);
            assert(code =~= e.subrange(2, 6));
            assert(code_point(code) == Some(c));
        }
    }
}

/// The digits of an escape tell the character.
proof fn lemma_code_point(c: char)
    requires
        json::json_escape(c).len() == 6,
    ensures
        code_point(json::json_escape(c).subrange(2, 6)) == Some(c),
{
    let e = json::json_escape(c);
    let code = e.subrange(2, 6);
    let hi = c as int / 16;
    let lo = c as int % 16;
    assert(c as int <= 0x1f);
    assert(0 <= hi <= 1 && 0 <= lo < 16 && 16 * hi + lo == c as int);
    assert(code[0] == '0' && code[1] == '0');
    assert(code[2] == hexadecimal::hex_digit(hi) && code[3] == hexadecimal::hex_digit(lo));
    assert(digit_value(code[2]) == Some(hi));
    assert(digit_value(code[3]) == Some(lo));
}

/// A list of strings is read back from what it is written as.
pub proof fn law_list_is_read_back(items: Seq<Seq<char>>, rest: Seq<char>)
    ensures
        read_list(json::json_list(items) + rest) == Some((items, rest)),
        read_value(json::json_list(items) + rest) == Some((JsonValue::List(items), rest)),
        (json::json_list(items) + rest).len() >= rest.len() + 2,
{
    let s = json::json_list(items) + rest;
    reveal_strlit("[]");
    reveal_strlit("[");
    if items.len() == 0 {
        assert(s.skip(2) =~= rest);
        assert(items =~= Seq::empty());
        assert(s[0] == '[' && s[1] == ']');
    } else {
        let more = items.drop_first();
        let inside = json::json_text(items[0]) + (json::json_rest(more) + rest);
        assert(s =~= seq!['['] + inside);
        assert(s.skip(1) =~= inside);
        assert(inside[0] == '"');
        assert(s[0] == '[' && s[1] == '"');
        lemma_items_read_back(items[0], more, rest);
        assert(seq![items[0]] + more =~= items);
    }
    assert(leading_digits(s) == 0);
}

proof fn lemma_items_read_back(first: Seq<char>, more: Seq<Seq<char>>, rest: Seq<char>)
    ensures
        read_items(json::json_text(first) + (json::json_rest(more) + rest)) == Some(
            (seq![first] + more, rest),
        ),
        (json::json_rest(more) + rest).len() > rest.len(),
    decreases more.len(),
{
    let after = json::json_rest(more) + rest;
    law_text_is_read_back(first, after);
    reveal_strlit("]");
    reveal_strlit(",");
    if more.len() == 0 {
        assert(after[0] == ']');
        assert(after.skip(1) =~= rest);
        assert(seq![first] + more =~= seq![first]);
    } else {
        let next = json::json_text(more[0]) + (json::json_rest(more.drop_first()) + rest);
        lemma_items_read_back(more[0], more.drop_first(), rest);
        law_text_is_read_back(more[0], json::json_rest(more.drop_first()) + rest);
        assert(after =~= seq![','] + next);
        assert(after.skip(1) =~= next);
        assert(after[0] == ',');
        assert(seq![more[0]] + more.drop_first() =~= more);
    }
}

/// A number is read back from its decimal notation, where no digit follows.
pub proof fn law_number_is_read_back(n: nat, rest: Seq<char>)
    requires
        rest.len() > 0 && !('0' <= rest[0] <= '9'),
    ensures
        read_value(text::decimal_text(n) + rest) == Some((JsonValue::Number(n), rest)),
        (text::decimal_text(n) + rest).len() > rest.len(),
{
    let d = text::decimal_text(n);
    text::lemma_decimal_value(n);
    lemma_leading_digits(d, rest);
    assert((d + rest).take(d.len() as int) =~= d);
    assert((d + rest).skip(d.len() as int) =~= rest);
}

proof fn lemma_leading_digits(d: Seq<char>, rest: Seq<char>)
    requires
        text::all_digits(d),
        rest.len() > 0 && !('0' <= rest[0] <= '9'),
    ensures
        leading_digits(d + rest) == d.len(),
    decreases d.len(),
{
    let s = d + rest;
    if d.len() == 0 {
        assert(s =~= rest);
    } else {
        let e = d.skip(1);
        assert forall|i: int| 0 <= i < e.len() implies '0' <= #[trigger] e[i] <= '9' by {
            assert(e[i] == d[i + 1]);
        }
        lemma_leading_digits(e, rest);
        assert(s.skip(1) =~= e + rest);
        assert(s[0] == d[0]);
    }
}

/// Whether a text is written as it is, without escapes.
pub open spec fn is_plain(s: Seq<char>) -> bool {
    forall|i: int|
        0 <= i < s.len() ==> #[trigger] s[i] != '"' && s[i] != '\\' && s[i] as int > 0x1f
}

proof fn lemma_plain(s: Seq<char>)
    requires
        is_plain(s),
    ensures
        json::json_escaped(s) == s,
    decreases s.len(),
{
    if s.len() > 0 {
        let t = s.drop_first();
        assert forall|i: int| 0 <= i < t.len() implies #[trigger] t[i] != '"' && t[i] != '\\'
            && t[i] as int > 0x1f by {
            assert(t[i] == s[i + 1]);
        }
        lemma_plain(t);
        assert(s[0] != '"');
        assert(seq![s[0]] + t =~= s);
    } else {
        assert(s =~= Seq::empty());
    }
}

/// How the name of a member stands before its value.
pub open spec fn named(name: Seq<char>, value: Seq<char>) -> Seq<char> {
    seq!['"'] + name + seq!['"', ':'] + value
}

/// A member that another one follows is read as its name and its value.
pub proof fn lemma_member(
    name: Seq<char>,
    written: Seq<char>,
    value: JsonValue,
    more: Seq<char>,
    members: Seq<Member>,
)
    requires
        is_plain(name),
        read_value(written + (seq![','] + more)) == Some((value, seq![','] + more)),
        read_members(more) == Some(members),
    ensures
        read_members(named(name, written + (seq![','] + more))) == Some(
            seq![(name, value)] + members,
        ),
{
    let end = seq![','] + more;
    let s = named(name, written + end);
    lemma_name(name, written + end);
    assert(end.skip(1) =~= more);
    assert(more.len() > 0);
    assert(end != seq!['}']) by {
        assert(end[0] == ',');
    }
}

/// The last member is read as its name and its value.
pub proof fn lemma_last_member(name: Seq<char>, written: Seq<char>, value: JsonValue)
    requires
        is_plain(name),
        read_value(written + seq!['}']) == Some((value, seq!['}'])),
    ensures
        read_members(named(name, written + seq!['}'])) == Some(seq![(name, value)]),
{
    lemma_name(name, written + seq!['}']);
}

proof fn lemma_name(name: Seq<char>, after: Seq<char>)
    requires
        is_plain(name),
    ensures
        read_text(named(name, after)) == Some((name, seq![':'] + after)),
        (seq![':'] + after).skip(1) == after,
        named(name, after).len() > after.len(),
{
    lemma_plain(name);
    law_text_is_read_back(name, seq![':'] + after);
    assert(named(name, after) =~= json::json_text(name) + (seq![':'] + after));
    assert((seq![':'] + after).skip(1) =~= after);
}

/// Whether `key` is the name of a member in quotes, between a separator and a colon.
#[verifier::opaque]
pub open spec fn is_key(key: Seq<char>, separator: char, name: Seq<char>) -> bool {
    &&& is_plain(name)
    &&& key == seq![separator] + (seq!['"'] + name + seq!['"', ':'])
}

/// Whether a text is a separator and then members of an object up to its end.
#[verifier::opaque]
pub open spec fn reads(s: Seq<char>, separator: char, members: Seq<Member>) -> bool {
    &&& s.len() > 0
    &&& s[0] == separator
    &&& read_members(s.skip(1)) == Some(members)
}

/// A field and the members behind it are read as that member and those.
pub proof fn lemma_reads_field(
    key: Seq<char>,
    separator: char,
    name: Seq<char>,
    written: Seq<char>,
    value: JsonValue,
    more: Seq<char>,
    members: Seq<Member>,
)
    requires
        is_key(key, separator, name),
        reads(more, ',', members),
        read_value(written + more) == Some((value, more)),
    ensures
        reads(json::field(key, written, more), separator, seq![(name, value)] + members),
{
    reveal(is_key);
    reveal(reads);
    let s = json::field(key, written, more);
    assert(more =~= seq![','] + more.skip(1));
    lemma_member(name, written, value, more.skip(1), members);
    assert(s.skip(1) =~= named(name, written + more));
    assert(s[0] == separator);
}

/// The last field is read as that member.
pub proof fn lemma_reads_last_field(
    key: Seq<char>,
    name: Seq<char>,
    written: Seq<char>,
    value: JsonValue,
)
    requires
        is_key(key, ',', name),
        read_value(written + "}"@) == Some((value, "}"@)),
    ensures
        reads(json::field(key, written, "}"@), ',', seq![(name, value)]),
{
    reveal(is_key);
    reveal(reads);
    reveal_strlit("}");
    let s = json::field(key, written, "}"@);
    assert("}"@ =~= seq!['}']);
    lemma_last_member(name, written, value);
    assert(s.skip(1) =~= named(name, written + "}"@));
    assert(s[0] == ',');
}

/// The same of a field with a string.
pub proof fn lemma_reads_text(
    key: Seq<char>,
    separator: char,
    name: Seq<char>,
    x: Seq<char>,
    more: Seq<char>,
    members: Seq<Member>,
)
    requires
        is_key(key, separator, name),
        reads(more, ',', members),
    ensures
        reads(
            json::field(key, json::json_text(x), more),
            separator,
            seq![(name, JsonValue::Text(x))] + members,
        ),
{
    law_text_is_read_back(x, more);
    lemma_reads_field(
        key,
        separator,
        name,
        json::json_text(x),
        JsonValue::Text(x),
        more,
        members,
    );
}

/// The same of a last field with a string.
pub proof fn lemma_reads_last_text(key: Seq<char>, name: Seq<char>, x: Seq<char>)
    requires
        is_key(key, ',', name),
    ensures
        reads(
            json::field(key, json::json_text(x), "}"@),
            ',',
            seq![(name, JsonValue::Text(x))],
        ),
{
    law_text_is_read_back(x, "}"@);
    lemma_reads_last_field(key, name, json::json_text(x), JsonValue::Text(x));
}

/// The same of a field with a list.
pub proof fn lemma_reads_list(
    key: Seq<char>,
    separator: char,
    name: Seq<char>,
    items: Seq<Seq<char>>,
    more: Seq<char>,
    members: Seq<Member>,
)
    requires
        is_key(key, separator, name),
        reads(more, ',', members),
    ensures
        reads(
            json::field(key, json::json_list(items), more),
            separator,
            seq![(name, JsonValue::List(items))] + members,
        ),
{
    law_list_is_read_back(items, more);
    lemma_reads_field(
        key,
        separator,
        name,
        json::json_list(items),
        JsonValue::List(items),
        more,
        members,
    );
}

/// The same of a field with a number.
pub proof fn lemma_reads_number(
    key: Seq<char>,
    name: Seq<char>,
    number: nat,
    more: Seq<char>,
    members: Seq<Member>,
)
    requires
        is_key(key, ',', name),
        reads(more, ',', members),
    ensures
        reads(
            json::field(key, text::decimal_text(number), more),
            ',',
            seq![(name, JsonValue::Number(number))] + members,
        ),
{
    assert(more.len() > 0 && more[0] == ',') by {
        reveal(reads);
    }
    law_number_is_read_back(number, more);
    lemma_reads_field(
        key,
        ',',
        name,
        text::decimal_text(number),
        JsonValue::Number(number),
        more,
        members,
    );
}

/// Members behind an opening brace are an object.
pub proof fn lemma_reads_object(s: Seq<char>, members: Seq<Member>)
    requires
        reads(s, '{', members),
    ensures
        read_object(s) == Some(members),
{
    reveal(reads);
}

} // verus!
