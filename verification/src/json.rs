//! Compact JSON: strings, numbers and lists of strings.

use crate::graph;
use crate::hexadecimal;
use crate::text;
use vstd::prelude::*;

verus! {

/// How a character stands in a JSON string.
pub open spec fn json_escape(c: char) -> Seq<char> {
    if c == '"' {
        seq!['\\', '"']
    } else if c == '\\' {
        seq!['\\', '\\']
    } else if c == '\u{8}' {
        seq!['\\', 'b']
    } else if c == '\u{9}' {
        seq!['\\', 't']
    } else if c == '\u{a}' {
        seq!['\\', 'n']
    } else if c == '\u{c}' {
        seq!['\\', 'f']
    } else if c == '\u{d}' {
        seq!['\\', 'r']
    } else if c as int <= 0x1f {
        seq![
            '\\',
            'u',
            '0',
            '0',
            hexadecimal::hex_digit(c as int / 16),
            hexadecimal::hex_digit(c as int % 16),
        ]
    } else {
        seq![c]
    }
}

/// The inside of a JSON string.
pub open spec fn json_escaped(s: Seq<char>) -> Seq<char>
    decreases s.len(),
{
    if s.len() == 0 {
        Seq::empty()
    } else {
        json_escape(s[0]) + json_escaped(s.drop_first())
    }
}

/// A text as a JSON string.
pub open spec fn json_text(s: Seq<char>) -> Seq<char> {
    seq!['"'] + json_escaped(s) + seq!['"']
}

/// The rest of a JSON list of strings: what follows an item or the last one.
pub open spec fn json_rest(items: Seq<Seq<char>>) -> Seq<char>
    decreases items.len(),
{
    if items.len() == 0 {
        "]"@
    } else {
        ","@ + json_text(items[0]) + json_rest(items.drop_first())
    }
}

/// A JSON list of strings.
pub open spec fn json_list(items: Seq<Seq<char>>) -> Seq<char> {
    if items.len() == 0 {
        "[]"@
    } else {
        "["@ + json_text(items[0]) + json_rest(items.drop_first())
    }
}

/// Calls `serde_json::to_string` on a string: it writes the text between quotes, with the
/// quote, the backslash and the control characters below U+0020 escaped. It does not fail on
/// a string.
#[verifier::external_body]
pub(crate) fn json_string(s: &str) -> (r: String)
    ensures
        r@ == json_text(s@),
{
    serde_json::to_string(s).expect("a string can be written as JSON")
}

/// Calls `serde_json::to_string` on a number: it writes the number in decimal. It does not
/// fail on a number.
#[verifier::external_body]
pub(crate) fn json_number(n: u64) -> (r: String)
    ensures
        r@ == text::decimal_text(n as nat),
{
    serde_json::to_string(&n).expect("a number can be written as JSON")
}

/// Appends a list of strings in JSON.
pub(crate) fn append_json_list(out: &mut String, items: &Vec<String>)
    ensures
        final(out)@ == old(out)@ + json_list(graph::texts(items@)),
{
    let ghost start = out@;
    let ghost all = graph::texts(items@);
    let n: usize = items.len();
    if n == 0 {
        out.append("[]");
        return ;
    }
    out.append("[");
    out.append(json_string(items[0].as_str()).as_str());
    let mut i: usize = 1;
    assert(all[0] == items@[0]@);
    assert(all.skip(1) =~= all.drop_first());
    assert(out@ + json_rest(all.skip(1)) =~= start + json_list(all));
    while i < n
        invariant
            0 < i <= n,
            n == items@.len(),
            all == graph::texts(items@),
            out@ + json_rest(all.skip(i as int)) == start + json_list(all),
        decreases n - i,
    {
        let ghost before = out@;
        out.append(",");
        out.append(json_string(items[i].as_str()).as_str());
        proof {
            assert(all.skip(i as int)[0] == items@[i as int]@);
            assert(all.skip(i as int).drop_first() =~= all.skip(i + 1));
            assert(out@ + json_rest(all.skip(i + 1)) =~= before + json_rest(all.skip(i as int)));
        }
        i += 1;
    }
    assert(all.skip(n as int) =~= Seq::<Seq<char>>::empty());
    out.append("]");
}

/// Equal texts that begin alike go on alike.
pub proof fn lemma_same_front(front: Seq<char>, x: Seq<char>, y: Seq<char>)
    requires
        front + x == front + y,
    ensures
        x == y,
{
    let n = front.len() as int;
    assert((front + x).skip(n) =~= x);
    assert((front + y).skip(n) =~= y);
}

/// The first character of what a character is written as, and the next ones where it is
/// escaped, tell the character.
proof fn lemma_escape_decodes(a: char, b: char, x: Seq<char>, y: Seq<char>)
    requires
        json_escape(a) + x == json_escape(b) + y,
    ensures
        a == b,
        x == y,
{
    let l = json_escape(a) + x;
    let r = json_escape(b) + y;
    assert(l[0] == json_escape(a)[0]);
    assert(r[0] == json_escape(b)[0]);
    if json_escape(a).len() > 1 {
        assert(l[1] == json_escape(a)[1]);
        if json_escape(b).len() > 1 {
            assert(r[1] == json_escape(b)[1]);
            if json_escape(a).len() == 6 && json_escape(b).len() == 6 {
                assert(l[4] == json_escape(a)[4]);
                assert(r[4] == json_escape(b)[4]);
                assert(l[5] == json_escape(a)[5]);
                assert(r[5] == json_escape(b)[5]);
                assert(0 <= a as int / 16 < 2);
                assert(0 <= b as int / 16 < 2);
                assert(0 <= a as int % 16 < 16);
                assert(0 <= b as int % 16 < 16);
                assert(a as int == b as int);
            }
        }
    }
    assert(a == b);
    lemma_same_front(json_escape(a), x, y);
}

proof fn lemma_escaped_decodes(a: Seq<char>, b: Seq<char>, x: Seq<char>, y: Seq<char>)
    requires
        json_escaped(a) + (seq!['"'] + x) == json_escaped(b) + (seq!['"'] + y),
    ensures
        a == b,
        x == y,
    decreases a.len(),
{
    let l = json_escaped(a) + (seq!['"'] + x);
    let r = json_escaped(b) + (seq!['"'] + y);
    if a.len() == 0 || b.len() == 0 {
        if a.len() > 0 {
            assert(l[0] == json_escape(a[0])[0]);
            assert(r[0] == '"');
        } else if b.len() > 0 {
            assert(r[0] == json_escape(b[0])[0]);
            assert(l[0] == '"');
        } else {
            assert(a =~= b);
            assert(l =~= seq!['"'] + x);
            assert(r =~= seq!['"'] + y);
            lemma_same_front(seq!['"'], x, y);
        }
    } else {
        let l1 = json_escaped(a.drop_first()) + (seq!['"'] + x);
        let r1 = json_escaped(b.drop_first()) + (seq!['"'] + y);
        assert(l =~= json_escape(a[0]) + l1);
        assert(r =~= json_escape(b[0]) + r1);
        lemma_escape_decodes(a[0], b[0], l1, r1);
        lemma_escaped_decodes(a.drop_first(), b.drop_first(), x, y);
        assert(a =~= seq![a[0]] + a.drop_first());
        assert(b =~= seq![b[0]] + b.drop_first());
    }
}

/// A JSON string tells its text, and where it ends.
pub proof fn law_json_text_decodes(a: Seq<char>, b: Seq<char>, x: Seq<char>, y: Seq<char>)
    requires
        json_text(a) + x == json_text(b) + y,
    ensures
        a == b,
        x == y,
{
    let l = json_escaped(a) + (seq!['"'] + x);
    let r = json_escaped(b) + (seq!['"'] + y);
    assert(json_text(a) + x =~= seq!['"'] + l);
    assert(json_text(b) + y =~= seq!['"'] + r);
    lemma_same_front(seq!['"'], l, r);
    lemma_escaped_decodes(a, b, x, y);
}

proof fn lemma_rest_decodes(
    a: Seq<Seq<char>>,
    b: Seq<Seq<char>>,
    x: Seq<char>,
    y: Seq<char>,
)
    requires
        json_rest(a) + x == json_rest(b) + y,
    ensures
        a == b,
        x == y,
    decreases a.len(),
{
    reveal_strlit("]");
    reveal_strlit(",");
    let l = json_rest(a) + x;
    let r = json_rest(b) + y;
    assert(l[0] == json_rest(a)[0]);
    assert(r[0] == json_rest(b)[0]);
    if a.len() == 0 {
        assert(b.len() == 0);
        assert(a =~= b);
        lemma_same_front("]"@, x, y);
    } else {
        assert(b.len() > 0);
        let l1 = json_text(a[0]) + (json_rest(a.drop_first()) + x);
        let r1 = json_text(b[0]) + (json_rest(b.drop_first()) + y);
        assert(l =~= ","@ + l1);
        assert(r =~= ","@ + r1);
        lemma_same_front(","@, l1, r1);
        law_json_text_decodes(
            a[0],
            b[0],
            json_rest(a.drop_first()) + x,
            json_rest(b.drop_first()) + y,
        );
        lemma_rest_decodes(a.drop_first(), b.drop_first(), x, y);
        assert(a =~= seq![a[0]] + a.drop_first());
        assert(b =~= seq![b[0]] + b.drop_first());
    }
}

/// A JSON list of strings tells its items, and where it ends.
pub proof fn law_json_list_decodes(
    a: Seq<Seq<char>>,
    b: Seq<Seq<char>>,
    x: Seq<char>,
    y: Seq<char>,
)
    requires
        json_list(a) + x == json_list(b) + y,
    ensures
        a == b,
        x == y,
{
    reveal_strlit("[]");
    reveal_strlit("[");
    let l = json_list(a) + x;
    let r = json_list(b) + y;
    assert(l[1] == json_list(a)[1]);
    assert(r[1] == json_list(b)[1]);
    if a.len() == 0 {
        assert(b.len() == 0);
        assert(a =~= b);
        lemma_same_front("[]"@, x, y);
    } else {
        assert(b.len() > 0);
        let l1 = json_text(a[0]) + (json_rest(a.drop_first()) + x);
        let r1 = json_text(b[0]) + (json_rest(b.drop_first()) + y);
        assert(l =~= "["@ + l1);
        assert(r =~= "["@ + r1);
        lemma_same_front("["@, l1, r1);
        law_json_text_decodes(
            a[0],
            b[0],
            json_rest(a.drop_first()) + x,
            json_rest(b.drop_first()) + y,
        );
        lemma_rest_decodes(a.drop_first(), b.drop_first(), x, y);
        assert(a =~= seq![a[0]] + a.drop_first());
        assert(b =~= seq![b[0]] + b.drop_first());
    }
}

proof fn lemma_decimal_digits(n: nat)
    ensures
        text::decimal_text(n).len() > 0,
        forall|i: int|
            0 <= i < text::decimal_text(n).len() ==> '0' <= #[trigger] text::decimal_text(n)[i]
                <= '9',
    decreases n,
{
    if n >= 10 {
        lemma_decimal_digits(n / 10);
    }
}

proof fn lemma_decimal_injective(m: nat, n: nat)
    requires
        text::decimal_text(m) == text::decimal_text(n),
    ensures
        m == n,
    decreases m,
{
    lemma_decimal_digits(m / 10);
    lemma_decimal_digits(n / 10);
    if m >= 10 && n >= 10 {
        let a = text::decimal_text(m);
        let b = text::decimal_text(n);
        assert(a.drop_last() =~= text::decimal_text(m / 10));
        assert(b.drop_last() =~= text::decimal_text(n / 10));
        assert(a.last() == text::digit((m % 10) as int));
        assert(b.last() == text::digit((n % 10) as int));
        lemma_decimal_injective(m / 10, n / 10);
        assert(text::digit((m % 10) as int) as int == '0' as int + m % 10);
        assert(text::digit((n % 10) as int) as int == '0' as int + n % 10);
    } else if m < 10 && n < 10 {
        assert(text::decimal_text(m)[0] == text::digit(m as int));
        assert(text::decimal_text(n)[0] == text::digit(n as int));
        assert(text::digit(m as int) as int == '0' as int + m);
        assert(text::digit(n as int) as int == '0' as int + n);
    } else {
        let (small, large) = if m < 10 {
            (m, n)
        } else {
            (n, m)
        };
        lemma_decimal_digits(large / 10);
        assert(text::decimal_text(large) == text::decimal_text(large / 10).push(
            text::digit((large % 10) as int),
        ));
        assert(text::decimal_text(small) == seq![text::digit(small as int)]);
        assert(text::decimal_text(large).len() >= 2);
        assert(text::decimal_text(small).len() == 1);
    }
}

/// A number in decimal that no digit follows tells the number, and where it ends.
pub proof fn law_decimal_decodes(m: nat, n: nat, x: Seq<char>, y: Seq<char>)
    requires
        text::decimal_text(m) + x == text::decimal_text(n) + y,
        x.len() > 0 && !('0' <= x[0] <= '9'),
        y.len() > 0 && !('0' <= y[0] <= '9'),
    ensures
        m == n,
        x == y,
{
    let a = text::decimal_text(m);
    let b = text::decimal_text(n);
    lemma_decimal_digits(m);
    lemma_decimal_digits(n);
    if a.len() < b.len() {
        assert((a + x)[a.len() as int] == x[0]);
        assert((b + y)[a.len() as int] == b[a.len() as int]);
    }
    if b.len() < a.len() {
        assert((b + y)[b.len() as int] == y[0]);
        assert((a + x)[b.len() as int] == a[b.len() as int]);
    }
    assert(a =~= b) by {
        assert forall|i: int| 0 <= i < a.len() implies a[i] == b[i] by {
            assert((a + x)[i] == a[i]);
            assert((b + y)[i] == b[i]);
        }
    }
    lemma_decimal_injective(m, n);
    lemma_same_front(a, x, y);
}

/// Texts with the same UTF-8 encoding are the same.
pub proof fn lemma_same_encoding(a: Seq<char>, b: Seq<char>)
    requires
        vstd::utf8::encode_utf8(a) == vstd::utf8::encode_utf8(b),
    ensures
        a == b,
{
    vstd::utf8::encode_utf8_decode_utf8(a);
    vstd::utf8::encode_utf8_decode_utf8(b);
}

/// A field of a JSON object: its key, its value and what follows.
pub open spec fn field(key: Seq<char>, value: Seq<char>, rest: Seq<char>) -> Seq<char> {
    key + (value + rest)
}

/// A field with a text tells the text and what follows.
pub proof fn lemma_text_field(key: Seq<char>, a: Seq<char>, b: Seq<char>, x: Seq<char>, y: Seq<char>)
    requires
        field(key, json_text(a), x) == field(key, json_text(b), y),
    ensures
        a == b,
        x == y,
{
    lemma_same_front(key, json_text(a) + x, json_text(b) + y);
    law_json_text_decodes(a, b, x, y);
}

/// A field with a list tells the list and what follows.
pub proof fn lemma_list_field(
    key: Seq<char>,
    a: Seq<Seq<char>>,
    b: Seq<Seq<char>>,
    x: Seq<char>,
    y: Seq<char>,
)
    requires
        field(key, json_list(a), x) == field(key, json_list(b), y),
    ensures
        a == b,
        x == y,
{
    lemma_same_front(key, json_list(a) + x, json_list(b) + y);
    law_json_list_decodes(a, b, x, y);
}

/// A field with a number that no digit follows tells the number and what follows.
pub proof fn lemma_number_field(key: Seq<char>, m: nat, n: nat, x: Seq<char>, y: Seq<char>)
    requires
        field(key, text::decimal_text(m), x) == field(key, text::decimal_text(n), y),
        x.len() > 0 && !('0' <= x[0] <= '9'),
        y.len() > 0 && !('0' <= y[0] <= '9'),
    ensures
        m == n,
        x == y,
{
    lemma_same_front(key, text::decimal_text(m) + x, text::decimal_text(n) + y);
    law_decimal_decodes(m, n, x, y);
}

} // verus!
