//! Text: comparing, trimming, splitting, and numbers in decimal.

use crate::graph;
use vstd::prelude::*;

verus! {

/// The text of an optional string.
pub open spec fn option_text(s: Option<String>) -> Option<Seq<char>> {
    match s {
        Some(t) => Some(t@),
        None => None,
    }
}

/// Whether two texts are the same.
pub fn str_eq(a: &str, b: &str) -> (r: bool)
    ensures
        r == (a@ == b@),
{
    let x: &[u8] = a.as_bytes();
    let y: &[u8] = b.as_bytes();
    if x.len() != y.len() {
        return false;
    }
    let mut i: usize = 0;
    while i < x.len()
        invariant
            i <= x@.len(),
            x@.len() == y@.len(),
            x@ == vstd::utf8::encode_utf8(a@),
            y@ == vstd::utf8::encode_utf8(b@),
            forall|k: int| 0 <= k < i ==> x@[k] == y@[k],
        decreases x@.len() - i,
    {
        if x[i] != y[i] {
            return false;
        }
        i += 1;
    }
    proof {
        assert(x@ =~= y@);
        vstd::utf8::encode_utf8_decode_utf8(a@);
        vstd::utf8::encode_utf8_decode_utf8(b@);
    }
    true
}

/// The characters of a text.
fn chars_of(s: &str) -> (r: Vec<char>)
    ensures
        r@ == s@,
{
    let mut r: Vec<char> = Vec::new();
    for c in it: s.chars()
        invariant
            it.seq() == s@,
            r@ == s@.take(it.index() as int),
    {
        r.push(c);
        assert(s@.take(it.index() + 1) =~= s@.take(it.index() as int).push(c));
    }
    assert(s@.take(s@.len() as int) =~= s@);
    r
}

/// Whether a character has the Unicode property `White_Space`.
pub open spec fn is_white_space(c: char) -> bool {
    ||| '\u{9}' <= c <= '\u{d}'
    ||| c == '\u{20}'
    ||| c == '\u{85}'
    ||| c == '\u{a0}'
    ||| c == '\u{1680}'
    ||| '\u{2000}' <= c <= '\u{200a}'
    ||| c == '\u{2028}'
    ||| c == '\u{2029}'
    ||| c == '\u{202f}'
    ||| c == '\u{205f}'
    ||| c == '\u{3000}'
}

/// Whether a character has the Unicode property `White_Space`.
pub fn white_space(c: char) -> (r: bool)
    ensures
        r == is_white_space(c),
        r <==> {
            let n = c as int;
            ||| 9 <= n <= 13
            ||| n == 32 || n == 133 || n == 160 || n == 5760
            ||| 8192 <= n <= 8202
            ||| n == 8232 || n == 8233 || n == 8239 || n == 8287 || n == 12288
        },
{
    ('\u{9}' <= c && c <= '\u{d}') || c == '\u{20}' || c == '\u{85}' || c == '\u{a0}' || c
        == '\u{1680}' || ('\u{2000}' <= c && c <= '\u{200a}') || c == '\u{2028}' || c == '\u{2029}'
        || c == '\u{202f}' || c == '\u{205f}' || c == '\u{3000}'
}

/// A text without its leading white space.
pub open spec fn without_leading(s: Seq<char>) -> Seq<char>
    decreases s.len(),
{
    if s.len() > 0 && is_white_space(s[0]) {
        without_leading(s.drop_first())
    } else {
        s
    }
}

/// A text without its trailing white space.
pub open spec fn without_trailing(s: Seq<char>) -> Seq<char>
    decreases s.len(),
{
    if s.len() > 0 && is_white_space(s.last()) {
        without_trailing(s.drop_last())
    } else {
        s
    }
}

/// A text without its leading and trailing white space.
pub open spec fn trimmed(s: Seq<char>) -> Seq<char> {
    without_trailing(without_leading(s))
}

/// Removes leading and trailing white space.
pub fn trim(s: &str) -> (r: String)
    ensures
        r@ == trimmed(s@),
{
    let chars = chars_of(s);
    let n: usize = chars.len();
    let mut lo: usize = 0;
    assert(s@.subrange(0, n as int) =~= s@);
    while lo < n && white_space(chars[lo])
        invariant
            lo <= n,
            n == chars@.len(),
            chars@ == s@,
            without_leading(s@) == without_leading(s@.subrange(lo as int, n as int)),
        decreases n - lo,
    {
        assert(s@.subrange(lo as int, n as int).drop_first() =~= s@.subrange(lo + 1, n as int));
        lo += 1;
    }
    let ghost rest = s@.subrange(lo as int, n as int);
    assert(without_leading(s@) == rest) by {
        if lo < n {
            assert(rest[0] == s@[lo as int]);
        }
    }
    let mut hi: usize = n;
    while lo < hi && white_space(chars[hi - 1])
        invariant
            lo <= hi <= n,
            n == chars@.len(),
            chars@ == s@,
            without_trailing(rest) == without_trailing(s@.subrange(lo as int, hi as int)),
        decreases hi,
    {
        assert(s@.subrange(lo as int, hi as int).drop_last() =~= s@.subrange(lo as int, hi - 1));
        hi -= 1;
    }
    proof {
        let kept = s@.subrange(lo as int, hi as int);
        if lo < hi {
            assert(kept.last() == s@[hi - 1]);
        }
    }
    s.substring_char(lo, hi).to_owned()
}

/// The pieces of a text between separators.
pub open spec fn split(s: Seq<char>, separator: char) -> Seq<Seq<char>>
    decreases s.len(),
{
    if s.len() == 0 {
        seq![Seq::empty()]
    } else {
        let before = split(s.drop_last(), separator);
        if s.last() == separator {
            before.push(Seq::empty())
        } else {
            before.drop_last().push(before.last().push(s.last()))
        }
    }
}

/// The pieces, trimmed, that hold more than white space.
pub open spec fn non_blank(pieces: Seq<Seq<char>>) -> Seq<Seq<char>> {
    pieces.map_values(|p: Seq<char>| trimmed(p)).filter(|p: Seq<char>| p.len() > 0)
}

/// The trimmed entries of a text that are not blank, given what separates them.
pub open spec fn entries_of(s: Seq<char>, separator: char) -> Seq<Seq<char>> {
    non_blank(split(s, separator))
}

proof fn lemma_split_non_empty(s: Seq<char>, separator: char)
    ensures
        split(s, separator).len() > 0,
    decreases s.len(),
{
    if s.len() > 0 {
        lemma_split_non_empty(s.drop_last(), separator);
    }
}

/// One more piece adds what is left of it after trimming, unless that is nothing.
pub proof fn lemma_non_blank_push(pieces: Seq<Seq<char>>, p: Seq<char>)
    ensures
        non_blank(pieces.push(p)) == if trimmed(p).len() > 0 {
            non_blank(pieces).push(trimmed(p))
        } else {
            non_blank(pieces)
        },
{
    let trim_all = pieces.push(p).map_values(|p: Seq<char>| trimmed(p));
    assert(trim_all.drop_last() =~= pieces.map_values(|p: Seq<char>| trimmed(p)));
    reveal(Seq::filter);
}

proof fn lemma_non_blank_empty()
    ensures
        non_blank(Seq::empty()) == Seq::<Seq<char>>::empty(),
{
    reveal(Seq::filter);
    assert(Seq::<Seq<char>>::empty().map_values(|p: Seq<char>| trimmed(p)) =~= Seq::<
        Seq<char>,
    >::empty());
}

/// Splits a text at `separator`, trims the pieces and drops the blank ones.
pub fn entries(s: &str, separator: char) -> (r: Vec<String>)
    ensures
        graph::texts(r@) == entries_of(s@, separator),
{
    let chars = chars_of(s);
    let n: usize = chars.len();
    let mut r: Vec<String> = Vec::new();
    let mut start: usize = 0;
    let mut i: usize = 0;
    proof {
        lemma_non_blank_empty();
        assert(s@.take(0) =~= Seq::<char>::empty());
        assert(split(s@.take(0), separator).drop_last() =~= Seq::<Seq<char>>::empty());
        assert(graph::texts(r@) =~= Seq::<Seq<char>>::empty());
        assert(split(s@.take(0), separator).last() =~= s@.subrange(0, 0));
    }
    while i < n
        invariant
            start <= i <= n,
            n == chars@.len(),
            chars@ == s@,
            split(s@.take(i as int), separator).last() == s@.subrange(start as int, i as int),
            graph::texts(r@) == non_blank(split(s@.take(i as int), separator).drop_last()),
        decreases n - i,
    {
        let ghost before = split(s@.take(i as int), separator);
        proof {
            lemma_split_non_empty(s@.take(i as int), separator);
            assert(s@.take(i + 1).drop_last() =~= s@.take(i as int));
            assert(s@.take(i + 1).last() == s@[i as int]);
        }
        if chars[i] == separator {
            proof {
                assert(split(s@.take(i + 1), separator).drop_last() =~= before);
                assert(before =~= before.drop_last().push(before.last()));
                assert(s@.subrange(i + 1, i + 1) =~= Seq::<char>::empty());
            }
            push_entry(&mut r, s, start, i, Ghost(before.drop_last()));
            start = i + 1;
        } else {
            proof {
                assert(split(s@.take(i + 1), separator).drop_last() =~= before.drop_last());
                assert(s@.subrange(start as int, i + 1) =~= s@.subrange(
                    start as int,
                    i as int,
                ).push(s@[i as int]));
            }
        }
        i += 1;
    }
    proof {
        assert(s@.take(n as int) =~= s@);
        lemma_split_non_empty(s@, separator);
        let all = split(s@, separator);
        assert(all =~= all.drop_last().push(all.last()));
    }
    push_entry(&mut r, s, start, n, Ghost(split(s@, separator).drop_last()));
    r
}

/// Adds one piece of `s` to the entries found so far.
fn push_entry(
    r: &mut Vec<String>,
    s: &str,
    start: usize,
    end: usize,
    Ghost(before): Ghost<Seq<Seq<char>>>,
)
    requires
        start <= end <= s@.len(),
        graph::texts(old(r)@) == non_blank(before),
    ensures
        graph::texts(final(r)@) == non_blank(before.push(s@.subrange(start as int, end as int))),
{
    let piece = trim(s.substring_char(start, end));
    proof {
        lemma_non_blank_push(before, s@.subrange(start as int, end as int));
    }
    if !piece.as_str().is_empty() {
        let ghost done = graph::texts(r@);
        let ghost text = piece@;
        r.push(piece);
        assert(graph::texts(r@) =~= done.push(text));
    }
}

/// Whether a text is an entry: not blank, trimmed, and without the separator.
pub open spec fn is_entry(p: Seq<char>, separator: char) -> bool {
    &&& p.len() > 0
    &&& trimmed(p) == p
    &&& !p.contains(separator)
}

/// Texts with a line feed behind each.
pub open spec fn lines_text(items: Seq<Seq<char>>) -> Seq<char>
    decreases items.len(),
{
    if items.len() == 0 {
        Seq::empty()
    } else {
        lines_text(items.drop_last()) + items.last() + "\n"@
    }
}

/// Writes texts with a line feed behind each.
pub fn lines(items: &Vec<String>) -> (r: String)
    ensures
        r@ == lines_text(graph::texts(items@)),
{
    let mut r = "".to_owned();
    let mut i: usize = 0;
    proof {
        reveal_strlit("");
        assert(graph::texts(items@).take(0) =~= Seq::<Seq<char>>::empty());
        assert(r@ =~= Seq::<char>::empty());
    }
    while i < items.len()
        invariant
            i <= items@.len(),
            r@ == lines_text(graph::texts(items@).take(i as int)),
        decreases items@.len() - i,
    {
        proof {
            let next = graph::texts(items@).take(i + 1);
            assert(next.drop_last() =~= graph::texts(items@).take(i as int));
            assert(next.last() == items@[i as int]@);
        }
        r.append(items[i].as_str());
        r.append("\n");
        i += 1;
    }
    assert(graph::texts(items@).take(i as int) =~= graph::texts(items@));
    r
}

proof fn lemma_leading_is_suffix(s: Seq<char>)
    ensures
        exists|k: int| 0 <= k <= s.len() && #[trigger] s.skip(k) == without_leading(s),
        without_leading(s).len() > 0 ==> !is_white_space(without_leading(s)[0]),
    decreases s.len(),
{
    if s.len() > 0 && is_white_space(s[0]) {
        lemma_leading_is_suffix(s.drop_first());
        let k = choose|k: int|
            0 <= k <= s.drop_first().len() && #[trigger] s.drop_first().skip(k) == without_leading(
                s.drop_first(),
            );
        assert(s.skip(k + 1) =~= s.drop_first().skip(k));
    } else {
        assert(s.skip(0) =~= s);
    }
}

proof fn lemma_trailing_is_prefix(s: Seq<char>)
    ensures
        exists|k: int| 0 <= k <= s.len() && #[trigger] s.take(k) == without_trailing(s),
        without_trailing(s).len() > 0 ==> !is_white_space(without_trailing(s).last()),
    decreases s.len(),
{
    if s.len() > 0 && is_white_space(s.last()) {
        lemma_trailing_is_prefix(s.drop_last());
        let k = choose|k: int|
            0 <= k <= s.drop_last().len() && #[trigger] s.drop_last().take(k) == without_trailing(
                s.drop_last(),
            );
        assert(s.take(k) =~= s.drop_last().take(k));
    } else {
        assert(s.take(s.len() as int) =~= s);
    }
}

/// Trimming leaves a part of the text, which has no white space at either end.
pub proof fn lemma_trimmed_is_part(s: Seq<char>)
    ensures
        exists|i: int, j: int|
            0 <= i <= j <= s.len() && #[trigger] s.subrange(i, j) == trimmed(s),
        trimmed(s).len() > 0 ==> !is_white_space(trimmed(s)[0]) && !is_white_space(
            trimmed(s).last(),
        ),
{
    let t = without_leading(s);
    lemma_leading_is_suffix(s);
    lemma_trailing_is_prefix(t);
    let i = choose|k: int| 0 <= k <= s.len() && #[trigger] s.skip(k) == t;
    let k = choose|k: int| 0 <= k <= t.len() && #[trigger] t.take(k) == without_trailing(t);
    assert(s.subrange(i, i + k) =~= t.take(k));
    if k > 0 {
        assert(t.take(k)[0] == t[0]);
    }
}

/// A text without white space at either end stays as it is.
pub proof fn lemma_trimmed_stays(s: Seq<char>)
    requires
        s.len() > 0 ==> !is_white_space(s[0]) && !is_white_space(s.last()),
    ensures
        trimmed(s) == s,
{
}

/// The pieces between separators hold none.
proof fn lemma_pieces_hold_no_separator(s: Seq<char>, separator: char)
    ensures
        split(s, separator).len() > 0,
        forall|i: int|
            0 <= i < split(s, separator).len() ==> !(#[trigger] split(s, separator)[i]).contains(
                separator,
            ),
    decreases s.len(),
{
    if s.len() > 0 {
        let before = split(s.drop_last(), separator);
        lemma_pieces_hold_no_separator(s.drop_last(), separator);
        assert forall|i: int| 0 <= i < split(s, separator).len() implies !(#[trigger] split(
            s,
            separator,
        )[i]).contains(separator) by {
            if s.last() != separator && i == before.len() - 1 {
                let piece = before.last().push(s.last());
                assert(split(s, separator)[i] == piece);
                if piece.contains(separator) {
                    let k = choose|k: int| 0 <= k < piece.len() && piece[k] == separator;
                    assert(before.last()[k] == separator);
                    assert(before[i].contains(separator));
                }
            } else if i < before.len() {
                assert(split(s, separator)[i] == before[i]);
            }
        }
    }
}

/// The entries of pieces without separator are entries.
proof fn lemma_non_blank_are_entries(pieces: Seq<Seq<char>>, separator: char)
    requires
        forall|i: int| 0 <= i < pieces.len() ==> !(#[trigger] pieces[i]).contains(separator),
    ensures
        forall|i: int|
            0 <= i < non_blank(pieces).len() ==> is_entry(
                #[trigger] non_blank(pieces)[i],
                separator,
            ),
    decreases pieces.len(),
{
    if pieces.len() == 0 {
        lemma_non_blank_empty();
        assert(pieces =~= Seq::empty());
    } else {
        let front = pieces.drop_last();
        let p = pieces.last();
        assert(forall|i: int| 0 <= i < front.len() ==> #[trigger] front[i] == pieces[i]);
        lemma_non_blank_are_entries(front, separator);
        lemma_non_blank_push(front, p);
        assert(front.push(p) =~= pieces);
        lemma_trimmed_is_part(p);
        lemma_trimmed_stays(trimmed(p));
        if trimmed(p).contains(separator) {
            let (i, j) = choose|i: int, j: int|
                0 <= i <= j <= p.len() && #[trigger] p.subrange(i, j) == trimmed(p);
            let k = choose|k: int| 0 <= k < trimmed(p).len() && trimmed(p)[k] == separator;
            assert(p[i + k] == separator);
            assert(pieces[pieces.len() - 1].contains(separator));
        }
    }
}

/// What comes out of a text as its entries is trimmed, not blank, and holds no separator.
pub proof fn law_entries_are_entries(s: Seq<char>, separator: char)
    ensures
        forall|i: int|
            0 <= i < entries_of(s, separator).len() ==> is_entry(
                #[trigger] entries_of(s, separator)[i],
                separator,
            ),
{
    lemma_pieces_hold_no_separator(s, separator);
    lemma_non_blank_are_entries(split(s, separator), separator);
}

/// A text without separator that is put behind another goes to its last piece.
proof fn lemma_split_longer(s: Seq<char>, t: Seq<char>, separator: char)
    requires
        !t.contains(separator),
    ensures
        split(s, separator).len() > 0,
        split(s + t, separator) == split(s, separator).drop_last().push(
            split(s, separator).last() + t,
        ),
    decreases t.len(),
{
    let before = split(s, separator);
    lemma_split_non_empty(s, separator);
    if t.len() == 0 {
        assert(s + t =~= s);
        assert(before.last() + t =~= before.last());
        assert(before.drop_last().push(before.last()) =~= before);
    } else {
        let front = t.drop_last();
        assert(!front.contains(separator)) by {
            if front.contains(separator) {
                let k = choose|k: int| 0 <= k < front.len() && front[k] == separator;
                assert(t[k] == separator);
            }
        }
        lemma_split_longer(s, front, separator);
        assert((s + t).drop_last() =~= s + front);
        assert(t[t.len() - 1] != separator);
        assert(split(s + front, separator).drop_last() =~= before.drop_last());
        assert((before.last() + front).push(t.last()) =~= before.last() + t);
    }
}

/// Lines split at the line feeds into themselves and an empty rest.
proof fn lemma_split_lines(items: Seq<Seq<char>>)
    requires
        forall|i: int| 0 <= i < items.len() ==> !(#[trigger] items[i]).contains('\n'),
    ensures
        split(lines_text(items), '\n') == items.push(Seq::empty()),
    decreases items.len(),
{
    if items.len() == 0 {
        assert(items.push(Seq::empty()) =~= seq![Seq::<char>::empty()]);
    } else {
        let front = items.drop_last();
        assert(forall|i: int| 0 <= i < front.len() ==> #[trigger] front[i] == items[i]);
        lemma_split_lines(front);
        let text = lines_text(front);
        assert(!items[items.len() - 1].contains('\n'));
        lemma_split_longer(text, items.last(), '\n');
        reveal_strlit("\n");
        assert(lines_text(items).drop_last() =~= text + items.last());
        assert(lines_text(items).last() == '\n');
        assert(split(text, '\n').drop_last() =~= front);
        assert(Seq::<char>::empty() + items.last() =~= items.last());
        assert(front.push(items.last()) =~= items);
    }
}

/// Pieces that are entries are kept as they are.
proof fn lemma_entries_kept(items: Seq<Seq<char>>, separator: char)
    requires
        forall|i: int| 0 <= i < items.len() ==> is_entry(#[trigger] items[i], separator),
    ensures
        non_blank(items) == items,
    decreases items.len(),
{
    if items.len() == 0 {
        lemma_non_blank_empty();
        assert(items =~= Seq::empty());
    } else {
        let front = items.drop_last();
        assert(forall|i: int| 0 <= i < front.len() ==> #[trigger] front[i] == items[i]);
        lemma_entries_kept(front, separator);
        lemma_non_blank_push(front, items.last());
        assert(is_entry(items[items.len() - 1], separator));
        assert(front.push(items.last()) =~= items);
    }
}

/// Entries that are written as lines come back from those lines.
pub proof fn law_lines_round_trip(items: Seq<Seq<char>>)
    requires
        forall|i: int| 0 <= i < items.len() ==> is_entry(#[trigger] items[i], '\n'),
    ensures
        entries_of(lines_text(items), '\n') == items,
{
    lemma_split_lines(items);
    lemma_entries_kept(items, '\n');
    lemma_non_blank_push(items, Seq::empty());
    assert(trimmed(Seq::<char>::empty()).len() == 0);
}

/// Lines of two lists are the lines of one and then of the other, and the line of one text is the
/// text and a line feed.
pub proof fn law_lines_of_parts(a: Seq<Seq<char>>, b: Seq<Seq<char>>, x: Seq<char>)
    ensures
        lines_text(a + b) == lines_text(a) + lines_text(b),
        lines_text(seq![x]) == x + "\n"@,
        lines_text(Seq::empty()) == Seq::<char>::empty(),
    decreases b.len(),
{
    assert(seq![x].drop_last() =~= Seq::<Seq<char>>::empty());
    assert(lines_text(Seq::<Seq<char>>::empty()) =~= Seq::<char>::empty());
    assert(Seq::<char>::empty() + x + "\n"@ =~= x + "\n"@);
    if b.len() == 0 {
        assert(a + b =~= a);
        assert(lines_text(a) + lines_text(b) =~= lines_text(a));
    } else {
        law_lines_of_parts(a, b.drop_last(), x);
        assert((a + b).drop_last() =~= a + b.drop_last());
        assert(lines_text(a + b) =~= lines_text(a) + lines_text(b));
    }
}

/// Trimming takes white space off both ends, all of it and nothing else.
pub proof fn law_trimming_takes_white_space_off_the_ends(s: Seq<char>)
    ensures
        exists|i: int, j: int|
            {
                &&& 0 <= i <= j <= s.len()
                &&& #[trigger] s.subrange(i, j) == trimmed(s)
                &&& forall|k: int| 0 <= k < i || j <= k < s.len() ==> is_white_space(#[trigger] s[k])
            },
        trimmed(s).len() > 0 ==> !is_white_space(trimmed(s)[0]) && !is_white_space(
            trimmed(s).last(),
        ),
{
    lemma_trimmed_is_part(s);
    let i = lemma_leading_white_space(s);
    let t = without_leading(s);
    let k = lemma_trailing_white_space(t);
    assert(s.subrange(i, i + k) =~= t.take(k));
    assert forall|m: int| 0 <= m < i || i + k <= m < s.len() implies is_white_space(
        #[trigger] s[m],
    ) by {
        if m >= i + k {
            assert(t[m - i] == s[m]);
        }
    }
}

proof fn lemma_leading_white_space(s: Seq<char>) -> (i: int)
    ensures
        0 <= i <= s.len(),
        s.skip(i) == without_leading(s),
        forall|k: int| 0 <= k < i ==> is_white_space(#[trigger] s[k]),
    decreases s.len(),
{
    if s.len() > 0 && is_white_space(s[0]) {
        let t = s.drop_first();
        let i = lemma_leading_white_space(t);
        assert(s.skip(i + 1) =~= t.skip(i));
        assert forall|k: int| 0 <= k < i + 1 implies is_white_space(#[trigger] s[k]) by {
            if k > 0 {
                assert(t[k - 1] == s[k]);
            }
        }
        i + 1
    } else {
        assert(s.skip(0) =~= s);
        0
    }
}

proof fn lemma_trailing_white_space(s: Seq<char>) -> (k: int)
    ensures
        0 <= k <= s.len(),
        s.take(k) == without_trailing(s),
        forall|m: int| k <= m < s.len() ==> is_white_space(#[trigger] s[m]),
    decreases s.len(),
{
    if s.len() > 0 && is_white_space(s.last()) {
        let t = s.drop_last();
        let k = lemma_trailing_white_space(t);
        assert(s.take(k) =~= t.take(k));
        assert forall|m: int| k <= m < s.len() implies is_white_space(#[trigger] s[m]) by {
            if m < t.len() {
                assert(t[m] == s[m]);
            }
        }
        k
    } else {
        assert(s.take(s.len() as int) =~= s);
        s.len() as int
    }
}

/// A text before a separator and one behind it have their entries one after the other.
pub proof fn law_entries_around_a_separator(s: Seq<char>, t: Seq<char>, separator: char)
    ensures
        entries_of(s + seq![separator] + t, separator) == entries_of(s, separator) + entries_of(
            t,
            separator,
        ),
{
    lemma_split_joined(s, t, separator);
    lemma_non_blank_joined(split(s, separator), split(t, separator));
}

/// A text without separator is one entry, trimmed, unless it is blank.
pub proof fn law_entry_without_separator(s: Seq<char>, separator: char)
    requires
        !s.contains(separator),
    ensures
        entries_of(s, separator) == if trimmed(s).len() > 0 {
            seq![trimmed(s)]
        } else {
            Seq::empty()
        },
{
    let none = Seq::<char>::empty();
    lemma_split_longer(none, s, separator);
    assert(none + s =~= s);
    assert(split(none, separator).drop_last() =~= Seq::<Seq<char>>::empty());
    assert(split(s, separator) =~= Seq::<Seq<char>>::empty().push(s));
    lemma_non_blank_empty();
    lemma_non_blank_push(Seq::empty(), s);
    assert(Seq::<Seq<char>>::empty().push(trimmed(s)) =~= seq![trimmed(s)]);
}

proof fn lemma_split_joined(s: Seq<char>, t: Seq<char>, separator: char)
    ensures
        split(s + seq![separator] + t, separator) == split(s, separator) + split(t, separator),
    decreases t.len(),
{
    let all = s + seq![separator] + t;
    lemma_split_non_empty(t, separator);
    if t.len() == 0 {
        assert(all.drop_last() =~= s);
        assert(split(all, separator) =~= split(s, separator) + split(t, separator));
    } else {
        let front = t.drop_last();
        lemma_split_joined(s, front, separator);
        lemma_split_non_empty(front, separator);
        assert(all.drop_last() =~= s + seq![separator] + front);
        assert(all.last() == t.last());
        assert(split(all, separator) =~= split(s, separator) + split(t, separator));
    }
}

proof fn lemma_non_blank_joined(a: Seq<Seq<char>>, b: Seq<Seq<char>>)
    ensures
        non_blank(a + b) == non_blank(a) + non_blank(b),
    decreases b.len(),
{
    if b.len() == 0 {
        lemma_non_blank_empty();
        assert(b =~= Seq::empty());
        assert(a + b =~= a);
        assert(non_blank(a) + non_blank(b) =~= non_blank(a));
    } else {
        let front = b.drop_last();
        lemma_non_blank_joined(a, front);
        lemma_non_blank_push(a + front, b.last());
        lemma_non_blank_push(front, b.last());
        assert((a + front).push(b.last()) =~= a + b);
        assert(front.push(b.last()) =~= b);
        assert(non_blank(a + b) =~= non_blank(a) + non_blank(b));
    }
}

/// The character for a decimal digit.
pub open spec fn digit(d: int) -> char {
    (('0' as u32) + d) as char
}

/// A number in decimal notation.
pub open spec fn decimal_text(n: nat) -> Seq<char>
    decreases n,
{
    if n < 10 {
        seq![digit(n as int)]
    } else {
        decimal_text(n / 10).push(digit((n % 10) as int))
    }
}

fn digit_text(d: u64) -> (r: &'static str)
    requires
        d < 10,
    ensures
        r@ == seq![digit(d as int)],
{
    proof {
        reveal_strlit("0");
        reveal_strlit("1");
        reveal_strlit("2");
        reveal_strlit("3");
        reveal_strlit("4");
        reveal_strlit("5");
        reveal_strlit("6");
        reveal_strlit("7");
        reveal_strlit("8");
        reveal_strlit("9");
    }
    let r = match d {
        0 => "0",
        1 => "1",
        2 => "2",
        3 => "3",
        4 => "4",
        5 => "5",
        6 => "6",
        7 => "7",
        8 => "8",
        _ => "9",
    };
    assert(r@ =~= seq![digit(d as int)]);
    r
}

/// Writes a number in decimal notation.
pub fn decimal(n: u64) -> (r: String)
    ensures
        r@ == decimal_text(n as nat),
    decreases n,
{
    if n < 10 {
        digit_text(n).to_owned()
    } else {
        let mut r = decimal(n / 10);
        let ghost front = r@;
        r.append(digit_text(n % 10));
        assert(r@ =~= front.push(digit((n % 10) as int)));
        r
    }
}

/// Whether a text holds decimal digits only.
pub open spec fn all_digits(s: Seq<char>) -> bool {
    forall|i: int| 0 <= i < s.len() ==> '0' <= #[trigger] s[i] <= '9'
}

/// The number that decimal digits stand for.
pub open spec fn digits_value(s: Seq<char>) -> nat
    decreases s.len(),
{
    if s.len() == 0 {
        0
    } else {
        (10 * digits_value(s.drop_last()) + (s.last() as int - '0' as int)) as nat
    }
}

/// A text without a leading plus sign.
pub open spec fn without_plus(s: Seq<char>) -> Seq<char> {
    if s.len() > 0 && s[0] == '+' {
        s.drop_first()
    } else {
        s
    }
}

/// The number that a text stands for: decimal digits, at least one, perhaps with a plus sign
/// before them, whose value fits in 64 bits.
pub open spec fn parsed_number(s: Seq<char>) -> Option<u64> {
    let digits = without_plus(s);
    if digits.len() > 0 && all_digits(digits) && digits_value(digits) <= u64::MAX {
        Some(digits_value(digits) as u64)
    } else {
        None
    }
}

/// More digits make no smaller number.
proof fn lemma_digits_value_grows(s: Seq<char>, k: int)
    requires
        all_digits(s),
        0 <= k <= s.len(),
    ensures
        digits_value(s.take(k)) <= digits_value(s),
    decreases s.len() - k,
{
    if k == s.len() {
        assert(s.take(k) =~= s);
    } else {
        lemma_digits_value_grows(s, k + 1);
        assert(s.take(k + 1).drop_last() =~= s.take(k));
        assert(s.take(k + 1).last() == s[k]);
    }
}

/// Reads a number in decimal notation.
pub fn parse_number(s: &str) -> (r: Option<u64>)
    ensures
        r == parsed_number(s@),
{
    let chars = chars_of(s);
    let n: usize = chars.len();
    let start: usize = if n > 0 && chars[0] == '+' {
        1
    } else {
        0
    };
    let ghost digits = without_plus(s@);
    assert(digits =~= s@.skip(start as int));
    if start == n {
        return None;
    }
    let mut value: u64 = 0;
    let mut i: usize = start;
    assert(digits.take(0) =~= Seq::<char>::empty());
    while i < n
        invariant
            start <= i <= n,
            start <= 1,
            n == chars@.len(),
            chars@ == s@,
            start < n,
            digits == without_plus(s@),
            digits == s@.skip(start as int),
            forall|k: int| 0 <= k < i - start ==> '0' <= #[trigger] digits[k] <= '9',
            value == digits_value(digits.take(i - start)),
        decreases n - i,
    {
        let c = chars[i];
        assert(digits[i - start] == c);
        if c < '0' || '9' < c {
            return None;
        }
        let d: u64 = c as u64 - '0' as u64;
        proof {
            let next = digits.take(i - start + 1);
            assert(next.drop_last() =~= digits.take(i - start));
            assert(next.last() == c);
            assert(digits_value(next) == 10 * value + d);
        }
        if value > (u64::MAX - d) / 10 {
            proof {
                if all_digits(digits) {
                    lemma_digits_value_grows(digits, i - start + 1);
                }
            }
            return None;
        }
        value = 10 * value + d;
        i += 1;
    }
    assert(digits.take(n - start) =~= digits);
    Some(value)
}

/// How reading a number goes on: one digit is its value, a digit more makes ten times the number
/// and the digit, where that fits in 64 bits, and anything else is no number. A plus sign may
/// stand before the first digit.
pub proof fn law_number_digit_by_digit(s: Seq<char>, c: char)
    ensures
        parsed_number(Seq::empty()) is None,
        parsed_number(seq![c]) == if '0' <= c <= '9' {
            Some((c as int - '0' as int) as u64)
        } else {
            None
        },
        parsed_number(seq!['+', c]) == parsed_number(seq![c]),
        s.len() > 0 && s != seq!['+'] ==> parsed_number(s.push(c)) == match parsed_number(s) {
            Some(n) => if '0' <= c <= '9' && 10 * n + (c as int - '0' as int) <= u64::MAX {
                Some((10 * n + (c as int - '0' as int)) as u64)
            } else {
                None
            },
            None => None,
        },
{
    let none = Seq::<char>::empty();
    assert(digits_value(none) == 0);
    assert(seq![c].drop_last() =~= none);
    assert(seq![c].drop_first() =~= none);
    assert(seq!['+', c].drop_first() =~= seq![c]);
    assert(seq![c][0] == c);
    assert(seq![c].last() == c);
    if s.len() > 0 && s != seq!['+'] {
        let t = s.push(c);
        let d = without_plus(s);
        let e = without_plus(t);
        assert(e =~= d.push(c));
        assert(d.len() > 0) by {
            if d.len() == 0 {
                assert(s =~= seq!['+']);
            }
        }
        assert(e.drop_last() =~= d);
        assert(e.last() == c);
        assert(all_digits(e) <==> all_digits(d) && '0' <= c <= '9') by {
            if all_digits(e) {
                assert(e[d.len() as int] == c);
                assert forall|i: int| 0 <= i < d.len() implies '0' <= #[trigger] d[i] <= '9' by {
                    assert(e[i] == d[i]);
                }
            }
        }
    }
}

/// The decimal notation has no needless zero in front.
pub proof fn law_decimal_has_no_leading_zero(n: nat)
    ensures
        decimal_text(n).len() > 0,
        n > 0 ==> decimal_text(n)[0] != '0',
        n == 0 ==> decimal_text(n) == seq!['0'],
    decreases n,
{
    if n >= 10 {
        law_decimal_has_no_leading_zero(n / 10);
        assert(decimal_text(n)[0] == decimal_text(n / 10)[0]);
    } else {
        assert(digit(n as int) as int == '0' as int + n);
    }
}

/// A number comes back from its decimal notation.
pub proof fn law_number_round_trip(n: u64)
    ensures
        parsed_number(decimal_text(n as nat)) == Some(n),
{
    lemma_decimal_value(n as nat);
}

pub proof fn lemma_decimal_value(n: nat)
    ensures
        decimal_text(n).len() > 0,
        all_digits(decimal_text(n)),
        digits_value(decimal_text(n)) == n,
    decreases n,
{
    let s = decimal_text(n);
    if n < 10 {
        assert(s.drop_last() =~= Seq::<char>::empty());
        assert(digits_value(Seq::<char>::empty()) == 0);
    } else {
        lemma_decimal_value(n / 10);
        assert(s.drop_last() =~= decimal_text(n / 10));
    }
    assert(s.last() as int == '0' as int + n % 10);
}

} // verus!
