//! Text: splitting, comparing and building sequences of characters.
use vstd::prelude::*;

verus! {

/// `String::push` appends the character given.
pub assume_specification[ std::string::String::push ](s: &mut String, c: char)
    ensures
        final(s)@ == old(s)@.push(c),
;

/// The texts that a list of strings holds.
pub open spec fn texts(list: Seq<String>) -> Seq<Seq<char>> {
    list.map_values(|s: String| s@)
}

/// The characters of a text.
pub fn chars_of(text: &str) -> (chars: Vec<char>)
    ensures
        chars@ == text@,
{
    let mut chars: Vec<char> = Vec::new();
    for c in it: text.chars()
        invariant
            chars@ == text@.take(it.index() as int),
            it.seq() == text@,
    {
        chars.push(c);
        assert(chars@ =~= text@.take(it.index() as int + 1));
    }
    assert(text@.take(text@.len() as int) =~= text@);
    chars
}

/// The text made of some characters.
pub fn text_of(chars: &[char]) -> (text: String)
    ensures
        text@ == chars@,
{
    let mut text = String::new();
    for i in 0..chars.len()
        invariant
            text@ == chars@.take(i as int),
    {
        text.push(chars[i]);
        assert(text@ =~= chars@.take(i as int + 1));
    }
    assert(chars@.take(chars@.len() as int) =~= chars@);
    text
}

/// A copy of a list of strings.
pub fn clone_texts(list: &Vec<String>) -> (copy: Vec<String>)
    ensures
        texts(copy@) == texts(list@),
        copy@ == list@,
{
    let mut copy: Vec<String> = Vec::new();
    for i in 0..list.len()
        invariant
            copy@ == list@.take(i as int),
    {
        copy.push(list[i].clone());
        assert(copy@ =~= list@.take(i as int + 1));
    }
    assert(list@.take(list@.len() as int) =~= list@);
    copy
}

// ---------------------------------------------------------------- splitting

/// The pieces between the separators: one more than there are separators.
pub open spec fn split_on(text: Seq<char>, separator: char) -> Seq<Seq<char>>
    decreases text.len(),
{
    if text.len() == 0 {
        seq![Seq::<char>::empty()]
    } else {
        let before = split_on(text.drop_last(), separator);
        if text.last() == separator {
            before.push(Seq::empty())
        } else {
            before.drop_last().push(before.last().push(text.last()))
        }
    }
}

/// Splitting leaves at least one piece, and no separator in any piece.
pub proof fn lemma_split_pieces(text: Seq<char>, separator: char)
    ensures
        split_on(text, separator).len() >= 1,
        forall|i: int|
            0 <= i < split_on(text, separator).len() ==> !(#[trigger] split_on(
                text,
                separator,
            )[i]).contains(separator),
    decreases text.len(),
{
    if text.len() > 0 {
        lemma_split_pieces(text.drop_last(), separator);
        let before = split_on(text.drop_last(), separator);
        let pieces = split_on(text, separator);
        if text.last() != separator {
            let grown = before.last().push(text.last());
            assert(!grown.contains(separator)) by {
                if grown.contains(separator) {
                    let k = choose|k: int| 0 <= k < grown.len() && grown[k] == separator;
                    assert(k < before.last().len());
                    assert(before.last()[k] == separator);
                }
            }
            assert forall|i: int| 0 <= i < pieces.len() implies !(#[trigger] pieces[i]).contains(
                separator,
            ) by {
                if i < pieces.len() - 1 {
                    assert(pieces[i] == before[i]);
                }
            }
        } else {
            assert forall|i: int| 0 <= i < pieces.len() implies !(#[trigger] pieces[i]).contains(
                separator,
            ) by {
                if i < pieces.len() - 1 {
                    assert(pieces[i] == before[i]);
                }
            }
        }
    }
}

/// A text without separators is one piece.
pub proof fn lemma_split_single(text: Seq<char>, separator: char)
    requires
        !text.contains(separator),
    ensures
        split_on(text, separator) == seq![text],
    decreases text.len(),
{
    if text.len() == 0 {
        assert(text =~= Seq::<char>::empty());
    } else {
        assert(text.last() != separator);
        assert(!text.drop_last().contains(separator)) by {
            if text.drop_last().contains(separator) {
                let k = choose|k: int|
                    0 <= k < text.drop_last().len() && text.drop_last()[k] == separator;
                assert(text[k] == separator);
            }
        }
        lemma_split_single(text.drop_last(), separator);
        assert(split_on(text, separator) =~= seq![text]) by {
            assert(text.drop_last().push(text.last()) =~= text);
        }
    }
}

/// Appending a separator and a piece appends that piece.
pub proof fn lemma_split_append(text: Seq<char>, separator: char, piece: Seq<char>)
    requires
        !piece.contains(separator),
    ensures
        split_on(text.push(separator) + piece, separator) == split_on(text, separator).push(piece),
    decreases piece.len(),
{
    let whole = text.push(separator) + piece;
    if piece.len() == 0 {
        assert(whole =~= text.push(separator));
        assert(whole.drop_last() =~= text);
        assert(piece =~= Seq::<char>::empty());
    } else {
        assert(piece.last() != separator);
        assert(!piece.drop_last().contains(separator)) by {
            if piece.drop_last().contains(separator) {
                let k = choose|k: int|
                    0 <= k < piece.drop_last().len() && piece.drop_last()[k] == separator;
                assert(piece[k] == separator);
            }
        }
        lemma_split_append(text, separator, piece.drop_last());
        assert(whole.drop_last() =~= text.push(separator) + piece.drop_last());
        assert(piece.drop_last().push(piece.last()) =~= piece);
        assert(split_on(whole, separator) =~= split_on(text, separator).push(piece));
    }
}

/// The pieces of a text between the separators.
pub fn split(text: &str, separator: char) -> (pieces: Vec<String>)
    ensures
        texts(pieces@) == split_on(text@, separator),
{
    let chars = chars_of(text);
    let mut done: Vec<String> = Vec::new();
    let mut current = String::new();
    assert(text@.take(0) =~= Seq::<char>::empty());
    assert(texts(done@).push(current@) =~= split_on(text@.take(0), separator));
    for i in 0..chars.len()
        invariant
            chars@ == text@,
            texts(done@).push(current@) == split_on(text@.take(i as int), separator),
    {
        let ghost old_done = done@;
        let ghost old_current = current@;
        let c = chars[i];
        assert(text@.take(i as int + 1).drop_last() =~= text@.take(i as int));
        if c == separator {
            done.push(current);
            current = String::new();
            assert(texts(done@) =~= texts(old_done).push(old_current));
        } else {
            current.push(c);
            assert(texts(done@).push(old_current).drop_last() =~= texts(done@));
        }
    }
    let ghost last = current@;
    let ghost before = done@;
    done.push(current);
    assert(text@.take(text@.len() as int) =~= text@);
    assert(texts(done@) =~= texts(before).push(last));
    done
}

// ---------------------------------------------------------------- comparing

/// Whether the first text comes before the second, character by character.
pub open spec fn text_less(a: Seq<char>, b: Seq<char>) -> bool
    decreases a.len(),
{
    if b.len() == 0 {
        false
    } else if a.len() == 0 {
        true
    } else if a[0] != b[0] {
        a[0] < b[0]
    } else {
        text_less(a.drop_first(), b.drop_first())
    }
}

pub proof fn lemma_text_less_irreflexive(a: Seq<char>)
    ensures
        !text_less(a, a),
    decreases a.len(),
{
    if a.len() > 0 {
        lemma_text_less_irreflexive(a.drop_first());
    }
}

pub proof fn lemma_text_less_transitive(a: Seq<char>, b: Seq<char>, c: Seq<char>)
    requires
        text_less(a, b),
        text_less(b, c),
    ensures
        text_less(a, c),
    decreases a.len(),
{
    if a.len() > 0 && a[0] == b[0] && b[0] == c[0] {
        lemma_text_less_transitive(a.drop_first(), b.drop_first(), c.drop_first());
    }
}

pub proof fn lemma_text_less_total(a: Seq<char>, b: Seq<char>)
    ensures
        text_less(a, b) || text_less(b, a) || a == b,
    decreases a.len(),
{
    if a.len() > 0 && b.len() > 0 && a[0] == b[0] {
        lemma_text_less_total(a.drop_first(), b.drop_first());
        if a.drop_first() == b.drop_first() {
            assert(a =~= seq![a[0]] + a.drop_first());
            assert(b =~= seq![b[0]] + b.drop_first());
        }
    } else if a.len() == 0 && b.len() == 0 {
        assert(a =~= b);
    }
}

/// Whether the first text comes before the second.
pub fn less(a: &str, b: &str) -> (result: bool)
    ensures
        result == text_less(a@, b@),
{
    let x = chars_of(a);
    let y = chars_of(b);
    let mut i: usize = 0;
    assert(x@.skip(0) =~= x@ && y@.skip(0) =~= y@);
    while i < x.len() && i < y.len() && x[i] == y[i]
        invariant
            i <= x@.len(),
            i <= y@.len(),
            text_less(x@, y@) == text_less(x@.skip(i as int), y@.skip(i as int)),
        decreases x@.len() - i,
    {
        assert(x@.skip(i as int).drop_first() =~= x@.skip(i as int + 1));
        assert(y@.skip(i as int).drop_first() =~= y@.skip(i as int + 1));
        i = i + 1;
    }
    if i == y.len() {
        false
    } else if i == x.len() {
        true
    } else {
        x[i] < y[i]
    }
}

/// Whether two texts are the same.
pub fn same(a: &str, b: &str) -> (result: bool)
    ensures
        result == (a@ == b@),
{
    let x = chars_of(a);
    let y = chars_of(b);
    if x.len() != y.len() {
        return false;
    }
    for i in 0..x.len()
        invariant
            x@.len() == y@.len(),
            x@ == a@,
            y@ == b@,
            forall|j: int| 0 <= j < i ==> x@[j] == y@[j],
    {
        if x[i] != y[i] {
            assert(a@[i as int] != b@[i as int]);
            return false;
        }
    }
    assert(x@ =~= y@);
    true
}

/// Whether a text begins with another.
pub open spec fn begins_with(text: Seq<char>, start: Seq<char>) -> bool {
    start.len() <= text.len() && text.take(start.len() as int) == start
}

/// What follows the start, where the text begins with it.
pub fn after_start(text: &str, start: &str) -> (rest: Option<String>)
    ensures
        match rest {
            Some(r) => begins_with(text@, start@) && r@ == text@.skip(start@.len() as int),
            None => !begins_with(text@, start@),
        },
{
    let x = chars_of(text);
    let y = chars_of(start);
    if y.len() > x.len() {
        return None;
    }
    for i in 0..y.len()
        invariant
            y@.len() <= x@.len(),
            x@ == text@,
            y@ == start@,
            forall|j: int| 0 <= j < i ==> x@[j] == y@[j],
    {
        if x[i] != y[i] {
            assert(text@.take(start@.len() as int)[i as int] != start@[i as int]);
            return None;
        }
    }
    assert(text@.take(start@.len() as int) =~= start@);
    let rest = text_of(&x[y.len()..x.len()]);
    assert(rest@ =~= text@.skip(start@.len() as int));
    Some(rest)
}

// ------------------------------------------------------------------ building

/// A text with one character put in the place of another.
pub open spec fn replaced(text: Seq<char>, from: char, to: char) -> Seq<char> {
    text.map_values(|c: char| if c == from { to } else { c })
}

/// Puts one character in the place of another.
pub fn replace(text: &str, from: char, to: char) -> (result: String)
    ensures
        result@ == replaced(text@, from, to),
{
    let chars = chars_of(text);
    let mut result = String::new();
    for i in 0..chars.len()
        invariant
            chars@ == text@,
            result@ == replaced(text@.take(i as int), from, to),
    {
        result.push(if chars[i] == from { to } else { chars[i] });
        assert(result@ =~= replaced(text@.take(i as int + 1), from, to));
    }
    assert(text@.take(text@.len() as int) =~= text@);
    result
}

/// The decimal digit of a number below ten.
pub open spec fn digit(n: nat) -> char {
    (48 + n) as char
}

/// A number in decimal digits.
pub open spec fn decimal(n: nat) -> Seq<char>
    decreases n,
{
    if n < 10 {
        seq![digit(n)]
    } else {
        decimal(n / 10).push(digit(n % 10))
    }
}

/// Appends a number in decimal digits.
pub fn push_decimal(text: &mut String, n: u64)
    ensures
        final(text)@ == old(text)@ + decimal(n as nat),
    decreases n,
{
    if n >= 10 {
        push_decimal(text, n / 10);
    }
    let d: u8 = (n % 10) as u8;
    text.push((48 + d) as char);
    assert(text@ =~= old(text)@ + decimal(n as nat));
}

/// A number in decimal digits.
pub fn decimal_text(n: u64) -> (text: String)
    ensures
        text@ == decimal(n as nat),
{
    let mut text = String::new();
    push_decimal(&mut text, n);
    assert(text@ =~= decimal(n as nat));
    text
}

// ------------------------------------------------------------------ trimming

/// Whether a character is white space: whether it has the property `White_Space`
/// of Unicode.
pub open spec fn white_space(c: char) -> bool {
    ||| '\u{9}' <= c <= '\u{D}'
    ||| c == '\u{20}' || c == '\u{85}' || c == '\u{A0}' || c == '\u{1680}'
    ||| '\u{2000}' <= c <= '\u{200A}'
    ||| c == '\u{2028}' || c == '\u{2029}' || c == '\u{202F}' || c == '\u{205F}' || c == '\u{3000}'
}

/// `char::is_whitespace`: whether a character has the property `White_Space` of
/// Unicode.
pub assume_specification[ char::is_whitespace ](c: char) -> (space: bool)
    ensures
        space == white_space(c),
;

/// A text without the white space that it begins with.
pub open spec fn trimmed_start(text: Seq<char>) -> Seq<char>
    decreases text.len(),
{
    if text.len() > 0 && white_space(text[0]) {
        trimmed_start(text.drop_first())
    } else {
        text
    }
}

/// A text without the white space that it ends with.
pub open spec fn trimmed_end(text: Seq<char>) -> Seq<char>
    decreases text.len(),
{
    if text.len() > 0 && white_space(text.last()) {
        trimmed_end(text.drop_last())
    } else {
        text
    }
}

/// A text without the white space around it.
pub open spec fn trimmed(text: Seq<char>) -> Seq<char> {
    trimmed_end(trimmed_start(text))
}

/// A text without the white space around it.
pub fn trim(text: &str) -> (result: String)
    ensures
        result@ == trimmed(text@),
{
    let chars = chars_of(text);
    let mut start: usize = 0;
    assert(text@.skip(0) =~= text@);
    while start < chars.len() && chars[start].is_whitespace()
        invariant
            chars@ == text@,
            start <= chars@.len(),
            trimmed_start(text@) == trimmed_start(text@.skip(start as int)),
        decreases chars@.len() - start,
    {
        assert(text@.skip(start as int).drop_first() =~= text@.skip(start + 1));
        start = start + 1;
    }
    let ghost rest = text@.skip(start as int);
    let mut end: usize = chars.len();
    assert(text@.subrange(start as int, end as int) =~= rest);
    while end > start && chars[end - 1].is_whitespace()
        invariant
            chars@ == text@,
            start <= end <= chars@.len(),
            trimmed_end(rest) == trimmed_end(text@.subrange(start as int, end as int)),
        decreases end,
    {
        assert(text@.subrange(start as int, end as int).drop_last() =~= text@.subrange(
            start as int,
            end - 1,
        ));
        end = end - 1;
    }
    let result = text_of(&chars[start..end]);
    assert(result@ =~= text@.subrange(start as int, end as int));
    result
}

} // verus!
