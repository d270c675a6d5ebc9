//! What is shown of the content of a file, told by places.
use vstd::prelude::*;

use crate::counting;
use crate::paths;
use crate::preview::{self, Shown};

verus! {

// ----------------------------------------------------------------------- bytes

/// A digit in base sixteen.
pub open spec fn nibble(n: int) -> char {
    "0123456789abcdef"@[n]
}

proof fn lemma_digit(n: nat)
    requires
        n < 16,
    ensures
        preview::hex_digit(n) == nibble(n as int),
{
    reveal_strlit("0123456789abcdef");
}

proof fn lemma_two_digits(n: nat)
    requires
        n < 256,
    ensures
        preview::hex_number(n, 2).len() == 2,
        preview::hex_number(n, 2)[0] == nibble(n as int / 16),
        preview::hex_number(n, 2)[1] == nibble(n as int % 16),
{
    reveal_with_fuel(preview::hex_number, 3);
    lemma_digit(n / 16);
    lemma_digit(n % 16);
}

proof fn lemma_digits_step(n: nat, width: nat)
    requires
        width > 1,
    ensures
        preview::hex_number(n, width) == preview::hex_number(n / 16, (width - 1) as nat).push(
            nibble(n as int % 16),
        ),
{
    lemma_digit(n % 16);
}

proof fn lemma_divided(n: nat)
    ensures
        n / 16 / 16 == n / 0x100,
        n / 16 / 16 / 16 == n / 0x1000,
        n / 16 / 16 / 16 / 16 == n / 0x1_0000,
        n / 16 / 16 / 16 / 16 / 16 == n / 0x10_0000,
        n / 16 / 16 / 16 / 16 / 16 / 16 == n / 0x100_0000,
        n / 16 / 16 / 16 / 16 / 16 / 16 / 16 == n / 0x1000_0000,
{
    let m = n as int;
    vstd::arithmetic::div_mod::lemma_div_denominator(m, 16, 16);
    vstd::arithmetic::div_mod::lemma_div_denominator(m, 0x100, 16);
    vstd::arithmetic::div_mod::lemma_div_denominator(m, 0x1000, 16);
    vstd::arithmetic::div_mod::lemma_div_denominator(m, 0x1_0000, 16);
    vstd::arithmetic::div_mod::lemma_div_denominator(m, 0x10_0000, 16);
    vstd::arithmetic::div_mod::lemma_div_denominator(m, 0x100_0000, 16);
}

proof fn lemma_digits_apart(n: nat, a: nat, b: nat, c: nat, d: nat, e: nat, f: nat, g: nat)
    requires
        a == n / 16,
        b == a / 16,
        c == b / 16,
        d == c / 16,
        e == d / 16,
        f == e / 16,
        g == f / 16,
        g < 16,
    ensures
        preview::hex_number(n, 8) == seq![
            nibble(g as int),
            nibble(f as int % 16),
            nibble(e as int % 16),
            nibble(d as int % 16),
            nibble(c as int % 16),
            nibble(b as int % 16),
            nibble(a as int % 16),
            nibble(n as int % 16),
        ],
{
    lemma_digits_step(n, 8);
    lemma_digits_step(a, 7);
    lemma_digits_step(b, 6);
    lemma_digits_step(c, 5);
    lemma_digits_step(d, 4);
    lemma_digits_step(e, 3);
    lemma_digits_step(f, 2);
    lemma_digit(g);
    assert(preview::hex_number(g, 1) == seq![nibble(g as int)]);
    assert(preview::hex_number(n, 8) =~= seq![
        nibble(g as int),
        nibble(f as int % 16),
        nibble(e as int % 16),
        nibble(d as int % 16),
        nibble(c as int % 16),
        nibble(b as int % 16),
        nibble(a as int % 16),
        nibble(n as int % 16),
    ]);
}

proof fn lemma_eight_digits(n: nat)
    requires
        n < 0x1_0000_0000,
    ensures
        preview::hex_number(n, 8) == seq![
            nibble(n as int / 0x1000_0000 % 16),
            nibble(n as int / 0x100_0000 % 16),
            nibble(n as int / 0x10_0000 % 16),
            nibble(n as int / 0x1_0000 % 16),
            nibble(n as int / 0x1000 % 16),
            nibble(n as int / 0x100 % 16),
            nibble(n as int / 0x10 % 16),
            nibble(n as int % 16),
        ],
{
    lemma_divided(n);
    lemma_digits_apart(
        n,
        n / 16,
        n / 0x100,
        n / 0x1000,
        n / 0x1_0000,
        n / 0x10_0000,
        n / 0x100_0000,
        n / 0x1000_0000,
    );
}

proof fn lemma_columns(chunk: Seq<u8>, count: nat)
    ensures
        preview::hex_columns(chunk, count).len() == 3 * count,
        forall|j: int| #![trigger chunk[j]]
            0 <= j < count && j < chunk.len() ==> {
                let columns = preview::hex_columns(chunk, count);
                &&& columns[3 * j] == nibble(chunk[j] as int / 16)
                &&& columns[3 * j + 1] == nibble(chunk[j] as int % 16)
                &&& columns[3 * j + 2] == ' '
            },
        forall|j: int|
            3 * chunk.len() <= j < 3 * count ==> #[trigger] preview::hex_columns(chunk, count)[j]
                == ' ',
    decreases count,
{
    reveal_strlit(" ");
    reveal_strlit("   ");
    if count > 0 {
        let before = preview::hex_columns(chunk, (count - 1) as nat);
        let columns = preview::hex_columns(chunk, count);
        lemma_columns(chunk, (count - 1) as nat);
        if count - 1 < chunk.len() {
            lemma_two_digits(chunk[count - 1] as nat);
        }
        assert forall|j: int| #![trigger chunk[j]] 0 <= j < count && j < chunk.len() implies {
            &&& columns[3 * j] == nibble(chunk[j] as int / 16)
            &&& columns[3 * j + 1] == nibble(chunk[j] as int % 16)
            &&& columns[3 * j + 2] == ' '
        } by {
            if j < count - 1 {
                assert(columns[3 * j] == before[3 * j]);
                assert(columns[3 * j + 1] == before[3 * j + 1]);
                assert(columns[3 * j + 2] == before[3 * j + 2]);
            } else {
                let column = preview::hex_column(chunk, j);
                assert(columns[3 * j] == column[0]);
                assert(columns[3 * j + 1] == column[1]);
                assert(columns[3 * j + 2] == column[2]);
            }
        }
        assert forall|j: int| 3 * chunk.len() <= j < 3 * count implies #[trigger] columns[j]
            == ' ' by {
            if j < before.len() {
                assert(columns[j] == before[j]);
            } else {
                assert(columns[j] == preview::hex_column(chunk, count - 1)[j - before.len()]);
            }
        }
    }
}

/// Whether a text shows, from a place on, where some bytes stand, their numbers and
/// their characters.
#[verifier::opaque]
pub open spec fn shows_line(text: Seq<char>, start: int, at: int, chunk: Seq<u8>) -> bool {
    &&& start + 60 + chunk.len() <= text.len()
    &&& text[start] == nibble(at / 0x1000_0000 % 16)
    &&& text[start + 1] == nibble(at / 0x100_0000 % 16)
    &&& text[start + 2] == nibble(at / 0x10_0000 % 16)
    &&& text[start + 3] == nibble(at / 0x1_0000 % 16)
    &&& text[start + 4] == nibble(at / 0x1000 % 16)
    &&& text[start + 5] == nibble(at / 0x100 % 16)
    &&& text[start + 6] == nibble(at / 0x10 % 16)
    &&& text[start + 7] == nibble(at % 16)
    &&& text[start + 8] == ' '
    &&& text[start + 9] == ' '
    &&& forall|j: int| #![trigger chunk[j]]
        0 <= j < chunk.len() ==> {
            &&& text[start + 10 + 3 * j] == nibble(chunk[j] as int / 16)
            &&& text[start + 11 + 3 * j] == nibble(chunk[j] as int % 16)
            &&& text[start + 12 + 3 * j] == ' '
            &&& text[start + 59 + j] == if 32 <= chunk[j] <= 126 {
                chunk[j] as char
            } else {
                '.'
            }
        }
    &&& forall|j: int| #![trigger text[start + j]]
        10 + 3 * chunk.len() <= j < 59 ==> text[start + j] == ' '
    &&& text[start + 59 + chunk.len()] == '\n'
}

proof fn lemma_line(at: nat, chunk: Seq<u8>)
    requires
        at < 0x1_0000_0000,
        chunk.len() <= 16,
    ensures
        preview::dump_line(at, chunk).len() == 60 + chunk.len(),
        shows_line(preview::dump_line(at, chunk), 0, at as int, chunk),
{
    reveal_strlit(" ");
    reveal_strlit("  ");
    reveal(shows_line);
    reveal_strlit("\n");
    lemma_eight_digits(at);
    lemma_columns(chunk, 16);
    let line = preview::dump_line(at, chunk);
    let columns = preview::hex_columns(chunk, 16);
    let letters = chunk.map_values(|b: u8| preview::ascii(b));
    assert forall|j: int| 0 <= j < 48 implies line[10 + j] == #[trigger] columns[j] by {}
    assert forall|j: int| #![trigger chunk[j]] 0 <= j < chunk.len() implies {
        &&& line[10 + 3 * j] == nibble(chunk[j] as int / 16)
        &&& line[11 + 3 * j] == nibble(chunk[j] as int % 16)
        &&& line[12 + 3 * j] == ' '
        &&& line[59 + j] == if 32 <= chunk[j] <= 126 {
            chunk[j] as char
        } else {
            '.'
        }
    } by {
        assert(line[10 + 3 * j] == columns[3 * j]);
        assert(line[10 + (3 * j + 1)] == columns[3 * j + 1]);
        assert(line[10 + (3 * j + 2)] == columns[3 * j + 2]);
        assert(line[59 + j] == letters[j]);
    }
    assert forall|j: int| #![trigger line[0 + j]] 10 + 3 * chunk.len() <= j < 59 implies line[0
        + j] == ' ' by {
        if j < 58 {
            assert(line[10 + (j - 10)] == columns[j - 10]);
        }
    }
}

proof fn lemma_shifted(before: Seq<char>, text: Seq<char>, start: int, at: int, chunk: Seq<u8>)
    requires
        0 <= start,
        chunk.len() <= 16,
        shows_line(text, start, at, chunk),
    ensures
        shows_line(before + text, before.len() + start, at, chunk),
{
    reveal(shows_line);
    let all = before + text;
    let s = before.len() + start;
    assert forall|j: int| #![trigger chunk[j]] 0 <= j < chunk.len() implies {
        &&& all[s + 10 + 3 * j] == nibble(chunk[j] as int / 16)
        &&& all[s + 11 + 3 * j] == nibble(chunk[j] as int % 16)
        &&& all[s + 12 + 3 * j] == ' '
        &&& all[s + 59 + j] == if 32 <= chunk[j] <= 126 {
            chunk[j] as char
        } else {
            '.'
        }
    } by {}
    assert forall|j: int| #![trigger all[s + j]] 10 + 3 * chunk.len() <= j < 59 implies all[s + j]
        == ' ' by {
        assert(all[s + j] == text[start + j]);
    }
}

proof fn lemma_prefixed(text: Seq<char>, more: Seq<char>, start: int, at: int, chunk: Seq<u8>)
    requires
        0 <= start,
        chunk.len() <= 16,
        shows_line(text, start, at, chunk),
    ensures
        shows_line(text + more, start, at, chunk),
{
    reveal(shows_line);
    let all = text + more;
    assert forall|j: int| #![trigger all[start + j]] 10 + 3 * chunk.len() <= j < 59 implies all[
    start + j] == ' ' by {
        assert(all[start + j] == text[start + j]);
    }
}

/// How many characters the lines of some bytes have.
pub open spec fn dump_length(count: int) -> int {
    76 * (count / 16) + if count % 16 == 0 {
        0
    } else {
        60 + count % 16
    }
}

/// The bytes of a line: sixteen, or those that are left.
pub open spec fn line_bytes(bytes: Seq<u8>, line: int) -> Seq<u8> {
    Seq::new(
        if 16 * line + 16 <= bytes.len() {
            16
        } else {
            (bytes.len() - 16 * line) as nat
        },
        |j: int| bytes[16 * line + j],
    )
}

proof fn lemma_one_line_less(count: int)
    requires
        count >= 16,
    ensures
        dump_length(count) == 76 + dump_length(count - 16),
{
    assert((count - 16) / 16 == count / 16 - 1);
    assert((count - 16) % 16 == count % 16);
}

proof fn lemma_dumped_length(bytes: Seq<u8>, at: nat)
    requires
        bytes.len() <= 0x1_0000_0000,
        at <= bytes.len(),
    ensures
        preview::dumped_from(bytes, at).len() == dump_length(bytes.len() - at),
    decreases bytes.len() - at,
{
    if at < bytes.len() {
        let chunk = preview::chunk_at(bytes, at as int);
        lemma_line(at, chunk);
        assert(preview::dumped_from(bytes, at) == preview::dump_line(at, chunk)
            + preview::dumped_from(bytes, at + 16));
        if at + 16 <= bytes.len() {
            lemma_dumped_length(bytes, at + 16);
            lemma_one_line_less(bytes.len() - at);
        }
    }
}

proof fn lemma_dumped_from(bytes: Seq<u8>, from: int, line: int)
    requires
        bytes.len() <= 0x1_0000_0000,
        0 <= from <= line,
        16 * line < bytes.len(),
    ensures
        shows_line(
            preview::dumped_from(bytes, (16 * from) as nat),
            76 * (line - from),
            16 * line,
            line_bytes(bytes, line),
        ),
    decreases line - from,
{
    let at = (16 * from) as nat;
    let chunk = preview::chunk_at(bytes, at as int);
    assert(chunk =~= line_bytes(bytes, from));
    let first = preview::dump_line(at, chunk);
    let more = preview::dumped_from(bytes, at + 16);
    lemma_line(at, chunk);
    assert(preview::dumped_from(bytes, at) == first + more);
    if from < line {
        assert(chunk.len() == 16);
        lemma_dumped_from(bytes, from + 1, line);
        assert((16 * (from + 1)) as nat == at + 16);
        lemma_shifted(first, more, 76 * (line - from - 1), 16 * line, line_bytes(bytes, line));
        assert(first.len() + 76 * (line - from - 1) == 76 * (line - from));
    } else {
        lemma_prefixed(first, more, 0, 16 * line, chunk);
    }
}

/// Each line of the bytes of a file shows its own sixteen bytes, or those that are
/// left, where they stand: the bytes of line `l` are those from `16 * l` on.
pub proof fn lemma_dump_lines(bytes: Seq<u8>, line: int)
    requires
        bytes.len() <= 0x1_0000_0000,
        0 <= line,
        16 * line < bytes.len(),
    ensures
        shows_line(preview::dumped(bytes), 76 * line, 16 * line, line_bytes(bytes, line)),
        preview::dumped(bytes).len() == dump_length(bytes.len() as int),
{
    lemma_dumped_from(bytes, 0, line);
    lemma_dumped_length(bytes, 0);
}

/// Each byte of a file is shown in its own place: in line `i / 16`, as two digits in
/// base sixteen and as a character.
pub proof fn lemma_dump_shows(bytes: Seq<u8>, i: int)
    requires
        0 <= i < bytes.len() <= 0x1_0000_0000,
    ensures
        ({
            let text = preview::dumped(bytes);
            let line = 76 * (i / 16);
            let column = i % 16;
            &&& line + 60 + column < text.len()
            &&& text[line + 10 + 3 * column] == "0123456789abcdef"@[bytes[i] as int / 16]
            &&& text[line + 11 + 3 * column] == "0123456789abcdef"@[bytes[i] as int % 16]
            &&& text[line + 12 + 3 * column] == ' '
            &&& text[line + 59 + column] == if 32 <= bytes[i] <= 126 {
                bytes[i] as char
            } else {
                '.'
            }
        }),
{
    reveal(shows_line);
    let line = i / 16;
    lemma_dump_lines(bytes, line);
    let chunk = line_bytes(bytes, line);
    assert(chunk[i % 16] == bytes[16 * line + i % 16]);
}

/// Nothing is shown of no bytes.
pub proof fn lemma_dump_empty()
    ensures
        preview::dumped(Seq::<u8>::empty()).len() == 0,
{
}

// ---------------------------------------------------------------------- texts

proof fn lemma_unreadable(text: Seq<char>)
    ensures
        preview::unreadable(text) == counting::count(
            text.len(),
            |i: int| text[i] == '\u{FFFD}',
        ),
    decreases text.len(),
{
    if text.len() > 0 {
        let rest = text.drop_last();
        lemma_unreadable(rest);
        counting::lemma_count_same(
            rest.len(),
            |i: int| rest[i] == '\u{FFFD}',
            |i: int| text[i] == '\u{FFFD}',
        );
    }
}

/// The first bytes of a file that are looked at.
pub open spec fn looked_at(bytes: Seq<u8>, most: int) -> Seq<u8> {
    Seq::new(
        if bytes.len() <= most {
            bytes.len()
        } else {
            most as nat
        },
        |i: int| bytes[i],
    )
}

/// A file is shown as a text where none of its first 65 536 bytes is zero and at most
/// one character in a hundred of what they read as could not be read; the text is then
/// what they read as, and it is said whether more follows. Of any other file the first
/// 1 024 bytes are shown.
pub proof fn lemma_shown_as(bytes: Seq<u8>)
    ensures
        ({
            let head = looked_at(bytes, 65_536);
            let words = preview::lossy_text(head);
            let wrong = counting::count(words.len(), |i: int| words[i] == '\u{FFFD}');
            let is_text = (forall|i: int| 0 <= i < head.len() ==> #[trigger] head[i] != 0) && (
            100 * wrong <= words.len() || wrong == 0);
            preview::classified(bytes) == if is_text {
                Shown::Text(words, bytes.len() > 65_536)
            } else {
                Shown::Binary(preview::dumped(looked_at(bytes, 1_024)))
            }
        }),
{
    let head = preview::at_most(bytes, preview::TEXT_LIMIT as int);
    assert(head =~= looked_at(bytes, 65_536));
    assert(preview::at_most(head, preview::HEX_LIMIT as int) =~= looked_at(bytes, 1_024));
    lemma_unreadable(preview::lossy_text(head));
    if !head.contains(0) {
        assert forall|i: int| 0 <= i < head.len() implies #[trigger] head[i] != 0 by {
            assert(head.contains(head[i]));
        }
    } else {
        assert(head[head.index_of(0)] == 0);
    }
}

/// Whether a text is one of those that name an image, letter by letter, small or
/// capital.
pub open spec fn spells(text: Seq<char>, small: Seq<char>) -> bool {
    &&& text.len() == small.len()
    &&& forall|i: int| #![trigger text[i]]
        0 <= i < text.len() ==> text[i] == small[i] || (('A' <= text[i] <= 'Z') && text[i] as u32
            + 32 == small[i] as u32)
}

proof fn lemma_lowered(text: Seq<char>, small: Seq<char>)
    requires
        preview::all_ascii(text),
        forall|i: int| 0 <= i < small.len() ==> 'a' <= #[trigger] small[i] <= 'z',
    ensures
        preview::lowered(text) == small <==> spells(text, small),
{
    let low = text.map_values(|c: char| preview::ascii_lower(c));
    if low == small {
        assert forall|i: int| #![trigger text[i]] 0 <= i < text.len() implies text[i] == small[i]
            || (('A' <= text[i] <= 'Z') && text[i] as u32 + 32 == small[i] as u32) by {
            assert(low[i] == preview::ascii_lower(text[i]));
        }
    }
    if spells(text, small) {
        assert forall|i: int| 0 <= i < text.len() implies #[trigger] low[i] == small[i] by {
            assert('a' <= small[i] <= 'z');
            assert(text[i] == text[i]);
        }
        assert(low =~= small);
    }
}

/// A file whose extension is of ASCII characters is shown as an image exactly where
/// the extension is one of nine, in small or capital letters.
pub proof fn lemma_images(path: Seq<char>)
    requires
        paths::extension_of(path) is Some,
        preview::all_ascii(paths::extension_of(path)->0),
    ensures
        ({
            let e = paths::extension_of(path)->0;
            preview::shows_image(path) <==> spells(e, "png"@) || spells(e, "jpg"@) || spells(
                e,
                "jpeg"@,
            ) || spells(e, "gif"@) || spells(e, "bmp"@) || spells(e, "webp"@) || spells(
                e,
                "ico"@,
            ) || spells(e, "tif"@) || spells(e, "tiff"@)
        }),
{
    reveal_strlit("png");
    reveal_strlit("jpg");
    reveal_strlit("jpeg");
    reveal_strlit("gif");
    reveal_strlit("bmp");
    reveal_strlit("webp");
    reveal_strlit("ico");
    reveal_strlit("tif");
    reveal_strlit("tiff");
    let e = paths::extension_of(path)->0;
    lemma_lowered(e, "png"@);
    lemma_lowered(e, "jpg"@);
    lemma_lowered(e, "jpeg"@);
    lemma_lowered(e, "gif"@);
    lemma_lowered(e, "bmp"@);
    lemma_lowered(e, "webp"@);
    lemma_lowered(e, "ico"@);
    lemma_lowered(e, "tif"@);
    lemma_lowered(e, "tiff"@);
}

} // verus!
