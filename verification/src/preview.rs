//! What is shown of a file: an image, a text or its first bytes.
use vstd::prelude::*;

use crate::paths;
use crate::text;

verus! {

/// How much of a text is shown.
pub const TEXT_LIMIT: usize = 65_536;

/// How much is read of a file: enough to tell whether more is left.
pub const HEAD_LIMIT: usize = 65_537;

/// How many bytes are shown of a file that is no text.
pub const HEX_LIMIT: usize = 1_024;

/// What is shown of a file.
pub enum PreviewKind {
    /// The address of an image.
    Image(String),
    Text { content: String, truncated: bool },
    Binary(String),
    Error(String),
}

/// A file and what is shown of it.
pub struct Preview {
    pub path: String,
    pub kind: PreviewKind,
}

/// What is shown of a file.
pub ghost enum Shown {
    Image(Seq<char>),
    Text(Seq<char>, bool),
    Binary(Seq<char>),
    Error(Seq<char>),
}

impl View for PreviewKind {
    type V = Shown;

    open spec fn view(&self) -> Shown {
        match *self {
            PreviewKind::Image(uri) => Shown::Image(uri@),
            PreviewKind::Text { content, truncated } => Shown::Text(content@, truncated),
            PreviewKind::Binary(dump) => Shown::Binary(dump@),
            PreviewKind::Error(message) => Shown::Error(message@),
        }
    }
}

// --------------------------------------------------------------------- images

/// A text in lower case.
pub uninterp spec fn lower_case(text: Seq<char>) -> Seq<char>;

/// Whether all characters of a text are ASCII characters.
pub open spec fn all_ascii(text: Seq<char>) -> bool {
    forall|i: int| 0 <= i < text.len() ==> (#[trigger] text[i]) as u32 <= 0x7f
}

/// An ASCII character in lower case.
pub open spec fn ascii_lower(c: char) -> char {
    if 'A' <= c <= 'Z' {
        (c as u32 + 32) as char
    } else {
        c
    }
}

/// A text in lower case: letter by letter where it is one of ASCII characters.
pub open spec fn lowered(text: Seq<char>) -> Seq<char> {
    if all_ascii(text) {
        text.map_values(|c: char| ascii_lower(c))
    } else {
        lower_case(text)
    }
}

/// `str::to_lowercase`: a text in lower case, as Unicode has it. Of ASCII
/// characters, each capital letter becomes its small letter, and the others stay.
#[verifier::external_body]
fn to_lower_case(text: &str) -> (lower: String)
    ensures
        lower@ == lower_case(text@),
        all_ascii(text@) ==> lower@ == text@.map_values(|c: char| ascii_lower(c)),
{
    text.to_lowercase()
}

/// Whether an extension, in lower case, is that of an image.
pub open spec fn names_image(extension: Seq<char>) -> bool {
    ||| extension == "png"@
    ||| extension == "jpg"@
    ||| extension == "jpeg"@
    ||| extension == "gif"@
    ||| extension == "bmp"@
    ||| extension == "webp"@
    ||| extension == "ico"@
    ||| extension == "tif"@
    ||| extension == "tiff"@
}

/// Whether an extension, in lower case, is that of an image.
pub fn is_image_extension(extension: &str) -> (result: bool)
    ensures
        result == names_image(extension@),
        result == (extension@ == "png"@ || extension@ == "jpg"@ || extension@ == "jpeg"@
            || extension@ == "gif"@ || extension@ == "bmp"@ || extension@ == "webp"@ || extension@
            == "ico"@ || extension@ == "tif"@ || extension@ == "tiff"@),
{
    text::same(extension, "png") || text::same(extension, "jpg") || text::same(extension, "jpeg")
        || text::same(extension, "gif") || text::same(extension, "bmp") || text::same(
        extension,
        "webp",
    ) || text::same(extension, "ico") || text::same(extension, "tif") || text::same(
        extension,
        "tiff",
    )
}

/// Whether a file is shown as an image, by its name.
pub open spec fn shows_image(path: Seq<char>) -> bool {
    paths::extension_of(path) is Some && names_image(lowered(paths::extension_of(path)->0))
}

/// Whether a file is shown as an image, by its name.
pub fn is_image(path: &str) -> (result: bool)
    ensures
        result == shows_image(path@),
{
    match paths::path_extension(path) {
        Some(extension) => {
            let lower = to_lower_case(extension.as_str());
            is_image_extension(lower.as_str())
        },
        None => false,
    }
}

// ---------------------------------------------------------------------- texts

/// What some bytes read as, with U+FFFD in the place of what is no text.
pub uninterp spec fn lossy_text(bytes: Seq<u8>) -> Seq<char>;

/// `String::from_utf8_lossy`: what some bytes read as, with U+FFFD in the place
/// of what is no text. Bytes that are valid UTF-8 read as what they encode.
#[verifier::external_body]
fn read_lossy(bytes: &[u8]) -> (text: String)
    ensures
        text@ == lossy_text(bytes@),
        vstd::utf8::valid_utf8(bytes@) ==> text@ == vstd::utf8::decode_utf8(bytes@),
{
    String::from_utf8_lossy(bytes).into_owned()
}

/// How many characters of a text stand for what could not be read.
pub open spec fn unreadable(text: Seq<char>) -> nat
    decreases text.len(),
{
    if text.len() == 0 {
        0
    } else {
        unreadable(text.drop_last()) + if text.last() == '\u{FFFD}' {
            1nat
        } else {
            0nat
        }
    }
}

/// Whether a text is one: no more than one character in a hundred could not be
/// read, as when the last one is cut in two.
pub open spec fn reads_as_text(text: Seq<char>) -> bool {
    unreadable(text) * 100 <= if text.len() == 0 {
        1
    } else {
        text.len()
    }
}

/// Whether a text is one, as far as it could be read.
pub fn is_readable(text: &str) -> (result: bool)
    ensures
        result == reads_as_text(text@),
{
    let chars = text::chars_of(text);
    let mut invalid: usize = 0;
    assert(text@.take(0) =~= Seq::<char>::empty());
    for i in 0..chars.len()
        invariant
            chars@ == text@,
            invalid == unreadable(text@.take(i as int)),
            invalid <= i,
    {
        assert(text@.take(i + 1).drop_last() =~= text@.take(i as int));
        if chars[i] == '\u{FFFD}' {
            invalid = invalid + 1;
        }
    }
    assert(text@.take(text@.len() as int) =~= text@);
    let count: u128 = if chars.len() == 0 {
        1
    } else {
        chars.len() as u128
    };
    (invalid as u128) * 100 <= count
}

/// The first bytes, as many as are wanted at most.
pub open spec fn at_most(bytes: Seq<u8>, wanted: int) -> Seq<u8> {
    if bytes.len() <= wanted {
        bytes
    } else {
        bytes.take(wanted)
    }
}

/// What is shown of a file, by its first bytes.
pub open spec fn classified(bytes: Seq<u8>) -> Shown {
    let head = at_most(bytes, TEXT_LIMIT as int);
    if !head.contains(0) && reads_as_text(lossy_text(head)) {
        Shown::Text(lossy_text(head), bytes.len() > TEXT_LIMIT)
    } else {
        Shown::Binary(dumped(at_most(head, HEX_LIMIT as int)))
    }
}

/// Tells what is shown of a file from its first bytes. Valid UTF-8 without bytes
/// of zero is shown as the text that it encodes.
pub fn classify(bytes: Vec<u8>) -> (kind: PreviewKind)
    ensures
        kind@ == classified(bytes@),
        ({
            let head = at_most(bytes@, TEXT_LIMIT as int);
            let words = vstd::utf8::decode_utf8(head);
            !head.contains(0) && vstd::utf8::valid_utf8(head) && unreadable(words) == 0 ==> kind@
                == Shown::Text(words, bytes@.len() > TEXT_LIMIT)
        }),
{
    let mut head = bytes;
    let truncated = head.len() > TEXT_LIMIT;
    if truncated {
        head.truncate(TEXT_LIMIT);
    }
    assert(head@ =~= at_most(bytes@, TEXT_LIMIT as int));
    let mut zero = false;
    for i in 0..head.len()
        invariant
            zero == head@.take(i as int).contains(0),
    {
        let ghost shorter = head@.take(i as int);
        let ghost longer = head@.take(i + 1);
        proof {
            assert(longer =~= shorter.push(head@[i as int]));
            assert(longer[i as int] == head@[i as int]);
            if shorter.contains(0) {
                let k = shorter.index_of(0);
                assert(longer[k] == 0);
            }
            if longer.contains(0) && head@[i as int] != 0 {
                let k = longer.index_of(0);
                assert(shorter[k] == 0);
            }
        }
        if head[i] == 0 {
            zero = true;
        }
    }
    assert(head@.take(head@.len() as int) =~= head@);
    if !zero {
        let content = read_lossy(head.as_slice());
        if is_readable(content.as_str()) {
            return PreviewKind::Text { content, truncated };
        }
    }
    if head.len() > HEX_LIMIT {
        head.truncate(HEX_LIMIT);
    }
    PreviewKind::Binary(hex_dump(head.as_slice()))
}

// ---------------------------------------------------------------------- bytes

/// A digit of a number in base sixteen.
pub open spec fn hex_digit(n: nat) -> char {
    if n < 10 {
        (48 + n) as char
    } else {
        (87 + n) as char
    }
}

/// A number in base sixteen, of some digits at least.
pub open spec fn hex_number(n: nat, width: nat) -> Seq<char>
    decreases n + width,
{
    if n < 16 && width <= 1 {
        seq![hex_digit(n)]
    } else {
        hex_number(
            n / 16,
            if width == 0 {
                0
            } else {
                (width - 1) as nat
            },
        ).push(hex_digit(n % 16))
    }
}

/// What is shown of a byte among sixteen: its number, or room for it.
pub open spec fn hex_column(chunk: Seq<u8>, j: int) -> Seq<char> {
    if j < chunk.len() {
        hex_number(chunk[j] as nat, 2) + " "@
    } else {
        "   "@
    }
}

/// What is shown of the first bytes of sixteen.
pub open spec fn hex_columns(chunk: Seq<u8>, count: nat) -> Seq<char>
    decreases count,
{
    if count == 0 {
        Seq::empty()
    } else {
        hex_columns(chunk, (count - 1) as nat) + hex_column(chunk, count - 1)
    }
}

/// The character that a byte stands for, where it can be shown.
pub open spec fn ascii(byte: u8) -> char {
    if 32 <= byte <= 126 {
        byte as char
    } else {
        '.'
    }
}

/// A line of up to sixteen bytes: where they stand, their numbers and their
/// characters.
pub open spec fn dump_line(at: nat, chunk: Seq<u8>) -> Seq<char> {
    hex_number(at, 8) + "  "@ + hex_columns(chunk, 16) + " "@ + chunk.map_values(
        |b: u8| ascii(b),
    ) + "\n"@
}

/// The bytes of a line.
pub open spec fn chunk_at(bytes: Seq<u8>, at: int) -> Seq<u8> {
    if at + 16 <= bytes.len() {
        bytes.subrange(at, at + 16)
    } else {
        bytes.subrange(at, bytes.len() as int)
    }
}

/// The lines of some bytes, from one on.
pub open spec fn dumped_from(bytes: Seq<u8>, at: nat) -> Seq<char>
    decreases bytes.len() + 16 - at,
{
    if at >= bytes.len() {
        Seq::empty()
    } else {
        dump_line(at, chunk_at(bytes, at as int)) + dumped_from(bytes, at + 16)
    }
}

/// The lines of some bytes.
pub open spec fn dumped(bytes: Seq<u8>) -> Seq<char> {
    dumped_from(bytes, 0)
}

/// Appends a number in base sixteen, of some digits at least.
fn push_hex(out: &mut String, n: usize, width: usize)
    ensures
        final(out)@ == old(out)@ + hex_number(n as nat, width as nat),
    decreases n + width,
{
    let digit: u8 = (n % 16) as u8;
    if n >= 16 || width > 1 {
        push_hex(
            out,
            n / 16,
            if width == 0 {
                0
            } else {
                width - 1
            },
        );
    }
    out.push(
        if digit < 10 {
            (48 + digit) as char
        } else {
            (87 + digit) as char
        },
    );
    assert(out@ =~= old(out)@ + hex_number(n as nat, width as nat));
}

/// Appends a line of up to sixteen bytes.
fn push_line(out: &mut String, at: usize, chunk: &[u8])
    requires
        chunk@.len() <= 16,
    ensures
        final(out)@ == old(out)@ + dump_line(at as nat, chunk@),
{
    let ghost start = out@;
    push_hex(out, at, 8);
    out.append("  ");
    let ghost head = start + hex_number(at as nat, 8) + "  "@;
    assert(out@ =~= head + hex_columns(chunk@, 0));
    for j in 0..16
        invariant
            out@ == head + hex_columns(chunk@, j as nat),
    {
        let ghost before = out@;
        if j < chunk.len() {
            push_hex(out, chunk[j] as usize, 2);
            out.append(" ");
        } else {
            out.append("   ");
        }
        assert(out@ =~= before + hex_column(chunk@, j as int));
        assert(out@ =~= head + hex_columns(chunk@, (j + 1) as nat));
    }
    out.append(" ");
    let ghost numbers = head + hex_columns(chunk@, 16) + " "@;
    let ghost letters = chunk@.map_values(|b: u8| ascii(b));
    assert(out@ =~= numbers + letters.take(0));
    for j in 0..chunk.len()
        invariant
            letters == chunk@.map_values(|b: u8| ascii(b)),
            out@ == numbers + letters.take(j as int),
    {
        let b = chunk[j];
        out.push(
            if 32 <= b && b <= 126 {
                b as char
            } else {
                '.'
            },
        );
        assert(out@ =~= numbers + letters.take(j + 1));
    }
    assert(letters.take(letters.len() as int) =~= letters);
    out.append("\n");
    assert(out@ =~= start + dump_line(at as nat, chunk@));
}

/// The lines of some bytes.
pub fn hex_dump(bytes: &[u8]) -> (out: String)
    ensures
        out@ == dumped(bytes@),
{
    let mut out = String::new();
    let mut at: usize = 0;
    assert(out@ + dumped_from(bytes@, 0) =~= dumped(bytes@));
    while at < bytes.len()
        invariant
            at <= bytes@.len(),
            out@ + dumped_from(bytes@, at as nat) == dumped(bytes@),
        decreases bytes@.len() - at,
    {
        let ghost before = out@;
        let end: usize = if bytes.len() - at >= 16 {
            at + 16
        } else {
            bytes.len()
        };
        push_line(&mut out, at, &bytes[at..end]);
        proof {
            let line = dump_line(at as nat, chunk_at(bytes@, at as int));
            assert(bytes@.subrange(at as int, end as int) =~= chunk_at(bytes@, at as int));
            assert(out@ =~= before + line);
            assert(before + (line + dumped_from(bytes@, (at + 16) as nat)) =~= (before + line)
                + dumped_from(bytes@, (at + 16) as nat));
            if end == bytes@.len() {
                assert(dumped_from(bytes@, (at + 16) as nat) =~= dumped_from(
                    bytes@,
                    end as nat,
                ));
            }
        }
        at = end;
    }
    assert(out@ + dumped_from(bytes@, at as nat) =~= out@);
    out
}

impl Preview {
    /// What is shown of a file, from its first bytes or from why they cannot be
    /// read. Of an image they are not looked at.
    pub fn load(path: &str, head: Result<Vec<u8>, String>) -> (preview: Preview)
        ensures
            preview.path@ == path@,
            preview.kind@ == if shows_image(path@) {
                Shown::Image("file://"@ + path@)
            } else {
                match head {
                    Ok(bytes) => classified(bytes@),
                    Err(message) => Shown::Error(message@),
                }
            },
    {
        let mut name = String::new();
        name.append(path);
        assert(name@ =~= path@);
        let kind = if is_image(path) {
            let mut uri = String::new();
            uri.append("file://");
            uri.append(path);
            assert(uri@ =~= "file://"@ + path@);
            PreviewKind::Image(uri)
        } else {
            match head {
                Ok(bytes) => classify(bytes),
                Err(message) => PreviewKind::Error(message),
            }
        };
        Preview { path: name, kind }
    }
}

} // verus!
