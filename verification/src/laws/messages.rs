//! What is written to the wire is what is read off it.

use vstd::prelude::*;
use vstd::utf8::{
    char_is_scalar, encode_scalar, encode_utf8, is_ascii_chars, is_ascii_chars_encode_utf8,
};
use crate::text::{
    decimal, first_word, holds_letters, is_digit, is_trimmed, is_white, lemma_decimal,
    lemma_find_first, lemma_number_of_decimal, lemma_text_of, lower, same_letters, split_first, trim,
    trim_end, trim_start, white_from, Class,
};
use crate::wire::{
    body_length, head_from, head_text, header_block, header_line, headers_in, lemma_head_from,
    lemma_line_feed, line_bytes, line_feed, reason_text, request_bytes, request_in, request_line,
    response_bytes, response_in, status_line, value_of, ReadErrorView, RequestView, ResponseView,
};

verus! {

// ---------------------------------------------------------------------
// Bytes of text
// ---------------------------------------------------------------------

/// Text is encoded one part after the other.
pub proof fn lemma_encode_concat(a: Seq<char>, b: Seq<char>)
    ensures
        encode_utf8(a + b) == encode_utf8(a) + encode_utf8(b),
    decreases a.len(),
{
    if a.len() == 0 {
        assert(a + b =~= b);
        assert(encode_utf8(a) + encode_utf8(b) =~= encode_utf8(b));
    } else {
        lemma_encode_concat(a.drop_first(), b);
        assert((a + b).drop_first() =~= a.drop_first() + b);
        assert((a + b)[0] == a[0]);
        assert(encode_utf8(a + b) =~= encode_utf8(a) + encode_utf8(b));
    }
}

/// One character is one byte of its own value, or bytes that are no ASCII.
proof fn lemma_encode_char(c: char)
    ensures
        encode_scalar(c as u32).len() > 0,
        forall|i: int|
            0 <= i < encode_scalar(c as u32).len() ==> {
                ||| #[trigger] encode_scalar(c as u32)[i] >= 0x80
                ||| encode_scalar(c as u32)[i] == c as int
            },
{
    let s = c as u32;
    char_is_scalar(c);
    assert(s <= 0x7f ==> (s & 0x7F) as u8 == s as u8) by (bit_vector);
    assert((0xC0u8 | ((s >> 6) & 0x1F) as u8) >= 0x80) by (bit_vector);
    assert((0xE0u8 | ((s >> 12) & 0x0F) as u8) >= 0x80) by (bit_vector);
    assert((0xF0u8 | ((s >> 18) & 0x7) as u8) >= 0x80) by (bit_vector);
    assert((0x80u8 | (s & 0x3F) as u8) >= 0x80) by (bit_vector);
    assert((0x80u8 | ((s >> 6) & 0x3F) as u8) >= 0x80) by (bit_vector);
    assert((0x80u8 | ((s >> 12) & 0x3F) as u8) >= 0x80) by (bit_vector);
}

/// Whether a text can stand on one line.
pub open spec fn one_line(text: Seq<char>) -> bool {
    &&& forall|i: int| 0 <= i < text.len() ==> #[trigger] text[i] != '\n'
    &&& text.len() > 0 ==> text.last() != '\r'
}

/// A text without line feeds is bytes without line feeds.
proof fn lemma_encode_no_line_feed(text: Seq<char>)
    requires
        forall|i: int| 0 <= i < text.len() ==> #[trigger] text[i] != '\n',
    ensures
        forall|i: int|
            0 <= i < encode_utf8(text).len() ==> #[trigger] encode_utf8(text)[i] != 10,
    decreases text.len(),
{
    if text.len() > 0 {
        let first = encode_scalar(text[0] as u32);
        let rest = encode_utf8(text.drop_first());
        lemma_encode_char(text[0]);
        assert(text[0] != '\n');
        assert forall|i: int| 0 <= i < text.drop_first().len() implies #[trigger] text.drop_first()[i]
            != '\n' by {
            assert(text.drop_first()[i] == text[i + 1]);
        }
        lemma_encode_no_line_feed(text.drop_first());
        assert forall|i: int| 0 <= i < encode_utf8(text).len() implies #[trigger] encode_utf8(
            text,
        )[i] != 10 by {
            if i < first.len() {
                assert(encode_utf8(text)[i] == first[i]);
            } else {
                assert(encode_utf8(text)[i] == rest[i - first.len()]);
            }
        }
    }
}

/// A text that does not end in a carriage return is bytes that do not.
proof fn lemma_encode_last(text: Seq<char>)
    requires
        text.len() > 0,
        text.last() != '\r',
    ensures
        encode_utf8(text).len() > 0,
        encode_utf8(text).last() != 13,
{
    let c = text.last();
    assert(text =~= text.drop_last() + seq![c]);
    lemma_encode_concat(text.drop_last(), seq![c]);
    assert(seq![c].drop_first() =~= Seq::<char>::empty());
    assert(encode_utf8(seq![c]) =~= encode_scalar(c as u32)) by {
        assert(encode_utf8(Seq::<char>::empty()) =~= Seq::<u8>::empty());
        assert(seq![c][0] == c);
    }
    lemma_encode_char(c);
}

/// The end of a line.
proof fn lemma_line_end()
    ensures
        encode_utf8("\r\n"@) == seq![13u8, 10u8],
        "\r\n"@ == seq!['\r', '\n'],
{
    reveal_strlit("\r\n");
    assert("\r\n"@ =~= seq!['\r', '\n']);
    assert(is_ascii_chars("\r\n"@));
    is_ascii_chars_encode_utf8("\r\n"@);
    assert(encode_utf8("\r\n"@)[0] == "\r\n"@[0] as u8);
    assert(encode_utf8("\r\n"@)[1] == "\r\n"@[1] as u8);
    assert(encode_utf8("\r\n"@) =~= seq![13u8, 10u8]);
}

// ---------------------------------------------------------------------
// Lines
// ---------------------------------------------------------------------

/// Lines, each with its end.
pub open spec fn line_block(lines: Seq<Seq<char>>) -> Seq<char>
    decreases lines.len(),
{
    if lines.len() == 0 {
        Seq::empty()
    } else {
        lines[0] + "\r\n"@ + line_block(lines.skip(1))
    }
}

/// The first line feed is found where it stands.
proof fn lemma_line_feed_at(input: Seq<u8>, from: int, at: int)
    requires
        0 <= from <= at < input.len(),
        input[at] == 10,
        forall|j: int| from <= j < at ==> input[j] != 10,
    ensures
        line_feed(input, from) == Some(at),
    decreases at - from,
{
    if from < at {
        lemma_line_feed_at(input, from + 1, at);
    }
}

/// One line is found where it stands.
proof fn lemma_line_found(before: Seq<u8>, line: Seq<char>, after: Seq<u8>)
    requires
        one_line(line),
    ensures
        ({
            let bytes = encode_utf8(line);
            let input = before + bytes + seq![13u8, 10u8] + after;
            let at = before.len() as int;
            &&& line_feed(input, at) == Some(at + bytes.len() + 1)
            &&& line_bytes(input, at, at + bytes.len() + 1) == bytes
            &&& (bytes.len() == 0 <==> line.len() == 0)
        }),
{
    let bytes = encode_utf8(line);
    let input = before + bytes + seq![13u8, 10u8] + after;
    let at = before.len() as int;
    let end = at + bytes.len() + 1;
    lemma_encode_no_line_feed(line);
    assert forall|j: int| at <= j < end implies input[j] != 10 by {
        if j < end - 1 {
            assert(input[j] == bytes[j - at]);
        }
    }
    lemma_line_feed_at(input, at, end);
    assert(input[end - 1] == 13);
    assert(input.subrange(at, end - 1) =~= bytes);
    if line.len() > 0 {
        lemma_encode_last(line);
    }
}

/// Lines that are written, and a blank one after them, are the head that is
/// read, whatever stands before and after.
pub proof fn lemma_lines_found(before: Seq<u8>, lines: Seq<Seq<char>>, after: Seq<u8>)
    requires
        forall|i: int| 0 <= i < lines.len() ==> one_line(#[trigger] lines[i]) && lines[i].len() > 0,
    ensures
        head_from(
            before + encode_utf8(line_block(lines)) + seq![13u8, 10u8] + after,
            before.len() as int,
        ) == Some(
            (lines, (before.len() + encode_utf8(line_block(lines)).len() + 2) as int),
        ),
    decreases lines.len(),
{
    let end = seq![13u8, 10u8];
    let input = before + encode_utf8(line_block(lines)) + end + after;
    let at = before.len() as int;
    if lines.len() == 0 {
        let none = Seq::<char>::empty();
        assert(encode_utf8(none) =~= Seq::<u8>::empty());
        lemma_line_found(before, none, after);
        assert(input =~= before + encode_utf8(none) + end + after);
        assert(lines =~= Seq::empty());
    } else {
        let line = lines[0];
        let rest = lines.skip(1);
        let bytes = encode_utf8(line);
        let tail = encode_utf8(line_block(rest)) + end + after;
        assert(one_line(lines[0]) && lines[0].len() > 0);
        lemma_line_end();
        lemma_encode_concat(line + "\r\n"@, line_block(rest));
        lemma_encode_concat(line, "\r\n"@);
        assert(input =~= before + bytes + end + tail);
        lemma_line_found(before, line, tail);
        lemma_text_of(line);
        let next = before + bytes + end;
        assert(input =~= next + encode_utf8(line_block(rest)) + end + after);
        assert forall|i: int| 0 <= i < rest.len() implies one_line(#[trigger] rest[i])
            && rest[i].len() > 0 by {
            assert(rest[i] == lines[i + 1]);
        }
        lemma_lines_found(next, rest, after);
        assert(seq![line] + rest =~= lines);
        assert(next.len() == at + bytes.len() + 2);
    }
}

/// Blocks of lines stand one after the other.
proof fn lemma_line_block_concat(a: Seq<Seq<char>>, b: Seq<Seq<char>>)
    ensures
        line_block(a + b) == line_block(a) + line_block(b),
    decreases a.len(),
{
    if a.len() == 0 {
        assert(a + b =~= b);
        assert(line_block(a) + line_block(b) =~= line_block(b));
    } else {
        lemma_line_block_concat(a.skip(1), b);
        assert((a + b).skip(1) =~= a.skip(1) + b);
        assert((a + b)[0] == a[0]);
        assert(line_block(a + b) =~= line_block(a) + line_block(b));
    }
}

/// One line and its end.
proof fn lemma_line_block_one(line: Seq<char>)
    ensures
        line_block(seq![line]) == line + "\r\n"@,
{
    assert(seq![line].skip(1) =~= Seq::<Seq<char>>::empty());
    assert(line_block(seq![line].skip(1)) =~= Seq::<char>::empty());
    assert(line_block(seq![line]) =~= line + "\r\n"@);
}

// ---------------------------------------------------------------------
// Words
// ---------------------------------------------------------------------

/// Whether a text is one word.
pub open spec fn one_word(text: Seq<char>) -> bool {
    &&& text.len() > 0
    &&& forall|i: int| 0 <= i < text.len() ==> !is_white(#[trigger] text[i])
}

/// White space is found where it stands.
proof fn lemma_white_from(text: Seq<char>, from: int, at: int)
    requires
        0 <= from <= at <= text.len(),
        forall|i: int| from <= i < at ==> !is_white(#[trigger] text[i]),
        at < text.len() ==> is_white(text[at]),
    ensures
        white_from(text, from) == at,
    decreases at - from,
{
    if from < at {
        assert(!is_white(text[from]));
        lemma_white_from(text, from + 1, at);
    }
}

/// A word before white space is the first word.
proof fn lemma_first_word(word: Seq<char>, rest: Seq<char>)
    requires
        one_word(word),
        rest.len() > 0 ==> is_white(rest[0]),
    ensures
        first_word(word + rest) == Some((word, rest)),
        first_word(" "@ + word + rest) == Some((word, rest)),
{
    let text = word + rest;
    assert(!is_white(word[0]));
    assert(text[0] == word[0]);
    assert forall|i: int| 0 <= i < word.len() implies !is_white(#[trigger] text[i]) by {
        assert(text[i] == word[i]);
    }
    if rest.len() > 0 {
        assert(text[word.len() as int] == rest[0]);
    }
    lemma_white_from(text, 0, word.len() as int);
    assert(text.take(word.len() as int) =~= word);
    assert(text.skip(word.len() as int) =~= rest);
    reveal_strlit(" ");
    let spaced = " "@ + word + rest;
    assert(spaced[0] == ' ');
    assert(spaced.drop_first() =~= text);
    assert(trim_start(text, Class::White) == text);
    assert(trim_start(spaced, Class::White) == trim_start(text, Class::White));
}

/// Digits are a word.
proof fn lemma_decimal_word(n: nat)
    ensures
        one_word(decimal(n)),
{
    lemma_decimal(n);
    assert forall|i: int| 0 <= i < decimal(n).len() implies !is_white(#[trigger] decimal(n)[i]) by {
        assert(is_digit(decimal(n)[i]));
    }
}

// ---------------------------------------------------------------------
// Headers
// ---------------------------------------------------------------------

/// Whether a header can be written: a name and a value that each stand on one
/// line with no white space around them, and no colon in the name.
pub open spec fn fit_header(header: (Seq<char>, Seq<char>)) -> bool {
    &&& is_trimmed(header.0, Class::White)
    &&& is_trimmed(header.1, Class::White)
    &&& forall|i: int|
        0 <= i < header.0.len() ==> #[trigger] header.0[i] != ':' && header.0[i] != '\n'
    &&& forall|i: int| 0 <= i < header.1.len() ==> #[trigger] header.1[i] != '\n'
}

/// Whether every header of a run can be written.
pub open spec fn fit_headers(headers: Seq<(Seq<char>, Seq<char>)>) -> bool {
    forall|i: int| 0 <= i < headers.len() ==> fit_header(#[trigger] headers[i])
}

/// The line that writes a header.
pub open spec fn line_of(header: (Seq<char>, Seq<char>)) -> Seq<char> {
    header.0 + ": "@ + header.1
}

/// The lines that write a run of headers.
pub open spec fn lines_of(headers: Seq<(Seq<char>, Seq<char>)>) -> Seq<Seq<char>> {
    headers.map_values(|h: (Seq<char>, Seq<char>)| line_of(h))
}

/// Text that needs no trimming is not changed by it.
proof fn lemma_trimmed(text: Seq<char>)
    requires
        is_trimmed(text, Class::White),
    ensures
        trim(text, Class::White) == text,
        trim(" "@ + text, Class::White) == text,
{
    reveal_strlit(" ");
    let spaced = " "@ + text;
    assert(spaced[0] == ' ');
    assert(spaced.drop_first() =~= text);
    assert(trim_start(text, Class::White) == text);
    assert(trim_end(text, Class::White) == text);
    assert(trim_start(spaced, Class::White) == trim_start(text, Class::White));
}

/// A header that is written is the header that is read.
proof fn lemma_header_read(header: (Seq<char>, Seq<char>))
    requires
        fit_header(header),
    ensures
        one_line(line_of(header)),
        line_of(header).len() > 0,
        split_first(line_of(header), ':') == Some((header.0, " "@ + header.1)),
{
    let (name, value) = header;
    let line = line_of(header);
    reveal_strlit(": ");
    reveal_strlit(" ");
    let at = name.len() as int;
    assert(line[at] == ':');
    assert forall|j: int| 0 <= j < at implies line[j] != ':' by {
        assert(line[j] == name[j]);
    }
    lemma_find_first(line, ':', 0, at);
    assert(line.take(at) =~= name);
    assert(line.skip(at + 1) =~= " "@ + value);
    assert forall|i: int| 0 <= i < line.len() implies #[trigger] line[i] != '\n' by {
        if i < at {
            assert(line[i] == name[i]);
        } else if i >= at + 2 {
            assert(line[i] == value[i - at - 2]);
        }
    }
    if value.len() > 0 {
        assert(line.last() == value.last());
    } else {
        assert(line.last() == ' ');
    }
}

/// Headers that are written are the headers that are read.
proof fn lemma_headers_read(headers: Seq<(Seq<char>, Seq<char>)>)
    requires
        fit_headers(headers),
    ensures
        headers_in(lines_of(headers)) == headers,
    decreases headers.len(),
{
    if headers.len() > 0 {
        let rest = headers.drop_last();
        let (name, value) = headers.last();
        assert forall|i: int| 0 <= i < rest.len() implies fit_header(#[trigger] rest[i]) by {
            assert(rest[i] == headers[i]);
        }
        lemma_headers_read(rest);
        assert(fit_header(headers[headers.len() - 1]));
        assert(lines_of(headers).drop_last() =~= lines_of(rest));
        assert(lines_of(headers).last() == line_of(headers.last()));
        lemma_header_read(headers.last());
        lemma_trimmed(name);
        lemma_trimmed(value);
        assert(rest.push((name, value)) =~= headers);
    } else {
        assert(lines_of(headers) =~= Seq::empty());
        assert(headers =~= Seq::empty());
    }
}

/// The block of headers is the block of their lines.
proof fn lemma_header_block(headers: Seq<(Seq<char>, Seq<char>)>)
    ensures
        header_block(headers) == line_block(lines_of(headers)),
    decreases headers.len(),
{
    if headers.len() > 0 {
        let rest = headers.drop_last();
        let line = line_of(headers.last());
        lemma_header_block(rest);
        assert(lines_of(headers) =~= lines_of(rest) + seq![line]);
        lemma_line_block_concat(lines_of(rest), seq![line]);
        lemma_line_block_one(line);
        assert(header_line(headers.last()) =~= line + "\r\n"@);
    } else {
        assert(lines_of(headers) =~= Seq::empty());
    }
}

/// A header after others is found where none of them has its name.
pub proof fn lemma_value_concat(
    a: Seq<(Seq<char>, Seq<char>)>,
    b: Seq<(Seq<char>, Seq<char>)>,
    name: Seq<char>,
)
    ensures
        value_of(a + b, name) == match value_of(a, name) {
            Some(value) => Some(value),
            None => value_of(b, name),
        },
    decreases a.len(),
{
    if a.len() == 0 {
        assert(a + b =~= b);
    } else {
        lemma_value_concat(a.skip(1), b, name);
        assert((a + b).skip(1) =~= a.skip(1) + b);
        assert((a + b)[0] == a[0]);
    }
}

// ---------------------------------------------------------------------
// Messages
// ---------------------------------------------------------------------

/// The headers of a message as they stand on the wire, its length last.
pub open spec fn with_length(headers: Seq<(Seq<char>, Seq<char>)>, length: nat) -> Seq<
    (Seq<char>, Seq<char>),
> {
    headers.push(("Content-Length"@, decimal(length)))
}

/// Whether these headers leave the length of the body to the one that is
/// written after them.
pub open spec fn leave_length(headers: Seq<(Seq<char>, Seq<char>)>) -> bool {
    &&& value_of(headers, "content-length"@) is None
    &&& value_of(headers, "transfer-encoding"@) matches Some(coding) ==> !holds_letters(
        coding,
        "chunked"@,
    )
}

/// The length that is written is a header like any other.
proof fn lemma_length_header(length: nat)
    ensures
        fit_header(("Content-Length"@, decimal(length))),
        same_letters("Content-Length"@, "content-length"@),
        !same_letters("Content-Length"@, "transfer-encoding"@),
        "Content-Length"@ + ": "@ == "Content-Length: "@,
{
    reveal_strlit("Content-Length");
    reveal_strlit("content-length");
    reveal_strlit("transfer-encoding");
    reveal_strlit("Content-Length: ");
    reveal_strlit(": ");
    lemma_decimal(length);
    let digits = decimal(length);
    assert(is_digit(digits[0]));
    assert(is_digit(digits[digits.len() - 1]));
    assert forall|i: int| 0 <= i < digits.len() implies #[trigger] digits[i] != '\n' by {
        assert(is_digit(digits[i]));
    }
    assert("Content-Length"@ + ": "@ =~= "Content-Length: "@);
}

/// The length that is written is the length that is read.
proof fn lemma_length_read(headers: Seq<(Seq<char>, Seq<char>)>, length: nat, limit: nat)
    requires
        leave_length(headers),
        length <= limit,
        length <= usize::MAX,
    ensures
        body_length(with_length(headers, length), limit) == Ok::<nat, crate::error::ErrorView>(
            length,
        ),
        value_of(with_length(headers, length), "content-length"@) is Some,
{
    let last = seq![("Content-Length"@, decimal(length))];
    assert(with_length(headers, length) =~= headers + last);
    lemma_length_header(length);
    lemma_value_concat(headers, last, "content-length"@);
    lemma_value_concat(headers, last, "transfer-encoding"@);
    assert(last.skip(1) =~= Seq::empty());
    assert(value_of(last.skip(1), "transfer-encoding"@) is None);
    assert(value_of(last, "content-length"@) == Some(decimal(length)));
    lemma_number_of_decimal(length, usize::MAX as nat);
}

/// The head that is written is the head that is read, whatever follows.
proof fn lemma_head_read(
    first: Seq<char>,
    headers: Seq<(Seq<char>, Seq<char>)>,
    length: nat,
    after: Seq<u8>,
)
    requires
        one_line(first),
        first.len() > 0,
        fit_headers(headers),
    ensures
        ({
            let head = encode_utf8(head_text(first, headers, length));
            let lines = seq![first] + lines_of(with_length(headers, length));
            &&& head_from(head + after, 0) == Some((lines, head.len() as int))
            &&& headers_in(lines.skip(1)) == with_length(headers, length)
        }),
{
    let text = head_text(first, headers, length);
    let all = with_length(headers, length);
    let last = ("Content-Length"@, decimal(length));
    let lines = seq![first] + lines_of(all);
    lemma_length_header(length);
    assert forall|i: int| 0 <= i < all.len() implies fit_header(#[trigger] all[i]) by {
        if i < headers.len() {
            assert(all[i] == headers[i]);
        }
    }
    assert forall|i: int| 0 <= i < lines.len() implies one_line(#[trigger] lines[i])
        && lines[i].len() > 0 by {
        if i > 0 {
            assert(lines[i] == line_of(all[i - 1]));
            lemma_header_read(all[i - 1]);
        }
    }
    lemma_line_block_concat(seq![first], lines_of(all));
    lemma_line_block_one(first);
    assert(lines_of(all) =~= lines_of(headers) + seq![line_of(last)]);
    lemma_line_block_concat(lines_of(headers), seq![line_of(last)]);
    lemma_line_block_one(line_of(last));
    lemma_header_block(headers);
    reveal_strlit("\r\n");
    reveal_strlit("\r\n\r\n");
    assert("\r\n\r\n"@ =~= "\r\n"@ + "\r\n"@);
    assert(text =~= line_block(lines) + "\r\n"@);
    lemma_encode_concat(line_block(lines), "\r\n"@);
    lemma_line_end();
    let none = Seq::<u8>::empty();
    lemma_lines_found(none, lines, after);
    assert(none + encode_utf8(line_block(lines)) + seq![13u8, 10u8] + after =~= encode_utf8(text)
        + after);
    assert(lines.skip(1) =~= lines_of(all));
    lemma_headers_read(all);
}

/// Whether a request can be written: a method and a path that are one word
/// each, headers that can be written, and a host that can.
pub open spec fn fit_request(authority: Seq<char>, request: RequestView) -> bool {
    &&& one_word(request.method)
    &&& one_word(request.path)
    &&& fit_header(("Host"@, authority))
    &&& fit_headers(request.headers)
    &&& leave_length(request.headers)
}

/// A request as it stands on the wire: the host before its headers, the
/// length of its body after them.
pub open spec fn on_the_wire(authority: Seq<char>, request: RequestView) -> RequestView {
    RequestView {
        headers: with_length(
            seq![("Host"@, authority)] + request.headers,
            request.body.len(),
        ),
        ..request
    }
}

/// The line that a request starts with.
proof fn lemma_request_line(method: Seq<char>, path: Seq<char>)
    requires
        one_word(method),
        one_word(path),
    ensures
        ({
            let line = method + " "@ + path + " HTTP/1.1"@;
            &&& one_line(line)
            &&& line.len() > 0
            &&& request_line(line) == Some((method, path))
        }),
{
    let line = method + " "@ + path + " HTTP/1.1"@;
    reveal_strlit(" ");
    reveal_strlit(" HTTP/1.1");
    let rest = " "@ + path + " HTTP/1.1"@;
    assert(line =~= method + rest);
    assert(rest[0] == ' ');
    lemma_first_word(method, rest);
    lemma_first_word(path, " HTTP/1.1"@);
    reveal_strlit("HTTP/1.1");
    let none = Seq::<char>::empty();
    assert(one_word("HTTP/1.1"@));
    lemma_first_word("HTTP/1.1"@, none);
    assert(" HTTP/1.1"@ =~= " "@ + "HTTP/1.1"@ + none);
    assert(first_word(none) is None);
    assert forall|i: int| 0 <= i < line.len() implies #[trigger] line[i] != '\n' by {
        let n = method.len() as int;
        let m = path.len() as int;
        if i < n {
            assert(line[i] == method[i]);
            assert(!is_white(method[i]));
        } else if n < i < n + 1 + m {
            assert(line[i] == path[i - n - 1]);
            assert(!is_white(path[i - n - 1]));
        } else if i > n + m {
            assert(line[i] == " HTTP/1.1"@[i - n - 1 - m]);
        }
    }
    assert(line.last() == '1');
}

/// Where a request's host stands among its headers.
proof fn lemma_host(authority: Seq<char>, request: RequestView)
    requires
        fit_request(authority, request),
    ensures
        fit_headers(seq![("Host"@, authority)] + request.headers),
        leave_length(seq![("Host"@, authority)] + request.headers),
{
    let host = seq![("Host"@, authority)];
    let all = host + request.headers;
    assert forall|i: int| 0 <= i < all.len() implies fit_header(#[trigger] all[i]) by {
        if i > 0 {
            assert(all[i] == request.headers[i - 1]);
        }
    }
    reveal_strlit("Host");
    reveal_strlit("content-length");
    reveal_strlit("transfer-encoding");
    lemma_value_concat(host, request.headers, "content-length"@);
    lemma_value_concat(host, request.headers, "transfer-encoding"@);
    assert(host.skip(1) =~= Seq::empty());
    assert(value_of(host.skip(1), "content-length"@) is None);
    assert(value_of(host.skip(1), "transfer-encoding"@) is None);
}

/// A request that is written is the request that is read, byte for byte of
/// its body, and what follows it is left alone.
pub proof fn law_request_round_trip(
    authority: Seq<char>,
    request: RequestView,
    rest: Seq<u8>,
    limit: nat,
)
    requires
        fit_request(authority, request),
        request.body.len() <= limit,
        request.body.len() <= usize::MAX,
    ensures
        request_in(request_bytes(authority, request) + rest, limit) == Ok::<
            Option<(RequestView, int)>,
            ReadErrorView,
        >(
            Some(
                (
                    on_the_wire(authority, request),
                    request_bytes(authority, request).len() as int,
                ),
            ),
        ),
{
    let written = request_bytes(authority, request);
    let length = request.body.len();
    let line = request.method + " "@ + request.path + " HTTP/1.1"@;
    let host = ("Host"@, authority);
    let headers = seq![host] + request.headers;
    lemma_request_line(request.method, request.path);
    lemma_host(authority, request);
    let first = request.method + " "@ + request.path + " HTTP/1.1\r\nHost: "@ + authority;
    assert(head_text(line, headers, length) == head_text(first, request.headers, length)) by {
        lemma_header_block(headers);
        lemma_header_block(request.headers);
        assert(lines_of(headers) =~= seq![line_of(host)] + lines_of(request.headers));
        lemma_line_block_concat(seq![line_of(host)], lines_of(request.headers));
        lemma_line_block_one(line_of(host));
        reveal_strlit(" HTTP/1.1\r\nHost: ");
        reveal_strlit(" HTTP/1.1");
        reveal_strlit("\r\n");
        reveal_strlit("Host");
        reveal_strlit(": ");
        assert(" HTTP/1.1\r\nHost: "@ =~= " HTTP/1.1"@ + "\r\n"@ + "Host"@ + ": "@);
        assert(line + "\r\n"@ + header_block(headers) =~= first + "\r\n"@ + header_block(
            request.headers,
        ));
    }
    let head = encode_utf8(head_text(line, headers, length));
    lemma_head_read(line, headers, length, request.body + rest);
    assert(head + (request.body + rest) =~= written + rest);
    let lines = seq![line] + lines_of(with_length(headers, length));
    assert(lines[0] == line);
    lemma_length_read(headers, length, limit);
    let at = head.len() as int;
    assert((written + rest).subrange(at, at + length) =~= request.body);
}

/// The line that a response starts with.
proof fn lemma_status_line(status: u16)
    ensures
        ({
            let line = "HTTP/1.1 "@ + decimal(status as nat) + " "@ + reason_text(status);
            &&& one_line(line)
            &&& line.len() > 0
            &&& status_line(line) == Some(status as nat)
        }),
{
    let digits = decimal(status as nat);
    let reason = reason_text(status);
    let line = "HTTP/1.1 "@ + digits + " "@ + reason;
    reveal_strlit("HTTP/1.1 ");
    reveal_strlit("HTTP/1.1");
    reveal_strlit(" ");
    lemma_decimal_word(status as nat);
    let name = "HTTP/1.1"@;
    assert("HTTP/1.1 "@ =~= name + " "@);
    let rest = " "@ + digits + (" "@ + reason);
    assert(line =~= name + rest);
    assert(rest[0] == ' ');
    lemma_first_word(name, rest);
    assert((" "@ + reason)[0] == ' ');
    lemma_first_word(digits, " "@ + reason);
    lemma_number_of_decimal(status as nat, u16::MAX as nat);
    lemma_reason(status);
    assert forall|i: int| 0 <= i < line.len() implies #[trigger] line[i] != '\n' by {
        let n = digits.len() as int;
        if i < 9 {
            assert(line[i] == "HTTP/1.1 "@[i]);
        } else if i < 9 + n {
            assert(line[i] == digits[i - 9]);
            assert(!is_white(digits[i - 9]));
        } else if i > 9 + n {
            assert(line[i] == reason[i - 10 - n]);
        }
    }
    assert(line.last() == reason.last());
}

/// The phrase of a status stands on one line.
proof fn lemma_reason(status: u16)
    ensures
        reason_text(status).len() > 0,
        one_line(reason_text(status)),
{
    reveal_strlit("OK");
    reveal_strlit("Created");
    reveal_strlit("No Content");
    reveal_strlit("Multi-Status");
    reveal_strlit("Bad Request");
    reveal_strlit("Forbidden");
    reveal_strlit("Not Found");
    reveal_strlit("Method Not Allowed");
    reveal_strlit("Conflict");
    reveal_strlit("Locked");
    reveal_strlit("Unknown");
}

/// Whether a response can be written: headers that can, and no body where
/// its status announces none.
pub open spec fn fit_response(response: ResponseView) -> bool {
    &&& fit_headers(response.headers)
    &&& leave_length(response.headers)
    &&& response.status == 204 || response.status == 304 ==> response.body.len() == 0
}

/// A response as it stands on the wire: the length of its body after its
/// headers.
pub open spec fn answer_on_the_wire(response: ResponseView) -> ResponseView {
    ResponseView { headers: with_length(response.headers, response.body.len()), ..response }
}

/// A response that is written is the response that is read, byte for byte of
/// its body, and what follows it is left alone.
pub proof fn law_response_round_trip(response: ResponseView, rest: Seq<u8>, limit: nat)
    requires
        fit_response(response),
        response.body.len() <= limit,
        response.body.len() <= usize::MAX,
    ensures
        response_in(response_bytes(response) + rest, limit) == Ok::<
            (ResponseView, int),
            ReadErrorView,
        >((answer_on_the_wire(response), response_bytes(response).len() as int)),
{
    let written = response_bytes(response);
    let length = response.body.len();
    let line = "HTTP/1.1 "@ + decimal(response.status as nat) + " "@ + reason_text(
        response.status,
    );
    lemma_status_line(response.status);
    let head = encode_utf8(head_text(line, response.headers, length));
    lemma_head_read(line, response.headers, length, response.body + rest);
    assert(head + (response.body + rest) =~= written + rest);
    let lines = seq![line] + lines_of(with_length(response.headers, length));
    assert(lines[0] == line);
    lemma_length_read(response.headers, length, limit);
    let at = head.len() as int;
    assert((written + rest).subrange(at, at + length) =~= response.body);
}

// ---------------------------------------------------------------------
// Messages that arrive in parts
// ---------------------------------------------------------------------

/// A line feed stays where it was found, whatever comes after.
proof fn lemma_line_feed_stays(input: Seq<u8>, rest: Seq<u8>, from: int)
    requires
        line_feed(input, from) is Some,
    ensures
        line_feed(input + rest, from) == line_feed(input, from),
    decreases input.len() - from,
{
    assert((input + rest)[from] == input[from]);
    if input[from] != 10 {
        lemma_line_feed_stays(input, rest, from + 1);
    }
}

/// A head stays what it was, whatever comes after.
proof fn lemma_head_stays(input: Seq<u8>, rest: Seq<u8>, from: int)
    requires
        head_from(input, from) is Some,
    ensures
        head_from(input + rest, from) == head_from(input, from),
    decreases input.len() - from,
{
    lemma_line_feed(input, from);
    lemma_line_feed_stays(input, rest, from);
    let end = line_feed(input, from)->0;
    assert(line_bytes(input + rest, from, end) =~= line_bytes(input, from, end));
    if line_bytes(input, from, end).len() > 0 {
        lemma_head_stays(input, rest, end + 1);
    }
}

/// Whether a request was read as a PUT that announces no length, nothing
/// following its head.
pub open spec fn bare_put(input: Seq<u8>, limit: nat) -> bool {
    request_in(input, limit) matches Ok(Some(found)) && found.0.method == "PUT"@ && value_of(
        found.0.headers,
        "content-length"@,
    ) is None
}

/// A request that was read, or refused, stays so whatever comes after it:
/// more bytes change the answer only where they were asked for. A PUT that
/// announces no length is left out: what comes after it is its body.
pub proof fn law_request_needs_no_more(input: Seq<u8>, rest: Seq<u8>, limit: nat)
    requires
        input.len() > 0,
        request_in(input, limit) != Err::<Option<(RequestView, int)>, ReadErrorView>(
            ReadErrorView::Partial,
        ),
        !bare_put(input, limit),
    ensures
        request_in(input + rest, limit) == request_in(input, limit),
{
    lemma_head_from(input, 0);
    lemma_head_stays(input, rest, 0);
    let (head, at) = head_from(input, 0)->0;
    if head.len() > 0 && request_line(head[0]) is Some {
        if let Ok(n) = body_length(headers_in(head.skip(1)), limit) {
            assert((input + rest).subrange(at, at + n) =~= input.subrange(at, at + n));
        }
    }
}

/// A response that was read, or refused, stays so whatever comes after it.
pub proof fn law_response_needs_no_more(input: Seq<u8>, rest: Seq<u8>, limit: nat)
    requires
        input.len() > 0,
        response_in(input, limit) != Err::<(ResponseView, int), ReadErrorView>(
            ReadErrorView::Partial,
        ),
    ensures
        response_in(input + rest, limit) == response_in(input, limit),
{
    lemma_head_from(input, 0);
    lemma_head_stays(input, rest, 0);
    let (head, at) = head_from(input, 0)->0;
    if head.len() > 0 && status_line(head[0]) is Some {
        assert((input + rest).subrange(at, at + 0) =~= input.subrange(at, at + 0));
        if let Ok(n) = body_length(headers_in(head.skip(1)), limit) {
            assert(n <= input.len() - at ==> (input + rest).subrange(at, at + n)
                =~= input.subrange(at, at + n));
        }
    }
}

/// A request cut short anywhere is asked for again, never taken for another.
pub proof fn law_request_cut_short(
    authority: Seq<char>,
    request: RequestView,
    length: int,
    limit: nat,
)
    requires
        fit_request(authority, request),
        request.body.len() <= limit,
        request.body.len() <= usize::MAX,
        0 < length < request_bytes(authority, request).len(),
    ensures
        request_in(request_bytes(authority, request).take(length), limit) == Err::<
            Option<(RequestView, int)>,
            ReadErrorView,
        >(ReadErrorView::Partial),
{
    let written = request_bytes(authority, request);
    let part = written.take(length);
    let rest = written.skip(length);
    let none = Seq::<u8>::empty();
    assert(part + rest =~= written);
    assert(written + none =~= written);
    law_request_round_trip(authority, request, none, limit);
    lemma_head_from(part, 0);
    if request_in(part, limit) != Err::<Option<(RequestView, int)>, ReadErrorView>(
        ReadErrorView::Partial,
    ) {
        // The head is whole, so the length that was written is in it.
        lemma_head_stays(part, rest, 0);
        lemma_host(authority, request);
        lemma_length_read(
            seq![("Host"@, authority)] + request.headers,
            request.body.len(),
            limit,
        );
        law_request_needs_no_more(part, rest, limit);
    }
}

/// A response cut short anywhere is asked for again, never taken for another.
pub proof fn law_response_cut_short(response: ResponseView, length: int, limit: nat)
    requires
        fit_response(response),
        response.body.len() <= limit,
        response.body.len() <= usize::MAX,
        0 < length < response_bytes(response).len(),
    ensures
        response_in(response_bytes(response).take(length), limit) == Err::<
            (ResponseView, int),
            ReadErrorView,
        >(ReadErrorView::Partial),
{
    let written = response_bytes(response);
    let part = written.take(length);
    let rest = written.skip(length);
    let none = Seq::<u8>::empty();
    assert(part + rest =~= written);
    assert(written + none =~= written);
    law_response_round_trip(response, none, limit);
    lemma_head_from(part, 0);
    if response_in(part, limit) != Err::<(ResponseView, int), ReadErrorView>(
        ReadErrorView::Partial,
    ) {
        law_response_needs_no_more(part, rest, limit);
    }
}

/// A header is found however its name was capitalised.
pub proof fn law_header_case_does_not_matter(
    headers: Seq<(Seq<char>, Seq<char>)>,
    one: Seq<char>,
    other: Seq<char>,
)
    requires
        same_letters(one, other),
    ensures
        value_of(headers, one) == value_of(headers, other),
    decreases headers.len(),
{
    if headers.len() > 0 {
        let name = headers[0].0;
        law_header_case_does_not_matter(headers.skip(1), one, other);
        if name.len() == one.len() {
            assert forall|i: int| 0 <= i < one.len() implies lower(#[trigger] one[i]) == lower(
                other[i],
            ) by {}
            if same_letters(name, one) {
                assert forall|i: int| 0 <= i < name.len() implies lower(#[trigger] name[i])
                    == lower(other[i]) by {
                    assert(lower(one[i]) == lower(other[i]));
                }
            }
            if same_letters(name, other) {
                assert forall|i: int| 0 <= i < name.len() implies lower(#[trigger] name[i])
                    == lower(one[i]) by {
                    assert(lower(one[i]) == lower(other[i]));
                }
            }
        }
    }
}

} // verus!
