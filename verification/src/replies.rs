//! The laws of the endpoint, in terms of what stands in requests and responses.

use vstd::prelude::*;

use crate::endpoint;
use crate::endpoint::{ReplyView, Status};
use crate::layout;
use crate::laws;
use crate::model::{LedgerView, TokenView};
use crate::text;
use crate::transport;

verus! {

/// The paths of the endpoint differ from one another.
proof fn lemma_paths(path: Seq<char>)
    ensures
        "GET"@ != "POST"@,
        "/check/"@.len() == 7,
        "/check/"@[0] == '/',
        "/check/"@.is_prefix_of(path) ==> path != "/ledger"@ && !"/mint_e_token"@.is_prefix_of(path),
        "/mint_e_token"@.is_prefix_of(path) ==> path != "/ledger"@,
{
    reveal_strlit("GET");
    reveal_strlit("POST");
    reveal_strlit("/ledger");
    reveal_strlit("/check/");
    reveal_strlit("/mint_e_token");
    assert("GET"@.len() != "POST"@.len());
    assert("/ledger"@[1] == 'l');
    assert("/check/"@[1] == 'c');
    assert("/mint_e_token"@[1] == 'm');
    if "/check/"@.is_prefix_of(path) {
        assert(path[1] == "/check/"@[1]);
    }
    if "/mint_e_token"@.is_prefix_of(path) {
        assert(path[1] == "/mint_e_token"@[1]);
    }
}

/// Asking for an id is answered by whether some token of the ledger has it: for every id, a
/// check of its decimal form says "recognized" where one has, and "unknown etoken in ledger"
/// where none has.
pub proof fn check_tells_whether_an_id_is_held(l: LedgerView, id: u32, body: Seq<u8>)
    ensures
        ({
            let reply = endpoint::answered(l, "GET"@, "/check/"@ + text::decimal(id as nat), body);
            if exists|k: u64| #[trigger] l.map.contains_key(k) && l.map[k].id == id {
                reply.status == Status::Success && reply.body == vstd::utf8::encode_utf8(
                    "recognized"@,
                )
            } else {
                reply.status == Status::NotFound && reply.body == vstd::utf8::encode_utf8(
                    "unknown etoken in ledger"@,
                )
            }
        }),
{
    let digits = text::decimal(id as nat);
    let path = "/check/"@ + digits;
    lemma_paths(path);
    text::decimal_is_digits(id as nat);
    text::decimal_is_read_back(id);
    assert("/check/"@.is_prefix_of(path)) by {
        assert(path.take(7) =~= "/check/"@);
    }
    assert(path.skip(7) =~= digits);
    assert(!"/check/"@.is_prefix_of(digits));
    assert(endpoint::after_check(digits) == digits);
    assert(endpoint::after_check(path) == digits);
}

/// Whatever stands behind the check prefix, and does not repeat it, is read as a number; what
/// is no number asks for the id 0.
pub proof fn check_reads_a_number(l: LedgerView, asked: Seq<char>, body: Seq<u8>)
    requires
        !"/check/"@.is_prefix_of(asked),
    ensures
        ({
            let reply = endpoint::answered(l, "GET"@, "/check/"@ + asked, body);
            let id: u32 = match text::number(asked) {
                Some(v) => v,
                None => 0,
            };
            if exists|k: u64| #[trigger] l.map.contains_key(k) && l.map[k].id == id {
                reply.status == Status::Success && reply.body == vstd::utf8::encode_utf8(
                    "recognized"@,
                )
            } else {
                reply.status == Status::NotFound && reply.body == vstd::utf8::encode_utf8(
                    "unknown etoken in ledger"@,
                )
            }
        }),
{
    let path = "/check/"@ + asked;
    lemma_paths(path);
    assert("/check/"@.is_prefix_of(path)) by {
        assert(path.take(7) =~= "/check/"@);
    }
    assert(path.skip(7) =~= asked);
    assert(endpoint::after_check(asked) == asked);
    assert(endpoint::after_check(path) == asked);
}

/// Repeating the check prefix changes nothing in the answer.
pub proof fn check_prefix_may_be_repeated(l: LedgerView, path: Seq<char>, body: Seq<u8>)
    requires
        "/check/"@.is_prefix_of(path),
    ensures
        endpoint::answered(l, "GET"@, "/check/"@ + path, body) == endpoint::answered(
            l,
            "GET"@,
            path,
            body,
        ),
{
    let twice = "/check/"@ + path;
    lemma_paths(path);
    lemma_paths(twice);
    assert("/check/"@.is_prefix_of(twice)) by {
        assert(twice.take(7) =~= "/check/"@);
    }
    assert(twice.skip(7) =~= path);
    assert(endpoint::after_check(twice) == endpoint::after_check(path));
}

// Lengths in heads.

/// A digit behind others counts for itself, and the others ten times as much.
proof fn lemma_digits_push(d: Seq<u8>, c: u8, above: nat)
    requires
        forall|i: int| 0 <= i < d.len() ==> 48 <= #[trigger] d[i] <= 57,
        48 <= c <= 57,
    ensures
        endpoint::digits_value(d.push(c), above) == 10 * endpoint::digits_value(d, above) + (c - 48),
    decreases d.len(),
{
    let more = d.push(c);
    if d.len() == 0 {
        assert(more.skip(1) =~= Seq::<u8>::empty());
        assert(endpoint::digits_value(Seq::<u8>::empty(), (10 * above + (c - 48)) as nat) == (10
            * above + (c - 48)) as nat);
    } else {
        assert(more.skip(1) =~= d.skip(1).push(c));
        assert(more[0] == d[0]);
        assert forall|i: int| 0 <= i < d.skip(1).len() implies 48 <= #[trigger] d.skip(1)[i]
            <= 57 by {
            assert(d.skip(1)[i] == d[i + 1]);
        }
        lemma_digits_push(d.skip(1), c, (10 * above + (d[0] - 48)) as nat);
    }
}

/// What follows the digits does not count.
proof fn lemma_digits_end(d: Seq<u8>, rest: Seq<u8>, above: nat)
    requires
        forall|i: int| 0 <= i < d.len() ==> 48 <= #[trigger] d[i] <= 57,
        rest.len() > 0 ==> !(48 <= rest[0] <= 57),
    ensures
        endpoint::digits_value(d + rest, above) == endpoint::digits_value(d, above),
    decreases d.len(),
{
    let whole = d + rest;
    if d.len() == 0 {
        assert(whole =~= rest);
    } else {
        assert(whole.skip(1) =~= d.skip(1) + rest);
        assert(whole[0] == d[0]);
        assert forall|i: int| 0 <= i < d.skip(1).len() implies 48 <= #[trigger] d.skip(1)[i]
            <= 57 by {
            assert(d.skip(1)[i] == d[i + 1]);
        }
        lemma_digits_end(d.skip(1), rest, (10 * above + (d[0] - 48)) as nat);
    }
}

/// The bytes of ASCII text are its characters.
proof fn lemma_ascii(s: Seq<char>)
    requires
        vstd::utf8::is_ascii_chars(s),
    ensures
        endpoint::text_bytes(s).len() == s.len(),
        forall|i: int| 0 <= i < s.len() ==> #[trigger] endpoint::text_bytes(s)[i] == s[i] as u8,
{
    vstd::utf8::is_ascii_chars_encode_utf8(s);
}

/// The decimal form of a number is read as the number, whatever follows that is no digit.
pub proof fn length_is_read_back(n: nat, rest: Seq<u8>)
    requires
        rest.len() > 0 ==> !(48 <= rest[0] <= 57),
    ensures
        endpoint::digits_value(vstd::utf8::encode_utf8(text::decimal(n)) + rest, 0) == n,
    decreases n,
{
    text::decimal_is_digits(n);
    let s = text::decimal(n);
    lemma_ascii(s);
    let d = endpoint::text_bytes(s);
    lemma_digits_end(d, rest, 0);
    if n < 10 {
        text::decimal_by_digits(0, n);
        assert(d =~= Seq::<u8>::empty().push((48 + n) as u8));
        assert(endpoint::digits_value(Seq::<u8>::empty(), 0) == 0);
        lemma_digits_push(Seq::<u8>::empty(), (48 + n) as u8, 0);
    } else {
        text::decimal_by_digits(n / 10, n % 10);
        text::decimal_is_digits(n / 10);
        length_is_read_back(n / 10, Seq::<u8>::empty());
        let front = text::decimal(n / 10);
        lemma_ascii(front);
        let f = endpoint::text_bytes(front);
        assert(f + Seq::<u8>::empty() =~= f);
        assert(d =~= f.push((48 + n % 10) as u8));
        lemma_digits_push(f, (48 + n % 10) as u8, 0);
    }
}

// Responses.

/// Text without line breaks, all of it ASCII.
spec fn plain(s: Seq<char>) -> bool {
    vstd::utf8::is_ascii_chars(s) && forall|i: int|
        0 <= i < s.len() ==> #[trigger] s[i] != '\r' && s[i] != '\n'
}

proof fn lemma_status_line(status: Status)
    ensures
        plain(status.spec_line()),
{
    reveal_strlit("200 OK");
    reveal_strlit("400 Bad Request");
    reveal_strlit("404 Not Found");
    reveal_strlit("409 Conflict");
}

/// The fields of a response before the length.
proof fn lemma_fields()
    ensures
        ({
            let b = "\r\nContent-Type: application/octet-stream\r\nContent-Length: "@;
            &&& b.len() == 58
            &&& vstd::utf8::is_ascii_chars(b)
            &&& forall|i: int| 0 <= i < 58 ==> (#[trigger] b[i] == '\r' <==> i == 0 || i == 40)
            &&& b[1] == '\n'
            &&& b[41] == '\n'
            &&& b[10] == 'T'
            &&& b[57] == ' '
        }),
        plain("HTTP/1.1 "@),
        "HTTP/1.1 "@.len() == 9,
{
    reveal_strlit("\r\nContent-Type: application/octet-stream\r\nContent-Length: ");
    reveal_strlit("HTTP/1.1 ");
}

/// The name of the field that announces the length, small or not.
proof fn lemma_length_name()
    ensures
        ({
            let b = "\r\nContent-Type: application/octet-stream\r\nContent-Length: "@;
            let name = "content-length:"@;
            &&& name.len() == 15
            &&& vstd::utf8::is_ascii_chars(name)
            &&& name[8] == 'l'
            &&& forall|j: int|
                0 <= j < 15 ==> endpoint::small(#[trigger] b[42 + j] as u8) == name[j] as u8
        }),
{
    reveal_strlit("\r\nContent-Type: application/octet-stream\r\nContent-Length: ");
    reveal_strlit("content-length:");
}

/// The fields of a response behind the length, and the blank line.
proof fn lemma_end()
    ensures
        ({
            let c = "\r\nConnection: close\r\n\r\n"@;
            &&& c.len() == 23
            &&& vstd::utf8::is_ascii_chars(c)
            &&& forall|i: int|
                0 <= i < 23 ==> (#[trigger] c[i] == '\r' <==> i == 0 || i == 19 || i == 21)
            &&& c[20] == '\n'
            &&& c[22] == '\n'
        }),
{
    reveal_strlit("\r\nConnection: close\r\n\r\n");
}

/// The body starts behind the first blank line.
proof fn lemma_body_start(raw: Seq<u8>, n: int)
    requires
        endpoint::blank_line_at(raw, n - 4),
        forall|i: int| 0 <= i < n - 4 ==> !endpoint::blank_line_at(raw, i),
    ensures
        endpoint::body_start(raw) == n,
{
    assert(endpoint::head_arrived(raw));
    assert(endpoint::body_starts_at(raw, n));
    let m = endpoint::body_start(raw);
    assert(endpoint::body_starts_at(raw, m));
    assert(endpoint::blank_line_at(raw, m - 4));
}

/// The pieces of the head of a response, as bytes.
proof fn lemma_pieces(
    a: Seq<char>,
    b: Seq<char>,
    d: Seq<char>,
    c: Seq<char>,
) -> (h: Seq<u8>)
    requires
        vstd::utf8::is_ascii_chars(a),
        vstd::utf8::is_ascii_chars(b),
        vstd::utf8::is_ascii_chars(d),
        vstd::utf8::is_ascii_chars(c),
    ensures
        h == endpoint::text_bytes(a + b + d + c),
        h.len() == a.len() + b.len() + d.len() + c.len(),
        forall|i: int| 0 <= i < a.len() ==> #[trigger] h[i] == a[i] as u8,
        forall|i: int|
            a.len() <= i < a.len() + b.len() ==> #[trigger] h[i] == b[i - a.len()] as u8,
        forall|i: int|
            a.len() + b.len() <= i < a.len() + b.len() + d.len() ==> #[trigger] h[i] == d[i
                - a.len() - b.len()] as u8,
        forall|i: int|
            a.len() + b.len() + d.len() <= i < h.len() ==> #[trigger] h[i] == c[i - a.len()
                - b.len() - d.len()] as u8,
{
    let s = a + b + d + c;
    assert forall|i: int| 0 <= i < s.len() implies '\0' <= #[trigger] s[i] <= '\u{7f}' by {
        if i < a.len() {
            assert(s[i] == a[i]);
        } else if i < a.len() + b.len() {
            assert(s[i] == b[i - a.len()]);
        } else if i < a.len() + b.len() + d.len() {
            assert(s[i] == d[i - a.len() - b.len()]);
        } else {
            assert(s[i] == c[i - a.len() - b.len() - d.len()]);
        }
    }
    lemma_ascii(s);
    endpoint::text_bytes(s)
}

/// Every response tells the length of its body: read as a head and a body, what stands behind
/// the blank line is the body, and the length that the head announces is the number of its
/// bytes, for bodies of any length. The head is the status line and three fields.
pub proof fn response_announces_its_body(r: ReplyView)
    ensures
        endpoint::request_body(endpoint::response(r)) == r.body,
        endpoint::announced_length(endpoint::response(r)) == r.body.len(),
        endpoint::response(r) == vstd::utf8::encode_utf8(
            "HTTP/1.1 "@ + r.status.spec_line()
                + "\r\nContent-Type: application/octet-stream\r\nContent-Length: "@
                + text::decimal(r.body.len()) + "\r\nConnection: close\r\n\r\n"@,
        ) + r.body,
{
    let a = "HTTP/1.1 "@ + r.status.spec_line();
    let b = "\r\nContent-Type: application/octet-stream\r\nContent-Length: "@;
    let d = text::decimal(r.body.len());
    let c = "\r\nConnection: close\r\n\r\n"@;
    lemma_status_line(r.status);
    lemma_fields();
    lemma_length_name();
    lemma_end();
    text::decimal_is_digits(r.body.len());
    assert forall|i: int| 0 <= i < a.len() implies '\0' <= #[trigger] a[i] <= '\u{7f}' && a[i] != '\r'
        && a[i] != '\n' by {
        if i < 9 {
            assert(a[i] == "HTTP/1.1 "@[i]);
        } else {
            assert(a[i] == r.status.spec_line()[i - 9]);
        }
    }
    assert(forall|i: int| 0 <= i < d.len() ==> text::is_digit(#[trigger] d[i]));
    assert(vstd::utf8::is_ascii_chars(d));
    let h = lemma_pieces(a, b, d, c);
    let raw = h + r.body;
    assert(raw == endpoint::response(r));
    let p = a.len() as int;
    let q = p + 58 + d.len();
    assert forall|i: int| 0 <= i < h.len() implies (#[trigger] raw[i] == 13 <==> (i == p || i == p
        + 40 || i == q || i == q + 19 || i == q + 21)) by {
        if i < p {
            assert(h[i] == a[i] as u8);
        } else if i < p + 58 {
            assert(h[i] == b[i - p] as u8);
        } else if i < q {
            assert(h[i] == d[i - p - 58] as u8);
            assert(text::is_digit(d[i - p - 58]));
        } else {
            assert(h[i] == c[i - q] as u8);
        }
    }
    let n = h.len() as int;
    assert(n == q + 23);
    assert(h[n - 3] == c[20] as u8 && h[n - 1] == c[22] as u8);
    assert(endpoint::blank_line_at(raw, n - 4));
    assert forall|i: int| 0 <= i < n - 4 implies !endpoint::blank_line_at(raw, i) by {
        if raw[i] == 13 {
            assert(raw[i + 2] != 13);
        }
    }
    lemma_body_start(raw, n);
    assert(raw.skip(n) =~= r.body);
    let head = raw.take(n);
    assert(head =~= h);
    lemma_ascii("content-length:"@);
    let line = p + 42;
    assert forall|j: int| 0 <= j < 15 implies endpoint::small(#[trigger] head[line + j])
        == endpoint::text_bytes("content-length:"@)[j] by {
        assert(h[p + (42 + j)] == b[42 + j] as u8);
    }
    assert(h[p + 40] == b[40] as u8 && h[p + 41] == b[41] as u8);
    assert(endpoint::length_line_at(head, line));
    assert forall|j: int| 0 <= j < line implies !endpoint::length_line_at(head, j) by {
        if endpoint::length_line_at(head, j) {
            assert(raw[j - 2] == 13);
            assert(j == p + 2);
            assert(h[p + 10] == b[10] as u8);
            assert(endpoint::small(head[j + 8]) == endpoint::text_bytes("content-length:"@)[8]);
        }
    }
    lemma_ascii(d);
    lemma_ascii(c);
    let tail = endpoint::text_bytes(c);
    assert(h[p + 57] == b[57] as u8);
    assert(head.skip(line + 15) =~= seq![32u8] + (endpoint::text_bytes(d) + tail));
    head_announces_a_length(head, line, seq![32u8], r.body.len(), tail);
}

// Requests.

/// What stands behind the first blank line of a request is its body, and what stands up to
/// there is its head. A request without a blank line has no body yet.
pub proof fn body_stands_behind_the_blank_line(head: Seq<u8>, body: Seq<u8>)
    requires
        forall|i: int| #![trigger head[i]]
            0 <= i < head.len() ==> !({
                let s = head + seq![13u8, 10u8, 13u8, 10u8];
                s[i] == 13 && s[i + 1] == 10 && s[i + 2] == 13 && s[i + 3] == 10
            }),
    ensures
        ({
            let raw = head + seq![13u8, 10u8, 13u8, 10u8] + body;
            &&& endpoint::head_arrived(raw)
            &&& endpoint::request_body(raw) == body
            &&& endpoint::request_head(raw) == head + seq![13u8, 10u8, 13u8, 10u8]
        }),
        !endpoint::head_arrived(head),
        endpoint::request_body(head) == Seq::<u8>::empty(),
{
    let s = head + seq![13u8, 10u8, 13u8, 10u8];
    let raw = s + body;
    let n = head.len() + 4;
    assert(endpoint::blank_line_at(raw, n - 4));
    assert forall|i: int| 0 <= i < n - 4 implies !endpoint::blank_line_at(raw, i) by {
        assert(s[i] == head[i]);
        assert(raw[i] == s[i] && raw[i + 1] == s[i + 1] && raw[i + 2] == s[i + 2] && raw[i + 3]
            == s[i + 3]);
    }
    lemma_body_start(raw, n as int);
    assert(raw.skip(n as int) =~= body);
    assert(raw.take(n as int) =~= s);
    assert forall|i: int| !endpoint::blank_line_at(head, i) by {
        if endpoint::blank_line_at(head, i) {
            assert(s[i] == head[i] && s[i + 1] == head[i + 1] && s[i + 2] == head[i + 2] && s[i + 3]
                == head[i + 3]);
        }
    }
    assert(endpoint::body_starts_at(head, head.len() as int));
    assert(endpoint::body_starts_at(head, endpoint::body_start(head)));
}

/// The first two words of the first line of a request are its method and its path.
pub proof fn first_line_names_method_and_path(
    before: Seq<char>,
    method: Seq<char>,
    between: Seq<char>,
    path: Seq<char>,
    behind: Seq<char>,
    rest: Seq<char>,
)
    requires
        forall|i: int| 0 <= i < before.len() ==> text::is_space(#[trigger] before[i]),
        forall|i: int| 0 <= i < method.len() ==> !text::is_space(#[trigger] method[i]),
        forall|i: int| 0 <= i < between.len() ==> text::is_space(#[trigger] between[i]),
        forall|i: int| 0 <= i < path.len() ==> !text::is_space(#[trigger] path[i]),
        method.len() > 0,
        between.len() > 0,
        path.len() > 0,
        behind.len() > 0 ==> text::is_space(behind[0]),
        !(before + method + between + path + behind).contains('\n'),
    ensures
        ({
            let line = before + method + between + path + behind;
            &&& endpoint::request_method(line + seq!['\n'] + rest) == method
            &&& endpoint::request_path(line + seq!['\n'] + rest) == path
            &&& endpoint::request_method(line) == method
            &&& endpoint::request_path(line) == path
        }),
{
    let line = before + method + between + path + behind;
    text::line_ends_at_the_break(line, rest);
    let tail = between + path + behind;
    assert(line =~= before + method + tail);
    text::word_ends_at_white_space(before, method, tail);
    text::word_ends_at_white_space(between, path, behind);
}

/// A first line of one word names a method and no path; one without words names neither.
pub proof fn short_first_lines_name_less(
    before: Seq<char>,
    method: Seq<char>,
    behind: Seq<char>,
    rest: Seq<char>,
)
    requires
        forall|i: int| 0 <= i < before.len() ==> text::is_space(#[trigger] before[i]),
        forall|i: int| 0 <= i < method.len() ==> !text::is_space(#[trigger] method[i]),
        forall|i: int| 0 <= i < behind.len() ==> text::is_space(#[trigger] behind[i]),
        method.len() > 0 || behind.len() == 0,
        !(before + method + behind).contains('\n'),
    ensures
        ({
            let line = before + method + behind;
            &&& endpoint::request_method(line + seq!['\n'] + rest) == method
            &&& endpoint::request_path(line + seq!['\n'] + rest) == Seq::<char>::empty()
            &&& endpoint::request_method(line) == method
            &&& endpoint::request_path(line) == Seq::<char>::empty()
        }),
{
    let line = before + method + behind;
    let none = Seq::<char>::empty();
    text::line_ends_at_the_break(line, rest);
    text::word_ends_at_white_space(before, method, behind);
    text::word_ends_at_white_space(behind, none, none);
    assert(behind + none + none =~= behind);
}

/// A line announces a length where it starts with the name of that field, in letters of either
/// case, and stands behind a line break.
pub proof fn length_line_is(head: Seq<u8>, i: int)
    ensures
        endpoint::length_line_at(head, i) <==> {
            let name = "content-length:"@;
            &&& 2 <= i
            &&& i + 15 <= head.len()
            &&& head[i - 2] == 13
            &&& head[i - 1] == 10
            &&& forall|j: int|
                0 <= j < 15 ==> (#[trigger] head[i + j] == name[j] as u8 || (65 <= head[i + j] <= 90
                    && head[i + j] + 32 == name[j] as u8))
        },
{
    reveal_strlit("content-length:");
    lemma_length_name();
    lemma_ascii("content-length:"@);
    let name = "content-length:"@;
    assert forall|j: int| 0 <= j < 15 implies !(65 <= #[trigger] name[j] as u8 <= 90) by {}
    if 2 <= i && i + 15 <= head.len() {
        assert forall|j: int| 0 <= j < 15 implies (endpoint::small(#[trigger] head[i + j])
            == endpoint::text_bytes(name)[j] <==> (head[i + j] == name[j] as u8 || (65 <= head[i
            + j] <= 90 && head[i + j] + 32 == name[j] as u8))) by {
            assert(!(65 <= name[j] as u8 <= 90));
        }
    }
}

/// Blanks at the front are counted.
proof fn lemma_blanks(blank: Seq<u8>, rest: Seq<u8>)
    requires
        forall|i: int| 0 <= i < blank.len() ==> #[trigger] blank[i] == 32 || blank[i] == 9,
        rest.len() > 0 ==> rest[0] != 32 && rest[0] != 9,
    ensures
        endpoint::blanks(blank + rest) == blank.len(),
    decreases blank.len(),
{
    let s = blank + rest;
    if blank.len() == 0 {
        assert(s =~= rest);
    } else {
        assert(s[0] == blank[0]);
        assert(s.skip(1) =~= blank.skip(1) + rest);
        assert forall|i: int| 0 <= i < blank.skip(1).len() implies #[trigger] blank.skip(1)[i] == 32
            || blank.skip(1)[i] == 9 by {
            assert(blank.skip(1)[i] == blank[i + 1]);
        }
        lemma_blanks(blank.skip(1), rest);
    }
}

/// A head announces the number that its first length line gives, behind spaces or tabs; digits
/// end where anything else stands. A head without such a line announces nothing.
pub proof fn head_announces_a_length(
    head: Seq<u8>,
    i: int,
    blank: Seq<u8>,
    n: nat,
    rest: Seq<u8>,
)
    requires
        endpoint::length_line_at(head, i),
        forall|j: int| 0 <= j < i ==> !endpoint::length_line_at(head, j),
        forall|j: int| 0 <= j < blank.len() ==> #[trigger] blank[j] == 32 || blank[j] == 9,
        head.skip(i + 15) == blank + (vstd::utf8::encode_utf8(text::decimal(n)) + rest),
        rest.len() > 0 ==> !(48 <= rest[0] <= 57),
    ensures
        endpoint::length_in(head) == n,
{
    lemma_length_name();
    lemma_ascii("content-length:"@);
    let k = choose|k: int|
        endpoint::length_line_at(head, k) && forall|j: int|
            0 <= j < k ==> !endpoint::length_line_at(head, j);
    assert(endpoint::length_line_at(head, k) && k == i);
    text::decimal_is_digits(n);
    lemma_ascii(text::decimal(n));
    let digits = endpoint::text_bytes(text::decimal(n)) + rest;
    let value = head.skip(i + 15);
    assert(digits[0] == text::decimal(n)[0] as u8);
    lemma_blanks(blank, digits);
    assert(value.skip(blank.len() as int) =~= digits);
    length_is_read_back(n, rest);
}

/// A head without a length line announces nothing, and so does one whose first length line has
/// no digit behind its blanks.
pub proof fn head_may_announce_nothing(head: Seq<u8>, i: int, blank: Seq<u8>, rest: Seq<u8>)
    ensures
        (forall|j: int| !endpoint::length_line_at(head, j)) ==> endpoint::length_in(head) == 0,
        ({
            &&& endpoint::length_line_at(head, i)
            &&& forall|j: int| 0 <= j < i ==> !endpoint::length_line_at(head, j)
            &&& forall|j: int| 0 <= j < blank.len() ==> #[trigger] blank[j] == 32 || blank[j] == 9
            &&& head.skip(i + 15) == blank + rest
            &&& rest.len() > 0 ==> rest[0] != 32 && rest[0] != 9 && !(48 <= rest[0] <= 57)
        }) ==> endpoint::length_in(head) == 0,
{
    if endpoint::length_line_at(head, i) && (forall|j: int|
        0 <= j < i ==> !endpoint::length_line_at(head, j)) && (forall|j: int|
        0 <= j < blank.len() ==> #[trigger] blank[j] == 32 || blank[j] == 9) && head.skip(i + 15)
        == blank + rest && (rest.len() > 0 ==> rest[0] != 32 && rest[0] != 9 && !(48 <= rest[0]
        <= 57)) {
        lemma_length_name();
        lemma_ascii("content-length:"@);
        let k = choose|k: int|
            endpoint::length_line_at(head, k) && forall|j: int|
                0 <= j < k ==> !endpoint::length_line_at(head, j);
        assert(endpoint::length_line_at(head, k) && k == i);
        lemma_blanks(blank, rest);
        assert((blank + rest).skip(blank.len() as int) =~= rest);
    }
}

// Routes.

/// A download is answered with the bytes of the ledger, which stays as it was.
pub proof fn download_gives_the_ledger(l: LedgerView, body: Seq<u8>, after: LedgerView)
    requires
        endpoint::leads_to(l, "GET"@, "/ledger"@, body, after),
    ensures
        endpoint::answered(l, "GET"@, "/ledger"@, body).status == Status::Success,
        endpoint::answered(l, "GET"@, "/ledger"@, body).body == layout::ledger_bytes(l),
        after == l,
{
    lemma_paths("/ledger"@);
}

/// An upload of a ledger is answered with "ok", and the ledger is then the one that was
/// uploaded; where the bytes are no ledger, it is answered with 400 and the reason, and the
/// ledger stays as it was.
pub proof fn upload_replaces_the_ledger(l: LedgerView, body: Seq<u8>, after: LedgerView)
    requires
        endpoint::leads_to(l, "POST"@, "/ledger"@, body, after),
    ensures
        ({
            let reply = endpoint::answered(l, "POST"@, "/ledger"@, body);
            match layout::take_ledger(body) {
                Ok((incoming, _)) => {
                    &&& reply.status == Status::Success
                    &&& reply.body == vstd::utf8::encode_utf8("ok"@)
                    &&& after == incoming
                },
                Err(f) => {
                    &&& reply.status == Status::BadRequest
                    &&& reply.body == vstd::utf8::encode_utf8(
                        "bad ledger: "@ + ("wire: "@ + f.message()),
                    )
                    &&& after == l
                },
            }
        }),
{
    lemma_paths("/ledger"@);
}

/// An upload of an entry is answered with "minted" where the entry can be minted under its id,
/// with a conflict where it cannot, and with 400 and the reason where the bytes are no entry.
/// The ledger changes only where it is minted, and then as minting that token changes it.
pub proof fn uploaded_entry_is_answered(
    l: LedgerView,
    path: Seq<char>,
    body: Seq<u8>,
    after: LedgerView,
)
    requires
        "/mint_e_token"@.is_prefix_of(path),
        endpoint::leads_to(l, "POST"@, path, body, after),
    ensures
        ({
            let reply = endpoint::answered(l, "POST"@, path, body);
            match layout::take_entry(body, l.cfg) {
                Ok((t, _)) => if l.admits(t.id, t.pattern) {
                    &&& reply.status == Status::Success
                    &&& reply.body == vstd::utf8::encode_utf8("minted"@)
                    &&& l.admits_to(t.id, t.pattern, t.code, after)
                } else {
                    &&& reply.status == Status::Conflict
                    &&& reply.body == vstd::utf8::encode_utf8(
                        "eid already minted or below n_vocab"@,
                    )
                    &&& after == l
                },
                Err(f) => {
                    &&& reply.status == Status::BadRequest
                    &&& reply.body == vstd::utf8::encode_utf8(
                        "bad entry: "@ + ("wire: "@ + f.message()),
                    )
                    &&& after == l
                },
            }
        }),
{
    lemma_paths(path);
}

/// Every entry whose id is at least `n_vocab` and free, whose window has `n_window` words and
/// whose code has `n_code` values of -1, 0 or 1 is minted when it is uploaded to a ledger below
/// its cap: the upload is answered with 200, and the id is then held for the window.
pub proof fn free_entry_is_minted(
    l: LedgerView,
    path: Seq<char>,
    t: TokenView,
    rest: Seq<u8>,
    after: LedgerView,
)
    requires
        l.valid(),
        l.map.len() < l.cfg.max_entries,
        t.id >= l.cfg.n_vocab,
        !(exists|k: u64| #[trigger] l.map.contains_key(k) && l.map[k].id == t.id),
        t.pattern.len() == l.cfg.n_window,
        t.code.len() == l.cfg.n_code,
        forall|i: int| 0 <= i < t.code.len() ==> -1 <= #[trigger] t.code[i] <= 1,
        "/mint_e_token"@.is_prefix_of(path),
        endpoint::leads_to(l, "POST"@, path, layout::token_bytes(t) + rest, after),
    ensures
        endpoint::answered(l, "POST"@, path, layout::token_bytes(t) + rest).status
            == Status::Success,
        ({
            let k = crate::bytes::window_key(t.pattern);
            &&& after.map.contains_key(k)
            &&& after.map[k].id == t.id
            &&& after.map[k].pattern == t.pattern
            &&& after.map[k].code == t.code
        }),
{
    transport::entry_round_trip(t, rest, l.cfg);
    laws::free_ids_are_admitted(l, t.id, t.pattern);
    uploaded_entry_is_answered(l, path, layout::token_bytes(t) + rest, after);
    laws::admitting_mints(l, t.id, t.pattern, t.code, after);
}

/// An entry whose id is below `n_vocab` or taken is answered with a conflict, and nothing
/// changes.
pub proof fn taken_entry_is_a_conflict(
    l: LedgerView,
    path: Seq<char>,
    t: TokenView,
    rest: Seq<u8>,
    after: LedgerView,
)
    requires
        t.id < l.cfg.n_vocab || exists|k: u64| #[trigger]
            l.map.contains_key(k) && l.map[k].id == t.id,
        t.pattern.len() == l.cfg.n_window,
        t.code.len() == l.cfg.n_code,
        forall|i: int| 0 <= i < t.code.len() ==> -1 <= #[trigger] t.code[i] <= 1,
        "/mint_e_token"@.is_prefix_of(path),
        endpoint::leads_to(l, "POST"@, path, layout::token_bytes(t) + rest, after),
    ensures
        endpoint::answered(l, "POST"@, path, layout::token_bytes(t) + rest).status
            == Status::Conflict,
        after == l,
{
    transport::entry_round_trip(t, rest, l.cfg);
    uploaded_entry_is_answered(l, path, layout::token_bytes(t) + rest, after);
}

/// Any request but a download, an upload of a ledger or of an entry, and a check is answered
/// with "not found", and changes nothing. Nor does a check.
pub proof fn other_requests_find_nothing(
    l: LedgerView,
    method: Seq<char>,
    path: Seq<char>,
    body: Seq<u8>,
    after: LedgerView,
)
    requires
        endpoint::leads_to(l, method, path, body, after),
        !(method == "POST"@ && (path == "/ledger"@ || "/mint_e_token"@.is_prefix_of(path))),
    ensures
        after == l,
        !(method == "GET"@ && (path == "/ledger"@ || "/check/"@.is_prefix_of(path))) ==> ({
            let reply = endpoint::answered(l, method, path, body);
            reply.status == Status::NotFound && reply.body == vstd::utf8::encode_utf8("not found"@)
        }),
{
}

} // verus!
