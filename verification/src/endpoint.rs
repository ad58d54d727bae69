//! What a ledger endpoint answers to a request.
//!
//!   GET  /ledger         -> the binary ledger
//!   POST /ledger         -> the uploaded ledger replaces the one in memory; 400 on a bad payload
//!   GET  /check/{id}     -> "recognized" or "unknown etoken in ledger"
//!   POST /mint_e_token/  -> the uploaded entry is minted under its own id; 409 where that
//!                           cannot be, 400 on a bad payload

use vstd::prelude::*;
use vstd::string::StringExecFns;

use crate::laws;
use crate::layout;
use crate::ledger::Ledger;
use crate::model::LedgerView;
use crate::text;
use crate::transport;
use crate::wire;

verus! {

/// The outcome of a request.
#[derive(Debug, Clone, Copy, PartialEq, Eq, Structural)]
pub enum Status {
    Success,
    BadRequest,
    NotFound,
    Conflict,
}

impl Status {
    /// The outcome as it stands in the status line.
    pub open spec fn spec_line(self) -> Seq<char> {
        match self {
            Status::Success => "200 OK"@,
            Status::BadRequest => "400 Bad Request"@,
            Status::NotFound => "404 Not Found"@,
            Status::Conflict => "409 Conflict"@,
        }
    }

    /// The outcome as it stands in the status line.
    pub fn line(&self) -> (r: &'static str)
        ensures
            r@ == self.spec_line(),
    {
        match self {
            Status::Success => "200 OK",
            Status::BadRequest => "400 Bad Request",
            Status::NotFound => "404 Not Found",
            Status::Conflict => "409 Conflict",
        }
    }
}

/// The answer to a request.
#[derive(Debug)]
pub struct Reply {
    pub status: Status,
    pub body: Vec<u8>,
}

/// The contents of an answer.
#[verifier::ext_equal]
pub struct ReplyView {
    pub status: Status,
    pub body: Seq<u8>,
}

impl View for Reply {
    type V = ReplyView;

    open spec fn view(&self) -> ReplyView {
        ReplyView { status: self.status, body: self.body@ }
    }
}

/// A text as it is sent.
pub open spec fn text_bytes(s: Seq<char>) -> Seq<u8> {
    vstd::utf8::encode_utf8(s)
}

/// An answer that is a text.
pub open spec fn says(status: Status, s: Seq<char>) -> ReplyView {
    ReplyView { status, body: text_bytes(s) }
}

/// What stands behind the check prefix, however often that is repeated.
pub open spec fn after_check(path: Seq<char>) -> Seq<char>
    decreases path.len(),
{
    let prefix = "/check/"@;
    if prefix.len() > 0 && prefix.is_prefix_of(path) {
        after_check(path.skip(prefix.len() as int))
    } else {
        path
    }
}

/// The id that a check asks for; what is no number asks for 0.
pub open spec fn asked_id(path: Seq<char>) -> u32 {
    match text::number(after_check(path)) {
        Some(id) => id,
        None => 0,
    }
}

/// The answer to a request to the ledger `l`.
pub open spec fn answered(
    l: LedgerView,
    method: Seq<char>,
    path: Seq<char>,
    body: Seq<u8>,
) -> ReplyView {
    if method == "GET"@ && path == "/ledger"@ {
        ReplyView { status: Status::Success, body: layout::ledger_bytes(l) }
    } else if method == "POST"@ && path == "/ledger"@ {
        match layout::take_ledger(body) {
            Ok(_) => says(Status::Success, "ok"@),
            Err(f) => says(Status::BadRequest, "bad ledger: "@ + ("wire: "@ + f.message())),
        }
    } else if method == "GET"@ && "/check/"@.is_prefix_of(path) {
        if l.has_id(asked_id(path)) {
            says(Status::Success, "recognized"@)
        } else {
            says(Status::NotFound, "unknown etoken in ledger"@)
        }
    } else if method == "POST"@ && "/mint_e_token"@.is_prefix_of(path) {
        match layout::take_entry(body, l.cfg) {
            Ok((t, _)) => if l.admits(t.id, t.pattern) {
                says(Status::Success, "minted"@)
            } else {
                says(Status::Conflict, "eid already minted or below n_vocab"@)
            },
            Err(f) => says(Status::BadRequest, "bad entry: "@ + ("wire: "@ + f.message())),
        }
    } else {
        says(Status::NotFound, "not found"@)
    }
}

/// Whether a request takes the ledger `l` to `after`.
pub open spec fn leads_to(
    l: LedgerView,
    method: Seq<char>,
    path: Seq<char>,
    body: Seq<u8>,
    after: LedgerView,
) -> bool {
    if method == "POST"@ && path == "/ledger"@ {
        match layout::take_ledger(body) {
            Ok((incoming, _)) => after == incoming,
            Err(_) => after == l,
        }
    } else if method == "POST"@ && "/mint_e_token"@.is_prefix_of(path) {
        match layout::take_entry(body, l.cfg) {
            Ok((t, _)) => l.admits_to(t.id, t.pattern, t.code, after),
            Err(_) => after == l,
        }
    } else {
        after == l
    }
}

/// What stands before the body of a response.
pub open spec fn response_head(status: Status, length: nat) -> Seq<char> {
    "HTTP/1.1 "@ + status.spec_line()
        + "\r\nContent-Type: application/octet-stream\r\nContent-Length: "@ + text::decimal(length)
        + "\r\nConnection: close\r\n\r\n"@
}

/// An answer as it is sent: the head, with the length of the body, and the body.
pub open spec fn response(r: ReplyView) -> Seq<u8> {
    text_bytes(response_head(r.status, r.body.len())) + r.body
}

/// Whether the blank line that ends the head of a request stands at `i`.
pub open spec fn blank_line_at(raw: Seq<u8>, i: int) -> bool {
    0 <= i && i + 4 <= raw.len() && raw[i] == 13 && raw[i + 1] == 10 && raw[i + 2] == 13 && raw[i
        + 3] == 10
}

/// Whether the head of a request has arrived.
pub open spec fn head_arrived(raw: Seq<u8>) -> bool {
    exists|i: int| blank_line_at(raw, i)
}

/// Whether the body of a request starts at `n`: behind the first blank line, or, where there
/// is none, at the end.
pub open spec fn body_starts_at(raw: Seq<u8>, n: int) -> bool {
    if head_arrived(raw) {
        blank_line_at(raw, n - 4) && forall|i: int| 0 <= i < n - 4 ==> !blank_line_at(raw, i)
    } else {
        n == raw.len()
    }
}

/// Where the body of a request starts.
pub open spec fn body_start(raw: Seq<u8>) -> int {
    choose|n: int| body_starts_at(raw, n)
}

/// The body of a request.
pub open spec fn request_body(raw: Seq<u8>) -> Seq<u8> {
    raw.skip(body_start(raw))
}

/// What stands before the body of a request.
pub open spec fn request_head(raw: Seq<u8>) -> Seq<u8> {
    raw.take(body_start(raw))
}

/// A byte with an ASCII capital made small.
pub open spec fn small(b: u8) -> u8 {
    if 65 <= b <= 90 {
        (b + 32) as u8
    } else {
        b
    }
}

/// Whether a line that announces the length of the body starts at `i`.
pub open spec fn length_line_at(head: Seq<u8>, i: int) -> bool {
    let name = text_bytes("content-length:"@);
    &&& 2 <= i && i + name.len() <= head.len()
    &&& head[i - 2] == 13 && head[i - 1] == 10
    &&& forall|j: int| 0 <= j < name.len() ==> small(#[trigger] head[i + j]) == name[j]
}

/// How many bytes at the front are blanks.
pub open spec fn blanks(s: Seq<u8>) -> nat
    decreases s.len(),
{
    if s.len() > 0 && (s[0] == 32 || s[0] == 9) {
        1 + blanks(s.skip(1))
    } else {
        0
    }
}

/// The number that the digits at the front stand for, above those already read; 0 where there
/// is no digit.
pub open spec fn digits_value(s: Seq<u8>, above: nat) -> nat
    decreases s.len(),
{
    if s.len() > 0 && 48 <= s[0] <= 57 {
        digits_value(s.skip(1), (10 * above + (s[0] - 48)) as nat)
    } else {
        above
    }
}

/// The length that the head of a request announces for the body, in its first line that
/// announces one; 0 where none does.
pub open spec fn length_in(head: Seq<u8>) -> nat {
    if exists|i: int| length_line_at(head, i) {
        let i = choose|i: int|
            length_line_at(head, i) && forall|j: int| 0 <= j < i ==> !length_line_at(head, j);
        let value = head.skip(i + text_bytes("content-length:"@).len());
        digits_value(value.skip(blanks(value) as int), 0)
    } else {
        0
    }
}

/// The length that a request announces for its body.
pub open spec fn announced_length(raw: Seq<u8>) -> nat {
    length_in(request_head(raw))
}

/// The method that a request names: the first word of its first line.
pub open spec fn request_method(head: Seq<char>) -> Seq<char> {
    text::first_word(text::first_line(head))
}

/// The path that a request names: the second word of its first line.
pub open spec fn request_path(head: Seq<char>) -> Seq<char> {
    text::first_word(text::after_word(text::first_line(head)))
}

/// A reply that is a text.
fn reply(status: Status, s: &str) -> (r: Reply)
    ensures
        r@ == says(status, s@),
{
    Reply { status, body: vstd::slice::slice_to_vec(s.as_bytes()) }
}

/// The id that a check asks for.
fn read_id(path: &Vec<char>, prefix: &Vec<char>) -> (r: u32)
    requires
        prefix@ == "/check/"@,
    ensures
        r == asked_id(path@),
{
    proof {
        reveal_strlit("/check/");
    }
    let mut pos: usize = 0;
    assert(path@.skip(0) =~= path@);
    while text::prefix_at(path, pos, prefix)
        invariant
            pos <= path.len(),
            prefix@ == "/check/"@,
            prefix@.len() == 7,
            after_check(path@) == after_check(path@.skip(pos as int)),
        decreases path@.len() - pos,
    {
        assert(path@.skip(pos as int).skip(7) =~= path@.skip(pos + 7));
        pos = pos + prefix.len();
    }
    match text::parse_number(path, pos) {
        Some(id) => id,
        None => 0,
    }
}

/// No method is both.
proof fn lemma_methods_differ()
    ensures
        "GET"@ != "POST"@,
{
    reveal_strlit("GET");
    reveal_strlit("POST");
    assert("POST"@.len() != "GET"@.len());
}

/// Replaces the ledger with the one that was uploaded.
fn replace_ledger(ledger: &mut Ledger, body: &[u8]) -> (r: Reply)
    requires
        old(ledger).wf(),
    ensures
        final(ledger).wf(),
        match layout::take_ledger(body@) {
            Ok((incoming, _)) => r@ == says(Status::Success, "ok"@) && final(ledger)@ == incoming,
            Err(f) => {
                &&& r@ == says(Status::BadRequest, "bad ledger: "@ + ("wire: "@ + f.message()))
                &&& final(ledger)@ == old(ledger)@
            },
        },
{
    match wire::decode(body) {
        Ok(incoming) => {
            *ledger = incoming;
            reply(Status::Success, "ok")
        },
        Err(e) => {
            let mut reason: String = "bad ledger: ".to_owned();
            reason.append(e.to_string().as_str());
            reply(Status::BadRequest, reason.as_str())
        },
    }
}

/// Mints the entry that was uploaded, under its own id.
fn mint_entry(ledger: &mut Ledger, body: &[u8]) -> (r: Reply)
    requires
        old(ledger).wf(),
    ensures
        final(ledger).wf(),
        match layout::take_entry(body@, old(ledger)@.cfg) {
            Ok((t, _)) => {
                &&& r@ == if old(ledger)@.admits(t.id, t.pattern) {
                    says(Status::Success, "minted"@)
                } else {
                    says(Status::Conflict, "eid already minted or below n_vocab"@)
                }
                &&& old(ledger)@.admits_to(t.id, t.pattern, t.code, final(ledger)@)
            },
            Err(f) => {
                &&& r@ == says(Status::BadRequest, "bad entry: "@ + ("wire: "@ + f.message()))
                &&& final(ledger)@ == old(ledger)@
            },
        },
{
    match wire::decode_entry(body, ledger.config()) {
        Ok(t) => {
            if ledger.mint_external(t.id, t.pattern, t.code) {
                reply(Status::Success, "minted")
            } else {
                reply(Status::Conflict, "eid already minted or below n_vocab")
            }
        },
        Err(e) => {
            let mut reason: String = "bad entry: ".to_owned();
            reason.append(e.to_string().as_str());
            reply(Status::BadRequest, reason.as_str())
        },
    }
}

/// Answers a request, replaces the ledger where the request uploads a good one, and mints the
/// entry where it uploads one. A request that is refused leaves the ledger as it was.
pub fn answer(ledger: &mut Ledger, method: &Vec<char>, path: &Vec<char>, body: &[u8]) -> (r: Reply)
    requires
        old(ledger).wf(),
    ensures
        final(ledger).wf(),
        r@ == answered(old(ledger)@, method@, path@, body@),
        leads_to(old(ledger)@, method@, path@, body@, final(ledger)@),
{
    proof {
        lemma_methods_differ();
    }
    let get: bool = text::is_text(method, "GET");
    let whole: bool = text::is_text(path, "/ledger");
    if get && whole {
        return Reply { status: Status::Success, body: wire::encode(ledger) };
    }
    let post: bool = text::is_text(method, "POST");
    if post && whole {
        return replace_ledger(ledger, body);
    }
    let prefix: Vec<char> = text::chars_of("/check/");
    assert(path@.skip(0) =~= path@);
    if get && text::prefix_at(path, 0, &prefix) {
        if ledger.contains(read_id(path, &prefix)) {
            return reply(Status::Success, "recognized");
        }
        return reply(Status::NotFound, "unknown etoken in ledger");
    }
    let prefix: Vec<char> = text::chars_of("/mint_e_token");
    if post && text::prefix_at(path, 0, &prefix) {
        return mint_entry(ledger, body);
    }
    reply(Status::NotFound, "not found")
}

/// A reply as it is sent.
pub fn response_bytes(reply: &Reply) -> (r: Vec<u8>)
    ensures
        r@ == response(reply@),
{
    let mut head: String = "HTTP/1.1 ".to_owned();
    head.append(reply.status.line());
    head.append("\r\nContent-Type: application/octet-stream\r\nContent-Length: ");
    text::append_decimal(&mut head, reply.body.len());
    head.append("\r\nConnection: close\r\n\r\n");
    let mut out: Vec<u8> = vstd::slice::slice_to_vec(head.as_str().as_bytes());
    let mut body: Vec<u8> = vstd::slice::slice_to_vec(reply.body.as_slice());
    out.append(&mut body);
    out
}

/// Where the first blank line of a request stands, if it has arrived.
fn find_blank_line(raw: &[u8]) -> (r: Option<usize>)
    ensures
        match r {
            Some(i) => blank_line_at(raw@, i as int) && forall|j: int|
                0 <= j < i ==> !blank_line_at(raw@, j),
            None => !head_arrived(raw@),
        },
{
    let mut i: usize = 0;
    while i < raw.len()
        invariant
            i <= raw@.len(),
            forall|j: int| 0 <= j < i ==> !blank_line_at(raw@, j),
        decreases raw@.len() - i,
    {
        if raw.len() - i >= 4 && raw[i] == 13 && raw[i + 1] == 10 && raw[i + 2] == 13 && raw[i + 3]
            == 10 {
            return Some(i);
        }
        i = i + 1;
    }
    None
}

/// Where the body of a request starts.
fn find_body(raw: &[u8]) -> (r: usize)
    ensures
        r == body_start(raw@),
        r <= raw@.len(),
{
    let start: usize = match find_blank_line(raw) {
        Some(i) => {
            assert(i + 4 <= raw.len());
            i + 4
        },
        None => raw.len(),
    };
    proof {
        let n = start as int;
        assert(body_starts_at(raw@, n));
        let m = choose|m: int| body_starts_at(raw@, m);
        if head_arrived(raw@) {
            assert(blank_line_at(raw@, m - 4) && blank_line_at(raw@, n - 4));
        }
        assert(m == n);
    }
    start
}

/// The body of a request.
fn read_body(raw: &[u8]) -> (r: &[u8])
    ensures
        r@ == request_body(raw@),
{
    let start: usize = find_body(raw);
    assert(raw@.subrange(start as int, raw@.len() as int) =~= raw@.skip(start as int));
    vstd::slice::slice_subrange(raw, start, raw.len())
}

/// Whether a line that announces the length of the body starts at `i`.
fn is_length_line(head: &[u8], i: usize, name: &[u8]) -> (r: bool)
    requires
        name@ == text_bytes("content-length:"@),
        i <= head@.len(),
    ensures
        r == length_line_at(head@, i as int),
{
    if i < 2 || head.len() - i < name.len() || head[i - 2] != 13 || head[i - 1] != 10 {
        return false;
    }
    assert(head.len() == head@.len());
    let mut j: usize = 0;
    while j < name.len()
        invariant
            head@.len() <= usize::MAX,
            2 <= i <= head@.len(),
            i + name@.len() <= head@.len(),
            j <= name@.len(),
            name@ == text_bytes("content-length:"@),
            forall|k: int| 0 <= k < j ==> small(#[trigger] head@[i + k]) == name@[k],
        decreases name@.len() - j,
    {
        let b: u8 = head[i + j];
        let c: u8 = if 65 <= b && b <= 90 {
            b + 32
        } else {
            b
        };
        if c != name[j] {
            assert(small(head@[i + j]) != name@[j as int]);
            return false;
        }
        j = j + 1;
    }
    true
}

/// The number in the digits behind the blanks at `from`, or nothing where it is beyond all
/// lengths.
fn read_length(head: &[u8], from: usize) -> (r: Option<usize>)
    requires
        from <= head@.len(),
    ensures
        ({
            let value = head@.skip(from as int);
            let n = digits_value(value.skip(blanks(value) as int), 0);
            match r {
                Some(v) => v == n,
                None => n > usize::MAX,
            }
        }),
{
    let mut i: usize = from;
    let ghost value = head@.skip(from as int);
    while i < head.len() && (head[i] == 32 || head[i] == 9)
        invariant
            from <= i <= head@.len(),
            value == head@.skip(from as int),
            blanks(value) == (i - from) + blanks(head@.skip(i as int)),
        decreases head@.len() - i,
    {
        assert(head@.skip(i as int).skip(1) =~= head@.skip(i + 1));
        i = i + 1;
    }
    assert(value.skip(blanks(value) as int) =~= head@.skip(i as int));
    let ghost whole = digits_value(head@.skip(i as int), 0);
    let mut total: Option<usize> = Some(0);
    let ghost mut read: nat = 0;
    while i < head.len() && 48 <= head[i] && head[i] <= 57
        invariant
            i <= head@.len(),
            whole == digits_value(head@.skip(i as int), read),
            match total {
                Some(v) => v == read,
                None => read > usize::MAX,
            },
        decreases head@.len() - i,
    {
        let digit: usize = (head[i] - 48) as usize;
        assert(head@.skip(i as int).skip(1) =~= head@.skip(i + 1));
        total = match total {
            Some(v) => match v.checked_mul(10) {
                Some(w) => w.checked_add(digit),
                None => None,
            },
            None => None,
        };
        proof {
            read = (10 * read + digit) as nat;
        }
        i = i + 1;
    }
    total
}

/// The length that the head of a request announces for the body, or nothing where it is beyond
/// all lengths.
fn read_announced(head: &[u8]) -> (r: Option<usize>)
    ensures
        match r {
            Some(v) => v == length_in(head@),
            None => length_in(head@) > usize::MAX,
        },
{
    let name: &[u8] = "content-length:".as_bytes();
    let mut i: usize = 0;
    while i < head.len()
        invariant
            i <= head@.len(),
            name@ == text_bytes("content-length:"@),
            forall|j: int| 0 <= j < i ==> !length_line_at(head@, j),
        decreases head@.len() - i,
    {
        if is_length_line(head, i, name) {
            proof {
                let k = choose|k: int|
                    length_line_at(head@, k) && forall|j: int|
                        0 <= j < k ==> !length_line_at(head@, j);
                assert(length_line_at(head@, k));
                assert(k == i);
            }
            return read_length(head, i + name.len());
        }
        i = i + 1;
    }
    proof {
        if exists|k: int| length_line_at(head@, k) {
            let k = choose|k: int| length_line_at(head@, k);
            reveal_strlit("content-length:");
            vstd::utf8::encode_utf8_first_scalar("content-length:"@);
            assert(k < head@.len());
        }
    }
    Some(0)
}

/// Whether a body of the given length is as long as the head announces.
fn has_announced(head: &[u8], length: usize) -> (r: bool)
    ensures
        r == (length >= length_in(head@)),
{
    match read_announced(head) {
        Some(n) => length >= n,
        None => false,
    }
}

/// Whether a request has arrived, so that reading can stop: its head has, and as much of its
/// body as the head announces.
pub fn request_complete(raw: &[u8]) -> (r: bool)
    ensures
        r == (head_arrived(raw@) && request_body(raw@).len() >= announced_length(raw@)),
{
    if find_blank_line(raw).is_none() {
        return false;
    }
    let start: usize = find_body(raw);
    assert(raw@.subrange(0, start as int) =~= raw@.take(start as int));
    has_announced(vstd::slice::slice_subrange(raw, 0, start), raw.len() - start)
}

/// The method and the path that a request names.
fn read_line(head: &str) -> (r: (Vec<char>, Vec<char>))
    ensures
        r.0@ == request_method(head@),
        r.1@ == request_path(head@),
{
    let chars: Vec<char> = text::chars_of(head);
    let end: usize = text::line_end(&chars);
    assert(chars@.subrange(0, end as int) =~= chars@.take(end as int));
    let (m0, m1) = text::word_in(&chars, 0, end);
    let (p0, p1) = text::word_in(&chars, m1, end);
    (text::part(&chars, m0, m1), text::part(&chars, p0, p1))
}

/// The text that bytes are read as when what is no UTF-8 in them is replaced: the result of
/// `String::from_utf8_lossy`.
pub uninterp spec fn lossy_text(raw: Seq<u8>) -> Seq<char>;

/// Calls `String::from_utf8_lossy`. Taken on trust: the text depends on the bytes alone, bytes
/// that are UTF-8 are read as the text that they encode, and so are those at the front that
/// are, before whatever else. How many characters replace an invalid sequence is left unsaid.
#[verifier::external_body]
fn lossy_string(raw: &[u8]) -> (r: String)
    ensures
        r@ == lossy_text(raw@),
        vstd::utf8::valid_utf8(raw@) ==> r@ == vstd::utf8::decode_utf8(raw@),
        forall|n: int|
            0 <= n <= raw@.len() && #[trigger] vstd::utf8::valid_utf8(raw@.take(n))
                ==> vstd::utf8::decode_utf8(raw@.take(n)).is_prefix_of(r@),
{
    String::from_utf8_lossy(raw).into_owned()
}

/// Answers a request that was read from a connection: `raw` is what was read, and `head` is
/// the same as text. Returns what is to be sent back.
pub fn respond(ledger: &mut Ledger, raw: &[u8], head: &str) -> (r: Vec<u8>)
    requires
        old(ledger).wf(),
    ensures
        final(ledger).wf(),
        ({
            let method = request_method(head@);
            let path = request_path(head@);
            let body = request_body(raw@);
            &&& r@ == response(answered(old(ledger)@, method, path, body))
            &&& leads_to(old(ledger)@, method, path, body, final(ledger)@)
        }),
{
    let (method, path) = read_line(head);
    let reply = answer(ledger, &method, &path, read_body(raw));
    response_bytes(&reply)
}

/// Answers a request that was read from a connection, given the bytes that were read. Returns
/// what is to be sent back. Where the first line has arrived as UTF-8, it alone says what is
/// asked for, whatever bytes follow it.
pub fn respond_raw(ledger: &mut Ledger, raw: &[u8]) -> (r: Vec<u8>)
    requires
        old(ledger).wf(),
    ensures
        final(ledger).wf(),
        ({
            let method = request_method(lossy_text(raw@));
            let path = request_path(lossy_text(raw@));
            let body = request_body(raw@);
            &&& r@ == response(answered(old(ledger)@, method, path, body))
            &&& leads_to(old(ledger)@, method, path, body, final(ledger)@)
        }),
        forall|n: int|
            0 <= n <= raw@.len() && #[trigger] vstd::utf8::valid_utf8(raw@.take(n))
                && vstd::utf8::decode_utf8(raw@.take(n)).contains('\n') ==> ({
                let line = vstd::utf8::decode_utf8(raw@.take(n));
                let method = request_method(line);
                let path = request_path(line);
                let body = request_body(raw@);
                &&& r@ == response(answered(old(ledger)@, method, path, body))
                &&& leads_to(old(ledger)@, method, path, body, final(ledger)@)
            }),
{
    let head: String = lossy_string(raw);
    proof {
        assert forall|n: int|
            0 <= n <= raw@.len() && #[trigger] vstd::utf8::valid_utf8(raw@.take(n))
                && vstd::utf8::decode_utf8(raw@.take(n)).contains('\n') implies text::first_line(
            head@,
        ) == text::first_line(vstd::utf8::decode_utf8(raw@.take(n))) by {
            text::first_line_of_longer(vstd::utf8::decode_utf8(raw@.take(n)), head@);
        }
    }
    respond(ledger, raw, head.as_str())
}

/// A ledger of minted tokens that is downloaded from one endpoint can be uploaded to any other,
/// which then has it. The download changes nothing.
pub proof fn downloaded_can_be_uploaded(
    l: LedgerView,
    l_after: LedgerView,
    peer: LedgerView,
    peer_after: LedgerView,
    asked: Seq<u8>,
)
    requires
        l.valid(),
        l.all_minted(),
        leads_to(l, "GET"@, "/ledger"@, asked, l_after),
        leads_to(
            peer,
            "POST"@,
            "/ledger"@,
            answered(l, "GET"@, "/ledger"@, asked).body,
            peer_after,
        ),
    ensures
        ({
            let download = answered(l, "GET"@, "/ledger"@, asked);
            let upload = answered(peer, "POST"@, "/ledger"@, download.body);
            &&& l_after == l
            &&& download.status == Status::Success
            &&& upload.status == Status::Success
            &&& peer_after == transport::received(l)
        }),
{
    lemma_methods_differ();
    transport::sent_is_received(l, Seq::empty());
    assert(layout::ledger_bytes(l) + Seq::<u8>::empty() =~= layout::ledger_bytes(l));
}

/// An upload that is no ledger is refused with 400, and the ledger stays as it was.
pub proof fn bad_upload_is_refused(l: LedgerView, body: Seq<u8>, after: LedgerView)
    requires
        layout::take_ledger(body) is Err,
        leads_to(l, "POST"@, "/ledger"@, body, after),
    ensures
        answered(l, "POST"@, "/ledger"@, body).status == Status::BadRequest,
        after == l,
{
    lemma_methods_differ();
}

/// A request that is not answered with 200 leaves the ledger as it was.
pub proof fn refusal_changes_nothing(
    l: LedgerView,
    method: Seq<char>,
    path: Seq<char>,
    body: Seq<u8>,
    after: LedgerView,
)
    requires
        leads_to(l, method, path, body, after),
        answered(l, method, path, body).status != Status::Success,
    ensures
        after == l,
{
    lemma_methods_differ();
}

/// A minted entry is recognized: where an upload of an entry is answered with 200, the ledger
/// then has its id, which it had not before, for its window.
pub proof fn minted_entry_is_recognized(
    l: LedgerView,
    path: Seq<char>,
    body: Seq<u8>,
    after: LedgerView,
)
    requires
        l.valid(),
        "/mint_e_token"@.is_prefix_of(path),
        leads_to(l, "POST"@, path, body, after),
        answered(l, "POST"@, path, body).status == Status::Success,
    ensures
        layout::take_entry(body, l.cfg) is Ok,
        ({
            let t = layout::take_entry(body, l.cfg)->Ok_0.0;
            &&& t.id >= l.cfg.n_vocab
            &&& !l.has_id(t.id)
            &&& after.has_id(t.id)
            &&& after.lookup(t.pattern) == Some(t.id)
        }),
{
    lemma_methods_differ();
    reveal_strlit("/ledger");
    reveal_strlit("/mint_e_token");
    assert(path.len() > "/ledger"@.len());
    if let Ok((t, _)) = layout::take_entry(body, l.cfg) {
        if l.admits(t.id, t.pattern) {
            laws::admitted_is_found(l, t.id, t.pattern, t.code, after);
        }
    }
}

/// Every ledger that an endpoint comes to serve can be received by a peer: no request brings
/// in a token that is not as minted tokens are.
pub proof fn requests_keep_minted_form(
    l: LedgerView,
    method: Seq<char>,
    path: Seq<char>,
    body: Seq<u8>,
    after: LedgerView,
)
    requires
        l.valid(),
        l.all_minted(),
        leads_to(l, method, path, body, after),
    ensures
        after.all_minted(),
{
    if method == "POST"@ && path == "/ledger"@ {
        transport::received_tokens_are_minted(body);
    } else if let Ok((t, _)) = layout::take_entry(body, l.cfg) {
        if method == "POST"@ && "/mint_e_token"@.is_prefix_of(path) {
            laws::admitting_keeps_minted_form(l, t.id, t.pattern, t.code, after);
        }
    }
}

/// No request but a good upload, of a ledger or of an entry, changes the ledger.
pub proof fn only_an_upload_changes(
    l: LedgerView,
    method: Seq<char>,
    path: Seq<char>,
    body: Seq<u8>,
    after: LedgerView,
)
    requires
        leads_to(l, method, path, body, after),
        after != l,
    ensures
        method == "POST"@,
        (path == "/ledger"@ && layout::take_ledger(body) is Ok) || ("/mint_e_token"@.is_prefix_of(
            path,
        ) && layout::take_entry(body, l.cfg) is Ok),
{
}

/// What a reply contains are its fields.
pub proof fn reply_is_its_fields(r: Reply)
    ensures
        r@.status == r.status,
        r@.body == r.body@,
{
}

} // verus!
