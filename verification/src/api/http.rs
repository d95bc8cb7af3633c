//! The HTTP API and gateway: reading a request, and the response to it.
use vstd::prelude::*;
use vstd::utf8::encode_utf8;

use vstd::string::StringSliceAdditionalSpecFns;

use crate::block::{Block, raw_cid_of};
use crate::content_id::{Cid, CidView, cid_from_text, cid_text};
use crate::dag::append_bytes;
use crate::error::KshError;
use crate::pin::PinManager;
use crate::store::{BlockStore, cid_views};
use crate::store::memory::MemoryBlockStore;
use crate::text::{char_is_ws, is_ws, parse_usize, trim, trim_bounds, parse_usize_at, chars_of};

verus! {

/// What the HTTP server runs with: its port, its store and its pins.
pub struct HttpConfig<S> {
    pub port: u16,
    pub store: S,
    pub pinner: PinManager,
}

impl Default for HttpConfig<MemoryBlockStore> {
    /// Port 8080, an empty store held in memory, and no pins.
    fn default() -> (c: HttpConfig<MemoryBlockStore>)
        ensures
            c.port == 8080,
            c.store.contents() == Map::<CidView, Seq<u8>>::empty(),
            c.store.listing() == Seq::<CidView>::empty(),
            c.store.infallible(),
            c.pinner.pins() == Map::<CidView, crate::pin::PinMode>::empty(),
    {
        HttpConfig { port: 8080, store: MemoryBlockStore::new(), pinner: PinManager::new() }
    }
}

/// The separator between the head and the body of a request.
pub open spec fn head_end() -> Seq<char> {
    seq!['\r', '\n', '\r', '\n']
}

/// Where the first head separator in `s` starts, searching from `i`.
pub open spec fn find_head_end(s: Seq<char>, i: int) -> Option<int>
    decreases s.len() - i,
{
    if i < 0 || i + 4 > s.len() {
        None
    } else if s.subrange(i, i + 4) == head_end() {
        Some(i)
    } else {
        find_head_end(s, i + 1)
    }
}

proof fn lemma_find_head_end(s: Seq<char>, i: int)
    ensures
        find_head_end(s, i) matches Some(k) ==> i <= k && k + 4 <= s.len() && s.subrange(k, k + 4)
            == head_end(),
    decreases s.len() - i,
{
    if !(i < 0 || i + 4 > s.len()) && s.subrange(i, i + 4) != head_end() {
        lemma_find_head_end(s, i + 1);
    }
}

/// The header name whose value is the length of the body, as matched.
pub open spec fn length_header() -> Seq<char> {
    seq!['c', 'o', 'n', 't', 'e', 'n', 't', '-', 'l', 'e', 'n', 'g', 't', 'h', ':']
}

/// Whether `c` turned to ASCII lower case is `p`.
pub open spec fn lower_is(c: char, p: char) -> bool {
    if 'A' <= c <= 'Z' {
        (c as u32) + 32 == (p as u32)
    } else {
        c == p
    }
}

/// Whether `line` in lower case starts with `content-length:`. (Of the
/// characters outside ASCII, only the Kelvin sign and the dotted capital I
/// turn into ASCII letters in lower case, and neither into a letter of that
/// name, so ASCII case folding of the first 15 characters decides it.)
pub open spec fn names_length(line: Seq<char>) -> bool {
    line.len() >= 15 && forall|i: int| 0 <= i < 15 ==> lower_is(#[trigger] line[i], length_header()[i])
}

/// `s` without every leading copy of `p`, as `str::trim_start_matches` gives it.
pub open spec fn strip_all(s: Seq<char>, p: Seq<char>) -> Seq<char>
    decreases s.len(),
{
    if p.len() > 0 && s.len() >= p.len() && s.take(p.len() as int) == p {
        strip_all(s.skip(p.len() as int), p)
    } else {
        s
    }
}

/// The body length that one header line gives, if any.
pub open spec fn line_length(line: Seq<char>) -> Option<nat> {
    if names_length(line) {
        parse_usize(trim(strip_all(line, length_header())))
    } else {
        None
    }
}

/// Where the line of `h` that starts at `i` ends: the next `\n`, or the end.
pub open spec fn line_end(h: Seq<char>, i: int) -> int
    decreases h.len() - i,
{
    if i < 0 || i >= h.len() || h[i] == '\n' {
        i
    } else {
        line_end(h, i + 1)
    }
}

/// The body length that the first header line from `i` on that gives one gives.
pub open spec fn declared_length(h: Seq<char>, i: int) -> Option<nat>
    decreases h.len() - i,
{
    if i < 0 || i > h.len() {
        None
    } else {
        let e = line_end(h, i);
        match line_length(h.subrange(i, e)) {
            Some(x) => Some(x),
            None => if i <= e < h.len() {
                declared_length(h, e + 1)
            } else {
                None
            },
        }
    }
}

/// The body of a request: the bytes after the first head separator, cut to
/// the length that the first usable `content-length:` header gives; nothing
/// where there is no separator.
pub open spec fn request_body(s: Seq<char>) -> Seq<u8> {
    match find_head_end(s, 0) {
        None => Seq::empty(),
        Some(k) => {
            let body = encode_utf8(s.skip(k + 4));
            match declared_length(s.take(k), 0) {
                Some(len) => body.take(if len < body.len() {
                    len as int
                } else {
                    body.len() as int
                }),
                None => body,
            }
        },
    }
}

/// Where the first head separator starts in `v`.
fn find_head_end_in(v: &Vec<char>) -> (r: Option<usize>)
    ensures
        match find_head_end(v@, 0) {
            Some(k) => r == Some(k as usize),
            None => r is None,
        },
{
    let n = v.len();
    let mut i: usize = 0;
    while i <= n
        invariant
            n == v@.len(),
            find_head_end(v@, 0) == find_head_end(v@, i as int),
        decreases n + 1 - i,
    {
        if n - i < 4 {
            return None;
        }
        if v[i] == '\r' && v[i + 1] == '\n' && v[i + 2] == '\r' && v[i + 3] == '\n' {
            assert(v@.subrange(i as int, i + 4) =~= head_end());
            return Some(i);
        }
        proof {
            if v@.subrange(i as int, i + 4) == head_end() {
                assert(v@.subrange(i as int, i + 4)[0] == v@[i as int]);
                assert(v@.subrange(i as int, i + 4)[1] == v@[i + 1]);
                assert(v@.subrange(i as int, i + 4)[2] == v@[i + 2]);
                assert(v@.subrange(i as int, i + 4)[3] == v@[i + 3]);
            }
        }
        i = i + 1;
    }
    None
}

/// The characters `content-length:`.
fn length_header_chars() -> (v: Vec<char>)
    ensures
        v@ == length_header(),
{
    let mut v: Vec<char> = Vec::new();
    v.push('c');
    v.push('o');
    v.push('n');
    v.push('t');
    v.push('e');
    v.push('n');
    v.push('t');
    v.push('-');
    v.push('l');
    v.push('e');
    v.push('n');
    v.push('g');
    v.push('t');
    v.push('h');
    v.push(':');
    assert(v@ =~= length_header());
    v
}

/// The body length that the line `v[from..to]` gives, if any.
fn line_length_at(v: &Vec<char>, pat: &Vec<char>, from: usize, to: usize) -> (r: Option<usize>)
    requires
        from <= to <= v@.len(),
        pat@ == length_header(),
    ensures
        match r {
            Some(y) => line_length(v@.subrange(from as int, to as int)) == Some(y as nat),
            None => line_length(v@.subrange(from as int, to as int)) is None,
        },
{
    let ghost line = v@.subrange(from as int, to as int);
    if to - from < 15 {
        return None;
    }
    let mut j: usize = 0;
    while j < 15
        invariant
            from + 15 <= to <= v@.len(),
            pat@ == length_header(),
            line == v@.subrange(from as int, to as int),
            j <= 15,
            forall|m: int| 0 <= m < j ==> lower_is(#[trigger] line[m], length_header()[m]),
        decreases 15 - j,
    {
        let c = v[from + j];
        let p = pat[j];
        let same = if 'A' <= c && c <= 'Z' {
            c as u32 + 32 == p as u32
        } else {
            c == p
        };
        assert(line[j as int] == c);
        if !same {
            return None;
        }
        j = j + 1;
    }
    assert(names_length(line));
    let mut a = from;
    while to - a >= 15 && v[a] == pat[0] && v[a + 1] == pat[1] && v[a + 2] == pat[2] && v[a + 3] == pat[3]
        && v[a + 4] == pat[4] && v[a + 5] == pat[5] && v[a + 6] == pat[6] && v[a + 7] == pat[7] && v[a + 8]
        == pat[8] && v[a + 9] == pat[9] && v[a + 10] == pat[10] && v[a + 11] == pat[11] && v[a + 12] == pat[12]
        && v[a + 13] == pat[13] && v[a + 14] == pat[14]
        invariant
            from <= a <= to <= v@.len(),
            pat@ == length_header(),
            strip_all(line, length_header()) == strip_all(v@.subrange(a as int, to as int), length_header()),
        decreases to - a,
    {
        let ghost rest = v@.subrange(a as int, to as int);
        assert(rest.take(15) =~= length_header());
        assert(rest.skip(15) =~= v@.subrange(a + 15, to as int));
        a = a + 15;
    }
    proof {
        let rest = v@.subrange(a as int, to as int);
        if rest.len() >= 15 && rest.take(15) == length_header() {
            assert(rest.take(15)[0] == v@[a as int]);
            assert(rest.take(15)[1] == v@[a + 1]);
            assert(rest.take(15)[2] == v@[a + 2]);
            assert(rest.take(15)[3] == v@[a + 3]);
            assert(rest.take(15)[4] == v@[a + 4]);
            assert(rest.take(15)[5] == v@[a + 5]);
            assert(rest.take(15)[6] == v@[a + 6]);
            assert(rest.take(15)[7] == v@[a + 7]);
            assert(rest.take(15)[8] == v@[a + 8]);
            assert(rest.take(15)[9] == v@[a + 9]);
            assert(rest.take(15)[10] == v@[a + 10]);
            assert(rest.take(15)[11] == v@[a + 11]);
            assert(rest.take(15)[12] == v@[a + 12]);
            assert(rest.take(15)[13] == v@[a + 13]);
            assert(rest.take(15)[14] == v@[a + 14]);
        }
        assert(strip_all(rest, length_header()) == rest);
    }
    let (ta, tb) = trim_bounds(v, a, to);
    parse_usize_at(v, ta, tb)
}

/// The body length that the head `v[..k]` declares, if any.
fn declared_length_in(v: &Vec<char>, k: usize) -> (r: Option<usize>)
    requires
        k <= v@.len(),
    ensures
        match r {
            Some(y) => declared_length(v@.take(k as int), 0) == Some(y as nat),
            None => declared_length(v@.take(k as int), 0) is None,
        },
{
    let ghost h = v@.take(k as int);
    let pat = length_header_chars();
    let mut i: usize = 0;
    while i <= k
        invariant
            k <= v@.len(),
            h == v@.take(k as int),
            pat@ == length_header(),
            declared_length(h, 0) == declared_length(h, i as int),
        decreases k + 1 - i,
    {
        let mut e = i;
        while e < k && v[e] != '\n'
            invariant
                i <= e <= k <= v@.len(),
                h == v@.take(k as int),
                line_end(h, i as int) == line_end(h, e as int),
            decreases k - e,
        {
            e = e + 1;
        }
        assert(line_end(h, e as int) == e as int);
        assert(h.subrange(i as int, e as int) =~= v@.subrange(i as int, e as int));
        match line_length_at(v, &pat, i, e) {
            Some(x) => {
                return Some(x);
            },
            None => {},
        }
        if e == k {
            return None;
        }
        i = e + 1;
    }
    None
}

/// The body of a request: the bytes after the first `\r\n\r\n`, cut to the
/// length that the first usable `content-length:` header gives; nothing where
/// there is no such separator.
pub fn extract_body(request: &str) -> (r: Result<Vec<u8>, KshError>)
    ensures
        r matches Ok(v) && v@ == request_body(request@),
{
    let chars = chars_of(request);
    let n = chars.len();
    match find_head_end_in(&chars) {
        None => {
            assert(find_head_end(request@, 0) is None);
            Ok(Vec::new())
        },
        Some(k) => {
            proof {
                lemma_find_head_end(chars@, 0);
            }
            let body_text = request.substring_char(k + 4, n);
            assert(body_text@ =~= request@.skip(k + 4));
            let body = body_text.as_bytes();
            let ghost whole = encode_utf8(request@.skip(k + 4));
            assert(body@ == whole);
            assert(find_head_end(request@, 0) == Some(k as int));
            match declared_length_in(&chars, k) {
                Some(len) => {
                    let m = if len < body.len() {
                        len
                    } else {
                        body.len()
                    };
                    let out = vstd::slice::slice_to_vec(vstd::slice::slice_subrange(body, 0, m));
                    assert(out@ =~= whole.take(m as int));
                    assert(declared_length(request@.take(k as int), 0) == Some(len as nat));
                    assert(out@ == request_body(request@));
                    Ok(out)
                },
                None => Ok(vstd::slice::slice_to_vec(body)),
            }
        },
    }
}

/// Where the run of white space in `s[i..e]` that starts at `i` ends.
pub open spec fn skip_ws(s: Seq<char>, i: int, e: int) -> int
    decreases e - i,
{
    if 0 <= i < e && i < s.len() && is_ws(s[i]) {
        skip_ws(s, i + 1, e)
    } else {
        i
    }
}

/// Where the word in `s[i..e]` that starts at `i` ends.
pub open spec fn word_end(s: Seq<char>, i: int, e: int) -> int
    decreases e - i,
{
    if 0 <= i < e && i < s.len() && !is_ws(s[i]) {
        word_end(s, i + 1, e)
    } else {
        i
    }
}

/// What the server does with a request.
pub enum Route {
    /// Writes nothing.
    Silent,
    /// Answers with a plain status response.
    Status(u16),
    /// Serves the block of a CID through the gateway.
    Gateway(CidView),
    /// Serves the block of a CID through the API.
    GetBlock(CidView),
    /// Removes the block of a CID.
    DeleteBlock(CidView),
    /// Stores the body of the request as a block.
    AddBlock,
    /// Lists the stored CIDs.
    ListBlocks,
    /// Answers with the node's identity.
    Identity,
}

/// Whether `s` starts with `p`.
pub open spec fn starts_with(s: Seq<char>, p: Seq<char>) -> bool {
    s.len() >= p.len() && s.take(p.len() as int) == p
}

/// What the server does with a request: its first line holds the method and
/// the path as the first two words.
pub open spec fn route(s: Seq<char>) -> Route {
    let e = line_end(s, 0);
    let a1 = skip_ws(s, 0, e);
    let b1 = word_end(s, a1, e);
    let a2 = skip_ws(s, b1, e);
    let b2 = word_end(s, a2, e);
    if a1 >= e || a2 >= e {
        Route::Silent
    } else {
        let method = s.subrange(a1, b1);
        let path = s.subrange(a2, b2);
        if starts_with(path, "/ipfs/"@) {
            if method != "GET"@ {
                Route::Status(405)
            } else {
                match cid_from_text(path.skip("/ipfs/"@.len() as int)) {
                    None => Route::Status(400),
                    Some(c) => Route::Gateway(c),
                }
            }
        } else if path == "/api/v0/block"@ && method == "POST"@ {
            Route::AddBlock
        } else if starts_with(path, "/api/v0/block/"@) {
            match cid_from_text(path.skip("/api/v0/block/"@.len() as int)) {
                None => Route::Status(400),
                Some(c) => if method == "GET"@ {
                    Route::GetBlock(c)
                } else if method == "DELETE"@ {
                    Route::DeleteBlock(c)
                } else {
                    Route::Silent
                },
            }
        } else if path == "/api/v0/block"@ && method == "GET"@ {
            Route::ListBlocks
        } else if path == "/api/v0/id"@ && method == "GET"@ {
            Route::Identity
        } else {
            Route::Status(404)
        }
    }
}

/// The decimal digits of `n`.
pub open spec fn decimal(n: nat) -> Seq<u8>
    decreases n,
{
    if n < 10 {
        seq![(48 + n) as u8]
    } else {
        decimal(n / 10).push((48 + n % 10) as u8)
    }
}

/// The reason phrase and body of a plain status response.
pub open spec fn status_text(code: u16) -> (Seq<u8>, Seq<u8>) {
    if code == 200 {
        ("OK".spec_bytes(), "ok".spec_bytes())
    } else if code == 400 {
        ("Bad Request".spec_bytes(), "bad request".spec_bytes())
    } else if code == 404 {
        ("Not Found".spec_bytes(), "not found".spec_bytes())
    } else if code == 405 {
        ("Method Not Allowed".spec_bytes(), "method not allowed".spec_bytes())
    } else {
        ("Internal Server Error".spec_bytes(), "error".spec_bytes())
    }
}

/// A plain status response.
pub open spec fn status_response(code: u16) -> Seq<u8> {
    let reason = status_text(code).0;
    let body = status_text(code).1;
    "HTTP/1.1 ".spec_bytes() + decimal(code as nat) + " ".spec_bytes() + reason + "\r\nContent-Length: ".spec_bytes()
        + decimal(body.len()) + "\r\nContent-Type: text/plain\r\n\r\n".spec_bytes() + body
}

/// A JSON response.
pub open spec fn json_response(code: u16, json: Seq<u8>) -> Seq<u8> {
    let reason = if code == 200 {
        "OK".spec_bytes()
    } else {
        "Error".spec_bytes()
    };
    "HTTP/1.1 ".spec_bytes() + decimal(code as nat) + " ".spec_bytes() + reason + "\r\nContent-Length: ".spec_bytes()
        + decimal(json.len()) + "\r\nContent-Type: application/json\r\n\r\n".spec_bytes() + json
}

/// The gateway's response with the data of a block.
pub open spec fn gateway_response(data: Seq<u8>) -> Seq<u8> {
    "HTTP/1.1 200 OK\r\nContent-Type: application/octet-stream\r\nContent-Length: ".spec_bytes() + decimal(
        data.len(),
    ) + "\r\nX-Content-Type-Options: nosniff\r\n\r\n".spec_bytes() + data
}

/// The API's response with the data of a block.
pub open spec fn block_response(data: Seq<u8>) -> Seq<u8> {
    "HTTP/1.1 200 OK\r\nContent-Type: application/octet-stream\r\nContent-Length: ".spec_bytes() + decimal(
        data.len(),
    ) + "\r\n\r\n".spec_bytes() + data
}

/// A CID's text form in double quotes.
pub open spec fn quoted(c: CidView) -> Seq<u8> {
    "\"".spec_bytes() + encode_utf8(cid_text(c)) + "\"".spec_bytes()
}

/// The quoted text forms of CIDs, separated by commas.
pub open spec fn quoted_list(cs: Seq<CidView>) -> Seq<u8>
    decreases cs.len(),
{
    if cs.len() == 0 {
        Seq::empty()
    } else if cs.len() == 1 {
        quoted(cs[0])
    } else {
        quoted_list(cs.drop_last()) + ",".spec_bytes() + quoted(cs.last())
    }
}

/// What the server writes for a request, given the store's contents and
/// listing before it.
pub open spec fn response(s: Seq<char>, contents: Map<CidView, Seq<u8>>, listing: Seq<CidView>) -> Seq<u8> {
    match route(s) {
        Route::Silent => Seq::empty(),
        Route::Status(code) => status_response(code),
        Route::Gateway(c) => if contents.contains_key(c) {
            gateway_response(contents[c])
        } else {
            status_response(404)
        },
        Route::GetBlock(c) => if contents.contains_key(c) {
            block_response(contents[c])
        } else {
            status_response(404)
        },
        Route::DeleteBlock(_) => json_response(200, "{\"status\":\"removed\"}\n".spec_bytes()),
        Route::AddBlock => json_response(
            200,
            "{\"cid\":\"".spec_bytes() + encode_utf8(cid_text(raw_cid_of(request_body(s)))) + "\"}\n".spec_bytes(),
        ),
        Route::ListBlocks => json_response(200, "[".spec_bytes() + quoted_list(listing) + "]\n".spec_bytes()),
        Route::Identity => json_response(200, "{\"peer_id\":\"local\",\"addresses\":[]}\n".spec_bytes()),
    }
}

/// The store's contents after a request.
pub open spec fn contents_after(s: Seq<char>, contents: Map<CidView, Seq<u8>>) -> Map<CidView, Seq<u8>> {
    match route(s) {
        Route::AddBlock => contents.insert(raw_cid_of(request_body(s)), request_body(s)),
        Route::DeleteBlock(c) => contents.remove(c),
        _ => contents,
    }
}

/// Appends the bytes of `s`.
fn push_str(v: &mut Vec<u8>, s: &str)
    ensures
        final(v)@ == old(v)@ + s.spec_bytes(),
{
    append_bytes(v, s.as_bytes());
}

/// Appends the decimal digits of `n`.
fn push_decimal(v: &mut Vec<u8>, n: u64)
    ensures
        final(v)@ == old(v)@ + decimal(n as nat),
    decreases n,
{
    if n >= 10 {
        push_decimal(v, n / 10);
    }
    v.push((48 + n % 10) as u8);
    assert(v@ =~= old(v)@ + decimal(n as nat));
}

/// A plain status response.
pub fn write_status(code: u16) -> (v: Vec<u8>)
    ensures
        v@ == status_response(code),
{
    let (reason, body) = if code == 200 {
        ("OK", "ok")
    } else if code == 400 {
        ("Bad Request", "bad request")
    } else if code == 404 {
        ("Not Found", "not found")
    } else if code == 405 {
        ("Method Not Allowed", "method not allowed")
    } else {
        ("Internal Server Error", "error")
    };
    assert(status_text(code) == (reason.spec_bytes(), body.spec_bytes()));
    let mut v: Vec<u8> = Vec::new();
    push_str(&mut v, "HTTP/1.1 ");
    push_decimal(&mut v, code as u64);
    push_str(&mut v, " ");
    push_str(&mut v, reason);
    push_str(&mut v, "\r\nContent-Length: ");
    push_decimal(&mut v, body.as_bytes().len() as u64);
    push_str(&mut v, "\r\nContent-Type: text/plain\r\n\r\n");
    push_str(&mut v, body);
    assert(v@ =~= status_response(code));
    v
}

/// A JSON response.
pub fn write_json(code: u16, json: &[u8]) -> (v: Vec<u8>)
    ensures
        v@ == json_response(code, json@),
{
    let reason = if code == 200 {
        "OK"
    } else {
        "Error"
    };
    let mut v: Vec<u8> = Vec::new();
    push_str(&mut v, "HTTP/1.1 ");
    push_decimal(&mut v, code as u64);
    push_str(&mut v, " ");
    push_str(&mut v, reason);
    push_str(&mut v, "\r\nContent-Length: ");
    push_decimal(&mut v, json.len() as u64);
    push_str(&mut v, "\r\nContent-Type: application/json\r\n\r\n");
    append_bytes(&mut v, json);
    assert(v@ =~= json_response(code, json@));
    v
}

/// Whether `v[a..b]` is `w`.
fn span_is(v: &Vec<char>, a: usize, b: usize, w: &Vec<char>) -> (r: bool)
    requires
        a <= b <= v@.len(),
    ensures
        r == (v@.subrange(a as int, b as int) == w@),
{
    if b - a != w.len() {
        return false;
    }
    let mut i: usize = 0;
    while i < w.len()
        invariant
            a <= b <= v@.len(),
            b - a == w@.len(),
            i <= w@.len(),
            forall|j: int| 0 <= j < i ==> v@[a + j] == w@[j],
        decreases w@.len() - i,
    {
        if v[a + i] != w[i] {
            assert(v@.subrange(a as int, b as int)[i as int] != w@[i as int]);
            return false;
        }
        i = i + 1;
    }
    assert(v@.subrange(a as int, b as int) =~= w@);
    true
}

/// Whether `v[a..b]` starts with `w`.
fn span_starts_with(v: &Vec<char>, a: usize, b: usize, w: &Vec<char>) -> (r: bool)
    requires
        a <= b <= v@.len(),
    ensures
        r == starts_with(v@.subrange(a as int, b as int), w@),
{
    if b - a < w.len() {
        return false;
    }
    let r = span_is(v, a, a + w.len(), w);
    assert(v@.subrange(a as int, b as int).take(w@.len() as int) =~= v@.subrange(a as int, a + w@.len()));
    r
}

/// Where the run of white space in `v[i..e]` that starts at `i` ends.
fn skip_ws_in(v: &Vec<char>, i: usize, e: usize) -> (r: usize)
    requires
        i <= e <= v@.len(),
    ensures
        r == skip_ws(v@, i as int, e as int),
        i <= r <= e,
{
    let mut j = i;
    while j < e && char_is_ws(v[j])
        invariant
            i <= j <= e <= v@.len(),
            skip_ws(v@, i as int, e as int) == skip_ws(v@, j as int, e as int),
        decreases e - j,
    {
        j = j + 1;
    }
    j
}

/// Where the word in `v[i..e]` that starts at `i` ends.
fn word_end_in(v: &Vec<char>, i: usize, e: usize) -> (r: usize)
    requires
        i <= e <= v@.len(),
    ensures
        r == word_end(v@, i as int, e as int),
        i <= r <= e,
{
    let mut j = i;
    while j < e && !char_is_ws(v[j])
        invariant
            i <= j <= e <= v@.len(),
            word_end(v@, i as int, e as int) == word_end(v@, j as int, e as int),
        decreases e - j,
    {
        j = j + 1;
    }
    j
}

/// A block added through the API is served back, by the API and by the
/// gateway, under the CID the API answered with; once removed through the
/// API, both answer 404.
pub proof fn lemma_add_then_get(
    contents: Map<CidView, Seq<u8>>,
    listing: Seq<CidView>,
    add: Seq<char>,
    get: Seq<char>,
    gateway: Seq<char>,
    delete: Seq<char>,
)
    requires
        route(add) is AddBlock,
        route(get) == Route::GetBlock(raw_cid_of(request_body(add))),
        route(gateway) == Route::Gateway(raw_cid_of(request_body(add))),
        route(delete) == Route::DeleteBlock(raw_cid_of(request_body(add))),
    ensures
        response(get, contents_after(add, contents), listing) == block_response(request_body(add)),
        response(gateway, contents_after(add, contents), listing) == gateway_response(request_body(add)),
        response(get, contents_after(delete, contents_after(add, contents)), listing) == status_response(404),
        response(gateway, contents_after(delete, contents_after(add, contents)), listing) == status_response(404),
{
}

/// The number that a run of ASCII decimal digits stands for, most
/// significant digit first.
pub open spec fn digits_value(s: Seq<u8>) -> int
    decreases s.len(),
{
    if s.len() == 0 {
        0
    } else {
        digits_value(s.drop_last()) * 10 + (s.last() - 48)
    }
}

/// Whether every byte of `s` is an ASCII decimal digit.
pub open spec fn all_digits(s: Seq<u8>) -> bool {
    forall|i: int| 0 <= i < s.len() ==> 48 <= #[trigger] s[i] <= 57
}

/// The digits written for a number read back as that number: they are ASCII
/// decimal digits, at least one, with no leading zero, whose value is `n`. So
/// a `Content-Length` header gives the length of the data that follows it.
pub proof fn lemma_decimal_reads_back(n: nat)
    ensures
        all_digits(decimal(n)),
        decimal(n).len() >= 1,
        n >= 10 <==> decimal(n).len() > 1,
        decimal(n).len() > 1 ==> decimal(n)[0] != 48,
        digits_value(decimal(n)) == n,
    decreases n,
{
    if n >= 10 {
        lemma_decimal_reads_back(n / 10);
        let d = decimal(n);
        assert(d.drop_last() == decimal(n / 10));
        assert(d[0] == decimal(n / 10)[0]);
        assert(n == (n / 10) * 10 + n % 10);
        if n / 10 < 10 {
            assert(decimal(n / 10) == seq![(48 + n / 10) as u8]);
        }
    } else {
        assert(digits_value(decimal(n).drop_last()) == 0);
    }
}

/// Whether `needle` stands somewhere in `hay`.
pub open spec fn occurs(hay: Seq<u8>, needle: Seq<u8>) -> bool {
    exists|k: int| 0 <= k && k + needle.len() <= hay.len() && #[trigger] hay.subrange(k, k + needle.len()) == needle
}

/// The sizes of the quoted text forms of `cs`, each with one separator.
pub open spec fn quoted_sizes(cs: Seq<CidView>) -> nat
    decreases cs.len(),
{
    if cs.len() == 0 {
        0
    } else {
        quoted_sizes(cs.drop_last()) + quoted(cs.last()).len() + 1
    }
}

proof fn lemma_occurs_in_front(p: Seq<u8>, q: Seq<u8>, needle: Seq<u8>)
    requires
        occurs(p, needle),
    ensures
        occurs(p + q, needle),
{
    let k = choose|k: int| 0 <= k && k + needle.len() <= p.len() && #[trigger] p.subrange(k, k + needle.len()) == needle;
    assert((p + q).subrange(k, k + needle.len()) =~= p.subrange(k, k + needle.len()));
}

proof fn lemma_occurs_behind(p: Seq<u8>, q: Seq<u8>, needle: Seq<u8>)
    requires
        occurs(q, needle),
    ensures
        occurs(p + q, needle),
{
    let k = choose|k: int| 0 <= k && k + needle.len() <= q.len() && #[trigger] q.subrange(k, k + needle.len()) == needle;
    assert((p + q).subrange(p.len() + k, p.len() + k + needle.len()) =~= q.subrange(k, k + needle.len()));
}

/// The list of quoted CIDs holds the quoted text form of every CID it is
/// made of, and nothing but those and one comma between each two: its size
/// is theirs, plus one less comma than there are CIDs.
pub proof fn lemma_quoted_list_names_all(cs: Seq<CidView>)
    ensures
        forall|i: int| 0 <= i < cs.len() ==> occurs(quoted_list(cs), quoted(#[trigger] cs[i])),
        cs.len() > 0 ==> quoted_list(cs).len() + 1 == quoted_sizes(cs),
        cs.len() == 0 ==> quoted_list(cs).len() == 0,
    decreases cs.len(),
{
    if cs.len() == 1 {
        let q = quoted(cs[0]);
        assert(quoted_list(cs) == q);
        assert(q.subrange(0, 0 + q.len() as int) =~= q);
        assert(occurs(quoted_list(cs), quoted(cs[0])));
        assert(cs.drop_last() =~= Seq::<CidView>::empty());
        assert(quoted_sizes(cs.drop_last()) == 0);
        assert(cs.last() == cs[0]);
    } else if cs.len() > 1 {
        let front = cs.drop_last();
        lemma_quoted_list_names_all(front);
        reveal_strlit(",");
        vstd::string::is_ascii_spec_bytes(",");
        assert(vstd::string::is_ascii(","));
        assert(",".spec_bytes().len() == 1);
        let p = quoted_list(front) + ",".spec_bytes();
        let last = quoted(cs.last());
        assert(quoted_list(cs) == p + last);
        assert forall|i: int| 0 <= i < cs.len() implies occurs(quoted_list(cs), quoted(#[trigger] cs[i])) by {
            if i < cs.len() - 1 {
                assert(front[i] == cs[i]);
                lemma_occurs_in_front(quoted_list(front), ",".spec_bytes(), quoted(cs[i]));
                lemma_occurs_in_front(p, last, quoted(cs[i]));
            } else {
                assert(cs[i] == cs.last());
                assert(last.subrange(0, 0 + last.len() as int) =~= last);
                assert(occurs(last, last));
                lemma_occurs_behind(p, last, quoted(cs[i]));
            }
        }
    }
}

/// The answer to a request for the list of blocks names every CID the store
/// lists, so every stored block where the listing covers the store.
pub proof fn lemma_listing_names_every_block(s: Seq<char>, contents: Map<CidView, Seq<u8>>, listing: Seq<CidView>)
    requires
        route(s) is ListBlocks,
    ensures
        forall|i: int| 0 <= i < listing.len() ==> occurs(response(s, contents, listing), quoted(#[trigger] listing[i])),
        contents.dom().subset_of(listing.to_set()) ==> forall|c: CidView|
            #[trigger] contents.contains_key(c) ==> occurs(response(s, contents, listing), quoted(c)),
{
    lemma_quoted_list_names_all(listing);
    let json = "[".spec_bytes() + quoted_list(listing) + "]\n".spec_bytes();
    let head = "HTTP/1.1 ".spec_bytes() + decimal(200) + " ".spec_bytes() + "OK".spec_bytes()
        + "\r\nContent-Length: ".spec_bytes() + decimal(json.len()) + "\r\nContent-Type: application/json\r\n\r\n".spec_bytes();
    assert(response(s, contents, listing) == head + json);
    assert forall|i: int| 0 <= i < listing.len() implies occurs(response(s, contents, listing), quoted(#[trigger] listing[i])) by {
        lemma_occurs_behind("[".spec_bytes(), quoted_list(listing), quoted(listing[i]));
        lemma_occurs_in_front("[".spec_bytes() + quoted_list(listing), "]\n".spec_bytes(), quoted(listing[i]));
        lemma_occurs_behind(head, json, quoted(listing[i]));
    }
    assert forall|c: CidView| contents.dom().subset_of(listing.to_set()) && #[trigger] contents.contains_key(c) implies occurs(
        response(s, contents, listing),
        quoted(c),
    ) by {
        assert(listing.to_set().contains(c));
        let i = choose|i: int| 0 <= i < listing.len() && listing[i] == c;
        assert(occurs(response(s, contents, listing), quoted(listing[i])));
    }
}

/// The quoted text form of a CID.
fn push_quoted(v: &mut Vec<u8>, c: &Cid)
    ensures
        final(v)@ == old(v)@ + quoted(c@),
{
    let text = c.to_string();
    push_str(v, "\"");
    push_str(v, text.as_str());
    push_str(v, "\"");
    assert(final(v)@ =~= old(v)@ + quoted(c@));
}

/// The JSON list of the quoted text forms of `cids`.
fn cid_list_json(cids: &Vec<Cid>) -> (v: Vec<u8>)
    ensures
        v@ == "[".spec_bytes() + quoted_list(cid_views(cids@)) + "]\n".spec_bytes(),
{
    let ghost views = cid_views(cids@);
    let mut v: Vec<u8> = Vec::new();
    push_str(&mut v, "[");
    let n = cids.len();
    let mut i: usize = 0;
    assert(views.take(0) =~= Seq::<CidView>::empty());
    while i < n
        invariant
            n == cids@.len(),
            views == cid_views(cids@),
            i <= n,
            v@ == "[".spec_bytes() + quoted_list(views.take(i as int)),
        decreases n - i,
    {
        let ghost before = v@;
        if i > 0 {
            push_str(&mut v, ",");
        }
        push_quoted(&mut v, &cids[i]);
        proof {
            let t = views.take(i + 1);
            assert(t.drop_last() =~= views.take(i as int));
            assert(t.last() == cids@[i as int]@);
            if i == 0 {
                assert(t.len() == 1);
                assert(quoted_list(t) == quoted(t[0]));
                assert(v@ =~= "[".spec_bytes() + quoted_list(t));
            } else {
                assert(v@ =~= "[".spec_bytes() + quoted_list(t));
            }
        }
        i = i + 1;
    }
    assert(views.take(n as int) =~= views);
    push_str(&mut v, "]\n");
    v
}

/// Whether the server reads or changes the store for a route.
pub open spec fn uses_store(route: Route) -> bool {
    match route {
        Route::Silent | Route::Status(_) | Route::Identity => false,
        _ => true,
    }
}

/// The response to a request, and what it does to the store. Nothing is
/// written where the first line does not hold a method and a path. A request
/// that fails leaves the store as it was or as the request would have left it.
pub fn handle_request<S: BlockStore>(store: &mut S, request: &str) -> (r: Result<Vec<u8>, KshError>)
    ensures
        r matches Ok(v) ==> v@ == response(request@, old(store).contents(), old(store).listing())
            && final(store).contents() == contents_after(request@, old(store).contents()),
        !uses_store(route(request@)) ==> r is Ok,
        r is Err ==> final(store).contents() == old(store).contents() || final(store).contents() == contents_after(
            request@,
            old(store).contents(),
        ),
        old(store).infallible() ==> r is Ok,
        final(store).infallible() == old(store).infallible(),
{
    let ghost s = request@;
    let chars = chars_of(request);
    let n = chars.len();
    let mut e: usize = 0;
    while e < n && chars[e] != '\n'
        invariant
            n == chars@.len(),
            chars@ == s,
            e <= n,
            line_end(s, 0) == line_end(s, e as int),
        decreases n - e,
    {
        e = e + 1;
    }
    assert(line_end(s, e as int) == e as int);
    let a1 = skip_ws_in(&chars, 0, e);
    let b1 = word_end_in(&chars, a1, e);
    let a2 = skip_ws_in(&chars, b1, e);
    let b2 = word_end_in(&chars, a2, e);
    if a1 >= e || a2 >= e {
        return Ok(Vec::new());
    }
    let get = chars_of("GET");
    let post = chars_of("POST");
    let delete = chars_of("DELETE");
    let ipfs = chars_of("/ipfs/");
    let blocks = chars_of("/api/v0/block");
    let block_prefix = chars_of("/api/v0/block/");
    let id = chars_of("/api/v0/id");
    let is_get = span_is(&chars, a1, b1, &get);
    let is_post = span_is(&chars, a1, b1, &post);
    let is_delete = span_is(&chars, a1, b1, &delete);
    let ghost path = s.subrange(a2 as int, b2 as int);
    if span_starts_with(&chars, a2, b2, &ipfs) {
        if !is_get {
            return Ok(write_status(405));
        }
        let text = request.substring_char(a2 + ipfs.len(), b2);
        assert(text@ =~= path.skip("/ipfs/"@.len() as int));
        let cid = match crate::block::parse_cid(text) {
            Ok(c) => c,
            Err(_) => {
                return Ok(write_status(400));
            },
        };
        match store.get(&cid)? {
            Some(block) => {
                let data = block.data();
                let mut v: Vec<u8> = Vec::new();
                push_str(&mut v, "HTTP/1.1 200 OK\r\nContent-Type: application/octet-stream\r\nContent-Length: ");
                push_decimal(&mut v, data.len() as u64);
                push_str(&mut v, "\r\nX-Content-Type-Options: nosniff\r\n\r\n");
                append_bytes(&mut v, data.as_slice());
                assert(v@ =~= gateway_response(data@));
                Ok(v)
            },
            None => Ok(write_status(404)),
        }
    } else if span_is(&chars, a2, b2, &blocks) && is_post {
        let body = extract_body(request)?;
        let block = Block::new(body)?;
        store.put(&block)?;
        let text = block.cid().to_string();
        let mut json: Vec<u8> = Vec::new();
        push_str(&mut json, "{\"cid\":\"");
        push_str(&mut json, text.as_str());
        push_str(&mut json, "\"}\n");
        Ok(write_json(200, json.as_slice()))
    } else if span_starts_with(&chars, a2, b2, &block_prefix) {
        let text = request.substring_char(a2 + block_prefix.len(), b2);
        assert(text@ =~= path.skip("/api/v0/block/"@.len() as int));
        let cid = match crate::block::parse_cid(text) {
            Ok(c) => c,
            Err(_) => {
                return Ok(write_status(400));
            },
        };
        if is_get {
            match store.get(&cid)? {
                Some(block) => {
                    let data = block.data();
                    let mut v: Vec<u8> = Vec::new();
                    push_str(&mut v, "HTTP/1.1 200 OK\r\nContent-Type: application/octet-stream\r\nContent-Length: ");
                    push_decimal(&mut v, data.len() as u64);
                    push_str(&mut v, "\r\n\r\n");
                    append_bytes(&mut v, data.as_slice());
                    assert(v@ =~= block_response(data@));
                    Ok(v)
                },
                None => Ok(write_status(404)),
            }
        } else if is_delete {
            store.remove(&cid)?;
            Ok(write_json(200, "{\"status\":\"removed\"}\n".as_bytes()))
        } else {
            Ok(Vec::new())
        }
    } else if span_is(&chars, a2, b2, &blocks) && is_get {
        let cids = store.list()?;
        let json = cid_list_json(&cids);
        Ok(write_json(200, json.as_slice()))
    } else if span_is(&chars, a2, b2, &id) && is_get {
        Ok(write_json(200, "{\"peer_id\":\"local\",\"addresses\":[]}\n".as_bytes()))
    } else {
        Ok(write_status(404))
    }
}

} // verus!
