//! The command-line client's side of HTTP: the requests it sends to the
//! daemon and how it reads the replies.
use vstd::prelude::*;
use crate::text::{chars_of, is_ws, is_ws_exec, replace_all, replaced, string_of};

verus! {

// ---------------------------------------------------------------------------
// The status line
// ---------------------------------------------------------------------------

/// `k` is the position of the first '\n' of `s`, or its length when there
/// is none.
pub open spec fn is_first_newline(s: Seq<char>, k: int) -> bool {
    &&& 0 <= k <= s.len()
    &&& (k == s.len() || s[k] == '\n')
    &&& forall|j: int| 0 <= j < k ==> s[j] != '\n'
}

/// The first line of a text as `str::lines` gives it: everything before
/// the first '\n' without a '\r' right before that '\n'; the whole text
/// when it holds no '\n'.
pub open spec fn first_line(s: Seq<char>) -> Seq<char> {
    let k = choose|k: int| is_first_newline(s, k);
    if k < s.len() && k > 0 && s[k - 1] == '\r' {
        s.take(k - 1)
    } else {
        s.take(k)
    }
}

/// The words of a text split at white space (`str::split_whitespace`).
pub open spec fn words(s: Seq<char>) -> Seq<Seq<char>>
    decreases s.len(),
{
    if s.len() == 0 {
        seq![]
    } else {
        let w = words(s.drop_last());
        let c = s.last();
        if is_ws(c) {
            w
        } else if s.len() == 1 || is_ws(s[s.len() - 2]) {
            w.push(seq![c])
        } else {
            w.update(w.len() - 1, w.last().push(c))
        }
    }
}

/// Whether a character is an ASCII digit.
pub open spec fn is_digit(c: char) -> bool {
    '0' <= c && c <= '9'
}

/// The value of a string of decimal digits.
pub open spec fn digits_value(t: Seq<char>) -> nat
    decreases t.len(),
{
    if t.len() == 0 {
        0
    } else {
        digits_value(t.drop_last()) * 10 + (t.last() as nat - '0' as nat) as nat
    }
}

/// Whether every character of a text is an ASCII digit.
pub open spec fn all_digits(b: Seq<char>) -> bool {
    forall|i: int| 0 <= i < b.len() ==> is_digit(#[trigger] b[i])
}

/// A text without its leading '+', if it has one.
pub open spec fn unsigned_part(t: Seq<char>) -> Seq<char> {
    if t.len() > 0 && t[0] == '+' {
        t.drop_first()
    } else {
        t
    }
}

/// What `str::parse::<u16>` gives: an optional '+' then one or more ASCII
/// digits whose value fits in a `u16`; `None` for anything else.
pub open spec fn parse_u16_spec(t: Seq<char>) -> Option<u16> {
    let b = unsigned_part(t);
    if b.len() > 0 && all_digits(b) && digits_value(b) <= u16::MAX {
        Some(digits_value(b) as u16)
    } else {
        None
    }
}

/// The status code of an HTTP response: the second word of its first line
/// read as a `u16`, 0 when there is none.
pub open spec fn status_code(response: Seq<char>) -> u16 {
    let ws = words(first_line(response));
    if ws.len() >= 2 {
        match parse_u16_spec(ws[1]) {
            Some(v) => v,
            None => 0,
        }
    } else {
        0
    }
}

/// A request the daemon did not answer with a 2xx status.
pub struct HttpError {
    /// The first line of the response
    pub status_line: String,
}

impl HttpError {
    /// The error message: "HTTP request failed: <status line>".
    pub fn message(&self) -> (m: String)
        ensures
            m@ == "HTTP request failed: "@ + self.status_line@,
    {
        let mut m = String::from_str("HTTP request failed: ");
        m.append(self.status_line.as_str());
        m
    }
}

fn first_newline(s: &Vec<char>) -> (k: usize)
    ensures
        is_first_newline(s@, k as int),
{
    let mut k: usize = 0;
    while k < s.len() && s[k] != '\n'
        invariant
            k <= s.len(),
            forall|j: int| 0 <= j < k ==> s@[j] != '\n',
        decreases s.len() - k,
    {
        k = k + 1;
    }
    k
}

proof fn lemma_first_newline_unique(s: Seq<char>, a: int, b: int)
    requires
        is_first_newline(s, a),
        is_first_newline(s, b),
    ensures
        a == b,
{
    if a < b {
        assert(s[a] != '\n');
    } else if b < a {
        assert(s[b] != '\n');
    }
}

/// The first line of a text, as `str::lines` gives it.
pub fn first_line_of(s: &Vec<char>) -> (r: Vec<char>)
    ensures
        r@ == first_line(s@),
{
    let k = first_newline(s);
    proof {
        let c = choose|c: int| is_first_newline(s@, c);
        lemma_first_newline_unique(s@, c, k as int);
    }
    let end = if k < s.len() && k > 0 && s[k - 1] == '\r' {
        k - 1
    } else {
        k
    };
    let mut r: Vec<char> = Vec::new();
    let mut i: usize = 0;
    while i < end
        invariant
            i <= end <= s.len(),
            r@ == s@.take(i as int),
        decreases end - i,
    {
        r.push(s[i]);
        i = i + 1;
        assert(r@ =~= s@.take(i as int));
    }
    r
}

proof fn lemma_words_nonempty(s: Seq<char>)
    requires
        s.len() > 0,
        !is_ws(s.last()),
    ensures
        words(s).len() > 0,
    decreases s.len(),
{
    let w = words(s.drop_last());
    if s.len() == 1 || is_ws(s[s.len() - 2]) {
    } else {
        lemma_words_nonempty(s.drop_last());
    }
}

/// The second word of a text split at white space, if it has two.
pub fn second_word(s: &Vec<char>) -> (r: Option<Vec<char>>)
    ensures
        match r {
            Some(w) => words(s@).len() >= 2 && w@ == words(s@)[1],
            None => words(s@).len() < 2,
        },
{
    let mut count: usize = 0;
    let mut second: Vec<char> = Vec::new();
    let mut i: usize = 0;
    while i < s.len()
        invariant
            i <= s.len(),
            count <= i,
            count == words(s@.take(i as int)).len(),
            count >= 2 ==> second@ == words(s@.take(i as int))[1],
        decreases s.len() - i,
    {
        let c = s[i];
        let ghost prev = s@.take(i as int);
        proof {
            assert(s@.take(i + 1).drop_last() =~= prev);
            assert(s@.take(i + 1).last() == c);
            if i > 0 {
                assert(s@.take(i + 1)[i - 1] == s@[i - 1]);
                if !is_ws(s@[i - 1]) {
                    assert(prev.last() == s@[i - 1]);
                    lemma_words_nonempty(prev);
                }
            }
        }
        if is_ws_exec(c) {
        } else if i == 0 || is_ws_exec(s[i - 1]) {
            count = count + 1;
            if count == 2 {
                second = Vec::new();
                second.push(c);
                assert(second@ =~= seq![c]);
            }
        } else {
            if count == 2 {
                second.push(c);
            }
        }
        i = i + 1;
    }
    assert(s@.take(s.len() as int) =~= s@);
    if count >= 2 {
        Some(second)
    } else {
        None
    }
}

/// A text read as a `u16` the way `str::parse::<u16>` does.
pub fn parse_u16(t: &Vec<char>) -> (r: Option<u16>)
    ensures
        r == parse_u16_spec(t@),
{
    let start: usize = if t.len() > 0 && t[0] == '+' {
        1
    } else {
        0
    };
    let ghost b = unsigned_part(t@);
    assert(b =~= t@.skip(start as int));
    if start >= t.len() {
        return None;
    }
    let mut v: u32 = 0;
    let mut i: usize = start;
    while i < t.len()
        invariant
            start <= i <= t.len(),
            b == t@.skip(start as int),
            forall|j: int| 0 <= j < i - start ==> is_digit(#[trigger] b[j]),
            v == digits_value(b.take(i - start)),
            v <= u16::MAX,
        decreases t.len() - i,
    {
        let c = t[i];
        if c < '0' || c > '9' {
            assert(!is_digit(b[i - start]));
            return None;
        }
        proof {
            assert(b.take(i - start + 1).drop_last() =~= b.take(i - start));
            assert(b.take(i - start + 1).last() == c);
        }
        let d = (c as u32) - ('0' as u32);
        let nv = v * 10 + d;
        if nv > 65535 {
            proof {
                if all_digits(b) {
                    lemma_digits_prefix(b, i - start + 1);
                }
            }
            return None;
        }
        v = nv;
        i = i + 1;
    }
    assert(b.take(b.len() as int) =~= b);
    Some(v as u16)
}

proof fn lemma_digits_prefix(b: Seq<char>, n: int)
    requires
        0 <= n <= b.len(),
        all_digits(b),
    ensures
        digits_value(b.take(n)) <= digits_value(b),
    decreases b.len(),
{
    if n < b.len() {
        assert forall|j: int| 0 <= j < b.drop_last().len() implies is_digit(
            #[trigger] b.drop_last()[j],
        ) by {
            assert(b.drop_last()[j] == b[j]);
        }
        lemma_digits_prefix(b.drop_last(), n);
        assert(b.drop_last().take(n) =~= b.take(n));
        assert(is_digit(b[b.len() - 1]));
    } else {
        assert(b.take(n) =~= b);
    }
}

/// The status code of an HTTP response, 0 when it has none.
pub fn response_status(response: &str) -> (r: u16)
    ensures
        r == status_code(response@),
{
    let s = chars_of(response);
    let line = first_line_of(&s);
    match second_word(&line) {
        Some(w) => match parse_u16(&w) {
            Some(v) => v,
            None => 0,
        },
        None => 0,
    }
}

/// `Ok` when the response's status code is 2xx, else an error that
/// carries its first line.
pub fn ensure_success(response: &str) -> (r: Result<(), HttpError>)
    ensures
        r is Ok <==> 200 <= status_code(response@) < 300,
        r matches Err(e) ==> e.status_line@ == first_line(response@),
{
    let status = response_status(response);
    if 200 <= status && status < 300 {
        Ok(())
    } else {
        let s = chars_of(response);
        let line = first_line_of(&s);
        Err(HttpError { status_line: string_of(&line) })
    }
}

// ---------------------------------------------------------------------------
// The body
// ---------------------------------------------------------------------------

/// The blank line that ends the head of an HTTP message.
pub open spec fn head_end() -> Seq<char> {
    seq!['\r', '\n', '\r', '\n']
}

/// Whether the head of a message ends at `k`.
pub open spec fn head_ends_at(s: Seq<char>, k: int) -> bool {
    0 <= k && k + 4 <= s.len() && s.subrange(k, k + 4) == head_end()
}

/// The body of a response: what follows the first blank line, "{}" when
/// there is none.
pub open spec fn body_spec(s: Seq<char>) -> Seq<char> {
    if exists|k: int| head_ends_at(s, k) {
        let k = choose|k: int| head_ends_at(s, k) && forall|j: int| 0 <= j < k ==> !head_ends_at(s, j);
        s.skip(k + 4)
    } else {
        seq!['{', '}']
    }
}

/// The body of a response: what follows the first "\r\n\r\n", "{}" when
/// there is none.
pub fn response_body(response: &str) -> (r: String)
    ensures
        r@ == body_spec(response@),
{
    let s = chars_of(response);
    let n = s.len();
    let mut k: usize = 0;
    while n >= 4 && k <= n - 4
        invariant
            n == s@.len(),
            s@ == response@,
            forall|j: int| 0 <= j < k ==> !head_ends_at(s@, j),
        decreases n - k,
    {
        if s[k] == '\r' && s[k + 1] == '\n' && s[k + 2] == '\r' && s[k + 3] == '\n' {
            proof {
                assert(s@.subrange(k as int, k + 4) =~= head_end());
                assert(head_ends_at(s@, k as int));
                let c = choose|c: int| head_ends_at(s@, c) && forall|j: int| 0 <= j < c ==> !head_ends_at(s@, j);
                if c < k {
                } else if c > k {
                    assert(!head_ends_at(s@, k as int));
                }
            }
            let mut r: Vec<char> = Vec::new();
            let mut i: usize = k + 4;
            while i < n
                invariant
                    k + 4 <= i <= n,
                    n == s@.len(),
                    r@ == s@.subrange(k + 4, i as int),
                decreases n - i,
            {
                r.push(s[i]);
                i = i + 1;
                assert(r@ =~= s@.subrange(k + 4, i as int));
            }
            return string_of(&r);
        }
        proof {
            if head_ends_at(s@, k as int) {
                assert(s@.subrange(k as int, k + 4)[0] == s@[k as int]);
                assert(s@.subrange(k as int, k + 4)[1] == s@[k + 1]);
                assert(s@.subrange(k as int, k + 4)[2] == s@[k + 2]);
                assert(s@.subrange(k as int, k + 4)[3] == s@[k + 3]);
            }
        }
        k = k + 1;
    }
    proof {
        assert forall|j: int| !head_ends_at(s@, j) by {
            if 0 <= j && j + 4 <= n {
                assert(j < k);
            }
        }
    }
    let mut r: Vec<char> = Vec::new();
    r.push('{');
    r.push('}');
    assert(r@ =~= seq!['{', '}']);
    string_of(&r)
}

// ---------------------------------------------------------------------------
// Requests
// ---------------------------------------------------------------------------

/// The scheme prefix a URL of the daemon may carry.
pub open spec fn http_scheme() -> Seq<char> {
    seq!['h', 't', 't', 'p', ':', '/', '/']
}

/// A URL without its "http://" prefix, if it has one.
pub open spec fn without_scheme(u: Seq<char>) -> Seq<char> {
    if u.len() >= 7 && u.take(7) == http_scheme() {
        u.skip(7)
    } else {
        u
    }
}

/// `k` is the position of the first '/' of `s`, or its length when there
/// is none.
pub open spec fn is_first_slash(s: Seq<char>, k: int) -> bool {
    &&& 0 <= k <= s.len()
    &&& (k == s.len() || s[k] == '/')
    &&& forall|j: int| 0 <= j < k ==> s[j] != '/'
}

/// The host (with port) and the path of a URL: without "http://", the
/// host is what comes before the first '/', and the path is '/' and what
/// follows it.
pub open spec fn url_parts(u: Seq<char>) -> (Seq<char>, Seq<char>) {
    let rest = without_scheme(u);
    let k = choose|k: int| is_first_slash(rest, k);
    if k < rest.len() {
        (rest.take(k), seq!['/'] + rest.skip(k + 1))
    } else {
        (rest, seq!['/'])
    }
}

/// The host (with port) and the path of a URL.
pub fn split_url(url: &str) -> (r: (String, String))
    ensures
        r.0@ == url_parts(url@).0,
        r.1@ == url_parts(url@).1,
{
    let u = chars_of(url);
    let scheme = chars_of("http://");
    proof {
        reveal_strlit("http://");
        assert(scheme@ =~= http_scheme());
    }
    let mut has_scheme = u.len() >= 7;
    let mut i: usize = 0;
    while i < 7 && has_scheme
        invariant
            i <= 7,
            scheme@ == http_scheme(),
            has_scheme ==> u@.len() >= 7 && forall|j: int| 0 <= j < i ==> u@[j] == scheme@[j],
            !has_scheme ==> !(u@.len() >= 7 && u@.take(7) == http_scheme()),
        decreases 7 - i,
    {
        if u[i] != scheme[i] {
            has_scheme = false;
            assert(u@.take(7)[i as int] != http_scheme()[i as int]);
        }
        i = i + 1;
    }
    if has_scheme {
        assert(u@.take(7) =~= http_scheme());
    }
    let start: usize = if has_scheme {
        7
    } else {
        0
    };
    let ghost rest = without_scheme(u@);
    assert(rest =~= u@.skip(start as int));
    let mut k: usize = start;
    while k < u.len() && u[k] != '/'
        invariant
            start <= k <= u.len(),
            rest == u@.skip(start as int),
            forall|j: int| 0 <= j < k - start ==> rest[j] != '/',
        decreases u.len() - k,
    {
        k = k + 1;
    }
    proof {
        assert(is_first_slash(rest, k - start));
        let c = choose|c: int| is_first_slash(rest, c);
        if c < k - start {
            assert(rest[c] != '/');
        } else if c > k - start {
            assert(rest[k - start] != '/');
        }
    }
    let mut host: Vec<char> = Vec::new();
    let mut j: usize = start;
    while j < k
        invariant
            start <= j <= k <= u.len(),
            host@ == u@.subrange(start as int, j as int),
        decreases k - j,
    {
        host.push(u[j]);
        j = j + 1;
        assert(host@ =~= u@.subrange(start as int, j as int));
    }
    let mut path: Vec<char> = Vec::new();
    path.push('/');
    if k < u.len() {
        let mut j: usize = k + 1;
        while j < u.len()
            invariant
                k < j <= u.len(),
                path@ == seq!['/'] + u@.subrange(k + 1, j as int),
            decreases u.len() - j,
        {
            path.push(u[j]);
            j = j + 1;
            assert(path@ =~= seq!['/'] + u@.subrange(k + 1, j as int));
        }
    }
    proof {
        if k < u.len() {
            assert(rest.take(k - start) =~= u@.subrange(start as int, k as int));
            assert(rest.skip(k - start + 1) =~= u@.subrange(k + 1, u.len() as int));
        } else {
            assert(rest =~= u@.subrange(start as int, k as int));
            assert(path@ =~= seq!['/']);
        }
    }
    (string_of(&host), string_of(&path))
}

/// The GET request for a URL: "GET <path> HTTP/1.1", "Host: <host>",
/// "Connection: close", each line ended by "\r\n", then a blank line.
pub fn get_request(url: &str) -> (r: (String, String))
    ensures
        r.0@ == url_parts(url@).0,
        r.1@ == "GET "@ + url_parts(url@).1 + " HTTP/1.1\r\nHost: "@ + url_parts(url@).0
            + "\r\nConnection: close\r\n\r\n"@,
{
    let (host, path) = split_url(url);
    let mut req = String::from_str("GET ");
    req.append(path.as_str());
    req.append(" HTTP/1.1\r\nHost: ");
    req.append(host.as_str());
    req.append("\r\nConnection: close\r\n\r\n");
    (host, req)
}

/// The POST request, with an empty body, for a URL: "POST <path> HTTP/1.1",
/// "Host: <host>", "Content-Length: 0", "Connection: close", each line ended
/// by "\r\n", then a blank line.
pub fn post_request(url: &str) -> (r: (String, String))
    ensures
        r.0@ == url_parts(url@).0,
        r.1@ == "POST "@ + url_parts(url@).1 + " HTTP/1.1\r\nHost: "@ + url_parts(url@).0
            + "\r\nContent-Length: 0\r\nConnection: close\r\n\r\n"@,
{
    let (host, path) = split_url(url);
    let mut req = String::from_str("POST ");
    req.append(path.as_str());
    req.append(" HTTP/1.1\r\nHost: ");
    req.append(host.as_str());
    req.append("\r\nContent-Length: 0\r\nConnection: close\r\n\r\n");
    (host, req)
}

/// A MAC as it goes into a URL path: every ':' made "%3A".
pub fn encode_mac(mac: &str) -> (r: String)
    ensures
        r@ == replaced(mac@, ":"@, "%3A"@),
{
    let s = chars_of(mac);
    let colon = chars_of(":");
    let code = chars_of("%3A");
    proof {
        reveal_strlit(":");
    }
    let t = replace_all(&s, &colon, &code);
    string_of(&t)
}

// ---------------------------------------------------------------------------
// The device table
// ---------------------------------------------------------------------------

/// The status shown for a device in the `status` table: an anomaly when it
/// has unresolved ones, else normal once its profile is mature, else still
/// profiling.
pub open spec fn status_label_spec(anomaly_count: u64, profile_mature: bool) -> Seq<char> {
    if anomaly_count > 0 {
        "[!] ANOMALY"@
    } else if profile_mature {
        "[ok] Normal"@
    } else {
        "[..] Profiling"@
    }
}

/// The status of a device for the `status` table, from its count of
/// unresolved anomalies and whether its profile is mature.
pub fn status_label(anomaly_count: u64, profile_mature: bool) -> (r: String)
    ensures
        r@ == status_label_spec(anomaly_count, profile_mature),
{
    if anomaly_count > 0 {
        String::from_str("[!] ANOMALY")
    } else if profile_mature {
        String::from_str("[ok] Normal")
    } else {
        String::from_str("[..] Profiling")
    }
}

} // verus!
