//! The operations endpoint: a small responder for metrics and for the probes of
//! liveness and readiness.
use vstd::prelude::*;

use crate::fault::failure;
use crate::fault::ConnectionError;
use crate::fault::ErrorKind;
use crate::metrics::decimal_text;
use crate::metrics::node_metrics;
use crate::metrics::push_number;
use crate::metrics::render_node_metrics;
use crate::metrics::CacheStats;
use crate::node::is_ready;
use crate::node::node_view;
use crate::node::serves_clients;
use crate::node::NodeContext;
use crate::scan::characters;
use crate::scan::contains_bytes;
use crate::scan::law_occurrence_stands_between_two_parts;
use crate::scan::lemma_is_position;
use crate::scan::lemma_position;
use crate::scan::occurs;
use crate::scan::position;
use crate::scan::received_text;
use crate::scan::text_from_utf8_lossy;
use crate::scan::text_of;
use crate::text::same_text;
use crate::text::text_bytes;

verus! {

/// What a request's head may have before it is refused.
pub const MAX_HEAD_LEN: usize = 8192;

/// What to do with the part of a request's head that has been received.
#[derive(Clone, Copy, Debug, PartialEq, Eq)]
pub enum HeadStep {
    Read,
    Parse,
    Fail(ConnectionError),
}

/// The end of a request's head.
pub open spec fn head_end() -> Seq<u8> {
    seq![13u8, 10u8, 13u8, 10u8]
}

/// Decides on the part of a head that has been received; `ended` says that no
/// more will come.
pub fn after_head(head: &[u8], ended: bool) -> (step: HeadStep)
    ensures
        if occurs(head_end(), head@) || (ended && head.len() <= MAX_HEAD_LEN) {
            step is Parse
        } else if head.len() > MAX_HEAD_LEN {
            step matches HeadStep::Fail(error) && error.says(
                ErrorKind::InvalidData,
                "oversized http request head"@,
            )
        } else {
            step is Read
        },
{
    let end: [u8; 4] = [13u8, 10u8, 13u8, 10u8];
    assert(end@ =~= head_end());
    if contains_bytes(head, end.as_slice()) {
        return HeadStep::Parse;
    }
    if head.len() > MAX_HEAD_LEN {
        return HeadStep::Fail(failure(ErrorKind::InvalidData, "oversized http request head"));
    }
    if ended {
        HeadStep::Parse
    } else {
        HeadStep::Read
    }
}

/// The first line of a text, without its line ending.
pub open spec fn first_line(text: Seq<char>) -> Seq<char> {
    let end = position(text, '\n') as int;
    if end < text.len() && end > 0 && text[end - 1] == '\r' {
        text.take(end - 1)
    } else {
        text.take(end)
    }
}

/// The path that a request's first line asks for.
pub open spec fn requested_path(line: Seq<char>) -> Option<Seq<char>> {
    let end = position(line, ' ') as int;
    if end < line.len() && line.take(end) == seq!['G', 'E', 'T'] {
        let rest = line.skip(end + 1);
        Some(rest.take(position(rest, ' ') as int))
    } else {
        None
    }
}

fn find_character(items: &Vec<char>, from: usize, to: usize, item: char) -> (place: usize)
    requires
        from <= to <= items.len(),
    ensures
        from <= place <= to,
        place == from + position(items@.subrange(from as int, to as int), item),
{
    let ghost part = items@.subrange(from as int, to as int);
    let mut index: usize = from;
    while index < to && items[index] != item
        invariant
            from <= index <= to <= items.len(),
            part == items@.subrange(from as int, to as int),
            forall|i: int| 0 <= i < index - from ==> part[i] != item,
        decreases to - index,
    {
        assert(part[index - from] == items@[index as int]);
        index += 1;
    }
    proof {
        if index < to {
            assert(part[index - from] == items@[index as int]);
        }
        lemma_is_position(part, item, index - from);
    }
    index
}

/// The path of a `GET` request, of which `head` is the head. Whatever follows the
/// path on its line is ignored; a request of another kind is an error.
pub fn read_http_request_path(head: &[u8]) -> (path: Result<String, ConnectionError>)
    ensures
        match requested_path(first_line(received_text(head@))) {
            Some(found) => path matches Ok(text) && text@ == found,
            None => path matches Err(error) && error.says(
                ErrorKind::InvalidData,
                "not a GET request"@,
            ),
        },
{
    let text = text_from_utf8_lossy(head);
    match find_path(text.as_str()) {
        Some(path) => Ok(path),
        None => Err(failure(ErrorKind::InvalidData, "not a GET request")),
    }
}

/// The path that the first line of a text asks for.
pub fn find_path(text: &str) -> (path: Option<String>)
    ensures
        match requested_path(first_line(text@)) {
            Some(found) => path matches Some(found_text) && found_text@ == found,
            None => path is None,
        },
{
    let found = characters(text);
    let feed: usize = find_character(&found, 0, found.len(), '\n');
    assert(found@.subrange(0, found@.len() as int) =~= found@);
    let stop: usize = if feed < found.len() && feed > 0 && found[feed - 1] == '\r' {
        feed - 1
    } else {
        feed
    };
    let ghost line = first_line(text@);
    assert(line =~= found@.subrange(0, stop as int));
    let end: usize = find_character(&found, 0, stop, ' ');
    if end >= stop || end != 3 || found[0] != 'G' || found[1] != 'E' || found[2] != 'T' {
        proof {
            if end < stop && line.take(end as int) == seq!['G', 'E', 'T'] {
                assert(line.take(end as int).len() == 3);
                assert(line.take(end as int)[0] == found@[0]);
                assert(line.take(end as int)[1] == found@[1]);
                assert(line.take(end as int)[2] == found@[2]);
            }
        }
        return None;
    }
    assert(line.take(end as int) =~= seq!['G', 'E', 'T']);
    let next: usize = find_character(&found, end + 1, stop, ' ');
    assert(line.skip(end + 1) =~= found@.subrange(end + 1, stop as int));
    let path = text_of(&found, end + 1, next);
    assert(path@ =~= line.skip(end + 1).take(next - end - 1));
    Some(path)
}

/// What a request asks for.
#[derive(Clone, Copy, Debug, PartialEq, Eq, Structural)]
pub enum Route {
    Metrics,
    Health,
    Readiness,
    Unknown,
}

/// What a path asks for.
pub open spec fn route_of(path: Seq<char>) -> Route {
    if path == "/metrics"@ {
        Route::Metrics
    } else if path == "/healthz"@ {
        Route::Health
    } else if path == "/readyz"@ {
        Route::Readiness
    } else {
        Route::Unknown
    }
}

/// Finds what a path asks for.
pub fn route(path: &str) -> (found: Route)
    ensures
        found == route_of(path@),
{
    if same_text(path, "/metrics") {
        Route::Metrics
    } else if same_text(path, "/healthz") {
        Route::Health
    } else if same_text(path, "/readyz") {
        Route::Readiness
    } else {
        Route::Unknown
    }
}

/// The status and the body of the answer to a request. `stats` is what the
/// cache said, if it answered.
pub open spec fn answer_of(
    route: Route,
    stats: Option<CacheStats>,
    connections: usize,
    max_connections: usize,
    ready: bool,
) -> (Seq<char>, Seq<char>) {
    match route {
        Route::Metrics => match stats {
            Some(counted) => ("200 OK"@, node_metrics(counted, connections, max_connections)),
            None => ("500 Internal Server Error"@, "cache actor unavailable\n"@),
        },
        Route::Health => ("200 OK"@, "ok\n"@),
        Route::Readiness => if ready {
            ("200 OK"@, "ok\n"@)
        } else {
            ("503 Service Unavailable"@, "joining\n"@)
        },
        Route::Unknown => ("404 Not Found"@, "not found\n"@),
    }
}

/// An answer as it is sent.
pub open spec fn response_text(status: Seq<char>, body: Seq<char>) -> Seq<char> {
    "HTTP/1.1 "@ + status
        + "\r\nContent-Type: text/plain; version=0.0.4; charset=utf-8\r\nContent-Length: "@
        + decimal_text(text_bytes(body).len()) + "\r\nConnection: close\r\n\r\n"@ + body
}

/// Writes out an answer.
pub fn http_response(status: &str, body: &str) -> (response: String)
    ensures
        response@ == response_text(status@, body@),
{
    let mut response = String::new();
    response.push_str("HTTP/1.1 ");
    response.push_str(status);
    response.push_str(
        "\r\nContent-Type: text/plain; version=0.0.4; charset=utf-8\r\nContent-Length: ",
    );
    push_number(&mut response, body.as_bytes().len() as u128);
    response.push_str("\r\nConnection: close\r\n\r\n");
    response.push_str(body);
    assert(response@ =~= response_text(status@, body@));
    response
}

/// Answers a request for `route`. A node outside a cluster has no context.
pub fn answer_request(
    route: Route,
    stats: &Option<CacheStats>,
    connections: usize,
    max_connections: usize,
    node: &Option<NodeContext>,
) -> (response: String)
    ensures
        ({
            let ready = serves_clients(node_view(*node));
            let answer = answer_of(route, *stats, connections, max_connections, ready);
            response@ == response_text(answer.0, answer.1)
        }),
{
    match route {
        Route::Metrics => match stats {
            Some(counted) => {
                let body = render_node_metrics(counted, connections, max_connections);
                http_response("200 OK", body.as_str())
            },
            None => http_response("500 Internal Server Error", "cache actor unavailable\n"),
        },
        Route::Health => http_response("200 OK", "ok\n"),
        Route::Readiness => {
            if is_ready(node) {
                http_response("200 OK", "ok\n")
            } else {
                http_response("503 Service Unavailable", "joining\n")
            }
        },
        Route::Unknown => http_response("404 Not Found", "not found\n"),
    }
}

/// The first line of a text ends at its first line feed, and a carriage return
/// before that is no part of it; a text without a line feed is one line.
pub proof fn law_first_line_ends_at_the_line_feed(line: Seq<char>, rest: Seq<char>)
    requires
        forall|i: int| 0 <= i < line.len() ==> #[trigger] line[i] != '\n',
    ensures
        first_line(line) == line,
        first_line(line.push('\r').push('\n') + rest) == line,
        !(line.len() > 0 && line.last() == '\r') ==> first_line(line.push('\n') + rest) == line,
{
    lemma_is_position(line, '\n', line.len() as int);
    assert(line.take(line.len() as int) =~= line);
    let plain = line.push('\n') + rest;
    assert forall|i: int| 0 <= i < line.len() implies plain[i] != '\n' by {
        assert(plain[i] == line[i]);
    }
    assert(plain[line.len() as int] == '\n');
    lemma_is_position(plain, '\n', line.len() as int);
    assert(plain.take(line.len() as int) =~= line);
    if line.len() > 0 {
        assert(plain[line.len() - 1] == line.last());
    }
    let ended = line.push('\r').push('\n') + rest;
    let end = line.len() as int + 1;
    assert forall|i: int| 0 <= i < end implies ended[i] != '\n' by {
        if i < line.len() {
            assert(ended[i] == line[i]);
        }
    }
    assert(ended[end] == '\n');
    assert(ended[end - 1] == '\r');
    lemma_is_position(ended, '\n', end);
    assert(ended.take(end - 1) =~= line);
}

/// The path of a request is what stands between `GET` and the next space, or the
/// end of the line; a line that does not begin with `GET` and a space asks for
/// none.
pub proof fn law_path_follows_get(path: Seq<char>, rest: Seq<char>, line: Seq<char>)
    requires
        forall|i: int| 0 <= i < path.len() ==> #[trigger] path[i] != ' ',
    ensures
        requested_path(seq!['G', 'E', 'T', ' '] + path) == Some(path),
        requested_path(seq!['G', 'E', 'T', ' '] + path.push(' ') + rest) == Some(path),
        requested_path(line) is Some ==> line.len() >= 4 && line[0] == 'G' && line[1] == 'E'
            && line[2] == 'T' && line[3] == ' ',
{
    let short = seq!['G', 'E', 'T', ' '] + path;
    lemma_is_position(short, ' ', 3);
    assert(short.take(3) =~= seq!['G', 'E', 'T']);
    assert(short.skip(4) =~= path);
    lemma_is_position(path, ' ', path.len() as int);
    assert(path.take(path.len() as int) =~= path);
    let long = seq!['G', 'E', 'T', ' '] + path.push(' ') + rest;
    lemma_is_position(long, ' ', 3);
    assert(long.take(3) =~= seq!['G', 'E', 'T']);
    let tail = path.push(' ') + rest;
    assert(long.skip(4) =~= tail);
    assert forall|i: int| 0 <= i < path.len() implies tail[i] != ' ' by {
        assert(tail[i] == path[i]);
    }
    assert(tail[path.len() as int] == ' ');
    lemma_is_position(tail, ' ', path.len() as int);
    assert(tail.take(path.len() as int) =~= path);
    let end = position(line, ' ') as int;
    lemma_position(line, ' ');
    if end < line.len() && line.take(end) == seq!['G', 'E', 'T'] {
        assert(line.take(end).len() == end);
        assert(line.take(end)[0] == 'G' && line.take(end)[1] == 'E' && line.take(end)[2] == 'T');
    }
}

/// An answer opens with its status and ends with its body, and the length that
/// it declares in between is that of the body's bytes.
pub proof fn law_answer_declares_its_length(status: Seq<char>, body: Seq<char>)
    ensures
        ({
            let text = response_text(status, body);
            let length = decimal_text(text_bytes(body).len());
            let start = text.len() - body.len();
            let open = "HTTP/1.1 "@ + status;
            let close = "\r\nConnection: close\r\n\r\n"@;
            &&& text.take(open.len() as int) == open
            &&& text.skip(start) == body
            &&& text.subrange(start - close.len(), start) == close
            &&& text.subrange(start - close.len() - length.len(), start - close.len()) == length
        }),
{
    let text = response_text(status, body);
    let length = decimal_text(text_bytes(body).len());
    let open = "HTTP/1.1 "@ + status;
    let close = "\r\nConnection: close\r\n\r\n"@;
    let fixed =
        "\r\nContent-Type: text/plain; version=0.0.4; charset=utf-8\r\nContent-Length: "@;
    lemma_parts(open, fixed, length, close, body);
}

proof fn lemma_parts(
    a: Seq<char>,
    b: Seq<char>,
    c: Seq<char>,
    d: Seq<char>,
    e: Seq<char>,
)
    ensures
        ({
            let text = a + b + c + d + e;
            let start = text.len() - e.len();
            &&& text.take(a.len() as int) == a
            &&& text.skip(start) == e
            &&& text.subrange(start - d.len(), start) == d
            &&& text.subrange(start - d.len() - c.len(), start - d.len()) == c
        }),
{
    let text = a + b + c + d + e;
    let start = text.len() - e.len();
    assert(text.take(a.len() as int) =~= a);
    assert(text.skip(start) =~= e);
    assert(text.subrange(start - d.len(), start) =~= d);
    assert(text.subrange(start - d.len() - c.len(), start - d.len()) =~= c);
}

/// The node is alive whatever its state; it is ready just when it says so; its
/// metrics are there whenever the cache answered; and any other path is not
/// found.
pub proof fn law_probes_tell_the_state(
    stats: Option<CacheStats>,
    connections: usize,
    max_connections: usize,
    ready: bool,
)
    ensures
        answer_of(Route::Health, stats, connections, max_connections, ready).0 == "200 OK"@,
        answer_of(Route::Readiness, stats, connections, max_connections, true).0 == "200 OK"@,
        answer_of(Route::Readiness, stats, connections, max_connections, false).0
            == "503 Service Unavailable"@,
        answer_of(Route::Unknown, stats, connections, max_connections, ready).0
            == "404 Not Found"@,
        stats is None ==> answer_of(
            Route::Metrics,
            stats,
            connections,
            max_connections,
            ready,
        ).0 == "500 Internal Server Error"@,
        stats matches Some(counted) ==> answer_of(
            Route::Metrics,
            stats,
            connections,
            max_connections,
            ready,
        ) == ("200 OK"@, node_metrics(counted, connections, max_connections)),
{
}

/// Each path asks for one thing: no two of the three that are known, and none of
/// them for what is not found.
pub proof fn law_paths_are_told_apart(path: Seq<char>)
    ensures
        route_of(path) is Metrics <==> path == "/metrics"@,
        route_of(path) is Health <==> path == "/healthz"@,
        route_of(path) is Readiness <==> path == "/readyz"@,
        route_of(path) is Unknown <==> path != "/metrics"@ && path != "/healthz"@ && path
            != "/readyz"@,
{
    reveal_strlit("/metrics");
    reveal_strlit("/healthz");
    reveal_strlit("/readyz");
    assert("/metrics"@[1] == 'm');
    assert("/healthz"@[1] == 'h');
    assert("/readyz"@[1] == 'r');
}

/// The head of a request ends with an empty line: two carriage returns, each with
/// its line feed, wherever they stand, and nothing less.
pub proof fn law_head_ends_with_an_empty_line(before: Seq<u8>, after: Seq<u8>, head: Seq<u8>)
    ensures
        occurs(head_end(), before + seq![13u8, 10u8, 13u8, 10u8] + after),
        occurs(head_end(), head) ==> exists|i: int|
            0 <= i && i + 3 < head.len() && #[trigger] head[i] == 13 && head[i + 1] == 10 && head[i
                + 2] == 13 && head[i + 3] == 10,
{
    law_occurrence_stands_between_two_parts(before, head_end(), after);
    if occurs(head_end(), head) {
        let i = choose|i: int|
            0 <= i <= head.len() - head_end().len() && #[trigger] head.subrange(
                i,
                i + head_end().len(),
            ) == head_end();
        let found = head.subrange(i, i + 4);
        assert(found[0] == head[i] && found[1] == head[i + 1] && found[2] == head[i + 2]
            && found[3] == head[i + 3]);
    }
}

/// A head is parsed as soon as its end is there, however long it is; one that
/// has no end and is over its limit is refused, and else more of it is read
/// until the stream ends.
pub proof fn law_head_is_bounded(head: &[u8], ended: bool, step: HeadStep)
    requires
        call_ensures(after_head, (head, ended), step),
    ensures
        occurs(head_end(), head@) ==> step is Parse,
        !occurs(head_end(), head@) && head@.len() > 8192 ==> (step matches HeadStep::Fail(error)
            && error.kind == ErrorKind::InvalidData),
        !occurs(head_end(), head@) && head@.len() <= 8192 ==> (step is Parse <==> ended) && (
        step is Read <==> !ended),
{
}

} // verus!
