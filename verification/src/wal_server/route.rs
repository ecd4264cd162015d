//! The HTTP routes of the server.
use vstd::prelude::*;
use vstd::string::*;

verus! {

/// What a request for a path is answered with.
#[derive(Debug, Clone, Copy, PartialEq, Eq, Structural)]
pub enum Route {
    /// That the node is alive.
    Health,
    /// The metrics.
    Metrics,
    /// Which service this is.
    Status,
    /// That there is nothing here.
    NotFound,
}

/// The answer that belongs to `path`.
pub open spec fn route_of(path: Seq<char>) -> Route {
    if path == "/health"@ || path == "/healthz"@ {
        Route::Health
    } else if path == "/metrics"@ {
        Route::Metrics
    } else if path == "/status"@ {
        Route::Status
    } else {
        Route::NotFound
    }
}

fn same(a: &str, b: &str) -> (r: bool)
    ensures
        r == (a@ == b@),
{
    a.to_owned() == b.to_owned()
}

/// Find the answer that belongs to `path`.
pub fn route(path: &str) -> (r: Route)
    ensures
        r == route_of(path@),
{
    if same(path, "/health") || same(path, "/healthz") {
        Route::Health
    } else if same(path, "/metrics") {
        Route::Metrics
    } else if same(path, "/status") {
        Route::Status
    } else {
        Route::NotFound
    }
}

/// The HTTP status of an answer.
pub fn status_code(route: Route) -> (code: u16)
    ensures
        code == if route == Route::NotFound {
            404
        } else {
            200int
        },
{
    match route {
        Route::NotFound => 404,
        _ => 200,
    }
}

/// The text of an answer, where `metrics` are the metrics in text form.
pub open spec fn body_of(route: Route, metrics: Seq<char>) -> Seq<char> {
    match route {
        Route::Health => "{\"status\":\"ok\"}"@,
        Route::Metrics => metrics,
        Route::Status => "{\"service\":\"wal-server\",\"status\":\"ok\"}"@,
        Route::NotFound => {
            "{\"available\":[\"/health\",\"/metrics\",\"/status\"],\"error\":\"not found\"}"@
        },
    }
}

/// Write the text of an answer, where `metrics` are the metrics in text form.
pub fn body(route: Route, metrics: String) -> (text: String)
    ensures
        text@ == body_of(route, metrics@),
{
    match route {
        Route::Health => "{\"status\":\"ok\"}".to_owned(),
        Route::Metrics => metrics,
        Route::Status => "{\"service\":\"wal-server\",\"status\":\"ok\"}".to_owned(),
        Route::NotFound => {
            "{\"available\":[\"/health\",\"/metrics\",\"/status\"],\"error\":\"not found\"}".to_owned()
        },
    }
}

/// The content type that every answer is labelled with.
pub fn content_type() -> (text: String)
    ensures
        text@ == "application/json"@,
{
    "application/json".to_owned()
}

/// Each path has its answer: two stand for the health, one each for the metrics and the
/// status, and no other is known.
pub proof fn every_path_has_its_route(path: Seq<char>)
    ensures
        route_of(path) is Health <==> path == "/health"@ || path == "/healthz"@,
        route_of(path) is Metrics <==> path == "/metrics"@,
        route_of(path) is Status <==> path == "/status"@,
{
    reveal_strlit("/health");
    reveal_strlit("/healthz");
    reveal_strlit("/metrics");
    reveal_strlit("/status");
    assert("/health"@[1] != "/metrics"@[1]);
    assert("/healthz"@[1] != "/metrics"@[1]);
    assert("/health"@[1] != "/status"@[1]);
    assert("/healthz"@[1] != "/status"@[1]);
    assert("/metrics"@[1] != "/status"@[1]);
}

} // verus!
