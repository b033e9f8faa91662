//! The paths of the service, and what is answered without the RPC machinery.

use crate::text::same;
use vstd::prelude::*;

verus! {

/// What a path stands for.
#[derive(Clone, Copy, Debug, PartialEq, Eq, Structural)]
pub enum Route {
    /// The page for visitors with a browser.
    Landing,
    /// The probe for liveness.
    Health,
    /// The request to refresh the table now. The data is public, so that this
    /// is open to anybody.
    Refresh,
    /// Everything else goes to the RPC service.
    Rpc,
}

/// An answer over HTTP.
#[derive(Debug)]
pub struct Reply {
    pub status: u16,
    pub content_type: &'static str,
    pub body: &'static str,
}

/// What a path stands for.
pub open spec fn route_of(path: Seq<char>) -> Route {
    if path == "/"@ {
        Route::Landing
    } else if path == "/healthz"@ {
        Route::Health
    } else if path == "/__refresh"@ {
        Route::Refresh
    } else {
        Route::Rpc
    }
}

/// What a path stands for.
pub fn route(path: &str) -> (r: Route)
    ensures
        r == route_of(path@),
{
    if same(path, "/") {
        Route::Landing
    } else if same(path, "/healthz") {
        Route::Health
    } else if same(path, "/__refresh") {
        Route::Refresh
    } else {
        Route::Rpc
    }
}

/// The page for visitors with a browser.
pub fn landing_reply() -> (r: Reply)
    ensures
        r.status == 200,
        r.content_type@ == "text/html; charset=utf-8"@,
        r.body@ == LANDING_HTML@,
{
    Reply { status: 200, content_type: "text/html; charset=utf-8", body: LANDING_HTML }
}

/// The answer to the probe for liveness.
pub fn health_reply() -> (r: Reply)
    ensures
        r.status == 200,
        r.content_type@ == "text/plain; charset=utf-8"@,
        r.body@ == "ok"@,
{
    Reply { status: 200, content_type: "text/plain; charset=utf-8", body: "ok" }
}

/// The answer to the request for a refresh, once the refresh has ended: a failed
/// one is reported with its cause.
pub fn refresh_reply(outcome: Result<(), String>) -> (r: Result<Reply, String>)
    ensures
        match outcome {
            Ok(_) => {
                &&& r is Ok
                &&& r->Ok_0.status == 200
                &&& r->Ok_0.content_type@ == "text/plain; charset=utf-8"@
                &&& r->Ok_0.body@ == "refreshed"@
            },
            Err(e) => r is Err && r->Err_0@ == "refresh failed: "@ + e@,
        },
{
    match outcome {
        Ok(_) => Ok(
            Reply { status: 200, content_type: "text/plain; charset=utf-8", body: "refreshed" },
        ),
        Err(e) => Err("refresh failed: ".to_owned().concat(e.as_str())),
    }
}

/// The page for visitors with a browser, who would otherwise meet with an RPC
/// error.
pub const LANDING_HTML: &'static str = r#"<!doctype html>
<html lang="en">
<head>
<meta charset="utf-8">
<title>cf-do-locator</title>
<meta name="viewport" content="width=device-width, initial-scale=1">
<style>
  body { font-family: -apple-system, BlinkMacSystemFont, "Segoe UI", system-ui, sans-serif;
         max-width: 720px; margin: 2rem auto; padding: 0 1rem; line-height: 1.5; color: #222; }
  h1 { font-size: 1.4rem; margin-bottom: 0.2rem; }
  p.lede { color: #555; margin-top: 0; }
  pre { background: #f4f4f4; padding: 0.75rem; border-radius: 4px; overflow-x: auto;
        font-size: 0.85rem; }
  code { font-family: ui-monospace, SFMono-Regular, Menlo, monospace; }
  ul.endpoints { list-style: none; padding: 0; }
  ul.endpoints li { padding: 0.25rem 0; }
  ul.endpoints code { background: #f4f4f4; padding: 0.1rem 0.3rem; border-radius: 3px; }
  a { color: #0a58ca; }
</style>
</head>
<body>
<h1>cf-do-locator</h1>
<p class="lede">Tells you which Cloudflare region to place a Durable Object in, given the edge a user arrived at.</p>

<p>This URL is an RPC service, not a webpage. Try:</p>
<pre>curl -X POST https://cf-do-locator.gedw99.workers.dev/locator.v1.LocatorService/GetLocationHint \
  -H "Content-Type: application/json" \
  -d '{"colo":"SYD"}'</pre>
<p>→ <code>{"hint":"LOCATION_HINT_OC","known":true}</code></p>

<h2>Endpoints</h2>
<ul class="endpoints">
  <li><code>GET  /healthz</code> &nbsp;— liveness</li>
  <li><code>POST /__refresh</code> &nbsp;— manual snapshot refresh from upstream</li>
  <li><code>POST /locator.v1.LocatorService/GetLocationHint</code> &nbsp;<code>{"colo":"SYD"}</code></li>
  <li><code>POST /locator.v1.LocatorService/GetColoInfo</code> &nbsp;<code>{"colo":"FRA"}</code></li>
  <li><code>POST /locator.v1.LocatorService/ListColos</code> &nbsp;<code>{}</code> &nbsp;— <em>what consumers actually call</em></li>
  <li><code>POST /locator.v1.LocatorService/GetSnapshot</code> &nbsp;<code>{}</code></li>
</ul>

<h2>Source</h2>
<p><a href="https://github.com/joeblew999/cf-do-locator">github.com/joeblew999/cf-do-locator</a> — README, proto definition, runnable Rust + TS consumer examples.</p>
</body>
</html>
"#;

} // verus!
