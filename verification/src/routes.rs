//! What the example servers do with a parsed request.
use vstd::prelude::*;
use crate::handshake::is_websocket_upgrade;
use crate::http::{Method, Request};
use crate::text::str_eq;

verus! {

/// What the code-compiling server does with a request.
#[derive(Debug, Clone, Copy, PartialEq, Eq)]
pub enum CompileServerAction {
    /// Upgrade to a WebSocket and run the submitted program.
    OpenWebsocket,
    /// An upgrade to another protocol (not supported).
    OtherUpgrade,
    /// A GET request (not supported).
    Get,
    /// A POST to "/compile": store the submitted program.
    Compile,
    /// A POST to another path (not supported).
    OtherPath,
    /// Another method (not supported).
    OtherMethod,
}

/// What the drawing server does with a request.
#[derive(Debug, Clone, Copy, PartialEq, Eq)]
pub enum DrawingServerAction {
    /// Upgrade to a WebSocket and join the board.
    OpenWebsocket,
    /// An upgrade to another protocol (not supported).
    OtherUpgrade,
    /// No upgrade asked for: nothing to do.
    Ignore,
}

/// The action of the code-compiling server: any "Upgrade" header decides
/// first; then GET, POST (by path) and the other methods.
pub open spec fn compile_server_action(r: crate::http::RequestView) -> CompileServerAction {
    if r.headers.contains_key("Upgrade"@) {
        if r.headers["Upgrade"@] == "websocket"@ {
            CompileServerAction::OpenWebsocket
        } else {
            CompileServerAction::OtherUpgrade
        }
    } else {
        match r.method {
            Method::GET => CompileServerAction::Get,
            Method::POST => if r.path == "/compile"@ {
                CompileServerAction::Compile
            } else {
                CompileServerAction::OtherPath
            },
            _ => CompileServerAction::OtherMethod,
        }
    }
}

/// The action of the drawing server.
pub open spec fn drawing_server_action(r: crate::http::RequestView) -> DrawingServerAction {
    if r.headers.contains_key("Upgrade"@) {
        if r.headers["Upgrade"@] == "websocket"@ {
            DrawingServerAction::OpenWebsocket
        } else {
            DrawingServerAction::OtherUpgrade
        }
    } else {
        DrawingServerAction::Ignore
    }
}

/// Decides what the code-compiling server does with `request`.
pub fn route_compile_server(request: &Request) -> (r: CompileServerAction)
    ensures
        r == compile_server_action(request@),
{
    if request.headers.get("Upgrade").is_some() {
        if is_websocket_upgrade(request) {
            CompileServerAction::OpenWebsocket
        } else {
            CompileServerAction::OtherUpgrade
        }
    } else {
        match request.method {
            Method::GET => CompileServerAction::Get,
            Method::POST => if str_eq(request.path.as_str(), "/compile") {
                CompileServerAction::Compile
            } else {
                CompileServerAction::OtherPath
            },
            _ => CompileServerAction::OtherMethod,
        }
    }
}

/// Decides what the drawing server does with `request`.
pub fn route_drawing_server(request: &Request) -> (r: DrawingServerAction)
    ensures
        r == drawing_server_action(request@),
{
    if request.headers.get("Upgrade").is_some() {
        if is_websocket_upgrade(request) {
            DrawingServerAction::OpenWebsocket
        } else {
            DrawingServerAction::OtherUpgrade
        }
    } else {
        DrawingServerAction::Ignore
    }
}

} // verus!
