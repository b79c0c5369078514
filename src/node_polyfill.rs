use vstd::prelude::*;

verus! {

broadcast use vstd::string::group_string_axioms;

/// The names of Node.js's built-in modules, in alphabetical order.
pub open spec fn node_builtin_names() -> Seq<Seq<char>> {
    seq![
        "assert"@,
        "assert/strict"@,
        "async_hooks"@,
        "buffer"@,
        "child_process"@,
        "cluster"@,
        "console"@,
        "constants"@,
        "crypto"@,
        "dgram"@,
        "diagnostics_channel"@,
        "dns"@,
        "dns/promises"@,
        "domain"@,
        "events"@,
        "fs"@,
        "fs/promises"@,
        "http"@,
        "http2"@,
        "https"@,
        "inspector"@,
        "inspector/promises"@,
        "module"@,
        "net"@,
        "os"@,
        "path"@,
        "path/posix"@,
        "path/win32"@,
        "perf_hooks"@,
        "process"@,
        "punycode"@,
        "querystring"@,
        "readline"@,
        "readline/promises"@,
        "repl"@,
        "stream"@,
        "stream/consumers"@,
        "stream/promises"@,
        "stream/web"@,
        "string_decoder"@,
        "sys"@,
        "timers"@,
        "timers/promises"@,
        "tls"@,
        "trace_events"@,
        "tty"@,
        "url"@,
        "util"@,
        "util/types"@,
        "v8"@,
        "vm"@,
        "wasi"@,
        "worker_threads"@,
        "zlib"@,
    ]
}

/// The names of Node.js's built-in modules.
pub fn get_node_builtins() -> (r: Vec<String>)
    ensures
        r@.map_values(|s: String| s@) == node_builtin_names(),
{
    let mut r: Vec<String> = Vec::new();
    r.push("assert".to_string());
    r.push("assert/strict".to_string());
    r.push("async_hooks".to_string());
    r.push("buffer".to_string());
    r.push("child_process".to_string());
    r.push("cluster".to_string());
    r.push("console".to_string());
    r.push("constants".to_string());
    r.push("crypto".to_string());
    r.push("dgram".to_string());
    r.push("diagnostics_channel".to_string());
    r.push("dns".to_string());
    r.push("dns/promises".to_string());
    r.push("domain".to_string());
    r.push("events".to_string());
    r.push("fs".to_string());
    r.push("fs/promises".to_string());
    r.push("http".to_string());
    r.push("http2".to_string());
    r.push("https".to_string());
    r.push("inspector".to_string());
    r.push("inspector/promises".to_string());
    r.push("module".to_string());
    r.push("net".to_string());
    r.push("os".to_string());
    r.push("path".to_string());
    r.push("path/posix".to_string());
    r.push("path/win32".to_string());
    r.push("perf_hooks".to_string());
    r.push("process".to_string());
    r.push("punycode".to_string());
    r.push("querystring".to_string());
    r.push("readline".to_string());
    r.push("readline/promises".to_string());
    r.push("repl".to_string());
    r.push("stream".to_string());
    r.push("stream/consumers".to_string());
    r.push("stream/promises".to_string());
    r.push("stream/web".to_string());
    r.push("string_decoder".to_string());
    r.push("sys".to_string());
    r.push("timers".to_string());
    r.push("timers/promises".to_string());
    r.push("tls".to_string());
    r.push("trace_events".to_string());
    r.push("tty".to_string());
    r.push("url".to_string());
    r.push("util".to_string());
    r.push("util/types".to_string());
    r.push("v8".to_string());
    r.push("vm".to_string());
    r.push("wasi".to_string());
    r.push("worker_threads".to_string());
    r.push("zlib".to_string());
    assert(r@.map_values(|s: String| s@) =~= node_builtin_names());
    r
}

} // verus!
