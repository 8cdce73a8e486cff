//! Small values that a command-line front end works with.
use vstd::prelude::*;
use crate::text::{chars_of, lower_of, lowercase, seq_contains, str_contains, string_of_chars};

verus! {

/// Where to reach the ledger, and how much to report.
#[derive(Debug, Clone, PartialEq, Eq)]
pub struct CliConfig {
    pub rpc_url: String,
    pub verbose: bool,
}

/// The ledger endpoint used when none is given.
pub const DEFAULT_RPC_URL: &'static str = "https://api.devnet.solana.com";

impl Default for CliConfig {
    /// The default endpoint, quiet.
    fn default() -> (r: Self)
        ensures
            r.rpc_url@ == DEFAULT_RPC_URL@,
            !r.verbose,
    {
        CliConfig { rpc_url: String::from_str(DEFAULT_RPC_URL), verbose: false }
    }
}

impl CliConfig {
    pub fn new(rpc_url: String, verbose: bool) -> (r: Self)
        ensures
            r.rpc_url == rpc_url,
            r.verbose == verbose,
    {
        CliConfig { rpc_url, verbose }
    }
}

/// An input event of the interactive front end.
#[derive(Debug, Clone, Copy, PartialEq, Eq)]
pub enum AppEvent {
    Quit,
    Up,
    Down,
    Left,
    Right,
    Enter,
    Tab,
    Esc,
    Char(char),
    Tick,
    MouseScroll { up: bool, column: u16, row: u16 },
}

/// The files that a generation run wrote, by path, in order.
#[derive(Debug, Clone, PartialEq, Eq)]
pub struct GeneratedFiles {
    files: Vec<String>,
}

impl GeneratedFiles {
    /// The paths written so far.
    pub closed spec fn paths(&self) -> Seq<Seq<char>> {
        self.files@.map_values(|p: String| p@)
    }

    pub fn new() -> (r: Self)
        ensures
            r.paths().len() == 0,
    {
        GeneratedFiles { files: Vec::new() }
    }

    /// Records one more written file.
    pub fn add_file(&mut self, path: String)
        ensures
            final(self).paths() == old(self).paths().push(path@),
    {
        self.files.push(path);
        proof {
            assert(self.files@.map_values(|p: String| p@) =~= old(self).files@.map_values(|p: String| p@).push(path@));
        }
    }

    pub fn files(&self) -> (r: &[String])
        ensures
            r@.map_values(|p: String| p@) == self.paths(),
    {
        self.files.as_slice()
    }

    pub fn count(&self) -> (r: usize)
        ensures
            r == self.paths().len(),
    {
        self.files.len()
    }

    pub fn is_empty(&self) -> (r: bool)
        ensures
            r == (self.paths().len() == 0),
    {
        self.files.len() == 0
    }
}

/// `s` itself when it has at most `max_len` characters; otherwise its
/// first `max_len - 3` characters (none when `max_len < 3`) followed by
/// `...`.
pub open spec fn truncated(s: Seq<char>, max_len: nat) -> Seq<char> {
    if s.len() <= max_len {
        s
    } else {
        s.take(if max_len >= 3 { max_len - 3 } else { 0 }) + "..."@
    }
}

/// Shortens `s` to at most `max_len` characters, marking a cut with `...`.
/// Lengths are counted in characters, not bytes, by design: a cut then
/// never falls inside a multi-byte character, so no text is refused.
pub fn truncate_str(s: &str, max_len: usize) -> (r: String)
    ensures
        r@ == truncated(s@, max_len as nat),
{
    let c = chars_of(s);
    if c.len() <= max_len {
        return string_of_chars(c.as_slice());
    }
    let keep = if max_len >= 3 { max_len - 3 } else { 0 };
    let mut v: Vec<char> = Vec::new();
    let mut i: usize = 0;
    while i < keep
        invariant
            keep < c@.len(),
            i <= keep,
            v@ == c@.take(i as int),
        decreases keep - i,
    {
        v.push(c[i]);
        proof {
            assert(v@ =~= c@.take(i + 1));
        }
        i = i + 1;
    }
    let mut r = string_of_chars(v.as_slice());
    r.append("...");
    r
}

/// A character kept in a file name: ASCII letters, digits, `_` and `-`.
pub open spec fn name_char_kept(c: char) -> bool {
    ('a' <= c && c <= 'z') || ('A' <= c && c <= 'Z') || ('0' <= c && c <= '9') || c == '_' || c == '-'
}

/// `name` with every character that a file name should not hold replaced
/// by `_`.
pub fn sanitize_idl_name(name: &str) -> (r: String)
    ensures
        r@.len() == name@.len(),
        forall|i: int|
            0 <= i < name@.len() ==> r@[i] == if name_char_kept(name@[i]) { name@[i] } else { '_' },
{
    let c = chars_of(name);
    let mut v: Vec<char> = Vec::new();
    let mut i: usize = 0;
    while i < c.len()
        invariant
            c@ == name@,
            i <= c@.len(),
            v@.len() == i,
            forall|k: int| 0 <= k < i ==> v@[k] == if name_char_kept(c@[k]) { c@[k] } else { '_' },
        decreases c@.len() - i,
    {
        let ch = c[i];
        let kept = ('a' <= ch && ch <= 'z') || ('A' <= ch && ch <= 'Z') || ('0' <= ch && ch <= '9') || ch == '_'
            || ch == '-';
        v.push(if kept { ch } else { '_' });
        i = i + 1;
    }
    string_of_chars(v.as_slice())
}

/// How far a view of `view_height` lines can scroll over `content_len`
/// lines, capped at `u16::MAX`.
pub open spec fn max_scroll(content_len: nat, view_height: nat) -> u16 {
    if view_height == 0 || content_len <= view_height {
        0
    } else if content_len - view_height > u16::MAX {
        u16::MAX
    } else {
        (content_len - view_height) as u16
    }
}

pub fn compute_max_scroll(content_len: usize, view_height: usize) -> (r: u16)
    ensures
        r == max_scroll(content_len as nat, view_height as nat),
{
    if view_height == 0 || content_len <= view_height {
        0
    } else if content_len - view_height > 65535 {
        65535
    } else {
        (content_len - view_height) as u16
    }
}

/// Keeps a scroll position within what the content allows.
pub fn clamp_scroll(scroll: &mut u16, content_len: usize, view_height: usize)
    ensures
        *final(scroll) == if *old(scroll) > max_scroll(content_len as nat, view_height as nat) {
            max_scroll(content_len as nat, view_height as nat)
        } else {
            *old(scroll)
        },
{
    let m = compute_max_scroll(content_len, view_height);
    if m == 0 {
        *scroll = 0;
    } else if *scroll > m {
        *scroll = m;
    }
}

/// Moves a scroll position one line up or down, within what the content
/// allows.
pub fn adjust_scroll(scroll: &mut u16, up: bool, content_len: usize, view_height: usize)
    ensures
        ({
            let m = max_scroll(content_len as nat, view_height as nat);
            *final(scroll) == if m == 0 {
                0
            } else if up {
                if *old(scroll) > 0 { (*old(scroll) - 1) as u16 } else { 0 }
            } else if *old(scroll) < m {
                (*old(scroll) + 1) as u16
            } else {
                *old(scroll)
            }
        }),
{
    let m = compute_max_scroll(content_len, view_height);
    if m == 0 {
        *scroll = 0;
        return;
    }
    if up {
        if *scroll > 0 {
            *scroll = *scroll - 1;
        }
    } else if *scroll < m {
        *scroll = *scroll + 1;
    }
}

/// Some memory or allocation wording in a lower-case message.
pub open spec fn mentions_memory(m: Seq<char>) -> bool {
    seq_contains(m, "memory"@) || seq_contains(m, "allocation"@) || seq_contains(m, "out of"@)
}

/// A lower-case error message that says the program is too large to run
/// within the ledger's memory or compute limits.
pub open spec fn too_large_text(m: Seq<char>) -> bool {
    ||| seq_contains(m, "out of memory"@)
    ||| seq_contains(m, "memory allocation failed"@)
    ||| (seq_contains(m, "sbf program panicked"@) && mentions_memory(m))
    ||| (seq_contains(m, "program failed to complete"@) && mentions_memory(m))
    ||| seq_contains(m, "compute budget exceeded"@)
    ||| seq_contains(m, "insufficient compute units"@)
    ||| (seq_contains(m, "transaction simulation failed"@) && (mentions_memory(m) || (seq_contains(
        m,
        "panicked"@,
    ) && (seq_contains(m, "memory"@) || seq_contains(m, "allocation"@)))))
    ||| (seq_contains(m, "failed to send solify transaction"@) && (mentions_memory(m) || seq_contains(
        m,
        "panicked"@,
    )))
}

/// Whether a lower-case message says the program is too large.
pub fn is_too_large_message(m: &str) -> (r: bool)
    ensures
        r == too_large_text(m@),
{
    let memory = str_contains(m, "memory") || str_contains(m, "allocation") || str_contains(m, "out of");
    str_contains(m, "out of memory") || str_contains(m, "memory allocation failed") || (str_contains(
        m,
        "sbf program panicked",
    ) && memory) || (str_contains(m, "program failed to complete") && memory) || str_contains(
        m,
        "compute budget exceeded",
    ) || str_contains(m, "insufficient compute units") || (str_contains(m, "transaction simulation failed") && (
    memory || (str_contains(m, "panicked") && (str_contains(m, "memory") || str_contains(m, "allocation")))))
        || (str_contains(m, "failed to send solify transaction") && (memory || str_contains(m, "panicked")))
}

/// Whether any message of an error and its causes, in lower case, says the
/// program is too large to run on the ledger.
pub fn is_program_too_large_error(messages: &Vec<String>) -> (r: bool)
    ensures
        r == exists|k: int| 0 <= k < messages@.len() && too_large_text(lower_of((#[trigger] messages@[k])@)),
{
    let mut k: usize = 0;
    while k < messages.len()
        invariant
            k <= messages@.len(),
            forall|m: int| 0 <= m < k ==> !too_large_text(lower_of((#[trigger] messages@[m])@)),
        decreases messages@.len() - k,
    {
        let lower = lowercase(messages[k].as_str());
        if is_too_large_message(lower.as_str()) {
            return true;
        }
        k = k + 1;
    }
    false
}

} // verus!
