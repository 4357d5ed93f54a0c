use vstd::prelude::*;
use vstd::string::*;
use crate::parser::{parse, parse_document};
use crate::render::{render_compact, render_pretty, compact_nodes, pretty_nodes, indent};

verus! {

/// The HTML that a source text compiles to, or `None` where the text is not well
/// formed: the document it stands for, written compact, or indented from depth 0
/// where `prettify` is set.
pub open spec fn compiled(source: Seq<char>, prettify: bool) -> Option<Seq<char>> {
    match parse_document(source) {
        Some(nodes) => Some(
            if prettify {
                pretty_nodes(nodes, indent(0))
            } else {
                compact_nodes(nodes)
            },
        ),
        None => None,
    }
}

/// Compiles a source text to HTML. The result is `None` exactly where the text
/// does not parse.
pub fn compile(source: &str, prettify: bool) -> (r: Option<String>)
    ensures
        match compiled(source@, prettify) {
            Some(html) => r is Some && r.unwrap()@ == html,
            None => r is None,
        },
{
    match parse(source) {
        Some(document) => {
            if prettify {
                Some(render_pretty(&document, 0))
            } else {
                Some(render_compact(&document))
            }
        },
        None => None,
    }
}

/// The extension that marks a source file, without its dot.
pub open spec fn source_extension() -> Seq<char> {
    seq!['h', 't', 'm', 'l', 'i', 's', 'p']
}

/// What a watched directory reports.
#[derive(Debug)]
pub enum WatchEvent {
    /// A file was written; `extension` is the extension of its name, if it has
    /// one.
    Write { extension: Option<String> },
    /// Anything else that happened in the directory.
    Other,
    /// The watch itself failed.
    Failed,
}

/// What to do about an event.
#[derive(Debug, Clone, Copy, PartialEq, Eq)]
pub enum WatchAction {
    /// Compile the file that was written.
    Compile,
    /// Nothing; go on watching.
    Ignore,
    /// Give up watching.
    Stop,
}

/// Tests whether `extension` marks a source file.
pub fn is_source_extension(extension: &str) -> (r: bool)
    ensures
        r == (extension@ == source_extension()),
{
    proof {
        reveal_strlit("htmlisp");
    }
    let wanted = "htmlisp";
    assert(wanted@ =~= source_extension());
    let len = extension.unicode_len();
    if len != 7 {
        return false;
    }
    let mut i: usize = 0;
    while i < 7
        invariant
            i <= 7,
            len == 7,
            extension@.len() == 7,
            wanted@ == source_extension(),
            forall|k: int| 0 <= k < i ==> extension@[k] == wanted@[k],
        decreases 7 - i,
    {
        if extension.get_char(i) != wanted.get_char(i) {
            return false;
        }
        i += 1;
    }
    assert(extension@ =~= source_extension());
    true
}

/// Decides what a watch does about an event: a written source file is compiled,
/// a failure of the watch ends it, and everything else is passed over.
pub fn watch_action(event: &WatchEvent) -> (r: WatchAction)
    ensures
        r == match *event {
            WatchEvent::Write { extension: Some(e) } => if e@ == source_extension() {
                WatchAction::Compile
            } else {
                WatchAction::Ignore
            },
            WatchEvent::Write { extension: None } => WatchAction::Ignore,
            WatchEvent::Other => WatchAction::Ignore,
            WatchEvent::Failed => WatchAction::Stop,
        },
{
    match event {
        WatchEvent::Write { extension: Some(e) } => {
            if is_source_extension(e.as_str()) {
                WatchAction::Compile
            } else {
                WatchAction::Ignore
            }
        },
        WatchEvent::Write { extension: None } => WatchAction::Ignore,
        WatchEvent::Other => WatchAction::Ignore,
        WatchEvent::Failed => WatchAction::Stop,
    }
}

} // verus!
