//! Failures as a caller sees them.

use vstd::prelude::*;

use crate::json::{text, Json, JsonView, Members};
use crate::text::{lemma_parts_of_message, mentions, owned};

verus! {

/// A failure, with a payload for machines where there is more to say than the
/// message (the candidates behind an ambiguous symbol).
#[derive(Debug)]
pub struct ToolError {
    pub message: String,
    pub data: Option<Json>,
}

/// What a failure says.
pub struct ToolErrorView {
    pub message: Seq<char>,
    pub data: Option<JsonView>,
}

impl View for ToolError {
    type V = ToolErrorView;

    open spec fn view(&self) -> ToolErrorView {
        ToolErrorView {
            message: self.message@,
            data: match self.data {
                Some(d) => Some(d@),
                None => None,
            },
        }
    }
}

/// A failure that is a message only.
pub open spec fn plain_error(message: Seq<char>) -> ToolErrorView {
    ToolErrorView { message, data: None }
}

impl ToolError {
    /// A failure that is a message only.
    pub fn new(message: String) -> (r: Self)
        ensures
            r@ == plain_error(message@),
    {
        ToolError { message, data: None }
    }

    /// A failure with a payload.
    pub fn with_data(message: String, data: Json) -> (r: Self)
        ensures
            r@ == (ToolErrorView { message: message@, data: Some(data@) }),
    {
        ToolError { message, data: Some(data) }
    }
}

/// The members of a failure's report.
pub open spec fn error_members(e: ToolErrorView) -> Map<Seq<char>, JsonView> {
    let m = Map::<Seq<char>, JsonView>::empty().insert("message"@, JsonView::Text(e.message));
    match e.data {
        Some(d) => m.insert("data"@, d),
        None => m,
    }
}

/// A failure as it is printed.
pub open spec fn error_json(e: ToolErrorView) -> JsonView {
    JsonView::Object(
        Map::<Seq<char>, JsonView>::empty().insert("error"@, JsonView::Object(error_members(e))),
    )
}

/// A mistake on the command line as it is printed.
pub open spec fn usage_json(message: Seq<char>, usage: Seq<char>) -> JsonView {
    JsonView::Object(
        Map::<Seq<char>, JsonView>::empty().insert(
            "error"@,
            JsonView::Object(
                Map::<Seq<char>, JsonView>::empty().insert(
                    "message"@,
                    JsonView::Text(message),
                ).insert("usage"@, JsonView::Text(usage)),
            ),
        ),
    )
}

/// The report of a failure: `{"error": {"message", "data"?}}`.
pub fn error_report(e: ToolError) -> (r: Json)
    ensures
        r@ == error_json(e@),
{
    let mut inner = Members::new().with("message", text(e.message.as_str()));
    if let Some(d) = e.data {
        inner = inner.with("data", d);
    }
    Members::new().with("error", inner.object()).object()
}

/// The report of a mistake on the command line: `{"error": {"message", "usage"}}`.
fn usage_report(message: &str, usage: &str) -> (r: Json)
    ensures
        r@ == usage_json(message@, usage@),
{
    let inner = Members::new().with("message", text(message)).with("usage", text(usage));
    Members::new().with("error", inner.object()).object()
}

// ---------------------------------------------------------------------------
// The command line
// ---------------------------------------------------------------------------

/// A command of the tool.
#[derive(Clone, Copy, PartialEq, Eq, Debug, Structural)]
pub enum Verb {
    Diagnostics,
    Rename,
    References,
}

/// A mistake on the command line.
#[derive(Debug)]
pub enum Mistake {
    /// Arguments that the command needs are not there.
    MissingArguments(Vec<String>),
    /// There is no command.
    MissingCommand,
    /// Anything else, in words.
    Other(String),
}

/// A mistake on the command line.
pub enum MistakeView {
    MissingArguments(Seq<Seq<char>>),
    MissingCommand,
    Other(Seq<char>),
}

impl View for Mistake {
    type V = MistakeView;

    open spec fn view(&self) -> MistakeView {
        match *self {
            Mistake::MissingArguments(list) => MistakeView::MissingArguments(
                list@.map_values(|s: String| s@),
            ),
            Mistake::MissingCommand => MistakeView::MissingCommand,
            Mistake::Other(m) => MistakeView::Other(m@),
        }
    }
}

/// How a command is written; without a command, how the tool is.
pub open spec fn usage_of(verb: Option<Verb>) -> Seq<char> {
    match verb {
        Some(Verb::Diagnostics) => "lsp4a diagnostics <FILE>"@,
        Some(Verb::Rename) => "lsp4a rename <FILE> <TARGET> <NEW_NAME>"@,
        Some(Verb::References) => "lsp4a references <FILE> <TARGET>"@,
        None => "lsp4a <COMMAND>"@,
    }
}

/// Texts with a comma between them.
pub open spec fn listed(list: Seq<Seq<char>>) -> Seq<char>
    decreases list.len(),
{
    if list.len() == 0 {
        Seq::empty()
    } else if list.len() == 1 {
        list[0]
    } else {
        listed(list.drop_last()) + ", "@ + list.last()
    }
}

/// What a mistake says.
pub open spec fn mistake_message(m: MistakeView) -> Seq<char> {
    match m {
        MistakeView::MissingArguments(list) => "missing required argument: "@ + listed(list),
        MistakeView::MissingCommand => "a subcommand is required"@,
        MistakeView::Other(text) => text,
    }
}

fn list_texts(list: &Vec<String>) -> (r: String)
    ensures
        r@ == listed(list@.map_values(|s: String| s@)),
{
    let ghost all = list@.map_values(|s: String| s@);
    let mut out = String::new();
    let mut i: usize = 0;
    assert(all.take(0) =~= Seq::empty());
    while i < list.len()
        invariant
            i <= list@.len(),
            all == list@.map_values(|s: String| s@),
            out@ == listed(all.take(i as int)),
        decreases list@.len() - i,
    {
        proof {
            let part = all.take(i + 1);
            assert(part.last() == list@[i as int]@);
            assert(part.drop_last() =~= all.take(i as int));
        }
        if i > 0 {
            out.append(", ");
        }
        out.append(list[i].as_str());
        assert(i == 0 ==> out@ =~= list@[0]@);
        i += 1;
    }
    assert(all.take(i as int) =~= all);
    out
}

/// The report of a mistake on the command line.
pub fn mistake_report(mistake: &Mistake, verb: Option<Verb>) -> (r: Json)
    ensures
        r@ == usage_json(mistake_message(mistake@), usage_of(verb)),
{
    let message = match mistake {
        Mistake::MissingArguments(list) => {
            let mut m = owned("missing required argument: ");
            let names = list_texts(list);
            m.append(names.as_str());
            m
        },
        Mistake::MissingCommand => owned("a subcommand is required"),
        Mistake::Other(m) => owned(m.as_str()),
    };
    let usage = match verb {
        Some(Verb::Diagnostics) => "lsp4a diagnostics <FILE>",
        Some(Verb::Rename) => "lsp4a rename <FILE> <TARGET> <NEW_NAME>",
        Some(Verb::References) => "lsp4a references <FILE> <TARGET>",
        None => "lsp4a <COMMAND>",
    };
    usage_report(message.as_str(), usage)
}

/// Every missing argument is named to the caller.
pub proof fn lemma_missing_arguments_are_named(list: Seq<Seq<char>>, k: int)
    requires
        0 <= k < list.len(),
    ensures
        mentions(mistake_message(MistakeView::MissingArguments(list)), list[k]),
    decreases list.len(),
{
    let head = "missing required argument: "@;
    let all = lemma_listed_holds(list, k);
    assert(head + listed(list) =~= (head + all.0) + list[k] + all.1 + Seq::<char>::empty());
    lemma_parts_of_message(head + all.0, list[k], all.1, Seq::empty());
}

proof fn lemma_listed_holds(list: Seq<Seq<char>>, k: int) -> (r: (Seq<char>, Seq<char>))
    requires
        0 <= k < list.len(),
    ensures
        listed(list) == r.0 + list[k] + r.1,
    decreases list.len(),
{
    if list.len() == 1 {
        assert(listed(list) =~= Seq::<char>::empty() + list[0] + Seq::<char>::empty());
        (Seq::empty(), Seq::empty())
    } else if k == list.len() - 1 {
        let a = listed(list.drop_last()) + ", "@;
        assert(listed(list) =~= a + list[k] + Seq::<char>::empty());
        (a, Seq::empty())
    } else {
        let r = lemma_listed_holds(list.drop_last(), k);
        let b = r.1 + ", "@ + list.last();
        assert(listed(list) =~= r.0 + list[k] + b);
        (r.0, b)
    }
}

} // verus!
