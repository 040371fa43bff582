//! Running the scripts of a project.
use vstd::prelude::*;

use crate::dict::{sorted, Dict};
use crate::error::Error;
use crate::text::{cat, cat3, cat5, join, joined, replace, replaced, same, Text};

verus! {

/// `event` and its script, if there is one.
pub open spec fn event_script(scripts: Map<Text, Text>, event: Text) -> Seq<(Text, Text)> {
    if scripts.contains_key(event) {
        seq![(event, scripts[event])]
    } else {
        Seq::empty()
    }
}

/// The scripts that run for `name`: it, and the hooks around it.
pub open spec fn script_chain(scripts: Map<Text, Text>, name: Text) -> Seq<(Text, Text)> {
    event_script(scripts, "pre"@ + name) + event_script(scripts, name) + event_script(scripts, "post"@ + name)
}

fn push_script(scripts: &Dict<String>, event: String, chain: &mut Vec<(String, String)>)
    ensures
        final(chain).deep_view() == old(chain).deep_view() + event_script(scripts@, event@),
{
    let ghost before = chain.deep_view();
    if let Some(body) = scripts.get(event.as_str()) {
        let ghost entry = (event@, body@);
        chain.push((event, body.clone()));
        assert(chain.deep_view() =~= before + seq![entry]);
    } else {
        assert(chain.deep_view() =~= before + Seq::<(Text, Text)>::empty());
    }
}

/// `pre` and `post` hooks run around the script they are named after, as in npm.
pub fn chain(scripts: &Dict<String>, name: &str) -> (result: Vec<(String, String)>)
    ensures
        result.deep_view() == script_chain(scripts@, name@),
{
    let mut chain: Vec<(String, String)> = Vec::new();
    push_script(scripts, cat("pre", name), &mut chain);
    push_script(scripts, name.to_owned(), &mut chain);
    push_script(scripts, cat("post", name), &mut chain);
    assert(chain.deep_view() =~= script_chain(scripts@, name@));
    chain
}

/// An argument between quotes, in which quotes are closed, escaped and opened again.
pub open spec fn quoted_argument(arg: Text) -> Text {
    "'"@ + replaced(arg, '\'', "'\\''"@) + "'"@
}

pub fn shell_quote(arg: &str) -> (result: String)
    ensures
        result@ == quoted_argument(arg@),
{
    cat3("'", replace(arg, '\'', "'\\''").as_str(), "'")
}

/// What a shell reads where there are only quotes and escapes: between quotes everything stands for
/// itself, and outside a backslash makes the next character stand for itself.
pub open spec fn shell_reads(line: Text, quoted: bool) -> Option<Text>
    decreases line.len(),
{
    if line.len() == 0 {
        if quoted {
            None
        } else {
            Some(Seq::empty())
        }
    } else if line[0] == '\'' {
        shell_reads(line.skip(1), !quoted)
    } else if quoted {
        match shell_reads(line.skip(1), quoted) {
            Some(rest) => Some(seq![line[0]] + rest),
            None => None,
        }
    } else if line[0] == '\\' && line.len() > 1 {
        match shell_reads(line.skip(2), quoted) {
            Some(rest) => Some(seq![line[1]] + rest),
            None => None,
        }
    } else {
        None
    }
}

proof fn reads_inside(arg: Text, end: Text)
    requires
        shell_reads(end, true) is Some,
    ensures
        shell_reads(replaced(arg, '\'', "'\\''"@) + end, true) == Some(arg + shell_reads(end, true)->0),
    decreases arg.len(),
{
    reveal_strlit("'\\''");
    let escaped = "'\\''"@;
    if arg.len() == 0 {
        assert(replaced(arg, '\'', escaped) + end =~= end);
        assert(arg + shell_reads(end, true)->0 =~= shell_reads(end, true)->0);
    } else {
        let c = arg.last();
        let shorter = arg.drop_last();
        let rest = shell_reads(end, true)->0;
        let piece = if c == '\'' {
            escaped
        } else {
            seq![c]
        };
        let tail = piece + end;
        assert(replaced(arg, '\'', escaped) + end =~= replaced(shorter, '\'', escaped) + tail);
        if c == '\'' {
            assert(escaped.len() == 4);
            assert(tail[0] == '\'' && tail[1] == '\\' && tail[2] == '\'' && tail[3] == '\'');
            let a = tail.skip(1);
            let b = a.skip(2);
            assert(a[0] == '\\' && a[1] == '\'');
            assert(b[0] == '\'');
            assert(b.skip(1) =~= end);
            assert(shell_reads(b, false) == shell_reads(end, true));
            assert(shell_reads(a, false) == Some(seq!['\''] + rest));
            assert(shell_reads(tail, true) == Some(seq![c] + rest));
        } else {
            assert(tail.skip(1) =~= end);
            assert(shell_reads(tail, true) == Some(seq![c] + rest));
        }
        reads_inside(shorter, tail);
        assert(shorter + (seq![c] + rest) =~= arg + rest);
    }
}

/// A shell reads a quoted argument as the argument, whatever it holds.
pub proof fn quoted_is_read_back(arg: Text)
    ensures
        shell_reads(quoted_argument(arg), false) == Some(arg),
{
    reveal_strlit("'");
    let end = "'"@;
    assert(end.skip(1) =~= Seq::empty());
    assert(shell_reads(end.skip(1), false) == Some(Seq::<char>::empty()));
    assert(shell_reads(end, true) == Some(Seq::<char>::empty()));
    reads_inside(arg, end);
    let line = quoted_argument(arg);
    assert(line[0] == '\'');
    assert(line.skip(1) =~= replaced(arg, '\'', "'\\''"@) + end);
    assert(arg + Seq::<char>::empty() =~= arg);
}

/// The line that runs for `event` of the script `name`. Arguments go to that script only.
pub open spec fn event_line(event: Text, body: Text, name: Text, args: Seq<Text>) -> Text {
    if event != name {
        body
    } else {
        joined(seq![body] + args.map_values(|arg: Text| quoted_argument(arg)), " "@)
    }
}

pub fn script_line(event: &str, body: &str, name: &str, args: &Vec<String>) -> (result: String)
    ensures
        result@ == event_line(event@, body@, name@, args.deep_view()),
{
    if !same(event, name) {
        return body.to_owned();
    }
    let ghost all = seq![body@] + args.deep_view().map_values(|arg: Text| quoted_argument(arg));
    let mut parts: Vec<String> = Vec::new();
    parts.push(body.to_owned());
    let mut i: usize = 0;
    while i < args.len()
        invariant
            i <= args.len(),
            all == seq![body@] + args.deep_view().map_values(|arg: Text| quoted_argument(arg)),
            parts@.len() == 1 + i,
            forall|j: int| 0 <= j < 1 + i ==> (#[trigger] parts@[j])@ == all[j],
        decreases args.len() - i,
    {
        assert(all[1 + i] == quoted_argument(args@[i as int]@));
        parts.push(shell_quote(args[i].as_str()));
        i += 1;
    }
    assert(parts.deep_view() =~= all);
    join(&parts, " ")
}

/// The failure of running a script that is not there.
pub open spec fn no_script(scripts: Map<Text, Text>, name: Text) -> Text {
    "package.json has no script named "@ + name + " (available: "@ + joined(sorted(scripts.dom()), ", "@) + ")"@
}

/// The scripts that run for `name`.
pub fn script(scripts: &Dict<String>, name: &str) -> (result: Result<Vec<(String, String)>, Error>)
    ensures
        match result {
            Ok(chain) => scripts@.contains_key(name@) && chain.deep_view() == script_chain(scripts@, name@),
            Err(error) => !scripts@.contains_key(name@) && error@ == seq![no_script(scripts@, name@)],
        },
{
    if scripts.contains_key(name) {
        return Ok(chain(scripts, name));
    }
    let mut available: Vec<String> = Vec::new();
    let n: usize = scripts.len();
    let mut i: usize = 0;
    while i < n
        invariant
            i <= n,
            n == sorted(scripts@.dom()).len(),
            available@.len() == i,
            forall|j: int| 0 <= j < i ==> (#[trigger] available@[j])@ == sorted(scripts@.dom())[j],
        decreases n - i,
    {
        available.push(scripts.key(i).clone());
        i += 1;
    }
    assert(available.deep_view() =~= sorted(scripts@.dom()));
    Err(
        Error::new(
            cat5("package.json has no script named ", name, " (available: ", join(&available, ", ").as_str(), ")"),
        ),
    )
}

/// The script that is asked for runs, after the hook before it and before the hook after it, as far as
/// there are such. Nothing else runs.
pub proof fn hooks_run_around(scripts: Map<Text, Text>, name: Text)
    requires
        scripts.contains_key(name),
    ensures
        ({
            let chain = script_chain(scripts, name);
            let (before, after) = ("pre"@ + name, "post"@ + name);
            let at: int = if scripts.contains_key(before) {
                1
            } else {
                0
            };
            &&& chain[at] == (name, scripts[name])
            &&& scripts.contains_key(before) ==> chain[0] == (before, scripts[before])
            &&& scripts.contains_key(after) ==> chain.last() == (after, scripts[after])
            &&& chain.len() == 1 + at + if scripts.contains_key(after) {
                1int
            } else {
                0int
            }
        }),
{
}

/// A script gets its arguments behind it, each read by a shell as it is and set off by a space, and its
/// hooks get none.
pub proof fn arguments_are_passed(event: Text, name: Text, body: Text, args: Seq<Text>, arg: Text)
    ensures
        event_line(name, body, name, Seq::empty()) == body,
        event_line(name, body, name, args.push(arg)) == event_line(name, body, name, args) + " "@ + quoted_argument(arg),
        event != name ==> event_line(event, body, name, args) == body,
        shell_reads(quoted_argument(arg), false) == Some(arg),
{
    let quote = |arg: Text| quoted_argument(arg);
    let none = Seq::<Text>::empty();
    assert(seq![body] + none.map_values(quote) =~= seq![body]);
    let (before, after) = (seq![body] + args.map_values(quote), seq![body] + args.push(arg).map_values(quote));
    assert(after.drop_last() =~= before);
    assert(after.last() == quoted_argument(arg));
    quoted_is_read_back(arg);
}

} // verus!
