//! The commands that a user types.

use vstd::prelude::*;

use crate::kv::{CommandView, KVCommand, KeyValue};
use crate::text::{
    blank, decimal, is_digit, join_words, law_decimal_reads_back,
    law_trim_takes_the_white_space_around, law_words_join_back, lemma_decimal_digits, parse_u64,
    read_u64, split_words, texts, trim, trim_end, trim_start, trimmed, white_space, words,
};

verus! {

/// Why a line is not a command.
#[derive(Clone, Debug, PartialEq, Eq)]
pub struct ParseCommandError(pub String);

impl ParseCommandError {
    /// The reason, as it is shown to the user.
    pub fn to_string(&self) -> (r: String)
        ensures
            r@ == self.0@,
    {
        self.0.clone()
    }
}

fn error(message: &str) -> (r: ParseCommandError)
    ensures
        r.0@ == message@,
{
    ParseCommandError(message.to_owned())
}

/// The words of a line, without the white space around it.
pub open spec fn line_words(line: Seq<char>) -> Seq<Seq<char>> {
    words(trim(line))
}

/// The port that the word at `at` names, where there is such a word.
pub open spec fn port_at(ws: Seq<Seq<char>>, at: int) -> Option<u64> {
    if at < ws.len() {
        read_u64(ws[at])
    } else {
        None
    }
}

/// Where in a line of the words `ws` the port stands, if the command takes one.
pub open spec fn port_place(ws: Seq<Seq<char>>) -> Option<int> {
    if ws[0] == "delete"@ || ws[0] == "get"@ {
        Some(2)
    } else if ws[0] == "put"@ {
        Some(3)
    } else {
        None
    }
}

/// Whether the port of a line is a number, where the line has one.
pub open spec fn port_readable(line: Seq<char>) -> bool {
    let ws = line_words(line);
    match port_place(ws) {
        Some(at) => at < ws.len() ==> read_u64(ws[at]) is Some,
        None => true,
    }
}

/// What a line says: a command and the port to send it to, or why it is not a command.
pub open spec fn parsed(line: Seq<char>) -> Result<(CommandView, Option<u64>), Seq<char>> {
    let ws = line_words(line);
    if ws[0] == "delete"@ {
        if ws.len() < 2 {
            Err("Not enough arguments"@)
        } else {
            Ok((CommandView::Delete(ws[1]), port_at(ws, 2)))
        }
    } else if ws[0] == "get"@ {
        if ws.len() < 2 {
            Err("Not enough arguments"@)
        } else {
            Ok((CommandView::Get(ws[1]), port_at(ws, 2)))
        }
    } else if ws[0] == "put"@ {
        if ws.len() < 3 {
            Err("Not enough arguments"@)
        } else {
            Ok((CommandView::Put(ws[1], ws[2]), port_at(ws, 3)))
        }
    } else if ws[0] == "help"@ {
        Err("Commands: put <key> <value>, get <key>, delete <key> (optional <port>)"@)
    } else {
        Err("Invalid command type"@)
    }
}

pub open spec fn parse_view(r: Result<(KVCommand, Option<u64>), ParseCommandError>) -> Result<
    (CommandView, Option<u64>),
    Seq<char>,
> {
    match r {
        Ok((command, port)) => Ok((command@, port)),
        Err(e) => Err(e.0@),
    }
}

fn word_is(ws: &Vec<String>, at: usize, literal: &str) -> (r: bool)
    requires
        at < ws@.len(),
    ensures
        r == (texts(ws@)[at as int] == literal@),
{
    ws[at] == literal.to_owned()
}

fn port(ws: &Vec<String>, at: usize) -> (r: Option<u64>)
    ensures
        r == port_at(texts(ws@), at as int),
{
    if at < ws.len() {
        parse_u64(ws[at].as_str())
    } else {
        None
    }
}

/// Whether the port of a line is a number, where the line has one.
pub fn has_readable_port(line: &str) -> (r: bool)
    ensures
        r == port_readable(line@),
{
    proof {
        law_words_join_back(trim(line@));
    }
    let ws = split_words(trimmed(line).as_str());
    assert(texts(ws@).len() == ws@.len());
    let at: usize = if word_is(&ws, 0, "delete") || word_is(&ws, 0, "get") {
        2
    } else if word_is(&ws, 0, "put") {
        3
    } else {
        return true;
    };
    at >= ws.len() || parse_u64(ws[at].as_str()).is_some()
}

/// Reads a typed line: `put <key> <value>`, `get <key>` or `delete <key>`, each with the port of
/// the node to send it to behind it, or without. Words behind those are passed over.
pub fn parse_command(line: String) -> (r: Result<(KVCommand, Option<u64>), ParseCommandError>)
    requires
        port_readable(line@),
    ensures
        parse_view(r) == parsed(line@),
{
    proof {
        law_words_join_back(trim(line@));
    }
    let ws = split_words(trimmed(line.as_str()).as_str());
    assert(texts(ws@).len() == ws@.len());
    if word_is(&ws, 0, "delete") {
        if ws.len() < 2 {
            return Err(error("Not enough arguments"));
        }
        Ok((KVCommand::Delete(ws[1].clone()), port(&ws, 2)))
    } else if word_is(&ws, 0, "get") {
        if ws.len() < 2 {
            return Err(error("Not enough arguments"));
        }
        Ok((KVCommand::Get(ws[1].clone()), port(&ws, 2)))
    } else if word_is(&ws, 0, "put") {
        if ws.len() < 3 {
            return Err(error("Not enough arguments"));
        }
        Ok(
            (
                KVCommand::Put(KeyValue { key: ws[1].clone(), value: ws[2].clone() }),
                port(&ws, 3),
            ),
        )
    } else if word_is(&ws, 0, "help") {
        Err(error("Commands: put <key> <value>, get <key>, delete <key> (optional <port>)"))
    } else {
        Err(error("Invalid command type"))
    }
}

/// The words of the line that a user types for a command.
pub open spec fn typed_words(c: CommandView, to: Option<u64>) -> Seq<Seq<char>> {
    let ws = match c {
        CommandView::Put(key, value) => seq!["put"@, key, value],
        CommandView::Delete(key) => seq!["delete"@, key],
        CommandView::Get(key) => seq!["get"@, key],
    };
    match to {
        Some(n) => ws.push(decimal(n as nat)),
        None => ws,
    }
}

/// The line that a user types for a command.
pub open spec fn typed(c: CommandView, to: Option<u64>) -> Seq<char> {
    join_words(typed_words(c, to))
}

/// Whether a text can end a line: white space there would be taken for the end of the line.
pub open spec fn can_end_line(s: Seq<char>) -> bool {
    s.len() > 0 && !white_space(s.last())
}

/// Whether a command can be typed: its key and value hold no space, and where no port follows
/// them, the last of them can end a line.
pub open spec fn typable(c: CommandView, to: Option<u64>) -> bool {
    match c {
        CommandView::Put(key, value) => !key.contains(' ') && !value.contains(' ') && (to is None
            ==> can_end_line(value)),
        CommandView::Delete(key) => !key.contains(' ') && (to is None ==> can_end_line(key)),
        CommandView::Get(key) => !key.contains(' ') && (to is None ==> can_end_line(key)),
    }
}

proof fn lemma_word_alone(w: Seq<char>)
    requires
        !w.contains(' '),
    ensures
        words(w) == seq![w],
    decreases w.len(),
{
    if w.len() > 0 {
        assert(w[w.len() - 1] != ' ');
        assert(!w.drop_last().contains(' ')) by {
            if w.drop_last().contains(' ') {
                let k = choose|k: int|
                    0 <= k < w.drop_last().len() && w.drop_last()[k] == ' ';
                assert(w[k] == ' ');
            }
        }
        lemma_word_alone(w.drop_last());
        assert(w.drop_last().push(w.last()) =~= w);
        assert(words(w) =~= seq![w]);
    } else {
        assert(w =~= Seq::empty());
    }
}

proof fn lemma_word_behind(a: Seq<char>, w: Seq<char>)
    requires
        !w.contains(' '),
    ensures
        words(a.push(' ') + w) == words(a).push(w),
    decreases w.len(),
{
    let s = a.push(' ') + w;
    if w.len() > 0 {
        assert(w[w.len() - 1] != ' ');
        assert(!w.drop_last().contains(' ')) by {
            if w.drop_last().contains(' ') {
                let k = choose|k: int|
                    0 <= k < w.drop_last().len() && w.drop_last()[k] == ' ';
                assert(w[k] == ' ');
            }
        }
        lemma_word_behind(a, w.drop_last());
        assert(s.drop_last() =~= a.push(' ') + w.drop_last());
        assert(w.drop_last().push(w.last()) =~= w);
        assert(words(a).push(w.drop_last()).drop_last() =~= words(a));
    } else {
        assert(s =~= a.push(' '));
        assert(s.drop_last() =~= a);
        assert(w =~= Seq::empty());
    }
}

proof fn lemma_joined_words(ws: Seq<Seq<char>>)
    requires
        ws.len() > 0,
        forall|i: int| 0 <= i < ws.len() ==> !(#[trigger] ws[i]).contains(' '),
    ensures
        words(join_words(ws)) == ws,
    decreases ws.len(),
{
    if ws.len() == 1 {
        lemma_word_alone(ws[0]);
        assert(seq![ws[0]] =~= ws);
    } else {
        assert forall|i: int| 0 <= i < ws.drop_last().len() implies !(
        #[trigger] ws.drop_last()[i]).contains(' ') by {
            assert(ws.drop_last()[i] == ws[i]);
        }
        lemma_joined_words(ws.drop_last());
        lemma_word_behind(join_words(ws.drop_last()), ws.last());
        assert(ws.drop_last().push(ws.last()) =~= ws);
    }
}

proof fn lemma_join_ends(ws: Seq<Seq<char>>)
    requires
        ws.len() > 0,
        ws[0].len() > 0,
        ws.last().len() > 0,
    ensures
        join_words(ws).len() > 0,
        join_words(ws)[0] == ws[0][0],
        join_words(ws).last() == ws.last().last(),
{
    if ws.len() > 1 {
        lemma_join_first(ws.drop_last());
    }
}

proof fn lemma_join_first(ws: Seq<Seq<char>>)
    requires
        ws.len() > 0,
        ws[0].len() > 0,
    ensures
        join_words(ws).len() > 0,
        join_words(ws)[0] == ws[0][0],
    decreases ws.len(),
{
    if ws.len() > 1 {
        lemma_join_first(ws.drop_last());
    }
}

/// The line that a user types for a command reads back as that command, for the node whose port
/// was typed behind it, if one was.
pub proof fn law_typed_command_reads_back(c: CommandView, to: Option<u64>)
    requires
        typable(c, to),
    ensures
        port_readable(typed(c, to)),
        parsed(typed(c, to)) == Ok::<(CommandView, Option<u64>), Seq<char>>((c, to)),
{
    reveal_strlit("put");
    reveal_strlit("get");
    reveal_strlit("delete");
    let ws = typed_words(c, to);
    let line = typed(c, to);
    if let Some(n) = to {
        law_decimal_reads_back(n);
        lemma_decimal_digits(n as nat);
        assert(is_digit(decimal(n as nat)[decimal(n as nat).len() - 1]));
        if decimal(n as nat).contains(' ') {
            let k = choose|k: int| 0 <= k < decimal(n as nat).len() && decimal(n as nat)[k] == ' ';
            assert(is_digit(decimal(n as nat)[k]));
        }
    }
    assert forall|i: int| 0 <= i < ws.len() implies !(#[trigger] ws[i]).contains(' ') by {
        if i == 0 && ws[0].contains(' ') {
            let k = choose|k: int| 0 <= k < ws[0].len() && ws[0][k] == ' ';
            assert(ws[0][k] != ' ');
        }
    }
    lemma_joined_words(ws);
    lemma_join_ends(ws);
    assert(trim_start(line) == line);
    assert(trim_end(line) == line);
    assert(line_words(line) == ws);
    assert("put"@[0] == 'p');
    assert("get"@[0] == 'g');
    assert("delete"@[0] == 'd');
}

/// Whether texts can be the words of a line: none holds a space, and the line that they make neither
/// starts nor ends with white space.
pub open spec fn make_a_line(ws: Seq<Seq<char>>) -> bool {
    &&& ws.len() > 0
    &&& forall|i: int| 0 <= i < ws.len() ==> !(#[trigger] ws[i]).contains(' ')
    &&& ws[0].len() > 0 && !white_space(ws[0][0])
    &&& can_end_line(ws[ws.len() - 1])
}

proof fn lemma_line_words(before: Seq<char>, ws: Seq<Seq<char>>, after: Seq<char>)
    requires
        make_a_line(ws),
        blank(before),
        blank(after),
    ensures
        line_words(before + join_words(ws) + after) == ws,
{
    lemma_joined_words(ws);
    lemma_join_ends(ws);
    law_trim_takes_the_white_space_around(before, join_words(ws), after);
}

/// A line whose first word is `put` and that has two words more is a put of the second word under
/// the first of them. A fourth word is the port, and further words and the white space around the
/// line change nothing.
pub proof fn law_put_line(
    before: Seq<char>,
    key: Seq<char>,
    value: Seq<char>,
    rest: Seq<Seq<char>>,
    after: Seq<char>,
)
    requires
        make_a_line(seq!["put"@, key, value] + rest),
        blank(before),
        blank(after),
    ensures
        ({
            let line = before + join_words(seq!["put"@, key, value] + rest) + after;
            &&& parsed(line) == Ok::<(CommandView, Option<u64>), Seq<char>>(
                (
                    CommandView::Put(key, value),
                    if rest.len() > 0 {
                        read_u64(rest[0])
                    } else {
                        None
                    },
                ),
            )
            &&& port_readable(line) <==> (rest.len() > 0 ==> read_u64(rest[0]) is Some)
        }),
{
    reveal_strlit("put");
    reveal_strlit("get");
    reveal_strlit("delete");
    let ws = seq!["put"@, key, value] + rest;
    lemma_line_words(before, ws, after);
    assert("put"@[0] == 'p' && "get"@[0] == 'g' && "delete"@[0] == 'd');
    assert(rest.len() > 0 ==> ws[3] == rest[0]);
}

/// A line whose first word is `get` or `delete` and that has a word more is a get or a delete of
/// that word. A third word is the port, and further words and the white space around the line
/// change nothing.
pub proof fn law_get_and_delete_lines(
    before: Seq<char>,
    key: Seq<char>,
    rest: Seq<Seq<char>>,
    after: Seq<char>,
)
    requires
        make_a_line(seq!["get"@, key] + rest),
        blank(before),
        blank(after),
    ensures
        ({
            let get = before + join_words(seq!["get"@, key] + rest) + after;
            let delete = before + join_words(seq!["delete"@, key] + rest) + after;
            let port = if rest.len() > 0 {
                read_u64(rest[0])
            } else {
                None
            };
            &&& parsed(get) == Ok::<(CommandView, Option<u64>), Seq<char>>(
                (CommandView::Get(key), port),
            )
            &&& parsed(delete) == Ok::<(CommandView, Option<u64>), Seq<char>>(
                (CommandView::Delete(key), port),
            )
            &&& port_readable(get) <==> (rest.len() > 0 ==> read_u64(rest[0]) is Some)
            &&& port_readable(delete) <==> (rest.len() > 0 ==> read_u64(rest[0]) is Some)
        }),
{
    reveal_strlit("put");
    reveal_strlit("get");
    reveal_strlit("delete");
    let g = seq!["get"@, key] + rest;
    let d = seq!["delete"@, key] + rest;
    assert("put"@[0] == 'p' && "get"@[0] == 'g' && "delete"@[0] == 'd');
    assert forall|i: int| 0 <= i < d.len() implies !(#[trigger] d[i]).contains(' ') by {
        if i > 0 {
            assert(d[i] == g[i]);
        } else if d[0].contains(' ') {
            let k = choose|k: int| 0 <= k < d[0].len() && d[0][k] == ' ';
            assert(d[0][k] != ' ');
        }
    }
    assert(d[d.len() - 1] == g[g.len() - 1]);
    lemma_line_words(before, g, after);
    lemma_line_words(before, d, after);
    assert(rest.len() > 0 ==> g[2] == rest[0] && d[2] == rest[0]);
}

/// A line that starts with the name of a command and has too few words for it is no command, and
/// the user is told so.
pub proof fn law_incomplete_lines(before: Seq<char>, key: Seq<char>, after: Seq<char>)
    requires
        blank(before),
        blank(after),
        !key.contains(' '),
        can_end_line(key),
    ensures
        parsed(before + "put"@ + after) == Err::<(CommandView, Option<u64>), Seq<char>>(
            "Not enough arguments"@,
        ),
        parsed(before + "get"@ + after) == Err::<(CommandView, Option<u64>), Seq<char>>(
            "Not enough arguments"@,
        ),
        parsed(before + "delete"@ + after) == Err::<(CommandView, Option<u64>), Seq<char>>(
            "Not enough arguments"@,
        ),
        parsed(before + join_words(seq!["put"@, key]) + after) == Err::<
            (CommandView, Option<u64>),
            Seq<char>,
        >("Not enough arguments"@),
        port_readable(before + "put"@ + after),
        port_readable(before + "get"@ + after),
        port_readable(before + "delete"@ + after),
        port_readable(before + join_words(seq!["put"@, key]) + after),
{
    reveal_strlit("put");
    reveal_strlit("get");
    reveal_strlit("delete");
    assert("put"@[0] == 'p' && "get"@[0] == 'g' && "delete"@[0] == 'd');
    assert(!"put"@.contains(' '));
    assert(!"get"@.contains(' '));
    assert(!"delete"@.contains(' '));
    lemma_line_words(before, seq!["put"@], after);
    lemma_line_words(before, seq!["get"@], after);
    lemma_line_words(before, seq!["delete"@], after);
    lemma_line_words(before, seq!["put"@, key], after);
}

/// A line whose first word is none of the commands is none, whatever follows: `help` is answered
/// with the commands that there are, and any other word, or an empty line, with that it is none.
pub proof fn law_other_lines(before: Seq<char>, ws: Seq<Seq<char>>, after: Seq<char>)
    requires
        make_a_line(ws),
        blank(before),
        blank(after),
        ws[0] != "put"@,
        ws[0] != "get"@,
        ws[0] != "delete"@,
    ensures
        parsed(before + join_words(ws) + after) == Err::<(CommandView, Option<u64>), Seq<char>>(
            if ws[0] == "help"@ {
                "Commands: put <key> <value>, get <key>, delete <key> (optional <port>)"@
            } else {
                "Invalid command type"@
            },
        ),
        parsed(before + after) == Err::<(CommandView, Option<u64>), Seq<char>>(
            "Invalid command type"@,
        ),
        port_readable(before + join_words(ws) + after),
        port_readable(before + after),
{
    reveal_strlit("put");
    reveal_strlit("get");
    reveal_strlit("delete");
    reveal_strlit("help");
    lemma_line_words(before, ws, after);
    let none = Seq::<char>::empty();
    law_trim_takes_the_white_space_around(before, none, after);
    assert(before + none + after =~= before + after);
    assert(words(none) =~= seq![none]);
    assert(line_words(before + after)[0].len() == 0);
}

/// The white space around a line changes nothing: a command that a user types reads back as that
/// command with any of it before and behind, the line feed that ends the line among it.
pub proof fn law_white_space_around_a_line(
    before: Seq<char>,
    c: CommandView,
    to: Option<u64>,
    after: Seq<char>,
)
    requires
        typable(c, to),
        blank(before),
        blank(after),
    ensures
        port_readable(before + typed(c, to) + after),
        parsed(before + typed(c, to) + after) == Ok::<(CommandView, Option<u64>), Seq<char>>(
            (c, to),
        ),
        parsed(typed(c, to).push('\n')) == Ok::<(CommandView, Option<u64>), Seq<char>>((c, to)),
{
    law_typed_command_reads_back(c, to);
    lemma_typed_makes_a_line(c, to);
    let ws = typed_words(c, to);
    let none = Seq::<char>::empty();
    lemma_line_words(before, ws, after);
    lemma_line_words(none, ws, none);
    lemma_line_words(none, ws, seq!['\n']);
    assert(none + typed(c, to) + none =~= typed(c, to));
    assert(none + typed(c, to) + seq!['\n'] =~= typed(c, to).push('\n'));
}

proof fn lemma_typed_makes_a_line(c: CommandView, to: Option<u64>)
    requires
        typable(c, to),
    ensures
        make_a_line(typed_words(c, to)),
{
    reveal_strlit("put");
    reveal_strlit("get");
    reveal_strlit("delete");
    let ws = typed_words(c, to);
    if let Some(n) = to {
        lemma_decimal_digits(n as nat);
        let d = decimal(n as nat);
        assert(is_digit(d[d.len() - 1]));
        if d.contains(' ') {
            let k = choose|k: int| 0 <= k < d.len() && d[k] == ' ';
            assert(is_digit(d[k]));
        }
    }
    assert forall|i: int| 0 <= i < ws.len() implies !(#[trigger] ws[i]).contains(' ') by {
        if i == 0 && ws[0].contains(' ') {
            let k = choose|k: int| 0 <= k < ws[0].len() && ws[0][k] == ' ';
            assert(ws[0][k] != ' ');
        }
    }
}

} // verus!
