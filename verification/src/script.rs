//! Scripts of input events: one event on a line, as `<milliseconds> <down|up> <key>`.
use vstd::prelude::*;

use crate::error::Error;
use crate::input::{EventKind, Holdable, Key};
use crate::names::{Lexicon, Meaning};
use crate::text::{
    decimal, decimal_of, lines, lines_of, number_of, number_value, same, split_at_char, split_char, texts, trim,
    trimmed, words, words_of, lemma_split_nonempty,
};

verus! {

/// An event and when it happens.
#[derive(Debug, Clone, Copy, PartialEq, Eq, Structural)]
pub struct ScriptEvent {
    /// Milliseconds after the start.
    pub at_ms: u64,
    pub kind: EventKind,
}

/// What one line says.
pub enum ScriptLine {
    /// Nothing: it is blank, or only a comment.
    Nothing,
    /// An event.
    Event(ScriptEvent),
    /// It does not parse, and this is why.
    Wrong(Seq<char>),
}

/// A line without its comment and without the white space around it.
pub open spec fn stripped(line: Seq<char>) -> Seq<char> {
    trimmed(split_at_char(line, '#')[0])
}

/// The key that a word names.
pub open spec fn key_named(lexicon: &Lexicon, word: Seq<char>) -> Option<Key> {
    match lexicon.meaning(word) {
        Some(Meaning::Input(Holdable::Key(key))) => Some(key),
        _ => None,
    }
}

/// What one line says.
pub open spec fn line_meaning(lexicon: &Lexicon, raw: Seq<char>) -> ScriptLine {
    let line = stripped(raw);
    let parts = words(line);
    if line.len() == 0 {
        ScriptLine::Nothing
    } else if parts.len() != 3 {
        ScriptLine::Wrong("expected `<milliseconds> <down|up> <key>`, got `"@ + line + "`"@)
    } else {
        match number_value(parts[0], u64::MAX as nat) {
            None => ScriptLine::Wrong(
                "`"@ + parts[0] + "` is not a whole number of milliseconds"@,
            ),
            Some(ms) => match key_named(lexicon, parts[2]) {
                None => ScriptLine::Wrong("unknown key `"@ + parts[2] + "`"@),
                Some(key) => if parts[1] == "down"@ {
                    ScriptLine::Event(
                        ScriptEvent { at_ms: ms as u64, kind: EventKind::KeyDown(key) },
                    )
                } else if parts[1] == "up"@ {
                    ScriptLine::Event(
                        ScriptEvent { at_ms: ms as u64, kind: EventKind::KeyUp(key) },
                    )
                } else {
                    ScriptLine::Wrong("expected `down` or `up`, got `"@ + parts[1] + "`"@)
                },
            },
        }
    }
}

/// The events of the lines before the first one that does not parse, or of all lines.
pub open spec fn events_of(lexicon: &Lexicon, list: Seq<Seq<char>>) -> Seq<ScriptEvent>
    decreases list.len(),
{
    if list.len() == 0 {
        seq![]
    } else {
        let before = events_of(lexicon, list.drop_last());
        match line_meaning(lexicon, list.last()) {
            ScriptLine::Event(event) => before.push(event),
            _ => before,
        }
    }
}

/// Whether a line is the first that does not parse.
pub open spec fn first_wrong(lexicon: &Lexicon, list: Seq<Seq<char>>, at: int) -> bool {
    &&& 0 <= at < list.len()
    &&& line_meaning(lexicon, list[at]) is Wrong
    &&& forall|i: int| 0 <= i < at ==> !(line_meaning(lexicon, #[trigger] list[i]) is Wrong)
}

/// What one line was found to say.
enum Read {
    Nothing,
    Event(ScriptEvent),
    Wrong(String),
}

spec fn is_read(read: Read, meant: ScriptLine) -> bool {
    match (read, meant) {
        (Read::Nothing, ScriptLine::Nothing) => true,
        (Read::Event(a), ScriptLine::Event(b)) => a == b,
        (Read::Wrong(a), ScriptLine::Wrong(b)) => a@ == b,
        _ => false,
    }
}

fn quoting(start: &str, word: &str, end: &str) -> (out: String)
    ensures
        out@ == start@ + word@ + end@,
{
    let mut out: String = start.to_owned();
    out.append(word);
    out.append(end);
    out
}

fn read_line(lexicon: &Lexicon, raw: &str) -> (r: Read)
    ensures
        is_read(r, line_meaning(lexicon, raw@)),
{
    let pieces = split_char(raw, '#');
    proof {
        lemma_split_nonempty(raw@, '#');
        assert(texts(pieces@)[0] == pieces@[0]@);
    }
    let line = trim(pieces[0].as_str());
    if line.as_str().unicode_len() == 0 {
        return Read::Nothing;
    }
    let parts = words_of(line.as_str());
    if parts.len() != 3 {
        return Read::Wrong(
            quoting("expected `<milliseconds> <down|up> <key>`, got `", line.as_str(), "`"),
        );
    }
    proof {
        assert(texts(parts@)[0] == parts@[0]@);
        assert(texts(parts@)[1] == parts@[1]@);
        assert(texts(parts@)[2] == parts@[2]@);
    }
    let at_ms: u64 = match number_of(parts[0].as_str(), u64::MAX) {
        Some(ms) => ms,
        None => {
            return Read::Wrong(
                quoting("`", parts[0].as_str(), "` is not a whole number of milliseconds"),
            );
        },
    };
    let key = match lexicon.meaning_of(parts[2].as_str()) {
        Some(Meaning::Input(Holdable::Key(key))) => key,
        _ => {
            return Read::Wrong(quoting("unknown key `", parts[2].as_str(), "`"));
        },
    };
    if same(parts[1].as_str(), "down") {
        Read::Event(ScriptEvent { at_ms, kind: EventKind::KeyDown(key) })
    } else if same(parts[1].as_str(), "up") {
        Read::Event(ScriptEvent { at_ms, kind: EventKind::KeyUp(key) })
    } else {
        Read::Wrong(quoting("expected `down` or `up`, got `", parts[1].as_str(), "`"))
    }
}

/// Reads a script. Blank lines and comments are passed over; the first line that does not parse is
/// refused by its number, which counts from one.
pub fn parse_script(lexicon: &Lexicon, source: &str) -> (r: Result<Vec<ScriptEvent>, Error>)
    ensures
        match r {
            Ok(events) => events@ == events_of(lexicon, lines(source@)) && forall|at: int|
                !#[trigger] first_wrong(lexicon, lines(source@), at),
            Err(Error::Script { line, detail }) => first_wrong(lexicon, lines(source@), line - 1)
                && line_meaning(lexicon, lines(source@)[line - 1]) == ScriptLine::Wrong(detail@),
            Err(_) => false,
        },
{
    let all = lines_of(source);
    let ghost list = texts(all@);
    let mut events: Vec<ScriptEvent> = Vec::new();
    let mut i: usize = 0;
    assert(list.take(0) =~= seq![]);
    assert(events@ =~= seq![]);
    while i < all.len()
        invariant
            i <= all@.len(),
            list == texts(all@),
            list == lines(source@),
            events@ == events_of(lexicon, list.take(i as int)),
            forall|k: int| 0 <= k < i ==> !(line_meaning(lexicon, #[trigger] list[k]) is Wrong),
        decreases all@.len() - i,
    {
        proof {
            assert(list.take(i + 1).drop_last() =~= list.take(i as int));
            assert(list.take(i + 1).last() == list[i as int]);
            assert(list[i as int] == all@[i as int]@);
        }
        match read_line(lexicon, all[i].as_str()) {
            Read::Nothing => {},
            Read::Event(event) => {
                events.push(event);
            },
            Read::Wrong(detail) => {
                assert(first_wrong(lexicon, list, i as int));
                return Err(Error::Script { line: i as u64 + 1, detail });
            },
        }
        i += 1;
    }
    assert(list.take(list.len() as int) =~= list);
    Ok(events)
}

// ------------------------------------------------------------------------------- the replay

/// What replaying a script through the engine came to.
#[derive(Debug)]
pub struct Replayed {
    /// The actions, drawn over time.
    pub timeline: String,
    pub actions: u64,
    pub repetitions: u64,
    pub skipped: u64,
    /// What is still held, where anything is.
    pub leaked: Option<String>,
}

/// The lines of a replay; a quiet one shows only what was sent.
pub open spec fn replay_lines(found: Replayed, quiet: bool) -> Seq<Seq<char>> {
    if quiet {
        seq![found.timeline@]
    } else {
        seq![
            found.timeline@,
            ""@,
            decimal(found.actions as nat) + " actions, "@ + decimal(found.repetitions as nat)
                + " repetitions, "@ + decimal(found.skipped as nat) + " skipped."@,
            match found.leaked {
                Some(held) => "STILL HELD: "@ + held@,
                None => "nothing left held."@,
            },
        ]
    }
}

/// What a replay prints.
pub fn simulate(found: &Replayed, quiet: bool) -> (out: Vec<String>)
    ensures
        texts(out@) == replay_lines(*found, quiet),
{
    let mut out: Vec<String> = Vec::new();
    out.push(found.timeline.clone());
    if quiet {
        assert(texts(out@) =~= replay_lines(*found, quiet));
        return out;
    }
    out.push("".to_owned());
    let mut counts: String = decimal_of(found.actions);
    counts.append(" actions, ");
    counts.append(decimal_of(found.repetitions).as_str());
    counts.append(" repetitions, ");
    counts.append(decimal_of(found.skipped).as_str());
    counts.append(" skipped.");
    out.push(counts);
    let held = match &found.leaked {
        Some(held) => quoting("STILL HELD: ", held.as_str(), ""),
        None => "nothing left held.".to_owned(),
    };
    proof {
        reveal_strlit("");
        if found.leaked is Some {
            assert("STILL HELD: "@ + found.leaked->0@ + ""@ =~= "STILL HELD: "@
                + found.leaked->0@);
        }
    }
    out.push(held);
    assert(texts(out@) =~= replay_lines(*found, quiet));
    out
}

/// A line of a script is a time in milliseconds, an edge and a key: the press or the release of
/// that key at that time. A line of another shape is wrong, and a blank one is nothing.
pub proof fn law_a_line_is_a_time_an_edge_and_a_key(
    lexicon: &Lexicon,
    line: Seq<char>,
    ms: u64,
    edge: Seq<char>,
    name: Seq<char>,
    key: Key,
)
    requires
        stripped(line).len() > 0,
        words(stripped(line)) == seq![decimal(ms as nat), edge, name],
        lexicon.meaning(name) == Some(Meaning::Input(Holdable::Key(key))),
    ensures
        edge == "down"@ ==> line_meaning(lexicon, line) == ScriptLine::Event(
            (ScriptEvent { at_ms: ms, kind: EventKind::KeyDown(key) }),
        ),
        edge == "up"@ ==> line_meaning(lexicon, line) == ScriptLine::Event(
            (ScriptEvent { at_ms: ms, kind: EventKind::KeyUp(key) }),
        ),
        edge != "down"@ && edge != "up"@ ==> line_meaning(lexicon, line) is Wrong,
{
    crate::text_laws::law_a_number_reads_back(ms as nat, u64::MAX as nat);
    reveal_strlit("down");
    reveal_strlit("up");
    assert("down"@.len() == 4 && "up"@.len() == 2);
}

/// A line that is blank, or only a comment, says nothing; what follows the sign of a comment is not
/// read.
pub proof fn law_a_comment_is_not_read(lexicon: &Lexicon, line: Seq<char>, comment: Seq<char>)
    requires
        !line.contains('#'),
    ensures
        stripped(line + seq!['#'] + comment) == trimmed(line),
        stripped(line) == trimmed(line),
        trimmed(line).len() == 0 ==> line_meaning(lexicon, line + seq!['#'] + comment) is Nothing,
{
    crate::text_laws::lemma_split_concat(line, comment, '#');
    crate::text_laws::lemma_split_plain(line, '#');
    let pieces = split_at_char(line + seq!['#'] + comment, '#');
    assert(pieces[0] == line);
}

/// The events of a script are those of its lines, in order; a line without one adds none.
pub proof fn law_each_line_adds_its_event(
    lexicon: &Lexicon,
    list: Seq<Seq<char>>,
    line: Seq<char>,
)
    ensures
        events_of(lexicon, Seq::empty()).len() == 0,
        line_meaning(lexicon, line) matches ScriptLine::Event(event) ==> events_of(
            lexicon,
            list.push(line),
        ) == events_of(lexicon, list).push(event),
        !(line_meaning(lexicon, line) is Event) ==> events_of(lexicon, list.push(line))
            == events_of(lexicon, list),
{
    assert(list.push(line).drop_last() =~= list);
}

/// A quiet replay shows only what was sent; any other counts it too, and says what is still held
/// where anything is.
pub proof fn law_a_replay_says_what_is_still_held(found: Replayed, held: String)
    ensures
        replay_lines(found, true) == seq![found.timeline@],
        replay_lines(found, false).len() == 4,
        replay_lines(found, false)[0] == found.timeline@,
        replay_lines(found, false)[2] == decimal(found.actions as nat) + " actions, "@ + decimal(
            found.repetitions as nat,
        ) + " repetitions, "@ + decimal(found.skipped as nat) + " skipped."@,
        found.leaked is None ==> replay_lines(found, false)[3] == "nothing left held."@,
        found.leaked == Some(held) ==> replay_lines(found, false)[3] == "STILL HELD: "@ + held@,
{
}

} // verus!
