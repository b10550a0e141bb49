//! Choosing among applied profiles, and among the files to apply.
use vstd::prelude::*;

use crate::style;
use crate::text::{
    copy_texts, decimal, decimal_of, join, joined, lemma_split_nonempty, lowered, number_of,
    number_value, position_of, same, same_ignoring_case, split_at_char, split_char, texts, words,
    words_of,
};

verus! {

// -------------------------------------------------------------------------- file names

/// The last of the parts of a path that names something: neither empty nor the directory itself.
pub open spec fn last_part(parts: Seq<Seq<char>>) -> Option<Seq<char>>
    decreases parts.len(),
{
    if parts.len() == 0 {
        None
    } else if parts.last().len() == 0 || parts.last() == "."@ {
        last_part(parts.drop_last())
    } else {
        Some(parts.last())
    }
}

/// The name that a path ends in; there is none where it ends in the parent directory.
pub open spec fn file_name(path: Seq<char>) -> Option<Seq<char>> {
    match last_part(split_at_char(path, '/')) {
        Some(part) => if part == ".."@ {
            None
        } else {
            Some(part)
        },
        None => None,
    }
}

/// The name that a path ends in.
pub fn file_name_of(path: &str) -> (r: Option<String>)
    ensures
        match r {
            Some(name) => file_name(path@) == Some(name@),
            None => file_name(path@) is None,
        },
{
    let parts = split_char(path, '/');
    let ghost all = texts(parts@);
    let mut i: usize = parts.len();
    assert(all.take(i as int) =~= all);
    while i > 0
        invariant
            i <= parts@.len(),
            all == texts(parts@),
            all == split_at_char(path@, '/'),
            last_part(all) == last_part(all.take(i as int)),
        decreases i,
    {
        i -= 1;
        proof {
            assert(all.take(i + 1).drop_last() =~= all.take(i as int));
            assert(all.take(i + 1).last() == parts@[i as int]@);
        }
        if !parts[i].as_str().is_empty() && !same(parts[i].as_str(), ".") {
            if same(parts[i].as_str(), "..") {
                return None;
            }
            return Some(parts[i].clone());
        }
    }
    None
}

// ------------------------------------------------------------------------- the picker

/// The applied profile that a token names: by its file name, or by that without the ending.
pub open spec fn resolved(token: Seq<char>, names: Seq<Seq<char>>) -> Option<Seq<char>> {
    let base = match file_name(token) {
        Some(name) => name,
        None => token,
    };
    if names.contains(base) {
        Some(base)
    } else if names.contains(base + ".toml"@) {
        Some(base + ".toml"@)
    } else {
        None
    }
}

/// Why a token names nothing.
pub open spec fn not_applied(token: Seq<char>, names: Seq<Seq<char>>, colour: bool) -> Seq<char> {
    "`"@ + token + "` is (already) "@ + style::painted(style::ALARM@, "not applied"@, colour)
        + "; list of applied: "@ + joined(names, ", "@)
}

/// Resolves one name, with or without its ending, or a whole path, to an applied profile.
pub fn resolve_one(token: &str, names: &Vec<String>, colour: bool) -> (r: Result<String, String>)
    ensures
        match r {
            Ok(name) => resolved(token@, texts(names@)) == Some(name@),
            Err(why) => resolved(token@, texts(names@)) is None && why@ == not_applied(
                token@,
                texts(names@),
                colour,
            ),
        },
{
    let base = match file_name_of(token) {
        Some(name) => name,
        None => token.to_owned(),
    };
    if position_of(names, base.as_str()).is_some() {
        return Ok(base);
    }
    let mut longer: String = base.clone();
    longer.append(".toml");
    if position_of(names, longer.as_str()).is_some() {
        return Ok(longer);
    }
    let mut why: String = "`".to_owned();
    why.append(token);
    why.append("` is (already) ");
    why.append(style::alarm("not applied", colour).as_str());
    why.append("; list of applied: ");
    why.append(join(names, ", ").as_str());
    Err(why)
}

/// What a list of tokens resolves to: the names in order, or the first refusal.
pub open spec fn all_resolved(
    tokens: Seq<Seq<char>>,
    names: Seq<Seq<char>>,
    colour: bool,
) -> Result<Seq<Seq<char>>, Seq<char>>
    decreases tokens.len(),
{
    if tokens.len() == 0 {
        Ok(seq![])
    } else {
        match all_resolved(tokens.drop_last(), names, colour) {
            Err(why) => Err(why),
            Ok(before) => match resolved(tokens.last(), names) {
                Some(name) => Ok(before.push(name)),
                None => Err(not_applied(tokens.last(), names, colour)),
            },
        }
    }
}

/// Whether a result of texts is the one that is meant.
pub open spec fn is_texts(
    r: Result<Vec<String>, String>,
    meant: Result<Seq<Seq<char>>, Seq<char>>,
) -> bool {
    match r {
        Ok(out) => meant == Ok::<Seq<Seq<char>>, Seq<char>>(texts(out@)),
        Err(why) => meant == Err::<Seq<Seq<char>>, Seq<char>>(why@),
    }
}

proof fn lemma_refusal_stays(
    tokens: Seq<Seq<char>>,
    names: Seq<Seq<char>>,
    colour: bool,
    i: int,
)
    requires
        0 <= i <= tokens.len(),
        all_resolved(tokens.take(i), names, colour) is Err,
    ensures
        all_resolved(tokens, names, colour) == all_resolved(tokens.take(i), names, colour),
    decreases tokens.len(),
{
    if i == tokens.len() {
        assert(tokens.take(i) =~= tokens);
    } else {
        assert(tokens.drop_last().take(i) =~= tokens.take(i));
        lemma_refusal_stays(tokens.drop_last(), names, colour, i);
    }
}

/// Resolves names given on the command line to applied profiles, in the order given.
pub fn resolve_names(given: &Vec<String>, names: &Vec<String>, colour: bool) -> (r: Result<
    Vec<String>,
    String,
>)
    ensures
        is_texts(r, all_resolved(texts(given@), texts(names@), colour)),
{
    let mut out: Vec<String> = Vec::new();
    let mut i: usize = 0;
    let ghost tokens = texts(given@);
    proof {
        assert(texts(out@) =~= seq![]);
        assert(tokens.take(0) =~= seq![]);
    }
    while i < given.len()
        invariant
            i <= given@.len(),
            tokens == texts(given@),
            all_resolved(tokens.take(i as int), texts(names@), colour) == Ok::<
                Seq<Seq<char>>,
                Seq<char>,
            >(texts(out@)),
        decreases given@.len() - i,
    {
        proof {
            assert(tokens.take(i + 1).drop_last() =~= tokens.take(i as int));
            assert(tokens.take(i + 1).last() == given@[i as int]@);
        }
        match resolve_one(given[i].as_str(), names, colour) {
            Ok(name) => {
                let ghost before = texts(out@);
                let ghost word = name@;
                out.push(name);
                assert(texts(out@) =~= before.push(word));
            },
            Err(why) => {
                proof {
                    lemma_refusal_stays(tokens, texts(names@), colour, i + 1);
                }
                return Err(why);
            },
        }
        i += 1;
    }
    assert(tokens.take(tokens.len() as int) =~= tokens);
    Ok(out)
}

/// What one token of a selection stands for.
pub enum Pick {
    /// Every profile.
    All,
    /// One profile.
    One(Seq<char>),
    /// Nothing, for a reason.
    Refused(Seq<char>),
}

/// What one token of a selection stands for: everything, a place on the list, or a name.
pub open spec fn pick(token: Seq<char>, names: Seq<Seq<char>>, colour: bool) -> Pick {
    if lowered(token) == "all"@ {
        Pick::All
    } else {
        match number_value(token, usize::MAX as nat) {
            Some(number) => if 1 <= number <= names.len() {
                Pick::One(names[number - 1])
            } else {
                Pick::Refused(
                    decimal(number) + " is not on the list (1..="@ + decimal(names.len()) + ")"@,
                )
            },
            None => match resolved(token, names) {
                Some(name) => Pick::One(name),
                None => Pick::Refused(not_applied(token, names, colour)),
            },
        }
    }
}

/// What the tokens stand for after those chosen already: `None` for everything.
pub open spec fn picked(
    tokens: Seq<Seq<char>>,
    names: Seq<Seq<char>>,
    colour: bool,
    chosen: Seq<Seq<char>>,
) -> Result<Option<Seq<Seq<char>>>, Seq<char>>
    decreases tokens.len(),
{
    if tokens.len() == 0 {
        Ok(Some(chosen))
    } else {
        match pick(tokens[0], names, colour) {
            Pick::All => Ok(None),
            Pick::One(name) => picked(tokens.skip(1), names, colour, chosen.push(name)),
            Pick::Refused(why) => Err(why),
        }
    }
}

/// A list without the elements that repeat the one before them.
pub open spec fn deduped(list: Seq<Seq<char>>) -> Seq<Seq<char>>
    decreases list.len(),
{
    if list.len() <= 1 {
        list
    } else {
        let before = deduped(list.drop_last());
        if list.last() == list[list.len() - 2] {
            before
        } else {
            before.push(list.last())
        }
    }
}

/// What the picker's input selects.
pub open spec fn selection(input: Seq<char>, names: Seq<Seq<char>>, colour: bool) -> Result<
    Seq<Seq<char>>,
    Seq<char>,
> {
    match picked(words(input), names, colour, seq![]) {
        Err(why) => Err(why),
        Ok(None) => Ok(names),
        Ok(Some(chosen)) => if chosen.len() == 0 {
            Err("nothing chosen"@)
        } else {
            Ok(deduped(chosen))
        },
    }
}

fn without_repeats(list: &Vec<String>) -> (out: Vec<String>)
    ensures
        texts(out@) == deduped(texts(list@)),
{
    let mut out: Vec<String> = Vec::new();
    let mut i: usize = 0;
    let ghost all = texts(list@);
    assert(texts(out@) =~= all.take(0));
    while i < list.len()
        invariant
            i <= list@.len(),
            all == texts(list@),
            texts(out@) == deduped(all.take(i as int)),
        decreases list@.len() - i,
    {
        let ghost part = all.take(i + 1);
        proof {
            assert(part.drop_last() =~= all.take(i as int));
            assert(part.last() == list@[i as int]@);
            if i > 0 {
                assert(part[part.len() - 2] == list@[i - 1]@);
            } else {
                assert(all.take(0) =~= seq![]);
                assert(part =~= seq![list@[0]@]);
            }
        }
        if i == 0 || !same(list[i].as_str(), list[i - 1].as_str()) {
            let ghost before = texts(out@);
            out.push(list[i].clone());
            assert(texts(out@) =~= before.push(list@[i as int]@));
            if i == 0 {
                assert(before =~= seq![]);
                assert(texts(out@) =~= part);
            }
        }
        i += 1;
    }
    assert(all.take(all.len() as int) =~= all);
    out
}

/// Turns the picker's input into names of applied profiles: numbers, names, or `all`.
pub fn parse_selection(input: &str, names: &Vec<String>, colour: bool) -> (r: Result<
    Vec<String>,
    String,
>)
    ensures
        is_texts(r, selection(input@, texts(names@), colour)),
{
    let tokens = words_of(input);
    let ghost all = texts(tokens@);
    let ghost listed = texts(names@);
    let mut chosen: Vec<String> = Vec::new();
    let mut i: usize = 0;
    proof {
        assert(all.skip(0) =~= all);
        assert(texts(chosen@) =~= seq![]);
    }
    while i < tokens.len()
        invariant
            i <= tokens@.len(),
            all == texts(tokens@),
            all == words(input@),
            listed == texts(names@),
            picked(all, listed, colour, seq![]) == picked(
                all.skip(i as int),
                listed,
                colour,
                texts(chosen@),
            ),
        decreases tokens@.len() - i,
    {
        let token = tokens[i].as_str();
        proof {
            assert(all.skip(i as int)[0] == token@);
            assert(all.skip(i as int).skip(1) =~= all.skip(i + 1));
        }
        if same_ignoring_case(token, "all") {
            proof {
                assert(lowered("all"@) =~= "all"@) by {
                    reveal_strlit("all");
                }
            }
            return Ok(copy_texts(names));
        }
        proof {
            assert(lowered("all"@) =~= "all"@) by {
                reveal_strlit("all");
            }
        }
        let ghost before = texts(chosen@);
        match number_of(token, usize::MAX as u64) {
            Some(number) => {
                if number == 0 || number > names.len() as u64 {
                    let mut why: String = decimal_of(number);
                    why.append(" is not on the list (1..=");
                    why.append(decimal_of(names.len() as u64).as_str());
                    why.append(")");
                    return Err(why);
                }
                let at: usize = (number - 1) as usize;
                chosen.push(names[at].clone());
                assert(texts(chosen@) =~= before.push(names@[at as int]@));
            },
            None => {
                match resolve_one(token, names, colour) {
                    Ok(name) => {
                        let ghost word = name@;
                        chosen.push(name);
                        assert(texts(chosen@) =~= before.push(word));
                    },
                    Err(why) => {
                        return Err(why);
                    },
                }
            },
        }
        i += 1;
    }
    if chosen.len() == 0 {
        return Err("nothing chosen".to_owned());
    }
    Ok(without_repeats(&chosen))
}

/// The picker's list: each name with its number and the file behind it.
pub open spec fn picker_line(index: nat, name: Seq<char>, target: Seq<char>) -> Seq<char> {
    "  "@ + decimal(index + 1) + ") "@ + name + "  ->  "@ + target
}

/// The lines that offer the applied profiles, one for each name and its file.
pub fn picker_lines(names: &Vec<String>, targets: &Vec<String>) -> (out: Vec<String>)
    requires
        names@.len() == targets@.len(),
    ensures
        out@.len() == names@.len() + 1,
        forall|i: int|
            0 <= i < names@.len() ==> (#[trigger] out@[i])@ == picker_line(
                i as nat,
                names@[i]@,
                targets@[i]@,
            ),
        out@.last()@ == "unapply which? (numbers or names, 'all'):"@,
{
    let mut out: Vec<String> = Vec::new();
    let mut i: usize = 0;
    while i < names.len()
        invariant
            i <= names@.len(),
            names@.len() == targets@.len(),
            out@.len() == i,
            forall|k: int|
                0 <= k < i ==> (#[trigger] out@[k])@ == picker_line(
                    k as nat,
                    names@[k]@,
                    targets@[k]@,
                ),
        decreases names@.len() - i,
    {
        let mut line: String = "  ".to_owned();
        line.append(decimal_of(i as u64 + 1).as_str());
        line.append(") ");
        line.append(names[i].as_str());
        line.append("  ->  ");
        line.append(targets[i].as_str());
        out.push(line);
        i += 1;
    }
    out.push("unapply which? (numbers or names, 'all'):".to_owned());
    out
}

// ------------------------------------------------------------------- which files to apply

/// One path of the command line: a file, or a directory with the regular files in it.
#[derive(Debug)]
pub struct GivenPath {
    pub path: String,
    /// The files directly inside, where the path is a directory.
    pub listing: Option<Vec<String>>,
}

/// The ending of a file name: what follows its last dot, where something stands before it.
pub open spec fn ending(name: Seq<char>) -> Option<Seq<char>> {
    let parts = split_at_char(name, '.');
    if parts.len() < 2 || (parts.len() == 2 && parts[0].len() == 0) {
        None
    } else {
        Some(parts.last())
    }
}

/// Whether a path ends in the name of a profile, in any mix of upper and lower case.
pub open spec fn is_profile_path(path: Seq<char>) -> bool {
    match file_name(path) {
        Some(name) => match ending(name) {
            Some(end) => lowered(end) == "toml"@,
            None => false,
        },
        None => false,
    }
}

/// Whether a path ends in the name of a profile.
pub fn names_a_profile(path: &str) -> (r: bool)
    ensures
        r == is_profile_path(path@),
{
    match file_name_of(path) {
        Some(name) => {
            let parts = split_char(name.as_str(), '.');
            proof {
                lemma_split_nonempty(name@, '.');
                assert(texts(parts@).len() == parts@.len());
                assert(lowered("toml"@) =~= "toml"@) by {
                    reveal_strlit("toml");
                }
            }
            let n: usize = parts.len();
            if n < 2 {
                return false;
            }
            assert(texts(parts@)[0] == parts@[0]@);
            assert(texts(parts@).last() == parts@[n - 1]@);
            if n == 2 && parts[0].as_str().is_empty() {
                return false;
            }
            same_ignoring_case(parts[n - 1].as_str(), "toml")
        },
        None => false,
    }
}


/// Whether a text comes before another, or is it: by the first character that differs.
pub open spec fn at_or_before(a: Seq<char>, b: Seq<char>) -> bool
    decreases a.len(),
{
    if a.len() == 0 {
        true
    } else if b.len() == 0 {
        false
    } else if a[0] != b[0] {
        a[0] < b[0]
    } else {
        at_or_before(a.skip(1), b.skip(1))
    }
}

/// Whether a text comes before another, or is it.
pub fn comes_first(a: &str, b: &str) -> (r: bool)
    ensures
        r == at_or_before(a@, b@),
{
    let x = crate::text::chars_of(a);
    let y = crate::text::chars_of(b);
    let mut i: usize = 0;
    proof {
        assert(a@.skip(0) =~= a@);
        assert(b@.skip(0) =~= b@);
    }
    while i < x.len()
        invariant
            x@ == a@,
            y@ == b@,
            i <= x@.len(),
            i <= y@.len(),
            at_or_before(a@, b@) == at_or_before(a@.skip(i as int), b@.skip(i as int)),
        decreases x@.len() - i,
    {
        if i == y.len() {
            return false;
        }
        if x[i] != y[i] {
            return x[i] < y[i];
        }
        i += 1;
        assert(a@.skip(i - 1).skip(1) =~= a@.skip(i as int));
        assert(b@.skip(i - 1).skip(1) =~= b@.skip(i as int));
    }
    true
}

/// A sorted list with one more text in its place.
pub open spec fn inserted(list: Seq<Seq<char>>, x: Seq<char>) -> Seq<Seq<char>>
    decreases list.len(),
{
    if list.len() == 0 {
        seq![x]
    } else if at_or_before(list.last(), x) {
        list.push(x)
    } else {
        inserted(list.drop_last(), x).push(list.last())
    }
}

/// A list of texts in order.
pub open spec fn in_order(list: Seq<Seq<char>>) -> Seq<Seq<char>>
    decreases list.len(),
{
    if list.len() == 0 {
        seq![]
    } else {
        inserted(in_order(list.drop_last()), list.last())
    }
}

/// Puts a text in its place in a sorted list.
fn insert_sorted(list: &mut Vec<String>, x: String)
    ensures
        texts(final(list)@) == inserted(texts(old(list)@), x@),
{
    let ghost whole = texts(list@);
    let mut i: usize = list.len();
    proof {
        assert(whole.take(i as int) =~= whole);
        assert(inserted(whole, x@) + whole.skip(i as int) =~= inserted(whole, x@));
    }
    while i > 0 && !comes_first(list[i - 1].as_str(), x.as_str())
        invariant
            i <= list@.len(),
            list@ == old(list)@,
            whole == texts(list@),
            inserted(whole, x@) == inserted(whole.take(i as int), x@) + whole.skip(i as int),
        decreases i,
    {
        proof {
            let part = whole.take(i as int);
            assert(part.last() == list@[i - 1]@);
            assert(part.drop_last() =~= whole.take(i - 1));
            assert(inserted(whole.take(i - 1), x@).push(part.last()) + whole.skip(i as int)
                =~= inserted(whole.take(i - 1), x@) + whole.skip(i - 1));
        }
        i -= 1;
    }
    proof {
        let part = whole.take(i as int);
        if i > 0 {
            assert(part.last() == list@[i - 1]@);
        }
        assert(inserted(part, x@) =~= part.push(x@));
    }
    let ghost word = x@;
    list.insert(i, x);
    proof {
        assert(texts(list@) =~= whole.take(i as int).push(word) + whole.skip(i as int));
    }
}

/// The profiles among a list of paths.
pub open spec fn profile_paths(paths: Seq<Seq<char>>) -> Seq<Seq<char>>
    decreases paths.len(),
{
    if paths.len() == 0 {
        seq![]
    } else if is_profile_path(paths.last()) {
        profile_paths(paths.drop_last()).push(paths.last())
    } else {
        profile_paths(paths.drop_last())
    }
}

/// The files that one path of the command line stands for.
pub open spec fn files_of(given: GivenPath) -> Seq<Seq<char>> {
    match given.listing {
        None => seq![given.path@],
        Some(listing) => in_order(profile_paths(texts(listing@))),
    }
}

/// The files that the command line stands for, in its order.
pub open spec fn all_files(given: Seq<GivenPath>) -> Seq<Seq<char>>
    decreases given.len(),
{
    if given.len() == 0 {
        seq![]
    } else {
        all_files(given.drop_last()) + files_of(given.last())
    }
}

/// Whether a path is a directory without any profile in it.
pub open spec fn is_barren(given: GivenPath) -> bool {
    files_of(given).len() == 0
}

/// Expands directories into the profiles directly inside them, in name order; files stay as they
/// are. The first directory without a profile is refused.
pub fn expand_profile_args(given: &Vec<GivenPath>) -> (r: Result<Vec<String>, crate::error::Error>)
    ensures
        match r {
            Ok(files) => texts(files@) == all_files(given@) && forall|i: int|
                0 <= i < given@.len() ==> !is_barren(#[trigger] given@[i]),
            Err(crate::error::Error::Profile { path, detail }) => exists|i: int|
                0 <= i < given@.len() && is_barren(#[trigger] given@[i]) && path@
                    == given@[i].path@ && detail@ == "this directory holds no .toml profiles"@
                    && forall|k: int| 0 <= k < i ==> !is_barren(#[trigger] given@[k]),
            Err(_) => false,
        },
{
    let mut files: Vec<String> = Vec::new();
    let mut i: usize = 0;
    assert(texts(files@) =~= seq![]);
    assert(given@.take(0) =~= seq![]);
    while i < given.len()
        invariant
            i <= given@.len(),
            texts(files@) == all_files(given@.take(i as int)),
            forall|k: int| 0 <= k < i ==> !is_barren(#[trigger] given@[k]),
        decreases given@.len() - i,
    {
        proof {
            assert(given@.take(i + 1).drop_last() =~= given@.take(i as int));
            assert(given@.take(i + 1).last() == given@[i as int]);
        }
        let ghost before = texts(files@);
        match &given[i].listing {
            None => {
                files.push(given[i].path.clone());
                assert(texts(files@) =~= before + seq![given@[i as int].path@]);
            },
            Some(listing) => {
                let mut found = sorted_profiles(listing);
                if found.len() == 0 {
                    assert(texts(found@).len() == 0);
                    assert(is_barren(given@[i as int]));
                    return Err(
                        crate::error::Error::Profile {
                            path: given[i].path.clone(),
                            detail: "this directory holds no .toml profiles".to_owned(),
                        },
                    );
                }
                assert(texts(found@).len() == found@.len());
                let ghost more = texts(found@);
                files.append(&mut found);
                assert(texts(files@) =~= before + more);
            },
        }
        i += 1;
    }
    assert(given@.take(given@.len() as int) =~= given@);
    Ok(files)
}

fn sorted_profiles(listing: &Vec<String>) -> (found: Vec<String>)
    ensures
        texts(found@) == in_order(profile_paths(texts(listing@))),
{
    let mut found: Vec<String> = Vec::new();
    let ghost all = texts(listing@);
    let mut i: usize = 0;
    assert(texts(found@) =~= seq![]);
    assert(all.take(0) =~= seq![]);
    while i < listing.len()
        invariant
            i <= listing@.len(),
            all == texts(listing@),
            texts(found@) == in_order(profile_paths(all.take(i as int))),
        decreases listing@.len() - i,
    {
        proof {
            assert(all.take(i + 1).drop_last() =~= all.take(i as int));
            assert(all.take(i + 1).last() == listing@[i as int]@);
        }
        if names_a_profile(listing[i].as_str()) {
            proof {
                let some = profile_paths(all.take(i as int));
                assert(some.push(listing@[i as int]@).drop_last() =~= some);
            }
            insert_sorted(&mut found, listing[i].clone());
        }
        i += 1;
    }
    assert(all.take(all.len() as int) =~= all);
    found
}

pub proof fn lemma_order_is_total(a: Seq<char>, b: Seq<char>)
    ensures
        at_or_before(a, b) || at_or_before(b, a),
    decreases a.len(),
{
    if a.len() > 0 && b.len() > 0 && a[0] == b[0] {
        lemma_order_is_total(a.skip(1), b.skip(1));
    }
}

pub proof fn lemma_order_is_transitive(a: Seq<char>, b: Seq<char>, c: Seq<char>)
    requires
        at_or_before(a, b),
        at_or_before(b, c),
    ensures
        at_or_before(a, c),
    decreases a.len(),
{
    if a.len() > 0 && b.len() > 0 && c.len() > 0 && a[0] == b[0] && b[0] == c[0] {
        lemma_order_is_transitive(a.skip(1), b.skip(1), c.skip(1));
    }
}

/// Whether each text of a list comes before those after it, or is the same.
pub open spec fn is_in_order(list: Seq<Seq<char>>) -> bool {
    forall|i: int, j: int| 0 <= i <= j < list.len() ==> at_or_before(#[trigger] list[i], #[trigger] list[j])
}

proof fn lemma_inserted(list: Seq<Seq<char>>, x: Seq<char>)
    requires
        is_in_order(list),
    ensures
        is_in_order(inserted(list, x)),
        inserted(list, x).to_multiset() == list.to_multiset().insert(x),
    decreases list.len(),
{
    broadcast use vstd::seq_lib::group_to_multiset_ensures;

    lemma_order_is_total(x, x);
    if list.len() == 0 {
        assert(inserted(list, x) =~= list.push(x));
    } else if at_or_before(list.last(), x) {
        assert forall|i: int, j: int| 0 <= i <= j < list.push(x).len() implies at_or_before(
            #[trigger] list.push(x)[i],
            #[trigger] list.push(x)[j],
        ) by {
            if j == list.len() && i < list.len() {
                assert(at_or_before(list[i], list[list.len() - 1]));
                lemma_order_is_transitive(list[i], list.last(), x);
            }
        }
    } else {
        let rest = list.drop_last();
        let last = list.last();
        assert(list =~= rest.push(last));
        assert forall|i: int, j: int| 0 <= i <= j < rest.len() implies at_or_before(
            #[trigger] rest[i],
            #[trigger] rest[j],
        ) by {
            assert(at_or_before(list[i], list[j]));
        }
        lemma_inserted(rest, x);
        lemma_order_is_total(last, x);
        lemma_order_is_total(last, last);
        let out = inserted(rest, x);
        assert forall|i: int| 0 <= i < out.len() implies at_or_before(#[trigger] out[i], last) by {
            assert(out.to_multiset().count(out[i]) > 0) by {
                assert(out.contains(out[i]));
            }
            if out[i] != x {
                assert(rest.to_multiset().count(out[i]) > 0);
                assert(rest.contains(out[i]));
                let k = choose|k: int| 0 <= k < rest.len() && rest[k] == out[i];
                assert(at_or_before(list[k], list[list.len() - 1]));
            }
        }
        assert forall|i: int, j: int| 0 <= i <= j < out.push(last).len() implies at_or_before(
            #[trigger] out.push(last)[i],
            #[trigger] out.push(last)[j],
        ) by {
            if j < out.len() {
                assert(at_or_before(out[i], out[j]));
            } else if i < out.len() {
                assert(at_or_before(out[i], last));
            }
        }
        assert(out.push(last).to_multiset() =~= list.to_multiset().insert(x));
    }
}

/// Ordering a list loses nothing, adds nothing, and leaves every text after those that come
/// before it.
pub proof fn law_a_directory_is_read_in_name_order(list: Seq<Seq<char>>)
    ensures
        is_in_order(in_order(list)),
        in_order(list).to_multiset() == list.to_multiset(),
    decreases list.len(),
{
    broadcast use vstd::seq_lib::group_to_multiset_ensures;

    if list.len() > 0 {
        law_a_directory_is_read_in_name_order(list.drop_last());
        lemma_inserted(in_order(list.drop_last()), list.last());
        assert(list =~= list.drop_last().push(list.last()));
    }
}

/// Asking for all chooses every applied profile, in the order of the list, whatever else is said.
pub proof fn law_all_selects_every_profile(
    input: Seq<char>,
    names: Seq<Seq<char>>,
    colour: bool,
)
    requires
        words(input).len() > 0,
        lowered(words(input)[0]) == "all"@,
    ensures
        selection(input, names, colour) == Ok::<Seq<Seq<char>>, Seq<char>>(names),
{
}

/// A selection only ever holds applied profiles.
pub proof fn law_a_selection_holds_applied_profiles(
    input: Seq<char>,
    names: Seq<Seq<char>>,
    colour: bool,
)
    ensures
        selection(input, names, colour) matches Ok(chosen) ==> forall|i: int|
            0 <= i < chosen.len() ==> names.contains(#[trigger] chosen[i]),
{
    lemma_picked_applied(words(input), names, colour, seq![]);
    match picked(words(input), names, colour, seq![]) {
        Ok(Some(chosen)) => {
            lemma_deduped(chosen);
            assert forall|i: int| 0 <= i < deduped(chosen).len() implies names.contains(
                #[trigger] deduped(chosen)[i],
            ) by {
                assert(chosen.contains(deduped(chosen)[i]));
                let k = choose|k: int| 0 <= k < chosen.len() && chosen[k] == deduped(chosen)[i];
                assert(names.contains(chosen[k]));
            }
        },
        _ => {},
    }
}

proof fn lemma_picked_applied(
    tokens: Seq<Seq<char>>,
    names: Seq<Seq<char>>,
    colour: bool,
    chosen: Seq<Seq<char>>,
)
    requires
        forall|i: int| 0 <= i < chosen.len() ==> names.contains(#[trigger] chosen[i]),
    ensures
        picked(tokens, names, colour, chosen) matches Ok(Some(out)) ==> forall|i: int|
            0 <= i < out.len() ==> names.contains(#[trigger] out[i]),
    decreases tokens.len(),
{
    if tokens.len() > 0 {
        match pick(tokens[0], names, colour) {
            Pick::One(name) => {
                lemma_picked_applied(tokens.skip(1), names, colour, chosen.push(name));
            },
            _ => {},
        }
    }
}

proof fn lemma_deduped(list: Seq<Seq<char>>)
    ensures
        forall|i: int| 0 <= i < deduped(list).len() ==> list.contains(#[trigger] deduped(list)[i]),
    decreases list.len(),
{
    if list.len() <= 1 {
        assert forall|i: int| 0 <= i < deduped(list).len() implies list.contains(
            #[trigger] deduped(list)[i],
        ) by {
            assert(list[i] == deduped(list)[i]);
        }
    } else {
        let rest = list.drop_last();
        lemma_deduped(rest);
        assert forall|i: int| 0 <= i < deduped(list).len() implies list.contains(
            #[trigger] deduped(list)[i],
        ) by {
            let x = deduped(list)[i];
            if i < deduped(rest).len() {
                assert(rest.contains(deduped(rest)[i]));
                let k = choose|k: int| 0 <= k < rest.len() && rest[k] == x;
                assert(list[k] == x);
            } else {
                assert(list[list.len() - 1] == x);
            }
        }
    }
}

/// Texts are in dictionary order: the empty one comes before all, one before any that it begins,
/// and otherwise the first character that differs decides.
pub proof fn law_texts_are_in_dictionary_order(
    common: Seq<char>,
    a: Seq<char>,
    b: Seq<char>,
    x: char,
    y: char,
)
    requires
        x < y,
    ensures
        at_or_before(common, common + a),
        at_or_before(common + seq![x] + a, common + seq![y] + b),
        !at_or_before(common + seq![y] + b, common + seq![x] + a),
        !at_or_before(common + seq![x], common),
    decreases common.len(),
{
    let less = common + seq![x] + a;
    let more = common + seq![y] + b;
    let longer = common + seq![x];
    if common.len() == 0 {
        assert(less[0] == x);
        assert(more[0] == y);
    } else {
        let rest = common.skip(1);
        law_texts_are_in_dictionary_order(rest, a, b, x, y);
        assert(less[0] == common[0] && more[0] == common[0] && longer[0] == common[0]);
        assert(less.skip(1) =~= rest + seq![x] + a);
        assert(more.skip(1) =~= rest + seq![y] + b);
        assert(longer.skip(1) =~= rest + seq![x]);
        assert((common + a)[0] == common[0]);
        assert((common + a).skip(1) =~= rest + a);
    }
}

/// A choice that names the same profile twice in a row counts once, and nothing else is dropped.
pub proof fn law_a_repeated_choice_counts_once(list: Seq<Seq<char>>, name: Seq<char>)
    ensures
        deduped(Seq::empty()).len() == 0,
        deduped(seq![name]) == seq![name],
        list.len() > 0 ==> deduped(list.push(name)) == (if list.last() == name {
            deduped(list)
        } else {
            deduped(list).push(name)
        }),
{
    let more = list.push(name);
    assert(more.drop_last() =~= list);
    if list.len() > 0 {
        assert(more[more.len() - 2] == list.last());
    }
}

/// A file that is given stands for itself, a directory for the profiles directly inside it in the
/// order of their names, and several for those of each, one after the other.
pub proof fn law_a_directory_stands_for_its_profiles(
    given: Seq<GivenPath>,
    more: GivenPath,
    path: Seq<char>,
)
    ensures
        all_files(Seq::empty()).len() == 0,
        all_files(given.push(more)) == all_files(given) + files_of(more),
        more.listing is None ==> files_of(more) == seq![more.path@],
        more.listing matches Some(listing) ==> (files_of(more).contains(path) <==> texts(
            listing@,
        ).contains(path) && is_profile_path(path)) && is_in_order(files_of(more)),
{
    assert(given.push(more).drop_last() =~= given);
    if let Some(listing) = more.listing {
        let inside = texts(listing@);
        law_a_directory_is_read_in_name_order(profile_paths(inside));
        lemma_profile_paths(inside, path);
        let files = files_of(more);
        let sound = profile_paths(inside);
        broadcast use vstd::seq_lib::group_to_multiset_ensures;

        assert(files.contains(path) <==> files.to_multiset().count(path) > 0);
        assert(sound.contains(path) <==> sound.to_multiset().count(path) > 0);
    }
}

proof fn lemma_profile_paths(paths: Seq<Seq<char>>, path: Seq<char>)
    ensures
        profile_paths(paths).contains(path) <==> paths.contains(path) && is_profile_path(path),
    decreases paths.len(),
{
    if paths.len() > 0 {
        let fewer = paths.drop_last();
        lemma_profile_paths(fewer, path);
        assert(paths =~= fewer.push(paths.last()));
        super::model::lemma_push_contains(fewer, paths.last(), path);
        super::model::lemma_push_contains(profile_paths(fewer), paths.last(), path);
    }
}

} // verus!
