//! What the bytes of a terminal mean: raw input to key names.
use vstd::prelude::*;

use crate::input::{Holdable, Key};
use crate::names::{Lexicon, Meaning};
use crate::text::texts;

verus! {

/// What one input of a terminal means.
#[derive(Debug, Clone, Copy, PartialEq, Eq)]
pub enum Decoded {
    /// A key with a name of its own.
    Named(&'static str),
    /// A key that a character stands for.
    Char(Key),
    /// Ctrl+C: the end of the run.
    Quit,
    /// Something that has no name: an unknown sequence, a character without a key.
    Unknown,
}

/// What one input of a terminal means, as a mathematical value.
pub enum Meant {
    Named(Seq<char>),
    Char(Key),
    Quit,
    Unknown,
}

impl View for Decoded {
    type V = Meant;

    open spec fn view(&self) -> Meant {
        match self {
            Decoded::Named(name) => Meant::Named(name@),
            Decoded::Char(key) => Meant::Char(*key),
            Decoded::Quit => Meant::Quit,
            Decoded::Unknown => Meant::Unknown,
        }
    }
}

/// The inputs of a list, as mathematical values.
pub open spec fn meant_all(list: Seq<Decoded>) -> Seq<Meant> {
    list.map_values(|one: Decoded| one@)
}

/// The byte that begins an escape sequence.
pub const ESCAPE: u8 = 0x1b;

/// The byte that Ctrl+C arrives as.
pub const INTERRUPT: u8 = 0x03;

// ---------------------------------------------------------------------------------- names

/// A name, or nothing that has one.
pub open spec fn named(name: Option<Seq<char>>) -> Meant {
    match name {
        Some(name) => Meant::Named(name),
        None => Meant::Unknown,
    }
}

/// The keys that arrive as a byte of their own and have no character to go by.
pub open spec fn byte_name(byte: u8) -> Option<Seq<char>> {
    if byte == 0x0d || byte == 0x0a {
        Some("enter"@)
    } else if byte == 0x09 {
        Some("tab"@)
    } else if byte == 0x7f || byte == 0x08 {
        Some("backspace"@)
    } else if byte == 0x20 {
        Some("space"@)
    } else {
        None
    }
}

/// The keys of the final byte that both kinds of sequences share.
pub open spec fn final_name(byte: u8) -> Option<Seq<char>> {
    if byte == 0x41 {
        Some("up"@)
    } else if byte == 0x42 {
        Some("down"@)
    } else if byte == 0x43 {
        Some("right"@)
    } else if byte == 0x44 {
        Some("left"@)
    } else if byte == 0x48 {
        Some("home"@)
    } else if byte == 0x46 {
        Some("end"@)
    } else if byte == 0x50 {
        Some("f1"@)
    } else if byte == 0x51 {
        Some("f2"@)
    } else if byte == 0x52 {
        Some("f3"@)
    } else if byte == 0x53 {
        Some("f4"@)
    } else {
        None
    }
}

/// The numpad keys of a terminal in application-keypad mode.
pub open spec fn keypad_name(byte: u8) -> Option<Seq<char>> {
    if byte == 0x6a {
        Some("kpmultiply"@)
    } else if byte == 0x6b {
        Some("kpplus"@)
    } else if byte == 0x6d {
        Some("kpminus"@)
    } else if byte == 0x6f {
        Some("kpdivide"@)
    } else if byte == 0x6e {
        Some("kpdot"@)
    } else if byte == 0x4d {
        Some("kpenter"@)
    } else if byte == 0x70 {
        Some("kp0"@)
    } else if byte == 0x71 {
        Some("kp1"@)
    } else if byte == 0x72 {
        Some("kp2"@)
    } else if byte == 0x73 {
        Some("kp3"@)
    } else if byte == 0x74 {
        Some("kp4"@)
    } else if byte == 0x75 {
        Some("kp5"@)
    } else if byte == 0x76 {
        Some("kp6"@)
    } else if byte == 0x77 {
        Some("kp7"@)
    } else if byte == 0x78 {
        Some("kp8"@)
    } else if byte == 0x79 {
        Some("kp9"@)
    } else {
        None
    }
}

/// The key of a sequence `ESC O <byte>`.
pub open spec fn ss3_name(byte: u8) -> Option<Seq<char>> {
    match final_name(byte) {
        Some(name) => Some(name),
        None => keypad_name(byte),
    }
}

/// The key of a sequence `ESC [ <number> ~`.
pub open spec fn tilde_name(number: nat) -> Option<Seq<char>> {
    if number == 1 || number == 7 {
        Some("home"@)
    } else if number == 2 {
        Some("insert"@)
    } else if number == 3 {
        Some("delete"@)
    } else if number == 4 || number == 8 {
        Some("end"@)
    } else if number == 5 {
        Some("pgup"@)
    } else if number == 6 {
        Some("pgdn"@)
    } else if number == 11 {
        Some("f1"@)
    } else if number == 12 {
        Some("f2"@)
    } else if number == 13 {
        Some("f3"@)
    } else if number == 14 {
        Some("f4"@)
    } else if number == 15 {
        Some("f5"@)
    } else if number == 17 {
        Some("f6"@)
    } else if number == 18 {
        Some("f7"@)
    } else if number == 19 {
        Some("f8"@)
    } else if number == 20 {
        Some("f9"@)
    } else if number == 21 {
        Some("f10"@)
    } else if number == 23 {
        Some("f11"@)
    } else if number == 24 {
        Some("f12"@)
    } else {
        None
    }
}

/// The key of a sequence `ESC [ <parameters> <byte>`.
pub open spec fn csi_name(byte: u8, number: nat) -> Option<Seq<char>> {
    if byte == 0x7e {
        tilde_name(number)
    } else if byte == 0x5a {
        Some("tab"@)
    } else {
        final_name(byte)
    }
}

/// Whether a name that was found is the one that is meant.
spec fn is_name(found: Option<&'static str>, meant: Option<Seq<char>>) -> bool {
    match found {
        Some(name) => meant == Some(name@),
        None => meant is None,
    }
}

fn find_byte(byte: u8) -> (r: Option<&'static str>)
    ensures
        is_name(r, byte_name(byte)),
{
    match byte {
        0x0d | 0x0a => Some("enter"),
        0x09 => Some("tab"),
        0x7f | 0x08 => Some("backspace"),
        0x20 => Some("space"),
        _ => None,
    }
}

fn find_final(byte: u8) -> (r: Option<&'static str>)
    ensures
        is_name(r, final_name(byte)),
{
    match byte {
        0x41 => Some("up"),
        0x42 => Some("down"),
        0x43 => Some("right"),
        0x44 => Some("left"),
        0x48 => Some("home"),
        0x46 => Some("end"),
        0x50 => Some("f1"),
        0x51 => Some("f2"),
        0x52 => Some("f3"),
        0x53 => Some("f4"),
        _ => None,
    }
}

fn find_keypad(byte: u8) -> (r: Option<&'static str>)
    ensures
        is_name(r, keypad_name(byte)),
{
    match byte {
        0x6a => Some("kpmultiply"),
        0x6b => Some("kpplus"),
        0x6d => Some("kpminus"),
        0x6f => Some("kpdivide"),
        0x6e => Some("kpdot"),
        0x4d => Some("kpenter"),
        0x70 => Some("kp0"),
        0x71 => Some("kp1"),
        0x72 => Some("kp2"),
        0x73 => Some("kp3"),
        0x74 => Some("kp4"),
        0x75 => Some("kp5"),
        0x76 => Some("kp6"),
        0x77 => Some("kp7"),
        0x78 => Some("kp8"),
        0x79 => Some("kp9"),
        _ => None,
    }
}

fn find_tilde(number: u32) -> (r: Option<&'static str>)
    ensures
        is_name(r, tilde_name(number as nat)),
{
    match number {
        1 | 7 => Some("home"),
        2 => Some("insert"),
        3 => Some("delete"),
        4 | 8 => Some("end"),
        5 => Some("pgup"),
        6 => Some("pgdn"),
        11 => Some("f1"),
        12 => Some("f2"),
        13 => Some("f3"),
        14 => Some("f4"),
        15 => Some("f5"),
        17 => Some("f6"),
        18 => Some("f7"),
        19 => Some("f8"),
        20 => Some("f9"),
        21 => Some("f10"),
        23 => Some("f11"),
        24 => Some("f12"),
        _ => None,
    }
}

fn find_csi(byte: u8, number: u32) -> (r: Option<&'static str>)
    ensures
        is_name(r, csi_name(byte, number as nat)),
{
    if byte == 0x7e {
        find_tilde(number)
    } else if byte == 0x5a {
        Some("tab")
    } else {
        find_final(byte)
    }
}

fn decoded(name: Option<&'static str>) -> (r: Decoded)
    ensures
        forall|meant: Option<Seq<char>>| is_name(name, meant) ==> r@ == #[trigger] named(meant),
{
    match name {
        Some(name) => Decoded::Named(name),
        None => Decoded::Unknown,
    }
}

// ------------------------------------------------------------------------------- one input

/// The key that a character stands for.
pub open spec fn char_key(lexicon: &Lexicon, c: char) -> Meant {
    match lexicon.meaning(seq![c]) {
        Some(Meaning::Input(Holdable::Key(key))) => Meant::Char(key),
        _ => Meant::Unknown,
    }
}

/// How many bytes a character takes that begins with this one.
pub open spec fn utf8_length(byte: u8) -> nat {
    if 0xc0 <= byte <= 0xdf {
        2
    } else if 0xe0 <= byte <= 0xef {
        3
    } else if 0xf0 <= byte <= 0xf7 {
        4
    } else {
        1
    }
}

/// What an input means that does not begin with an escape, and how many bytes it takes. A control
/// character names its letter, except Ctrl+C; a character beyond ASCII is taken whole and has no
/// name.
pub open spec fn plain_input(lexicon: &Lexicon, bytes: Seq<u8>) -> (Meant, nat) {
    let byte = bytes[0];
    if byte == INTERRUPT {
        (Meant::Quit, 1)
    } else if byte_name(byte) is Some {
        (named(byte_name(byte)), 1)
    } else if 0x21 <= byte <= 0x7e {
        (char_key(lexicon, byte as char), 1)
    } else if 0x01 <= byte <= 0x1a {
        (char_key(lexicon, (byte + 0x60) as char), 1)
    } else if utf8_length(byte) <= bytes.len() {
        (Meant::Unknown, utf8_length(byte))
    } else {
        (Meant::Unknown, bytes.len())
    }
}

/// Whether a byte stands in the parameters of a sequence.
pub open spec fn is_parameter(byte: u8) -> bool {
    0x30 <= byte <= 0x39 || byte == 0x3b
}

/// How many bytes the parameters take that a text begins with.
pub open spec fn parameters(bytes: Seq<u8>) -> nat
    decreases bytes.len(),
{
    if bytes.len() > 0 && is_parameter(bytes[0]) {
        1 + parameters(bytes.skip(1))
    } else {
        0
    }
}

/// The value of the digits that a text begins with, after those that were read already.
pub open spec fn leading_number(bytes: Seq<u8>, so_far: nat) -> nat
    decreases bytes.len(),
{
    if bytes.len() > 0 && 0x30 <= bytes[0] <= 0x39 {
        leading_number(bytes.skip(1), so_far * 10 + (bytes[0] - 0x30) as nat)
    } else {
        so_far
    }
}

/// The first parameter of a sequence: one where none is given, or where it is too large. What
/// follows it, the modifiers that were held, is not looked at.
pub open spec fn first_parameter(bytes: Seq<u8>) -> nat {
    if bytes.len() > 0 && 0x30 <= bytes[0] <= 0x39 && leading_number(bytes, 0) <= 65535 {
        leading_number(bytes, 0)
    } else {
        1
    }
}

/// What a sequence `ESC [ …` means: one that is cut short is the escape key alone.
pub open spec fn csi_input(bytes: Seq<u8>) -> (Meant, nat) {
    let rest = bytes.skip(2);
    let n = parameters(rest);
    if n < rest.len() {
        (named(csi_name(rest[n as int], first_parameter(rest.take(n as int)))), n + 3)
    } else {
        (Meant::Named("esc"@), 1)
    }
}

/// What the first input means, and how many bytes it takes.
pub open spec fn first_input(lexicon: &Lexicon, bytes: Seq<u8>) -> (Meant, nat)
    decreases bytes.len(),
{
    if bytes.len() == 0 {
        (Meant::Unknown, 0)
    } else if bytes[0] != ESCAPE {
        plain_input(lexicon, bytes)
    } else if bytes.len() == 1 {
        (Meant::Named("esc"@), 1)
    } else if bytes[1] == 0x4f {
        if bytes.len() == 2 {
            (Meant::Named("esc"@), 1)
        } else {
            (named(ss3_name(bytes[2])), 3)
        }
    } else if bytes[1] == 0x5b {
        csi_input(bytes)
    } else {
        let inner = first_input(lexicon, bytes.skip(1));
        (inner.0, inner.1 + 1)
    }
}

proof fn lemma_parameters(bytes: Seq<u8>)
    ensures
        parameters(bytes) <= bytes.len(),
    decreases bytes.len(),
{
    if bytes.len() > 0 && is_parameter(bytes[0]) {
        lemma_parameters(bytes.skip(1));
    }
}

/// An input takes at least one byte and no more than there are.
pub proof fn lemma_input_length(lexicon: &Lexicon, bytes: Seq<u8>)
    requires
        bytes.len() > 0,
    ensures
        1 <= first_input(lexicon, bytes).1 <= bytes.len(),
    decreases bytes.len(),
{
    if bytes[0] == ESCAPE && bytes.len() > 1 {
        if bytes[1] == 0x5b {
            lemma_parameters(bytes.skip(2));
        } else if bytes[1] != 0x4f {
            lemma_input_length(lexicon, bytes.skip(1));
        }
    }
}

/// What all the inputs of a buffer mean, in order.
pub open spec fn all_inputs(lexicon: &Lexicon, bytes: Seq<u8>) -> Seq<Meant>
    decreases bytes.len(),
    via all_inputs_shrink
{
    if bytes.len() == 0 {
        seq![]
    } else {
        let first = first_input(lexicon, bytes);
        seq![first.0] + all_inputs(lexicon, bytes.skip(first.1 as int))
    }
}

#[via_fn]
proof fn all_inputs_shrink(lexicon: &Lexicon, bytes: Seq<u8>) {
    if bytes.len() > 0 {
        lemma_input_length(lexicon, bytes);
    }
}

fn find_char(lexicon: &Lexicon, c: char) -> (r: Decoded)
    ensures
        r@ == char_key(lexicon, c),
{
    let mut text: String = String::new();
    text.push(c);
    assert(text@ =~= seq![c]);
    match lexicon.meaning_of(text.as_str()) {
        Some(Meaning::Input(Holdable::Key(key))) => Decoded::Char(key),
        _ => Decoded::Unknown,
    }
}

fn decode_plain(lexicon: &Lexicon, bytes: &Vec<u8>, at: usize) -> (r: (Decoded, usize))
    requires
        at < bytes@.len(),
    ensures
        (r.0@, r.1 as nat) == plain_input(lexicon, bytes@.skip(at as int)),
{
    let byte: u8 = bytes[at];
    let left: usize = bytes.len() - at;
    assert(bytes@.skip(at as int)[0] == byte);
    if byte == INTERRUPT {
        return (Decoded::Quit, 1);
    }
    if let Some(name) = find_byte(byte) {
        return (Decoded::Named(name), 1);
    }
    if 0x21 <= byte && byte <= 0x7e {
        (find_char(lexicon, byte as char), 1)
    } else if 0x01 <= byte && byte <= 0x1a {
        (find_char(lexicon, (byte + 0x60) as char), 1)
    } else {
        let length: usize = if 0xc0 <= byte && byte <= 0xdf {
            2
        } else if 0xe0 <= byte && byte <= 0xef {
            3
        } else if 0xf0 <= byte && byte <= 0xf7 {
            4
        } else {
            1
        };
        if length <= left {
            (Decoded::Unknown, length)
        } else {
            (Decoded::Unknown, left)
        }
    }
}

fn count_parameters(bytes: &Vec<u8>, from: usize) -> (n: usize)
    requires
        from <= bytes@.len(),
    ensures
        n == parameters(bytes@.skip(from as int)),
        n <= bytes@.len() - from,
{
    let mut at: usize = from;
    let ghost all = bytes@.skip(from as int);
    while at < bytes.len() && (0x30 <= bytes[at] && bytes[at] <= 0x39 || bytes[at] == 0x3b)
        invariant
            from <= at <= bytes@.len(),
            all == bytes@.skip(from as int),
            parameters(all) == (at - from) + parameters(bytes@.skip(at as int)),
        decreases bytes@.len() - at,
    {
        assert(bytes@.skip(at as int).skip(1) =~= bytes@.skip(at + 1));
        at += 1;
    }
    at - from
}

proof fn lemma_number_grows(bytes: Seq<u8>, so_far: nat)
    ensures
        leading_number(bytes, so_far) >= so_far,
    decreases bytes.len(),
{
    if bytes.len() > 0 && 0x30 <= bytes[0] <= 0x39 {
        lemma_number_grows(bytes.skip(1), so_far * 10 + (bytes[0] - 0x30) as nat);
    }
}

fn read_parameter(bytes: &Vec<u8>, from: usize, n: usize) -> (r: u32)
    requires
        from + n <= bytes@.len(),
    ensures
        r == first_parameter(bytes@.skip(from as int).take(n as int)),
{
    let ghost all = bytes@.skip(from as int).take(n as int);
    if n == 0 || bytes[from] < 0x30 || bytes[from] > 0x39 {
        if n > 0 {
            assert(all[0] == bytes@[from as int]);
        }
        return 1;
    }
    assert(all[0] == bytes@[from as int]);
    let total: usize = bytes.len();
    let mut value: u32 = 0;
    let mut i: usize = 0;
    assert(all.skip(0) =~= all);
    while i < n && 0x30 <= bytes[from + i] && bytes[from + i] <= 0x39
        invariant
            i <= n,
            total == bytes@.len(),
            from + n <= total,
            all == bytes@.skip(from as int).take(n as int),
            all.len() == n,
            n > 0,
            0x30 <= all[0] <= 0x39,
            value <= 65535,
            leading_number(all, 0) == leading_number(all.skip(i as int), value as nat),
        decreases n - i,
    {
        assert(all.skip(i as int)[0] == bytes@[from + i]);
        assert(all.skip(i as int).skip(1) =~= all.skip(i + 1));
        value = value * 10 + (bytes[from + i] - 0x30) as u32;
        i += 1;
        proof {
            lemma_number_grows(all.skip(i as int), value as nat);
        }
        if value > 65535 {
            return 1;
        }
    }
    if i < n {
        assert(all.skip(i as int)[0] == bytes@[from + i]);
    }
    value
}

fn decode_csi(bytes: &Vec<u8>, at: usize) -> (r: (Decoded, usize))
    requires
        at + 1 < bytes@.len(),
    ensures
        (r.0@, r.1 as nat) == csi_input(bytes@.skip(at as int)),
{
    let total: usize = bytes.len();
    let ghost rest = bytes@.skip(at as int).skip(2);
    assert(at + 2 <= total);
    let from: usize = at + 2;
    assert(rest =~= bytes@.skip(from as int));
    let n = count_parameters(bytes, from);
    if n < total - from {
        assert(rest[n as int] == bytes@[from + n]);
        let number = read_parameter(bytes, from, n);
        (decoded(find_csi(bytes[from + n], number)), n + 3)
    } else {
        (Decoded::Named("esc"), 1)
    }
}

fn decode_one(lexicon: &Lexicon, bytes: &Vec<u8>, at: usize) -> (r: (Decoded, usize))
    requires
        at < bytes@.len(),
    ensures
        (r.0@, r.1 as nat) == first_input(lexicon, bytes@.skip(at as int)),
        1 <= r.1 <= bytes@.len() - at,
    decreases bytes@.len() - at,
{
    let ghost rest = bytes@.skip(at as int);
    assert(rest[0] == bytes@[at as int]);
    proof {
        lemma_input_length(lexicon, rest);
    }
    if bytes[at] != ESCAPE {
        return decode_plain(lexicon, bytes, at);
    }
    let left: usize = bytes.len() - at;
    if left == 1 {
        return (Decoded::Named("esc"), 1);
    }
    assert(rest[1] == bytes@[at + 1]);
    if bytes[at + 1] == 0x4f {
        if left == 2 {
            return (Decoded::Named("esc"), 1);
        }
        assert(rest[2] == bytes@[at + 2]);
        let byte: u8 = bytes[at + 2];
        return match find_final(byte) {
            Some(name) => (Decoded::Named(name), 3),
            None => (decoded(find_keypad(byte)), 3),
        };
    }
    if bytes[at + 1] == 0x5b {
        return decode_csi(bytes, at);
    }
    assert(rest.skip(1) =~= bytes@.skip(at + 1));
    let (inner, used) = decode_one(lexicon, bytes, at + 1);
    (inner, used + 1)
}

/// Decodes one buffer of terminal bytes into presses. The buffer holds whatever one read produced:
/// a lone byte, an escape sequence, or several of each if the user was quick.
pub fn decode(lexicon: &Lexicon, bytes: &Vec<u8>) -> (out: Vec<Decoded>)
    ensures
        meant_all(out@) == all_inputs(lexicon, bytes@),
{
    let mut out: Vec<Decoded> = Vec::new();
    let mut at: usize = 0;
    proof {
        assert(bytes@.skip(0) =~= bytes@);
        assert(meant_all(out@) + all_inputs(lexicon, bytes@) =~= all_inputs(lexicon, bytes@));
    }
    while at < bytes.len()
        invariant
            at <= bytes@.len(),
            meant_all(out@) + all_inputs(lexicon, bytes@.skip(at as int)) == all_inputs(
                lexicon,
                bytes@,
            ),
        decreases bytes@.len() - at,
    {
        let ghost before = meant_all(out@);
        let ghost rest = bytes@.skip(at as int);
        let (one, used) = decode_one(lexicon, bytes, at);
        out.push(one);
        proof {
            assert(rest.skip(used as int) =~= bytes@.skip(at + used));
            assert(meant_all(out@) =~= before.push(one@));
            assert(before + all_inputs(lexicon, rest) =~= before.push(one@) + all_inputs(
                lexicon,
                rest.skip(used as int),
            ));
        }
        at += used;
    }
    assert(meant_all(out@) + all_inputs(lexicon, bytes@.skip(at as int)) =~= meant_all(out@));
    out
}

// ------------------------------------------------------------------------------ one burst

/// What is printed for one burst of bytes, and whether it ends the run.
#[derive(Debug)]
pub struct Burst {
    pub lines: Vec<String>,
    pub quit: bool,
}

/// The name of an input, where it has one.
pub open spec fn input_name(lexicon: &Lexicon, one: Meant) -> Option<Seq<char>> {
    match one {
        Meant::Named(name) => Some(name),
        Meant::Char(key) => Some(lexicon.name(Holdable::Key(key))),
        _ => None,
    }
}

/// The names that are printed for a list of inputs: those before the first Ctrl+C.
pub open spec fn printed(lexicon: &Lexicon, list: Seq<Meant>) -> Seq<Seq<char>>
    decreases list.len(),
{
    if list.len() == 0 || list[0] is Quit {
        seq![]
    } else {
        match input_name(lexicon, list[0]) {
            Some(name) => seq![name] + printed(lexicon, list.skip(1)),
            None => printed(lexicon, list.skip(1)),
        }
    }
}

/// What to print for the bytes that one read of the terminal produced. An empty read is the end of
/// the terminal, and ends the run like Ctrl+C.
pub fn terminal_burst(lexicon: &Lexicon, bytes: &Vec<u8>) -> (burst: Burst)
    ensures
        texts(burst.lines@) == printed(lexicon, all_inputs(lexicon, bytes@)),
        burst.quit == (bytes@.len() == 0 || exists|i: int|
            0 <= i < all_inputs(lexicon, bytes@).len() && (#[trigger] all_inputs(
                lexicon,
                bytes@,
            )[i]) is Quit),
{
    let mut lines: Vec<String> = Vec::new();
    let ghost all = all_inputs(lexicon, bytes@);
    let ghost meant = printed(lexicon, all);
    assert(texts(lines@) =~= seq![]);
    if bytes.len() == 0 {
        assert(all.len() == 0);
        return Burst { lines, quit: true };
    }
    let inputs = decode(lexicon, bytes);
    let mut i: usize = 0;
    proof {
        assert(all.skip(0) =~= all);
        assert(texts(lines@) + printed(lexicon, all) =~= printed(lexicon, all));
    }
    while i < inputs.len()
        invariant
            i <= inputs@.len(),
            bytes@.len() > 0,
            all == all_inputs(lexicon, bytes@),
            all == meant_all(inputs@),
            meant == printed(lexicon, all),
            texts(lines@) + printed(lexicon, all.skip(i as int)) == meant,
            forall|k: int| 0 <= k < i ==> !((#[trigger] all[k]) is Quit),
        decreases inputs@.len() - i,
    {
        let ghost before = texts(lines@);
        let ghost rest = all.skip(i as int);
        proof {
            assert(rest[0] == inputs@[i as int]@);
            assert(rest.skip(1) =~= all.skip(i + 1));
        }
        match inputs[i] {
            Decoded::Quit => {
                proof {
                    assert(all[i as int] is Quit);
                    assert(before + printed(lexicon, rest) =~= before);
                }
                return Burst { lines, quit: true };
            },
            Decoded::Named(name) => {
                lines.push(name.to_owned());
                assert(texts(lines@) =~= before.push(name@));
                assert(before + printed(lexicon, rest) =~= before.push(name@) + printed(
                    lexicon,
                    rest.skip(1),
                ));
            },
            Decoded::Char(key) => {
                let name = lexicon.name_of(Holdable::Key(key));
                let ghost said = name@;
                lines.push(name);
                assert(texts(lines@) =~= before.push(said));
                assert(before + printed(lexicon, rest) =~= before.push(said) + printed(
                    lexicon,
                    rest.skip(1),
                ));
            },
            Decoded::Unknown => {},
        }
        i += 1;
    }
    assert(texts(lines@) + printed(lexicon, all.skip(i as int)) =~= texts(lines@));
    Burst { lines, quit: false }
}

/// Whether Ctrl+C is among the bytes that a silenced terminal was drained of.
pub fn asks_to_quit(bytes: &Vec<u8>) -> (r: bool)
    ensures
        r == bytes@.contains(INTERRUPT),
{
    let mut i: usize = 0;
    while i < bytes.len()
        invariant
            i <= bytes@.len(),
            forall|k: int| 0 <= k < i ==> bytes@[k] != INTERRUPT,
        decreases bytes@.len() - i,
    {
        if bytes[i] == INTERRUPT {
            return true;
        }
        i += 1;
    }
    false
}

/// A burst is read one input after another: the first one, and then those of what it leaves.
pub proof fn law_inputs_are_read_in_order(lexicon: &Lexicon, bytes: Seq<u8>)
    requires
        bytes.len() > 0,
    ensures
        all_inputs(lexicon, bytes).len() > 0,
        all_inputs(lexicon, bytes)[0] == first_input(lexicon, bytes).0,
        all_inputs(lexicon, bytes).skip(1) == all_inputs(
            lexicon,
            bytes.skip(first_input(lexicon, bytes).1 as int),
        ),
        1 <= first_input(lexicon, bytes).1 <= bytes.len(),
{
    lemma_input_length(lexicon, bytes);
    let first = first_input(lexicon, bytes);
    let rest = all_inputs(lexicon, bytes.skip(first.1 as int));
    assert((seq![first.0] + rest).skip(1) =~= rest);
}

proof fn lemma_parameters_of(params: Seq<u8>, tail: Seq<u8>)
    requires
        forall|i: int| 0 <= i < params.len() ==> is_parameter(#[trigger] params[i]),
        tail.len() > 0,
        !is_parameter(tail[0]),
    ensures
        parameters(params + tail) == params.len(),
    decreases params.len(),
{
    if params.len() == 0 {
        assert(params + tail =~= tail);
    } else {
        assert((params + tail).skip(1) =~= params.skip(1) + tail);
        assert forall|i: int| 0 <= i < params.skip(1).len() implies is_parameter(
            #[trigger] params.skip(1)[i],
        ) by {
            assert(params.skip(1)[i] == params[i + 1]);
        }
        lemma_parameters_of(params.skip(1), tail);
    }
}

proof fn lemma_number_stops(digits: Seq<u8>, tail: Seq<u8>, so_far: nat)
    requires
        forall|i: int| 0 <= i < digits.len() ==> 0x30 <= (#[trigger] digits[i]) <= 0x39,
        tail.len() == 0 || tail[0] == 0x3b,
    ensures
        leading_number(digits + tail, so_far) == leading_number(digits, so_far),
    decreases digits.len(),
{
    if digits.len() == 0 {
        assert(digits + tail =~= tail);
    } else {
        assert((digits + tail).skip(1) =~= digits.skip(1) + tail);
        assert forall|i: int| 0 <= i < digits.skip(1).len() implies 0x30 <= (#[trigger] digits.skip(
            1,
        )[i]) <= 0x39 by {
            assert(digits.skip(1)[i] == digits[i + 1]);
        }
        assert((digits + tail)[0] == digits[0]);
        lemma_number_stops(
            digits.skip(1),
            tail,
            so_far * 10 + (digits[0] - 0x30) as nat,
        );
    }
}

/// The modifiers that were held do not change which key a sequence names: shift-PageUp is still the
/// PageUp key.
pub proof fn law_modifiers_do_not_change_the_key(
    lexicon: &Lexicon,
    digits: Seq<u8>,
    modifiers: Seq<u8>,
    last: u8,
)
    requires
        digits.len() > 0,
        forall|i: int| 0 <= i < digits.len() ==> 0x30 <= (#[trigger] digits[i]) <= 0x39,
        modifiers.len() > 0,
        modifiers[0] == 0x3b,
        forall|i: int| 0 <= i < modifiers.len() ==> is_parameter(#[trigger] modifiers[i]),
        !is_parameter(last),
    ensures
        first_input(lexicon, seq![ESCAPE, 0x5b] + digits + modifiers + seq![last]).0 == first_input(
            lexicon,
            seq![ESCAPE, 0x5b] + digits + seq![last],
        ).0,
{
    let with = seq![ESCAPE, 0x5b] + digits + modifiers + seq![last];
    let without = seq![ESCAPE, 0x5b] + digits + seq![last];
    let both = digits + modifiers;
    assert(with.skip(2) =~= both + seq![last]);
    assert(without.skip(2) =~= digits + seq![last]);
    assert forall|i: int| 0 <= i < both.len() implies is_parameter(#[trigger] both[i]) by {
        if i < digits.len() {
            assert(both[i] == digits[i]);
        } else {
            assert(both[i] == modifiers[i - digits.len()]);
        }
    }
    assert forall|i: int| 0 <= i < digits.len() implies is_parameter(#[trigger] digits[i]) by {}
    lemma_parameters_of(both, seq![last]);
    lemma_parameters_of(digits, seq![last]);
    assert((both + seq![last]).take(both.len() as int) =~= both);
    assert((digits + seq![last]).take(digits.len() as int) =~= digits);
    lemma_number_stops(digits, modifiers, 0);
    assert(both[0] == digits[0]);
    assert((both + seq![last])[both.len() as int] == last);
    assert((digits + seq![last])[digits.len() as int] == last);
}

proof fn lemma_short_csi(lexicon: &Lexicon, last: u8, tail: Seq<u8>)
    requires
        !is_parameter(last),
    ensures
        first_input(lexicon, seq![0x1bu8, 0x5bu8, last] + tail) == (
            named(csi_name(last, 1)),
            3nat,
        ),
{
    let bytes = seq![0x1bu8, 0x5bu8, last] + tail;
    assert(bytes[0] == 0x1b && bytes[1] == 0x5b && bytes[2] == last);
    let rest = bytes.skip(2);
    assert(rest[0] == last);
    assert(parameters(rest) == 0);
    assert(rest.take(0).len() == 0);
}

proof fn lemma_ss3(lexicon: &Lexicon, last: u8, tail: Seq<u8>)
    ensures
        first_input(lexicon, seq![0x1bu8, 0x4fu8, last] + tail) == (named(ss3_name(last)), 3nat),
{
    let bytes = seq![0x1bu8, 0x4fu8, last] + tail;
    assert(bytes[0] == 0x1b && bytes[1] == 0x4f && bytes[2] == last);
}

proof fn lemma_one_digit(lexicon: &Lexicon, digit: u8, tail: Seq<u8>)
    requires
        0x30 <= digit <= 0x39,
    ensures
        first_input(lexicon, seq![0x1bu8, 0x5bu8, digit, 0x7eu8] + tail) == (
            named(tilde_name((digit - 0x30) as nat)),
            4nat,
        ),
{
    reveal_with_fuel(leading_number, 3);
    let bytes = seq![0x1bu8, 0x5bu8, digit, 0x7eu8] + tail;
    assert(bytes[0] == 0x1b && bytes[1] == 0x5b);
    let rest = bytes.skip(2);
    assert(rest =~= seq![digit] + (seq![0x7eu8] + tail));
    lemma_parameters_of(seq![digit], seq![0x7eu8] + tail);
    assert(rest[1] == 0x7e);
    assert(rest.take(1) =~= seq![digit]);
    assert(seq![digit].skip(1).len() == 0);
}

proof fn lemma_two_digits(lexicon: &Lexicon, tens: u8, ones: u8, tail: Seq<u8>)
    requires
        0x30 <= tens <= 0x39,
        0x30 <= ones <= 0x39,
    ensures
        first_input(lexicon, seq![0x1bu8, 0x5bu8, tens, ones, 0x7eu8] + tail) == (
            named(tilde_name(((tens - 0x30) * 10 + (ones - 0x30)) as nat)),
            5nat,
        ),
{
    reveal_with_fuel(leading_number, 4);
    let bytes = seq![0x1bu8, 0x5bu8, tens, ones, 0x7eu8] + tail;
    assert(bytes[0] == 0x1b && bytes[1] == 0x5b);
    let rest = bytes.skip(2);
    let digits = seq![tens, ones];
    assert(rest =~= digits + (seq![0x7eu8] + tail));
    lemma_parameters_of(digits, seq![0x7eu8] + tail);
    assert(rest[2] == 0x7e);
    assert(rest.take(2) =~= digits);
    assert(digits.skip(1) =~= seq![ones]);
    assert(seq![ones].skip(1).len() == 0);
}

/// The arrow keys, Home, End and the first four function keys, whichever of the two kinds of
/// sequences a terminal sends for them, and whatever follows: three bytes each.
pub proof fn law_the_cursor_keys_have_their_codes(lexicon: &Lexicon, tail: Seq<u8>)
    ensures
        first_input(lexicon, seq![0x1bu8, 0x5bu8, 0x41u8] + tail) == (Meant::Named("up"@), 3nat),
        first_input(lexicon, seq![0x1bu8, 0x5bu8, 0x42u8] + tail) == (Meant::Named("down"@), 3nat),
        first_input(lexicon, seq![0x1bu8, 0x5bu8, 0x43u8] + tail) == (Meant::Named("right"@), 3nat),
        first_input(lexicon, seq![0x1bu8, 0x5bu8, 0x44u8] + tail) == (Meant::Named("left"@), 3nat),
        first_input(lexicon, seq![0x1bu8, 0x5bu8, 0x48u8] + tail) == (Meant::Named("home"@), 3nat),
        first_input(lexicon, seq![0x1bu8, 0x5bu8, 0x46u8] + tail) == (Meant::Named("end"@), 3nat),
        first_input(lexicon, seq![0x1bu8, 0x5bu8, 0x50u8] + tail) == (Meant::Named("f1"@), 3nat),
        first_input(lexicon, seq![0x1bu8, 0x5bu8, 0x51u8] + tail) == (Meant::Named("f2"@), 3nat),
        first_input(lexicon, seq![0x1bu8, 0x5bu8, 0x52u8] + tail) == (Meant::Named("f3"@), 3nat),
        first_input(lexicon, seq![0x1bu8, 0x5bu8, 0x53u8] + tail) == (Meant::Named("f4"@), 3nat),
        first_input(lexicon, seq![0x1bu8, 0x4fu8, 0x41u8] + tail) == (Meant::Named("up"@), 3nat),
        first_input(lexicon, seq![0x1bu8, 0x4fu8, 0x42u8] + tail) == (Meant::Named("down"@), 3nat),
        first_input(lexicon, seq![0x1bu8, 0x4fu8, 0x43u8] + tail) == (Meant::Named("right"@), 3nat),
        first_input(lexicon, seq![0x1bu8, 0x4fu8, 0x44u8] + tail) == (Meant::Named("left"@), 3nat),
        first_input(lexicon, seq![0x1bu8, 0x4fu8, 0x48u8] + tail) == (Meant::Named("home"@), 3nat),
        first_input(lexicon, seq![0x1bu8, 0x4fu8, 0x46u8] + tail) == (Meant::Named("end"@), 3nat),
        first_input(lexicon, seq![0x1bu8, 0x4fu8, 0x50u8] + tail) == (Meant::Named("f1"@), 3nat),
        first_input(lexicon, seq![0x1bu8, 0x4fu8, 0x51u8] + tail) == (Meant::Named("f2"@), 3nat),
        first_input(lexicon, seq![0x1bu8, 0x4fu8, 0x52u8] + tail) == (Meant::Named("f3"@), 3nat),
        first_input(lexicon, seq![0x1bu8, 0x4fu8, 0x53u8] + tail) == (Meant::Named("f4"@), 3nat),
{
    lemma_short_csi(lexicon, 0x41, tail);
    lemma_short_csi(lexicon, 0x42, tail);
    lemma_short_csi(lexicon, 0x43, tail);
    lemma_short_csi(lexicon, 0x44, tail);
    lemma_short_csi(lexicon, 0x48, tail);
    lemma_short_csi(lexicon, 0x46, tail);
    lemma_short_csi(lexicon, 0x50, tail);
    lemma_short_csi(lexicon, 0x51, tail);
    lemma_short_csi(lexicon, 0x52, tail);
    lemma_short_csi(lexicon, 0x53, tail);
    lemma_ss3(lexicon, 0x41, tail);
    lemma_ss3(lexicon, 0x42, tail);
    lemma_ss3(lexicon, 0x43, tail);
    lemma_ss3(lexicon, 0x44, tail);
    lemma_ss3(lexicon, 0x48, tail);
    lemma_ss3(lexicon, 0x46, tail);
    lemma_ss3(lexicon, 0x50, tail);
    lemma_ss3(lexicon, 0x51, tail);
    lemma_ss3(lexicon, 0x52, tail);
    lemma_ss3(lexicon, 0x53, tail);
}

/// The keys of a numpad that sends codes of its own, whatever follows.
pub proof fn law_the_numpad_keys_have_their_codes(lexicon: &Lexicon, tail: Seq<u8>)
    ensures
        first_input(lexicon, seq![0x1bu8, 0x4fu8, 0x6au8] + tail) == (Meant::Named("kpmultiply"@), 3nat),
        first_input(lexicon, seq![0x1bu8, 0x4fu8, 0x6bu8] + tail) == (Meant::Named("kpplus"@), 3nat),
        first_input(lexicon, seq![0x1bu8, 0x4fu8, 0x6du8] + tail) == (Meant::Named("kpminus"@), 3nat),
        first_input(lexicon, seq![0x1bu8, 0x4fu8, 0x6fu8] + tail) == (Meant::Named("kpdivide"@), 3nat),
        first_input(lexicon, seq![0x1bu8, 0x4fu8, 0x6eu8] + tail) == (Meant::Named("kpdot"@), 3nat),
        first_input(lexicon, seq![0x1bu8, 0x4fu8, 0x4du8] + tail) == (Meant::Named("kpenter"@), 3nat),
        first_input(lexicon, seq![0x1bu8, 0x4fu8, 0x70u8] + tail) == (Meant::Named("kp0"@), 3nat),
        first_input(lexicon, seq![0x1bu8, 0x4fu8, 0x71u8] + tail) == (Meant::Named("kp1"@), 3nat),
        first_input(lexicon, seq![0x1bu8, 0x4fu8, 0x72u8] + tail) == (Meant::Named("kp2"@), 3nat),
        first_input(lexicon, seq![0x1bu8, 0x4fu8, 0x73u8] + tail) == (Meant::Named("kp3"@), 3nat),
        first_input(lexicon, seq![0x1bu8, 0x4fu8, 0x74u8] + tail) == (Meant::Named("kp4"@), 3nat),
        first_input(lexicon, seq![0x1bu8, 0x4fu8, 0x75u8] + tail) == (Meant::Named("kp5"@), 3nat),
        first_input(lexicon, seq![0x1bu8, 0x4fu8, 0x76u8] + tail) == (Meant::Named("kp6"@), 3nat),
        first_input(lexicon, seq![0x1bu8, 0x4fu8, 0x77u8] + tail) == (Meant::Named("kp7"@), 3nat),
        first_input(lexicon, seq![0x1bu8, 0x4fu8, 0x78u8] + tail) == (Meant::Named("kp8"@), 3nat),
        first_input(lexicon, seq![0x1bu8, 0x4fu8, 0x79u8] + tail) == (Meant::Named("kp9"@), 3nat),
{
    lemma_ss3(lexicon, 0x6a, tail);
    lemma_ss3(lexicon, 0x6b, tail);
    lemma_ss3(lexicon, 0x6d, tail);
    lemma_ss3(lexicon, 0x6f, tail);
    lemma_ss3(lexicon, 0x6e, tail);
    lemma_ss3(lexicon, 0x4d, tail);
    lemma_ss3(lexicon, 0x70, tail);
    lemma_ss3(lexicon, 0x71, tail);
    lemma_ss3(lexicon, 0x72, tail);
    lemma_ss3(lexicon, 0x73, tail);
    lemma_ss3(lexicon, 0x74, tail);
    lemma_ss3(lexicon, 0x75, tail);
    lemma_ss3(lexicon, 0x76, tail);
    lemma_ss3(lexicon, 0x77, tail);
    lemma_ss3(lexicon, 0x78, tail);
    lemma_ss3(lexicon, 0x79, tail);
}

/// The keys that a terminal numbers, whatever follows: Home and End have two numbers each, and the
/// function keys leave gaps.
pub proof fn law_the_numbered_keys_have_their_codes(lexicon: &Lexicon, tail: Seq<u8>)
    ensures
        first_input(lexicon, seq![0x1bu8, 0x5bu8, 0x31u8, 0x7eu8] + tail) == (Meant::Named("home"@), 4nat),
        first_input(lexicon, seq![0x1bu8, 0x5bu8, 0x37u8, 0x7eu8] + tail) == (Meant::Named("home"@), 4nat),
        first_input(lexicon, seq![0x1bu8, 0x5bu8, 0x32u8, 0x7eu8] + tail) == (Meant::Named("insert"@), 4nat),
        first_input(lexicon, seq![0x1bu8, 0x5bu8, 0x33u8, 0x7eu8] + tail) == (Meant::Named("delete"@), 4nat),
        first_input(lexicon, seq![0x1bu8, 0x5bu8, 0x34u8, 0x7eu8] + tail) == (Meant::Named("end"@), 4nat),
        first_input(lexicon, seq![0x1bu8, 0x5bu8, 0x38u8, 0x7eu8] + tail) == (Meant::Named("end"@), 4nat),
        first_input(lexicon, seq![0x1bu8, 0x5bu8, 0x35u8, 0x7eu8] + tail) == (Meant::Named("pgup"@), 4nat),
        first_input(lexicon, seq![0x1bu8, 0x5bu8, 0x36u8, 0x7eu8] + tail) == (Meant::Named("pgdn"@), 4nat),
        first_input(lexicon, seq![0x1bu8, 0x5bu8, 0x31u8, 0x31u8, 0x7eu8] + tail) == (Meant::Named("f1"@), 5nat),
        first_input(lexicon, seq![0x1bu8, 0x5bu8, 0x31u8, 0x32u8, 0x7eu8] + tail) == (Meant::Named("f2"@), 5nat),
        first_input(lexicon, seq![0x1bu8, 0x5bu8, 0x31u8, 0x33u8, 0x7eu8] + tail) == (Meant::Named("f3"@), 5nat),
        first_input(lexicon, seq![0x1bu8, 0x5bu8, 0x31u8, 0x34u8, 0x7eu8] + tail) == (Meant::Named("f4"@), 5nat),
        first_input(lexicon, seq![0x1bu8, 0x5bu8, 0x31u8, 0x35u8, 0x7eu8] + tail) == (Meant::Named("f5"@), 5nat),
        first_input(lexicon, seq![0x1bu8, 0x5bu8, 0x31u8, 0x37u8, 0x7eu8] + tail) == (Meant::Named("f6"@), 5nat),
        first_input(lexicon, seq![0x1bu8, 0x5bu8, 0x31u8, 0x38u8, 0x7eu8] + tail) == (Meant::Named("f7"@), 5nat),
        first_input(lexicon, seq![0x1bu8, 0x5bu8, 0x31u8, 0x39u8, 0x7eu8] + tail) == (Meant::Named("f8"@), 5nat),
        first_input(lexicon, seq![0x1bu8, 0x5bu8, 0x32u8, 0x30u8, 0x7eu8] + tail) == (Meant::Named("f9"@), 5nat),
        first_input(lexicon, seq![0x1bu8, 0x5bu8, 0x32u8, 0x31u8, 0x7eu8] + tail) == (Meant::Named("f10"@), 5nat),
        first_input(lexicon, seq![0x1bu8, 0x5bu8, 0x32u8, 0x33u8, 0x7eu8] + tail) == (Meant::Named("f11"@), 5nat),
        first_input(lexicon, seq![0x1bu8, 0x5bu8, 0x32u8, 0x34u8, 0x7eu8] + tail) == (Meant::Named("f12"@), 5nat),
{
    lemma_one_digit(lexicon, 0x31, tail);
    lemma_one_digit(lexicon, 0x37, tail);
    lemma_one_digit(lexicon, 0x32, tail);
    lemma_one_digit(lexicon, 0x33, tail);
    lemma_one_digit(lexicon, 0x34, tail);
    lemma_one_digit(lexicon, 0x38, tail);
    lemma_one_digit(lexicon, 0x35, tail);
    lemma_one_digit(lexicon, 0x36, tail);
    lemma_two_digits(lexicon, 0x31, 0x31, tail);
    lemma_two_digits(lexicon, 0x31, 0x32, tail);
    lemma_two_digits(lexicon, 0x31, 0x33, tail);
    lemma_two_digits(lexicon, 0x31, 0x34, tail);
    lemma_two_digits(lexicon, 0x31, 0x35, tail);
    lemma_two_digits(lexicon, 0x31, 0x37, tail);
    lemma_two_digits(lexicon, 0x31, 0x38, tail);
    lemma_two_digits(lexicon, 0x31, 0x39, tail);
    lemma_two_digits(lexicon, 0x32, 0x30, tail);
    lemma_two_digits(lexicon, 0x32, 0x31, tail);
    lemma_two_digits(lexicon, 0x32, 0x33, tail);
    lemma_two_digits(lexicon, 0x32, 0x34, tail);
}

/// The keys that are a byte of their own, whatever follows: both line ends are Enter, both erasing
/// codes Backspace. Shift-Tab is still Tab, and Ctrl+C ends the run.
pub proof fn law_the_single_bytes_have_their_keys(lexicon: &Lexicon, tail: Seq<u8>)
    ensures
        first_input(lexicon, seq![0x0du8] + tail) == (Meant::Named("enter"@), 1nat),
        first_input(lexicon, seq![0x0au8] + tail) == (Meant::Named("enter"@), 1nat),
        first_input(lexicon, seq![0x09u8] + tail) == (Meant::Named("tab"@), 1nat),
        first_input(lexicon, seq![0x7fu8] + tail) == (Meant::Named("backspace"@), 1nat),
        first_input(lexicon, seq![0x08u8] + tail) == (Meant::Named("backspace"@), 1nat),
        first_input(lexicon, seq![0x20u8] + tail) == (Meant::Named("space"@), 1nat),
        first_input(lexicon, seq![0x1bu8, 0x5bu8, 0x5au8] + tail) == (Meant::Named("tab"@), 3nat),
        first_input(lexicon, seq![0x03u8] + tail) == (Meant::Quit, 1nat),
        first_input(lexicon, seq![0x1bu8]) == (Meant::Named("esc"@), 1nat),
{
    assert((seq![0x0du8] + tail)[0] == 0x0d);
    assert((seq![0x0au8] + tail)[0] == 0x0a);
    assert((seq![0x09u8] + tail)[0] == 0x09);
    assert((seq![0x7fu8] + tail)[0] == 0x7f);
    assert((seq![0x08u8] + tail)[0] == 0x08);
    assert((seq![0x20u8] + tail)[0] == 0x20);
    assert((seq![0x03u8] + tail)[0] == 0x03);
    lemma_short_csi(lexicon, 0x5a, tail);
}

/// A printable character is the key that its own word means, and a control character the key of its
/// letter: one byte each. A character that no word stands for has no name.
pub proof fn law_a_character_is_the_key_of_its_word(lexicon: &Lexicon, letter: u8, tail: Seq<u8>)
    requires
        0x61 <= letter <= 0x7a,
    ensures
        first_input(lexicon, seq![letter] + tail).1 == 1,
        match lexicon.meaning(seq![letter as char]) {
            Some(Meaning::Input(Holdable::Key(key))) => first_input(
                lexicon,
                seq![letter] + tail,
            ).0 == Meant::Char(key),
            _ => first_input(lexicon, seq![letter] + tail).0 is Unknown,
        },
        // A control character keeps the low bits of its letter. Tab, Enter and Backspace share a
        // byte with I, J, M and H, and Ctrl+C ends the run.
        letter != 0x63 && letter != 0x68 && letter != 0x69 && letter != 0x6a && letter != 0x6d
            ==> first_input(lexicon, seq![(letter - 0x60) as u8] + tail) == first_input(
            lexicon,
            seq![letter] + tail,
        ),
{
    assert((seq![letter] + tail)[0] == letter);
    let control = (letter - 0x60) as u8;
    assert((seq![control] + tail)[0] == control);
}

/// A key that is held with Alt comes as an escape before its own bytes: it is still that key, one
/// byte longer. What a sequence of either kind begins with is no such key.
pub proof fn law_an_escape_before_a_key_leaves_the_key(lexicon: &Lexicon, bytes: Seq<u8>)
    requires
        bytes.len() > 0,
        bytes[0] != 0x4f,
        bytes[0] != 0x5b,
    ensures
        first_input(lexicon, seq![0x1bu8] + bytes).0 == first_input(lexicon, bytes).0,
        first_input(lexicon, seq![0x1bu8] + bytes).1 == first_input(lexicon, bytes).1 + 1,
{
    let longer = seq![0x1bu8] + bytes;
    assert(longer[0] == 0x1b && longer[1] == bytes[0]);
    assert(longer.skip(1) =~= bytes);
}

/// A character beyond ASCII is taken whole, by the length that its first byte says, and has no name;
/// one that is cut short is taken as far as it goes.
pub proof fn law_a_long_character_is_taken_whole(lexicon: &Lexicon, bytes: Seq<u8>)
    requires
        bytes.len() > 0,
        bytes[0] >= 0x80,
    ensures
        first_input(lexicon, bytes).0 is Unknown,
        0xc0 <= bytes[0] <= 0xdf && bytes.len() >= 2 ==> first_input(lexicon, bytes).1 == 2,
        0xe0 <= bytes[0] <= 0xef && bytes.len() >= 3 ==> first_input(lexicon, bytes).1 == 3,
        0xf0 <= bytes[0] <= 0xf7 && bytes.len() >= 4 ==> first_input(lexicon, bytes).1 == 4,
        bytes[0] < 0xc0 || bytes[0] > 0xf7 ==> first_input(lexicon, bytes).1 == 1,
        first_input(lexicon, bytes).1 <= bytes.len(),
{
}

/// Each input that has a name is printed by it, in order, up to the one that quits; one without a
/// name prints nothing.
pub proof fn law_each_named_input_is_printed(
    lexicon: &Lexicon,
    name: Seq<char>,
    key: Key,
    rest: Seq<Meant>,
)
    ensures
        printed(lexicon, Seq::empty()).len() == 0,
        printed(lexicon, seq![Meant::Named(name)] + rest) == seq![name] + printed(lexicon, rest),
        printed(lexicon, seq![Meant::Char(key)] + rest) == seq![lexicon.name(Holdable::Key(key))]
            + printed(lexicon, rest),
        printed(lexicon, seq![Meant::Unknown] + rest) == printed(lexicon, rest),
        printed(lexicon, seq![Meant::Quit] + rest).len() == 0,
{
    assert((seq![Meant::Named(name)] + rest).skip(1) =~= rest);
    assert((seq![Meant::Char(key)] + rest).skip(1) =~= rest);
    assert((seq![Meant::Unknown] + rest).skip(1) =~= rest);
}

/// A sequence that is cut short is the escape key alone, one byte; what stands behind the escape is
/// read on its own.
pub proof fn law_a_sequence_cut_short_is_the_escape_key(lexicon: &Lexicon, params: Seq<u8>)
    requires
        forall|i: int| 0 <= i < params.len() ==> is_parameter(#[trigger] params[i]),
    ensures
        first_input(lexicon, seq![0x1bu8, 0x5bu8] + params) == (Meant::Named("esc"@), 1nat),
        first_input(lexicon, seq![0x1bu8, 0x4fu8]) == (Meant::Named("esc"@), 1nat),
{
    let bytes = seq![0x1bu8, 0x5bu8] + params;
    assert(bytes[0] == 0x1b && bytes[1] == 0x5b);
    assert(bytes.skip(2) =~= params);
    lemma_only_parameters(params);
}

proof fn lemma_only_parameters(params: Seq<u8>)
    requires
        forall|i: int| 0 <= i < params.len() ==> is_parameter(#[trigger] params[i]),
    ensures
        parameters(params) == params.len(),
    decreases params.len(),
{
    if params.len() > 0 {
        assert(is_parameter(params[0]));
        assert forall|i: int| 0 <= i < params.skip(1).len() implies is_parameter(
            #[trigger] params.skip(1)[i],
        ) by {
            assert(params.skip(1)[i] == params[i + 1]);
        }
        lemma_only_parameters(params.skip(1));
    }
}

/// What stands in the parameters of a sequence is a digit or a semicolon, and nothing else.
pub proof fn law_parameters_are_digits_and_semicolons(byte: u8)
    ensures
        is_parameter(0x30),
        is_parameter(0x39),
        is_parameter(0x3b),
        byte < 0x30 || byte == 0x3a || byte > 0x3b ==> !is_parameter(byte),
        0x30 <= byte <= 0x39 ==> is_parameter(byte),
{
}

/// A sequence that ends in a byte without a key has no name, and is taken whole.
pub proof fn law_an_unknown_sequence_is_taken_whole(lexicon: &Lexicon, last: u8, tail: Seq<u8>)
    requires
        0x61 <= last <= 0x69 || last == 0x6c || last == 0x45 || last == 0x47 || 0x54 <= last
            <= 0x59 || last == 0x7a,
    ensures
        first_input(lexicon, seq![0x1bu8, 0x5bu8, last] + tail) == (Meant::Unknown, 3nat),
        first_input(lexicon, seq![0x1bu8, 0x4fu8, last] + tail) == (Meant::Unknown, 3nat),
{
    lemma_short_csi(lexicon, last, tail);
    lemma_ss3(lexicon, last, tail);
}

} // verus!
