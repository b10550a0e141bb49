//! Keys, buttons and the events they make.
use vstd::prelude::*;

verus! {

/// A keyboard key. The keys that the program itself speaks of have names; any other key is the
/// number that the input backend knows it by.
#[derive(Debug, Clone, Copy, PartialEq, Eq, Structural)]
pub enum Key {
    LeftShift,
    RightShift,
    LeftCtrl,
    RightCtrl,
    LeftAlt,
    RightAlt,
    LeftMeta,
    RightMeta,
    C,
    F8,
    F9,
    CapsLock,
    NumLock,
    Other(u16),
}

/// A mouse button.
#[derive(Debug, Clone, Copy, PartialEq, Eq, Structural)]
pub enum Button {
    Left,
    Right,
    Middle,
    Back,
    Forward,
}

/// Something that can be pressed, kept down and released.
#[derive(Debug, Clone, Copy, PartialEq, Eq, Structural)]
pub enum Holdable {
    Key(Key),
    Button(Button),
}

/// One synthetic press or release.
#[derive(Debug, Clone, Copy, PartialEq, Eq, Structural)]
pub enum EmitAction {
    KeyDown(Key),
    KeyUp(Key),
    ButtonDown(Button),
    ButtonUp(Button),
}

/// What the user did.
#[derive(Debug, Clone, Copy, PartialEq, Eq, Structural)]
pub enum EventKind {
    KeyDown(Key),
    KeyUp(Key),
    ButtonDown(Button),
    ButtonUp(Button),
    Scroll { dx: i32, dy: i32 },
    Motion { dx: i32, dy: i32 },
}

/// A set of modifier classes. Left and right shift, ctrl and meta fold into one class each; the
/// right alt key is a class of its own.
#[derive(Debug, Clone, Copy, PartialEq, Eq, Structural)]
pub struct Mods {
    pub shift: bool,
    pub ctrl: bool,
    pub alt: bool,
    pub ralt: bool,
    pub meta: bool,
}

/// An event with the modifier classes that were held when it came.
#[derive(Debug, Clone, Copy, PartialEq, Eq, Structural)]
pub struct InputEvent {
    pub kind: EventKind,
    pub mods: Mods,
}

/// Whether a key only decorates a chord rather than anchoring it.
pub open spec fn decorates(key: Key) -> bool {
    key is LeftShift || key is RightShift || key is LeftCtrl || key is RightCtrl || key is LeftAlt
        || key is RightAlt || key is LeftMeta || key is RightMeta
}

/// No modifier class.
pub open spec fn no_mods() -> Mods {
    Mods { shift: false, ctrl: false, alt: false, ralt: false, meta: false }
}

/// The class of a modifier key; none for any other key.
pub open spec fn class_of(key: Key) -> Mods {
    Mods {
        shift: key is LeftShift || key is RightShift,
        ctrl: key is LeftCtrl || key is RightCtrl,
        alt: key is LeftAlt,
        ralt: key is RightAlt,
        meta: key is LeftMeta || key is RightMeta,
    }
}

/// The classes of two sets together.
pub open spec fn both(a: Mods, b: Mods) -> Mods {
    Mods {
        shift: a.shift || b.shift,
        ctrl: a.ctrl || b.ctrl,
        alt: a.alt || b.alt,
        ralt: a.ralt || b.ralt,
        meta: a.meta || b.meta,
    }
}

/// The modifier classes that a list of keys names.
pub open spec fn classes(keys: Seq<Key>) -> Mods {
    Mods {
        shift: keys.contains(Key::LeftShift) || keys.contains(Key::RightShift),
        ctrl: keys.contains(Key::LeftCtrl) || keys.contains(Key::RightCtrl),
        alt: keys.contains(Key::LeftAlt),
        ralt: keys.contains(Key::RightAlt),
        meta: keys.contains(Key::LeftMeta) || keys.contains(Key::RightMeta),
    }
}

impl Mods {
    /// Whether every class of `other` is in `self`.
    pub open spec fn covering(self, other: Mods) -> bool {
        &&& other.shift ==> self.shift
        &&& other.ctrl ==> self.ctrl
        &&& other.alt ==> self.alt
        &&& other.ralt ==> self.ralt
        &&& other.meta ==> self.meta
    }

    /// No class at all.
    pub fn none() -> (r: Mods)
        ensures
            r == no_mods(),
    {
        Mods { shift: false, ctrl: false, alt: false, ralt: false, meta: false }
    }

    /// The class of one modifier key, `None` for an ordinary key.
    pub fn of_key(key: Key) -> (r: Option<Mods>)
        ensures
            r == (if decorates(key) {
                Some(class_of(key))
            } else {
                None
            }),
    {
        let none = Mods::none();
        match key {
            Key::LeftShift | Key::RightShift => Some(Mods { shift: true, ..none }),
            Key::LeftCtrl | Key::RightCtrl => Some(Mods { ctrl: true, ..none }),
            Key::LeftAlt => Some(Mods { alt: true, ..none }),
            Key::RightAlt => Some(Mods { ralt: true, ..none }),
            Key::LeftMeta | Key::RightMeta => Some(Mods { meta: true, ..none }),
            _ => None,
        }
    }

    /// The classes that a chord names.
    pub fn of_chord(chord: &Vec<Key>) -> (r: Mods)
        ensures
            r == classes(chord@),
    {
        Mods {
            shift: has_key(chord, Key::LeftShift) || has_key(chord, Key::RightShift),
            ctrl: has_key(chord, Key::LeftCtrl) || has_key(chord, Key::RightCtrl),
            alt: has_key(chord, Key::LeftAlt),
            ralt: has_key(chord, Key::RightAlt),
            meta: has_key(chord, Key::LeftMeta) || has_key(chord, Key::RightMeta),
        }
    }

    /// Whether every class of `other` is in `self`.
    pub fn covers(self, other: Mods) -> (r: bool)
        ensures
            r == self.covering(other),
    {
        (!other.shift || self.shift) && (!other.ctrl || self.ctrl) && (!other.alt || self.alt) && (
        !other.ralt || self.ralt) && (!other.meta || self.meta)
    }
}

/// Whether a key only decorates a chord rather than anchoring it.
pub fn is_modifier(key: Key) -> (r: bool)
    ensures
        r == decorates(key),
{
    match key {
        Key::LeftShift
        | Key::RightShift
        | Key::LeftCtrl
        | Key::RightCtrl
        | Key::LeftAlt
        | Key::RightAlt
        | Key::LeftMeta
        | Key::RightMeta => true,
        _ => false,
    }
}

impl Holdable {
    /// The press of this input.
    pub open spec fn pressed(self) -> EmitAction {
        match self {
            Holdable::Key(key) => EmitAction::KeyDown(key),
            Holdable::Button(button) => EmitAction::ButtonDown(button),
        }
    }

    /// The release of this input.
    pub open spec fn released(self) -> EmitAction {
        match self {
            Holdable::Key(key) => EmitAction::KeyUp(key),
            Holdable::Button(button) => EmitAction::ButtonUp(button),
        }
    }

    /// The press of this input.
    pub fn down(self) -> (r: EmitAction)
        ensures
            r == self.pressed(),
    {
        match self {
            Holdable::Key(key) => EmitAction::KeyDown(key),
            Holdable::Button(button) => EmitAction::ButtonDown(button),
        }
    }

    /// The release of this input.
    pub fn up(self) -> (r: EmitAction)
        ensures
            r == self.released(),
    {
        match self {
            Holdable::Key(key) => EmitAction::KeyUp(key),
            Holdable::Button(button) => EmitAction::ButtonUp(button),
        }
    }
}

/// Whether `key` occurs in `keys`.
pub fn has_key(keys: &Vec<Key>, key: Key) -> (r: bool)
    ensures
        r == keys@.contains(key),
{
    let mut i: usize = 0;
    while i < keys.len()
        invariant
            i <= keys@.len(),
            forall|j: int| 0 <= j < i ==> keys@[j] != key,
        decreases keys@.len() - i,
    {
        if keys[i] == key {
            return true;
        }
        i += 1;
    }
    false
}

/// Whether `item` occurs in `list`.
pub fn has_holdable(list: &Vec<Holdable>, item: Holdable) -> (r: bool)
    ensures
        r == list@.contains(item),
{
    let mut i: usize = 0;
    while i < list.len()
        invariant
            i <= list@.len(),
            forall|j: int| 0 <= j < i ==> list@[j] != item,
        decreases list@.len() - i,
    {
        if list[i] == item {
            return true;
        }
        i += 1;
    }
    false
}

/// Whether two chords list the same keys in the same order.
pub fn same_keys(a: &Vec<Key>, b: &Vec<Key>) -> (r: bool)
    ensures
        r == (a@ == b@),
{
    if a.len() != b.len() {
        return false;
    }
    let mut i: usize = 0;
    while i < a.len()
        invariant
            i <= a@.len(),
            a@.len() == b@.len(),
            forall|j: int| 0 <= j < i ==> a@[j] == b@[j],
        decreases a@.len() - i,
    {
        if a[i] != b[i] {
            return false;
        }
        i += 1;
    }
    assert(a@ =~= b@);
    true
}

/// A copy of a chord.
pub fn copy_keys(keys: &Vec<Key>) -> (out: Vec<Key>)
    ensures
        out@ == keys@,
{
    let mut out: Vec<Key> = Vec::new();
    let mut i: usize = 0;
    while i < keys.len()
        invariant
            i <= keys@.len(),
            out@ == keys@.take(i as int),
        decreases keys@.len() - i,
    {
        out.push(keys[i]);
        i += 1;
        assert(keys@.take(i as int) =~= keys@.take(i - 1).push(keys@[i - 1]));
    }
    assert(keys@.take(keys@.len() as int) =~= keys@);
    out
}

/// A copy of a list of inputs.
pub fn copy_holdables(list: &Vec<Holdable>) -> (out: Vec<Holdable>)
    ensures
        out@ == list@,
{
    let mut out: Vec<Holdable> = Vec::new();
    let mut i: usize = 0;
    while i < list.len()
        invariant
            i <= list@.len(),
            out@ == list@.take(i as int),
        decreases list@.len() - i,
    {
        out.push(list[i]);
        i += 1;
        assert(list@.take(i as int) =~= list@.take(i - 1).push(list@[i - 1]));
    }
    assert(list@.take(list@.len() as int) =~= list@);
    out
}

/// The list without its last occurrence of `item`; the list itself where there is none.
pub open spec fn without_last(list: Seq<Holdable>, item: Holdable) -> Seq<Holdable>
    decreases list.len(),
{
    if list.len() == 0 {
        list
    } else if list.last() == item {
        list.drop_last()
    } else {
        without_last(list.drop_last(), item).push(list.last())
    }
}

/// Taking out the last occurrence keeps everything else, and takes out one occurrence at most.
pub proof fn lemma_without_last(list: Seq<Holdable>, item: Holdable)
    ensures
        without_last(list, item).len() == list.len() - (if list.contains(item) {
            1int
        } else {
            0int
        }),
        forall|x: Holdable| x != item && list.contains(x) ==> without_last(list, item).contains(x),
        forall|x: Holdable| without_last(list, item).contains(x) ==> list.contains(x),
        without_last(list, item).to_multiset() == list.to_multiset().remove(item),
    decreases list.len(),
{
    broadcast use vstd::seq_lib::group_to_multiset_ensures;

    if list.len() > 0 {
        let rest = list.drop_last();
        assert(list =~= rest.push(list.last()));
        assert(forall|x: Holdable| list.contains(x) == (rest.contains(x) || x == list.last())) by {
            assert forall|x: Holdable| list.contains(x) implies rest.contains(x) || x
                == list.last() by {
                let i = choose|i: int| 0 <= i < list.len() && list[i] == x;
                if i < rest.len() {
                    assert(rest[i] == x);
                }
            }
            assert forall|x: Holdable| rest.contains(x) implies list.contains(x) by {
                let i = choose|i: int| 0 <= i < rest.len() && rest[i] == x;
                assert(list[i] == x);
            }
            assert(list[list.len() - 1] == list.last());
        }
        if list.last() == item {
            assert(without_last(list, item) == rest);
            assert(rest.to_multiset() =~= list.to_multiset().remove(item));
        } else {
            lemma_without_last(rest, item);
            let cut = without_last(rest, item);
            let out = cut.push(list.last());
            assert forall|x: Holdable| out.contains(x) == (cut.contains(x) || x == list.last()) by {
                if out.contains(x) {
                    let i = choose|i: int| 0 <= i < out.len() && out[i] == x;
                    if i < cut.len() {
                        assert(cut[i] == x);
                    }
                }
                if cut.contains(x) {
                    let i = choose|i: int| 0 <= i < cut.len() && cut[i] == x;
                    assert(out[i] == x);
                }
                assert(out[out.len() - 1] == list.last());
            }
            assert(out.to_multiset() =~= list.to_multiset().remove(item));
        }
    } else {
        assert(list.to_multiset() =~= list.to_multiset().remove(item));
    }
}

/// Takes the last occurrence of `item` out of `list`, if there is one.
pub fn remove_last(list: &mut Vec<Holdable>, item: Holdable)
    ensures
        final(list)@ == without_last(old(list)@, item),
{
    let ghost whole = list@;
    let mut i: usize = list.len();
    proof {
        assert(whole.take(i as int) =~= whole);
        assert(without_last(whole, item) + whole.skip(i as int) =~= without_last(whole, item));
    }
    while i > 0
        invariant
            i <= list@.len(),
            list@ == whole,
            whole == old(list)@,
            without_last(whole, item) == without_last(whole.take(i as int), item) + whole.skip(
                i as int,
            ),
        decreases i,
    {
        i -= 1;
        proof {
            let part = whole.take(i + 1);
            assert(part.drop_last() =~= whole.take(i as int));
            assert(part.last() == whole[i as int]);
        }
        if list[i] == item {
            let _ = list.remove(i);
            proof {
                assert(list@ =~= whole.take(i as int) + whole.skip(i + 1));
            }
            return ;
        }
        proof {
            assert(without_last(whole.take(i as int), item).push(whole[i as int]) + whole.skip(
                i + 1,
            ) =~= without_last(whole.take(i as int), item) + whole.skip(i as int));
        }
    }
    assert(whole.take(0) =~= Seq::<Holdable>::empty());
    assert(whole.skip(0) =~= whole);
    assert(without_last(whole.take(0), item) + whole =~= whole);
}

// ------------------------------------------------------------------------------------ laws

/// Each modifier key has the class of its name: the left and the right key share one, except that
/// the right alt key has one of its own.
pub proof fn law_each_modifier_key_has_its_class(key: Key)
    ensures
        class_of(Key::LeftShift) == (Mods { shift: true, ..no_mods() }),
        class_of(Key::RightShift) == (Mods { shift: true, ..no_mods() }),
        class_of(Key::LeftCtrl) == (Mods { ctrl: true, ..no_mods() }),
        class_of(Key::RightCtrl) == (Mods { ctrl: true, ..no_mods() }),
        class_of(Key::LeftAlt) == (Mods { alt: true, ..no_mods() }),
        class_of(Key::RightAlt) == (Mods { ralt: true, ..no_mods() }),
        class_of(Key::LeftMeta) == (Mods { meta: true, ..no_mods() }),
        class_of(Key::RightMeta) == (Mods { meta: true, ..no_mods() }),
        // A key decorates exactly where it has a class, and no other key has one.
        decorates(key) <==> class_of(key) != no_mods(),
        decorates(key) ==> key == Key::LeftShift || key == Key::RightShift || key == Key::LeftCtrl
            || key == Key::RightCtrl || key == Key::LeftAlt || key == Key::RightAlt || key
            == Key::LeftMeta || key == Key::RightMeta,
        no_mods() == (Mods { shift: false, ctrl: false, alt: false, ralt: false, meta: false }),
{
}

/// The classes of a chord are those of its keys together: of one key its own, and of two parts
/// those of both.
pub proof fn law_a_chord_has_the_classes_of_its_keys(a: Seq<Key>, b: Seq<Key>, key: Key)
    ensures
        classes(Seq::empty()) == no_mods(),
        classes(seq![key]) == class_of(key),
        classes(a + b) == both(classes(a), classes(b)),
{
    let one = seq![key];
    assert(one[0] == key);
    assert forall|k: Key| one.contains(k) <==> k == key by {}
    lemma_key_in_both(a, b, Key::LeftShift);
    lemma_key_in_both(a, b, Key::RightShift);
    lemma_key_in_both(a, b, Key::LeftCtrl);
    lemma_key_in_both(a, b, Key::RightCtrl);
    lemma_key_in_both(a, b, Key::LeftAlt);
    lemma_key_in_both(a, b, Key::RightAlt);
    lemma_key_in_both(a, b, Key::LeftMeta);
    lemma_key_in_both(a, b, Key::RightMeta);
}

proof fn lemma_key_in_both(a: Seq<Key>, b: Seq<Key>, key: Key)
    ensures
        (a + b).contains(key) <==> a.contains(key) || b.contains(key),
{
    if a.contains(key) {
        let i = choose|i: int| 0 <= i < a.len() && a[i] == key;
        assert((a + b)[i] == key);
    }
    if b.contains(key) {
        let i = choose|i: int| 0 <= i < b.len() && b[i] == key;
        assert((a + b)[a.len() + i] == key);
    }
    if (a + b).contains(key) {
        let i = choose|i: int| 0 <= i < (a + b).len() && (a + b)[i] == key;
        if i < a.len() {
            assert(a[i] == key);
        } else {
            assert(b[i - a.len()] == key);
        }
    }
}

/// Sets of classes are sets: adding is in either order and adds nothing twice, each part is
/// covered by the whole, and one set covers another exactly where adding that one changes nothing.
pub proof fn law_classes_are_sets(a: Mods, b: Mods)
    ensures
        both(a, b) == both(b, a),
        both(a, a) == a,
        both(a, no_mods()) == a,
        both(a, b).covering(a),
        a.covering(b) <==> both(a, b) == a,
        a.covering(b) && b.covering(a) ==> a == b,
{
}

/// A press is undone by the release of the same input and by no other: presses and releases of
/// different inputs are different, and none is both.
pub proof fn law_a_press_and_its_release_belong_together(a: Holdable, b: Holdable, key: Key, button: Button)
    ensures
        Holdable::Key(key).pressed() == EmitAction::KeyDown(key),
        Holdable::Key(key).released() == EmitAction::KeyUp(key),
        Holdable::Button(button).pressed() == EmitAction::ButtonDown(button),
        Holdable::Button(button).released() == EmitAction::ButtonUp(button),
        a.pressed() == b.pressed() <==> a == b,
        a.released() == b.released() <==> a == b,
        a.pressed() != b.released(),
{
}

/// A release takes the last press of the input out of the ledger and leaves everything else where
/// it is; where the input is not in the ledger nothing changes.
pub proof fn law_a_release_takes_out_the_last_press(
    before: Seq<Holdable>,
    item: Holdable,
    after: Seq<Holdable>,
)
    requires
        !after.contains(item),
    ensures
        without_last(before.push(item) + after, item) == before + after,
        !before.contains(item) ==> without_last(before + after, item) == before + after,
    decreases after.len(),
{
    if after.len() == 0 {
        assert(before.push(item) + after =~= before.push(item));
        assert(before + after =~= before);
        assert(before.push(item).drop_last() =~= before);
        if !before.contains(item) {
            lemma_without_absent(before, item);
        }
    } else {
        let fewer = after.drop_last();
        let last = after.last();
        assert(after[after.len() - 1] == last);
        assert(last != item);
        assert forall|i: int| 0 <= i < fewer.len() implies fewer[i] != item by {
            assert(after[i] == fewer[i]);
        }
        law_a_release_takes_out_the_last_press(before, item, fewer);
        let list = before.push(item) + after;
        assert(list.drop_last() =~= before.push(item) + fewer);
        assert(list.last() == last);
        assert((before + fewer).push(last) =~= before + after);
        let plain = before + after;
        assert(plain.drop_last() =~= before + fewer);
        assert(plain.last() == last);
    }
}

proof fn lemma_without_absent(list: Seq<Holdable>, item: Holdable)
    requires
        !list.contains(item),
    ensures
        without_last(list, item) == list,
    decreases list.len(),
{
    if list.len() > 0 {
        assert(list[list.len() - 1] != item);
        let rest = list.drop_last();
        assert forall|i: int| 0 <= i < rest.len() implies rest[i] != item by {
            assert(list[i] == rest[i]);
        }
        lemma_without_absent(rest, item);
        assert(rest.push(list.last()) =~= list);
    }
}

} // verus!
