//! Which icon a file gets: one per extension, and one for folders.

use vstd::prelude::*;

use crate::text;
use crate::text::to_lower_char;

verus! {

/// The attribute of a folder.
pub const ATTRIBUTE_DIRECTORY: u32 = 0x10;

/// The attribute of a plain file.
pub const ATTRIBUTE_NORMAL: u32 = 0x80;

/// What follows the last dot of a name, ASCII letters lowered. None where there
/// is no dot.
pub open spec fn after_last_dot(name: Seq<char>) -> Option<Seq<char>>
    decreases name.len(),
{
    if name.len() == 0 {
        None
    } else if name.last() == '.' {
        Some(Seq::empty())
    } else {
        match after_last_dot(name.drop_last()) {
            Some(e) => Some(e.push(text::lower_char(name.last()))),
            None => None,
        }
    }
}

/// The extension of a name: what follows its last dot, nothing where there is no
/// dot.
pub open spec fn extension(name: Seq<char>) -> Seq<char> {
    match after_last_dot(name) {
        Some(e) => e,
        None => Seq::empty(),
    }
}

/// The extension of a name, ASCII letters lowered.
pub fn ext_of(name: &str) -> (r: String)
    ensures
        r@ == extension(name@),
{
    let mut ext = String::new();
    let mut dot: bool = false;
    let ghost mut seen: Seq<char> = Seq::empty();
    for c in it: name.chars()
        invariant
            it.seq() == name@,
            seen == name@.take(it.index() as int),
            it.index() == name@.len() ==> seen =~= name@,
            after_last_dot(seen) == (if dot {
                Some(ext@)
            } else {
                None
            }),
            !dot ==> ext@ == Seq::<char>::empty(),
    {
        proof {
            assert(seen.push(c).drop_last() =~= seen);
            seen = seen.push(c);
        }
        if c == '.' {
            ext = String::new();
            dot = true;
        } else if dot {
            ext.push(to_lower_char(c));
        }
    }
    ext
}

/// What the icon of an entry is kept under.
pub open spec fn key_of(name: Seq<char>, is_dir: bool) -> Seq<char> {
    if is_dir {
        "\u{1}dir"@
    } else if extension(name).len() == 0 {
        "\u{1}none"@
    } else {
        extension(name)
    }
}

/// The name by which the system is asked for the icon of an entry.
pub open spec fn sample_of(name: Seq<char>, is_dir: bool) -> Seq<char> {
    if is_dir {
        "folder"@
    } else if extension(name).len() == 0 {
        "file"@
    } else {
        "a."@ + extension(name)
    }
}

/// What the icon of an entry is kept under.
pub fn icon_key(name: &str, is_dir: bool) -> (r: String)
    ensures
        r@ == key_of(name@, is_dir),
{
    if is_dir {
        return "\u{1}dir".to_owned();
    }
    let e = ext_of(name);
    if e.as_str().is_empty() {
        "\u{1}none".to_owned()
    } else {
        e
    }
}

/// What the system is asked for to get the icon of an entry: attributes and a
/// name.
pub fn icon_sample(name: &str, is_dir: bool) -> (r: (u32, String))
    ensures
        r.0 == (if is_dir {
            ATTRIBUTE_DIRECTORY
        } else {
            ATTRIBUTE_NORMAL
        }),
        r.1@ == sample_of(name@, is_dir),
{
    if is_dir {
        return (ATTRIBUTE_DIRECTORY, "folder".to_owned());
    }
    let e = ext_of(name);
    if e.as_str().is_empty() {
        (ATTRIBUTE_NORMAL, "file".to_owned())
    } else {
        let mut s = "a.".to_owned();
        text::push_text(&mut s, e.as_str());
        (ATTRIBUTE_NORMAL, s)
    }
}

/// Entries whose icons are kept under the same key have the same icon: the
/// system is asked for the same. The extensions that begin with the character
/// that marks the two reserved keys are left out.
pub proof fn law_key_fixes_icon(a: Seq<char>, a_dir: bool, b: Seq<char>, b_dir: bool)
    requires
        key_of(a, a_dir) == key_of(b, b_dir),
        extension(a).len() > 0 ==> extension(a)[0] != '\u{1}',
        extension(b).len() > 0 ==> extension(b)[0] != '\u{1}',
    ensures
        a_dir == b_dir,
        sample_of(a, a_dir) == sample_of(b, b_dir),
{
    reveal_strlit("\u{1}dir");
    reveal_strlit("\u{1}none");
    assert("\u{1}dir"@[0] == '\u{1}');
    assert("\u{1}none"@[0] == '\u{1}');
    assert("\u{1}dir"@.len() != "\u{1}none"@.len());
}

/// The extension is what follows the last dot, ASCII letters lowered, and a name
/// without a dot has none. It decides on the icon of a file; a folder has the icon of
/// folders whatever its name.
pub proof fn law_icon_goes_by_the_extension(stem: Seq<char>, e: Seq<char>)
    requires
        forall|i: int| 0 <= i < e.len() ==> #[trigger] e[i] != '.',
    ensures
        extension(stem + seq!['.'] + e) == Seq::new(e.len(), |i: int| text::lower_char(e[i])),
        extension(e) == Seq::<char>::empty(),
        e.len() > 0 ==> key_of(stem + seq!['.'] + e, false) == Seq::new(
            e.len(),
            |i: int| text::lower_char(e[i]),
        ) && sample_of(stem + seq!['.'] + e, false) == "a."@ + Seq::new(
            e.len(),
            |i: int| text::lower_char(e[i]),
        ),
        key_of(e, false) == "\u{1}none"@ && sample_of(e, false) == "file"@,
        key_of(stem, true) == "\u{1}dir"@ && sample_of(stem, true) == "folder"@,
{
    lemma_after_dot(stem, e);
    lemma_no_dot(e);
}

proof fn lemma_after_dot(stem: Seq<char>, e: Seq<char>)
    requires
        forall|i: int| 0 <= i < e.len() ==> #[trigger] e[i] != '.',
    ensures
        after_last_dot(stem + seq!['.'] + e) == Some(
            Seq::new(e.len(), |i: int| text::lower_char(e[i])),
        ),
    decreases e.len(),
{
    let all = stem + seq!['.'] + e;
    let low = Seq::new(e.len(), |i: int| text::lower_char(e[i]));
    if e.len() == 0 {
        assert(all.last() == '.');
        assert(low =~= Seq::empty());
    } else {
        let most = e.drop_last();
        assert(e[e.len() - 1] != '.');
        assert forall|i: int| 0 <= i < most.len() implies #[trigger] most[i] != '.' by {
            assert(e[i] != '.');
        }
        lemma_after_dot(stem, most);
        assert(all.drop_last() =~= stem + seq!['.'] + most);
        assert(all.last() == e.last());
        assert(Seq::new(most.len(), |i: int| text::lower_char(most[i])).push(
            text::lower_char(e.last()),
        ) =~= low);
    }
}

proof fn lemma_no_dot(e: Seq<char>)
    requires
        forall|i: int| 0 <= i < e.len() ==> #[trigger] e[i] != '.',
    ensures
        after_last_dot(e) is None,
    decreases e.len(),
{
    if e.len() > 0 {
        let most = e.drop_last();
        assert(e[e.len() - 1] != '.');
        assert forall|i: int| 0 <= i < most.len() implies #[trigger] most[i] != '.' by {
            assert(e[i] != '.');
        }
        lemma_no_dot(most);
    }
}

} // verus!
