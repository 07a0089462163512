//! File dialogs: how they are told from other windows, where the name of the
//! file is typed in them, and how they are led to a folder.

use vstd::prelude::*;

use crate::config;
use crate::config::same_path;
use crate::text;
use crate::text::{contains_text, eq_str, trim};
use crate::wide;

verus! {

/// What `str::to_lowercase` makes of a text.
pub uninterp spec fn lowercase(s: Seq<char>) -> Seq<char>;

/// `str::to_lowercase` of the standard library: the text in small letters, as
/// Unicode has them. Its result goes by the name [`lowercase`].
#[verifier::external_body]
fn to_lowercase(s: &str) -> (r: String)
    ensures
        r@ == lowercase(s@),
{
    s.to_lowercase()
}

/// The control type of a field to type in.
pub const CT_EDIT: i32 = 50004;

/// The message that types a character.
pub const WM_CHAR: u32 = 0x0102;

/// The message that a key was pressed.
pub const WM_KEYDOWN: u32 = 0x0100;

/// The message that a key was released.
pub const WM_KEYUP: u32 = 0x0101;

/// The key `Enter`.
pub const VK_RETURN: u16 = 0x0D;

/// Whether a window's class is one of those that only file dialogs have within.
pub open spec fn dialog_part(class: Seq<char>) -> bool {
    class == "ComboBoxEx32"@ || class == "DUIViewWndClassName"@
}

/// Whether a window is a file dialog, by its class and those of the windows in
/// it.
pub fn is_file_dialog(class: &str, children: &[String]) -> (r: bool)
    ensures
        r == (class@ == "#32770"@ && exists|i: int|
            0 <= i < children@.len() && dialog_part((#[trigger] children@[i])@)),
{
    if !eq_str(class, "#32770") {
        return false;
    }
    let mut i: usize = 0;
    while i < children.len()
        invariant
            i <= children@.len(),
            class@ == "#32770"@,
            forall|k: int| 0 <= k < i ==> !dialog_part((#[trigger] children@[k])@),
        decreases children@.len() - i,
    {
        if eq_str(children[i].as_str(), "ComboBoxEx32") || eq_str(
            children[i].as_str(),
            "DUIViewWndClassName",
        ) {
            assert(dialog_part(children@[i as int]@));
            return true;
        }
        i += 1;
    }
    false
}

/// An element of a dialog: its control type, whether it is a window of its own,
/// its name, and the number by which it is known to automation.
#[derive(Debug, Clone)]
pub struct Element {
    pub control_type: i32,
    pub has_window: bool,
    pub name: String,
    pub automation_id: String,
}

/// Whether an element is a field to type in with a window of its own.
pub open spec fn is_field(e: Element) -> bool {
    e.control_type == CT_EDIT && e.has_window
}

/// Whether a name in small letters is that of the field for the file name.
pub open spec fn names_file(lower: Seq<char>) -> bool {
    text::contains(lower, "文件名"@) || text::contains(lower, "file name"@)
}

/// Whether a number is that of the field for the file name.
pub open spec fn numbers_file(id: Seq<char>) -> bool {
    id == "1001"@ || id == "1148"@
}

/// The first field from `i` on with a name that fits, the names given in small
/// letters.
pub open spec fn first_by_name(es: Seq<Element>, lower: Seq<Seq<char>>, i: int) -> Option<int>
    decreases es.len() - i,
{
    if i >= es.len() {
        None
    } else if is_field(es[i]) && names_file(lower[i]) {
        Some(i)
    } else {
        first_by_name(es, lower, i + 1)
    }
}

/// The first field from `i` on with a number that fits.
pub open spec fn first_by_id(es: Seq<Element>, i: int) -> Option<int>
    decreases es.len() - i,
{
    if i >= es.len() {
        None
    } else if is_field(es[i]) && numbers_file(es[i].automation_id@) {
        Some(i)
    } else {
        first_by_id(es, i + 1)
    }
}

/// The first field from `i` on.
pub open spec fn first_field(es: Seq<Element>, i: int) -> Option<int>
    decreases es.len() - i,
{
    if i >= es.len() {
        None
    } else if is_field(es[i]) {
        Some(i)
    } else {
        first_field(es, i + 1)
    }
}

/// The field for the file name: the first that is named so, else the first that
/// is numbered so, else the first there is.
pub open spec fn filename_field(es: Seq<Element>, lower: Seq<Seq<char>>) -> Option<int> {
    if first_by_name(es, lower, 0) is Some {
        first_by_name(es, lower, 0)
    } else if first_by_id(es, 0) is Some {
        first_by_id(es, 0)
    } else {
        first_field(es, 0)
    }
}

/// The place of something that may be there.
pub open spec fn place_of(r: Option<usize>) -> Option<int> {
    match r {
        Some(i) => Some(i as int),
        None => None,
    }
}

/// The field for the file name, with the names of the elements given in small
/// letters.
pub fn pick_edit(es: &[Element], lower: &[String]) -> (r: Option<usize>)
    requires
        lower@.len() == es@.len(),
    ensures
        place_of(r) == filename_field(es@, text::string_views(lower@)),
{
    let ghost names = text::string_views(lower@);
    let mut by_id: Option<usize> = None;
    let mut first: Option<usize> = None;
    let mut i: usize = 0;
    while i < es.len()
        invariant
            i <= es@.len(),
            names == text::string_views(lower@),
            lower@.len() == es@.len(),
            first_by_name(es@, names, 0) == first_by_name(es@, names, i as int),
            by_id is Some ==> place_of(by_id) == first_by_id(es@, 0),
            by_id is None ==> first_by_id(es@, 0) == first_by_id(es@, i as int),
            first is Some ==> place_of(first) == first_field(es@, 0),
            first is None ==> first_field(es@, 0) == first_field(es@, i as int),
        decreases es@.len() - i,
    {
        let e = &es[i];
        if e.control_type == CT_EDIT && e.has_window {
            assert(names[i as int] == lower@[i as int]@);
            if contains_text(lower[i].as_str(), "文件名") || contains_text(
                lower[i].as_str(),
                "file name",
            ) {
                return Some(i);
            }
            if by_id.is_none() && (eq_str(e.automation_id.as_str(), "1001") || eq_str(
                e.automation_id.as_str(),
                "1148",
            )) {
                by_id = Some(i);
            }
            if first.is_none() {
                first = Some(i);
            }
        }
        i += 1;
    }
    if by_id.is_some() {
        by_id
    } else {
        first
    }
}

/// The names of the elements in small letters.
pub open spec fn lower_names(es: Seq<Element>) -> Seq<Seq<char>> {
    Seq::new(es.len(), |i: int| lowercase(es[i].name@))
}

/// The field for the file name.
pub fn find_filename_edit(es: &[Element]) -> (r: Option<usize>)
    ensures
        place_of(r) == filename_field(es@, lower_names(es@)),
{
    let mut lower: Vec<String> = Vec::new();
    let mut i: usize = 0;
    while i < es.len()
        invariant
            i <= es@.len(),
            lower@.len() == i,
            forall|k: int| 0 <= k < i ==> (#[trigger] lower@[k])@ == lowercase(es@[k].name@),
        decreases es@.len() - i,
    {
        lower.push(to_lowercase(es[i].name.as_str()));
        i += 1;
    }
    assert(text::string_views(lower@) =~= lower_names(es@));
    pick_edit(es, lower.as_slice())
}

/// The units that a window wrote of its text into a buffer, as many as it says,
/// but no more than the buffer holds.
pub fn text_of_reply(buf: &[u16], n: usize) -> (r: String)
    ensures
        r@ == wide::decoded(
            buf@.take(if n < buf@.len() {
                n as int
            } else {
                buf@.len() as int
            }),
        ),
{
    let m: usize = if n < buf.len() {
        n
    } else {
        buf.len()
    };
    let part = vstd::slice::slice_subrange(buf, 0, m);
    assert(part@ =~= buf@.take(m as int));
    wide::decode_lossy(part)
}

/// A message to a window: what it is, and the number that comes with it.
#[derive(Debug, Clone, Copy, PartialEq, Eq, Structural)]
pub struct KeyMessage {
    pub message: u32,
    pub param: u16,
}

/// The messages that type a path and then `Enter`.
pub open spec fn typed_messages(path: Seq<char>) -> Seq<KeyMessage> {
    let units = wide::encoded(path);
    Seq::new(units.len(), |i: int| KeyMessage { message: WM_CHAR, param: units[i] }) + seq![
        KeyMessage { message: WM_KEYDOWN, param: VK_RETURN },
        KeyMessage { message: WM_KEYUP, param: VK_RETURN },
    ]
}

/// What leads a dialog to a folder once all that stands in the field is
/// selected: the path is typed over it, and `Enter` pressed. Where that could
/// not be selected nothing is typed: the path would end up within the name of
/// the file.
pub fn navigation_keys(path: &str, selected: bool) -> (r: Option<Vec<KeyMessage>>)
    ensures
        match r {
            Some(v) => selected && v@ == typed_messages(path@),
            None => !selected,
        },
{
    if !selected {
        return None;
    }
    let units: Vec<u16> = wide::encode(path);
    let mut out: Vec<KeyMessage> = Vec::new();
    let mut i: usize = 0;
    while i < units.len()
        invariant
            i <= units@.len(),
            out@.len() == i,
            forall|k: int|
                0 <= k < i ==> #[trigger] out@[k] == (KeyMessage {
                    message: WM_CHAR,
                    param: units@[k],
                }),
        decreases units@.len() - i,
    {
        out.push(KeyMessage { message: WM_CHAR, param: units[i] });
        i += 1;
    }
    out.push(KeyMessage { message: WM_KEYDOWN, param: VK_RETURN });
    out.push(KeyMessage { message: WM_KEYUP, param: VK_RETURN });
    assert(out@ =~= typed_messages(path@));
    Some(out)
}

/// The text to put back into the field after the dialog was led to a folder, with
/// a zero at its end: the one that stood there. None where nothing stood there,
/// or where it could not be read, and then the dialog is not to be led anywhere.
pub fn text_to_restore(original: Option<&str>) -> (r: (bool, Option<Vec<u16>>))
    ensures
        r.0 == (original is Some),
        match original {
            Some(t) => if t@.len() == 0 {
                r.1 is None
            } else {
                r.1 matches Some(u) && u@ == wide::encoded(t@).push(0)
            },
            None => r.1 is None,
        },
{
    match original {
        None => (false, None),
        Some(t) => if t.is_empty() {
            (true, None)
        } else {
            (true, Some(wide::wide(t)))
        },
    }
}

/// Whether the field still holds what was typed into it, or nothing, white space
/// aside: otherwise its user went on typing.
pub open spec fn still_ours(current: Seq<char>, typed: Seq<char>) -> bool {
    text::trimmed(current).len() == 0 || config::same(text::trimmed(current), typed)
}

/// Whether the text of the field may be put back: the window is still there and
/// still a field, what it holds could be read, and it is not what its user went
/// on to type.
pub fn may_restore(alive: bool, class: &str, current: Option<&str>, typed: &str) -> (r: bool)
    ensures
        r == (alive && class@ == "Edit"@ && (current matches Some(c) && still_ours(c@, typed@))),
{
    if !alive || !eq_str(class, "Edit") {
        return false;
    }
    match current {
        None => false,
        Some(c) => {
            let t = trim(c);
            t.as_str().is_empty() || same_path(t.as_str(), typed)
        },
    }
}

proof fn lemma_fields(es: Seq<Element>, lower: Seq<Seq<char>>, i: int, k: int)
    requires
        0 <= i,
    ensures
        match first_by_name(es, lower, i) {
            Some(n) => i <= n < es.len() && is_field(es[n]) && names_file(lower[n]) && (i <= k < n
                ==> !(is_field(es[k]) && names_file(lower[k]))),
            None => i <= k < es.len() ==> !(is_field(es[k]) && names_file(lower[k])),
        },
        match first_by_id(es, i) {
            Some(n) => i <= n < es.len() && is_field(es[n]) && numbers_file(es[n].automation_id@)
                && (i <= k < n ==> !(is_field(es[k]) && numbers_file(es[k].automation_id@))),
            None => i <= k < es.len() ==> !(is_field(es[k]) && numbers_file(es[k].automation_id@)),
        },
        match first_field(es, i) {
            Some(n) => i <= n < es.len() && is_field(es[n]) && (i <= k < n ==> !is_field(es[k])),
            None => i <= k < es.len() ==> !is_field(es[k]),
        },
    decreases es.len() - i,
{
    if i < es.len() {
        lemma_fields(es, lower, i + 1, k);
    }
}

/// The field for the file name is a field to type in with a window of its own. It is
/// the first that is named as one where there is such a field, else the first that
/// has the number of one, else the first at all, and there is none only where there
/// is no such field.
pub proof fn law_file_name_is_typed_into_a_field(
    es: Seq<Element>,
    lower: Seq<Seq<char>>,
    k: int,
)
    requires
        0 <= k < es.len(),
    ensures
        ({
            let field = |i: int| es[i].control_type == 50004 && es[i].has_window;
            let named = |i: int|
                text::contains(lower[i], "文件名"@) || text::contains(lower[i], "file name"@);
            let numbered = |i: int|
                es[i].automation_id@ == "1001"@ || es[i].automation_id@ == "1148"@;
            match filename_field(es, lower) {
                None => !field(k),
                Some(n) => {
                    &&& 0 <= n < es.len() && field(n)
                    &&& field(k) && named(k) ==> named(n) && n <= k
                    &&& !named(n) && field(k) && numbered(k) ==> numbered(n) && n <= k
                    &&& !named(n) && !numbered(n) && field(k) ==> n <= k
                },
            }
        }),
{
    lemma_fields(es, lower, 0, k);
}

/// A path is typed unit by unit, and Enter is pressed and released behind it.
pub proof fn law_path_is_typed(path: Seq<char>, i: int)
    ensures
        typed_messages(path).len() == wide::encoded(path).len() + 2,
        0 <= i < wide::encoded(path).len() ==> typed_messages(path)[i] == (KeyMessage {
            message: 0x0102,
            param: wide::encoded(path)[i],
        }),
        typed_messages(path)[wide::encoded(path).len() as int] == (KeyMessage {
            message: 0x0100,
            param: 0x0D,
        }),
        typed_messages(path).last() == (KeyMessage { message: 0x0101, param: 0x0D }),
{
}

/// A field is still as it was left where nothing but white space stands in it, or
/// the path that was typed, and not where anything else does.
pub proof fn law_field_is_left_alone(lead: Seq<char>, s: Seq<char>, tail: Seq<char>, typed: Seq<char>)
    requires
        forall|i: int| 0 <= i < lead.len() ==> text::is_space(#[trigger] lead[i]),
        forall|i: int| 0 <= i < tail.len() ==> text::is_space(#[trigger] tail[i]),
        s.len() > 0,
        !text::is_space(s[0]),
        !text::is_space(s.last()),
    ensures
        still_ours(lead, typed),
        still_ours(lead + s + tail, typed) <==> config::same(s, typed),
{
    text::law_trimming_takes_white_space_only(lead, s, tail);
}

/// What a file dialog is told by: the list that holds the name of the file in old
/// dialogs, or the view of the folder in new ones.
pub proof fn law_parts_that_tell_a_dialog(class: Seq<char>)
    ensures
        dialog_part("ComboBoxEx32"@),
        dialog_part("DUIViewWndClassName"@),
        class != "ComboBoxEx32"@ && class != "DUIViewWndClassName"@ ==> !dialog_part(class),
{
}

} // verus!
