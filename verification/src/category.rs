//! File categories, told apart by the extension of the name.

use vstd::prelude::*;

use crate::ascii;
use crate::ascii::{eq_bytes, to_lower_all};

verus! {

/// The category of a file or folder, and the filter of a search.
#[derive(Debug, Clone, Copy, PartialEq, Eq, Structural)]
pub enum Category {
    All,
    Folder,
    Document,
    Image,
    Video,
    Audio,
    Other,
}

/// Whether the bytes `e` are the text `t` in UTF-8.
pub open spec fn spells(e: Seq<u8>, t: Seq<char>) -> bool {
    e == vstd::utf8::encode_utf8(t)
}

/// The extensions of documents.
pub open spec fn document_ext(e: Seq<u8>) -> bool {
    ||| spells(e, "txt"@)
    ||| spells(e, "md"@)
    ||| spells(e, "pdf"@)
    ||| spells(e, "doc"@)
    ||| spells(e, "docx"@)
    ||| spells(e, "rtf"@)
    ||| spells(e, "odt"@)
    ||| spells(e, "xls"@)
    ||| spells(e, "xlsx"@)
    ||| spells(e, "csv"@)
    ||| spells(e, "ppt"@)
    ||| spells(e, "pptx"@)
    ||| spells(e, "ods"@)
    ||| spells(e, "odp"@)
    ||| spells(e, "wps"@)
    ||| spells(e, "et"@)
    ||| spells(e, "dps"@)
}

/// The extensions of images.
pub open spec fn image_ext(e: Seq<u8>) -> bool {
    ||| spells(e, "jpg"@)
    ||| spells(e, "jpeg"@)
    ||| spells(e, "png"@)
    ||| spells(e, "gif"@)
    ||| spells(e, "bmp"@)
    ||| spells(e, "webp"@)
    ||| spells(e, "tif"@)
    ||| spells(e, "tiff"@)
    ||| spells(e, "svg"@)
    ||| spells(e, "ico"@)
    ||| spells(e, "heic"@)
    ||| spells(e, "raw"@)
    ||| spells(e, "psd"@)
}

/// The extensions of videos.
pub open spec fn video_ext(e: Seq<u8>) -> bool {
    ||| spells(e, "mp4"@)
    ||| spells(e, "mkv"@)
    ||| spells(e, "avi"@)
    ||| spells(e, "mov"@)
    ||| spells(e, "wmv"@)
    ||| spells(e, "flv"@)
    ||| spells(e, "webm"@)
    ||| spells(e, "m4v"@)
    ||| spells(e, "mpg"@)
    ||| spells(e, "mpeg"@)
    ||| spells(e, "ts"@)
    ||| spells(e, "3gp"@)
    ||| spells(e, "rmvb"@)
}

/// The extensions of sound files.
pub open spec fn audio_ext(e: Seq<u8>) -> bool {
    ||| spells(e, "mp3"@)
    ||| spells(e, "wav"@)
    ||| spells(e, "flac"@)
    ||| spells(e, "aac"@)
    ||| spells(e, "ogg"@)
    ||| spells(e, "m4a"@)
    ||| spells(e, "wma"@)
    ||| spells(e, "opus"@)
    ||| spells(e, "aiff"@)
}

/// The position of the last dot of `name`, or -1 where it has none.
pub open spec fn last_dot(name: Seq<u8>) -> int
    decreases name.len(),
{
    if name.len() == 0 {
        -1
    } else if name.last() == 46 {
        name.len() - 1
    } else {
        last_dot(name.drop_last())
    }
}

/// What follows the last dot of `name`, lowered; empty where there is no dot.
pub open spec fn extension(name: Seq<u8>) -> Seq<u8> {
    if last_dot(name) >= 0 {
        ascii::lower_all(name.skip(last_dot(name) + 1))
    } else {
        Seq::empty()
    }
}

/// The category of the entry `name`.
pub open spec fn category_of(name: Seq<u8>, is_dir: bool) -> Category {
    let e = extension(name);
    if is_dir {
        Category::Folder
    } else if document_ext(e) {
        Category::Document
    } else if image_ext(e) {
        Category::Image
    } else if video_ext(e) {
        Category::Video
    } else if audio_ext(e) {
        Category::Audio
    } else {
        Category::Other
    }
}

/// Whether the filter lets the entry `name` through.
pub open spec fn passes(filter: Category, name: Seq<u8>, is_dir: bool) -> bool {
    filter == Category::All || category_of(name, is_dir) == filter
}

proof fn lemma_last_dot(name: Seq<u8>)
    ensures
        -1 <= last_dot(name) < name.len(),
        last_dot(name) >= 0 ==> name[last_dot(name)] == 46,
        forall|j: int| last_dot(name) < j < name.len() ==> name[j] != 46,
    decreases name.len(),
{
    if name.len() > 0 && name.last() != 46 {
        lemma_last_dot(name.drop_last());
        assert forall|j: int| last_dot(name) < j < name.len() implies name[j] != 46 by {
            if j < name.len() - 1 {
                assert(name.drop_last()[j] != 46);
            }
        }
    }
}

/// The lowered extension of `name`, without the dot; empty where there is none.
pub fn ext_lower(name: &[u8]) -> (r: Vec<u8>)
    ensures
        r@ == extension(name@),
{
    let mut n: usize = name.len();
    assert(name@.take(n as int) =~= name@);
    while n > 0
        invariant
            n <= name.len(),
            last_dot(name@.take(n as int)) == last_dot(name@),
        decreases n,
    {
        assert(name@.take(n as int).drop_last() =~= name@.take(n - 1));
        if name[n - 1] == 46 {
            let tail: &[u8] = vstd::slice::slice_subrange(name, n, name.len());
            assert(tail@ =~= name@.skip(last_dot(name@) + 1));
            return to_lower_all(tail);
        }
        n -= 1;
    }
    Vec::new()
}

fn is_document(e: &[u8]) -> (r: bool)
    ensures
        r == document_ext(e@),
{
    eq_bytes(e, "txt".as_bytes())
        || eq_bytes(e, "md".as_bytes())
        || eq_bytes(e, "pdf".as_bytes())
        || eq_bytes(e, "doc".as_bytes())
        || eq_bytes(e, "docx".as_bytes())
        || eq_bytes(e, "rtf".as_bytes())
        || eq_bytes(e, "odt".as_bytes())
        || eq_bytes(e, "xls".as_bytes())
        || eq_bytes(e, "xlsx".as_bytes())
        || eq_bytes(e, "csv".as_bytes())
        || eq_bytes(e, "ppt".as_bytes())
        || eq_bytes(e, "pptx".as_bytes())
        || eq_bytes(e, "ods".as_bytes())
        || eq_bytes(e, "odp".as_bytes())
        || eq_bytes(e, "wps".as_bytes())
        || eq_bytes(e, "et".as_bytes())
        || eq_bytes(e, "dps".as_bytes())
}

fn is_image(e: &[u8]) -> (r: bool)
    ensures
        r == image_ext(e@),
{
    eq_bytes(e, "jpg".as_bytes())
        || eq_bytes(e, "jpeg".as_bytes())
        || eq_bytes(e, "png".as_bytes())
        || eq_bytes(e, "gif".as_bytes())
        || eq_bytes(e, "bmp".as_bytes())
        || eq_bytes(e, "webp".as_bytes())
        || eq_bytes(e, "tif".as_bytes())
        || eq_bytes(e, "tiff".as_bytes())
        || eq_bytes(e, "svg".as_bytes())
        || eq_bytes(e, "ico".as_bytes())
        || eq_bytes(e, "heic".as_bytes())
        || eq_bytes(e, "raw".as_bytes())
        || eq_bytes(e, "psd".as_bytes())
}

fn is_video(e: &[u8]) -> (r: bool)
    ensures
        r == video_ext(e@),
{
    eq_bytes(e, "mp4".as_bytes())
        || eq_bytes(e, "mkv".as_bytes())
        || eq_bytes(e, "avi".as_bytes())
        || eq_bytes(e, "mov".as_bytes())
        || eq_bytes(e, "wmv".as_bytes())
        || eq_bytes(e, "flv".as_bytes())
        || eq_bytes(e, "webm".as_bytes())
        || eq_bytes(e, "m4v".as_bytes())
        || eq_bytes(e, "mpg".as_bytes())
        || eq_bytes(e, "mpeg".as_bytes())
        || eq_bytes(e, "ts".as_bytes())
        || eq_bytes(e, "3gp".as_bytes())
        || eq_bytes(e, "rmvb".as_bytes())
}

fn is_audio(e: &[u8]) -> (r: bool)
    ensures
        r == audio_ext(e@),
{
    eq_bytes(e, "mp3".as_bytes())
        || eq_bytes(e, "wav".as_bytes())
        || eq_bytes(e, "flac".as_bytes())
        || eq_bytes(e, "aac".as_bytes())
        || eq_bytes(e, "ogg".as_bytes())
        || eq_bytes(e, "m4a".as_bytes())
        || eq_bytes(e, "wma".as_bytes())
        || eq_bytes(e, "opus".as_bytes())
        || eq_bytes(e, "aiff".as_bytes())
}

proof fn lemma_no_empty_ext()
    ensures
        !document_ext(Seq::empty()),
        !image_ext(Seq::empty()),
        !video_ext(Seq::empty()),
        !audio_ext(Seq::empty()),
{
    assert forall|t: Seq<char>| #[trigger] spells(Seq::empty(), t) implies t.len() == 0 by {
        vstd::utf8::encode_utf8_decode_utf8(t);
        vstd::utf8::encode_utf8_decode_utf8(Seq::empty());
    }
    reveal_strlit("txt");
    reveal_strlit("md");
    reveal_strlit("pdf");
    reveal_strlit("doc");
    reveal_strlit("docx");
    reveal_strlit("rtf");
    reveal_strlit("odt");
    reveal_strlit("xls");
    reveal_strlit("xlsx");
    reveal_strlit("csv");
    reveal_strlit("ppt");
    reveal_strlit("pptx");
    reveal_strlit("ods");
    reveal_strlit("odp");
    reveal_strlit("wps");
    reveal_strlit("et");
    reveal_strlit("dps");
    reveal_strlit("jpg");
    reveal_strlit("jpeg");
    reveal_strlit("png");
    reveal_strlit("gif");
    reveal_strlit("bmp");
    reveal_strlit("webp");
    reveal_strlit("tif");
    reveal_strlit("tiff");
    reveal_strlit("svg");
    reveal_strlit("ico");
    reveal_strlit("heic");
    reveal_strlit("raw");
    reveal_strlit("psd");
    reveal_strlit("mp4");
    reveal_strlit("mkv");
    reveal_strlit("avi");
    reveal_strlit("mov");
    reveal_strlit("wmv");
    reveal_strlit("flv");
    reveal_strlit("webm");
    reveal_strlit("m4v");
    reveal_strlit("mpg");
    reveal_strlit("mpeg");
    reveal_strlit("ts");
    reveal_strlit("3gp");
    reveal_strlit("rmvb");
    reveal_strlit("mp3");
    reveal_strlit("wav");
    reveal_strlit("flac");
    reveal_strlit("aac");
    reveal_strlit("ogg");
    reveal_strlit("m4a");
    reveal_strlit("wma");
    reveal_strlit("opus");
    reveal_strlit("aiff");
}

/// The category of the entry `name`; a folder is a folder whatever its name.
pub fn classify(name: &[u8], is_dir: bool) -> (r: Category)
    ensures
        r == category_of(name@, is_dir),
{
    if is_dir {
        return Category::Folder;
    }
    let ext: Vec<u8> = ext_lower(name);
    if ext.len() == 0 {
        proof {
            assert(ext@ =~= Seq::empty());
            lemma_no_empty_ext();
        }
        return Category::Other;
    }
    let e: &[u8] = ext.as_slice();
    if is_document(e) {
        Category::Document
    } else if is_image(e) {
        Category::Image
    } else if is_video(e) {
        Category::Video
    } else if is_audio(e) {
        Category::Audio
    } else {
        Category::Other
    }
}

/// Whether the filter lets the entry `name` through.
pub fn matches(filter: Category, name: &[u8], is_dir: bool) -> (r: bool)
    ensures
        r == passes(filter, name@, is_dir),
{
    match filter {
        Category::All => true,
        Category::Folder => is_dir,
        other => !is_dir && classify(name, is_dir) == other,
    }
}

/// Every entry passes the filter of exactly one category besides `All`, which
/// it passes too.
pub proof fn law_filters_partition(name: Seq<u8>, is_dir: bool)
    ensures
        passes(Category::All, name, is_dir),
        exists|c: Category| c != Category::All && #[trigger] passes(c, name, is_dir),
        forall|c: Category, d: Category|
            c != Category::All && d != Category::All && #[trigger] passes(c, name, is_dir)
                && #[trigger] passes(d, name, is_dir) ==> c == d,
        passes(Category::Folder, name, is_dir) == is_dir,
{
    assert(passes(category_of(name, is_dir), name, is_dir));
}

/// The category does not depend on the case of the name.
pub proof fn law_category_ignores_case(a: Seq<u8>, b: Seq<u8>, is_dir: bool)
    requires
        ascii::lower_all(a) == ascii::lower_all(b),
    ensures
        category_of(a, is_dir) == category_of(b, is_dir),
{
    ascii::lemma_fold_eq(a, b);
    lemma_last_dot(a);
    lemma_last_dot(b);
    let i = last_dot(a);
    let j = last_dot(b);
    assert(ascii::lower(46) == 46);
    if i > j {
        assert(ascii::lower(b[i]) == 46);
    } else if j > i {
        assert(ascii::lower(a[j]) == 46);
    }
    if i >= 0 {
        let x = a.skip(i + 1);
        let y = b.skip(i + 1);
        assert forall|k: int| 0 <= k < x.len() implies ascii::lower(x[k]) == ascii::lower(
            y[k],
        ) by {
            assert(ascii::lower(a[i + 1 + k]) == ascii::lower(b[i + 1 + k]));
        }
        assert(ascii::lower_all(x) =~= ascii::lower_all(y));
    }
}

proof fn lemma_spells(t: Seq<char>, b: Seq<u8>)
    requires
        t.len() == b.len(),
        forall|i: int|
            0 <= i < t.len() ==> '\0' <= #[trigger] t[i] <= '\u{7f}' && t[i] as u8 == b[i],
    ensures
        forall|e: Seq<u8>| #[trigger] spells(e, t) <==> e == b,
{
    vstd::utf8::is_ascii_chars_encode_utf8(t);
    assert(vstd::utf8::encode_utf8(t) =~= b) by {
        assert forall|i: int| 0 <= i < b.len() implies vstd::utf8::encode_utf8(t)[i] == b[i] by {
            assert(t[i] as u8 == b[i]);
        }
    }
}

proof fn lemma_extension_of(stem: Seq<u8>, e: Seq<u8>)
    requires
        forall|i: int| 0 <= i < e.len() ==> #[trigger] e[i] != 46,
    ensures
        extension(stem + seq![46u8] + e) == ascii::lower_all(e),
{
    let name = stem + seq![46u8] + e;
    lemma_last_dot(name);
    let n = stem.len() as int;
    assert(name[n] == 46);
    if last_dot(name) > n {
        let k = last_dot(name) - n - 1;
        assert(name[last_dot(name)] == e[k]);
    }
    assert(last_dot(name) == n);
    assert(name.skip(n + 1) =~= e);
}

proof fn lemma_documents(e: Seq<u8>)
    ensures
        document_ext(e) <==> {
            ||| e == seq![116u8, 120, 116]
            ||| e == seq![109u8, 100]
            ||| e == seq![112u8, 100, 102]
            ||| e == seq![100u8, 111, 99]
            ||| e == seq![100u8, 111, 99, 120]
            ||| e == seq![114u8, 116, 102]
            ||| e == seq![111u8, 100, 116]
            ||| e == seq![120u8, 108, 115]
            ||| e == seq![120u8, 108, 115, 120]
            ||| e == seq![99u8, 115, 118]
            ||| e == seq![112u8, 112, 116]
            ||| e == seq![112u8, 112, 116, 120]
            ||| e == seq![111u8, 100, 115]
            ||| e == seq![111u8, 100, 112]
            ||| e == seq![119u8, 112, 115]
            ||| e == seq![101u8, 116]
            ||| e == seq![100u8, 112, 115]
        },
{
    reveal_strlit("txt");
    lemma_spells("txt"@, seq![116u8, 120, 116]);
    reveal_strlit("md");
    lemma_spells("md"@, seq![109u8, 100]);
    reveal_strlit("pdf");
    lemma_spells("pdf"@, seq![112u8, 100, 102]);
    reveal_strlit("doc");
    lemma_spells("doc"@, seq![100u8, 111, 99]);
    reveal_strlit("docx");
    lemma_spells("docx"@, seq![100u8, 111, 99, 120]);
    reveal_strlit("rtf");
    lemma_spells("rtf"@, seq![114u8, 116, 102]);
    reveal_strlit("odt");
    lemma_spells("odt"@, seq![111u8, 100, 116]);
    reveal_strlit("xls");
    lemma_spells("xls"@, seq![120u8, 108, 115]);
    reveal_strlit("xlsx");
    lemma_spells("xlsx"@, seq![120u8, 108, 115, 120]);
    reveal_strlit("csv");
    lemma_spells("csv"@, seq![99u8, 115, 118]);
    reveal_strlit("ppt");
    lemma_spells("ppt"@, seq![112u8, 112, 116]);
    reveal_strlit("pptx");
    lemma_spells("pptx"@, seq![112u8, 112, 116, 120]);
    reveal_strlit("ods");
    lemma_spells("ods"@, seq![111u8, 100, 115]);
    reveal_strlit("odp");
    lemma_spells("odp"@, seq![111u8, 100, 112]);
    reveal_strlit("wps");
    lemma_spells("wps"@, seq![119u8, 112, 115]);
    reveal_strlit("et");
    lemma_spells("et"@, seq![101u8, 116]);
    reveal_strlit("dps");
    lemma_spells("dps"@, seq![100u8, 112, 115]);
}

proof fn lemma_images(e: Seq<u8>)
    ensures
        image_ext(e) <==> {
            ||| e == seq![106u8, 112, 103]
            ||| e == seq![106u8, 112, 101, 103]
            ||| e == seq![112u8, 110, 103]
            ||| e == seq![103u8, 105, 102]
            ||| e == seq![98u8, 109, 112]
            ||| e == seq![119u8, 101, 98, 112]
            ||| e == seq![116u8, 105, 102]
            ||| e == seq![116u8, 105, 102, 102]
            ||| e == seq![115u8, 118, 103]
            ||| e == seq![105u8, 99, 111]
            ||| e == seq![104u8, 101, 105, 99]
            ||| e == seq![114u8, 97, 119]
            ||| e == seq![112u8, 115, 100]
        },
{
    reveal_strlit("jpg");
    lemma_spells("jpg"@, seq![106u8, 112, 103]);
    reveal_strlit("jpeg");
    lemma_spells("jpeg"@, seq![106u8, 112, 101, 103]);
    reveal_strlit("png");
    lemma_spells("png"@, seq![112u8, 110, 103]);
    reveal_strlit("gif");
    lemma_spells("gif"@, seq![103u8, 105, 102]);
    reveal_strlit("bmp");
    lemma_spells("bmp"@, seq![98u8, 109, 112]);
    reveal_strlit("webp");
    lemma_spells("webp"@, seq![119u8, 101, 98, 112]);
    reveal_strlit("tif");
    lemma_spells("tif"@, seq![116u8, 105, 102]);
    reveal_strlit("tiff");
    lemma_spells("tiff"@, seq![116u8, 105, 102, 102]);
    reveal_strlit("svg");
    lemma_spells("svg"@, seq![115u8, 118, 103]);
    reveal_strlit("ico");
    lemma_spells("ico"@, seq![105u8, 99, 111]);
    reveal_strlit("heic");
    lemma_spells("heic"@, seq![104u8, 101, 105, 99]);
    reveal_strlit("raw");
    lemma_spells("raw"@, seq![114u8, 97, 119]);
    reveal_strlit("psd");
    lemma_spells("psd"@, seq![112u8, 115, 100]);
}

proof fn lemma_videos(e: Seq<u8>)
    ensures
        video_ext(e) <==> {
            ||| e == seq![109u8, 112, 52]
            ||| e == seq![109u8, 107, 118]
            ||| e == seq![97u8, 118, 105]
            ||| e == seq![109u8, 111, 118]
            ||| e == seq![119u8, 109, 118]
            ||| e == seq![102u8, 108, 118]
            ||| e == seq![119u8, 101, 98, 109]
            ||| e == seq![109u8, 52, 118]
            ||| e == seq![109u8, 112, 103]
            ||| e == seq![109u8, 112, 101, 103]
            ||| e == seq![116u8, 115]
            ||| e == seq![51u8, 103, 112]
            ||| e == seq![114u8, 109, 118, 98]
        },
{
    reveal_strlit("mp4");
    lemma_spells("mp4"@, seq![109u8, 112, 52]);
    reveal_strlit("mkv");
    lemma_spells("mkv"@, seq![109u8, 107, 118]);
    reveal_strlit("avi");
    lemma_spells("avi"@, seq![97u8, 118, 105]);
    reveal_strlit("mov");
    lemma_spells("mov"@, seq![109u8, 111, 118]);
    reveal_strlit("wmv");
    lemma_spells("wmv"@, seq![119u8, 109, 118]);
    reveal_strlit("flv");
    lemma_spells("flv"@, seq![102u8, 108, 118]);
    reveal_strlit("webm");
    lemma_spells("webm"@, seq![119u8, 101, 98, 109]);
    reveal_strlit("m4v");
    lemma_spells("m4v"@, seq![109u8, 52, 118]);
    reveal_strlit("mpg");
    lemma_spells("mpg"@, seq![109u8, 112, 103]);
    reveal_strlit("mpeg");
    lemma_spells("mpeg"@, seq![109u8, 112, 101, 103]);
    reveal_strlit("ts");
    lemma_spells("ts"@, seq![116u8, 115]);
    reveal_strlit("3gp");
    lemma_spells("3gp"@, seq![51u8, 103, 112]);
    reveal_strlit("rmvb");
    lemma_spells("rmvb"@, seq![114u8, 109, 118, 98]);
}

proof fn lemma_sounds(e: Seq<u8>)
    ensures
        audio_ext(e) <==> {
            ||| e == seq![109u8, 112, 51]
            ||| e == seq![119u8, 97, 118]
            ||| e == seq![102u8, 108, 97, 99]
            ||| e == seq![97u8, 97, 99]
            ||| e == seq![111u8, 103, 103]
            ||| e == seq![109u8, 52, 97]
            ||| e == seq![119u8, 109, 97]
            ||| e == seq![111u8, 112, 117, 115]
            ||| e == seq![97u8, 105, 102, 102]
        },
{
    reveal_strlit("mp3");
    lemma_spells("mp3"@, seq![109u8, 112, 51]);
    reveal_strlit("wav");
    lemma_spells("wav"@, seq![119u8, 97, 118]);
    reveal_strlit("flac");
    lemma_spells("flac"@, seq![102u8, 108, 97, 99]);
    reveal_strlit("aac");
    lemma_spells("aac"@, seq![97u8, 97, 99]);
    reveal_strlit("ogg");
    lemma_spells("ogg"@, seq![111u8, 103, 103]);
    reveal_strlit("m4a");
    lemma_spells("m4a"@, seq![109u8, 52, 97]);
    reveal_strlit("wma");
    lemma_spells("wma"@, seq![119u8, 109, 97]);
    reveal_strlit("opus");
    lemma_spells("opus"@, seq![111u8, 112, 117, 115]);
    reveal_strlit("aiff");
    lemma_spells("aiff"@, seq![97u8, 105, 102, 102]);
}

proof fn lemma_images_are_no_documents(e: Seq<u8>)
    ensures
        !(image_ext(e) && document_ext(e)),
{
    lemma_images(e);
    lemma_documents(e);
    if e == seq![106u8, 112, 103] {
        assert(seq![116u8, 120, 116][0] == 116);
        assert(seq![112u8, 100, 102][0] == 112);
        assert(seq![100u8, 111, 99][0] == 100);
        assert(seq![114u8, 116, 102][0] == 114);
        assert(seq![111u8, 100, 116][0] == 111);
        assert(seq![120u8, 108, 115][0] == 120);
        assert(seq![99u8, 115, 118][0] == 99);
        assert(seq![112u8, 112, 116][0] == 112);
        assert(seq![111u8, 100, 115][0] == 111);
        assert(seq![111u8, 100, 112][0] == 111);
        assert(seq![119u8, 112, 115][0] == 119);
        assert(seq![100u8, 112, 115][0] == 100);
    }
    if e == seq![106u8, 112, 101, 103] {
        assert(seq![100u8, 111, 99, 120][0] == 100);
        assert(seq![120u8, 108, 115, 120][0] == 120);
        assert(seq![112u8, 112, 116, 120][0] == 112);
    }
    if e == seq![112u8, 110, 103] {
        assert(seq![116u8, 120, 116][0] == 116);
        assert(seq![112u8, 100, 102][1] == 100);
        assert(seq![100u8, 111, 99][0] == 100);
        assert(seq![114u8, 116, 102][0] == 114);
        assert(seq![111u8, 100, 116][0] == 111);
        assert(seq![120u8, 108, 115][0] == 120);
        assert(seq![99u8, 115, 118][0] == 99);
        assert(seq![112u8, 112, 116][1] == 112);
        assert(seq![111u8, 100, 115][0] == 111);
        assert(seq![111u8, 100, 112][0] == 111);
        assert(seq![119u8, 112, 115][0] == 119);
        assert(seq![100u8, 112, 115][0] == 100);
    }
    if e == seq![103u8, 105, 102] {
        assert(seq![116u8, 120, 116][0] == 116);
        assert(seq![112u8, 100, 102][0] == 112);
        assert(seq![100u8, 111, 99][0] == 100);
        assert(seq![114u8, 116, 102][0] == 114);
        assert(seq![111u8, 100, 116][0] == 111);
        assert(seq![120u8, 108, 115][0] == 120);
        assert(seq![99u8, 115, 118][0] == 99);
        assert(seq![112u8, 112, 116][0] == 112);
        assert(seq![111u8, 100, 115][0] == 111);
        assert(seq![111u8, 100, 112][0] == 111);
        assert(seq![119u8, 112, 115][0] == 119);
        assert(seq![100u8, 112, 115][0] == 100);
    }
    if e == seq![98u8, 109, 112] {
        assert(seq![116u8, 120, 116][0] == 116);
        assert(seq![112u8, 100, 102][0] == 112);
        assert(seq![100u8, 111, 99][0] == 100);
        assert(seq![114u8, 116, 102][0] == 114);
        assert(seq![111u8, 100, 116][0] == 111);
        assert(seq![120u8, 108, 115][0] == 120);
        assert(seq![99u8, 115, 118][0] == 99);
        assert(seq![112u8, 112, 116][0] == 112);
        assert(seq![111u8, 100, 115][0] == 111);
        assert(seq![111u8, 100, 112][0] == 111);
        assert(seq![119u8, 112, 115][0] == 119);
        assert(seq![100u8, 112, 115][0] == 100);
    }
    if e == seq![119u8, 101, 98, 112] {
        assert(seq![100u8, 111, 99, 120][0] == 100);
        assert(seq![120u8, 108, 115, 120][0] == 120);
        assert(seq![112u8, 112, 116, 120][0] == 112);
    }
    if e == seq![116u8, 105, 102] {
        assert(seq![116u8, 120, 116][1] == 120);
        assert(seq![112u8, 100, 102][0] == 112);
        assert(seq![100u8, 111, 99][0] == 100);
        assert(seq![114u8, 116, 102][0] == 114);
        assert(seq![111u8, 100, 116][0] == 111);
        assert(seq![120u8, 108, 115][0] == 120);
        assert(seq![99u8, 115, 118][0] == 99);
        assert(seq![112u8, 112, 116][0] == 112);
        assert(seq![111u8, 100, 115][0] == 111);
        assert(seq![111u8, 100, 112][0] == 111);
        assert(seq![119u8, 112, 115][0] == 119);
        assert(seq![100u8, 112, 115][0] == 100);
    }
    if e == seq![116u8, 105, 102, 102] {
        assert(seq![100u8, 111, 99, 120][0] == 100);
        assert(seq![120u8, 108, 115, 120][0] == 120);
        assert(seq![112u8, 112, 116, 120][0] == 112);
    }
    if e == seq![115u8, 118, 103] {
        assert(seq![116u8, 120, 116][0] == 116);
        assert(seq![112u8, 100, 102][0] == 112);
        assert(seq![100u8, 111, 99][0] == 100);
        assert(seq![114u8, 116, 102][0] == 114);
        assert(seq![111u8, 100, 116][0] == 111);
        assert(seq![120u8, 108, 115][0] == 120);
        assert(seq![99u8, 115, 118][0] == 99);
        assert(seq![112u8, 112, 116][0] == 112);
        assert(seq![111u8, 100, 115][0] == 111);
        assert(seq![111u8, 100, 112][0] == 111);
        assert(seq![119u8, 112, 115][0] == 119);
        assert(seq![100u8, 112, 115][0] == 100);
    }
    if e == seq![105u8, 99, 111] {
        assert(seq![116u8, 120, 116][0] == 116);
        assert(seq![112u8, 100, 102][0] == 112);
        assert(seq![100u8, 111, 99][0] == 100);
        assert(seq![114u8, 116, 102][0] == 114);
        assert(seq![111u8, 100, 116][0] == 111);
        assert(seq![120u8, 108, 115][0] == 120);
        assert(seq![99u8, 115, 118][0] == 99);
        assert(seq![112u8, 112, 116][0] == 112);
        assert(seq![111u8, 100, 115][0] == 111);
        assert(seq![111u8, 100, 112][0] == 111);
        assert(seq![119u8, 112, 115][0] == 119);
        assert(seq![100u8, 112, 115][0] == 100);
    }
    if e == seq![104u8, 101, 105, 99] {
        assert(seq![100u8, 111, 99, 120][0] == 100);
        assert(seq![120u8, 108, 115, 120][0] == 120);
        assert(seq![112u8, 112, 116, 120][0] == 112);
    }
    if e == seq![114u8, 97, 119] {
        assert(seq![116u8, 120, 116][0] == 116);
        assert(seq![112u8, 100, 102][0] == 112);
        assert(seq![100u8, 111, 99][0] == 100);
        assert(seq![114u8, 116, 102][1] == 116);
        assert(seq![111u8, 100, 116][0] == 111);
        assert(seq![120u8, 108, 115][0] == 120);
        assert(seq![99u8, 115, 118][0] == 99);
        assert(seq![112u8, 112, 116][0] == 112);
        assert(seq![111u8, 100, 115][0] == 111);
        assert(seq![111u8, 100, 112][0] == 111);
        assert(seq![119u8, 112, 115][0] == 119);
        assert(seq![100u8, 112, 115][0] == 100);
    }
    if e == seq![112u8, 115, 100] {
        assert(seq![116u8, 120, 116][0] == 116);
        assert(seq![112u8, 100, 102][1] == 100);
        assert(seq![100u8, 111, 99][0] == 100);
        assert(seq![114u8, 116, 102][0] == 114);
        assert(seq![111u8, 100, 116][0] == 111);
        assert(seq![120u8, 108, 115][0] == 120);
        assert(seq![99u8, 115, 118][0] == 99);
        assert(seq![112u8, 112, 116][1] == 112);
        assert(seq![111u8, 100, 115][0] == 111);
        assert(seq![111u8, 100, 112][0] == 111);
        assert(seq![119u8, 112, 115][0] == 119);
        assert(seq![100u8, 112, 115][0] == 100);
    }
}

proof fn lemma_videos_are_no_documents(e: Seq<u8>)
    ensures
        !(video_ext(e) && document_ext(e)),
{
    lemma_videos(e);
    lemma_documents(e);
    if e == seq![109u8, 112, 52] {
        assert(seq![116u8, 120, 116][0] == 116);
        assert(seq![112u8, 100, 102][0] == 112);
        assert(seq![100u8, 111, 99][0] == 100);
        assert(seq![114u8, 116, 102][0] == 114);
        assert(seq![111u8, 100, 116][0] == 111);
        assert(seq![120u8, 108, 115][0] == 120);
        assert(seq![99u8, 115, 118][0] == 99);
        assert(seq![112u8, 112, 116][0] == 112);
        assert(seq![111u8, 100, 115][0] == 111);
        assert(seq![111u8, 100, 112][0] == 111);
        assert(seq![119u8, 112, 115][0] == 119);
        assert(seq![100u8, 112, 115][0] == 100);
    }
    if e == seq![109u8, 107, 118] {
        assert(seq![116u8, 120, 116][0] == 116);
        assert(seq![112u8, 100, 102][0] == 112);
        assert(seq![100u8, 111, 99][0] == 100);
        assert(seq![114u8, 116, 102][0] == 114);
        assert(seq![111u8, 100, 116][0] == 111);
        assert(seq![120u8, 108, 115][0] == 120);
        assert(seq![99u8, 115, 118][0] == 99);
        assert(seq![112u8, 112, 116][0] == 112);
        assert(seq![111u8, 100, 115][0] == 111);
        assert(seq![111u8, 100, 112][0] == 111);
        assert(seq![119u8, 112, 115][0] == 119);
        assert(seq![100u8, 112, 115][0] == 100);
    }
    if e == seq![97u8, 118, 105] {
        assert(seq![116u8, 120, 116][0] == 116);
        assert(seq![112u8, 100, 102][0] == 112);
        assert(seq![100u8, 111, 99][0] == 100);
        assert(seq![114u8, 116, 102][0] == 114);
        assert(seq![111u8, 100, 116][0] == 111);
        assert(seq![120u8, 108, 115][0] == 120);
        assert(seq![99u8, 115, 118][0] == 99);
        assert(seq![112u8, 112, 116][0] == 112);
        assert(seq![111u8, 100, 115][0] == 111);
        assert(seq![111u8, 100, 112][0] == 111);
        assert(seq![119u8, 112, 115][0] == 119);
        assert(seq![100u8, 112, 115][0] == 100);
    }
    if e == seq![109u8, 111, 118] {
        assert(seq![116u8, 120, 116][0] == 116);
        assert(seq![112u8, 100, 102][0] == 112);
        assert(seq![100u8, 111, 99][0] == 100);
        assert(seq![114u8, 116, 102][0] == 114);
        assert(seq![111u8, 100, 116][0] == 111);
        assert(seq![120u8, 108, 115][0] == 120);
        assert(seq![99u8, 115, 118][0] == 99);
        assert(seq![112u8, 112, 116][0] == 112);
        assert(seq![111u8, 100, 115][0] == 111);
        assert(seq![111u8, 100, 112][0] == 111);
        assert(seq![119u8, 112, 115][0] == 119);
        assert(seq![100u8, 112, 115][0] == 100);
    }
    if e == seq![119u8, 109, 118] {
        assert(seq![116u8, 120, 116][0] == 116);
        assert(seq![112u8, 100, 102][0] == 112);
        assert(seq![100u8, 111, 99][0] == 100);
        assert(seq![114u8, 116, 102][0] == 114);
        assert(seq![111u8, 100, 116][0] == 111);
        assert(seq![120u8, 108, 115][0] == 120);
        assert(seq![99u8, 115, 118][0] == 99);
        assert(seq![112u8, 112, 116][0] == 112);
        assert(seq![111u8, 100, 115][0] == 111);
        assert(seq![111u8, 100, 112][0] == 111);
        assert(seq![119u8, 112, 115][1] == 112);
        assert(seq![100u8, 112, 115][0] == 100);
    }
    if e == seq![102u8, 108, 118] {
        assert(seq![116u8, 120, 116][0] == 116);
        assert(seq![112u8, 100, 102][0] == 112);
        assert(seq![100u8, 111, 99][0] == 100);
        assert(seq![114u8, 116, 102][0] == 114);
        assert(seq![111u8, 100, 116][0] == 111);
        assert(seq![120u8, 108, 115][0] == 120);
        assert(seq![99u8, 115, 118][0] == 99);
        assert(seq![112u8, 112, 116][0] == 112);
        assert(seq![111u8, 100, 115][0] == 111);
        assert(seq![111u8, 100, 112][0] == 111);
        assert(seq![119u8, 112, 115][0] == 119);
        assert(seq![100u8, 112, 115][0] == 100);
    }
    if e == seq![119u8, 101, 98, 109] {
        assert(seq![100u8, 111, 99, 120][0] == 100);
        assert(seq![120u8, 108, 115, 120][0] == 120);
        assert(seq![112u8, 112, 116, 120][0] == 112);
    }
    if e == seq![109u8, 52, 118] {
        assert(seq![116u8, 120, 116][0] == 116);
        assert(seq![112u8, 100, 102][0] == 112);
        assert(seq![100u8, 111, 99][0] == 100);
        assert(seq![114u8, 116, 102][0] == 114);
        assert(seq![111u8, 100, 116][0] == 111);
        assert(seq![120u8, 108, 115][0] == 120);
        assert(seq![99u8, 115, 118][0] == 99);
        assert(seq![112u8, 112, 116][0] == 112);
        assert(seq![111u8, 100, 115][0] == 111);
        assert(seq![111u8, 100, 112][0] == 111);
        assert(seq![119u8, 112, 115][0] == 119);
        assert(seq![100u8, 112, 115][0] == 100);
    }
    if e == seq![109u8, 112, 103] {
        assert(seq![116u8, 120, 116][0] == 116);
        assert(seq![112u8, 100, 102][0] == 112);
        assert(seq![100u8, 111, 99][0] == 100);
        assert(seq![114u8, 116, 102][0] == 114);
        assert(seq![111u8, 100, 116][0] == 111);
        assert(seq![120u8, 108, 115][0] == 120);
        assert(seq![99u8, 115, 118][0] == 99);
        assert(seq![112u8, 112, 116][0] == 112);
        assert(seq![111u8, 100, 115][0] == 111);
        assert(seq![111u8, 100, 112][0] == 111);
        assert(seq![119u8, 112, 115][0] == 119);
        assert(seq![100u8, 112, 115][0] == 100);
    }
    if e == seq![109u8, 112, 101, 103] {
        assert(seq![100u8, 111, 99, 120][0] == 100);
        assert(seq![120u8, 108, 115, 120][0] == 120);
        assert(seq![112u8, 112, 116, 120][0] == 112);
    }
    if e == seq![116u8, 115] {
        assert(seq![109u8, 100][0] == 109);
        assert(seq![101u8, 116][0] == 101);
    }
    if e == seq![51u8, 103, 112] {
        assert(seq![116u8, 120, 116][0] == 116);
        assert(seq![112u8, 100, 102][0] == 112);
        assert(seq![100u8, 111, 99][0] == 100);
        assert(seq![114u8, 116, 102][0] == 114);
        assert(seq![111u8, 100, 116][0] == 111);
        assert(seq![120u8, 108, 115][0] == 120);
        assert(seq![99u8, 115, 118][0] == 99);
        assert(seq![112u8, 112, 116][0] == 112);
        assert(seq![111u8, 100, 115][0] == 111);
        assert(seq![111u8, 100, 112][0] == 111);
        assert(seq![119u8, 112, 115][0] == 119);
        assert(seq![100u8, 112, 115][0] == 100);
    }
    if e == seq![114u8, 109, 118, 98] {
        assert(seq![100u8, 111, 99, 120][0] == 100);
        assert(seq![120u8, 108, 115, 120][0] == 120);
        assert(seq![112u8, 112, 116, 120][0] == 112);
    }
}

proof fn lemma_videos_are_no_images(e: Seq<u8>)
    ensures
        !(video_ext(e) && image_ext(e)),
{
    lemma_videos(e);
    lemma_images(e);
    if e == seq![109u8, 112, 52] {
        assert(seq![106u8, 112, 103][0] == 106);
        assert(seq![112u8, 110, 103][0] == 112);
        assert(seq![103u8, 105, 102][0] == 103);
        assert(seq![98u8, 109, 112][0] == 98);
        assert(seq![116u8, 105, 102][0] == 116);
        assert(seq![115u8, 118, 103][0] == 115);
        assert(seq![105u8, 99, 111][0] == 105);
        assert(seq![114u8, 97, 119][0] == 114);
        assert(seq![112u8, 115, 100][0] == 112);
    }
    if e == seq![109u8, 107, 118] {
        assert(seq![106u8, 112, 103][0] == 106);
        assert(seq![112u8, 110, 103][0] == 112);
        assert(seq![103u8, 105, 102][0] == 103);
        assert(seq![98u8, 109, 112][0] == 98);
        assert(seq![116u8, 105, 102][0] == 116);
        assert(seq![115u8, 118, 103][0] == 115);
        assert(seq![105u8, 99, 111][0] == 105);
        assert(seq![114u8, 97, 119][0] == 114);
        assert(seq![112u8, 115, 100][0] == 112);
    }
    if e == seq![97u8, 118, 105] {
        assert(seq![106u8, 112, 103][0] == 106);
        assert(seq![112u8, 110, 103][0] == 112);
        assert(seq![103u8, 105, 102][0] == 103);
        assert(seq![98u8, 109, 112][0] == 98);
        assert(seq![116u8, 105, 102][0] == 116);
        assert(seq![115u8, 118, 103][0] == 115);
        assert(seq![105u8, 99, 111][0] == 105);
        assert(seq![114u8, 97, 119][0] == 114);
        assert(seq![112u8, 115, 100][0] == 112);
    }
    if e == seq![109u8, 111, 118] {
        assert(seq![106u8, 112, 103][0] == 106);
        assert(seq![112u8, 110, 103][0] == 112);
        assert(seq![103u8, 105, 102][0] == 103);
        assert(seq![98u8, 109, 112][0] == 98);
        assert(seq![116u8, 105, 102][0] == 116);
        assert(seq![115u8, 118, 103][0] == 115);
        assert(seq![105u8, 99, 111][0] == 105);
        assert(seq![114u8, 97, 119][0] == 114);
        assert(seq![112u8, 115, 100][0] == 112);
    }
    if e == seq![119u8, 109, 118] {
        assert(seq![106u8, 112, 103][0] == 106);
        assert(seq![112u8, 110, 103][0] == 112);
        assert(seq![103u8, 105, 102][0] == 103);
        assert(seq![98u8, 109, 112][0] == 98);
        assert(seq![116u8, 105, 102][0] == 116);
        assert(seq![115u8, 118, 103][0] == 115);
        assert(seq![105u8, 99, 111][0] == 105);
        assert(seq![114u8, 97, 119][0] == 114);
        assert(seq![112u8, 115, 100][0] == 112);
    }
    if e == seq![102u8, 108, 118] {
        assert(seq![106u8, 112, 103][0] == 106);
        assert(seq![112u8, 110, 103][0] == 112);
        assert(seq![103u8, 105, 102][0] == 103);
        assert(seq![98u8, 109, 112][0] == 98);
        assert(seq![116u8, 105, 102][0] == 116);
        assert(seq![115u8, 118, 103][0] == 115);
        assert(seq![105u8, 99, 111][0] == 105);
        assert(seq![114u8, 97, 119][0] == 114);
        assert(seq![112u8, 115, 100][0] == 112);
    }
    if e == seq![119u8, 101, 98, 109] {
        assert(seq![106u8, 112, 101, 103][0] == 106);
        assert(seq![119u8, 101, 98, 112][3] == 112);
        assert(seq![116u8, 105, 102, 102][0] == 116);
        assert(seq![104u8, 101, 105, 99][0] == 104);
    }
    if e == seq![109u8, 52, 118] {
        assert(seq![106u8, 112, 103][0] == 106);
        assert(seq![112u8, 110, 103][0] == 112);
        assert(seq![103u8, 105, 102][0] == 103);
        assert(seq![98u8, 109, 112][0] == 98);
        assert(seq![116u8, 105, 102][0] == 116);
        assert(seq![115u8, 118, 103][0] == 115);
        assert(seq![105u8, 99, 111][0] == 105);
        assert(seq![114u8, 97, 119][0] == 114);
        assert(seq![112u8, 115, 100][0] == 112);
    }
    if e == seq![109u8, 112, 103] {
        assert(seq![106u8, 112, 103][0] == 106);
        assert(seq![112u8, 110, 103][0] == 112);
        assert(seq![103u8, 105, 102][0] == 103);
        assert(seq![98u8, 109, 112][0] == 98);
        assert(seq![116u8, 105, 102][0] == 116);
        assert(seq![115u8, 118, 103][0] == 115);
        assert(seq![105u8, 99, 111][0] == 105);
        assert(seq![114u8, 97, 119][0] == 114);
        assert(seq![112u8, 115, 100][0] == 112);
    }
    if e == seq![109u8, 112, 101, 103] {
        assert(seq![106u8, 112, 101, 103][0] == 106);
        assert(seq![119u8, 101, 98, 112][0] == 119);
        assert(seq![116u8, 105, 102, 102][0] == 116);
        assert(seq![104u8, 101, 105, 99][0] == 104);
    }
    if e == seq![51u8, 103, 112] {
        assert(seq![106u8, 112, 103][0] == 106);
        assert(seq![112u8, 110, 103][0] == 112);
        assert(seq![103u8, 105, 102][0] == 103);
        assert(seq![98u8, 109, 112][0] == 98);
        assert(seq![116u8, 105, 102][0] == 116);
        assert(seq![115u8, 118, 103][0] == 115);
        assert(seq![105u8, 99, 111][0] == 105);
        assert(seq![114u8, 97, 119][0] == 114);
        assert(seq![112u8, 115, 100][0] == 112);
    }
    if e == seq![114u8, 109, 118, 98] {
        assert(seq![106u8, 112, 101, 103][0] == 106);
        assert(seq![119u8, 101, 98, 112][0] == 119);
        assert(seq![116u8, 105, 102, 102][0] == 116);
        assert(seq![104u8, 101, 105, 99][0] == 104);
    }
}

proof fn lemma_sounds_are_no_documents(e: Seq<u8>)
    ensures
        !(audio_ext(e) && document_ext(e)),
{
    lemma_sounds(e);
    lemma_documents(e);
    if e == seq![109u8, 112, 51] {
        assert(seq![116u8, 120, 116][0] == 116);
        assert(seq![112u8, 100, 102][0] == 112);
        assert(seq![100u8, 111, 99][0] == 100);
        assert(seq![114u8, 116, 102][0] == 114);
        assert(seq![111u8, 100, 116][0] == 111);
        assert(seq![120u8, 108, 115][0] == 120);
        assert(seq![99u8, 115, 118][0] == 99);
        assert(seq![112u8, 112, 116][0] == 112);
        assert(seq![111u8, 100, 115][0] == 111);
        assert(seq![111u8, 100, 112][0] == 111);
        assert(seq![119u8, 112, 115][0] == 119);
        assert(seq![100u8, 112, 115][0] == 100);
    }
    if e == seq![119u8, 97, 118] {
        assert(seq![116u8, 120, 116][0] == 116);
        assert(seq![112u8, 100, 102][0] == 112);
        assert(seq![100u8, 111, 99][0] == 100);
        assert(seq![114u8, 116, 102][0] == 114);
        assert(seq![111u8, 100, 116][0] == 111);
        assert(seq![120u8, 108, 115][0] == 120);
        assert(seq![99u8, 115, 118][0] == 99);
        assert(seq![112u8, 112, 116][0] == 112);
        assert(seq![111u8, 100, 115][0] == 111);
        assert(seq![111u8, 100, 112][0] == 111);
        assert(seq![119u8, 112, 115][1] == 112);
        assert(seq![100u8, 112, 115][0] == 100);
    }
    if e == seq![102u8, 108, 97, 99] {
        assert(seq![100u8, 111, 99, 120][0] == 100);
        assert(seq![120u8, 108, 115, 120][0] == 120);
        assert(seq![112u8, 112, 116, 120][0] == 112);
    }
    if e == seq![97u8, 97, 99] {
        assert(seq![116u8, 120, 116][0] == 116);
        assert(seq![112u8, 100, 102][0] == 112);
        assert(seq![100u8, 111, 99][0] == 100);
        assert(seq![114u8, 116, 102][0] == 114);
        assert(seq![111u8, 100, 116][0] == 111);
        assert(seq![120u8, 108, 115][0] == 120);
        assert(seq![99u8, 115, 118][0] == 99);
        assert(seq![112u8, 112, 116][0] == 112);
        assert(seq![111u8, 100, 115][0] == 111);
        assert(seq![111u8, 100, 112][0] == 111);
        assert(seq![119u8, 112, 115][0] == 119);
        assert(seq![100u8, 112, 115][0] == 100);
    }
    if e == seq![111u8, 103, 103] {
        assert(seq![116u8, 120, 116][0] == 116);
        assert(seq![112u8, 100, 102][0] == 112);
        assert(seq![100u8, 111, 99][0] == 100);
        assert(seq![114u8, 116, 102][0] == 114);
        assert(seq![111u8, 100, 116][1] == 100);
        assert(seq![120u8, 108, 115][0] == 120);
        assert(seq![99u8, 115, 118][0] == 99);
        assert(seq![112u8, 112, 116][0] == 112);
        assert(seq![111u8, 100, 115][1] == 100);
        assert(seq![111u8, 100, 112][1] == 100);
        assert(seq![119u8, 112, 115][0] == 119);
        assert(seq![100u8, 112, 115][0] == 100);
    }
    if e == seq![109u8, 52, 97] {
        assert(seq![116u8, 120, 116][0] == 116);
        assert(seq![112u8, 100, 102][0] == 112);
        assert(seq![100u8, 111, 99][0] == 100);
        assert(seq![114u8, 116, 102][0] == 114);
        assert(seq![111u8, 100, 116][0] == 111);
        assert(seq![120u8, 108, 115][0] == 120);
        assert(seq![99u8, 115, 118][0] == 99);
        assert(seq![112u8, 112, 116][0] == 112);
        assert(seq![111u8, 100, 115][0] == 111);
        assert(seq![111u8, 100, 112][0] == 111);
        assert(seq![119u8, 112, 115][0] == 119);
        assert(seq![100u8, 112, 115][0] == 100);
    }
    if e == seq![119u8, 109, 97] {
        assert(seq![116u8, 120, 116][0] == 116);
        assert(seq![112u8, 100, 102][0] == 112);
        assert(seq![100u8, 111, 99][0] == 100);
        assert(seq![114u8, 116, 102][0] == 114);
        assert(seq![111u8, 100, 116][0] == 111);
        assert(seq![120u8, 108, 115][0] == 120);
        assert(seq![99u8, 115, 118][0] == 99);
        assert(seq![112u8, 112, 116][0] == 112);
        assert(seq![111u8, 100, 115][0] == 111);
        assert(seq![111u8, 100, 112][0] == 111);
        assert(seq![119u8, 112, 115][1] == 112);
        assert(seq![100u8, 112, 115][0] == 100);
    }
    if e == seq![111u8, 112, 117, 115] {
        assert(seq![100u8, 111, 99, 120][0] == 100);
        assert(seq![120u8, 108, 115, 120][0] == 120);
        assert(seq![112u8, 112, 116, 120][0] == 112);
    }
    if e == seq![97u8, 105, 102, 102] {
        assert(seq![100u8, 111, 99, 120][0] == 100);
        assert(seq![120u8, 108, 115, 120][0] == 120);
        assert(seq![112u8, 112, 116, 120][0] == 112);
    }
}

proof fn lemma_sounds_are_no_images(e: Seq<u8>)
    ensures
        !(audio_ext(e) && image_ext(e)),
{
    lemma_sounds(e);
    lemma_images(e);
    if e == seq![109u8, 112, 51] {
        assert(seq![106u8, 112, 103][0] == 106);
        assert(seq![112u8, 110, 103][0] == 112);
        assert(seq![103u8, 105, 102][0] == 103);
        assert(seq![98u8, 109, 112][0] == 98);
        assert(seq![116u8, 105, 102][0] == 116);
        assert(seq![115u8, 118, 103][0] == 115);
        assert(seq![105u8, 99, 111][0] == 105);
        assert(seq![114u8, 97, 119][0] == 114);
        assert(seq![112u8, 115, 100][0] == 112);
    }
    if e == seq![119u8, 97, 118] {
        assert(seq![106u8, 112, 103][0] == 106);
        assert(seq![112u8, 110, 103][0] == 112);
        assert(seq![103u8, 105, 102][0] == 103);
        assert(seq![98u8, 109, 112][0] == 98);
        assert(seq![116u8, 105, 102][0] == 116);
        assert(seq![115u8, 118, 103][0] == 115);
        assert(seq![105u8, 99, 111][0] == 105);
        assert(seq![114u8, 97, 119][0] == 114);
        assert(seq![112u8, 115, 100][0] == 112);
    }
    if e == seq![102u8, 108, 97, 99] {
        assert(seq![106u8, 112, 101, 103][0] == 106);
        assert(seq![119u8, 101, 98, 112][0] == 119);
        assert(seq![116u8, 105, 102, 102][0] == 116);
        assert(seq![104u8, 101, 105, 99][0] == 104);
    }
    if e == seq![97u8, 97, 99] {
        assert(seq![106u8, 112, 103][0] == 106);
        assert(seq![112u8, 110, 103][0] == 112);
        assert(seq![103u8, 105, 102][0] == 103);
        assert(seq![98u8, 109, 112][0] == 98);
        assert(seq![116u8, 105, 102][0] == 116);
        assert(seq![115u8, 118, 103][0] == 115);
        assert(seq![105u8, 99, 111][0] == 105);
        assert(seq![114u8, 97, 119][0] == 114);
        assert(seq![112u8, 115, 100][0] == 112);
    }
    if e == seq![111u8, 103, 103] {
        assert(seq![106u8, 112, 103][0] == 106);
        assert(seq![112u8, 110, 103][0] == 112);
        assert(seq![103u8, 105, 102][0] == 103);
        assert(seq![98u8, 109, 112][0] == 98);
        assert(seq![116u8, 105, 102][0] == 116);
        assert(seq![115u8, 118, 103][0] == 115);
        assert(seq![105u8, 99, 111][0] == 105);
        assert(seq![114u8, 97, 119][0] == 114);
        assert(seq![112u8, 115, 100][0] == 112);
    }
    if e == seq![109u8, 52, 97] {
        assert(seq![106u8, 112, 103][0] == 106);
        assert(seq![112u8, 110, 103][0] == 112);
        assert(seq![103u8, 105, 102][0] == 103);
        assert(seq![98u8, 109, 112][0] == 98);
        assert(seq![116u8, 105, 102][0] == 116);
        assert(seq![115u8, 118, 103][0] == 115);
        assert(seq![105u8, 99, 111][0] == 105);
        assert(seq![114u8, 97, 119][0] == 114);
        assert(seq![112u8, 115, 100][0] == 112);
    }
    if e == seq![119u8, 109, 97] {
        assert(seq![106u8, 112, 103][0] == 106);
        assert(seq![112u8, 110, 103][0] == 112);
        assert(seq![103u8, 105, 102][0] == 103);
        assert(seq![98u8, 109, 112][0] == 98);
        assert(seq![116u8, 105, 102][0] == 116);
        assert(seq![115u8, 118, 103][0] == 115);
        assert(seq![105u8, 99, 111][0] == 105);
        assert(seq![114u8, 97, 119][0] == 114);
        assert(seq![112u8, 115, 100][0] == 112);
    }
    if e == seq![111u8, 112, 117, 115] {
        assert(seq![106u8, 112, 101, 103][0] == 106);
        assert(seq![119u8, 101, 98, 112][0] == 119);
        assert(seq![116u8, 105, 102, 102][0] == 116);
        assert(seq![104u8, 101, 105, 99][0] == 104);
    }
    if e == seq![97u8, 105, 102, 102] {
        assert(seq![106u8, 112, 101, 103][0] == 106);
        assert(seq![119u8, 101, 98, 112][0] == 119);
        assert(seq![116u8, 105, 102, 102][0] == 116);
        assert(seq![104u8, 101, 105, 99][0] == 104);
    }
}

proof fn lemma_sounds_are_no_videos(e: Seq<u8>)
    ensures
        !(audio_ext(e) && video_ext(e)),
{
    lemma_sounds(e);
    lemma_videos(e);
    if e == seq![109u8, 112, 51] {
        assert(seq![109u8, 112, 52][2] == 52);
        assert(seq![109u8, 107, 118][1] == 107);
        assert(seq![97u8, 118, 105][0] == 97);
        assert(seq![109u8, 111, 118][1] == 111);
        assert(seq![119u8, 109, 118][0] == 119);
        assert(seq![102u8, 108, 118][0] == 102);
        assert(seq![109u8, 52, 118][1] == 52);
        assert(seq![109u8, 112, 103][2] == 103);
        assert(seq![51u8, 103, 112][0] == 51);
    }
    if e == seq![119u8, 97, 118] {
        assert(seq![109u8, 112, 52][0] == 109);
        assert(seq![109u8, 107, 118][0] == 109);
        assert(seq![97u8, 118, 105][0] == 97);
        assert(seq![109u8, 111, 118][0] == 109);
        assert(seq![119u8, 109, 118][1] == 109);
        assert(seq![102u8, 108, 118][0] == 102);
        assert(seq![109u8, 52, 118][0] == 109);
        assert(seq![109u8, 112, 103][0] == 109);
        assert(seq![51u8, 103, 112][0] == 51);
    }
    if e == seq![102u8, 108, 97, 99] {
        assert(seq![119u8, 101, 98, 109][0] == 119);
        assert(seq![109u8, 112, 101, 103][0] == 109);
        assert(seq![114u8, 109, 118, 98][0] == 114);
    }
    if e == seq![97u8, 97, 99] {
        assert(seq![109u8, 112, 52][0] == 109);
        assert(seq![109u8, 107, 118][0] == 109);
        assert(seq![97u8, 118, 105][1] == 118);
        assert(seq![109u8, 111, 118][0] == 109);
        assert(seq![119u8, 109, 118][0] == 119);
        assert(seq![102u8, 108, 118][0] == 102);
        assert(seq![109u8, 52, 118][0] == 109);
        assert(seq![109u8, 112, 103][0] == 109);
        assert(seq![51u8, 103, 112][0] == 51);
    }
    if e == seq![111u8, 103, 103] {
        assert(seq![109u8, 112, 52][0] == 109);
        assert(seq![109u8, 107, 118][0] == 109);
        assert(seq![97u8, 118, 105][0] == 97);
        assert(seq![109u8, 111, 118][0] == 109);
        assert(seq![119u8, 109, 118][0] == 119);
        assert(seq![102u8, 108, 118][0] == 102);
        assert(seq![109u8, 52, 118][0] == 109);
        assert(seq![109u8, 112, 103][0] == 109);
        assert(seq![51u8, 103, 112][0] == 51);
    }
    if e == seq![109u8, 52, 97] {
        assert(seq![109u8, 112, 52][1] == 112);
        assert(seq![109u8, 107, 118][1] == 107);
        assert(seq![97u8, 118, 105][0] == 97);
        assert(seq![109u8, 111, 118][1] == 111);
        assert(seq![119u8, 109, 118][0] == 119);
        assert(seq![102u8, 108, 118][0] == 102);
        assert(seq![109u8, 52, 118][2] == 118);
        assert(seq![109u8, 112, 103][1] == 112);
        assert(seq![51u8, 103, 112][0] == 51);
    }
    if e == seq![119u8, 109, 97] {
        assert(seq![109u8, 112, 52][0] == 109);
        assert(seq![109u8, 107, 118][0] == 109);
        assert(seq![97u8, 118, 105][0] == 97);
        assert(seq![109u8, 111, 118][0] == 109);
        assert(seq![119u8, 109, 118][2] == 118);
        assert(seq![102u8, 108, 118][0] == 102);
        assert(seq![109u8, 52, 118][0] == 109);
        assert(seq![109u8, 112, 103][0] == 109);
        assert(seq![51u8, 103, 112][0] == 51);
    }
    if e == seq![111u8, 112, 117, 115] {
        assert(seq![119u8, 101, 98, 109][0] == 119);
        assert(seq![109u8, 112, 101, 103][0] == 109);
        assert(seq![114u8, 109, 118, 98][0] == 114);
    }
    if e == seq![97u8, 105, 102, 102] {
        assert(seq![119u8, 101, 98, 109][0] == 119);
        assert(seq![109u8, 112, 101, 103][0] == 109);
        assert(seq![114u8, 109, 118, 98][0] == 114);
    }
}

/// A file is a document exactly where what follows the last dot of its name, the case
/// of ASCII letters aside, is one of `txt`, `md`, `pdf`, `doc`, `docx`, `rtf`, `odt`, `xls`, `xlsx`, `csv`, `ppt`, `pptx`, `ods`, `odp`, `wps`, `et`, `dps`.
pub proof fn law_documents_by_extension(stem: Seq<u8>, e: Seq<u8>)
    requires
        forall|i: int| 0 <= i < e.len() ==> #[trigger] e[i] != 46,
    ensures
        passes(Category::Document, stem + seq![46u8] + e, false) <==> {
            ||| ascii::lower_all(e) == seq![116u8, 120, 116]
            ||| ascii::lower_all(e) == seq![109u8, 100]
            ||| ascii::lower_all(e) == seq![112u8, 100, 102]
            ||| ascii::lower_all(e) == seq![100u8, 111, 99]
            ||| ascii::lower_all(e) == seq![100u8, 111, 99, 120]
            ||| ascii::lower_all(e) == seq![114u8, 116, 102]
            ||| ascii::lower_all(e) == seq![111u8, 100, 116]
            ||| ascii::lower_all(e) == seq![120u8, 108, 115]
            ||| ascii::lower_all(e) == seq![120u8, 108, 115, 120]
            ||| ascii::lower_all(e) == seq![99u8, 115, 118]
            ||| ascii::lower_all(e) == seq![112u8, 112, 116]
            ||| ascii::lower_all(e) == seq![112u8, 112, 116, 120]
            ||| ascii::lower_all(e) == seq![111u8, 100, 115]
            ||| ascii::lower_all(e) == seq![111u8, 100, 112]
            ||| ascii::lower_all(e) == seq![119u8, 112, 115]
            ||| ascii::lower_all(e) == seq![101u8, 116]
            ||| ascii::lower_all(e) == seq![100u8, 112, 115]
        },
        category_of(stem + seq![46u8] + e, false) == Category::Document <==> passes(
            Category::Document,
            stem + seq![46u8] + e,
            false,
        ),
{
    let low = ascii::lower_all(e);
    lemma_extension_of(stem, e);
    lemma_documents(low);
}

/// A file is an image exactly where what follows the last dot of its name, the case
/// of ASCII letters aside, is one of `jpg`, `jpeg`, `png`, `gif`, `bmp`, `webp`, `tif`, `tiff`, `svg`, `ico`, `heic`, `raw`, `psd`.
pub proof fn law_images_by_extension(stem: Seq<u8>, e: Seq<u8>)
    requires
        forall|i: int| 0 <= i < e.len() ==> #[trigger] e[i] != 46,
    ensures
        passes(Category::Image, stem + seq![46u8] + e, false) <==> {
            ||| ascii::lower_all(e) == seq![106u8, 112, 103]
            ||| ascii::lower_all(e) == seq![106u8, 112, 101, 103]
            ||| ascii::lower_all(e) == seq![112u8, 110, 103]
            ||| ascii::lower_all(e) == seq![103u8, 105, 102]
            ||| ascii::lower_all(e) == seq![98u8, 109, 112]
            ||| ascii::lower_all(e) == seq![119u8, 101, 98, 112]
            ||| ascii::lower_all(e) == seq![116u8, 105, 102]
            ||| ascii::lower_all(e) == seq![116u8, 105, 102, 102]
            ||| ascii::lower_all(e) == seq![115u8, 118, 103]
            ||| ascii::lower_all(e) == seq![105u8, 99, 111]
            ||| ascii::lower_all(e) == seq![104u8, 101, 105, 99]
            ||| ascii::lower_all(e) == seq![114u8, 97, 119]
            ||| ascii::lower_all(e) == seq![112u8, 115, 100]
        },
        category_of(stem + seq![46u8] + e, false) == Category::Image <==> passes(
            Category::Image,
            stem + seq![46u8] + e,
            false,
        ),
{
    let low = ascii::lower_all(e);
    lemma_extension_of(stem, e);
    lemma_documents(low);
    lemma_images(low);
    lemma_images_are_no_documents(low);
}

/// A file is a video exactly where what follows the last dot of its name, the case
/// of ASCII letters aside, is one of `mp4`, `mkv`, `avi`, `mov`, `wmv`, `flv`, `webm`, `m4v`, `mpg`, `mpeg`, `ts`, `3gp`, `rmvb`.
pub proof fn law_videos_by_extension(stem: Seq<u8>, e: Seq<u8>)
    requires
        forall|i: int| 0 <= i < e.len() ==> #[trigger] e[i] != 46,
    ensures
        passes(Category::Video, stem + seq![46u8] + e, false) <==> {
            ||| ascii::lower_all(e) == seq![109u8, 112, 52]
            ||| ascii::lower_all(e) == seq![109u8, 107, 118]
            ||| ascii::lower_all(e) == seq![97u8, 118, 105]
            ||| ascii::lower_all(e) == seq![109u8, 111, 118]
            ||| ascii::lower_all(e) == seq![119u8, 109, 118]
            ||| ascii::lower_all(e) == seq![102u8, 108, 118]
            ||| ascii::lower_all(e) == seq![119u8, 101, 98, 109]
            ||| ascii::lower_all(e) == seq![109u8, 52, 118]
            ||| ascii::lower_all(e) == seq![109u8, 112, 103]
            ||| ascii::lower_all(e) == seq![109u8, 112, 101, 103]
            ||| ascii::lower_all(e) == seq![116u8, 115]
            ||| ascii::lower_all(e) == seq![51u8, 103, 112]
            ||| ascii::lower_all(e) == seq![114u8, 109, 118, 98]
        },
        category_of(stem + seq![46u8] + e, false) == Category::Video <==> passes(
            Category::Video,
            stem + seq![46u8] + e,
            false,
        ),
{
    let low = ascii::lower_all(e);
    lemma_extension_of(stem, e);
    lemma_documents(low);
    lemma_images(low);
    lemma_videos(low);
    lemma_videos_are_no_documents(low);
    lemma_videos_are_no_images(low);
}

/// A file is a sound file exactly where what follows the last dot of its name, the case
/// of ASCII letters aside, is one of `mp3`, `wav`, `flac`, `aac`, `ogg`, `m4a`, `wma`, `opus`, `aiff`.
pub proof fn law_sounds_by_extension(stem: Seq<u8>, e: Seq<u8>)
    requires
        forall|i: int| 0 <= i < e.len() ==> #[trigger] e[i] != 46,
    ensures
        passes(Category::Audio, stem + seq![46u8] + e, false) <==> {
            ||| ascii::lower_all(e) == seq![109u8, 112, 51]
            ||| ascii::lower_all(e) == seq![119u8, 97, 118]
            ||| ascii::lower_all(e) == seq![102u8, 108, 97, 99]
            ||| ascii::lower_all(e) == seq![97u8, 97, 99]
            ||| ascii::lower_all(e) == seq![111u8, 103, 103]
            ||| ascii::lower_all(e) == seq![109u8, 52, 97]
            ||| ascii::lower_all(e) == seq![119u8, 109, 97]
            ||| ascii::lower_all(e) == seq![111u8, 112, 117, 115]
            ||| ascii::lower_all(e) == seq![97u8, 105, 102, 102]
        },
        category_of(stem + seq![46u8] + e, false) == Category::Audio <==> passes(
            Category::Audio,
            stem + seq![46u8] + e,
            false,
        ),
{
    let low = ascii::lower_all(e);
    lemma_extension_of(stem, e);
    lemma_documents(low);
    lemma_images(low);
    lemma_videos(low);
    lemma_sounds(low);
    lemma_sounds_are_no_documents(low);
    lemma_sounds_are_no_images(low);
    lemma_sounds_are_no_videos(low);
}

/// A folder is a folder whatever its name, a file never is, and a file without a
/// dot in its name, or with none of the known extensions, is none of the others.
pub proof fn law_folders_and_other_files(name: Seq<u8>, is_dir: bool)
    ensures
        category_of(name, true) == Category::Folder,
        passes(Category::Folder, name, is_dir) == is_dir,
        passes(Category::All, name, is_dir),
        (forall|i: int| 0 <= i < name.len() ==> #[trigger] name[i] != 46) ==> category_of(
            name,
            false,
        ) == Category::Other,
        passes(Category::Other, name, is_dir) <==> !is_dir && !passes(
            Category::Document,
            name,
            false,
        ) && !passes(Category::Image, name, false) && !passes(Category::Video, name, false)
            && !passes(Category::Audio, name, false),
{
    if forall|i: int| 0 <= i < name.len() ==> #[trigger] name[i] != 46 {
        lemma_last_dot(name);
        lemma_no_empty_ext();
    }
}

} // verus!
