//! Which files a search walks into and reads: hidden entries, the
//! extension filter, and files that look binary.
use vstd::prelude::*;
use crate::text::{lowercase_chars, to_lowercase};

verus! {

/// A name that starts with a dot is hidden.
pub open spec fn hidden_name(name: Seq<char>) -> bool {
    name.len() > 0 && name[0] == '.'
}

/// Whether a directory entry with this name is walked: always when hidden
/// entries are included, else only when its name does not start with a dot.
pub fn entry_visible(name: &str, include_hidden: bool) -> (r: bool)
    ensures
        r == (include_hidden || !hidden_name(name@)),
{
    if include_hidden {
        return true;
    }
    let n = name.unicode_len();
    !(n > 0 && name.get_char(0) == '.')
}

/// The characters of an optional text.
pub open spec fn opt_view(s: Option<&str>) -> Option<Seq<char>> {
    match s {
        Some(t) => Some(t@),
        None => None,
    }
}

/// The file's extension is one of the wanted ones (any extension passes an
/// empty filter; a file without one passes only an empty filter).
pub open spec fn extension_wanted(ext: Option<Seq<char>>, wanted: Seq<String>) -> bool {
    wanted.len() == 0 || (ext is Some && exists|i: int| 0 <= i < wanted.len() && (#[trigger] wanted[i])@ == ext->0)
}

/// Whether a file with extension `ext` passes the extension filter.
pub fn extension_selected(ext: Option<&str>, wanted: &Vec<String>) -> (r: bool)
    ensures
        r == extension_wanted(
opt_view(ext),
            wanted@,
        ),
{
    if wanted.len() == 0 {
        return true;
    }
    match ext {
        None => false,
        Some(e) => {
            let es = String::from_str(e);
            let mut i: usize = 0;
            while i < wanted.len()
                invariant
                    i <= wanted.len(),
                    es@ == e@,
                    ext == Some(e),
                    forall|j: int| 0 <= j < i ==> (#[trigger] wanted@[j])@ != e@,
                decreases wanted.len() - i,
            {
                if wanted[i] == es {
                    assert((wanted@[i as int])@ == e@);
                    return true;
                }
                i += 1;
            }
            false
        },
    }
}

/// Extensions of file types that are not searched as text.
pub open spec fn binary_extensions() -> Seq<&'static str> {
    seq![
        "png", "jpg", "jpeg", "gif", "bmp", "ico", "webp", "svg",
        "mp3", "mp4", "avi", "mov", "mkv", "wav", "flac",
        "pdf", "doc", "docx", "xls", "xlsx", "ppt", "pptx",
        "zip", "tar", "gz", "bz2", "xz", "7z", "rar",
        "exe", "dll", "so", "dylib", "a", "o", "obj",
        "class", "pyc", "pyo", "wasm",
        "ttf", "otf", "woff", "woff2", "eot",
        "db", "sqlite", "sqlite3",
    ]
}

/// The extension, lowercased, is one of `binary_extensions`.
pub open spec fn binary_extension(ext: Seq<char>) -> bool {
    exists|i: int| 0 <= i < binary_extensions().len() && (#[trigger] binary_extensions()[i])@ == lowercase_chars(ext)
}

/// A file looks binary when its extension, lowercased, names a binary file
/// type, or when the first bytes read from it hold a zero byte.
pub open spec fn looks_binary(ext: Option<Seq<char>>, head: Seq<u8>) -> bool {
    (ext is Some && binary_extension(ext->0)) || head.contains(0u8)
}

/// Whether a file should be skipped as binary, given its extension and the
/// bytes of one read of its start (up to 8 KiB).
pub fn is_binary_file(ext: Option<&str>, head: &[u8]) -> (r: bool)
    ensures
        r == looks_binary(
            opt_view(ext),
            head@,
        ),
{
    if let Some(e) = ext {
        let lower = to_lowercase(e);
        let names = vec![
            "png", "jpg", "jpeg", "gif", "bmp", "ico", "webp", "svg",
            "mp3", "mp4", "avi", "mov", "mkv", "wav", "flac",
            "pdf", "doc", "docx", "xls", "xlsx", "ppt", "pptx",
            "zip", "tar", "gz", "bz2", "xz", "7z", "rar",
            "exe", "dll", "so", "dylib", "a", "o", "obj",
            "class", "pyc", "pyo", "wasm",
            "ttf", "otf", "woff", "woff2", "eot",
            "db", "sqlite", "sqlite3",
        ];
        assert(names@ == binary_extensions());
        let mut i: usize = 0;
        while i < names.len()
            invariant
                i <= names.len(),
                names@ == binary_extensions(),
                lower@ == lowercase_chars(e@),
                ext == Some(e),
                forall|j: int| 0 <= j < i ==> (#[trigger] names@[j])@ != lower@,
            decreases names.len() - i,
        {
            if String::from_str(names[i]) == lower {
                assert((binary_extensions()[i as int])@ == lowercase_chars(e@));
                return true;
            }
            i += 1;
        }
    }
    let mut k: usize = 0;
    while k < head.len()
        invariant
            k <= head.len(),
            forall|j: int| 0 <= j < k ==> head@[j] != 0u8,
        decreases head.len() - k,
    {
        if head[k] == 0u8 {
            assert(head@[k as int] == 0u8);
            return true;
        }
        k += 1;
    }
    false
}

/// The file types skipped by extension alone: images, audio and video,
/// office documents, archives, executables, libraries and object code, fonts
/// and databases.
pub open spec fn unsearched_file_type(e: Seq<char>) -> bool {
    ||| e == "png"@ || e == "jpg"@ || e == "jpeg"@ || e == "gif"@ || e == "bmp"@ || e == "ico"@ || e == "webp"@ || e == "svg"@
    ||| e == "mp3"@ || e == "mp4"@ || e == "avi"@ || e == "mov"@ || e == "mkv"@ || e == "wav"@ || e == "flac"@
    ||| e == "pdf"@ || e == "doc"@ || e == "docx"@ || e == "xls"@ || e == "xlsx"@ || e == "ppt"@ || e == "pptx"@
    ||| e == "zip"@ || e == "tar"@ || e == "gz"@ || e == "bz2"@ || e == "xz"@ || e == "7z"@ || e == "rar"@
    ||| e == "exe"@ || e == "dll"@ || e == "so"@ || e == "dylib"@ || e == "a"@ || e == "o"@ || e == "obj"@ || e == "class"@ || e == "pyc"@ || e == "pyo"@ || e == "wasm"@
    ||| e == "ttf"@ || e == "otf"@ || e == "woff"@ || e == "woff2"@ || e == "eot"@
    ||| e == "db"@ || e == "sqlite"@ || e == "sqlite3"@
}

/// Exactly the extensions of `unsearched_file_type` are skipped by name.
proof fn lemma_binary_extension_types(e: Seq<char>)
    ensures
        binary_extension(e) <==> unsearched_file_type(lowercase_chars(e)),
{
    let l = lowercase_chars(e);
    let names = binary_extensions();
    assert(names.len() == 48);
    if binary_extension(e) {
        let i = choose|i: int| 0 <= i < names.len() && (#[trigger] names[i])@ == l;
        if i == 0 {
            assert(names[0] == "png");
        } else if i == 1 {
            assert(names[1] == "jpg");
        } else if i == 2 {
            assert(names[2] == "jpeg");
        } else if i == 3 {
            assert(names[3] == "gif");
        } else if i == 4 {
            assert(names[4] == "bmp");
        } else if i == 5 {
            assert(names[5] == "ico");
        } else if i == 6 {
            assert(names[6] == "webp");
        } else if i == 7 {
            assert(names[7] == "svg");
        } else if i == 8 {
            assert(names[8] == "mp3");
        } else if i == 9 {
            assert(names[9] == "mp4");
        } else if i == 10 {
            assert(names[10] == "avi");
        } else if i == 11 {
            assert(names[11] == "mov");
        } else if i == 12 {
            assert(names[12] == "mkv");
        } else if i == 13 {
            assert(names[13] == "wav");
        } else if i == 14 {
            assert(names[14] == "flac");
        } else if i == 15 {
            assert(names[15] == "pdf");
        } else if i == 16 {
            assert(names[16] == "doc");
        } else if i == 17 {
            assert(names[17] == "docx");
        } else if i == 18 {
            assert(names[18] == "xls");
        } else if i == 19 {
            assert(names[19] == "xlsx");
        } else if i == 20 {
            assert(names[20] == "ppt");
        } else if i == 21 {
            assert(names[21] == "pptx");
        } else if i == 22 {
            assert(names[22] == "zip");
        } else if i == 23 {
            assert(names[23] == "tar");
        } else if i == 24 {
            assert(names[24] == "gz");
        } else if i == 25 {
            assert(names[25] == "bz2");
        } else if i == 26 {
            assert(names[26] == "xz");
        } else if i == 27 {
            assert(names[27] == "7z");
        } else if i == 28 {
            assert(names[28] == "rar");
        } else if i == 29 {
            assert(names[29] == "exe");
        } else if i == 30 {
            assert(names[30] == "dll");
        } else if i == 31 {
            assert(names[31] == "so");
        } else if i == 32 {
            assert(names[32] == "dylib");
        } else if i == 33 {
            assert(names[33] == "a");
        } else if i == 34 {
            assert(names[34] == "o");
        } else if i == 35 {
            assert(names[35] == "obj");
        } else if i == 36 {
            assert(names[36] == "class");
        } else if i == 37 {
            assert(names[37] == "pyc");
        } else if i == 38 {
            assert(names[38] == "pyo");
        } else if i == 39 {
            assert(names[39] == "wasm");
        } else if i == 40 {
            assert(names[40] == "ttf");
        } else if i == 41 {
            assert(names[41] == "otf");
        } else if i == 42 {
            assert(names[42] == "woff");
        } else if i == 43 {
            assert(names[43] == "woff2");
        } else if i == 44 {
            assert(names[44] == "eot");
        } else if i == 45 {
            assert(names[45] == "db");
        } else if i == 46 {
            assert(names[46] == "sqlite");
        } else if i == 47 {
            assert(names[47] == "sqlite3");
        }
    }
    if unsearched_file_type(l) {
        if l == "png"@ {
            assert(names[0] == "png");
            assert((names[0])@ == l);
        } else if l == "jpg"@ {
            assert(names[1] == "jpg");
            assert((names[1])@ == l);
        } else if l == "jpeg"@ {
            assert(names[2] == "jpeg");
            assert((names[2])@ == l);
        } else if l == "gif"@ {
            assert(names[3] == "gif");
            assert((names[3])@ == l);
        } else if l == "bmp"@ {
            assert(names[4] == "bmp");
            assert((names[4])@ == l);
        } else if l == "ico"@ {
            assert(names[5] == "ico");
            assert((names[5])@ == l);
        } else if l == "webp"@ {
            assert(names[6] == "webp");
            assert((names[6])@ == l);
        } else if l == "svg"@ {
            assert(names[7] == "svg");
            assert((names[7])@ == l);
        } else if l == "mp3"@ {
            assert(names[8] == "mp3");
            assert((names[8])@ == l);
        } else if l == "mp4"@ {
            assert(names[9] == "mp4");
            assert((names[9])@ == l);
        } else if l == "avi"@ {
            assert(names[10] == "avi");
            assert((names[10])@ == l);
        } else if l == "mov"@ {
            assert(names[11] == "mov");
            assert((names[11])@ == l);
        } else if l == "mkv"@ {
            assert(names[12] == "mkv");
            assert((names[12])@ == l);
        } else if l == "wav"@ {
            assert(names[13] == "wav");
            assert((names[13])@ == l);
        } else if l == "flac"@ {
            assert(names[14] == "flac");
            assert((names[14])@ == l);
        } else if l == "pdf"@ {
            assert(names[15] == "pdf");
            assert((names[15])@ == l);
        } else if l == "doc"@ {
            assert(names[16] == "doc");
            assert((names[16])@ == l);
        } else if l == "docx"@ {
            assert(names[17] == "docx");
            assert((names[17])@ == l);
        } else if l == "xls"@ {
            assert(names[18] == "xls");
            assert((names[18])@ == l);
        } else if l == "xlsx"@ {
            assert(names[19] == "xlsx");
            assert((names[19])@ == l);
        } else if l == "ppt"@ {
            assert(names[20] == "ppt");
            assert((names[20])@ == l);
        } else if l == "pptx"@ {
            assert(names[21] == "pptx");
            assert((names[21])@ == l);
        } else if l == "zip"@ {
            assert(names[22] == "zip");
            assert((names[22])@ == l);
        } else if l == "tar"@ {
            assert(names[23] == "tar");
            assert((names[23])@ == l);
        } else if l == "gz"@ {
            assert(names[24] == "gz");
            assert((names[24])@ == l);
        } else if l == "bz2"@ {
            assert(names[25] == "bz2");
            assert((names[25])@ == l);
        } else if l == "xz"@ {
            assert(names[26] == "xz");
            assert((names[26])@ == l);
        } else if l == "7z"@ {
            assert(names[27] == "7z");
            assert((names[27])@ == l);
        } else if l == "rar"@ {
            assert(names[28] == "rar");
            assert((names[28])@ == l);
        } else if l == "exe"@ {
            assert(names[29] == "exe");
            assert((names[29])@ == l);
        } else if l == "dll"@ {
            assert(names[30] == "dll");
            assert((names[30])@ == l);
        } else if l == "so"@ {
            assert(names[31] == "so");
            assert((names[31])@ == l);
        } else if l == "dylib"@ {
            assert(names[32] == "dylib");
            assert((names[32])@ == l);
        } else if l == "a"@ {
            assert(names[33] == "a");
            assert((names[33])@ == l);
        } else if l == "o"@ {
            assert(names[34] == "o");
            assert((names[34])@ == l);
        } else if l == "obj"@ {
            assert(names[35] == "obj");
            assert((names[35])@ == l);
        } else if l == "class"@ {
            assert(names[36] == "class");
            assert((names[36])@ == l);
        } else if l == "pyc"@ {
            assert(names[37] == "pyc");
            assert((names[37])@ == l);
        } else if l == "pyo"@ {
            assert(names[38] == "pyo");
            assert((names[38])@ == l);
        } else if l == "wasm"@ {
            assert(names[39] == "wasm");
            assert((names[39])@ == l);
        } else if l == "ttf"@ {
            assert(names[40] == "ttf");
            assert((names[40])@ == l);
        } else if l == "otf"@ {
            assert(names[41] == "otf");
            assert((names[41])@ == l);
        } else if l == "woff"@ {
            assert(names[42] == "woff");
            assert((names[42])@ == l);
        } else if l == "woff2"@ {
            assert(names[43] == "woff2");
            assert((names[43])@ == l);
        } else if l == "eot"@ {
            assert(names[44] == "eot");
            assert((names[44])@ == l);
        } else if l == "db"@ {
            assert(names[45] == "db");
            assert((names[45])@ == l);
        } else if l == "sqlite"@ {
            assert(names[46] == "sqlite");
            assert((names[46])@ == l);
        } else if l == "sqlite3"@ {
            assert(names[47] == "sqlite3");
            assert((names[47])@ == l);
        }
    }
}

/// A file is skipped as binary exactly when its extension, lowercased, is
/// one of the `unsearched_file_type` extensions, or the head read from it
/// holds a zero byte; any other file, such as Markdown or source code
/// without zero bytes, is searched.
pub proof fn lemma_binary_files(ext: Option<Seq<char>>, head: Seq<u8>)
    ensures
        looks_binary(ext, head) <==> ((ext is Some && unsearched_file_type(lowercase_chars(ext->0)))
            || head.contains(0u8)),
{
    if ext is Some {
        lemma_binary_extension_types(ext->0);
    }
}

/// Names that start with a dot are hidden and no others: `.git` is
/// skipped unless hidden entries are included, `src` never is.
pub proof fn lemma_hidden_names(rest: Seq<char>, c: char)
    ensures
        hidden_name(seq!['.'] + rest),
        c != '.' ==> !hidden_name(seq![c] + rest),
        !hidden_name(Seq::<char>::empty()),
{
    assert((seq!['.'] + rest)[0] == '.');
    assert((seq![c] + rest)[0] == c);
}

/// An empty extension filter lets every file through; otherwise a file
/// passes exactly when its extension is one of the listed ones, exactly as
/// written (case counts).
pub proof fn lemma_extension_filter(ext: Option<Seq<char>>, wanted: Seq<String>)
    ensures
        wanted.len() == 0 ==> extension_wanted(ext, wanted),
        wanted.len() > 0 ==> (extension_wanted(ext, wanted) <==> (ext is Some && exists|i: int|
            0 <= i < wanted.len() && (#[trigger] wanted[i])@ == ext->0)),
        forall|i: int|
            0 <= i < wanted.len() ==> #[trigger] extension_wanted(Some(wanted[i]@), wanted),
        wanted.len() > 0 ==> !extension_wanted(None, wanted),
{
}

} // verus!
