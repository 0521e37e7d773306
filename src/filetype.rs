use vstd::prelude::*;

verus! {

/// The format a document is read in.
#[derive(Clone, Copy, Debug, PartialEq, Eq, Structural)]
pub enum FileType {
    Json,
    Yaml,
}

/// The format a file extension names.
pub open spec fn extension_type(ext: Seq<char>) -> Option<FileType> {
    if ext == "yaml"@ || ext == "yml"@ {
        Some(FileType::Yaml)
    } else if ext == "json"@ {
        Some(FileType::Json)
    } else {
        None
    }
}

/// The text after the last dot of `s`; all of `s` where it has no dot.
pub open spec fn after_last_dot(s: Seq<char>) -> Seq<char>
    decreases s.len(),
{
    if s.len() == 0 || s.last() == '.' {
        Seq::empty()
    } else {
        after_last_dot(s.drop_last()).push(s.last())
    }
}

/// Whether `s` holds a dot, and so has an extension.
pub open spec fn has_dot(s: Seq<char>) -> bool {
    exists|i: int| 0 <= i < s.len() && s[i] == '.'
}

/// The format of a file: the one named explicitly, else the one its name's
/// extension names, else JSON. A name without a dot has no extension.
pub open spec fn chosen_type(flag: Option<FileType>, file: Option<Seq<char>>) -> FileType {
    match flag {
        Some(t) => t,
        None => match file {
            Some(f) => if has_dot(f) {
                match extension_type(after_last_dot(f)) {
                    Some(t) => t,
                    None => FileType::Json,
                }
            } else {
                FileType::Json
            },
            None => FileType::Json,
        },
    }
}

impl FileType {
    /// The format that an extension names: `yaml` and `yml` name YAML, `json`
    /// names JSON.
    pub fn for_extension(ext: &str) -> (r: Option<FileType>)
        ensures
            r == extension_type(ext@),
    {
        let e = String::from_str(ext);
        if e == String::from_str("yaml") || e == String::from_str("yml") {
            Some(FileType::Yaml)
        } else if e == String::from_str("json") {
            Some(FileType::Json)
        } else {
            None
        }
    }
}

/// The extension of a file name: the text after its last dot, or the whole
/// name where it has none.
pub fn get_extension(filename: &str) -> (r: &str)
    ensures
        r@ == after_last_dot(filename@),
{
    let n = filename.unicode_len();
    let mut i: usize = n;
    while i > 0 && filename.get_char(i - 1) != '.'
        invariant
            n == filename@.len(),
            i <= n,
            after_last_dot(filename@.subrange(0, n as int)) == after_last_dot(
                filename@.subrange(0, i as int),
            ) + filename@.subrange(i as int, n as int),
        decreases i,
    {
        let ghost s = filename@;
        assert(s.subrange(0, i as int).drop_last() =~= s.subrange(0, i - 1));
        assert(s.subrange(i - 1, n as int) =~= seq![s[i - 1]] + s.subrange(i as int, n as int));
        assert(after_last_dot(s.subrange(0, i as int)) == after_last_dot(s.subrange(0, i - 1)).push(
            s[i - 1],
        ));
        assert(after_last_dot(s.subrange(0, i as int)) + s.subrange(i as int, n as int)
            =~= after_last_dot(s.subrange(0, i - 1)) + s.subrange(i - 1, n as int));
        i -= 1;
    }
    assert(filename@.subrange(0, n as int) =~= filename@);
    assert(after_last_dot(filename@.subrange(0, i as int)) =~= Seq::<char>::empty());
    assert(Seq::<char>::empty() + filename@.subrange(i as int, n as int) =~= filename@.subrange(
        i as int,
        n as int,
    ));
    filename.substring_char(i, n)
}

/// Whether `s` holds a dot.
pub fn contains_dot(s: &str) -> (r: bool)
    ensures
        r == has_dot(s@),
{
    let n = s.unicode_len();
    let mut i: usize = 0;
    while i < n
        invariant
            n == s@.len(),
            i <= n,
            forall|j: int| 0 <= j < i ==> s@[j] != '.',
        decreases n - i,
    {
        if s.get_char(i) == '.' {
            return true;
        }
        i += 1;
    }
    false
}

/// The format to read a source in: `flag` where given, else the one the
/// extension of `file` names, else JSON.
pub fn resolve_filetype(flag: Option<FileType>, file: Option<&str>) -> (r: FileType)
    ensures
        r == chosen_type(
            flag,
            match file {
                Some(f) => Some(f@),
                None => None,
            },
        ),
{
    match flag {
        Some(t) => t,
        None => match file {
            Some(f) => if contains_dot(f) {
                match FileType::for_extension(get_extension(f)) {
                    Some(t) => t,
                    None => FileType::Json,
                }
            } else {
                FileType::Json
            },
            None => FileType::Json,
        },
    }
}

} // verus!
