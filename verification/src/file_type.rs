//! The formats of files with information about a file system.
use vstd::prelude::*;

use crate::text::same_text;
use crate::text_lines::{
    ascii_lower, ends_with, is_ascii, lowercase, text_ends_with, to_lowercase,
};

verus! {

/// How a fake file system is provided.
#[derive(Debug, Clone, Copy, PartialEq, Eq, PartialOrd, Ord, Structural)]
pub enum FileSystemType {
    WinFsp,
    WebDav,
}

/// The format of a backup file.
#[derive(Debug, Clone, Copy, PartialEq, Eq, PartialOrd, Ord, Structural)]
pub enum BackupFileType {
    /// To be guessed from the name of the file.
    Auto,
    WizTreeCsv,
    WizTreeCsvGzip,
    QDirStatCache,
    QDirStatCacheGzip,
    EDirStatSnapshot,
    EDirStatSnapshotZstd,
}

/// The file type that a file name in lower case stands for.
pub open spec fn type_of_name(lower: Seq<char>) -> Option<BackupFileType> {
    if ends_with(lower, ".csv.gz"@) {
        Some(BackupFileType::WizTreeCsvGzip)
    } else if ends_with(lower, ".csv"@) {
        Some(BackupFileType::WizTreeCsv)
    } else if ends_with(lower, ".cache.gz"@) {
        Some(BackupFileType::QDirStatCacheGzip)
    } else if ends_with(lower, ".cache"@) {
        Some(BackupFileType::QDirStatCache)
    } else if ends_with(lower, ".edst.zst"@) {
        Some(BackupFileType::EDirStatSnapshotZstd)
    } else if ends_with(lower, ".edst"@) {
        Some(BackupFileType::EDirStatSnapshot)
    } else {
        None
    }
}

/// All file types.
pub open spec fn all_types() -> Seq<BackupFileType> {
    seq![
        BackupFileType::Auto,
        BackupFileType::WizTreeCsv,
        BackupFileType::WizTreeCsvGzip,
        BackupFileType::QDirStatCache,
        BackupFileType::QDirStatCacheGzip,
        BackupFileType::EDirStatSnapshot,
        BackupFileType::EDirStatSnapshotZstd,
    ]
}

/// The first of some file types whose name in lower case is the given text.
pub open spec fn type_with_name(types: Seq<BackupFileType>, lower: Seq<char>) -> Option<
    BackupFileType,
>
    decreases types.len(),
{
    if types.len() == 0 {
        None
    } else if lowercase(types[0].name()) == lower {
        Some(types[0])
    } else {
        type_with_name(types.skip(1), lower)
    }
}

/// The names of file types with commas between them.
pub open spec fn joined_names(types: Seq<BackupFileType>) -> Seq<char>
    decreases types.len(),
{
    if types.len() == 0 {
        seq![]
    } else if types.len() == 1 {
        types[0].name()
    } else {
        joined_names(types.drop_last()) + ", "@ + types.last().name()
    }
}

impl BackupFileType {
    /// The name of the file type.
    pub open spec fn name(self) -> Seq<char> {
        match self {
            BackupFileType::Auto => "auto"@,
            BackupFileType::WizTreeCsv => "wiztree-csv"@,
            BackupFileType::WizTreeCsvGzip => "wiztree-csv-gzip"@,
            BackupFileType::QDirStatCache => "qdirstat-cache"@,
            BackupFileType::QDirStatCacheGzip => "qdirstat-cache-gzip"@,
            BackupFileType::EDirStatSnapshot => "edirstat-snapshot"@,
            BackupFileType::EDirStatSnapshotZstd => "edirstat-snapshot-zstd"@,
        }
    }

    /// Guess the file type from a file name.
    pub fn from_file_name(name: &str) -> (result: Option<Self>)
        ensures
            result == type_of_name(lowercase(name@)),
    {
        let lower = to_lowercase(name);
        Self::from_lowercase_name(lower.as_str())
    }

    /// Guess the file type from a file name in lower case.
    pub fn from_lowercase_name(lower: &str) -> (result: Option<Self>)
        ensures
            result == type_of_name(lower@),
    {
        if text_ends_with(lower, ".csv.gz") {
            Some(BackupFileType::WizTreeCsvGzip)
        } else if text_ends_with(lower, ".csv") {
            Some(BackupFileType::WizTreeCsv)
        } else if text_ends_with(lower, ".cache.gz") {
            Some(BackupFileType::QDirStatCacheGzip)
        } else if text_ends_with(lower, ".cache") {
            Some(BackupFileType::QDirStatCache)
        } else if text_ends_with(lower, ".edst.zst") {
            Some(BackupFileType::EDirStatSnapshotZstd)
        } else if text_ends_with(lower, ".edst") {
            Some(BackupFileType::EDirStatSnapshot)
        } else {
            None
        }
    }

    /// Guess the file type from the file name of a path, if it has one.
    pub fn from_file_path(file_name: Option<&str>) -> (result: Option<Self>)
        ensures
            result == match file_name {
                Some(name) => type_of_name(lowercase(name@)),
                None => None,
            },
    {
        match file_name {
            Some(name) => Self::from_file_name(name),
            None => None,
        }
    }

    /// An error if the file type is not one of the valid types.
    pub fn ensure_valid_type(self, valid_types: &Vec<BackupFileType>) -> (result: Result<
        (),
        String,
    >)
        ensures
            result is Ok <==> valid_types@.contains(self),
            result matches Err(text) ==> text@ == "File type was "@ + self.name()
                + " but only the following formats are supported: "@ + joined_names(valid_types@),
    {
        let mut names = String::new();
        let mut i: usize = 0;
        assert(valid_types@.take(0) == Seq::<BackupFileType>::empty());
        while i < valid_types.len()
            invariant
                i <= valid_types@.len(),
                names@ == joined_names(valid_types@.take(i as int)),
                forall|k: int| 0 <= k < i ==> valid_types@[k] != self,
            decreases valid_types@.len() - i,
        {
            let valid = valid_types[i];
            if valid == self {
                assert(valid_types@[i as int] == self);
                return Ok(());
            }
            proof {
                assert(valid_types@.take(i + 1).drop_last() == valid_types@.take(i as int));
                assert(valid_types@.take(i + 1).last() == valid);
            }
            if i > 0 {
                names.append(", ");
            }
            names.append(valid.as_str());
            i = i + 1;
        }
        assert(valid_types@.take(i as int) == valid_types@);
        let mut text: String = "File type was ".to_owned();
        text.append(self.as_str());
        text.append(" but only the following formats are supported: ");
        text.append(names.as_str());
        Err(text)
    }

    pub fn as_str(self) -> (name: &'static str)
        ensures
            name@ == self.name(),
    {
        match self {
            BackupFileType::Auto => "auto",
            BackupFileType::WizTreeCsv => "wiztree-csv",
            BackupFileType::WizTreeCsvGzip => "wiztree-csv-gzip",
            BackupFileType::QDirStatCache => "qdirstat-cache",
            BackupFileType::QDirStatCacheGzip => "qdirstat-cache-gzip",
            BackupFileType::EDirStatSnapshot => "edirstat-snapshot",
            BackupFileType::EDirStatSnapshotZstd => "edirstat-snapshot-zstd",
        }
    }

    /// All file types.
    pub fn all() -> (types: Vec<Self>)
        ensures
            types@ == all_types(),
    {
        let mut types: Vec<Self> = Vec::new();
        types.push(BackupFileType::Auto);
        types.push(BackupFileType::WizTreeCsv);
        types.push(BackupFileType::WizTreeCsvGzip);
        types.push(BackupFileType::QDirStatCache);
        types.push(BackupFileType::QDirStatCacheGzip);
        types.push(BackupFileType::EDirStatSnapshot);
        types.push(BackupFileType::EDirStatSnapshotZstd);
        assert(types@ == all_types());
        types
    }

    /// The file type with the given name, in upper or lower case. An error is a text
    /// about the name.
    pub fn from_str(name: &str) -> (result: Result<Self, String>)
        ensures
            match type_with_name(all_types(), lowercase(name@)) {
                Some(found) => result matches Ok(t) && t == found,
                None => result matches Err(text) && text@ == "\""@ + name@
                    + "\" is not a valid backup file type"@,
            },
            forall|t: BackupFileType|
                name@ == #[trigger] t.name() ==> (result matches Ok(found) && found == t),
    {
        let lower = to_lowercase(name);
        let types = Self::all();
        let mut i: usize = 0;
        proof {
            assert(types@.skip(0) == types@);
            assert forall|t: BackupFileType| name@ == #[trigger] t.name() implies lower@
                == name@ by {
                lemma_name_is_lower(t);
                assert(name@.map_values(|c: char| ascii_lower(c)) == name@);
            }
        }
        while i < types.len()
            invariant
                i <= types@.len(),
                types@ == all_types(),
                lower@ == lowercase(name@),
                forall|t: BackupFileType| name@ == #[trigger] t.name() ==> lower@ == name@,
                forall|t: BackupFileType| name@ == #[trigger] t.name() ==> !types@.take(
                    i as int,
                ).contains(t),
                type_with_name(types@, lower@) == type_with_name(types@.skip(i as int), lower@),
            decreases types@.len() - i,
        {
            let file_type = types[i];
            proof {
                assert(types@.skip(i as int)[0] == file_type);
                assert(types@.skip(i as int).skip(1) == types@.skip(i + 1));
                lemma_name_is_lower(file_type);
            }
            let own = to_lowercase(file_type.as_str());
            assert(file_type.name().map_values(|c: char| ascii_lower(c)) == file_type.name());
            if same_text(own.as_str(), lower.as_str()) {
                proof {
                    assert forall|t: BackupFileType| name@ == #[trigger] t.name() implies t
                        == file_type by {
                        lemma_names_differ(t, file_type);
                    }
                }
                return Ok(file_type);
            }
            proof {
                assert(types@.take(i + 1) == types@.take(i as int).push(file_type));
                assert forall|t: BackupFileType| name@ == #[trigger] t.name() implies !types@.take(
                    i + 1,
                ).contains(t) by {
                    let more = types@.take(i + 1);
                    if more.contains(t) {
                        let k = choose|k: int| 0 <= k < more.len() && more[k] == t;
                        if k < i {
                            assert(types@.take(i as int)[k] == t);
                            assert(types@.take(i as int).contains(t));
                        }
                    }
                }
            }
            i = i + 1;
        }
        proof {
            assert(types@.skip(i as int) == Seq::<BackupFileType>::empty());
            assert(types@.take(i as int) == types@);
            assert forall|t: BackupFileType| name@ != #[trigger] t.name() by {
                lemma_all_types(t);
            }
        }
        let mut text: String = "\"".to_owned();
        text.append(name);
        text.append("\" is not a valid backup file type");
        Err(text)
    }
}

proof fn lemma_all_types(t: BackupFileType)
    ensures
        all_types().contains(t),
{
    let all = all_types();
    assert(all[0] == BackupFileType::Auto);
    assert(all[1] == BackupFileType::WizTreeCsv);
    assert(all[2] == BackupFileType::WizTreeCsvGzip);
    assert(all[3] == BackupFileType::QDirStatCache);
    assert(all[4] == BackupFileType::QDirStatCacheGzip);
    assert(all[5] == BackupFileType::EDirStatSnapshot);
    assert(all[6] == BackupFileType::EDirStatSnapshotZstd);
}

proof fn lemma_name_is_lower(t: BackupFileType)
    ensures
        is_ascii(t.name()),
        forall|i: int|
            0 <= i < t.name().len() ==> ascii_lower(#[trigger] t.name()[i]) == t.name()[i],
{
    reveal_strlit("auto");
    reveal_strlit("wiztree-csv");
    reveal_strlit("wiztree-csv-gzip");
    reveal_strlit("qdirstat-cache");
    reveal_strlit("qdirstat-cache-gzip");
    reveal_strlit("edirstat-snapshot");
    reveal_strlit("edirstat-snapshot-zstd");
}

proof fn lemma_names_differ(a: BackupFileType, b: BackupFileType)
    requires
        a.name() == b.name(),
    ensures
        a == b,
{
    reveal_strlit("auto");
    reveal_strlit("wiztree-csv");
    reveal_strlit("wiztree-csv-gzip");
    reveal_strlit("qdirstat-cache");
    reveal_strlit("qdirstat-cache-gzip");
    reveal_strlit("edirstat-snapshot");
    reveal_strlit("edirstat-snapshot-zstd");
    assert("auto"@.len() == 4);
    assert("wiztree-csv"@.len() == 11);
    assert("wiztree-csv-gzip"@.len() == 16);
    assert("qdirstat-cache"@.len() == 14);
    assert("qdirstat-cache-gzip"@.len() == 19);
    assert("edirstat-snapshot"@.len() == 17);
    assert("edirstat-snapshot-zstd"@.len() == 22);
}

/// The file type of some input: the given one, or else the one that was guessed.
/// `None` if neither is known.
pub open spec fn resolved_type(
    given: BackupFileType,
    guessed: Option<BackupFileType>,
) -> Option<BackupFileType> {
    if given != BackupFileType::Auto {
        Some(given)
    } else {
        match guessed {
            Some(BackupFileType::Auto) => None,
            _ => guessed,
        }
    }
}

/// The file type of some input: the given one, or else the one that was guessed.
pub fn resolve_file_type(given: BackupFileType, guessed: Option<BackupFileType>) -> (result: Option<
    BackupFileType,
>)
    ensures
        result == resolved_type(given, guessed),
{
    if given != BackupFileType::Auto {
        return Some(given);
    }
    match guessed {
        Some(BackupFileType::Auto) => None,
        _ => guessed,
    }
}

/// The file type of a file extension: `gz` and `csv` are known.
pub open spec fn type_of_extension(lower: Seq<char>) -> Option<BackupFileType> {
    if lower == "gz"@ {
        Some(BackupFileType::WizTreeCsvGzip)
    } else if lower == "csv"@ {
        Some(BackupFileType::WizTreeCsv)
    } else {
        None
    }
}

/// Guess the type of a file to open with WizTree from its extension, if it has one.
pub fn wiz_tree_type_of_extension(extension: Option<&str>) -> (result: Option<BackupFileType>)
    ensures
        result == match extension {
            Some(extension) => type_of_extension(lowercase(extension@)),
            None => None,
        },
{
    match extension {
        Some(extension) => {
            let lower = to_lowercase(extension);
            if same_text(lower.as_str(), "gz") {
                Some(BackupFileType::WizTreeCsvGzip)
            } else if same_text(lower.as_str(), "csv") {
                Some(BackupFileType::WizTreeCsv)
            } else {
                None
            }
        },
        None => None,
    }
}

/// How a list of records is stored.
#[derive(Debug, Clone, Copy, PartialEq, Eq, Structural)]
pub enum CsvInput {
    Plain,
    Compressed,
}

/// Why a backup cannot be read as a list of records.
#[derive(Debug)]
pub enum CsvInputError {
    /// The type of the backup is not known.
    UnknownType,
    /// The type of the backup is not supported, with a text about that.
    Unsupported(String),
}

/// Whether a backup of the given type can be read as a list of records, with an error
/// text if it cannot.
pub open spec fn is_csv_input(
    result: Result<CsvInput, CsvInputError>,
    file_type: Option<BackupFileType>,
) -> bool {
    match file_type {
        None => result matches Err(CsvInputError::UnknownType),
        Some(BackupFileType::WizTreeCsv) => result matches Ok(CsvInput::Plain),
        Some(BackupFileType::WizTreeCsvGzip) => result matches Ok(CsvInput::Compressed),
        Some(other) => result matches Err(CsvInputError::Unsupported(text)) && text@
            == "File type was "@ + other.name()
            + " but only the following formats are supported: "@ + joined_names(
            seq![BackupFileType::WizTreeCsv, BackupFileType::WizTreeCsvGzip],
        ),
    }
}

/// Decides how to read a list of records from a backup, whose type is given or else
/// the one that was guessed.
pub fn csv_input(given: BackupFileType, guessed: Option<BackupFileType>) -> (result: Result<
    CsvInput,
    CsvInputError,
>)
    ensures
        is_csv_input(result, resolved_type(given, guessed)),
{
    let file_type = match resolve_file_type(given, guessed) {
        Some(file_type) => file_type,
        None => {
            return Err(CsvInputError::UnknownType);
        },
    };
    match file_type {
        BackupFileType::WizTreeCsv => Ok(CsvInput::Plain),
        BackupFileType::WizTreeCsvGzip => Ok(CsvInput::Compressed),
        _ => {
            let mut types: Vec<BackupFileType> = Vec::new();
            types.push(BackupFileType::WizTreeCsv);
            types.push(BackupFileType::WizTreeCsvGzip);
            assert(types@ == seq![BackupFileType::WizTreeCsv, BackupFileType::WizTreeCsvGzip]);
            match file_type.ensure_valid_type(&types) {
                Ok(()) => {
                    assert(false);
                    Err(CsvInputError::UnknownType)
                },
                Err(text) => Err(CsvInputError::Unsupported(text)),
            }
        },
    }
}

/// A file name tells its type by its extension, whatever is in front of it.
pub proof fn law_extensions_tell_types(stem: Seq<char>)
    ensures
        type_of_name(stem + ".csv"@) == Some(BackupFileType::WizTreeCsv),
        type_of_name(stem + ".csv.gz"@) == Some(BackupFileType::WizTreeCsvGzip),
        type_of_name(stem + ".cache"@) == Some(BackupFileType::QDirStatCache),
        type_of_name(stem + ".cache.gz"@) == Some(BackupFileType::QDirStatCacheGzip),
        type_of_name(stem + ".edst"@) == Some(BackupFileType::EDirStatSnapshot),
        type_of_name(stem + ".edst.zst"@) == Some(BackupFileType::EDirStatSnapshotZstd),
{
    reveal_strlit(".csv");
    reveal_strlit(".csv.gz");
    reveal_strlit(".cache");
    reveal_strlit(".cache.gz");
    reveal_strlit(".edst");
    reveal_strlit(".edst.zst");
    lemma_ends(stem, ".csv"@);
    lemma_ends(stem, ".csv.gz"@);
    lemma_ends(stem, ".cache"@);
    lemma_ends(stem, ".cache.gz"@);
    lemma_ends(stem, ".edst"@);
    lemma_ends(stem, ".edst.zst"@);
    lemma_other_end(stem + ".csv"@, ".csv.gz"@, 1);
    lemma_other_end(stem + ".cache"@, ".csv.gz"@, 1);
    lemma_other_end(stem + ".cache"@, ".csv"@, 1);
    lemma_other_end(stem + ".cache"@, ".cache.gz"@, 1);
    lemma_other_end(stem + ".cache.gz"@, ".csv.gz"@, 4);
    lemma_other_end(stem + ".cache.gz"@, ".csv"@, 1);
    lemma_other_end(stem + ".edst"@, ".csv.gz"@, 1);
    lemma_other_end(stem + ".edst"@, ".csv"@, 1);
    lemma_other_end(stem + ".edst"@, ".cache.gz"@, 1);
    lemma_other_end(stem + ".edst"@, ".cache"@, 1);
    lemma_other_end(stem + ".edst"@, ".edst.zst"@, 5);
    lemma_other_end(stem + ".edst.zst"@, ".csv.gz"@, 1);
    lemma_other_end(stem + ".edst.zst"@, ".csv"@, 1);
    lemma_other_end(stem + ".edst.zst"@, ".cache.gz"@, 1);
    lemma_other_end(stem + ".edst.zst"@, ".cache"@, 1);
}

proof fn lemma_ends(stem: Seq<char>, end: Seq<char>)
    ensures
        ends_with(stem + end, end),
{
    let all = stem + end;
    assert(all.skip(all.len() - end.len()) == end);
}

/// A text does not end with another one if some character at the end differs.
proof fn lemma_other_end(text: Seq<char>, end: Seq<char>, k: int)
    requires
        0 < k <= end.len(),
        k <= text.len(),
        text[text.len() - k] != end[end.len() - k],
    ensures
        !ends_with(text, end),
{
    if ends_with(text, end) {
        assert(text.skip(text.len() - end.len())[end.len() - k] == text[text.len() - k]);
    }
}

/// A type that is given is used whatever was guessed. Otherwise the guess is, and a guess
/// alone never leaves the type open.
pub proof fn law_given_types_are_used(given: BackupFileType, guessed: Option<BackupFileType>)
    ensures
        given != BackupFileType::Auto ==> resolved_type(given, guessed) == Some(given),
        given == BackupFileType::Auto && guessed is Some && guessed != Some(BackupFileType::Auto)
            ==> resolved_type(given, guessed) == guessed,
        resolved_type(given, guessed) != Some(BackupFileType::Auto),
        resolved_type(given, guessed) is None <==> given == BackupFileType::Auto && (guessed is None
            || guessed == Some(BackupFileType::Auto)),
{
}

/// A list of records is read exactly from a file of one of the types that have one, as it
/// is or decompressed.
pub proof fn law_lists_of_records_are_read(
    result: Result<CsvInput, CsvInputError>,
    file_type: Option<BackupFileType>,
)
    requires
        is_csv_input(result, file_type),
    ensures
        result is Ok <==> file_type == Some(BackupFileType::WizTreeCsv) || file_type == Some(
            BackupFileType::WizTreeCsvGzip,
        ),
        result matches Ok(input) ==> (input == CsvInput::Compressed <==> file_type == Some(
            BackupFileType::WizTreeCsvGzip,
        )),
        result matches Err(CsvInputError::UnknownType) <==> file_type is None,
{
}

/// The names of file types tell them apart, and each name stands for its type.
pub proof fn law_names_stand_for_types(a: BackupFileType, b: BackupFileType)
    ensures
        a.name() == b.name() ==> a == b,
        all_types().contains(a),
{
    if a.name() == b.name() {
        lemma_names_differ(a, b);
    }
    lemma_all_types(a);
}

} // verus!
