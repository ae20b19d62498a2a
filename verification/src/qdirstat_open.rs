//! Opening backups with the QDirStat program.
use vstd::prelude::*;

use crate::file_type::{joined_names, resolve_file_type, resolved_type, BackupFileType};
use crate::logging::CommonOpt;

verus! {

/// Options for opening a backup.
#[derive(Debug)]
pub struct QDirStatOpenOpts {
    pub common: CommonOpt,
    pub file_type: BackupFileType,
    /// The root path to show instead of the one in the backup.
    pub root: Option<String>,
}

/// How the program gets a cache file that it can read.
#[derive(Debug, Clone, Copy, PartialEq, Eq, Structural)]
pub enum CachePlan {
    /// It reads the input file itself.
    Forward,
    /// The input is compressed to a temporary file.
    Compress,
    /// The input is copied to a temporary file.
    Copy,
    /// The input is a list of records that is converted.
    Convert,
    /// The input is a compressed list of records that is converted.
    DecompressAndConvert,
}

/// Why no cache file is made.
#[derive(Debug)]
pub enum CacheError {
    /// The type of the input is not known.
    UnknownType,
    /// The type of the input is not supported, with a text about that.
    Unsupported(String),
}

/// The types of input that can be opened.
pub open spec fn supported_types() -> Seq<BackupFileType> {
    seq![
        BackupFileType::WizTreeCsv,
        BackupFileType::WizTreeCsvGzip,
        BackupFileType::QDirStatCache,
        BackupFileType::QDirStatCacheGzip,
    ]
}

/// How input of the given type is opened, `None` if it is not supported. The program
/// can read cache files, but not from its standard input.
pub open spec fn cache_plan(file_type: BackupFileType, has_input_file: bool) -> Option<CachePlan> {
    match file_type {
        BackupFileType::WizTreeCsv => Some(CachePlan::Convert),
        BackupFileType::WizTreeCsvGzip => Some(CachePlan::DecompressAndConvert),
        BackupFileType::QDirStatCache => if has_input_file {
            Some(CachePlan::Forward)
        } else {
            Some(CachePlan::Compress)
        },
        BackupFileType::QDirStatCacheGzip => if has_input_file {
            Some(CachePlan::Forward)
        } else {
            Some(CachePlan::Copy)
        },
        _ => None,
    }
}

impl QDirStatOpenOpts {
    /// Decides how the program gets a cache file, for input whose type was guessed
    /// from its name.
    pub fn convert_to_qdirstat_cache(
        &self,
        has_input_file: bool,
        guessed: Option<BackupFileType>,
    ) -> (plan: Result<CachePlan, CacheError>)
        ensures
            match resolved_type(self.file_type, guessed) {
                None => plan matches Err(CacheError::UnknownType),
                Some(file_type) => match cache_plan(file_type, has_input_file) {
                    Some(wanted) => plan matches Ok(p) && p == wanted,
                    None => plan matches Err(CacheError::Unsupported(text)) && text@
                        == "File type was "@ + file_type.name()
                        + " but only the following formats are supported: "@ + joined_names(
                        supported_types(),
                    ),
                },
            },
    {
        let file_type = match resolve_file_type(self.file_type, guessed) {
            Some(file_type) => file_type,
            None => {
                return Err(CacheError::UnknownType);
            },
        };
        let mut types: Vec<BackupFileType> = Vec::new();
        types.push(BackupFileType::WizTreeCsv);
        types.push(BackupFileType::WizTreeCsvGzip);
        types.push(BackupFileType::QDirStatCache);
        types.push(BackupFileType::QDirStatCacheGzip);
        proof {
            assert(types@ == supported_types());
            assert(types@[0] == BackupFileType::WizTreeCsv);
            assert(types@[1] == BackupFileType::WizTreeCsvGzip);
            assert(types@[2] == BackupFileType::QDirStatCache);
            assert(types@[3] == BackupFileType::QDirStatCacheGzip);
        }
        if let Err(text) = file_type.ensure_valid_type(&types) {
            return Err(CacheError::Unsupported(text));
        }
        Ok(
            match file_type {
                BackupFileType::WizTreeCsv => CachePlan::Convert,
                BackupFileType::WizTreeCsvGzip => CachePlan::DecompressAndConvert,
                BackupFileType::QDirStatCache => if has_input_file {
                    CachePlan::Forward
                } else {
                    CachePlan::Compress
                },
                _ => if has_input_file {
                    CachePlan::Forward
                } else {
                    CachePlan::Copy
                },
            },
        )
    }
}

/// Exactly the supported types can be opened. The program reads a cache file itself exactly
/// if there is one, and gets a temporary cache file in all other cases.
pub proof fn law_supported_types_are_opened(file_type: BackupFileType, has_input_file: bool)
    ensures
        cache_plan(file_type, has_input_file) is Some <==> supported_types().contains(file_type),
        cache_plan(file_type, has_input_file) == Some(CachePlan::Forward) <==> has_input_file && (
        file_type == BackupFileType::QDirStatCache || file_type
            == BackupFileType::QDirStatCacheGzip),
        cache_plan(file_type, has_input_file) == Some(CachePlan::Convert) <==> file_type
            == BackupFileType::WizTreeCsv,
        cache_plan(file_type, has_input_file) == Some(CachePlan::DecompressAndConvert) <==> file_type
            == BackupFileType::WizTreeCsvGzip,
        cache_plan(file_type, has_input_file) == Some(CachePlan::Compress) <==> !has_input_file
            && file_type == BackupFileType::QDirStatCache,
{
    let types = supported_types();
    assert(types[0] == BackupFileType::WizTreeCsv);
    assert(types[1] == BackupFileType::WizTreeCsvGzip);
    assert(types[2] == BackupFileType::QDirStatCache);
    assert(types[3] == BackupFileType::QDirStatCacheGzip);
}

} // verus!
