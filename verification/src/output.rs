//! Where and how backup files are written.
use vstd::prelude::*;

verus! {

/// Options about similar output for similar input.
#[derive(Debug, Clone, Copy, PartialEq, Eq, Structural)]
pub struct RsyncableOpts {
    /// Make an archive that is friendly to rsync.
    pub rsyncable: bool,
}

/// Options about the output file.
#[derive(Debug, Clone, Copy, PartialEq, Eq, Structural)]
pub struct OutputOpts {
    /// Do not compress the output.
    pub uncompressed: bool,
    pub rsyncable: RsyncableOpts,
    /// The compression level, by default the best one.
    pub compression: Option<u32>,
    /// Overwrite the output file if it exists.
    pub overwrite: bool,
    /// Do not add a file extension to the output path.
    pub no_file_extension: bool,
}

/// What output goes through before it is written.
#[derive(Debug, Clone, Copy, PartialEq, Eq, Structural)]
pub enum OutputStages {
    Plain,
    /// Compressed with the given level, or with the best one.
    Compressed(Option<u32>),
    /// Split so that similar input gives similar output, then compressed.
    SplitAndCompressed(Option<u32>),
}

/// How a file is created.
#[derive(Debug, Clone, Copy, PartialEq, Eq, Structural)]
pub struct CreateOptions {
    /// Remove the contents of a file that exists.
    pub truncate: bool,
    /// Create the file if it does not exist.
    pub create: bool,
    /// Fail if the file exists.
    pub create_new: bool,
}

impl OutputOpts {
    /// The extension that is added to an output path: none if the path has one
    /// already or that is not wanted.
    pub open spec fn spec_extension(self, has_extension: bool) -> Option<Seq<char>> {
        if has_extension || self.no_file_extension {
            None
        } else if self.uncompressed {
            Some("csv"@)
        } else {
            Some("csv.gz"@)
        }
    }

    /// The extension that is added to an output path.
    pub fn extension(&self, has_extension: bool) -> (extension: Option<&'static str>)
        ensures
            match self.spec_extension(has_extension) {
                Some(wanted) => extension matches Some(e) && e@ == wanted,
                None => extension is None,
            },
    {
        if has_extension || self.no_file_extension {
            None
        } else if self.uncompressed {
            Some("csv")
        } else {
            Some("csv.gz")
        }
    }

    /// A compression level that is larger than it should be.
    pub fn unusual_level(&self) -> (level: Option<u32>)
        ensures
            level == match self.compression {
                Some(level) => if !self.uncompressed && level > 9 {
                    Some(level)
                } else {
                    None
                },
                None => None,
            },
    {
        match self.compression {
            Some(level) => if !self.uncompressed && level > 9 {
                Some(level)
            } else {
                None
            },
            None => None,
        }
    }

    /// What the output goes through before it is written.
    pub fn stages(&self) -> (stages: OutputStages)
        ensures
            stages == if self.uncompressed {
                OutputStages::Plain
            } else if self.rsyncable.rsyncable {
                OutputStages::SplitAndCompressed(self.compression)
            } else {
                OutputStages::Compressed(self.compression)
            },
    {
        if self.uncompressed {
            OutputStages::Plain
        } else if self.rsyncable.rsyncable {
            OutputStages::SplitAndCompressed(self.compression)
        } else {
            OutputStages::Compressed(self.compression)
        }
    }

    /// How the output file is created. Without overwriting, a file that exists is
    /// never changed.
    pub fn create_options(&self) -> (options: CreateOptions)
        ensures
            options == spec_create_options(self.overwrite),
    {
        create_options(self.overwrite)
    }
}

pub open spec fn spec_create_options(overwrite: bool) -> CreateOptions {
    if overwrite {
        CreateOptions { truncate: true, create: true, create_new: false }
    } else {
        CreateOptions { truncate: false, create: false, create_new: true }
    }
}

/// How a new file is created.
pub fn create_options(overwrite: bool) -> (options: CreateOptions)
    ensures
        options == spec_create_options(overwrite),
{
    if overwrite {
        CreateOptions { truncate: true, create: true, create_new: false }
    } else {
        CreateOptions { truncate: false, create: false, create_new: true }
    }
}

/// The description of the output in messages.
pub fn output_description(path: Option<&str>) -> (text: String)
    ensures
        text@ == match path {
            Some(path) => "a file at \""@ + path@ + "\""@,
            None => "stdout"@,
        },
{
    match path {
        Some(path) => {
            let mut text: String = "a file at \"".to_owned();
            text.append(path);
            text.append("\"");
            text
        },
        None => "stdout".to_owned(),
    }
}

/// An extension is added exactly if there is none yet and that is wanted. It tells whether
/// the output is compressed.
pub proof fn law_extensions_tell_compression(options: OutputOpts, has_extension: bool)
    ensures
        options.spec_extension(has_extension) is Some <==> !has_extension
            && !options.no_file_extension,
        options.spec_extension(has_extension) matches Some(extension) ==> {
            &&& extension.len() > 3 <==> !options.uncompressed
            &&& extension.take(3) == seq!['c', 's', 'v']
        },
{
    reveal_strlit("csv");
    reveal_strlit("csv.gz");
    if let Some(extension) = options.spec_extension(has_extension) {
        assert(extension.take(3) == seq!['c', 's', 'v']);
    }
}

/// Without overwriting, a file that exists makes creating it fail. With it, the file is
/// created if it does not exist and emptied if it does.
pub proof fn law_existing_files_are_kept(overwrite: bool)
    ensures
        spec_create_options(overwrite).create_new <==> !overwrite,
        spec_create_options(overwrite).truncate <==> overwrite,
        spec_create_options(overwrite).create || spec_create_options(overwrite).create_new,
{
}

} // verus!
