//! The configuration of a run, and how the list of input files is found:
//! from a colon-separated list of paths, or from the names in a directory.

use crate::order::{ascending, sort_paths};
use crate::text::{ends_with, has_suffix, split, split_on, texts, trim, trimmed};
use vstd::prelude::*;
use vstd::string::*;

verus! {

/// What went wrong with a configuration, as a mathematical value.
pub enum ConfigFault {
    /// An input path names nothing that exists.
    InputNotFound(Seq<char>),
    /// No name in the directory carries the extension.
    NoFilesFound { extension: Seq<char>, dir: Seq<char> },
}

/// What went wrong with a configuration.
#[derive(Debug)]
pub enum ConfigError {
    /// An input path names nothing that exists.
    InputNotFound(String),
    /// No name in the directory carries the extension.
    NoFilesFound { extension: String, dir: String },
}

impl View for ConfigError {
    type V = ConfigFault;

    open spec fn view(&self) -> ConfigFault {
        match self {
            ConfigError::InputNotFound(path) => ConfigFault::InputNotFound(path@),
            ConfigError::NoFilesFound { extension, dir } => ConfigFault::NoFilesFound {
                extension: extension@,
                dir: dir@,
            },
        }
    }
}

/// The message of a fault.
pub open spec fn fault_text(fault: ConfigFault) -> Seq<char> {
    match fault {
        ConfigFault::InputNotFound(path) => "Input file not found: "@ + path,
        ConfigFault::NoFilesFound { extension, dir } => "No ."@ + extension
            + " files found in directory '"@ + dir + "'"@,
    }
}

impl ConfigError {
    /// The message of the error.
    pub fn message(&self) -> (text: String)
        ensures
            text@ == fault_text(self@),
    {
        let mut text: String = String::new();
        match self {
            ConfigError::InputNotFound(path) => {
                text.append("Input file not found: ");
                text.append(path.as_str());
            },
            ConfigError::NoFilesFound { extension, dir } => {
                text.append("No .");
                text.append(extension.as_str());
                text.append(" files found in directory '");
                text.append(dir.as_str());
                text.append("'");
            },
        }
        assert(text@ =~= fault_text(self@));
        text
    }
}

/// The paths that a colon-separated list names: its pieces, each without
/// the white space around it.
pub open spec fn input_paths(input: Seq<char>) -> Seq<Seq<char>> {
    let pieces = split(input, ':');
    Seq::new(pieces.len(), |i: int| trimmed(pieces[i]))
}

/// Whether `outcome` is what the check of `paths` gives when `present` tells
/// which of them exist: the paths themselves where all exist, else the first
/// that does not.
pub open spec fn checked(
    paths: Seq<Seq<char>>,
    present: Seq<bool>,
    outcome: Result<Seq<Seq<char>>, ConfigFault>,
) -> bool {
    match outcome {
        Ok(files) => files == paths && forall|i: int| 0 <= i < paths.len() ==> present[i],
        Err(fault) => exists|i: int|
            0 <= i < paths.len() && !present[i] && (forall|j: int| 0 <= j < i ==> present[j])
                && fault == ConfigFault::InputNotFound(#[trigger] paths[i]),
    }
}

/// `std::path::Path::exists` on `path`. The answer depends on what is on
/// disk, so nothing is claimed of it.
#[verifier::external_body]
fn path_exists(path: &str) -> bool {
    std::path::Path::new(path).exists()
}

/// The paths of a colon-separated list, in its order.
pub fn split_input_files(input_str: &str) -> (files: Vec<String>)
    ensures
        texts(files@) == input_paths(input_str@),
{
    let pieces: Vec<String> = split_on(input_str, ':');
    let ghost raw = texts(pieces@);
    let mut files: Vec<String> = Vec::new();
    for piece in it: pieces
        invariant
            it.seq() == pieces@,
            raw == texts(pieces@),
            files@.len() == it.index(),
            forall|i: int| 0 <= i < files@.len() ==> (#[trigger] files@[i])@ == trimmed(raw[i]),
    {
        let file: String = trim(piece.as_str());
        files.push(file);
    }
    assert(texts(files@) =~= input_paths(input_str@));
    files
}

/// Accepts the input files where every one of them exists. `present` tells
/// of each file whether it does; the first that does not is the error.
pub fn check_inputs(files: Vec<String>, present: &Vec<bool>) -> (outcome: Result<
    Vec<String>,
    ConfigError,
>)
    requires
        present@.len() == files@.len(),
    ensures
        checked(texts(files@), present@, files_outcome(outcome)),
        outcome matches Ok(kept) ==> kept == files,
{
    let mut at: usize = 0;
    while at < files.len()
        invariant
            at <= files@.len(),
            present@.len() == files@.len(),
            forall|j: int| 0 <= j < at ==> present@[j],
        decreases files@.len() - at,
    {
        if !present[at] {
            let missing: String = files[at].clone();
            assert(texts(files@)[at as int] == missing@);
            return Err(ConfigError::InputNotFound(missing));
        }
        at = at + 1;
    }
    Ok(files)
}

/// The files of an outcome as texts, the error as a fault.
pub open spec fn files_outcome(outcome: Result<Vec<String>, ConfigError>) -> Result<
    Seq<Seq<char>>,
    ConfigFault,
> {
    match outcome {
        Ok(files) => Ok(texts(files@)),
        Err(error) => Err(error@),
    }
}

/// Reads a colon-separated list of input files and checks that each of
/// them exists. The outcome is that of `check_inputs` on the paths of the
/// list, for what the file system answers.
pub fn parse_input_files(input_str: &str) -> (outcome: Result<Vec<String>, ConfigError>)
    ensures
        exists|present: Seq<bool>|
            present.len() == input_paths(input_str@).len() && #[trigger] checked(
                input_paths(input_str@),
                present,
                files_outcome(outcome),
            ),
{
    let files: Vec<String> = split_input_files(input_str);
    let mut present: Vec<bool> = Vec::new();
    let mut at: usize = 0;
    while at < files.len()
        invariant
            at <= files@.len(),
            present@.len() == at,
        decreases files@.len() - at,
    {
        let found: bool = path_exists(files[at].as_str());
        present.push(found);
        at = at + 1;
    }
    let outcome = check_inputs(files, &present);
    assert(checked(input_paths(input_str@), present@, files_outcome(outcome)));
    outcome
}

/// What a run is given: the input files, where the output goes and under
/// which name, the ceiling on the size of an output file in mebibytes, and
/// the seed, if the run is to be repeatable.
#[derive(Debug, Clone)]
pub struct ShuffleConfig {
    pub input_files: Vec<String>,
    pub output_dir: String,
    pub output_name: String,
    pub max_size_mb: usize,
    pub seed: Option<u64>,
}

/// The input files of an outcome as texts, the error as a fault.
pub open spec fn config_outcome(outcome: Result<ShuffleConfig, ConfigError>) -> Result<
    Seq<Seq<char>>,
    ConfigFault,
> {
    match outcome {
        Ok(config) => Ok(texts(config.input_files@)),
        Err(error) => Err(error@),
    }
}

impl ShuffleConfig {
    /// The configuration for a colon-separated list of input files. Every
    /// input file must exist; the first that does not is the error.
    pub fn new(
        input_files_str: &str,
        output_dir: &str,
        output_name: &str,
        max_size_mb: usize,
        seed: Option<u64>,
    ) -> (outcome: Result<ShuffleConfig, ConfigError>)
        ensures
            exists|present: Seq<bool>|
                present.len() == input_paths(input_files_str@).len() && #[trigger] checked(
                    input_paths(input_files_str@),
                    present,
                    config_outcome(outcome),
                ),
            outcome matches Ok(config) ==> {
                &&& config.output_dir@ == output_dir@
                &&& config.output_name@ == output_name@
                &&& config.max_size_mb == max_size_mb
                &&& config.seed == seed
            },
    {
        match parse_input_files(input_files_str) {
            Ok(input_files) => Ok(
                ShuffleConfig {
                    input_files,
                    output_dir: output_dir.to_owned(),
                    output_name: output_name.to_owned(),
                    max_size_mb,
                    seed,
                },
            ),
            Err(error) => Err(error),
        }
    }
}

/// Whether a file of this name is read as a record file of `extension`:
/// its name ends in a dot and the extension, or in that and `.gz`.
pub open spec fn carries_extension(name: Seq<char>, extension: Seq<char>) -> bool {
    has_suffix(name, "."@ + extension) || has_suffix(name, "."@ + extension + ".gz"@)
}

/// The names of `names` that carry `extension`, in their order.
pub open spec fn matching(names: Seq<Seq<char>>, extension: Seq<char>) -> Seq<Seq<char>>
    decreases names.len(),
{
    if names.len() == 0 {
        Seq::empty()
    } else if carries_extension(names.last(), extension) {
        matching(names.drop_last(), extension).push(names.last())
    } else {
        matching(names.drop_last(), extension)
    }
}

/// Whether a file of this name is read through the decompressor: its name
/// ends in `.gz`.
pub fn is_compressed(path: &str) -> (compressed: bool)
    ensures
        compressed == has_suffix(path@, ".gz"@),
{
    ends_with(path, ".gz")
}

/// Picks the record files among the files of a directory: those whose name
/// carries `extension`, in ascending order. It is an error when there is
/// none.
pub fn select_by_extension(names: Vec<String>, extension: &str, dir: &str) -> (outcome: Result<
    Vec<String>,
    ConfigError,
>)
    ensures
        match outcome {
            Ok(files) => {
                &&& matching(texts(names@), extension@).len() > 0
                &&& ascending(texts(files@))
                &&& texts(files@).to_multiset() == matching(
                    texts(names@),
                    extension@,
                ).to_multiset()
            },
            Err(error) => {
                &&& matching(texts(names@), extension@).len() == 0
                &&& error@ == ConfigFault::NoFilesFound { extension: extension@, dir: dir@ }
            },
        },
{
    let mut plain: String = String::new();
    plain.append(".");
    plain.append(extension);
    let mut zipped: String = plain.clone();
    zipped.append(".gz");
    assert(plain@ =~= "."@ + extension@);
    assert(zipped@ =~= "."@ + extension@ + ".gz"@);
    let ghost all = texts(names@);
    let mut found: Vec<String> = Vec::new();
    assert(all.take(0) =~= Seq::<Seq<char>>::empty());
    assert(texts(found@) =~= matching(all.take(0), extension@));
    for name in it: names
        invariant
            it.seq() == names@,
            all == texts(names@),
            plain@ == "."@ + extension@,
            zipped@ == "."@ + extension@ + ".gz"@,
            texts(found@) == matching(all.take(it.index() as int), extension@),
    {
        let ghost k: int = it.index() as int;
        let ghost before = found@;
        assert(all.take(k + 1).drop_last() =~= all.take(k));
        assert(all.take(k + 1).last() == name@);
        if ends_with(name.as_str(), plain.as_str()) || ends_with(name.as_str(), zipped.as_str()) {
            found.push(name);
            assert(texts(found@) =~= texts(before).push(name@));
        }
    }
    assert(all.take(names@.len() as int) =~= all);
    if found.len() == 0 {
        Err(ConfigError::NoFilesFound { extension: extension.to_owned(), dir: dir.to_owned() })
    } else {
        Ok(sort_paths(found))
    }
}

} // verus!
