//! The records that the tracker keeps and hands out, with their
//! mathematical models.

use vstd::prelude::*;
use crate::clock::Timestamp;
use crate::labels::{clone_strings, texts};

verus! {

/// Where a string was found.
#[derive(Debug)]
pub enum StringContext {
    /// In the content of a file, at a byte offset if known.
    FileString { offset: Option<usize> },
    /// In an import table; `library` names the imported library.
    Import { library: String },
    /// In an export table; `symbol` names the exported symbol.
    Export { symbol: String },
    /// In an embedded resource of the given type.
    Resource { resource_type: String },
    /// In the named section of a file.
    Section { section_name: String },
    /// In the named metadata field.
    Metadata { field: String },
    /// A file system path of the given kind.
    Path { path_type: String },
    /// A URL, with its protocol if known.
    Url { protocol: Option<String> },
    /// A registry key, with its hive if known.
    Registry { hive: Option<String> },
    /// A command of the given kind.
    Command { command_type: String },
    /// Anything else; `category` describes it.
    Other { category: String },
}

/// Model of a `StringContext`.
pub enum ContextModel {
    FileString { offset: Option<usize> },
    Import { library: Seq<char> },
    Export { symbol: Seq<char> },
    Resource { resource_type: Seq<char> },
    Section { section_name: Seq<char> },
    Metadata { field: Seq<char> },
    Path { path_type: Seq<char> },
    Url { protocol: Option<Seq<char>> },
    Registry { hive: Option<Seq<char>> },
    Command { command_type: Seq<char> },
    Other { category: Seq<char> },
}

/// The text of an optional string.
pub open spec fn optional_text(s: Option<String>) -> Option<Seq<char>> {
    match s {
        Some(t) => Some(t@),
        None => None,
    }
}

impl View for StringContext {
    type V = ContextModel;

    open spec fn view(&self) -> ContextModel {
        match *self {
            StringContext::FileString { offset } => ContextModel::FileString { offset },
            StringContext::Import { library } => ContextModel::Import { library: library@ },
            StringContext::Export { symbol } => ContextModel::Export { symbol: symbol@ },
            StringContext::Resource { resource_type } => ContextModel::Resource {
                resource_type: resource_type@,
            },
            StringContext::Section { section_name } => ContextModel::Section {
                section_name: section_name@,
            },
            StringContext::Metadata { field } => ContextModel::Metadata { field: field@ },
            StringContext::Path { path_type } => ContextModel::Path { path_type: path_type@ },
            StringContext::Url { protocol } => ContextModel::Url {
                protocol: optional_text(protocol),
            },
            StringContext::Registry { hive } => ContextModel::Registry {
                hive: optional_text(hive),
            },
            StringContext::Command { command_type } => ContextModel::Command {
                command_type: command_type@,
            },
            StringContext::Other { category } => ContextModel::Other { category: category@ },
        }
    }
}

/// The category that a context stands for.
pub open spec fn context_label(c: ContextModel) -> Seq<char> {
    match c {
        ContextModel::FileString { .. } => "file_string"@,
        ContextModel::Import { .. } => "import"@,
        ContextModel::Export { .. } => "export"@,
        ContextModel::Resource { .. } => "resource"@,
        ContextModel::Section { .. } => "section"@,
        ContextModel::Metadata { .. } => "metadata"@,
        ContextModel::Path { .. } => "path"@,
        ContextModel::Url { .. } => "url"@,
        ContextModel::Registry { .. } => "registry"@,
        ContextModel::Command { .. } => "command"@,
        ContextModel::Other { category } => category,
    }
}

/// A copy of an optional string.
pub fn clone_optional(s: &Option<String>) -> (r: Option<String>)
    ensures
        optional_text(r) == optional_text(*s),
{
    match s {
        Some(t) => Some(t.clone()),
        None => None,
    }
}

impl Clone for StringContext {
    fn clone(&self) -> (r: Self)
        ensures
            r@ == self@,
    {
        match self {
            StringContext::FileString { offset } => StringContext::FileString { offset: *offset },
            StringContext::Import { library } => StringContext::Import { library: library.clone() },
            StringContext::Export { symbol } => StringContext::Export { symbol: symbol.clone() },
            StringContext::Resource { resource_type } => StringContext::Resource {
                resource_type: resource_type.clone(),
            },
            StringContext::Section { section_name } => StringContext::Section {
                section_name: section_name.clone(),
            },
            StringContext::Metadata { field } => StringContext::Metadata { field: field.clone() },
            StringContext::Path { path_type } => StringContext::Path {
                path_type: path_type.clone(),
            },
            StringContext::Url { protocol } => StringContext::Url {
                protocol: clone_optional(protocol),
            },
            StringContext::Registry { hive } => StringContext::Registry {
                hive: clone_optional(hive),
            },
            StringContext::Command { command_type } => StringContext::Command {
                command_type: command_type.clone(),
            },
            StringContext::Other { category } => StringContext::Other {
                category: category.clone(),
            },
        }
    }
}

impl StringContext {
    /// The category that this context stands for.
    pub fn category_name(&self) -> (r: String)
        ensures
            r@ == context_label(self@),
    {
        match self {
            StringContext::FileString { .. } => "file_string".to_owned(),
            StringContext::Import { .. } => "import".to_owned(),
            StringContext::Export { .. } => "export".to_owned(),
            StringContext::Resource { .. } => "resource".to_owned(),
            StringContext::Section { .. } => "section".to_owned(),
            StringContext::Metadata { .. } => "metadata".to_owned(),
            StringContext::Path { .. } => "path".to_owned(),
            StringContext::Url { .. } => "url".to_owned(),
            StringContext::Registry { .. } => "registry".to_owned(),
            StringContext::Command { .. } => "command".to_owned(),
            StringContext::Other { category } => category.clone(),
        }
    }
}

/// One sighting of a string.
#[derive(Debug)]
pub struct StringOccurrence {
    pub file_path: String,
    pub file_hash: String,
    pub tool_name: String,
    pub timestamp: Timestamp,
    pub context: StringContext,
}

/// Model of a `StringOccurrence`.
pub struct OccurrenceModel {
    pub file_path: Seq<char>,
    pub file_hash: Seq<char>,
    pub tool_name: Seq<char>,
    pub timestamp: Timestamp,
    pub context: ContextModel,
}

impl View for StringOccurrence {
    type V = OccurrenceModel;

    open spec fn view(&self) -> OccurrenceModel {
        OccurrenceModel {
            file_path: self.file_path@,
            file_hash: self.file_hash@,
            tool_name: self.tool_name@,
            timestamp: self.timestamp,
            context: self.context@,
        }
    }
}

impl Clone for StringOccurrence {
    fn clone(&self) -> (r: Self)
        ensures
            r@ == self@,
    {
        StringOccurrence {
            file_path: self.file_path.clone(),
            file_hash: self.file_hash.clone(),
            tool_name: self.tool_name.clone(),
            timestamp: self.timestamp,
            context: self.context.clone(),
        }
    }
}

/// The models of a sequence of occurrences.
pub open spec fn occurrence_models(s: Seq<StringOccurrence>) -> Seq<OccurrenceModel> {
    Seq::new(s.len(), |i: int| s[i]@)
}

/// An independent copy of `list`.
pub fn clone_occurrences(list: &Vec<StringOccurrence>) -> (r: Vec<StringOccurrence>)
    ensures
        occurrence_models(r@) == occurrence_models(list@),
{
    let mut r: Vec<StringOccurrence> = Vec::new();
    let mut i: usize = 0;
    while i < list.len()
        invariant
            i <= list.len(),
            r.len() == i,
            forall|j: int| 0 <= j < i ==> r[j]@ == list[j]@,
        decreases list.len() - i,
    {
        r.push(list[i].clone());
        i += 1;
    }
    assert(occurrence_models(r@) =~= occurrence_models(list@));
    r
}

/// All that is known of one tracked string.
#[derive(Debug)]
pub struct StringEntry {
    pub value: String,
    pub first_seen: Timestamp,
    pub last_seen: Timestamp,
    /// Number of sightings, including those no longer listed in `occurrences`.
    pub total_occurrences: usize,
    /// The paths of the files in which the string was seen, each once.
    pub unique_files: Vec<String>,
    /// The most recent sightings, oldest first.
    pub occurrences: Vec<StringOccurrence>,
    /// The categories of the string, each once.
    pub categories: Vec<String>,
    pub is_suspicious: bool,
    /// Shannon entropy in micro-bits per character.
    pub entropy: u64,
}

/// Model of a `StringEntry`.
pub struct EntryModel {
    pub value: Seq<char>,
    pub first_seen: Timestamp,
    pub last_seen: Timestamp,
    pub total_occurrences: nat,
    pub unique_files: Seq<Seq<char>>,
    pub occurrences: Seq<OccurrenceModel>,
    pub categories: Seq<Seq<char>>,
    pub is_suspicious: bool,
    pub entropy: nat,
}

impl View for StringEntry {
    type V = EntryModel;

    open spec fn view(&self) -> EntryModel {
        EntryModel {
            value: self.value@,
            first_seen: self.first_seen,
            last_seen: self.last_seen,
            total_occurrences: self.total_occurrences as nat,
            unique_files: texts(self.unique_files@),
            occurrences: occurrence_models(self.occurrences@),
            categories: texts(self.categories@),
            is_suspicious: self.is_suspicious,
            entropy: self.entropy as nat,
        }
    }
}

impl Clone for StringEntry {
    fn clone(&self) -> (r: Self)
        ensures
            r@ == self@,
    {
        StringEntry {
            value: self.value.clone(),
            first_seen: self.first_seen,
            last_seen: self.last_seen,
            total_occurrences: self.total_occurrences,
            unique_files: clone_strings(&self.unique_files),
            occurrences: clone_occurrences(&self.occurrences),
            categories: clone_strings(&self.categories),
            is_suspicious: self.is_suspicious,
            entropy: self.entropy,
        }
    }
}

/// The models of a sequence of entries.
pub open spec fn entry_models(s: Seq<StringEntry>) -> Seq<EntryModel> {
    Seq::new(s.len(), |i: int| s[i]@)
}

/// The counters and entropies of `entries` fit the machine integers that
/// hold them.
pub open spec fn machine_sized(entries: Seq<EntryModel>) -> bool {
    forall|i: int|
        0 <= i < entries.len() ==> (#[trigger] entries[i]).total_occurrences <= usize::MAX
            && entries[i].entropy <= u64::MAX
}

/// The models of entries are of machine size.
pub proof fn lemma_models_machine_sized(s: Seq<StringEntry>)
    ensures
        machine_sized(entry_models(s)),
{
    assert forall|i: int| 0 <= i < entry_models(s).len() implies (#[trigger] entry_models(
        s,
    )[i]).total_occurrences <= usize::MAX && entry_models(s)[i].entropy <= u64::MAX by {
        assert(entry_models(s)[i] == s[i]@);
    }
}

/// Length of `value` in bytes of its UTF-8 encoding, as a machine integer.
pub open spec fn byte_len(value: Seq<char>) -> usize {
    vstd::utf8::encode_utf8(value).len() as usize
}

/// Length of `value` in bytes.
pub fn length_in_bytes(value: &String) -> (n: usize)
    ensures
        n == byte_len(value@),
{
    value.as_str().len()
}

/// Statistics over the tracked strings that a filter accepts.
#[derive(Debug)]
pub struct StringStatistics {
    /// Number of strings.
    pub total_unique_strings: usize,
    /// Sum of their sightings.
    pub total_occurrences: usize,
    /// Number of distinct files in which they were seen.
    pub total_files_analyzed: usize,
    /// The 100 strings seen most often, with the number of sightings.
    pub most_common: Vec<(String, usize)>,
    /// Up to 50 strings that are suspicious.
    pub suspicious_strings: Vec<String>,
    /// The 50 strings of highest entropy above 4 bits, with their entropy
    /// in micro-bits per character.
    pub high_entropy_strings: Vec<(String, u64)>,
    /// Number of strings in each category.
    pub category_distribution: Vec<(String, usize)>,
    /// Number of strings in each length bucket.
    pub length_distribution: Vec<(String, usize)>,
}

/// A query over tracked strings.  Every constraint that is present must
/// hold; a filter without constraints accepts every entry.
#[derive(Debug)]
pub struct StringFilter {
    pub min_occurrences: Option<usize>,
    pub max_occurrences: Option<usize>,
    /// Bounds on the length of the string in bytes.
    pub min_length: Option<usize>,
    pub max_length: Option<usize>,
    /// The entry has at least one of these categories.
    pub categories: Option<Vec<String>>,
    /// The string was seen in at least one of these files.
    pub file_paths: Option<Vec<String>>,
    /// The string was seen in at least one file listed here.
    pub file_hashes: Option<Vec<String>>,
    /// If `Some(true)`, the entry is suspicious.
    pub suspicious_only: Option<bool>,
    /// The string matches this regular expression; ignored if it does not compile.
    pub regex_pattern: Option<String>,
    /// Bounds on the entropy in micro-bits per character.
    pub min_entropy: Option<u64>,
    pub max_entropy: Option<u64>,
    /// The string was first seen within this range, bounds included.
    pub date_range: Option<(Timestamp, Timestamp)>,
}

impl Default for StringFilter {
    /// The filter without constraints.
    fn default() -> (r: Self)
        ensures
            r.min_occurrences is None,
            r.max_occurrences is None,
            r.min_length is None,
            r.max_length is None,
            r.categories is None,
            r.file_paths is None,
            r.file_hashes is None,
            r.suspicious_only is None,
            r.regex_pattern is None,
            r.min_entropy is None,
            r.max_entropy is None,
            r.date_range is None,
    {
        StringFilter {
            min_occurrences: None,
            max_occurrences: None,
            min_length: None,
            max_length: None,
            categories: None,
            file_paths: None,
            file_hashes: None,
            suspicious_only: None,
            regex_pattern: None,
            min_entropy: None,
            max_entropy: None,
            date_range: None,
        }
    }
}

} // verus!
