//! Choosing the entries of a directory tree by name and by kind.

use crate::pattern::{compiles, regex_matches, regex_source};
use crate::text::{chain3, texts};
use regex::Regex;
use vstd::prelude::*;

verus! {

/// The kinds of entry that can be asked for.
#[derive(Debug, Eq, PartialEq, Clone, Structural)]
pub enum EntryType {
    Dir,
    File,
    Link,
}

/// Where to search, and what to keep.
#[derive(Debug)]
pub struct Config {
    pub paths: Vec<String>,
    pub names: Vec<Regex>,
    pub entry_types: Vec<EntryType>,
}

/// What is read of an entry of a directory: its name, where the name is
/// text, and what the file system says it is.
#[derive(Debug)]
pub struct Entry {
    pub name: Option<String>,
    pub is_file: bool,
    pub is_dir: bool,
    pub is_symlink: bool,
}

/// The kind of an entry: a file before a directory before a link.
pub open spec fn entry_type(entry: Entry) -> Option<EntryType> {
    if entry.is_file {
        Some(EntryType::File)
    } else if entry.is_dir {
        Some(EntryType::Dir)
    } else if entry.is_symlink {
        Some(EntryType::Link)
    } else {
        None
    }
}

pub fn get_entry_type(entry: &Entry) -> (kind: Option<EntryType>)
    ensures
        kind == entry_type(*entry),
{
    if entry.is_file {
        Some(EntryType::File)
    } else if entry.is_dir {
        Some(EntryType::Dir)
    } else if entry.is_symlink {
        Some(EntryType::Link)
    } else {
        None
    }
}

/// Whether an entry is of a kind that is asked for; where no kind is asked
/// for, every entry is.
pub open spec fn type_matches(entry: Entry, entry_types: Seq<EntryType>) -> bool {
    entry_types.len() == 0 || (entry_type(entry) matches Some(kind) && entry_types.contains(kind))
}

pub fn matches_types(entry: &Entry, entry_types: &[EntryType]) -> (matches: bool)
    ensures
        matches == type_matches(*entry, entry_types@),
{
    if entry_types.len() == 0 {
        true
    } else {
        match get_entry_type(entry) {
            Some(kind) => {
                let mut i: usize = 0;
                while i < entry_types.len()
                    invariant
                        0 < entry_types.len(),
                        i <= entry_types.len(),
                        entry_type(*entry) == Some(kind),
                        forall|j: int| 0 <= j < i ==> entry_types@[j] != kind,
                    decreases entry_types.len() - i,
                {
                    if entry_types[i] == kind {
                        assert(entry_types@[i as int] == kind);
                        return true;
                    }
                    i += 1;
                }
                false
            },
            None => false,
        }
    }
}

/// Whether the name of an entry matches one of the expressions; where
/// there is no expression, every name that is text does.
pub open spec fn name_matches(entry: Entry, regexs: Seq<Regex>) -> bool {
    entry.name matches Some(name) && (regexs.len() == 0 || exists|i: int|
        0 <= i < regexs.len() && regex_matches(#[trigger] regexs[i], name@))
}

pub fn matches_patterns(entry: &Entry, regexs: &[Regex]) -> (matches: bool)
    ensures
        matches == name_matches(*entry, regexs@),
{
    match &entry.name {
        None => false,
        Some(name) => {
            if regexs.len() == 0 {
                return true;
            }
            let mut i: usize = 0;
            while i < regexs.len()
                invariant
                    0 < regexs.len(),
                    i <= regexs.len(),
                    entry.name == Some(*name),
                    forall|j: int| 0 <= j < i ==> !regex_matches(#[trigger] regexs@[j], name@),
                decreases regexs.len() - i,
            {
                if regexs[i].is_match(name.as_str()) {
                    assert(regex_matches(regexs@[i as int], name@));
                    return true;
                }
                i += 1;
            }
            false
        },
    }
}

/// Whether an entry is to be listed.
pub fn selects(entry: &Entry, config: &Config) -> (listed: bool)
    ensures
        listed == (type_matches(*entry, config.entry_types@) && name_matches(
            *entry,
            config.names@,
        )),
{
    matches_types(entry, config.entry_types.as_slice()) && matches_patterns(
        entry,
        config.names.as_slice(),
    )
}

/// Compiles an expression for names.
pub fn validate_regex(s: &str) -> (result: Result<Regex, String>)
    ensures
        match result {
            Ok(regex) => compiles(s@, false) && regex_source(regex) == s@,
            Err(message) => !compiles(s@, false) && message@ == "Invalid --name \""@ + s@ + "\""@,
        },
{
    match Regex::new(s) {
        Ok(regex) => Ok(regex),
        Err(_) => Err(chain3("Invalid --name \"", s, "\"")),
    }
}

/// An entry met on a walk: the path that leads to it, and what is read of
/// it.
#[derive(Debug)]
pub struct Found {
    pub path: String,
    pub entry: Entry,
}

/// The paths of the entries that are listed, in the order of the walk.
pub open spec fn listed(entries: Seq<Found>, config: Config) -> Seq<Seq<char>>
    decreases entries.len(),
{
    if entries.len() == 0 {
        Seq::empty()
    } else if type_matches(entries.last().entry, config.entry_types@) && name_matches(
        entries.last().entry,
        config.names@,
    ) {
        listed(entries.drop_last(), config).push(entries.last().path@)
    } else {
        listed(entries.drop_last(), config)
    }
}

/// The paths to print for the entries met on a walk.
pub fn run(config: &Config, entries: &Vec<Found>) -> (result: Result<Vec<String>, String>)
    ensures
        result matches Ok(out) && texts(out@) == listed(entries@, *config),
{
    let mut out: Vec<String> = Vec::new();
    let mut i: usize = 0;
    proof {
        assert(entries@.take(0) =~= Seq::<Found>::empty());
        assert(texts(out@) =~= listed(entries@.take(0), *config));
    }
    while i < entries.len()
        invariant
            i <= entries.len(),
            texts(out@) == listed(entries@.take(i as int), *config),
        decreases entries.len() - i,
    {
        let ghost before = texts(out@);
        proof {
            assert(entries@.take(i + 1).drop_last() =~= entries@.take(i as int));
            assert(entries@.take(i + 1).last() == entries@[i as int]);
        }
        if selects(&entries[i].entry, config) {
            out.push(entries[i].path.clone());
            assert(texts(out@) =~= before.push(entries@[i as int].path@));
        }
        i += 1;
    }
    assert(entries@.take(entries.len() as int) =~= entries@);
    Ok(out)
}

} // verus!
