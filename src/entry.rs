use vstd::prelude::*;

verus! {

/// Metadata of one entry of a directory.
///
/// `size` and `creation_date` are not computed: every entry built by
/// [`FileInfo::from_entry`] carries `0` and `"unknown"`.
pub struct FileInfo {
    pub name: String,
    pub creation_date: String,
    pub size: u32,
    pub is_dir: bool,
}

/// Why a directory could not be listed: it is missing, is no directory, may
/// not be read, or one of its entries could not be queried.
pub struct EnumerationFailure {
    pub message: String,
}

/// The creation date that stands for "not queried".
pub open spec fn unknown_date() -> Seq<char> {
    "unknown"@
}

impl FileInfo {
    /// `self` is the record built for an entry called `name`, a directory
    /// exactly when `is_dir`.
    pub open spec fn describes(&self, name: Seq<char>, is_dir: bool) -> bool {
        &&& self.name@ == name
        &&& self.is_dir == is_dir
        &&& self.size == 0
        &&& self.creation_date@ == unknown_date()
    }

    /// The record of an entry called `name`; its size and creation date are
    /// left at their placeholders.
    pub fn from_entry(name: String, is_dir: bool) -> (r: FileInfo)
        ensures
            r.describes(name@, is_dir),
    {
        proof {
            reveal_strlit("unknown");
        }
        FileInfo { name, creation_date: String::from_str("unknown"), size: 0, is_dir }
    }
}

/// `v` lists, in order, one record for each `(name, is_dir)` pair of `es`.
pub open spec fn lists(v: Seq<FileInfo>, es: Seq<(String, bool)>) -> bool {
    &&& v.len() == es.len()
    &&& forall|i: int| 0 <= i < v.len() ==> #[trigger] v[i].describes(es[i].0@, es[i].1)
}

/// The listing of a directory whose enumeration gave `entries`, as
/// `(name, is_dir)` pairs, in the order given.
pub fn listing_of(entries: &Vec<(String, bool)>) -> (r: Vec<FileInfo>)
    ensures
        lists(r@, entries@),
{
    let mut r: Vec<FileInfo> = Vec::new();
    let mut i: usize = 0;
    while i < entries.len()
        invariant
            i <= entries.len(),
            lists(r@, entries@.subrange(0, i as int)),
        decreases entries.len() - i,
    {
        let info = FileInfo::from_entry(entries[i].0.clone(), entries[i].1);
        r.push(info);
        i = i + 1;
    }
    assert(entries@.subrange(0, i as int) =~= entries@);
    r
}

} // verus!
