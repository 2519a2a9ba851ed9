//! Entries, their content versions, and comparisons.

use crate::rating::Rating;
use vstd::prelude::*;

verus! {

/// One observed state of an entry's file: its bytes, or a tombstone.
#[derive(Clone, Debug)]
pub struct FileContent {
    /// The bytes of the file, `None` where the file was found gone.
    pub content: Option<Vec<u8>>,
    /// When this state was observed, in seconds since the epoch.
    pub at: i64,
}

/// One pairwise judgment from the log.
#[derive(Clone, Debug)]
pub struct Vote {
    pub left_path: String,
    pub right_path: String,
    /// Positive: the left side won. Zero: a draw. Negative: the left side lost.
    pub vote: i64,
    pub at: i64,
}

/// A tracked entry: its key, its history oldest first, and its rating.
#[derive(Clone, Debug)]
pub struct File {
    pub path: String,
    pub file_contents: Vec<FileContent>,
    pub rating: Rating,
}

/// What a [`FileContent`] holds.
pub struct FileContentView {
    pub content: Option<Seq<u8>>,
    pub at: i64,
}

/// What a [`Vote`] holds.
pub struct VoteView {
    pub left_path: Seq<char>,
    pub right_path: Seq<char>,
    pub vote: i64,
    pub at: i64,
}

/// What a [`File`] holds.
pub struct FileView {
    pub path: Seq<char>,
    pub file_contents: Seq<FileContentView>,
    pub rating: Rating,
}

impl View for FileContent {
    type V = FileContentView;

    open spec fn view(&self) -> FileContentView {
        FileContentView {
            content: match self.content {
                Some(bytes) => Some(bytes@),
                None => None,
            },
            at: self.at,
        }
    }
}

impl DeepView for FileContent {
    type V = FileContentView;

    open spec fn deep_view(&self) -> FileContentView {
        self@
    }
}

impl View for Vote {
    type V = VoteView;

    open spec fn view(&self) -> VoteView {
        VoteView {
            left_path: self.left_path@,
            right_path: self.right_path@,
            vote: self.vote,
            at: self.at,
        }
    }
}

impl DeepView for Vote {
    type V = VoteView;

    open spec fn deep_view(&self) -> VoteView {
        self@
    }
}

impl View for File {
    type V = FileView;

    open spec fn view(&self) -> FileView {
        FileView {
            path: self.path@,
            file_contents: self.file_contents.deep_view(),
            rating: self.rating,
        }
    }
}

impl DeepView for File {
    type V = FileView;

    open spec fn deep_view(&self) -> FileView {
        self@
    }
}

/// Two entries are the same entry when they have the same path.
impl PartialEq for File {
    fn eq(&self, other: &Self) -> (same: bool) {
        self.path == other.path
    }
}

impl vstd::std_specs::cmp::PartialEqSpecImpl for File {
    open spec fn obeys_eq_spec() -> bool {
        true
    }

    open spec fn eq_spec(&self, other: &Self) -> bool {
        self.path@ == other.path@
    }
}

impl Eq for File {

}

impl FileContentView {
    /// A tombstone marks the entry as deleted.
    pub open spec fn is_tombstone(self) -> bool {
        self.content is None
    }
}

impl FileView {
    /// An entry is deleted when its latest version is a tombstone.
    pub open spec fn is_deleted(self) -> bool {
        self.file_contents.len() > 0 && self.file_contents.last().is_tombstone()
    }

    /// An entry is live when its latest version holds content.
    pub open spec fn is_live(self) -> bool {
        self.file_contents.len() > 0 && !self.file_contents.last().is_tombstone()
    }

    /// The same entry under another rating.
    pub open spec fn with_rating(self, rating: Rating) -> FileView {
        FileView { rating, ..self }
    }

    /// The same entry with one more version at the end of its history.
    pub open spec fn with_version(self, version: FileContentView) -> FileView {
        FileView { file_contents: self.file_contents.push(version), ..self }
    }
}

impl FileContent {
    /// A version that holds `bytes`.
    pub fn new(bytes: Vec<u8>, at: i64) -> (version: FileContent)
        ensures
            version@ == (FileContentView { content: Some(bytes@), at }),
    {
        FileContent { content: Some(bytes), at }
    }

    /// A tombstone.
    pub fn tombstone(at: i64) -> (version: FileContent)
        ensures
            version@ == (FileContentView { content: None, at }),
    {
        FileContent { content: None, at }
    }

    pub fn is_tombstone(&self) -> (gone: bool)
        ensures
            gone == self@.is_tombstone(),
    {
        self.content.is_none()
    }

    /// A copy with the same bytes and time.
    pub fn duplicate(&self) -> (copy: FileContent)
        ensures
            copy@ == self@,
    {
        match &self.content {
            Some(bytes) => FileContent { content: Some(bytes.clone()), at: self.at },
            None => FileContent { content: None, at: self.at },
        }
    }
}

impl Vote {
    /// A copy with the same paths, magnitude and time.
    pub fn duplicate(&self) -> (copy: Vote)
        ensures
            copy@ == self@,
    {
        Vote {
            left_path: self.left_path.clone(),
            right_path: self.right_path.clone(),
            vote: self.vote,
            at: self.at,
        }
    }
}

impl File {
    /// An entry with the given history and the prior rating.
    pub fn new(path: String, file_contents: Vec<FileContent>) -> (file: File)
        ensures
            file@ == (FileView {
                path: path@,
                file_contents: file_contents.deep_view(),
                rating: Rating::prior(),
            }),
    {
        File { path, file_contents, rating: Rating::new() }
    }

    /// The latest version, if the entry has any.
    pub fn last_content(&self) -> (latest: Option<&FileContent>)
        ensures
            self@.file_contents.len() == 0 ==> latest is None,
            self@.file_contents.len() > 0 ==> latest is Some && latest.unwrap()@
                == self@.file_contents.last(),
    {
        let n: usize = self.file_contents.len();
        if n == 0 {
            None
        } else {
            Some(&self.file_contents[n - 1])
        }
    }

    pub fn is_deleted(&self) -> (deleted: bool)
        ensures
            deleted == self@.is_deleted(),
    {
        match self.last_content() {
            Some(latest) => latest.is_tombstone(),
            None => false,
        }
    }

    pub fn is_live(&self) -> (live: bool)
        ensures
            live == self@.is_live(),
    {
        match self.last_content() {
            Some(latest) => !latest.is_tombstone(),
            None => false,
        }
    }

    /// A copy with the same key, history and rating.
    pub fn duplicate(&self) -> (copy: File)
        ensures
            copy@ == self@,
    {
        let mut history: Vec<FileContent> = Vec::new();
        let mut i: usize = 0;
        while i < self.file_contents.len()
            invariant
                i <= self.file_contents.len(),
                history.len() == i,
                forall|j: int| 0 <= j < i ==> history[j]@ == self.file_contents[j]@,
            decreases self.file_contents.len() - i,
        {
            history.push(self.file_contents[i].duplicate());
            i += 1;
        }
        assert(history.deep_view() =~= self.file_contents.deep_view());
        File { path: self.path.clone(), file_contents: history, rating: self.rating }
    }
}

} // verus!
