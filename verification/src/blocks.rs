use vstd::prelude::*;

verus! {

/// A block of source code found by a search.
///
/// Distances are written in millionths: a distance of `250000` stands for
/// `0.25`. Lower distances mean closer matches.
#[derive(Clone, Debug)]
pub struct CodeBlock {
    pub path: String,
    pub language: String,
    pub content: String,
    pub symbols: Vec<String>,
    pub start_line: usize,
    pub end_line: usize,
    pub hash: String,
    pub distance: Option<u64>,
}

/// A section of a documentation file found by a search.
#[derive(Clone, Debug)]
pub struct DocumentBlock {
    pub path: String,
    pub title: String,
    pub content: String,
    pub context: Vec<String>,
    pub level: usize,
    pub start_line: usize,
    pub end_line: usize,
    pub hash: String,
    pub distance: Option<u64>,
}

/// A chunk of a plain text file found by a search.
#[derive(Clone, Debug)]
pub struct TextBlock {
    pub path: String,
    pub language: String,
    pub content: String,
    pub start_line: usize,
    pub end_line: usize,
    pub hash: String,
    pub distance: Option<u64>,
}

/// What the result merging needs of a search result block: its identity
/// (the content hash), its distance to the query and its line range.
pub trait ResultBlock: Sized {
    /// The content hash that identifies the block.
    spec fn key(&self) -> Seq<char>;

    /// The distance to the query.
    spec fn dist(&self) -> Option<u64>;

    /// The path of the file that holds the block.
    spec fn file(&self) -> Seq<char>;

    /// The block with its distance replaced.
    spec fn with_dist(self, d: Option<u64>) -> Self;

    /// Whether the line range can be moved down by one line.
    spec fn can_shift(&self) -> bool;

    /// The block with its start and end lines moved down by one.
    spec fn shifted(self) -> Self;

    /// Replacing the distance or moving the lines keeps the hash, and the
    /// distance is the one that was set.
    proof fn lemma_updates(self, d: Option<u64>)
        ensures
            self.with_dist(d).key() == self.key(),
            self.with_dist(d).dist() == d,
            self.shifted().key() == self.key(),
            self.shifted().dist() == self.dist(),
    ;

    fn hash_ref(&self) -> (r: &String)
        ensures
            r@ == self.key(),
    ;

    fn distance_of(&self) -> (r: Option<u64>)
        ensures
            r == self.dist(),
    ;

    fn path_ref(&self) -> (r: &String)
        ensures
            r@ == self.file(),
    ;

    fn set_distance(&mut self, d: Option<u64>)
        ensures
            *final(self) == old(self).with_dist(d),
    ;

    fn lines_can_shift(&self) -> (r: bool)
        ensures
            r == self.can_shift(),
    ;

    fn shift_lines(&mut self)
        requires
            old(self).can_shift(),
        ensures
            *final(self) == old(self).shifted(),
    ;
}

impl ResultBlock for CodeBlock {
    open spec fn key(&self) -> Seq<char> {
        self.hash@
    }

    open spec fn dist(&self) -> Option<u64> {
        self.distance
    }

    open spec fn file(&self) -> Seq<char> {
        self.path@
    }

    open spec fn with_dist(self, d: Option<u64>) -> Self {
        CodeBlock { distance: d, ..self }
    }

    open spec fn can_shift(&self) -> bool {
        self.start_line < usize::MAX && self.end_line < usize::MAX
    }

    open spec fn shifted(self) -> Self {
        CodeBlock {
            start_line: (self.start_line + 1) as usize,
            end_line: (self.end_line + 1) as usize,
            ..self
        }
    }

    proof fn lemma_updates(self, d: Option<u64>) {
    }

    fn hash_ref(&self) -> (r: &String) {
        &self.hash
    }

    fn distance_of(&self) -> (r: Option<u64>) {
        self.distance
    }

    fn path_ref(&self) -> (r: &String) {
        &self.path
    }

    fn set_distance(&mut self, d: Option<u64>) {
        self.distance = d;
    }

    fn lines_can_shift(&self) -> (r: bool) {
        self.start_line < usize::MAX && self.end_line < usize::MAX
    }

    fn shift_lines(&mut self) {
        self.start_line = self.start_line + 1;
        self.end_line = self.end_line + 1;
    }
}

impl ResultBlock for DocumentBlock {
    open spec fn key(&self) -> Seq<char> {
        self.hash@
    }

    open spec fn dist(&self) -> Option<u64> {
        self.distance
    }

    open spec fn file(&self) -> Seq<char> {
        self.path@
    }

    open spec fn with_dist(self, d: Option<u64>) -> Self {
        DocumentBlock { distance: d, ..self }
    }

    open spec fn can_shift(&self) -> bool {
        self.start_line < usize::MAX && self.end_line < usize::MAX
    }

    open spec fn shifted(self) -> Self {
        DocumentBlock {
            start_line: (self.start_line + 1) as usize,
            end_line: (self.end_line + 1) as usize,
            ..self
        }
    }

    proof fn lemma_updates(self, d: Option<u64>) {
    }

    fn hash_ref(&self) -> (r: &String) {
        &self.hash
    }

    fn distance_of(&self) -> (r: Option<u64>) {
        self.distance
    }

    fn path_ref(&self) -> (r: &String) {
        &self.path
    }

    fn set_distance(&mut self, d: Option<u64>) {
        self.distance = d;
    }

    fn lines_can_shift(&self) -> (r: bool) {
        self.start_line < usize::MAX && self.end_line < usize::MAX
    }

    fn shift_lines(&mut self) {
        self.start_line = self.start_line + 1;
        self.end_line = self.end_line + 1;
    }
}

impl ResultBlock for TextBlock {
    open spec fn key(&self) -> Seq<char> {
        self.hash@
    }

    open spec fn dist(&self) -> Option<u64> {
        self.distance
    }

    open spec fn file(&self) -> Seq<char> {
        self.path@
    }

    open spec fn with_dist(self, d: Option<u64>) -> Self {
        TextBlock { distance: d, ..self }
    }

    open spec fn can_shift(&self) -> bool {
        self.start_line < usize::MAX && self.end_line < usize::MAX
    }

    open spec fn shifted(self) -> Self {
        TextBlock {
            start_line: (self.start_line + 1) as usize,
            end_line: (self.end_line + 1) as usize,
            ..self
        }
    }

    proof fn lemma_updates(self, d: Option<u64>) {
    }

    fn hash_ref(&self) -> (r: &String) {
        &self.hash
    }

    fn distance_of(&self) -> (r: Option<u64>) {
        self.distance
    }

    fn path_ref(&self) -> (r: &String) {
        &self.path
    }

    fn set_distance(&mut self, d: Option<u64>) {
        self.distance = d;
    }

    fn lines_can_shift(&self) -> (r: bool) {
        self.start_line < usize::MAX && self.end_line < usize::MAX
    }

    fn shift_lines(&mut self) {
        self.start_line = self.start_line + 1;
        self.end_line = self.end_line + 1;
    }
}

} // verus!
