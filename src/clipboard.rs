use vstd::prelude::*;

verus! {

/// The mime type of a value that carries no type of its own.
pub const DEFAULT_MIME: &'static str = "text/plain";

/// What a clipboard holds, as bytes and the mime type that labels them.
pub struct ClipboardContents {
    pub contents: Vec<u8>,
    pub mime_type: String,
}

/// The model of a clipboard value: its bytes and its mime type.
pub type ContentsView = (Seq<u8>, Seq<char>);

impl View for ClipboardContents {
    type V = ContentsView;

    open spec fn view(&self) -> ContentsView {
        (self.contents@, self.mime_type@)
    }
}

/// A value with no bytes stands for "nothing available".
pub open spec fn is_blank(c: ContentsView) -> bool {
    c.0.len() == 0
}

/// The shared empty value: no bytes, plain text.
pub open spec fn empty_contents() -> ContentsView {
    (Seq::empty(), DEFAULT_MIME@)
}

impl ClipboardContents {
    /// Makes a value from its bytes and its mime type.
    pub fn new(contents: Vec<u8>, mime_type: &str) -> (r: ClipboardContents)
        ensures
            r@ == (contents@, mime_type@),
    {
        ClipboardContents { contents, mime_type: mime_type.to_owned() }
    }

    /// The empty plain-text value.
    pub fn empty() -> (r: ClipboardContents)
        ensures
            r@ == empty_contents(),
    {
        ClipboardContents::new(Vec::new(), DEFAULT_MIME)
    }

    /// Whether the value holds no bytes.
    pub fn is_empty(&self) -> (r: bool)
        ensures
            r == is_blank(self@),
    {
        self.contents.len() == 0
    }

    /// Whether two values hold the same bytes; the mime types are not compared.
    pub fn same_contents(&self, other: &ClipboardContents) -> (r: bool)
        ensures
            r == (self@.0 == other@.0),
    {
        let n = self.contents.len();
        if n != other.contents.len() {
            return false;
        }
        let mut i: usize = 0;
        while i < n
            invariant
                n == self.contents.len(),
                n == other.contents.len(),
                i <= n,
                forall|j: int| 0 <= j < i ==> self.contents@[j] == other.contents@[j],
            decreases n - i,
        {
            if self.contents[i] != other.contents[i] {
                return false;
            }
            i += 1;
        }
        assert(self.contents@ =~= other.contents@);
        true
    }
}

/// anyhow::Error, the error that backend operations report; carried through opaque.
#[verifier::external_type_specification]
#[verifier::external_body]
pub struct ExAnyhowError(anyhow::Error);

/// One clipboard backend: read what it holds, replace it, and name it.
///
/// `get` reports an empty, unowned or unreadable clipboard as the empty value,
/// not as an error; an error means the session is lost. `set` replaces the
/// contents; the backend may go on serving them after the call returns.
pub trait Clipboard {
    fn get(&self) -> Result<ClipboardContents, anyhow::Error>;

    fn set(&self, value: &ClipboardContents) -> Result<(), anyhow::Error>;

    /// A stable display name, such as "Wayland" or "X11".
    fn identify(&self) -> String;
}

impl Default for ClipboardContents {
    fn default() -> (r: ClipboardContents)
        ensures
            r@ == empty_contents(),
    {
        ClipboardContents::empty()
    }
}

} // verus!
