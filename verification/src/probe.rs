//! Containers, by name and by file name.
use vstd::prelude::*;
use crate::text::{same, same_ignoring_case};

verus! {

/// How a file lays out its tracks.
#[derive(Debug, Clone, Copy, PartialEq, Eq, Structural)]
pub enum Container {
    /// An elementary H.264 stream.
    AnnexB,
    WebM,
    Matroska,
    Mp4,
    MpegTs,
}

/// The text behind the last dot of a file name, where one stands behind the
/// last slash and not at its very start.
pub open spec fn extension_from(path: Seq<char>, end: int) -> Option<Seq<char>>
    decreases end,
{
    if end <= 1 || path[end - 1] == '/' {
        None
    } else if path[end - 1] == '.' && path[end - 2] != '/' {
        Some(path.subrange(end, path.len() as int))
    } else if path[end - 1] == '.' {
        None
    } else {
        extension_from(path, end - 1)
    }
}

impl Container {
    /// The name a container goes by.
    pub open spec fn called(self) -> Seq<char> {
        match self {
            Container::AnnexB => "annexb"@,
            Container::WebM => "webm"@,
            Container::Matroska => "matroska"@,
            Container::Mp4 => "mp4"@,
            Container::MpegTs => "mpegts"@,
        }
    }

    /// The container that a name means, by its own name or a short one.
    pub open spec fn named(name: Seq<char>) -> Option<Container> {
        if name == "annexb"@ {
            Some(Container::AnnexB)
        } else if name == "webm"@ {
            Some(Container::WebM)
        } else if name == "matroska"@ || name == "mkv"@ {
            Some(Container::Matroska)
        } else if name == "mp4"@ {
            Some(Container::Mp4)
        } else if name == "mpegts"@ || name == "ts"@ {
            Some(Container::MpegTs)
        } else {
            None
        }
    }

    /// The container that a file name's extension means.
    pub open spec fn extended(extension: Seq<char>) -> Option<Container> {
        let small = crate::text::lower(extension);
        if small == crate::text::lower("h264"@) {
            Some(Container::AnnexB)
        } else if small == crate::text::lower("webm"@) {
            Some(Container::WebM)
        } else if small == crate::text::lower("mkv"@) {
            Some(Container::Matroska)
        } else if small == crate::text::lower("mp4"@) {
            Some(Container::Mp4)
        } else if small == crate::text::lower("ts"@) {
            Some(Container::MpegTs)
        } else {
            None
        }
    }

    /// The container that a path's extension means.
    pub open spec fn at(path: Seq<char>) -> Option<Container> {
        match extension_from(path, path.len() as int) {
            Some(e) => Container::extended(e),
            None => None,
        }
    }

    /// Every container, in the order in which they are listed.
    pub open spec fn spec_all() -> Seq<Container> {
        seq![
            Container::AnnexB,
            Container::WebM,
            Container::Matroska,
            Container::Mp4,
            Container::MpegTs,
        ]
    }

    /// Every container, in the order in which they are listed.
    pub fn all() -> (r: Vec<Container>)
        ensures
            r@ == Container::spec_all(),
    {
        let r = vec![
            Container::AnnexB,
            Container::WebM,
            Container::Matroska,
            Container::Mp4,
            Container::MpegTs,
        ];
        assert(r@ =~= Container::spec_all());
        r
    }

    /// The name a container goes by.
    pub fn name(self) -> (r: &'static str)
        ensures
            r@ == self.called(),
    {
        match self {
            Container::AnnexB => "annexb",
            Container::WebM => "webm",
            Container::Matroska => "matroska",
            Container::Mp4 => "mp4",
            Container::MpegTs => "mpegts",
        }
    }

    /// The container that a name means.
    pub fn from_name(name: &str) -> (r: Option<Container>)
        ensures
            r == Container::named(name@),
    {
        if same(name, "annexb") {
            Some(Container::AnnexB)
        } else if same(name, "webm") {
            Some(Container::WebM)
        } else if same(name, "matroska") || same(name, "mkv") {
            Some(Container::Matroska)
        } else if same(name, "mp4") {
            Some(Container::Mp4)
        } else if same(name, "mpegts") || same(name, "ts") {
            Some(Container::MpegTs)
        } else {
            None
        }
    }

    /// The container that a file name's extension means.
    fn from_extension(extension: &str) -> (r: Option<Container>)
        ensures
            r == Container::extended(extension@),
    {
        if same_ignoring_case(extension, "h264") {
            Some(Container::AnnexB)
        } else if same_ignoring_case(extension, "webm") {
            Some(Container::WebM)
        } else if same_ignoring_case(extension, "mkv") {
            Some(Container::Matroska)
        } else if same_ignoring_case(extension, "mp4") {
            Some(Container::Mp4)
        } else if same_ignoring_case(extension, "ts") {
            Some(Container::MpegTs)
        } else {
            None
        }
    }
}

/// The container that a path's extension means.
pub fn container_from_path(path: &str) -> (r: Option<Container>)
    ensures
        r == Container::at(path@),
{
    let n: usize = path.unicode_len();
    let mut end: usize = n;
    while end > 1
        invariant
            n == path@.len(),
            end <= n,
            Container::at(path@) == (match extension_from(path@, end as int) {
                Some(e) => Container::extended(e),
                None => None,
            }),
        decreases end,
    {
        let c: char = path.get_char(end - 1);
        if c == '/' {
            return None;
        }
        if c == '.' {
            if path.get_char(end - 2) == '/' {
                return None;
            }
            return Container::from_extension(path.substring_char(end, n));
        }
        end = end - 1;
    }
    None
}

/// Every container is found again under its own name.
pub proof fn law_containers_are_found_by_name(c: Container)
    ensures
        Container::named(c.called()) == Some(c),
{
    reveal_strlit("annexb");
    reveal_strlit("webm");
    reveal_strlit("matroska");
    reveal_strlit("mkv");
    reveal_strlit("mp4");
    reveal_strlit("mpegts");
    reveal_strlit("ts");
    assert("annexb"@.len() == 6 && "webm"@.len() == 4 && "matroska"@.len() == 8);
    assert("mkv"@.len() == 3 && "mp4"@.len() == 3 && "mpegts"@.len() == 6 && "ts"@.len() == 2);
    assert("annexb"@[0] == 'a' && "mpegts"@[0] == 'm');
    assert("mp4"@[1] == 'p' && "mkv"@[1] == 'k');
}

} // verus!
