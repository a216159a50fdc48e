//! The source data model: a report of styled lines, owned by the caller and
//! read-only for the wrap engine.

use vstd::prelude::*;

verus! {

/// The style-reset escape sequence emitted after every styled slice.
pub const CSI_RESET: &'static str = "\u{1b}[0m";

/// One styled piece of a line: a raw UTF-8 text payload and an optional
/// leading style escape sequence. An empty `csi` means no styling.
#[derive(Debug, Clone)]
pub struct Fragment {
    pub csi: String,
    pub raw: String,
}

/// Mathematical image of a [`Fragment`]: both texts as character sequences.
pub struct FragmentModel {
    pub csi: Seq<char>,
    pub raw: Seq<char>,
}

impl View for Fragment {
    type V = FragmentModel;

    open spec fn view(&self) -> FragmentModel {
        FragmentModel { csi: self.csi@, raw: self.raw@ }
    }
}

/// The semantic kind of a decorated line.
#[derive(Debug, Clone, Copy, PartialEq, Eq, Structural)]
pub enum Kind {
    Error,
    Warning,
}

/// The semantic type of a source line, deciding the left-margin decoration.
#[derive(Debug, Clone, Copy, PartialEq, Eq, Structural)]
pub enum LineType {
    /// An undecorated line; continuation sub-lines always render as this.
    Normal,
    /// The first line of an item of the given kind, with a margin badge.
    Title(Kind),
    /// A separator closing a section; undecorated.
    SectionEnd,
}

impl LineType {
    /// The margin badge drawn before the first sub-line of a line.
    pub open spec fn badge(self) -> Seq<char> {
        match self {
            LineType::Normal => Seq::empty(),
            LineType::Title(Kind::Error) => "err "@,
            LineType::Title(Kind::Warning) => "wrn "@,
            LineType::SectionEnd => Seq::empty(),
        }
    }

    /// How many display columns the margin decoration consumes.
    pub open spec fn cols_spec(self) -> nat {
        match self {
            LineType::Normal => 0,
            LineType::Title(_) => 4,
            LineType::SectionEnd => 0,
        }
    }

    /// How many display columns the margin decoration consumes.
    pub fn cols(self) -> (n: usize)
        ensures
            n as nat == self.cols_spec(),
            n <= 4,
    {
        match self {
            LineType::Normal => 0,
            LineType::Title(_) => 4,
            LineType::SectionEnd => 0,
        }
    }

    /// Draw the margin decoration: the badge of this line type. The badge
    /// here does not depend on the item the line belongs to, so the item
    /// index is accepted and left unused.
    pub fn draw(self, w: &mut crate::sink::Sink, _item_idx: usize) -> (r: Result<
        (),
        crate::sink::WriteError,
    >)
        ensures
            old(w).is_buffer() ==> final(w).is_buffer() && final(w).buffer() == old(w).buffer()
                + self.badge() && r is Ok,
            !old(w).is_buffer() ==> !final(w).is_buffer(),
    {
        match self {
            LineType::Normal => {
                proof {
                    assert(old(w).buffer() + self.badge() =~= old(w).buffer());
                }
                Ok(())
            },
            LineType::SectionEnd => {
                proof {
                    assert(old(w).buffer() + self.badge() =~= old(w).buffer());
                }
                Ok(())
            },
            LineType::Title(Kind::Error) => w.write_str("err "),
            LineType::Title(Kind::Warning) => w.write_str("wrn "),
        }
    }
}

/// One logical, unwrapped line: a semantic type, the index of the item the
/// line belongs to, and its styled content in fragment order.
#[derive(Debug, Clone)]
pub struct Line {
    pub line_type: LineType,
    pub item_idx: usize,
    pub content: Vec<Fragment>,
}

/// Mathematical image of a [`Line`].
pub struct LineModel {
    pub line_type: LineType,
    pub item_idx: int,
    pub content: Seq<FragmentModel>,
}

impl View for Line {
    type V = LineModel;

    open spec fn view(&self) -> LineModel {
        LineModel {
            line_type: self.line_type,
            item_idx: self.item_idx as int,
            content: self.content@.map_values(|f: Fragment| f@),
        }
    }
}

/// An ordered sequence of lines; immutable from the wrap engine's view.
#[derive(Debug, Clone)]
pub struct Report {
    pub lines: Vec<Line>,
}

impl View for Report {
    type V = Seq<LineModel>;

    open spec fn view(&self) -> Seq<LineModel> {
        self.lines@.map_values(|l: Line| l@)
    }
}

} // verus!
