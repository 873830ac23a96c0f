//! What the drawing code decides without coordinates: text anchors, the
//! SVG backend, and the block that shows an SVG in a notebook.
use vstd::prelude::*;
use crate::text::{push_str, push_string, string_of};

verus! {

/// Where a text is anchored on its position.
#[derive(Debug, Clone, Copy, PartialEq, Eq, Hash, Structural)]
pub enum SVGAnchor {
    Start,
    Middle,
    End,
}

impl SVGAnchor {
    /// The value of the SVG `text-anchor` attribute.
    pub open spec fn spec_text_anchor(self) -> Seq<char> {
        match self {
            SVGAnchor::Start => seq!['s', 't', 'a', 'r', 't'],
            SVGAnchor::Middle => seq!['m', 'i', 'd', 'd', 'l', 'e'],
            SVGAnchor::End => seq!['e', 'n', 'd'],
        }
    }

    /// The value of the SVG `text-anchor` attribute: `start`, `middle` or
    /// `end`.
    pub fn text_anchor(&self) -> (r: String)
        ensures
            r@ == self.spec_text_anchor(),
    {
        let r = match self {
            SVGAnchor::Start => string_of("start"),
            SVGAnchor::Middle => string_of("middle"),
            SVGAnchor::End => string_of("end"),
        };
        proof {
            reveal_strlit("start");
            reveal_strlit("middle");
            reveal_strlit("end");
        }
        r
    }
}

/// The backend that writes a laid-out document as SVG.
#[derive(Debug)]
pub struct SVGBackend {}

impl SVGBackend {
    pub fn new() -> (r: Self) {
        Self {}
    }
}

/// An SVG picture, to be shown by a notebook.
#[derive(Debug)]
pub struct SVGOutput {
    svg: String,
}

/// The line that opens a picture block of a notebook.
pub open spec fn display_head() -> Seq<char> {
    seq![
        'E', 'V', 'C', 'X', 'R', '_', 'B', 'E', 'G', 'I', 'N', '_', 'C', 'O', 'N', 'T', 'E', 'N', 'T', ' ',
        'i', 'm', 'a', 'g', 'e', '/', 's', 'v', 'g', '+', 'x', 'm', 'l', '\n',
    ]
}

/// The line that closes a picture block of a notebook.
pub open spec fn display_tail() -> Seq<char> {
    seq!['\n', 'E', 'V', 'C', 'X', 'R', '_', 'E', 'N', 'D', '_', 'C', 'O', 'N', 'T', 'E', 'N', 'T']
}

impl SVGOutput {
    pub closed spec fn spec_svg(self) -> Seq<char> {
        self.svg@
    }

    pub fn new(svg: String) -> (r: Self)
        ensures
            r.spec_svg() == svg@,
    {
        Self { svg }
    }

    /// The SVG text.
    pub fn svg(&self) -> (r: &str)
        ensures
            r@ == self.spec_svg(),
    {
        self.svg.as_str()
    }

    /// The block that shows the picture in a notebook: a line naming the
    /// content type, the SVG text, and a closing line.
    pub fn display_text(&self) -> (r: String)
        ensures
            r@ == display_head() + self.spec_svg() + display_tail(),
    {
        let mut s = string_of("EVCXR_BEGIN_CONTENT image/svg+xml\n");
        push_string(&mut s, &self.svg);
        push_str(&mut s, "\nEVCXR_END_CONTENT");
        proof {
            reveal_strlit("EVCXR_BEGIN_CONTENT image/svg+xml\n");
            reveal_strlit("\nEVCXR_END_CONTENT");
            assert(s@ =~= display_head() + self.spec_svg() + display_tail());
        }
        s
    }
}

} // verus!
