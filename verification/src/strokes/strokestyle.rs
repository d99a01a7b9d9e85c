use vstd::prelude::*;

verus! {

/// The kind of a stroke: one value per variant of the stroke style of the drawing layer.
///
/// The strokes state only needs to know which kind a stroke is: marker and brush strokes
/// can render their newest elements on their own, the other kinds are always rendered whole.
#[derive(Clone, Copy, Debug, PartialEq, Eq, Structural)]
pub enum StrokeKind {
    MarkerStroke,
    BrushStroke,
    ShapeStroke,
    VectorImage,
    BitmapImage,
}

impl StrokeKind {
    /// Strokes of this kind can render only the elements that were appended last.
    pub open spec fn spec_renders_new_elems(self) -> bool {
        self is MarkerStroke || self is BrushStroke
    }

    /// Whether strokes of this kind can render only the elements that were appended last
    /// (marker and brush strokes), instead of being rendered whole.
    pub fn renders_new_elems(&self) -> (r: bool)
        ensures
            r == self.spec_renders_new_elems(),
    {
        match self {
            StrokeKind::MarkerStroke | StrokeKind::BrushStroke => true,
            StrokeKind::ShapeStroke | StrokeKind::VectorImage | StrokeKind::BitmapImage => false,
        }
    }
}

} // verus!
