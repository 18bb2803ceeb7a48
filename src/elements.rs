//! Drawable scene elements: filled rectangles, which hold an ordered list
//! of children, and one-line texts, which show an observable's value.
use vstd::prelude::*;
use crate::geometry::BoundingRect;

verus! {

/// A rectangle filled with one color; the parent of the elements listed in
/// its children, drawn after it in that order.
pub struct RectUIElement {
    rect: BoundingRect,
    color: u8,
    children: Vec<usize>,
}

/// A line of text in 8x8 glyph cells, showing the value of node `text` of
/// the signal graph. Text elements have no children.
pub struct TextUIElement {
    text: usize,
    rect: BoundingRect,
}

/// A drawable element of the scene tree.
pub enum UIElement {
    Rect(RectUIElement),
    Text(TextUIElement),
}

impl RectUIElement {
    pub closed spec fn spec_rect(&self) -> BoundingRect {
        self.rect
    }

    pub closed spec fn spec_color(&self) -> u8 {
        self.color
    }

    pub closed spec fn spec_children(&self) -> Seq<usize> {
        self.children@
    }

    /// A childless rectangle at `rect` (relative to its parent) in `color`.
    pub fn new(rect: BoundingRect, color: u8) -> (r: RectUIElement)
        ensures
            r.spec_rect() == rect,
            r.spec_color() == color,
            r.spec_children().len() == 0,
    {
        RectUIElement { rect, color, children: Vec::new() }
    }

    pub fn color(&self) -> (r: u8)
        ensures
            r == self.spec_color(),
    {
        self.color
    }

    pub fn children(&self) -> (r: &Vec<usize>)
        ensures
            r@ == self.spec_children(),
    {
        &self.children
    }

    /// Appends `id` as the last child.
    pub fn insert_child_at_end(&mut self, id: usize)
        ensures
            final(self).spec_rect() == old(self).spec_rect(),
            final(self).spec_color() == old(self).spec_color(),
            final(self).spec_children() == old(self).spec_children().push(id),
    {
        self.children.push(id);
    }
}

impl TextUIElement {
    pub closed spec fn spec_rect(&self) -> BoundingRect {
        self.rect
    }

    pub closed spec fn spec_text(&self) -> usize {
        self.text
    }

    /// A text showing node `text` of the signal graph, at `rect` relative
    /// to its parent; the rect should span whole 8x8 glyph cells.
    pub fn new(text: usize, rect: BoundingRect) -> (r: TextUIElement)
        ensures
            r.spec_text() == text,
            r.spec_rect() == rect,
    {
        TextUIElement { text, rect }
    }

    pub fn text(&self) -> (r: usize)
        ensures
            r == self.spec_text(),
    {
        self.text
    }
}

impl UIElement {
    pub open spec fn spec_rect(&self) -> BoundingRect {
        match self {
            UIElement::Rect(r) => r.spec_rect(),
            UIElement::Text(t) => t.spec_rect(),
        }
    }

    /// The children, in drawing order; a text has none.
    pub open spec fn spec_children(&self) -> Seq<usize> {
        match self {
            UIElement::Rect(r) => r.spec_children(),
            UIElement::Text(_) => Seq::empty(),
        }
    }

    /// Number of children; a text has none.
    pub fn child_count(&self) -> (r: usize)
        ensures
            r == self.spec_children().len(),
    {
        match self {
            UIElement::Rect(r) => r.children.len(),
            UIElement::Text(_) => 0,
        }
    }

    /// Child `i`, in drawing order.
    pub fn child_at(&self, i: usize) -> (r: usize)
        requires
            i < self.spec_children().len(),
        ensures
            r == self.spec_children()[i as int],
    {
        match self {
            UIElement::Rect(r) => r.children[i],
            UIElement::Text(_) => 0,
        }
    }

    /// The rectangle relative to the parent: where the element is queried
    /// for pixels.
    pub fn get_bounding_rect(&self) -> (r: BoundingRect)
        ensures
            r == self.spec_rect(),
    {
        match self {
            UIElement::Rect(r) => r.rect,
            UIElement::Text(t) => t.rect,
        }
    }
}

} // verus!
