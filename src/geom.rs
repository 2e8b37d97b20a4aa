use vstd::prelude::*;

verus! {

/// An axis-aligned rectangle of whole pixels: it covers the pixels `(x, y)` with
/// `top_left.0 <= x < bottom_right.0` and `top_left.1 <= y < bottom_right.1`.
/// A rectangle whose far corner is not beyond its near corner covers nothing.
#[derive(Clone, Copy, Debug, PartialEq, Eq, Structural)]
pub struct Rect {
    pub x0: i32,
    pub y0: i32,
    pub x1: i32,
    pub y1: i32,
}

impl Rect {
    /// Whether the rectangle covers the pixel `(x, y)`.
    pub open spec fn covers(self, x: int, y: int) -> bool {
        self.x0 <= x < self.x1 && self.y0 <= y < self.y1
    }

    /// Whether the rectangle covers no pixel at all.
    pub open spec fn is_empty_spec(self) -> bool {
        self.x1 <= self.x0 || self.y1 <= self.y0
    }

    /// The rectangle with corners `top_left` and `bottom_right`.
    pub fn from_tuples(top_left: (i32, i32), bottom_right: (i32, i32)) -> (r: Rect)
        ensures
            r == (Rect { x0: top_left.0, y0: top_left.1, x1: bottom_right.0, y1: bottom_right.1 }),
    {
        Rect { x0: top_left.0, y0: top_left.1, x1: bottom_right.0, y1: bottom_right.1 }
    }

    /// Whether the rectangle covers the pixel `(x, y)`.
    pub fn contains(&self, x: i32, y: i32) -> (b: bool)
        ensures
            b == self.covers(x as int, y as int),
    {
        self.x0 <= x && x < self.x1 && self.y0 <= y && y < self.y1
    }

    /// Whether the rectangle covers no pixel.
    pub fn is_empty(&self) -> (b: bool)
        ensures
            b == self.is_empty_spec(),
            b <==> forall|x: int, y: int| !self.covers(x, y),
    {
        if self.x1 <= self.x0 || self.y1 <= self.y0 {
            true
        } else {
            assert(self.covers(self.x0 as int, self.y0 as int));
            false
        }
    }

    /// The rectangle of the pixels that both rectangles cover (possibly empty).
    pub fn intersect(&self, other: &Rect) -> (r: Rect)
        ensures
            forall|x: int, y: int| r.covers(x, y) <==> (self.covers(x, y) && other.covers(x, y)),
    {
        Rect {
            x0: if self.x0 >= other.x0 { self.x0 } else { other.x0 },
            y0: if self.y0 >= other.y0 { self.y0 } else { other.y0 },
            x1: if self.x1 <= other.x1 { self.x1 } else { other.x1 },
            y1: if self.y1 <= other.y1 { self.y1 } else { other.y1 },
        }
    }
}

/// Whether every rectangle of `clips` covers the pixel `(x, y)`; an empty
/// sequence admits every pixel.
pub open spec fn clips_admit(clips: Seq<Rect>, x: int, y: int) -> bool {
    forall|i: int| 0 <= i < clips.len() ==> #[trigger] clips[i].covers(x, y)
}

/// A stack of nested clip rectangles. The effective clip is the intersection of
/// all entries; an empty stack leaves the whole surface writable.
pub struct ClipStack {
    pub entries: Vec<Rect>,
}

impl View for ClipStack {
    type V = Seq<Rect>;

    open spec fn view(&self) -> Seq<Rect> {
        self.entries@
    }
}

impl ClipStack {
    /// An empty stack: nothing is clipped.
    pub fn new() -> (s: ClipStack)
        ensures
            s@ == Seq::<Rect>::empty(),
    {
        ClipStack { entries: Vec::new() }
    }

    /// Pushes a clip rectangle, narrowing the effective clip.
    pub fn push(&mut self, r: Rect)
        ensures
            final(self)@ == old(self)@.push(r),
    {
        self.entries.push(r);
    }

    /// Removes the innermost clip rectangle, if any.
    pub fn pop(&mut self) -> (r: Option<Rect>)
        ensures
            old(self)@.len() == 0 ==> r is None && final(self)@ == old(self)@,
            old(self)@.len() > 0 ==> r == Some(old(self)@.last()) && final(self)@ == old(
                self,
            )@.drop_last(),
    {
        self.entries.pop()
    }

    /// Removes every clip rectangle.
    pub fn clear(&mut self)
        ensures
            final(self)@ == Seq::<Rect>::empty(),
    {
        self.entries.clear();
    }

    /// The intersection of all entries, or `None` when the stack is empty.
    pub fn effective(&self) -> (r: Option<Rect>)
        ensures
            self@.len() == 0 <==> r is None,
            r matches Some(c) ==> forall|x: int, y: int| c.covers(x, y) <==> clips_admit(self@, x, y),
    {
        if self.entries.len() == 0 {
            return None;
        }
        let mut acc = self.entries[0];
        let mut i: usize = 1;
        proof {
            let s1 = self@.take(1);
            assert forall|x: int, y: int| acc.covers(x, y) <==> clips_admit(s1, x, y) by {
                assert(s1[0] == acc);
            }
        }
        while i < self.entries.len()
            invariant
                1 <= i <= self.entries@.len(),
                forall|x: int, y: int| acc.covers(x, y) <==> clips_admit(self@.take(i as int), x, y),
            decreases self.entries@.len() - i,
        {
            let next = acc.intersect(&self.entries[i]);
            proof {
                let s = self@.take(i as int);
                let s2 = self@.take(i + 1);
                assert(s2 =~= s.push(self@[i as int]));
                assert forall|x: int, y: int| next.covers(x, y) <==> clips_admit(s2, x, y) by {
                    if clips_admit(s2, x, y) {
                        assert forall|j: int| 0 <= j < s.len() implies #[trigger] s[j].covers(x, y) by {
                            assert(s2[j] == s[j]);
                        }
                        assert(s2[i as int] == self@[i as int]);
                    }
                    if next.covers(x, y) {
                        assert forall|j: int| 0 <= j < s2.len() implies #[trigger] s2[j].covers(x, y) by {
                            if j < i {
                                assert(s2[j] == s[j]);
                            }
                        }
                    }
                }
            }
            acc = next;
            i = i + 1;
        }
        proof {
            assert(self@.take(i as int) =~= self@);
        }
        Some(acc)
    }
}

} // verus!
