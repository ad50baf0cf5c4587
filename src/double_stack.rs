use vstd::prelude::*;

verus! {

/// A stack of frames. Values are pushed onto the topmost frame or as the base
/// of a new frame; popping takes from the topmost frame and discards a frame
/// as soon as it is empty.
pub struct DoubleStack<T: Copy> {
    stack: Vec<Vec<T>>,
}

impl<T: Copy> View for DoubleStack<T> {
    type V = Seq<Seq<T>>;

    /// The frames, bottom first; each frame's values bottom first.
    closed spec fn view(&self) -> Seq<Seq<T>> {
        self.stack@.map_values(|f: Vec<T>| f@)
    }
}

impl<T: Copy> DoubleStack<T> {
    /// No frame is empty, unless the stack is still the fresh one empty frame.
    pub open spec fn wf(&self) -> bool {
        self@ == seq![Seq::<T>::empty()] || forall|k: int| 0 <= k < self@.len() ==> (#[trigger] self@[k]).len() > 0
    }

    /// A stack holding one empty frame.
    pub fn new() -> (r: DoubleStack<T>)
        ensures
            r@ == seq![Seq::<T>::empty()],
            r.wf(),
    {
        let r = DoubleStack { stack: vec![Vec::new()] };
        assert(r@ =~= seq![Seq::<T>::empty()]);
        r
    }

    /// Pushes `value` onto the topmost frame.
    pub fn push_simple(&mut self, value: T)
        requires
            old(self)@.len() > 0,
        ensures
            final(self)@ == old(self)@.update(
                old(self)@.len() - 1,
                old(self)@.last().push(value),
            ),
            old(self).wf() ==> final(self).wf(),
    {
        let top_index = self.stack.len() - 1;
        let ghost before = self.stack@;
        let mut top: Vec<T> = Vec::new();
        std::mem::swap(&mut top, &mut self.stack[top_index]);
        top.push(value);
        std::mem::swap(&mut top, &mut self.stack[top_index]);
        assert(self@ =~= old(self)@.update(old(self)@.len() - 1, old(self)@.last().push(value)));
        assert(old(self).wf() ==> self.wf()) by {
            if old(self).wf() {
                assert forall|k: int| 0 <= k < self@.len() implies (#[trigger] self@[k]).len() > 0 by {
                    if k < self@.len() - 1 {
                        assert(self@[k] == old(self)@[k]);
                    }
                }
            }
        }
    }

    /// Opens a new frame with `value` at its base. A stack that holds only
    /// one empty frame loses that frame first.
    pub fn push_new_layer(&mut self, value: T)
        ensures
            final(self)@ == (if old(self)@ == seq![Seq::<T>::empty()] {
                seq![seq![value]]
            } else {
                old(self)@.push(seq![value])
            }),
            old(self).wf() ==> final(self).wf(),
    {
        let new_layer = vec![value];
        let ghost was_fresh = self@ == seq![Seq::<T>::empty()];
        if self.stack.len() == 1 && self.stack[0].len() == 0 {
            assert(old(self)@[0] =~= Seq::<T>::empty());
            assert(old(self)@ =~= seq![Seq::<T>::empty()]);
            self.stack.pop();
        } else {
            assert(!was_fresh) by {
                if was_fresh {
                    assert(self@.len() == 1);
                    assert(self@[0].len() == 0);
                }
            }
        }
        self.stack.push(new_layer);
        assert(new_layer@ =~= seq![value]);
        assert(self@ =~= (if was_fresh { seq![seq![value]] } else { old(self)@.push(seq![value]) }));
        assert(old(self).wf() ==> self.wf()) by {
            if old(self).wf() {
                assert forall|k: int| 0 <= k < self@.len() implies (#[trigger] self@[k]).len() > 0 by {
                    if was_fresh {
                        assert(self@[k] == seq![value]);
                    } else if k < old(self)@.len() {
                        assert(self@[k] == old(self)@[k]);
                    } else {
                        assert(self@[k] == seq![value]);
                    }
                }
            }
        }
    }

    /// Pops the last value of the topmost frame, and discards that frame if
    /// it is left empty.
    pub fn pop(&mut self) -> (r: T)
        requires
            old(self)@.len() > 0,
            old(self)@.last().len() > 0,
        ensures
            r == old(self)@.last().last(),
            final(self)@ == (if old(self)@.last().len() == 1 {
                old(self)@.drop_last()
            } else {
                old(self)@.update(old(self)@.len() - 1, old(self)@.last().drop_last())
            }),
            old(self).wf() ==> final(self).wf(),
    {
        let top_index = self.stack.len() - 1;
        let mut top: Vec<T> = Vec::new();
        std::mem::swap(&mut top, &mut self.stack[top_index]);
        assert(top@ == old(self)@.last());
        let val = top.pop().unwrap();
        if top.len() == 0 {
            self.stack.pop();
            assert(self@ =~= old(self)@.drop_last());
        } else {
            std::mem::swap(&mut top, &mut self.stack[top_index]);
            assert(self@ =~= old(self)@.update(old(self)@.len() - 1, old(self)@.last().drop_last()));
        }
        assert(old(self).wf() ==> self.wf()) by {
            if old(self).wf() {
                assert(old(self)@ != seq![Seq::<T>::empty()]) by {
                    if old(self)@ == seq![Seq::<T>::empty()] {
                        assert(old(self)@.last().len() == 0);
                    }
                }
                assert forall|k: int| 0 <= k < self@.len() implies (#[trigger] self@[k]).len() > 0 by {
                    if k < old(self)@.len() - 1 {
                        assert(self@[k] == old(self)@[k]);
                    }
                }
            }
        }
        val
    }

    /// Whether no frame is left.
    pub fn is_empty(&self) -> (r: bool)
        ensures
            r == (self@.len() == 0),
    {
        self.stack.len() == 0
    }

    /// The number of frames.
    pub fn len(&self) -> (r: usize)
        ensures
            r == self@.len(),
    {
        self.stack.len()
    }
}

/// `b` is `a` with values added on top of its topmost frame.
pub open spec fn top_grown<T>(a: Seq<Seq<T>>, b: Seq<Seq<T>>) -> bool {
    &&& a.len() > 0
    &&& b.len() == a.len()
    &&& b.drop_last() == a.drop_last()
    &&& a.last().len() <= b.last().len()
    &&& b.last().take(a.last().len() as int) == a.last()
}

/// The values added on top of the topmost frame from `a` to `b`.
pub open spec fn pushed<T>(a: Seq<Seq<T>>, b: Seq<Seq<T>>) -> Seq<T> {
    b.last().skip(a.last().len() as int)
}

pub proof fn lemma_top_grown_refl<T>(a: Seq<Seq<T>>)
    requires
        a.len() > 0,
    ensures
        top_grown(a, a),
        pushed(a, a) == Seq::<T>::empty(),
{
    assert(a.last().take(a.last().len() as int) =~= a.last());
    assert(pushed(a, a) =~= Seq::<T>::empty());
}

pub proof fn lemma_top_grown_push<T>(a: Seq<Seq<T>>, v: T)
    requires
        a.len() > 0,
    ensures
        top_grown(a, a.update(a.len() - 1, a.last().push(v))),
        pushed(a, a.update(a.len() - 1, a.last().push(v))) == seq![v],
{
    let b = a.update(a.len() - 1, a.last().push(v));
    assert(b.drop_last() =~= a.drop_last());
    assert(b.last().take(a.last().len() as int) =~= a.last());
    assert(pushed(a, b) =~= seq![v]);
}

pub proof fn lemma_top_grown_trans<T>(a: Seq<Seq<T>>, b: Seq<Seq<T>>, c: Seq<Seq<T>>)
    requires
        top_grown(a, b),
        top_grown(b, c),
    ensures
        top_grown(a, c),
        pushed(a, c) == pushed(a, b) + pushed(b, c),
{
    assert(c.last().take(a.last().len() as int) =~= a.last()) by {
        assert(c.last().take(a.last().len() as int) =~= c.last().take(b.last().len() as int).take(
            a.last().len() as int,
        ));
    }
    assert(pushed(a, c) =~= pushed(a, b) + pushed(b, c)) by {
        assert(b.last() == c.last().take(b.last().len() as int));
    }
}

} // verus!
