//! The annotations of all outputs.

use vstd::prelude::*;

use crate::canvas::{AnnotationsView, OutputAnnotations, Stroke, StrokeView, TextItem, TextItemView};
use crate::text::same_text;

verus! {

/// The annotations of one output, under the output's name.
#[derive(Debug)]
pub struct Bucket {
    pub name: String,
    pub annotations: OutputAnnotations,
}

/// Annotations of all outputs, grouped by output name. No two buckets have the same name.
#[derive(Debug)]
pub struct Doc {
    pub outputs: Vec<Bucket>,
}

/// What a document is, in the mathematical model: the annotations by output name.
pub type DocView = Map<Seq<char>, AnnotationsView>;

impl View for Doc {
    type V = DocView;

    open spec fn view(&self) -> DocView {
        Map::new(
            |name: Seq<char>| self.has(name),
            |name: Seq<char>| self.outputs@[self.index_of(name)].annotations@,
        )
    }
}

/// The annotations of an output; one without a bucket has none.
pub open spec fn annotations_of(doc: DocView, name: Seq<char>) -> AnnotationsView {
    if doc.dom().contains(name) { doc[name] } else { AnnotationsView::none() }
}

/// The document with one more stroke on an output.
pub open spec fn with_stroke(doc: DocView, name: Seq<char>, stroke: StrokeView) -> DocView {
    let a = annotations_of(doc, name);
    doc.insert(name, AnnotationsView { strokes: a.strokes.push(stroke), texts: a.texts })
}

/// The annotations with a text box in the place of an existing one, or added.
pub open spec fn text_put(
    a: AnnotationsView,
    index: Option<usize>,
    item: TextItemView,
) -> AnnotationsView {
    if index is Some && index->0 < a.texts.len() {
        AnnotationsView { texts: a.texts.update(index->0 as int, item), ..a }
    } else {
        AnnotationsView { texts: a.texts.push(item), ..a }
    }
}

/// The document with a text box put on an output.
pub open spec fn with_text(
    doc: DocView,
    name: Seq<char>,
    index: Option<usize>,
    item: TextItemView,
) -> DocView {
    doc.insert(name, text_put(annotations_of(doc, name), index, item))
}

/// The document without a text box of an output; a text box that is not there changes nothing.
pub open spec fn without_text(doc: DocView, name: Seq<char>, index: usize) -> DocView {
    let a = annotations_of(doc, name);
    if index < a.texts.len() {
        doc.insert(name, AnnotationsView { texts: a.texts.remove(index as int), ..a })
    } else {
        doc
    }
}

/// The document after the eraser touched a point of an output.
pub open spec fn with_erased(doc: DocView, name: Seq<char>, x: i32, y: i32) -> DocView {
    if doc.dom().contains(name) { doc.insert(name, doc[name].erased(x, y)) } else { doc }
}

impl Default for Doc {
    /// A document without annotations.
    fn default() -> (r: Doc)
        ensures
            r.wf(),
            r@ == Map::<Seq<char>, AnnotationsView>::empty(),
    {
        let r = Doc { outputs: Vec::new() };
        proof {
            assert(r@ =~= Map::<Seq<char>, AnnotationsView>::empty());
        }
        r
    }
}

impl Doc {
    /// No two buckets have the same name.
    pub open spec fn wf(self) -> bool {
        forall|i: int, j: int|
            0 <= i < j < self.outputs@.len() ==> (#[trigger] self.outputs@[i]).name@ != (
            #[trigger] self.outputs@[j]).name@
    }

    pub open spec fn has(self, name: Seq<char>) -> bool {
        exists|i: int| 0 <= i < self.outputs@.len() && (#[trigger] self.outputs@[i]).name@ == name
    }

    pub open spec fn index_of(self, name: Seq<char>) -> int {
        choose|i: int| 0 <= i < self.outputs@.len() && (#[trigger] self.outputs@[i]).name@ == name
    }

    fn position(&self, name: &str) -> (r: Option<usize>)
        requires
            self.wf(),
        ensures
            r is Some <==> self@.dom().contains(name@),
            r matches Some(i) ==> i < self.outputs.len() && self.outputs@[i as int].name@ == name@
                && self.outputs@[i as int].annotations@ == self@[name@],
    {
        let mut i: usize = 0;
        while i < self.outputs.len()
            invariant
                i <= self.outputs.len(),
                forall|j: int| 0 <= j < i ==> (#[trigger] self.outputs@[j]).name@ != name@,
                self.wf(),
            decreases self.outputs.len() - i,
        {
            if same_text(self.outputs[i].name.as_str(), name) {
                proof {
                    lemma_bucket(*self, i as int);
                }
                return Some(i);
            }
            i = i + 1;
        }
        None
    }

    /// The annotations of an output, if it has a bucket.
    pub fn get(&self, name: &str) -> (r: Option<&OutputAnnotations>)
        requires
            self.wf(),
        ensures
            r is Some <==> self@.dom().contains(name@),
            r is Some ==> r->0@ == self@[name@],
    {
        match self.position(name) {
            Some(i) => Some(&self.outputs[i].annotations),
            None => None,
        }
    }

    /// Put annotations under a name, in the place of those it had.
    pub fn insert(&mut self, name: &str, annotations: OutputAnnotations)
        requires
            old(self).wf(),
        ensures
            final(self).wf(),
            final(self)@ == old(self)@.insert(name@, annotations@),
    {
        match self.position(name) {
            Some(i) => {
                let ghost before = *self;
                self.outputs[i].annotations = annotations;
                proof {
                    lemma_bucket_replaced(before, *self, i as int);
                }
            },
            None => {
                self.add_bucket(name, annotations);
            },
        }
    }

    fn add_bucket(&mut self, name: &str, annotations: OutputAnnotations)
        requires
            old(self).wf(),
            !old(self)@.dom().contains(name@),
        ensures
            final(self).wf(),
            final(self)@ == old(self)@.insert(name@, annotations@),
            final(self).outputs@.len() == old(self).outputs@.len() + 1,
            final(self).outputs@.last().name@ == name@,
            final(self).outputs@.last().annotations@ == annotations@,
    {
        let ghost before = *self;
        self.outputs.push(Bucket { name: name.to_string(), annotations });
        proof {
            assert(self.outputs@.drop_last() =~= before.outputs@);
            lemma_bucket_added(before, *self);
        }
    }

    /// The place of the output's bucket, which is added where it is missing.
    fn entry(&mut self, name: &str) -> (r: usize)
        requires
            old(self).wf(),
        ensures
            final(self).wf(),
            r < final(self).outputs@.len(),
            final(self).outputs@[r as int].name@ == name@,
            final(self).outputs@[r as int].annotations@ == annotations_of(old(self)@, name@),
            final(self)@ == old(self)@.insert(name@, annotations_of(old(self)@, name@)),
    {
        match self.position(name) {
            Some(i) => {
                proof {
                    assert(self@.insert(name@, self@[name@]) =~= self@);
                }
                i
            },
            None => {
                self.add_bucket(name, OutputAnnotations::default());
                self.outputs.len() - 1
            },
        }
    }

    /// Add a stroke to an output.
    pub fn add_stroke(&mut self, name: &str, stroke: Stroke)
        requires
            old(self).wf(),
        ensures
            final(self).wf(),
            final(self)@ == with_stroke(old(self)@, name@, stroke@),
    {
        let ghost start = self@;
        let i: usize = self.entry(name);
        let ghost before = *self;
        self.outputs[i].annotations.strokes.push(stroke);
        proof {
            lemma_bucket_replaced(before, *self, i as int);
            let a = annotations_of(start, name@);
            let after = AnnotationsView { strokes: a.strokes.push(stroke@), texts: a.texts };
            assert(self.outputs@[i as int].annotations@ =~= after);
            assert(start.insert(name@, a).insert(name@, after) =~= start.insert(name@, after));
        }
    }

    /// Put a text box on an output: in the place of the one at `index`, or added.
    pub fn put_text(&mut self, name: &str, index: Option<usize>, item: TextItem)
        requires
            old(self).wf(),
        ensures
            final(self).wf(),
            final(self)@ == with_text(old(self)@, name@, index, item@),
    {
        let ghost start = self@;
        let i: usize = self.entry(name);
        let ghost before = *self;
        let ghost after = text_put(annotations_of(start, name@), index, item@);
        match index {
            Some(at) if at < self.outputs[i].annotations.texts.len() => {
                self.outputs[i].annotations.texts[at] = item;
            },
            _ => {
                self.outputs[i].annotations.texts.push(item);
            },
        }
        proof {
            lemma_bucket_replaced(before, *self, i as int);
            assert(self.outputs@[i as int].annotations@ =~= after);
            assert(start.insert(name@, annotations_of(start, name@)).insert(name@, after)
                =~= start.insert(name@, after));
        }
    }

    /// Remove a text box of an output; returns whether it was there.
    pub fn remove_text(&mut self, name: &str, index: usize) -> (r: bool)
        requires
            old(self).wf(),
        ensures
            final(self).wf(),
            final(self)@ == without_text(old(self)@, name@, index),
            r == (index < annotations_of(old(self)@, name@).texts.len()),
    {
        match self.position(name) {
            Some(i) => {
                if index >= self.outputs[i].annotations.texts.len() {
                    return false;
                }
                let ghost before = *self;
                self.outputs[i].annotations.texts.remove(index);
                proof {
                    lemma_bucket_replaced(before, *self, i as int);
                    let a = before@[name@];
                    let after = AnnotationsView { texts: a.texts.remove(index as int), ..a };
                    assert(self.outputs@[i as int].annotations@ =~= after);
                }
                true
            },
            None => false,
        }
    }

    /// Erase what the eraser hits on an output; returns whether anything was removed.
    pub fn erase(&mut self, name: &str, x: i32, y: i32) -> (r: bool)
        requires
            old(self).wf(),
        ensures
            final(self).wf(),
            final(self)@ == with_erased(old(self)@, name@, x, y),
            r == (old(self)@.dom().contains(name@) && old(self)@[name@].hit(x, y) is Some),
    {
        match self.position(name) {
            Some(i) => {
                let ghost before = *self;
                let removed: bool = self.outputs[i].annotations.erase(x, y);
                proof {
                    lemma_bucket_replaced(before, *self, i as int);
                }
                removed
            },
            None => false,
        }
    }

    /// Drop every annotation.
    pub fn clear(&mut self)
        ensures
            final(self).wf(),
            final(self)@ == Map::<Seq<char>, AnnotationsView>::empty(),
    {
        self.outputs.clear();
        proof {
            assert(self@ =~= Map::<Seq<char>, AnnotationsView>::empty());
        }
    }
}

proof fn lemma_bucket(doc: Doc, i: int)
    requires
        doc.wf(),
        0 <= i < doc.outputs@.len(),
    ensures
        doc@.dom().contains(doc.outputs@[i].name@),
        doc@[doc.outputs@[i].name@] == doc.outputs@[i].annotations@,
{
    let name = doc.outputs@[i].name@;
    assert(doc.has(name));
    let j = doc.index_of(name);
    assert(doc.outputs@[j].name@ == name);
}

proof fn lemma_bucket_replaced(before: Doc, after: Doc, i: int)
    requires
        before.wf(),
        0 <= i < before.outputs@.len(),
        after.outputs@.len() == before.outputs@.len(),
        after.outputs@[i].name == before.outputs@[i].name,
        forall|j: int|
            0 <= j < before.outputs@.len() && j != i ==> after.outputs@[j] == before.outputs@[j],
    ensures
        after.wf(),
        after@ == before@.insert(before.outputs@[i].name@, after.outputs@[i].annotations@),
{
    assert forall|j: int, k: int| 0 <= j < k < after.outputs@.len() implies (
    #[trigger] after.outputs@[j]).name@ != (#[trigger] after.outputs@[k]).name@ by {
        assert(before.outputs@[j].name@ != before.outputs@[k].name@);
    }
    let name = before.outputs@[i].name@;
    let goal = before@.insert(name, after.outputs@[i].annotations@);
    assert forall|k: Seq<char>| after.has(k) <==> goal.dom().contains(k) by {
        if after.has(k) {
            let j = after.index_of(k);
            assert(before.outputs@[j].name@ == k);
        }
        if before.has(k) {
            let j = before.index_of(k);
            assert(after.outputs@[j].name@ == k);
        }
        assert(after.outputs@[i].name@ == name);
    }
    assert forall|k: Seq<char>| after.has(k) implies after@[k] == goal[k] by {
        let j = after.index_of(k);
        lemma_bucket(after, j);
        lemma_bucket(before, j);
        if j != i {
            assert(after.outputs@[j].name@ != name);
        }
    }
    assert(after@ =~= goal);
}

proof fn lemma_bucket_added(before: Doc, after: Doc)
    requires
        before.wf(),
        after.outputs@.len() == before.outputs@.len() + 1,
        after.outputs@.drop_last() == before.outputs@,
        !before@.dom().contains(after.outputs@.last().name@),
    ensures
        after.wf(),
        after@ == before@.insert(after.outputs@.last().name@, after.outputs@.last().annotations@),
{
    let n = before.outputs@.len() as int;
    let name = after.outputs@[n].name@;
    assert forall|j: int| 0 <= j < n implies after.outputs@[j] == before.outputs@[j] by {
        assert(after.outputs@.drop_last()[j] == before.outputs@[j]);
    }
    assert forall|j: int, k: int| 0 <= j < k < after.outputs@.len() implies (
    #[trigger] after.outputs@[j]).name@ != (#[trigger] after.outputs@[k]).name@ by {
        if k == n {
            assert(!before.has(name));
            assert(before.outputs@[j].name@ != name);
        } else {
            assert(before.outputs@[j].name@ != before.outputs@[k].name@);
        }
    }
    let goal = before@.insert(name, after.outputs@[n].annotations@);
    assert forall|k: Seq<char>| after.has(k) <==> goal.dom().contains(k) by {
        if after.has(k) {
            let j = after.index_of(k);
            if j < n {
                assert(before.outputs@[j].name@ == k);
            }
        }
        if before.has(k) {
            let j = before.index_of(k);
            assert(after.outputs@[j].name@ == k);
        }
        assert(after.outputs@[n].name@ == name);
    }
    assert forall|k: Seq<char>| after.has(k) implies after@[k] == goal[k] by {
        let j = after.index_of(k);
        lemma_bucket(after, j);
        if j < n {
            lemma_bucket(before, j);
            assert(after.outputs@[j].name@ != name);
        }
    }
    assert(after@ =~= goal);
}

/// Annotating or erasing on one output leaves the annotations of every other output alone.
pub proof fn outputs_are_independent(
    doc: DocView,
    name: Seq<char>,
    other: Seq<char>,
    stroke: StrokeView,
    index: Option<usize>,
    item: TextItemView,
    x: i32,
    y: i32,
)
    requires
        other != name,
    ensures
        annotations_of(with_stroke(doc, name, stroke), other) == annotations_of(doc, other),
        annotations_of(with_text(doc, name, index, item), other) == annotations_of(doc, other),
        annotations_of(with_erased(doc, name, x, y), other) == annotations_of(doc, other),
        index is Some ==> annotations_of(without_text(doc, name, index->0), other)
            == annotations_of(doc, other),
{
}

/// What an output holds once it was annotated: a stroke is the last one, a text box is where the
/// one it stands for was, or the last one, a removed one is gone with the others in order, and
/// what was not annotated is as it was.
pub proof fn annotating_changes_what_it_says(
    doc: DocView,
    name: Seq<char>,
    stroke: StrokeView,
    index: Option<usize>,
    item: TextItemView,
    at: usize,
    i: int,
)
    ensures
        ({
            let a = annotations_of(doc, name);
            let drawn = annotations_of(with_stroke(doc, name, stroke), name);
            let put = annotations_of(with_text(doc, name, index, item), name);
            let removed = annotations_of(without_text(doc, name, at), name);
            let n = a.texts.len();
            let place = if index is Some && index->0 < n { index->0 as int } else { n as int };
            &&& drawn.texts == a.texts
            &&& drawn.strokes.len() == a.strokes.len() + 1
            &&& drawn.strokes.last() == stroke
            &&& 0 <= i < a.strokes.len() ==> drawn.strokes[i] == a.strokes[i]
            &&& put.strokes == a.strokes
            &&& put.texts[place] == item
            &&& put.texts.len() == (if place < n { n } else { n + 1 })
            &&& 0 <= i < n && i != place ==> put.texts[i] == a.texts[i]
            &&& removed.strokes == a.strokes
            &&& at >= n ==> removed.texts == a.texts
            &&& at < n ==> removed.texts.len() == n - 1
            &&& at < n && 0 <= i < at ==> removed.texts[i] == a.texts[i]
            &&& at < i < n ==> removed.texts[i - 1] == a.texts[i]
        }),
{
}

} // verus!
